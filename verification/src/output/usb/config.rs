//! The configuration of a DAC as it describes itself, and the native DSD path found in it.

use crate::output::usb::descriptors;
use crate::output::usb::descriptors::{Candidate, DescriptorError, NativeDsd, Search};
use vstd::prelude::*;

verus! {

/// A descriptor: its kind, and what stands behind its length and its kind.
pub struct Descriptor {
    pub kind: u8,
    pub body: Seq<u8>,
}

pub open spec fn list_bytes(list: Seq<Descriptor>) -> Seq<u8>
    decreases list.len(),
{
    if list.len() == 0 {
        Seq::empty()
    } else {
        seq![(list[0].body.len() + 2) as u8, list[0].kind] + list[0].body + list_bytes(list.skip(1))
    }
}

/// What descriptors show, one after the other.
pub open spec fn shown(list: Seq<Descriptor>, search: Search) -> Search
    decreases list.len(),
{
    if list.len() == 0 {
        search
    } else {
        shown(list.skip(1), search.read(list[0].kind, list[0].body))
    }
}

pub open spec fn all_fit(list: Seq<Descriptor>) -> bool {
    forall|i: int| 0 <= i < list.len() ==> (#[trigger] list[i]).body.len() <= 253
}

proof fn lemma_walk(config: Seq<u8>, at: int, list: Seq<Descriptor>, search: Search)
    requires
        all_fit(list),
        0 <= at <= config.len(),
        config.skip(at) == list_bytes(list),
    ensures
        descriptors::walked(config, at, search) == shown(list, search),
    decreases list.len(),
{
    let left = config.skip(at);
    if list.len() == 0 {
        assert(left.len() == 0);
    } else {
        let body = list[0].body;
        let rest = list.skip(1);
        assert(list[0].body.len() <= 253);
        let head = seq![(body.len() + 2) as u8, list[0].kind] + body;
        assert(left == head + list_bytes(rest));
        assert(config[at] == left[0] && left[0] == head[0]);
        assert(config[at + 1] == left[1] && left[1] == head[1]);
        assert(head[0] as int == body.len() + 2);
        let end = at + body.len() + 2;
        assert(config.subrange(at + 2, end) =~= body) by {
            assert forall|i: int| 0 <= i < body.len() implies config.subrange(at + 2, end)[i]
                == body[i] by {
                assert(config[at + 2 + i] == left[2 + i]);
                assert(left[2 + i] == head[2 + i]);
            }
        }
        assert(config.skip(end) =~= list_bytes(rest)) by {
            assert forall|i: int| 0 <= i < list_bytes(rest).len() implies config.skip(end)[i]
                == list_bytes(rest)[i] by {
                assert(config[end + i] == left[head.len() + i]);
            }
        }
        assert forall|i: int| 0 <= i < rest.len() implies (#[trigger] rest[i]).body.len() <= 253 by {
            assert(rest[i] == list[i + 1]);
        }
        lemma_walk(config, end, rest, search.read(list[0].kind, body));
    }
}

/// Every descriptor of a configuration is read, in order.
pub proof fn every_descriptor_is_read(list: Seq<Descriptor>, search: Search)
    requires
        all_fit(list),
    ensures
        descriptors::walked(list_bytes(list), 0, search) == shown(list, search),
{
    assert(list_bytes(list).skip(0) =~= list_bytes(list));
    lemma_walk(list_bytes(list), 0, list, search);
}

proof fn lemma_shown(first: Seq<Descriptor>, second: Seq<Descriptor>, search: Search)
    ensures
        shown(first + second, search) == shown(second, shown(first, search)),
    decreases first.len(),
{
    if first.len() == 0 {
        assert(first + second =~= second);
    } else {
        assert((first + second)[0] == first[0]);
        assert((first + second).skip(1) =~= first.skip(1) + second);
        lemma_shown(first.skip(1), second, search.read(first[0].kind, first[0].body));
    }
}

/// A descriptor that is not of an interface (4), of an endpoint (5) or class-specific (0x24)
/// changes nothing, wherever it stands.
pub proof fn a_descriptor_of_another_kind_is_stepped_over(
    before: Seq<Descriptor>,
    other: Descriptor,
    after: Seq<Descriptor>,
)
    requires
        all_fit(before + seq![other] + after),
        other.kind != 4,
        other.kind != 5,
        other.kind != 0x24,
    ensures
        descriptors::native_path(list_bytes(before + seq![other] + after))
            == descriptors::native_path(list_bytes(before + after)),
{
    let whole = before + seq![other] + after;
    let without = before + after;
    let start = Search::start();
    assert forall|i: int| 0 <= i < without.len() implies (#[trigger] without[i]).body.len() <= 253 by {
        if i < before.len() {
            assert(without[i] == whole[i]);
        } else {
            assert(without[i] == whole[i + 1]);
        }
    }
    every_descriptor_is_read(whole, start);
    every_descriptor_is_read(without, start);
    lemma_shown(before + seq![other], after, start);
    lemma_shown(before, seq![other], start);
    lemma_shown(before, after, start);
    assert(seq![other].skip(1) =~= Seq::empty());
    reveal_with_fuel(shown, 2);
    let now = shown(before, start);
    assert(shown(seq![other], now) == now);
}

/// A clock source: its number, and whether the host can set its frequency.
pub struct Clock {
    pub id: u8,
    pub attributes: u8,
    pub settable: bool,
}

/// An alternate setting of a streaming interface.
pub struct Alternate {
    pub interface: u8,
    pub setting: u8,
    /// Its format is raw data and not PCM.
    pub raw: bool,
    pub subslot: u8,
    pub out: u8,
    pub packet: u16,
    pub feedback: Option<u8>,
}

pub open spec fn clock_descriptor(clock: Clock) -> Descriptor {
    Descriptor {
        kind: 0x24,
        body: seq![
            0x0Au8,
            clock.id,
            clock.attributes,
            if clock.settable {
                7
            } else {
                5
            },
            0,
        ],
    }
}

/// The descriptors of an alternate setting: the interface, whose class is audio and whose
/// subclass is streaming; its format; how wide its samples are; and its endpoints.
pub open spec fn alternate_descriptors(alternate: Alternate) -> Seq<Descriptor> {
    seq![
        Descriptor {
            kind: 4,
            body: seq![alternate.interface, alternate.setting, 1, 1, 2, 0x20, 0],
        },
        Descriptor {
            kind: 0x24,
            body: seq![
                1u8,
                1,
                0,
                1,
                0,
                0,
                0,
                if alternate.raw {
                    0x80
                } else {
                    0
                },
                2,
            ],
        },
        Descriptor { kind: 0x24, body: seq![2u8, 1, alternate.subslot, 32] },
        Descriptor {
            kind: 5,
            body: seq![
                alternate.out,
                5,
                (alternate.packet % 256) as u8,
                (alternate.packet / 256) as u8,
                1,
            ],
        },
    ] + (match alternate.feedback {
        Some(address) => seq![Descriptor { kind: 5, body: seq![address, 0x11u8, 4, 0, 4] }],
        None => Seq::empty(),
    })
}

/// Addresses of endpoints say which way they go.
pub open spec fn is_alternate(alternate: Alternate) -> bool {
    alternate.out < 0x80 && (alternate.feedback matches Some(address) ==> address >= 0x80)
}

pub open spec fn clocks_descriptors(clocks: Seq<Clock>) -> Seq<Descriptor> {
    Seq::new(clocks.len(), |i: int| clock_descriptor(clocks[i]))
}

pub open spec fn alternates_descriptors(alternates: Seq<Alternate>) -> Seq<Descriptor>
    decreases alternates.len(),
{
    if alternates.len() == 0 {
        Seq::empty()
    } else {
        alternate_descriptors(alternates[0]) + alternates_descriptors(alternates.skip(1))
    }
}

/// A DAC: an interface that controls it, whose class is audio and whose subclass is control, with
/// its clocks, and the settings it streams in.
pub open spec fn dac(control: u8, clocks: Seq<Clock>, alternates: Seq<Alternate>) -> Seq<
    Descriptor,
> {
    seq![Descriptor { kind: 4, body: seq![control, 0u8, 0, 1, 1, 0x20, 0] }] + clocks_descriptors(
        clocks,
    ) + alternates_descriptors(alternates)
}

/// A setting that native DSD goes through: raw data, 32 bits of a channel at a time.
pub open spec fn carries_dsd(alternate: Alternate) -> bool {
    alternate.raw && alternate.subslot == 4
}

/// The first setting that native DSD goes through.
pub open spec fn first_native(alternates: Seq<Alternate>) -> Option<Alternate>
    decreases alternates.len(),
{
    if alternates.len() == 0 {
        None
    } else if carries_dsd(alternates[0]) {
        Some(alternates[0])
    } else {
        first_native(alternates.skip(1))
    }
}

/// The first clock that the host can set, if there is one.
pub open spec fn first_settable(clocks: Seq<Clock>) -> Option<u8>
    decreases clocks.len(),
{
    if clocks.len() == 0 {
        None
    } else if clocks[0].settable {
        Some(clocks[0].id)
    } else {
        first_settable(clocks.skip(1))
    }
}

spec fn candidate_of(alternate: Alternate) -> Candidate {
    Candidate {
        interface: alternate.interface,
        alt_setting: alternate.setting,
        raw_data: alternate.raw,
        subslot_bytes: alternate.subslot,
        out_endpoint: Some(alternate.out),
        feedback_endpoint: alternate.feedback,
        max_packet: alternate.packet,
    }
}

proof fn lemma_alternate(alternate: Alternate, search: Search)
    requires
        is_alternate(alternate),
    ensures
        ({
            let now = shown(alternate_descriptors(alternate), search);
            &&& now.candidate == candidate_of(alternate)
            &&& now.found == search.settled().found
            &&& now.control_interface == search.control_interface
            &&& now.clock_id == search.clock_id
            &&& now.clock_fallback == search.clock_fallback
        }),
{
    let list = alternate_descriptors(alternate);
    let one = search.read(list[0].kind, list[0].body);
    assert(one.candidate == Candidate {
        interface: alternate.interface,
        alt_setting: alternate.setting,
        ..Candidate::nothing()
    });
    assert(one.current matches Some(interface) && interface.streams() && !interface.controls());
    let two = one.read(list[1].kind, list[1].body);
    assert(list[1].body.skip(1)[6] == list[1].body[7]);
    assert(two == Search {
        candidate: Candidate { raw_data: alternate.raw, ..one.candidate },
        ..one
    });
    let three = two.read(list[2].kind, list[2].body);
    assert(list[2].body.skip(1)[1] == list[2].body[2]);
    assert(three == Search {
        candidate: Candidate { subslot_bytes: alternate.subslot, ..two.candidate },
        ..two
    });
    let four = three.read(list[3].kind, list[3].body);
    let body = list[3].body;
    assert(5u8 % 4 == 1);
    assert(body[0] == alternate.out && body[1] == 5 && body[2] == alternate.packet % 256 && body[3]
        == alternate.packet / 256);
    assert(four.candidate == Candidate {
        out_endpoint: Some(alternate.out),
        max_packet: alternate.packet,
        ..three.candidate
    });
    assert(list.skip(1).skip(1).skip(1).skip(1) =~= list.skip(4));
    assert(list.skip(1)[0] == list[1]);
    assert(list.skip(1).skip(1)[0] == list[2]);
    assert(list.skip(1).skip(1).skip(1)[0] == list[3]);
    assert(shown(list, search) == shown(list.skip(4), four)) by {
        assert(shown(list, search) == shown(list.skip(1), one));
        assert(shown(list.skip(1), one) == shown(list.skip(1).skip(1), two));
        assert(shown(list.skip(1).skip(1), two) == shown(list.skip(1).skip(1).skip(1), three));
    }
    match alternate.feedback {
        Some(address) => {
            let last = list.skip(4);
            assert(last[0] == list[4]);
            assert(last.skip(1).len() == 0);
            assert(0x11u8 % 4 == 1);
            assert(shown(last, four) == shown(last.skip(1), four.read(last[0].kind, last[0].body)));
        },
        None => {
            assert(list.skip(4).len() == 0);
        },
    }
}

proof fn lemma_alternates(alternates: Seq<Alternate>, search: Search)
    requires
        forall|i: int| 0 <= i < alternates.len() ==> is_alternate(#[trigger] alternates[i]),
    ensures
        ({
            let now = shown(alternates_descriptors(alternates), search);
            &&& now.settled().found == (match search.settled().found {
                Some(found) => Some(found),
                None => match first_native(alternates) {
                    Some(alternate) => Some(candidate_of(alternate)),
                    None => None,
                },
            })
            &&& now.control_interface == search.control_interface
            &&& now.clock_id == search.clock_id
            &&& now.clock_fallback == search.clock_fallback
        }),
    decreases alternates.len(),
{
    if alternates.len() > 0 {
        let rest = alternates.skip(1);
        assert(is_alternate(alternates[0]));
        lemma_alternate(alternates[0], search);
        assert forall|i: int| 0 <= i < rest.len() implies is_alternate(#[trigger] rest[i]) by {
            assert(rest[i] == alternates[i + 1]);
        }
        let now = shown(alternate_descriptors(alternates[0]), search);
        lemma_alternates(rest, now);
        lemma_shown(alternate_descriptors(alternates[0]), alternates_descriptors(rest), search);
    }
}

proof fn lemma_clocks(clocks: Seq<Clock>, search: Search)
    requires
        search.current matches Some(interface) && interface.controls(),
    ensures
        shown(clocks_descriptors(clocks), search) == (Search {
            clock_id: match search.clock_id {
                Some(id) => Some(id),
                None => first_settable(clocks),
            },
            clock_fallback: match search.clock_fallback {
                Some(id) => Some(id),
                None => if clocks.len() > 0 {
                    Some(clocks[0].id)
                } else {
                    None
                },
            },
            ..search
        }),
    decreases clocks.len(),
{
    let list = clocks_descriptors(clocks);
    if clocks.len() > 0 {
        let one = list[0];
        assert(one == clock_descriptor(clocks[0]));
        let fields = one.body.skip(1);
        assert(fields[0] == one.body[1] && fields[2] == one.body[3]);
        assert(7u8 % 4 == 3 && 5u8 % 4 != 3);
        assert(list.skip(1) =~= clocks_descriptors(clocks.skip(1)));
        lemma_clocks(clocks.skip(1), search.read(one.kind, one.body));
    }
}

/// The native path of a DAC is its first setting of raw data in subslots of four bytes, whatever
/// other settings stand before and behind it; its clock is the first that the host can set, or
/// the first of all where there is none such. Without a setting of that kind, or without a
/// clock, there is no path.
pub proof fn the_native_path_is_the_first_raw_setting(
    control: u8,
    clocks: Seq<Clock>,
    alternates: Seq<Alternate>,
)
    requires
        forall|i: int| 0 <= i < alternates.len() ==> is_alternate(#[trigger] alternates[i]),
    ensures
        descriptors::native_path(list_bytes(dac(control, clocks, alternates))) == (
        match first_native(alternates) {
            None => Err::<NativeDsd, DescriptorError>(DescriptorError::NoRawData),
            Some(found) => if clocks.len() == 0 {
                Err(DescriptorError::NoClock)
            } else {
                Ok(
                    NativeDsd {
                        control_interface: control,
                        streaming_interface: found.interface,
                        alt_setting: found.setting,
                        clock_id: match first_settable(clocks) {
                            Some(id) => id,
                            None => clocks[0].id,
                        },
                        out_endpoint: found.out,
                        feedback_endpoint: found.feedback,
                        max_packet: found.packet,
                    },
                )
            },
        }),
{
    let first = seq![Descriptor { kind: 4, body: seq![control, 0u8, 0, 1, 1, 0x20, 0] }];
    let second = clocks_descriptors(clocks);
    let third = alternates_descriptors(alternates);
    let whole = dac(control, clocks, alternates);
    lemma_fit(alternates);
    assert(all_fit(whole)) by {
        assert forall|i: int| 0 <= i < whole.len() implies (#[trigger] whole[i]).body.len()
            <= 253 by {
            if i == 0 {
            } else if i < 1 + clocks.len() {
                assert(whole[i] == second[i - 1]);
            } else {
                assert(whole[i] == third[i - 1 - clocks.len()]);
            }
        }
    }
    every_descriptor_is_read(whole, Search::start());
    lemma_shown(first + second, third, Search::start());
    lemma_shown(first, second, Search::start());
    let start = Search::start();
    let one = start.read(first[0].kind, first[0].body);
    assert(first.skip(1).len() == 0);
    assert(shown(first, start) == shown(first.skip(1), one));
    assert(one.current matches Some(interface) && interface.controls());
    lemma_clocks(clocks, one);
    let two = shown(second, one);
    lemma_alternates(alternates, two);
    lemma_no_settable(clocks);
}

proof fn lemma_no_settable(clocks: Seq<Clock>)
    ensures
        first_settable(clocks) is Some ==> clocks.len() > 0,
{
}

proof fn lemma_fit(alternates: Seq<Alternate>)
    ensures
        all_fit(alternates_descriptors(alternates)),
    decreases alternates.len(),
{
    if alternates.len() > 0 {
        lemma_fit(alternates.skip(1));
        let first = alternate_descriptors(alternates[0]);
        let rest = alternates_descriptors(alternates.skip(1));
        let whole = first + rest;
        assert(all_fit(rest));
        assert forall|i: int| 0 <= i < whole.len() implies (#[trigger] whole[i]).body.len()
            <= 253 by {
            if i >= first.len() {
                assert(whole[i] == rest[i - first.len()]);
            }
        }
    }
}

/// A packet holds whole frames of four bytes for every channel, eight thousand times a second:
/// an endpoint has room for a rate exactly where the frames of its packets take that many bits.
pub proof fn a_packet_has_room_for_its_frames(path: NativeDsd, channels: int, frames: int)
    requires
        channels > 0,
        frames >= 0,
    ensures
        (frames * 32 * 8000 <= path.ceiling(channels)) == (frames * 4 * channels
            <= path.max_packet),
{
    let packet = path.max_packet as int;
    let each = packet / channels;
    vstd::arithmetic::div_mod::lemma_fundamental_div_mod(packet, channels);
    let over = packet % channels;
    if frames * 4 <= each {
        assert(frames * 4 * channels <= packet) by (nonlinear_arith)
            requires
                frames * 4 <= each,
                packet == channels * each + over,
                0 <= over < channels,
        ;
    } else {
        assert(frames * 4 * channels > packet) by (nonlinear_arith)
            requires
                frames * 4 >= each + 1,
                packet == channels * each + over,
                0 <= over < channels,
        ;
    }
}

} // verus!
