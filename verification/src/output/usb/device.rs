//! Which USB DAC is meant, what its clock accepts, and how it is taken from `usbaudiod`.
//!
//! macOS runs USB audio in a userspace daemon that holds the audio interfaces. It has to
//! re-acquire them after a device re-enumerates, which leaves a short window to claim them in.
//! Winning is not guaranteed on the first go: a claim that follows another closely finds its
//! own request swallowed by a re-enumeration already in flight, and races a window that has
//! been and gone. So several re-enumerations are forced rather than one polled that will not
//! come.

use crate::bytes;
use crate::output::usb::descriptors::NativeDsd;
use crate::text;
use vstd::prelude::*;

verus! {

/// Re-enumerations to force before giving up on the DAC.
pub const RACE_ATTEMPTS: u32 = 4;

/// A clock range report is a count followed by (min, max, resolution) triples.
pub const SUBRANGE_BYTES: usize = 12;

/// A name as it is compared: without the space around it, in lower case.
pub open spec fn plain(name: Seq<char>) -> Seq<char> {
    text::lowercase(text::trimmed(name))
}

/// A USB product name and some other name refer to the same device. A name that is nothing but
/// white space names none.
pub open spec fn same_device(usb: Seq<char>, query: Seq<char>) -> bool {
    &&& text::trimmed(usb).len() > 0
    &&& text::trimmed(query).len() > 0
    &&& text::holds(plain(query), plain(usb)) || text::holds(plain(usb), plain(query))
}

/// Whether a USB product name and some other name refer to the same device.
///
/// Core Audio and USB report different names for one device -- "Cayin RU7 Playback" against
/// "Cayin RU7" -- and either may be the longer of the two, so whichever contains the other
/// counts. Matching only one way rejects the very name the `devices` command prints.
pub fn names_match(usb: &str, query: &str) -> (yes: bool)
    ensures
        yes == same_device(usb@, query@),
{
    plain_names_match(
        text::to_lowercase(text::trim(usb).as_str()).as_str(),
        text::to_lowercase(text::trim(query).as_str()).as_str(),
    )
}

/// Whether one of two names, both already plain, contains the other. An empty name is
/// contained by every string, so it matches nothing.
pub fn plain_names_match(usb: &str, query: &str) -> (yes: bool)
    ensures
        yes == (usb@.len() > 0 && query@.len() > 0 && (text::holds(query@, usb@) || text::holds(
            usb@,
            query@,
        ))),
{
    let no_usb: bool = usb.is_empty();
    let no_query: bool = query.is_empty();
    !no_usb && !no_query && (text::contains(query, usb) || text::contains(usb, query))
}

/// Matching names goes both ways, and neither the space around a name nor the case of its
/// letters matters to it: names that are the same in lower case match the same names. A name
/// that is nothing but white space matches none.
pub proof fn names_match_whatever_their_case_and_space(
    name: Seq<char>,
    other: Seq<char>,
    query: Seq<char>,
    before: Seq<char>,
    after: Seq<char>,
)
    requires
        text::all_space(before),
        text::all_space(after),
    ensures
        same_device(name, query) == same_device(query, name),
        same_device(before + name + after, query) == same_device(name, query),
        same_device(query, before + name + after) == same_device(query, name),
        text::trimmed(name).len() > 0 && text::trimmed(other).len() > 0 && plain(name) == plain(
            other,
        ) ==> same_device(name, query) == same_device(other, query),
        text::trimmed(name).len() == 0 ==> !same_device(name, query) && !same_device(query, name),
{
    text::lemma_trimmed(before, name, after);
}

/// A USB DAC that advertises a native DSD alternate setting.
#[derive(Debug, PartialEq, Eq)]
pub struct Dac {
    pub name: String,
    pub vendor: u16,
    pub product: u16,
    pub native: NativeDsd,
}

/// Both audio interfaces of one DAC, held open so `usbaudiod` cannot take them back.
#[derive(Debug, PartialEq, Eq)]
pub struct Held {
    pub native: NativeDsd,
    pub name: String,
}

/// What came of the last thing that was done to claim a DAC.
#[derive(Debug, Clone, Copy, PartialEq, Eq, Structural)]
pub enum ClaimEvent {
    /// The claim begins.
    Begun,
    /// The DAC was asked to re-enumerate, or is there and would not: either way the race runs.
    Asked,
    /// The DAC is not on the bus, or refused the request.
    AskFailed,
    /// Both interfaces were opened.
    Won,
    /// The window closed with at least one interface in other hands.
    Lost,
}

/// What is to be done next to claim a DAC.
#[derive(Debug, Clone, Copy, PartialEq, Eq, Structural)]
pub enum ClaimAction {
    /// Ask the DAC to re-enumerate.
    Reenumerate,
    /// Race for the interfaces.
    Race,
    /// Hold the interfaces.
    Hold,
    /// Give up for the reason the last event gave.
    GiveUp,
    /// Give up because every race was lost.
    AllLost,
}

/// How many races a claim has lost.
#[derive(Debug, Clone, Copy, PartialEq, Eq, Structural)]
pub struct Claiming {
    pub lost: u32,
}

impl Dac {
    /// True when `query` names this DAC.
    pub fn matches(&self, query: &str) -> (yes: bool)
        ensures
            yes == same_device(self.name@, query@),
    {
        names_match(self.name.as_str(), query)
    }

    /// Force a re-enumeration, win the race for both audio interfaces, and hold them: what to
    /// do next, after `event`.
    ///
    /// A re-enumeration already in flight -- because this or another process has just handed
    /// the DAC back -- swallows the request, and `usbaudiod` then takes the interfaces during
    /// a window this process never saw. Polling harder does not help, because nothing will
    /// open that window again, so a race that comes up empty forces another re-enumeration.
    pub fn acquire(&self, claim: &mut Claiming, event: ClaimEvent) -> (action: ClaimAction)
        requires
            old(claim).lost < RACE_ATTEMPTS,
        ensures
            match event {
                ClaimEvent::Begun => action == ClaimAction::Reenumerate && final(claim).lost == 0,
                ClaimEvent::Asked => action == ClaimAction::Race && *final(claim) == *old(claim),
                ClaimEvent::AskFailed => action == ClaimAction::GiveUp && *final(claim) == *old(
                    claim,
                ),
                ClaimEvent::Won => action == ClaimAction::Hold && *final(claim) == *old(claim),
                ClaimEvent::Lost => {
                    &&& final(claim).lost == old(claim).lost + 1
                    &&& action == if final(claim).lost < RACE_ATTEMPTS {
                        ClaimAction::Reenumerate
                    } else {
                        ClaimAction::AllLost
                    }
                },
            },
    {
        match event {
            ClaimEvent::Begun => {
                claim.lost = 0;
                ClaimAction::Reenumerate
            },
            ClaimEvent::Asked => ClaimAction::Race,
            ClaimEvent::AskFailed => ClaimAction::GiveUp,
            ClaimEvent::Won => ClaimAction::Hold,
            ClaimEvent::Lost => {
                claim.lost = claim.lost + 1;
                if claim.lost < RACE_ATTEMPTS {
                    ClaimAction::Reenumerate
                } else {
                    ClaimAction::AllLost
                }
            },
        }
    }

    /// What a claim that lost every race is told.
    pub fn all_lost(&self) -> (line: String)
        ensures
            line@ == self.name@
                + ": 4 re-enumerations all lost its audio interfaces to another process"@,
    {
        let mut line: String = text::owned(self.name.as_str());
        line.append(": 4 re-enumerations all lost its audio interfaces to another process");
        line
    }
}

/// Why a DAC was not configured as asked.
#[derive(Debug, PartialEq, Eq)]
pub struct WrongClock {
    pub name: String,
    pub asked: u32,
    pub reported: u32,
}

impl WrongClock {
    /// What went wrong, in a line.
    pub fn message(&self) -> (line: String)
        ensures
            line@ == self.name@ + ": asked for "@ + text::decimal(self.asked as nat)
                + " Hz but the clock reports "@ + text::decimal(self.reported as nat)
                + " Hz, so it cannot play this rate natively"@,
    {
        let mut line: String = text::owned(self.name.as_str());
        line.append(": asked for ");
        line.append(text::decimal_of(self.asked as u64).as_str());
        line.append(" Hz but the clock reports ");
        line.append(text::decimal_of(self.reported as u64).as_str());
        line.append(" Hz, so it cannot play this rate natively");
        line
    }
}

impl Held {
    /// Select the rate of the clock for a DSD rate: native DSD carries 32 bits per frame.
    pub fn clock_for(dsd_rate: u32) -> (frame_rate: u32)
        ensures
            frame_rate == dsd_rate / 32,
    {
        dsd_rate / 32
    }

    /// Hold what the DAC's clock reports against what was asked of it. A DAC that accepts the
    /// request but reports a different rate has not done what was asked, so the readback is
    /// checked rather than assumed.
    pub fn configure(&self, dsd_rate: u32, readback: u32) -> (out: Result<u32, WrongClock>)
        ensures
            match out {
                Ok(rate) => rate == readback && readback == dsd_rate / 32,
                Err(error) => {
                    &&& readback != dsd_rate / 32
                    &&& error.name@ == self.name@
                    &&& error.asked == dsd_rate / 32
                    &&& error.reported == readback
                },
            },
    {
        let frame_rate: u32 = Held::clock_for(dsd_rate);
        if readback != frame_rate {
            return Err(
                WrongClock {
                    name: text::owned(self.name.as_str()),
                    asked: frame_rate,
                    reported: readback,
                },
            );
        }
        Ok(readback)
    }

    /// Where a clock request is addressed: the clock in the high byte, the audio control
    /// interface in the low.
    pub fn clock_index(&self) -> (index: u16)
        ensures
            index == self.native.clock_id * 0x100 + self.native.control_interface,
    {
        self.native.clock_id as u16 * 0x100 + self.native.control_interface as u16
    }

    /// Pipe references for the data and feedback endpoints: of the isochronous pipes, the last
    /// that goes out and the last that comes in. Pipes count from one.
    pub fn pipes(&self, pipes: &Vec<Pipe>) -> (found: (Option<u8>, Option<u8>))
        requires
            pipes@.len() <= 255,
        ensures
            found.0 == last_pipe(pipes@, true),
            found.1 == last_pipe(pipes@, false),
    {
        let mut data: Option<u8> = None;
        let mut feedback: Option<u8> = None;
        let mut i: usize = 0;
        assert(pipes@.subrange(0, 0) =~= Seq::empty());
        while i < pipes.len()
            invariant
                i <= pipes@.len() <= 255,
                data == last_pipe(pipes@.subrange(0, i as int), true),
                feedback == last_pipe(pipes@.subrange(0, i as int), false),
            decreases pipes@.len() - i,
        {
            let pipe: Pipe = pipes[i];
            assert(pipes@.subrange(0, i + 1).drop_last() =~= pipes@.subrange(0, i as int));
            i += 1;
            if pipe.isochronous {
                if pipe.outward {
                    data = Some(i as u8);
                } else {
                    feedback = Some(i as u8);
                }
            }
        }
        assert(pipes@.subrange(0, pipes@.len() as int) =~= pipes@);
        (data, feedback)
    }
}

/// What an endpoint of the streaming interface is.
#[derive(Debug, Clone, Copy, PartialEq, Eq, Structural)]
pub struct Pipe {
    pub isochronous: bool,
    pub outward: bool,
}

/// The number of the last isochronous pipe in a direction.
pub open spec fn last_pipe(pipes: Seq<Pipe>, outward: bool) -> Option<u8>
    decreases pipes.len(),
{
    if pipes.len() == 0 {
        None
    } else if pipes.last().isochronous && pipes.last().outward == outward {
        Some(pipes.len() as u8)
    } else {
        last_pipe(pipes.drop_last(), outward)
    }
}

/// Subrange `index` of a range report is there, and allows `rate`: one with a resolution
/// walks from its lowest rate in steps up to its highest, and one without is a single rate,
/// which is how clock sources usually report a fixed rate list.
pub open spec fn allows(report: Seq<u8>, index: int, rate: u32) -> bool {
    let at = 2 + index * 12;
    let lowest = bytes::le32(report, at);
    let highest = bytes::le32(report, at + 4);
    let step = bytes::le32(report, at + 8);
    &&& at + 12 <= report.len()
    &&& if step == 0 || lowest == highest {
        rate == lowest
    } else {
        lowest <= rate <= highest && (rate - lowest) % step == 0
    }
}

/// The rates a range report allows.
pub open spec fn reported(report: Seq<u8>, rate: u32) -> bool {
    report.len() >= 2 && exists|index: int|
        0 <= index < bytes::le16(report, 0) && #[trigger] allows(report, index, rate)
}

/// Rates in rising order, each once.
pub open spec fn rising(rates: Seq<u32>) -> bool {
    forall|i: int, j: int| 0 <= i < j < rates.len() ==> rates[i] < rates[j]
}

/// Put a rate where it belongs among others, unless it is there already.
fn insert_rate(rates: &mut Vec<u32>, rate: u32)
    requires
        rising(old(rates)@),
    ensures
        rising(final(rates)@),
        forall|r: u32| #[trigger]
            final(rates)@.contains(r) <==> old(rates)@.contains(r) || r == rate,
{
    let ghost before = rates@;
    let mut place: usize = rates.len();
    while place > 0 && rates[place - 1] > rate
        invariant
            place <= rates@.len(),
            rates@ == before,
            rising(before),
            forall|k: int| place <= k < before.len() ==> #[trigger] before[k] > rate,
        decreases place,
    {
        place -= 1;
    }
    if place > 0 && rates[place - 1] == rate {
        assert(before[place - 1] == rate);
        return;
    }
    rates.insert(place, rate);
    proof {
        let after = rates@;
        assert forall|r: u32| #[trigger] after.contains(r) <==> before.contains(r) || r == rate by {
            if after.contains(r) {
                let k = choose|k: int| 0 <= k < after.len() && after[k] == r;
                if k < place {
                    assert(before[k] == r);
                } else if k > place {
                    assert(before[k - 1] == r);
                }
            }
            if before.contains(r) {
                let k = choose|k: int| 0 <= k < before.len() && before[k] == r;
                if k < place {
                    assert(after[k] == r);
                } else {
                    assert(after[k + 1] == r);
                }
            }
            assert(after[place as int] == rate);
        }
    }
}

/// Add the rates of one subrange that has a resolution.
fn insert_steps(rates: &mut Vec<u32>, lowest: u32, highest: u32, step: u32)
    requires
        rising(old(rates)@),
        step > 0,
    ensures
        rising(final(rates)@),
        forall|r: u32| #[trigger]
            final(rates)@.contains(r) <==> old(rates)@.contains(r) || (lowest <= r <= highest && (r
                - lowest) % (step as int) == 0),
{
    let ghost before = rates@;
    let mut rate: u32 = lowest;
    let ghost mut taken: int = 0;
    assert(0 * step == 0) by (nonlinear_arith);
    while rate <= highest
        invariant
            step > 0,
            before == old(rates)@,
            rising(rates@),
            0 <= taken,
            rate == lowest + taken * step,
            forall|r: u32| #[trigger]
                rates@.contains(r) <==> before.contains(r) || (lowest <= r <= highest && r < rate
                    && (r - lowest) % (step as int) == 0),
        decreases 0x1_0000_0000 - rate,
    {
        let ghost held = rates@;
        insert_rate(rates, rate);
        proof {
            lemma_next_step(lowest as int, step as int, taken);
            assert forall|r: u32| #[trigger] rates@.contains(r) <==> before.contains(r) || (lowest
                <= r <= highest && r < rate + step && (r - lowest) % (step as int) == 0) by {
                assert(held.contains(r) <==> before.contains(r) || (lowest <= r <= highest && r
                    < rate && (r - lowest) % (step as int) == 0));
                if lowest <= r <= highest && r < rate + step && (r - lowest) % (step as int) == 0 {
                    if r >= rate {
                        lemma_same_step(r - lowest, step as int, taken);
                    }
                }
            }
        }
        if step > u32::MAX - rate {
            proof {
                assert forall|r: u32| #[trigger] rates@.contains(r) <==> before.contains(r) || (
                lowest <= r <= highest && (r - lowest) % (step as int) == 0) by {
                    assert(r < rate + step);
                }
            }
            return;
        }
        rate = rate + step;
        proof {
            taken = taken + 1;
            assert(taken * step == (taken - 1) * step + step) by (nonlinear_arith);
        }
    }
}

proof fn lemma_next_step(lowest: int, step: int, taken: int)
    requires
        step > 0,
        0 <= taken,
    ensures
        (taken * step) % step == 0,
{
    vstd::arithmetic::div_mod::lemma_mod_multiples_basic(taken, step);
}

proof fn lemma_same_step(distance: int, step: int, taken: int)
    requires
        step > 0,
        0 <= taken,
        taken * step <= distance < taken * step + step,
        distance % step == 0,
    ensures
        distance == taken * step,
{
    vstd::arithmetic::div_mod::lemma_fundamental_div_mod(distance, step);
    let steps = distance / step;
    assert(steps == taken) by (nonlinear_arith)
        requires
            distance == step * steps,
            taken * step <= distance < taken * step + step,
            step > 0,
    ;
    assert(step * steps == steps * step) by (nonlinear_arith);
}

/// Flatten a UAC2 range report into the discrete rates it allows, in rising order and each
/// once. A report shorter than it claims ends at what is there.
pub fn parse_clock_ranges(report: &[u8]) -> (rates: Vec<u32>)
    ensures
        rising(rates@),
        forall|r: u32| #[trigger] rates@.contains(r) <==> reported(report@, r),
{
    let mut rates: Vec<u32> = Vec::new();
    let len: usize = report.len();
    if len < 2 {
        return rates;
    }
    let count: usize = bytes::read_le16(report, 0) as usize;
    let mut index: usize = 0;
    while index < count
        invariant
            len == report@.len(),
            2 <= len,
            index <= count == bytes::le16(report@, 0),
            count <= 0xffff,
            rising(rates@),
            forall|r: u32| #[trigger]
                rates@.contains(r) <==> exists|k: int|
                    0 <= k < index && #[trigger] allows(report@, k, r),
        decreases count - index,
    {
        let start: usize = 2 + index * SUBRANGE_BYTES;
        let ghost held = rates@;
        if start > len || len - start < SUBRANGE_BYTES {
            proof {
                assert forall|r: u32| #[trigger] rates@.contains(r) <==> reported(report@, r) by {
                    if reported(report@, r) {
                        let k = choose|k: int|
                            0 <= k < bytes::le16(report@, 0) && #[trigger] allows(report@, k, r);
                        assert(k < index);
                    }
                }
            }
            return rates;
        }
        let lowest: u32 = bytes::read_le32(report, start);
        let highest: u32 = bytes::read_le32(report, start + 4);
        let step: u32 = bytes::read_le32(report, start + 8);
        if step == 0 || lowest == highest {
            insert_rate(&mut rates, lowest);
        } else {
            insert_steps(&mut rates, lowest, highest, step);
        }
        proof {
            assert forall|r: u32| #[trigger] rates@.contains(r) <==> exists|k: int|
                0 <= k < index + 1 && #[trigger] allows(report@, k, r) by {
                assert(rates@.contains(r) <==> held.contains(r) || allows(report@, index as int, r));
                if held.contains(r) {
                    let k = choose|k: int| 0 <= k < index && #[trigger] allows(report@, k, r);
                    assert(allows(report@, k, r));
                }
            }
        }
        index += 1;
    }
    rates
}

/// The pipe that is taken is isochronous, goes the way that is asked for, and is the last such;
/// none is where none is taken.
pub proof fn the_last_pipe_that_fits_is_taken(pipes: Seq<Pipe>, outward: bool)
    requires
        pipes.len() <= 255,
    ensures
        match last_pipe(pipes, outward) {
            Some(number) => {
                &&& 1 <= number <= pipes.len()
                &&& pipes[number - 1].isochronous && pipes[number - 1].outward == outward
                &&& forall|i: int|
                    number <= i < pipes.len() ==> !((#[trigger] pipes[i]).isochronous
                        && pipes[i].outward == outward)
            },
            None => forall|i: int|
                0 <= i < pipes.len() ==> !((#[trigger] pipes[i]).isochronous && pipes[i].outward
                    == outward),
        },
    decreases pipes.len(),
{
    if pipes.len() > 0 {
        let head = pipes.drop_last();
        the_last_pipe_that_fits_is_taken(head, outward);
        assert forall|i: int| 0 <= i < head.len() implies #[trigger] pipes[i] == head[i] by {}
    }
}

/// A range of rates as a clock reports it.
pub struct Range {
    pub lowest: u32,
    pub highest: u32,
    pub step: u32,
}

/// A report: how many ranges there are, and each of them in twelve bytes.
pub open spec fn reports(report: Seq<u8>, ranges: Seq<Range>) -> bool {
    &&& ranges.len() < 0x1_0000
    &&& bytes::stands_at(report, 0, bytes::low_first(ranges.len(), 2))
    &&& forall|i: int|
        #![trigger ranges[i]]
        0 <= i < ranges.len() ==> {
            &&& bytes::stands_at(
                report,
                2 + i * 12,
                bytes::low_first(ranges[i].lowest as nat, 4),
            )
            &&& bytes::stands_at(
                report,
                6 + i * 12,
                bytes::low_first(ranges[i].highest as nat, 4),
            )
            &&& bytes::stands_at(
                report,
                10 + i * 12,
                bytes::low_first(ranges[i].step as nat, 4),
            )
        }
}

proof fn lemma_range(report: Seq<u8>, ranges: Seq<Range>, index: int)
    requires
        reports(report, ranges),
        0 <= index < ranges.len(),
    ensures
        bytes::le32(report, 2 + index * 12) == ranges[index].lowest,
        bytes::le32(report, 2 + index * 12 + 4) == ranges[index].highest,
        bytes::le32(report, 2 + index * 12 + 8) == ranges[index].step,
        2 + index * 12 + 12 <= report.len(),
{
    let range = ranges[index];
    bytes::numbers_read_back_low_first(report, 2 + index * 12, range.lowest as nat);
    bytes::numbers_read_back_low_first(report, 6 + index * 12, range.highest as nat);
    bytes::numbers_read_back_low_first(report, 10 + index * 12, range.step as nat);
    bytes::lemma_width(range.step as nat, 4);
}

/// A range of one rate allows that rate; one of steps allows its lowest rate, its highest where
/// steps lead to it, and each rate that is whole steps above the lowest and not above the
/// highest.
pub proof fn a_range_allows_its_steps(report: Seq<u8>, ranges: Seq<Range>, index: int, rate: u32)
    requires
        reports(report, ranges),
        0 <= index < ranges.len(),
    ensures
        ({
            let range = ranges[index];
            let single = range.step == 0 || range.lowest == range.highest;
            &&& single ==> allows(report, index, rate) == (rate == range.lowest)
            &&& !single ==> allows(report, index, rate) == (exists|steps: int|
                0 <= steps && rate == #[trigger] (steps * range.step) + range.lowest && rate
                    <= range.highest)
        }),
{
    lemma_range(report, ranges, index);
    let range = ranges[index];
    let step = range.step as int;
    if !(range.step == 0 || range.lowest == range.highest) {
        if allows(report, index, rate) {
            let above = rate - range.lowest;
            vstd::arithmetic::div_mod::lemma_fundamental_div_mod(above, step);
            let steps = above / step;
            assert(steps * step == step * steps) by (nonlinear_arith);
            assert(steps >= 0) by (nonlinear_arith)
                requires
                    above >= 0,
                    step > 0,
                    steps == above / step,
            ;
            assert(rate == (steps * range.step) + range.lowest);
        }
        if exists|steps: int|
            0 <= steps && rate == #[trigger] (steps * range.step) + range.lowest && rate
                <= range.highest {
            let steps = choose|steps: int|
                0 <= steps && rate == #[trigger] (steps * range.step) + range.lowest && rate
                    <= range.highest;
            assert(steps * step >= 0) by (nonlinear_arith)
                requires
                    steps >= 0,
                    step > 0,
            ;
            vstd::arithmetic::div_mod::lemma_fundamental_div_mod_converse(
                rate - range.lowest,
                step,
                steps,
                0,
            );
        }
    }
}

/// A report allows what any of its ranges allows, the last as well as the first.
pub proof fn a_report_allows_what_its_ranges_allow(
    report: Seq<u8>,
    ranges: Seq<Range>,
    rate: u32,
)
    requires
        reports(report, ranges),
    ensures
        reported(report, rate) == (exists|index: int|
            0 <= index < ranges.len() && #[trigger] allows(report, index, rate)),
{
    bytes::numbers_read_back_low_first(report, 0, ranges.len());
    bytes::lemma_width(ranges.len(), 2);
}

/// Names match where either holds the other, so it makes no difference which is which; and a name
/// that is blank matches nothing.
pub proof fn names_match_either_way_round(one: Seq<char>, other: Seq<char>)
    ensures
        same_device(one, other) == same_device(other, one),
        text::trimmed(one).len() > 0 && text::trimmed(other).len() > 0 && text::holds(
            plain(one),
            plain(other),
        ) ==> same_device(one, other),
        text::trimmed(one).len() == 0 ==> !same_device(one, other),
{
}

} // verus!
