//! The sectors of a disc as they are written, and the audio frames that come out of them.

use crate::bytes;
use crate::reader::sacd::demux;
use crate::reader::sacd::demux::{Assembly, Piece};
use vstd::prelude::*;

verus! {

/// What a sector says of a frame that starts in it: its time from the start of the area, and,
/// where frames are compressed, how many packets it takes.
pub struct Start {
    pub minutes: u8,
    pub seconds: u8,
    pub frames: u8,
    pub packets: u8,
}

/// A packet: the start of a frame or not, what kind of data it carries, and the data.
pub struct Packet {
    pub start: Option<Start>,
    pub kind: u8,
    pub data: Seq<u8>,
}

/// A packet that can be written. Only audio, which is kind two, starts a frame.
pub open spec fn is_packet(packet: Packet) -> bool {
    &&& packet.kind < 8
    &&& packet.data.len() < 2048
    &&& packet.start matches Some(start) ==> packet.kind == 2 && start.packets < 32
}

/// How many of the first packets start a frame.
pub open spec fn starts(packets: Seq<Packet>, count: int) -> int
    decreases count,
{
    if count <= 0 {
        0
    } else if packets[count - 1].start is Some {
        starts(packets, count - 1) + 1
    } else {
        starts(packets, count - 1)
    }
}

/// How many bytes the first packets carry.
pub open spec fn carried(packets: Seq<Packet>, count: int) -> int
    decreases count,
{
    if count <= 0 {
        0
    } else {
        carried(packets, count - 1) + packets[count - 1].data.len()
    }
}

/// What a sector says of a frame, in three bytes or, where frames are compressed, in four.
pub open spec fn start_bytes(start: Start, compressed: bool) -> Seq<u8> {
    if compressed {
        seq![start.minutes, start.seconds, start.frames, (start.packets * 4) as u8]
    } else {
        seq![start.minutes, start.seconds, start.frames]
    }
}

/// A sector of packets: a byte that counts the packets and the frames that start, two bytes for
/// each packet, what is to be said of each frame, and the packets' data one after the other.
pub open spec fn holds(sector: Seq<u8>, packets: Seq<Packet>, compressed: bool) -> bool {
    let count = packets.len() as int;
    let wide = if compressed {
        4int
    } else {
        3
    };
    let base = 1 + 2 * count;
    &&& sector.len() == 2048
    &&& count <= 7
    &&& sector[0] == count * 32 + starts(packets, count) * 4 + (if compressed {
        1int
    } else {
        0
    })
    &&& forall|i: int|
        #![trigger packets[i]]
        0 <= i < count ==> {
            &&& is_packet(packets[i])
            &&& sector[1 + 2 * i] == (if packets[i].start is Some {
                128int
            } else {
                0
            }) + packets[i].kind * 8 + packets[i].data.len() / 256
            &&& sector[2 + 2 * i] == packets[i].data.len() % 256
            &&& packets[i].start matches Some(start) ==> bytes::stands_at(
                sector,
                base + starts(packets, i) * wide,
                start_bytes(start, compressed),
            )
            &&& bytes::stands_at(
                sector,
                base + starts(packets, count) * wide + carried(packets, i),
                packets[i].data,
            )
        }
}

/// What one packet makes of the frame being put together: one that does not carry audio,
/// nothing; one that starts a frame opens it, whatever was open before.
pub open spec fn received(now: Assembly, packet: Packet, compressed: bool, channels: int) -> (
    Assembly,
    Seq<Piece>,
) {
    if packet.kind != 2 {
        (now, Seq::empty())
    } else {
        match packet.start {
            None => demux::appended(now, packet.data, channels),
            Some(start) => demux::appended(
                Assembly {
                    started: true,
                    dst_encoded: compressed,
                    timecode: time(start) as u32,
                    packets_left: if compressed {
                        start.packets as int
                    } else {
                        0
                    },
                    payload: Seq::empty(),
                },
                packet.data,
                channels,
            ),
        }
    }
}

/// A time in seventy-fifths of a second.
pub open spec fn time(start: Start) -> int {
    (start.minutes * 60 + start.seconds) * 75 + start.frames
}

pub open spec fn all_received(
    now: Assembly,
    packets: Seq<Packet>,
    compressed: bool,
    channels: int,
) -> (Assembly, Seq<Piece>)
    decreases packets.len(),
{
    if packets.len() == 0 {
        (now, Seq::empty())
    } else {
        let (next, out) = received(now, packets[0], compressed, channels);
        let (last, more) = all_received(next, packets.skip(1), compressed, channels);
        (last, out + more)
    }
}

proof fn lemma_starts(packets: Seq<Packet>, count: int, more: int)
    requires
        0 <= count <= more <= packets.len(),
    ensures
        0 <= starts(packets, count) <= starts(packets, more) <= more,
        starts(packets, more) - starts(packets, count) <= more - count,
    decreases more,
{
    if count < more {
        lemma_starts(packets, count, more - 1);
    } else if count > 0 {
        lemma_starts(packets, count - 1, more - 1);
    }
}

/// What is read of a sector's first byte.
proof fn lemma_first(sector: Seq<u8>, packets: Seq<Packet>, compressed: bool)
    requires
        holds(sector, packets, compressed),
    ensures
        demux::packet_count(sector) == packets.len(),
        demux::info_count(sector) == starts(packets, packets.len() as int),
        (sector[0] % 2 == 1) == compressed,
        demux::info_len(sector) == (if compressed {
            4int
        } else {
            3
        }),
        demux::info_base(sector) == 1 + 2 * packets.len(),
{
    lemma_starts(packets, 0, packets.len() as int);
    let count = packets.len() as int;
    let begun = starts(packets, count);
    let low = if compressed {
        1int
    } else {
        0
    };
    let first = sector[0] as int;
    assert(first == count * 32 + begun * 4 + low && 0 <= begun <= count <= 7);
    assert(first / 32 == count);
    assert(first / 4 % 8 == begun);
    assert(first % 2 == low);
}

/// What is read of a packet.
proof fn lemma_packet(sector: Seq<u8>, packets: Seq<Packet>, compressed: bool, index: int)
    requires
        holds(sector, packets, compressed),
        0 <= index < packets.len(),
    ensures
        demux::packet_len(sector, index) == packets[index].data.len(),
        demux::is_audio(sector, index) == (packets[index].kind == 2),
        demux::is_start(sector, index) == (packets[index].start is Some),
{
    let packet = packets[index];
    let first = sector[1 + 2 * index] as int;
    let mark = if packet.start is Some {
        128int
    } else {
        0
    };
    let high = packet.data.len() as int / 256;
    assert(0 <= high < 8);
    assert(first == mark + packet.kind * 8 + high);
    assert(first % 8 == high);
    assert(first / 8 % 8 == packet.kind);
    assert(1 + index * 2 == 1 + 2 * index);
    assert(2 + index * 2 == 2 + 2 * index);
}

/// A frame opens as what the sector says of it.
proof fn lemma_opened(sector: Seq<u8>, at: int, start: Start, compressed: bool)
    requires
        start.packets < 32,
        bytes::stands_at(sector, at, start_bytes(start, compressed)),
    ensures
        ({
            let wide = if compressed {
                4int
            } else {
                3
            };
            demux::opened(sector.subrange(at, at + wide), compressed) == Assembly {
                started: true,
                dst_encoded: compressed,
                timecode: time(start) as u32,
                packets_left: if compressed {
                    start.packets as int
                } else {
                    0
                },
                payload: Seq::empty(),
            }
        }),
{
    let said = start_bytes(start, compressed);
    assert(sector[at + 0] == said[0]);
    assert(sector[at + 1] == said[1]);
    assert(sector[at + 2] == said[2]);
    if compressed {
        assert(sector[at + 3] == said[3]);
        assert(said[3] as int / 4 % 32 == start.packets);
    }
}

proof fn lemma_packets(
    sector: Seq<u8>,
    packets: Seq<Packet>,
    compressed: bool,
    channels: int,
    index: int,
    now: Assembly,
)
    requires
        holds(sector, packets, compressed),
        0 <= index <= packets.len(),
    ensures
        demux::packets(
            sector,
            channels,
            index,
            starts(packets, index),
            demux::info_base(sector) + demux::info_count(sector) * demux::info_len(sector)
                + carried(packets, index),
            now,
        ) == all_received(now, packets.skip(index), compressed, channels),
    decreases packets.len() - index,
{
    lemma_first(sector, packets, compressed);
    let rest = packets.skip(index);
    if index < packets.len() {
        let packet = packets[index];
        let (next, out) = received(now, packet, compressed, channels);
        lemma_packet(sector, packets, compressed, index);
        lemma_starts(packets, index + 1, packets.len() as int);
        lemma_packets(sector, packets, compressed, channels, index + 1, next);
        assert(rest.skip(1) =~= packets.skip(index + 1));
        let cursor = demux::info_base(sector) + demux::info_count(sector) * demux::info_len(sector)
            + carried(packets, index);
        let end = cursor + packet.data.len();
        assert(cursor + packet.data.len() <= 2048);
        let read = sector.subrange(cursor, end);
        assert forall|i: int| 0 <= i < packet.data.len() implies read[i] == packet.data[i] by {
            assert(sector[cursor + i] == packet.data[i]);
        }
        assert(read =~= packet.data);
        match packet.start {
            Some(start) => {
                lemma_opened(
                    sector,
                    demux::info_base(sector) + starts(packets, index) * demux::info_len(sector),
                    start,
                    compressed,
                );
            },
            None => {},
        }
        assert(rest[0] == packet);
        let (last, more) = all_received(next, rest.skip(1), compressed, channels);
        if packet.kind != 2 {
            assert(Seq::<Piece>::empty() + more =~= more);
        }
    } else {
        assert(rest.len() == 0);
    }
}

/// A sector is taken packet by packet, in the order they stand in it.
pub proof fn a_sector_gives_its_packets(
    sector: Seq<u8>,
    packets: Seq<Packet>,
    compressed: bool,
    channels: int,
    now: Assembly,
)
    requires
        holds(sector, packets, compressed),
    ensures
        demux::parsed(sector, channels, now) == all_received(now, packets, compressed, channels),
{
    lemma_packets(sector, packets, compressed, channels, 0, now);
    assert(packets.skip(0) =~= packets);
}

proof fn lemma_one_after_the_other(
    now: Assembly,
    first: Seq<Packet>,
    second: Seq<Packet>,
    compressed: bool,
    channels: int,
)
    ensures
        ({
            let (next, out) = all_received(now, first, compressed, channels);
            let (last, more) = all_received(next, second, compressed, channels);
            all_received(now, first + second, compressed, channels) == (last, out + more)
        }),
    decreases first.len(),
{
    let (next, out) = all_received(now, first, compressed, channels);
    let (last, more) = all_received(next, second, compressed, channels);
    if first.len() == 0 {
        assert(first + second =~= second);
        assert(out + more =~= more);
    } else {
        let (one, opened) = received(now, first[0], compressed, channels);
        lemma_one_after_the_other(one, first.skip(1), second, compressed, channels);
        assert((first + second).skip(1) =~= first.skip(1) + second);
        assert((first + second)[0] == first[0]);
        let rest = all_received(one, first.skip(1), compressed, channels).1;
        assert(opened + (rest + more) =~= (opened + rest) + more);
    }
}

/// A frame as it was recorded: what is said of its start, and its data as it was cut up.
pub struct Recorded {
    pub start: Start,
    pub cuts: Seq<Seq<u8>>,
}

pub open spec fn joined(cuts: Seq<Seq<u8>>) -> Seq<u8>
    decreases cuts.len(),
{
    if cuts.len() == 0 {
        Seq::empty()
    } else {
        joined(cuts.drop_last()) + cuts.last()
    }
}

/// A frame that can be recorded: one that is compressed says how many packets it takes, and one
/// that is not has 4704 bytes for each channel.
pub open spec fn can_be_recorded(frame: Recorded, compressed: bool, channels: int) -> bool {
    &&& frame.cuts.len() >= 1
    &&& if compressed {
        frame.start.packets == frame.cuts.len()
    } else {
        joined(frame.cuts).len() == channels * 4704 && frame.cuts.last().len() > 0
    }
}

pub open spec fn frame_packets(frame: Recorded) -> Seq<Packet> {
    Seq::new(
        frame.cuts.len(),
        |i: int|
            Packet {
                start: if i == 0 {
                    Some(frame.start)
                } else {
                    None
                },
                kind: 2,
                data: frame.cuts[i],
            },
    )
}

pub open spec fn frames_packets(frames: Seq<Recorded>) -> Seq<Packet>
    decreases frames.len(),
{
    if frames.len() == 0 {
        Seq::empty()
    } else {
        frame_packets(frames[0]) + frames_packets(frames.skip(1))
    }
}

/// The frame that comes out.
pub open spec fn frame_out(frame: Recorded, compressed: bool) -> Piece {
    Piece { timecode: time(frame.start) as u32, dst_encoded: compressed, data: joined(frame.cuts) }
}

proof fn lemma_joined_len(cuts: Seq<Seq<u8>>, count: int)
    requires
        0 <= count <= cuts.len(),
    ensures
        joined(cuts.take(count)).len() <= joined(cuts).len(),
    decreases cuts.len(),
{
    if count < cuts.len() {
        lemma_joined_len(cuts.drop_last(), count);
        assert(cuts.drop_last().take(count) =~= cuts.take(count));
    } else {
        assert(cuts.take(count) =~= cuts);
    }
}

/// A frame after its first packets, while it is not whole.
proof fn lemma_part(
    now: Assembly,
    frame: Recorded,
    compressed: bool,
    channels: int,
    count: int,
)
    requires
        can_be_recorded(frame, compressed, channels),
        frame.start.packets < 32,
        1 <= count < frame.cuts.len(),
    ensures
        ({
            let (held, out) = all_received(
                now,
                frame_packets(frame).take(count),
                compressed,
                channels,
            );
            &&& held.started
            &&& held.dst_encoded == compressed
            &&& held.timecode == time(frame.start) as u32
            &&& held.payload == joined(frame.cuts.take(count))
            &&& compressed ==> held.packets_left == frame.start.packets - count
            &&& out == Seq::<Piece>::empty()
        }),
    decreases count,
{
    let all = frame_packets(frame);
    let packet = all[count - 1];
    let before = all.take(count - 1);
    assert(all.take(count) =~= before + seq![packet]);
    lemma_one_after_the_other(now, before, seq![packet], compressed, channels);
    let (held, out) = all_received(now, before, compressed, channels);
    assert(seq![packet].skip(1) =~= Seq::empty());
    reveal_with_fuel(all_received, 2);
    assert(all_received(held, seq![packet], compressed, channels) == (
        received(held, packet, compressed, channels).0,
        received(held, packet, compressed, channels).1 + Seq::<Piece>::empty(),
    ));
    let cuts = frame.cuts.take(count);
    assert(cuts.drop_last() =~= frame.cuts.take(count - 1));
    assert(cuts.last() == frame.cuts[count - 1]);
    if !compressed {
        lemma_joined_len(frame.cuts.drop_last(), count);
        assert(frame.cuts.drop_last().take(count) =~= cuts);
        assert(joined(cuts).len() < channels * 4704);
    }
    let (next, more) = received(held, packet, compressed, channels);
    if count == 1 {
        assert(before.len() == 0);
        assert(frame.cuts.take(0) =~= Seq::empty());
        assert(joined(frame.cuts.take(0)) == Seq::<u8>::empty());
        assert(Seq::<u8>::empty() + packet.data =~= joined(cuts));
    } else {
        lemma_part(now, frame, compressed, channels, count - 1);
    }
    assert(more =~= Seq::empty());
    assert(next.payload == joined(cuts));
    assert(out + (more + Seq::<Piece>::empty()) =~= Seq::empty());
}

/// A frame comes whole, with the last of its packets and not before, however it was cut up and
/// whatever was being put together when it started.
pub proof fn a_frame_comes_whole(
    now: Assembly,
    frame: Recorded,
    compressed: bool,
    channels: int,
)
    requires
        can_be_recorded(frame, compressed, channels),
        frame.start.packets < 32,
    ensures
        ({
            let (after, out) = all_received(now, frame_packets(frame), compressed, channels);
            !after.started && out == seq![frame_out(frame, compressed)]
        }),
{
    let all = frame_packets(frame);
    let count = all.len() as int;
    let packet = all[count - 1];
    let before = all.take(count - 1);
    assert(all =~= before + seq![packet]);
    lemma_one_after_the_other(now, before, seq![packet], compressed, channels);
    let (held, out) = all_received(now, before, compressed, channels);
    assert(seq![packet].skip(1) =~= Seq::empty());
    reveal_with_fuel(all_received, 2);
    let (next, more) = received(held, packet, compressed, channels);
    assert(all_received(held, seq![packet], compressed, channels) == (
        next,
        more + Seq::<Piece>::empty(),
    ));
    assert(frame.cuts.drop_last() =~= frame.cuts.take(count - 1));
    if count == 1 {
        assert(before.len() == 0);
        assert(frame.cuts.take(0) =~= Seq::empty());
        assert(joined(frame.cuts.take(0)) == Seq::<u8>::empty());
        assert(Seq::<u8>::empty() + packet.data =~= joined(frame.cuts));
    } else {
        lemma_part(now, frame, compressed, channels, count - 1);
        assert(held.payload + packet.data == joined(frame.cuts));
    }
    assert(out + (more + Seq::<Piece>::empty()) =~= seq![frame_out(frame, compressed)]);
}

proof fn lemma_frames(
    now: Assembly,
    frames: Seq<Recorded>,
    compressed: bool,
    channels: int,
)
    requires
        forall|i: int|
            0 <= i < frames.len() ==> can_be_recorded(#[trigger] frames[i], compressed, channels)
                && frames[i].start.packets < 32,
    ensures
        all_received(now, frames_packets(frames), compressed, channels).1 == Seq::new(
            frames.len(),
            |i: int| frame_out(frames[i], compressed),
        ),
    decreases frames.len(),
{
    let want = Seq::new(frames.len(), |i: int| frame_out(frames[i], compressed));
    if frames.len() == 0 {
        assert(want =~= Seq::empty());
    } else {
        let rest = frames.skip(1);
        assert forall|i: int| 0 <= i < rest.len() implies can_be_recorded(
            #[trigger] rest[i],
            compressed,
            channels,
        ) && rest[i].start.packets < 32 by {
            assert(rest[i] == frames[i + 1]);
        }
        assert(can_be_recorded(frames[0], compressed, channels));
        a_frame_comes_whole(now, frames[0], compressed, channels);
        let (next, out) = all_received(now, frame_packets(frames[0]), compressed, channels);
        lemma_frames(next, rest, compressed, channels);
        lemma_one_after_the_other(
            now,
            frame_packets(frames[0]),
            frames_packets(rest),
            compressed,
            channels,
        );
        assert(out + Seq::new(rest.len(), |i: int| frame_out(rest[i], compressed)) =~= want);
    }
}

/// The packets of sectors in a row.
pub open spec fn all_packets(sectors: Seq<Seq<Packet>>) -> Seq<Packet>
    decreases sectors.len(),
{
    if sectors.len() == 0 {
        Seq::empty()
    } else {
        sectors[0] + all_packets(sectors.skip(1))
    }
}

/// Those packets that carry audio.
pub open spec fn audio_only(packets: Seq<Packet>) -> Seq<Packet>
    decreases packets.len(),
{
    if packets.len() == 0 {
        Seq::empty()
    } else if packets[0].kind == 2 {
        seq![packets[0]] + audio_only(packets.skip(1))
    } else {
        audio_only(packets.skip(1))
    }
}

proof fn lemma_audio_only(
    now: Assembly,
    packets: Seq<Packet>,
    compressed: bool,
    channels: int,
)
    ensures
        all_received(now, packets, compressed, channels) == all_received(
            now,
            audio_only(packets),
            compressed,
            channels,
        ),
    decreases packets.len(),
{
    if packets.len() > 0 {
        let (next, out) = received(now, packets[0], compressed, channels);
        lemma_audio_only(next, packets.skip(1), compressed, channels);
        let kept = audio_only(packets);
        let more = all_received(next, packets.skip(1), compressed, channels).1;
        if packets[0].kind == 2 {
            assert(kept.skip(1) =~= audio_only(packets.skip(1)));
        } else {
            assert(out + more =~= more);
        }
    }
}

proof fn lemma_sectors(
    image: Seq<u8>,
    now: Assembly,
    lsn: int,
    sectors: Seq<Seq<Packet>>,
    compressed: bool,
    channels: int,
)
    requires
        lsn >= 0,
        (lsn + sectors.len()) * 2048 <= image.len(),
        forall|k: int|
            0 <= k < sectors.len() ==> holds(
                demux::sector_of(image, lsn + k),
                #[trigger] sectors[k],
                compressed,
            ),
    ensures
        demux::frames_from(image, channels, now, lsn, lsn + sectors.len()) == all_received(
            now,
            all_packets(sectors),
            compressed,
            channels,
        ).1,
    decreases sectors.len(),
{
    if sectors.len() > 0 {
        let rest = sectors.skip(1);
        assert(holds(demux::sector_of(image, lsn + 0), sectors[0], compressed));
        a_sector_gives_its_packets(
            demux::sector_of(image, lsn),
            sectors[0],
            compressed,
            channels,
            now,
        );
        let (next, out) = all_received(now, sectors[0], compressed, channels);
        assert forall|k: int| 0 <= k < rest.len() implies holds(
            demux::sector_of(image, lsn + 1 + k),
            #[trigger] rest[k],
            compressed,
        ) by {
            assert(rest[k] == sectors[k + 1]);
            assert(lsn + 1 + k == lsn + (k + 1));
        }
        lemma_sectors(image, next, lsn + 1, rest, compressed, channels);
        lemma_one_after_the_other(now, sectors[0], all_packets(rest), compressed, channels);
    }
}

/// The sectors of a track give back the frames recorded on them: every frame, whole, in order
/// and at its time, however frames were cut into packets and packets put into sectors, and
/// whatever packets of other kinds stand between them.
pub proof fn a_disc_gives_back_its_frames(
    image: Seq<u8>,
    lsn: int,
    sectors: Seq<Seq<Packet>>,
    frames: Seq<Recorded>,
    compressed: bool,
    channels: int,
)
    requires
        lsn >= 0,
        (lsn + sectors.len()) * 2048 <= image.len(),
        forall|k: int|
            0 <= k < sectors.len() ==> holds(
                demux::sector_of(image, lsn + k),
                #[trigger] sectors[k],
                compressed,
            ),
        forall|i: int|
            0 <= i < frames.len() ==> can_be_recorded(#[trigger] frames[i], compressed, channels)
                && frames[i].start.packets < 32,
        audio_only(all_packets(sectors)) == frames_packets(frames),
    ensures
        demux::frames_from(image, channels, demux::blank(), lsn, lsn + sectors.len()) == Seq::new(
            frames.len(),
            |i: int| frame_out(frames[i], compressed),
        ),
{
    lemma_sectors(image, demux::blank(), lsn, sectors, compressed, channels);
    lemma_audio_only(demux::blank(), all_packets(sectors), compressed, channels);
    lemma_frames(demux::blank(), frames, compressed, channels);
}

} // verus!
