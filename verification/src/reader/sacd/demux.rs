//! Pulling audio frames out of the sectors of a disc.
//!
//! A sector of 2048 bytes carries packets, and the packets carry audio frames of a
//! seventy-fifth of a second each, which may span sectors.

use crate::reader::sacd::bits;
use crate::reader::sacd::toc;
use crate::reader::sacd::toc::{FRAME_RATE, SECTOR};
use crate::reader::ReadError;
use std::collections::VecDeque;
use vstd::prelude::*;

verus! {

/// DSD bits one audio frame carries per channel: a seventy-fifth of a second.
pub const SAMPLES_PER_FRAME: usize = 37_632;

pub const FRAME_BYTES: usize = 4_704;

/// The packet kinds a sector can carry; only audio is worth reading.
pub const DATA_TYPE_AUDIO: u8 = 2;

/// One audio frame, as the sectors carried it.
#[derive(Debug, PartialEq, Eq)]
pub struct Frame {
    /// Frames since the start of the area, which is what track boundaries are given in.
    pub timecode: u32,
    pub dst_encoded: bool,
    pub data: Vec<u8>,
}

/// The same as a value.
#[verifier::ext_equal]
pub struct Piece {
    pub timecode: u32,
    pub dst_encoded: bool,
    pub data: Seq<u8>,
}

impl View for Frame {
    type V = Piece;

    open spec fn view(&self) -> Piece {
        Piece { timecode: self.timecode, dst_encoded: self.dst_encoded, data: self.data@ }
    }
}

/// A list of frames as values.
pub open spec fn pieces(frames: Seq<Frame>) -> Seq<Piece> {
    frames.map_values(|frame: Frame| frame@)
}

/// The frame being put together.
#[verifier::ext_equal]
pub struct Assembly {
    /// A frame has been opened and is not whole yet.
    pub started: bool,
    pub dst_encoded: bool,
    pub timecode: u32,
    /// How many more packets a compressed frame waits for.
    pub packets_left: int,
    pub payload: Seq<u8>,
}

/// A frame opened by the information a sector gives about it.
pub open spec fn opened(info: Seq<u8>, dst_encoded: bool) -> Assembly {
    Assembly {
        started: true,
        dst_encoded,
        timecode: toc::timecode_at(info, 0) as u32,
        packets_left: if dst_encoded {
            info[3] as int / 4 % 32
        } else {
            0
        },
        payload: Seq::empty(),
    }
}

/// One packet later: the frame being put together, and the frame that came whole, if one did.
/// A compressed frame is whole after the packets it announced, a plain one once it has a
/// frame's worth of bytes for every channel. Packets that belong to no open frame are dropped.
pub open spec fn appended(now: Assembly, packet: Seq<u8>, channels: int) -> (Assembly, Seq<Piece>) {
    let payload = now.payload + packet;
    let left = bits::wrap_i32(now.packets_left - 1);
    let whole = if now.dst_encoded {
        left == 0
    } else {
        payload.len() >= channels * FRAME_BYTES
    };
    if !now.started {
        (now, Seq::empty())
    } else if whole {
        (
            Assembly { started: false, packets_left: left, payload: Seq::empty(), ..now },
            seq![
                Piece { timecode: now.timecode, dst_encoded: now.dst_encoded, data: payload },
            ],
        )
    } else {
        (Assembly { packets_left: left, payload, ..now }, Seq::empty())
    }
}

/// Bytes a sector spends on each frame that starts in it.
pub open spec fn info_len(sector: Seq<u8>) -> int {
    if sector[0] % 2 == 1 {
        4
    } else {
        3
    }
}

/// How many packets a sector describes.
pub open spec fn packet_count(sector: Seq<u8>) -> int {
    sector[0] as int / 32
}

/// How many frames a sector says start in it.
pub open spec fn info_count(sector: Seq<u8>) -> int {
    sector[0] as int / 4 % 8
}

/// Where the information about the frames that start in a sector begins.
pub open spec fn info_base(sector: Seq<u8>) -> int {
    1 + packet_count(sector) * 2
}

/// The length of packet `index`.
pub open spec fn packet_len(sector: Seq<u8>, index: int) -> int {
    sector[1 + index * 2] as int % 8 * 256 + sector[2 + index * 2]
}

/// Packet `index` carries audio.
pub open spec fn is_audio(sector: Seq<u8>, index: int) -> bool {
    sector[1 + index * 2] as int / 8 % 8 == DATA_TYPE_AUDIO
}

/// Packet `index` starts a frame.
pub open spec fn is_start(sector: Seq<u8>, index: int) -> bool {
    sector[1 + index * 2] >= 128
}

/// What the packets from `index` on make of the frame being put together, and the frames that
/// come whole. `info` frames have started in the sector so far, and the packet's bytes start
/// at `cursor`. A packet that does not fit, or a start the sector does not describe, drops the
/// rest of the sector and the frame being put together.
pub open spec fn packets(
    sector: Seq<u8>,
    channels: int,
    index: int,
    info: int,
    cursor: int,
    now: Assembly,
) -> (Assembly, Seq<Piece>)
    decreases packet_count(sector) - index,
{
    let end = cursor + packet_len(sector, index);
    let at = info_base(sector) + info * info_len(sector);
    if index >= packet_count(sector) {
        (now, Seq::empty())
    } else if end > SECTOR || (is_audio(sector, index) && is_start(sector, index) && info
        >= info_count(sector)) {
        (Assembly { started: false, ..now }, Seq::empty())
    } else if !is_audio(sector, index) {
        packets(sector, channels, index + 1, info, end, now)
    } else {
        let open = if is_start(sector, index) {
            opened(sector.subrange(at, at + info_len(sector)), sector[0] % 2 == 1)
        } else {
            now
        };
        let (next, out) = appended(open, sector.subrange(cursor, end), channels);
        let (last, more) = packets(
            sector,
            channels,
            index + 1,
            if is_start(sector, index) {
                info + 1
            } else {
                info
            },
            end,
            next,
        );
        (last, out + more)
    }
}

/// What one sector makes of the frame being put together, and the frames that come whole.
pub open spec fn parsed(sector: Seq<u8>, channels: int, now: Assembly) -> (Assembly, Seq<Piece>) {
    packets(
        sector,
        channels,
        0,
        0,
        info_base(sector) + info_count(sector) * info_len(sector),
        now,
    )
}

/// Sector `lsn` of an image.
pub open spec fn sector_of(image: Seq<u8>, lsn: int) -> Seq<u8> {
    image.subrange(lsn * 2048, lsn * 2048 + 2048)
}

/// The frames that the sectors from `lsn` up to `end` give, as far as the image reaches.
pub open spec fn frames_from(
    image: Seq<u8>,
    channels: int,
    now: Assembly,
    lsn: int,
    end: int,
) -> Seq<Piece>
    decreases end - lsn,
{
    if lsn >= end || (lsn + 1) * 2048 > image.len() {
        Seq::empty()
    } else {
        let (next, out) = parsed(sector_of(image, lsn), channels, now);
        out + frames_from(image, channels, next, lsn + 1, end)
    }
}

/// No frame is being put together.
pub open spec fn blank() -> Assembly {
    Assembly {
        started: false,
        dst_encoded: false,
        timecode: 0,
        packets_left: 0,
        payload: Seq::empty(),
    }
}

/// Pulls audio frames out of the sectors of one track.
pub struct Demux {
    pub channels: usize,
    /// The next sector to parse, and the one past the end of the track.
    pub sector: u32,
    pub end: u32,
    /// The frame being assembled, and how many more packets it is waiting for.
    pub payload: Vec<u8>,
    pub packets_left: i32,
    pub started: bool,
    pub dst_encoded: bool,
    pub timecode: u32,
    pub ready: VecDeque<Frame>,
}

impl Demux {
    /// The frame being put together.
    pub open spec fn assembly(&self) -> Assembly {
        Assembly {
            started: self.started,
            dst_encoded: self.dst_encoded,
            timecode: self.timecode,
            packets_left: self.packets_left as int,
            payload: self.payload@,
        }
    }

    /// The frames that are whole and those still in the sectors, in order.
    pub open spec fn ahead(&self, image: Seq<u8>) -> Seq<Piece> {
        pieces(self.ready@) + frames_from(
            image,
            self.channels as int,
            self.assembly(),
            self.sector as int,
            self.end as int,
        )
    }

    /// Two states of a demultiplexer over the same stretch of the same disc.
    pub open spec fn same_stretch(&self, other: &Demux) -> bool {
        self.channels == other.channels && self.end == other.end
    }

    pub fn new(channels: usize, start: u32, end: u32) -> (demux: Self)
        ensures
            demux.channels == channels,
            demux.sector == start,
            demux.end == end,
            demux.assembly() == blank(),
            demux.ready@.len() == 0,
    {
        let demux: Demux = Demux {
            channels,
            sector: start,
            end,
            payload: Vec::new(),
            packets_left: 0,
            started: false,
            dst_encoded: false,
            timecode: 0,
            ready: VecDeque::new(),
        };
        assert(demux.payload@ =~= Seq::empty());
        demux
    }

    /// Start again at `sector`, dropping the frame that was being assembled.
    pub fn restart(&mut self, sector: u32)
        ensures
            final(self).same_stretch(old(self)),
            final(self).sector == sector,
            !final(self).started,
            final(self).ready@.len() == 0,
    {
        self.sector = sector;
        self.started = false;
        self.payload.clear();
        self.ready.clear();
    }

    /// Start the frame that `info` describes.
    pub fn open_frame(&mut self, info: &[u8], dst_encoded: bool)
        requires
            info@.len() >= 3,
            dst_encoded ==> info@.len() >= 4,
        ensures
            final(self).assembly() == opened(info@, dst_encoded),
            final(self).ready@ == old(self).ready@,
            final(self).same_stretch(old(self)),
            final(self).sector == old(self).sector,
    {
        self.timecode = info[0] as u32 * 60 * FRAME_RATE + info[1] as u32 * FRAME_RATE
            + info[2] as u32;
        self.dst_encoded = dst_encoded;
        self.packets_left = if dst_encoded {
            (info[3] / 4 % 32) as i32
        } else {
            0
        };
        self.payload.clear();
        self.started = true;
        assert(self.payload@ =~= Seq::empty());
    }

    /// Add one packet to the frame being assembled, and publish the frame once it is whole.
    pub fn append(&mut self, packet: &[u8])
        requires
            old(self).channels <= 6,
        ensures
            ({
                let (next, out) = appended(
                    old(self).assembly(),
                    packet@,
                    old(self).channels as int,
                );
                &&& final(self).assembly() == next
                &&& pieces(final(self).ready@) == pieces(old(self).ready@) + out
            }),
            final(self).same_stretch(old(self)),
            final(self).sector == old(self).sector,
    {
        if !self.started {
            assert(pieces(self.ready@) + Seq::<Piece>::empty() =~= pieces(self.ready@));
            return;
        }
        let ghost before = *self;
        let mut i: usize = 0;
        while i < packet.len()
            invariant
                i <= packet@.len(),
                self.payload@ == before.payload@ + packet@.subrange(0, i as int),
                self.ready@ == before.ready@,
                self.same_stretch(&before),
                self.sector == before.sector,
                self.timecode == before.timecode,
                self.dst_encoded == before.dst_encoded,
                self.packets_left == before.packets_left,
                self.started == before.started,
                self.channels == before.channels,
            decreases packet@.len() - i,
        {
            self.payload.push(packet[i]);
            i += 1;
            assert(self.payload@ =~= before.payload@ + packet@.subrange(0, i as int));
        }
        assert(packet@.subrange(0, packet@.len() as int) =~= packet@);
        self.packets_left = bits::wrap32(self.packets_left as i64 - 1);
        let whole: bool = if self.dst_encoded {
            self.packets_left == 0
        } else {
            self.payload.len() >= self.channels * FRAME_BYTES
        };
        if !whole {
            assert(pieces(self.ready@) + Seq::<Piece>::empty() =~= pieces(self.ready@));
            return;
        }
        let mut data: Vec<u8> = Vec::new();
        std::mem::swap(&mut data, &mut self.payload);
        let frame: Frame = Frame { timecode: self.timecode, dst_encoded: self.dst_encoded, data };
        let ghost added = frame@;
        self.ready.push_back(frame);
        self.started = false;
        proof {
            assert(pieces(self.ready@) =~= pieces(before.ready@).push(added));
            assert(pieces(self.ready@) =~= pieces(before.ready@) + seq![added]);
            assert(self.payload@ =~= Seq::empty());
        }
    }

    /// Split one sector into packets and hand any frame they complete to the ready queue.
    /// A sector that does not describe audio is skipped rather than refused: the areas a
    /// track spans are the disc's own, and a reader that stopped at the first odd one would
    /// drop the rest of the track.
    #[verifier::rlimit(50)]
    pub fn parse(&mut self, sector: &[u8])
        requires
            sector@.len() == SECTOR,
            old(self).channels <= 6,
        ensures
            ({
                let (next, out) = parsed(sector@, old(self).channels as int, old(self).assembly());
                &&& final(self).assembly() == next
                &&& pieces(final(self).ready@) == pieces(old(self).ready@) + out
            }),
            final(self).same_stretch(old(self)),
            final(self).sector == old(self).sector,
    {
        let ghost before = *self;
        let ghost whole = parsed(sector@, self.channels as int, self.assembly());
        let count: usize = (sector[0] / 32) as usize;
        let infos: usize = (sector[0] / 4 % 8) as usize;
        let dst_encoded: bool = sector[0] % 2 == 1;
        let info_bytes: usize = if dst_encoded {
            4
        } else {
            3
        };
        let base: usize = 1 + count * 2;
        assert(infos * info_bytes <= 28) by (nonlinear_arith)
            requires
                0 <= infos <= 7,
                0 <= info_bytes <= 4,
        ;
        let mut cursor: usize = base + infos * info_bytes;
        let mut info: usize = 0;
        let mut index: usize = 0;
        assert(pieces(self.ready@) + whole.1 =~= pieces(before.ready@) + whole.1);
        while index < count
            invariant
                index <= count == packet_count(sector@),
                count <= 7,
                infos == info_count(sector@),
                infos <= 7,
                dst_encoded == (sector@[0] % 2 == 1),
                info_bytes == info_len(sector@),
                base == info_base(sector@),
                info <= infos,
                cursor <= SECTOR,
                sector@.len() == SECTOR,
                self.channels <= 6,
                self.same_stretch(&before),
                self.sector == before.sector,
                ({
                    let rest = packets(
                        sector@,
                        self.channels as int,
                        index as int,
                        info as int,
                        cursor as int,
                        self.assembly(),
                    );
                    &&& whole.0 == rest.0
                    &&& pieces(before.ready@) + whole.1 == pieces(self.ready@) + rest.1
                }),
                whole == parsed(sector@, before.channels as int, before.assembly()),
                before == *old(self),
            decreases count - index,
        {
            let ghost rest = packets(
                sector@,
                self.channels as int,
                index as int,
                info as int,
                cursor as int,
                self.assembly(),
            );
            let head: u8 = sector[1 + index * 2];
            let length: usize = (head % 8) as usize * 256 + sector[2 + index * 2] as usize;
            if length > SECTOR - cursor {
                self.started = false;
                return;
            }
            let end: usize = cursor + length;
            if head / 8 % 8 == DATA_TYPE_AUDIO {
                if head >= 128 {
                    if info >= infos {
                        self.started = false;
                        return;
                    }
                    assert(info * info_bytes + info_bytes <= 28 && 0 <= info * info_bytes)
                        by (nonlinear_arith)
                        requires
                            0 <= info < infos,
                            infos <= 7,
                            0 <= info_bytes <= 4,
                    ;
                    let at: usize = base + info * info_bytes;
                    let described: &[u8] = vstd::slice::slice_subrange(
                        sector,
                        at,
                        at + info_bytes,
                    );
                    self.open_frame(described, dst_encoded);
                    info += 1;
                }
                let ghost open = self.assembly();
                let ghost held = pieces(self.ready@);
                let packet: &[u8] = vstd::slice::slice_subrange(sector, cursor, end);
                self.append(packet);
                proof {
                    let (next, out) = appended(open, packet@, self.channels as int);
                    let after = packets(
                        sector@,
                        self.channels as int,
                        index + 1,
                        info as int,
                        end as int,
                        next,
                    );
                    assert(rest == (after.0, out + after.1));
                    assert(held + (out + after.1) =~= (held + out) + after.1);
                }
            }
            cursor = end;
            index += 1;
        }
        assert(pieces(self.ready@) + Seq::<Piece>::empty() =~= pieces(self.ready@));
    }

    /// The first sector still to be parsed that the image does not hold, or the one past the
    /// end of the track where it holds them all.
    pub open spec fn gap(&self, image: Seq<u8>) -> int {
        first_missing(image, self.sector as int, self.end as int)
    }

    /// The next whole frame, or none at the end of the track. A sector that the image does not
    /// hold is an error and is passed over.
    pub fn next(&mut self, image: &[u8]) -> (out: Result<Option<Frame>, ReadError>)
        requires
            old(self).channels <= 6,
        ensures
            final(self).same_stretch(old(self)),
            match out {
                Ok(Some(frame)) => {
                    &&& old(self).ahead(image@).len() > 0
                    &&& frame@ == old(self).ahead(image@)[0]
                    &&& final(self).ahead(image@) == old(self).ahead(image@).skip(1)
                    &&& final(self).gap(image@) == old(self).gap(image@)
                },
                Ok(None) => {
                    &&& old(self).ahead(image@).len() == 0
                    &&& old(self).gap(image@) == old(self).end
                    &&& final(self).ahead(image@).len() == 0
                    &&& final(self).gap(image@) == old(self).end
                },
                Err(error) => {
                    &&& old(self).ahead(image@).len() == 0
                    &&& old(self).gap(image@) < old(self).end
                    &&& error == ReadError::Sector { lsn: old(self).gap(image@) as u32 }
                    &&& final(self).ahead(image@).len() == 0
                    &&& final(self).gap(image@) == old(self).gap(image@) + 1
                },
            },
    {
        let ghost whole = self.ahead(image@);
        let len: usize = image.len();
        loop
            invariant
                self.channels <= 6,
                len == image@.len(),
                self.same_stretch(old(self)),
                self.ahead(image@) == whole,
                whole == old(self).ahead(image@),
                self.gap(image@) == old(self).gap(image@),
            decreases self.end - self.sector,
        {
            let ghost before = *self;
            match self.ready.pop_front() {
                Some(frame) => {
                    proof {
                        let later = frames_from(
                            image@,
                            self.channels as int,
                            self.assembly(),
                            self.sector as int,
                            self.end as int,
                        );
                        assert(pieces(before.ready@).skip(1) =~= pieces(self.ready@));
                        assert(whole.skip(1) =~= pieces(self.ready@) + later);
                        assert(frame@ == pieces(before.ready@)[0]);
                    }
                    return Ok(Some(frame));
                },
                None => {},
            }
            assert(self.assembly() == before.assembly());
            if self.sector >= self.end {
                return Ok(None);
            }
            let at: u64 = self.sector as u64 * 2048;
            if at + 2048 > len as u64 {
                let lsn: u32 = self.sector;
                self.sector = lsn + 1;
                return Err(ReadError::Sector { lsn });
            }
            let from: usize = at as usize;
            let sector: &[u8] = vstd::slice::slice_subrange(image, from, from + SECTOR);
            self.sector = self.sector + 1;
            self.parse(sector);
            proof {
                let (next, out) = parsed(
                    sector_of(image@, before.sector as int),
                    before.channels as int,
                    before.assembly(),
                );
                assert(sector@ == sector_of(image@, before.sector as int));
                let later = frames_from(
                    image@,
                    before.channels as int,
                    next,
                    before.sector + 1,
                    before.end as int,
                );
                assert(pieces(before.ready@) =~= Seq::<Piece>::empty());
                assert(whole =~= out + later);
                assert(pieces(self.ready@) =~= out);
            }
        }
    }
}

/// The first of the sectors from `lsn` up to `end` that the image does not hold, or `end`
/// where it holds them all.
pub open spec fn first_missing(image: Seq<u8>, lsn: int, end: int) -> int {
    if lsn >= end || end * 2048 <= image.len() {
        end
    } else if (lsn + 1) * 2048 > image.len() {
        lsn
    } else {
        image.len() as int / 2048
    }
}

/// Two states of assembly that come to the same: what is left over of a frame that is not
/// open has no effect.
pub open spec fn alike(one: Assembly, other: Assembly) -> bool {
    one == other || (!one.started && !other.started)
}

/// `tail` ends `whole`.
pub open spec fn ends_with(whole: Seq<Piece>, tail: Seq<Piece>) -> bool {
    &&& tail.len() <= whole.len()
    &&& whole.skip(whole.len() - tail.len()) == tail
}

proof fn lemma_ends_with(head: Seq<Piece>, whole: Seq<Piece>, tail: Seq<Piece>)
    requires
        ends_with(whole, tail),
    ensures
        ends_with(head + whole, tail),
{
    assert((head + whole).skip((head + whole).len() - tail.len()) =~= whole.skip(
        whole.len() - tail.len(),
    ));
}

proof fn lemma_packets_alike(
    sector: Seq<u8>,
    channels: int,
    index: int,
    info: int,
    cursor: int,
    one: Assembly,
    other: Assembly,
)
    requires
        alike(one, other),
    ensures
        ({
            let (a, from_one) = packets(sector, channels, index, info, cursor, one);
            let (b, from_other) = packets(sector, channels, index, info, cursor, other);
            alike(a, b) && from_one == from_other
        }),
    decreases packet_count(sector) - index,
{
    if one != other && index < packet_count(sector) {
        let end = cursor + packet_len(sector, index);
        if !(end > SECTOR) {
            if is_audio(sector, index) {
                if !is_start(sector, index) {
                    lemma_packets_alike(sector, channels, index + 1, info, end, one, other);
                }
            } else {
                lemma_packets_alike(sector, channels, index + 1, info, end, one, other);
            }
        }
    }
}

/// Starting on a sector with a frame half put together gives what starting with none gives,
/// behind at most the rest of that frame.
proof fn lemma_packets_carry(
    sector: Seq<u8>,
    channels: int,
    index: int,
    info: int,
    cursor: int,
    one: Assembly,
    none: Assembly,
)
    requires
        !none.started,
    ensures
        ({
            let (a, from_one) = packets(sector, channels, index, info, cursor, one);
            let (b, from_none) = packets(sector, channels, index, info, cursor, none);
            &&& ends_with(from_one, from_none)
            &&& alike(a, b) || (!b.started && from_none.len() == 0)
        }),
    decreases packet_count(sector) - index,
{
    let (a, from_one) = packets(sector, channels, index, info, cursor, one);
    let (b, from_none) = packets(sector, channels, index, info, cursor, none);
    if index < packet_count(sector) {
        let end = cursor + packet_len(sector, index);
        if end > SECTOR || (is_audio(sector, index) && is_start(sector, index) && info
            >= info_count(sector)) {
        } else if !is_audio(sector, index) {
            lemma_packets_carry(sector, channels, index + 1, info, end, one, none);
        } else if !is_start(sector, index) {
            let (next, out) = appended(one, sector.subrange(cursor, end), channels);
            if out.len() > 0 {
                lemma_packets_alike(sector, channels, index + 1, info, end, next, none);
                assert(Seq::<Piece>::empty() + from_none =~= from_none);
                assert(from_one.skip(from_one.len() - from_none.len()) =~= from_none);
            } else {
                lemma_packets_carry(sector, channels, index + 1, info, end, next, none);
                assert(out =~= Seq::<Piece>::empty());
                let rest_one = packets(sector, channels, index + 1, info, end, next).1;
                let rest_none = packets(sector, channels, index + 1, info, end, none).1;
                assert(Seq::<Piece>::empty() + rest_one =~= rest_one);
                assert(Seq::<Piece>::empty() + rest_none =~= rest_none);
            }
        }
    }
    assert(from_one.len() == from_none.len() ==> from_one.skip(0) =~= from_one);
}

pub proof fn lemma_frames_alike(
    image: Seq<u8>,
    channels: int,
    one: Assembly,
    other: Assembly,
    lsn: int,
    end: int,
)
    requires
        alike(one, other),
    ensures
        frames_from(image, channels, one, lsn, end) == frames_from(
            image,
            channels,
            other,
            lsn,
            end,
        ),
    decreases end - lsn,
{
    if lsn < end && (lsn + 1) * 2048 <= image.len() {
        let sector = sector_of(image, lsn);
        lemma_packets_alike(
            sector,
            channels,
            0,
            0,
            info_base(sector) + info_count(sector) * info_len(sector),
            one,
            other,
        );
        lemma_frames_alike(
            image,
            channels,
            parsed(sector, channels, one).0,
            parsed(sector, channels, other).0,
            lsn + 1,
            end,
        );
    }
}

proof fn lemma_frames_carry(
    image: Seq<u8>,
    channels: int,
    one: Assembly,
    none: Assembly,
    lsn: int,
    end: int,
)
    requires
        !none.started,
    ensures
        ends_with(
            frames_from(image, channels, one, lsn, end),
            frames_from(image, channels, none, lsn, end),
        ),
    decreases end - lsn,
{
    let whole = frames_from(image, channels, one, lsn, end);
    let tail = frames_from(image, channels, none, lsn, end);
    if lsn < end && (lsn + 1) * 2048 <= image.len() {
        let sector = sector_of(image, lsn);
        lemma_packets_carry(
            sector,
            channels,
            0,
            0,
            info_base(sector) + info_count(sector) * info_len(sector),
            one,
            none,
        );
        let (a, out_one) = parsed(sector, channels, one);
        let (b, out_none) = parsed(sector, channels, none);
        let later_one = frames_from(image, channels, a, lsn + 1, end);
        let later_none = frames_from(image, channels, b, lsn + 1, end);
        if alike(a, b) {
            lemma_frames_alike(image, channels, a, b, lsn + 1, end);
            assert(whole.skip(whole.len() - tail.len()) =~= out_one.skip(
                out_one.len() - out_none.len(),
            ) + later_one);
        } else {
            lemma_frames_carry(image, channels, a, b, lsn + 1, end);
            assert(tail =~= later_none);
            lemma_ends_with(out_one, later_one, later_none);
        }
    } else {
        assert(whole.skip(0) =~= tail);
    }
}

/// Starting afresh at a later sector gives the last of the frames that starting earlier
/// gives: a frame is lost only where its own start was passed over.
pub proof fn starting_late_only_drops_frames_at_the_front(
    image: Seq<u8>,
    channels: int,
    now: Assembly,
    start: int,
    lsn: int,
    end: int,
)
    requires
        start <= lsn,
    ensures
        ends_with(
            frames_from(image, channels, now, start, end),
            frames_from(image, channels, blank(), lsn, end),
        ),
    decreases lsn - start,
{
    let whole = frames_from(image, channels, now, start, end);
    let tail = frames_from(image, channels, blank(), lsn, end);
    if start == lsn {
        lemma_frames_carry(image, channels, now, blank(), start, end);
    } else if start < end && (start + 1) * 2048 <= image.len() {
        let (next, out) = parsed(sector_of(image, start), channels, now);
        starting_late_only_drops_frames_at_the_front(image, channels, next, start + 1, lsn, end);
        lemma_ends_with(out, frames_from(image, channels, next, start + 1, end), tail);
    } else {
        assert(whole.skip(0) =~= tail);
    }
}

/// The first sector that is missing is missing, and none before it is.
pub proof fn the_first_missing_sector_is_the_first(image: Seq<u8>, lsn: int, end: int, other: int)
    requires
        0 <= lsn <= other < end,
    ensures
        ({
            let gap = first_missing(image, lsn, end);
            &&& lsn <= gap <= end
            &&& gap < end ==> (gap + 1) * 2048 > image.len()
            &&& other < gap ==> (other + 1) * 2048 <= image.len()
        }),
{
}

} // verus!
