//! SACD disc images: the Scarlet Book layout, and the DSD inside it.
//!
//! An image holds a whole disc, so it opens as a list of tracks rather than as one file. The
//! audio sits in 2048-byte sectors carrying packets, which carry audio frames of a
//! seventy-fifth of a second each, either as plain DSD or compressed with DST.

pub mod bits;
pub mod coder;
pub mod demux;
pub mod disc;
pub mod dst;
pub mod encode;
pub mod header;
pub mod predict;
pub mod sectors;
pub mod table;
pub mod toc;

use crate::dop;
use crate::dsd::{DsdFormat, DsdRate, DSD_SILENCE_BYTE};
use crate::path;
use crate::reader;
use crate::reader::sacd::dst::{Decoder, DstError};
use crate::reader::sacd::toc::{Contents, Entry, Toc, TocError, Track, DSD64_HZ};
use crate::reader::tags;
use crate::reader::tags::{Tags, TrackTags};
use crate::reader::{DsdRecording, DsdSource, ReadError, Stretch};
use crate::text;
pub use demux::{Demux, Frame, Piece, FRAME_BYTES, SAMPLES_PER_FRAME};
use vstd::prelude::*;

verus! {

/// How far a seek probe looks for a sector that starts an audio frame before giving up and
/// landing earlier, which costs demuxing rather than correctness.
pub const PROBE_SECTORS: u32 = 64;

/// A header, up to seven packet descriptions, and the first frame info behind them.
pub const PROBE_BYTES: usize = 19;

/// The DSD bytes one frame holds, channel by channel, or why it does not decode. Plain DSD
/// arrives one byte per channel in turn, and a frame that falls short ends in silence.
pub open spec fn planes_of(frame: Piece, channels: int) -> Result<Seq<Seq<u8>>, DstError> {
    if frame.dst_encoded {
        dst::decoded(frame.data, channels, SAMPLES_PER_FRAME as int, channels)
    } else {
        Ok(
            Seq::new(
                channels as nat,
                |c: int|
                    Seq::new(
                        FRAME_BYTES as nat,
                        |i: int| dop::byte_or_silence(frame.data, i * channels + c),
                    ),
            ),
        )
    }
}

/// Every channel of `first` followed by the same channel of `second`.
pub open spec fn one_after_another(first: Seq<Seq<u8>>, second: Seq<Seq<u8>>) -> Seq<Seq<u8>> {
    Seq::new(first.len(), |c: int| first[c] + second[c])
}

/// What playing `frames` gives, up to the first that belongs to a later track or does not
/// decode.
pub open spec fn played(frames: Seq<Piece>, channels: int, end_frame: int) -> Seq<Seq<u8>>
    decreases frames.len(),
{
    if frames.len() == 0 || frames[0].timecode >= end_frame {
        Seq::new(channels as nat, |c: int| Seq::empty())
    } else {
        match planes_of(frames[0], channels) {
            Ok(planes) => one_after_another(planes, played(frames.skip(1), channels, end_frame)),
            Err(_) => Seq::new(channels as nat, |c: int| Seq::empty()),
        }
    }
}

/// Why playing `frames` of track `number` fails behind what it gives, or none where the track
/// ends there. `cut` is what comes behind the last of them.
pub open spec fn failing(
    frames: Seq<Piece>,
    channels: int,
    end_frame: int,
    number: u32,
    cut: Option<ReadError>,
) -> Option<ReadError>
    decreases frames.len(),
{
    if frames.len() == 0 {
        cut
    } else if frames[0].timecode >= end_frame {
        None
    } else {
        match planes_of(frames[0], channels) {
            Ok(_) => failing(frames.skip(1), channels, end_frame, number, cut),
            Err(error) => Some(
                ReadError::Dst { track: number, frame: frames[0].timecode, error },
            ),
        }
    }
}

/// Why reading fails at sector `gap`, which the image does not hold, or none at the end of the
/// track.
pub open spec fn behind(gap: int, end: int) -> Option<ReadError> {
    if gap < end {
        Some(ReadError::Sector { lsn: gap as u32 })
    } else {
        None
    }
}

/// Why reading the sectors of a track from `lsn` on fails, or none where the image holds them
/// all.
pub open spec fn cut_at(image: Seq<u8>, lsn: u32, end: u32) -> Option<ReadError> {
    behind(demux::first_missing(image, lsn as int, end as int), end as int)
}

/// What playing `frames` of track `number` gives behind the first end or fault, stretch by
/// stretch. A frame of a later track reports an end, one that does not decode a fault, and so
/// does every sector from `gap` up to `end`; reading goes on behind each.
#[verifier::opaque]
pub open spec fn played_later(
    frames: Seq<Piece>,
    channels: int,
    end_frame: int,
    number: u32,
    gap: int,
    end: int,
) -> Seq<Stretch<Seq<Seq<u8>>>>
    decreases frames.len(), end - gap,
{
    if frames.len() == 0 {
        if gap < end {
            seq![
                Stretch { audio: reader::no_bytes(channels), fault: behind(gap + 1, end) },
            ] + played_later(frames, channels, end_frame, number, gap + 1, end)
        } else {
            Seq::empty()
        }
    } else {
        let rest = frames.skip(1);
        let later = played_later(rest, channels, end_frame, number, gap, end);
        if frames[0].timecode < end_frame && planes_of(frames[0], channels) is Ok {
            later
        } else {
            seq![
                Stretch {
                    audio: played(rest, channels, end_frame),
                    fault: failing(rest, channels, end_frame, number, behind(gap, end)),
                },
            ] + later
        }
    }
}

/// What is to come where `ahead` are the frames to be read of a track, and `gap` is the first
/// sector behind them that the image does not hold.
pub open spec fn frames_course(
    ahead: Seq<Piece>,
    channels: int,
    track: Entry,
    gap: int,
) -> Seq<Stretch<Seq<Seq<u8>>>> {
    let end_frame = track.start_frame + track.frames;
    let end = track.end_lsn as int;
    reader::course(
        played(ahead, channels, end_frame),
        failing(ahead, channels, end_frame, track.number, behind(gap, end)),
        played_later(ahead, channels, end_frame, track.number, gap, end),
    )
}

/// What is ahead once a track has been read from sector `lsn` on for its frame `index`, and the
/// first sector behind that which the image does not hold. Where the image ends before there is
/// such a frame, reading has met the first such sector and passed it.
pub open spec fn landed_at(
    image: Seq<u8>,
    channels: int,
    track: Entry,
    lsn: int,
    index: int,
) -> (Seq<Piece>, int) {
    let ahead = frames_at(image, channels, track, lsn, index);
    let gap = demux::first_missing(image, lsn, track.end_lsn as int);
    if ahead.len() == 0 && gap < track.end_lsn {
        (ahead, gap + 1)
    } else {
        (ahead, gap)
    }
}

/// `frames` from the first on that starts at or after `timecode`.
pub open spec fn from_frame(frames: Seq<Piece>, timecode: int) -> Seq<Piece>
    decreases frames.len(),
{
    if frames.len() == 0 || frames[0].timecode >= timecode {
        frames
    } else {
        from_frame(frames.skip(1), timecode)
    }
}

/// The frames that the sectors of a track hold, from its own first frame on. The track's
/// first sector may open with the tail of the one before it.
pub open spec fn track_frames(image: Seq<u8>, channels: int, track: Entry) -> Seq<Piece> {
    from_frame(
        demux::frames_from(
            image,
            channels,
            demux::blank(),
            track.start_lsn as int,
            track.end_lsn as int,
        ),
        track.start_frame as int,
    )
}

/// What is ahead once the sectors of a track are read from `lsn` on, past everything before
/// frame `index` of the track.
pub open spec fn frames_at(
    image: Seq<u8>,
    channels: int,
    track: Entry,
    lsn: int,
    index: int,
) -> Seq<Piece> {
    from_frame(
        demux::frames_from(image, channels, demux::blank(), lsn, track.end_lsn as int),
        track.start_frame + index,
    )
}

/// The frame of the track that `ahead` opens with, counted from the track's first, or the
/// track's length where nothing is ahead.
pub open spec fn reached(ahead: Seq<Piece>, track: Entry) -> int {
    if ahead.len() == 0 {
        track.frames as int
    } else if ahead[0].timecode < track.start_frame {
        0
    } else {
        ahead[0].timecode - track.start_frame
    }
}

/// The frame of a track that holds a place in it.
pub open spec fn frame_at(track: Entry, bytes_per_channel: int) -> int {
    reader::inside(bytes_per_channel / FRAME_BYTES as int, track.frames as int)
}

/// A packet of the sector whose first bytes are `head` starts an audio frame.
pub open spec fn starts_a_frame(head: Seq<u8>) -> bool {
    exists|index: int|
        0 <= index < demux::packet_count(head) && #[trigger] demux::is_start(head, index)
            && demux::is_audio(head, index)
}

/// The first bytes of sector `lsn`.
pub open spec fn head_of(image: Seq<u8>, lsn: int) -> Seq<u8> {
    image.subrange(lsn * 2048, lsn * 2048 + PROBE_BYTES)
}

/// The timecode of the first audio frame that a sector from `lsn` up to `limit` starts, or the
/// sector the image falls short of before one does.
pub open spec fn frame_start(image: Seq<u8>, lsn: int, limit: int) -> Result<Option<int>, int>
    decreases limit - lsn,
{
    let head = head_of(image, lsn);
    if lsn >= limit {
        Ok(None)
    } else if lsn * 2048 + PROBE_BYTES > image.len() {
        Err(lsn)
    } else if starts_a_frame(head) {
        Ok(Some(toc::timecode_at(head, demux::info_base(head))))
    } else {
        frame_start(image, lsn + 1, limit)
    }
}

/// Where a probe that starts at `lsn` gives up.
pub open spec fn probe_limit(lsn: int, end: int) -> int {
    if lsn + PROBE_SECTORS < end {
        lsn + PROBE_SECTORS
    } else {
        end
    }
}

/// A probe at sector `lsn` of a track finds a frame from before `timecode`.
pub open spec fn starts_before(image: Seq<u8>, track: Entry, lsn: int, timecode: int) -> bool {
    &&& track.start_lsn <= lsn < track.end_lsn
    &&& frame_start(image, lsn, probe_limit(lsn, track.end_lsn as int)) matches Ok(Some(found))
    &&& found < timecode
}

/// The sector to read from for the frame at `timecode`, among those from `low` up to `high`:
/// halving them by the frames that start in them gives the last that starts an earlier frame,
/// or `from` where none does. Where the image falls short, it is the sector it falls short of.
pub open spec fn located(
    image: Seq<u8>,
    track: Entry,
    timecode: int,
    low: int,
    high: int,
    from: int,
) -> Result<int, int>
    decreases high - low,
{
    let middle = low + (high - low) / 2;
    if low >= high {
        Ok(from)
    } else {
        match frame_start(image, middle, probe_limit(middle, track.end_lsn as int)) {
            Ok(Some(found)) => if found < timecode {
                located(image, track, timecode, middle + 1, high, middle)
            } else {
                located(image, track, timecode, low, middle, from)
            },
            Ok(None) => located(image, track, timecode, low, middle, from),
            Err(lsn) => Err(lsn),
        }
    }
}

/// The sector to read frame `index` of a track from.
pub open spec fn sector_for(image: Seq<u8>, track: Entry, index: int) -> Result<int, int> {
    located(
        image,
        track,
        track.start_frame + index,
        track.start_lsn as int,
        track.end_lsn as int,
        track.start_lsn as int,
    )
}

/// What a seek to a place in a track comes to: the place of the frame it lands on, or why it
/// fails.
pub open spec fn sought_in(
    image: Seq<u8>,
    channels: int,
    track: Entry,
    place: int,
) -> Result<u64, ReadError> {
    let index = frame_at(track, place);
    match sector_for(image, track, index) {
        Err(lsn) => Err(ReadError::Sector { lsn: lsn as u32 }),
        Ok(lsn) => {
            let ahead = frames_at(image, channels, track, lsn, index);
            match cut_at(image, lsn as u32, track.end_lsn) {
                Some(error) if ahead.len() == 0 => Err(error),
                _ => Ok((reached(ahead, track) * FRAME_BYTES) as u64),
            }
        },
    }
}

/// A track whose sectors are all there, whose frames are there, numbered one by one from the
/// track's first, and decode, and whose sectors name the frames that start in them: what a
/// disc as it was pressed has.
pub open spec fn numbered_truly(image: Seq<u8>, channels: int, track: Entry) -> bool {
    let frames = track_frames(image, channels, track);
    &&& track.end_lsn * 2048 <= image.len()
    &&& track.frames <= frames.len()
    &&& forall|i: int|
        0 <= i < frames.len() ==> (#[trigger] frames[i]).timecode == track.start_frame + i
    &&& forall|i: int| 0 <= i < track.frames ==> planes_of(#[trigger] frames[i], channels) is Ok
    &&& forall|lsn: int| track.start_lsn <= lsn < track.end_lsn ==> #[trigger] names_its_frame(
        image,
        channels,
        lsn,
        track.end_lsn as int,
    )
}

/// The frame that a probe at sector `lsn` finds is the first that reading from there gives.
pub open spec fn names_its_frame(image: Seq<u8>, channels: int, lsn: int, end: int) -> bool {
    let frames = demux::frames_from(image, channels, demux::blank(), lsn, end);
    match frame_start(image, lsn, probe_limit(lsn, end)) {
        Ok(Some(timecode)) => frames.len() > 0 && frames[0].timecode == timecode,
        _ => true,
    }
}

/// A track of a disc as a recording.
pub open spec fn recording_of(
    image: Seq<u8>,
    format: DsdFormat,
    track: Entry,
    names: Tags,
) -> DsdRecording {
    let channels = format.channels as int;
    DsdRecording {
        kind: "SACD"@,
        format,
        declared: track.frames * FRAME_BYTES,
        tags: names,
        chunk: FRAME_BYTES as int,
        step: FRAME_BYTES as int,
        exact: numbered_truly(image, channels, track),
        audio: played(
            track_frames(image, channels, track),
            channels,
            track.start_frame + track.frames,
        ),
        ending: failing(
            track_frames(image, channels, track),
            channels,
            track.start_frame + track.frames,
            track.number,
            cut_at(image, track.start_lsn, track.end_lsn),
        ),
        later: played_later(
            track_frames(image, channels, track),
            channels,
            track.start_frame + track.frames,
            track.number,
            demux::first_missing(image, track.start_lsn as int, track.end_lsn as int),
            track.end_lsn as int,
        ),
    }
}

proof fn lemma_planes(frame: Piece, channels: int)
    requires
        1 <= channels,
    ensures
        planes_of(frame, channels) matches Ok(planes) ==> {
            &&& planes.len() == channels
            &&& forall|c: int| 0 <= c < channels ==> (#[trigger] planes[c]).len() == FRAME_BYTES
        },
{
}

proof fn lemma_played(frames: Seq<Piece>, channels: int, end_frame: int)
    requires
        1 <= channels,
    ensures
        reader::even(played(frames, channels, end_frame), channels),
    decreases frames.len(),
{
    if frames.len() > 0 && frames[0].timecode < end_frame {
        lemma_planes(frames[0], channels);
        lemma_played(frames.skip(1), channels, end_frame);
    }
}

/// Where the first `count` frames play, what is left after them is what the frames behind
/// them play.
#[verifier::rlimit(50)]
proof fn lemma_played_on(frames: Seq<Piece>, channels: int, end_frame: int, count: int)
    requires
        1 <= channels,
        0 <= count <= frames.len(),
        forall|i: int|
            0 <= i < count ==> (#[trigger] frames[i]).timecode < end_frame && planes_of(
                frames[i],
                channels,
            ) is Ok,
    ensures
        count * FRAME_BYTES <= played(frames, channels, end_frame)[0].len(),
        reader::rest(played(frames, channels, end_frame), count * FRAME_BYTES) == played(
            frames.skip(count),
            channels,
            end_frame,
        ),
    decreases count,
{
    let whole = played(frames, channels, end_frame);
    lemma_played(frames, channels, end_frame);
    if count == 0 {
        assert(frames.skip(0) =~= frames);
        assert forall|c: int| 0 <= c < channels implies #[trigger] whole[c].skip(0)
            =~= whole[c] by {}
        assert(reader::rest(whole, 0) =~= whole);
    } else {
        let first = planes_of(frames[0], channels)->Ok_0;
        let later = played(frames.skip(1), channels, end_frame);
        lemma_planes(frames[0], channels);
        assert forall|i: int| 0 <= i < count - 1 implies (#[trigger] frames.skip(1)[i]).timecode
            < end_frame && planes_of(frames.skip(1)[i], channels) is Ok by {
            assert(frames.skip(1)[i] == frames[i + 1]);
        }
        lemma_played_on(frames.skip(1), channels, end_frame, count - 1);
        lemma_played(frames.skip(1), channels, end_frame);
        assert(frames.skip(1).skip(count - 1) =~= frames.skip(count));
        let cut = (count - 1) * FRAME_BYTES;
        assert forall|c: int| 0 <= c < channels implies #[trigger] reader::rest(
            whole,
            cut + FRAME_BYTES,
        )[c] == reader::rest(later, cut)[c] by {
            assert(whole[c] == first[c] + later[c]);
            assert(later[c].len() == later[0].len());
            assert((first[c] + later[c]).skip(cut + FRAME_BYTES) =~= later[c].skip(cut));
        }
        assert(reader::rest(whole, cut + FRAME_BYTES) =~= reader::rest(later, cut));
    }
}

/// What a read makes of what is to come: it takes the frame it gives off the stretch at hand, or
/// reports the end or the fault behind it and goes on.
proof fn lemma_read_on(ahead: Seq<Piece>, channels: int, track: Entry, gap: int)
    requires
        1 <= channels,
    ensures
        ({
            let end_frame = track.start_frame + track.frames;
            let end = track.end_lsn as int;
            let rest = ahead.skip(1);
            let later = played_later(ahead, channels, end_frame, track.number, gap, end);
            let nothing = reader::no_bytes(channels);
            if ahead.len() == 0 {
                &&& played(ahead, channels, end_frame)[0].len() == 0
                &&& frames_course(
                    ahead,
                    channels,
                    track,
                    if gap < end {
                        gap + 1
                    } else {
                        gap
                    },
                ) == reader::onward(later, nothing)
            } else if ahead[0].timecode < end_frame && planes_of(ahead[0], channels) is Ok {
                let given = planes_of(ahead[0], channels)->Ok_0;
                let now = played(ahead, channels, end_frame);
                &&& played_later(rest, channels, end_frame, track.number, gap, end) == later
                &&& reader::rest(now, FRAME_BYTES as int) == played(rest, channels, end_frame)
                &&& now[0].len() >= FRAME_BYTES
                &&& forall|c: int, i: int|
                    0 <= c < channels && 0 <= i < FRAME_BYTES ==> #[trigger] now[c][i] == given[c][i]
            } else {
                &&& played(ahead, channels, end_frame)[0].len() == 0
                &&& frames_course(rest, channels, track, gap) == reader::onward(later, nothing)
            }
        }),
{
    let end_frame = track.start_frame + track.frames;
    let end = track.end_lsn as int;
    let rest = ahead.skip(1);
    reveal_with_fuel(played_later, 2);
    if ahead.len() == 0 {
        assert(played(ahead, channels, end_frame) =~= reader::no_bytes(channels));
        assert(frames_course(ahead, channels, track, gap + 1).len() > 0);
    } else if ahead[0].timecode < end_frame && planes_of(ahead[0], channels) is Ok {
        let given = planes_of(ahead[0], channels)->Ok_0;
        let now = played(ahead, channels, end_frame);
        let later = played(rest, channels, end_frame);
        lemma_planes(ahead[0], channels);
        lemma_played(rest, channels, end_frame);
        assert(now == one_after_another(given, later));
        assert forall|c: int| 0 <= c < channels implies #[trigger] reader::rest(
            now,
            FRAME_BYTES as int,
        )[c] == later[c] by {
            assert(now[c] == given[c] + later[c]);
            assert((given[c] + later[c]).skip(FRAME_BYTES as int) =~= later[c]);
        }
        assert(reader::rest(now, FRAME_BYTES as int) =~= later);
        assert forall|c: int, i: int| 0 <= c < channels && 0 <= i < FRAME_BYTES implies
            #[trigger] now[c][i] == given[c][i] by {
            assert(now[c] == given[c] + later[c]);
        }
    }
}

/// A frame that does not decode costs the track that frame and no other: reading reports it and
/// goes on with what is to come of the frames behind it.
pub proof fn a_frame_that_does_not_decode_costs_only_itself(
    frames: Seq<Piece>,
    channels: int,
    track: Entry,
    gap: int,
)
    requires
        frames.len() > 0,
        frames[0].timecode < track.start_frame + track.frames,
        planes_of(frames[0], channels) is Err,
    ensures
        frames_course(frames, channels, track, gap) == seq![
            Stretch {
                audio: reader::no_bytes(channels),
                fault: Some(
                    ReadError::Dst {
                        track: track.number,
                        frame: frames[0].timecode,
                        error: planes_of(frames[0], channels)->Err_0,
                    },
                ),
            },
        ] + frames_course(frames.skip(1), channels, track, gap),
{
    reveal(played_later);
    let end_frame = track.start_frame + track.frames;
    assert(played(frames, channels, end_frame) =~= reader::no_bytes(channels));
}

/// Skipping to a frame drops everything before it and keeps the order of the rest.
proof fn lemma_from_frame(frames: Seq<Piece>, timecode: int)
    ensures
        ({
            let kept = from_frame(frames, timecode);
            let dropped = frames.len() - kept.len();
            &&& 0 <= dropped
            &&& kept == frames.skip(dropped)
            &&& forall|i: int| 0 <= i < dropped ==> (#[trigger] frames[i]).timecode < timecode
            &&& kept.len() > 0 ==> kept[0].timecode >= timecode
        }),
    decreases frames.len(),
{
    if frames.len() == 0 || frames[0].timecode >= timecode {
        assert(frames.skip(0) =~= frames);
    } else {
        lemma_from_frame(frames.skip(1), timecode);
        let kept = from_frame(frames, timecode);
        let dropped = frames.len() - kept.len();
        assert(frames.skip(1).skip(dropped - 1) =~= frames.skip(dropped));
        assert forall|i: int| 0 <= i < dropped implies (#[trigger] frames[i]).timecode
            < timecode by {
            if i > 0 {
                assert(frames[i] == frames.skip(1)[i - 1]);
            }
        }
    }
}

/// One track of a disc image, read as planar MSB-first DSD like any other container.
pub struct SacdReader {
    image: Vec<u8>,
    format: DsdFormat,
    tags: TrackTags,
    track: Track,
    demux: Demux,
    decoder: Decoder,
    /// A frame a seek looked at and put back.
    pending: Option<Frame>,
    /// Audio frames handed out since the start of the track.
    emitted: u32,
}

impl SacdReader {
    /// The track as the table of contents lists it.
    pub closed spec fn entry(&self) -> Entry {
        self.track@
    }

    /// The disc image.
    pub closed spec fn image(&self) -> Seq<u8> {
        self.image@
    }

    /// The frames that are still to be read, in order.
    pub closed spec fn ahead(&self) -> Seq<Piece> {
        let later = self.demux.ahead(self.image@);
        match self.pending {
            Some(frame) => seq![frame@] + later,
            None => later,
        }
    }

    /// The first sector behind them that the image does not hold, or the one past the end of
    /// the track where it holds them all.
    pub closed spec fn gap(&self) -> int {
        self.demux.gap(self.image@)
    }

    /// Why reading fails behind the last frame ahead, or none where the image holds the whole
    /// track.
    pub open spec fn cut(&self) -> Option<ReadError> {
        behind(self.gap(), self.entry().end_lsn as int)
    }

    /// What is ahead once a seek to `place` is over, and the first sector behind that which the
    /// image does not hold. Where no sector to read from can be found, the track is left where
    /// it was.
    pub open spec fn sent_to(&self, place: int) -> (Seq<Piece>, int) {
        let index = frame_at(self.entry(), place);
        match sector_for(self.image(), self.entry(), index) {
            Err(_) => (self.ahead(), self.gap()),
            Ok(lsn) => landed_at(
                self.image(),
                self.recording().format.channels as int,
                self.entry(),
                lsn,
                index,
            ),
        }
    }

    /// What does not change while a track is read.
    closed spec fn same_track(&self, other: &SacdReader) -> bool {
        &&& self.image == other.image
        &&& self.format == other.format
        &&& self.tags == other.tags
        &&& self.track == other.track
        &&& self.decoder == other.decoder
        &&& self.demux.same_stretch(&other.demux)
    }

    /// The parts fit together.
    closed spec fn fits(&self) -> bool {
        &&& 1 <= self.format.channels <= 6
        &&& self.format.rate == DsdRate(DSD64_HZ)
        &&& self.track.start_frame + self.track.frames <= 0x40_0000
        &&& self.demux.channels == self.format.channels
        &&& self.demux.end == self.track.end_lsn
        &&& self.decoder.wf()
        &&& self.decoder.channels() == self.format.channels
        &&& self.decoder.samples_per_frame() == SAMPLES_PER_FRAME
    }

    /// On a track numbered truly, what is ahead are the frames after those handed out.
    #[verifier::opaque]
    closed spec fn on_count(&self) -> bool {
        let frames = track_frames(self.image@, self.format.channels as int, self.track@);
        numbered_truly(self.image@, self.format.channels as int, self.track@) ==> {
            &&& self.emitted <= self.track.frames
            &&& self.emitted < self.track.frames ==> self.ahead() == frames.skip(
                self.emitted as int,
            )
            &&& self.emitted == self.track.frames ==> forall|i: int|
                0 <= i < self.ahead().len() ==> (#[trigger] self.ahead()[i]).timecode
                    >= self.track.start_frame + self.track.frames
        }
    }

    proof fn lemma_ready(&self)
        requires
            self.wf(),
        ensures
            reader::ready(self.wf(), self.recording(), self.position(), self.upcoming()),
    {
        reveal(SacdReader::on_count);
        let channels = self.format.channels as int;
        let end_frame = self.track.start_frame + self.track.frames;
        let frames = track_frames(self.image@, channels, self.track@);
        lemma_played(frames, channels, end_frame);
        lemma_played(self.ahead(), channels, end_frame);
        if self.recording().exact {
            assert forall|i: int| 0 <= i < self.emitted implies (#[trigger] frames[i]).timecode
                < end_frame && planes_of(frames[i], channels) is Ok by {}
            lemma_played_on(frames, channels, end_frame, self.emitted as int);
            if self.emitted == self.track.frames {
                let tail = frames.skip(self.emitted as int);
                if tail.len() > 0 {
                    assert(tail[0] == frames[self.emitted as int]);
                }
                assert(played(tail, channels, end_frame) == played(
                    self.ahead(),
                    channels,
                    end_frame,
                ));
            }
        }
    }

    fn next_frame(&mut self) -> (out: Result<Option<Frame>, ReadError>)
        requires
            old(self).fits(),
        ensures
            final(self).fits(),
            final(self).same_track(old(self)),
            final(self).emitted == old(self).emitted,
            match out {
                Ok(Some(frame)) => {
                    &&& old(self).ahead().len() > 0
                    &&& frame@ == old(self).ahead()[0]
                    &&& final(self).ahead() == old(self).ahead().skip(1)
                    &&& final(self).gap() == old(self).gap()
                    &&& final(self).pending is None
                },
                Ok(None) => {
                    &&& old(self).ahead().len() == 0
                    &&& old(self).cut() is None
                    &&& final(self).ahead().len() == 0
                    &&& final(self).gap() == old(self).gap()
                },
                Err(error) => {
                    &&& old(self).ahead().len() == 0
                    &&& old(self).cut() == Some(error)
                    &&& final(self).ahead().len() == 0
                    &&& final(self).gap() == old(self).gap() + 1
                },
            },
    {
        match self.pending.take() {
            Some(frame) => {
                proof {
                    let later = self.demux.ahead(self.image@);
                    assert((seq![frame@] + later).skip(1) =~= later);
                }
                return Ok(Some(frame));
            },
            None => {},
        }
        self.demux.next(self.image.as_slice())
    }

    /// Demux past everything before `timecode`, leaving the first frame at or after it ready
    /// to be read. Nothing is decoded, so this costs sector reads and no more.
    fn skip_to(&mut self, timecode: u32) -> (out: Result<(), ReadError>)
        requires
            old(self).fits(),
        ensures
            final(self).fits(),
            final(self).same_track(old(self)),
            match out {
                Ok(()) => {
                    let kept = from_frame(old(self).ahead(), timecode as int);
                    &&& final(self).ahead() == kept
                    &&& kept.len() == 0 ==> old(self).cut() is None
                    &&& final(self).gap() == old(self).gap()
                    &&& final(self).emitted == reached(kept, old(self).track@)
                },
                Err(error) => {
                    &&& from_frame(old(self).ahead(), timecode as int).len() == 0
                    &&& old(self).cut() == Some(error)
                    &&& final(self).ahead().len() == 0
                    &&& final(self).gap() == old(self).gap() + 1
                },
            },
    {
        loop
            invariant
                self.fits(),
                self.same_track(old(self)),
                self.gap() == old(self).gap(),
                from_frame(self.ahead(), timecode as int) == from_frame(
                    old(self).ahead(),
                    timecode as int,
                ),
            decreases self.ahead().len(),
        {
            let ghost before = self.ahead();
            match self.next_frame() {
                Ok(Some(frame)) => {
                    if frame.timecode >= timecode {
                        self.emitted = if frame.timecode < self.track.start_frame {
                            0
                        } else {
                            frame.timecode - self.track.start_frame
                        };
                        let ghost head = frame@;
                        self.pending = Some(frame);
                        proof {
                            assert(seq![head] + before.skip(1) =~= before);
                            assert(self.ahead() == before);
                        }
                        return Ok(());
                    }
                },
                Ok(None) => {
                    self.emitted = self.track.frames;
                    assert(self.ahead() =~= before);
                    return Ok(());
                },
                Err(error) => {
                    return Err(error);
                },
            }
        }
    }

    /// The timecode of the first audio frame starting at or after `sector`.
    fn frame_start_from(&self, sector: u32) -> (out: Result<Option<u32>, ReadError>)
        requires
            self.fits(),
        ensures
            match frame_start(
                self.image@,
                sector as int,
                probe_limit(sector as int, self.track.end_lsn as int),
            ) {
                Ok(Some(timecode)) => out == Ok::<Option<u32>, ReadError>(Some(timecode as u32)) && 0
                    <= timecode <= u32::MAX,
                Ok(None) => out == Ok::<Option<u32>, ReadError>(None),
                Err(lsn) => out == Err::<Option<u32>, ReadError>(
                    ReadError::Sector { lsn: lsn as u32 },
                ),
            },
    {
        let limit: u32 = if self.track.end_lsn > PROBE_SECTORS && sector < self.track.end_lsn
            - PROBE_SECTORS {
            sector + PROBE_SECTORS
        } else {
            self.track.end_lsn
        };
        let ghost whole = frame_start(
            self.image@,
            sector as int,
            probe_limit(sector as int, self.track.end_lsn as int),
        );
        let len: usize = self.image.len();
        let mut probe: u32 = sector;
        while probe < limit
            invariant
                len == self.image@.len(),
                whole == frame_start(self.image@, probe as int, limit as int),
                whole == frame_start(
                    self.image@,
                    sector as int,
                    probe_limit(sector as int, self.track.end_lsn as int),
                ),
            decreases limit - probe,
        {
            let at: u64 = probe as u64 * 2048;
            if at + PROBE_BYTES as u64 > len as u64 {
                return Err(ReadError::Sector { lsn: probe });
            }
            let from: usize = at as usize;
            let head: &[u8] = vstd::slice::slice_subrange(
                self.image.as_slice(),
                from,
                from + PROBE_BYTES,
            );
            assert(head@ == head_of(self.image@, probe as int));
            if begins_frame(head) {
                let base: usize = 1 + (head[0] / 32) as usize * 2;
                let info: &[u8] = vstd::slice::slice_subrange(head, base, base + 3);
                let timecode: u32 = toc::timecode(info);
                return Ok(Some(timecode));
            }
            probe += 1;
        }
        Ok(None)
    }

    /// A sector from which reading meets the frame at `timecode` before any later one.
    ///
    /// Timecodes only rise along a track, so the sectors can be halved rather than walked:
    /// a track is hundreds of thousands of sectors, and a seek reads about twenty of them.
    /// Several frames may start in one sector, so the sector that starts the last frame known
    /// to come before is the one to read from.
    fn locate(&self, timecode: u32) -> (out: Result<u32, ReadError>)
        requires
            self.fits(),
        ensures
            match located(
                self.image@,
                self.track@,
                timecode as int,
                self.track.start_lsn as int,
                self.track.end_lsn as int,
                self.track.start_lsn as int,
            ) {
                Ok(lsn) => {
                    &&& out == Ok::<u32, ReadError>(lsn as u32)
                    &&& 0 <= lsn <= u32::MAX
                    &&& lsn == self.track.start_lsn || starts_before(
                        self.image@,
                        self.track@,
                        lsn,
                        timecode as int,
                    )
                },
                Err(lsn) => {
                    &&& out == Err::<u32, ReadError>(ReadError::Sector { lsn: lsn as u32 })
                    &&& self.image@.len() < self.track.end_lsn * 2048
                },
            },
    {
        let ghost goal = located(
            self.image@,
            self.track@,
            timecode as int,
            self.track.start_lsn as int,
            self.track.end_lsn as int,
            self.track.start_lsn as int,
        );
        let mut low: u32 = self.track.start_lsn;
        let mut high: u32 = self.track.end_lsn;
        let mut from: u32 = self.track.start_lsn;
        while low < high
            invariant
                self.fits(),
                self.track.start_lsn <= low,
                high <= self.track.end_lsn,
                goal == located(
                    self.image@,
                    self.track@,
                    timecode as int,
                    self.track.start_lsn as int,
                    self.track.end_lsn as int,
                    self.track.start_lsn as int,
                ),
                goal == located(
                    self.image@,
                    self.track@,
                    timecode as int,
                    low as int,
                    high as int,
                    from as int,
                ),
                from == self.track.start_lsn || starts_before(
                    self.image@,
                    self.track@,
                    from as int,
                    timecode as int,
                ),
            decreases high - low,
        {
            let middle: u32 = low + (high - low) / 2;
            match self.frame_start_from(middle) {
                // Landing early only costs demuxing, so an unreadable stretch looks backwards.
                Ok(Some(found)) => {
                    if found < timecode {
                        from = middle;
                        low = middle + 1;
                    } else {
                        high = middle;
                    }
                },
                Ok(None) => {
                    high = middle;
                },
                Err(error) => {
                    proof {
                        lemma_missing(
                            self.image@,
                            middle as int,
                            probe_limit(middle as int, self.track.end_lsn as int),
                        );
                    }
                    return Err(error);
                },
            }
        }
        Ok(from)
    }

    /// On a track numbered truly, reading from a sector that starts an earlier frame for frame
    /// `index` leaves that many frames handed out.
    proof fn lemma_on_count(&self, lsn: int, index: int, landed: bool)
        requires
            self.fits(),
            0 <= index <= self.track.frames,
            lsn == self.track.start_lsn || starts_before(
                self.image@,
                self.track@,
                lsn,
                self.track.start_frame + index,
            ),
            self.ahead() == frames_at(
                self.image@,
                self.format.channels as int,
                self.track@,
                lsn,
                index,
            ),
            landed ==> self.emitted == reached(self.ahead(), self.track@),
            !landed ==> cut_at(self.image@, lsn as u32, self.track.end_lsn) is Some,
        ensures
            self.on_count(),
            self.recording().exact ==> landed && self.emitted == index,
    {
        reveal(SacdReader::on_count);
        let channels = self.format.channels as int;
        if numbered_truly(self.image@, channels, self.track@) {
            lemma_landing(self.image@, channels, self.track@, lsn, index);
            let frames = track_frames(self.image@, channels, self.track@);
            let kept = self.ahead();
            assert(kept == frames.skip(index));
            if kept.len() > 0 {
                assert(kept[0] == frames[index]);
            }
            assert forall|i: int|
                0 <= i < kept.len() && index == self.track.frames implies (#[trigger] kept[i]).timecode
                >= self.track.start_frame + self.track.frames by {
                assert(kept[i] == frames[index + i]);
            }
        }
    }

    /// Read from sector `lsn` on, past everything before frame `index` of the track.
    fn land(&mut self, lsn: u32, index: u32) -> (out: Result<(), ReadError>)
        requires
            old(self).fits(),
            index <= old(self).track.frames,
            lsn == old(self).track.start_lsn || starts_before(
                old(self).image@,
                old(self).track@,
                lsn as int,
                old(self).track.start_frame + index,
            ),
        ensures
            final(self).fits(),
            final(self).same_track(old(self)),
            old(self).recording().exact ==> out is Ok && final(self).emitted == index,
            old(self).landed_on(final(self), lsn as int, index as int, out),
    {
        let timecode: u32 = self.track.start_frame + index;
        self.pending = None;
        self.demux.restart(lsn);
        let ghost fresh = demux::frames_from(
            self.image@,
            self.format.channels as int,
            demux::blank(),
            lsn as int,
            self.track.end_lsn as int,
        );
        proof {
            demux::lemma_frames_alike(
                self.image@,
                self.format.channels as int,
                self.demux.assembly(),
                demux::blank(),
                lsn as int,
                self.track.end_lsn as int,
            );
            assert(self.ahead() =~= fresh);
        }
        let out: Result<(), ReadError> = self.skip_to(timecode);
        proof {
            let kept = from_frame(fresh, timecode as int);
            assert(out is Err ==> self.ahead() =~= kept);
            assert(self.ahead() == frames_at(
                self.image@,
                self.format.channels as int,
                self.track@,
                lsn as int,
                index as int,
            ));
            self.lemma_on_count(lsn as int, index as int, out is Ok);
            reveal(SacdReader::landed_on);
        }
        out
    }

    /// Reading from sector `lsn` on for frame `index` takes the reader to `after` and comes to
    /// `out`.
    #[verifier::opaque]
    closed spec fn landed_on(
        &self,
        after: &SacdReader,
        lsn: int,
        index: int,
        out: Result<(), ReadError>,
    ) -> bool {
        let gap = demux::first_missing(self.image@, lsn, self.track.end_lsn as int);
        let ahead = frames_at(self.image@, self.format.channels as int, self.track@, lsn, index);
        let cut = behind(gap, self.track.end_lsn as int);
        &&& after.on_count()
        &&& after.ahead() == ahead
        &&& match out {
            Ok(()) => {
                &&& after.gap() == gap
                &&& after.emitted == reached(ahead, self.track@)
                &&& ahead.len() == 0 ==> cut is None
            },
            Err(error) => {
                &&& ahead.len() == 0
                &&& cut == Some(error)
                &&& after.gap() == gap + 1
            },
        }
    }

    /// Reading on from frame `index` takes the reader to `after` and comes to `out`.
    closed spec fn moved_to(
        &self,
        after: &SacdReader,
        index: int,
        out: Result<(), ReadError>,
    ) -> bool {
        match sector_for(self.image@, self.track@, index) {
            Err(lsn) => {
                &&& out == Err::<(), ReadError>(ReadError::Sector { lsn: lsn as u32 })
                &&& *after == *self
            },
            Ok(lsn) => 0 <= lsn <= u32::MAX && self.landed_on(after, lsn, index, out),
        }
    }

    /// What is to come once a seek is over, and what it comes to.
    proof fn lemma_moved(&self, after: &SacdReader, place: int, out: Result<(), ReadError>)
        requires
            self.fits(),
            self.on_count(),
            after.fits(),
            after.same_track(self),
            self.recording().exact ==> out is Ok,
            self.moved_to(after, frame_at(self.entry(), place), out),
        ensures
            after.on_count(),
            reader::course(after.upcoming(), after.ending(), after.later()) == self.aimed(place),
            match out {
                Ok(()) => self.sought(place) == Ok::<u64, ReadError>(
                    (after.emitted * FRAME_BYTES) as u64,
                ),
                Err(error) => self.sought(place) == Err::<u64, ReadError>(error),
            },
            (after.ahead(), after.gap()) == self.sent_to(place),
    {
        reveal(SacdReader::landed_on);
        let index = frame_at(self.entry(), place);
        let channels = self.format.channels as int;
        let course = reader::course(after.upcoming(), after.ending(), after.later());
        match sector_for(self.image@, self.track@, index) {
            Err(_) => {},
            Ok(lsn) => {
                assert(course == frames_course(after.ahead(), channels, self.track@, after.gap()));
                assert((after.ahead(), after.gap()) == landed_at(
                    self.image@,
                    channels,
                    self.track@,
                    lsn,
                    index,
                ));
            },
        }
    }

    /// Read on from frame `index` of the track.
    fn go_to(&mut self, index: u32) -> (out: Result<(), ReadError>)
        requires
            old(self).fits(),
            index <= old(self).track.frames,
        ensures
            final(self).fits(),
            final(self).same_track(old(self)),
            old(self).recording().exact ==> out is Ok && final(self).emitted == index,
            old(self).moved_to(final(self), index as int, out),
    {
        let timecode: u32 = self.track.start_frame + index;
        let ghost found = sector_for(self.image@, self.track@, index as int);
        match self.locate(timecode) {
            Ok(lsn) => {
                assert(found == Ok::<int, int>(lsn as int));
                self.land(lsn, index)
            },
            Err(error) => Err(error),
        }
    }

    /// Put the next audio frame at the heads of the planes.
    #[verifier::spinoff_prover]
    #[verifier::rlimit(80)]
    fn next_planes(&mut self, planes: &mut [Box<[u8]>]) -> (out: Result<usize, ReadError>)
        requires
            old(self).wf(),
            reader::planes_hold(old(planes)@, old(self).recording()),
        ensures
            final(self).wf(),
            final(self).same_track(old(self)),
            reader::same_lengths(old(planes)@, final(planes)@),
            old(self).recording().exact ==> out is Ok,
            out matches Ok(count) ==> {
                &&& old(self).recording().exact ==> final(self).position() == old(self).position()
                    + count
                &&& forall|c: int, i: int|
                    0 <= c < old(self).format.channels && 0 <= i < count
                        ==> #[trigger] final(planes)@[c]@[i] == planes_of(
                        old(self).ahead()[0],
                        old(self).format.channels as int,
                    )->Ok_0[c][i]
            },
            out == (if old(self).ahead().len() == 0 {
                match old(self).cut() {
                    Some(error) => Err::<usize, ReadError>(error),
                    None => Ok::<usize, ReadError>(0),
                }
            } else if old(self).ahead()[0].timecode >= old(self).entry().start_frame
                + old(self).entry().frames {
                Ok::<usize, ReadError>(0)
            } else {
                match planes_of(
                    old(self).ahead()[0],
                    old(self).recording().format.channels as int,
                ) {
                    Ok(_) => Ok::<usize, ReadError>(FRAME_BYTES),
                    Err(error) => Err::<usize, ReadError>(
                        ReadError::Dst {
                            track: old(self).entry().number,
                            frame: old(self).ahead()[0].timecode,
                            error,
                        },
                    ),
                }
            }),
            if old(self).ahead().len() > 0 {
                &&& final(self).ahead() == old(self).ahead().skip(1)
                &&& final(self).gap() == old(self).gap()
            } else {
                &&& final(self).ahead().len() == 0
                &&& final(self).gap() == (if old(self).cut() is Some {
                    old(self).gap() + 1
                } else {
                    old(self).gap()
                })
            },
    {
        let ghost channels = self.format.channels as int;
        let ghost end = self.track.start_frame + self.track.frames;
        let ghost frames = track_frames(self.image@, channels, self.track@);
        let ghost before = self.ahead();
        proof {
            reveal(SacdReader::on_count);
        }
        let frame: Frame = match self.next_frame() {
            Ok(Some(frame)) => frame,
            Ok(None) => {
                assert(self.ahead() =~= before);
                return Ok(0);
            },
            Err(error) => {
                return Err(error);
            },
        };
        if frame.timecode >= self.track.end_frame() {
            proof {
                let exact = numbered_truly(self.image@, channels, self.track@);
                if exact && self.emitted < self.track.frames {
                    assert(before[0] == frames[self.emitted as int]);
                }
                assert forall|i: int|
                    0 <= i < self.ahead().len() && exact implies (#[trigger] self.ahead()[i]).timecode
                    >= end by {
                    assert(self.ahead()[i] == before[i + 1]);
                }
            }
            return Ok(0);
        }
        self.emitted = if frame.timecode < self.track.start_frame {
            1
        } else {
            frame.timecode - self.track.start_frame + 1
        };
        if frame.dst_encoded {
            match self.decoder.decode(frame.data.as_slice(), planes) {
                Ok(()) => {},
                Err(error) => {
                    return Err(
                        ReadError::Dst {
                            track: self.track.number,
                            frame: frame.timecode,
                            error,
                        },
                    );
                },
            }
        } else {
            self.deinterleave(frame.data.as_slice(), planes);
        }
        proof {
            let given = planes_of(before[0], channels)->Ok_0;
            lemma_planes(before[0], channels);
            assert forall|c: int, i: int|
                0 <= c < channels && 0 <= i < FRAME_BYTES implies #[trigger] planes@[c]@[i]
                == given[c][i] by {
                if frame.dst_encoded {
                    assert(planes@[c]@.subrange(0, FRAME_BYTES as int) == given[c]);
                    assert(planes@[c]@.subrange(0, FRAME_BYTES as int)[i] == planes@[c]@[i]);
                }
            }
            let exact = numbered_truly(self.image@, channels, self.track@);
            if exact {
                assert(before[0].timecode < end);
                assert(old(self).emitted < self.track.frames);
                assert(before[0] == frames[old(self).emitted as int]);
                assert(before.skip(1) =~= frames.skip(self.emitted as int));
                assert forall|i: int|
                    self.emitted == self.track.frames && 0 <= i
                        < self.ahead().len() implies (#[trigger] self.ahead()[i]).timecode
                    >= end by {
                    assert(self.ahead()[i] == frames[self.emitted + i]);
                }
            }
        }
        Ok(FRAME_BYTES)
    }

    /// Spread one frame of plain DSD, which arrives one byte per channel in turn.
    fn deinterleave(&self, frame: &[u8], planes: &mut [Box<[u8]>])
        requires
            self.fits(),
            old(planes)@.len() >= self.format.channels,
            forall|c: int|
                0 <= c < self.format.channels ==> (#[trigger] old(planes)@[c])@.len()
                    >= FRAME_BYTES,
        ensures
            reader::same_lengths(old(planes)@, final(planes)@),
            forall|c: int, i: int|
                0 <= c < self.format.channels && 0 <= i < FRAME_BYTES ==> #[trigger] final(planes)@[c]@[i]
                    == dop::byte_or_silence(frame@, i * self.format.channels + c),
    {
        let channels: usize = self.format.channels as usize;
        let mut c: usize = 0;
        while c < channels
            invariant
                self.fits(),
                c <= channels == self.format.channels,
                reader::same_lengths(old(planes)@, planes@),
                planes@.len() >= channels,
                forall|k: int|
                    0 <= k < channels ==> (#[trigger] old(planes)@[k])@.len() >= FRAME_BYTES,
                forall|k: int, i: int|
                    0 <= k < c && 0 <= i < FRAME_BYTES ==> #[trigger] planes@[k]@[i]
                        == dop::byte_or_silence(frame@, i * channels + k),
            decreases channels - c,
        {
            let mut index: usize = 0;
            while index < FRAME_BYTES
                invariant
                    c < channels <= 6,
                    index <= FRAME_BYTES,
                    reader::same_lengths(old(planes)@, planes@),
                    planes@.len() >= channels,
                    planes@[c as int]@.len() >= FRAME_BYTES,
                    forall|k: int, i: int|
                        0 <= k < c && 0 <= i < FRAME_BYTES ==> #[trigger] planes@[k]@[i]
                            == dop::byte_or_silence(frame@, i * channels + k),
                    forall|i: int|
                        0 <= i < index ==> #[trigger] planes@[c as int]@[i] == dop::byte_or_silence(
                            frame@,
                            i * channels + c,
                        ),
                decreases FRAME_BYTES - index,
            {
                assert(0 <= index * channels <= 6 * FRAME_BYTES) by (nonlinear_arith)
                    requires
                        0 <= index <= FRAME_BYTES,
                        0 <= channels <= 6,
                ;
                let at: usize = index * channels + c;
                let byte: u8 = if at < frame.len() {
                    frame[at]
                } else {
                    DSD_SILENCE_BYTE
                };
                planes[c][index] = byte;
                index += 1;
            }
            c += 1;
        }
    }
}

/// Whether a packet of the sector whose first bytes are `head` starts an audio frame.
fn begins_frame(head: &[u8]) -> (yes: bool)
    requires
        head@.len() == PROBE_BYTES,
    ensures
        yes == starts_a_frame(head@),
{
    let packets: usize = (head[0] / 32) as usize;
    let mut index: usize = 0;
    while index < packets
        invariant
            head@.len() == PROBE_BYTES,
            index <= packets == demux::packet_count(head@),
            packets <= 7,
            forall|k: int|
                0 <= k < index ==> !(#[trigger] demux::is_start(head@, k) && demux::is_audio(
                    head@,
                    k,
                )),
        decreases packets - index,
    {
        let byte: u8 = head[1 + index * 2];
        if byte >= 128 && byte / 8 % 8 == demux::DATA_TYPE_AUDIO {
            assert(demux::is_start(head@, index as int));
            return true;
        }
        index += 1;
    }
    false
}

proof fn lemma_missing(image: Seq<u8>, lsn: int, limit: int)
    ensures
        frame_start(image, lsn, limit) matches Err(found) ==> lsn <= found < limit && found * 2048
            + PROBE_BYTES > image.len(),
    decreases limit - lsn,
{
    if lsn < limit && lsn * 2048 + PROBE_BYTES <= image.len() {
        lemma_missing(image, lsn + 1, limit);
    }
}

impl DsdSource for SacdReader {
    closed spec fn wf(&self) -> bool {
        self.fits() && self.on_count()
    }

    closed spec fn recording(&self) -> DsdRecording {
        recording_of(self.image@, self.format, self.track@, self.tags@)
    }

    closed spec fn position(&self) -> int {
        self.emitted * FRAME_BYTES
    }

    open spec fn upcoming(&self) -> Seq<Seq<u8>> {
        played(
            self.ahead(),
            self.recording().format.channels as int,
            self.entry().start_frame + self.entry().frames,
        )
    }

    open spec fn ending(&self) -> Option<ReadError> {
        failing(
            self.ahead(),
            self.recording().format.channels as int,
            self.entry().start_frame + self.entry().frames,
            self.entry().number,
            self.cut(),
        )
    }

    open spec fn later(&self) -> Seq<Stretch<Seq<Seq<u8>>>> {
        played_later(
            self.ahead(),
            self.recording().format.channels as int,
            self.entry().start_frame + self.entry().frames,
            self.entry().number,
            self.gap(),
            self.entry().end_lsn as int,
        )
    }

    open spec fn aimed(&self, place: int) -> Seq<Stretch<Seq<Seq<u8>>>> {
        let (ahead, gap) = self.sent_to(place);
        frames_course(ahead, self.recording().format.channels as int, self.entry(), gap)
    }

    open spec fn sought(&self, place: int) -> Result<u64, ReadError> {
        sought_in(
            self.image(),
            self.recording().format.channels as int,
            self.entry(),
            place,
        )
    }

    fn container(&self) -> (name: &'static str) {
        "SACD"
    }

    fn format(&self) -> (format: DsdFormat) {
        self.format
    }

    fn total_bytes_per_channel(&self) -> (total: u64) {
        self.track.frames as u64 * FRAME_BYTES as u64
    }

    fn tags(&self) -> (tags: &TrackTags) {
        &self.tags
    }

    fn chunk_bytes(&self) -> (bytes: usize) {
        FRAME_BYTES
    }

    /// One audio frame. A frame that does not decode is an error and is passed over, and so is
    /// a sector that the image does not hold.
    fn read(&mut self, planes: &mut [Box<[u8]>]) -> (out: Result<usize, ReadError>)
        ensures
            final(self).entry() == old(self).entry(),
            final(self).image() == old(self).image(),
            out == (if old(self).ahead().len() == 0 {
                match old(self).cut() {
                    Some(error) => Err::<usize, ReadError>(error),
                    None => Ok::<usize, ReadError>(0),
                }
            } else if old(self).ahead()[0].timecode >= old(self).entry().start_frame
                + old(self).entry().frames {
                Ok::<usize, ReadError>(0)
            } else {
                match planes_of(
                    old(self).ahead()[0],
                    old(self).recording().format.channels as int,
                ) {
                    Ok(_) => Ok::<usize, ReadError>(FRAME_BYTES),
                    Err(error) => Err::<usize, ReadError>(
                        ReadError::Dst {
                            track: old(self).entry().number,
                            frame: old(self).ahead()[0].timecode,
                            error,
                        },
                    ),
                }
            }),
            if old(self).ahead().len() > 0 {
                &&& final(self).ahead() == old(self).ahead().skip(1)
                &&& final(self).gap() == old(self).gap()
            } else {
                &&& final(self).ahead().len() == 0
                &&& final(self).gap() == (if old(self).cut() is Some {
                    old(self).gap() + 1
                } else {
                    old(self).gap()
                })
            },
    {
        let ghost channels = self.format.channels as int;
        let ghost before = *self;
        let out: Result<usize, ReadError> = self.next_planes(planes);
        proof {
            self.lemma_ready();
            lemma_read_on(before.ahead(), channels, self.track@, before.gap());
            lemma_played(before.ahead(), channels, self.track.start_frame + self.track.frames);
            assert(before.ahead().len() == 0 ==> self.ahead() =~= before.ahead());
        }
        out
    }

    /// A disc is addressable by audio frame, so a seek lands on the frame holding the target.
    fn seek(&mut self, bytes_per_channel: u64) -> (out: Result<u64, ReadError>)
        ensures
            final(self).entry() == old(self).entry(),
            final(self).image() == old(self).image(),
            old(self).recording().exact ==> out == Ok::<u64, ReadError>(
                ((if bytes_per_channel < old(self).recording().declared {
                    bytes_per_channel as int
                } else {
                    old(self).recording().declared
                }) / old(self).recording().chunk * old(self).recording().chunk) as u64,
            ),
            (final(self).ahead(), final(self).gap()) == old(self).sent_to(bytes_per_channel as int),
    {
        let whole_frames: u64 = bytes_per_channel / FRAME_BYTES as u64;
        let index: u32 = if whole_frames < self.track.frames as u64 {
            whole_frames as u32
        } else {
            self.track.frames
        };
        let ghost before = *self;
        assert(index == frame_at(self.entry(), bytes_per_channel as int));
        let out: Result<(), ReadError> = self.go_to(index);
        proof {
            before.lemma_moved(self, bytes_per_channel as int, out);
            self.lemma_ready();
        }
        match out {
            Ok(()) => {
                proof {
                    let declared = self.track.frames * FRAME_BYTES;
                    assert(declared / FRAME_BYTES as int == self.track.frames);
                }
                Ok(self.emitted as u64 * FRAME_BYTES as u64)
            },
            Err(error) => Err(error),
        }
    }
}

/// Why a track of a disc could not be opened.
#[derive(Debug, PartialEq, Eq)]
pub enum DiscError {
    /// The disc has no track of that number.
    NoTrack { path: String, tracks: usize, number: u32 },
    /// The track's first frame could not be reached.
    Read { error: ReadError },
}

/// A disc image, opened to see what it holds before anything is played.
pub struct Disc {
    pub path: String,
    pub toc: Toc,
}

/// The place of the track called `number` in a list, if it is there.
pub open spec fn track_at(tracks: Seq<Entry>, number: u32) -> Option<int> {
    if exists|i: int| 0 <= i < tracks.len() && (#[trigger] tracks[i]).number == number {
        Some(
            choose|i: int|
                {
                    &&& 0 <= i < tracks.len()
                    &&& (#[trigger] tracks[i]).number == number
                    &&& forall|k: int| 0 <= k < i ==> (#[trigger] tracks[k]).number != number
                },
        )
    } else {
        None
    }
}

/// What a track is called, with the album's own names filled in around it.
pub open spec fn disc_tags(disc: Contents, number: u32) -> Tags {
    let own = match track_at(disc.area.tracks, number) {
        Some(i) => disc.area.tracks[i].tags,
        None => tags::no_tags(),
    };
    Tags { album: disc.album, artist: toc::either(own.artist, disc.artist), ..own }
}

impl Disc {
    /// The table of contents can be played from.
    pub open spec fn wf(&self) -> bool {
        self.toc.wf()
    }

    pub fn open(path: &str, image: &[u8]) -> (out: Result<Self, TocError>)
        ensures
            match toc::contents(image@) {
                Ok(contents) => out matches Ok(disc) && disc.wf() && disc.toc@ == contents
                    && disc.path@ == path@,
                Err(error) => out matches Err(e) && e == error,
            },
    {
        match Toc::read(image) {
            Ok(toc) => Ok(Disc { path: text::owned(path), toc }),
            Err(error) => Err(error),
        }
    }

    pub fn tracks(&self) -> (tracks: &[Track])
        ensures
            tracks@ == self.toc.area.tracks@,
    {
        self.toc.area.tracks.as_slice()
    }

    /// What a track is called, with the album's own names filled in around it.
    pub fn tags(&self, number: u32) -> (tags: TrackTags)
        ensures
            tags@ == disc_tags(self.toc@, number),
    {
        let mut tags: TrackTags = match self.track(number) {
            Some(track) => track.tags.copy(),
            None => TrackTags::default(),
        };
        tags.album = text::owned_option(&self.toc.album);
        if tags.artist.is_none() {
            tags.artist = text::owned_option(&self.toc.artist);
        }
        tags
    }

    fn track(&self, number: u32) -> (out: Option<&Track>)
        ensures
            match track_at(self.toc@.area.tracks, number) {
                Some(i) => {
                    &&& 0 <= i < self.toc@.area.tracks.len()
                    &&& out matches Some(track)
                    &&& track@ == self.toc@.area.tracks[i]
                },
                None => out is None,
            },
    {
        let ghost tracks = self.toc@.area.tracks;
        let mut i: usize = 0;
        while i < self.toc.area.tracks.len()
            invariant
                tracks == self.toc@.area.tracks,
                i <= self.toc.area.tracks@.len(),
                forall|k: int| 0 <= k < i ==> (#[trigger] tracks[k]).number != number,
            decreases self.toc.area.tracks@.len() - i,
        {
            assert(tracks[i as int] == self.toc.area.tracks@[i as int]@);
            if self.toc.area.tracks[i].number == number {
                proof {
                    assert(exists|k: int|
                        0 <= k < tracks.len() && (#[trigger] tracks[k]).number == number);
                    let found = track_at(tracks, number)->0;
                    assert(tracks[i as int].number == number);
                    assert(found == i);
                }
                return Some(&self.toc.area.tracks[i]);
            }
            i += 1;
        }
        None
    }

    /// Open one track for playback. Track numbers are what the disc calls them, from one.
    pub fn reader(&self, number: u32, image: Vec<u8>) -> (out: Result<SacdReader, DiscError>)
        requires
            self.wf(),
        ensures
            match track_at(self.toc@.area.tracks, number) {
                None => out matches Err(DiscError::NoTrack { path, tracks, number: asked }) && path@
                    == self.path@ && tracks == self.toc@.area.tracks.len() && asked == number,
                Some(i) => {
                    let track = self.toc@.area.tracks[i];
                    let format = DsdFormat {
                        rate: DsdRate(DSD64_HZ),
                        channels: self.toc@.area.channels,
                    };
                    let frames = track_frames(image@, format.channels as int, track);
                    let cut = cut_at(image@, track.start_lsn, track.end_lsn);
                    match out {
                        Ok(source) => {
                            &&& reader::ready(
                                source.wf(),
                                source.recording(),
                                source.position(),
                                source.upcoming(),
                            )
                            &&& source.recording() == recording_of(
                                image@,
                                format,
                                track,
                                disc_tags(self.toc@, number),
                            )
                            &&& source.upcoming() == source.recording().audio
                            &&& source.ending() == source.recording().ending
                            &&& source.later() == source.recording().later
                            &&& source.ahead() == frames
                            &&& source.gap() == demux::first_missing(
                                image@,
                                track.start_lsn as int,
                                track.end_lsn as int,
                            )
                            &&& source.entry() == track
                            &&& source.image() == image@
                            &&& frames.len() > 0 || cut is None
                        },
                        Err(error) => {
                            &&& frames.len() == 0
                            &&& error matches DiscError::Read { error }
                            &&& cut == Some(error)
                        },
                    }
                },
            },
    {
        let track: Track = match self.track(number) {
            Some(track) => track.copy(),
            None => {
                return Err(
                    DiscError::NoTrack {
                        path: text::owned(self.path.as_str()),
                        tracks: self.toc.area.tracks.len(),
                        number,
                    },
                );
            },
        };
        let channels: u16 = self.toc.area.channels;
        let start: u32 = track.start_frame;
        let ghost entry = track@;
        let demux: Demux = Demux::new(channels as usize, track.start_lsn, track.end_lsn);
        let decoder: Decoder = match Decoder::new(channels as usize, SAMPLES_PER_FRAME) {
            Ok(decoder) => decoder,
            Err(error) => {
                return Err(
                    DiscError::Read { error: ReadError::Dst { track: number, frame: start, error } },
                );
            },
        };
        let mut reader: SacdReader = SacdReader {
            image,
            format: DsdFormat { rate: self.toc.area.rate, channels },
            tags: self.tags(number),
            track,
            demux,
            decoder,
            pending: None,
            emitted: 0,
        };
        let ghost frames = track_frames(reader.image@, channels as int, entry);
        proof {
            let fresh = demux::frames_from(
                reader.image@,
                channels as int,
                demux::blank(),
                entry.start_lsn as int,
                entry.end_lsn as int,
            );
            assert(reader.ahead() =~= fresh);
        }
        match reader.skip_to(start) {
            Ok(()) => {
                proof {
                    reveal(SacdReader::on_count);
                    if numbered_truly(reader.image@, channels as int, entry) {
                        assert(frames.skip(0) =~= frames);
                        lemma_from_frame(
                            demux::frames_from(
                                reader.image@,
                                channels as int,
                                demux::blank(),
                                entry.start_lsn as int,
                                entry.end_lsn as int,
                            ),
                            start as int,
                        );
                    }
                    reader.lemma_ready();
                }
                Ok(reader)
            },
            Err(error) => Err(DiscError::Read { error }),
        }
    }
}

/// A path that ends in `.iso`, in letters of either case.
pub open spec fn is_image_path(path: Seq<char>) -> bool {
    path::extension(path) matches Some(found) && text::same_letters(found, "iso"@)
}

/// True when `path` names a file this reader can open.
pub fn is_image(path: &str) -> (yes: bool)
    ensures
        yes == is_image_path(path@),
{
    path::has_extension(path, "iso")
}

/// On a track numbered truly, reading from a sector that starts an earlier frame, or from the
/// track's first, and skipping to a frame of the track meets that frame first.
proof fn lemma_landing(image: Seq<u8>, channels: int, track: Entry, lsn: int, index: int)
    requires
        numbered_truly(image, channels, track),
        0 <= index <= track.frames,
        lsn == track.start_lsn || starts_before(image, track, lsn, track.start_frame + index),
    ensures
        from_frame(
            demux::frames_from(image, channels, demux::blank(), lsn, track.end_lsn as int),
            track.start_frame + index,
        ) == track_frames(image, channels, track).skip(index),
{
    let end = track.end_lsn as int;
    let whole = demux::frames_from(
        image,
        channels,
        demux::blank(),
        track.start_lsn as int,
        end,
    );
    let fresh = demux::frames_from(image, channels, demux::blank(), lsn, end);
    demux::starting_late_only_drops_frames_at_the_front(
        image,
        channels,
        demux::blank(),
        track.start_lsn as int,
        lsn,
        end,
    );
    if lsn != track.start_lsn {
        assert(names_its_frame(image, channels, lsn, end));
    }
    lemma_met(whole, fresh, track.start_frame as int, index);
}

/// Among frames numbered one by one from `start` on, the later ones that begin before frame
/// `index`, or all of them, hold that frame, and skipping to it meets it first.
proof fn lemma_met(whole: Seq<Piece>, fresh: Seq<Piece>, start: int, index: int)
    requires
        demux::ends_with(whole, fresh),
        forall|i: int|
            0 <= i < from_frame(whole, start).len() ==> (#[trigger] from_frame(
                whole,
                start,
            )[i]).timecode == start + i,
        0 <= index <= from_frame(whole, start).len(),
        whole == fresh || (fresh.len() > 0 && fresh[0].timecode < start + index),
    ensures
        from_frame(fresh, start + index) == from_frame(whole, start).skip(index),
{
    let frames = from_frame(whole, start);
    lemma_from_frame(whole, start);
    lemma_from_frame(fresh, start + index);
    let before = whole.len() - frames.len();
    let passed = whole.len() - fresh.len();
    let kept = from_frame(fresh, start + index);
    let dropped = fresh.len() - kept.len();
    let target = before + index;
    assert forall|i: int| 0 <= i < fresh.len() implies #[trigger] fresh[i] == whole[passed
        + i] by {}
    if whole != fresh {
        assert(fresh[0] == whole[passed]);
        if passed >= before {
            assert(frames[passed - before] == whole[passed]);
        }
    }
    assert(passed <= target);
    if passed + dropped < target {
        assert(kept[0] == fresh[dropped]);
        assert(fresh[dropped] == whole[passed + dropped]);
        if passed + dropped >= before {
            assert(frames[passed + dropped - before] == whole[passed + dropped]);
        }
        assert(false);
    }
    if passed + dropped > target {
        assert(fresh[target - passed] == whole[target]);
        assert(frames[index] == whole[target]);
        assert(false);
    }
    assert(kept =~= frames.skip(index));
}

/// A frame that is not compressed plays as what it holds, the channels' bytes in turn.
pub proof fn a_plain_frame_plays_what_it_holds(audio: Seq<Seq<u8>>, timecode: u32)
    requires
        1 <= audio.len(),
        forall|c: int| 0 <= c < audio.len() ==> (#[trigger] audio[c]).len() == 4704,
    ensures
        planes_of(
            Piece {
                timecode,
                dst_encoded: false,
                data: Seq::new(
                    (4704 * audio.len()) as nat,
                    |at: int| audio[at % audio.len() as int][at / audio.len() as int],
                ),
            },
            audio.len() as int,
        ) == Ok::<Seq<Seq<u8>>, DstError>(audio),
{
    let channels = audio.len() as int;
    let data = Seq::new(
        (4704 * audio.len()) as nat,
        |at: int| audio[at % audio.len() as int][at / audio.len() as int],
    );
    let out = planes_of(Piece { timecode, dst_encoded: false, data }, channels)->Ok_0;
    assert forall|c: int| 0 <= c < channels implies out[c] =~= audio[c] by {
        assert forall|i: int| 0 <= i < 4704 implies out[c][i] == audio[c][i] by {
            crate::rows::lemma_slot(i, c, channels);
            crate::rows::lemma_row_fits(i, 4704, channels);
        }
    }
    assert(out =~= audio);
}

/// Frames play one after another: what a track gives of its frames is what the first gives and
/// then what the others do, and the first frame of a later track is the end of it, whatever
/// stands behind.
pub proof fn frames_play_one_after_another(
    first: Seq<Piece>,
    second: Seq<Piece>,
    channels: int,
    end_frame: int,
    channel: int,
)
    requires
        0 <= channel < channels,
        forall|i: int|
            0 <= i < first.len() ==> (#[trigger] first[i]).timecode < end_frame && planes_of(
                first[i],
                channels,
            ) is Ok && planes_of(first[i], channels)->Ok_0.len() == channels,
    ensures
        played(first + second, channels, end_frame)[channel] == played(
            first,
            channels,
            end_frame,
        )[channel] + played(second, channels, end_frame)[channel],
        second.len() > 0 && second[0].timecode >= end_frame ==> played(
            first + second,
            channels,
            end_frame,
        )[channel] == played(first, channels, end_frame)[channel],
    decreases first.len(),
{
    let whole = first + second;
    if first.len() == 0 {
        assert(whole =~= second);
        assert(played(first, channels, end_frame)[channel] =~= Seq::empty());
        assert(Seq::<u8>::empty() + played(second, channels, end_frame)[channel] =~= played(
            second,
            channels,
            end_frame,
        )[channel]);
    } else {
        let rest = first.skip(1);
        assert(whole[0] == first[0]);
        assert(whole.skip(1) =~= rest + second);
        assert forall|i: int| 0 <= i < rest.len() implies (#[trigger] rest[i]).timecode < end_frame
            && planes_of(rest[i], channels) is Ok && planes_of(rest[i], channels)->Ok_0.len()
            == channels by {
            assert(rest[i] == first[i + 1]);
        }
        frames_play_one_after_another(rest, second, channels, end_frame, channel);
        let planes = planes_of(first[0], channels)->Ok_0;
        let one = played(rest, channels, end_frame)[channel];
        let two = played(second, channels, end_frame)[channel];
        assert(planes[channel] + (one + two) =~= (planes[channel] + one) + two);
    }
}

/// The sector a search ends on starts a frame from before the one that is sought, or is the
/// track's own first: reading on from it misses nothing.
pub proof fn a_search_never_ends_past_the_frame(
    image: Seq<u8>,
    track: Entry,
    timecode: int,
    low: int,
    high: int,
    from: int,
)
    requires
        track.start_lsn <= low,
        high <= track.end_lsn,
    ensures
        located(image, track, timecode, low, high, from) matches Ok(sector) ==> sector == from
            || starts_before(image, track, sector, timecode),
    decreases high - low,
{
    if low < high {
        let middle = low + (high - low) / 2;
        if let Ok(Some(found)) = frame_start(
            image,
            middle,
            probe_limit(middle, track.end_lsn as int),
        ) {
            if found < timecode {
                a_search_never_ends_past_the_frame(
                    image,
                    track,
                    timecode,
                    middle + 1,
                    high,
                    middle,
                );
            } else {
                a_search_never_ends_past_the_frame(image, track, timecode, low, middle, from);
            }
        } else {
            a_search_never_ends_past_the_frame(image, track, timecode, low, middle, from);
        }
    }
}

/// Where frames come in order on a disc, a search ends on the last sector that starts a frame from
/// before the one that is sought: none behind it does.
pub proof fn a_search_ends_as_near_as_it_can(
    image: Seq<u8>,
    track: Entry,
    timecode: int,
    low: int,
    high: int,
    from: int,
    other: int,
)
    requires
        track.start_lsn <= low,
        high <= track.end_lsn,
        forall|a: int, b: int|
            low <= a <= b < high && #[trigger] starts_before(image, track, b, timecode)
                ==> #[trigger] starts_before(image, track, a, timecode),
        from < low,
        low <= other < high,
        starts_before(image, track, other, timecode),
    ensures
        located(image, track, timecode, low, high, from) matches Ok(sector) ==> other <= sector,
    decreases high - low,
{
    let middle = low + (high - low) / 2;
    if let Ok(Some(found)) = frame_start(
        image,
        middle,
        probe_limit(middle, track.end_lsn as int),
    ) {
        if found < timecode {
            if other > middle {
                a_search_ends_as_near_as_it_can(
                    image,
                    track,
                    timecode,
                    middle + 1,
                    high,
                    middle,
                    other,
                );
            } else {
                lemma_search_goes_on(image, track, timecode, middle + 1, high, middle);
            }
        } else {
            assert(!starts_before(image, track, middle, timecode));
            assert(other < middle);
            a_search_ends_as_near_as_it_can(image, track, timecode, low, middle, from, other);
        }
    } else {
        assert(!starts_before(image, track, middle, timecode));
        assert(other < middle);
        a_search_ends_as_near_as_it_can(image, track, timecode, low, middle, from, other);
    }
}

proof fn lemma_search_goes_on(
    image: Seq<u8>,
    track: Entry,
    timecode: int,
    low: int,
    high: int,
    from: int,
)
    requires
        from < low,
    ensures
        located(image, track, timecode, low, high, from) matches Ok(sector) ==> from <= sector,
    decreases high - low,
{
    if low < high {
        let middle = low + (high - low) / 2;
        lemma_search_goes_on(image, track, timecode, middle + 1, high, middle);
        lemma_search_goes_on(image, track, timecode, low, middle, from);
    }
}

/// A track on a disc goes by its own title and number, by the disc's name for its album, and by
/// its own artist where it has one and by the disc's where it has none.
pub proof fn a_track_goes_by_its_own_names_first(disc: Contents, number: u32, index: int)
    requires
        0 <= index < disc.area.tracks.len(),
        disc.area.tracks[index].number == number,
        forall|i: int|
            0 <= i < disc.area.tracks.len() && i != index ==> (#[trigger] disc.area.tracks[i]).number
                != number,
    ensures
        ({
            let own = disc.area.tracks[index].tags;
            let names = disc_tags(disc, number);
            &&& names.title == own.title
            &&& names.track == own.track
            &&& names.album == disc.album
            &&& own.artist is Some ==> names.artist == own.artist
            &&& own.artist is None ==> names.artist == disc.artist
        }),
{
    let tracks = disc.area.tracks;
    let found = track_at(tracks, number);
    assert(tracks[index].number == number);
    assert(found matches Some(i) && i == index) by {
        let i = index;
        assert({
            &&& 0 <= i < tracks.len()
            &&& (#[trigger] tracks[i]).number == number
            &&& forall|k: int| 0 <= k < i ==> (#[trigger] tracks[k]).number != number
        });
    }
}

/// A place in a track is in the frame that holds it, 4704 bytes of a channel each.
pub proof fn a_place_is_in_the_frame_that_holds_it(track: Entry, frame: int, within: int)
    requires
        0 <= frame <= track.frames,
        0 <= within < 4704,
    ensures
        frame_at(track, frame * 4704 + within) == frame,
{
}

/// Frames from a time on are those that are left once every earlier one at the front is gone: no
/// frame that starts at that time or behind the first that does is lost.
pub proof fn only_earlier_frames_are_passed_over(before: Seq<Piece>, rest: Seq<Piece>, timecode: int)
    requires
        forall|i: int| 0 <= i < before.len() ==> (#[trigger] before[i]).timecode < timecode,
        rest.len() > 0 ==> rest[0].timecode >= timecode,
    ensures
        from_frame(before + rest, timecode) == rest,
    decreases before.len(),
{
    let whole = before + rest;
    if before.len() == 0 {
        assert(whole =~= rest);
    } else {
        let fewer = before.skip(1);
        assert(whole[0] == before[0]);
        assert(whole.skip(1) =~= fewer + rest);
        assert forall|i: int| 0 <= i < fewer.len() implies (#[trigger] fewer[i]).timecode
            < timecode by {
            assert(fewer[i] == before[i + 1]);
        }
        only_earlier_frames_are_passed_over(fewer, rest, timecode);
    }
}

/// The frame a reader has reached is counted from the track's first.
pub proof fn frames_are_counted_from_the_first_of_the_track(
    ahead: Seq<Piece>,
    track: Entry,
    index: int,
)
    requires
        ahead.len() > 0,
        0 <= index,
        ahead[0].timecode == track.start_frame + index,
    ensures
        reached(ahead, track) == index,
        reached(Seq::empty(), track) == track.frames,
{
}

/// A probe looks at 64 sectors, and never past the end of the track.
pub proof fn a_probe_looks_at_64_sectors(lsn: int, end: int)
    ensures
        probe_limit(lsn, end) <= end,
        probe_limit(lsn, end) <= lsn + 64,
        probe_limit(lsn, end) == end || probe_limit(lsn, end) == lsn + 64,
{
}

/// The first frame that starts in a sector is found in the first sector that starts one, at the
/// time that sector gives it.
pub proof fn a_frame_start_is_found_where_it_stands(
    image: Seq<u8>,
    lsn: int,
    limit: int,
    at: int,
)
    requires
        0 <= lsn <= at < limit,
        at * 2048 + 2048 <= image.len(),
        starts_a_frame(head_of(image, at)),
        forall|k: int| lsn <= k < at ==> !starts_a_frame(#[trigger] head_of(image, k)),
    ensures
        ({
            let head = head_of(image, at);
            let base = 1 + 2 * (head[0] as int / 32);
            frame_start(image, lsn, limit) == Ok::<Option<int>, int>(
                Some((head[base] * 60 + head[base + 1]) * 75 + head[base + 2]),
            )
        }),
    decreases at - lsn,
{
    if lsn < at {
        assert(!starts_a_frame(head_of(image, lsn)));
        a_frame_start_is_found_where_it_stands(image, lsn + 1, limit, at);
    }
}

/// A track fails behind what it gives where a frame of it does not decode, at that frame's time, or
/// where the disc is cut short; one that runs into the next track ends.
pub proof fn a_track_fails_at_the_frame_that_does_not_decode(
    first: Seq<Piece>,
    second: Seq<Piece>,
    channels: int,
    end_frame: int,
    number: u32,
    cut: Option<ReadError>,
)
    requires
        forall|i: int|
            0 <= i < first.len() ==> (#[trigger] first[i]).timecode < end_frame && planes_of(
                first[i],
                channels,
            ) is Ok,
    ensures
        ({
            let ending = failing(first + second, channels, end_frame, number, cut);
            if second.len() == 0 {
                ending == cut
            } else if second[0].timecode >= end_frame {
                ending is None
            } else {
                planes_of(second[0], channels) matches Err(error) ==> ending == Some(
                    ReadError::Dst { track: number, frame: second[0].timecode, error },
                )
            }
        }),
    decreases first.len(),
{
    let whole = first + second;
    if first.len() == 0 {
        assert(whole =~= second);
    } else {
        let rest = first.skip(1);
        assert(whole[0] == first[0]);
        assert(whole.skip(1) =~= rest + second);
        assert forall|i: int| 0 <= i < rest.len() implies (#[trigger] rest[i]).timecode < end_frame
            && planes_of(rest[i], channels) is Ok by {
            assert(rest[i] == first[i + 1]);
        }
        a_track_fails_at_the_frame_that_does_not_decode(
            rest,
            second,
            channels,
            end_frame,
            number,
            cut,
        );
    }
}

/// A search of a disc that holds all its sectors finds a sector.
proof fn lemma_search_finds(
    image: Seq<u8>,
    track: Entry,
    timecode: int,
    low: int,
    high: int,
    from: int,
)
    requires
        0 <= low,
        high <= track.end_lsn,
        track.end_lsn * 2048 <= image.len(),
    ensures
        located(image, track, timecode, low, high, from) is Ok,
    decreases high - low,
{
    if low < high {
        let middle = low + (high - low) / 2;
        lemma_probe_finds(image, middle, probe_limit(middle, track.end_lsn as int));
        lemma_search_finds(image, track, timecode, middle + 1, high, middle);
        lemma_search_finds(image, track, timecode, low, middle, from);
    }
}

proof fn lemma_probe_finds(image: Seq<u8>, lsn: int, limit: int)
    requires
        0 <= lsn,
        limit * 2048 <= image.len(),
    ensures
        frame_start(image, lsn, limit) is Ok,
    decreases limit - lsn,
{
    if lsn < limit {
        lemma_probe_finds(image, lsn + 1, limit);
    }
}

/// On a disc as it was pressed, a seek lands on the frame that holds the place it was aimed at.
pub proof fn a_seek_on_a_disc_lands_on_the_frame_that_holds_the_place(
    image: Seq<u8>,
    channels: int,
    track: Entry,
    frame: int,
    within: int,
)
    requires
        numbered_truly(image, channels, track),
        0 <= frame <= track.frames,
        0 <= within < 4704,
        track.start_lsn <= track.end_lsn,
    ensures
        sought_in(image, channels, track, frame * 4704 + within) == Ok::<u64, ReadError>(
            (frame * 4704) as u64,
        ),
{
    let low = track.start_lsn as int;
    let high = track.end_lsn as int;
    let timecode = track.start_frame + frame;
    a_place_is_in_the_frame_that_holds_it(track, frame, within);
    lemma_search_finds(image, track, timecode, low, high, low);
    a_search_never_ends_past_the_frame(image, track, timecode, low, high, low);
    let lsn = sector_for(image, track, frame)->Ok_0;
    lemma_landing(image, channels, track, lsn, frame);
    let frames = track_frames(image, channels, track);
    let ahead = frames_at(image, channels, track, lsn, frame);
    assert(ahead == frames.skip(frame));
    assert(cut_at(image, lsn as u32, track.end_lsn) is None);
    if frame < frames.len() {
        assert(ahead[0] == frames[frame]);
        assert(frames[frame].timecode == track.start_frame + frame);
    }
    assert(reached(ahead, track) == frame);
}

} // verus!
