//! The containers a recording comes in.

pub mod cue;
pub mod dff;
pub mod dff_file;
pub mod dsf;
pub mod flac;
pub mod flac_file;
pub mod id3_tag;
pub mod open;
pub mod sacd;
pub mod sheet;
pub mod source;
pub mod span;
pub mod tags;

pub use open::{cue_tracks, open, tags_of, tracks_of, OpenError, TrackRef};
pub use source::Source;

use crate::audio::PcmFormat;
use crate::dsd::DsdFormat;
use crate::reader::sacd::dst::DstError;
use crate::reader::tags::{Tags, TrackTags};
use crate::text;
use vstd::prelude::*;

verus! {

/// DSD bytes per channel one DoP frame carries.
pub const DOP_BYTES_PER_FRAME: u64 = 2;

/// Why audio could not be read on.
#[derive(Debug, Clone, Copy, PartialEq, Eq, Structural)]
pub enum ReadError {
    /// A frame of a disc track does not decode.
    Dst { track: u32, frame: u32, error: DstError },
    /// A sector lies past the end of the image.
    Sector { lsn: u32 },
    /// A FLAC frame does not decode.
    Flac,
    /// A FLAC frame holds fewer channels than the stream declares.
    FlacChannels { channels: u32 },
}

impl ReadError {
    /// What went wrong, in a line.
    pub open spec fn line(self) -> Seq<char> {
        match self {
            ReadError::Dst { track, frame, error } => "track "@ + text::decimal(track as nat)
                + " at frame "@ + text::decimal(frame as nat) + ": "@ + error.line(),
            ReadError::Sector { lsn } => "the image ends before sector "@ + text::decimal(
                lsn as nat,
            ),
            ReadError::Flac => "a FLAC frame does not decode"@,
            ReadError::FlacChannels { channels } => "a FLAC frame carries only "@ + text::decimal(
                channels as nat,
            ) + " channels"@,
        }
    }

    /// What went wrong, in a line.
    pub fn message(self) -> (line: String)
        ensures
            line@ == self.line(),
    {
        match self {
            ReadError::Dst { track, frame, error } => {
                let mut line: String = text::with_number("track ", track as u64);
                line.append(" at frame ");
                line.append(text::decimal_of(frame as u64).as_str());
                line.append(": ");
                line.append(error.message().as_str());
                line
            },
            ReadError::Sector { lsn } => text::with_number(
                "the image ends before sector ",
                lsn as u64,
            ),
            ReadError::Flac => text::owned("a FLAC frame does not decode"),
            ReadError::FlacChannels { channels } => {
                let mut line: String = text::with_number(
                    "a FLAC frame carries only ",
                    channels as u64,
                );
                line.append(" channels");
                line
            },
        }
    }
}

/// What reading gives up to the next report of an end or a fault.
#[verifier::ext_equal]
pub struct Stretch<A> {
    pub audio: A,
    /// The fault that reading reports behind it, or none where it reports an end.
    pub fault: Option<ReadError>,
}

/// What is to come, stretch by stretch: the one at hand, and those behind it.
pub open spec fn course<A>(
    upcoming: A,
    ending: Option<ReadError>,
    later: Seq<Stretch<A>>,
) -> Seq<Stretch<A>> {
    seq![Stretch { audio: upcoming, fault: ending }] + later
}

/// What is to come once the end or the fault behind the stretch at hand has been reported.
/// Behind the last stretch there is `nothing`, and every further read reports the end.
pub open spec fn onward<A>(later: Seq<Stretch<A>>, nothing: A) -> Seq<Stretch<A>> {
    if later.len() == 0 {
        seq![Stretch { audio: nothing, fault: None }]
    } else {
        later
    }
}

/// No bytes on any of `channels` channels.
pub open spec fn no_bytes(channels: int) -> Seq<Seq<u8>> {
    Seq::new(channels as nat, |c: int| Seq::empty())
}

/// A DSD recording as its container holds it.
#[verifier::ext_equal]
pub struct DsdRecording {
    /// What kind of container it is.
    pub kind: Seq<char>,
    pub format: DsdFormat,
    /// DSD bytes per channel that the container declares.
    pub declared: int,
    pub tags: Tags,
    /// The most bytes per channel that one read gives.
    pub chunk: int,
    /// A seek lands on a multiple of this many bytes per channel.
    pub step: int,
    /// Whether the container numbers its audio truly, so that a position means the same byte
    /// however it is reached.
    pub exact: bool,
    /// The DSD bytes from the first to the last, channel by channel.
    pub audio: Seq<Seq<u8>>,
    /// Why reading fails behind them, or none where the recording ends there.
    pub ending: Option<ReadError>,
    /// What reading on gives behind that.
    pub later: Seq<Stretch<Seq<Seq<u8>>>>,
}

/// Planes of audio for `channels` channels, all of the same length.
pub open spec fn even(audio: Seq<Seq<u8>>, channels: int) -> bool {
    &&& audio.len() == channels
    &&& forall|c: int| 0 <= c < channels ==> (#[trigger] audio[c]).len() == audio[0].len()
}

/// What is left of every plane from `position` on.
pub open spec fn rest(audio: Seq<Seq<u8>>, position: int) -> Seq<Seq<u8>> {
    Seq::new(
        audio.len(),
        |c: int|
            if 0 <= position <= audio[c].len() {
                audio[c].skip(position)
            } else {
                Seq::empty()
            },
    )
}

impl DsdRecording {
    pub open spec fn wf(self) -> bool {
        &&& 1 <= self.format.channels
        &&& 0 <= self.declared <= u64::MAX
        &&& 1 <= self.chunk <= usize::MAX
        &&& 1 <= self.step
        &&& even(self.audio, self.format.channels as int)
    }
}

/// A place asked for, held inside a recording of `declared`.
pub open spec fn inside(place: int, declared: int) -> int {
    if place < declared {
        place
    } else {
        declared
    }
}

/// A source in working order: its own invariant holds, it stands at a place a file can have,
/// and as much is to come of every channel. Where the audio is numbered truly, what is to
/// come is what the recording holds from that place on.
pub open spec fn ready(
    own: bool,
    recording: DsdRecording,
    position: int,
    upcoming: Seq<Seq<u8>>,
) -> bool {
    &&& own
    &&& recording.wf()
    &&& 0 <= position <= u64::MAX
    &&& even(upcoming, recording.format.channels as int)
    &&& recording.exact ==> upcoming == rest(recording.audio, position)
}

/// A source of planar, MSB-first DSD bytes. One that does not say what it reads, because it is
/// written outside of what is proved, is never known to be in working order.
pub trait DsdSource: Send {
    /// The source's own invariant.
    open spec fn wf(&self) -> bool {
        false
    }

    /// The recording it reads.
    open spec fn recording(&self) -> DsdRecording {
        arbitrary()
    }

    /// DSD bytes per channel from the start of the audio to the next one to be read.
    open spec fn position(&self) -> int {
        arbitrary()
    }

    /// The bytes that reading on from here gives, channel by channel.
    open spec fn upcoming(&self) -> Seq<Seq<u8>> {
        arbitrary()
    }

    /// Why reading fails behind what is to come, or none where the recording ends there.
    open spec fn ending(&self) -> Option<ReadError> {
        arbitrary()
    }

    /// What reading on gives behind that end or that fault, stretch by stretch.
    open spec fn later(&self) -> Seq<Stretch<Seq<Seq<u8>>>> {
        arbitrary()
    }

    /// What a seek to `place` comes to: where it lands, or why it fails.
    open spec fn sought(&self, place: int) -> Result<u64, ReadError> {
        arbitrary()
    }

    /// What is to come once a seek to `place` is over, whether it lands or fails.
    open spec fn aimed(&self, place: int) -> Seq<Stretch<Seq<Seq<u8>>>> {
        arbitrary()
    }

    fn container(&self) -> (name: &'static str)
        ensures
            name@ == self.recording().kind,
    ;

    fn format(&self) -> (format: DsdFormat)
        ensures
            format == self.recording().format,
    ;

    /// DSD bytes of audio per channel, excluding container padding.
    fn total_bytes_per_channel(&self) -> (total: u64)
        requires
            ready(self.wf(), self.recording(), self.position(), self.upcoming()),
        ensures
            total == self.recording().declared,
    ;

    /// What the container says the recording is. Empty when it carries no tags.
    fn tags(&self) -> (tags: &TrackTags)
        requires
            ready(self.wf(), self.recording(), self.position(), self.upcoming()),
        ensures
            tags@ == self.recording().tags,
    ;

    /// Bytes each plane passed to [`DsdSource::read`] must hold.
    fn chunk_bytes(&self) -> (bytes: usize)
        requires
            ready(self.wf(), self.recording(), self.position(), self.upcoming()),
        ensures
            bytes == self.recording().chunk,
    ;

    /// Fill the head of each plane with the next DSD bytes. Returns bytes per plane, 0 at EOF.
    fn read(&mut self, planes: &mut [Box<[u8]>]) -> (out: Result<usize, ReadError>)
        requires
            ready(
                old(self).wf(),
                old(self).recording(),
                old(self).position(),
                old(self).upcoming(),
            ),
            planes_hold(old(planes)@, old(self).recording()),
        ensures
            same_lengths(old(planes)@, final(planes)@),
            old(self).recording().exact ==> out is Ok,
            ready(
                final(self).wf(),
                final(self).recording(),
                final(self).position(),
                final(self).upcoming(),
            ),
            final(self).recording() == old(self).recording(),
            match out {
                Ok(count) => {
                    &&& old(self).recording().exact ==> final(self).position()
                        == old(self).position() + count
                    &&& count <= old(self).recording().chunk
                    &&& read_gives(
                        old(self).upcoming(),
                        final(self).upcoming(),
                        count as int,
                        final(planes)@,
                    )
                    &&& count == 0 ==> old(self).ending() is None
                    &&& count > 0 ==> {
                        &&& final(self).ending() == old(self).ending()
                        &&& final(self).later() == old(self).later()
                    }
                },
                Err(error) => {
                    &&& old(self).upcoming()[0].len() == 0
                    &&& old(self).ending() == Some(error)
                },
            },
            out is Err || out == Ok::<usize, ReadError>(0) ==> course(
                final(self).upcoming(),
                final(self).ending(),
                final(self).later(),
            ) == onward(
                old(self).later(),
                no_bytes(old(self).recording().format.channels as int),
            ),
    ;

    /// Move the read position to `bytes_per_channel` from the start of the audio, clamped to
    /// the file. Returns where it landed, which a container addressable only in whole blocks
    /// rounds down.
    fn seek(&mut self, bytes_per_channel: u64) -> (out: Result<u64, ReadError>)
        requires
            ready(
                old(self).wf(),
                old(self).recording(),
                old(self).position(),
                old(self).upcoming(),
            ),
        ensures
            out == old(self).sought(bytes_per_channel as int),
            old(self).recording().exact ==> out is Ok,
            ready(
                final(self).wf(),
                final(self).recording(),
                final(self).position(),
                final(self).upcoming(),
            ),
            final(self).recording() == old(self).recording(),
            course(final(self).upcoming(), final(self).ending(), final(self).later()) == old(
                self,
            ).aimed(bytes_per_channel as int),
            match out {
                Ok(landed) => {
                    &&& final(self).position() == landed
                    &&& old(self).recording().exact ==> {
                        let goal = inside(
                            bytes_per_channel as int,
                            old(self).recording().declared,
                        );
                        &&& landed <= goal
                        &&& landed == goal / old(self).recording().step
                            * old(self).recording().step
                    }
                },
                Err(_) => true,
            },
    ;
}

/// What a read of `count` bytes per channel leaves at the heads of the planes, and still to
/// come: the next bytes of every channel, and those after them. It gives none only where
/// there are none.
pub open spec fn read_gives(
    before: Seq<Seq<u8>>,
    after: Seq<Seq<u8>>,
    count: int,
    planes: Seq<Box<[u8]>>,
) -> bool {
    &&& 0 <= count <= before[0].len()
    &&& count == 0 <==> before[0].len() == 0
    &&& count > 0 ==> after == rest(before, count)
    &&& forall|c: int, i: int|
        0 <= c < before.len() && 0 <= i < count ==> #[trigger] planes[c]@[i] == before[c][i]
}

/// There is a plane for every channel of the recording, and each holds what one read may give.
pub open spec fn planes_hold(planes: Seq<Box<[u8]>>, recording: DsdRecording) -> bool {
    &&& planes.len() >= recording.format.channels
    &&& forall|c: int|
        0 <= c < recording.format.channels ==> (#[trigger] planes[c])@.len() >= recording.chunk
}

/// Taking `count` bytes off what is left from `position` on leaves what is left from
/// `position + count` on.
pub proof fn lemma_rest(audio: Seq<Seq<u8>>, channels: int, position: int, count: int)
    requires
        1 <= channels,
        even(audio, channels),
        0 <= position,
        0 <= count,
        position + count <= audio[0].len(),
    ensures
        rest(rest(audio, position), count) == rest(audio, position + count),
        even(rest(audio, position), channels),
        rest(audio, position)[0].len() == audio[0].len() - position,
        forall|c: int, i: int|
            0 <= c < channels && 0 <= i < count ==> #[trigger] rest(audio, position)[c][i]
                == audio[c][position + i],
{
    let left = rest(audio, position);
    assert forall|c: int| 0 <= c < channels implies #[trigger] left[c].len() == audio[0].len()
        - position by {
        assert(audio[c].len() == audio[0].len());
    }
    assert forall|c: int| 0 <= c < channels implies rest(left, count)[c] == rest(
        audio,
        position + count,
    )[c] by {
        assert(audio[c].len() == audio[0].len());
        assert(audio[c].skip(position).skip(count) =~= audio[c].skip(position + count));
    }
    assert(rest(left, count) =~= rest(audio, position + count));
}

/// All of the audio is what is left from its start on.
pub proof fn lemma_rest_of_all(audio: Seq<Seq<u8>>)
    ensures
        rest(audio, 0) == audio,
{
    assert forall|c: int| 0 <= c < audio.len() implies rest(audio, 0)[c] == audio[c] by {
        assert(audio[c].skip(0) =~= audio[c]);
    }
    assert(rest(audio, 0) =~= audio);
}

/// Runs one after the other.
pub open spec fn joined<T>(runs: Seq<Seq<T>>) -> Seq<T>
    decreases runs.len(),
{
    if runs.len() == 0 {
        Seq::empty()
    } else {
        joined(runs.drop_last()) + runs.last()
    }
}

/// Runs taken off the head of a sequence one after the other are, together with what is left,
/// the sequence.
pub proof fn lemma_joined<T>(left: Seq<Seq<T>>, runs: Seq<Seq<T>>)
    requires
        left.len() == runs.len() + 1,
        forall|k: int| 0 <= k < runs.len() ==> left[k] == #[trigger] runs[k] + left[k + 1],
    ensures
        joined(runs) + left.last() == left[0],
    decreases runs.len(),
{
    if runs.len() == 0 {
        assert(joined(runs) + left.last() =~= left[0]);
    } else {
        let before = runs.drop_last();
        let head = left.drop_last();
        assert forall|k: int| 0 <= k < before.len() implies head[k] == #[trigger] before[k] + head[k
            + 1] by {
            assert(left[k] == runs[k] + left[k + 1]);
        }
        lemma_joined(head, before);
        let last = runs.len() - 1;
        assert(left[last] == runs[last] + left[last + 1]);
        assert(joined(runs) + left.last() =~= joined(before) + (runs.last() + left.last()));
    }
}

/// Planes of the same lengths.
pub open spec fn same_lengths(before: Seq<Box<[u8]>>, after: Seq<Box<[u8]>>) -> bool {
    &&& after.len() == before.len()
    &&& forall|c: int| 0 <= c < after.len() ==> (#[trigger] after[c])@.len() == before[c]@.len()
}

/// A PCM recording as its container holds it.
#[verifier::ext_equal]
pub struct PcmRecording {
    /// What kind of container it is.
    pub kind: Seq<char>,
    pub format: PcmFormat,
    /// Frames that the container declares.
    pub declared: int,
    pub tags: Tags,
    /// The most frames that the container says one read gives.
    pub chunk: int,
    /// Whether what it says of that holds of every block of the recording.
    pub bounded: bool,
    /// Whether the container numbers its frames truly, so that a position means the same
    /// frame however it is reached.
    pub exact: bool,
    /// The audio from its first frame to its last, channel after channel within each frame,
    /// as carrier words.
    pub audio: Seq<i32>,
    /// Why reading fails behind it, or none where the recording ends there.
    pub ending: Option<ReadError>,
    /// What reading on gives behind that.
    pub later: Seq<Stretch<Seq<i32>>>,
}

impl PcmRecording {
    pub open spec fn wf(self) -> bool {
        &&& 1 <= self.format.channels
        &&& 0 <= self.declared <= u64::MAX
        &&& 0 <= self.chunk <= usize::MAX
    }
}

/// `samples` from `from` up to `to`, as far as they reach.
pub open spec fn clipped(samples: Seq<i32>, from: int, to: int) -> Seq<i32> {
    let end = if to < samples.len() {
        to
    } else {
        samples.len() as int
    };
    if from < end {
        samples.subrange(from, end)
    } else {
        Seq::empty()
    }
}

/// A PCM source in working order: its own invariant holds, it stands at a place a file can
/// have, and what is to come is whole frames. Where frames are numbered truly, it is what the
/// recording holds from that place on.
pub open spec fn pcm_ready(
    own: bool,
    recording: PcmRecording,
    position: int,
    upcoming: Seq<i32>,
) -> bool {
    &&& own
    &&& recording.wf()
    &&& 0 <= position <= u64::MAX
    &&& upcoming.len() as int % recording.format.channels as int == 0
    &&& recording.exact ==> upcoming == clipped(
        recording.audio,
        position * recording.format.channels,
        recording.audio.len() as int,
    )
}

/// A source of interleaved linear PCM, already widened to the carrier word. One that does not
/// say what it reads, because it is written outside of what is proved, is never known to be in
/// working order.
pub trait PcmSource: Send {
    /// The source's own invariant.
    open spec fn wf(&self) -> bool {
        false
    }

    /// The recording it reads.
    open spec fn recording(&self) -> PcmRecording {
        arbitrary()
    }

    /// Frames from the start of the audio to the next one to be read.
    open spec fn position(&self) -> int {
        arbitrary()
    }

    /// The samples that reading on from here gives.
    open spec fn upcoming(&self) -> Seq<i32> {
        arbitrary()
    }

    /// The source stands as near before `frame` as its container can be read from.
    open spec fn stands_for(&self, frame: int) -> bool {
        arbitrary()
    }

    /// Why reading fails behind what is to come, or none where the recording ends there.
    open spec fn ending(&self) -> Option<ReadError> {
        arbitrary()
    }

    /// What reading on gives behind that end or that fault, stretch by stretch.
    open spec fn later(&self) -> Seq<Stretch<Seq<i32>>> {
        arbitrary()
    }

    /// What a seek to `place` comes to: where it lands, or why it fails.
    open spec fn sought(&self, place: int) -> Result<u64, ReadError> {
        arbitrary()
    }

    /// What is to come once a seek to `place` is over, whether it lands or fails.
    open spec fn aimed(&self, place: int) -> Seq<Stretch<Seq<i32>>> {
        arbitrary()
    }

    fn container(&self) -> (name: &'static str)
        ensures
            name@ == self.recording().kind,
    ;

    fn format(&self) -> (format: PcmFormat)
        ensures
            format == self.recording().format,
    ;

    /// Frames of audio the whole recording holds.
    fn total_frames(&self) -> (total: u64)
        requires
            pcm_ready(self.wf(), self.recording(), self.position(), self.upcoming()),
        ensures
            total == self.recording().declared,
    ;

    fn tags(&self) -> (tags: &TrackTags)
        requires
            pcm_ready(self.wf(), self.recording(), self.position(), self.upcoming()),
        ensures
            tags@ == self.recording().tags,
    ;

    /// Frames one [`PcmSource::read`] may return at most, for sizing the queue.
    fn chunk_frames(&self) -> (frames: usize)
        requires
            pcm_ready(self.wf(), self.recording(), self.position(), self.upcoming()),
        ensures
            frames == self.recording().chunk,
    ;

    /// Append the next interleaved frames to `out`. Returns frames appended, 0 at EOF.
    fn read(&mut self, out: &mut Vec<i32>) -> (read: Result<usize, ReadError>)
        requires
            pcm_ready(
                old(self).wf(),
                old(self).recording(),
                old(self).position(),
                old(self).upcoming(),
            ),
        ensures
            old(self).recording().exact ==> read is Ok,
            pcm_ready(
                final(self).wf(),
                final(self).recording(),
                final(self).position(),
                final(self).upcoming(),
            ),
            final(self).recording() == old(self).recording(),
            match read {
                Ok(count) => {
                    &&& final(self).position() == old(self).position() + count
                    &&& old(self).recording().bounded ==> count <= old(self).recording().chunk
                    &&& count == 0 <==> old(self).upcoming().len() == 0
                    &&& final(out)@.len() == old(out)@.len() + count
                        * old(self).recording().format.channels
                    &&& count == 0 ==> {
                        &&& old(self).ending() is None
                        &&& final(out)@ == old(out)@
                    }
                    &&& count > 0 ==> {
                        &&& final(out)@ + final(self).upcoming() == old(out)@
                            + old(self).upcoming()
                        &&& final(self).ending() == old(self).ending()
                        &&& final(self).later() == old(self).later()
                    }
                },
                Err(error) => {
                    &&& old(self).upcoming().len() == 0
                    &&& old(self).ending() == Some(error)
                    &&& final(out)@ == old(out)@
                },
            },
            read is Err || read == Ok::<usize, ReadError>(0) ==> course(
                final(self).upcoming(),
                final(self).ending(),
                final(self).later(),
            ) == onward(old(self).later(), Seq::<i32>::empty()),
    ;

    /// Move the read position to `frame`, clamped to the recording. Returns where it landed.
    fn seek(&mut self, frame: u64) -> (out: Result<u64, ReadError>)
        requires
            pcm_ready(
                old(self).wf(),
                old(self).recording(),
                old(self).position(),
                old(self).upcoming(),
            ),
        ensures
            out == old(self).sought(frame as int),
            old(self).recording().exact ==> out is Ok,
            pcm_ready(
                final(self).wf(),
                final(self).recording(),
                final(self).position(),
                final(self).upcoming(),
            ),
            final(self).recording() == old(self).recording(),
            course(final(self).upcoming(), final(self).ending(), final(self).later()) == old(
                self,
            ).aimed(frame as int),
            match out {
                Ok(landed) => {
                    &&& final(self).position() == landed
                    &&& old(self).recording().exact ==> {
                        let goal = inside(frame as int, old(self).recording().declared);
                        &&& landed <= goal
                        &&& final(self).stands_for(goal)
                    }
                },
                Err(_) => true,
            },
    ;
}

} // verus!
