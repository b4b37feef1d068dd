//! An open recording, whichever container it came in and whether it is DSD or PCM.

use crate::audio::{AudioFormat, PcmFormat};
use crate::dop;
use crate::dsd::DsdFormat;
use crate::reader;
use crate::reader::cue;
use crate::reader::cue::{CueTime, CueTrack};
use crate::reader::dff::DffReader;
use crate::reader::dsf::DsfReader;
use crate::reader::flac::FlacReader;
use crate::reader::sacd::SacdReader;
use crate::reader::span;
use crate::reader::span::{SpanDsd, SpanPcm};
use crate::reader::tags::{Tags, TrackTags};
use crate::reader::{
    DsdRecording, DsdSource, PcmRecording, PcmSource, ReadError, Stretch, DOP_BYTES_PER_FRAME,
};
use crate::rows;
use vstd::prelude::*;

verus! {

/// A DSD container of one of the kinds this player reads.
pub enum Container {
    Dsf(DsfReader),
    Dff(DffReader),
    Sacd(SacdReader),
}

impl DsdSource for Container {
    open spec fn wf(&self) -> bool {
        match self {
            Container::Dsf(source) => source.wf(),
            Container::Dff(source) => source.wf(),
            Container::Sacd(source) => source.wf(),
        }
    }

    open spec fn recording(&self) -> DsdRecording {
        match self {
            Container::Dsf(source) => source.recording(),
            Container::Dff(source) => source.recording(),
            Container::Sacd(source) => source.recording(),
        }
    }

    open spec fn position(&self) -> int {
        match self {
            Container::Dsf(source) => source.position(),
            Container::Dff(source) => source.position(),
            Container::Sacd(source) => source.position(),
        }
    }

    open spec fn upcoming(&self) -> Seq<Seq<u8>> {
        match self {
            Container::Dsf(source) => source.upcoming(),
            Container::Dff(source) => source.upcoming(),
            Container::Sacd(source) => source.upcoming(),
        }
    }

    open spec fn ending(&self) -> Option<ReadError> {
        match self {
            Container::Dsf(source) => source.ending(),
            Container::Dff(source) => source.ending(),
            Container::Sacd(source) => source.ending(),
        }
    }

    open spec fn later(&self) -> Seq<Stretch<Seq<Seq<u8>>>> {
        match self {
            Container::Dsf(source) => source.later(),
            Container::Dff(source) => source.later(),
            Container::Sacd(source) => source.later(),
        }
    }

    open spec fn sought(&self, place: int) -> Result<u64, ReadError> {
        match self {
            Container::Dsf(source) => source.sought(place),
            Container::Dff(source) => source.sought(place),
            Container::Sacd(source) => source.sought(place),
        }
    }

    open spec fn aimed(&self, place: int) -> Seq<Stretch<Seq<Seq<u8>>>> {
        match self {
            Container::Dsf(source) => source.aimed(place),
            Container::Dff(source) => source.aimed(place),
            Container::Sacd(source) => source.aimed(place),
        }
    }

    fn container(&self) -> (name: &'static str) {
        match self {
            Container::Dsf(source) => source.container(),
            Container::Dff(source) => source.container(),
            Container::Sacd(source) => source.container(),
        }
    }

    fn format(&self) -> (format: DsdFormat) {
        match self {
            Container::Dsf(source) => source.format(),
            Container::Dff(source) => source.format(),
            Container::Sacd(source) => source.format(),
        }
    }

    fn total_bytes_per_channel(&self) -> (total: u64) {
        match self {
            Container::Dsf(source) => source.total_bytes_per_channel(),
            Container::Dff(source) => source.total_bytes_per_channel(),
            Container::Sacd(source) => source.total_bytes_per_channel(),
        }
    }

    fn tags(&self) -> (tags: &TrackTags) {
        match self {
            Container::Dsf(source) => source.tags(),
            Container::Dff(source) => source.tags(),
            Container::Sacd(source) => source.tags(),
        }
    }

    fn chunk_bytes(&self) -> (bytes: usize) {
        match self {
            Container::Dsf(source) => source.chunk_bytes(),
            Container::Dff(source) => source.chunk_bytes(),
            Container::Sacd(source) => source.chunk_bytes(),
        }
    }

    fn read(&mut self, planes: &mut [Box<[u8]>]) -> (out: Result<usize, ReadError>) {
        match self {
            Container::Dsf(source) => source.read(planes),
            Container::Dff(source) => source.read(planes),
            Container::Sacd(source) => source.read(planes),
        }
    }

    fn seek(&mut self, bytes_per_channel: u64) -> (out: Result<u64, ReadError>) {
        match self {
            Container::Dsf(source) => source.seek(bytes_per_channel),
            Container::Dff(source) => source.seek(bytes_per_channel),
            Container::Sacd(source) => source.seek(bytes_per_channel),
        }
    }
}

/// A DSD recording to play: all of a container, or the part of it that a cue sheet calls a
/// track.
pub enum DsdTrack {
    Whole(Container),
    Part(SpanDsd<Container>),
}

impl DsdSource for DsdTrack {
    open spec fn wf(&self) -> bool {
        match self {
            DsdTrack::Whole(source) => source.wf(),
            DsdTrack::Part(source) => source.wf(),
        }
    }

    open spec fn recording(&self) -> DsdRecording {
        match self {
            DsdTrack::Whole(source) => source.recording(),
            DsdTrack::Part(source) => source.recording(),
        }
    }

    open spec fn position(&self) -> int {
        match self {
            DsdTrack::Whole(source) => source.position(),
            DsdTrack::Part(source) => source.position(),
        }
    }

    open spec fn upcoming(&self) -> Seq<Seq<u8>> {
        match self {
            DsdTrack::Whole(source) => source.upcoming(),
            DsdTrack::Part(source) => source.upcoming(),
        }
    }

    open spec fn ending(&self) -> Option<ReadError> {
        match self {
            DsdTrack::Whole(source) => source.ending(),
            DsdTrack::Part(source) => source.ending(),
        }
    }

    open spec fn later(&self) -> Seq<Stretch<Seq<Seq<u8>>>> {
        match self {
            DsdTrack::Whole(source) => source.later(),
            DsdTrack::Part(source) => source.later(),
        }
    }

    open spec fn sought(&self, place: int) -> Result<u64, ReadError> {
        match self {
            DsdTrack::Whole(source) => source.sought(place),
            DsdTrack::Part(source) => source.sought(place),
        }
    }

    open spec fn aimed(&self, place: int) -> Seq<Stretch<Seq<Seq<u8>>>> {
        match self {
            DsdTrack::Whole(source) => source.aimed(place),
            DsdTrack::Part(source) => source.aimed(place),
        }
    }

    fn container(&self) -> (name: &'static str) {
        match self {
            DsdTrack::Whole(source) => source.container(),
            DsdTrack::Part(source) => source.container(),
        }
    }

    fn format(&self) -> (format: DsdFormat) {
        match self {
            DsdTrack::Whole(source) => source.format(),
            DsdTrack::Part(source) => source.format(),
        }
    }

    fn total_bytes_per_channel(&self) -> (total: u64) {
        match self {
            DsdTrack::Whole(source) => source.total_bytes_per_channel(),
            DsdTrack::Part(source) => source.total_bytes_per_channel(),
        }
    }

    fn tags(&self) -> (tags: &TrackTags) {
        match self {
            DsdTrack::Whole(source) => source.tags(),
            DsdTrack::Part(source) => source.tags(),
        }
    }

    fn chunk_bytes(&self) -> (bytes: usize) {
        match self {
            DsdTrack::Whole(source) => source.chunk_bytes(),
            DsdTrack::Part(source) => source.chunk_bytes(),
        }
    }

    fn read(&mut self, planes: &mut [Box<[u8]>]) -> (out: Result<usize, ReadError>) {
        match self {
            DsdTrack::Whole(source) => source.read(planes),
            DsdTrack::Part(source) => source.read(planes),
        }
    }

    fn seek(&mut self, bytes_per_channel: u64) -> (out: Result<u64, ReadError>) {
        match self {
            DsdTrack::Whole(source) => source.seek(bytes_per_channel),
            DsdTrack::Part(source) => source.seek(bytes_per_channel),
        }
    }
}

/// A PCM recording to play: all of a file, or the part of it that a cue sheet calls a track.
pub enum PcmTrack {
    Whole(FlacReader),
    Part(SpanPcm<FlacReader>),
}

impl PcmSource for PcmTrack {
    open spec fn wf(&self) -> bool {
        match self {
            PcmTrack::Whole(source) => source.wf(),
            PcmTrack::Part(source) => source.wf(),
        }
    }

    open spec fn recording(&self) -> PcmRecording {
        match self {
            PcmTrack::Whole(source) => source.recording(),
            PcmTrack::Part(source) => source.recording(),
        }
    }

    open spec fn position(&self) -> int {
        match self {
            PcmTrack::Whole(source) => source.position(),
            PcmTrack::Part(source) => source.position(),
        }
    }

    open spec fn upcoming(&self) -> Seq<i32> {
        match self {
            PcmTrack::Whole(source) => source.upcoming(),
            PcmTrack::Part(source) => source.upcoming(),
        }
    }

    open spec fn ending(&self) -> Option<ReadError> {
        match self {
            PcmTrack::Whole(source) => source.ending(),
            PcmTrack::Part(source) => source.ending(),
        }
    }

    open spec fn later(&self) -> Seq<Stretch<Seq<i32>>> {
        match self {
            PcmTrack::Whole(source) => source.later(),
            PcmTrack::Part(source) => source.later(),
        }
    }

    open spec fn sought(&self, place: int) -> Result<u64, ReadError> {
        match self {
            PcmTrack::Whole(source) => source.sought(place),
            PcmTrack::Part(source) => source.sought(place),
        }
    }

    open spec fn aimed(&self, place: int) -> Seq<Stretch<Seq<i32>>> {
        match self {
            PcmTrack::Whole(source) => source.aimed(place),
            PcmTrack::Part(source) => source.aimed(place),
        }
    }

    open spec fn stands_for(&self, frame: int) -> bool {
        match self {
            PcmTrack::Whole(source) => source.stands_for(frame),
            PcmTrack::Part(source) => source.stands_for(frame),
        }
    }

    fn container(&self) -> (name: &'static str) {
        match self {
            PcmTrack::Whole(source) => source.container(),
            PcmTrack::Part(source) => source.container(),
        }
    }

    fn format(&self) -> (format: PcmFormat) {
        match self {
            PcmTrack::Whole(source) => source.format(),
            PcmTrack::Part(source) => source.format(),
        }
    }

    fn total_frames(&self) -> (total: u64) {
        match self {
            PcmTrack::Whole(source) => source.total_frames(),
            PcmTrack::Part(source) => source.total_frames(),
        }
    }

    fn tags(&self) -> (tags: &TrackTags) {
        match self {
            PcmTrack::Whole(source) => source.tags(),
            PcmTrack::Part(source) => source.tags(),
        }
    }

    fn chunk_frames(&self) -> (frames: usize) {
        match self {
            PcmTrack::Whole(source) => source.chunk_frames(),
            PcmTrack::Part(source) => source.chunk_frames(),
        }
    }

    fn read(&mut self, out: &mut Vec<i32>) -> (read: Result<usize, ReadError>) {
        match self {
            PcmTrack::Whole(source) => source.read(out),
            PcmTrack::Part(source) => source.read(out),
        }
    }

    fn seek(&mut self, frame: u64) -> (out: Result<u64, ReadError>) {
        match self {
            PcmTrack::Whole(source) => source.seek(frame),
            PcmTrack::Part(source) => source.seek(frame),
        }
    }
}

/// Calls `Vec::into_boxed_slice`. The claim is that the slice holds what the vector held.
#[verifier::external_body]
fn boxed(bytes: Vec<u8>) -> (plane: Box<[u8]>)
    ensures
        plane@ == bytes@,
{
    bytes.into_boxed_slice()
}

/// The first `count` bytes of every channel as DoP payloads: frame by frame, and channel by
/// channel within a frame. A channel of odd length ends in a byte of silence.
pub open spec fn payloads(planes: Seq<Seq<u8>>, count: int) -> Seq<i32> {
    Seq::new(
        (dop::frames_for(count) * planes.len()) as nat,
        |slot: int|
            dop::payload_at(
                planes[slot % planes.len() as int].subrange(0, count),
                slot / planes.len() as int,
            ) as i32,
    )
}

/// Where a time of a sheet falls, in a recording of `total` of whatever it is counted in.
pub open spec fn place_of(ticks: int, divisor: int, total: int) -> int {
    if ticks / divisor < total {
        ticks / divisor
    } else {
        total
    }
}

/// Where a track that ends at `end`, or nowhere, ends in a recording of `total`.
pub open spec fn end_of(end: Option<CueTime>, rate: u32, divisor: int, total: int) -> int {
    match end {
        Some(time) => place_of(time.0 * rate, divisor, total),
        None => total,
    }
}

/// Where a track of a sheet starts in a DSD recording.
pub open spec fn dsd_start(whole: DsdRecording, track: cue::Track) -> int {
    let rate = whole.format.rate.0;
    place_of(track.start.0 * rate, 600, end_of(track.end, rate, 600, whole.declared))
}

/// Where a track of a sheet starts in a PCM recording.
pub open spec fn pcm_start(whole: PcmRecording, track: cue::Track) -> int {
    let rate = whole.format.rate;
    place_of(track.start.0 * rate, 75, end_of(track.end, rate, 75, whole.declared))
}

/// The part of a DSD recording that a track of a sheet names, under the sheet's names.
pub open spec fn dsd_part(whole: DsdRecording, track: cue::Track) -> DsdRecording {
    let rate = whole.format.rate.0;
    let end = end_of(track.end, rate, 600, whole.declared);
    let start = dsd_start(whole, track);
    DsdRecording {
        declared: end - start,
        tags: track.tags,
        audio: span::cut(whole.audio, start, end),
        ending: span::part_ending(
            whole.audio[0].len() as int,
            start,
            end - start,
            whole.ending,
        ),
        later: span::part_later(
            whole.audio[0].len() as int,
            start,
            end - start,
            whole.later,
        ),
        step: 1,
        ..whole
    }
}

/// The part of a PCM recording that a track of a sheet names, under the sheet's names.
pub open spec fn pcm_part(whole: PcmRecording, track: cue::Track) -> PcmRecording {
    let rate = whole.format.rate;
    let end = end_of(track.end, rate, 75, whole.declared);
    let start = pcm_start(whole, track);
    PcmRecording {
        declared: end - start,
        tags: track.tags,
        audio: span::pcm_part(whole, start, end - start),
        ending: span::part_ending(span::frames_in(whole), start, end - start, whole.ending),
        later: span::pcm_part_later(
            span::frames_in(whole),
            whole.format.channels as int,
            start,
            end - start,
            whole.later,
        ),
        ..whole
    }
}

/// What is to come of a track of a sheet that has just been opened, where sending `whole` to its
/// start landed at `landed` and left `course` to come.
pub open spec fn dsd_opening(
    whole: DsdRecording,
    track: cue::Track,
    course: Seq<Stretch<Seq<Seq<u8>>>>,
    landed: int,
) -> Seq<Stretch<Seq<Seq<u8>>>> {
    let start = dsd_start(whole, track);
    span::part_course(
        course,
        span::over(start, landed),
        span::over(dsd_part(whole, track).declared, span::first_place(start, landed)),
    )
}

/// The same of a track of PCM.
pub open spec fn pcm_opening(
    whole: PcmRecording,
    track: cue::Track,
    course: Seq<Stretch<Seq<i32>>>,
    landed: int,
) -> Seq<Stretch<Seq<i32>>> {
    let start = pcm_start(whole, track);
    span::pcm_part_course(
        course,
        whole.format.channels as int,
        span::over(start, landed),
        span::over(pcm_part(whole, track).declared, span::first_place(start, landed)),
    )
}

/// A later time falls no earlier.
proof fn lemma_later(earlier: CueTime, later: CueTime, rate: u32, divisor: int, total: int)
    requires
        earlier.0 <= later.0,
        divisor > 0,
    ensures
        place_of(earlier.0 * rate, divisor, total) <= place_of(later.0 * rate, divisor, total),
{
    assert(earlier.0 * rate <= later.0 * rate) by (nonlinear_arith)
        requires
            0 <= earlier.0 <= later.0,
            0 <= rate,
    ;
    vstd::arithmetic::div_mod::lemma_div_is_ordered(earlier.0 * rate, later.0 * rate, divisor);
}

/// A time falls no earlier than the start of a recording.
proof fn lemma_not_before(time: CueTime, rate: u32, divisor: int, total: int)
    requires
        divisor > 0,
        total >= 0,
    ensures
        0 <= place_of(time.0 * rate, divisor, total) <= total,
{
    assert(0 <= time.0 * rate) by (nonlinear_arith)
        requires
            0 <= time.0,
            0 <= rate,
    ;
    vstd::arithmetic::div_mod::lemma_div_pos_is_pos(time.0 * rate, divisor);
}

/// Two tracks of a sheet that meet play the file's own bytes on from one to the other: nothing
/// between them is left out and nothing is played twice.
pub proof fn dsd_tracks_that_meet_play_on(
    whole: DsdRecording,
    track: cue::Track,
    next: cue::Track,
    channel: int,
)
    requires
        whole.declared >= 0,
        0 <= channel < whole.audio.len(),
        track.end == Some(next.start),
        next.end matches Some(end) ==> next.start.0 <= end.0,
    ensures
        dsd_part(whole, track).audio[channel] + dsd_part(whole, next).audio[channel]
            == span::cut_plane(
            whole.audio[channel],
            dsd_start(whole, track),
            end_of(next.end, whole.format.rate.0, 600, whole.declared),
        ),
{
    let rate = whole.format.rate.0;
    let total = whole.declared;
    let last = end_of(next.end, rate, 600, total);
    lemma_not_before(next.start, rate, 600, total);
    match next.end {
        Some(end) => {
            lemma_not_before(end, rate, 600, total);
            lemma_later(next.start, end, rate, 600, total);
        },
        None => {},
    }
    let meeting = place_of(next.start.0 * rate, 600, total);
    lemma_not_before(track.start, rate, 600, meeting);
    assert(dsd_start(whole, next) == meeting);
    let plane = whole.audio[channel];
    assert(dsd_part(whole, track).audio[channel] + dsd_part(whole, next).audio[channel]
        =~= span::cut_plane(plane, dsd_start(whole, track), last));
}

/// Two tracks of a sheet that meet play the file's own frames on from one to the other: nothing
/// between them is left out and nothing is played twice.
pub proof fn pcm_tracks_that_meet_play_on(whole: PcmRecording, track: cue::Track, next: cue::Track)
    requires
        whole.declared >= 0,
        track.end == Some(next.start),
        next.end matches Some(end) ==> next.start.0 <= end.0,
    ensures
        pcm_part(whole, track).audio + pcm_part(whole, next).audio == reader::clipped(
            whole.audio,
            pcm_start(whole, track) * whole.format.channels,
            end_of(next.end, whole.format.rate, 75, whole.declared) * whole.format.channels,
        ),
{
    let rate = whole.format.rate;
    let total = whole.declared;
    let channels = whole.format.channels as int;
    let last = end_of(next.end, rate, 75, total);
    lemma_not_before(next.start, rate, 75, total);
    match next.end {
        Some(end) => {
            lemma_not_before(end, rate, 75, total);
            lemma_later(next.start, end, rate, 75, total);
        },
        None => {},
    }
    let meeting = place_of(next.start.0 * rate, 75, total);
    lemma_not_before(track.start, rate, 75, meeting);
    assert(pcm_start(whole, next) == meeting);
    let start = pcm_start(whole, track);
    assert(0 <= start * channels <= meeting * channels && meeting * channels <= last * channels)
        by (nonlinear_arith)
        requires
            0 <= start <= meeting <= last,
            0 <= channels,
    ;
    assert(pcm_part(whole, track).audio + pcm_part(whole, next).audio =~= reader::clipped(
        whole.audio,
        start * channels,
        last * channels,
    ));
}

/// The place a time falls at, `divisor` ticks of `rate` to each of what is counted.
fn place(time: CueTime, rate: u32, divisor: u64, total: u64) -> (at: u64)
    requires
        divisor == 600 || divisor == 75,
    ensures
        at == place_of(time.0 * rate, divisor as int, total as int),
{
    assert(0 <= time.0 * rate <= 0xffff_ffff_ffff_ffff * 0xffff_ffff) by (nonlinear_arith)
        requires
            0 <= time.0 <= 0xffff_ffff_ffff_ffff,
            0 <= rate <= 0xffff_ffff,
    ;
    let ticks: u128 = time.0 as u128 * rate as u128;
    let at: u128 = ticks / divisor as u128;
    if at < total as u128 {
        at as u64
    } else {
        total
    }
}

/// An open recording, whichever of the two things a file can hold.
///
/// Both come out as interleaved carrier samples: the 16-bit payloads of DoP frames for DSD,
/// which their markers join as they are rendered, and for PCM the container's own codes
/// left-justified in the 24-bit carrier word. One queue and one render callback then serve
/// both.
pub enum Source {
    Dsd {
        source: DsdTrack,
        /// Scratch the DSD lands in before it is packed into DoP frames.
        planes: Vec<Box<[u8]>>,
    },
    Pcm(PcmTrack),
}

impl Source {
    pub open spec fn wf(&self) -> bool {
        match self {
            Source::Dsd { source, planes } => {
                &&& reader::ready(
                    source.wf(),
                    source.recording(),
                    source.position(),
                    source.upcoming(),
                )
                &&& planes@.len() == source.recording().format.channels
                &&& reader::planes_hold(planes@, source.recording())
            },
            Source::Pcm(source) => reader::pcm_ready(
                source.wf(),
                source.recording(),
                source.position(),
                source.upcoming(),
            ),
        }
    }

    /// Whether no read gives more carrier frames than [`Source::most`]: one of DSD never does,
    /// and one of PCM does not where the file says truly how long its blocks are.
    pub open spec fn bounded(&self) -> bool {
        match self {
            Source::Dsd { .. } => true,
            Source::Pcm(source) => source.recording().bounded,
        }
    }

    /// The most carrier frames that one read gives.
    pub open spec fn most(&self) -> int {
        match self {
            Source::Dsd { source, .. } => dop::frames_for(source.recording().chunk),
            Source::Pcm(source) => source.recording().chunk,
        }
    }

    /// What the container says the recording is.
    pub open spec fn names(&self) -> Tags {
        match self {
            Source::Dsd { source, .. } => source.recording().tags,
            Source::Pcm(source) => source.recording().tags,
        }
    }

    /// Channels of the recording.
    pub open spec fn width(&self) -> int {
        match self {
            Source::Dsd { source, .. } => source.recording().format.channels as int,
            Source::Pcm(source) => source.recording().format.channels as int,
        }
    }

    /// The recording is numbered truly, so that a position means the same however it is
    /// reached.
    pub open spec fn exact(&self) -> bool {
        match self {
            Source::Dsd { source, .. } => source.recording().exact,
            Source::Pcm(source) => source.recording().exact,
        }
    }

    /// How much there is to come, in whatever the source counts.
    pub open spec fn left(&self) -> int {
        match self {
            Source::Dsd { source, .. } => source.upcoming()[0].len() as int,
            Source::Pcm(source) => source.upcoming().len() as int,
        }
    }

    /// Why reading fails behind what is to come, or none where the recording ends there.
    pub open spec fn ending(&self) -> Option<ReadError> {
        match self {
            Source::Dsd { source, .. } => source.ending(),
            Source::Pcm(source) => source.ending(),
        }
    }

    /// What a seek to carrier frame `frame` comes to: the frame it lands on, or why it fails.
    pub open spec fn sought(&self, frame: int) -> Result<u64, ReadError> {
        match self {
            Source::Dsd { source, .. } => match source.sought(
                reader::inside(frame * 2, u64::MAX as int),
            ) {
                Ok(landed) => Ok(landed / 2),
                Err(error) => Err(error),
            },
            Source::Pcm(source) => source.sought(frame),
        }
    }

    /// The same recording, read to wherever it is.
    pub open spec fn same_recording(&self, other: &Source) -> bool {
        match (self, other) {
            (Source::Dsd { source, .. }, Source::Dsd { source: before, .. }) => source.recording()
                == before.recording(),
            (Source::Pcm(source), Source::Pcm(before)) => source.recording() == before.recording(),
            _ => false,
        }
    }

    /// Play DSD, all of it, from where it stands.
    pub fn of_dsd(source: DsdTrack) -> (out: Self)
        requires
            reader::ready(
                source.wf(),
                source.recording(),
                source.position(),
                source.upcoming(),
            ),
        ensures
            out.wf(),
            out matches Source::Dsd { source: kept, .. } && kept == source,
    {
        let channels: usize = source.format().channels as usize;
        let bytes: usize = source.chunk_bytes();
        let mut planes: Vec<Box<[u8]>> = Vec::new();
        let mut c: usize = 0;
        while c < channels
            invariant
                c <= channels,
                planes@.len() == c,
                forall|k: int| 0 <= k < c ==> (#[trigger] planes@[k])@.len() == bytes,
            decreases channels - c,
        {
            let mut plane: Vec<u8> = Vec::new();
            plane.resize(bytes, 0);
            planes.push(boxed(plane));
            c += 1;
        }
        Source::Dsd { source, planes }
    }

    pub fn container(&self) -> (name: &'static str)
        ensures
            name@ == (match self {
                Source::Dsd { source, .. } => source.recording().kind,
                Source::Pcm(source) => source.recording().kind,
            }),
    {
        match self {
            Source::Dsd { source, .. } => source.container(),
            Source::Pcm(source) => source.container(),
        }
    }

    pub fn format(&self) -> (format: AudioFormat)
        ensures
            format == (match self {
                Source::Dsd { source, .. } => AudioFormat::Dsd(source.recording().format),
                Source::Pcm(source) => AudioFormat::Pcm(source.recording().format),
            }),
    {
        match self {
            Source::Dsd { source, .. } => AudioFormat::Dsd(source.format()),
            Source::Pcm(source) => AudioFormat::Pcm(source.format()),
        }
    }

    pub fn tags(&self) -> (tags: &TrackTags)
        requires
            self.wf(),
        ensures
            tags@ == self.names(),
    {
        match self {
            Source::Dsd { source, .. } => source.tags(),
            Source::Pcm(source) => source.tags(),
        }
    }

    /// Carrier frames the whole recording holds: one per two DSD bytes, or one per PCM frame.
    pub fn total_frames(&self) -> (total: u64)
        requires
            self.wf(),
        ensures
            total == (match self {
                Source::Dsd { source, .. } => source.recording().declared / 2,
                Source::Pcm(source) => source.recording().declared,
            }),
    {
        match self {
            Source::Dsd { source, .. } => source.total_bytes_per_channel() / DOP_BYTES_PER_FRAME,
            Source::Pcm(source) => source.total_frames(),
        }
    }

    /// Carrier frames one [`Source::read`] may return at most.
    pub fn chunk_frames(&self) -> (frames: usize)
        requires
            self.wf(),
        ensures
            frames == self.most(),
    {
        match self {
            Source::Dsd { source, .. } => {
                let bytes: usize = source.chunk_bytes();
                bytes / 2 + bytes % 2
            },
            Source::Pcm(source) => source.chunk_frames(),
        }
    }

    /// Append the next carrier frames to `out`. Returns frames appended, 0 at the end.
    pub fn read(&mut self, out: &mut Vec<i32>) -> (read: Result<usize, ReadError>)
        requires
            old(self).wf(),
        ensures
            old(self).exact() ==> read is Ok,
            final(self).wf(),
            final(self).same_recording(old(self)),
            match read {
                Ok(frames) => {
                    &&& gives(*old(self), *final(self), frames as int, old(out)@, final(out)@)
                    &&& old(self).bounded() ==> frames <= old(self).most()
                    &&& frames == 0 ==> old(self).ending() is None
                },
                Err(error) => {
                    &&& old(self).left() == 0
                    &&& old(self).ending() == Some(error)
                    &&& goes_on(*old(self), *final(self))
                    &&& final(out)@ == old(out)@
                },
            },
    {
        match self {
            Source::Dsd { source, planes } => {
                let ghost before = source.upcoming();
                let ghost channels = source.recording().format.channels as int;
                let count: usize = match source.read(planes.as_mut_slice()) {
                    Ok(count) => count,
                    Err(error) => {
                        return Err(error);
                    },
                };
                if count == 0 {
                    return Ok(0);
                }
                proof {
                    reader::lemma_rest(before, channels, 0, count as int);
                    assert(reader::rest(before, 0) =~= before) by {
                        assert forall|c: int| 0 <= c < channels implies #[trigger] reader::rest(
                            before,
                            0,
                        )[c] == before[c] by {
                            assert(before[c].skip(0) =~= before[c]);
                        }
                    }
                }
                Ok(pack(planes, count, Ghost(before), out))
            },
            Source::Pcm(source) => source.read(out),
        }
    }

    /// Move to `frame`, clamped to the recording, and report where it landed.
    pub fn seek(&mut self, frame: u64) -> (out: Result<u64, ReadError>)
        requires
            old(self).wf(),
        ensures
            out == old(self).sought(frame as int),
            old(self).exact() ==> out is Ok,
            final(self).wf(),
            final(self).same_recording(old(self)),
            aims(*old(self), *final(self), frame as int),
            out matches Ok(landed) ==> moves(*old(self), *final(self), frame as int, landed as int),
    {
        match self {
            Source::Dsd { source, .. } => {
                let bytes: u64 = if frame <= u64::MAX / DOP_BYTES_PER_FRAME {
                    frame * DOP_BYTES_PER_FRAME
                } else {
                    u64::MAX
                };
                match source.seek(bytes) {
                    Ok(landed) => Ok(landed / DOP_BYTES_PER_FRAME),
                    Err(error) => Err(error),
                }
            },
            Source::Pcm(source) => source.seek(frame),
        }
    }

    /// Hand the DSD source over to the native USB path, which carries the bytes itself
    /// rather than wrapping them in DoP frames.
    pub fn into_dsd(self) -> (source: Option<DsdTrack>)
        ensures
            source == (match self {
                Source::Dsd { source, .. } => Some(source),
                Source::Pcm(_) => None,
            }),
    {
        match self {
            Source::Dsd { source, .. } => Some(source),
            Source::Pcm(_) => None,
        }
    }
}

/// The end or the fault behind what was to come has been reported, and reading goes on behind
/// it.
pub open spec fn goes_on(before: Source, after: Source) -> bool {
    match (before, after) {
        (Source::Dsd { source: before, .. }, Source::Dsd { source: after, .. }) => reader::course(
            after.upcoming(),
            after.ending(),
            after.later(),
        ) == reader::onward(
            before.later(),
            reader::no_bytes(before.recording().format.channels as int),
        ),
        (Source::Pcm(before), Source::Pcm(after)) => reader::course(
            after.upcoming(),
            after.ending(),
            after.later(),
        ) == reader::onward(before.later(), Seq::<i32>::empty()),
        _ => false,
    }
}

/// A seek for `frame` leaves to come what the source says it does, whether it lands or fails.
pub open spec fn aims(before: Source, after: Source, frame: int) -> bool {
    match (before, after) {
        (Source::Dsd { source: before, .. }, Source::Dsd { source: after, .. }) => reader::course(
            after.upcoming(),
            after.ending(),
            after.later(),
        ) == before.aimed(reader::inside(frame * 2, u64::MAX as int)),
        (Source::Pcm(before), Source::Pcm(after)) => reader::course(
            after.upcoming(),
            after.ending(),
            after.later(),
        ) == before.aimed(frame),
        _ => false,
    }
}

/// A read of `frames` carrier frames takes a source from `before` to `after`, and a buffer from
/// `held` to `filled`: the next audio joins what was there, and only the end gives none.
pub open spec fn gives(
    before: Source,
    after: Source,
    frames: int,
    held: Seq<i32>,
    filled: Seq<i32>,
) -> bool {
    match (before, after) {
        (Source::Dsd { source: from, .. }, Source::Dsd { source: to, .. }) => {
            let count = from.upcoming()[0].len() - to.upcoming()[0].len();
            if from.upcoming()[0].len() == 0 {
                frames == 0 && filled == held && goes_on(before, after)
            } else {
                &&& 0 < count <= from.recording().chunk
                &&& frames == dop::frames_for(count)
                &&& filled == held + payloads(from.upcoming(), count)
                &&& to.upcoming() == reader::rest(from.upcoming(), count)
                &&& to.ending() == from.ending()
                &&& to.later() == from.later()
            }
        },
        (Source::Pcm(from), Source::Pcm(to)) => {
            if from.upcoming().len() == 0 {
                frames == 0 && filled == held && goes_on(before, after)
            } else {
                &&& frames > 0
                &&& filled + to.upcoming() == held + from.upcoming()
                &&& filled.len() == held.len() + frames * from.recording().format.channels
                &&& to.ending() == from.ending()
                &&& to.later() == from.later()
            }
        },
        _ => false,
    }
}

/// A seek for `frame` takes a source from `before` to `after` and reports `landed`: as near
/// before the frame, held inside the recording, as the container can be read from.
pub open spec fn moves(before: Source, after: Source, frame: int, landed: int) -> bool {
    match (before, after) {
        (Source::Dsd { source: before, .. }, Source::Dsd { source: after, .. }) => {
            let recording = before.recording();
            let goal = reader::inside(frame * 2, recording.declared);
            &&& landed == after.position() / 2
            &&& recording.exact ==> after.position() == goal / recording.step * recording.step
        },
        (Source::Pcm(before), Source::Pcm(after)) => {
            let recording = before.recording();
            &&& landed == after.position()
            &&& recording.exact ==> after.stands_for(
                reader::inside(frame, recording.declared),
            )
        },
        _ => false,
    }
}

/// Pack the first `count` bytes of every plane, which are the next of `audio`.
fn pack(
    planes: &Vec<Box<[u8]>>,
    count: usize,
    audio: Ghost<Seq<Seq<u8>>>,
    out: &mut Vec<i32>,
) -> (frames: usize)
    requires
        planes@.len() == audio@.len(),
        planes@.len() >= 1,
        forall|c: int| 0 <= c < planes@.len() ==> (#[trigger] planes@[c])@.len() >= count,
        forall|c: int| 0 <= c < audio@.len() ==> (#[trigger] audio@[c]).len() >= count,
        forall|c: int, i: int|
            0 <= c < planes@.len() && 0 <= i < count ==> #[trigger] planes@[c]@[i] == audio@[c][i],
    ensures
        frames == dop::frames_for(count as int),
        final(out)@ == old(out)@ + payloads(audio@, count as int),
{
    let mut slices: Vec<&[u8]> = Vec::new();
    let mut c: usize = 0;
    while c < planes.len()
        invariant
            c <= planes@.len(),
            slices@.len() == c,
            planes@.len() == audio@.len(),
            forall|k: int| 0 <= k < planes@.len() ==> (#[trigger] planes@[k])@.len() >= count,
            forall|k: int| 0 <= k < audio@.len() ==> (#[trigger] audio@[k]).len() >= count,
            forall|k: int, i: int|
                0 <= k < planes@.len() && 0 <= i < count ==> #[trigger] planes@[k]@[i]
                    == audio@[k][i],
            forall|k: int|
                0 <= k < c ==> (#[trigger] slices@[k])@ == audio@[k].subrange(0, count as int),
        decreases planes@.len() - c,
    {
        let slice: &[u8] = vstd::slice::slice_subrange(&*planes[c], 0, count);
        assert(slice@ =~= audio@[c as int].subrange(0, count as int));
        slices.push(slice);
        c += 1;
    }
    let mut packed: Vec<u16> = Vec::new();
    let frames: usize = dop::pack_planes(slices.as_slice(), &mut packed);
    let ghost before = out@;
    let ghost whole = payloads(audio@, count as int);
    let mut i: usize = 0;
    proof {
        assert(packed@ =~= dop::packed(slices@));
        assert forall|slot: int| 0 <= slot < packed@.len() implies packed@[slot] as i32
            == #[trigger] whole[slot] by {
            rows::lemma_slot_row(slot, dop::frames_for(count as int), slices@.len() as int);
        }
        assert(out@ =~= before + whole.subrange(0, 0));
    }
    while i < packed.len()
        invariant
            i <= packed@.len() == whole.len(),
            forall|slot: int|
                0 <= slot < packed@.len() ==> packed@[slot] as i32 == #[trigger] whole[slot],
            out@ == before + whole.subrange(0, i as int),
        decreases packed@.len() - i,
    {
        out.push(packed[i] as i32);
        assert(whole[i as int] == packed@[i as int] as i32);
        i += 1;
        assert(out@ =~= before + whole.subrange(0, i as int));
    }
    assert(whole.subrange(0, whole.len() as int) =~= whole);
    frames
}

/// Narrow a DSD container to one track of a cue sheet: the same audio, bounded to the times
/// the sheet gives and carrying the names it gives instead of the file's. A time past the end
/// of the recording is its end.
pub fn narrowed_dsd(source: Container, track: &CueTrack) -> (out: Result<DsdTrack, ReadError>)
    requires
        reader::ready(source.wf(), source.recording(), source.position(), source.upcoming()),
    ensures
        match source.sought(dsd_start(source.recording(), track@)) {
            Ok(_) => out is Ok,
            Err(error) => out == Err::<DsdTrack, ReadError>(error),
        },
        source.recording().exact ==> out is Ok,
        out matches Ok(part) ==> {
            &&& reader::ready(part.wf(), part.recording(), part.position(), part.upcoming())
            &&& part.recording() == dsd_part(source.recording(), track@)
            &&& source.recording().exact ==> part.position() == 0
            &&& reader::course(part.upcoming(), part.ending(), part.later()) == dsd_opening(
                source.recording(),
                track@,
                source.aimed(dsd_start(source.recording(), track@)),
                source.sought(dsd_start(source.recording(), track@))->Ok_0 as int,
            )
        },
{
    let rate: u32 = source.format().rate.hz();
    let total: u64 = source.total_bytes_per_channel();
    let end: u64 = match track.end {
        Some(time) => place(time, rate, 600, total),
        None => total,
    };
    let start: u64 = place(track.start, rate, 600, end);
    match SpanDsd::new(source, start, end, track.tags.copy()) {
        Ok(part) => Ok(DsdTrack::Part(part)),
        Err(error) => Err(error),
    }
}

/// Narrow a PCM file to one track of a cue sheet, as a DSD container is narrowed.
pub fn narrowed_pcm(source: FlacReader, track: &CueTrack) -> (out: Result<PcmTrack, ReadError>)
    requires
        reader::pcm_ready(source.wf(), source.recording(), source.position(), source.upcoming()),
    ensures
        match source.sought(pcm_start(source.recording(), track@)) {
            Ok(_) => out is Ok,
            Err(error) => out == Err::<PcmTrack, ReadError>(error),
        },
        source.recording().exact ==> out is Ok,
        out matches Ok(part) ==> {
            &&& source.recording().exact ==> part.position() == 0
            &&& reader::pcm_ready(part.wf(), part.recording(), part.position(), part.upcoming())
            &&& part.recording() == pcm_part(source.recording(), track@)
            &&& reader::course(part.upcoming(), part.ending(), part.later()) == pcm_opening(
                source.recording(),
                track@,
                source.aimed(pcm_start(source.recording(), track@)),
                source.sought(pcm_start(source.recording(), track@))->Ok_0 as int,
            )
        },
{
    let rate: u32 = source.format().rate;
    let total: u64 = source.total_frames();
    let end: u64 = match track.end {
        Some(time) => place(time, rate, 75, total),
        None => total,
    };
    let start: u64 = place(track.start, rate, 75, end);
    match SpanPcm::new(source, start, end, track.tags.copy()) {
        Ok(part) => Ok(PcmTrack::Part(part)),
        Err(error) => Err(error),
    }
}

/// A time of a sheet falls in the byte, or the frame, that plays at that time: 75 to a second, and
/// eight bits to a byte. One past the end falls at the end.
pub proof fn a_time_falls_where_it_plays(time: CueTime, rate: u32, total: int, place: int)
    requires
        0 <= place < total,
    ensures
        place_of(time.0 * rate, 600, total) == place <==> place * 8 * 75 <= time.0 * rate < (place
            + 1) * 8 * 75,
        place_of(time.0 * rate, 75, total) == place <==> place * 75 <= time.0 * rate < (place + 1)
            * 75,
        time.0 * rate >= total * 8 * 75 ==> place_of(time.0 * rate, 600, total) == total,
        time.0 * rate >= total * 75 ==> place_of(time.0 * rate, 75, total) == total,
{
}

/// Every byte of every channel goes into the payload of its frame, two to each, the earlier in the
/// high half.
pub proof fn payloads_hold_every_byte(
    planes: Seq<Seq<u8>>,
    count: int,
    channel: int,
    index: int,
)
    requires
        0 <= channel < planes.len(),
        0 <= index < count <= planes[channel].len(),
    ensures
        ({
            let words = payloads(planes, count);
            let word = words[index / 2 * planes.len() + channel];
            &&& 0 <= index / 2 * planes.len() + channel < words.len()
            &&& (if index % 2 == 0 {
                word as int / 256
            } else {
                word as int % 256
            }) == planes[channel][index]
        }),
{
    let channels = planes.len() as int;
    let frame = index / 2;
    crate::rows::lemma_slot(frame, channel, channels);
    crate::rows::lemma_row_fits(frame, dop::frames_for(count), channels);
    let plane = planes[channel].subrange(0, count);
    assert(plane[index] == planes[channel][index]);
}

/// A track of a sheet holds the bytes of its file from where it starts up to where it ends, or to
/// the end of the file where the sheet gives it no end; and goes by the names the sheet gives it.
pub proof fn a_track_holds_its_part_of_the_file(
    whole: DsdRecording,
    track: cue::Track,
    start: int,
    end: int,
    channel: int,
    index: int,
)
    requires
        0 <= channel < whole.audio.len(),
        0 <= start <= end <= whole.declared,
        whole.audio[channel].len() == whole.declared,
        track.start.0 * whole.format.rate.0 == start * 600,
        track.end matches Some(time) ==> time.0 * whole.format.rate.0 == end * 600,
        track.end is None ==> end == whole.declared,
        0 <= index < end - start,
    ensures
        ({
            let part = dsd_part(whole, track);
            &&& part.tags == track.tags
            &&& part.declared == end - start
            &&& part.audio[channel].len() == end - start
            &&& part.audio[channel][index] == whole.audio[channel][start + index]
        }),
{
    assert(start * 600 / 600 == start && end * 600 / 600 == end);
}

/// A track of a sheet over PCM holds the samples of its file from the frame where it starts up to
/// the one where it ends, or to the end of the file.
pub proof fn a_track_holds_its_frames_of_the_file(
    whole: PcmRecording,
    track: cue::Track,
    start: int,
    end: int,
    index: int,
)
    requires
        whole.format.channels > 0,
        0 <= start <= end <= whole.declared,
        whole.audio.len() == whole.declared * whole.format.channels,
        track.start.0 * whole.format.rate == start * 75,
        track.end matches Some(time) ==> time.0 * whole.format.rate == end * 75,
        track.end is None ==> end == whole.declared,
        0 <= index < (end - start) * whole.format.channels,
    ensures
        ({
            let part = pcm_part(whole, track);
            &&& part.tags == track.tags
            &&& part.declared == end - start
            &&& part.audio.len() == (end - start) * whole.format.channels
            &&& part.audio[index] == whole.audio[start * whole.format.channels + index]
        }),
{
    let channels = whole.format.channels as int;
    assert(start * 75 / 75 == start && end * 75 / 75 == end);
    let total = whole.declared;
    assert(end * channels <= total * channels && start * channels <= end * channels && (end - start)
        * channels == end * channels - start * channels) by (nonlinear_arith)
        requires
            start <= end <= total,
            channels >= 1,
    ;
    assert(0 <= start * channels) by (nonlinear_arith)
        requires
            0 <= start,
            channels >= 1,
    ;
    assert(start + (end - start) == end);
}

} // verus!
