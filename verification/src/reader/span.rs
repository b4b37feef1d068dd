//! One track of a file that holds a whole side, bounded by the times a cue sheet gives.
//!
//! The bounds wrap the source rather than the [`crate::reader::Source`] around it, so the
//! native DSD path, which takes the [`DsdSource`] out and carries the bytes itself, stays
//! inside the track too.

use crate::audio::PcmFormat;
use crate::dsd::DsdFormat;
use crate::reader;
use crate::reader::tags::TrackTags;
use crate::reader::{DsdRecording, DsdSource, PcmRecording, PcmSource, ReadError, Stretch};
use vstd::prelude::*;

verus! {

/// What a read of the wrapped source is worth once the bounds are applied.
#[derive(Debug, Clone, Copy, PartialEq, Eq, Structural)]
pub enum Take {
    /// Entirely before the start of the track, so nothing of it is played.
    Drop,
    Keep { skip: usize, kept: usize },
}

/// Where inside the wrapped source the track sits, in whatever unit that source counts in:
/// DSD bytes per channel, or PCM frames.
///
/// A container addressable only in whole blocks lands a seek short of the bound, so what the
/// block carries from before the track starts is read and dropped rather than played.
#[derive(Debug, Clone, Copy, PartialEq, Eq, Structural)]
pub struct Window {
    pub start: u64,
    pub length: u64,
    pub position: u64,
    pub skip: u64,
}

/// What `a` has over `b`, if anything.
pub open spec fn over(a: int, b: int) -> int {
    if a > b {
        a - b
    } else {
        0
    }
}

impl Window {
    /// What is left of the track.
    pub open spec fn left(self) -> int {
        over(self.length as int, self.position as int)
    }

    pub open spec fn wf(self) -> bool {
        self.start + self.length <= u64::MAX
    }

    pub fn new(start: u64, end: u64) -> (window: Self)
        ensures
            window.start == start,
            window.length == over(end as int, start as int),
            window.position == 0,
            window.skip == 0,
            window.wf(),
    {
        Window {
            start,
            length: if end > start {
                end - start
            } else {
                0
            },
            position: 0,
            skip: 0,
        }
    }

    pub fn remaining(&self) -> (left: u64)
        ensures
            left == self.left(),
    {
        if self.length > self.position {
            self.length - self.position
        } else {
            0
        }
    }

    /// Record a seek that asked for `offset` into the track and landed at `landed` in the
    /// file, and report where that leaves the track's own position.
    pub fn landed(&mut self, offset: u64, landed: u64) -> (position: u64)
        requires
            old(self).start + offset <= u64::MAX,
        ensures
            final(self).start == old(self).start,
            final(self).length == old(self).length,
            final(self).skip == over(old(self).start + offset, landed as int),
            final(self).position == position,
            position == (if landed > old(self).start + offset {
                landed - old(self).start
            } else {
                offset as int
            }),
            landed + final(self).skip == old(self).start + position,
    {
        let target: u64 = self.start + offset;
        self.skip = if target > landed {
            target - landed
        } else {
            0
        };
        self.position = if landed > target {
            landed - self.start
        } else {
            offset
        };
        self.position
    }

    /// How much of a read of `count` belongs to the track, dropping what the seek landed
    /// short by and stopping at the end of the track.
    pub fn take(&mut self, count: usize) -> (take: Take)
        ensures
            final(self).start == old(self).start,
            final(self).length == old(self).length,
            match take {
                Take::Drop => {
                    &&& old(self).skip >= count
                    &&& final(self).skip == old(self).skip - count
                    &&& final(self).position == old(self).position
                },
                Take::Keep { skip, kept } => {
                    &&& old(self).skip < count
                    &&& skip == old(self).skip
                    &&& final(self).skip == 0
                    &&& kept == (if count - skip < old(self).left() {
                        count - skip
                    } else {
                        old(self).left()
                    })
                    &&& final(self).position == old(self).position + kept
                },
            },
    {
        if self.skip >= count as u64 {
            self.skip = self.skip - count as u64;
            return Take::Drop;
        }
        let skip: usize = self.skip as usize;
        self.skip = 0;
        let left: u64 = self.remaining();
        let kept: usize = if (count - skip) as u64 <= left {
            count - skip
        } else {
            left as usize
        };
        self.position = self.position + kept as u64;
        Take::Keep { skip, kept }
    }
}

/// The bytes of every plane from `from` up to `to`, as far as they reach.
pub open spec fn cut(audio: Seq<Seq<u8>>, from: int, to: int) -> Seq<Seq<u8>> {
    Seq::new(audio.len(), |c: int| cut_plane(audio[c], from, to))
}

/// The bytes from `from` up to `to`, as far as they reach.
pub open spec fn cut_plane(plane: Seq<u8>, from: int, to: int) -> Seq<u8> {
    let end = if to < plane.len() {
        to
    } else {
        plane.len() as int
    };
    if from < end {
        plane.subrange(from, end)
    } else {
        Seq::empty()
    }
}

/// Cutting planes of one length leaves planes of one length.
proof fn lemma_cut_even(audio: Seq<Seq<u8>>, channels: int, from: int, to: int)
    requires
        1 <= channels,
        0 <= from,
        reader::even(audio, channels),
    ensures
        reader::even(cut(audio, from, to), channels),
        cut(audio, from, to)[0].len() == cut_plane(audio[0], from, to).len(),
{
    assert forall|c: int| 0 <= c < channels implies (#[trigger] cut(audio, from, to)[c]).len()
        == cut(audio, from, to)[0].len() by {
        assert(audio[c].len() == audio[0].len());
    }
}

/// A cut of what is left from a place on, seen from the start of the audio.
proof fn lemma_cut_rest(
    audio: Seq<Seq<u8>>,
    channels: int,
    at: int,
    skip: int,
    left: int,
    start: int,
    position: int,
    length: int,
)
    requires
        1 <= channels,
        reader::even(audio, channels),
        0 <= at,
        0 <= skip,
        0 <= start,
        0 <= position,
        0 <= length,
        left == over(length, position),
        left > 0 ==> at + skip == start + position,
    ensures
        cut(reader::rest(audio, at), skip, skip + left) == reader::rest(
            cut(audio, start, start + length),
            position,
        ),
{
    let a = cut(reader::rest(audio, at), skip, skip + left);
    let b = reader::rest(cut(audio, start, start + length), position);
    assert forall|c: int| 0 <= c < channels implies #[trigger] a[c] == b[c] by {
        assert(audio[c].len() == audio[0].len());
        assert(a[c] =~= b[c]);
    }
    assert(a =~= b);
}

/// A read of a source seen through the bounds of a track.
proof fn lemma_cut_read(
    before: Seq<Seq<u8>>,
    after: Seq<Seq<u8>>,
    channels: int,
    count: int,
    skip: int,
    left: int,
)
    requires
        1 <= channels,
        reader::even(before, channels),
        0 < count <= before[0].len(),
        after == reader::rest(before, count),
        0 <= skip,
        0 < left,
    ensures
        skip >= count ==> cut(before, skip, skip + left) == cut(
            after,
            skip - count,
            skip - count + left,
        ),
        skip < count ==> ({
            let kept = if count - skip < left {
                count - skip
            } else {
                left
            };
            let seen = cut(before, skip, skip + left);
            &&& 0 < kept <= seen[0].len()
            &&& cut(after, 0, left - kept) == reader::rest(seen, kept)
            &&& forall|c: int, i: int|
                0 <= c < channels && 0 <= i < kept ==> #[trigger] seen[c][i] == before[c][skip + i]
        }),
{
    assert forall|c: int| 0 <= c < channels implies (#[trigger] before[c]).len()
        == before[0].len() && after[c] == before[c].skip(count) by {}
    if skip >= count {
        let a = cut(before, skip, skip + left);
        let b = cut(after, skip - count, skip - count + left);
        assert forall|c: int| 0 <= c < channels implies #[trigger] a[c] == b[c] by {
            assert(before[c].len() == before[0].len());
            assert(after[c] == before[c].skip(count));
            assert(a[c] =~= b[c]);
        }
        assert(a =~= b);
    } else {
        let kept = if count - skip < left {
            count - skip
        } else {
            left
        };
        let seen = cut(before, skip, skip + left);
        let a = cut(after, 0, left - kept);
        let b = reader::rest(seen, kept);
        assert forall|c: int| 0 <= c < channels implies #[trigger] a[c] == b[c] by {
            assert(before[c].len() == before[0].len());
            assert(after[c] == before[c].skip(count));
            assert(a[c] =~= b[c]);
        }
        assert(a =~= b);
    }
}

/// Why reading a track of `length` that starts at `start` fails before it ends, where reading
/// the whole fails behind `whole`: only where the track reaches further than that.
pub open spec fn part_ending(
    whole: int,
    start: int,
    length: int,
    ending: Option<ReadError>,
) -> Option<ReadError> {
    if length <= 0 || start + length <= whole {
        None
    } else {
        ending
    }
}

/// What reading a track gives behind its first end or fault, stretch by stretch: `skip` is still
/// to be dropped and `left` to be played, where the source gives `whole` and then `later`. An
/// end or a fault of the source is none of the track's once the track is over.
pub open spec fn part_later(
    whole: int,
    skip: int,
    left: int,
    later: Seq<Stretch<Seq<Seq<u8>>>>,
) -> Seq<Stretch<Seq<Seq<u8>>>>
    decreases later.len(),
{
    if left <= 0 || skip + left <= whole || later.len() == 0 {
        Seq::empty()
    } else {
        let next = later[0];
        let held = next.audio[0].len() as int;
        let dropped = over(skip, whole);
        let wanted = left - over(whole, skip);
        seq![
            Stretch {
                audio: cut(next.audio, dropped, dropped + wanted),
                fault: part_ending(held, dropped, wanted, next.fault),
            },
        ] + part_later(held, dropped, wanted, later.skip(1))
    }
}

/// What is to come of a track where `whole` is to come of its source, `skip` of that is still to
/// be dropped and `left` is left of the track.
pub open spec fn part_course(
    whole: Seq<Stretch<Seq<Seq<u8>>>>,
    skip: int,
    left: int,
) -> Seq<Stretch<Seq<Seq<u8>>>> {
    let now = whole[0];
    let held = now.audio[0].len() as int;
    reader::course(
        cut(now.audio, skip, skip + left),
        part_ending(held, skip, left, now.fault),
        part_later(held, skip, left, whole.skip(1)),
    )
}

/// The same of a track of PCM, counted in frames of `channels` samples.
pub open spec fn pcm_part_later(
    whole: int,
    channels: int,
    skip: int,
    left: int,
    later: Seq<Stretch<Seq<i32>>>,
) -> Seq<Stretch<Seq<i32>>>
    decreases later.len(),
{
    if left <= 0 || skip + left <= whole || later.len() == 0 {
        Seq::empty()
    } else {
        let next = later[0];
        let held = next.audio.len() as int / channels;
        let dropped = over(skip, whole);
        let wanted = left - over(whole, skip);
        seq![
            Stretch {
                audio: reader::clipped(
                    next.audio,
                    dropped * channels,
                    (dropped + wanted) * channels,
                ),
                fault: part_ending(held, dropped, wanted, next.fault),
            },
        ] + pcm_part_later(held, channels, dropped, wanted, later.skip(1))
    }
}

/// The same of a track of PCM, counted in frames of `channels` samples.
pub open spec fn pcm_part_course(
    whole: Seq<Stretch<Seq<i32>>>,
    channels: int,
    skip: int,
    left: int,
) -> Seq<Stretch<Seq<i32>>> {
    let now = whole[0];
    let held = now.audio.len() as int / channels;
    reader::course(
        reader::clipped(now.audio, skip * channels, (skip + left) * channels),
        part_ending(held, skip, left, now.fault),
        pcm_part_later(held, channels, skip, left, whole.skip(1)),
    )
}

/// The stretches of a course, one by one.
proof fn lemma_course<A>(upcoming: A, ending: Option<ReadError>, later: Seq<Stretch<A>>)
    ensures
        ({
            let course = reader::course(upcoming, ending, later);
            &&& course.len() == later.len() + 1
            &&& course[0] == Stretch { audio: upcoming, fault: ending }
            &&& course.skip(1) == later
        }),
{
    assert(reader::course(upcoming, ending, later).skip(1) =~= later);
}

/// A source that goes on behind an end or a fault takes the track with it.
proof fn lemma_part_onward(
    later: Seq<Stretch<Seq<Seq<u8>>>>,
    whole: Seq<Stretch<Seq<Seq<u8>>>>,
    channels: int,
    skip: int,
    left: int,
)
    requires
        1 <= channels,
        0 <= skip,
        0 < left,
        whole == reader::onward(later, reader::no_bytes(channels)),
    ensures
        part_course(whole, skip, left) == reader::onward(
            part_later(0, skip, left, later),
            reader::no_bytes(channels),
        ),
{
    let nothing = reader::no_bytes(channels);
    if later.len() == 0 {
        assert forall|c: int| 0 <= c < channels implies #[trigger] cut(
            nothing,
            skip,
            skip + left,
        )[c] == nothing[c] by {
            assert(cut_plane(nothing[c], skip, skip + left) =~= nothing[c]);
        }
        assert(cut(nothing, skip, skip + left) =~= nothing);
        assert(whole.skip(1).len() == 0);
    }
}

/// A source that goes on behind an end or a fault takes the track with it.
proof fn lemma_pcm_part_onward(
    later: Seq<Stretch<Seq<i32>>>,
    whole: Seq<Stretch<Seq<i32>>>,
    channels: int,
    skip: int,
    left: int,
)
    requires
        1 <= channels,
        0 <= skip,
        0 < left,
        whole == reader::onward(later, Seq::<i32>::empty()),
    ensures
        pcm_part_course(whole, channels, skip, left) == reader::onward(
            pcm_part_later(0, channels, skip, left, later),
            Seq::<i32>::empty(),
        ),
{
    if later.len() == 0 {
        assert(0 <= skip * channels) by (nonlinear_arith)
            requires
                0 <= skip,
                1 <= channels,
        ;
        assert(whole.skip(1).len() == 0);
    }
}

/// Where a seek to `place` in a track of `length` that starts at `start` leaves the track,
/// where the wrapped source answers such a seek with `landed`.
pub open spec fn part_sought(
    start: int,
    length: int,
    place: int,
    landed: Result<u64, ReadError>,
) -> Result<u64, ReadError> {
    let offset = reader::inside(place, length);
    match landed {
        Ok(landed) => Ok(
            (if landed > start + offset {
                landed - start
            } else {
                offset
            }) as u64,
        ),
        Err(error) => Err(error),
    }
}

/// Where a track stands once its source has been sent to the start of it and landed at `landed`.
pub open spec fn first_place(start: int, landed: int) -> int {
    over(landed, start)
}

/// One cue-sheet track of a DSD file.
pub struct SpanDsd<S: DsdSource> {
    inner: S,
    window: Window,
    tags: TrackTags,
}

impl<S: DsdSource> SpanDsd<S> {
    /// The source it bounds.
    pub closed spec fn inner(&self) -> S {
        self.inner
    }

    /// Where the track sits inside that source, and how far it has been read.
    pub closed spec fn bounds(&self) -> Window {
        self.window
    }

    /// Bound a source to the bytes from `start` up to `end`, under the names `tags` gives.
    pub fn new(inner: S, start: u64, end: u64, tags: TrackTags) -> (out: Result<Self, ReadError>)
        requires
            reader::ready(inner.wf(), inner.recording(), inner.position(), inner.upcoming()),
        ensures
            match inner.sought(start as int) {
                Ok(_) => out is Ok,
                Err(error) => out == Err::<Self, ReadError>(error),
            },
            inner.recording().exact ==> out is Ok,
            out matches Ok(span) ==> {
                let landed = inner.sought(start as int)->Ok_0 as int;
                let length = over(end as int, start as int);
                let skip = over(start as int, landed);
                let left = over(length, first_place(start as int, landed));
                &&& reader::ready(span.wf(), span.recording(), span.position(), span.upcoming())
                &&& inner.recording().exact ==> span.position() == 0
                &&& span.position() == first_place(start as int, landed)
                &&& span.bounds() == (Window {
                    start,
                    length: length as u64,
                    position: first_place(start as int, landed) as u64,
                    skip: skip as u64,
                })
                &&& span.inner().recording() == inner.recording()
                &&& reader::course(
                    span.inner().upcoming(),
                    span.inner().ending(),
                    span.inner().later(),
                ) == inner.aimed(start as int)
                &&& reader::course(span.upcoming(), span.ending(), span.later()) == part_course(
                    inner.aimed(start as int),
                    skip,
                    left,
                )
                &&& span.recording() == (DsdRecording {
                    declared: over(end as int, start as int),
                    tags: tags@,
                    audio: cut(
                        inner.recording().audio,
                        start as int,
                        start + over(end as int, start as int),
                    ),
                    ending: part_ending(
                        inner.recording().audio[0].len() as int,
                        start as int,
                        over(end as int, start as int),
                        inner.recording().ending,
                    ),
                    later: part_later(
                        inner.recording().audio[0].len() as int,
                        start as int,
                        over(end as int, start as int),
                        inner.recording().later,
                    ),
                    step: 1,
                    ..inner.recording()
                })
            },
    {
        let window: Window = Window::new(start, end);
        let mut span: SpanDsd<S> = SpanDsd { inner, window, tags };
        match span.aim(0) {
            Ok(_) => Ok(span),
            Err(error) => Err(error),
        }
    }

    /// Move to `offset` inside the track.
    fn aim(&mut self, offset: u64) -> (out: Result<u64, ReadError>)
        requires
            reader::ready(
                old(self).inner.wf(),
                old(self).inner.recording(),
                old(self).inner.position(),
                old(self).inner.upcoming(),
            ),
            old(self).window.wf(),
            offset <= old(self).window.length,
        ensures
            out == part_sought(
                old(self).window.start as int,
                old(self).window.length as int,
                offset as int,
                old(self).inner.sought(old(self).window.start + offset),
            ),
            old(self).inner.recording().exact ==> out is Ok,
            reader::ready(
                final(self).wf(),
                final(self).recording(),
                final(self).position(),
                final(self).upcoming(),
            ),
            final(self).recording() == old(self).recording(),
            reader::course(final(self).upcoming(), final(self).ending(), final(self).later())
                == old(self).aimed(offset as int),
            final(self).inner.recording() == old(self).inner.recording(),
            reader::course(
                final(self).inner.upcoming(),
                final(self).inner.ending(),
                final(self).inner.later(),
            ) == old(self).inner.aimed(old(self).window.start + offset),
            match out {
                Ok(landed) => {
                    &&& final(self).position() == landed
                    &&& old(self).inner.recording().exact ==> landed == offset
                    &&& final(self).window == (Window {
                        position: landed,
                        skip: over(
                            old(self).window.start + offset,
                            old(self).inner.sought(old(self).window.start + offset)->Ok_0 as int,
                        ) as u64,
                        ..old(self).window
                    })
                },
                Err(_) => final(self).window == old(self).window,
            },
    {
        let landed: Result<u64, ReadError> = self.inner.seek(self.window.start + offset);
        proof {
            lemma_course(self.inner.upcoming(), self.inner.ending(), self.inner.later());
        }
        match landed {
            Ok(landed) => {
                let position: u64 = self.window.landed(offset, landed);
                proof {
                    self.lemma_ready();
                }
                Ok(position)
            },
            Err(error) => {
                proof {
                    self.lemma_ready();
                }
                Err(error)
            },
        }
    }

    /// The bounds of a track that is in line with its source are in line with the audio.
    proof fn lemma_ready(&self)
        requires
            self.wf(),
        ensures
            reader::ready(self.wf(), self.recording(), self.position(), self.upcoming()),
    {
        let whole = self.inner.recording();
        let channels = whole.format.channels as int;
        let start = self.window.start as int;
        let length = self.window.length as int;
        let skip = self.window.skip as int;
        lemma_cut_even(whole.audio, channels, start, start + length);
        lemma_cut_even(self.inner.upcoming(), channels, skip, skip + self.window.left());
        if whole.exact {
            lemma_cut_rest(
                whole.audio,
                channels,
                self.inner.position(),
                skip,
                self.window.left(),
                start,
                self.window.position as int,
                length,
            );
        }
    }
}

impl<S: DsdSource> DsdSource for SpanDsd<S> {
    closed spec fn wf(&self) -> bool {
        &&& reader::ready(
            self.inner.wf(),
            self.inner.recording(),
            self.inner.position(),
            self.inner.upcoming(),
        )
        &&& self.window.wf()
        &&& self.window.left() > 0 && self.inner.recording().exact ==> self.inner.position()
            + self.window.skip == self.window.start + self.window.position
    }

    closed spec fn recording(&self) -> DsdRecording {
        DsdRecording {
            declared: self.window.length as int,
            tags: self.tags@,
            audio: cut(
                self.inner.recording().audio,
                self.window.start as int,
                self.window.start + self.window.length,
            ),
            ending: part_ending(
                self.inner.recording().audio[0].len() as int,
                self.window.start as int,
                self.window.length as int,
                self.inner.recording().ending,
            ),
            later: part_later(
                self.inner.recording().audio[0].len() as int,
                self.window.start as int,
                self.window.length as int,
                self.inner.recording().later,
            ),
            step: 1,
            ..self.inner.recording()
        }
    }

    closed spec fn position(&self) -> int {
        self.bounds().position as int
    }

    closed spec fn upcoming(&self) -> Seq<Seq<u8>> {
        cut(
            self.inner().upcoming(),
            self.bounds().skip as int,
            self.bounds().skip + self.bounds().left(),
        )
    }

    closed spec fn ending(&self) -> Option<ReadError> {
        part_ending(
            self.inner().upcoming()[0].len() as int,
            self.bounds().skip as int,
            self.bounds().left(),
            self.inner().ending(),
        )
    }

    closed spec fn later(&self) -> Seq<Stretch<Seq<Seq<u8>>>> {
        part_later(
            self.inner().upcoming()[0].len() as int,
            self.bounds().skip as int,
            self.bounds().left(),
            self.inner().later(),
        )
    }

    /// A seek that fails leaves the track's own place as it was.
    open spec fn aimed(&self, place: int) -> Seq<Stretch<Seq<Seq<u8>>>> {
        let start = self.bounds().start as int;
        let length = self.bounds().length as int;
        let goal = start + reader::inside(place, length);
        let whole = self.inner().aimed(goal);
        match self.inner().sought(goal) {
            Ok(landed) => part_course(
                whole,
                over(goal, landed as int),
                over(length, self.sought(place)->Ok_0 as int),
            ),
            Err(_) => part_course(whole, self.bounds().skip as int, self.bounds().left()),
        }
    }

    open spec fn sought(&self, place: int) -> Result<u64, ReadError> {
        let start = self.bounds().start as int;
        let length = self.bounds().length as int;
        part_sought(
            start,
            length,
            place,
            self.inner().sought(start + reader::inside(place, length)),
        )
    }

    fn container(&self) -> (name: &'static str) {
        self.inner.container()
    }

    fn format(&self) -> (format: DsdFormat) {
        self.inner.format()
    }

    fn total_bytes_per_channel(&self) -> (total: u64) {
        self.window.length
    }

    fn tags(&self) -> (tags: &TrackTags) {
        &self.tags
    }

    fn chunk_bytes(&self) -> (bytes: usize) {
        self.inner.chunk_bytes()
    }

    fn read(&mut self, planes: &mut [Box<[u8]>]) -> (out: Result<usize, ReadError>)
        ensures
            final(self).bounds().start == old(self).bounds().start,
            final(self).bounds().length == old(self).bounds().length,
            final(self).inner().recording() == old(self).inner().recording(),
    {
        if self.window.remaining() == 0 {
            proof {
                let wide = self.inner.recording().format.channels as int;
                let skip = self.window.skip as int;
                assert forall|c: int| 0 <= c < wide implies #[trigger] self.upcoming()[c]
                    == Seq::<u8>::empty() by {
                    assert(cut_plane(self.inner.upcoming()[c], skip, skip) =~= Seq::empty());
                }
                assert(self.upcoming() =~= reader::no_bytes(wide));
            }
            return Ok(0);
        }
        let ghost whole = self.inner.recording();
        let ghost own = self.recording();
        let ghost to_come = self.upcoming();
        let ghost from = self.position();
        let channels: usize = self.inner.format().channels as usize;
        loop
            invariant
                self.wf(),
                self.inner.recording() == whole,
                self.recording() == own,
                self.upcoming() == to_come,
                self.ending() == old(self).ending(),
                self.later() == old(self).later(),
                self.window.position == from,
                self.window.left() > 0,
                self.window.start == old(self).window.start,
                self.window.length == old(self).window.length,
                whole == old(self).inner.recording(),
                reader::planes_hold(planes@, whole),
                reader::same_lengths(old(planes)@, planes@),
                1 <= channels == whole.format.channels,
                own == old(self).recording(),
                to_come == old(self).upcoming(),
                from == old(self).position(),
            decreases self.inner.upcoming()[0].len(),
        {
            let ghost before = self.inner.upcoming();
            let ghost window = self.window;
            let ghost later = self.inner.later();
            let read: Result<usize, ReadError> = self.inner.read(planes);
            proof {
                if before[0].len() == 0 {
                    assert(to_come[0].len() == 0);
                    self.lemma_ready();
                    lemma_course(self.inner.upcoming(), self.inner.ending(), self.inner.later());
                    lemma_part_onward(
                        later,
                        reader::course(
                            self.inner.upcoming(),
                            self.inner.ending(),
                            self.inner.later(),
                        ),
                        channels as int,
                        window.skip as int,
                        window.left(),
                    );
                }
            }
            let count: usize = match read {
                Ok(count) => count,
                Err(error) => {
                    return Err(error);
                },
            };
            if count == 0 {
                return Ok(0);
            }
            let ghost after = self.inner.upcoming();
            proof {
                lemma_cut_read(
                    before,
                    after,
                    channels as int,
                    count as int,
                    window.skip as int,
                    window.left(),
                );
            }
            match self.window.take(count) {
                Take::Drop => {},
                Take::Keep { skip, kept } => {
                    if skip > 0 {
                        shift_heads(planes, channels, skip, kept);
                    }
                    proof {
                        assert forall|c: int, i: int|
                            0 <= c < to_come.len() && 0 <= i < kept implies #[trigger] planes@[c]@[i]
                            == to_come[c][i] by {
                            assert(to_come[c][i] == before[c][skip + i]);
                        }
                        self.lemma_ready();
                    }
                    return Ok(kept);
                },
            }
        }
    }

    fn seek(&mut self, bytes_per_channel: u64) -> (out: Result<u64, ReadError>)
        ensures
            final(self).bounds().start == old(self).bounds().start,
            final(self).bounds().length == old(self).bounds().length,
            final(self).inner().recording() == old(self).inner().recording(),
            reader::course(
                final(self).inner().upcoming(),
                final(self).inner().ending(),
                final(self).inner().later(),
            ) == old(self).inner().aimed(
                old(self).bounds().start + reader::inside(
                    bytes_per_channel as int,
                    old(self).bounds().length as int,
                ),
            ),
    {
        let offset: u64 = if bytes_per_channel < self.window.length {
            bytes_per_channel
        } else {
            self.window.length
        };
        self.aim(offset)
    }
}

/// Move `kept` bytes from `skip` on to the head of each of the first `width` planes.
fn shift_heads(planes: &mut [Box<[u8]>], width: usize, skip: usize, kept: usize)
    requires
        width <= old(planes)@.len(),
        skip + kept <= usize::MAX,
        forall|c: int| 0 <= c < width ==> (#[trigger] old(planes)@[c])@.len() >= skip + kept,
    ensures
        reader::same_lengths(old(planes)@, final(planes)@),
        forall|c: int, i: int|
            0 <= c < width && 0 <= i < kept ==> #[trigger] final(planes)@[c]@[i] == old(planes)@[c]@[skip + i],
{
    let ghost before = planes@;
    let mut c: usize = 0;
    while c < width
        invariant
            c <= width <= planes@.len(),
            skip + kept <= usize::MAX,
            reader::same_lengths(before, planes@),
            forall|k: int| 0 <= k < width ==> (#[trigger] before[k])@.len() >= skip + kept,
            forall|k: int| c <= k < width ==> (#[trigger] planes@[k])@ == before[k]@,
            forall|k: int, i: int|
                0 <= k < c && 0 <= i < kept ==> #[trigger] planes@[k]@[i] == before[k]@[skip + i],
        decreases width - c,
    {
        let ghost own = before[c as int]@;
        let mut i: usize = 0;
        while i < kept
            invariant
                i <= kept,
                c < width <= planes@.len(),
                skip + kept <= usize::MAX,
                own == before[c as int]@,
                reader::same_lengths(before, planes@),
                own.len() >= skip + kept,
                forall|k: int| c < k < width ==> (#[trigger] planes@[k])@ == before[k]@,
                forall|k: int, j: int|
                    0 <= k < c && 0 <= j < kept ==> #[trigger] planes@[k]@[j] == before[k]@[skip
                        + j],
                forall|j: int| 0 <= j < i ==> #[trigger] planes@[c as int]@[j] == own[skip + j],
                forall|j: int|
                    i <= j < own.len() ==> #[trigger] planes@[c as int]@[j] == own[j],
            decreases kept - i,
        {
            let byte: u8 = planes[c][skip + i];
            planes[c][i] = byte;
            i += 1;
        }
        c += 1;
    }
}

/// One cue-sheet track of a PCM file.
pub struct SpanPcm<S: PcmSource> {
    inner: S,
    window: Window,
    tags: TrackTags,
}

impl<S: PcmSource> SpanPcm<S> {
    /// The source it bounds.
    pub closed spec fn inner(&self) -> S {
        self.inner
    }

    /// Where the track sits inside that source, and how far it has been read.
    pub closed spec fn bounds(&self) -> Window {
        self.window
    }

    /// Bound a source to the frames from `start` up to `end`, under the names `tags` gives.
    pub fn new(inner: S, start: u64, end: u64, tags: TrackTags) -> (out: Result<Self, ReadError>)
        requires
            reader::pcm_ready(
                inner.wf(),
                inner.recording(),
                inner.position(),
                inner.upcoming(),
            ),
        ensures
            match inner.sought(start as int) {
                Ok(_) => out is Ok,
                Err(error) => out == Err::<Self, ReadError>(error),
            },
            inner.recording().exact ==> out is Ok,
            out matches Ok(span) ==> {
                let landed = inner.sought(start as int)->Ok_0 as int;
                let length = over(end as int, start as int);
                let channels = inner.recording().format.channels as int;
                let skip = over(start as int, landed);
                let left = over(length, first_place(start as int, landed));
                &&& inner.recording().exact ==> span.position() == 0
                &&& span.position() == first_place(start as int, landed)
                &&& span.bounds() == (Window {
                    start,
                    length: length as u64,
                    position: first_place(start as int, landed) as u64,
                    skip: skip as u64,
                })
                &&& span.inner().recording() == inner.recording()
                &&& reader::course(
                    span.inner().upcoming(),
                    span.inner().ending(),
                    span.inner().later(),
                ) == inner.aimed(start as int)
                &&& reader::course(span.upcoming(), span.ending(), span.later())
                    == pcm_part_course(inner.aimed(start as int), channels, skip, left)
                &&& reader::pcm_ready(
                    span.wf(),
                    span.recording(),
                    span.position(),
                    span.upcoming(),
                )
                &&& span.recording() == (PcmRecording {
                    declared: over(end as int, start as int),
                    tags: tags@,
                    audio: pcm_part(inner.recording(), start as int, over(end as int, start as int)),
                    ending: part_ending(
                        frames_in(inner.recording()),
                        start as int,
                        over(end as int, start as int),
                        inner.recording().ending,
                    ),
                    later: pcm_part_later(
                        frames_in(inner.recording()),
                        channels,
                        start as int,
                        over(end as int, start as int),
                        inner.recording().later,
                    ),
                    ..inner.recording()
                })
            },
    {
        let window: Window = Window::new(start, end);
        let mut span: SpanPcm<S> = SpanPcm { inner, window, tags };
        match span.aim(0) {
            Ok(_) => Ok(span),
            Err(error) => Err(error),
        }
    }

    /// Move to `offset` inside the track.
    fn aim(&mut self, offset: u64) -> (out: Result<u64, ReadError>)
        requires
            reader::pcm_ready(
                old(self).inner.wf(),
                old(self).inner.recording(),
                old(self).inner.position(),
                old(self).inner.upcoming(),
            ),
            old(self).window.wf(),
            offset <= old(self).window.length,
        ensures
            out == part_sought(
                old(self).window.start as int,
                old(self).window.length as int,
                offset as int,
                old(self).inner.sought(old(self).window.start + offset),
            ),
            old(self).inner.recording().exact ==> out is Ok,
            reader::pcm_ready(
                final(self).wf(),
                final(self).recording(),
                final(self).position(),
                final(self).upcoming(),
            ),
            final(self).recording() == old(self).recording(),
            reader::course(final(self).upcoming(), final(self).ending(), final(self).later())
                == old(self).aimed(offset as int),
            final(self).inner.recording() == old(self).inner.recording(),
            reader::course(
                final(self).inner.upcoming(),
                final(self).inner.ending(),
                final(self).inner.later(),
            ) == old(self).inner.aimed(old(self).window.start + offset),
            match out {
                Ok(landed) => {
                    &&& final(self).position() == landed
                    &&& old(self).inner.recording().exact ==> landed == offset
                    &&& final(self).window == (Window {
                        position: landed,
                        skip: over(
                            old(self).window.start + offset,
                            old(self).inner.sought(old(self).window.start + offset)->Ok_0 as int,
                        ) as u64,
                        ..old(self).window
                    })
                },
                Err(_) => final(self).window == old(self).window,
            },
    {
        let landed: Result<u64, ReadError> = self.inner.seek(self.window.start + offset);
        proof {
            lemma_course(self.inner.upcoming(), self.inner.ending(), self.inner.later());
        }
        match landed {
            Ok(landed) => {
                let position: u64 = self.window.landed(offset, landed);
                proof {
                    self.lemma_upcoming();
                }
                Ok(position)
            },
            Err(error) => {
                proof {
                    self.lemma_upcoming();
                }
                Err(error)
            },
        }
    }

    /// The bounds of a track that is in line with its source are in line with the audio.
    proof fn lemma_upcoming(&self)
        requires
            reader::pcm_ready(
                self.inner.wf(),
                self.inner.recording(),
                self.inner.position(),
                self.inner.upcoming(),
            ),
            self.window.wf(),
            self.window.left() > 0 && self.inner.recording().exact ==> self.inner.position()
                + self.window.skip == self.window.start + self.window.position,
        ensures
            self.upcoming().len() as int % self.recording().format.channels as int == 0,
            self.recording().exact ==> self.upcoming() == reader::clipped(
                self.recording().audio,
                self.position() * self.recording().format.channels,
                self.recording().audio.len() as int,
            ),
    {
        let channels = self.inner.recording().format.channels as int;
        let whole = self.inner.recording().audio;
        let to_come = self.inner.upcoming();
        let skip = self.window.skip as int;
        let left = self.window.left();
        let start = self.window.start as int;
        let length = self.window.length as int;
        let position = self.window.position as int;
        let at = self.inner.position();
        lemma_whole_frames(to_come, channels, skip, skip + left);
        if self.recording().exact {
            assert(0 <= at * channels && 0 <= skip * channels && 0 <= left * channels && 0 <= start
                * channels && 0 <= position * channels && 0 <= length * channels) by (nonlinear_arith)
                requires
                    0 <= at,
                    0 <= skip,
                    0 <= left,
                    0 <= start,
                    0 <= position,
                    0 <= length,
                    0 <= channels,
            ;
            assert((skip + left) * channels == skip * channels + left * channels && (start + length)
                * channels == start * channels + length * channels) by (nonlinear_arith);
            if left > 0 {
                assert(at * channels + skip * channels == start * channels + position * channels
                    && left * channels + position * channels == length * channels)
                    by (nonlinear_arith)
                    requires
                        at + skip == start + position,
                        left + position == length,
                ;
            } else {
                assert(position * channels >= length * channels) by (nonlinear_arith)
                    requires
                        position >= length,
                        0 <= channels,
                ;
            }
            assert(self.upcoming() =~= reader::clipped(
                self.recording().audio,
                position * channels,
                self.recording().audio.len() as int,
            ));
        }
    }
}

/// Frames that a PCM recording holds.
pub open spec fn frames_in(whole: PcmRecording) -> int {
    whole.audio.len() as int / whole.format.channels as int
}

/// The part of a PCM recording between two bounds.
pub open spec fn pcm_part(whole: PcmRecording, start: int, length: int) -> Seq<i32> {
    reader::clipped(
        whole.audio,
        start * whole.format.channels,
        (start + length) * whole.format.channels,
    )
}

/// A cut that starts behind the head of a run of samples is a cut of its tail.
proof fn lemma_clipped_tail(head: Seq<i32>, tail: Seq<i32>, from: int, to: int)
    requires
        head.len() <= from <= to,
    ensures
        reader::clipped(head + tail, from, to) == reader::clipped(
            tail,
            from - head.len(),
            to - head.len(),
        ),
{
    assert(reader::clipped(head + tail, from, to) =~= reader::clipped(
        tail,
        from - head.len(),
        to - head.len(),
    ));
}

/// Cutting whole frames out of whole frames leaves whole frames.
proof fn lemma_whole_frames(samples: Seq<i32>, channels: int, from: int, to: int)
    requires
        1 <= channels,
        samples.len() as int % channels == 0,
        0 <= from <= to,
    ensures
        reader::clipped(samples, from * channels, to * channels).len() as int % channels == 0,
        reader::clipped(samples, from * channels, to * channels).len() as int == (if samples.len()
            as int / channels <= from {
            0
        } else if samples.len() as int / channels <= to {
            (samples.len() as int / channels - from) * channels
        } else {
            (to - from) * channels
        }),
{
    let len = samples.len() as int;
    let frames = len / channels;
    vstd::arithmetic::div_mod::lemma_fundamental_div_mod(len, channels);
    assert(len == frames * channels) by (nonlinear_arith)
        requires
            len == channels * frames + len % channels,
            len % channels == 0,
    ;
    assert(0 <= from * channels <= to * channels) by (nonlinear_arith)
        requires
            0 <= from <= to,
            1 <= channels,
    ;
    if frames <= from {
        assert(len <= from * channels) by (nonlinear_arith)
            requires
                len == frames * channels,
                frames <= from,
                1 <= channels,
        ;
    } else {
        assert(from * channels < len) by (nonlinear_arith)
            requires
                len == frames * channels,
                from < frames,
                1 <= channels,
        ;
        if frames <= to {
            assert(len <= to * channels) by (nonlinear_arith)
                requires
                    len == frames * channels,
                    frames <= to,
                    1 <= channels,
            ;
            assert((frames - from) * channels == len - from * channels) by (nonlinear_arith)
                requires
                    len == frames * channels,
            ;
            vstd::arithmetic::div_mod::lemma_mod_multiples_basic(frames - from, channels);
        } else {
            assert(to * channels < len) by (nonlinear_arith)
                requires
                    len == frames * channels,
                    to < frames,
                    1 <= channels,
            ;
            assert((to - from) * channels == to * channels - from * channels) by (nonlinear_arith);
            assert(from * channels <= to * channels);
            vstd::arithmetic::div_mod::lemma_mod_multiples_basic(to - from, channels);
            if from == to {
                assert(0int % channels == 0) by {
                    vstd::arithmetic::div_mod::lemma_mod_multiples_basic(0, channels);
                }
            }
        }
    }
    vstd::arithmetic::div_mod::lemma_mod_multiples_basic(0, channels);
}

impl<S: PcmSource> PcmSource for SpanPcm<S> {
    closed spec fn wf(&self) -> bool {
        &&& reader::pcm_ready(
            self.inner.wf(),
            self.inner.recording(),
            self.inner.position(),
            self.inner.upcoming(),
        )
        &&& self.window.wf()
        &&& self.window.left() > 0 && self.inner.recording().exact ==> self.inner.position()
            + self.window.skip == self.window.start + self.window.position
    }

    closed spec fn recording(&self) -> PcmRecording {
        PcmRecording {
            declared: self.window.length as int,
            tags: self.tags@,
            audio: pcm_part(
                self.inner.recording(),
                self.window.start as int,
                self.window.length as int,
            ),
            ending: part_ending(
                frames_in(self.inner.recording()),
                self.window.start as int,
                self.window.length as int,
                self.inner.recording().ending,
            ),
            later: pcm_part_later(
                frames_in(self.inner.recording()),
                self.inner.recording().format.channels as int,
                self.window.start as int,
                self.window.length as int,
                self.inner.recording().later,
            ),
            ..self.inner.recording()
        }
    }

    closed spec fn position(&self) -> int {
        self.bounds().position as int
    }

    closed spec fn upcoming(&self) -> Seq<i32> {
        reader::clipped(
            self.inner().upcoming(),
            self.bounds().skip * self.inner().recording().format.channels,
            (self.bounds().skip + self.bounds().left()) * self.inner().recording().format.channels,
        )
    }

    closed spec fn ending(&self) -> Option<ReadError> {
        part_ending(
            self.inner().upcoming().len() as int / self.inner().recording().format.channels as int,
            self.bounds().skip as int,
            self.bounds().left(),
            self.inner().ending(),
        )
    }

    closed spec fn later(&self) -> Seq<Stretch<Seq<i32>>> {
        pcm_part_later(
            self.inner().upcoming().len() as int / self.inner().recording().format.channels as int,
            self.inner().recording().format.channels as int,
            self.bounds().skip as int,
            self.bounds().left(),
            self.inner().later(),
        )
    }

    /// A seek that fails leaves the track's own place as it was.
    open spec fn aimed(&self, place: int) -> Seq<Stretch<Seq<i32>>> {
        let start = self.bounds().start as int;
        let length = self.bounds().length as int;
        let goal = start + reader::inside(place, length);
        let whole = self.inner().aimed(goal);
        match self.inner().sought(goal) {
            Ok(landed) => pcm_part_course(
                whole,
                self.inner().recording().format.channels as int,
                over(goal, landed as int),
                over(length, self.sought(place)->Ok_0 as int),
            ),
            Err(_) => pcm_part_course(
                whole,
                self.inner().recording().format.channels as int,
                self.bounds().skip as int,
                self.bounds().left(),
            ),
        }
    }

    open spec fn sought(&self, place: int) -> Result<u64, ReadError> {
        let start = self.bounds().start as int;
        let length = self.bounds().length as int;
        part_sought(
            start,
            length,
            place,
            self.inner().sought(start + reader::inside(place, length)),
        )
    }

    /// A track starts on any frame, so a seek inside one always lands where it was sent.
    open spec fn stands_for(&self, frame: int) -> bool {
        self.position() == frame
    }

    fn container(&self) -> (name: &'static str) {
        self.inner.container()
    }

    fn format(&self) -> (format: PcmFormat) {
        self.inner.format()
    }

    fn total_frames(&self) -> (total: u64) {
        self.window.length
    }

    fn tags(&self) -> (tags: &TrackTags) {
        &self.tags
    }

    fn chunk_frames(&self) -> (frames: usize) {
        self.inner.chunk_frames()
    }

    #[verifier::rlimit(50)]
    fn read(&mut self, out: &mut Vec<i32>) -> (read: Result<usize, ReadError>)
        ensures
            final(self).bounds().start == old(self).bounds().start,
            final(self).bounds().length == old(self).bounds().length,
            final(self).inner().recording() == old(self).inner().recording(),
    {
        if self.window.remaining() == 0 {
            assert(self.upcoming() =~= Seq::empty());
            return Ok(0);
        }
        let ghost whole = self.inner.recording();
        let ghost own = self.recording();
        let ghost to_come = self.upcoming();
        let ghost from = self.position();
        let channels: usize = self.inner.format().channels as usize;
        loop
            invariant
                reader::pcm_ready(
                    self.inner.wf(),
                    self.inner.recording(),
                    self.inner.position(),
                    self.inner.upcoming(),
                ),
                self.inner.recording() == whole,
                self.recording() == own,
                self.upcoming() == to_come,
                self.ending() == old(self).ending(),
                self.later() == old(self).later(),
                self.window.wf(),
                self.window.position == from,
                self.window.left() > 0,
                self.window.start == old(self).window.start,
                self.window.length == old(self).window.length,
                whole == old(self).inner.recording(),
                whole.exact ==> self.inner.position() + self.window.skip == self.window.start
                    + from,
                1 <= channels == whole.format.channels,
                out@ == old(out)@,
                own == old(self).recording(),
                to_come == old(self).upcoming(),
                from == old(self).position(),
            decreases self.inner.upcoming().len(),
        {
            let ghost before = self.inner.upcoming();
            let ghost window = self.window;
            let ghost later = self.inner.later();
            let mut block: Vec<i32> = Vec::new();
            let read: Result<usize, ReadError> = self.inner.read(&mut block);
            proof {
                if before.len() == 0 {
                    assert(to_come =~= Seq::empty()) by {
                        assert(0 <= window.skip * channels) by (nonlinear_arith)
                            requires
                                0 <= window.skip,
                                0 <= channels,
                        ;
                    }
                    vstd::arithmetic::div_mod::lemma_div_basics(channels as int);
                    self.lemma_upcoming();
                    lemma_course(self.inner.upcoming(), self.inner.ending(), self.inner.later());
                    lemma_pcm_part_onward(
                        later,
                        reader::course(
                            self.inner.upcoming(),
                            self.inner.ending(),
                            self.inner.later(),
                        ),
                        channels as int,
                        window.skip as int,
                        window.left(),
                    );
                }
            }
            let count: usize = match read {
                Ok(count) => count,
                Err(error) => {
                    return Err(error);
                },
            };
            if count == 0 {
                return Ok(0);
            }
            let ghost after = self.inner.upcoming();
            let held: usize = block.len();
            assert(before =~= block@ + after);
            proof {
                vstd::arithmetic::div_mod::lemma_hoist_over_denominator(
                    after.len() as int,
                    count as int,
                    channels as nat,
                );
            }
            assert(count <= count * channels) by (nonlinear_arith)
                requires
                    1 <= channels,
                    0 <= count,
            ;
            match self.window.take(count) {
                Take::Drop => {
                    proof {
                        let ch = channels as int;
                        let skip = window.skip as int;
                        let left = window.left();
                        assert((skip - count) * ch == skip * ch - count * ch && (skip - count + left)
                            * ch == (skip + left) * ch - count * ch && count * ch <= skip * ch
                            && skip * ch <= (skip + left) * ch) by (nonlinear_arith)
                            requires
                                count <= skip,
                                0 <= left,
                                1 <= ch,
                        ;
                        lemma_clipped_tail(block@, after, skip * ch, (skip + left) * ch);
                    }
                },
                Take::Keep { skip, kept } => {
                    let ghost left = window.left();
                    assert(held == count * channels);
                    assert(0 <= skip * channels && (skip + kept) * channels == skip * channels + kept
                        * channels && kept <= kept * channels && (skip + kept) * channels <= count
                        * channels) by (nonlinear_arith)
                        requires
                            0 <= skip,
                            0 <= kept,
                            skip + kept <= count,
                            1 <= channels,
                    ;
                    let start: usize = skip * channels;
                    let end: usize = start + kept * channels;
                    let mut i: usize = start;
                    while i < end
                        invariant
                            start <= i <= end <= block@.len(),
                            out@ == old(out)@ + block@.subrange(start as int, i as int),
                        decreases end - i,
                    {
                        out.push(block[i]);
                        i += 1;
                        assert(out@ =~= old(out)@ + block@.subrange(start as int, i as int));
                    }
                    proof {
                        let ch = channels as int;
                        assert((skip + left) * ch == skip * ch + left * ch && (left - kept) * ch
                            == left * ch - kept * ch && kept * ch <= left * ch && 0 <= (left - kept)
                            * ch) by (nonlinear_arith)
                            requires
                                kept <= left,
                                1 <= ch,
                        ;
                        if kept < left {
                            assert(skip + kept == count);
                        } else {
                            assert((left - kept) * ch == 0);
                        }
                        assert(0 * ch == 0) by (nonlinear_arith);
                        let rest = reader::clipped(after, 0, (left - kept) * ch);
                        assert(self.upcoming() == rest);
                        assert(to_come =~= block@.subrange(start as int, end as int) + rest);
                        assert(out@ + rest =~= old(out)@ + to_come);
                        self.lemma_upcoming();
                    }
                    return Ok(kept);
                },
            }
        }
    }

    fn seek(&mut self, frame: u64) -> (out: Result<u64, ReadError>)
        ensures
            final(self).bounds().start == old(self).bounds().start,
            final(self).bounds().length == old(self).bounds().length,
            final(self).inner().recording() == old(self).inner().recording(),
            reader::course(
                final(self).inner().upcoming(),
                final(self).inner().ending(),
                final(self).inner().later(),
            ) == old(self).inner().aimed(
                old(self).bounds().start + reader::inside(
                    frame as int,
                    old(self).bounds().length as int,
                ),
            ),
    {
        let offset: u64 = if frame < self.window.length {
            frame
        } else {
            self.window.length
        };
        self.aim(offset)
    }
}

/// What reads put at the heads of the planes of channel `c`, one run for each read.
pub open spec fn runs_of(
    planes: Seq<Seq<Box<[u8]>>>,
    counts: Seq<int>,
    c: int,
) -> Seq<Seq<u8>> {
    Seq::new(counts.len(), |k: int| planes[k][c]@.take(counts[k]))
}

/// Successive reads of a track, up to the first that gives nothing, together give of every
/// channel the bytes from where the track stood up to its end: nothing before, nothing after.
/// `spans` is the track before each read and after the last, `counts` what the reads reported
/// and `planes` what they left behind.
pub proof fn successive_reads_give_the_track<S: DsdSource>(
    spans: Seq<SpanDsd<S>>,
    planes: Seq<Seq<Box<[u8]>>>,
    counts: Seq<int>,
    whole: DsdRecording,
    start: int,
    end: int,
)
    requires
        0 <= start <= end,
        counts.len() > 0,
        planes.len() == counts.len(),
        spans.len() == counts.len() + 1,
        1 <= whole.format.channels,
        reader::even(whole.audio, whole.format.channels as int),
        forall|k: int|
            0 <= k < spans.len() ==> {
                let span = #[trigger] spans[k];
                &&& reader::ready(span.wf(), span.recording(), span.position(), span.upcoming())
                &&& span.recording().exact
                &&& span.recording().audio == cut(whole.audio, start, end)
            },
        forall|k: int|
            0 <= k < counts.len() ==> reader::planes_hold(
                #[trigger] planes[k],
                spans[k].recording(),
            ) && reader::read_gives(
                spans[k].upcoming(),
                spans[k + 1].upcoming(),
                counts[k],
                planes[k],
            ) && counts[k] <= spans[k].recording().chunk,
        forall|k: int| 0 <= k < counts.len() - 1 ==> #[trigger] counts[k] > 0,
        counts.last() == 0,
    ensures
        forall|c: int|
            0 <= c < whole.audio.len() ==> reader::joined(#[trigger] runs_of(planes, counts, c))
                == cut_plane(whole.audio[c], start + spans[0].position(), end),
{
    let channels = whole.format.channels as int;
    lemma_cut_even(whole.audio, channels, start, end);
    assert forall|c: int| 0 <= c < whole.audio.len() implies reader::joined(
        #[trigger] runs_of(planes, counts, c),
    ) == cut_plane(whole.audio[c], start + spans[0].position(), end) by {
        let runs = runs_of(planes, counts, c);
        let before = runs.drop_last();
        let left = Seq::new(counts.len(), |k: int| spans[k].upcoming()[c]);
        assert forall|k: int| 0 <= k < before.len() implies left[k] == #[trigger] before[k] + left[k
            + 1] by {
            assert(reader::planes_hold(planes[k], spans[k].recording()));
            let to_come = spans[k].upcoming();
            let own = spans[k].recording();
            assert(own.format.channels == own.audio.len());
            assert(to_come[c].len() == to_come[0].len());
            assert(planes[k][c]@.len() >= counts[k]);
            assert(before[k] =~= to_come[c].take(counts[k])) by {
                assert forall|i: int| 0 <= i < counts[k] implies before[k][i] == to_come[c][i] by {
                    assert(planes[k][c]@[i] == to_come[c][i]);
                }
            }
            assert(spans[k + 1].upcoming() == reader::rest(to_come, counts[k]));
            assert(left[k] =~= before[k] + left[k + 1]);
        }
        reader::lemma_joined(left, before);
        let last = counts.len() - 1;
        assert(reader::planes_hold(planes[last], spans[last].recording()));
        let at_end = spans[last].upcoming();
        assert(at_end[c].len() == at_end[0].len());
        assert(left.last() =~= Seq::empty());
        assert(runs.last() =~= Seq::empty());
        assert(reader::joined(runs) =~= reader::joined(before));
        assert(reader::joined(before) =~= left[0]);
        let first = spans[0];
        assert(first.upcoming() == reader::rest(cut(whole.audio, start, end), first.position()));
        assert(left[0] =~= cut_plane(whole.audio[c], start + first.position(), end));
    }
}

/// Successive reads of a track into one buffer, up to the first that gives nothing, together
/// add the frames from where the track stood up to its end: nothing before, nothing after.
/// `spans` is the track before each read and after the last, and `buffers` what the buffer held
/// then.
pub proof fn successive_reads_add_the_track<S: PcmSource>(
    spans: Seq<SpanPcm<S>>,
    buffers: Seq<Seq<i32>>,
    whole: PcmRecording,
    start: int,
    end: int,
)
    requires
        0 <= start <= end,
        1 <= whole.format.channels,
        spans.len() > 0,
        buffers.len() == spans.len(),
        forall|k: int|
            0 <= k < spans.len() ==> {
                let span = #[trigger] spans[k];
                &&& reader::pcm_ready(
                    span.wf(),
                    span.recording(),
                    span.position(),
                    span.upcoming(),
                )
                &&& span.recording().exact
                &&& span.recording().format == whole.format
                &&& span.recording().audio == pcm_part(whole, start, end - start)
            },
        forall|k: int|
            0 <= k < spans.len() - 1 ==> #[trigger] buffers[k + 1] + spans[k + 1].upcoming()
                == buffers[k] + spans[k].upcoming(),
        spans.last().upcoming().len() == 0,
    ensures
        buffers.last() == buffers[0] + reader::clipped(
            whole.audio,
            (start + spans[0].position()) * whole.format.channels,
            end * whole.format.channels,
        ),
{
    lemma_reads_add(
        Seq::new(spans.len(), |k: int| spans[k].upcoming()),
        buffers,
        spans.len() - 1,
    );
    let first = spans[0];
    let channels = whole.format.channels as int;
    let position = first.position();
    assert(buffers.last() =~= buffers.last() + spans.last().upcoming());
    assert((start + position) * channels == start * channels + position * channels && (start + (end
        - start)) * channels == end * channels && 0 <= position * channels && 0 <= start * channels
        && start * channels <= end * channels) by (nonlinear_arith)
        requires
            0 <= start <= end,
            0 <= position,
            1 <= channels,
    ;
    assert(first.upcoming() =~= reader::clipped(
        whole.audio,
        (start + position) * channels,
        end * channels,
    ));
}

proof fn lemma_reads_add(left: Seq<Seq<i32>>, buffers: Seq<Seq<i32>>, last: int)
    requires
        left.len() == buffers.len(),
        0 <= last < left.len(),
        forall|k: int|
            0 <= k < left.len() - 1 ==> #[trigger] buffers[k + 1] + left[k + 1] == buffers[k]
                + left[k],
    ensures
        buffers[last] + left[last] == buffers[0] + left[0],
    decreases last,
{
    if last > 0 {
        lemma_reads_add(left, buffers, last - 1);
        assert(buffers[(last - 1) + 1] + left[(last - 1) + 1] == buffers[last - 1] + left[last - 1]);
    }
}

/// A track of a PCM file that ends where it starts, or before, has nothing to come wherever it
/// stands, and no fault behind it: every read of it reports that none is left.
pub proof fn an_empty_pcm_track_gives_nothing<S: PcmSource>(track: SpanPcm<S>)
    requires
        track.wf(),
        track.recording().declared == 0,
    ensures
        track.upcoming() == Seq::<i32>::empty(),
        track.ending() is None,
{
    assert(track.window.left() == 0);
}

/// A track of a DSD file that ends where it starts, or before, has nothing to come wherever it
/// stands, and no fault behind it: every read of it reports that none is left.
pub proof fn an_empty_dsd_track_gives_nothing<S: DsdSource>(track: SpanDsd<S>)
    requires
        reader::ready(track.wf(), track.recording(), track.position(), track.upcoming()),
        track.recording().declared == 0,
    ensures
        track.upcoming()[0].len() == 0,
        track.ending() is None,
{
    assert(track.window.left() == 0);
}

/// A track does not fail for what comes behind its end; where it reaches further than the whole
/// does, it ends as the whole does.
pub proof fn a_track_fails_only_inside_it(
    whole: int,
    start: int,
    length: int,
    ending: Option<ReadError>,
)
    requires
        0 <= start,
        0 < length,
    ensures
        start + length <= whole ==> part_ending(whole, start, length, ending) is None,
        start + length > whole ==> part_ending(whole, start, length, ending) == ending,
        part_ending(whole, start, 0, ending) is None,
{
}

/// A seek in a track stands where it was aimed at, or where the file landed if that is further on,
/// and never outside the track.
pub proof fn a_seek_in_a_track_stands_where_it_was_aimed(
    start: int,
    length: int,
    place: int,
    landed: u64,
)
    requires
        0 <= start,
        0 <= length,
        0 <= place,
        start + length <= u64::MAX,
    ensures
        ({
            &&& part_sought(start, length, place, Ok(landed)) matches Ok(stands)
            &&& start + stands >= landed
            &&& place <= length ==> start + stands >= start + place
            &&& place > length ==> start + stands >= start + length
            &&& place <= length && landed <= start + place ==> stands == place
            &&& place > length && landed <= start + length ==> stands == length
            &&& landed > start + place || landed > start + length ==> start + stands == landed
                || stands == length
        }),
{
}

} // verus!
