//! Rendering the queue into a device's buffers, and choosing the format they are in.

use crate::dop;
use crate::dop::{Marker, SILENCE_PAYLOAD};
use crate::output::encoding::{Carrier, Encoding, StreamFormat, FLAG_NON_MIXABLE, LINEAR_PCM};
use crate::output::queue;
use crate::rows;
use rtrb::Consumer;
use crate::text;
use vstd::prelude::*;

verus! {

/// What the render callback counts, and how the transport holds it.
#[derive(Debug, Clone, Copy, PartialEq, Eq, Structural)]
pub struct PlaybackState {
    pub frames_played: u64,
    pub underrun_frames: u64,
    /// Set to leave whatever is queued and send silence, so playback can end without a pop.
    pub silence: bool,
    /// Set while the queue is held where it is.
    pub paused: bool,
    /// Set while a seek moves the reader.
    pub seeking: bool,
}

impl Default for PlaybackState {
    fn default() -> (state: Self)
        ensures
            state == (PlaybackState {
                frames_played: 0,
                underrun_frames: 0,
                silence: false,
                paused: false,
                seeking: false,
            }),
    {
        PlaybackState {
            frames_played: 0,
            underrun_frames: 0,
            silence: false,
            paused: false,
            seeking: false,
        }
    }
}

impl PlaybackState {
    /// The queue is not to be served.
    pub open spec fn holds(self) -> bool {
        self.silence || self.paused || self.seeking
    }
}

/// The word of one channel of one frame: what the queue has for it, or silence. DSD goes
/// under the frame's marker, and its silence is the DSD silence pattern; the silence of PCM
/// is zero.
pub open spec fn frame_word(carrier: Carrier, marker: u8, sample: Option<i32>) -> i32 {
    match carrier {
        Carrier::Pcm => match sample {
            Some(sample) => sample,
            None => 0,
        },
        _ => dop::word_of(
            marker,
            match sample {
                Some(sample) => (sample as int % 0x1_0000) as u16,
                None => SILENCE_PAYLOAD,
            },
        ) as i32,
    }
}

/// The channels of a device's frame that a recording has samples for.
pub open spec fn served(channels: int, stream_channels: int) -> int {
    if channels < stream_channels {
        channels
    } else {
        stream_channels
    }
}

/// The queued sample that channel `channel` of frame `frame` gets, if there is one.
pub open spec fn sample_for(
    samples: Seq<i32>,
    channels: int,
    stream_channels: int,
    frame: int,
    channel: int,
) -> Option<i32> {
    let index = frame * served(channels, stream_channels) + channel;
    if channel < channels && index < samples.len() {
        Some(samples[index])
    } else {
        None
    }
}

/// The words of `frames` frames, channel by channel within each. The markers alternate from
/// `marker` on, whether a frame has samples or not.
pub open spec fn frame_words(
    carrier: Carrier,
    marker: Marker,
    samples: Seq<i32>,
    channels: int,
    stream_channels: int,
    frames: int,
) -> Seq<i32> {
    Seq::new(
        (frames * stream_channels) as nat,
        |slot: int|
            frame_word(
                carrier,
                marker.after(slot / stream_channels).upcoming(),
                sample_for(
                    samples,
                    channels,
                    stream_channels,
                    slot / stream_channels,
                    slot % stream_channels,
                ),
            ),
    )
}

/// Words one behind another, as an encoding writes them.
pub open spec fn laid_out(encoding: Encoding, words: Seq<i32>) -> Seq<u8>
    decreases words.len(),
{
    if words.len() == 0 {
        Seq::empty()
    } else {
        laid_out(encoding, words.drop_last()) + encoding.encoded(words.last())
    }
}

proof fn lemma_laid_out(encoding: Encoding, words: Seq<i32>)
    requires
        encoding.wf(),
    ensures
        laid_out(encoding, words).len() == words.len() * encoding.width(),
    decreases words.len(),
{
    if words.len() > 0 {
        lemma_laid_out(encoding, words.drop_last());
        lemma_width(encoding, words.last());
        let width = encoding.width();
        assert((words.len() - 1) * width + width == words.len() * width) by (nonlinear_arith);
    }
}

proof fn lemma_width(encoding: Encoding, word: i32)
    requires
        encoding.wf(),
    ensures
        encoding.encoded(word).len() == encoding.width(),
{
    match encoding {
        Encoding::Float32 => {},
        Encoding::Signed { bytes, shift, .. } => {
            let value = word * vstd::arithmetic::power2::pow2(shift as nat) % 0x1_0000_0000;
            let low_first = crate::output::encoding::little_endian(value).subrange(0, bytes as int);
            assert(low_first.len() == bytes);
            assert(low_first.reverse().len() == bytes);
        },
    }
}

/// Render `samples`, and silence behind them, into every whole frame that `out` holds. The
/// bytes past the last whole frame stay as they are.
pub fn render(
    carrier: Carrier,
    encoding: Encoding,
    marker: &mut Marker,
    samples: &Vec<i32>,
    channels: usize,
    stream_channels: usize,
    out: &mut [u8],
) -> (frames: usize)
    requires
        encoding.wf(),
        carrier !is NativeDsd,
        1 <= stream_channels,
        encoding.width() * stream_channels <= usize::MAX,
    ensures
        frames == old(out)@.len() / ((encoding.width() * stream_channels) as nat),
        *final(marker) == old(marker).after(frames as int),
        final(out)@ == laid_out(
            encoding,
            frame_words(
                carrier,
                *old(marker),
                samples@,
                channels as int,
                stream_channels as int,
                frames as int,
            ),
        ) + old(out)@.skip(frames * (encoding.width() * stream_channels)),
{
    let sample_bytes: usize = encoding.bytes_per_sample();
    assert(3 <= sample_bytes * stream_channels) by (nonlinear_arith)
        requires
            3 <= sample_bytes <= 4,
            1 <= stream_channels,
    ;
    let frame_bytes: usize = sample_bytes * stream_channels;
    let len: usize = out.len();
    let frames: usize = len / frame_bytes;
    let share: usize = if channels < stream_channels {
        channels
    } else {
        stream_channels
    };
    let ghost first = *marker;
    let ghost before = out@;
    let ghost words = frame_words(
        carrier,
        first,
        samples@,
        channels as int,
        stream_channels as int,
        frames as int,
    );
    proof {
        vstd::arithmetic::div_mod::lemma_fundamental_div_mod(len as int, frame_bytes as int);
        vstd::arithmetic::div_mod::lemma_mod_bound(len as int, frame_bytes as int);
        assert(frames * frame_bytes == frame_bytes * frames) by (nonlinear_arith);
        assert(words.subrange(0, 0) =~= Seq::empty());
        assert(out@ =~= laid_out(encoding, words.subrange(0, 0)) + before.skip(0));
        assert(0 <= frames * stream_channels) by (nonlinear_arith)
            requires
                0 <= frames,
                0 <= stream_channels,
        ;
    }
    let mut cursor: usize = 0;
    let mut frame: usize = 0;
    while frame < frames
        invariant
            encoding.wf(),
            1 <= stream_channels,
            sample_bytes == encoding.width(),
            frame_bytes == sample_bytes * stream_channels,
            frame <= frames,
            frames * frame_bytes <= len,
            len == before.len() == out@.len(),
            share == served(channels as int, stream_channels as int),
            words == frame_words(
                carrier,
                first,
                samples@,
                channels as int,
                stream_channels as int,
                frames as int,
            ),
            words.len() == frames * stream_channels,
            *marker == first.after(frame as int),
            cursor == frame * frame_bytes,
            0 <= frame * stream_channels <= words.len(),
            out@ == laid_out(encoding, words.subrange(0, frame * stream_channels)) + before.skip(
                cursor as int,
            ),
        decreases frames - frame,
    {
        proof {
            dop::markers_alternate(first, frame as int);
            rows::lemma_row_fits(frame as int, frames as int, frame_bytes as int);
            rows::lemma_row_fits(frame as int, frames as int, stream_channels as int);
        }
        let byte: u8 = marker.next();
        let mut channel: usize = 0;
        while channel < stream_channels
            invariant
                encoding.wf(),
                1 <= stream_channels,
                sample_bytes == encoding.width(),
                frame_bytes == sample_bytes * stream_channels,
                frame < frames,
                channel <= stream_channels,
                len == before.len() == out@.len(),
                share == served(channels as int, stream_channels as int),
                words == frame_words(
                    carrier,
                    first,
                    samples@,
                    channels as int,
                    stream_channels as int,
                    frames as int,
                ),
                words.len() == frames * stream_channels,
                byte == first.after(frame as int).upcoming(),
                0 <= frame * stream_channels,
                frame * stream_channels + stream_channels <= words.len(),
                0 <= frame * frame_bytes,
                frame * frame_bytes + frame_bytes <= len,
                cursor == frame * frame_bytes + channel * sample_bytes,
                out@ == laid_out(
                    encoding,
                    words.subrange(0, frame * stream_channels + channel),
                ) + before.skip(cursor as int),
            decreases stream_channels - channel,
        {
            let ghost slot = frame * stream_channels + channel;
            let ghost done = words.subrange(0, slot);
            proof {
                rows::lemma_slot(frame as int, channel as int, stream_channels as int);
                rows::lemma_row_fits(channel as int, stream_channels as int, sample_bytes as int);
                assert(stream_channels * sample_bytes == frame_bytes) by (nonlinear_arith)
                    requires
                        frame_bytes == sample_bytes * stream_channels,
                ;
                lemma_laid_out(encoding, done);
                assert(slot * sample_bytes == cursor) by (nonlinear_arith)
                    requires
                        slot == frame * stream_channels + channel,
                        frame_bytes == sample_bytes * stream_channels,
                        cursor == frame * frame_bytes + channel * sample_bytes,
                ;
            }
            let sample: Option<i32> = if channel < channels {
                take_sample(samples, frame, share, channel)
            } else {
                None
            };
            assert(sample == sample_for(
                samples@,
                channels as int,
                stream_channels as int,
                frame as int,
                channel as int,
            ));
            let word: i32 = word_for(carrier, byte, sample);
            assert(word == words[slot]);
            let ghost now = out@;
            encoding.write_at(word, out, cursor);
            cursor = cursor + sample_bytes;
            channel += 1;
            proof {
                lemma_width(encoding, word);
                let grown = words.subrange(0, slot + 1);
                assert(grown.drop_last() =~= done);
                assert(now.subrange(0, slot * sample_bytes) =~= laid_out(encoding, done));
                assert(now.subrange(cursor as int, len as int) =~= before.skip(cursor as int));
                assert((channel - 1) * sample_bytes + sample_bytes == channel * sample_bytes)
                    by (nonlinear_arith);
            }
        }
        frame += 1;
        proof {
            assert(frame * frame_bytes == (frame - 1) * frame_bytes + frame_bytes)
                by (nonlinear_arith);
            assert(frame * stream_channels == (frame - 1) * stream_channels + stream_channels)
                by (nonlinear_arith);
            assert(stream_channels * sample_bytes == frame_bytes) by (nonlinear_arith)
                requires
                    frame_bytes == sample_bytes * stream_channels,
            ;
        }
    }
    assert(words.subrange(0, frames * stream_channels) =~= words);
    frames
}

fn take_sample(samples: &Vec<i32>, frame: usize, share: usize, channel: usize) -> (sample: Option<
    i32,
>)
    requires
        channel < share,
    ensures
        sample == (if frame * share + channel < samples@.len() {
            Some(samples@[frame * share + channel])
        } else {
            None
        }),
{
    let whole: u128 = frame as u128;
    assert(0 <= frame * share <= 0xffff_ffff_ffff_ffff * 0xffff_ffff_ffff_ffff) by (nonlinear_arith)
        requires
            0 <= frame <= 0xffff_ffff_ffff_ffff,
            0 <= share <= 0xffff_ffff_ffff_ffff,
    ;
    let index: u128 = whole * share as u128 + channel as u128;
    if index < samples.len() as u128 {
        Some(samples[index as usize])
    } else {
        None
    }
}

fn word_for(carrier: Carrier, marker: u8, sample: Option<i32>) -> (word: i32)
    ensures
        word == frame_word(carrier, marker, sample),
{
    match carrier {
        Carrier::Pcm => match sample {
            Some(sample) => sample,
            None => 0,
        },
        _ => {
            let payload: u16 = match sample {
                Some(sample) => ((sample as i64 + 0x1_0000_0000) % 0x1_0000) as u16,
                None => SILENCE_PAYLOAD,
            };
            dop::word(marker, payload)
        },
    }
}

/// How many frames come off a queue that `queued` samples are seen in, for a buffer of `frames`
/// frames: as many as are queued whole and fit, and none while the queue is held.
pub open spec fn whole_frames(held: bool, queued: int, channels: int, frames: int) -> int {
    if held {
        0
    } else if queued / channels < frames {
        queued / channels
    } else {
        frames
    }
}

/// How many frames come off a queue that `queued` samples are seen in, for a buffer of `frames`
/// frames.
pub fn ready_frames(held: bool, queued: usize, channels: usize, frames: usize) -> (ready: usize)
    requires
        channels >= 1,
    ensures
        ready == whole_frames(held, queued as int, channels as int, frames as int),
{
    if held {
        return 0;
    }
    let whole: usize = queued / channels;
    if whole < frames {
        whole
    } else {
        frames
    }
}

proof fn lemma_whole_frames(held: bool, queued: int, channels: int, frames: int)
    requires
        channels >= 1,
        0 <= queued,
        0 <= frames,
    ensures
        0 <= whole_frames(held, queued, channels, frames) <= frames,
        0 <= whole_frames(held, queued, channels, frames) * channels <= queued,
{
    vstd::arithmetic::div_mod::lemma_fundamental_div_mod(queued, channels);
    vstd::arithmetic::div_mod::lemma_div_pos_is_pos(queued, channels);
    let ready = whole_frames(held, queued, channels, frames);
    assert(0 <= ready * channels <= channels * (queued / channels)) by (nonlinear_arith)
        requires
            0 <= ready <= queued / channels,
            channels >= 1,
    ;
}

/// What the render callback works with.
pub struct IoContext {
    pub consumer: Consumer<i32>,
    pub channels: usize,
    pub stream_index: usize,
    pub encoding: Encoding,
    pub carrier: Carrier,
    pub marker: Marker,
    pub state: PlaybackState,
}

impl IoContext {
    /// A context that Core Audio's buffers can be rendered from. Raw DSD goes to a DAC by way
    /// of its USB interfaces, never through here.
    pub open spec fn wf(&self) -> bool {
        &&& self.channels >= 1
        &&& self.encoding.wf()
        &&& self.carrier !is NativeDsd
    }

    /// What rendering a buffer does where `ready` frames of the queue are ready: those frames
    /// leave the queue for the head of the buffer, silence fills the rest of it, and both are
    /// counted. As many are ready as the queue was seen to hold whole, up to what the buffer
    /// takes, and none while the transport holds the queue: what was seen is what left the
    /// queue and what is seen of it still.
    pub open spec fn renders(
        &self,
        after: &IoContext,
        out: Seq<u8>,
        rendered: Seq<u8>,
        stream_channels: int,
        ready: int,
    ) -> bool {
        let frame_bytes = self.encoding.width() * stream_channels;
        let frames = out.len() as int / frame_bytes;
        let samples = queue::samples_to_come(self.consumer).take(ready * self.channels);
        &&& ready == whole_frames(
            self.state.holds(),
            queue::samples_seen(after.consumer) + ready * self.channels,
            self.channels as int,
            frames,
        )
        &&& 0 <= ready <= frames
        &&& 0 <= ready * self.channels <= queue::samples_to_come(self.consumer).len()
        &&& queue::samples_to_come(after.consumer) == queue::samples_to_come(self.consumer).skip(
            ready * self.channels,
        )
        &&& rendered == laid_out(
            self.encoding,
            frame_words(
                self.carrier,
                self.marker,
                samples,
                self.channels as int,
                stream_channels,
                frames,
            ),
        ) + out.skip(frames * frame_bytes)
        &&& after.marker == self.marker.after(frames)
        &&& after.state == (PlaybackState {
            frames_played: ((self.state.frames_played + ready) % 0x1_0000_0000_0000_0000) as u64,
            underrun_frames: ((self.state.underrun_frames + frames - ready)
                % 0x1_0000_0000_0000_0000) as u64,
            ..self.state
        })
        &&& after.channels == self.channels
        &&& after.stream_index == self.stream_index
        &&& after.encoding == self.encoding
        &&& after.carrier == self.carrier
    }

    /// Take the samples of as many of `frames` frames off the queue as are ready.
    fn take_ready(&mut self, frames: usize) -> (out: (usize, Vec<i32>))
        requires
            old(self).wf(),
        ensures
            out.0 <= frames,
            ({
                let coming = queue::samples_to_come(old(self).consumer);
                let count = out.0 * old(self).channels;
                &&& 0 <= count <= coming.len()
                &&& out.0 == whole_frames(
                    old(self).state.holds(),
                    queue::samples_seen(final(self).consumer) + count,
                    old(self).channels as int,
                    frames as int,
                )
                &&& out.1@ == coming.take(count)
                &&& queue::samples_to_come(final(self).consumer) == coming.skip(count)
            }),
            final(self).channels == old(self).channels,
            final(self).stream_index == old(self).stream_index,
            final(self).encoding == old(self).encoding,
            final(self).carrier == old(self).carrier,
            final(self).marker == old(self).marker,
            final(self).state == old(self).state,
    {
        let ghost coming = queue::samples_to_come(self.consumer);
        let held: bool = self.state.silence || self.state.paused || self.state.seeking;
        let queued: usize = queue::see_samples(&mut self.consumer);
        let ready: usize = ready_frames(held, queued, self.channels, frames);
        proof {
            lemma_whole_frames(held, queued as int, self.channels as int, frames as int);
        }
        let count: usize = ready * self.channels;
        match queue::read_samples(&mut self.consumer, count) {
            Some(samples) => {
                proof {
                    assert(coming.take(count as int) =~= samples@);
                    assert(coming.skip(count as int) =~= queue::samples_to_come(self.consumer));
                }
                (ready, samples)
            },
            None => {
                assert(false);
                (0, Vec::new())
            },
        }
    }

    /// Render what is queued into a buffer of `stream_channels` channels. How much of the
    /// queue is seen rests with the thread that fills it.
    #[verifier::rlimit(50)]
    pub fn fill(&mut self, out: &mut [u8], stream_channels: usize)
        requires
            old(self).wf(),
            old(self).encoding.width() * stream_channels <= usize::MAX,
        ensures
            final(self).wf(),
            if stream_channels == 0 {
                final(out)@ == old(out)@ && *final(self) == *old(self)
            } else {
                exists|ready: int| #[trigger]
                    old(self).renders(
                        final(self),
                        old(out)@,
                        final(out)@,
                        stream_channels as int,
                        ready,
                    )
            },
    {
        if stream_channels == 0 {
            return;
        }
        let ghost before = *self;
        let ghost given = out@;
        let ghost width = self.encoding.width();
        assert(3 <= width * stream_channels) by (nonlinear_arith)
            requires
                3 <= width <= 4,
                1 <= stream_channels,
        ;
        let frame_bytes: usize = self.encoding.bytes_per_sample() * stream_channels;
        let frames: usize = out.len() / frame_bytes;
        let (ready, samples): (usize, Vec<i32>) = self.take_ready(frames);
        let rendered: usize = render(
            self.carrier,
            self.encoding,
            &mut self.marker,
            &samples,
            self.channels,
            stream_channels,
            out,
        );
        self.state.frames_played = self.state.frames_played.wrapping_add(ready as u64);
        self.state.underrun_frames = self.state.underrun_frames.wrapping_add(
            (frames - ready) as u64,
        );
        proof {
            assert(before.renders(self, given, out@, stream_channels as int, ready as int));
        }
    }

    /// Let go of everything that is queued right now, for a seek that has moved the reader:
    /// all that is seen leaves the head of the queue.
    pub fn drop_queued(&mut self)
        ensures
            queue::samples_seen(final(self).consumer) == 0,
            exists|count: int|
                0 <= count <= queue::samples_to_come(old(self).consumer).len()
                    && queue::samples_to_come(final(self).consumer)
                    == #[trigger] queue::samples_to_come(old(self).consumer).skip(count),
            final(self).channels == old(self).channels,
            final(self).stream_index == old(self).stream_index,
            final(self).encoding == old(self).encoding,
            final(self).carrier == old(self).carrier,
            final(self).marker == old(self).marker,
            final(self).state == old(self).state,
    {
        let ghost coming = queue::samples_to_come(self.consumer);
        let queued: usize = queue::see_samples(&mut self.consumer);
        let dropped: Option<Vec<i32>> = queue::read_samples(&mut self.consumer, queued);
        assert(dropped is Some);
        assert(coming.skip(queued as int) =~= queue::samples_to_come(self.consumer));
    }
}

/// Markers alternate from one buffer to the next, whatever was rendered into them: the first
/// marker of a buffer is the other than the last of the buffer before.
pub proof fn markers_alternate_across_buffers(
    before: &IoContext,
    after: &IoContext,
    out: Seq<u8>,
    rendered: Seq<u8>,
    stream_channels: int,
    ready: int,
)
    requires
        before.wf(),
        stream_channels >= 1,
        before.renders(after, out, rendered, stream_channels, ready),
        out.len() as int / (before.encoding.width() * stream_channels) >= 1,
    ensures
        ({
            let frames = out.len() as int / (before.encoding.width() * stream_channels);
            after.marker.upcoming() == dop::other_marker(
                before.marker.after(frames - 1).upcoming(),
            )
        }),
{
    let frames = out.len() as int / (before.encoding.width() * stream_channels);
    dop::markers_alternate(before.marker, frames - 1);
}

/// Every queued sample reaches the frame and channel it belongs to, as its DoP payload or its
/// PCM word, and nothing else stands there.
pub proof fn queued_samples_are_rendered_in_order(
    carrier: Carrier,
    marker: Marker,
    samples: Seq<i32>,
    channels: int,
    stream_channels: int,
    frames: int,
    frame: int,
    channel: int,
)
    requires
        1 <= channels <= stream_channels,
        0 <= frame < frames,
        0 <= channel < channels,
        frame * channels + channel < samples.len(),
    ensures
        ({
            let word = frame_words(carrier, marker, samples, channels, stream_channels, frames)[frame
                * stream_channels + channel];
            let sample = samples[frame * channels + channel];
            if carrier is Pcm {
                word == sample
            } else {
                &&& word as int % 0x1_0000 == sample as int % 0x1_0000
                &&& word as int % 0x100_0000 / 0x1_0000 == marker.after(frame).upcoming()
            }
        }),
{
    rows::lemma_slot(frame, channel, stream_channels);
    rows::lemma_row_fits(frame, frames, stream_channels);
    let sample = samples[frame * channels + channel];
    dop::split_undoes_word(
        marker.after(frame).upcoming(),
        (sample as int % 0x1_0000) as u16,
    );
}

/// Past the queue's end, and on channels the recording does not have, DSD frames carry the
/// silence pattern and PCM frames carry zero.
pub proof fn underruns_are_silence(
    carrier: Carrier,
    marker: Marker,
    samples: Seq<i32>,
    channels: int,
    stream_channels: int,
    frames: int,
    frame: int,
    channel: int,
)
    requires
        1 <= channels <= stream_channels,
        0 <= frame < frames,
        0 <= channel < stream_channels,
        channel >= channels || frame * channels + channel >= samples.len(),
    ensures
        ({
            let word = frame_words(carrier, marker, samples, channels, stream_channels, frames)[frame
                * stream_channels + channel];
            if carrier is Pcm {
                word == 0
            } else {
                &&& word as int % 0x1_0000 == SILENCE_PAYLOAD
                &&& word as int % 0x100_0000 / 0x1_0000 == marker.after(frame).upcoming()
            }
        }),
{
    rows::lemma_slot(frame, channel, stream_channels);
    rows::lemma_row_fits(frame, frames, stream_channels);
    dop::split_undoes_word(marker.after(frame).upcoming(), SILENCE_PAYLOAD);
}

/// While the transport holds the queue -- paused, seeking, or playing out the tail -- it keeps
/// its place, and the device goes on getting silence under alternating markers.
pub proof fn a_held_queue_keeps_its_place(
    before: &IoContext,
    after: &IoContext,
    out: Seq<u8>,
    rendered: Seq<u8>,
    stream_channels: int,
    ready: int,
)
    requires
        before.renders(after, out, rendered, stream_channels, ready),
        before.state.holds(),
    ensures
        ({
            let frame_bytes = before.encoding.width() * stream_channels;
            let frames = out.len() as int / frame_bytes;
            &&& queue::samples_to_come(after.consumer) == queue::samples_to_come(before.consumer)
            &&& after.state.frames_played == before.state.frames_played
            &&& rendered == laid_out(
                before.encoding,
                frame_words(
                    before.carrier,
                    before.marker,
                    Seq::empty(),
                    before.channels as int,
                    stream_channels,
                    frames,
                ),
            ) + out.skip(frames * frame_bytes)
            &&& after.marker == before.marker.after(frames)
        }),
{
    let coming = queue::samples_to_come(before.consumer);
    assert(ready * before.channels == 0) by (nonlinear_arith)
        requires
            ready == 0,
    ;
    assert(coming.skip(0) =~= coming);
    assert(coming.take(0) =~= Seq::<i32>::empty());
}

/// The bytes of a word stand in a buffer where its frame and channel say, and nowhere else.
pub proof fn every_word_has_its_own_bytes(encoding: Encoding, words: Seq<i32>, slot: int)
    requires
        encoding.wf(),
        0 <= slot < words.len(),
    ensures
        0 <= slot * encoding.width(),
        (slot + 1) * encoding.width() <= laid_out(encoding, words).len(),
        laid_out(encoding, words).subrange(
            slot * encoding.width(),
            (slot + 1) * encoding.width(),
        ) == encoding.encoded(words[slot]),
    decreases words.len(),
{
    let width = encoding.width();
    let whole = laid_out(encoding, words);
    let head = laid_out(encoding, words.drop_last());
    lemma_laid_out(encoding, words);
    lemma_laid_out(encoding, words.drop_last());
    lemma_width(encoding, words.last());
    rows::lemma_row_fits(slot, words.len() as int, width);
    assert((slot + 1) * width == slot * width + width) by (nonlinear_arith);
    if slot + 1 == words.len() {
        assert(whole.subrange(slot * width, (slot + 1) * width) =~= encoding.encoded(words[slot]));
    } else {
        every_word_has_its_own_bytes(encoding, words.drop_last(), slot);
        assert(whole.subrange(slot * width, (slot + 1) * width) =~= head.subrange(
            slot * width,
            (slot + 1) * width,
        ));
    }
}

/// The DSD rates a DoP link can carry, as PCM frame rates.
pub const DOP_PCM_RATES: [u32; 4] = [176_400, 352_800, 705_600, 1_411_200];

/// A physical format that a stream offers, and the rates it is offered at: one rate, or where
/// that is zero, the whole rates of a range.
#[derive(Debug, Clone, Copy, PartialEq, Eq, Structural)]
pub struct RangedFormat {
    pub format: StreamFormat,
    /// The format's own rate, where that is a whole number of hertz.
    pub rate: Option<u32>,
    pub lowest: u32,
    pub highest: u32,
}

impl RangedFormat {
    pub open spec fn carries(self, rate: u32) -> bool {
        ||| self.rate == Some(rate)
        ||| self.rate == Some(0u32) && self.lowest <= rate <= self.highest
    }
}

/// Whether a format is offered at a rate.
pub fn carries_rate(ranged: &RangedFormat, rate: u32) -> (yes: bool)
    ensures
        yes == ranged.carries(rate),
{
    match ranged.rate {
        Some(own) => own == rate || (own == 0 && ranged.lowest <= rate && rate <= ranged.highest),
        None => false,
    }
}

/// How well a format suits: integer transport first, then 24-bit containers, then an exact
/// channel match, and of formats that agree so far, one the mixer stays out of.
pub open spec fn merit(format: StreamFormat, encoding: Encoding, channels: u32) -> i32 {
    (if encoding is Signed {
        100int
    } else {
        0
    } + if format.bits == 24 {
        20int
    } else {
        0
    } + if format.channels == channels {
        10int
    } else {
        0
    } + if format.flagged(FLAG_NON_MIXABLE) {
        5int
    } else {
        0
    }) as i32
}

/// Prefer integer transport, then 24-bit containers, then an exact channel match, then a
/// format the device advertises as non-mixable.
pub fn score(format: &StreamFormat, encoding: Encoding, channels: u32) -> (score: i32)
    ensures
        score == merit(*format, encoding, channels),
{
    let mut score: i32 = 0;
    if encoding.is_integer() {
        score += 100;
    }
    if format.bits == 24 {
        score += 20;
    }
    if format.channels == channels {
        score += 10;
    }
    if format.flags / FLAG_NON_MIXABLE % 2 == 1 {
        score += 5;
    }
    score
}

/// A format that a stream offers, which can carry 24-bit words at a rate.
pub open spec fn usable(ranged: RangedFormat, rate: u32) -> bool {
    ranged.carries(rate) && Encoding::of_format(ranged.format) is Ok
}

/// A format that can carry a recording of so many channels at its rate. A device that has
/// been seen to take a rate that none of its formats lists takes it in any of them.
pub open spec fn suits(ranged: RangedFormat, rate: u32, unadvertised: bool, channels: u16) -> bool {
    &&& unadvertised || ranged.carries(rate)
    &&& Encoding::of_format(ranged.format) is Ok
    &&& ranged.format.channels >= channels
}

/// How well a format that suits suits.
pub open spec fn merit_of(ranged: RangedFormat, channels: u16) -> i32 {
    merit(ranged.format, Encoding::of_format(ranged.format)->Ok_0, channels as u32)
}

/// Some stream has a format that can carry DoP at `rate`.
pub open spec fn supports(streams: Seq<Vec<RangedFormat>>, rate: u32) -> bool {
    exists|s: int, f: int|
        0 <= s < streams.len() && 0 <= f < streams[s]@.len() && usable(
            #[trigger] streams[s]@[f],
            rate,
        )
}

fn stream_supports(formats: &Vec<RangedFormat>, rate: u32) -> (yes: bool)
    ensures
        yes == exists|f: int| 0 <= f < formats@.len() && usable(#[trigger] formats@[f], rate),
{
    let mut f: usize = 0;
    while f < formats.len()
        invariant
            f <= formats@.len(),
            forall|k: int| 0 <= k < f ==> !usable(#[trigger] formats@[k], rate),
        decreases formats@.len() - f,
    {
        if carries_rate(&formats[f], rate) && formats[f].format.format_id == LINEAR_PCM {
            match Encoding::from_format(&formats[f].format) {
                Ok(_) => {
                    assert(usable(formats@[f as int], rate));
                    return true;
                },
                Err(_) => {},
            }
        }
        f += 1;
    }
    false
}

/// The DoP carrier rates from `index` on that some stream supports.
pub open spec fn supported_from(streams: Seq<Vec<RangedFormat>>, index: int) -> Seq<u32>
    decreases 4 - index,
{
    if index >= 4 {
        Seq::empty()
    } else if supports(streams, DOP_PCM_RATES[index]) {
        seq![DOP_PCM_RATES[index]] + supported_from(streams, index + 1)
    } else {
        supported_from(streams, index + 1)
    }
}

/// PCM rates from the DSD family that a device with these streams can carry with at least 24
/// bits, in rising order.
pub fn supported_dop_rates(streams: &Vec<Vec<RangedFormat>>) -> (rates: Vec<u32>)
    ensures
        rates@ == supported_from(streams@, 0),
{
    let mut rates: Vec<u32> = Vec::new();
    let mut index: usize = 0;
    assert(rates@ + supported_from(streams@, 0) =~= supported_from(streams@, 0));
    while index < 4
        invariant
            index <= 4,
            supported_from(streams@, 0) == rates@ + supported_from(streams@, index as int),
        decreases 4 - index,
    {
        let rate: u32 = DOP_PCM_RATES[index];
        let mut found: bool = false;
        let mut s: usize = 0;
        while s < streams.len() && !found
            invariant
                s <= streams@.len(),
                found ==> supports(streams@, rate),
                !found ==> forall|k: int, f: int|
                    0 <= k < s && 0 <= f < streams@[k]@.len() ==> !usable(
                        #[trigger] streams@[k]@[f],
                        rate,
                    ),
            decreases streams@.len() - s,
        {
            if stream_supports(&streams[s], rate) {
                found = true;
            }
            s += 1;
        }
        if found {
            rates.push(rate);
        }
        index += 1;
        assert(supported_from(streams@, 0) =~= rates@ + supported_from(streams@, index as int));
    }
    rates
}

/// What the player asks of a device.
#[derive(Debug, Clone, Copy, PartialEq, Eq, Structural)]
pub struct Request {
    pub pcm_rate: u32,
    pub channels: u16,
    pub carrier: Carrier,
    pub exclusive: bool,
    pub buffer_frames: Option<u32>,
    /// The rate is in no format list, but a probe has shown that the device takes it.
    pub allow_unadvertised_rate: bool,
}

/// One place comes before another, stream by stream and format by format.
pub open spec fn earlier(a: (int, int), b: (int, int)) -> bool {
    a.0 < b.0 || (a.0 == b.0 && a.1 < b.1)
}

/// The format at `best` suits, none that suits is better, and none before it as good.
pub open spec fn is_choice(
    streams: Seq<Vec<RangedFormat>>,
    rate: u32,
    unadvertised: bool,
    channels: u16,
    best: (int, int),
) -> bool {
    &&& 0 <= best.0 < streams.len()
    &&& 0 <= best.1 < streams[best.0]@.len()
    &&& suits(streams[best.0]@[best.1], rate, unadvertised, channels)
    &&& forall|s: int, f: int|
        0 <= s < streams.len() && 0 <= f < streams[s]@.len() && suits(
            #[trigger] streams[s]@[f],
            rate,
            unadvertised,
            channels,
        ) ==> {
            &&& merit_of(streams[s]@[f], channels) <= merit_of(streams[best.0]@[best.1], channels)
            &&& earlier((s, f), best) ==> merit_of(streams[s]@[f], channels) < merit_of(
                streams[best.0]@[best.1],
                channels,
            )
        }
}

/// The stream and the format of it that carry a recording of `channels` channels at `rate`
/// best, or none where no format does. `unadvertised` says that the device has been seen to
/// take the rate although no format lists it.
pub fn choose_format(
    streams: &Vec<Vec<RangedFormat>>,
    rate: u32,
    unadvertised: bool,
    channels: u16,
) -> (out: Option<(usize, usize)>)
    ensures
        match out {
            Some((s, f)) => is_choice(streams@, rate, unadvertised, channels, (s as int, f as int)),
            None => forall|s: int, f: int|
                0 <= s < streams@.len() && 0 <= f < streams@[s]@.len() ==> !suits(
                    #[trigger] streams@[s]@[f],
                    rate,
                    unadvertised,
                    channels,
                ),
        },
{
    let mut best: Option<(usize, usize)> = None;
    let mut most: i32 = 0;
    let mut s: usize = 0;
    while s < streams.len()
        invariant
            s <= streams@.len(),
            chosen_before(streams@, rate, unadvertised, channels, best, most, (s as int, 0)),
        decreases streams@.len() - s,
    {
        let formats: &Vec<RangedFormat> = &streams[s];
        let mut f: usize = 0;
        while f < formats.len()
            invariant
                s < streams@.len(),
                *formats == streams@[s as int],
                f <= formats@.len(),
                chosen_before(streams@, rate, unadvertised, channels, best, most, (s as int, f as int)),
            decreases formats@.len() - f,
        {
            let ranged: RangedFormat = formats[f];
            assert(ranged == streams@[s as int]@[f as int]);
            if (unadvertised || carries_rate(&ranged, rate)) && ranged.format.channels >= channels as u32 {
                match Encoding::from_format(&ranged.format) {
                    Ok(encoding) => {
                        let candidate: i32 = score(&ranged.format, encoding, channels as u32);
                        let better: bool = match best {
                            Some(_) => candidate > most,
                            None => true,
                        };
                        if better {
                            best = Some((s, f));
                            most = candidate;
                        }
                    },
                    Err(_) => {},
                }
            }
            f += 1;
        }
        s += 1;
    }
    best
}

/// What a chosen format is chosen for, on what the formats say of themselves: no format that
/// suits has integer samples where the chosen one has floats; of two that agree in that none is
/// a 24-bit one where the chosen one is not; of two that agree so far none has exactly the
/// recording's channels where the chosen one has not; of two that agree in all of that none keeps
/// the mixer out where the chosen one does not; and of those that agree in everything the chosen
/// one is the first.
pub proof fn a_chosen_format_is_the_best_on_offer(
    streams: Seq<Vec<RangedFormat>>,
    rate: u32,
    unadvertised: bool,
    channels: u16,
    best: (int, int),
    s: int,
    f: int,
)
    requires
        is_choice(streams, rate, unadvertised, channels, best),
        0 <= s < streams.len(),
        0 <= f < streams[s]@.len(),
        suits(streams[s]@[f], rate, unadvertised, channels),
    ensures
        ({
            let chosen = streams[best.0]@[best.1].format;
            let other = streams[s]@[f].format;
            let integers = (chosen.flags % 2 == 0, other.flags % 2 == 0);
            let packed = (chosen.bits == 24, other.bits == 24);
            let exact = (chosen.channels == channels, other.channels == channels);
            let unmixed = (chosen.flags / 64 % 2 == 1, other.flags / 64 % 2 == 1);
            &&& integers.1 ==> integers.0
            &&& integers.0 == integers.1 ==> (packed.1 ==> packed.0)
            &&& integers.0 == integers.1 && packed.0 == packed.1 ==> (exact.1 ==> exact.0)
            &&& integers.0 == integers.1 && packed.0 == packed.1 && exact.0 == exact.1 ==> (
            unmixed.1 ==> unmixed.0)
            &&& integers.0 == integers.1 && packed.0 == packed.1 && exact.0 == exact.1 && unmixed.0
                == unmixed.1 ==> best.0 < s || (best.0 == s && best.1 <= f)
        }),
{
}

/// Which formats suit, on what they say of themselves: linear PCM of enough channels at the rate,
/// of floats in four bytes with the lowest first, or of signed integers of 24 bits in three bytes
/// or four or of 32 bits in four. A device known to take a rate that no format lists is not held
/// to the lists.
pub proof fn a_format_that_suits_holds_every_word(
    ranged: RangedFormat,
    rate: u32,
    unadvertised: bool,
    channels: u16,
)
    requires
        1 <= channels,
    ensures
        suits(ranged, rate, unadvertised, channels) == ({
            let format = ranged.format;
            let bytes = format.bytes_per_frame / format.channels;
            let float = format.flags % 2 == 1;
            let signed = format.flags / 4 % 2 == 1;
            &&& format.format_id == 0x6c70636d
            &&& format.channels >= channels
            &&& unadvertised || ranged.rate == Some(rate) || (ranged.rate == Some(0u32)
                && ranged.lowest <= rate && rate <= ranged.highest)
            &&& if float {
                format.flags / 2 % 2 == 0 && format.bits == 32 && bytes == 4
            } else {
                signed && ((format.bits == 24 && (bytes == 3 || bytes == 4)) || (format.bits == 32
                    && bytes == 4))
            }
        }),
{
}

/// The DoP rates of a device are those of DSD64, DSD128, DSD256 and DSD512 that one of its
/// formats carries, each once, from the lowest up. DoP frames hold sixteen DSD bits, so they
/// come at a sixteenth of the DSD rate.
pub proof fn dop_rates_are_the_dsd_rates_on_offer(streams: Seq<Vec<RangedFormat>>)
    ensures
        forall|rate: u32| #[trigger]
            supported_from(streams, 0).contains(rate) <==> supports(streams, rate) && (rate * 16
                == 64 * 44_100 || rate * 16 == 128 * 44_100 || rate * 16 == 256 * 44_100 || rate
                * 16 == 512 * 44_100),
        forall|i: int, j: int|
            0 <= i < j < supported_from(streams, 0).len() ==> supported_from(streams, 0)[i]
                < supported_from(streams, 0)[j],
{
    lemma_supported(streams, 0);
    assert forall|rate: u32| #[trigger]
        supported_from(streams, 0).contains(rate) <==> supports(streams, rate) && (rate * 16 == 64
            * 44_100 || rate * 16 == 128 * 44_100 || rate * 16 == 256 * 44_100 || rate * 16 == 512
            * 44_100) by {
        assert(DOP_PCM_RATES[0] == 176_400 && DOP_PCM_RATES[1] == 352_800 && DOP_PCM_RATES[2]
            == 705_600 && DOP_PCM_RATES[3] == 1_411_200);
        if supports(streams, rate) {
            if rate * 16 == 64 * 44_100 {
                assert(rate == DOP_PCM_RATES[0]);
            }
            if rate * 16 == 128 * 44_100 {
                assert(rate == DOP_PCM_RATES[1]);
            }
            if rate * 16 == 256 * 44_100 {
                assert(rate == DOP_PCM_RATES[2]);
            }
            if rate * 16 == 512 * 44_100 {
                assert(rate == DOP_PCM_RATES[3]);
            }
        }
    }
}

proof fn lemma_supported(streams: Seq<Vec<RangedFormat>>, index: int)
    requires
        0 <= index <= 4,
    ensures
        forall|rate: u32| #[trigger]
            supported_from(streams, index).contains(rate) <==> exists|k: int|
                index <= k < 4 && #[trigger] DOP_PCM_RATES[k] == rate && supports(streams, rate),
        forall|i: int, j: int|
            0 <= i < j < supported_from(streams, index).len() ==> supported_from(
                streams,
                index,
            )[i] < supported_from(streams, index)[j],
    decreases 4 - index,
{
    let all = supported_from(streams, index);
    if index < 4 {
        lemma_supported(streams, index + 1);
        let later = supported_from(streams, index + 1);
        let own = DOP_PCM_RATES[index];
        assert(DOP_PCM_RATES[0] == 176_400 && DOP_PCM_RATES[1] == 352_800 && DOP_PCM_RATES[2]
            == 705_600 && DOP_PCM_RATES[3] == 1_411_200);
        assert forall|i: int| 0 <= i < later.len() implies own < #[trigger] later[i] by {
            assert(later.contains(later[i]));
        }
        assert forall|rate: u32| #[trigger] all.contains(rate) <==> exists|k: int|
            index <= k < 4 && #[trigger] DOP_PCM_RATES[k] == rate && supports(streams, rate) by {
            if supports(streams, own) {
                assert(all[0] == own);
                assert forall|i: int| 0 <= i < later.len() implies all[i + 1] == #[trigger] later[i] by {}
            }
            if all.contains(rate) {
                let i = all.index_of(rate);
                if supports(streams, own) {
                    if i == 0 {
                        assert(DOP_PCM_RATES[index] == rate);
                    } else {
                        assert(later[i - 1] == rate);
                        assert(later.contains(rate));
                    }
                }
            }
            if exists|k: int|
                index <= k < 4 && #[trigger] DOP_PCM_RATES[k] == rate && supports(streams, rate) {
                let k = choose|k: int|
                    index <= k < 4 && #[trigger] DOP_PCM_RATES[k] == rate && supports(streams, rate);
                if k != index {
                    assert(DOP_PCM_RATES[k] == rate);
                    assert(later.contains(rate));
                    let i = later.index_of(rate);
                    if supports(streams, own) {
                        assert(all[i + 1] == rate);
                    }
                }
            }
        }
    }
}

/// Why a device has no format for a recording.
pub fn no_format_text(rate: u32, channels: u16) -> (line: String)
    ensures
        line@ == "device has no "@ + text::decimal(rate as nat) + " Hz, "@ + text::decimal(
            channels as nat,
        ) + " channel, 24 bit or better output format"@,
{
    let mut line: String = text::with_number("device has no ", rate as u64);
    line.append(" Hz, ");
    line.append(text::decimal_of(channels as u64).as_str());
    line.append(" channel, 24 bit or better output format");
    line
}

/// What has been chosen of the formats before a place.
spec fn chosen_before(
    streams: Seq<Vec<RangedFormat>>,
    rate: u32,
    unadvertised: bool,
    channels: u16,
    best: Option<(usize, usize)>,
    most: i32,
    place: (int, int),
) -> bool {
    match best {
        Some((bs, bf)) => {
            let chosen = streams[bs as int]@[bf as int];
            &&& bs < streams.len()
            &&& bf < streams[bs as int]@.len()
            &&& earlier((bs as int, bf as int), place)
            &&& suits(chosen, rate, unadvertised, channels)
            &&& most == merit_of(chosen, channels)
            &&& forall|s: int, f: int|
                0 <= s < streams.len() && 0 <= f < streams[s]@.len() && earlier((s, f), place)
                    && suits(#[trigger] streams[s]@[f], rate, unadvertised, channels) ==> {
                    &&& merit_of(streams[s]@[f], channels) <= most
                    &&& earlier((s, f), (bs as int, bf as int)) ==> merit_of(
                        streams[s]@[f],
                        channels,
                    ) < most
                }
        },
        None => forall|s: int, f: int|
            0 <= s < streams.len() && 0 <= f < streams[s]@.len() && earlier((s, f), place)
                ==> !suits(#[trigger] streams[s]@[f], rate, unadvertised, channels),
    }
}

/// In exclusive mode, ask for integer buffers where the device's own samples are integers and
/// the buffers are not, so no float conversion sits in the path.
pub fn wants_integer(physical: &StreamFormat, current: &StreamFormat, exclusive: bool) -> (yes: bool)
    ensures
        yes == (exclusive && (Encoding::of_format(*physical) matches Ok(own) && own is Signed) && !(
        Encoding::of_format(*current) matches Ok(given) && given is Signed)),
{
    exclusive && is_integer_format(physical) && !is_integer_format(current)
}

fn is_integer_format(format: &StreamFormat) -> (yes: bool)
    ensures
        yes == (Encoding::of_format(*format) matches Ok(encoding) && encoding is Signed),
{
    match Encoding::from_format(format) {
        Ok(encoding) => encoding.is_integer(),
        Err(_) => false,
    }
}

/// As many frames are ready as are queued whole, up to what the buffer takes: one more would not be
/// whole or would not fit. While the queue is held, none is.
pub proof fn whole_frames_are_as_many_as_fit(queued: int, channels: int, frames: int)
    requires
        0 <= queued,
        1 <= channels,
        0 <= frames,
    ensures
        ({
            let ready = whole_frames(false, queued, channels, frames);
            &&& 0 <= ready <= frames
            &&& ready * channels <= queued
            &&& ready == frames || queued < (ready + 1) * channels
        }),
        whole_frames(true, queued, channels, frames) == 0,
{
    let most = queued / channels;
    vstd::arithmetic::div_mod::lemma_fundamental_div_mod(queued, channels);
    let over = queued % channels;
    assert(0 <= most) by (nonlinear_arith)
        requires
            0 <= queued,
            1 <= channels,
            most == queued / channels,
    ;
    assert(most * channels <= queued < (most + 1) * channels) by (nonlinear_arith)
        requires
            queued == channels * most + over,
            0 <= over < channels,
    ;
    if frames <= most {
        assert(frames * channels <= most * channels) by (nonlinear_arith)
            requires
                frames <= most,
                1 <= channels,
        ;
    }
}

/// Queued samples go to the channels of the frames one after the other, as many to a frame as the
/// recording and the device both have; further channels of the device get none.
pub proof fn samples_go_to_channels_one_after_the_other(
    samples: Seq<i32>,
    channels: int,
    stream_channels: int,
    number: int,
)
    requires
        1 <= channels,
        1 <= stream_channels,
        0 <= number < samples.len(),
    ensures
        ({
            let both = if channels <= stream_channels {
                channels
            } else {
                stream_channels
            };
            sample_for(samples, channels, stream_channels, number / both, number % both) == Some(
                samples[number],
            )
        }),
        forall|frame: int, channel: int|
            channels <= channel ==> #[trigger] sample_for(
                samples,
                channels,
                stream_channels,
                frame,
                channel,
            ) is None,
{
    let both = if channels <= stream_channels {
        channels
    } else {
        stream_channels
    };
    vstd::arithmetic::div_mod::lemma_fundamental_div_mod(number, both);
    assert(number / both * both == both * (number / both)) by (nonlinear_arith);
}

/// Where there is no sample, PCM is zero; and one that there is goes out as it is.
pub proof fn pcm_without_a_sample_is_zero(marker: u8, sample: i32)
    ensures
        frame_word(Carrier::Pcm, marker, None) == 0,
        frame_word(Carrier::Pcm, marker, Some(sample)) == sample,
{
}

/// A format of its own rate carries that rate and no other; one whose rate is zero carries every
/// rate from its lowest to its highest; and one whose rate is no whole number carries none.
pub proof fn a_format_carries_its_own_rate_or_its_range(ranged: RangedFormat, rate: u32)
    requires
        rate > 0,
    ensures
        ranged.rate matches Some(own) && own > 0 ==> ranged.carries(rate) == (rate
            == ranged.rate->0),
        ranged.rate == Some(0u32) ==> ranged.carries(rate) == (ranged.lowest <= rate
            <= ranged.highest),
        ranged.rate is None ==> !ranged.carries(rate),
{
}

} // verus!
