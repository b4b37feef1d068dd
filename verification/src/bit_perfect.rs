//! What the whole path from a container to a device's buffer keeps: every bit.

use crate::audio;
use crate::audio::PcmFormat;
use crate::dop;
use crate::dop::Marker;
use crate::native;
use crate::output::encoding;
use crate::output::encoding::{Carrier, Encoding, EncodingError, StreamFormat};
use crate::output::queue;
use crate::output::stream;
use crate::output::usb;
use crate::output::usb::session;
use crate::reader::source;
use crate::rows;
use vstd::prelude::*;

verus! {

/// The word that a device reads from one channel of one frame of its buffer. A float32 sample
/// is read as its value times 2^23.
pub open spec fn word_at(
    buffer: Seq<u8>,
    layout: Encoding,
    stream_channels: int,
    frame: int,
    channel: int,
) -> int {
    let slot = frame * stream_channels + channel;
    let bytes = buffer.subrange(slot * layout.width(), (slot + 1) * layout.width());
    match layout {
        Encoding::Signed { shift, big_endian, .. } => encoding::decoded(bytes, shift, big_endian),
        Encoding::Float32 => encoding::float_decoded(bytes),
    }
}

proof fn lemma_word_at(
    format: StreamFormat,
    layout: Encoding,
    words: Seq<i32>,
    stream_channels: int,
    frames: int,
    frame: int,
    channel: int,
)
    requires
        Encoding::of_format(format) == Ok::<Encoding, EncodingError>(layout),
        layout.wf(),
        words.len() == frames * stream_channels,
        0 <= frame < frames,
        0 <= channel < stream_channels,
        -0x80_0000 <= words[frame * stream_channels + channel] < 0x80_0000,
    ensures
        word_at(stream::laid_out(layout, words), layout, stream_channels, frame, channel)
            == words[frame * stream_channels + channel],
{
    let slot = frame * stream_channels + channel;
    rows::lemma_slot(frame, channel, stream_channels);
    rows::lemma_row_fits(frame, frames, stream_channels);
    stream::every_word_has_its_own_bytes(layout, words, slot);
    encoding::integer_samples_are_exact(format, words[slot]);
    encoding::float_samples_read_back(words[slot]);
}

/// Every DSD byte that is read from a container reaches the device's buffer as it is stored:
/// the two bytes of a channel that a frame carries stand, in the order they play and under the
/// frame's marker, where the device looks for that channel of that frame. Where the last frame
/// has one byte to carry, DSD silence fills it up.
#[verifier::rlimit(50)]
pub proof fn dsd_reaches_the_device_bit_for_bit(
    format: StreamFormat,
    layout: Encoding,
    marker: Marker,
    audio: Seq<Seq<u8>>,
    count: int,
    stream_channels: int,
    frames: int,
    frame: int,
    channel: int,
)
    requires
        Encoding::of_format(format) == Ok::<Encoding, EncodingError>(layout),
        layout.wf(),
        1 <= audio.len() <= stream_channels,
        0 <= channel < audio.len(),
        0 < count <= audio[channel].len(),
        0 <= frame < frames,
        frame * 2 < count,
    ensures
        ({
            let queued = source::payloads(audio, count);
            let words = stream::frame_words(
                Carrier::Dop,
                marker,
                queued,
                audio.len() as int,
                stream_channels,
                frames,
            );
            let word = word_at(
                stream::laid_out(layout, words),
                layout,
                stream_channels,
                frame,
                channel,
            );
            &&& word % 0x100_0000 / 0x1_0000 == marker.after(frame).upcoming()
            &&& word % 0x1_0000 / 256 == audio[channel][frame * 2]
            &&& word % 256 == dop::byte_or_silence(
                audio[channel].subrange(0, count),
                frame * 2 + 1,
            )
        }),
{
    let channels = audio.len() as int;
    let queued = source::payloads(audio, count);
    let words = stream::frame_words(
        Carrier::Dop,
        marker,
        queued,
        channels,
        stream_channels,
        frames,
    );
    let carried = dop::frames_for(count);
    let sample = frame * channels + channel;
    let slot = frame * stream_channels + channel;
    rows::lemma_slot(frame, channel, channels);
    rows::lemma_row_fits(frame, carried, channels);
    rows::lemma_slot(frame, channel, stream_channels);
    rows::lemma_row_fits(frame, frames, stream_channels);
    let payload = dop::payload_at(audio[channel].subrange(0, count), frame);
    assert(queued[sample] == payload as i32);
    let mark = marker.after(frame).upcoming();
    dop::split_undoes_word(mark, payload);
    assert(words[slot] == dop::word_of(mark, payload));
    lemma_word_at(format, layout, words, stream_channels, frames, frame, channel);
    let word = dop::word_of(mark, payload);
    assert(word % 256 == word % 0x1_0000 % 256);
}

/// Every DSD byte that is read from a container reaches a DAC that plays native DSD as it is
/// stored, with nothing around it: the four bytes of a channel that a frame carries stand, in
/// the order they play, where the DAC looks for that channel of that frame, in whichever
/// microframe they are sent. Where the last frame is not filled, DSD silence fills it up.
pub proof fn native_dsd_reaches_the_dac_bit_for_bit(
    before: &usb::stream::Engine,
    after: &usb::stream::Engine,
    sent: Seq<u8>,
    ready: int,
    audio: Seq<Seq<u8>>,
    count: int,
    frame: int,
    channel: int,
    byte: int,
)
    requires
        before.sends(after, sent, ready),
        1 <= audio.len(),
        0 <= channel < audio.len(),
        0 < count <= audio[channel].len(),
        0 <= frame,
        0 <= byte < 4,
        frame * 4 < count,
        session::subslots(audio, count).is_prefix_of(queue::bytes_to_come(before.consumer)),
        (frame * audio.len() + channel) * 4 + byte < ready,
    ensures
        sent[(frame * audio.len() + channel) * 4 + byte] == dop::byte_or_silence(
            audio[channel].subrange(0, count),
            frame * 4 + byte,
        ),
{
    let channels = audio.len() as int;
    let slot = frame * channels + channel;
    let at = slot * 4 + byte;
    let packed = session::subslots(audio, count);
    let frames = native::frames_for(count);
    rows::lemma_slot(frame, channel, channels);
    rows::lemma_row_fits(frame, frames, channels);
    assert(at / 4 == slot && at % 4 == byte);
    assert(frames * channels * 4 == (frames * channels) * 4);
    assert(packed[at] == queue::bytes_to_come(before.consumer)[at]);
}

/// Every PCM sample that a file stores reaches the device's buffer as the code it is, times the
/// power of two that left-justifies it, where the device looks for that channel of that frame.
pub proof fn pcm_reaches_the_device_bit_for_bit(
    format: StreamFormat,
    layout: Encoding,
    marker: Marker,
    recording: PcmFormat,
    samples: Seq<i32>,
    stream_channels: int,
    frames: int,
    frame: int,
    channel: int,
)
    requires
        Encoding::of_format(format) == Ok::<Encoding, EncodingError>(layout),
        layout.wf(),
        1 <= recording.bits <= 24,
        1 <= recording.channels <= stream_channels,
        0 <= channel < recording.channels,
        0 <= frame < frames,
        frame * recording.channels + channel < samples.len(),
        audio::is_code(
            samples[frame * recording.channels + channel] as int,
            recording.bits,
        ),
    ensures
        ({
            let queued = samples.map_values(|sample: i32| recording.carrier_word(sample));
            let words = stream::frame_words(
                Carrier::Pcm,
                marker,
                queued,
                recording.channels as int,
                stream_channels,
                frames,
            );
            word_at(stream::laid_out(layout, words), layout, stream_channels, frame, channel)
                == samples[frame * recording.channels + channel] * recording.carrier_step()
        }),
{
    let channels = recording.channels as int;
    let queued = samples.map_values(|sample: i32| recording.carrier_word(sample));
    let words = stream::frame_words(
        Carrier::Pcm,
        marker,
        queued,
        channels,
        stream_channels,
        frames,
    );
    let index = frame * channels + channel;
    rows::lemma_slot(frame, channel, channels);
    rows::lemma_slot(frame, channel, stream_channels);
    rows::lemma_row_fits(frame, frames, stream_channels);
    audio::widening_is_exact(recording, samples[index]);
    vstd::arithmetic::power2::lemma2_to64();
    assert(words[frame * stream_channels + channel] == queued[index]);
    lemma_word_at(format, layout, words, stream_channels, frames, frame, channel);
}

} // verus!
