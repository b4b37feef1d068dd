//! DSD over PCM: sixteen DSD bits under an eight-bit marker, in every 24-bit frame.

use crate::dsd::DSD_SILENCE_BYTE;
use crate::rows;
use vstd::prelude::*;

verus! {

/// DoP 1.1 marker bytes, alternating in the most significant byte of each frame.
pub const MARKER_A: u8 = 0x05;

pub const MARKER_B: u8 = 0xFA;

/// Payload of a DoP frame carrying DSD silence.
pub const SILENCE_PAYLOAD: u16 = 0x6969;

/// Alternating marker generator. A DAC detects DoP by the 0x05/0xFA alternation,
/// so the sequence must never repeat a byte, including across underruns.
#[derive(Debug, Clone, Copy, PartialEq, Eq, Structural)]
pub struct Marker {
    pub high: bool,
}

/// The marker that follows `marker` in the alternation.
pub open spec fn other_marker(marker: u8) -> u8 {
    if marker == MARKER_A {
        MARKER_B
    } else {
        MARKER_A
    }
}

impl Marker {
    /// The marker byte that comes out next.
    pub open spec fn upcoming(self) -> u8 {
        if self.high {
            MARKER_B
        } else {
            MARKER_A
        }
    }

    /// The generator after `frames` markers have come out of it.
    pub open spec fn after(self, frames: int) -> Marker {
        Marker { high: if frames % 2 == 0 { self.high } else { !self.high } }
    }

    pub fn new() -> (marker: Self)
        ensures
            marker.upcoming() == MARKER_A,
            !marker.high,
    {
        Marker { high: false }
    }

    pub fn next(&mut self) -> (byte: u8)
        ensures
            byte == old(self).upcoming(),
            *final(self) == old(self).after(1),
            final(self).upcoming() == other_marker(byte),
    {
        self.high = !self.high;
        if self.high {
            MARKER_A
        } else {
            MARKER_B
        }
    }
}

/// However many frames have gone by, the next marker differs from the one before it.
pub proof fn markers_alternate(start: Marker, frames: int)
    requires
        0 <= frames,
    ensures
        start.after(frames + 1).upcoming() == other_marker(start.after(frames).upcoming()),
        start.after(frames + 1).upcoming() != start.after(frames).upcoming(),
        start.after(frames).after(1) == start.after(frames + 1),
{
}

impl Default for Marker {
    fn default() -> (marker: Self)
        ensures
            marker.upcoming() == MARKER_A,
    {
        Marker::new()
    }
}

/// A 24-bit code read as two's complement.
pub open spec fn sign_extended(code: int) -> int {
    if code < 0x80_0000 {
        code
    } else {
        code - 0x100_0000
    }
}

/// The DoP frame word: the marker above the payload, 24 bits in two's complement.
pub open spec fn word_of(marker: u8, payload: u16) -> int {
    sign_extended(marker * 0x1_0000 + payload)
}

/// Build the 24-bit DoP frame word, sign-extended into an i32.
pub fn word(marker: u8, payload: u16) -> (out: i32)
    ensures
        out == word_of(marker, payload),
{
    let raw: i32 = marker as i32 * 0x1_0000 + payload as i32;
    if raw < 0x80_0000 {
        raw
    } else {
        raw - 0x100_0000
    }
}

/// Recover the marker and DSD payload from a DoP frame word.
pub fn split_word(word: i32) -> (parts: (u8, u16))
    ensures
        parts.0 == word as int % 0x100_0000 / 0x1_0000,
        parts.1 == word as int % 0x1_0000,
{
    let wide: i64 = word as i64 + 0x1_0000_0000;
    let raw: i64 = wide % 0x100_0000;
    ((raw / 0x1_0000) as u8, (raw % 0x1_0000) as u16)
}

/// Splitting a frame word gives back what it was built from.
pub proof fn split_undoes_word(marker: u8, payload: u16)
    ensures
        word_of(marker, payload) % 0x100_0000 / 0x1_0000 == marker,
        word_of(marker, payload) % 0x1_0000 == payload,
        -0x80_0000 <= word_of(marker, payload) < 0x80_0000,
{
}

/// A plane's byte at `index`, or DSD silence past its end.
pub open spec fn byte_or_silence(plane: Seq<u8>, index: int) -> u8 {
    if 0 <= index < plane.len() {
        plane[index]
    } else {
        DSD_SILENCE_BYTE
    }
}

/// Two DSD bytes as one payload, the earlier one in the high half.
pub open spec fn pair(high: u8, low: u8) -> u16 {
    (high * 256 + low) as u16
}

/// The payload `plane` has in frame `frame`.
pub open spec fn payload_at(plane: Seq<u8>, frame: int) -> u16 {
    pair(byte_or_silence(plane, frame * 2), byte_or_silence(plane, frame * 2 + 1))
}

/// Frames that `bytes` DSD bytes per channel fill, two to a frame.
pub open spec fn frames_for(bytes: int) -> int {
    bytes / 2 + bytes % 2
}

/// Frames that a set of planes fills; the first plane decides.
pub open spec fn plane_frames(planes: Seq<&[u8]>) -> int {
    if planes.len() == 0 {
        0
    } else {
        frames_for(planes[0]@.len() as int)
    }
}

/// Planes interleaved into payloads: frame by frame, and channel by channel within a frame.
pub open spec fn packed(planes: Seq<&[u8]>) -> Seq<u16> {
    let channels = planes.len() as int;
    Seq::new(
        (plane_frames(planes) * channels) as nat,
        |slot: int| payload_at(planes[slot % channels]@, slot / channels),
    )
}

fn byte_at(plane: &[u8], index: usize) -> (byte: u8)
    ensures
        byte == byte_or_silence(plane@, index as int),
{
    if index < plane.len() {
        plane[index]
    } else {
        DSD_SILENCE_BYTE
    }
}

/// Interleave planar MSB-first DSD into DoP payloads: two DSD bytes per frame per channel.
/// A plane of odd length pairs its final byte with DSD silence.
pub fn pack_planes(planes: &[&[u8]], out: &mut Vec<u16>) -> (frames: usize)
    ensures
        frames == plane_frames(planes@),
        final(out)@ == old(out)@ + packed(planes@),
{
    let ghost before = out@;
    let channels: usize = planes.len();
    if channels == 0 {
        assert(packed(planes@) =~= Seq::empty());
        assert(out@ =~= before + packed(planes@));
        return 0;
    }
    let bytes: usize = planes[0].len();
    let frames: usize = bytes / 2 + bytes % 2;
    let mut frame: usize = 0;
    assert(out@ =~= before + packed(planes@).subrange(0, 0));
    while frame < frames
        invariant
            0 < channels == planes@.len(),
            frame <= frames == plane_frames(planes@),
            out@ == before + packed(planes@).subrange(0, frame * channels),
            0 <= frame * channels <= packed(planes@).len(),
            frames * 2 <= bytes + 1,
        decreases frames - frame,
    {
        proof {
            rows::lemma_row_fits(frame as int, frames as int, channels as int);
        }
        let mut channel: usize = 0;
        while channel < channels
            invariant
                channel <= channels == planes@.len(),
                frame < frames == plane_frames(planes@),
                frames * 2 <= bytes + 1,
                0 <= frame * channels,
                frame * channels + channels <= packed(planes@).len(),
                packed(planes@).len() == frames * channels,
                out@ == before + packed(planes@).subrange(0, frame * channels + channel),
            decreases channels - channel,
        {
            let plane: &[u8] = planes[channel];
            let high: u8 = byte_at(plane, frame * 2);
            let low: u8 = byte_at(plane, frame * 2 + 1);
            out.push(high as u16 * 256 + low as u16);
            proof {
                rows::lemma_slot(frame as int, channel as int, channels as int);
                assert(packed(planes@).subrange(0, frame * channels + channel + 1)
                    =~= packed(planes@).subrange(0, frame * channels + channel).push(
                    payload_at(plane@, frame as int),
                ));
            }
            channel += 1;
        }
        frame += 1;
        assert(frame * channels == (frame - 1) * channels + channels) by (nonlinear_arith);
        assert(frame * channels <= frames * channels) by (nonlinear_arith)
            requires
                frame <= frames,
                0 < channels,
        ;
    }
    assert(packed(planes@).subrange(0, frames * channels) =~= packed(planes@));
    frames
}

/// The DSD bytes that channel `channel` of `channels` carries in a run of payloads.
pub open spec fn unpacked(payloads: Seq<u16>, channels: int, channel: int) -> Seq<u8> {
    Seq::new(
        (payloads.len() as int / channels * 2) as nat,
        |index: int|
            {
                let payload = payloads[index / 2 * channels + channel];
                if index % 2 == 0 {
                    (payload / 256) as u8
                } else {
                    (payload % 256) as u8
                }
            },
    )
}

/// Every DSD byte of every channel survives the carrier: what comes out of a channel is the
/// plane that went in, followed by one byte of silence where its length is odd.
pub proof fn packing_keeps_every_byte(planes: Seq<&[u8]>, channel: int)
    requires
        0 <= channel < planes.len(),
        planes[channel]@.len() == planes[0]@.len(),
    ensures
        unpacked(packed(planes), planes.len() as int, channel) == (if planes[channel]@.len() % 2
            == 0 {
            planes[channel]@
        } else {
            planes[channel]@.push(DSD_SILENCE_BYTE)
        }),
{
    let channels = planes.len() as int;
    let frames = plane_frames(planes);
    let plane = planes[channel]@;
    let out = unpacked(packed(planes), channels, channel);
    rows::lemma_slot(frames, 0, channels);
    assert(packed(planes).len() as int / channels == frames);
    assert forall|index: int| 0 <= index < frames * 2 implies out[index] == byte_or_silence(
        plane,
        index,
    ) by {
        let frame = index / 2;
        rows::lemma_slot(frame, channel, channels);
        rows::lemma_row_fits(frame, frames, channels);
        let slot = frame * channels + channel;
        assert(packed(planes)[slot] == payload_at(plane, frame));
    }
    if plane.len() % 2 == 0 {
        assert(out =~= plane);
    } else {
        assert(out =~= plane.push(DSD_SILENCE_BYTE));
    }
}

/// The markers are 0x05 and 0xFA in turn, 0x05 first.
pub proof fn markers_are_05_and_fa_in_turn(pairs: int)
    requires
        0 <= pairs,
    ensures
        (Marker { high: false }).after(2 * pairs).upcoming() == 0x05,
        (Marker { high: false }).after(2 * pairs + 1).upcoming() == 0xFA,
{
}

/// A frame holds two bytes of a channel, and the last may hold one: no more frames are filled than
/// it takes.
pub proof fn two_bytes_fill_a_frame(frames: int)
    requires
        0 <= frames,
    ensures
        frames_for(2 * frames) == frames,
        frames_for(2 * frames + 1) == frames + 1,
{
}

/// Past its end a channel is silent, and silence has as many ones as zeros in it: 0x69.
pub proof fn past_its_end_a_channel_is_silent(plane: Seq<u8>, index: int)
    ensures
        0 <= index < plane.len() ==> byte_or_silence(plane, index) == plane[index],
        index >= plane.len() ==> byte_or_silence(plane, index) == 0x69,
{
}

} // verus!
