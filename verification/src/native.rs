//! Native DSD: raw bits handed to the DAC, 32 to a channel in every USB frame.

use crate::dop;
use crate::dsd::DSD_SILENCE_BYTE;
use crate::rows;
use vstd::prelude::*;

verus! {

/// Native DSD hands the DAC raw bits: 32 per channel per USB frame, no carrier and no
/// markers. The 32-bit container is the same one the 32-bit PCM alternate setting uses; the
/// DAC tells PCM from DSD by the alternate setting, not by anything in the data.
pub const BYTES_PER_SUBSLOT: usize = 4;

/// Bytes one USB frame carries for `channels` channels.
pub fn frame_bytes(channels: usize) -> (bytes: usize)
    requires
        channels * BYTES_PER_SUBSLOT <= usize::MAX,
    ensures
        bytes == channels * BYTES_PER_SUBSLOT,
{
    channels * BYTES_PER_SUBSLOT
}

/// Frames that `bytes` DSD bytes per channel fill, four to a frame, the last one padded.
pub open spec fn frames_for(bytes: int) -> int {
    (bytes + 3) / 4
}

/// Frames that a set of planes fills; the first plane decides.
pub open spec fn plane_frames(planes: Seq<&[u8]>) -> int {
    if planes.len() == 0 {
        0
    } else {
        frames_for(planes[0]@.len() as int)
    }
}

/// Planes interleaved into subslots: frame by frame, then channel by channel, then four bytes
/// in the order they play.
pub open spec fn packed(planes: Seq<&[u8]>) -> Seq<u8> {
    let channels = planes.len() as int;
    Seq::new(
        (plane_frames(planes) * channels * 4) as nat,
        |at: int|
            dop::byte_or_silence(
                planes[at / 4 % channels]@,
                at / 4 / channels * 4 + at % 4,
            ),
    )
}

/// The place of byte `byte` of the subslot that channel `channel` has in frame `frame`.
proof fn lemma_subslot(frame: int, channel: int, byte: int, frames: int, channels: int)
    requires
        0 <= frame < frames,
        0 <= channel < channels,
        0 <= byte < 4,
    ensures
        ({
            let at = (frame * channels + channel) * 4 + byte;
            &&& 0 <= at < frames * channels * 4
            &&& at / 4 % channels == channel
            &&& at / 4 / channels == frame
            &&& at % 4 == byte
        }),
{
    rows::lemma_slot(frame, channel, channels);
    rows::lemma_row_fits(frame, frames, channels);
}

/// Interleave planar MSB-first DSD into native subslots: four DSD bytes per channel per
/// frame, earliest byte first, which is the order ALSA calls `DSD_U32_BE`. A plane that does
/// not divide evenly pads its final frame with DSD silence rather than zero, so a short read
/// never drops the DAC out of lock.
pub fn pack_planes(planes: &[&[u8]], out: &mut Vec<u8>) -> (frames: usize)
    ensures
        frames == plane_frames(planes@),
        final(out)@ == old(out)@ + packed(planes@),
{
    let ghost before = out@;
    let channels: usize = planes.len();
    if channels == 0 {
        assert(packed(planes@) =~= Seq::empty());
        assert(out@ =~= before + packed(planes@));
        return 0;
    }
    let bytes: usize = planes[0].len();
    let frames: usize = if bytes % 4 == 0 {
        bytes / 4
    } else {
        bytes / 4 + 1
    };
    assert(out@ =~= before + packed(planes@).subrange(0, 0));
    let mut frame: usize = 0;
    while frame < frames
        invariant
            0 < channels == planes@.len(),
            bytes == planes@[0]@.len(),
            frame <= frames == plane_frames(planes@),
            0 <= frame * channels * 4 <= packed(planes@).len(),
            packed(planes@).len() == frames * channels * 4,
            out@ == before + packed(planes@).subrange(0, frame * channels * 4),
        decreases frames - frame,
    {
        proof {
            rows::lemma_row_fits(frame as int, frames as int, channels as int);
        }
        let mut channel: usize = 0;
        while channel < channels
            invariant
                channel <= channels == planes@.len(),
                bytes == planes@[0]@.len(),
                frame < frames == plane_frames(planes@),
                0 <= frame * channels,
                frame * channels + channels <= frames * channels,
                packed(planes@).len() == frames * channels * 4,
                out@ == before + packed(planes@).subrange(0, (frame * channels + channel) * 4),
            decreases channels - channel,
        {
            let plane: &[u8] = planes[channel];
            let mut byte: usize = 0;
            while byte < 4
                invariant
                    byte <= 4,
                    channel < channels == planes@.len(),
                    bytes == planes@[0]@.len(),
                    plane@ == planes@[channel as int]@,
                    frame < frames == plane_frames(planes@),
                    0 <= frame * channels,
                    frame * channels + channels <= frames * channels,
                    packed(planes@).len() == frames * channels * 4,
                    out@ == before + packed(planes@).subrange(
                        0,
                        (frame * channels + channel) * 4 + byte,
                    ),
                decreases 4 - byte,
            {
                let start: usize = frame * 4;
                let value: u8 = if start < plane.len() && byte < plane.len() - start {
                    plane[start + byte]
                } else {
                    DSD_SILENCE_BYTE
                };
                out.push(value);
                proof {
                    lemma_subslot(
                        frame as int,
                        channel as int,
                        byte as int,
                        frames as int,
                        channels as int,
                    );
                    let at = (frame * channels + channel) * 4 + byte;
                    assert(packed(planes@).subrange(0, at + 1) =~= packed(planes@).subrange(
                        0,
                        at,
                    ).push(value));
                }
                byte += 1;
            }
            channel += 1;
        }
        frame += 1;
        assert(frame * channels == (frame - 1) * channels + channels) by (nonlinear_arith);
    }
    assert(packed(planes@).subrange(0, frames * channels * 4) =~= packed(planes@));
    frames
}

/// The DSD bytes that channel `channel` of `channels` carries in a run of subslots.
pub open spec fn unpacked(subslots: Seq<u8>, channels: int, channel: int) -> Seq<u8> {
    Seq::new(
        (subslots.len() as int / (channels * 4) * 4) as nat,
        |index: int| subslots[(index / 4 * channels + channel) * 4 + index % 4],
    )
}

/// Every DSD byte of every channel survives: what a channel carries is the plane that went
/// in, filled up to whole frames with silence.
pub proof fn packing_keeps_every_byte(planes: Seq<&[u8]>, channel: int)
    requires
        0 <= channel < planes.len(),
        planes[channel]@.len() == planes[0]@.len(),
    ensures
        ({
            let plane = planes[channel]@;
            let out = unpacked(packed(planes), planes.len() as int, channel);
            &&& out.len() == frames_for(plane.len() as int) * 4
            &&& out.subrange(0, plane.len() as int) == plane
            &&& forall|i: int| plane.len() <= i < out.len() ==> out[i] == DSD_SILENCE_BYTE
        }),
{
    let channels = planes.len() as int;
    let frames = plane_frames(planes);
    let plane = planes[channel]@;
    let out = unpacked(packed(planes), channels, channel);
    rows::lemma_slot(frames, 0, channels * 4);
    assert(frames * channels * 4 == frames * (channels * 4)) by (nonlinear_arith);
    assert(packed(planes).len() as int / (channels * 4) == frames);
    assert forall|i: int| 0 <= i < frames * 4 implies out[i] == dop::byte_or_silence(
        plane,
        i,
    ) by {
        lemma_subslot(i / 4, channel, i % 4, frames, channels);
    }
    assert(out.subrange(0, plane.len() as int) =~= plane);
}

/// A frame holds four bytes of a channel, and the last may hold fewer: no more frames are filled
/// than it takes.
pub proof fn four_bytes_fill_a_frame(frames: int, more: int)
    requires
        0 <= frames,
        1 <= more <= 4,
    ensures
        frames_for(4 * frames) == frames,
        frames_for(4 * frames + more) == frames + 1,
{
}

} // verus!
