//! The isochronous engine that feeds native DSD to a held DAC: what each microframe carries,
//! and how many frames that is.
//!
//! Sizing comes from the DAC's own feedback endpoint, because an asynchronous endpoint runs on
//! the DAC's clock and not the host's -- open loop drifts.

use crate::bytes;
use crate::dsd::DSD_SILENCE_BYTE;
use crate::output::queue;
use crate::output::stream::PlaybackState;
use rtrb::Consumer;
use vstd::prelude::*;

verus! {

/// Microframes per transfer: 4 ms of audio.
pub const UFRAMES_PER_XFER: usize = 32;

/// Bus frames one transfer takes: high-speed USB divides each into 8 microframes.
pub const BUS_FRAMES_PER_XFER: u64 = 4;

/// Microframes per second.
pub const UFRAMES_PER_SECOND: u64 = 8_000;

/// Schedule the first transfer this many bus frames ahead of now.
pub const START_LEAD: u64 = 10;

/// Parts that a frame is counted in, so that both a rate in hertz and the 16.16 fixed point of
/// the feedback endpoint are whole numbers of parts per microframe.
pub const PARTS: u64 = 524_288_000;

/// IOKit's code for a transfer whose frame the bus had already passed.
pub const UNDERRUN: i32 = -536_870_169;

/// How many frames each microframe carries.
#[derive(Debug, Clone, Copy, PartialEq, Eq, Structural)]
pub struct Pacer {
    /// Parts of a frame per microframe that the nominal rate comes to.
    pub nominal: u64,
    /// Parts of a frame per microframe that the DAC is currently asking for.
    pub samples: u64,
    /// Fractional carry, so a rate that is not whole averages out exactly.
    pub carry: u64,
}

/// Frames that `microframes` microframes carry in all, from a carry on, at one rate.
pub open spec fn carried(carry: int, samples: int, microframes: int) -> int {
    (carry + microframes * samples) / PARTS as int
}

impl Pacer {
    pub open spec fn wf(self) -> bool {
        &&& self.carry < PARTS
        &&& self.samples <= 0x1_0000_0000_0000
        &&& self.nominal <= 0x1_0000_0000_0000
    }

    pub fn new(frame_rate: u32) -> (pacer: Self)
        ensures
            pacer.wf(),
            pacer.nominal == frame_rate * 65_536,
            pacer.samples == pacer.nominal,
            pacer.carry == 0,
    {
        let nominal: u64 = frame_rate as u64 * 65_536;
        Pacer { nominal, samples: nominal, carry: 0 }
    }

    /// Frames the next microframe carries.
    pub fn next(&mut self) -> (count: u64)
        requires
            old(self).wf(),
        ensures
            final(self).wf(),
            final(self).nominal == old(self).nominal,
            final(self).samples == old(self).samples,
            count == carried(old(self).carry as int, old(self).samples as int, 1),
            final(self).carry + count * PARTS == old(self).carry + old(self).samples,
            count <= 0x10_0000,
    {
        let sum: u64 = self.carry + self.samples;
        let count: u64 = sum / PARTS;
        self.carry = sum % PARTS;
        count
    }

    /// Take in what the feedback endpoint asks for: 16.16 samples per microframe. Feedback
    /// further than a twentieth from the nominal rate is a decoding error, not a real clock,
    /// and is ignored.
    pub open spec fn steered(self, raw: u32) -> Pacer {
        let asked = raw * 8_000;
        if self.nominal * 95 <= asked * 100 <= self.nominal * 105 {
            Pacer { samples: asked as u64, ..self }
        } else {
            self
        }
    }

    /// Take in what the feedback endpoint asks for, and report whether it was believed.
    pub fn feedback(&mut self, raw: u32) -> (taken: bool)
        requires
            old(self).wf(),
        ensures
            final(self).wf(),
            *final(self) == old(self).steered(raw),
            taken == (old(self).nominal * 95 <= raw * 8_000 * 100 <= old(self).nominal * 105),
    {
        let asked: u64 = raw as u64 * UFRAMES_PER_SECOND;
        if self.nominal * 95 <= asked * 100 && asked * 100 <= self.nominal * 105 {
            self.samples = asked;
            true
        } else {
            false
        }
    }

    /// Bytes each microframe of the next transfer carries.
    pub fn transfer(&mut self, frame_bytes: usize) -> (sizes: Vec<usize>)
        requires
            old(self).wf(),
            most_frames(old(self).samples as int) * frame_bytes <= usize::MAX,
        ensures
            final(self).wf(),
            final(self).nominal == old(self).nominal,
            final(self).samples == old(self).samples,
            final(self).carry == old(self).carry + UFRAMES_PER_XFER * old(self).samples - carried(
                old(self).carry as int,
                old(self).samples as int,
                UFRAMES_PER_XFER as int,
            ) * PARTS,
            sizes@.len() == UFRAMES_PER_XFER,
            forall|i: int|
                0 <= i < UFRAMES_PER_XFER ==> #[trigger] sizes@[i] == (carried(
                    old(self).carry as int,
                    old(self).samples as int,
                    i + 1,
                ) - carried(old(self).carry as int, old(self).samples as int, i)) * frame_bytes,
    {
        let ghost start = *self;
        let mut sizes: Vec<usize> = Vec::new();
        let mut index: usize = 0;
        proof {
            lemma_carried(start.carry as int, start.samples as int, 0);
        }
        while index < UFRAMES_PER_XFER
            invariant
                index <= UFRAMES_PER_XFER,
                self.wf(),
                start.wf(),
                self.nominal == start.nominal,
                self.samples == start.samples,
                most_frames(start.samples as int) * frame_bytes <= usize::MAX,
                sizes@.len() == index,
                self.carry == start.carry + index * start.samples - carried(
                    start.carry as int,
                    start.samples as int,
                    index as int,
                ) * PARTS,
                forall|i: int|
                    0 <= i < index ==> #[trigger] sizes@[i] == (carried(
                        start.carry as int,
                        start.samples as int,
                        i + 1,
                    ) - carried(start.carry as int, start.samples as int, i)) * frame_bytes,
            decreases UFRAMES_PER_XFER - index,
        {
            let ghost before = *self;
            let count: u64 = self.next();
            let ghost most = most_frames(start.samples as int);
            assert(0 <= count * frame_bytes <= most * frame_bytes) by (nonlinear_arith)
                requires
                    0 <= count <= most,
                    0 <= frame_bytes,
            ;
            proof {
                lemma_carried(start.carry as int, start.samples as int, index as int);
            }
            sizes.push(count as usize * frame_bytes);
            index += 1;
        }
        sizes
    }
}

/// The most frames that one microframe carries at a rate, whatever is carried over.
pub open spec fn most_frames(samples: int) -> int {
    (samples + PARTS - 1) / PARTS as int
}

/// One microframe more carries what the carry and the rate add up to, and leaves the rest.
proof fn lemma_carried(carry: int, samples: int, microframes: int)
    requires
        0 <= carry < PARTS,
        0 <= samples,
        0 <= microframes,
    ensures
        ({
            let so_far = carried(carry, samples, microframes);
            let left = carry + microframes * samples - so_far * PARTS;
            &&& 0 <= left < PARTS
            &&& carried(carry, samples, microframes + 1) == so_far + (left + samples)
                / PARTS as int
            &&& carry + (microframes + 1) * samples == carry + microframes * samples + samples
        }),
        carried(carry, samples, 0) == 0,
{
    let parts = PARTS as int;
    let sum = carry + microframes * samples;
    let so_far = sum / parts;
    let left = sum - so_far * parts;
    vstd::arithmetic::div_mod::lemma_fundamental_div_mod(sum, parts);
    assert((microframes + 1) * samples == microframes * samples + samples) by (nonlinear_arith);
    vstd::arithmetic::div_mod::lemma_hoist_over_denominator(
        left + samples,
        so_far,
        parts as nat,
    );
    assert(left + samples + so_far * parts == sum + samples);
    assert(0 * samples == 0) by (nonlinear_arith);
}

/// A rate that is not whole averages out exactly: over any number of microframes at one rate,
/// what has been sent is what the rate comes to, short by less than one frame.
pub proof fn pacing_averages_out(carry: int, samples: int, microframes: int)
    requires
        0 <= carry < PARTS,
        0 <= samples,
        0 <= microframes,
    ensures
        carried(carry, samples, microframes) * PARTS <= carry + microframes * samples,
        carry + microframes * samples < (carried(carry, samples, microframes) + 1) * PARTS,
{
    lemma_carried(carry, samples, microframes);
    let so_far = carried(carry, samples, microframes);
    assert((so_far + 1) * PARTS == so_far * PARTS + PARTS) by (nonlinear_arith);
}

/// The nominal rate comes to exactly its number of frames in a second.
pub proof fn a_second_carries_the_nominal_rate(frame_rate: u32)
    ensures
        carried(0, frame_rate * 65_536, 8_000) == frame_rate,
{
    assert(8_000 * (frame_rate * 65_536) == frame_rate * PARTS as int);
    vstd::arithmetic::div_mod::lemma_div_by_multiple(frame_rate as int, PARTS as int);
}

/// Whether an endpoint's packets have room for a rate: `frame_bytes` bytes to a frame, 8000
/// packets a second.
pub fn packets_hold(frame_rate: u32, frame_bytes: u32, max_packet: u16) -> (yes: bool)
    ensures
        yes == (frame_rate * frame_bytes <= max_packet * 8_000),
{
    assert(0 <= frame_rate * frame_bytes <= 0xffff_ffff * 0xffff_ffff) by (nonlinear_arith)
        requires
            0 <= frame_rate <= 0xffff_ffff,
            0 <= frame_bytes <= 0xffff_ffff,
    ;
    frame_rate as u64 * frame_bytes as u64 <= max_packet as u64 * UFRAMES_PER_SECOND
}

/// The feedback value in four bytes of a feedback buffer, if that many arrived.
pub fn feedback_value(buffer: &[u8], at: usize, arrived: u16) -> (raw: Option<u32>)
    requires
        at + 4 <= buffer@.len(),
    ensures
        raw == (if arrived < 4 {
            None
        } else {
            Some(bytes::le32(buffer@, at as int) as u32)
        }),
{
    if arrived < 4 {
        None
    } else {
        Some(bytes::read_le32(buffer, at))
    }
}

/// A transfer is late rather than broken when the bus has already passed its frame.
pub fn tolerable(result: i32) -> (yes: bool)
    ensures
        yes == (result == 0 || result == UNDERRUN),
{
    result == 0 || result == UNDERRUN
}

/// Re-anchor a chain whose next frame has already passed on the bus, or is about to.
pub fn resynced(next_frame: u64, now: u64) -> (frame: u64)
    requires
        now <= u64::MAX - START_LEAD,
    ensures
        frame == (if next_frame <= now + 2 {
            now + 5
        } else {
            next_frame as int
        }),
{
    if next_frame <= now + 2 {
        now + START_LEAD / 2
    } else {
        next_frame
    }
}

/// What to do when an output transfer has completed.
#[derive(Debug, Clone, Copy, PartialEq, Eq, Structural)]
pub enum Completion {
    /// The chain is broken.
    Stop,
    /// The chain is winding down.
    Rest,
    /// Refill the slot and submit it again.
    Submit,
}

/// What to do when an output transfer has completed with `result`.
pub fn on_complete(result: i32, running: bool, stopping: bool) -> (what: Completion)
    ensures
        what == (if result != 0 && result != UNDERRUN {
            Completion::Stop
        } else if running && !stopping {
            Completion::Submit
        } else {
            Completion::Rest
        }),
{
    if !tolerable(result) {
        Completion::Stop
    } else if running && !stopping {
        Completion::Submit
    } else {
        Completion::Rest
    }
}

/// Retries before a chain is declared dead rather than merely late.
pub const SUBMIT_ATTEMPTS: u32 = 3;

/// What to do when a transfer has been handed to the bus.
#[derive(Debug, Clone, Copy, PartialEq, Eq, Structural)]
pub enum Submission {
    /// It is scheduled.
    Sent,
    /// It came too late; re-anchor the chain and try again.
    Again,
    /// The chain is dead.
    Dead,
}

/// What to do when a transfer has been handed to the bus for the time numbered `attempt`, from
/// one, and was accepted or not.
pub fn on_submit(accepted: bool, attempt: u32) -> (what: Submission)
    ensures
        what == (if accepted {
            Submission::Sent
        } else if attempt < SUBMIT_ATTEMPTS {
            Submission::Again
        } else {
            Submission::Dead
        }),
{
    if accepted {
        Submission::Sent
    } else if attempt < SUBMIT_ATTEMPTS {
        Submission::Again
    } else {
        Submission::Dead
    }
}

/// Whether the feedback endpoint is listened to again. However the last transfer ended, it is:
/// a servo that stops silently stops tracking the DAC's clock.
pub fn listens_on(running: bool, stopping: bool) -> (yes: bool)
    ensures
        yes == (running && !stopping),
{
    running && !stopping
}

/// The queue of raw DSD and what has been sent of it.
pub struct Engine {
    pub frame_bytes: usize,
    pub consumer: Consumer<u8>,
    pub state: PlaybackState,
}

impl Engine {
    /// What filling a microframe does where `ready` bytes of the queue are ready: they leave
    /// the queue for the head of the microframe, and silence fills the rest. As many are ready
    /// as were seen, up to what the microframe takes: what was seen is what left the queue and
    /// what is seen of it still.
    pub open spec fn sends(
        &self,
        after: &Engine,
        filled: Seq<u8>,
        ready: int,
    ) -> bool {
        let coming = queue::bytes_to_come(self.consumer);
        let want = filled.len() as int;
        &&& ready == queue::fitting(queue::bytes_seen(after.consumer) + ready, want)
        &&& 0 <= ready <= want
        &&& ready <= coming.len()
        &&& filled == coming.take(ready) + Seq::new(
            (want - ready) as nat,
            |i: int| DSD_SILENCE_BYTE,
        )
        &&& queue::bytes_to_come(after.consumer) == coming.skip(ready)
        &&& after.frame_bytes == self.frame_bytes
        &&& after.state == (PlaybackState {
            frames_played: ((self.state.frames_played + ready / self.frame_bytes as int)
                % 0x1_0000_0000_0000_0000) as u64,
            underrun_frames: ((self.state.underrun_frames + (want - ready)
                / self.frame_bytes as int) % 0x1_0000_0000_0000_0000) as u64,
            ..self.state
        })
    }

    /// Copy queued DSD into one microframe, padding with DSD silence rather than zero so an
    /// underrun never drops the DAC out of lock. While the transport holds the queue, silence
    /// is sent and nothing is counted. How much of the queue is seen rests with the thread
    /// that fills it.
    pub fn fill(&mut self, dst: &mut [u8])
        requires
            old(self).frame_bytes >= 1,
        ensures
            final(dst)@.len() == old(dst)@.len(),
            if old(self).state.holds() {
                &&& *final(self) == *old(self)
                &&& forall|i: int|
                    0 <= i < final(dst)@.len() ==> #[trigger] final(dst)@[i] == DSD_SILENCE_BYTE
            } else {
                exists|ready: int| #[trigger] old(self).sends(final(self), final(dst)@, ready)
            },
    {
        let want: usize = dst.len();
        if self.state.silence || self.state.paused || self.state.seeking {
            place(&Vec::new(), dst);
            return;
        }
        let ghost before = *self;
        let ghost coming = queue::bytes_to_come(self.consumer);
        let queued: usize = queue::see_bytes(&mut self.consumer);
        let available: usize = queue::fits(queued, want);
        let ready: Vec<u8> = match queue::read_bytes(&mut self.consumer, available) {
            Some(ready) => ready,
            None => Vec::new(),
        };
        let written: usize = ready.len();
        place(&ready, dst);
        let short: usize = (want - written) / self.frame_bytes;
        self.state.underrun_frames = self.state.underrun_frames.wrapping_add(short as u64);
        self.state.frames_played = self.state.frames_played.wrapping_add(
            (written / self.frame_bytes) as u64,
        );
        proof {
            assert(coming =~= ready@ + queue::bytes_to_come(self.consumer));
            assert(coming.take(written as int) =~= ready@);
            assert(coming.skip(written as int) =~= queue::bytes_to_come(self.consumer));
            assert(dst@ =~= coming.take(written as int) + Seq::new(
                (want - written) as nat,
                |i: int| DSD_SILENCE_BYTE,
            ));
            assert(before.sends(self, dst@, written as int));
        }
    }

    /// Let go of everything that is queued right now, for a seek that has moved the reader:
    /// all that is seen leaves the head of the queue.
    pub fn drop_queued(&mut self)
        ensures
            queue::bytes_seen(final(self).consumer) == 0,
            exists|count: int|
                0 <= count <= queue::bytes_to_come(old(self).consumer).len()
                    && queue::bytes_to_come(final(self).consumer)
                    == #[trigger] queue::bytes_to_come(old(self).consumer).skip(count),
            final(self).frame_bytes == old(self).frame_bytes,
            final(self).state == old(self).state,
    {
        let ghost coming = queue::bytes_to_come(self.consumer);
        let queued: usize = queue::see_bytes(&mut self.consumer);
        let dropped: Option<Vec<u8>> = queue::read_bytes(&mut self.consumer, queued);
        assert(dropped is Some);
        assert(coming.skip(queued as int) =~= queue::bytes_to_come(self.consumer));
    }
}

/// Put bytes at the head of a microframe, and silence behind them.
pub fn place(ready: &Vec<u8>, dst: &mut [u8])
    requires
        ready@.len() <= old(dst)@.len(),
    ensures
        final(dst)@.len() == old(dst)@.len(),
        forall|i: int|
            0 <= i < final(dst)@.len() ==> #[trigger] final(dst)@[i] == (if i < ready@.len() {
                ready@[i]
            } else {
                DSD_SILENCE_BYTE
            }),
{
    let mut i: usize = 0;
    while i < dst.len()
        invariant
            i <= dst@.len() == old(dst)@.len(),
            ready@.len() <= dst@.len(),
            forall|k: int|
                0 <= k < i ==> #[trigger] dst@[k] == (if k < ready@.len() {
                    ready@[k]
                } else {
                    DSD_SILENCE_BYTE
                }),
        decreases dst@.len() - i,
    {
        dst[i] = if i < ready.len() {
            ready[i]
        } else {
            DSD_SILENCE_BYTE
        };
        i += 1;
    }
}

/// What the DAC asks for is believed where it is within a twentieth of the nominal rate, and only
/// there.
pub proof fn feedback_within_a_twentieth_is_believed(pacer: Pacer, raw: u32)
    ensures
        ({
            let asked = raw * 8_000;
            let off = if asked < pacer.nominal {
                pacer.nominal - asked
            } else {
                asked - pacer.nominal
            };
            let after = pacer.steered(raw);
            &&& off * 20 <= pacer.nominal ==> after.samples == asked
            &&& off * 20 > pacer.nominal ==> after == pacer
            &&& after.nominal == pacer.nominal
            &&& after.carry == pacer.carry
        }),
{
}

/// Feedback counts frames to a microframe in 65,536ths: a second at what it asks for carries 8,000
/// times as many whole frames.
pub proof fn a_second_carries_what_feedback_asks_for(raw: u32)
    ensures
        carried(0, raw * 8_000, 8_000) == raw * 8_000 / 65_536,
{
    assert(8_000 * (raw * 8_000) == 8_000 * 8_000 * raw);
    let sum = 64_000_000 * raw;
    assert(PARTS as int == 524_288_000);
    assert(sum / 524_288_000 == sum / 8_000 / 65_536);
    assert(sum / 8_000 == 8_000 * raw);
}

/// No microframe carries more than the most it can, and one that has the most carried over does
/// carry it.
pub proof fn the_most_frames_are_reached_and_not_passed(samples: int, carry: int)
    requires
        0 <= samples,
        0 <= carry < PARTS,
    ensures
        carried(carry, samples, 1) <= most_frames(samples),
        carried(PARTS - 1, samples, 1) == most_frames(samples),
{
    assert(1 * samples == samples);
    vstd::arithmetic::div_mod::lemma_div_is_ordered(
        carry + samples,
        PARTS - 1 + samples,
        PARTS as int,
    );
}

/// Every frame of a microframe is counted once, as played where it came from the queue and as an
/// underrun where it is silence; and what left the queue is what is at the microframe's head.
pub proof fn every_frame_of_a_microframe_is_counted_once(
    before: Engine,
    after: Engine,
    filled: Seq<u8>,
    played: int,
    silent: int,
)
    requires
        before.frame_bytes >= 1,
        0 <= played,
        0 <= silent,
        filled.len() == (played + silent) * before.frame_bytes,
    ensures
        before.sends(&after, filled, played * before.frame_bytes) ==> {
            &&& after.state.frames_played == (before.state.frames_played + played)
                % 0x1_0000_0000_0000_0000
            &&& after.state.underrun_frames == (before.state.underrun_frames + silent)
                % 0x1_0000_0000_0000_0000
            &&& queue::bytes_to_come(before.consumer) == filled.take(played * before.frame_bytes)
                + queue::bytes_to_come(after.consumer)
        },
{
    let width = before.frame_bytes as int;
    vstd::arithmetic::div_mod::lemma_div_by_multiple(played, width);
    vstd::arithmetic::div_mod::lemma_div_by_multiple(silent, width);
    assert((played + silent) * width - played * width == silent * width) by (nonlinear_arith);
    assert(0 <= silent * width && 0 <= played * width) by (nonlinear_arith)
        requires
            0 <= played,
            0 <= silent,
            1 <= width,
    ;
    if before.sends(&after, filled, played * before.frame_bytes) {
        let coming = queue::bytes_to_come(before.consumer);
        let ready = played * width;
        assert(filled.take(ready) =~= coming.take(ready));
        assert(coming =~= coming.take(ready) + coming.skip(ready));
    }
}

} // verus!
