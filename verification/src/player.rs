//! Playing one recording: which path takes it to the device, the queue it goes through, and
//! what is said of it on the way.

use crate::audio::AudioFormat;
use crate::dsd::DsdRate;
use crate::output::encoding::{Carrier, Encoding};
use crate::output::queue;
use crate::output::stream::{Request, DOP_PCM_RATES};
use crate::reader::source;
use crate::reader::source::Source;
use crate::reader::tags::TrackTags;
use crate::reader::ReadError;
use crate::text;
use rtrb::Producer;
use vstd::prelude::*;

verus! {

/// A track gets this many goes at claiming a device that is still switching rate.
pub const SETUP_ATTEMPTS: u32 = 4;

/// Smallest queue worth having, whatever the buffer length asks for, in carrier words.
pub const MIN_QUEUE: usize = 16_384;

#[derive(Debug, Clone, Copy, PartialEq, Eq, Structural)]
pub struct PlayOptions {
    pub exclusive: bool,
    pub buffer_ms: u32,
    pub buffer_frames: Option<u32>,
}

/// `delta` seconds on from `played`, held between the start and `total`.
pub open spec fn shifted(played: int, delta: int, per_second: int, total: int) -> int {
    let place = played + delta * per_second;
    if place < 0 {
        0
    } else if place > total {
        total
    } else {
        place
    }
}

/// Where `delta` seconds from `played` lands, in whatever unit `per_second` counts, clamped
/// to `total`. Carrier frames for a Core Audio session, DSD bytes for a native one.
pub fn seek_to(played: u64, delta: i64, per_second: u32, total: u64) -> (place: u64)
    ensures
        place == shifted(played as int, delta as int, per_second as int, total as int),
{
    assert(-0x8000_0000_0000_0000 * 0x1_0000_0000 <= delta * per_second <= 0x8000_0000_0000_0000
        * 0x1_0000_0000) by (nonlinear_arith)
        requires
            -0x8000_0000_0000_0000 <= delta <= 0x7fff_ffff_ffff_ffff,
            0 <= per_second <= 0xffff_ffff,
    ;
    let place: i128 = played as i128 + delta as i128 * per_second as i128;
    if place < 0 {
        0
    } else if place > total as i128 {
        total
    } else {
        place as u64
    }
}

/// Whether a device that was handed back is in Core Audio again. One on its way out is still
/// listed for a moment, but its streams are already gone, so the rates it reports are what says
/// that it is really back.
pub fn is_back(advertised: &Vec<u32>) -> (yes: bool)
    ensures
        yes == (advertised@.len() > 0),
{
    advertised.len() > 0
}

/// What is known of the PCM rates a device can carry DoP at.
#[derive(Debug, PartialEq, Eq)]
pub struct CarrierRates {
    /// Rates Core Audio advertises. Read once, because they are a property of the DAC rather
    /// than of the name it happens to go by.
    pub advertised: Vec<u32>,
    /// Rates the DAC's own clock claims that Core Audio does not advertise, waiting to be
    /// probed. A rate leaves this list the first time it is tried, so one the device turns
    /// down does not cost a probe again on every track.
    pub unprobed: Vec<u32>,
    /// Unadvertised rates a probe proved the device accepts, which the stream choice has to
    /// be told about because they are in no format list it can read.
    pub probed: Vec<u32>,
}

/// The same as sequences.
#[verifier::ext_equal]
pub struct Rates {
    pub advertised: Seq<u32>,
    pub unprobed: Seq<u32>,
    pub probed: Seq<u32>,
}

impl View for CarrierRates {
    type V = Rates;

    open spec fn view(&self) -> Rates {
        Rates {
            advertised: self.advertised@,
            unprobed: self.unprobed@,
            probed: self.probed@,
        }
    }
}

/// Whether a device carries a DSD rate as DoP.
#[derive(Debug, Clone, Copy, PartialEq, Eq, Structural)]
pub enum Carries {
    Yes,
    No,
    /// Setting the rate and reading it back will tell.
    Probe,
}

impl Rates {
    /// What is known of a carrier rate, and what is still to be tried once that is settled.
    pub open spec fn asked(self, rate: u32) -> (Carries, Rates) {
        if self.advertised.contains(rate) || self.probed.contains(rate) {
            (Carries::Yes, self)
        } else if self.unprobed.contains(rate) {
            (Carries::Probe, Rates { unprobed: without(self.unprobed, rate), ..self })
        } else {
            (Carries::No, self)
        }
    }

    /// What is known once a probe has been answered.
    pub open spec fn settled(self, rate: u32, accepted: bool) -> Rates {
        if accepted {
            Rates { probed: self.probed.push(rate), ..self }
        } else {
            self
        }
    }
}

/// A list with every occurrence of a rate taken out.
pub open spec fn without(rates: Seq<u32>, rate: u32) -> Seq<u32>
    decreases rates.len(),
{
    if rates.len() == 0 {
        rates
    } else if rates.last() == rate {
        without(rates.drop_last(), rate)
    } else {
        without(rates.drop_last(), rate).push(rates.last())
    }
}

proof fn lemma_without(rates: Seq<u32>, rate: u32)
    ensures
        forall|other: u32|
            without(rates, rate).contains(other) <==> rates.contains(other) && other != rate,
    decreases rates.len(),
{
    if rates.len() > 0 {
        let head = rates.drop_last();
        let kept = without(head, rate);
        lemma_without(head, rate);
        assert forall|other: u32|
            without(rates, rate).contains(other) <==> rates.contains(other) && other != rate by {
            if rates.contains(other) {
                let at = rates.index_of(other);
                assert(at < head.len() ==> head[at] == other);
                assert(head.contains(other) || rates.last() == other);
            }
            if head.contains(other) {
                assert(rates[head.index_of(other)] == other);
            }
            if kept.contains(other) && rates.last() != rate {
                assert(kept.push(rates.last())[kept.index_of(other)] == other);
            }
            if rates.last() == other && rates.last() != rate {
                assert(kept.push(rates.last())[kept.len() as int] == other);
                assert(rates[rates.len() - 1] == other);
            }
            if without(rates, rate).contains(other) && rates.last() != rate {
                let at = without(rates, rate).index_of(other);
                assert(at < kept.len() ==> kept[at] == other);
            }
        }
    }
}

/// Once a rate has been asked after, no later question about it, before the probe is answered
/// or after it, calls for another probe. A rate the device accepted is carried from then on.
pub proof fn a_rate_is_probed_at_most_once(rates: Rates, rate: u32, accepted: bool)
    ensures
        ({
            let (answer, left) = rates.asked(rate);
            let known = left.settled(rate, accepted);
            &&& left.asked(rate).0 != Carries::Probe
            &&& known.asked(rate).0 != Carries::Probe
            &&& accepted ==> known.asked(rate).0 == Carries::Yes
            &&& answer == Carries::Probe && !accepted ==> known.asked(rate).0 == Carries::No
        }),
{
    let left = rates.asked(rate).1;
    lemma_without(rates.unprobed, rate);
    assert(left.probed.push(rate)[left.probed.len() as int] == rate);
    assert(left.settled(rate, true).probed.contains(rate));
}

/// The DoP carrier rates from `index` on that a clock reports and Core Audio does not
/// advertise, in rising order.
pub open spec fn disputed(clock: Seq<u32>, advertised: Seq<u32>, index: int) -> Seq<u32>
    decreases 4 - index,
{
    if index < 0 || index >= 4 {
        Seq::empty()
    } else if clock.contains(DOP_PCM_RATES[index]) && !advertised.contains(DOP_PCM_RATES[index]) {
        seq![DOP_PCM_RATES[index]] + disputed(clock, advertised, index + 1)
    } else {
        disputed(clock, advertised, index + 1)
    }
}

fn holds_rate(rates: &Vec<u32>, rate: u32) -> (yes: bool)
    ensures
        yes == rates@.contains(rate),
{
    let mut i: usize = 0;
    while i < rates.len()
        invariant
            i <= rates@.len(),
            forall|k: int| 0 <= k < i ==> rates@[k] != rate,
        decreases rates@.len() - i,
    {
        if rates[i] == rate {
            return true;
        }
        i += 1;
    }
    false
}

/// DoP carrier rates the DAC's clock reports that Core Audio does not advertise.
///
/// The formats Core Audio offers come from the intersection of the streaming alternate
/// settings with the clock ranges, and a DAC that lists no PCM alternate setting at a rate its
/// clock reaches drops out of that intersection. The clock's own report is the second opinion,
/// and the only rates worth the cost of a probe are the ones the two disagree on.
pub fn unadvertised_dop_rates(clock: &Vec<u32>, advertised: &Vec<u32>) -> (rates: Vec<u32>)
    ensures
        rates@ == disputed(clock@, advertised@, 0),
{
    let mut rates: Vec<u32> = Vec::new();
    let mut index: usize = 0;
    assert(rates@ + disputed(clock@, advertised@, 0) =~= disputed(clock@, advertised@, 0));
    while index < 4
        invariant
            index <= 4,
            disputed(clock@, advertised@, 0) == rates@ + disputed(
                clock@,
                advertised@,
                index as int,
            ),
        decreases 4 - index,
    {
        let rate: u32 = DOP_PCM_RATES[index];
        if holds_rate(clock, rate) && !holds_rate(advertised, rate) {
            rates.push(rate);
        }
        index += 1;
        assert(disputed(clock@, advertised@, 0) =~= rates@ + disputed(
            clock@,
            advertised@,
            index as int,
        ));
    }
    rates
}

impl CarrierRates {
    /// What a device advertises, and what its clock claims besides.
    pub fn of(advertised: Vec<u32>, clock: &Vec<u32>) -> (rates: Self)
        ensures
            rates@ == (Rates {
                advertised: advertised@,
                unprobed: disputed(clock@, advertised@, 0),
                probed: Seq::empty(),
            }),
    {
        let unprobed: Vec<u32> = unadvertised_dop_rates(clock, &advertised);
        let rates: CarrierRates = CarrierRates { advertised, unprobed, probed: Vec::new() };
        assert(rates.probed@ =~= Seq::empty());
        rates
    }

    /// Whether this device can carry a file as DoP.
    ///
    /// A rate Core Audio does not advertise is not one the DAC has refused: the advertised
    /// list is an intersection that is sometimes narrower than the hardware. Where the DAC's
    /// clock claims the rate regardless, setting it and reading it back settles the question,
    /// and a DAC that answers yes skips the native path and the interface race behind it.
    pub fn carries_dop(&mut self, rate: DsdRate) -> (answer: Carries)
        ensures
            (answer, final(self)@) == old(self)@.asked((rate.0 / 16) as u32),
    {
        let pcm_rate: u32 = rate.dop_pcm_rate();
        if holds_rate(&self.advertised, pcm_rate) || holds_rate(&self.probed, pcm_rate) {
            return Carries::Yes;
        }
        if !holds_rate(&self.unprobed, pcm_rate) {
            return Carries::No;
        }
        let mut left: Vec<u32> = Vec::new();
        let mut i: usize = 0;
        let ghost all = self.unprobed@;
        assert(all.take(0) =~= Seq::empty());
        while i < self.unprobed.len()
            invariant
                i <= self.unprobed@.len(),
                all == self.unprobed@,
                left@ == without(all.take(i as int), pcm_rate),
            decreases self.unprobed@.len() - i,
        {
            let unprobed: u32 = self.unprobed[i];
            if unprobed != pcm_rate {
                left.push(unprobed);
            }
            i += 1;
            assert(all.take(i as int).drop_last() =~= all.take(i - 1));
        }
        assert(all.take(all.len() as int) =~= all);
        self.unprobed = left;
        Carries::Probe
    }

    /// Take note of what a probe of a carrier rate found.
    pub fn settle(&mut self, pcm_rate: u32, accepted: bool)
        ensures
            final(self)@ == old(self)@.settled(pcm_rate, accepted),
    {
        if accepted {
            self.probed.push(pcm_rate);
        }
    }

    /// Whether a rate is one that only a probe has shown the device to take.
    pub fn is_unadvertised(&self, pcm_rate: u32) -> (yes: bool)
        ensures
            yes == self@.probed.contains(pcm_rate),
    {
        holds_rate(&self.probed, pcm_rate)
    }
}

/// The path a recording takes to the device.
#[derive(Debug, Clone, Copy, PartialEq, Eq, Structural)]
pub enum Route {
    CoreAudio,
    Native,
    /// Only the native path could carry it, and that cannot be shared.
    Refused,
}

/// Which path plays a recording. PCM and DSD alike go through Core Audio at the rate the
/// recording wants; only a DAC whose PCM rates cannot carry a DSD file as DoP takes the native
/// path, where 32 DSD bits ride in each frame instead of 16.
///
/// The native path takes both audio interfaces for the whole track, which is heavier than
/// holding the device and cannot be shared, so a shared session is refused rather than quietly
/// given the opposite of what was asked.
pub fn route(format: AudioFormat, carried_as_dop: bool, exclusive: bool) -> (route: Route)
    ensures
        route == if format is Pcm || carried_as_dop {
            Route::CoreAudio
        } else if exclusive {
            Route::Native
        } else {
            Route::Refused
        },
{
    let carried: bool = match format {
        AudioFormat::Pcm(_) => true,
        AudioFormat::Dsd(_) => carried_as_dop,
    };
    if carried {
        Route::CoreAudio
    } else if exclusive {
        Route::Native
    } else {
        Route::Refused
    }
}

/// Why a shared session does not play a file that only the native path carries.
pub fn shared_refusal(name: &str, format: &str) -> (line: String)
    ensures
        line@ == name@ + " cannot carry "@ + format@
            + " over DoP, and the native DSD path always claims the device exclusively; drop --shared to play this file"@,
{
    let mut line: String = text::owned(name);
    line.append(" cannot carry ");
    line.append(format);
    line.append(
        " over DoP, and the native DSD path always claims the device exclusively; drop --shared to play this file",
    );
    line
}

/// Whether a device that would not open for the `attempt`th time is given another go: one
/// that is still settling from the previous track is, and one that failed otherwise is not.
pub fn retries(attempt: u32, busy: bool) -> (yes: bool)
    ensures
        yes == (busy && attempt < SETUP_ATTEMPTS),
{
    busy && attempt < SETUP_ATTEMPTS
}

/// What to ask of a device for a recording: its own rate and channels, DSD as DoP and PCM as it
/// is.
pub fn request_for(format: AudioFormat, options: &PlayOptions, rates: &CarrierRates) -> (request:
    Request)
    ensures
        request == (Request {
            pcm_rate: format.device_rate(),
            channels: format.channel_count(),
            carrier: if format is Dsd {
                Carrier::Dop
            } else {
                Carrier::Pcm
            },
            exclusive: options.exclusive,
            buffer_frames: options.buffer_frames,
            allow_unadvertised_rate: rates@.probed.contains(format.device_rate()),
        }),
{
    let pcm_rate: u32 = format.carrier_rate();
    Request {
        pcm_rate,
        channels: format.channels(),
        carrier: match format {
            AudioFormat::Dsd(_) => Carrier::Dop,
            AudioFormat::Pcm(_) => Carrier::Pcm,
        },
        exclusive: options.exclusive,
        buffer_frames: options.buffer_frames,
        allow_unadvertised_rate: rates.is_unadvertised(pcm_rate),
    }
}

/// Carrier words a queue holds: so many milliseconds of the stream, never less than the
/// smallest queue, and never less than a few of the reader's chunks.
pub open spec fn queue_words(rate: int, channels: int, buffer_ms: int, chunk_frames: int) -> int {
    let wanted = rate * channels * buffer_ms / 1000;
    let chunks = chunk_frames * channels * 4;
    let least = if chunks < MIN_QUEUE {
        MIN_QUEUE as int
    } else {
        chunks
    };
    if wanted < least {
        least
    } else {
        wanted
    }
}

/// Room for the queue the reader fills, and never less than a few of its chunks: a chunk that
/// cannot fit would leave the reader waiting for room that never comes. More than can be
/// addressed is as much as can be.
pub fn capacity(format: AudioFormat, buffer_ms: u32, chunk_frames: usize) -> (words: usize)
    ensures
        ({
            let wanted = queue_words(
                format.device_rate() as int,
                format.channel_count() as int,
                buffer_ms as int,
                chunk_frames as int,
            );
            words == if wanted < usize::MAX {
                wanted
            } else {
                usize::MAX as int
            }
        }),
{
    let rate: u32 = format.carrier_rate();
    let channels: u16 = format.channels();
    assert(0 <= rate * channels <= 0xffff_ffff * 0xffff) by (nonlinear_arith)
        requires
            0 <= rate <= 0xffff_ffff,
            0 <= channels <= 0xffff,
    ;
    let per_second: u128 = rate as u128 * channels as u128;
    assert(0 <= per_second * buffer_ms <= 0xffff_ffff * 0xffff * 0xffff_ffff)
        by (nonlinear_arith)
        requires
            0 <= per_second <= 0xffff_ffff * 0xffff,
            0 <= buffer_ms <= 0xffff_ffff,
    ;
    assert(0 <= chunk_frames * channels <= 0xffff_ffff_ffff_ffff * 0xffff) by (nonlinear_arith)
        requires
            0 <= chunk_frames <= 0xffff_ffff_ffff_ffff,
            0 <= channels <= 0xffff,
    ;
    let wanted: u128 = per_second * buffer_ms as u128 / 1000;
    let chunks: u128 = chunk_frames as u128 * channels as u128 * 4;
    let least: u128 = if chunks < MIN_QUEUE as u128 {
        MIN_QUEUE as u128
    } else {
        chunks
    };
    let words: u128 = if wanted < least {
        least
    } else {
        wanted
    };
    if words < usize::MAX as u128 {
        words as usize
    } else {
        usize::MAX
    }
}

/// Frames to queue before the device is started: half of what fits, or all there is. `frame`
/// is what one frame takes up in the queue.
pub fn prefill(capacity: usize, frame: usize, total_frames: u64) -> (frames: u64)
    requires
        frame >= 1,
    ensures
        frames == (if capacity as int / frame as int / 2 < total_frames {
            capacity as int / frame as int / 2
        } else {
            total_frames as int
        }),
{
    let half: u64 = (capacity / frame / 2) as u64;
    if half < total_frames {
        half
    } else {
        total_frames
    }
}

/// What a reader thread and the engine have counted.
#[derive(Debug, Clone, Copy, PartialEq, Eq, Structural)]
pub struct Counters {
    pub frames_written: u64,
    pub frames_played: u64,
    /// The reader has queued the whole recording.
    pub finished: bool,
}

impl Counters {
    /// Frames that are queued and not yet played.
    pub open spec fn ahead(self) -> int {
        if self.frames_written > self.frames_played {
            self.frames_written - self.frames_played
        } else {
            0
        }
    }

    /// Frames that are queued and not yet played.
    pub fn queued(self) -> (frames: u64)
        ensures
            frames == self.ahead(),
    {
        if self.frames_written > self.frames_played {
            self.frames_written - self.frames_played
        } else {
            0
        }
    }

    /// The whole recording has been queued and all of it has been consumed.
    pub open spec fn complete(self) -> bool {
        self.finished && self.frames_played >= self.frames_written
    }

    /// True once the whole recording has been queued and all of it has been consumed.
    pub fn is_complete(self) -> (yes: bool)
        ensures
            yes == self.complete(),
    {
        self.finished && self.frames_played >= self.frames_written
    }

    /// True when the engine gave up before the file was played out.
    ///
    /// A DAC that rejects a transfer ends the chain on the engine thread, which the session
    /// otherwise has no way of noticing: it would keep reporting a track that is playing
    /// nothing, and hold the DAC for as long as it did so.
    pub fn has_stalled(self, running: bool) -> (yes: bool)
        ensures
            yes == (!running && !self.complete()),
    {
        !running && !self.is_complete()
    }

    /// Whether to wait until `goal` frames are queued. A reader that has reached the end never
    /// gets there, and one that was told to stop need not.
    pub fn awaits(self, goal: u64, stop: bool) -> (yes: bool)
        ensures
            yes == (self.frames_written < goal && !self.finished && !stop),
    {
        self.frames_written < goal && !self.finished && !stop
    }

    /// Whether a seek lets the reader get ahead again before the queue is served: until a
    /// quarter of the queue is filled, so that the jump does not land as an underrun.
    pub fn refills(self, queue_frames: u64, stop: bool) -> (yes: bool)
        ensures
            yes == (self.ahead() < queue_frames / 4 && !self.finished && !stop),
    {
        self.queued() < queue_frames / 4 && !self.finished && !stop
    }

    /// The frames played, held inside the recording.
    pub fn position(self, total_frames: u64) -> (frame: u64)
        ensures
            frame == (if self.frames_played < total_frames {
                self.frames_played
            } else {
                total_frames
            }),
    {
        if self.frames_played < total_frames {
            self.frames_played
        } else {
            total_frames
        }
    }
}

/// What the reader thread does next.
#[derive(Debug, Clone, Copy, PartialEq, Eq, Structural)]
pub enum FeedStep {
    /// It was told to stop.
    Leave,
    /// The recording has ended, though not the thread: a seek back into the track still has
    /// to find a reader.
    Park,
    /// The queue is full.
    Wait,
    /// There is more to do at once.
    Go,
}

/// The reader's side of the queue: the recording, the chunk of it in flight, and how far it
/// has got.
pub struct Feeder {
    pub source: Source,
    pub producer: Producer<i32>,
    /// The chunk that was read last.
    pub carried: Vec<i32>,
    /// How much of that chunk the queue has taken.
    pub offset: usize,
    pub frames_written: u64,
    pub finished: bool,
}

impl Feeder {
    pub open spec fn wf(&self) -> bool {
        &&& self.source.wf()
        &&& self.offset <= self.carried@.len()
    }

    /// What has been read and is not queued yet.
    pub open spec fn pending(&self) -> Seq<i32> {
        self.carried@.skip(self.offset as int)
    }

    pub fn new(source: Source, producer: Producer<i32>) -> (feeder: Self)
        requires
            source.wf(),
        ensures
            feeder.wf(),
            feeder.source == source,
            feeder.producer == producer,
            feeder.pending() == Seq::<i32>::empty(),
            feeder.frames_written == 0,
            !feeder.finished,
    {
        let feeder: Feeder = Feeder {
            source,
            producer,
            carried: Vec::new(),
            offset: 0,
            frames_written: 0,
            finished: false,
        };
        assert(feeder.pending() =~= Seq::empty());
        feeder
    }

    /// Read a chunk, or hand the queue as much of the chunk in flight as it has room for.
    /// Nothing is read while a chunk is in flight, so everything that is read is queued in the
    /// order it was read in.
    #[verifier::rlimit(50)]
    pub fn step(&mut self, stop: bool) -> (out: Result<FeedStep, ReadError>)
        requires
            old(self).wf(),
        ensures
            final(self).wf(),
            stop ==> out == Ok::<FeedStep, ReadError>(FeedStep::Leave) && *final(self) == *old(self),
            !stop && old(self).pending().len() > 0 ==> {
                let taken = final(self).offset - old(self).offset;
                &&& taken == queue::fitting(
                    queue::sample_room(final(self).producer) + taken,
                    old(self).pending().len() as int,
                )
                &&& taken >= 0
                &&& out == Ok::<FeedStep, ReadError>(
                    if taken == 0 {
                        FeedStep::Wait
                    } else {
                        FeedStep::Go
                    },
                )
                &&& final(self).source == old(self).source
                &&& final(self).carried == old(self).carried
                &&& queue::samples_written(final(self).producer) + final(self).pending()
                    == queue::samples_written(old(self).producer) + old(self).pending()
                &&& queue::samples_written(final(self).producer).len() == queue::samples_written(
                    old(self).producer,
                ).len() + taken
                &&& final(self).frames_written == (old(self).frames_written + taken
                    / old(self).source.width()) % 0x1_0000_0000_0000_0000
                &&& final(self).finished == old(self).finished
            },
            !stop && old(self).pending().len() == 0 ==> {
                &&& final(self).producer == old(self).producer
                &&& final(self).frames_written == old(self).frames_written
                &&& old(self).source.exact() ==> out is Ok
                &&& final(self).source.same_recording(&old(self).source)
                &&& match out {
                    Ok(step) => {
                        &&& source::gives(
                            old(self).source,
                            final(self).source,
                            final(self).pending().len() as int / old(self).source.width(),
                            Seq::empty(),
                            final(self).pending(),
                        )
                        &&& if final(self).pending().len() == 0 {
                            &&& step == FeedStep::Park && final(self).finished
                            &&& old(self).source.ending() is None
                        } else {
                            step == FeedStep::Go && final(self).finished == old(self).finished
                        }
                    },
                    Err(error) => {
                        &&& final(self).pending() == Seq::<i32>::empty()
                        &&& old(self).source.left() == 0
                        &&& old(self).source.ending() == Some(error)
                        &&& source::goes_on(old(self).source, final(self).source)
                        &&& final(self).finished == old(self).finished
                    },
                }
            },
    {
        if stop {
            return Ok(FeedStep::Leave);
        }
        let channels: u16 = self.source.format().channels();
        if self.offset < self.carried.len() {
            let taken: usize = queue::offer_samples(
                &mut self.producer,
                self.carried.as_slice(),
                self.offset,
            );
            proof {
                let written = queue::samples_written(old(self).producer);
                let part = self.carried@.subrange(self.offset as int, self.offset + taken);
                let left = self.carried@.skip(self.offset + taken);
                assert(self.carried@.skip(self.offset as int) =~= part + left);
                assert((written + part) + left =~= written + (part + left));
            }
            self.offset = self.offset + taken;
            let frames: u64 = (taken / channels as usize) as u64;
            self.frames_written = self.frames_written.wrapping_add(frames);
            return Ok(if taken == 0 { FeedStep::Wait } else { FeedStep::Go });
        }
        self.carried.clear();
        self.offset = 0;
        let count: usize = match self.source.read(&mut self.carried) {
            Ok(count) => count,
            Err(error) => {
                assert(self.pending() =~= Seq::empty());
                return Err(error);
            },
        };
        assert(self.carried@.skip(0) =~= self.carried@);
        proof {
            let width = self.source.width();
            assert(width >= 1 && width == old(self).source.width());
            assert(self.carried@.len() == count * width);
            vstd::arithmetic::div_mod::lemma_div_multiples_vanish(count as int, width);
            assert(width * count == count * width) by (nonlinear_arith);
            assert(count > 0 ==> count * width > 0) by (nonlinear_arith)
                requires
                    width >= 1,
                    count >= 0,
            ;
        }
        if count == 0 {
            self.finished = true;
            return Ok(FeedStep::Park);
        }
        Ok(FeedStep::Go)
    }

    /// Drop the chunk in flight and move to `frame`, clamped to the recording, counting on
    /// from wherever that lands.
    pub fn seek(&mut self, frame: u64) -> (out: Result<u64, ReadError>)
        requires
            old(self).wf(),
        ensures
            out == old(self).source.sought(frame as int),
            old(self).source.exact() ==> out is Ok,
            final(self).wf(),
            final(self).source.same_recording(&old(self).source),
            source::aims(old(self).source, final(self).source, frame as int),
            final(self).producer == old(self).producer,
            final(self).pending() == Seq::<i32>::empty(),
            match out {
                Ok(landed) => {
                    &&& source::moves(
                        old(self).source,
                        final(self).source,
                        frame as int,
                        landed as int,
                    )
                    &&& final(self).frames_written == landed
                    &&& !final(self).finished
                },
                Err(_) => {
                    &&& final(self).frames_written == old(self).frames_written
                    &&& final(self).finished == old(self).finished
                },
            },
    {
        self.carried.clear();
        self.offset = 0;
        assert(self.pending() =~= Seq::empty());
        match self.source.seek(frame) {
            Ok(landed) => {
                self.frames_written = landed;
                self.finished = false;
                Ok(landed)
            },
            Err(error) => Err(error),
        }
    }
}

/// What the recording being played contains.
#[derive(Debug, PartialEq, Eq)]
pub struct TrackInfo {
    pub container: &'static str,
    pub tags: TrackTags,
    pub format: AudioFormat,
    /// Carrier frames the whole recording holds.
    pub total_frames: u64,
    /// DSD bytes per channel the whole recording holds, where it is DSD.
    pub bytes_per_channel: Option<u64>,
}

/// What the device settled on for this track.
#[derive(Debug, PartialEq, Eq)]
pub struct DeviceInfo {
    pub name: String,
    /// How the audio reaches the DAC: "DoP", "native DSD", or "PCM".
    pub carrier: &'static str,
    /// Width of one sample as the carrier presents it.
    pub bits: u32,
    pub pcm_rate: u32,
    pub buffer_frames: u32,
    pub transport: &'static str,
    pub exclusive: bool,
    pub mixing_disabled: bool,
}

/// A snapshot of a running session, cheap enough to take on every UI frame.
#[derive(Debug, Clone, Copy, PartialEq, Eq, Structural)]
pub struct Progress {
    pub frames_played: u64,
    pub underrun_frames: u64,
    pub queued_frames: u64,
    pub queue_frames: u64,
}

impl Default for Progress {
    fn default() -> (progress: Self)
        ensures
            progress == (Progress {
                frames_played: 0,
                underrun_frames: 0,
                queued_frames: 0,
                queue_frames: 0,
            }),
    {
        Progress { frames_played: 0, underrun_frames: 0, queued_frames: 0, queue_frames: 0 }
    }
}

/// How a device is held.
pub open spec fn claim_text(exclusive: bool) -> Seq<char> {
    if exclusive {
        "exclusive"@
    } else {
        "shared"@
    }
}

/// What is said of the mixer, if anything.
pub open spec fn mixing_text(disabled: bool) -> Seq<char> {
    if disabled {
        ", mixing off"@
    } else {
        ""@
    }
}

impl DeviceInfo {
    /// What a device that was set up for a recording is described as.
    pub fn of(
        name: &str,
        format: AudioFormat,
        encoding: Encoding,
        buffer_frames: u32,
        exclusive: bool,
        mixing_disabled: bool,
    ) -> (info: Self)
        ensures
            info.name@ == name@,
            info.carrier@ == (match format {
                AudioFormat::Dsd(_) => "DoP"@,
                AudioFormat::Pcm(_) => "PCM"@,
            }),
            info.bits == (match format {
                AudioFormat::Dsd(_) => 24,
                AudioFormat::Pcm(pcm) => pcm.bits,
            }),
            info.pcm_rate == format.device_rate(),
            info.buffer_frames == buffer_frames,
            info.transport@ == if encoding is Signed {
                "integer"@
            } else {
                "float32"@
            },
            info.exclusive == exclusive,
            info.mixing_disabled == mixing_disabled,
    {
        DeviceInfo {
            name: text::owned(name),
            carrier: format.carrier_name(),
            bits: format.carrier_bits(),
            pcm_rate: format.carrier_rate(),
            buffer_frames,
            transport: if encoding.is_integer() {
                "integer"
            } else {
                "float32"
            },
            exclusive,
            mixing_disabled,
        }
    }

    pub fn claim(&self) -> (text: &'static str)
        ensures
            text@ == claim_text(self.exclusive),
    {
        if self.exclusive {
            "exclusive"
        } else {
            "shared"
        }
    }

    pub fn mixing(&self) -> (text: &'static str)
        ensures
            text@ == mixing_text(self.mixing_disabled),
    {
        if self.mixing_disabled {
            ", mixing off"
        } else {
            ""
        }
    }

    /// The line printed before a track plays: where it goes and how it gets there.
    pub fn line(&self) -> (line: String)
        ensures
            line@ == "  -> "@ + self.name@ + ": "@ + self.carrier@ + " "@ + text::decimal(
                self.pcm_rate as nat,
            ) + " Hz, "@ + text::decimal(self.buffer_frames as nat) + " frame buffer, "@
                + self.transport@ + ", "@ + claim_text(self.exclusive) + mixing_text(
                self.mixing_disabled,
            ),
    {
        let mut line: String = text::owned("  -> ");
        line.append(self.name.as_str());
        line.append(": ");
        line.append(self.carrier);
        line.append(" ");
        line.append(text::decimal_of(self.pcm_rate as u64).as_str());
        line.append(" Hz, ");
        line.append(text::decimal_of(self.buffer_frames as u64).as_str());
        line.append(" frame buffer, ");
        line.append(self.transport);
        line.append(", ");
        line.append(self.claim());
        line.append(self.mixing());
        line
    }
}

/// Minutes and seconds, as "m:ss".
pub open spec fn clock_text(seconds: int) -> Seq<char> {
    let left = seconds % 60;
    text::decimal((seconds / 60) as nat) + (if left < 10 {
        ":0"@
    } else {
        ":"@
    }) + text::decimal(left as nat)
}

/// Whole seconds as minutes and seconds.
pub fn clock(seconds: u64) -> (line: String)
    ensures
        line@ == clock_text(seconds as int),
{
    let mut line: String = text::decimal_of(seconds / 60);
    let left: u64 = seconds % 60;
    if left < 10 {
        line.append(":0");
    } else {
        line.append(":");
    }
    line.append(text::decimal_of(left).as_str());
    line
}

/// What one look at a playing track comes to.
#[derive(Debug, Clone, Copy, PartialEq, Eq, Structural)]
pub enum Look {
    /// It has played out, or was told to stop.
    Ended,
    /// The DAC stopped accepting transfers.
    Stalled,
    /// Another second has passed; show it.
    Show,
    Nothing,
}

/// What there is to see of a playing track.
#[derive(Debug, Clone, Copy, PartialEq, Eq, Structural)]
pub struct Sight {
    pub stop: bool,
    pub complete: bool,
    pub stalled: bool,
    /// The reader has queued the whole recording, after which silence is the tail rather than
    /// a dropout.
    pub fully_queued: bool,
    pub underrun_frames: u64,
    /// Whole seconds played.
    pub seconds: u64,
}

/// What has been seen of a playing track so far.
#[derive(Debug, Clone, Copy, PartialEq, Eq, Structural)]
pub struct Watch {
    /// Frames of silence sent before the file was fully queued.
    pub dropouts: u64,
    /// The second that was shown last.
    pub shown: Option<u64>,
}

impl Default for Watch {
    fn default() -> (watch: Self)
        ensures
            watch == (Watch { dropouts: 0, shown: None }),
    {
        Watch { dropouts: 0, shown: None }
    }
}

impl Watch {
    /// Take one look at a playing track.
    pub fn look(&mut self, sight: Sight) -> (look: Look)
        ensures
            look == if sight.stop || sight.complete {
                Look::Ended
            } else if sight.stalled {
                Look::Stalled
            } else if old(self).shown != Some(sight.seconds) {
                Look::Show
            } else {
                Look::Nothing
            },
            *final(self) == if look is Ended || look is Stalled {
                *old(self)
            } else {
                Watch {
                    dropouts: if sight.fully_queued {
                        old(self).dropouts
                    } else {
                        sight.underrun_frames
                    },
                    shown: Some(sight.seconds),
                }
            },
    {
        if sight.stop || sight.complete {
            return Look::Ended;
        }
        if sight.stalled {
            return Look::Stalled;
        }
        if !sight.fully_queued {
            self.dropouts = sight.underrun_frames;
        }
        let passed: bool = match self.shown {
            Some(shown) => shown != sight.seconds,
            None => true,
        };
        self.shown = Some(sight.seconds);
        if passed {
            Look::Show
        } else {
            Look::Nothing
        }
    }
}

/// What is said of the silence that filled underruns, `milliseconds` long.
pub fn dropout_text(frames: u64, milliseconds: &str) -> (line: String)
    ensures
        line@ == "  "@ + text::decimal(frames as nat) + " frames of silence filled underruns ("@
            + milliseconds@ + " ms); raise --buffer-ms"@,
{
    let mut line: String = text::with_number("  ", frames);
    line.append(" frames of silence filled underruns (");
    line.append(milliseconds);
    line.append(" ms); raise --buffer-ms");
    line
}

/// What a track that stopped short is reported as.
pub fn stall_text(name: &str, at: u64) -> (line: String)
    ensures
        line@ == name@ + ": stopped accepting transfers at "@ + clock_text(at as int)
            + "; the track did not play out"@,
{
    let mut line: String = text::owned(name);
    line.append(": stopped accepting transfers at ");
    line.append(clock(at).as_str());
    line.append("; the track did not play out");
    line
}

/// A seek lands as near to where it was aimed as the recording reaches: no place in it is nearer.
pub proof fn a_seek_lands_as_near_as_it_can(
    played: int,
    delta: int,
    per_second: int,
    total: int,
    other: int,
)
    requires
        0 <= total,
        0 <= other <= total,
    ensures
        ({
            let aimed = played + delta * per_second;
            let place = shifted(played, delta, per_second, total);
            &&& 0 <= place <= total
            &&& aimed <= other ==> place - aimed <= other - aimed
            &&& other <= aimed ==> aimed - place <= aimed - other
            &&& other == aimed ==> place == aimed
        }),
{
}

/// A queue holds as much of the stream as was asked for, four of the reader's chunks and the
/// smallest queue, and no more than the most of these.
pub proof fn a_queue_is_no_larger_than_it_must_be(
    rate: int,
    channels: int,
    buffer_ms: int,
    chunk_frames: int,
)
    ensures
        ({
            let words = queue_words(rate, channels, buffer_ms, chunk_frames);
            &&& words >= 16_384
            &&& words >= 4 * (chunk_frames * channels)
            &&& words * 1000 > rate * channels * buffer_ms - 1000
            &&& {
                ||| words == 16_384
                ||| words == 4 * (chunk_frames * channels)
                ||| words * 1000 <= rate * channels * buffer_ms
            }
        }),
{
}

/// A rate that Core Audio advertises, or that a probe proved, is carried, and asking changes
/// nothing; one that only the clock claims is worth a probe; any other is not carried. What is
/// asked of one rate makes no difference to another.
pub proof fn what_is_known_of_a_rate_settles_it(rates: Rates, rate: u32, other: u32)
    requires
        other != rate,
    ensures
        ({
            let (answer, left) = rates.asked(rate);
            let carried = rates.advertised.contains(rate) || rates.probed.contains(rate);
            &&& carried <==> answer == Carries::Yes
            &&& answer == Carries::Probe <==> !carried && rates.unprobed.contains(rate)
            &&& answer != Carries::Probe ==> left == rates
            &&& left.asked(other).0 == rates.asked(other).0
            &&& left.settled(rate, true).asked(other).0 == rates.asked(other).0
            &&& left.settled(rate, false).asked(other).0 == rates.asked(other).0
        }),
{
    let left = rates.asked(rate).1;
    lemma_without(rates.unprobed, rate);
    let more = left.probed.push(rate);
    if more.contains(other) {
        let at = more.index_of(other);
        assert(at < left.probed.len());
        assert(left.probed[at] == other);
    }
    if left.probed.contains(other) {
        assert(more[left.probed.index_of(other)] == other);
    }
}

/// The rates worth a probe are those DoP can go at which the clock reports and Core Audio does
/// not advertise, each once and in rising order.
pub proof fn rates_in_dispute_are_worth_a_probe(
    clock: Seq<u32>,
    advertised: Seq<u32>,
    rate: u32,
)
    ensures
        disputed(clock, advertised, 0).contains(rate) <==> (rate == 176_400 || rate == 352_800
            || rate == 705_600 || rate == 1_411_200) && clock.contains(rate)
            && !advertised.contains(rate),
        forall|i: int, j: int|
            0 <= i < j < disputed(clock, advertised, 0).len() ==> disputed(clock, advertised, 0)[i]
                < disputed(clock, advertised, 0)[j],
{
    lemma_disputed(clock, advertised, 0);
    assert(DOP_PCM_RATES[0] == 176_400 && DOP_PCM_RATES[1] == 352_800 && DOP_PCM_RATES[2]
        == 705_600 && DOP_PCM_RATES[3] == 1_411_200);
    let found = disputed(clock, advertised, 0);
    if (rate == 176_400 || rate == 352_800 || rate == 705_600 || rate == 1_411_200)
        && clock.contains(rate) && !advertised.contains(rate) {
        let index = if rate == 176_400 {
            0int
        } else if rate == 352_800 {
            1
        } else if rate == 705_600 {
            2
        } else {
            3
        };
        assert(DOP_PCM_RATES[index] == rate);
    }
}

proof fn lemma_disputed(clock: Seq<u32>, advertised: Seq<u32>, index: int)
    requires
        0 <= index <= 4,
    ensures
        ({
            let found = disputed(clock, advertised, index);
            &&& forall|rate: u32| #[trigger]
                found.contains(rate) ==> clock.contains(rate) && !advertised.contains(rate)
                    && exists|k: int| index <= k < 4 && #[trigger] DOP_PCM_RATES[k] == rate
            &&& forall|k: int|
                index <= k < 4 && clock.contains(#[trigger] DOP_PCM_RATES[k])
                    && !advertised.contains(DOP_PCM_RATES[k]) ==> found.contains(DOP_PCM_RATES[k])
            &&& forall|i: int, j: int| 0 <= i < j < found.len() ==> found[i] < found[j]
        }),
    decreases 4 - index,
{
    assert(DOP_PCM_RATES[0] == 176_400 && DOP_PCM_RATES[1] == 352_800 && DOP_PCM_RATES[2]
        == 705_600 && DOP_PCM_RATES[3] == 1_411_200);
    if index < 4 {
        lemma_disputed(clock, advertised, index + 1);
        let rest = disputed(clock, advertised, index + 1);
        let found = disputed(clock, advertised, index);
        let first = DOP_PCM_RATES[index];
        if clock.contains(first) && !advertised.contains(first) {
            assert(found == seq![first] + rest);
            assert(found[0] == first);
            assert forall|rate: u32| #[trigger] found.contains(rate) implies clock.contains(rate)
                && !advertised.contains(rate) && exists|k: int|
                index <= k < 4 && #[trigger] DOP_PCM_RATES[k] == rate by {
                let at = found.index_of(rate);
                if at > 0 {
                    assert(rest[at - 1] == rate);
                    assert(rest.contains(rate));
                }
            }
            assert forall|k: int|
                index <= k < 4 && clock.contains(#[trigger] DOP_PCM_RATES[k])
                    && !advertised.contains(DOP_PCM_RATES[k]) implies found.contains(
                DOP_PCM_RATES[k],
            ) by {
                if k > index {
                    assert(rest.contains(DOP_PCM_RATES[k]));
                    assert(found[1 + rest.index_of(DOP_PCM_RATES[k])] == DOP_PCM_RATES[k]);
                }
            }
            assert forall|i: int, j: int| 0 <= i < j < found.len() implies found[i] < found[j] by {
                assert(found[j] == rest[j - 1]);
                if i == 0 {
                    assert(rest.contains(rest[j - 1]));
                    let k = choose|k: int| index + 1 <= k < 4 && #[trigger] DOP_PCM_RATES[k]
                        == rest[j - 1];
                    assert(first < DOP_PCM_RATES[k]);
                } else {
                    assert(found[i] == rest[i - 1]);
                }
            }
        }
    }
}

/// A time shows as its minutes and two digits of seconds.
pub proof fn a_time_shows_two_digits_of_seconds(minutes: nat, tens: int, ones: int)
    requires
        0 <= tens < 6,
        0 <= ones < 10,
    ensures
        clock_text(minutes * 60 + tens * 10 + ones) == text::decimal(minutes) + seq![
            ':',
            text::digit(tens),
            text::digit(ones),
        ],
{
    let seconds = minutes * 60 + tens * 10 + ones;
    assert(seconds / 60 == minutes && seconds % 60 == tens * 10 + ones);
    let left = (tens * 10 + ones) as nat;
    reveal_strlit(":0");
    reveal_strlit(":");
    assert(left / 10 == tens && left % 10 == ones);
    let shown = clock_text(seconds);
    let head = text::decimal(minutes);
    let tail = seq![':', text::digit(tens), text::digit(ones)];
    if tens > 0 {
        assert(text::decimal(tens as nat) == seq![text::digit(tens)]);
        assert(text::decimal(left) =~= seq![text::digit(tens), text::digit(ones)]);
        assert(shown =~= head + tail);
    } else {
        assert(text::decimal(left) =~= seq![text::digit(ones)]);
        assert(text::digit(0) == '0');
        assert(shown =~= head + tail);
    }
}

/// A recording has played out once its reader is done and nothing is left in the queue, and not
/// before.
pub proof fn a_recording_has_played_out_once_nothing_is_left(counters: Counters)
    ensures
        !counters.finished ==> !counters.complete(),
        counters.finished ==> counters.complete() == (counters.ahead() == 0),
        counters.frames_written == counters.frames_played + counters.ahead() || (
        counters.frames_written < counters.frames_played && counters.ahead() == 0),
{
}

} // verus!
