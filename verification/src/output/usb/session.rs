//! Playing one file over the native DSD path.
//!
//! This is the DoP session's sibling: a reader thread packs planar DSD into native subslots
//! and a ring feeds the isochronous engine. It exists separately because the two carry
//! different units -- DoP queues carrier samples, native queues raw bytes.

use crate::dop;
use crate::dsd::DsdFormat;
use crate::native;
use crate::output::queue;
use crate::output::usb::device;
use crate::output::usb::device::Dac;
use crate::player;
use crate::player::{DeviceInfo, FeedStep};
use crate::reader;
use crate::reader::source::{DsdTrack, Source};
use crate::reader::{DsdSource, ReadError};
use crate::text;
use rtrb::Producer;
use vstd::prelude::*;

verus! {

/// Smallest ring worth having, whatever the buffer length asks for.
pub const MIN_RING: usize = 65_536;

/// What a native session is playing and where.
#[derive(Debug, PartialEq, Eq)]
pub struct NativeInfo {
    pub name: String,
    pub format: DsdFormat,
    pub container: &'static str,
    pub frame_rate: u32,
    /// Straight from the reader. `total_frames` divides it, so storing the frame count
    /// instead would round a file that is not a whole number of frames down.
    pub bytes_per_channel: u64,
}

impl NativeInfo {
    /// What the DAC is described as while it plays natively.
    pub fn device(&self) -> (info: DeviceInfo)
        ensures
            info.name@ == self.name@,
            info.carrier@ == "native DSD"@,
            info.bits == 32,
            info.pcm_rate == self.frame_rate,
            info.buffer_frames == self.frame_rate / 8_000 * 32,
            info.transport@ == "integer"@,
            info.exclusive,
            info.mixing_disabled,
    {
        DeviceInfo {
            name: text::owned(self.name.as_str()),
            carrier: "native DSD",
            bits: 32,
            pcm_rate: self.frame_rate,
            buffer_frames: self.buffer_frames(),
            transport: "integer",
            exclusive: true,
            mixing_disabled: true,
        }
    }

    pub fn total_frames(&self) -> (frames: u64)
        ensures
            frames == self.bytes_per_channel / 4,
    {
        self.bytes_per_channel / native::BYTES_PER_SUBSLOT as u64
    }

    /// Where `delta` seconds from `frame` lands, in DSD bytes per channel, clamped to the
    /// recording.
    pub fn seek_place(&self, frame: u64, delta: i64) -> (place: u64)
        requires
            frame <= self.bytes_per_channel / 4,
        ensures
            place == player::shifted(
                frame * 4,
                delta as int,
                (self.format.rate.0 / 8) as int,
                self.bytes_per_channel as int,
            ),
    {
        player::seek_to(
            frame * native::BYTES_PER_SUBSLOT as u64,
            delta,
            self.format.rate.hz() / 8,
            self.bytes_per_channel,
        )
    }

    /// Audio frames in flight per isochronous transfer.
    pub fn buffer_frames(&self) -> (frames: u32)
        ensures
            frames == self.frame_rate / 8_000 * 32,
    {
        self.frame_rate / 8_000 * 32
    }
}

/// Bytes the ring holds: so many milliseconds of the stream, and never less than the smallest
/// ring.
pub open spec fn ring_bytes(frame_rate: int, frame_bytes: int, buffer_ms: int) -> int {
    let wanted = frame_rate * frame_bytes * buffer_ms / 1000;
    if wanted < MIN_RING {
        MIN_RING as int
    } else {
        wanted
    }
}

/// Bytes the ring holds: so many milliseconds of the stream, and never less than the smallest
/// ring. More than can be addressed is as much as can be.
pub fn capacity(format: DsdFormat, buffer_ms: u32) -> (bytes: usize)
    ensures
        ({
            let wanted = ring_bytes(
                format.rate.0 as int / 32,
                format.channels * 4,
                buffer_ms as int,
            );
            bytes == if wanted < usize::MAX {
                wanted
            } else {
                usize::MAX as int
            }
        }),
{
    let rate: u32 = format.rate.native_frame_rate();
    let frame_bytes: u64 = format.channels as u64 * native::BYTES_PER_SUBSLOT as u64;
    assert(0 <= rate * frame_bytes <= 0x800_0000 * 0x4_0000) by (nonlinear_arith)
        requires
            0 <= rate <= 0x800_0000,
            0 <= frame_bytes <= 0x4_0000,
    ;
    let per_second: u128 = rate as u128 * frame_bytes as u128;
    assert(0 <= per_second * buffer_ms <= 0x2_0000_0000_0000 * 0xffff_ffff) by (nonlinear_arith)
        requires
            0 <= per_second <= 0x2_0000_0000_0000,
            0 <= buffer_ms <= 0xffff_ffff,
    ;
    let wanted: u128 = per_second * buffer_ms as u128 / 1000;
    if wanted < MIN_RING as u128 {
        MIN_RING
    } else if wanted < usize::MAX as u128 {
        wanted as usize
    } else {
        usize::MAX
    }
}

/// Why no DAC was found to play to.
#[derive(Debug, PartialEq, Eq)]
pub enum NoDac {
    NoneAttached,
    NotOne { device: String, names: Vec<String> },
}

impl NoDac {
    /// What went wrong, in a line.
    pub fn message(&self) -> (line: String)
        ensures
            line@ == (match self {
                NoDac::NoneAttached =>
                    "no attached USB DAC advertises a native DSD alternate setting"@,
                NoDac::NotOne { device, names } => device@
                    + " is not a USB DAC that plays native DSD; these are, and --device names one: "@
                    + text::listing(text::views(names@)),
            }),
    {
        match self {
            NoDac::NoneAttached => text::owned(
                "no attached USB DAC advertises a native DSD alternate setting",
            ),
            NoDac::NotOne { device, names } => {
                let mut line: String = text::owned(device.as_str());
                line.append(
                    " is not a USB DAC that plays native DSD; these are, and --device names one: ",
                );
                line.append(text::listed(names).as_str());
                line
            },
        }
    }
}

/// The first DAC from `index` on that a name names.
pub open spec fn first_named(dacs: Seq<Dac>, name: Seq<char>, index: int) -> Option<int>
    decreases dacs.len() - index,
{
    if index >= dacs.len() {
        None
    } else if device::same_device(dacs[index].name@, name) {
        Some(index)
    } else {
        first_named(dacs, name, index + 1)
    }
}

/// The DAC that the query names, or else the one that the device's own name names.
pub open spec fn dac_for(dacs: Seq<Dac>, query: Option<Seq<char>>, device: Seq<char>) -> Option<int> {
    let by_query = match query {
        Some(query) => first_named(dacs, query, 0),
        None => None,
    };
    match by_query {
        Some(_) => by_query,
        None => first_named(dacs, device, 0),
    }
}

fn position(dacs: &Vec<Dac>, name: &str) -> (found: Option<usize>)
    ensures
        match first_named(dacs@, name@, 0) {
            Some(index) => found == Some(index as usize) && 0 <= index < dacs@.len(),
            None => found is None,
        },
{
    let mut i: usize = 0;
    while i < dacs.len()
        invariant
            i <= dacs@.len(),
            first_named(dacs@, name@, 0) == first_named(dacs@, name@, i as int),
        decreases dacs@.len() - i,
    {
        if dacs[i].matches(name) {
            return Some(i);
        }
        i += 1;
    }
    None
}

/// Pick the DAC the resolved target names.
///
/// `device_name` is the Core Audio name the target resolved to, and `query` is what the user
/// typed, which may be a fragment or a UID. Either can name the DAC, so both are tried --
/// but nothing else is: falling back to "the only DAC attached" would stream to a device the
/// user did not choose.
pub fn find_dac(query: Option<&str>, device_name: &str, dacs: &Vec<Dac>) -> (out: Result<
    usize,
    NoDac,
>)
    ensures
        ({
            let asked = match query {
                Some(query) => Some(query@),
                None => None,
            };
            match dac_for(dacs@, asked, device_name@) {
                Some(index) => out == Ok::<usize, NoDac>(index as usize) && 0 <= index
                    < dacs@.len(),
                None => if dacs@.len() == 0 {
                    out matches Err(NoDac::NoneAttached)
                } else {
                    out matches Err(NoDac::NotOne { device, names }) && device@ == device_name@
                        && text::views(names@) == dacs@.map_values(|dac: Dac| dac.name@)
                },
            }
        }),
{
    if dacs.len() == 0 {
        return Err(NoDac::NoneAttached);
    }
    if let Some(query) = query {
        if let Some(index) = position(dacs, query) {
            return Ok(index);
        }
    }
    if let Some(index) = position(dacs, device_name) {
        return Ok(index);
    }
    let mut names: Vec<String> = Vec::new();
    let mut i: usize = 0;
    while i < dacs.len()
        invariant
            i <= dacs@.len(),
            names@.len() == i,
            forall|k: int| 0 <= k < i ==> (#[trigger] names@[k])@ == dacs@[k].name@,
        decreases dacs@.len() - i,
    {
        names.push(text::owned(dacs[i].name.as_str()));
        i += 1;
    }
    assert(text::views(names@) =~= dacs@.map_values(|dac: Dac| dac.name@));
    Err(NoDac::NotOne { device: text::owned(device_name), names })
}

/// The first `count` bytes of every channel as native subslots: frame by frame, then channel
/// by channel, then four bytes in the order they play. A frame that is not filled ends in
/// silence.
pub open spec fn subslots(planes: Seq<Seq<u8>>, count: int) -> Seq<u8> {
    let channels = planes.len() as int;
    Seq::new(
        (native::frames_for(count) * channels * 4) as nat,
        |at: int|
            dop::byte_or_silence(
                planes[at / 4 % channels].subrange(0, count),
                at / 4 / channels * 4 + at % 4,
            ),
    )
}

/// What a reader thread packs for the native path.
pub struct NativeFeed {
    pub source: DsdTrack,
    pub planes: Vec<Box<[u8]>>,
}

impl NativeFeed {
    pub open spec fn wf(&self) -> bool {
        &&& reader::ready(
            self.source.wf(),
            self.source.recording(),
            self.source.position(),
            self.source.upcoming(),
        )
        &&& self.planes@.len() == self.source.recording().format.channels
        &&& reader::planes_hold(self.planes@, self.source.recording())
    }

    /// Take the DSD out of an open recording, if it holds any.
    pub fn of(source: Source) -> (out: Option<Self>)
        requires
            source.wf(),
        ensures
            match source {
                Source::Dsd { source: track, .. } => out matches Some(feed) && feed.wf()
                    && feed.source == track,
                Source::Pcm(_) => out is None,
            },
    {
        match source {
            Source::Dsd { source, planes } => Some(NativeFeed { source, planes }),
            Source::Pcm(_) => None,
        }
    }

    /// Append the next of the recording to `packed`, as native subslots. Returns frames
    /// appended, 0 at the end.
    pub fn read(&mut self, packed: &mut Vec<u8>) -> (out: Result<usize, ReadError>)
        requires
            old(self).wf(),
        ensures
            old(self).source.recording().exact ==> out is Ok,
            final(self).wf(),
            final(self).source.recording() == old(self).source.recording(),
            match out {
                Ok(frames) => {
                    &&& gives(
                        old(self).source,
                        final(self).source,
                        frames as int,
                        old(packed)@,
                        final(packed)@,
                    )
                    &&& frames == 0 ==> old(self).source.ending() is None
                },
                Err(error) => {
                    &&& old(self).source.upcoming()[0].len() == 0
                    &&& old(self).source.ending() == Some(error)
                    &&& goes_on(old(self).source, final(self).source)
                    &&& final(packed)@ == old(packed)@
                },
            },
    {
        let ghost before = self.source.upcoming();
        let ghost channels = self.source.recording().format.channels as int;
        let count: usize = match self.source.read(self.planes.as_mut_slice()) {
            Ok(count) => count,
            Err(error) => {
                return Err(error);
            },
        };
        if count == 0 {
            return Ok(0);
        }
        proof {
            reader::lemma_rest(before, channels, 0, count as int);
            assert(reader::rest(before, 0) =~= before) by {
                assert forall|c: int| 0 <= c < channels implies #[trigger] reader::rest(
                    before,
                    0,
                )[c] == before[c] by {
                    assert(before[c].skip(0) =~= before[c]);
                }
            }
        }
        let mut slices: Vec<&[u8]> = Vec::new();
        let mut c: usize = 0;
        while c < self.planes.len()
            invariant
                c <= self.planes@.len() == channels,
                before.len() == channels,
                slices@.len() == c,
                forall|k: int| 0 <= k < channels ==> (#[trigger] self.planes@[k])@.len() >= count,
                forall|k: int| 0 <= k < channels ==> (#[trigger] before[k]).len() >= count,
                forall|k: int, i: int|
                    0 <= k < channels && 0 <= i < count ==> #[trigger] self.planes@[k]@[i]
                        == before[k][i],
                forall|k: int|
                    0 <= k < c ==> (#[trigger] slices@[k])@ == before[k].subrange(0, count as int),
            decreases self.planes@.len() - c,
        {
            let slice: &[u8] = vstd::slice::slice_subrange(&*self.planes[c], 0, count);
            assert(slice@ =~= before[c as int].subrange(0, count as int));
            slices.push(slice);
            c += 1;
        }
        let frames: usize = native::pack_planes(slices.as_slice(), packed);
        proof {
            let whole = subslots(before, count as int);
            assert forall|at: int| 0 <= at < whole.len() implies #[trigger] whole[at]
                == native::packed(slices@)[at] by {
                vstd::arithmetic::div_mod::lemma_mod_bound(at / 4, channels);
            }
            assert(native::packed(slices@) =~= whole);
        }
        Ok(frames)
    }
}

/// The end or the fault behind what was to come has been reported, and reading goes on behind
/// it.
pub open spec fn goes_on(before: DsdTrack, after: DsdTrack) -> bool {
    reader::course(after.upcoming(), after.ending(), after.later()) == reader::onward(
        before.later(),
        reader::no_bytes(before.recording().format.channels as int),
    )
}

/// A read of `frames` native frames takes a reader from `before` to `after`, and a buffer from
/// `held` to `filled`: the next audio joins what was there, and only the end gives none.
pub open spec fn gives(
    before: DsdTrack,
    after: DsdTrack,
    frames: int,
    held: Seq<u8>,
    filled: Seq<u8>,
) -> bool {
    let count = before.upcoming()[0].len() - after.upcoming()[0].len();
    if before.upcoming()[0].len() == 0 {
        frames == 0 && filled == held && goes_on(before, after)
    } else {
        &&& 0 < count <= before.recording().chunk
        &&& frames == native::frames_for(count)
        &&& filled == held + subslots(before.upcoming(), count)
        &&& after.upcoming() == reader::rest(before.upcoming(), count)
        &&& after.ending() == before.ending()
        &&& after.later() == before.later()
    }
}

/// The reader's side of the native ring: the recording, the chunk of it in flight, and how far
/// it has got.
pub struct NativeFeeder {
    pub feed: NativeFeed,
    pub producer: Producer<u8>,
    /// The chunk that was packed last.
    pub packed: Vec<u8>,
    /// How much of that chunk the ring has taken.
    pub offset: usize,
    pub frames_written: u64,
    pub finished: bool,
}

impl NativeFeeder {
    pub open spec fn wf(&self) -> bool {
        &&& self.feed.wf()
        &&& self.offset <= self.packed@.len()
    }

    /// What has been packed and is not queued yet.
    pub open spec fn pending(&self) -> Seq<u8> {
        self.packed@.skip(self.offset as int)
    }

    /// Bytes of one frame.
    pub open spec fn frame(&self) -> int {
        self.feed.source.recording().format.channels * 4
    }

    pub fn new(feed: NativeFeed, producer: Producer<u8>) -> (feeder: Self)
        requires
            feed.wf(),
        ensures
            feeder.wf(),
            feeder.feed == feed,
            feeder.producer == producer,
            feeder.pending() == Seq::<u8>::empty(),
            feeder.frames_written == 0,
            !feeder.finished,
    {
        let feeder: NativeFeeder = NativeFeeder {
            feed,
            producer,
            packed: Vec::new(),
            offset: 0,
            frames_written: 0,
            finished: false,
        };
        assert(feeder.pending() =~= Seq::empty());
        feeder
    }

    /// Read and pack a chunk, or hand the ring as much of the chunk in flight as it has room
    /// for. Nothing is read while a chunk is in flight, so everything that is read is queued in
    /// the order it was read in.
    pub fn step(&mut self, stop: bool) -> (out: Result<FeedStep, ReadError>)
        requires
            old(self).wf(),
        ensures
            final(self).wf(),
            stop ==> out == Ok::<FeedStep, ReadError>(FeedStep::Leave) && *final(self) == *old(self),
            !stop && old(self).pending().len() > 0 ==> {
                let taken = final(self).offset - old(self).offset;
                &&& taken == queue::fitting(
                    queue::byte_room(final(self).producer) + taken,
                    old(self).pending().len() as int,
                )
                &&& taken >= 0
                &&& out == Ok::<FeedStep, ReadError>(
                    if taken == 0 {
                        FeedStep::Wait
                    } else {
                        FeedStep::Go
                    },
                )
                &&& final(self).feed == old(self).feed
                &&& final(self).packed == old(self).packed
                &&& queue::bytes_written(final(self).producer) + final(self).pending()
                    == queue::bytes_written(old(self).producer) + old(self).pending()
                &&& queue::bytes_written(final(self).producer).len() == queue::bytes_written(
                    old(self).producer,
                ).len() + taken
                &&& final(self).frames_written == (old(self).frames_written + taken
                    / old(self).frame()) % 0x1_0000_0000_0000_0000
                &&& final(self).finished == old(self).finished
            },
            !stop && old(self).pending().len() == 0 ==> {
                &&& final(self).producer == old(self).producer
                &&& final(self).frames_written == old(self).frames_written
                &&& old(self).feed.source.recording().exact ==> out is Ok
                &&& final(self).feed.source.recording() == old(self).feed.source.recording()
                &&& match out {
                    Ok(step) => {
                        &&& gives(
                            old(self).feed.source,
                            final(self).feed.source,
                            final(self).pending().len() as int / old(self).frame(),
                            Seq::empty(),
                            final(self).pending(),
                        )
                        &&& if final(self).pending().len() == 0 {
                            &&& step == FeedStep::Park && final(self).finished
                            &&& old(self).feed.source.ending() is None
                        } else {
                            step == FeedStep::Go && final(self).finished == old(self).finished
                        }
                    },
                    Err(error) => {
                        &&& final(self).pending() == Seq::<u8>::empty()
                        &&& old(self).feed.source.upcoming()[0].len() == 0
                        &&& old(self).feed.source.ending() == Some(error)
                        &&& goes_on(old(self).feed.source, final(self).feed.source)
                        &&& final(self).finished == old(self).finished
                    },
                }
            },
    {
        if stop {
            return Ok(FeedStep::Leave);
        }
        if self.offset < self.packed.len() {
            let channels: u16 = self.feed.source.format().channels;
            let frame_bytes: usize = channels as usize * native::BYTES_PER_SUBSLOT;
            let taken: usize = queue::offer_bytes(
                &mut self.producer,
                self.packed.as_slice(),
                self.offset,
            );
            proof {
                let written = queue::bytes_written(old(self).producer);
                let part = self.packed@.subrange(self.offset as int, self.offset + taken);
                let left = self.packed@.skip(self.offset + taken);
                assert(self.packed@.skip(self.offset as int) =~= part + left);
                assert((written + part) + left =~= written + (part + left));
            }
            self.offset = self.offset + taken;
            let frames: u64 = (taken / frame_bytes) as u64;
            self.frames_written = self.frames_written.wrapping_add(frames);
            return Ok(if taken == 0 { FeedStep::Wait } else { FeedStep::Go });
        }
        self.packed.clear();
        self.offset = 0;
        let count: usize = match self.feed.read(&mut self.packed) {
            Ok(count) => count,
            Err(error) => {
                assert(self.pending() =~= Seq::empty());
                return Err(error);
            },
        };
        assert(self.packed@.skip(0) =~= self.packed@);
        proof {
            let frame = self.frame();
            let width = self.feed.source.recording().format.channels as int;
            assert(frame >= 4 && frame == old(self).frame() && frame == width * 4);
            assert(count * width * 4 == count * frame && 0 <= count * width * 4)
                by (nonlinear_arith)
                requires
                    frame == width * 4,
                    0 <= count,
                    0 <= width,
            ;
            if count == 0 {
                assert(count * frame == 0) by (nonlinear_arith)
                    requires
                        count == 0,
                ;
            } else {
                let audio = old(self).feed.source.upcoming();
                assert(audio.len() == width);
                assert(self.packed@.len() == subslots(
                    audio,
                    audio[0].len() - self.feed.source.upcoming()[0].len(),
                ).len());
            }
            assert(self.packed@.len() == count * frame);
            vstd::arithmetic::div_mod::lemma_div_multiples_vanish(count as int, frame);
            assert(frame * count == count * frame) by (nonlinear_arith);
            assert(count > 0 ==> count * frame > 0) by (nonlinear_arith)
                requires
                    frame >= 4,
                    count >= 0,
            ;
        }
        if count == 0 {
            self.finished = true;
            return Ok(FeedStep::Park);
        }
        Ok(FeedStep::Go)
    }

    /// Drop the chunk in flight and move to a byte of every channel, clamped to the recording,
    /// counting on from the frame that holds wherever that lands. Reports that frame.
    pub fn seek(&mut self, bytes_per_channel: u64) -> (out: Result<u64, ReadError>)
        requires
            old(self).wf(),
        ensures
            out == (match old(self).feed.source.sought(bytes_per_channel as int) {
                Ok(landed) => Ok::<u64, ReadError>((landed / 4) as u64),
                Err(error) => Err::<u64, ReadError>(error),
            }),
            old(self).feed.source.recording().exact ==> out is Ok,
            final(self).wf(),
            final(self).feed.source.recording() == old(self).feed.source.recording(),
            reader::course(
                final(self).feed.source.upcoming(),
                final(self).feed.source.ending(),
                final(self).feed.source.later(),
            ) == old(self).feed.source.aimed(bytes_per_channel as int),
            final(self).producer == old(self).producer,
            final(self).pending() == Seq::<u8>::empty(),
            match out {
                Ok(frame) => {
                    let recording = old(self).feed.source.recording();
                    let goal = reader::inside(bytes_per_channel as int, recording.declared);
                    &&& frame == final(self).feed.source.position() / 4
                    &&& recording.exact ==> final(self).feed.source.position() == goal
                        / recording.step * recording.step
                    &&& final(self).frames_written == frame
                    &&& !final(self).finished
                },
                Err(_) => {
                    &&& final(self).frames_written == old(self).frames_written
                    &&& final(self).finished == old(self).finished
                },
            },
    {
        self.packed.clear();
        self.offset = 0;
        assert(self.pending() =~= Seq::empty());
        match self.feed.source.seek(bytes_per_channel) {
            Ok(landed) => {
                let frame: u64 = landed / native::BYTES_PER_SUBSLOT as u64;
                self.frames_written = frame;
                self.finished = false;
                Ok(frame)
            },
            Err(error) => Err(error),
        }
    }
}

/// A name finds the first DAC it names and no other: none before it goes by that name, and none
/// at all does where nothing is found.
pub proof fn a_name_finds_the_first_it_names(dacs: Seq<Dac>, name: Seq<char>, index: int)
    requires
        0 <= index <= dacs.len(),
    ensures
        match first_named(dacs, name, index) {
            Some(found) => {
                &&& index <= found < dacs.len()
                &&& device::same_device(dacs[found].name@, name)
                &&& forall|i: int|
                    index <= i < found ==> !device::same_device(#[trigger] dacs[i].name@, name)
            },
            None => forall|i: int|
                index <= i < dacs.len() ==> !device::same_device(#[trigger] dacs[i].name@, name),
        },
    decreases dacs.len() - index,
{
    if index < dacs.len() {
        a_name_finds_the_first_it_names(dacs, name, index + 1);
    }
}

/// What was asked for comes before what the device is called, and what the device is called
/// serves where nothing goes by what was asked for.
pub proof fn what_was_asked_for_comes_first(
    dacs: Seq<Dac>,
    query: Seq<char>,
    device: Seq<char>,
    one: int,
)
    requires
        0 <= one < dacs.len(),
        device::same_device(dacs[one].name@, query),
    ensures
        ({
            &&& dac_for(dacs, Some(query), device) matches Some(found)
            &&& 0 <= found <= one
            &&& device::same_device(dacs[found].name@, query)
        }),
        dac_for(dacs, None, query) matches Some(found) && found <= one,
{
    a_name_finds_the_first_it_names(dacs, query, 0);
    assert(device::same_device(dacs[one].name@, query));
}

/// A ring holds what was asked for and the smallest ring, and no more than the larger of them.
pub proof fn a_ring_is_no_larger_than_it_must_be(
    frame_rate: int,
    frame_bytes: int,
    buffer_ms: int,
)
    ensures
        ({
            let held = ring_bytes(frame_rate, frame_bytes, buffer_ms);
            &&& held >= 65_536
            &&& held * 1000 > frame_rate * frame_bytes * buffer_ms - 1000
            &&& held == 65_536 || held * 1000 <= frame_rate * frame_bytes * buffer_ms
        }),
{
}

/// Every byte of every channel goes into the subslot of its frame, four to each, in the order they
/// play.
pub proof fn subslots_hold_every_byte(
    planes: Seq<Seq<u8>>,
    count: int,
    channel: int,
    index: int,
)
    requires
        0 <= channel < planes.len(),
        0 <= index < count <= planes[channel].len(),
    ensures
        ({
            let at = (index / 4 * planes.len() + channel) * 4 + index % 4;
            &&& 0 <= at < subslots(planes, count).len()
            &&& subslots(planes, count)[at] == planes[channel][index]
        }),
{
    let channels = planes.len() as int;
    let frame = index / 4;
    let frames = native::frames_for(count);
    crate::rows::lemma_slot(frame, channel, channels);
    crate::rows::lemma_row_fits(frame, frames, channels);
    let slot = frame * channels + channel;
    let at = slot * 4 + index % 4;
    assert(at / 4 == slot && at % 4 == index % 4);
    assert(planes[channel].subrange(0, count)[index] == planes[channel][index]);
}

} // verus!
