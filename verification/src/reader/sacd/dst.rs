//! Direct Stream Transfer, the lossless compression a SACD stores its DSD in.
//!
//! ISO/IEC 14496-3 subpart 10. A frame codes one seventy-fifth of a second of every channel
//! and stands on its own: the prediction filters, the probability tables and the arithmetic
//! coder are all read from the frame and reset at its start, so a seek needs no history.
//!
//! The decoder predicts each DSD bit from the 128 that came before it through a filter the
//! frame carries, and codes only whether the prediction was right. Output is the DSD the
//! encoder was given, bit for bit.

use crate::dop;
use crate::dsd;
use crate::dsd::DSD_SILENCE_BYTE;
use crate::reader::sacd::bits;
pub use crate::reader::sacd::bits::Bits;
use crate::reader::sacd::coder;
use crate::reader::sacd::coder::{Coder, Coding};
use crate::reader::sacd::predict;
use crate::reader::sacd::predict::{blank_history, build_lookup};
use crate::reader::sacd::table;
use crate::reader::sacd::table::{read_map, read_table, Shape};
use crate::rows;
use crate::text;
use vstd::prelude::*;

verus! {

pub const MAX_CHANNELS: usize = 6;

/// How far down a frame is split into segments.
#[derive(Debug, Clone, Copy, PartialEq, Eq, Structural)]
pub enum Segments {
    Frame,
    AllChannels,
    EndOfChannel,
}

/// Why a frame, or a decoder, was refused.
#[derive(Debug, Clone, Copy, PartialEq, Eq, Structural)]
pub enum DstError {
    Channels { channels: usize },
    PartialByte { samples: usize },
    ShortFrame { bytes: usize },
    UncodedHeader,
    Segmented { what: Segments },
    ElementOrder { element: u32 },
    ReservedMethod,
    Probability { value: i32 },
    ReservedBit,
    FilterSum,
}

impl Segments {
    pub open spec fn words(self) -> Seq<char> {
        match self {
            Segments::Frame => ""@,
            Segments::AllChannels => " for all channels"@,
            Segments::EndOfChannel => " to the end of the channel"@,
        }
    }
}

impl DstError {
    /// What went wrong, in a line.
    pub open spec fn line(self) -> Seq<char> {
        match self {
            DstError::Channels { channels } => "DST carries at most 6 channels, not "@
                + text::decimal(channels as nat),
            DstError::PartialByte { samples } => "a DST frame of "@ + text::decimal(samples as nat)
                + " bits is not a whole number of bytes"@,
            DstError::ShortFrame { bytes } => "a DST frame of "@ + text::decimal(bytes as nat)
                + " bytes"@,
            DstError::UncodedHeader => "an uncoded DST frame with a non-zero header"@,
            DstError::Segmented { what } => "this SACD splits DST frames into segments"@
                + what.words() + ", which is not supported"@,
            DstError::ElementOrder { element } => "DST element "@ + text::decimal(element as nat)
                + " is out of order"@,
            DstError::ReservedMethod => "reserved DST coefficient prediction method"@,
            DstError::Probability { value } => "DST probability "@ + text::signed_decimal(
                value as int,
            ) + " is outside 1..=129"@,
            DstError::ReservedBit => "DST frame reserves a bit it must not set"@,
            DstError::FilterSum => "DST filter coefficients sum past what a prediction can hold"@,
        }
    }

    /// What went wrong, in a line.
    pub fn message(self) -> (line: String)
        ensures
            line@ == self.line(),
    {
        match self {
            DstError::Channels { channels } => text::with_number(
                "DST carries at most 6 channels, not ",
                channels as u64,
            ),
            DstError::PartialByte { samples } => {
                let mut line: String = text::with_number("a DST frame of ", samples as u64);
                line.append(" bits is not a whole number of bytes");
                line
            },
            DstError::ShortFrame { bytes } => {
                let mut line: String = text::with_number("a DST frame of ", bytes as u64);
                line.append(" bytes");
                line
            },
            DstError::UncodedHeader => text::owned("an uncoded DST frame with a non-zero header"),
            DstError::Segmented { what } => {
                let mut line: String = text::owned("this SACD splits DST frames into segments");
                match what {
                    Segments::Frame => line.append(""),
                    Segments::AllChannels => line.append(" for all channels"),
                    Segments::EndOfChannel => line.append(" to the end of the channel"),
                }
                line.append(", which is not supported");
                line
            },
            DstError::ElementOrder { element } => {
                let mut line: String = text::with_number("DST element ", element as u64);
                line.append(" is out of order");
                line
            },
            DstError::ReservedMethod => text::owned("reserved DST coefficient prediction method"),
            DstError::Probability { value } => {
                let mut line: String = text::owned("DST probability ");
                line.append(text::signed_decimal_of(value).as_str());
                line.append(" is outside 1..=129");
                line
            },
            DstError::ReservedBit => text::owned("DST frame reserves a bit it must not set"),
            DstError::FilterSum => text::owned(
                "DST filter coefficients sum past what a prediction can hold",
            ),
        }
    }
}

/// Everything ahead of the arithmetic-coded data.
#[verifier::ext_equal]
pub struct Header {
    pub filter_of: Seq<usize>,
    pub probability_of: Seq<usize>,
    pub half_probability: Seq<bool>,
    pub filters: Seq<Seq<i32>>,
    pub probabilities: Seq<Seq<i32>>,
}

/// The header of a coded frame: segmentation, the channel-to-element maps, which channels
/// start at an even chance, the filters, the probabilities and a bit that must stay clear.
pub open spec fn header(data: Seq<u8>, channels: int) -> table::Parsed<Header> {
    if bits::bit_at(data, 1) == 0 {
        Err(DstError::Segmented { what: Segments::Frame })
    } else if bits::bit_at(data, 2) == 0 {
        Err(DstError::Segmented { what: Segments::AllChannels })
    } else if bits::bit_at(data, 3) == 0 {
        Err(DstError::Segmented { what: Segments::EndOfChannel })
    } else {
        match table::mapping(data, 5, channels) {
            Err(error) => Err(error),
            Ok((filter_map, filters_named)) => {
                let second = if bits::bit_at(data, 4) == 1 {
                    Ok((filter_map, filters_named))
                } else {
                    table::mapping(data, filters_named, channels)
                };
                match second {
                    Err(error) => Err(error),
                    Ok((probability_map, named)) => {
                        let halves = Seq::new(
                            channels as nat,
                            |c: int| bits::bit_at(data, named + c) == 1,
                        );
                        tables(
                            data,
                            bits::past(data, named, channels),
                            filter_map,
                            probability_map,
                            halves,
                        )
                    },
                }
            },
        }
    }
}

/// The part of the header that follows the maps.
pub open spec fn tables(
    data: Seq<u8>,
    at: int,
    filter_map: table::Mapping,
    probability_map: table::Mapping,
    halves: Seq<bool>,
) -> table::Parsed<Header> {
    match table::elements(Shape::Filter, data, at, filter_map.count, Seq::empty()) {
        Err(error) => Err(error),
        Ok((filters, read)) => match table::elements(
            Shape::Probability,
            data,
            read,
            probability_map.count,
            Seq::empty(),
        ) {
            Err(error) => Err(error),
            Ok((probabilities, end)) => if bits::bit_at(data, end) == 1 {
                Err(DstError::ReservedBit)
            } else {
                Ok(
                    (
                        Header {
                            filter_of: filter_map.element_of,
                            probability_of: probability_map.element_of,
                            half_probability: halves,
                            filters,
                            probabilities,
                        },
                        bits::past(data, end, 1),
                    ),
                )
            },
        },
    }
}

/// The probability the frame's opening bit is coded against.
pub open spec fn opening_probability(coefficient: int) -> int {
    dsd::reversed((coefficient % 128) as u8) as int / 2 + 1
}

/// The probability a channel's next bit is coded against, from its prediction and from how
/// many bits it has produced.
pub open spec fn bit_probability(head: Header, channel: int, sample: int, prediction: int) -> int {
    let chances = head.probabilities[head.probability_of[channel] as int];
    let distance = if prediction < 0 {
        -prediction / 8
    } else {
        prediction / 8
    };
    if head.half_probability[channel] && sample < head.filters[head.filter_of[channel] as int].len() {
        128
    } else if distance < chances.len() {
        chances[distance] as int
    } else {
        chances[chances.len() - 1] as int
    }
}

/// The decoder part way through a frame: the coder, and the bits each channel has produced.
#[verifier::ext_equal]
pub struct Run {
    pub coding: Coding,
    pub produced: Seq<Seq<int>>,
}

/// The decoder at the head of the coded data, with the opening bit taken out of the coder.
pub open spec fn run_start(head: Header, data: Seq<u8>, at: int, width: int) -> Run {
    Run {
        coding: coder::coding_next(
            data,
            coder::coding_start(data, at),
            opening_probability(head.filters[0][0] as int),
        ),
        produced: Seq::new(width as nat, |c: int| Seq::empty()),
    }
}

/// The bit a channel produces next: its prediction's sign, corrected by the coded residual.
pub open spec fn next_bit(prediction: int, residual: int) -> int {
    if (prediction < 0) != (residual == 1) {
        1
    } else {
        0
    }
}

/// The decoder after one more bit of one channel.
pub open spec fn run_step(head: Header, data: Seq<u8>, run: Run, channel: int) -> Run {
    let before = run.produced[channel];
    let prediction = predict::prediction(head.filters[head.filter_of[channel] as int], before);
    let p = bit_probability(head, channel, before.len() as int, prediction);
    Run {
        coding: coder::coding_next(data, run.coding, p),
        produced: run.produced.update(
            channel,
            before.push(next_bit(prediction, coder::coded_bit(run.coding, p))),
        ),
    }
}

/// The decoder after `steps` bits, the channels taking turns.
pub open spec fn run_after(head: Header, data: Seq<u8>, at: int, width: int, steps: int) -> Run
    decreases steps,
{
    if steps <= 0 {
        run_start(head, data, at, width)
    } else {
        run_step(
            head,
            data,
            run_after(head, data, at, width, steps - 1),
            (steps - 1) % width,
        )
    }
}

/// Bit `index` of a run of bits, or zero past its end.
pub open spec fn bit_or_zero(produced: Seq<int>, index: int) -> int {
    if 0 <= index < produced.len() {
        produced[index]
    } else {
        0
    }
}

/// Byte `index` of a run of bits, the earliest bit in bit 7.
pub open spec fn byte_of(produced: Seq<int>, index: int) -> int {
    bit_or_zero(produced, index * 8) * 128 + bit_or_zero(produced, index * 8 + 1) * 64
        + bit_or_zero(produced, index * 8 + 2) * 32 + bit_or_zero(produced, index * 8 + 3) * 16
        + bit_or_zero(produced, index * 8 + 4) * 8 + bit_or_zero(produced, index * 8 + 5) * 4
        + bit_or_zero(produced, index * 8 + 6) * 2 + bit_or_zero(produced, index * 8 + 7)
}

/// What a frame decodes to: `bytes` bytes for each of the first `width` channels, or why it
/// is refused. It depends on nothing but the frame.
pub open spec fn decoded(frame: Seq<u8>, channels: int, samples: int, width: int) -> Result<
    Seq<Seq<u8>>,
    DstError,
> {
    if frame.len() <= 1 {
        Err(DstError::ShortFrame { bytes: frame.len() as usize })
    } else if bits::bit_at(frame, 0) == 0 {
        if frame[0] % 64 != 0 {
            Err(DstError::UncodedHeader)
        } else {
            Ok(
                Seq::new(
                    width as nat,
                    |c: int|
                        Seq::new(
                            (samples / 8) as nat,
                            |i: int|
                                dop::byte_or_silence(
                                    frame.subrange(1, frame.len() as int),
                                    i * channels + c,
                                ),
                        ),
                ),
            )
        }
    } else {
        match header(frame, channels) {
            Err(error) => Err(error),
            Ok((head, at)) => if predict::all_sums_fit(head.filters) {
                Ok(
                    Seq::new(
                        width as nat,
                        |c: int|
                            Seq::new(
                                (samples / 8) as nat,
                                |i: int|
                                    byte_of(
                                        run_after(
                                            head,
                                            frame,
                                            at,
                                            width,
                                            samples * width,
                                        ).produced[c],
                                        i,
                                    ) as u8,
                            ),
                    ),
                )
            } else {
                Err(DstError::FilterSum)
            },
        }
    }
}

/// A frame that holds its audio as it is: a header of zeros, and the channels byte by byte in
/// turn.
pub open spec fn uncoded_frame(audio: Seq<Seq<u8>>, bytes: int) -> Seq<u8> {
    let channels = audio.len() as int;
    seq![0u8] + Seq::new((bytes * channels) as nat, |at: int| audio[at % channels][at / channels])
}

/// A frame that is not coded decodes to the audio it holds.
pub proof fn uncoded_frames_are_kept(audio: Seq<Seq<u8>>, bytes: int)
    requires
        1 <= audio.len(),
        1 <= bytes,
        forall|c: int| 0 <= c < audio.len() ==> (#[trigger] audio[c]).len() == bytes,
    ensures
        decoded(
            uncoded_frame(audio, bytes),
            audio.len() as int,
            bytes * 8,
            audio.len() as int,
        ) == Ok::<Seq<Seq<u8>>, DstError>(audio),
{
    let channels = audio.len() as int;
    let frame = uncoded_frame(audio, bytes);
    let body = frame.subrange(1, frame.len() as int);
    assert(bytes * channels >= 1) by (nonlinear_arith)
        requires
            bytes >= 1,
            channels >= 1,
    ;
    assert(frame[0] == 0);
    assert(bits::bit_at(frame, 0) == 0);
    let out = Seq::new(
        channels as nat,
        |c: int|
            Seq::new(
                (bytes * 8 / 8) as nat,
                |i: int| dop::byte_or_silence(body, i * channels + c),
            ),
    );
    assert(decoded(frame, channels, bytes * 8, channels) == Ok::<Seq<Seq<u8>>, DstError>(out));
    assert forall|c: int| 0 <= c < channels implies out[c] =~= audio[c] by {
        assert forall|i: int| 0 <= i < bytes implies out[c][i] == audio[c][i] by {
            rows::lemma_slot(i, c, channels);
            rows::lemma_row_fits(i, bytes, channels);
            assert(body[i * channels + c] == frame[i * channels + c + 1]);
        }
    }
    assert(out =~= audio);
}

/// A residual of zero says the prediction was right, and a negative one is a prediction of a one;
/// a residual of one says it was wrong. So whatever a filter predicts, each bit is what one
/// residual and no other makes of it, and there is no audio that a frame could not hold.
pub proof fn a_residual_corrects_any_prediction(prediction: int, bit: int)
    requires
        0 <= bit <= 1,
    ensures
        next_bit(prediction, 0) == (if prediction < 0 {
            1int
        } else {
            0
        }),
        next_bit(prediction, 1) == (if prediction < 0 {
            0int
        } else {
            1
        }),
        exists|residual: int|
            0 <= residual <= 1 && #[trigger] next_bit(prediction, residual) == bit,
        forall|a: int, b: int|
            0 <= a <= 1 && 0 <= b <= 1 && #[trigger] next_bit(prediction, a)
                == #[trigger] next_bit(prediction, b) ==> a == b,
{
    assert(next_bit(prediction, 0) == bit || next_bit(prediction, 1) == bit);
}

/// The header as it is held while a frame decodes.
struct FrameHeader {
    filter_of: Vec<usize>,
    probability_of: Vec<usize>,
    half_probability: Vec<bool>,
    filters: Vec<Vec<i32>>,
    probabilities: Vec<Vec<i32>>,
}

impl FrameHeader {
    spec fn view(self) -> Header {
        Header {
            filter_of: self.filter_of@,
            probability_of: self.probability_of@,
            half_probability: self.half_probability@,
            filters: table::table_view(self.filters@),
            probabilities: table::table_view(self.probabilities@),
        }
    }

    spec fn wf(self, channels: int) -> bool {
        &&& table::map_wf(self.filter_of@, self.filters@.len() as int, channels)
        &&& table::map_wf(self.probability_of@, self.probabilities@.len() as int, channels)
        &&& self.half_probability@.len() == channels
        &&& table::table_wf(Shape::Filter, self@.filters)
        &&& table::table_wf(Shape::Probability, self@.probabilities)
    }
}

/// The probability the frame's opening bit is coded against: the first filter coefficient's
/// low seven bits, reversed. It exists so that bit costs about as much as any other.
pub fn half_byte_probability(coefficient: i32) -> (p: u32)
    ensures
        p == opening_probability(coefficient as int),
        1 <= p <= 128,
{
    let low: u8 = ((coefficient as i64 + 0x1_0000_0000) % 128) as u8;
    proof {
        assert(low == coefficient as int % 128);
        assert(dsd::reversed(low) == low % 2 * 128 + low / 2 % 2 * 64 + low / 4 % 2 * 32 + low / 8 % 2
            * 16 + low / 16 % 2 * 8 + low / 32 % 2 * 4 + low / 64 % 2 * 2 + low / 128);
    }
    dsd::BitOrder::LsbFirst.normalize_byte(low) as u32 / 2 + 1
}

/// Everything ahead of the arithmetic-coded data: segmentation, the channel-to-element
/// maps, the filters and the probability tables.
fn read_header(bits: &mut Bits, channels: usize) -> (out: Result<FrameHeader, DstError>)
    requires
        old(bits).wf(),
        old(bits).at() == 1,
        old(bits).data().len() >= 2,
        1 <= channels <= MAX_CHANNELS,
    ensures
        final(bits).wf(),
        final(bits).data() == old(bits).data(),
        match header(old(bits).data(), channels as int) {
            Ok((head, end)) => {
                &&& out matches Ok(read)
                &&& read@ == head
                &&& read.wf(channels as int)
                &&& final(bits).at() == end
            },
            Err(error) => out == Err::<FrameHeader, DstError>(error),
        },
{
    let ghost data = bits.data();
    // Every disc in the wild codes each frame as one segment, and a decoder that pretended
    // otherwise would be untested code.
    if bits.bit() == 0 {
        return Err(DstError::Segmented { what: Segments::Frame });
    }
    if bits.bit() == 0 {
        return Err(DstError::Segmented { what: Segments::AllChannels });
    }
    if bits.bit() == 0 {
        return Err(DstError::Segmented { what: Segments::EndOfChannel });
    }
    let same_map: bool = bits.bit() == 1;
    let (filter_of, filter_count): (Vec<usize>, usize) = match read_map(bits, channels) {
        Ok(map) => map,
        Err(error) => {
            return Err(error);
        },
    };
    let (probability_of, probability_count): (Vec<usize>, usize) = if same_map {
        (copied(&filter_of), filter_count)
    } else {
        match read_map(bits, channels) {
            Ok(map) => map,
            Err(error) => {
                return Err(error);
            },
        }
    };
    let ghost named = bits.at();
    proof {
        bits.lemma_wf();
    }
    let mut half_probability: Vec<bool> = Vec::new();
    while half_probability.len() < channels
        invariant
            bits.wf(),
            bits.data() == data,
            half_probability@.len() <= channels,
            0 <= named <= data.len() * 8,
            bits.at() == bits::past(data, named, half_probability@.len() as int),
            forall|c: int|
                0 <= c < half_probability@.len() ==> half_probability@[c] == (bits::bit_at(
                    data,
                    named + c,
                ) == 1),
        decreases channels - half_probability@.len(),
    {
        half_probability.push(bits.bit() == 1);
    }
    assert(half_probability@ =~= Seq::new(
        channels as nat,
        |c: int| bits::bit_at(data, named + c) == 1,
    ));
    let filters: Vec<Vec<i32>> = match read_table(Shape::Filter, bits, filter_count) {
        Ok(table) => table,
        Err(error) => {
            return Err(error);
        },
    };
    let probabilities: Vec<Vec<i32>> = match read_table(
        Shape::Probability,
        bits,
        probability_count,
    ) {
        Ok(table) => table,
        Err(error) => {
            return Err(error);
        },
    };
    if bits.bit() == 1 {
        return Err(DstError::ReservedBit);
    }
    Ok(FrameHeader { filter_of, probability_of, half_probability, filters, probabilities })
}

fn copied(map: &Vec<usize>) -> (out: Vec<usize>)
    ensures
        out@ == map@,
{
    let mut out: Vec<usize> = Vec::new();
    while out.len() < map.len()
        invariant
            out@.len() <= map@.len(),
            out@ == map@.subrange(0, out@.len() as int),
        decreases map@.len() - out@.len(),
    {
        let value: usize = map[out.len()];
        out.push(value);
    }
    assert(out@ =~= map@);
    out
}

/// The place of bit `index` in its byte.
pub open spec fn place(index: int) -> int {
    if index % 8 == 0 {
        128
    } else if index % 8 == 1 {
        64
    } else if index % 8 == 2 {
        32
    } else if index % 8 == 3 {
        16
    } else if index % 8 == 4 {
        8
    } else if index % 8 == 5 {
        4
    } else if index % 8 == 6 {
        2
    } else {
        1
    }
}

fn place_of(index: usize) -> (out: u8)
    ensures
        out == place(index as int),
{
    match index % 8 {
        0 => 128,
        1 => 64,
        2 => 32,
        3 => 16,
        4 => 8,
        5 => 4,
        6 => 2,
        _ => 1,
    }
}

/// Every element of a run of bits is zero or one.
spec fn all_bits(produced: Seq<int>) -> bool {
    forall|i: int| 0 <= i < produced.len() ==> 0 <= #[trigger] produced[i] <= 1
}

proof fn lemma_byte_grows(produced: Seq<int>, bit: int, index: int)
    requires
        all_bits(produced),
        0 <= bit <= 1,
        0 <= index,
    ensures
        all_bits(produced.push(bit)),
        byte_of(produced.push(bit), index) == byte_of(produced, index) + (if index
            == produced.len() as int / 8 {
            bit * place(produced.len() as int)
        } else {
            0
        }),
        0 <= byte_of(produced, index) <= 255,
        0 <= byte_of(produced.push(bit), index) <= 255,
{
    let after = produced.push(bit);
    assert(forall|k: int| k != produced.len() ==> bit_or_zero(after, k) == bit_or_zero(produced, k));
    assert(bit_or_zero(produced, produced.len() as int) == 0);
    assert(bit_or_zero(after, produced.len() as int) == bit);
    assert(forall|k: int| 0 <= #[trigger] bit_or_zero(produced, k) <= 1);
    assert(forall|k: int| 0 <= #[trigger] bit_or_zero(after, k) <= 1);
    assert(bit == 0 || bit == 1);
}

/// The channels among `channels` that have a plane to go to.
pub open spec fn served(planes: int, channels: int) -> int {
    if planes < channels {
        planes
    } else {
        channels
    }
}

/// Planes that differ from `before` at most in the first `bytes` bytes of the first `width`.
pub open spec fn only_heads_change(
    before: Seq<Box<[u8]>>,
    after: Seq<Box<[u8]>>,
    width: int,
    bytes: int,
) -> bool {
    &&& after.len() == before.len()
    &&& forall|c: int|
        0 <= c < after.len() ==> (#[trigger] after[c])@.len() == before[c]@.len()
    &&& forall|c: int| width <= c < after.len() ==> (#[trigger] after[c])@ == before[c]@
    &&& forall|c: int, i: int|
        0 <= c < after.len() && bytes <= i < after[c]@.len() ==> #[trigger] after[c]@[i]
            == before[c]@[i]
}

/// Set the first `bytes` bytes of the first `width` planes to zero.
fn clear_heads(planes: &mut [Box<[u8]>], width: usize, bytes: usize)
    requires
        width <= old(planes)@.len(),
        forall|c: int| 0 <= c < width ==> (#[trigger] old(planes)@[c])@.len() >= bytes,
    ensures
        only_heads_change(old(planes)@, final(planes)@, width as int, bytes as int),
        forall|c: int, i: int|
            0 <= c < width && 0 <= i < bytes ==> #[trigger] final(planes)@[c]@[i] == 0,
{
    let ghost before = planes@;
    let mut c: usize = 0;
    while c < width
        invariant
            c <= width <= planes@.len(),
            planes@.len() == before.len(),
            forall|k: int| 0 <= k < width ==> (#[trigger] before[k])@.len() >= bytes,
            only_heads_change(before, planes@, c as int, bytes as int),
            forall|k: int, i: int|
                0 <= k < c && 0 <= i < bytes ==> #[trigger] planes@[k]@[i] == 0,
        decreases width - c,
    {
        let mut i: usize = 0;
        while i < bytes
            invariant
                i <= bytes,
                c < width <= planes@.len(),
                planes@.len() == before.len(),
                before[c as int]@.len() >= bytes,
                only_heads_change(before, planes@, c + 1, bytes as int),
                forall|k: int, j: int|
                    0 <= k < c && 0 <= j < bytes ==> #[trigger] planes@[k]@[j] == 0,
                forall|j: int| 0 <= j < i ==> #[trigger] planes@[c as int]@[j] == 0,
            decreases bytes - i,
        {
            planes[c][i] = 0;
            i += 1;
        }
        c += 1;
    }
}

/// A DST decoder.
pub struct Decoder {
    channels: usize,
    /// DSD bits one frame carries per channel.
    samples_per_frame: usize,
}

impl Decoder {
    pub closed spec fn channels(&self) -> int {
        self.channels as int
    }

    pub closed spec fn samples_per_frame(&self) -> int {
        self.samples_per_frame as int
    }

    pub open spec fn wf(&self) -> bool {
        &&& 1 <= self.channels() <= MAX_CHANNELS
        &&& self.samples_per_frame() % 8 == 0
        &&& 0 <= self.samples_per_frame() <= usize::MAX
    }

    pub fn new(channels: usize, samples_per_frame: usize) -> (out: Result<Self, DstError>)
        ensures
            match out {
                Ok(decoder) => {
                    &&& 1 <= channels <= MAX_CHANNELS
                    &&& samples_per_frame % 8 == 0
                    &&& decoder.wf()
                    &&& decoder.channels() == channels
                    &&& decoder.samples_per_frame() == samples_per_frame
                },
                Err(error) => if 1 <= channels <= MAX_CHANNELS {
                    samples_per_frame % 8 != 0 && error == (DstError::PartialByte {
                        samples: samples_per_frame,
                    })
                } else {
                    error == (DstError::Channels { channels })
                },
            },
    {
        if channels < 1 || channels > MAX_CHANNELS {
            return Err(DstError::Channels { channels });
        }
        if samples_per_frame % 8 != 0 {
            return Err(DstError::PartialByte { samples: samples_per_frame });
        }
        Ok(Decoder { channels, samples_per_frame })
    }

    pub fn frame_bytes(&self) -> (bytes: usize)
        ensures
            bytes == self.samples_per_frame() / 8,
    {
        self.samples_per_frame / 8
    }

    /// Decode one frame into the head of each plane, MSB first, as DoP and DSDIFF want it.
    pub fn decode(&mut self, frame: &[u8], planes: &mut [Box<[u8]>]) -> (out: Result<(), DstError>)
        requires
            old(self).wf(),
            forall|c: int|
                0 <= c < served(old(planes)@.len() as int, old(self).channels())
                    ==> (#[trigger] old(planes)@[c])@.len() >= old(self).samples_per_frame() / 8,
        ensures
            *final(self) == *old(self),
            only_heads_change(
                old(planes)@,
                final(planes)@,
                served(old(planes)@.len() as int, old(self).channels()),
                old(self).samples_per_frame() / 8,
            ),
            match decoded(
                frame@,
                old(self).channels(),
                old(self).samples_per_frame(),
                served(old(planes)@.len() as int, old(self).channels()),
            ) {
                Ok(audio) => {
                    &&& out is Ok
                    &&& forall|c: int|
                        0 <= c < audio.len() ==> (#[trigger] final(planes)@[c])@.subrange(
                            0,
                            old(self).samples_per_frame() / 8,
                        ) == audio[c]
                },
                Err(error) => {
                    &&& out == Err::<(), DstError>(error)
                    &&& frame@.len() > 1 ==> forall|c: int, i: int|
                        0 <= c < served(old(planes)@.len() as int, old(self).channels()) && 0 <= i
                            < old(self).samples_per_frame() / 8 ==> #[trigger] final(planes)@[c]@[i] == 0
                },
            },
    {
        if frame.len() <= 1 {
            return Err(DstError::ShortFrame { bytes: frame.len() });
        }
        let bytes: usize = self.frame_bytes();
        let width: usize = if planes.len() < self.channels {
            planes.len()
        } else {
            self.channels
        };
        let ghost before = planes@;
        clear_heads(planes, width, bytes);
        let mut bits: Bits = Bits::new(frame);
        if bits.bit() == 0 {
            return self.copy_uncoded(frame, planes, width);
        }
        let head: FrameHeader = match read_header(&mut bits, self.channels) {
            Ok(head) => head,
            Err(error) => {
                return Err(error);
            },
        };
        let lookups: Vec<Vec<i16>> = match build_taps(&head.filters) {
            Ok(lookups) => lookups,
            Err(error) => {
                return Err(error);
            },
        };
        self.run(&mut bits, &head, &lookups, planes, width);
        Ok(())
    }

    /// A frame the encoder could not compress carries plain DSD, one byte per channel in
    /// turn. A short one is padded with DSD silence rather than zero, which would be a click.
    fn copy_uncoded(&self, frame: &[u8], planes: &mut [Box<[u8]>], width: usize) -> (out: Result<
        (),
        DstError,
    >)
        requires
            self.wf(),
            frame@.len() > 1,
            width <= old(planes)@.len(),
            width <= self.channels(),
            forall|c: int|
                0 <= c < width ==> (#[trigger] old(planes)@[c])@.len() >= self.samples_per_frame()
                    / 8,
        ensures
            only_heads_change(
                old(planes)@,
                final(planes)@,
                width as int,
                self.samples_per_frame() / 8,
            ),
            if frame@[0] % 64 != 0 {
                out == Err::<(), DstError>(DstError::UncodedHeader) && final(planes)@ == old(planes)@
            } else {
                &&& out is Ok
                &&& forall|c: int, i: int|
                    0 <= c < width && 0 <= i < self.samples_per_frame() / 8 ==> #[trigger] final(planes)@[c]@[i] == dop::byte_or_silence(
                        frame@.subrange(1, frame@.len() as int),
                        i * self.channels() + c,
                    )
            },
    {
        if frame[0] % 64 != 0 {
            return Err(DstError::UncodedHeader);
        }
        let ghost before = planes@;
        let ghost body = frame@.subrange(1, frame@.len() as int);
        let bytes: usize = self.frame_bytes();
        let channels: usize = self.channels;
        let mut c: usize = 0;
        while c < width
            invariant
                c <= width <= planes@.len(),
                width <= channels <= MAX_CHANNELS,
                frame@.len() > 1,
                body == frame@.subrange(1, frame@.len() as int),
                bytes <= usize::MAX / 8,
                planes@.len() == before.len(),
                forall|k: int| 0 <= k < width ==> (#[trigger] before[k])@.len() >= bytes,
                only_heads_change(before, planes@, c as int, bytes as int),
                forall|k: int, i: int|
                    0 <= k < c && 0 <= i < bytes ==> #[trigger] planes@[k]@[i]
                        == dop::byte_or_silence(body, i * channels + k),
            decreases width - c,
        {
            let mut i: usize = 0;
            while i < bytes
                invariant
                    i <= bytes,
                    c < width <= planes@.len(),
                    width <= channels <= MAX_CHANNELS,
                    frame@.len() > 1,
                    body == frame@.subrange(1, frame@.len() as int),
                    bytes <= usize::MAX / 8,
                    planes@.len() == before.len(),
                    before[c as int]@.len() >= bytes,
                    only_heads_change(before, planes@, c + 1, bytes as int),
                    forall|k: int, j: int|
                        0 <= k < c && 0 <= j < bytes ==> #[trigger] planes@[k]@[j]
                            == dop::byte_or_silence(body, j * channels + k),
                    forall|j: int|
                        0 <= j < i ==> #[trigger] planes@[c as int]@[j] == dop::byte_or_silence(
                            body,
                            j * channels + c,
                        ),
                decreases bytes - i,
            {
                assert(0 <= i * channels <= i * 6) by (nonlinear_arith)
                    requires
                        0 <= i,
                        0 <= channels <= 6,
                ;
                let at: usize = i * channels + c;
                let value: u8 = if at < frame.len() - 1 {
                    frame[at + 1]
                } else {
                    DSD_SILENCE_BYTE
                };
                planes[c][i] = value;
                i += 1;
            }
            c += 1;
        }
        Ok(())
    }

    /// Decode every bit of the frame. One pass over the arithmetic-coded data, predicting
    /// each channel's next DSD bit from its own history and correcting it by the coded
    /// residual.
    #[verifier::rlimit(60)]
    fn run(
        &self,
        bits: &mut Bits,
        head: &FrameHeader,
        lookups: &Vec<Vec<i16>>,
        planes: &mut [Box<[u8]>],
        width: usize,
    )
        requires
            self.wf(),
            old(bits).wf(),
            head.wf(self.channels()),
            all_look_up(lookups@, head@.filters),
            width <= old(planes)@.len(),
            width <= self.channels(),
            forall|c: int|
                0 <= c < width ==> (#[trigger] old(planes)@[c])@.len() >= self.samples_per_frame()
                    / 8,
            forall|c: int, i: int|
                0 <= c < width && 0 <= i < self.samples_per_frame() / 8 ==> #[trigger] old(planes)@[c]@[i] == 0,
        ensures
            only_heads_change(
                old(planes)@,
                final(planes)@,
                width as int,
                self.samples_per_frame() / 8,
            ),
            forall|c: int, i: int|
                0 <= c < width && 0 <= i < self.samples_per_frame() / 8 ==> #[trigger] final(planes)@[c]@[i] == byte_of(
                    run_after(
                        head@,
                        old(bits).data(),
                        old(bits).at(),
                        width as int,
                        self.samples_per_frame() * width,
                    ).produced[c],
                    i,
                ),
    {
        let ghost before = planes@;
        let ghost data = bits.data();
        let ghost start = bits.at();
        let ghost bytes = self.samples_per_frame() / 8;
        let samples: usize = self.samples_per_frame;
        let mut histories: Vec<Vec<u8>> = Vec::new();
        while histories.len() < width
            invariant
                histories@.len() <= width,
                forall|c: int|
                    0 <= c < histories@.len() ==> predict::remembers(
                        (#[trigger] histories@[c])@,
                        Seq::empty(),
                    ),
            decreases width - histories@.len(),
        {
            histories.push(blank_history());
        }
        let mut coding: Coder = Coder::new(bits);
        // The first coded bit says whether the frame was coded at all, which the flag at the
        // top of the frame has already answered. It still has to come out of the coder.
        assert(head@.filters[0] == head.filters@[0]@);
        let opening: u32 = half_byte_probability(head.filters[0][0]);
        coding.decode(bits, opening);
        let ghost mut run = run_after(head@, data, start, width as int, 0);
        assert forall|c: int, i: int| 0 <= c < width && 0 <= i < bytes implies byte_of(
            run.produced[c],
            i,
        ) == 0 by {}
        let mut sample: usize = 0;
        while sample < samples
            invariant
                sample <= samples == self.samples_per_frame(),
                bytes == self.samples_per_frame() / 8,
                self.wf(),
                bits.wf(),
                bits.data() == data,
                coding.wf(),
                head.wf(self.channels()),
                all_look_up(lookups@, head@.filters),
                width <= planes@.len(),
                width <= self.channels(),
                width == histories@.len(),
                planes@.len() == before.len(),
                forall|c: int| 0 <= c < width ==> (#[trigger] before[c])@.len() >= bytes,
                run == run_after(head@, data, start, width as int, sample * width),
                run.coding == coding.with(bits.at()),
                run.produced.len() == width,
                forall|c: int|
                    0 <= c < width ==> {
                        &&& (#[trigger] run.produced[c]).len() == sample
                        &&& all_bits(run.produced[c])
                        &&& predict::remembers(histories@[c]@, run.produced[c])
                    },
                only_heads_change(before, planes@, width as int, bytes),
                forall|c: int, i: int|
                    0 <= c < width && 0 <= i < bytes ==> #[trigger] planes@[c]@[i] == byte_of(
                        run.produced[c],
                        i,
                    ),
            decreases samples - sample,
        {
            let mut channel: usize = 0;
            while channel < width
                invariant
                    sample < samples == self.samples_per_frame(),
                    bytes == self.samples_per_frame() / 8,
                    channel <= width,
                    self.wf(),
                    bits.wf(),
                    bits.data() == data,
                    coding.wf(),
                    head.wf(self.channels()),
                    all_look_up(lookups@, head@.filters),
                    width <= planes@.len(),
                    width <= self.channels(),
                    width == histories@.len(),
                    planes@.len() == before.len(),
                    forall|c: int| 0 <= c < width ==> (#[trigger] before[c])@.len() >= bytes,
                    run == run_after(head@, data, start, width as int, sample * width + channel),
                    run.coding == coding.with(bits.at()),
                    run.produced.len() == width,
                    forall|c: int|
                        0 <= c < width ==> {
                            &&& (#[trigger] run.produced[c]).len() == (if c < channel {
                                sample + 1
                            } else {
                                sample as int
                            })
                            &&& all_bits(run.produced[c])
                            &&& predict::remembers(histories@[c]@, run.produced[c])
                        },
                    only_heads_change(before, planes@, width as int, bytes),
                    forall|c: int, i: int|
                        0 <= c < width && 0 <= i < bytes ==> #[trigger] planes@[c]@[i] == byte_of(
                            run.produced[c],
                            i,
                        ),
                decreases width - channel,
            {
                let ghost made = run.produced[channel as int];
                let element: usize = head.filter_of[channel];
                let ghost filter = head@.filters[element as int];
                assert(filter == head.filters@[element as int]@);
                assert(made.len() == sample);
                let guess: i16 = predict::predict(
                    &lookups[element],
                    &histories[channel],
                    Ghost(filter),
                    Ghost(made),
                );
                let p: u32 = chance(head, channel, sample, guess, Ghost(self.channels()));
                let ghost coded = coding.with(bits.at());
                let residual: u32 = coding.decode(bits, p);
                let value: u8 = if (guess < 0) != (residual == 1) {
                    1
                } else {
                    0
                };
                let at: usize = sample / 8;
                proof {
                    assert forall|i: int| 0 <= i < bytes implies #[trigger] byte_of(
                        made.push(value as int),
                        i,
                    ) == byte_of(made, i) + (if i == at {
                        value * place(sample as int)
                    } else {
                        0
                    }) && byte_of(made.push(value as int), i) <= 255 by {
                        lemma_byte_grows(made, value as int, i);
                    }
                    lemma_byte_grows(made, value as int, at as int);
                    assert(planes@[channel as int]@[at as int] == byte_of(made, at as int));
                    assert(value == 0 || value == 1);
                }
                let old_byte: u8 = planes[channel][at];
                let ghost planes_before = planes@;
                planes[channel][at] = old_byte + value * place_of(sample);
                predict::remember(&mut histories[channel], value, Ghost(made));
                proof {
                    let next = run_step(head@, data, run, channel as int);
                    rows::lemma_slot(sample as int, channel as int, width as int);
                    assert(next == run_after(
                        head@,
                        data,
                        start,
                        width as int,
                        sample * width + channel + 1,
                    ));
                    assert(next.produced == run.produced.update(
                        channel as int,
                        made.push(value as int),
                    ));
                    run = next;
                    assert forall|c: int, i: int|
                        0 <= c < width && 0 <= i < bytes implies #[trigger] planes@[c]@[i]
                        == byte_of(run.produced[c], i) by {
                        if c == channel {
                            assert(planes_before[c]@[i] == byte_of(made, i));
                        } else {
                            assert(planes@[c]@ == planes_before[c]@);
                            assert(planes_before[c]@[i] == byte_of(run.produced[c], i));
                        }
                    }
                }
                channel += 1;
            }
            sample += 1;
            assert((sample - 1) * width + width == sample * width) by (nonlinear_arith);
        }
    }
}

/// Every filter's lookup holds what that filter makes of every byte of history.
spec fn all_look_up(lookups: Seq<Vec<i16>>, filters: Seq<Seq<i32>>) -> bool {
    &&& lookups.len() == filters.len()
    &&& forall|e: int|
        0 <= e < filters.len() ==> predict::looks_up(
            (#[trigger] lookups[e])@,
            filters[e],
            predict::TAPS as int,
        )
}

/// Collapse every filter of a frame into its lookup.
fn build_taps(filters: &Vec<Vec<i32>>) -> (out: Result<Vec<Vec<i16>>, DstError>)
    requires
        table::table_wf(Shape::Filter, table::table_view(filters@)),
    ensures
        match out {
            Ok(lookups) => predict::all_sums_fit(table::table_view(filters@)) && all_look_up(
                lookups@,
                table::table_view(filters@),
            ),
            Err(error) => error == DstError::FilterSum && !predict::all_sums_fit(
                table::table_view(filters@),
            ),
        },
{
    let ghost whole = table::table_view(filters@);
    let mut lookups: Vec<Vec<i16>> = Vec::new();
    while lookups.len() < filters.len()
        invariant
            lookups@.len() <= filters@.len(),
            whole == table::table_view(filters@),
            table::table_wf(Shape::Filter, whole),
            forall|e: int|
                0 <= e < lookups@.len() ==> predict::looks_up(
                    (#[trigger] lookups@[e])@,
                    whole[e],
                    predict::TAPS as int,
                ) && predict::sums_fit(whole[e], predict::TAPS as int),
        decreases filters@.len() - lookups@.len(),
    {
        let ghost e = lookups@.len() as int;
        assert(whole[e] == filters@[e]@);
        match build_lookup(&filters[lookups.len()]) {
            Ok(lookup) => {
                lookups.push(lookup);
            },
            Err(error) => {
                assert(!predict::sums_fit(whole[e], predict::TAPS as int));
                return Err(error);
            },
        }
    }
    proof {
        assert forall|e: int| 0 <= e < whole.len() implies predict::sums_fit(
            #[trigger] whole[e],
            predict::TAPS as int,
        ) by {
            assert(predict::looks_up(lookups@[e]@, whole[e], predict::TAPS as int));
        }
    }
    Ok(lookups)
}

fn chance(
    head: &FrameHeader,
    channel: usize,
    sample: usize,
    guess: i16,
    channels: Ghost<int>,
) -> (p: u32)
    requires
        head.wf(channels@),
        channel < channels@,
    ensures
        p == bit_probability(head@, channel as int, sample as int, guess as int),
        1 <= p <= 128,
{
    let element: usize = head.filter_of[channel];
    let table: usize = head.probability_of[channel];
    assert(head@.filters[element as int] == head.filters@[element as int]@);
    assert(head@.probabilities[table as int] == head.probabilities@[table as int]@);
    if head.half_probability[channel] && sample < head.filters[element].len() {
        return 128;
    }
    let distance: usize = if guess < 0 {
        (-(guess as i32) / 8) as usize
    } else {
        (guess as i32 / 8) as usize
    };
    let last: usize = head.probabilities[table].len() - 1;
    let index: usize = if distance < last {
        distance
    } else {
        last
    };
    let value: i32 = head.probabilities[table][index];
    assert(Shape::Probability.admits(head@.probabilities[table as int][index as int] as int));
    value as u32
}

} // verus!
