//! How carrier words are laid out in the samples of a device's stream format.

use crate::native::BYTES_PER_SUBSLOT;
use crate::text;
use vstd::arithmetic::power2::{lemma2_to64, lemma_pow2_adds, lemma_pow2_pos, pow2};
use vstd::bits::lemma_u64_shl_is_mul;
use vstd::prelude::*;

verus! {

/// How the audio reaches the DAC through Core Audio.
#[derive(Debug, Clone, Copy, PartialEq, Eq, Structural)]
pub enum Carrier {
    /// DoP 1.1: an alternating marker byte and 16 DSD bits per channel in each frame.
    Dop,
    /// Native DSD: 32 raw DSD bits per channel in each frame, no marker and no carrier.
    /// A driver that owns the DAC's `RAW_DATA` alternate setting publishes it as big-endian
    /// non-mixable 32-bit integer PCM, which is what ALSA calls `DSD_U32_BE`.
    NativeDsd,
    /// PCM: the file's own samples, left-justified in the 24-bit word.
    Pcm,
}

impl Carrier {
    /// Queued samples one device frame carries per channel. The queue between the reader and
    /// the render callback holds DSD byte pairs whichever carrier takes them, so this is the
    /// only place they differ in how much of it one frame consumes.
    pub fn payloads_per_frame(self) -> (count: usize)
        ensures
            count == (match self {
                Carrier::Dop => 1int,
                Carrier::NativeDsd => 2,
                Carrier::Pcm => 1,
            }),
    {
        match self {
            Carrier::Dop => 1,
            Carrier::NativeDsd => 2,
            Carrier::Pcm => 1,
        }
    }

    /// What the transport display calls this carrier.
    pub fn label(self) -> (name: &'static str)
        ensures
            name@ == (match self {
                Carrier::Dop => "DoP"@,
                Carrier::NativeDsd => "native DSD"@,
                Carrier::Pcm => "PCM"@,
            }),
    {
        match self {
            Carrier::Dop => "DoP",
            Carrier::NativeDsd => "native DSD",
            Carrier::Pcm => "PCM",
        }
    }

    /// Bits of container one frame gives each channel.
    pub fn bits(self) -> (bits: u8)
        ensures
            bits == (match self {
                Carrier::Dop => 24int,
                Carrier::NativeDsd => 32,
                Carrier::Pcm => 24,
            }),
    {
        match self {
            Carrier::Dop => 24,
            Carrier::NativeDsd => 32,
            Carrier::Pcm => 24,
        }
    }
}

/// Core Audio's format ID for linear PCM: `lpcm`.
pub const LINEAR_PCM: u32 = 0x6C70_636D;

pub const FLAG_FLOAT: u32 = 0x01;

pub const FLAG_BIG_ENDIAN: u32 = 0x02;

pub const FLAG_SIGNED_INTEGER: u32 = 0x04;

pub const FLAG_ALIGNED_HIGH: u32 = 0x10;

pub const FLAG_NON_MIXABLE: u32 = 0x40;

/// What Core Audio says of a stream format, less its sample rate.
#[derive(Debug, Clone, Copy, PartialEq, Eq, Structural)]
pub struct StreamFormat {
    pub format_id: u32,
    pub flags: u32,
    pub bytes_per_frame: u32,
    pub channels: u32,
    pub bits: u32,
}

impl StreamFormat {
    /// A flag that is set; `flag` is a power of two.
    pub open spec fn flagged(self, flag: u32) -> bool {
        self.flags / flag % 2 == 1
    }

    /// Bytes of a frame that each channel has. A format that names no channel has one.
    pub open spec fn sample_bytes(self) -> u32 {
        if self.channels == 0 {
            self.bytes_per_frame
        } else {
            self.bytes_per_frame / self.channels
        }
    }

    fn has(&self, flag: u32) -> (yes: bool)
        requires
            flag > 0,
        ensures
            yes == self.flagged(flag),
    {
        self.flags / flag % 2 == 1
    }

    fn bytes(&self) -> (bytes: u32)
        ensures
            bytes == self.sample_bytes(),
    {
        if self.channels == 0 {
            self.bytes_per_frame
        } else {
            self.bytes_per_frame / self.channels
        }
    }
}

/// Whether a stream format is the one a driver publishes for native DSD.
///
/// Nothing in the format says "DSD": Core Audio has no such format ID, so native goes out as
/// integer PCM of the same width and rate as ordinary 32-bit PCM. Only the big-endian flag
/// separates the two, and the driver reads exactly that flag to choose an alternate setting.
/// Getting it wrong either way is audible, so all of the flags have to agree before a format
/// counts as native.
pub fn is_native_dsd(format: &StreamFormat) -> (yes: bool)
    ensures
        yes == {
            &&& format.format_id == LINEAR_PCM
            &&& format.flagged(FLAG_SIGNED_INTEGER)
            &&& format.flagged(FLAG_BIG_ENDIAN)
            &&& format.flagged(FLAG_NON_MIXABLE)
            &&& format.bits == 32
            &&& format.sample_bytes() == 4
        },
{
    format.format_id == LINEAR_PCM && format.has(FLAG_SIGNED_INTEGER) && format.has(
        FLAG_BIG_ENDIAN,
    ) && format.has(FLAG_NON_MIXABLE) && format.bits == BYTES_PER_SUBSLOT as u32 * 8
        && format.bytes() == BYTES_PER_SUBSLOT as u32
}

/// Why a stream format cannot carry the words.
#[derive(Debug, Clone, Copy, PartialEq, Eq, Structural)]
pub enum EncodingError {
    NotPcm,
    SampleSize { bytes: u32 },
    Float { bits: u32, bytes: u32 },
    Unsigned,
    Narrow { bits: u32 },
    Layout { bits: u32, bytes: u32 },
}

/// So many bits in so many bytes.
pub open spec fn bits_in_bytes(bits: u32, bytes: u32) -> Seq<char> {
    text::decimal(bits as nat) + " bits in "@ + text::decimal(bytes as nat) + " bytes"@
}

fn with_bits_in_bytes(head: &str, bits: u32, bytes: u32) -> (line: String)
    ensures
        line@ == head@ + bits_in_bytes(bits, bytes),
{
    let mut line: String = text::with_number(head, bits as u64);
    line.append(" bits in ");
    line.append(text::decimal_of(bytes as u64).as_str());
    line.append(" bytes");
    assert(line@ =~= head@ + bits_in_bytes(bits, bytes));
    line
}

impl EncodingError {
    /// What is wrong with the format, in a line.
    pub open spec fn line(self) -> Seq<char> {
        match self {
            EncodingError::NotPcm => "stream is not linear PCM"@,
            EncodingError::SampleSize { bytes } => "a sample of "@ + text::decimal(bytes as nat)
                + " bytes is out of range"@,
            EncodingError::Float { bits, bytes } => "unsupported float stream format: "@
                + bits_in_bytes(bits, bytes),
            EncodingError::Unsigned => "unsigned integer stream formats cannot carry DoP"@,
            EncodingError::Narrow { bits } =>
                "DoP needs at least 24 bits per sample, the stream offers "@ + text::decimal(
                bits as nat,
            ),
            EncodingError::Layout { bits, bytes } => "unsupported integer stream format: "@
                + bits_in_bytes(bits, bytes),
        }
    }

    /// What is wrong with the format, in a line.
    pub fn message(self) -> (line: String)
        ensures
            line@ == self.line(),
    {
        match self {
            EncodingError::NotPcm => text::owned("stream is not linear PCM"),
            EncodingError::SampleSize { bytes } => {
                let mut line: String = text::with_number("a sample of ", bytes as u64);
                line.append(" bytes is out of range");
                line
            },
            EncodingError::Float { bits, bytes } => with_bits_in_bytes(
                "unsupported float stream format: ",
                bits,
                bytes,
            ),
            EncodingError::Unsigned => text::owned(
                "unsigned integer stream formats cannot carry DoP",
            ),
            EncodingError::Narrow { bits } => text::with_number(
                "DoP needs at least 24 bits per sample, the stream offers ",
                bits as u64,
            ),
            EncodingError::Layout { bits, bytes } => with_bits_in_bytes(
                "unsupported integer stream format: ",
                bits,
                bytes,
            ),
        }
    }
}

/// How a 24-bit carrier word is laid out in one sample of the device's stream format.
#[derive(Debug, Clone, Copy, PartialEq, Eq, Structural)]
pub enum Encoding {
    Float32,
    Signed { bytes: u8, shift: u8, big_endian: bool },
}

/// The place of the highest bit set in `value`.
pub open spec fn top_bit(value: nat) -> nat
    decreases value,
{
    if value < 2 {
        0
    } else {
        top_bit(value / 2) + 1
    }
}

/// `value / unit` rounded to the nearest whole number, and to an even one half way between.
pub open spec fn half_even(value: int, unit: int) -> int {
    let whole = value / unit;
    let over = value % unit;
    if over * 2 > unit || (over * 2 == unit && whole % 2 == 1) {
        whole + 1
    } else {
        whole
    }
}

/// The 24 significant bits of a magnitude, the first of them set.
pub open spec fn significand(magnitude: nat) -> int {
    let top = top_bit(magnitude);
    if top <= 23 {
        (magnitude * pow2((23 - top) as nat)) as int
    } else {
        half_even(magnitude as int, pow2((top - 23) as nat) as int)
    }
}

/// The bits of the float32 that is nearest to `word / 2^23`: a sign, eight bits of exponent,
/// and the significant bits behind the first.
pub open spec fn float_bits(word: int) -> int {
    let magnitude = if word < 0 {
        -word
    } else {
        word
    };
    let sign = if word < 0 {
        0x8000_0000int
    } else {
        0
    };
    if word == 0 {
        0
    } else {
        sign + (top_bit(magnitude as nat) + 103) * 0x80_0000 + significand(magnitude as nat)
    }
}

/// The bytes of a 32-bit value, the lowest first.
pub open spec fn little_endian(value: int) -> Seq<u8> {
    seq![
        (value % 256) as u8,
        (value / 0x100 % 256) as u8,
        (value / 0x1_0000 % 256) as u8,
        (value / 0x100_0000 % 256) as u8,
    ]
}

impl Encoding {
    /// The layout is one that samples can be written in.
    pub open spec fn wf(self) -> bool {
        match self {
            Encoding::Float32 => true,
            Encoding::Signed { bytes, shift, .. } => 3 <= bytes <= 4 && shift < 32,
        }
    }

    /// The bytes a word is written as.
    pub open spec fn encoded(self, word: i32) -> Seq<u8> {
        match self {
            Encoding::Float32 => little_endian(float_bits(word as int)),
            Encoding::Signed { bytes, shift, big_endian } => {
                let low_first = little_endian(
                    word * pow2(shift as nat) % 0x1_0000_0000,
                ).subrange(0, bytes as int);
                if big_endian {
                    low_first.reverse()
                } else {
                    low_first
                }
            },
        }
    }

    /// Bytes of one sample.
    pub open spec fn width(self) -> int {
        match self {
            Encoding::Float32 => 4,
            Encoding::Signed { bytes, .. } => bytes as int,
        }
    }

    /// The layout of a stream format's samples, or why it cannot carry the words.
    pub open spec fn of_format(format: StreamFormat) -> Result<Encoding, EncodingError> {
        let bytes = format.sample_bytes();
        let bits = format.bits;
        let big_endian = format.flagged(FLAG_BIG_ENDIAN);
        if format.format_id != LINEAR_PCM {
            Err(EncodingError::NotPcm)
        } else if bytes > 255 {
            Err(EncodingError::SampleSize { bytes })
        } else if format.flagged(FLAG_FLOAT) {
            if bits != 32 || bytes != 4 || big_endian {
                Err(EncodingError::Float { bits, bytes })
            } else {
                Ok(Encoding::Float32)
            }
        } else if !format.flagged(FLAG_SIGNED_INTEGER) {
            Err(EncodingError::Unsigned)
        } else if bits < 24 {
            Err(EncodingError::Narrow { bits })
        } else if bytes == 3 && bits == 24 {
            Ok(Encoding::Signed { bytes: 3, shift: 0, big_endian })
        } else if bytes == 4 && bits == 24 {
            let shift = if format.flagged(FLAG_ALIGNED_HIGH) {
                8u8
            } else {
                0u8
            };
            Ok(Encoding::Signed { bytes: 4, shift, big_endian })
        } else if bytes == 4 && bits == 32 {
            Ok(Encoding::Signed { bytes: 4, shift: 8, big_endian })
        } else {
            Err(EncodingError::Layout { bits, bytes })
        }
    }

    pub fn from_format(format: &StreamFormat) -> (out: Result<Self, EncodingError>)
        ensures
            out == Encoding::of_format(*format),
            out matches Ok(encoding) ==> encoding.wf(),
    {
        if format.format_id != LINEAR_PCM {
            return Err(EncodingError::NotPcm);
        }
        let bytes: u32 = format.bytes();
        if bytes > 255 {
            return Err(EncodingError::SampleSize { bytes });
        }
        let bits: u32 = format.bits;
        let big_endian: bool = format.has(FLAG_BIG_ENDIAN);
        if format.has(FLAG_FLOAT) {
            if bits != 32 || bytes != 4 || big_endian {
                return Err(EncodingError::Float { bits, bytes });
            }
            return Ok(Encoding::Float32);
        }
        if !format.has(FLAG_SIGNED_INTEGER) {
            return Err(EncodingError::Unsigned);
        }
        if bits < 24 {
            return Err(EncodingError::Narrow { bits });
        }
        let aligned_high: bool = format.has(FLAG_ALIGNED_HIGH);
        let shift: u8 = match (bytes, bits) {
            (3, 24) => 0,
            (4, 24) => if aligned_high {
                8
            } else {
                0
            },
            (4, 32) => 8,
            _ => {
                return Err(EncodingError::Layout { bits, bytes });
            },
        };
        Ok(Encoding::Signed { bytes: bytes as u8, shift, big_endian })
    }

    pub fn bytes_per_sample(self) -> (bytes: usize)
        ensures
            bytes == self.width(),
    {
        match self {
            Encoding::Float32 => 4,
            Encoding::Signed { bytes, .. } => bytes as usize,
        }
    }

    /// True when the samples reach the device exactly as written, with no conversion.
    pub fn is_integer(self) -> (yes: bool)
        ensures
            yes == (self is Signed),
    {
        match self {
            Encoding::Float32 => false,
            Encoding::Signed { .. } => true,
        }
    }

    /// The 32-bit value whose bytes a word is written as.
    fn value_of(self, word: i32) -> (value: u32)
        requires
            self.wf(),
        ensures
            value == (match self {
                Encoding::Float32 => float_bits(word as int),
                Encoding::Signed { shift, .. } => word * pow2(shift as nat) % 0x1_0000_0000,
            }),
    {
        match self {
            Encoding::Float32 => float_of(word),
            Encoding::Signed { shift, .. } => {
                proof {
                    lemma2_to64();
                    if shift < 32 {
                        vstd::arithmetic::power2::lemma_pow2_strictly_increases(shift as nat, 32);
                    }
                    lemma_pow2_pos(shift as nat);
                    lemma_u64_shl_is_mul(1, shift as u64);
                }
                let step: u64 = 1u64 << (shift as u64);
                assert(step == pow2(shift as nat));
                assert(-0x8000_0000_0000_0000 <= word * step <= 0x7fff_ffff_ffff_ffff)
                    by (nonlinear_arith)
                    requires
                        -0x8000_0000 <= word <= 0x7fff_ffff,
                        1 <= step <= 0x8000_0000,
                ;
                let wide: i128 = word as i128 * step as i128;
                ((wide + 0x1_0000_0000_0000_0000) % 0x1_0000_0000) as u32
            },
        }
    }

    /// Write one carrier word into `out` at `at`, where [`Encoding::bytes_per_sample`] bytes
    /// belong to it.
    #[verifier::rlimit(50)]
    pub fn write_at(self, word: i32, out: &mut [u8], at: usize)
        requires
            self.wf(),
            at + self.width() <= old(out)@.len(),
        ensures
            final(out)@ == old(out)@.subrange(0, at as int) + self.encoded(word) + old(
                out,
            )@.subrange(at + self.width(), old(out)@.len() as int),
    {
        let ghost before = out@;
        let len: usize = out.len();
        let value: u32 = self.value_of(word);
        let ghost low_first = little_endian(value as int);
        let width: usize = self.bytes_per_sample();
        let big_endian: bool = match self {
            Encoding::Float32 => false,
            Encoding::Signed { big_endian, .. } => big_endian,
        };
        let b0: u8 = (value % 256) as u8;
        let b1: u8 = (value / 0x100 % 256) as u8;
        let b2: u8 = (value / 0x1_0000 % 256) as u8;
        let b3: u8 = (value / 0x100_0000 % 256) as u8;
        if width == 3 {
            if big_endian {
                out[at] = b2;
                out[at + 1] = b1;
                out[at + 2] = b0;
            } else {
                out[at] = b0;
                out[at + 1] = b1;
                out[at + 2] = b2;
            }
        } else if big_endian {
            out[at] = b3;
            out[at + 1] = b2;
            out[at + 2] = b1;
            out[at + 3] = b0;
        } else {
            out[at] = b0;
            out[at + 1] = b1;
            out[at + 2] = b2;
            out[at + 3] = b3;
        }
        proof {
            let cut = low_first.subrange(0, width as int);
            assert(cut.reverse().len() == width);
            assert(self is Float32 ==> cut =~= low_first);
            assert(out@ =~= before.subrange(0, at as int) + self.encoded(word) + before.subrange(
                at + width,
                before.len() as int,
            ));
        }
    }

    /// Write one carrier word into `out`, which must be [`Encoding::bytes_per_sample`] long.
    pub fn write(self, word: i32, out: &mut [u8])
        requires
            self.wf(),
            old(out)@.len() == self.width(),
        ensures
            final(out)@ == self.encoded(word),
    {
        let ghost before = out@;
        self.write_at(word, out, 0);
        assert(out@ =~= self.encoded(word));
    }
}

proof fn lemma_top_bit(value: nat)
    requires
        value > 0,
    ensures
        pow2(top_bit(value)) <= value < pow2(top_bit(value) + 1),
    decreases value,
{
    lemma2_to64();
    if value >= 2 {
        lemma_top_bit(value / 2);
        vstd::arithmetic::power2::lemma_pow2_unfold(top_bit(value));
        vstd::arithmetic::power2::lemma_pow2_unfold(top_bit(value) + 1);
    }
}

proof fn lemma_top_bit_below(value: nat, bits: nat)
    requires
        0 < value < pow2(bits),
    ensures
        top_bit(value) < bits,
{
    lemma_top_bit(value);
    if top_bit(value) >= bits {
        if top_bit(value) > bits {
            vstd::arithmetic::power2::lemma_pow2_strictly_increases(bits, top_bit(value));
        }
    }
}

/// The significant bits of a magnitude start with a set bit, and there are 24 of them, or
/// rounding has carried them to the next power of two.
proof fn lemma_significand(magnitude: nat)
    requires
        0 < magnitude,
    ensures
        0x80_0000 <= significand(magnitude) <= 0x100_0000,
        magnitude < 0x100_0000 ==> significand(magnitude) < 0x100_0000,
{
    let top = top_bit(magnitude);
    lemma_top_bit(magnitude);
    lemma2_to64();
    if top <= 23 {
        lemma_pow2_adds(top, (23 - top) as nat);
        lemma_pow2_adds(top + 1, (23 - top) as nat);
        let low = pow2(top) as int;
        let high = pow2(top + 1) as int;
        let step = pow2((23 - top) as nat) as int;
        lemma_pow2_pos((23 - top) as nat);
        assert(0x80_0000 <= magnitude * step < 0x100_0000) by (nonlinear_arith)
            requires
                low <= magnitude < high,
                low * step == 0x80_0000,
                high * step == 0x100_0000,
                step > 0,
        ;
    } else {
        lemma_pow2_adds(23, (top - 23) as nat);
        lemma_pow2_adds(24, (top - 23) as nat);
        let unit = pow2((top - 23) as nat) as int;
        lemma_pow2_pos((top - 23) as nat);
        let whole = magnitude as int / unit;
        vstd::arithmetic::div_mod::lemma_fundamental_div_mod(magnitude as int, unit);
        vstd::arithmetic::div_mod::lemma_mod_bound(magnitude as int, unit);
        assert(0x80_0000 <= whole < 0x100_0000) by (nonlinear_arith)
            requires
                magnitude == unit * whole + magnitude as int % unit,
                0 <= magnitude as int % unit < unit,
                0x80_0000 * unit <= magnitude < 0x100_0000 * unit,
                unit > 0,
        ;
        if magnitude < 0x100_0000 {
            lemma_top_bit_below(magnitude, 24);
        }
    }
}

/// The bits of the float32 that is nearest to `word / 2^23`.
fn float_of(word: i32) -> (bits: u32)
    ensures
        bits == float_bits(word as int),
{
    if word == 0 {
        return 0;
    }
    let wide: i64 = word as i64;
    let magnitude: u64 = if wide < 0 {
        (-wide) as u64
    } else {
        wide as u64
    };
    proof {
        lemma2_to64();
        lemma_top_bit_below(magnitude as nat, 32);
        lemma_significand(magnitude as nat);
    }
    let mut top: u64 = 0;
    let mut rest: u64 = magnitude;
    while rest > 1
        invariant
            rest >= 1,
            top_bit(magnitude as nat) == top + top_bit(rest as nat),
            top_bit(magnitude as nat) < 32,
            top < 32,
        decreases rest,
    {
        rest = rest / 2;
        top += 1;
    }
    let significant: u64 = if top <= 23 {
        let shift: u64 = 23 - top;
        proof {
            if shift < 24 {
                vstd::arithmetic::power2::lemma_pow2_strictly_increases(shift as nat, 24);
            }
            lemma_u64_shl_is_mul(1, shift);
        }
        let step: u64 = 1u64 << shift;
        assert(magnitude * step == significand(magnitude as nat));
        magnitude * step
    } else {
        let shift: u64 = top - 23;
        proof {
            if shift < 9 {
                vstd::arithmetic::power2::lemma_pow2_strictly_increases(shift as nat, 9);
            }
            lemma_pow2_pos(shift as nat);
            lemma_u64_shl_is_mul(1, shift);
        }
        let unit: u64 = 1u64 << shift;
        assert(unit == pow2(shift as nat));
        let whole: u64 = magnitude / unit;
        let over: u64 = magnitude % unit;
        if over * 2 > unit || (over * 2 == unit && whole % 2 == 1) {
            whole + 1
        } else {
            whole
        }
    };
    assert(significant == significand(magnitude as nat));
    let sign: u64 = if wide < 0 {
        0x8000_0000
    } else {
        0
    };
    (sign + (top + 103) * 0x80_0000 + significant) as u32
}

/// A float32 sample carries every 24-bit code exactly: read back as a sign, an exponent `e`
/// and significant bits `1.f`, it is the code divided by 2^23, with nothing rounded.
pub proof fn float_samples_are_exact(word: i32)
    requires
        -0x80_0000 <= word < 0x80_0000,
        word != 0,
    ensures
        ({
            let bits = float_bits(word as int);
            let negative = bits / 0x8000_0000;
            let exponent = bits / 0x80_0000 % 256;
            let fraction = bits % 0x80_0000;
            let magnitude = if word < 0 {
                -word
            } else {
                word as int
            };
            &&& 0 <= bits < 0x1_0000_0000
            &&& negative == if word < 0 {
                1int
            } else {
                0
            }
            &&& 0 < exponent <= 127
            &&& 0x80_0000 + fraction == magnitude * pow2((127 - exponent) as nat)
        }),
{
    let magnitude = if word < 0 {
        (-word) as nat
    } else {
        word as nat
    };
    lemma2_to64();
    lemma_top_bit_below(magnitude, 24);
    lemma_significand(magnitude);
    let top = top_bit(magnitude) as int;
    let bits = float_bits(word as int);
    let sign = if word < 0 {
        0x8000_0000int
    } else {
        0
    };
    let fraction = significand(magnitude) - 0x80_0000;
    assert(bits == sign + (top + 104) * 0x80_0000 + fraction);
    assert(bits % 0x80_0000 == fraction);
    assert(bits / 0x80_0000 == sign / 0x80_0000 + top + 104);
}

/// The word that a float32 sample stands for: its value times 2^23.
pub open spec fn float_decoded(bytes: Seq<u8>) -> int {
    let bits = bytes[0] + bytes[1] * 0x100 + bytes[2] * 0x1_0000 + bytes[3] * 0x100_0000;
    let exponent = bits / 0x80_0000 % 256;
    let significant = 0x80_0000 + bits % 0x80_0000;
    let magnitude = if exponent == 0 {
        0
    } else if exponent <= 127 {
        significant / pow2((127 - exponent) as nat) as int
    } else {
        significant * pow2((exponent - 127) as nat)
    };
    if bits >= 0x8000_0000 {
        -magnitude
    } else {
        magnitude
    }
}

/// A float32 sample gives back the word that was written.
pub proof fn float_samples_read_back(word: i32)
    requires
        -0x80_0000 <= word < 0x80_0000,
    ensures
        float_decoded(Encoding::Float32.encoded(word)) == word,
{
    if word != 0 {
        float_samples_are_exact(word);
        let bits = float_bits(word as int);
        lemma_four_bytes(bits);
        let shift = (127 - bits / 0x80_0000 % 256) as nat;
        let magnitude = if word < 0 {
            -word
        } else {
            word as int
        };
        lemma_pow2_pos(shift);
        vstd::arithmetic::div_mod::lemma_div_by_multiple(magnitude, pow2(shift) as int);
    }
}

/// The 24-bit word that an integer sample of this layout holds.
pub open spec fn decoded(bytes: Seq<u8>, shift: u8, big_endian: bool) -> int {
    let low_first = if big_endian {
        bytes.reverse()
    } else {
        bytes
    };
    let top = if low_first.len() == 4 {
        low_first[3] as int
    } else {
        0
    };
    let value = low_first[0] + low_first[1] * 0x100 + low_first[2] * 0x1_0000 + top * 0x100_0000;
    crate::dop::sign_extended(
        if shift == 8 {
            value / 256
        } else {
            value % 0x100_0000
        },
    )
}

/// Every integer layout that a stream format has gives back the word that was written.
pub proof fn integer_samples_are_exact(format: StreamFormat, word: i32)
    requires
        -0x80_0000 <= word < 0x80_0000,
    ensures
        Encoding::of_format(format) matches Ok(encoding) ==> (encoding matches Encoding::Signed {
            bytes,
            shift,
            big_endian,
        } ==> decoded(encoding.encoded(word), shift, big_endian) == word),
{
    if let Ok(encoding) = Encoding::of_format(format) {
        if let Encoding::Signed { bytes, shift, big_endian } = encoding {
            lemma_written(bytes, shift, big_endian, word);
        }
    }
}

/// The four bytes of a value are the value.
proof fn lemma_four_bytes(value: int)
    requires
        0 <= value < 0x1_0000_0000,
    ensures
        value == value % 256 + value / 0x100 % 256 * 0x100 + value / 0x1_0000 % 256 * 0x1_0000
            + value / 0x100_0000 % 256 * 0x100_0000,
        value % 0x100_0000 == value % 256 + value / 0x100 % 256 * 0x100 + value / 0x1_0000 % 256
            * 0x1_0000,
{
}

#[verifier::rlimit(50)]
proof fn lemma_written(bytes: u8, shift: u8, big_endian: bool, word: i32)
    requires
        bytes == 3 && shift == 0 || bytes == 4 && (shift == 0 || shift == 8),
        -0x80_0000 <= word < 0x80_0000,
    ensures
        decoded(
            (Encoding::Signed { bytes, shift, big_endian }).encoded(word),
            shift,
            big_endian,
        ) == word,
{
    lemma2_to64();
    let value = word * pow2(shift as nat) % 0x1_0000_0000;
    if shift == 8 {
        assert(value == word * 256 % 0x1_0000_0000);
    } else {
        assert(shift as nat == 0);
        assert(pow2(shift as nat) == 1);
        let one = pow2(shift as nat) as int;
        assert(word * one == word) by (nonlinear_arith)
            requires
                one == 1,
        ;
    }
    lemma_four_bytes(value);
    let low_first = little_endian(value).subrange(0, bytes as int);
    let written = (Encoding::Signed { bytes, shift, big_endian }).encoded(word);
    let read = if big_endian {
        written.reverse()
    } else {
        written
    };
    assert(read =~= low_first);
    assert(low_first[0] == value % 256);
    assert(low_first[1] == value / 0x100 % 256);
    assert(low_first[2] == value / 0x1_0000 % 256);
    if bytes == 4 {
        assert(low_first[3] == value / 0x100_0000 % 256);
    }
}

/// A word of 24 bits takes the highest bits that a format has for it: of 32 bits the highest 24, of
/// 24 bits all, which are the highest of their bytes where the format says so and the lowest
/// where it does not. Its bytes are as many as the format has, in the format's order.
pub proof fn words_take_the_highest_bits_of_a_format(format: StreamFormat)
    ensures
        Encoding::of_format(format) matches Ok(encoding) ==> match encoding {
            Encoding::Signed { bytes, shift, big_endian } => {
                let top = if format.bits == 32 || format.flags / 16 % 2 == 1 {
                    8 * bytes
                } else {
                    24
                };
                &&& bytes == format.sample_bytes()
                &&& shift == top - 24
                &&& big_endian == (format.flags / 2 % 2 == 1)
                &&& format.flags % 2 == 0
                &&& format.flags / 4 % 2 == 1
                &&& format.bits == 24 || format.bits == 32
            },
            Encoding::Float32 => format.flags % 2 == 1 && format.bits == 32
                && format.sample_bytes() == 4 && format.flags / 2 % 2 == 0,
        },
{
}

} // verus!
