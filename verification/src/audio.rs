//! What a file holds, and the 24-bit carrier word it travels in.

use crate::dsd::DsdFormat;
use vstd::arithmetic::power2::{lemma2_to64, pow2};
use vstd::bits::lemma_u32_shl_is_mul;
use crate::text;
use vstd::prelude::*;

verus! {

/// Width every sample reaches the output encoding at. DoP frames are 24 bits by definition,
/// and PCM is left-justified into the same word, so one encoder serves both carriers.
pub const CARRIER_BITS: u32 = 24;

/// Linear PCM as a container stores it.
#[derive(Debug, Clone, Copy, PartialEq, Eq, Structural)]
pub struct PcmFormat {
    pub rate: u32,
    pub bits: u32,
    pub channels: u16,
}

/// `value` is a code of `bits` bits in two's complement.
pub open spec fn is_code(value: int, bits: u32) -> bool {
    bits > 0 && -pow2((bits - 1) as nat) <= value < pow2((bits - 1) as nat)
}

impl PcmFormat {
    /// What one step of a container code counts for in the carrier word.
    pub open spec fn carrier_step(self) -> nat {
        pow2((CARRIER_BITS - self.bits) as nat)
    }

    /// A container sample in the carrier word. A sample too wide for its declared width loses
    /// the bits past 32.
    pub open spec fn carrier_word(self, sample: i32) -> i32 {
        ((sample * self.carrier_step() + 0x8000_0000) % 0x1_0000_0000 - 0x8000_0000) as i32
    }

    /// Left-justify a container sample in the carrier word.
    ///
    /// Shifting is exact: it scales every code by the same power of two, which is all a wider
    /// container means. Nothing is rounded, dithered, or clipped.
    pub fn widen(self, sample: i32) -> (word: i32)
        requires
            self.bits <= CARRIER_BITS,
        ensures
            word == self.carrier_word(sample),
    {
        let shift: u32 = CARRIER_BITS - self.bits;
        proof {
            lemma2_to64();
            assert(pow2(shift as nat) <= 0x100_0000) by {
                if shift < 24 {
                    vstd::arithmetic::power2::lemma_pow2_strictly_increases(shift as nat, 24);
                }
            }
            lemma_u32_shl_is_mul(1, shift);
        }
        let step: u32 = 1u32 << shift;
        assert(step == self.carrier_step());
        assert(-0x80_0000_0000_0000 <= sample * step <= 0x80_0000_0000_0000) by (nonlinear_arith)
            requires
                -0x8000_0000 <= sample <= 0x7fff_ffff,
                0 <= step <= 0x100_0000,
        ;
        let wide: i64 = sample as i64 * step as i64;
        let low: i64 = (wide + 0x100_0000_0000_0000) % 0x1_0000_0000;
        if low < 0x8000_0000 {
            low as i32
        } else {
            (low - 0x1_0000_0000) as i32
        }
    }
}

/// Left-justifying keeps codes apart and in order: a code of the declared width reaches the
/// carrier as itself times one fixed power of two, and stays inside 24 bits.
pub proof fn widening_is_exact(format: PcmFormat, sample: i32)
    requires
        1 <= format.bits <= CARRIER_BITS,
        is_code(sample as int, format.bits),
    ensures
        format.carrier_word(sample) == sample * format.carrier_step(),
        is_code(format.carrier_word(sample) as int, CARRIER_BITS),
        format.carrier_word(sample) as int / format.carrier_step() as int == sample,
{
    let step = format.carrier_step() as int;
    let half = pow2((format.bits - 1) as nat) as int;
    vstd::arithmetic::power2::lemma_pow2_pos((CARRIER_BITS - format.bits) as nat);
    vstd::arithmetic::power2::lemma_pow2_adds(
        (format.bits - 1) as nat,
        (CARRIER_BITS - format.bits) as nat,
    );
    lemma2_to64();
    assert(half * step == 0x80_0000);
    assert(-0x80_0000 <= sample * step < 0x80_0000) by (nonlinear_arith)
        requires
            -half <= sample < half,
            half * step == 0x80_0000,
            0 < step,
    ;
    vstd::arithmetic::div_mod::lemma_div_multiples_vanish(sample as int, step);
    assert(sample * step == step * sample) by (nonlinear_arith);
}

/// What a file holds, which decides how it reaches the DAC.
#[derive(Debug, Clone, Copy, PartialEq, Eq, Structural)]
pub enum AudioFormat {
    Dsd(DsdFormat),
    Pcm(PcmFormat),
}

impl AudioFormat {
    pub open spec fn channel_count(self) -> u16 {
        match self {
            AudioFormat::Dsd(format) => format.channels,
            AudioFormat::Pcm(format) => format.channels,
        }
    }

    pub fn channels(self) -> (channels: u16)
        ensures
            channels == self.channel_count(),
    {
        match self {
            AudioFormat::Dsd(format) => format.channels,
            AudioFormat::Pcm(format) => format.channels,
        }
    }

    /// The rate the device runs at to carry this.
    pub open spec fn device_rate(self) -> u32 {
        match self {
            AudioFormat::Dsd(format) => (format.rate.0 / 16) as u32,
            AudioFormat::Pcm(format) => format.rate,
        }
    }

    /// The rate the device runs at to carry this: the DoP carrier for DSD, and for PCM the
    /// sample rate itself, which is what locks the DAC to the file rather than to a mixer.
    pub fn carrier_rate(self) -> (rate: u32)
        ensures
            rate == self.device_rate(),
    {
        match self {
            AudioFormat::Dsd(format) => format.rate.dop_pcm_rate(),
            AudioFormat::Pcm(format) => format.rate,
        }
    }

    /// Bits of real audio one carrier word holds: DoP fills all 24, and PCM as many as the
    /// container wrote, left-justified in the same word.
    pub fn carrier_bits(self) -> (bits: u32)
        ensures
            bits == (match self {
                AudioFormat::Dsd(_) => CARRIER_BITS,
                AudioFormat::Pcm(format) => format.bits,
            }),
    {
        match self {
            AudioFormat::Dsd(_) => CARRIER_BITS,
            AudioFormat::Pcm(format) => format.bits,
        }
    }

    /// What the carrier is called where a transport line has room for a word.
    pub fn carrier_name(self) -> (name: &'static str)
        ensures
            name@ == (match self {
                AudioFormat::Dsd(_) => "DoP"@,
                AudioFormat::Pcm(_) => "PCM"@,
            }),
    {
        match self {
            AudioFormat::Dsd(_) => "DoP",
            AudioFormat::Pcm(_) => "PCM",
        }
    }

    /// Bit rate of one channel, where the recording is DSD.
    pub open spec fn dsd_rate(self) -> Option<u32> {
        match self {
            AudioFormat::Dsd(format) => Some(format.rate.0),
            AudioFormat::Pcm(_) => None,
        }
    }

    pub fn dsd(self) -> (format: Option<DsdFormat>)
        ensures
            format == (match self {
                AudioFormat::Dsd(format) => Some(format),
                AudioFormat::Pcm(_) => None,
            }),
    {
        match self {
            AudioFormat::Dsd(format) => Some(format),
            AudioFormat::Pcm(_) => None,
        }
    }

    /// The format, with its rate as a text.
    pub open spec fn described(self, rate: Seq<char>) -> Seq<char> {
        match self {
            AudioFormat::Dsd(format) => format.rate.described(rate) + ", "@ + text::decimal(
                format.channels as nat,
            ) + " ch"@,
            AudioFormat::Pcm(format) => "PCM "@ + rate + " kHz "@ + text::decimal(
                format.bits as nat,
            ) + " bit, "@ + text::decimal(format.channels as nat) + " ch"@,
        }
    }

    /// The format as it is shown: "DSD64 (2.8224 MHz), 2 ch" or "PCM 44.1 kHz 16 bit, 2 ch".
    /// `rate` is the rate in megahertz to four places for DSD, and in kilohertz to one place
    /// for PCM.
    pub fn describe(self, rate: &str) -> (line: String)
        ensures
            line@ == self.described(rate@),
    {
        match self {
            AudioFormat::Dsd(format) => {
                let mut line: String = format.rate.describe(rate);
                line.append(", ");
                line.append(text::decimal_of(format.channels as u64).as_str());
                line.append(" ch");
                line
            },
            AudioFormat::Pcm(format) => {
                let mut line: String = text::owned("PCM ");
                line.append(rate);
                line.append(" kHz ");
                line.append(text::decimal_of(format.bits as u64).as_str());
                line.append(" bit, ");
                line.append(text::decimal_of(format.channels as u64).as_str());
                line.append(" ch");
                line
            },
        }
    }
}

/// A device carries DSD at the rate of its DoP frames, which take sixteen bits of a channel each,
/// and PCM at its own rate.
pub proof fn a_carrier_frame_takes_sixteen_bits(format: AudioFormat, frames: u32)
    ensures
        format is Dsd && format->Dsd_0.rate.0 == frames * 16 ==> format.device_rate() == frames,
        format is Pcm && format->Pcm_0.rate == frames ==> format.device_rate() == frames,
{
}

} // verus!
