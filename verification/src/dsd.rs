//! One-bit audio: rates, bit order and silence.

use crate::text;
use vstd::prelude::*;

verus! {

/// A DSD stream of all-zero audio is a 1010… bit pattern, not zero bytes.
pub const DSD_SILENCE_BYTE: u8 = 0x69;

/// Bit rate of one DSD channel, in bits per second.
#[derive(Debug, Clone, Copy, PartialEq, Eq, PartialOrd, Ord, Structural)]
pub struct DsdRate(pub u32);

impl DsdRate {
    pub fn new(hz: u32) -> (rate: Self)
        ensures
            rate.0 == hz,
    {
        DsdRate(hz)
    }

    pub fn hz(self) -> (hz: u32)
        ensures
            hz == self.0,
    {
        self.0
    }

    /// DoP carries 16 DSD bits per 24-bit PCM frame.
    pub fn dop_pcm_rate(self) -> (rate: u32)
        ensures
            rate == self.0 / 16,
    {
        self.0 / 16
    }

    /// Native DSD carries 32 bits per channel in every USB frame.
    pub fn native_frame_rate(self) -> (rate: u32)
        ensures
            rate == self.0 / 32,
    {
        self.0 / 32
    }

    /// The `NN` in `DSD64`, relative to whichever CD/DAT base rate divides evenly.
    pub open spec fn tier(self) -> Option<u32> {
        if self.0 % 44_100 == 0 {
            Some((self.0 / 44_100) as u32)
        } else if self.0 % 48_000 == 0 {
            Some((self.0 / 48_000) as u32)
        } else {
            None
        }
    }

    /// The `NN` in `DSD64`, relative to whichever CD/DAT base rate divides evenly.
    pub fn multiplier(self) -> (tier: Option<u32>)
        ensures
            tier == self.tier(),
    {
        if self.0 % 44_100 == 0 {
            Some(self.0 / 44_100)
        } else if self.0 % 48_000 == 0 {
            Some(self.0 / 48_000)
        } else {
            None
        }
    }
}

impl DsdRate {
    /// The rate by its tier and in megahertz, which are given as text.
    pub open spec fn described(self, megahertz: Seq<char>) -> Seq<char> {
        match self.tier() {
            Some(tier) => "DSD"@ + text::decimal(tier as nat) + " ("@ + megahertz + " MHz)"@,
            None => megahertz + " MHz"@,
        }
    }

    /// The rate as it is shown: "DSD64 (2.8224 MHz)". `megahertz` is the rate in megahertz to
    /// four places.
    pub fn describe(self, megahertz: &str) -> (line: String)
        ensures
            line@ == self.described(megahertz@),
    {
        match self.multiplier() {
            Some(tier) => {
                let mut line: String = text::with_number("DSD", tier as u64);
                line.append(" (");
                line.append(megahertz);
                line.append(" MHz)");
                line
            },
            None => {
                let mut line: String = text::owned(megahertz);
                line.append(" MHz");
                line
            },
        }
    }
}

/// Order in which a container stores the 8 DSD bits of a byte.
#[derive(Debug, Clone, Copy, PartialEq, Eq, Structural)]
pub enum BitOrder {
    MsbFirst,
    LsbFirst,
}

/// `byte` with its bits in the opposite order.
pub open spec fn reversed(byte: u8) -> u8 {
    (byte % 2 * 128 + byte / 2 % 2 * 64 + byte / 4 % 2 * 32 + byte / 8 % 2 * 16 + byte / 16 % 2 * 8
        + byte / 32 % 2 * 4 + byte / 64 % 2 * 2 + byte / 128) as u8
}

fn reverse(byte: u8) -> (out: u8)
    ensures
        out == reversed(byte),
{
    byte % 2 * 128 + byte / 2 % 2 * 64 + byte / 4 % 2 * 32 + byte / 8 % 2 * 16 + byte / 16 % 2 * 8
        + byte / 32 % 2 * 4 + byte / 64 % 2 * 2 + byte / 128
}

/// Turning a byte round twice gives it back.
pub proof fn reversing_twice_is_identity(byte: u8)
    ensures
        reversed(reversed(byte)) == byte,
{
    assert(reversed(reversed(byte)) == byte) by (bit_vector);
}

/// Turning a byte round puts its first bit last, its second bit last but one, and so on.
pub proof fn reversing_swaps_first_and_last(byte: u8)
    ensures
        reversed(byte) % 2 == byte / 128 % 2,
        reversed(byte) / 2 % 2 == byte / 64 % 2,
        reversed(byte) / 4 % 2 == byte / 32 % 2,
        reversed(byte) / 8 % 2 == byte / 16 % 2,
        reversed(byte) / 16 % 2 == byte / 8 % 2,
        reversed(byte) / 32 % 2 == byte / 4 % 2,
        reversed(byte) / 64 % 2 == byte / 2 % 2,
        reversed(byte) / 128 % 2 == byte % 2,
{
    assert(reversed(byte) % 2 == byte / 128 % 2 && reversed(byte) / 2 % 2 == byte / 64 % 2 && reversed(byte) / 4 % 2 == byte / 32 % 2 && reversed(byte) / 8 % 2 == byte / 16 % 2 && reversed(byte) / 16 % 2 == byte / 8 % 2 && reversed(byte) / 32 % 2 == byte / 4 % 2 && reversed(byte) / 64 % 2 == byte / 2 % 2 && reversed(byte) / 128 % 2 == byte % 2) by (bit_vector);
}

impl BitOrder {
    /// A byte of this order, with the earliest DSD bit moved to bit 7.
    pub open spec fn normalized(self, byte: u8) -> u8 {
        match self {
            BitOrder::MsbFirst => byte,
            BitOrder::LsbFirst => reversed(byte),
        }
    }

    /// A run of bytes of this order, each with its earliest DSD bit moved to bit 7.
    pub open spec fn normalized_seq(self, bytes: Seq<u8>) -> Seq<u8> {
        bytes.map_values(|byte: u8| self.normalized(byte))
    }

    /// One byte rewritten so that the earliest DSD bit sits in bit 7.
    pub fn normalize_byte(self, byte: u8) -> (out: u8)
        ensures
            out == self.normalized(byte),
    {
        match self {
            BitOrder::MsbFirst => byte,
            BitOrder::LsbFirst => reverse(byte),
        }
    }

    /// Rewrite `bytes` in place so the earliest DSD bit sits in bit 7, as DoP requires.
    pub fn normalize_to_msb_first(self, bytes: &mut [u8])
        ensures
            final(bytes)@ == self.normalized_seq(old(bytes)@),
    {
        let ghost before = bytes@;
        let mut i: usize = 0;
        while i < bytes.len()
            invariant
                i <= bytes@.len(),
                bytes@.len() == before.len(),
                forall|k: int| 0 <= k < i ==> bytes@[k] == self.normalized(before[k]),
                forall|k: int| i <= k < before.len() ==> bytes@[k] == before[k],
            decreases bytes@.len() - i,
        {
            bytes[i] = self.normalize_byte(bytes[i]);
            i += 1;
        }
        assert(bytes@ =~= self.normalized_seq(before));
    }
}

/// Normalizing is undone by normalizing again, whatever the order.
pub proof fn normalizing_twice_is_identity(order: BitOrder, bytes: Seq<u8>)
    ensures
        order.normalized_seq(order.normalized_seq(bytes)) == bytes,
{
    assert forall|i: int| 0 <= i < bytes.len() implies order.normalized_seq(
        order.normalized_seq(bytes),
    )[i] == bytes[i] by {
        reversing_twice_is_identity(bytes[i]);
    }
    assert(order.normalized_seq(order.normalized_seq(bytes)) =~= bytes);
}

#[derive(Debug, Clone, Copy, PartialEq, Eq, Structural)]
pub struct DsdFormat {
    pub rate: DsdRate,
    pub channels: u16,
}

/// The tier of a rate is how many times the rate of a CD it is, or of a DAT where it is not whole
/// times that.
pub proof fn a_tier_is_a_multiple_of_a_base_rate(rate: DsdRate, times: u32)
    ensures
        rate.0 == times * 44_100 ==> rate.tier() == Some(times),
        rate.0 == times * 48_000 && rate.0 % 44_100 != 0 ==> rate.tier() == Some(times),
        rate.0 % 44_100 != 0 && rate.0 % 48_000 != 0 ==> rate.tier() is None,
{
}

} // verus!
