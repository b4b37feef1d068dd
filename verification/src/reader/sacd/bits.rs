//! Reading a frame bit by bit, most significant bit first.

use vstd::arithmetic::power2::{lemma2_to64, lemma_pow2_unfold, pow2};
use vstd::bits::lemma_u32_shl_is_mul;
use vstd::prelude::*;

verus! {

/// Bit `n` of a byte, counted from the most significant.
pub open spec fn bit_of(byte: u8, n: int) -> int {
    if n == 0 {
        byte as int / 128
    } else if n == 1 {
        byte as int / 64 % 2
    } else if n == 2 {
        byte as int / 32 % 2
    } else if n == 3 {
        byte as int / 16 % 2
    } else if n == 4 {
        byte as int / 8 % 2
    } else if n == 5 {
        byte as int / 4 % 2
    } else if n == 6 {
        byte as int / 2 % 2
    } else {
        byte as int % 2
    }
}

/// Bit `at` of a run of bytes; past the end every bit is zero.
pub open spec fn bit_at(data: Seq<u8>, at: int) -> int {
    if 0 <= at < data.len() * 8 {
        bit_of(data[at / 8], at % 8)
    } else {
        0
    }
}

/// Where reading stands after `count` more bits. It never goes past the end.
pub open spec fn past(data: Seq<u8>, at: int, count: int) -> int {
    if at + count <= data.len() * 8 {
        at + count
    } else {
        data.len() as int * 8
    }
}

/// The number that `count` bits from `at` spell, of which the low 32 bits are kept.
pub open spec fn field(data: Seq<u8>, at: int, count: nat) -> int
    decreases count,
{
    if count == 0 {
        0
    } else {
        (field(data, at, (count - 1) as nat) * 2 + bit_at(data, at + count - 1)) % 0x1_0000_0000
    }
}

/// The same number as a two's complement field of its own width.
pub open spec fn signed_field(data: Seq<u8>, at: int, count: nat) -> int {
    let value = field(data, at, count);
    if value >= pow2((count - 1) as nat) {
        value - pow2(count)
    } else {
        value
    }
}

/// An integer reduced to 32 bits of two's complement.
pub open spec fn wrap_i32(value: int) -> int {
    (value + 0x8000_0000) % 0x1_0000_0000 - 0x8000_0000
}

/// Zeros ahead of the one that ends a Rice prefix. A prefix that meets the end of the data
/// stops there, and the bit it stops on is not counted.
pub open spec fn rice_zeros(data: Seq<u8>, at: int) -> int
    decreases data.len() * 8 - at,
{
    if at + 1 >= data.len() * 8 || bit_at(data, at) == 1 {
        0
    } else {
        1 + rice_zeros(data, at + 1)
    }
}

/// Where a Rice code with `k` low bits ends.
pub open spec fn rice_end(data: Seq<u8>, at: int, k: nat) -> int {
    past(data, past(data, at, rice_zeros(data, at) + 1), k as int)
}

/// A Rice code: its zeros, then `k` low bits, as 32 bits.
pub open spec fn rice(data: Seq<u8>, at: int, k: nat) -> int {
    (rice_zeros(data, at) * pow2(k) + field(data, past(data, at, rice_zeros(data, at) + 1), k))
        % 0x1_0000_0000
}

/// A Rice code with a sign bit after any value but zero.
pub open spec fn signed_rice(data: Seq<u8>, at: int, k: nat) -> int {
    let value = wrap_i32(rice(data, at, k));
    if value != 0 && bit_at(data, rice_end(data, at, k)) == 1 {
        wrap_i32(-value)
    } else {
        value
    }
}

/// Where a signed Rice code ends.
pub open spec fn signed_rice_end(data: Seq<u8>, at: int, k: nat) -> int {
    if wrap_i32(rice(data, at, k)) != 0 {
        past(data, rice_end(data, at, k), 1)
    } else {
        rice_end(data, at, k)
    }
}

/// A field of up to 32 bits holds a number of that many bits.
pub proof fn lemma_field_bound(data: Seq<u8>, at: int, count: nat)
    requires
        count <= 32,
    ensures
        0 <= field(data, at, count) < pow2(count),
    decreases count,
{
    lemma2_to64();
    if count > 0 {
        lemma_field_bound(data, at, (count - 1) as nat);
        lemma_pow2_unfold(count);
        if count < 32 {
            vstd::arithmetic::power2::lemma_pow2_strictly_increases(count, 32);
        }
        lemma_bit(data, at + count - 1);
    }
}

/// A bit is zero or one.
pub proof fn lemma_bit(data: Seq<u8>, at: int)
    ensures
        bit_at(data, at) == 0 || bit_at(data, at) == 1,
{
}

/// Shifting a bit down to the bottom of its byte picks it out.
pub proof fn lemma_shifted_bit(byte: u8, n: u8)
    requires
        n < 8,
    ensures
        (byte >> (7 - n) as u8) & 1 == bit_of(byte, n as int),
{
    assert((byte >> ((7 - n) as u8)) & 1 == (if n == 0 {
        (byte / 128) as u8
    } else if n == 1 {
        (byte / 64 % 2) as u8
    } else if n == 2 {
        (byte / 32 % 2) as u8
    } else if n == 3 {
        (byte / 16 % 2) as u8
    } else if n == 4 {
        (byte / 8 % 2) as u8
    } else if n == 5 {
        (byte / 4 % 2) as u8
    } else if n == 6 {
        (byte / 2 % 2) as u8
    } else {
        (byte % 2) as u8
    })) by (bit_vector)
        requires
            n < 8,
    ;
}

/// `value` reduced to 32 bits of two's complement.
pub fn wrap32(value: i64) -> (out: i32)
    requires
        -0x2000_0000_0000_0000 <= value <= 0x2000_0000_0000_0000,
    ensures
        out == wrap_i32(value as int),
{
    let low: i64 = (value + 0x2000_0000_8000_0000) % 0x1_0000_0000;
    (low - 0x8000_0000) as i32
}

/// A bit reader over one frame. Reads past the end come back as zero: the arithmetic coder
/// keeps pulling bits to renormalise after it has consumed the last real one, and the bits
/// it takes then never reach the output.
pub struct Bits<'a> {
    data: &'a [u8],
    byte: usize,
    bit: u8,
}

impl<'a> Bits<'a> {
    /// The bytes being read.
    pub closed spec fn data(&self) -> Seq<u8> {
        self.data@
    }

    /// How many bits have been read, at most all of them.
    pub closed spec fn at(&self) -> int {
        self.byte * 8 + self.bit
    }

    pub closed spec fn wf(&self) -> bool {
        &&& self.byte <= self.data@.len()
        &&& self.bit < 8
        &&& self.byte == self.data@.len() ==> self.bit == 0
    }

    /// A reader stands inside its data.
    pub proof fn lemma_wf(&self)
        requires
            self.wf(),
        ensures
            0 <= self.at() <= self.data().len() * 8,
    {
    }

    pub fn new(data: &'a [u8]) -> (bits: Self)
        ensures
            bits.wf(),
            bits.data() == data@,
            bits.at() == 0,
    {
        Bits { data, byte: 0, bit: 0 }
    }

    pub fn bit(&mut self) -> (value: u32)
        requires
            old(self).wf(),
        ensures
            final(self).wf(),
            final(self).data() == old(self).data(),
            value == bit_at(old(self).data(), old(self).at()),
            final(self).at() == past(old(self).data(), old(self).at(), 1),
            value <= 1,
    {
        if self.byte >= self.data.len() {
            return 0;
        }
        let byte: u8 = self.data[self.byte];
        proof {
            lemma_shifted_bit(byte, self.bit);
        }
        let value: u8 = (byte >> (7 - self.bit)) & 1;
        if self.bit == 7 {
            self.bit = 0;
            self.byte += 1;
        } else {
            self.bit += 1;
        }
        value as u32
    }

    pub fn take(&mut self, count: u32) -> (value: u32)
        requires
            old(self).wf(),
        ensures
            final(self).wf(),
            final(self).data() == old(self).data(),
            value == field(old(self).data(), old(self).at(), count as nat),
            final(self).at() == past(old(self).data(), old(self).at(), count as int),
    {
        let mut value: u32 = 0;
        let mut done: u32 = 0;
        while done < count
            invariant
                done <= count,
                old(self).wf(),
                self.wf(),
                self.data() == old(self).data(),
                value == field(old(self).data(), old(self).at(), done as nat),
                self.at() == past(old(self).data(), old(self).at(), done as int),
            decreases count - done,
        {
            proof {
                old(self).lemma_wf();
            }
            let bit: u32 = self.bit();
            value = ((value as u64 * 2 + bit as u64) % 0x1_0000_0000) as u32;
            done += 1;
        }
        value
    }

    /// `count` bits read as a two's complement signed field.
    pub fn take_signed(&mut self, count: u32) -> (value: i32)
        requires
            old(self).wf(),
            1 <= count <= 31,
        ensures
            final(self).wf(),
            final(self).data() == old(self).data(),
            value == signed_field(old(self).data(), old(self).at(), count as nat),
            final(self).at() == past(old(self).data(), old(self).at(), count as int),
    {
        let value: u32 = self.take(count);
        proof {
            lemma_field_bound(old(self).data(), old(self).at(), count as nat);
            lemma_pow2_unfold(count as nat);
            lemma2_to64();
            if count < 31 {
                vstd::arithmetic::power2::lemma_pow2_strictly_increases(count as nat, 31);
            }
            lemma_u32_shl_is_mul(1, (count - 1) as u32);
        }
        let half: u32 = 1u32 << (count - 1);
        if value >= half {
            (value as i64 - 2 * half as i64) as i32
        } else {
            value as i32
        }
    }

    /// Rice code: zeros up to a one, then `k` bits.
    pub fn golomb(&mut self, k: u32) -> (value: u32)
        requires
            old(self).wf(),
            k < 32,
        ensures
            final(self).wf(),
            final(self).data() == old(self).data(),
            value == rice(old(self).data(), old(self).at(), k as nat),
            final(self).at() == rice_end(old(self).data(), old(self).at(), k as nat),
    {
        let ghost data = self.data();
        let ghost start = self.at();
        let mut prefix: u32 = 0;
        let ghost mut zeros: int = 0;
        proof {
            self.lemma_wf();
        }
        loop
            invariant_except_break
                self.wf(),
                self.data() == data,
                0 <= start <= data.len() * 8,
                zeros >= 0,
                prefix == zeros % 0x1_0000_0000,
                self.at() == start + zeros,
                rice_zeros(data, start) == zeros + rice_zeros(data, start + zeros),
            invariant
                data == old(self).data(),
                start == old(self).at(),
            ensures
                self.wf(),
                self.data() == data,
                0 <= start <= data.len() * 8,
                prefix == zeros % 0x1_0000_0000,
                zeros == rice_zeros(data, start),
                self.at() == past(data, start, zeros + 1),
            decreases data.len() * 8 - self.at(),
        {
            let bit: u32 = self.bit();
            if bit == 1 || self.exhausted() {
                break;
            }
            proof {
                zeros = zeros + 1;
                self.lemma_wf();
            }
            prefix = if prefix == u32::MAX {
                0
            } else {
                prefix + 1
            };
        }
        proof {
            lemma2_to64();
            if k < 31 {
                vstd::arithmetic::power2::lemma_pow2_strictly_increases(k as nat, 31);
            }
            lemma_u32_shl_is_mul(1, k);
        }
        let step: u32 = 1u32 << k;
        let low: u32 = self.take(k);
        assert(prefix * step <= 0xffff_ffff * 0xffff_ffff) by (nonlinear_arith)
            requires
                0 <= prefix <= 0xffff_ffff,
                0 <= step <= 0xffff_ffff,
        ;
        let high: u64 = prefix as u64 * step as u64 % 0x1_0000_0000;
        proof {
            let modulus = 0x1_0000_0000int;
            vstd::arithmetic::div_mod::lemma_mul_mod_noop_left(zeros, step as int, modulus);
            vstd::arithmetic::div_mod::lemma_add_mod_noop(
                zeros * step,
                low as int,
                modulus,
            );
        }
        ((high + low as u64) % 0x1_0000_0000) as u32
    }

    /// The same with a sign bit after any non-zero value.
    pub fn signed_golomb(&mut self, k: u32) -> (value: i32)
        requires
            old(self).wf(),
            k < 32,
        ensures
            final(self).wf(),
            final(self).data() == old(self).data(),
            value == signed_rice(old(self).data(), old(self).at(), k as nat),
            final(self).at() == signed_rice_end(old(self).data(), old(self).at(), k as nat),
    {
        let code: u32 = self.golomb(k);
        let value: i32 = wrap32(code as i64);
        if value != 0 && self.bit() == 1 {
            return wrap32(-(value as i64));
        }
        value
    }

    pub fn exhausted(&self) -> (done: bool)
        requires
            self.wf(),
        ensures
            done == (self.at() >= self.data().len() * 8),
    {
        self.byte >= self.data.len()
    }
}

} // verus!
