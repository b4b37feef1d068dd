//! The arithmetic decoder of a DST frame.

use crate::reader::sacd::bits;
use crate::reader::sacd::bits::Bits;
use vstd::prelude::*;

verus! {

/// The arithmetic coder renormalises whenever its range falls below half of 4096.
pub const RANGE_FLOOR: u32 = 2048;

/// The coder's state: its range, its code word, and where in the frame it reads on.
pub struct Coding {
    pub range: int,
    pub code: int,
    pub at: int,
}

/// The range in steps of 256, with the bit below it folded into the lowest one.
pub open spec fn scale(range: int) -> int {
    let steps = range / 256;
    if range / 128 % 2 == 1 && steps % 2 == 0 {
        steps + 1
    } else {
        steps
    }
}

/// Double the range until it is back above its floor, pulling a bit into the code word, which
/// keeps 32 bits, each time.
pub open spec fn renormalised(data: Seq<u8>, coding: Coding) -> Coding
    decreases 2 * RANGE_FLOOR - coding.range,
{
    if coding.range >= RANGE_FLOOR || coding.range < 1 {
        coding
    } else {
        renormalised(
            data,
            Coding {
                range: coding.range * 2,
                code: (coding.code * 2 + bits::bit_at(data, coding.at)) % 0x1_0000_0000,
                at: bits::past(data, coding.at, 1),
            },
        )
    }
}

/// The coder at the head of the coded data: a full range and twelve bits of code.
pub open spec fn coding_start(data: Seq<u8>, at: int) -> Coding {
    Coding { range: 4095, code: bits::field(data, at, 12), at: bits::past(data, at, 12) }
}

/// The bit that comes out against a probability of `p` in 256 that it is zero.
pub open spec fn coded_bit(coding: Coding, p: int) -> int {
    if coding.code < coding.range - scale(coding.range) * p {
        1
    } else {
        0
    }
}

/// The coder after that bit has come out.
pub open spec fn coding_next(data: Seq<u8>, coding: Coding, p: int) -> Coding {
    let split = scale(coding.range) * p;
    let rest = coding.range - split;
    if coding.code < rest {
        renormalised(data, Coding { range: rest, ..coding })
    } else {
        renormalised(data, Coding { range: split, code: coding.code - rest, ..coding })
    }
}

/// The arithmetic decoder: a range and a code word, both 12 bits at the start.
pub struct Coder {
    pub range: u32,
    pub code: u32,
}

impl Coder {
    /// The coder together with the place its bits come from.
    pub open spec fn with(self, at: int) -> Coding {
        Coding { range: self.range as int, code: self.code as int, at }
    }

    pub open spec fn wf(self) -> bool {
        RANGE_FLOOR <= self.range <= 4095
    }

    pub fn new(bits: &mut Bits) -> (coder: Self)
        requires
            old(bits).wf(),
        ensures
            final(bits).wf(),
            final(bits).data() == old(bits).data(),
            coder.wf(),
            coder.with(final(bits).at()) == coding_start(old(bits).data(), old(bits).at()),
    {
        Coder { range: 4095, code: bits.take(12) }
    }

    /// Decode one bit against a probability of `p` in 256 that it is zero.
    pub fn decode(&mut self, bits: &mut Bits, p: u32) -> (bit: u32)
        requires
            old(bits).wf(),
            old(self).wf(),
            1 <= p <= 128,
        ensures
            final(bits).wf(),
            final(bits).data() == old(bits).data(),
            final(self).wf(),
            bit == coded_bit(old(self).with(old(bits).at()), p as int),
            final(self).with(final(bits).at()) == coding_next(
                old(bits).data(),
                old(self).with(old(bits).at()),
                p as int,
            ),
    {
        let ghost data = bits.data();
        let ghost start = self.with(bits.at());
        let steps: u32 = self.range / 256;
        let factor: u32 = if self.range / 128 % 2 == 1 && steps % 2 == 0 {
            steps + 1
        } else {
            steps
        };
        assert(8 <= factor <= 15);
        assert(8 <= factor * p <= 1920) by (nonlinear_arith)
            requires
                8 <= factor <= 15,
                1 <= p <= 128,
        ;
        let split: u32 = factor * p;
        let rest: u32 = self.range - split;
        let bit: u32 = if self.code < rest {
            1
        } else {
            0
        };
        if bit == 1 {
            self.range = rest;
        } else {
            self.range = split;
            self.code = self.code - rest;
        }
        let ghost next = coding_next(data, start, p as int);
        while self.range < RANGE_FLOOR
            invariant
                bits.wf(),
                bits.data() == data,
                1 <= self.range <= 4095,
                next == renormalised(data, self.with(bits.at())),
            decreases 2 * RANGE_FLOOR - self.range,
        {
            let low: u32 = bits.bit();
            self.range = self.range * 2;
            self.code = ((self.code as u64 * 2 + low as u64) % 0x1_0000_0000) as u32;
        }
        bit
    }
}

} // verus!
