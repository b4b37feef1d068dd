//! Predicting a DSD bit from the ones before it.

use crate::reader::sacd::bits;
use crate::reader::sacd::dst::DstError;
use vstd::prelude::*;

verus! {

/// Taps the prediction filter runs over, as 16 bytes of history looked up a byte at a time.
pub const TAPS: usize = 16;

/// The bit a channel produced `back` bits ago. Before its first bit stands an alternating
/// pattern.
pub open spec fn history(produced: Seq<int>, back: int) -> int {
    if back < produced.len() {
        produced[produced.len() - 1 - back]
    } else {
        (back - produced.len()) % 2
    }
}

/// A coefficient counts for itself against a one and against itself for a zero.
pub open spec fn signed(coefficient: i32, bit: int) -> int {
    if bit == 1 {
        coefficient as int
    } else {
        -(coefficient as int)
    }
}

/// What the first `n` coefficients make of the bits before.
pub open spec fn filtered(coefficients: Seq<i32>, produced: Seq<int>, n: int) -> int
    decreases n,
{
    if n <= 0 {
        0
    } else {
        filtered(coefficients, produced, n - 1) + signed(
            coefficients[n - 1],
            history(produced, n - 1),
        )
    }
}

/// An integer reduced to 16 bits of two's complement.
pub open spec fn wrap_i16(value: int) -> int {
    (value + 0x8000) % 0x1_0000 - 0x8000
}

/// The prediction for a channel's next bit, as a 16-bit word.
pub open spec fn prediction(coefficients: Seq<i32>, produced: Seq<int>) -> int {
    wrap_i16(filtered(coefficients, produced, coefficients.len() as int))
}

/// Bit `n` of a byte, counted from the least significant.
pub open spec fn low_bit(byte: u8, n: int) -> int {
    bits::bit_of(byte, 7 - n)
}

/// How many coefficients tap `tap` covers.
pub open spec fn covered(length: int, tap: int) -> int {
    if length <= tap * 8 {
        0
    } else if length - tap * 8 > 8 {
        8
    } else {
        length - tap * 8
    }
}

/// What the first `n` coefficients of a tap make of a byte of history.
pub open spec fn tap_sum(coefficients: Seq<i32>, tap: int, byte: u8, n: int) -> int
    decreases n,
{
    if n <= 0 {
        0
    } else {
        tap_sum(coefficients, tap, byte, n - 1) + signed(
            coefficients[tap * 8 + n - 1],
            low_bit(byte, n - 1),
        )
    }
}

/// What a whole tap makes of a byte of history, as a 32-bit word.
pub open spec fn tap_total(coefficients: Seq<i32>, tap: int, byte: u8) -> int {
    bits::wrap_i32(
        tap_sum(coefficients, tap, byte, covered(coefficients.len() as int, tap)),
    )
}

/// No byte of history takes any of the first `taps` taps past 16 bits.
pub open spec fn sums_fit(coefficients: Seq<i32>, taps: int) -> bool {
    forall|tap: int, byte: u8|
        0 <= tap < taps ==> -0x8000 <= #[trigger] tap_total(coefficients, tap, byte) < 0x8000
}

/// No filter has a tap that a byte of history takes past 16 bits.
pub open spec fn all_sums_fit(filters: Seq<Seq<i32>>) -> bool {
    forall|e: int| 0 <= e < filters.len() ==> sums_fit(#[trigger] filters[e], TAPS as int)
}

/// `lookup` holds, tap by tap, what every byte of history makes of the filter.
pub open spec fn looks_up(lookup: Seq<i16>, coefficients: Seq<i32>, taps: int) -> bool {
    &&& lookup.len() == taps * 256
    &&& forall|tap: int, byte: u8|
        0 <= tap < taps ==> lookup[tap * 256 + byte] == #[trigger] tap_total(
            coefficients,
            tap,
            byte,
        )
}

fn tap_value(coefficients: &Vec<i32>, tap: usize, byte: u8) -> (total: i32)
    requires
        tap < TAPS,
        coefficients@.len() <= 128,
    ensures
        total == tap_total(coefficients@, tap as int, byte),
{
    let start: usize = tap * 8;
    let used: usize = if coefficients.len() <= start {
        0
    } else if coefficients.len() - start > 8 {
        8
    } else {
        coefficients.len() - start
    };
    let mut sum: i64 = 0;
    let mut n: usize = 0;
    while n < used
        invariant
            n <= used == covered(coefficients@.len() as int, tap as int),
            start == tap * 8,
            tap < TAPS,
            sum == tap_sum(coefficients@, tap as int, byte, n as int),
            -(n * 0x8000_0000) <= sum <= n * 0x8000_0000,
        decreases used - n,
    {
        proof {
            bits::lemma_shifted_bit(byte, (7 - n) as u8);
        }
        let value: i64 = coefficients[start + n] as i64;
        if (byte >> (n as u8)) & 1 == 1 {
            sum = sum + value;
        } else {
            sum = sum - value;
        }
        n += 1;
    }
    bits::wrap32(sum)
}

/// Collapse a filter into what every possible byte of history contributes, so the
/// prediction costs sixteen lookups per bit instead of a hundred and twenty-eight
/// multiplies. A history bit of 1 adds its coefficient and a 0 subtracts it.
pub(crate) fn build_lookup(coefficients: &Vec<i32>) -> (out: Result<Vec<i16>, DstError>)
    requires
        coefficients@.len() <= 128,
    ensures
        match out {
            Ok(lookup) => sums_fit(coefficients@, TAPS as int) && looks_up(
                lookup@,
                coefficients@,
                TAPS as int,
            ),
            Err(error) => error == DstError::FilterSum && !sums_fit(coefficients@, TAPS as int),
        },
{
    let mut lookup: Vec<i16> = Vec::new();
    let mut tap: usize = 0;
    while tap < TAPS
        invariant
            tap <= TAPS,
            coefficients@.len() <= 128,
            sums_fit(coefficients@, tap as int),
            looks_up(lookup@, coefficients@, tap as int),
        decreases TAPS - tap,
    {
        let mut byte: usize = 0;
        while byte < 256
            invariant
                byte <= 256,
                tap < TAPS,
                coefficients@.len() <= 128,
                lookup@.len() == tap * 256 + byte,
                sums_fit(coefficients@, tap as int),
                forall|t: int, b: u8|
                    0 <= t < tap ==> lookup@[t * 256 + b] == #[trigger] tap_total(
                        coefficients@,
                        t,
                        b,
                    ),
                forall|b: u8|
                    b < byte ==> {
                        &&& lookup@[tap * 256 + b] == #[trigger] tap_total(
                            coefficients@,
                            tap as int,
                            b,
                        )
                        &&& -0x8000 <= tap_total(coefficients@, tap as int, b) < 0x8000
                    },
            decreases 256 - byte,
        {
            let total: i32 = tap_value(coefficients, tap, byte as u8);
            if total < -0x8000 || total >= 0x8000 {
                return Err(DstError::FilterSum);
            }
            lookup.push(total as i16);
            byte += 1;
        }
        tap += 1;
    }
    Ok(lookup)
}

/// Sixteen bytes that hold the last 128 bits a channel produced, newest in the lowest bit.
pub open spec fn remembers(bytes: Seq<u8>, produced: Seq<int>) -> bool {
    &&& bytes.len() == TAPS
    &&& forall|t: int, n: int|
        0 <= t < TAPS && 0 <= n < 8 ==> #[trigger] low_bit(bytes[t], n) == history(
            produced,
            t * 8 + n,
        )
}

/// The history of a channel that has produced nothing yet.
pub(crate) fn blank_history() -> (bytes: Vec<u8>)
    ensures
        remembers(bytes@, Seq::empty()),
{
    let mut bytes: Vec<u8> = Vec::new();
    while bytes.len() < TAPS
        invariant
            bytes@.len() <= TAPS,
            forall|t: int| 0 <= t < bytes@.len() ==> bytes@[t] == 0xAA,
        decreases TAPS - bytes@.len(),
    {
        bytes.push(0xAA);
    }
    bytes
}

proof fn lemma_shift_in(byte: u8, carry: u8)
    requires
        carry <= 1,
    ensures
        low_bit((byte % 128 * 2 + carry) as u8, 0) == carry,
        forall|n: int|
            0 <= n < 7 ==> #[trigger] low_bit((byte % 128 * 2 + carry) as u8, n + 1) == low_bit(
                byte,
                n,
            ),
        low_bit(byte, 7) == byte / 128,
{
    let next = (byte % 128 * 2 + carry) as u8;
    assert(next % 2 == carry && next / 2 % 2 == byte % 2 && next / 4 % 2 == byte / 2 % 2 && next / 8
        % 2 == byte / 4 % 2 && next / 16 % 2 == byte / 8 % 2 && next / 32 % 2 == byte / 16 % 2
        && next / 64 % 2 == byte / 32 % 2 && next / 128 == byte / 64 % 2) by (bit_vector)
        requires
            next == (byte % 128 * 2 + carry) as u8,
            carry <= 1,
    ;
    assert forall|n: int| 0 <= n < 7 implies #[trigger] low_bit(next, n + 1) == low_bit(
        byte,
        n,
    ) by {
        if n == 0 {
        } else if n == 1 {
        } else if n == 2 {
        } else if n == 3 {
        } else if n == 4 {
        } else if n == 5 {
        } else {
        }
    }
}

/// Take a new bit into a channel's history.
pub(crate) fn remember(bytes: &mut Vec<u8>, bit: u8, produced: Ghost<Seq<int>>)
    requires
        remembers(old(bytes)@, produced@),
        bit <= 1,
    ensures
        remembers(final(bytes)@, produced@.push(bit as int)),
{
    let ghost before = bytes@;
    let ghost now = produced@.push(bit as int);
    let mut carry: u8 = bit;
    let mut t: usize = 0;
    while t < TAPS
        invariant
            t <= TAPS,
            bytes@.len() == TAPS,
            carry <= 1,
            now == produced@.push(bit as int),
            remembers(before, produced@),
            carry == (if t == 0 {
                bit as int
            } else {
                low_bit(before[t - 1], 7)
            }),
            forall|s: int| t <= s < TAPS ==> bytes@[s] == before[s],
            forall|s: int, n: int|
                0 <= s < t && 0 <= n < 8 ==> #[trigger] low_bit(bytes@[s], n) == history(
                    now,
                    s * 8 + n,
                ),
        decreases TAPS - t,
    {
        let byte: u8 = bytes[t];
        let next: u8 = byte % 128 * 2 + carry;
        proof {
            lemma_shift_in(byte, carry);
            assert forall|n: int| 0 <= n < 8 implies #[trigger] low_bit(next, n) == history(
                now,
                t * 8 + n,
            ) by {
                if n == 0 {
                    if t > 0 {
                        assert(low_bit(before[t - 1], 7) == history(produced@, (t - 1) * 8 + 7));
                        assert(history(now, t * 8) == history(produced@, t * 8 - 1));
                    }
                } else {
                    assert(low_bit(next, (n - 1) + 1) == low_bit(byte, n - 1));
                    assert(low_bit(before[t as int], n - 1) == history(produced@, t * 8 + n - 1));
                    assert(history(now, t * 8 + n) == history(produced@, t * 8 + n - 1));
                }
            }
        }
        bytes[t] = next;
        carry = byte / 128;
        t += 1;
    }
}

proof fn lemma_tap_step(coefficients: Seq<i32>, produced: Seq<int>, tap: int, byte: u8, n: int)
    requires
        0 <= tap,
        0 <= n <= 8,
        tap * 8 + n <= coefficients.len(),
        forall|i: int| 0 <= i < 8 ==> #[trigger] low_bit(byte, i) == history(produced, tap * 8 + i),
    ensures
        filtered(coefficients, produced, tap * 8 + n) == filtered(coefficients, produced, tap * 8)
            + tap_sum(coefficients, tap, byte, n),
    decreases n,
{
    if n > 0 {
        lemma_tap_step(coefficients, produced, tap, byte, n - 1);
        assert(low_bit(byte, n - 1) == history(produced, tap * 8 + (n - 1)));
    }
}

/// How much of a filter the first `taps` taps cover.
spec fn covered_by(length: int, taps: int) -> int {
    if taps * 8 < length {
        taps * 8
    } else {
        length
    }
}

/// Predict a channel's next bit from its history.
pub(crate) fn predict(
    lookup: &Vec<i16>,
    bytes: &Vec<u8>,
    coefficients: Ghost<Seq<i32>>,
    produced: Ghost<Seq<int>>,
) -> (out: i16)
    requires
        looks_up(lookup@, coefficients@, TAPS as int),
        remembers(bytes@, produced@),
        coefficients@.len() <= 128,
    ensures
        out == prediction(coefficients@, produced@),
{
    let ghost filter = coefficients@;
    let ghost length = filter.len() as int;
    let mut sum: i32 = 0;
    let ghost mut turns: int = 0;
    let mut tap: usize = 0;
    while tap < TAPS
        invariant
            tap <= TAPS,
            looks_up(lookup@, filter, TAPS as int),
            remembers(bytes@, produced@),
            filter == coefficients@,
            length == filter.len(),
            length <= 128,
            -(tap * 0x8000) <= sum <= tap * 0x8000,
            sum == filtered(filter, produced@, covered_by(length, tap as int)) + turns * 0x1_0000,
        decreases TAPS - tap,
    {
        let byte: u8 = bytes[tap];
        let value: i16 = lookup[tap * 256 + byte as usize];
        proof {
            assert(value == tap_total(filter, tap as int, byte));
            let n = covered(length, tap as int);
            let part = tap_sum(filter, tap as int, byte, n);
            assert forall|i: int| 0 <= i < 8 implies #[trigger] low_bit(byte, i) == history(
                produced@,
                tap * 8 + i,
            ) by {
                assert(low_bit(bytes@[tap as int], i) == history(produced@, tap * 8 + i));
            }
            if n > 0 {
                lemma_tap_step(filter, produced@, tap as int, byte, n);
            }
            turns = turns - (part + 0x8000_0000) / 0x1_0000_0000 * 0x1_0000;
        }
        sum = sum + value as i32;
        tap += 1;
    }
    let low: i32 = (sum + 0x88_8000) % 0x1_0000 - 0x8000;
    proof {
        let exact = filtered(filter, produced@, length);
        vstd::arithmetic::div_mod::lemma_mod_multiples_vanish(
            turns,
            exact + 0x8000,
            0x1_0000,
        );
        assert(0x1_0000 * turns + (exact + 0x8000) == sum + 0x8000);
        assert((sum + 0x88_8000) % 0x1_0000 == (sum + 0x8000) % 0x1_0000);
    }
    low as i16
}

/// How far the first `n` coefficients of a tap can take a sum from zero.
pub open spec fn tap_size(coefficients: Seq<i32>, tap: int, n: int) -> int
    decreases n,
{
    if n <= 0 {
        0
    } else {
        let value = coefficients[tap * 8 + n - 1] as int;
        tap_size(coefficients, tap, n - 1) + (if value < 0 {
            -value
        } else {
            value
        })
    }
}

proof fn lemma_size(coefficients: Seq<i32>, tap: int, byte: u8, n: int)
    ensures
        -tap_size(coefficients, tap, n) <= tap_sum(coefficients, tap, byte, n) <= tap_size(
            coefficients,
            tap,
            n,
        ),
        (forall|i: int|
            0 <= i < n ==> (#[trigger] low_bit(byte, i) == 1) == (coefficients[tap * 8 + i] >= 0))
            ==> tap_sum(coefficients, tap, byte, n) == tap_size(coefficients, tap, n),
    decreases n,
{
    if n > 0 {
        lemma_size(coefficients, tap, byte, n - 1);
        if forall|i: int|
            0 <= i < n ==> (#[trigger] low_bit(byte, i) == 1) == (coefficients[tap * 8 + i]
                >= 0) {
            assert((low_bit(byte, n - 1) == 1) == (coefficients[tap * 8 + (n - 1)] >= 0));
        }
    }
}

/// There is a byte of any eight bits.
proof fn lemma_byte_of(bits: Seq<bool>) -> (byte: u8)
    requires
        bits.len() == 8,
    ensures
        forall|i: int| 0 <= i < 8 ==> (#[trigger] low_bit(byte, i) == 1) == bits[i],
{
    let a: u8 = if bits[0] { 1 } else { 0 };
    let b: u8 = if bits[1] { 1 } else { 0 };
    let c: u8 = if bits[2] { 1 } else { 0 };
    let d: u8 = if bits[3] { 1 } else { 0 };
    let e: u8 = if bits[4] { 1 } else { 0 };
    let f: u8 = if bits[5] { 1 } else { 0 };
    let g: u8 = if bits[6] { 1 } else { 0 };
    let h: u8 = if bits[7] { 1 } else { 0 };
    let byte = (a + 2 * b + 4 * c + 8 * d + 16 * e + 32 * f + 64 * g + 128 * h) as u8;
    assert(byte % 2 == a && byte / 2 % 2 == b && byte / 4 % 2 == c && byte / 8 % 2 == d && byte / 16
        % 2 == e && byte / 32 % 2 == f && byte / 64 % 2 == g && byte / 128 == h) by (bit_vector)
        requires
            byte == (a + 2 * b + 4 * c + 8 * d + 16 * e + 32 * f + 64 * g + 128 * h) as u8,
            a <= 1,
            b <= 1,
            c <= 1,
            d <= 1,
            e <= 1,
            f <= 1,
            g <= 1,
            h <= 1,
    ;
    assert forall|i: int| 0 <= i < 8 implies (#[trigger] low_bit(byte, i) == 1) == bits[i] by {
        if i == 0 {
        } else if i == 1 {
        } else if i == 2 {
        } else if i == 3 {
        } else if i == 4 {
        } else if i == 5 {
        } else if i == 6 {
        } else {
        }
    }
    byte
}

proof fn lemma_small(coefficients: Seq<i32>, tap: int, n: int)
    requires
        0 <= tap,
        0 <= n <= 8,
        tap * 8 + n <= coefficients.len(),
        forall|i: int|
            0 <= i < coefficients.len() ==> -0x10_0000 < #[trigger] coefficients[i] < 0x10_0000,
    ensures
        0 <= tap_size(coefficients, tap, n) <= n * 0x10_0000,
    decreases n,
{
    if n > 0 {
        lemma_small(coefficients, tap, n - 1);
        assert(-0x10_0000 < coefficients[tap * 8 + n - 1] < 0x10_0000);
    }
}

/// A filter is one that can be played with where no eight coefficients in a row, counted from the
/// first, take a sum past 16 bits, whatever their signs; and only there.
pub proof fn a_filter_fits_where_its_coefficients_do(coefficients: Seq<i32>)
    requires
        coefficients.len() <= 128,
        forall|i: int|
            0 <= i < coefficients.len() ==> -0x10_0000 < #[trigger] coefficients[i] < 0x10_0000,
    ensures
        sums_fit(coefficients, TAPS as int) <==> forall|tap: int|
            0 <= tap < 16 ==> #[trigger] tap_size(
                coefficients,
                tap,
                covered(coefficients.len() as int, tap),
            ) < 0x8000,
{
    let length = coefficients.len() as int;
    assert forall|tap: int, byte: u8| 0 <= tap < 16 implies #[trigger] tap_total(
        coefficients,
        tap,
        byte,
    ) == tap_sum(coefficients, tap, byte, covered(length, tap)) by {
        lemma_total(coefficients, tap, byte);
    }
    if sums_fit(coefficients, TAPS as int) {
        assert forall|tap: int| 0 <= tap < 16 implies #[trigger] tap_size(
            coefficients,
            tap,
            covered(length, tap),
        ) < 0x8000 by {
            let n = covered(length, tap);
            let bits = Seq::new(8, |i: int| coefficients[tap * 8 + i] >= 0);
            let byte = lemma_byte_of(bits);
            assert forall|i: int| 0 <= i < n implies (#[trigger] low_bit(byte, i) == 1) == (
            coefficients[tap * 8 + i] >= 0) by {
                assert(bits[i] == (coefficients[tap * 8 + i] >= 0));
            }
            lemma_size(coefficients, tap, byte, n);
            assert(-0x8000 <= tap_total(coefficients, tap, byte) < 0x8000);
        }
    }
    if forall|tap: int|
        0 <= tap < 16 ==> #[trigger] tap_size(coefficients, tap, covered(length, tap)) < 0x8000 {
        assert forall|tap: int, byte: u8| 0 <= tap < TAPS implies -0x8000
            <= #[trigger] tap_total(coefficients, tap, byte) < 0x8000 by {
            lemma_size(coefficients, tap, byte, covered(length, tap));
            assert(tap_size(coefficients, tap, covered(length, tap)) < 0x8000);
        }
    }
}

proof fn lemma_total(coefficients: Seq<i32>, tap: int, byte: u8)
    requires
        0 <= tap,
        forall|i: int|
            0 <= i < coefficients.len() ==> -0x10_0000 < #[trigger] coefficients[i] < 0x10_0000,
    ensures
        tap_total(coefficients, tap, byte) == tap_sum(
            coefficients,
            tap,
            byte,
            covered(coefficients.len() as int, tap),
        ),
{
    let n = covered(coefficients.len() as int, tap);
    if n > 0 {
        lemma_small(coefficients, tap, n);
    }
    lemma_size(coefficients, tap, byte, n);
}

} // verus!
