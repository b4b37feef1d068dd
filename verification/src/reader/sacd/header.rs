//! The header of a DST frame as it is written, and what is read of it.

use crate::reader::sacd::bits;
use crate::reader::sacd::dst;
use crate::reader::sacd::dst::{DstError, Header};
use crate::reader::sacd::encode;
use crate::reader::sacd::encode::spells;
use crate::reader::sacd::table;
use crate::reader::sacd::table::{Mapping, Shape};
use vstd::arithmetic::power2::{
    lemma2_to64, lemma_pow2_pos, lemma_pow2_strictly_increases, lemma_pow2_unfold, pow2,
};
use vstd::prelude::*;

verus! {

proof fn lemma_prefix(data: Seq<u8>, at: int, count: nat, number: int, read: nat)
    requires
        read <= count <= 32,
        0 <= number < pow2(count),
        spells(data, at, count, number),
    ensures
        bits::field(data, at, read) == number / (pow2((count - read) as nat) as int),
    decreases read,
{
    lemma_pow2_pos((count - read) as nat);
    if read == 0 {
        vstd::arithmetic::div_mod::lemma_basic_div(number, pow2(count) as int);
    } else {
        lemma_prefix(data, at, count, number, (read - 1) as nat);
        encode::lemma_next_place(number, count, (read - 1) as nat);
        bits::lemma_field_bound(data, at, (read - 1) as nat);
        lemma2_to64();
        lemma_pow2_unfold(read);
        if read < 32 {
            lemma_pow2_strictly_increases(read, 32);
        }
        assert(bits::bit_at(data, at + (read - 1)) == number / (pow2(
            (count - 1 - (read - 1)) as nat,
        ) as int) % 2);
        assert((count - 1 - (read - 1)) as nat == (count - read) as nat);
        assert((count - (read - 1) as nat - 1) as nat == (count - read) as nat);
        bits::lemma_bit(data, at + (read - 1));
    }
}

/// A number reads back from the bits that spell it.
pub proof fn a_field_reads_back(data: Seq<u8>, at: int, count: nat, number: int)
    requires
        count <= 32,
        0 <= number < pow2(count),
        spells(data, at, count, number),
    ensures
        bits::field(data, at, count) == number,
{
    lemma_prefix(data, at, count, number, count);
    lemma2_to64();
    assert((count - count) as nat == 0);
    assert(number / (pow2(0) as int) == number);
}

/// How many bits a name takes where there are so many elements and one more may be made: as many
/// as it takes to write that number.
pub open spec fn name_places(count: int) -> nat
    decreases count,
{
    if count <= 1 {
        1
    } else {
        1 + name_places(count / 2)
    }
}

/// The names of the channels from `index` on, where `count` elements have been named so far.
pub open spec fn names_written(
    data: Seq<u8>,
    at: int,
    names: Seq<usize>,
    index: int,
    count: int,
) -> bool
    decreases names.len() - index,
{
    if index >= names.len() {
        true
    } else {
        &&& names[index] <= count
        &&& spells(data, at, name_places(count), names[index] as int)
        &&& names_written(
            data,
            at + name_places(count),
            names,
            index + 1,
            if names[index] == count {
                count + 1
            } else {
                count
            },
        )
    }
}

/// Where they end, and how many elements that makes.
pub open spec fn names_end(at: int, names: Seq<usize>, index: int, count: int) -> (int, int)
    decreases names.len() - index,
{
    if index >= names.len() {
        (at, count)
    } else {
        names_end(
            at + name_places(count),
            names,
            index + 1,
            if names[index] == count {
                count + 1
            } else {
                count
            },
        )
    }
}

proof fn lemma_names_end(at: int, names: Seq<usize>, index: int, count: int)
    ensures
        names_end(at, names, index, count).0 >= at,
    decreases names.len() - index,
{
    if index < names.len() {
        lemma_names_end(
            at + name_places(count),
            names,
            index + 1,
            if names[index] == count {
                count + 1
            } else {
                count
            },
        );
    }
}

proof fn lemma_names(data: Seq<u8>, at: int, names: Seq<usize>, index: int, count: int)
    requires
        1 <= index <= names.len() <= 6,
        1 <= count <= index,
        names_written(data, at, names, index, count),
        names_end(at, names, index, count).0 <= data.len() * 8,
    ensures
        table::named(
            data,
            at,
            names.len() as int,
            Mapping { element_of: names.take(index), count },
        ) == Ok::<(Mapping, int), DstError>(
            (
                Mapping { element_of: names, count: names_end(at, names, index, count).1 },
                names_end(at, names, index, count).0,
            ),
        ),
    decreases names.len() - index,
{
    if index < names.len() {
        let next = if names[index] == count {
            count + 1
        } else {
            count
        };
        let wide = name_places(count);
        reveal_with_fuel(name_places, 4);
        assert(wide == table::name_bits(count));
        lemma2_to64();
        a_field_reads_back(data, at, wide, names[index] as int);
        lemma_names_end(at + wide, names, index + 1, next);
        lemma_names(data, at + wide, names, index + 1, next);
        assert(names.take(index).push(names[index]) =~= names.take(index + 1));
    } else {
        assert(names.take(index) =~= names);
    }
}

/// A map reads back: the first channel has the first element, and each other the one it names.
pub proof fn a_map_reads_back(data: Seq<u8>, at: int, names: Seq<usize>)
    requires
        1 <= names.len() <= 6,
        names[0] == 0,
        at >= 0,
        bits::bit_at(data, at) == 0,
        names_written(data, at + 1, names, 1, 1),
        names_end(at + 1, names, 1, 1).0 <= data.len() * 8,
    ensures
        table::mapping(data, at, names.len() as int) == Ok::<(Mapping, int), DstError>(
            (
                Mapping { element_of: names, count: names_end(at + 1, names, 1, 1).1 },
                names_end(at + 1, names, 1, 1).0,
            ),
        ),
{
    lemma_names_end(at + 1, names, 1, 1);
    assert(names.take(1) =~= seq![0usize]);
    lemma_names(data, at + 1, names, 1, 1);
}

/// One bit says that all channels share the one element.
pub proof fn a_shared_map_takes_one_bit(data: Seq<u8>, at: int, channels: nat)
    requires
        bits::bit_at(data, at) == 1,
    ensures
        table::mapping(data, at, channels as int) == Ok::<(Mapping, int), DstError>(
            (Mapping { element_of: Seq::new(channels, |i: int| 0usize), count: 1 }, at + 1),
        ),
{
}

/// Bits of the number that says how long an element is.
pub open spec fn length_places(shape: Shape) -> nat {
    match shape {
        Shape::Filter => 7,
        Shape::Probability => 6,
    }
}

/// Bits of a coefficient that is written out.
pub open spec fn value_places(shape: Shape) -> nat {
    match shape {
        Shape::Filter => 9,
        Shape::Probability => 7,
    }
}

/// A coefficient that can be written out: of a filter, one of nine bits of which the highest is
/// its sign; of a table of chances, one from 1 to 128.
pub open spec fn can_be_written(shape: Shape, value: i32) -> bool {
    match shape {
        Shape::Filter => -256 <= value < 256,
        Shape::Probability => 1 <= value <= 128,
    }
}

/// The bits it is written in, as a number.
pub open spec fn code_of(shape: Shape, value: i32) -> int {
    match shape {
        Shape::Filter => if value < 0 {
            value + 512
        } else {
            value as int
        },
        Shape::Probability => value - 1,
    }
}

/// Coefficients are written out from `at` on.
pub open spec fn values_written(
    shape: Shape,
    data: Seq<u8>,
    at: int,
    values: Seq<i32>,
    count: int,
) -> bool {
    forall|i: int|
        #![trigger values[i]]
        0 <= i < count ==> can_be_written(shape, values[i]) && spells(
            data,
            at + i * value_places(shape),
            value_places(shape),
            code_of(shape, values[i]),
        )
}

proof fn lemma_value(shape: Shape, data: Seq<u8>, at: int, value: i32)
    requires
        can_be_written(shape, value),
        spells(data, at, value_places(shape), code_of(shape, value)),
    ensures
        shape.coefficient(data, at) == value,
{
    lemma2_to64();
    lemma_pow2_unfold(9);
    assert(pow2(9) == 512 && pow2(8) == 256 && pow2(7) == 128);
    a_field_reads_back(data, at, value_places(shape), code_of(shape, value));
    assert((9 - 1) as nat == 8);
}

proof fn lemma_values(shape: Shape, data: Seq<u8>, at: int, values: Seq<i32>, count: nat)
    requires
        count <= values.len(),
        values_written(shape, data, at, values, count as int),
    ensures
        shape.written(data, at, count) == values.take(count as int),
{
    let read = shape.written(data, at, count);
    assert forall|i: int| 0 <= i < count implies read[i] == values[i] by {
        lemma_value(shape, data, at + i * value_places(shape), values[i]);
    }
    assert(read =~= values.take(count as int));
}

/// An element whose coefficients are written out reads back.
pub proof fn an_element_written_out_reads_back(
    shape: Shape,
    data: Seq<u8>,
    at: int,
    values: Seq<i32>,
)
    requires
        at >= 0,
        1 <= values.len() <= (if shape == Shape::Filter {
            128int
        } else {
            64
        }),
        spells(data, at, length_places(shape), values.len() - 1),
        bits::bit_at(data, at + length_places(shape)) == 0,
        values_written(
            shape,
            data,
            at + length_places(shape) + 1,
            values,
            values.len() as int,
        ),
        at + length_places(shape) + 1 + values.len() * value_places(shape) <= data.len() * 8,
    ensures
        table::element(shape, data, at) == Ok::<(Seq<i32>, int), DstError>(
            (
                values,
                at + length_places(shape) + 1 + values.len() * value_places(shape),
            ),
        ),
{
    lemma2_to64();
    assert(pow2(7) == 128 && pow2(6) == 64);
    a_field_reads_back(data, at, length_places(shape), values.len() - 1);
    assert(values.len() * value_places(shape) >= 0) by (nonlinear_arith);
    let body = at + length_places(shape) + 1;
    lemma_values(shape, data, body, values, values.len());
    assert(values.take(values.len() as int) =~= values);
}

/// What the coefficients before one lead to expect of it: the same again; the line through the
/// last two; or a curve through the last three, which of chances is the parabola, and of a
/// filter nine, five and minus six eighths of them, to the nearest whole number and down from
/// half way.
pub open spec fn expected(shape: Shape, method: int, got: Seq<i32>, value: int) -> bool {
    let n = got.len() as int;
    if method == 0 {
        value == got[n - 1]
    } else if method == 1 {
        value == 2 * got[n - 1] - got[n - 2]
    } else {
        match shape {
            Shape::Filter => {
                let eighths = 9 * got[n - 1] + 5 * got[n - 2] - 6 * got[n - 3];
                -4 <= 8 * value - eighths <= 3
            },
            Shape::Probability => value == 3 * got[n - 1] - 3 * got[n - 2] + got[n - 3],
        }
    }
}

pub open spec fn all_small(values: Seq<i32>) -> bool {
    forall|i: int| 0 <= i < values.len() ==> -0x10_0000 < #[trigger] values[i] < 0x10_0000
}

/// A coefficient is what was expected of it and what is left over.
pub proof fn a_coefficient_is_corrected(
    shape: Shape,
    method: int,
    got: Seq<i32>,
    value: int,
    left: int,
)
    requires
        0 <= method <= 2,
        got.len() > method,
        all_small(got),
        expected(shape, method, got, value),
        -0x4000_0000 < left < 0x4000_0000,
    ensures
        shape.corrected(method, got, left) == value + left,
{
    lemma_sum(shape, method, got);
    let n = got.len() as int;
    assert(-0x10_0000 < got[n - 1] < 0x10_0000);
    if method >= 1 {
        assert(-0x10_0000 < got[n - 2] < 0x10_0000);
    }
    if method >= 2 {
        assert(-0x10_0000 < got[n - 3] < 0x10_0000);
    }
    let sum = shape.weighted(method, got, method + 1);
    assert(-4 <= 8 * value + sum <= 3);
    assert(-0x800_0000 < sum < 0x800_0000);
    lemma_rounded(shape, method, got, value, left);
}

/// The weighted sum that a coefficient is expected from.
proof fn lemma_sum(shape: Shape, method: int, got: Seq<i32>)
    requires
        0 <= method <= 2,
        got.len() > method,
    ensures
        ({
            let n = got.len() as int;
            let sum = shape.weighted(method, got, method + 1);
            if method == 0 {
                sum == -8 * got[n - 1]
            } else if method == 1 {
                sum == -16 * got[n - 1] + 8 * got[n - 2]
            } else {
                match shape {
                    Shape::Filter => sum == -9 * got[n - 1] - 5 * got[n - 2] + 6 * got[n - 3],
                    Shape::Probability => sum == -24 * got[n - 1] + 24 * got[n - 2] - 8 * got[n
                        - 3],
                }
            }
        }),
{
    assert(shape.weighted(method, got, 0) == 0);
    assert(shape.weighted(method, got, 1) == shape.weighted(method, got, 0) + shape.weight(
        method,
        0,
    ) * got[got.len() - 1]);
    if method >= 1 {
        assert(shape.weighted(method, got, 2) == shape.weighted(method, got, 1) + shape.weight(
            method,
            1,
        ) * got[got.len() - 2]);
    }
    if method >= 2 {
        assert(shape.weighted(method, got, 3) == shape.weighted(method, got, 2) + shape.weight(
            method,
            2,
        ) * got[got.len() - 3]);
    }
}

proof fn lemma_rounded(shape: Shape, method: int, got: Seq<i32>, value: int, left: int)
    requires
        ({
            let sum = shape.weighted(method, got, method + 1);
            -0x800_0000 < sum < 0x800_0000 && -4 <= 8 * value + sum <= 3
        }),
        -0x4000_0000 < left < 0x4000_0000,
    ensures
        shape.corrected(method, got, left) == value + left,
{
    let sum = shape.weighted(method, got, method + 1);
    assert(bits::wrap_i32(sum) == sum);
    if sum >= 0 {
        assert(bits::wrap_i32(sum + 4) == sum + 4);
        assert((sum + 4) / 8 == -value);
    } else {
        assert(bits::wrap_i32(-sum + 3) == -sum + 3);
        assert((-sum + 3) / 8 == value);
    }
}

/// What is left over is written as zeros, a one, the low bits of how much it is, and its sign
/// unless it is nothing.
pub open spec fn rest_written(data: Seq<u8>, at: int, k: nat, left: int) -> bool {
    let size = if left < 0 {
        -left
    } else {
        left
    };
    let zeros = size / (pow2(k) as int);
    &&& forall|i: int| at <= i < at + zeros ==> #[trigger] bits::bit_at(data, i) == 0
    &&& bits::bit_at(data, at + zeros) == 1
    &&& spells(data, at + zeros + 1, k, size % (pow2(k) as int))
    &&& left != 0 ==> (bits::bit_at(data, at + zeros + 1 + k) == 1) == (left < 0)
}

/// Where it ends.
pub open spec fn rest_end(at: int, k: nat, left: int) -> int {
    let size = if left < 0 {
        -left
    } else {
        left
    };
    at + size / (pow2(k) as int) + 1 + k + (if left == 0 {
        0int
    } else {
        1
    })
}

proof fn lemma_zeros(data: Seq<u8>, at: int, zeros: int)
    requires
        0 <= at,
        0 <= zeros,
        at + zeros < data.len() * 8,
        forall|i: int| at <= i < at + zeros ==> #[trigger] bits::bit_at(data, i) == 0,
        bits::bit_at(data, at + zeros) == 1,
    ensures
        bits::rice_zeros(data, at) == zeros,
    decreases zeros,
{
    if zeros > 0 {
        assert(bits::bit_at(data, at) == 0);
        lemma_zeros(data, at + 1, zeros - 1);
    }
}

/// What is left over reads back.
pub proof fn a_rest_reads_back(data: Seq<u8>, at: int, k: nat, left: int)
    requires
        0 <= at,
        k <= 7,
        -0x10_0000 < left < 0x10_0000,
        rest_written(data, at, k, left),
        rest_end(at, k, left) <= data.len() * 8,
    ensures
        bits::signed_rice(data, at, k) == left,
        bits::signed_rice_end(data, at, k) == rest_end(at, k, left),
{
    let size = if left < 0 {
        -left
    } else {
        left
    };
    let unit = pow2(k) as int;
    lemma_pow2_pos(k);
    lemma2_to64();
    let zeros = size / unit;
    let low = size % unit;
    vstd::arithmetic::div_mod::lemma_fundamental_div_mod(size, unit);
    assert(0 <= zeros) by (nonlinear_arith)
        requires
            0 <= size,
            unit > 0,
            zeros == size / unit,
    ;
    assert(zeros * unit == unit * zeros) by (nonlinear_arith);
    lemma_zeros(data, at, zeros);
    a_field_reads_back(data, at + zeros + 1, k, low);
    assert(bits::rice(data, at, k) == size);
}

/// The coefficients from `index` on, each as what is left over of it.
pub open spec fn rests_written(
    shape: Shape,
    method: int,
    k: nat,
    data: Seq<u8>,
    at: int,
    values: Seq<i32>,
    guesses: Seq<int>,
    index: int,
) -> bool
    decreases values.len() - index,
{
    if index >= values.len() {
        true
    } else {
        &&& expected(shape, method, values.take(index), guesses[index])
        &&& rest_written(data, at, k, values[index] - guesses[index])
        &&& rests_written(
            shape,
            method,
            k,
            data,
            rest_end(at, k, values[index] - guesses[index]),
            values,
            guesses,
            index + 1,
        )
    }
}

/// Where they end.
pub open spec fn rests_end(
    k: nat,
    at: int,
    values: Seq<i32>,
    guesses: Seq<int>,
    index: int,
) -> int
    decreases values.len() - index,
{
    if index >= values.len() {
        at
    } else {
        rests_end(k, rest_end(at, k, values[index] - guesses[index]), values, guesses, index + 1)
    }
}

proof fn lemma_rests_end(k: nat, at: int, values: Seq<i32>, guesses: Seq<int>, index: int)
    ensures
        rests_end(k, at, values, guesses, index) >= at,
    decreases values.len() - index,
{
    if index < values.len() {
        let left = values[index] - guesses[index];
        lemma_rest_end(at, k, left);
        lemma_rests_end(k, rest_end(at, k, left), values, guesses, index + 1);
    }
}

proof fn lemma_rest_end(at: int, k: nat, left: int)
    ensures
        rest_end(at, k, left) > at,
{
    let size = if left < 0 {
        -left
    } else {
        left
    };
    let unit = pow2(k) as int;
    lemma_pow2_pos(k);
    assert(size / unit >= 0) by (nonlinear_arith)
        requires
            size >= 0,
            unit > 0,
    ;
}

proof fn lemma_guess(shape: Shape, method: int, got: Seq<i32>, value: int)
    requires
        0 <= method <= 2,
        got.len() > method,
        forall|i: int| 0 <= i < got.len() ==> -0x1000 < #[trigger] got[i] < 0x1000,
        expected(shape, method, got, value),
    ensures
        -0x8000 < value < 0x8000,
{
    let n = got.len() as int;
    assert(-0x1000 < got[n - 1] < 0x1000);
    if method >= 1 {
        assert(-0x1000 < got[n - 2] < 0x1000);
    }
    if method >= 2 {
        assert(-0x1000 < got[n - 3] < 0x1000);
    }
}

proof fn lemma_rests(
    shape: Shape,
    method: int,
    k: nat,
    data: Seq<u8>,
    at: int,
    values: Seq<i32>,
    guesses: Seq<int>,
    index: int,
)
    requires
        0 <= method <= 2,
        method < index <= values.len(),
        0 <= at,
        k <= 7,
        forall|i: int| 0 <= i < values.len() ==> -0x1000 < #[trigger] values[i] < 0x1000,
        shape == Shape::Probability ==> forall|i: int|
            0 <= i < values.len() ==> 1 <= #[trigger] values[i] <= 128,
        rests_written(shape, method, k, data, at, values, guesses, index),
        rests_end(k, at, values, guesses, index) <= data.len() * 8,
    ensures
        table::predicted(shape, method, k, data, at, values.len() as int, values.take(index))
            == Ok::<(Seq<i32>, int), DstError>(
            (values, rests_end(k, at, values, guesses, index)),
        ),
    decreases values.len() - index,
{
    let got = values.take(index);
    if index < values.len() {
        let left = values[index] - guesses[index];
        let end = rest_end(at, k, left);
        assert forall|i: int| 0 <= i < got.len() implies -0x1000 < #[trigger] got[i] < 0x1000 by {
            assert(got[i] == values[i]);
        }
        lemma_guess(shape, method, got, guesses[index]);
        lemma_rest_end(at, k, left);
        lemma_rests_end(k, end, values, guesses, index + 1);
        assert(-0x1000 < values[index] < 0x1000);
        a_rest_reads_back(data, at, k, left);
        a_coefficient_is_corrected(shape, method, got, guesses[index], left);
        assert(got.push(values[index]) =~= values.take(index + 1));
        if shape == Shape::Probability {
            assert(1 <= values[index] <= 128);
        }
        lemma_rests(shape, method, k, data, end, values, guesses, index + 1);
    } else {
        assert(got =~= values);
        assert(got.subrange(0, values.len() as int) =~= values);
    }
}

/// An element whose coefficients are written as what is left over of them reads back: how they
/// are expected, the first of them written out, how many low bits there are, and the rest.
pub proof fn an_element_of_rests_reads_back(
    shape: Shape,
    method: int,
    k: nat,
    data: Seq<u8>,
    at: int,
    values: Seq<i32>,
    guesses: Seq<int>,
)
    requires
        at >= 0,
        0 <= method <= 2,
        k <= 7,
        method < values.len() <= (if shape == Shape::Filter {
            128int
        } else {
            64
        }),
        forall|i: int| 0 <= i < values.len() ==> -0x1000 < #[trigger] values[i] < 0x1000,
        shape == Shape::Probability ==> forall|i: int|
            0 <= i < values.len() ==> 1 <= #[trigger] values[i] <= 128,
        spells(data, at, length_places(shape), values.len() - 1),
        bits::bit_at(data, at + length_places(shape)) == 1,
        spells(data, at + length_places(shape) + 1, 2, method),
        values_written(shape, data, at + length_places(shape) + 3, values, method + 1),
        ({
            let low = at + length_places(shape) + 3 + (method + 1) * value_places(shape);
            &&& spells(data, low, 3, k as int)
            &&& rests_written(
                shape,
                method,
                k,
                data,
                low + 3,
                values,
                guesses,
                method + 1,
            )
            &&& rests_end(k, low + 3, values, guesses, method + 1) <= data.len() * 8
        }),
    ensures
        ({
            let low = at + length_places(shape) + 3 + (method + 1) * value_places(shape);
            table::element(shape, data, at) == Ok::<(Seq<i32>, int), DstError>(
                (values, rests_end(k, low + 3, values, guesses, method + 1)),
            )
        }),
{
    lemma2_to64();
    assert(pow2(7) == 128 && pow2(6) == 64 && pow2(2) == 4 && pow2(3) == 8);
    let first = at + length_places(shape) + 3;
    assert((method + 1) * value_places(shape) >= 0) by (nonlinear_arith)
        requires
            method >= 0,
    ;
    let low = first + (method + 1) * value_places(shape);
    lemma_rests_end(k, low + 3, values, guesses, method + 1);
    a_field_reads_back(data, at, length_places(shape), values.len() - 1);
    a_field_reads_back(data, at + length_places(shape) + 1, 2, method);
    a_field_reads_back(data, low, 3, k as int);
    lemma_values(shape, data, first, values, (method + 1) as nat);
    lemma_rests(shape, method, k, data, low + 3, values, guesses, method + 1);
}

/// Elements in a row, each ending where the next starts.
pub open spec fn in_a_row(
    shape: Shape,
    data: Seq<u8>,
    list: Seq<Seq<i32>>,
    places: Seq<int>,
) -> bool {
    &&& places.len() == list.len() + 1
    &&& forall|i: int|
        #![trigger list[i]]
        0 <= i < list.len() ==> table::element(shape, data, places[i]) == Ok::<
            (Seq<i32>, int),
            DstError,
        >((list[i], places[i + 1]))
}

proof fn lemma_row(
    shape: Shape,
    data: Seq<u8>,
    list: Seq<Seq<i32>>,
    places: Seq<int>,
    index: int,
)
    requires
        in_a_row(shape, data, list, places),
        0 <= index <= list.len(),
    ensures
        table::elements(shape, data, places[index], list.len() as int, list.take(index)) == Ok::<
            (Seq<Seq<i32>>, int),
            DstError,
        >((list, places.last())),
    decreases list.len() - index,
{
    if index < list.len() {
        lemma_row(shape, data, list, places, index + 1);
        assert(table::element(shape, data, places[index]) == Ok::<(Seq<i32>, int), DstError>(
            (list[index], places[index + 1]),
        ));
        assert(list.take(index).push(list[index]) =~= list.take(index + 1));
    } else {
        assert(list.take(index) =~= list);
    }
}

/// A header reads back: one segment, the two maps or one for both, a bit for each channel that
/// says whether it starts at an even chance, the filters, the chances, and a zero.
pub proof fn a_header_reads_back(
    data: Seq<u8>,
    channels: int,
    filter_map: Mapping,
    chance_map: Mapping,
    shared: bool,
    filters_named: int,
    named: int,
    halves: Seq<bool>,
    filters: Seq<Seq<i32>>,
    filter_places: Seq<int>,
    chances: Seq<Seq<i32>>,
    chance_places: Seq<int>,
)
    requires
        channels >= 1,
        bits::bit_at(data, 1) == 1,
        bits::bit_at(data, 2) == 1,
        bits::bit_at(data, 3) == 1,
        (bits::bit_at(data, 4) == 1) == shared,
        table::mapping(data, 5, channels) == Ok::<(Mapping, int), DstError>(
            (filter_map, filters_named),
        ),
        shared ==> chance_map == filter_map && named == filters_named,
        !shared ==> table::mapping(data, filters_named, channels) == Ok::<(Mapping, int), DstError>(
            (chance_map, named),
        ),
        halves.len() == channels,
        forall|c: int|
            0 <= c < channels ==> (#[trigger] halves[c]) == (bits::bit_at(data, named + c) == 1),
        in_a_row(Shape::Filter, data, filters, filter_places),
        in_a_row(Shape::Probability, data, chances, chance_places),
        filter_map.count == filters.len(),
        chance_map.count == chances.len(),
        filter_places[0] == named + channels,
        chance_places[0] == filter_places.last(),
        bits::bit_at(data, chance_places.last()) == 0,
        named + channels <= data.len() * 8,
        chance_places.last() + 1 <= data.len() * 8,
    ensures
        dst::header(data, channels) == Ok::<(Header, int), DstError>(
            (
                Header {
                    filter_of: filter_map.element_of,
                    probability_of: chance_map.element_of,
                    half_probability: halves,
                    filters,
                    probabilities: chances,
                },
                chance_places.last() + 1,
            ),
        ),
{
    assert(Seq::new(channels as nat, |c: int| bits::bit_at(data, named + c) == 1) =~= halves);
    lemma_row(Shape::Filter, data, filters, filter_places, 0);
    lemma_row(Shape::Probability, data, chances, chance_places, 0);
    assert(filters.take(0) =~= Seq::empty());
    assert(chances.take(0) =~= Seq::empty());
}

proof fn lemma_map_is_sound(data: Seq<u8>, at: int, channels: int, map: Mapping)
    requires
        map.element_of.len() <= channels,
        map.count >= 1,
        forall|i: int|
            0 <= i < map.element_of.len() ==> (#[trigger] map.element_of[i]) < map.count,
    ensures
        table::named(data, at, channels, map) matches Ok((found, end)) ==> {
            &&& found.element_of.len() == channels
            &&& found.count >= 1
            &&& forall|i: int|
                0 <= i < channels ==> (#[trigger] found.element_of[i]) < found.count
        },
    decreases channels - map.element_of.len(),
{
    if map.element_of.len() < channels {
        let wide = table::name_bits(map.count);
        let name = bits::field(data, at, wide);
        bits::lemma_field_bound(data, at, wide);
        lemma2_to64();
        if name <= map.count {
            assert((name as usize) as int == name);
            let next = Mapping {
                element_of: map.element_of.push(name as usize),
                count: if name == map.count {
                    map.count + 1
                } else {
                    map.count
                },
            };
            assert forall|i: int| 0 <= i < next.element_of.len() implies (
            #[trigger] next.element_of[i]) < next.count by {
                if i < map.element_of.len() {
                    assert(next.element_of[i] == map.element_of[i]);
                }
            }
            lemma_map_is_sound(data, bits::past(data, at, wide as int), channels, next);
        }
    }
}

proof fn lemma_written_is_sound(data: Seq<u8>, at: int, count: nat)
    ensures
        forall|i: int|
            0 <= i < count ==> 1 <= #[trigger] Shape::Probability.written(data, at, count)[i]
                <= 128,
{
    let values = Shape::Probability.written(data, at, count);
    assert forall|i: int| 0 <= i < count implies 1 <= #[trigger] values[i] <= 128 by {
        bits::lemma_field_bound(data, at + i * 7, 7);
        lemma2_to64();
        assert(pow2(7) == 128);
        assert(Shape::Probability.coefficient_bits() == 7);
    }
}

proof fn lemma_predicted_is_sound(
    method: int,
    k: nat,
    data: Seq<u8>,
    at: int,
    length: int,
    got: Seq<i32>,
)
    requires
        length >= 1,
        forall|i: int| 0 <= i < got.len() ==> 1 <= #[trigger] got[i] <= 128,
    ensures
        table::predicted(Shape::Probability, method, k, data, at, length, got) matches Ok((
            found,
            end,
        )) ==> {
            &&& found.len() == length
            &&& forall|i: int| 0 <= i < length ==> 1 <= #[trigger] found[i] <= 128
        },
    decreases length - got.len(),
{
    if got.len() < length {
        let value = Shape::Probability.corrected(
            method,
            got,
            bits::signed_rice(data, at, k),
        );
        if Shape::Probability.admits(value) {
            let next = got.push(value as i32);
            assert forall|i: int| 0 <= i < next.len() implies 1 <= #[trigger] next[i] <= 128 by {
                if i < got.len() {
                    assert(next[i] == got[i]);
                }
            }
            lemma_predicted_is_sound(
                method,
                k,
                data,
                bits::signed_rice_end(data, at, k),
                length,
                next,
            );
        }
    } else {
        let found = got.subrange(0, length);
        assert forall|i: int| 0 <= i < length implies 1 <= #[trigger] found[i] <= 128 by {
            assert(found[i] == got[i]);
        }
    }
}

/// Chances that are read are chances: at least one of them, and each from 1 to 128.
spec fn are_chances(values: Seq<i32>) -> bool {
    values.len() >= 1 && forall|i: int|
        0 <= i < values.len() ==> 1 <= #[trigger] values[i] <= 128
}

proof fn lemma_element_is_sound(data: Seq<u8>, at: int)
    ensures
        table::element(Shape::Probability, data, at) matches Ok((found, end)) ==> are_chances(
            found,
        ),
{
    let length = bits::field(data, at, 6) + 1;
    bits::lemma_field_bound(data, at, 6);
    let flag = bits::past(data, at, 6);
    let body = bits::past(data, flag, 1);
    let method = bits::field(data, body, 2);
    bits::lemma_field_bound(data, body, 2);
    let first = bits::past(data, body, 2);
    let low = bits::past(data, first, (method + 1) * 7);
    lemma_written_is_sound(data, body, length as nat);
    lemma_written_is_sound(data, first, (method + 1) as nat);
    lemma_predicted_is_sound(
        method,
        bits::field(data, low, 3) as nat,
        data,
        bits::past(data, low, 3),
        length,
        Shape::Probability.written(data, first, (method + 1) as nat),
    );
}

proof fn lemma_elements_are_sound(
    shape: Shape,
    data: Seq<u8>,
    at: int,
    count: int,
    got: Seq<Seq<i32>>,
)
    requires
        got.len() <= count,
        shape == Shape::Probability ==> forall|e: int|
            0 <= e < got.len() ==> are_chances(#[trigger] got[e]),
    ensures
        table::elements(shape, data, at, count, got) matches Ok((found, end)) ==> {
            &&& found.len() == count
            &&& shape == Shape::Probability ==> forall|e: int|
                0 <= e < count ==> are_chances(#[trigger] found[e])
        },
    decreases count - got.len(),
{
    if got.len() < count {
        if let Ok((one, end)) = table::element(shape, data, at) {
            lemma_element_is_sound(data, at);
            let next = got.push(one);
            if shape == Shape::Probability {
                assert forall|e: int| 0 <= e < next.len() implies are_chances(
                    #[trigger] next[e],
                ) by {
                    if e < got.len() {
                        assert(next[e] == got[e]);
                    }
                }
            }
            lemma_elements_are_sound(shape, data, end, count, next);
        }
    }
}

proof fn lemma_mapping_is_sound(data: Seq<u8>, at: int, channels: int)
    requires
        channels >= 1,
    ensures
        table::mapping(data, at, channels) matches Ok((found, end)) ==> {
            &&& found.element_of.len() == channels
            &&& found.count >= 1
            &&& forall|i: int|
                0 <= i < channels ==> (#[trigger] found.element_of[i]) < found.count
        },
{
    lemma_map_is_sound(
        data,
        bits::past(data, at, 1),
        channels,
        Mapping { element_of: seq![0usize], count: 1 },
    );
}

/// A header that can be read has a filter and a table of chances for every channel, and no chance
/// in it is below 1 or above 128.
pub proof fn a_header_that_is_read_is_well_made(data: Seq<u8>, channels: int)
    requires
        channels >= 1,
    ensures
        dst::header(data, channels) matches Ok((head, at)) ==> encode::well_made(head, channels),
{
    if let Ok((head, at)) = dst::header(data, channels) {
        lemma_mapping_is_sound(data, 5, channels);
        let (filter_map, filters_named) = table::mapping(data, 5, channels)->Ok_0;
        lemma_mapping_is_sound(data, filters_named, channels);
        let second = if bits::bit_at(data, 4) == 1 {
            (filter_map, filters_named)
        } else {
            table::mapping(data, filters_named, channels)->Ok_0
        };
        let (chance_map, named) = second;
        let start = bits::past(data, named, channels);
        lemma_elements_are_sound(
            Shape::Filter,
            data,
            start,
            filter_map.count,
            Seq::empty(),
        );
        let (filters, read) = table::elements(
            Shape::Filter,
            data,
            start,
            filter_map.count,
            Seq::empty(),
        )->Ok_0;
        lemma_elements_are_sound(
            Shape::Probability,
            data,
            read,
            chance_map.count,
            Seq::empty(),
        );
        let chances = head.probabilities;
        assert forall|e: int| 0 <= e < chances.len() implies (#[trigger] chances[e]).len()
            >= 1 by {
            assert(are_chances(chances[e]));
        }
        assert forall|e: int, i: int|
            0 <= e < chances.len() && 0 <= i < chances[e].len() implies 1
            <= #[trigger] chances[e][i] <= 128 by {
            assert(are_chances(chances[e]));
        }
    }
}

} // verus!
