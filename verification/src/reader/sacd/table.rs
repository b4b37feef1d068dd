//! The tables at the head of a DST frame: which element each channel uses, and the
//! coefficients of every element.

use crate::reader::sacd::bits;
use crate::reader::sacd::bits::{wrap32, Bits};
use crate::reader::sacd::dst::DstError;
use vstd::arithmetic::power2::lemma2_to64;
use vstd::prelude::*;

verus! {

/// The two kinds of table: filter coefficients and probabilities. They are read the same way
/// and differ only in how wide their fields are and whether they are signed.
#[derive(Debug, Clone, Copy, PartialEq, Eq, Structural)]
pub enum Shape {
    Filter,
    Probability,
}

/// What reading a part of the header gives: the part and where it ends, or why it is refused.
pub type Parsed<T> = Result<(T, int), DstError>;

impl Shape {
    /// Bits of the field that declares an element's length.
    pub open spec fn length_bits(self) -> nat {
        match self {
            Shape::Filter => 7,
            Shape::Probability => 6,
        }
    }

    /// Bits of a coefficient that is written out.
    pub open spec fn coefficient_bits(self) -> nat {
        match self {
            Shape::Filter => 9,
            Shape::Probability => 7,
        }
    }

    /// The coefficient written out at `at`.
    pub open spec fn coefficient(self, data: Seq<u8>, at: int) -> int {
        match self {
            Shape::Filter => bits::signed_field(data, at, 9),
            Shape::Probability => bits::field(data, at, 7) + 1,
        }
    }

    /// A run of coefficients written out from `at` on.
    pub open spec fn written(self, data: Seq<u8>, at: int, count: nat) -> Seq<i32> {
        Seq::new(count, |i: int| self.coefficient(data, at + i * self.coefficient_bits()) as i32)
    }

    /// How much the coefficient `back` places before counts in a prediction, in eighths.
    pub open spec fn weight(self, method: int, back: int) -> int {
        if method == 0 {
            if back == 0 {
                -8
            } else {
                0
            }
        } else if method == 1 {
            if back == 0 {
                -16
            } else if back == 1 {
                8
            } else {
                0
            }
        } else {
            match self {
                Shape::Filter => if back == 0 {
                    -9
                } else if back == 1 {
                    -5
                } else {
                    6
                },
                Shape::Probability => if back == 0 {
                    -24
                } else if back == 1 {
                    24
                } else {
                    -8
                },
            }
        }
    }

    /// The weighted sum of the first `taps` coefficients counted back from the end of `got`.
    pub open spec fn weighted(self, method: int, got: Seq<i32>, taps: int) -> int
        decreases taps,
    {
        if taps <= 0 {
            0
        } else {
            self.weighted(method, got, taps - 1) + self.weight(method, taps - 1) * got[got.len()
                - taps]
        }
    }

    /// The coefficient that follows `got` when `residual` corrects its prediction. The
    /// arithmetic is that of 32-bit words.
    pub open spec fn corrected(self, method: int, got: Seq<i32>, residual: int) -> int {
        let predicted = bits::wrap_i32(self.weighted(method, got, method + 1));
        if predicted >= 0 {
            bits::wrap_i32(residual - eighth(bits::wrap_i32(predicted + 4)))
        } else {
            bits::wrap_i32(residual + eighth(bits::wrap_i32(-predicted + 3)))
        }
    }

    /// Whether the table may hold a coefficient of this value.
    pub open spec fn admits(self, value: int) -> bool {
        self == Shape::Filter || 1 <= value < 129
    }
}

/// An eighth, rounded towards zero.
pub open spec fn eighth(value: int) -> int {
    if value >= 0 {
        value / 8
    } else {
        -(-value / 8)
    }
}

/// The coefficients after `got`, each predicted from its neighbours and corrected by a
/// Rice-coded residual with `k` low bits.
pub open spec fn predicted(
    shape: Shape,
    method: int,
    k: nat,
    data: Seq<u8>,
    at: int,
    length: int,
    got: Seq<i32>,
) -> Parsed<Seq<i32>>
    decreases length - got.len(),
{
    if got.len() >= length {
        Ok((got.subrange(0, length), at))
    } else {
        let value = shape.corrected(method, got, bits::signed_rice(data, at, k));
        if shape.admits(value) {
            predicted(
                shape,
                method,
                k,
                data,
                bits::signed_rice_end(data, at, k),
                length,
                got.push(value as i32),
            )
        } else {
            Err(DstError::Probability { value: value as i32 })
        }
    }
}

/// One element: its length, then its coefficients, either written out or predicted.
pub open spec fn element(shape: Shape, data: Seq<u8>, at: int) -> Parsed<Seq<i32>> {
    let length = bits::field(data, at, shape.length_bits()) + 1;
    let flag = bits::past(data, at, shape.length_bits() as int);
    let body = bits::past(data, flag, 1);
    if bits::bit_at(data, flag) == 0 {
        Ok(
            (
                shape.written(data, body, length as nat),
                bits::past(data, body, length * shape.coefficient_bits()),
            ),
        )
    } else {
        let method = bits::field(data, body, 2);
        let first = bits::past(data, body, 2);
        let low = bits::past(data, first, (method + 1) * shape.coefficient_bits());
        if method >= 3 {
            Err(DstError::ReservedMethod)
        } else {
            predicted(
                shape,
                method,
                bits::field(data, low, 3) as nat,
                data,
                bits::past(data, low, 3),
                length,
                shape.written(data, first, (method + 1) as nat),
            )
        }
    }
}

/// `count` elements in a row, after those in `got`.
pub open spec fn elements(
    shape: Shape,
    data: Seq<u8>,
    at: int,
    count: int,
    got: Seq<Seq<i32>>,
) -> Parsed<Seq<Seq<i32>>>
    decreases count - got.len(),
{
    if got.len() >= count {
        Ok((got, at))
    } else {
        match element(shape, data, at) {
            Ok((one, end)) => elements(shape, data, end, count, got.push(one)),
            Err(error) => Err(error),
        }
    }
}

/// Bits it takes to name an element when there are `count` of them and one more may be made.
pub open spec fn name_bits(count: int) -> nat {
    if count < 2 {
        1
    } else if count < 4 {
        2
    } else if count < 8 {
        3
    } else {
        4
    }
}

/// Which element each channel uses, and how many elements that makes.
#[verifier::ext_equal]
pub struct Mapping {
    pub element_of: Seq<usize>,
    pub count: int,
}

/// The channels after those already in `map`, each naming an element.
pub open spec fn named(data: Seq<u8>, at: int, channels: int, map: Mapping) -> Parsed<Mapping>
    decreases channels - map.element_of.len(),
{
    if map.element_of.len() >= channels {
        Ok((map, at))
    } else {
        let width = name_bits(map.count);
        let name = bits::field(data, at, width);
        if name > map.count {
            Err(DstError::ElementOrder { element: name as u32 })
        } else {
            named(
                data,
                bits::past(data, at, width as int),
                channels,
                Mapping {
                    element_of: map.element_of.push(name as usize),
                    count: if name == map.count {
                        map.count + 1
                    } else {
                        map.count
                    },
                },
            )
        }
    }
}

/// The map at `at`: one bit says every channel shares element 0; otherwise each channel after
/// the first names an element, and naming the next one in line creates it.
pub open spec fn mapping(data: Seq<u8>, at: int, channels: int) -> Parsed<Mapping> {
    if bits::bit_at(data, at) == 1 {
        Ok(
            (
                Mapping { element_of: Seq::new(channels as nat, |i: int| 0usize), count: 1 },
                bits::past(data, at, 1),
            ),
        )
    } else {
        named(
            data,
            bits::past(data, at, 1),
            channels,
            Mapping { element_of: seq![0usize], count: 1 },
        )
    }
}

/// A map of `channels` channels in which every name is that of an element.
pub open spec fn map_wf(map: Seq<usize>, count: int, channels: int) -> bool {
    &&& map.len() == channels
    &&& 1 <= count <= channels
    &&& forall|i: int| 0 <= i < map.len() ==> map[i] < count
}

/// Which element each channel uses. One bit says every channel shares element 0;
/// otherwise each channel names an element, and naming the next one in line creates it.
pub fn read_map(bits: &mut Bits, channels: usize) -> (out: Result<(Vec<usize>, usize), DstError>)
    requires
        old(bits).wf(),
        1 <= channels <= 6,
    ensures
        final(bits).wf(),
        final(bits).data() == old(bits).data(),
        match mapping(old(bits).data(), old(bits).at(), channels as int) {
            Ok((map, end)) => {
                &&& out matches Ok(read)
                &&& read.0@ == map.element_of
                &&& read.1 == map.count
                &&& map_wf(read.0@, read.1 as int, channels as int)
                &&& final(bits).at() == end
            },
            Err(error) => out == Err::<(Vec<usize>, usize), DstError>(error),
        },
{
    let ghost data = bits.data();
    let ghost start = bits.at();
    let mut map: Vec<usize> = Vec::new();
    map.push(0);
    if bits.bit() == 1 {
        while map.len() < channels
            invariant
                1 <= map@.len() <= channels,
                forall|i: int| 0 <= i < map@.len() ==> map@[i] == 0,
            decreases channels - map@.len(),
        {
            map.push(0);
        }
        assert(map@ =~= Seq::new(channels as nat, |i: int| 0usize));
        return Ok((map, 1));
    }
    let mut count: usize = 1;
    proof {
        assert(map@ =~= seq![0usize]);
    }
    while map.len() < channels
        invariant
            bits.wf(),
            bits.data() == data,
            1 <= map@.len() <= channels <= 6,
            1 <= count <= map@.len(),
            forall|i: int| 0 <= i < map@.len() ==> map@[i] < count,
            mapping(data, start, channels as int) == named(
                data,
                bits.at(),
                channels as int,
                Mapping { element_of: map@, count: count as int },
            ),
            data == old(bits).data(),
            start == old(bits).at(),
        decreases channels - map@.len(),
    {
        let width: u32 = if count < 2 {
            1
        } else if count < 4 {
            2
        } else if count < 8 {
            3
        } else {
            4
        };
        proof {
            bits::lemma_field_bound(data, bits.at(), width as nat);
            lemma2_to64();
        }
        let name: u32 = bits.take(width);
        if name as usize > count {
            return Err(DstError::ElementOrder { element: name });
        }
        if name as usize == count {
            count += 1;
        }
        map.push(name as usize);
    }
    Ok((map, count))
}

impl Shape {
    fn read_one(self, bits: &mut Bits) -> (value: i32)
        requires
            old(bits).wf(),
        ensures
            final(bits).wf(),
            final(bits).data() == old(bits).data(),
            value == self.coefficient(old(bits).data(), old(bits).at()),
            final(bits).at() == bits::past(
                old(bits).data(),
                old(bits).at(),
                self.coefficient_bits() as int,
            ),
            self.admits(value as int),
    {
        match self {
            Shape::Filter => bits.take_signed(9),
            Shape::Probability => {
                proof {
                    bits::lemma_field_bound(bits.data(), bits.at(), 7);
                    lemma2_to64();
                }
                bits.take(7) as i32 + 1
            },
        }
    }

    fn weight_of(self, method: u32, back: u32) -> (weight: i64)
        ensures
            weight == self.weight(method as int, back as int),
            -24 <= weight <= 24,
    {
        if method == 0 {
            if back == 0 {
                -8
            } else {
                0
            }
        } else if method == 1 {
            if back == 0 {
                -16
            } else if back == 1 {
                8
            } else {
                0
            }
        } else {
            match self {
                Shape::Filter => if back == 0 {
                    -9
                } else if back == 1 {
                    -5
                } else {
                    6
                },
                Shape::Probability => if back == 0 {
                    -24
                } else if back == 1 {
                    24
                } else {
                    -8
                },
            }
        }
    }

    fn correct(self, method: u32, got: &Vec<i32>, residual: i32) -> (value: i32)
        requires
            method < 3,
            got@.len() > method,
        ensures
            value == self.corrected(method as int, got@, residual as int),
    {
        let mut sum: i64 = 0;
        let mut taps: u32 = 0;
        while taps <= method
            invariant
                taps <= method + 1,
                method < 3,
                got@.len() > method,
                sum == self.weighted(method as int, got@, taps as int),
                -(taps * 0x10_0000_0000) <= sum <= taps * 0x10_0000_0000,
            decreases method + 1 - taps,
        {
            let value: i32 = got[got.len() - 1 - taps as usize];
            let weight: i64 = self.weight_of(method, taps);
            assert(-0x10_0000_0000 <= weight * value <= 0x10_0000_0000) by (nonlinear_arith)
                requires
                    -24 <= weight <= 24,
                    -0x8000_0000 <= value <= 0x7fff_ffff,
            ;
            sum = sum + weight * value as i64;
            taps += 1;
        }
        let predicted: i32 = wrap32(sum);
        if predicted >= 0 {
            let above: i32 = wrap32(predicted as i64 + 4);
            wrap32(residual as i64 - towards_zero(above) as i64)
        } else {
            let above: i32 = wrap32(-(predicted as i64) + 3);
            wrap32(residual as i64 + towards_zero(above) as i64)
        }
    }
}

fn towards_zero(value: i32) -> (out: i32)
    ensures
        out == eighth(value as int),
{
    if value >= 0 {
        value / 8
    } else {
        (-(-(value as i64) / 8)) as i32
    }
}

/// Every coefficient is one that a table of this shape may hold.
pub open spec fn all_admitted(shape: Shape, coefficients: Seq<i32>) -> bool {
    forall|i: int| 0 <= i < coefficients.len() ==> shape.admits(#[trigger] coefficients[i] as int)
}

fn read_written(shape: Shape, bits: &mut Bits, count: usize) -> (out: Vec<i32>)
    requires
        old(bits).wf(),
        count <= 128,
    ensures
        final(bits).wf(),
        final(bits).data() == old(bits).data(),
        out@ == shape.written(old(bits).data(), old(bits).at(), count as nat),
        final(bits).at() == bits::past(
            old(bits).data(),
            old(bits).at(),
            count * shape.coefficient_bits(),
        ),
        all_admitted(shape, out@),
{
    let ghost data = bits.data();
    let ghost start = bits.at();
    let ghost wide = shape.coefficient_bits() as int;
    let mut out: Vec<i32> = Vec::new();
    proof {
        bits.lemma_wf();
    }
    while out.len() < count
        invariant
            bits.wf(),
            bits.data() == data,
            out@.len() <= count <= 128,
            0 <= start <= data.len() * 8,
            wide == shape.coefficient_bits(),
            bits.at() == bits::past(data, start, out@.len() * wide),
            forall|i: int|
                0 <= i < out@.len() ==> out@[i] == shape.coefficient(data, start + i * wide),
            all_admitted(shape, out@),
            data == old(bits).data(),
            start == old(bits).at(),
        decreases count - out@.len(),
    {
        proof {
            bits.lemma_wf();
            let at = start + out@.len() * wide;
            if at > data.len() * 8 {
                lemma_past_end(shape, data, bits.at(), at);
            }
            assert((out@.len() + 1) * wide == out@.len() * wide + wide) by (nonlinear_arith);
            assert(0 <= out@.len() * wide) by (nonlinear_arith)
                requires
                    0 <= wide,
            ;
        }
        let value: i32 = shape.read_one(bits);
        out.push(value);
    }
    assert(out@ =~= shape.written(data, start, count as nat));
    out
}

/// Past the end of the data every coefficient reads alike.
proof fn lemma_past_end(shape: Shape, data: Seq<u8>, a: int, b: int)
    requires
        a >= data.len() * 8,
        b >= data.len() * 8,
    ensures
        shape.coefficient(data, a) == shape.coefficient(data, b),
{
    lemma_empty_field(data, a, 7);
    lemma_empty_field(data, b, 7);
    lemma_empty_field(data, a, 9);
    lemma_empty_field(data, b, 9);
}

proof fn lemma_empty_field(data: Seq<u8>, at: int, count: nat)
    requires
        at >= data.len() * 8,
    ensures
        bits::field(data, at, count) == 0,
    decreases count,
{
    if count > 0 {
        lemma_empty_field(data, at, (count - 1) as nat);
    }
}

fn read_predicted(
    shape: Shape,
    method: u32,
    k: u32,
    bits: &mut Bits,
    length: usize,
    first: Vec<i32>,
) -> (out: Result<Vec<i32>, DstError>)
    requires
        old(bits).wf(),
        method < 3,
        k < 32,
        length >= 1,
        first@.len() == method + 1,
        all_admitted(shape, first@),
    ensures
        final(bits).wf(),
        final(bits).data() == old(bits).data(),
        match predicted(
            shape,
            method as int,
            k as nat,
            old(bits).data(),
            old(bits).at(),
            length as int,
            first@,
        ) {
            Ok((got, end)) => {
                &&& out matches Ok(read)
                &&& read@ == got
                &&& got.len() == length
                &&& all_admitted(shape, got)
                &&& final(bits).at() == end
            },
            Err(error) => out == Err::<Vec<i32>, DstError>(error),
        },
{
    let ghost data = bits.data();
    let ghost start = bits.at();
    let ghost seed = first@;
    let mut got: Vec<i32> = first;
    while got.len() < length
        invariant
            bits.wf(),
            bits.data() == data,
            method < 3,
            k < 32,
            got@.len() > method,
            all_admitted(shape, got@),
            predicted(shape, method as int, k as nat, data, start, length as int, seed)
                == predicted(
                shape,
                method as int,
                k as nat,
                data,
                bits.at(),
                length as int,
                got@,
            ),
            data == old(bits).data(),
            start == old(bits).at(),
            seed == first@,
        decreases length - got@.len(),
    {
        let residual: i32 = bits.signed_golomb(k);
        let value: i32 = shape.correct(method, &got, residual);
        if shape == Shape::Probability && !(1 <= value && value < 129) {
            return Err(DstError::Probability { value });
        }
        got.push(value);
    }
    let ghost whole = got@;
    got.truncate(length);
    assert(got@ =~= whole.subrange(0, length as int));
    assert(all_admitted(shape, got@)) by {
        assert forall|i: int| 0 <= i < got@.len() implies shape.admits(#[trigger] got@[i] as int) by {
            assert(got@[i] == whole[i]);
        }
    }
    Ok(got)
}

fn read_element(shape: Shape, bits: &mut Bits) -> (out: Result<Vec<i32>, DstError>)
    requires
        old(bits).wf(),
    ensures
        final(bits).wf(),
        final(bits).data() == old(bits).data(),
        match element(shape, old(bits).data(), old(bits).at()) {
            Ok((one, end)) => {
                &&& out matches Ok(read)
                &&& read@ == one
                &&& 1 <= one.len() <= 128
                &&& all_admitted(shape, one)
                &&& final(bits).at() == end
            },
            Err(error) => out == Err::<Vec<i32>, DstError>(error),
        },
{
    let ghost data = bits.data();
    let ghost start = bits.at();
    proof {
        bits::lemma_field_bound(data, start, shape.length_bits());
        lemma2_to64();
    }
    let length_bits: u32 = match shape {
        Shape::Filter => 7,
        Shape::Probability => 6,
    };
    let length: usize = bits.take(length_bits) as usize + 1;
    if bits.bit() == 0 {
        return Ok(read_written(shape, bits, length));
    }
    proof {
        bits::lemma_field_bound(data, bits.at(), 2);
    }
    let method: u32 = bits.take(2);
    if method >= 3 {
        return Err(DstError::ReservedMethod);
    }
    let first: Vec<i32> = read_written(shape, bits, method as usize + 1);
    proof {
        bits::lemma_field_bound(data, bits.at(), 3);
    }
    let k: u32 = bits.take(3);
    read_predicted(shape, method, k, bits, length, first)
}

/// The coefficients of a list of elements.
pub open spec fn table_view(table: Seq<Vec<i32>>) -> Seq<Seq<i32>> {
    table.map_values(|one: Vec<i32>| one@)
}

/// Every element has between 1 and 128 coefficients, all of them admitted.
pub open spec fn table_wf(shape: Shape, table: Seq<Seq<i32>>) -> bool {
    forall|e: int|
        0 <= e < table.len() ==> 1 <= (#[trigger] table[e]).len() <= 128 && all_admitted(
            shape,
            table[e],
        )
}

/// Coefficients for every element, either written out or predicted from their neighbours
/// and corrected by a Rice-coded residual.
pub fn read_table(shape: Shape, bits: &mut Bits, count: usize) -> (out: Result<
    Vec<Vec<i32>>,
    DstError,
>)
    requires
        old(bits).wf(),
    ensures
        final(bits).wf(),
        final(bits).data() == old(bits).data(),
        match elements(shape, old(bits).data(), old(bits).at(), count as int, Seq::empty()) {
            Ok((table, end)) => {
                &&& out matches Ok(read)
                &&& table_view(read@) == table
                &&& table.len() == count
                &&& table_wf(shape, table)
                &&& final(bits).at() == end
            },
            Err(error) => out == Err::<Vec<Vec<i32>>, DstError>(error),
        },
{
    let ghost data = bits.data();
    let ghost start = bits.at();
    let mut table: Vec<Vec<i32>> = Vec::new();
    assert(table_view(table@) =~= Seq::<Seq<i32>>::empty());
    while table.len() < count
        invariant
            bits.wf(),
            bits.data() == data,
            table@.len() <= count,
            table_wf(shape, table_view(table@)),
            elements(shape, data, start, count as int, Seq::empty()) == elements(
                shape,
                data,
                bits.at(),
                count as int,
                table_view(table@),
            ),
            data == old(bits).data(),
            start == old(bits).at(),
        decreases count - table@.len(),
    {
        let ghost before = table@;
        match read_element(shape, bits) {
            Ok(one) => {
                let ghost added = one@;
                table.push(one);
                assert(table_view(table@) =~= table_view(before).push(added));
            },
            Err(error) => {
                return Err(error);
            },
        }
    }
    Ok(table)
}

} // verus!
