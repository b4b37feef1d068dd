//! How a coded DST frame is made of its audio, and that decoding undoes it.

use crate::dsd;
use crate::reader::sacd::bits;
use crate::reader::sacd::coder;
use crate::reader::sacd::coder::Coding;
use crate::reader::sacd::dst;
use crate::reader::sacd::dst::{DstError, Header};
use crate::reader::sacd::header;
use crate::reader::sacd::predict;
use vstd::arithmetic::div_mod::{
    lemma_fundamental_div_mod, lemma_fundamental_div_mod_converse,
};
use vstd::arithmetic::power2::{
    lemma2_to64, lemma_pow2_adds, lemma_pow2_pos, lemma_pow2_unfold, pow2,
};
use vstd::prelude::*;

verus! {

/// The interval an arithmetic coder has narrowed its number to: it starts at `low`, is `range`
/// wide, and stands `shifts` binary places behind the twelve that the number opens with.
pub struct Interval {
    pub low: int,
    pub range: int,
    pub shifts: nat,
}

/// The whole of twelve bits but the last number.
pub open spec fn whole() -> Interval {
    Interval { low: 0, range: 4095, shifts: 0 }
}

/// How much of an interval a zero takes where `chance` in 256 are for it: the interval is
/// counted in 256ths, and a half left over makes the count odd.
pub open spec fn zeros_share(range: int, chance: int) -> int {
    let steps = if range % 256 >= 128 {
        range / 512 * 2 + 1
    } else {
        range / 256
    };
    steps * chance
}

/// The interval with more places, as many as it takes for it to be 2048 wide.
pub open spec fn widened(interval: Interval) -> Interval
    decreases 4096 - interval.range,
{
    if interval.range >= 2048 || interval.range < 1 {
        interval
    } else {
        widened(
            Interval {
                low: interval.low * 2,
                range: interval.range * 2,
                shifts: interval.shifts + 1,
            },
        )
    }
}

/// A one takes the lower part of the interval, a zero the upper.
pub open spec fn narrowed(interval: Interval, chance: int, bit: int) -> Interval {
    let ones = interval.range - zeros_share(interval.range, chance);
    if bit == 1 {
        Interval { range: ones, ..interval }
    } else {
        Interval {
            low: interval.low + ones,
            range: zeros_share(interval.range, chance),
            shifts: interval.shifts,
        }
    }
}

/// The interval after one more bit.
pub open spec fn after_bit(interval: Interval, chance: int, bit: int) -> Interval {
    widened(narrowed(interval, chance, bit))
}

/// Bit `index` of a channel, the first in bit 7 of its first byte. Before the first stand zeros
/// and ones in turn, a zero next to it.
pub open spec fn channel_bit(channel: Seq<u8>, index: int) -> int {
    if index < 0 {
        (index + 1) % 2
    } else {
        channel[index / 8] as int / (pow2((7 - index % 8) as nat) as int) % 2
    }
}

/// What a filter makes of the bits before bit `index`: a coefficient counts for a one and against
/// a zero, the first for the bit just before.
pub open spec fn tapped(filter: Seq<i32>, channel: Seq<u8>, index: int, taps: int) -> int
    decreases taps,
{
    if taps <= 0 {
        0
    } else {
        tapped(filter, channel, index, taps - 1) + filter[taps - 1] * (2 * channel_bit(
            channel,
            index - taps,
        ) - 1)
    }
}

/// A word of 16 bits, the highest of them its sign.
pub open spec fn word16(value: int) -> int {
    if value % 0x1_0000 < 0x8000 {
        value % 0x1_0000
    } else {
        value % 0x1_0000 - 0x1_0000
    }
}

/// The prediction for bit `index` of a channel.
pub open spec fn guess(filter: Seq<i32>, channel: Seq<u8>, index: int) -> int {
    word16(tapped(filter, channel, index, filter.len() as int))
}

/// What is coded of a bit: zero where the prediction was right, that is where it was negative
/// and the bit is one or neither; one where it was not.
pub open spec fn residual(prediction: int, bit: int) -> int {
    if prediction < 0 {
        1 - bit
    } else {
        bit
    }
}

/// The chance in 256 of a residual of zero: from the channel's table, by how far from zero the
/// prediction is; even while the filter still runs over the bits before the first, where the
/// frame says so.
pub open spec fn chance(head: Header, channel: int, index: int, prediction: int) -> int {
    let filter = head.filters[head.filter_of[channel] as int];
    let chances = head.probabilities[head.probability_of[channel] as int];
    let far = if prediction < 0 {
        (-prediction) / 8
    } else {
        prediction / 8
    };
    if head.half_probability[channel] && index < filter.len() {
        128
    } else if far >= chances.len() {
        chances.last() as int
    } else {
        chances[far] as int
    }
}

/// The chance of the bit that opens the coded data: the low seven bits of the first
/// coefficient turned round, and one.
pub open spec fn opening_chance(coefficient: int) -> int {
    let low = coefficient % 128;
    1 + low % 2 * 64 + low / 2 % 2 * 32 + low / 4 % 2 * 16 + low / 8 % 2 * 8 + low / 16 % 2 * 4
        + low / 32 % 2 * 2 + low / 64
}

/// The interval after the opening bit and `steps` bits of the audio, the channels in turn.
pub open spec fn coded(head: Header, audio: Seq<Seq<u8>>, opening: int, steps: int) -> Interval
    decreases steps,
{
    if steps <= 0 {
        after_bit(whole(), opening_chance(head.filters[0][0] as int), opening)
    } else {
        let channel = (steps - 1) % (audio.len() as int);
        let index = (steps - 1) / (audio.len() as int);
        let prediction = guess(
            head.filters[head.filter_of[channel] as int],
            audio[channel],
            index,
        );
        after_bit(
            coded(head, audio, opening, steps - 1),
            chance(head, channel, index, prediction),
            residual(prediction, channel_bit(audio[channel], index)),
        )
    }
}

/// The bits from `at` on spell a number, its highest bit first.
pub open spec fn spells(data: Seq<u8>, at: int, count: nat, number: int) -> bool {
    forall|i: int|
        0 <= i < count ==> #[trigger] bits::bit_at(data, at + i) == number / (pow2(
            (count - 1 - i) as nat,
        ) as int) % 2
}

/// A header whose tables can be coded with.
pub open spec fn well_made(head: Header, channels: int) -> bool {
    &&& head.filter_of.len() == channels
    &&& head.probability_of.len() == channels
    &&& head.half_probability.len() == channels
    &&& forall|c: int| 0 <= c < channels ==> #[trigger] head.filter_of[c] < head.filters.len()
    &&& forall|c: int|
        0 <= c < channels ==> #[trigger] head.probability_of[c] < head.probabilities.len()
    &&& forall|e: int|
        0 <= e < head.probabilities.len() ==> (#[trigger] head.probabilities[e]).len() >= 1
    &&& forall|e: int, i: int|
        0 <= e < head.probabilities.len() && 0 <= i < head.probabilities[e].len() ==> 1
            <= #[trigger] head.probabilities[e][i] <= 128
}

/// A number lies in an interval, with the places it has behind those of the interval.
spec fn holds(interval: Interval, number: int, places: nat) -> bool {
    &&& interval.shifts <= places
    &&& interval.low * pow2((places - interval.shifts) as nat) <= number
    &&& number < (interval.low + interval.range) * pow2((places - interval.shifts) as nat)
}

proof fn lemma_share(range: int, chance: int)
    requires
        2048 <= range <= 4095,
        1 <= chance <= 128,
    ensures
        zeros_share(range, chance) == coder::scale(range) * chance,
        1 <= zeros_share(range, chance) < range,
{
    let steps = coder::scale(range);
    assert(zeros_share(range, chance) == steps * chance);
    assert(8 <= steps <= 15);
    assert(1 <= steps * chance <= 1920) by (nonlinear_arith)
        requires
            8 <= steps <= 15,
            1 <= chance <= 128,
    ;
}

proof fn lemma_widened(interval: Interval)
    requires
        1 <= interval.range <= 4095,
    ensures
        2048 <= widened(interval).range <= 4095,
        interval.low >= 0 ==> widened(interval).low >= 0,
    decreases 4096 - interval.range,
{
    if interval.range < 2048 {
        lemma_widened(
            Interval {
                low: interval.low * 2,
                range: interval.range * 2,
                shifts: interval.shifts + 1,
            },
        );
    }
}

/// A number in the interval with more places is in the interval it came of.
proof fn lemma_was_held(interval: Interval, number: int, places: nat)
    requires
        1 <= interval.range <= 4095,
        holds(widened(interval), number, places),
    ensures
        holds(interval, number, places),
    decreases 4096 - interval.range,
{
    if interval.range < 2048 {
        let next = Interval {
            low: interval.low * 2,
            range: interval.range * 2,
            shifts: interval.shifts + 1,
        };
        lemma_was_held(next, number, places);
        let unit = pow2((places - next.shifts) as nat) as int;
        lemma_pow2_unfold((places - interval.shifts) as nat);
        assert((places - interval.shifts - 1) as nat == (places - next.shifts) as nat);
        let low = interval.low;
        let range = interval.range;
        assert(low * (2 * unit) == (low * 2) * unit) by (nonlinear_arith);
        assert((low + range) * (2 * unit) == (low * 2 + range * 2) * unit) by (nonlinear_arith);
    }
}

/// A number in one part of an interval is in the interval, and on that part's side of the split.
proof fn lemma_side(interval: Interval, chance: int, bit: int, number: int, places: nat)
    requires
        2048 <= interval.range <= 4095,
        1 <= chance <= 128,
        holds(narrowed(interval, chance, bit), number, places),
    ensures
        holds(interval, number, places),
        ({
            let ones = interval.range - zeros_share(interval.range, chance);
            let unit = pow2((places - interval.shifts) as nat) as int;
            if bit == 1 {
                number < (interval.low + ones) * unit
            } else {
                (interval.low + ones) * unit <= number
            }
        }),
{
    lemma_share(interval.range, chance);
    let ones = interval.range - zeros_share(interval.range, chance);
    let unit = pow2((places - interval.shifts) as nat) as int;
    lemma_pow2_pos((places - interval.shifts) as nat);
    let low = interval.low;
    let range = interval.range;
    assert(low * unit <= (low + ones) * unit <= (low + range) * unit) by (nonlinear_arith)
        requires
            unit > 0,
            0 <= ones <= range,
    ;
    assert(low + ones + (range - ones) == low + range);
}

/// How far into its interval a number is, in whole steps.
spec fn ahead(interval: Interval, number: int, places: nat) -> int {
    number / (pow2((places - interval.shifts) as nat) as int) - interval.low
}

proof fn lemma_ahead(interval: Interval, number: int, places: nat, bound: int)
    requires
        interval.shifts <= places,
    ensures
        (ahead(interval, number, places) < bound) == (number < (interval.low + bound) * pow2(
            (places - interval.shifts) as nat,
        )),
{
    let unit = pow2((places - interval.shifts) as nat) as int;
    lemma_pow2_pos((places - interval.shifts) as nat);
    lemma_fundamental_div_mod(number, unit);
    let whole = number / unit;
    let edge = interval.low + bound;
    let over = number % unit;
    assert(number == unit * whole + over && 0 <= over < unit);
    if whole < edge {
        assert(unit * whole + over < edge * unit) by (nonlinear_arith)
            requires
                whole < edge,
                0 <= over < unit,
        ;
    } else {
        assert(unit * whole + over >= edge * unit) by (nonlinear_arith)
            requires
                whole >= edge,
                0 <= over < unit,
        ;
    }
}

/// The decoder's state where the encoder had an interval.
spec fn decoder_at(interval: Interval, data: Seq<u8>, at: int, number: int, places: nat) -> Coding {
    Coding {
        range: interval.range,
        code: ahead(interval, number, places),
        at: bits::past(data, at, 12 + interval.shifts as int),
    }
}

pub(crate) proof fn lemma_next_place(number: int, places: nat, shifts: nat)
    requires
        shifts < places,
    ensures
        ({
            let finer = number / (pow2((places - shifts - 1) as nat) as int);
            number / (pow2((places - shifts) as nat) as int) * 2 + finer % 2 == finer
        }),
{
    let unit = pow2((places - shifts - 1) as nat) as int;
    lemma_pow2_pos((places - shifts - 1) as nat);
    lemma_pow2_unfold((places - shifts) as nat);
    let finer = number / unit;
    let over = number % unit;
    let bit = finer % 2;
    lemma_fundamental_div_mod(number, unit);
    assert(number == (finer / 2) * (2 * unit) + (unit * bit + over)) by (nonlinear_arith)
        requires
            number == unit * finer + over,
            bit == finer % 2,
    ;
    assert(0 <= unit * bit + over < 2 * unit) by (nonlinear_arith)
        requires
            0 <= over < unit,
            0 <= bit <= 1,
    ;
    lemma_fundamental_div_mod_converse(number, 2 * unit, finer / 2, unit * bit + over);
}

/// Widening the interval and renormalising the decoder keep step.
proof fn lemma_renormalised(
    interval: Interval,
    data: Seq<u8>,
    at: int,
    number: int,
    places: nat,
)
    requires
        1 <= interval.range <= 4095,
        holds(widened(interval), number, places),
        spells(data, at, 12 + places, number),
    ensures
        coder::renormalised(data, decoder_at(interval, data, at, number, places)) == decoder_at(
            widened(interval),
            data,
            at,
            number,
            places,
        ),
    decreases 4096 - interval.range,
{
    let here = decoder_at(interval, data, at, number, places);
    if interval.range < 2048 {
        let next = Interval {
            low: interval.low * 2,
            range: interval.range * 2,
            shifts: interval.shifts + 1,
        };
        lemma_was_held(next, number, places);
        lemma_renormalised(next, data, at, number, places);
        let there = decoder_at(next, data, at, number, places);
        lemma_next_place(number, places, interval.shifts);
        let place = 12 + interval.shifts as int;
        assert(bits::bit_at(data, at + place) == number / (pow2(
            (12 + places - 1 - place) as nat,
        ) as int) % 2);
        assert((12 + places - 1 - place) as nat == (places - interval.shifts - 1) as nat);
        assert((places - next.shifts) as nat == (places - interval.shifts - 1) as nat);
        assert(bits::bit_at(data, here.at) == bits::bit_at(data, at + place));
        assert(here.code * 2 + bits::bit_at(data, here.at) == there.code);
        lemma_ahead(next, number, places, 0);
        lemma_ahead(next, number, places, next.range);
        assert(0 <= there.code < 4096);
        assert(bits::past(data, here.at, 1) == there.at);
    }
}

/// One bit in and the same bit out.
proof fn lemma_bit_out(
    interval: Interval,
    chance: int,
    bit: int,
    data: Seq<u8>,
    at: int,
    number: int,
    places: nat,
)
    requires
        2048 <= interval.range <= 4095,
        1 <= chance <= 128,
        0 <= bit <= 1,
        holds(after_bit(interval, chance, bit), number, places),
        spells(data, at, 12 + places, number),
    ensures
        holds(interval, number, places),
        coder::coded_bit(decoder_at(interval, data, at, number, places), chance) == bit,
        coder::coding_next(data, decoder_at(interval, data, at, number, places), chance)
            == decoder_at(after_bit(interval, chance, bit), data, at, number, places),
{
    lemma_share(interval.range, chance);
    let next = narrowed(interval, chance, bit);
    lemma_was_held(next, number, places);
    lemma_side(interval, chance, bit, number, places);
    let ones = interval.range - zeros_share(interval.range, chance);
    lemma_ahead(interval, number, places, ones);
    lemma_renormalised(next, data, at, number, places);
    let here = decoder_at(interval, data, at, number, places);
    let there = decoder_at(next, data, at, number, places);
    if bit == 1 {
        assert(there == Coding { range: ones, ..here });
    } else {
        assert(there.code == here.code - ones);
    }
}

/// Twelve bits are the number without its further places.
proof fn lemma_opening_field(data: Seq<u8>, at: int, number: int, places: nat, count: nat)
    requires
        count <= 12,
        0 <= number < pow2(12 + places),
        spells(data, at, 12 + places, number),
    ensures
        bits::field(data, at, count) == number / (pow2((12 + places - count) as nat) as int),
    decreases count,
{
    lemma_pow2_pos((12 + places - count) as nat);
    if count == 0 {
        vstd::arithmetic::div_mod::lemma_basic_div(number, pow2(12 + places) as int);
    } else {
        lemma_opening_field(data, at, number, places, (count - 1) as nat);
        lemma_next_place(number, 12 + places, (count - 1) as nat);
        bits::lemma_field_bound(data, at, (count - 1) as nat);
        lemma2_to64();
        if count < 12 {
            vstd::arithmetic::power2::lemma_pow2_strictly_increases((count - 1) as nat, 12);
        }
        assert(bits::bit_at(data, at + (count - 1)) == number / (pow2(
            (12 + places - 1 - (count - 1)) as nat,
        ) as int) % 2);
        assert((12 + places - 1 - (count - 1)) as nat == (12 + places - count) as nat);
        assert((12 + places - (count - 1)) as nat == (12 + places - count + 1) as nat);
        assert((12 + places - (count - 1) as nat - 1) as nat == (12 + places - count) as nat);
    }
}

proof fn lemma_opening_chance(coefficient: int)
    ensures
        opening_chance(coefficient) == dst::opening_probability(coefficient),
        1 <= opening_chance(coefficient) <= 128,
{
    let low = (coefficient % 128) as u8;
    assert(low as int == coefficient % 128);
    assert(low / 128 == 0);
    assert(dsd::reversed(low) == low % 2 * 128 + low / 2 % 2 * 64 + low / 4 % 2 * 32 + low / 8 % 2
        * 16 + low / 16 % 2 * 8 + low / 32 % 2 * 4 + low / 64 % 2 * 2 + low / 128);
    assert(low / 64 % 2 == low / 64);
}

/// The first bits of a channel.
spec fn first_bits(channel: Seq<u8>, count: nat) -> Seq<int> {
    Seq::new(count, |i: int| channel_bit(channel, i))
}

proof fn lemma_channel_bit(channel: Seq<u8>, index: int)
    ensures
        0 <= channel_bit(channel, index) <= 1,
{
}

proof fn lemma_tapped(filter: Seq<i32>, channel: Seq<u8>, count: nat, taps: int)
    requires
        0 <= taps <= filter.len(),
    ensures
        predict::filtered(filter, first_bits(channel, count), taps) == tapped(
            filter,
            channel,
            count as int,
            taps,
        ),
    decreases taps,
{
    if taps > 0 {
        lemma_tapped(filter, channel, count, taps - 1);
        let bit = channel_bit(channel, count - taps);
        lemma_channel_bit(channel, count - taps);
        assert(predict::history(first_bits(channel, count), taps - 1) == bit);
        let coefficient = filter[taps - 1] as int;
        if bit == 1 {
            assert(coefficient * (2 * bit - 1) == coefficient) by (nonlinear_arith)
                requires
                    bit == 1,
            ;
        } else {
            assert(coefficient * (2 * bit - 1) == -coefficient) by (nonlinear_arith)
                requires
                    bit == 0,
            ;
        }
    }
}

proof fn lemma_guess(filter: Seq<i32>, channel: Seq<u8>, count: nat)
    ensures
        predict::prediction(filter, first_bits(channel, count)) == guess(
            filter,
            channel,
            count as int,
        ),
{
    lemma_tapped(filter, channel, count, filter.len() as int);
}

/// How many bits of a channel have had their turn.
spec fn turns(steps: int, width: int, channel: int) -> nat {
    (steps / width + (if channel < steps % width {
        1int
    } else {
        0
    })) as nat
}

proof fn lemma_turns(steps: int, width: int)
    requires
        steps >= 0,
        width >= 1,
    ensures
        0 <= steps % width < width,
        steps / width >= 0,
        turns(steps, width, steps % width) == steps / width,
        turns(steps + 1, width, steps % width) == steps / width + 1,
        forall|c: int|
            0 <= c < width && c != steps % width ==> #[trigger] turns(steps + 1, width, c) == turns(
                steps,
                width,
                c,
            ),
{
    let q = steps / width;
    let r = steps % width;
    lemma_fundamental_div_mod(steps, width);
    assert(0 <= r < width && steps == width * q + r);
    assert(q >= 0) by (nonlinear_arith)
        requires
            steps >= 0,
            width >= 1,
            q == steps / width,
    ;
    if r + 1 < width {
        assert(steps + 1 == q * width + (r + 1)) by (nonlinear_arith)
            requires
                steps == width * q + r,
        ;
        lemma_fundamental_div_mod_converse(steps + 1, width, q, r + 1);
    } else {
        assert(steps + 1 == (q + 1) * width + 0) by (nonlinear_arith)
            requires
                steps == width * q + r,
                r + 1 == width,
        ;
        lemma_fundamental_div_mod_converse(steps + 1, width, q + 1, 0);
    }
}

proof fn lemma_coded_range(head: Header, channels: int, audio: Seq<Seq<u8>>, opening: int, steps: int)
    requires
        well_made(head, channels),
        1 <= audio.len() <= channels,
        0 <= opening <= 1,
    ensures
        2048 <= coded(head, audio, opening, steps).range <= 4095,
    decreases steps,
{
    if steps <= 0 {
        let p = opening_chance(head.filters[0][0] as int);
        lemma_opening_chance(head.filters[0][0] as int);
        lemma_share(4095, p);
        lemma_widened(narrowed(whole(), p, opening));
    } else {
        lemma_coded_range(head, channels, audio, opening, steps - 1);
        let width = audio.len() as int;
        let channel = (steps - 1) % width;
        lemma_turns(steps - 1, width);
        let index = (steps - 1) / width;
        let prediction = guess(
            head.filters[head.filter_of[channel] as int],
            audio[channel],
            index,
        );
        let p = chance(head, channel, index, prediction);
        lemma_chance(head, channels, channel, index, prediction);
        let before = coded(head, audio, opening, steps - 1);
        lemma_share(before.range, p);
        lemma_widened(
            narrowed(before, p, residual(prediction, channel_bit(audio[channel], index))),
        );
    }
}

proof fn lemma_chance(head: Header, channels: int, channel: int, index: int, prediction: int)
    requires
        well_made(head, channels),
        0 <= channel < channels,
    ensures
        1 <= chance(head, channel, index, prediction) <= 128,
        chance(head, channel, index, prediction) == dst::bit_probability(
            head,
            channel,
            index,
            prediction,
        ),
{
    let e = head.probability_of[channel] as int;
    let chances = head.probabilities[e];
    assert(chances.len() >= 1);
    assert(1 <= chances[chances.len() - 1] <= 128);
    let far = if prediction < 0 {
        (-prediction) / 8
    } else {
        prediction / 8
    };
    if 0 <= far < chances.len() {
        assert(1 <= head.probabilities[e][far] <= 128);
    }
}

/// The number that stands for the whole of the audio is in every interval on the way to it.
proof fn lemma_on_the_way(
    head: Header,
    channels: int,
    audio: Seq<Seq<u8>>,
    opening: int,
    steps: int,
    number: int,
    places: nat,
    data: Seq<u8>,
    at: int,
)
    requires
        well_made(head, channels),
        1 <= audio.len() <= channels,
        0 <= opening <= 1,
        steps >= 0,
        holds(coded(head, audio, opening, steps), number, places),
        spells(data, at, 12 + places, number),
    ensures
        ({
            let run = dst::run_after(head, data, at, audio.len() as int, steps);
            &&& run.coding == decoder_at(
                coded(head, audio, opening, steps),
                data,
                at,
                number,
                places,
            )
            &&& run.produced.len() == audio.len()
            &&& forall|c: int|
                0 <= c < audio.len() ==> #[trigger] run.produced[c] == first_bits(
                    audio[c],
                    turns(steps, audio.len() as int, c),
                )
        }),
    decreases steps,
{
    let width = audio.len() as int;
    let run = dst::run_after(head, data, at, width, steps);
    if steps == 0 {
        lemma_start(head, opening, number, places, data, at);
        lemma_fundamental_div_mod_converse(0, width, 0, 0);
        assert forall|c: int| 0 <= c < width implies #[trigger] run.produced[c] == first_bits(
            audio[c],
            turns(0, width, c),
        ) by {
            assert(run.produced[c] =~= first_bits(audio[c], 0));
        }
    } else {
        let before = coded(head, audio, opening, steps - 1);
        let channel = (steps - 1) % width;
        let index = (steps - 1) / width;
        lemma_turns(steps - 1, width);
        let filter = head.filters[head.filter_of[channel] as int];
        let prediction = guess(filter, audio[channel], index);
        let p = chance(head, channel, index, prediction);
        let bit = channel_bit(audio[channel], index);
        lemma_channel_bit(audio[channel], index);
        let left = residual(prediction, bit);
        lemma_chance(head, channels, channel, index, prediction);
        lemma_coded_range(head, channels, audio, opening, steps - 1);
        lemma_bit_out(before, p, left, data, at, number, places);
        lemma_on_the_way(
            head,
            channels,
            audio,
            opening,
            steps - 1,
            number,
            places,
            data,
            at,
        );
        let earlier = dst::run_after(head, data, at, width, steps - 1);
        assert(run == dst::run_step(head, data, earlier, channel));
        assert(earlier.produced[channel] == first_bits(audio[channel], index as nat));
        lemma_guess(filter, audio[channel], index as nat);
        assert(dst::next_bit(prediction, left) == bit);
        assert forall|c: int| 0 <= c < width implies #[trigger] run.produced[c] == first_bits(
            audio[c],
            turns(steps, width, c),
        ) by {
            if c == channel {
                assert(first_bits(audio[c], index as nat).push(bit) =~= first_bits(
                    audio[c],
                    (index + 1) as nat,
                ));
                assert(turns(steps - 1 + 1, width, channel) == index + 1);
            } else {
                assert(turns(steps - 1 + 1, width, c) == turns(steps - 1, width, c));
                assert(run.produced[c] == earlier.produced[c]);
            }
        }
    }
}

/// The decoder opens where the encoder did.
proof fn lemma_start(
    head: Header,
    opening: int,
    number: int,
    places: nat,
    data: Seq<u8>,
    at: int,
)
    requires
        0 <= opening <= 1,
        holds(
            after_bit(whole(), opening_chance(head.filters[0][0] as int), opening),
            number,
            places,
        ),
        spells(data, at, 12 + places, number),
    ensures
        coder::coding_next(
            data,
            coder::coding_start(data, at),
            dst::opening_probability(head.filters[0][0] as int),
        ) == decoder_at(
            after_bit(whole(), opening_chance(head.filters[0][0] as int), opening),
            data,
            at,
            number,
            places,
        ),
{
    let p = opening_chance(head.filters[0][0] as int);
    lemma_opening_chance(head.filters[0][0] as int);
    lemma_bit_out(whole(), p, opening, data, at, number, places);
    lemma_pow2_adds(12, places);
    lemma2_to64();
    let unit = pow2(places) as int;
    lemma_pow2_pos(places);
    assert(0 * unit == 0 && 4095 * unit < 4096 * unit);
    assert(pow2(12 + places) == 4096 * unit);
    assert((0int + 4095) * unit == 4095 * unit);
    lemma_opening_field(data, at, number, places, 12);
    assert((12 + places - 12) as nat == places);
}

proof fn lemma_byte(byte: u8)
    ensures
        byte == byte as int / 128 % 2 * 128 + byte as int / 64 % 2 * 64 + byte as int / 32 % 2 * 32
            + byte as int / 16 % 2 * 16 + byte as int / 8 % 2 * 8 + byte as int / 4 % 2 * 4
            + byte as int / 2 % 2 * 2 + byte as int % 2,
{
    let b = byte as int;
    assert(b / 2 / 2 == b / 4 && b / 4 / 2 == b / 8 && b / 8 / 2 == b / 16);
    assert(b / 16 / 2 == b / 32 && b / 32 / 2 == b / 64 && b / 64 / 2 == b / 128);
}

proof fn lemma_bit_in_byte(channel: Seq<u8>, index: int, n: int)
    requires
        0 <= index < channel.len(),
        0 <= n < 8,
    ensures
        dst::bit_or_zero(first_bits(channel, channel.len() * 8), index * 8 + n)
            == channel[index] as int / (pow2((7 - n) as nat) as int) % 2,
{
    assert((index * 8 + n) / 8 == index);
    assert((index * 8 + n) % 8 == n);
}

proof fn lemma_bytes(channel: Seq<u8>, index: int)
    requires
        0 <= index < channel.len(),
    ensures
        dst::byte_of(first_bits(channel, channel.len() * 8), index) == channel[index],
{
    lemma2_to64();
    lemma_byte(channel[index]);
    let byte = channel[index] as int;
    lemma_bit_in_byte(channel, index, 0);
    assert((7 - 0int) as nat == 7 && byte / (pow2(7) as int) == byte / 128);
    lemma_bit_in_byte(channel, index, 1);
    assert((7 - 1int) as nat == 6 && byte / (pow2(6) as int) == byte / 64);
    lemma_bit_in_byte(channel, index, 2);
    assert((7 - 2int) as nat == 5 && byte / (pow2(5) as int) == byte / 32);
    lemma_bit_in_byte(channel, index, 3);
    assert((7 - 3int) as nat == 4 && byte / (pow2(4) as int) == byte / 16);
    lemma_bit_in_byte(channel, index, 4);
    assert((7 - 4int) as nat == 3 && byte / (pow2(3) as int) == byte / 8);
    lemma_bit_in_byte(channel, index, 5);
    assert((7 - 5int) as nat == 2 && byte / (pow2(2) as int) == byte / 4);
    lemma_bit_in_byte(channel, index, 6);
    assert((7 - 6int) as nat == 1 && byte / (pow2(1) as int) == byte / 2);
    lemma_bit_in_byte(channel, index, 7);
    assert((7 - 7int) as nat == 0 && byte / (pow2(0) as int) == byte / 1);
    let all = first_bits(channel, channel.len() * 8);
    assert(dst::bit_or_zero(all, index * 8) == byte / 128 % 2);
    assert(dst::bit_or_zero(all, index * 8 + 7) == byte % 2);
}

/// Decoding a frame gives back, bit for bit, the audio it was made of: whatever the audio is,
/// whatever filters and chances the header carries, and whichever bit opens the coded data.
pub proof fn a_frame_decodes_to_its_audio(
    frame: Seq<u8>,
    channels: int,
    head: Header,
    at: int,
    audio: Seq<Seq<u8>>,
    bytes: int,
    opening: int,
)
    requires
        frame.len() >= 2,
        bits::bit_at(frame, 0) == 1,
        dst::header(frame, channels) == Ok::<(Header, int), DstError>((head, at)),
        predict::all_sums_fit(head.filters),
        1 <= audio.len() <= channels,
        bytes >= 0,
        forall|c: int| 0 <= c < audio.len() ==> (#[trigger] audio[c]).len() == bytes,
        0 <= opening <= 1,
        ({
            let made = coded(head, audio, opening, bytes * 8 * audio.len());
            spells(frame, at, 12 + made.shifts, made.low)
        }),
    ensures
        dst::decoded(frame, channels, bytes * 8, audio.len() as int) == Ok::<
            Seq<Seq<u8>>,
            DstError,
        >(audio),
{
    let width = audio.len() as int;
    let steps = bytes * 8 * width;
    header::a_header_that_is_read_is_well_made(frame, channels);
    assert(steps >= 0) by (nonlinear_arith)
        requires
            steps == bytes * 8 * width,
            bytes >= 0,
            width >= 1,
    ;
    let made = coded(head, audio, opening, steps);
    lemma_coded_range(head, channels, audio, opening, steps);
    lemma2_to64();
    assert((made.shifts - made.shifts) as nat == 0);
    assert(holds(made, made.low, made.shifts)) by {
        assert(pow2(0) == 1);
        assert(made.low * 1 <= made.low);
        assert((made.low + made.range) * 1 == made.low + made.range);
    }
    lemma_on_the_way(
        head,
        channels,
        audio,
        opening,
        steps,
        made.low,
        made.shifts,
        frame,
        at,
    );
    let run = dst::run_after(head, frame, at, width, steps);
    assert(steps == bytes * 8 * width + 0);
    lemma_fundamental_div_mod_converse(steps, width, bytes * 8, 0);
    let out = Seq::new(
        width as nat,
        |c: int| Seq::new((bytes * 8 / 8) as nat, |i: int| dst::byte_of(run.produced[c], i) as u8),
    );
    assert forall|c: int| 0 <= c < width implies out[c] =~= audio[c] by {
        assert(run.produced[c] == first_bits(audio[c], (bytes * 8) as nat));
        assert forall|i: int| 0 <= i < bytes implies out[c][i] == audio[c][i] by {
            lemma_bytes(audio[c], i);
        }
    }
    assert(out =~= audio);
}

} // verus!
