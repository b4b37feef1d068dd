//! Numbers and marks in runs of bytes.

use vstd::prelude::*;

verus! {

pub open spec fn be16(bytes: Seq<u8>, at: int) -> int {
    bytes[at] * 0x100 + bytes[at + 1]
}

pub open spec fn be24(bytes: Seq<u8>, at: int) -> int {
    be16(bytes, at) * 0x100 + bytes[at + 2]
}

pub open spec fn be32(bytes: Seq<u8>, at: int) -> int {
    be16(bytes, at) * 0x1_0000 + be16(bytes, at + 2)
}

pub open spec fn be64(bytes: Seq<u8>, at: int) -> int {
    be32(bytes, at) * 0x1_0000_0000 + be32(bytes, at + 4)
}

pub open spec fn le16(bytes: Seq<u8>, at: int) -> int {
    bytes[at] + bytes[at + 1] * 0x100
}

pub open spec fn le32(bytes: Seq<u8>, at: int) -> int {
    le16(bytes, at) + le16(bytes, at + 2) * 0x1_0000
}

pub open spec fn le64(bytes: Seq<u8>, at: int) -> int {
    le32(bytes, at) + le32(bytes, at + 4) * 0x1_0000_0000
}

/// A number in `width` bytes, the highest first.
pub open spec fn high_first(value: nat, width: nat) -> Seq<u8>
    decreases width,
{
    if width == 0 {
        Seq::empty()
    } else {
        high_first(value / 256, (width - 1) as nat).push((value % 256) as u8)
    }
}

/// A number in `width` bytes, the lowest first.
pub open spec fn low_first(value: nat, width: nat) -> Seq<u8>
    decreases width,
{
    if width == 0 {
        Seq::empty()
    } else {
        seq![(value % 256) as u8] + low_first(value / 256, (width - 1) as nat)
    }
}

/// `part` stands in `data` at `at`.
pub open spec fn stands_at(data: Seq<u8>, at: int, part: Seq<u8>) -> bool {
    &&& 0 <= at
    &&& at + part.len() <= data.len()
    &&& forall|i: int| 0 <= i < part.len() ==> data[at + i] == #[trigger] part[i]
}

/// Part of a part stands where it stands in that.
pub proof fn lemma_stands(data: Seq<u8>, at: int, head: Seq<u8>, tail: Seq<u8>)
    requires
        stands_at(data, at, head + tail),
    ensures
        stands_at(data, at, head),
        stands_at(data, at + head.len(), tail),
{
    let whole = head + tail;
    assert forall|i: int| 0 <= i < head.len() implies data[at + i] == #[trigger] head[i] by {
        assert(whole[i] == head[i]);
    }
    assert forall|i: int| 0 <= i < tail.len() implies data[at + head.len() + i]
        == #[trigger] tail[i] by {
        assert(whole[head.len() + i] == tail[i]);
    }
}

/// A number takes the width it is given.
pub proof fn lemma_width(value: nat, width: nat)
    ensures
        high_first(value, width).len() == width,
        low_first(value, width).len() == width,
    decreases width,
{
    if width > 0 {
        lemma_width(value / 256, (width - 1) as nat);
    }
}

pub proof fn lemma_high_first(value: nat)
    ensures
        high_first(value, 1) == seq![(value % 256) as u8],
        high_first(value, 2) == seq![(value / 0x100 % 256) as u8, (value % 256) as u8],
        high_first(value, 3) == seq![
            (value / 0x1_0000 % 256) as u8,
            (value / 0x100 % 256) as u8,
            (value % 256) as u8,
        ],
        high_first(value, 4) == seq![
            (value / 0x100_0000 % 256) as u8,
            (value / 0x1_0000 % 256) as u8,
            (value / 0x100 % 256) as u8,
            (value % 256) as u8,
        ],
        high_first(value, 8) == high_first(value / 0x1_0000_0000, 4) + high_first(value, 4),
{
    reveal_with_fuel(high_first, 9);
    assert(value / 256 / 256 == value / 0x1_0000);
    assert(value / 256 / 256 / 256 == value / 0x100_0000);
    assert(value / 256 / 256 / 256 / 256 == value / 0x1_0000_0000);
    assert(high_first(value, 1) =~= seq![(value % 256) as u8]);
    assert(high_first(value, 2) =~= seq![(value / 0x100 % 256) as u8, (value % 256) as u8]);
    assert(high_first(value, 3) =~= seq![
        (value / 0x1_0000 % 256) as u8,
        (value / 0x100 % 256) as u8,
        (value % 256) as u8,
    ]);
    assert(high_first(value, 4) =~= seq![
        (value / 0x100_0000 % 256) as u8,
        (value / 0x1_0000 % 256) as u8,
        (value / 0x100 % 256) as u8,
        (value % 256) as u8,
    ]);
    assert(high_first(value, 8) =~= high_first(value / 0x1_0000_0000, 4) + high_first(value, 4));
}

pub proof fn lemma_low_first(value: nat)
    ensures
        low_first(value, 1) == seq![(value % 256) as u8],
        low_first(value, 2) == seq![(value % 256) as u8, (value / 0x100 % 256) as u8],
        low_first(value, 4) == seq![
            (value % 256) as u8,
            (value / 0x100 % 256) as u8,
            (value / 0x1_0000 % 256) as u8,
            (value / 0x100_0000 % 256) as u8,
        ],
        low_first(value, 8) == low_first(value, 4) + low_first(value / 0x1_0000_0000, 4),
{
    reveal_with_fuel(low_first, 9);
    assert(value / 256 / 256 == value / 0x1_0000);
    assert(value / 256 / 256 / 256 == value / 0x100_0000);
    assert(value / 256 / 256 / 256 / 256 == value / 0x1_0000_0000);
    assert(low_first(value, 1) =~= seq![(value % 256) as u8]);
    assert(low_first(value, 2) =~= seq![(value % 256) as u8, (value / 0x100 % 256) as u8]);
    assert(low_first(value, 4) =~= seq![
        (value % 256) as u8,
        (value / 0x100 % 256) as u8,
        (value / 0x1_0000 % 256) as u8,
        (value / 0x100_0000 % 256) as u8,
    ]);
    assert(low_first(value, 8) =~= low_first(value, 4) + low_first(value / 0x1_0000_0000, 4));
}

/// A number that stands in a file with its highest byte first reads back as the number.
pub proof fn numbers_read_back_high_first(data: Seq<u8>, at: int, value: nat)
    ensures
        value < 0x1_0000 && stands_at(data, at, high_first(value, 2)) ==> be16(data, at) == value,
        value < 0x100_0000 && stands_at(data, at, high_first(value, 3)) ==> be24(data, at) == value,
        value < 0x1_0000_0000 && stands_at(data, at, high_first(value, 4)) ==> be32(data, at)
            == value,
        value < 0x1_0000_0000_0000_0000 && stands_at(data, at, high_first(value, 8)) ==> be64(
            data,
            at,
        ) == value,
{
    lemma_high_first(value);
    if stands_at(data, at, high_first(value, 2)) {
        assert(data[at + 0] == high_first(value, 2)[0]);
        assert(data[at + 1] == high_first(value, 2)[1]);
    }
    if stands_at(data, at, high_first(value, 3)) {
        assert(data[at + 0] == high_first(value, 3)[0]);
        assert(data[at + 1] == high_first(value, 3)[1]);
        assert(data[at + 2] == high_first(value, 3)[2]);
    }
    if stands_at(data, at, high_first(value, 4)) {
        lemma_be32(data, at, value);
    }
    if stands_at(data, at, high_first(value, 8)) && value < 0x1_0000_0000_0000_0000 {
        lemma_high_first(value / 0x1_0000_0000);
        lemma_stands(data, at, high_first(value / 0x1_0000_0000, 4), high_first(value, 4));
        lemma_be32(data, at, value / 0x1_0000_0000);
        lemma_be32(data, at + 4, value);
    }
}

proof fn lemma_halves(value: nat)
    ensures
        value / 0x100_0000 % 256 * 0x100 + value / 0x1_0000 % 256 == value / 0x1_0000 % 0x1_0000,
        value / 0x100 % 256 * 0x100 + value % 256 == value % 0x1_0000,
        value / 0x1_0000 % 0x1_0000 * 0x1_0000 + value % 0x1_0000 == value % 0x1_0000_0000,
{
    let high = value / 0x1_0000;
    assert(value / 0x100_0000 == high / 0x100);
    assert(high / 0x100 % 256 * 0x100 + high % 256 == high % 0x1_0000);
}

proof fn lemma_be32(data: Seq<u8>, at: int, value: nat)
    requires
        stands_at(data, at, high_first(value, 4)),
    ensures
        be32(data, at) == value % 0x1_0000_0000,
{
    lemma_high_first(value);
    let part = high_first(value, 4);
    assert(data[at + 0] == part[0]);
    assert(data[at + 1] == part[1]);
    assert(data[at + 2] == part[2]);
    assert(data[at + 3] == part[3]);
    lemma_halves(value);
}

/// A number that stands in a file with its lowest byte first reads back as the number.
pub proof fn numbers_read_back_low_first(data: Seq<u8>, at: int, value: nat)
    ensures
        value < 0x1_0000 && stands_at(data, at, low_first(value, 2)) ==> le16(data, at) == value,
        value < 0x1_0000_0000 && stands_at(data, at, low_first(value, 4)) ==> le32(data, at)
            == value,
        value < 0x1_0000_0000_0000_0000 && stands_at(data, at, low_first(value, 8)) ==> le64(
            data,
            at,
        ) == value,
{
    lemma_low_first(value);
    if stands_at(data, at, low_first(value, 2)) {
        assert(data[at + 0] == low_first(value, 2)[0]);
        assert(data[at + 1] == low_first(value, 2)[1]);
    }
    if stands_at(data, at, low_first(value, 4)) {
        lemma_le32(data, at, value);
    }
    if stands_at(data, at, low_first(value, 8)) && value < 0x1_0000_0000_0000_0000 {
        lemma_stands(data, at, low_first(value, 4), low_first(value / 0x1_0000_0000, 4));
        lemma_le32(data, at, value);
        lemma_le32(data, at + 4, value / 0x1_0000_0000);
    }
}

proof fn lemma_le32(data: Seq<u8>, at: int, value: nat)
    requires
        stands_at(data, at, low_first(value, 4)),
    ensures
        le32(data, at) == value % 0x1_0000_0000,
{
    lemma_low_first(value);
    let part = low_first(value, 4);
    assert(data[at + 0] == part[0]);
    assert(data[at + 1] == part[1]);
    assert(data[at + 2] == part[2]);
    assert(data[at + 3] == part[3]);
    lemma_halves(value);
}

/// The four bytes `a`, `b`, `c`, `d` stand at `at`.
pub open spec fn mark4(bytes: Seq<u8>, at: int, a: u8, b: u8, c: u8, d: u8) -> bool {
    bytes[at] == a && bytes[at + 1] == b && bytes[at + 2] == c && bytes[at + 3] == d
}

/// The three bytes `a`, `b`, `c` stand at `at`.
pub open spec fn mark3(bytes: Seq<u8>, at: int, a: u8, b: u8, c: u8) -> bool {
    bytes[at] == a && bytes[at + 1] == b && bytes[at + 2] == c
}

pub fn read_be16(bytes: &[u8], at: usize) -> (value: u16)
    requires
        at + 2 <= bytes@.len(),
    ensures
        value == be16(bytes@, at as int),
{
    bytes[at] as u16 * 0x100 + bytes[at + 1] as u16
}

pub fn read_be24(bytes: &[u8], at: usize) -> (value: u32)
    requires
        at + 3 <= bytes@.len(),
    ensures
        value == be24(bytes@, at as int),
{
    bytes[at] as u32 * 0x1_0000 + bytes[at + 1] as u32 * 0x100 + bytes[at + 2] as u32
}

pub fn read_be32(bytes: &[u8], at: usize) -> (value: u32)
    requires
        at + 4 <= bytes@.len(),
    ensures
        value == be32(bytes@, at as int),
{
    assert(bytes.len() == bytes@.len());
    read_be16(bytes, at) as u32 * 0x1_0000 + read_be16(bytes, at + 2) as u32
}

pub fn read_be64(bytes: &[u8], at: usize) -> (value: u64)
    requires
        at + 8 <= bytes@.len(),
    ensures
        value == be64(bytes@, at as int),
{
    assert(bytes.len() == bytes@.len());
    read_be32(bytes, at) as u64 * 0x1_0000_0000 + read_be32(bytes, at + 4) as u64
}

pub fn read_le16(bytes: &[u8], at: usize) -> (value: u16)
    requires
        at + 2 <= bytes@.len(),
    ensures
        value == le16(bytes@, at as int),
{
    bytes[at] as u16 + bytes[at + 1] as u16 * 0x100
}

pub fn read_le32(bytes: &[u8], at: usize) -> (value: u32)
    requires
        at + 4 <= bytes@.len(),
    ensures
        value == le32(bytes@, at as int),
{
    assert(bytes.len() == bytes@.len());
    read_le16(bytes, at) as u32 + read_le16(bytes, at + 2) as u32 * 0x1_0000
}

pub fn read_le64(bytes: &[u8], at: usize) -> (value: u64)
    requires
        at + 8 <= bytes@.len(),
    ensures
        value == le64(bytes@, at as int),
{
    assert(bytes.len() == bytes@.len());
    read_le32(bytes, at) as u64 + read_le32(bytes, at + 4) as u64 * 0x1_0000_0000
}

pub fn is_mark4(bytes: &[u8], at: usize, a: u8, b: u8, c: u8, d: u8) -> (yes: bool)
    requires
        at + 4 <= bytes@.len(),
    ensures
        yes == mark4(bytes@, at as int, a, b, c, d),
{
    bytes[at] == a && bytes[at + 1] == b && bytes[at + 2] == c && bytes[at + 3] == d
}

pub fn is_mark3(bytes: &[u8], at: usize, a: u8, b: u8, c: u8) -> (yes: bool)
    requires
        at + 3 <= bytes@.len(),
    ensures
        yes == mark3(bytes@, at as int, a, b, c),
{
    bytes[at] == a && bytes[at + 1] == b && bytes[at + 2] == c
}

/// A copy of part of a run of bytes.
pub fn copy_between(bytes: &[u8], start: usize, end: usize) -> (out: Vec<u8>)
    requires
        start <= end <= bytes@.len(),
    ensures
        out@ == bytes@.subrange(start as int, end as int),
{
    let mut out: Vec<u8> = Vec::new();
    let mut i: usize = start;
    while i < end
        invariant
            start <= i <= end <= bytes@.len(),
            out@ == bytes@.subrange(start as int, i as int),
        decreases end - i,
    {
        out.push(bytes[i]);
        i += 1;
        assert(out@ =~= bytes@.subrange(start as int, i as int));
    }
    out
}

} // verus!
