//! Text as sequences of characters: trimming, numbers and the encodings tags come in.

use vstd::prelude::*;
use vstd::utf8;

verus! {

/// `String::push` puts the character after the text that is there.
pub assume_specification[ std::string::String::push ](s: &mut std::string::String, letter: char)
    ensures
        final(s)@ == old(s)@.push(letter),
;

/// Text that std's Unicode tables spell in lower case, as `str::to_lowercase` returns it.
pub uninterp spec fn lowercase(text: Seq<char>) -> Seq<char>;

/// Calls `str::to_lowercase`. The claim is that the result depends on the text alone, and that
/// it is empty where the text is and nowhere else, each character becoming one or more. Which
/// those are is not stated.
#[verifier::external_body]
pub(crate) fn to_lowercase(text: &str) -> (out: String)
    ensures
        out@ == lowercase(text@),
        out@.len() == 0 <==> text@.len() == 0,
{
    text.to_lowercase()
}

/// A text in double quotes, with the characters that would be mistaken inside them escaped, as
/// std's `Debug` for `str` writes it.
pub uninterp spec fn quoted(text: Seq<char>) -> Seq<char>;

/// Calls `format!` with the `{:?}` form of `str`. The claim is that the result depends on the
/// text alone. Which characters are escaped, and how, is not stated.
#[verifier::external_body]
pub(crate) fn in_quotes(text: &str) -> (out: String)
    ensures
        out@ == quoted(text@),
{
    format!("{text:?}")
}

/// Bytes read as UTF-8 with everything invalid replaced, as `String::from_utf8_lossy` returns
/// it.
pub uninterp spec fn utf8_lossy(bytes: Seq<u8>) -> Seq<char>;

/// Calls `String::from_utf8_lossy`. The claim is that the result depends on the bytes alone,
/// and that bytes which are valid UTF-8 come out as the text they encode.
#[verifier::external_body]
pub(crate) fn from_utf8_lossy(bytes: &[u8]) -> (out: String)
    ensures
        out@ == utf8_lossy(bytes@),
        utf8::valid_utf8(bytes@) ==> out@ == utf8::decode_utf8(bytes@),
{
    String::from_utf8_lossy(bytes).into_owned()
}

/// Calls `core::str::from_utf8`. The claim is that it gives the text that valid UTF-8 encodes,
/// and nothing for any other bytes.
#[verifier::external_body]
pub(crate) fn from_utf8(bytes: &[u8]) -> (out: Option<&str>)
    ensures
        match out {
            Some(text) => utf8::valid_utf8(bytes@) && text@ == utf8::decode_utf8(bytes@),
            None => !utf8::valid_utf8(bytes@),
        },
{
    core::str::from_utf8(bytes).ok()
}

/// What stands in for a code unit that encodes nothing.
pub const REPLACEMENT: char = '\u{FFFD}';

/// UTF-16 code units as text. A surrogate without its partner becomes the replacement
/// character.
pub open spec fn utf16_text(units: Seq<u16>) -> Seq<char>
    decreases units.len(),
{
    if units.len() == 0 {
        Seq::empty()
    } else if !(0xD800 <= units[0] < 0xE000) {
        seq![units[0] as char] + utf16_text(units.skip(1))
    } else if units[0] < 0xDC00 && units.len() > 1 && 0xDC00 <= units[1] < 0xE000 {
        seq![(0x1_0000 + (units[0] - 0xD800) * 0x400 + (units[1] - 0xDC00)) as char] + utf16_text(
            units.skip(2),
        )
    } else {
        seq![REPLACEMENT] + utf16_text(units.skip(1))
    }
}

/// Calls `String::from_utf16_lossy`. The claim is that surrogate pairs are joined, that each
/// surrogate without its partner becomes the replacement character, and that every other unit
/// is the character of its own number.
#[verifier::external_body]
pub(crate) fn from_utf16_lossy(units: &Vec<u16>) -> (out: String)
    ensures
        out@ == utf16_text(units@),
{
    String::from_utf16_lossy(units)
}

/// The characters of a text, one by one.
pub fn chars_of(text: &str) -> (chars: Vec<char>)
    ensures
        chars@ == text@,
{
    let mut chars: Vec<char> = Vec::new();
    for letter in it: text.chars()
        invariant
            chars@ == it.seq().take(it.index() as int),
            it.seq() == text@,
    {
        chars.push(letter);
    }
    assert(chars@ =~= text@);
    chars
}

/// Part of a run of characters as text.
pub fn text_between(chars: &Vec<char>, start: usize, end: usize) -> (text: String)
    requires
        start <= end <= chars@.len(),
    ensures
        text@ == chars@.subrange(start as int, end as int),
{
    let mut text: String = String::new();
    let mut i: usize = start;
    while i < end
        invariant
            start <= i <= end <= chars@.len(),
            text@ == chars@.subrange(start as int, i as int),
        decreases end - i,
    {
        text.push(chars[i]);
        i += 1;
        assert(text@ =~= chars@.subrange(start as int, i as int));
    }
    text
}

/// A text put together from characters.
pub fn text_from(chars: &Vec<char>) -> (text: String)
    ensures
        text@ == chars@,
{
    assert(chars@.subrange(0, chars@.len() as int) =~= chars@);
    text_between(chars, 0, chars.len())
}

/// A copy of a text.
pub fn owned(text: &str) -> (out: String)
    ensures
        out@ == text@,
{
    text.to_owned()
}

/// A copy of a text that may be missing.
pub fn owned_option(text: &Option<String>) -> (out: Option<String>)
    ensures
        option_view(out) == option_view(*text),
{
    match text {
        Some(text) => Some(owned(text.as_str())),
        None => None,
    }
}

/// A text that may be missing, as characters.
pub open spec fn option_view(text: Option<String>) -> Option<Seq<char>> {
    match text {
        Some(text) => Some(text@),
        None => None,
    }
}

/// The characters Unicode counts as white space.
pub open spec fn is_space(letter: char) -> bool {
    let code = letter as int;
    ||| 0x09 <= code <= 0x0D
    ||| code == 0x20
    ||| code == 0x85
    ||| code == 0xA0
    ||| code == 0x1680
    ||| 0x2000 <= code <= 0x200A
    ||| code == 0x2028
    ||| code == 0x2029
    ||| code == 0x202F
    ||| code == 0x205F
    ||| code == 0x3000
}

fn space(letter: char) -> (yes: bool)
    ensures
        yes == is_space(letter),
{
    let code: u32 = letter as u32;
    (0x09 <= code && code <= 0x0D) || code == 0x20 || code == 0x85 || code == 0xA0 || code == 0x1680
        || (0x2000 <= code && code <= 0x200A) || code == 0x2028 || code == 0x2029 || code == 0x202F
        || code == 0x205F || code == 0x3000
}

/// A text without the white space it starts with.
pub open spec fn trimmed_start(text: Seq<char>) -> Seq<char>
    decreases text.len(),
{
    if text.len() > 0 && is_space(text[0]) {
        trimmed_start(text.skip(1))
    } else {
        text
    }
}

/// A text without the white space it ends with.
pub open spec fn trimmed_end(text: Seq<char>) -> Seq<char>
    decreases text.len(),
{
    if text.len() > 0 && is_space(text[text.len() - 1]) {
        trimmed_end(text.take(text.len() - 1))
    } else {
        text
    }
}

/// A text without the white space around it.
pub open spec fn trimmed(text: Seq<char>) -> Seq<char> {
    trimmed_end(trimmed_start(text))
}

/// White space and nothing else.
pub open spec fn all_space(text: Seq<char>) -> bool {
    forall|i: int| 0 <= i < text.len() ==> is_space(#[trigger] text[i])
}

proof fn lemma_trimmed_start(before: Seq<char>, text: Seq<char>)
    requires
        all_space(before),
    ensures
        trimmed_start(before + text) == trimmed_start(text),
    decreases before.len(),
{
    if before.len() == 0 {
        assert(before + text =~= text);
    } else {
        assert((before + text)[0] == before[0]);
        assert((before + text).skip(1) =~= before.skip(1) + text);
        lemma_trimmed_start(before.skip(1), text);
    }
}

proof fn lemma_trimmed_end(text: Seq<char>, after: Seq<char>)
    requires
        all_space(after),
    ensures
        trimmed_end(text + after) == trimmed_end(text),
    decreases after.len(),
{
    if after.len() == 0 {
        assert(text + after =~= text);
    } else {
        let whole = text + after;
        assert(whole[whole.len() - 1] == after.last());
        assert(whole.take(whole.len() - 1) =~= text + after.drop_last());
        lemma_trimmed_end(text, after.drop_last());
    }
}

proof fn lemma_trimmed_kept(text: Seq<char>, after: Seq<char>)
    ensures
        trimmed_start(text + after) == (if trimmed_start(text).len() > 0 {
            trimmed_start(text) + after
        } else {
            trimmed_start(after)
        }),
    decreases text.len(),
{
    if text.len() == 0 {
        assert(text + after =~= after);
    } else if is_space(text[0]) {
        assert((text + after).skip(1) =~= text.skip(1) + after);
        lemma_trimmed_kept(text.skip(1), after);
    }
}

/// White space around a text is trimmed away, whatever it is.
pub proof fn lemma_trimmed(before: Seq<char>, text: Seq<char>, after: Seq<char>)
    requires
        all_space(before),
        all_space(after),
    ensures
        trimmed(before + text + after) == trimmed(text),
{
    assert(before + text + after =~= before + (text + after));
    lemma_trimmed_start(before, text + after);
    lemma_trimmed_kept(text, after);
    if trimmed_start(text).len() > 0 {
        lemma_trimmed_end(trimmed_start(text), after);
    } else {
        lemma_trimmed_start(after, Seq::empty());
        assert(after + Seq::<char>::empty() =~= after);
        assert(trimmed_start(text) =~= Seq::empty());
    }
}

/// Part of a run of characters without the white space around it.
pub fn trim_between(chars: &Vec<char>, start: usize, end: usize) -> (text: String)
    requires
        start <= end <= chars@.len(),
    ensures
        text@ == trimmed(chars@.subrange(start as int, end as int)),
{
    let ghost whole = chars@.subrange(start as int, end as int);
    let mut from: usize = start;
    while from < end && space(chars[from])
        invariant
            start <= from <= end <= chars@.len(),
            whole == chars@.subrange(start as int, end as int),
            trimmed_start(whole) == trimmed_start(chars@.subrange(from as int, end as int)),
        decreases end - from,
    {
        assert(chars@.subrange(from as int, end as int).skip(1) =~= chars@.subrange(
            from + 1,
            end as int,
        ));
        from += 1;
    }
    let ghost rest = chars@.subrange(from as int, end as int);
    assert(trimmed_start(whole) == rest);
    let mut to: usize = end;
    while from < to && space(chars[to - 1])
        invariant
            start <= from <= to <= end <= chars@.len(),
            rest == chars@.subrange(from as int, end as int),
            trimmed_end(rest) == trimmed_end(chars@.subrange(from as int, to as int)),
        decreases to - from,
    {
        let ghost now = chars@.subrange(from as int, to as int);
        assert(now.take(now.len() - 1) =~= chars@.subrange(from as int, to - 1));
        to -= 1;
    }
    text_between(chars, from, to)
}

/// A text without the white space around it.
pub fn trim(text: &str) -> (out: String)
    ensures
        out@ == trimmed(text@),
{
    let chars: Vec<char> = chars_of(text);
    assert(chars@.subrange(0, chars@.len() as int) =~= text@);
    trim_between(&chars, 0, chars.len())
}

/// A letter of ASCII in lower case; any other character as it is.
pub open spec fn ascii_lower(letter: char) -> char {
    if 'A' <= letter <= 'Z' {
        (letter as int + 32) as char
    } else {
        letter
    }
}

/// Two texts that differ at most in the case of their ASCII letters.
pub open spec fn same_letters(a: Seq<char>, b: Seq<char>) -> bool {
    &&& a.len() == b.len()
    &&& forall|i: int| 0 <= i < a.len() ==> ascii_lower(#[trigger] a[i]) == ascii_lower(b[i])
}

fn lower(letter: char) -> (out: char)
    ensures
        out == ascii_lower(letter),
{
    if 'A' <= letter && letter <= 'Z' {
        ((letter as u8) + 32) as char
    } else {
        letter
    }
}

/// Whether two texts differ at most in the case of their ASCII letters.
pub fn eq_ignore_ascii_case(a: &str, b: &str) -> (same: bool)
    ensures
        same == same_letters(a@, b@),
{
    let left: Vec<char> = chars_of(a);
    let right: Vec<char> = chars_of(b);
    if left.len() != right.len() {
        return false;
    }
    let mut i: usize = 0;
    while i < left.len()
        invariant
            i <= left@.len() == right@.len(),
            left@ == a@,
            right@ == b@,
            forall|k: int| 0 <= k < i ==> ascii_lower(#[trigger] a@[k]) == ascii_lower(b@[k]),
        decreases left@.len() - i,
    {
        if lower(left[i]) != lower(right[i]) {
            assert(ascii_lower(a@[i as int]) != ascii_lower(b@[i as int]));
            return false;
        }
        i += 1;
    }
    true
}

/// The digit that stands for a number below ten.
pub open spec fn digit(value: int) -> char {
    (48 + value) as char
}

/// A number in decimal.
pub open spec fn decimal(value: nat) -> Seq<char>
    decreases value,
{
    if value < 10 {
        seq![digit(value as int)]
    } else {
        decimal(value / 10).push(digit((value % 10) as int))
    }
}

fn push_decimal(text: &mut String, value: u64)
    ensures
        final(text)@ == old(text)@ + decimal(value as nat),
    decreases value,
{
    if value >= 10 {
        push_decimal(text, value / 10);
    }
    text.push(((value % 10) as u8 + 48) as char);
    assert(text@ =~= old(text)@ + decimal(value as nat));
}

/// A number in decimal.
pub fn decimal_of(value: u64) -> (text: String)
    ensures
        text@ == decimal(value as nat),
{
    let mut text: String = String::new();
    push_decimal(&mut text, value);
    assert(text@ =~= decimal(value as nat));
    text
}

pub open spec fn is_digit(letter: char) -> bool {
    '0' <= letter <= '9'
}

pub open spec fn all_digits(text: Seq<char>) -> bool {
    forall|i: int| 0 <= i < text.len() ==> is_digit(#[trigger] text[i])
}

/// The number that a run of digits spells.
pub open spec fn number(text: Seq<char>) -> nat
    decreases text.len(),
{
    if text.len() == 0 {
        0
    } else {
        (number(text.take(text.len() - 1)) * 10 + (text[text.len() - 1] as int - 48)) as nat
    }
}

/// A text that spells an unsigned number of at most `max`: digits, with or without a plus
/// sign ahead of them.
pub open spec fn parsed(text: Seq<char>, max: int) -> Option<nat> {
    let digits = if text.len() > 0 && text[0] == '+' {
        text.skip(1)
    } else {
        text
    };
    if digits.len() > 0 && all_digits(digits) && number(digits) <= max {
        Some(number(digits))
    } else {
        None
    }
}

proof fn lemma_number_grows(text: Seq<char>, n: int)
    requires
        all_digits(text),
        0 <= n <= text.len(),
    ensures
        number(text.take(n)) <= number(text),
    decreases text.len(),
{
    if n == text.len() {
        assert(text.take(n) =~= text);
    } else {
        let shorter = text.take(text.len() - 1);
        assert(all_digits(shorter)) by {
            assert forall|i: int| 0 <= i < shorter.len() implies is_digit(#[trigger] shorter[i]) by {
                assert(shorter[i] == text[i]);
            }
        }
        lemma_number_grows(shorter, n);
        assert(shorter.take(n) =~= text.take(n));
        assert(is_digit(text[text.len() - 1]));
    }
}

/// The number a text spells, when it spells one of at most `max`.
fn parse_up_to(text: &str, max: u64) -> (out: Option<u64>)
    ensures
        match parsed(text@, max as int) {
            Some(value) => out == Some(value as u64) && value <= u64::MAX,
            None => out is None,
        },
{
    let chars: Vec<char> = chars_of(text);
    let start: usize = if chars.len() > 0 && chars[0] == '+' {
        1
    } else {
        0
    };
    let ghost digits = text@.skip(start as int);
    assert(digits =~= (if text@.len() > 0 && text@[0] == '+' {
        text@.skip(1)
    } else {
        text@
    }));
    if start == chars.len() {
        return None;
    }
    let mut value: u64 = 0;
    let mut i: usize = start;
    while i < chars.len()
        invariant
            start <= i <= chars@.len(),
            chars@ == text@,
            start <= 1,
            digits == text@.skip(start as int),
            digits =~= (if text@.len() > 0 && text@[0] == '+' {
                text@.skip(1)
            } else {
                text@
            }),
            forall|k: int| 0 <= k < i - start ==> is_digit(#[trigger] digits[k]),
            value == number(digits.take(i - start)),
            value <= max,
        decreases chars@.len() - i,
    {
        let letter: char = chars[i];
        assert(letter == digits[i - start]);
        if letter < '0' || letter > '9' {
            assert(!is_digit(digits[i - start]));
            return None;
        }
        let wide: u128 = value as u128 * 10 + (letter as u8 - 48) as u128;
        proof {
            let now = digits.take(i - start + 1);
            assert(now.take(now.len() - 1) =~= digits.take(i - start));
            assert(wide == number(now));
            if wide > max && all_digits(digits) {
                lemma_number_grows(digits, i - start + 1);
            }
        }
        if wide > max as u128 {
            return None;
        }
        value = wide as u64;
        i += 1;
    }
    assert(digits.take(i - start) =~= digits);
    Some(value)
}

pub fn parse_u64(text: &str) -> (out: Option<u64>)
    ensures
        match parsed(text@, u64::MAX as int) {
            Some(value) => out == Some(value as u64) && value <= u64::MAX,
            None => out is None,
        },
{
    parse_up_to(text, u64::MAX)
}

pub fn parse_u32(text: &str) -> (out: Option<u32>)
    ensures
        match parsed(text@, u32::MAX as int) {
            Some(value) => out == Some(value as u32) && value <= u32::MAX,
            None => out is None,
        },
{
    match parse_up_to(text, u32::MAX as u64) {
        Some(value) => Some(value as u32),
        None => None,
    }
}

/// Bytes read as Latin-1: each byte is the character of its own number.
pub open spec fn latin1(bytes: Seq<u8>) -> Seq<char> {
    bytes.map_values(|byte: u8| byte as char)
}

/// Part of a run of bytes, as the characters Latin-1 gives them.
pub fn latin1_chars(bytes: &[u8], start: usize, end: usize) -> (chars: Vec<char>)
    requires
        start <= end <= bytes@.len(),
    ensures
        chars@ == latin1(bytes@.subrange(start as int, end as int)),
{
    let mut chars: Vec<char> = Vec::new();
    let mut i: usize = start;
    while i < end
        invariant
            start <= i <= end <= bytes@.len(),
            chars@ == latin1(bytes@.subrange(start as int, i as int)),
        decreases end - i,
    {
        chars.push(bytes[i] as char);
        i += 1;
        assert(chars@ =~= latin1(bytes@.subrange(start as int, i as int)));
    }
    chars
}

/// A number read back from its own decimal is the number.
pub proof fn decimal_reads_back(value: nat)
    ensures
        all_digits(decimal(value)),
        decimal(value).len() > 0,
        number(decimal(value)) == value,
        parsed(decimal(value), value as int) == Some(value),
    decreases value,
{
    let text = decimal(value);
    if value >= 10 {
        decimal_reads_back(value / 10);
        let shorter = decimal(value / 10);
        assert(text.take(text.len() - 1) =~= shorter);
        assert forall|i: int| 0 <= i < text.len() implies is_digit(#[trigger] text[i]) by {
            if i < shorter.len() {
                assert(text[i] == shorter[i]);
            }
        }
    } else {
        assert(text.take(text.len() - 1) =~= Seq::empty());
        assert(number(Seq::<char>::empty()) == 0);
        assert(text[text.len() - 1] as int - 48 == value);
    }
    assert(is_digit(text[0]));
}

/// Where `letter` first stands at or after `from`, or where the text ends.
pub open spec fn letter_at(text: Seq<char>, letter: char, from: int) -> int
    decreases text.len() - from,
{
    if from >= text.len() || text[from] == letter {
        from
    } else {
        letter_at(text, letter, from + 1)
    }
}

/// The place found lies in the rest of the text.
pub proof fn lemma_letter_at(text: Seq<char>, letter: char, from: int)
    ensures
        from <= text.len() ==> from <= letter_at(text, letter, from) <= text.len(),
        from > text.len() ==> letter_at(text, letter, from) == from,
    decreases text.len() - from,
{
    if from < text.len() && text[from] != letter {
        lemma_letter_at(text, letter, from + 1);
    }
}

/// Where `letter` first stands at or after `from`, or where the text ends.
pub fn find_letter(chars: &Vec<char>, letter: char, from: usize) -> (at: usize)
    requires
        from <= chars@.len(),
    ensures
        at == letter_at(chars@, letter, from as int),
        from <= at <= chars@.len(),
{
    let mut at: usize = from;
    while at < chars.len() && chars[at] != letter
        invariant
            from <= at <= chars@.len(),
            letter_at(chars@, letter, from as int) == letter_at(chars@, letter, at as int),
        decreases chars@.len() - at,
    {
        at += 1;
    }
    at
}

/// Whether `a` comes before `b`, character by character from `from` on.
pub open spec fn before(a: Seq<char>, b: Seq<char>, from: int) -> bool
    decreases b.len() - from,
{
    if from >= b.len() {
        false
    } else if from >= a.len() {
        true
    } else if a[from] != b[from] {
        a[from] < b[from]
    } else {
        before(a, b, from + 1)
    }
}

/// Whether one text comes before another in the order of their characters.
pub fn comes_before(a: &str, b: &str) -> (yes: bool)
    ensures
        yes == before(a@, b@, 0),
{
    let left: Vec<char> = chars_of(a);
    let right: Vec<char> = chars_of(b);
    let mut i: usize = 0;
    while i < right.len()
        invariant
            i <= right@.len(),
            left@ == a@,
            right@ == b@,
            before(a@, b@, 0) == before(a@, b@, i as int),
        decreases right@.len() - i,
    {
        if i >= left.len() {
            return true;
        }
        if left[i] != right[i] {
            return left[i] < right[i];
        }
        i += 1;
    }
    false
}

/// Of two texts at most one comes before the other, and if neither does they are the same.
pub proof fn lemma_order(a: Seq<char>, b: Seq<char>, from: int)
    requires
        0 <= from <= a.len(),
        from <= b.len(),
        forall|i: int| 0 <= i < from ==> a[i] == b[i],
    ensures
        !(before(a, b, from) && before(b, a, from)),
        before(a, b, from) || before(b, a, from) || a == b,
    decreases b.len() - from,
{
    if from < b.len() && from < a.len() && a[from] == b[from] {
        lemma_order(a, b, from + 1);
    } else if from >= b.len() && from >= a.len() {
        assert(a =~= b);
    }
}

/// The order is transitive.
pub proof fn lemma_order_chain(a: Seq<char>, b: Seq<char>, c: Seq<char>, from: int)
    requires
        0 <= from,
        before(a, b, from),
        before(b, c, from),
    ensures
        before(a, c, from),
    decreases c.len() - from,
{
    if from < a.len() && a[from] == b[from] && b[from] == c[from] {
        lemma_order_chain(a, b, c, from + 1);
    }
}

/// A text with a number after it.
pub fn with_number(text: &str, value: u64) -> (out: String)
    ensures
        out@ == text@ + decimal(value as nat),
{
    let mut out: String = owned(text);
    push_decimal(&mut out, value);
    out
}

/// A number as decimal digits, with a minus sign where it is negative.
pub open spec fn signed_decimal(value: int) -> Seq<char> {
    if value < 0 {
        "-"@ + decimal((-value) as nat)
    } else {
        decimal(value as nat)
    }
}

/// A number as decimal digits, with a minus sign where it is negative.
pub fn signed_decimal_of(value: i32) -> (text: String)
    ensures
        text@ == signed_decimal(value as int),
{
    let wide: i64 = value as i64;
    if wide < 0 {
        with_number("-", (-wide) as u64)
    } else {
        decimal_of(wide as u64)
    }
}

/// `part` stands in `text` at `at`.
pub open spec fn stands_at(text: Seq<char>, part: Seq<char>, at: int) -> bool {
    at + part.len() <= text.len() && text.subrange(at, at + part.len()) == part
}

/// `part` stands somewhere in `text`.
pub open spec fn holds(text: Seq<char>, part: Seq<char>) -> bool {
    exists|at: int| 0 <= at && #[trigger] stands_at(text, part, at)
}

/// Whether `part` stands somewhere in `text`.
pub fn contains(text: &str, part: &str) -> (yes: bool)
    ensures
        yes == holds(text@, part@),
{
    let whole: Vec<char> = chars_of(text);
    let wanted: Vec<char> = chars_of(part);
    if wanted.len() > whole.len() {
        return false;
    }
    let len: usize = whole.len();
    let last: usize = len - wanted.len();
    let mut at: usize = 0;
    loop
        invariant
            whole@ == text@,
            wanted@ == part@,
            len == text@.len(),
            last + part@.len() == text@.len(),
            at <= last,
            forall|k: int| 0 <= k < at ==> !#[trigger] stands_at(text@, part@, k),
        decreases last - at,
    {
        let mut i: usize = 0;
        while i < wanted.len() && whole[at + i] == wanted[i]
            invariant
                whole@ == text@,
                wanted@ == part@,
                len == text@.len(),
                last + part@.len() == text@.len(),
                at <= last,
                i <= part@.len(),
                forall|k: int| 0 <= k < i ==> text@[at + k] == #[trigger] part@[k],
            decreases part@.len() - i,
        {
            i += 1;
        }
        if i == wanted.len() {
            assert(text@.subrange(at as int, at + part@.len()) =~= part@);
            assert(stands_at(text@, part@, at as int));
            return true;
        }
        proof {
            if stands_at(text@, part@, at as int) {
                let here = text@.subrange(at as int, at + part@.len());
                assert(here[i as int] == part@[i as int]);
            }
        }
        if at == last {
            return false;
        }
        at += 1;
    }
}

/// Texts with commas between them.
pub open spec fn listing(texts: Seq<Seq<char>>) -> Seq<char>
    decreases texts.len(),
{
    if texts.len() == 0 {
        Seq::empty()
    } else if texts.len() == 1 {
        texts[0]
    } else {
        listing(texts.drop_last()) + ", "@ + texts.last()
    }
}

/// A list of texts as characters.
pub open spec fn views(texts: Seq<String>) -> Seq<Seq<char>> {
    texts.map_values(|text: String| text@)
}

/// Texts with commas between them.
pub fn listed(texts: &Vec<String>) -> (out: String)
    ensures
        out@ == listing(views(texts@)),
{
    let mut out: String = String::new();
    let ghost all = views(texts@);
    let mut i: usize = 0;
    assert(all.subrange(0, 0) =~= Seq::empty());
    while i < texts.len()
        invariant
            i <= texts@.len(),
            all == views(texts@),
            out@ == listing(all.subrange(0, i as int)),
        decreases texts@.len() - i,
    {
        let ghost before = out@;
        if i > 0 {
            out.append(", ");
        }
        out.append(texts[i].as_str());
        i += 1;
        proof {
            let now = all.subrange(0, i as int);
            assert(now.drop_last() =~= all.subrange(0, i - 1));
            assert(now.last() == texts@[i - 1]@);
            if i == 1 {
                assert(out@ =~= now[0]);
            }
        }
    }
    assert(all.subrange(0, all.len() as int) =~= all);
    out
}

/// A word of small letters of ASCII.
pub open spec fn is_small(word: Seq<char>) -> bool {
    forall|i: int| 0 <= i < word.len() ==> 'a' <= #[trigger] word[i] <= 'z'
}

/// A word of small letters, with any of them made capital.
pub open spec fn in_either_case(text: Seq<char>, word: Seq<char>) -> bool {
    &&& text.len() == word.len()
    &&& forall|i: int|
        0 <= i < text.len() ==> (#[trigger] text[i] == word[i] || text[i] as int + 32
            == word[i] as int)
}

/// A text is the same as a word of small letters where it is that word in letters of either case,
/// and only there.
pub proof fn the_same_letters_are_those_of_either_case(text: Seq<char>, word: Seq<char>)
    requires
        is_small(word),
    ensures
        same_letters(text, word) == in_either_case(text, word),
{
    if same_letters(text, word) {
        assert forall|i: int| 0 <= i < text.len() implies (#[trigger] text[i] == word[i]
            || text[i] as int + 32 == word[i] as int) by {
            assert('a' <= word[i] <= 'z');
            assert(ascii_lower(text[i]) == ascii_lower(word[i]));
            assert(ascii_lower(word[i]) == word[i]);
            if 'A' <= text[i] <= 'Z' {
                assert(ascii_lower(text[i]) as int == text[i] as int + 32);
            }
        }
    }
    if in_either_case(text, word) {
        assert forall|i: int| 0 <= i < text.len() implies ascii_lower(#[trigger] text[i])
            == ascii_lower(word[i]) by {
            assert('a' <= word[i] <= 'z');
            assert(ascii_lower(word[i]) == word[i]);
            if text[i] as int + 32 == word[i] as int {
                assert('A' <= text[i] <= 'Z');
                assert(ascii_lower(text[i]) as int == word[i] as int);
            }
        }
    }
}

/// What is left of a text once it is trimmed starts and ends with no white space, and nothing but
/// white space was taken off it.
pub proof fn trimming_takes_off_white_space_alone(text: Seq<char>) -> (parts: (
    Seq<char>,
    Seq<char>,
))
    ensures
        text == parts.0 + trimmed(text) + parts.1,
        all_space(parts.0),
        all_space(parts.1),
        trimmed(text).len() > 0 ==> !is_space(trimmed(text)[0]) && !is_space(trimmed(text).last()),
{
    let before = lemma_taken_off_the_start(text);
    let after = lemma_taken_off_the_end(trimmed_start(text));
    assert(text =~= before + trimmed(text) + after);
    let left = trimmed(text);
    if left.len() > 0 {
        assert(left[0] == trimmed_start(text)[0]);
    }
    (before, after)
}

proof fn lemma_taken_off_the_start(text: Seq<char>) -> (before: Seq<char>)
    ensures
        text == before + trimmed_start(text),
        all_space(before),
        trimmed_start(text).len() > 0 ==> !is_space(trimmed_start(text)[0]),
    decreases text.len(),
{
    if text.len() > 0 && is_space(text[0]) {
        let rest = lemma_taken_off_the_start(text.skip(1));
        let before = seq![text[0]] + rest;
        let left = trimmed_start(text);
        assert(text =~= seq![text[0]] + text.skip(1));
        assert(seq![text[0]] + (rest + left) =~= before + left);
        before
    } else {
        assert(text =~= Seq::empty() + text);
        Seq::empty()
    }
}

proof fn lemma_taken_off_the_end(text: Seq<char>) -> (after: Seq<char>)
    ensures
        text == trimmed_end(text) + after,
        all_space(after),
        trimmed_end(text).len() > 0 ==> !is_space(trimmed_end(text).last()),
    decreases text.len(),
{
    if text.len() > 0 && is_space(text[text.len() - 1]) {
        let rest = lemma_taken_off_the_end(text.take(text.len() - 1));
        let after = rest.push(text.last());
        let left = trimmed_end(text);
        assert(text =~= text.take(text.len() - 1).push(text.last()));
        assert((left + rest).push(text.last()) =~= left + after);
        after
    } else {
        assert(text =~= text + Seq::empty());
        Seq::empty()
    }
}

/// A text comes before what it starts and goes on, and before what differs from it first in a
/// later character.
pub proof fn a_text_comes_before_what_goes_on(common: Seq<char>, a: Seq<char>, b: Seq<char>)
    requires
        b.len() > 0,
        a.len() == 0 || a[0] < b[0],
    ensures
        before(common + a, common + b, 0),
        !before(common + b, common + a, 0),
{
    lemma_before_common(common, a, b, 0);
}

proof fn lemma_before_common(common: Seq<char>, a: Seq<char>, b: Seq<char>, from: int)
    requires
        0 <= from <= common.len(),
        b.len() > 0,
        a.len() == 0 || a[0] < b[0],
    ensures
        before(common + a, common + b, from),
        !before(common + b, common + a, from),
    decreases common.len() - from,
{
    let one = common + a;
    let two = common + b;
    if from < common.len() {
        assert(one[from] == common[from] && two[from] == common[from]);
        lemma_before_common(common, a, b, from + 1);
    } else {
        assert(two[from] == b[0]);
        if a.len() > 0 {
            assert(one[from] == a[0]);
        }
    }
}

/// A number below zero shows as a minus sign and the number above zero that it is the opposite of.
pub proof fn a_number_below_zero_shows_a_minus_sign(value: nat)
    requires
        value > 0,
    ensures
        signed_decimal(-(value as int)) == seq!['-'] + decimal(value),
        signed_decimal(value as int) == decimal(value),
{
    reveal_strlit("-");
    assert("-"@ =~= seq!['-']);
}

/// A list is its texts with a comma and a blank between each and the next, and nothing before the
/// first or behind the last.
pub proof fn a_list_has_commas_between_its_texts(texts: Seq<Seq<char>>, one: Seq<char>)
    ensures
        listing(texts.push(one)) == (if texts.len() == 0 {
            one
        } else {
            listing(texts) + seq![',', ' '] + one
        }),
{
    let more = texts.push(one);
    reveal_strlit(", ");
    assert(", "@ =~= seq![',', ' ']);
    assert(more.drop_last() =~= texts);
    assert(more.last() == one);
}

} // verus!
