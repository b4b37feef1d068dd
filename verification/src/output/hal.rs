//! Core Audio's status codes in words.

use crate::text;
use vstd::prelude::*;

verus! {

/// Byte `index` of a status, the highest first.
pub open spec fn status_byte(status: int, index: int) -> int {
    let code = status % 0x1_0000_0000;
    if index == 0 {
        code / 0x100_0000
    } else if index == 1 {
        code / 0x1_0000 % 256
    } else if index == 2 {
        code / 0x100 % 256
    } else {
        code % 256
    }
}

/// All four bytes of a status are printable ASCII.
pub open spec fn is_code(status: int) -> bool {
    forall|index: int| 0 <= index < 4 ==> 0x20 <= #[trigger] status_byte(status, index) < 0x7F
}

/// A status the way Core Audio documents it: a four character code when printable.
pub open spec fn status_words(status: int) -> Seq<char> {
    if is_code(status) {
        "'"@ + Seq::new(4, |index: int| status_byte(status, index) as char) + "' ("@
            + text::signed_decimal(status) + ")"@
    } else {
        text::signed_decimal(status)
    }
}

/// Render a status the way Core Audio documents it: a four character code when printable.
pub fn status_text(status: i32) -> (out: String)
    ensures
        out@ == status_words(status as int),
{
    let code: u64 = ((status as i64 + 0x1_0000_0000) % 0x1_0000_0000) as u64;
    let a: u8 = (code / 0x100_0000) as u8;
    let b: u8 = (code / 0x1_0000 % 256) as u8;
    let c: u8 = (code / 0x100 % 256) as u8;
    let d: u8 = (code % 256) as u8;
    assert(a == status_byte(status as int, 0));
    assert(b == status_byte(status as int, 1));
    assert(c == status_byte(status as int, 2));
    assert(d == status_byte(status as int, 3));
    if 0x20 <= a && a < 0x7F && 0x20 <= b && b < 0x7F && 0x20 <= c && c < 0x7F && 0x20 <= d && d
        < 0x7F {
        let mut out: String = text::owned("'");
        out.push(a as char);
        out.push(b as char);
        out.push(c as char);
        out.push(d as char);
        assert(out@ =~= "'"@ + Seq::new(
            4,
            |index: int| status_byte(status as int, index) as char,
        ));
        out.append("' (");
        out.append(text::signed_decimal_of(status).as_str());
        out.append(")");
        out
    } else {
        text::signed_decimal_of(status)
    }
}

} // verus!
