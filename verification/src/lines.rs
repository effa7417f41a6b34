//! Reading spike rows out of text lines.

use vstd::prelude::*;
use vstd::utf8::{is_ascii_chars, is_ascii_chars_encode_utf8};

verus! {

/// Turns a line of decimal digit characters into their numeric values:
/// `"0110"` becomes `[0, 1, 1, 0]`.
pub fn convert_line_into_u8(line: String) -> (r: Vec<u8>)
    requires
        forall|i: int| 0 <= i < line@.len() ==> '0' <= #[trigger] line@[i] <= '9',
    ensures
        r@.len() == line@.len(),
        forall|i: int|
            0 <= i < line@.len() ==> r@[i] == (#[trigger] line@[i]) as u8 - 48,
{
    let s = line.as_str();
    proof {
        assert(is_ascii_chars(s@));
        is_ascii_chars_encode_utf8(s@);
    }
    let bytes = s.as_bytes();
    let mut r: Vec<u8> = Vec::new();
    let mut i: usize = 0;
    while i < bytes.len()
        invariant
            0 <= i <= line@.len(),
            bytes@.len() == line@.len(),
            forall|j: int| 0 <= j < line@.len() ==> bytes@[j] == (#[trigger] line@[j]) as u8,
            r@.len() == i,
            forall|j: int| 0 <= j < i ==> r@[j] == (#[trigger] line@[j]) as u8 - 48,
        decreases bytes@.len() - i,
    {
        r.push(bytes[i] - 48);
        i = i + 1;
    }
    r
}

} // verus!
