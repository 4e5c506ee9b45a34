//! Character classes of the language: whitespace and decimal digits.

use vstd::prelude::*;

verus! {

/// The characters that separate tokens: the code points with the Unicode
/// `White_Space` property.
pub open spec fn is_space(c: char) -> bool {
    let n = c as int;
    ||| 0x09 <= n <= 0x0d
    ||| n == 0x20
    ||| n == 0x85
    ||| n == 0xa0
    ||| n == 0x1680
    ||| 0x2000 <= n <= 0x200a
    ||| n == 0x2028
    ||| n == 0x2029
    ||| n == 0x202f
    ||| n == 0x205f
    ||| n == 0x3000
}

/// The decimal digits `0` to `9`.
pub open spec fn is_digit(c: char) -> bool {
    '0' <= c <= '9'
}

/// The number that a decimal digit stands for.
pub open spec fn digit_value(c: char) -> int {
    c as int - 0x30
}

/// The decimal digit that stands for `d`.
pub open spec fn digit_char(d: int) -> char {
    (d + 0x30) as char
}

/// Whether `c` separates tokens.
pub fn is_whitespace(c: char) -> (b: bool)
    ensures
        b == is_space(c),
{
    let n: u32 = c as u32;
    (0x09 <= n && n <= 0x0d) || n == 0x20 || n == 0x85 || n == 0xa0 || n == 0x1680 || (0x2000 <= n
        && n <= 0x200a) || n == 0x2028 || n == 0x2029 || n == 0x202f || n == 0x205f || n == 0x3000
}

/// The value of `c` as a decimal digit, or `None` where it is no digit.
pub fn to_digit(c: char) -> (d: Option<i32>)
    ensures
        d == (if is_digit(c) {
            Some(digit_value(c) as i32)
        } else {
            None::<i32>
        }),
        d matches Some(v) ==> 0 <= v <= 9,
{
    if '0' <= c && c <= '9' {
        let n: u32 = c as u32;
        Some((n - 0x30) as i32)
    } else {
        None
    }
}

} // verus!
