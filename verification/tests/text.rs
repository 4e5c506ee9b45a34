use prefix_calc::arith::apply_operator;
use prefix_calc::chars::{is_whitespace, to_digit};
use prefix_calc::cursor::Cursor;
use prefix_calc::error::ParseError;
use prefix_calc::number::to_decimal;

#[test]
fn whitespace_is_the_unicode_class() {
    let mut code: u32 = 0;
    while code <= 0x10ffff {
        if let Some(c) = char::from_u32(code) {
            assert_eq!(is_whitespace(c), c.is_whitespace(), "U+{:04X}", code);
        }
        code += 1;
    }
}

#[test]
fn digits_are_the_ascii_digits() {
    let mut code: u32 = 0;
    while code <= 0x10ffff {
        if let Some(c) = char::from_u32(code) {
            assert_eq!(to_digit(c), c.to_digit(10).map(|d| d as i32), "U+{:04X}", code);
        }
        code += 1;
    }
}

#[test]
fn decimal_form() {
    assert_eq!(to_decimal(0), "0");
    assert_eq!(to_decimal(7), "7");
    assert_eq!(to_decimal(10), "10");
    assert_eq!(to_decimal(65536), "65536");
    assert_eq!(to_decimal(-1), "-1");
    assert_eq!(to_decimal(-120), "-120");
    assert_eq!(to_decimal(i32::MAX), "2147483647");
    assert_eq!(to_decimal(i32::MIN), "-2147483648");
    let mut n: i32 = -5000;
    while n <= 5000 {
        assert_eq!(to_decimal(n), n.to_string());
        n += 1;
    }
}

#[test]
fn operators() {
    assert_eq!(apply_operator('+', 2, 3), Ok(5));
    assert_eq!(apply_operator('-', 2, 3), Ok(-1));
    assert_eq!(apply_operator('*', -2, 3), Ok(-6));
    assert_eq!(apply_operator('/', 7, 2), Ok(3));
    assert_eq!(apply_operator('/', -7, 2), Ok(-3));
    assert_eq!(apply_operator('/', 7, -2), Ok(-3));
    assert_eq!(apply_operator('/', -7, -2), Ok(3));
    assert_eq!(apply_operator('/', i32::MIN, -1), Ok(i32::MIN));
    assert_eq!(apply_operator('/', 1, 0), Err(ParseError::DivisionByZero));
    assert_eq!(apply_operator('+', i32::MAX, 1), Ok(i32::MIN));
    assert_eq!(apply_operator('-', i32::MIN, 1), Ok(i32::MAX));
    assert_eq!(apply_operator('*', i32::MAX, 2), Ok(-2));
}

#[test]
fn cursor_moves_forward() {
    let mut chars = Cursor::new("aé");
    assert_eq!(chars.peek(), Some('a'));
    assert_eq!(chars.peek(), Some('a'));
    assert_eq!(chars.next(), Some('a'));
    assert_eq!(chars.next(), Some('é'));
    assert_eq!(chars.peek(), None);
    assert_eq!(chars.next(), None);
    assert_eq!(chars.next(), None);
}
