//! The interpreter: it scans, parses and evaluates in one pass over a cursor.

use vstd::prelude::*;
use vstd::string::StringExecFns;
use crate::arith::apply_operator;
use crate::chars::{digit_value, is_digit, is_whitespace, to_digit};
use crate::cursor::Cursor;
use crate::error::ParseError;
use crate::model::{
    after_significant, body_closes, body_len, has_significant, significant, space_run, spec_eval,
    spec_eval_string, spec_evaluate, spec_fn_apply, spec_gather,
};
use crate::number::{scan_digits, skip_digits, to_decimal};

verus! {

/// The bodies that a function store holds, as sequences of characters.
pub open spec fn bodies(store: Seq<String>) -> Seq<Seq<char>> {
    Seq::new(store.len(), |i: int| store[i]@)
}

/// Moves `chars` past any whitespace and consumes the first character that is
/// none. Fails with `Eof` where only whitespace is left; the input is then used
/// up.
pub fn extract_next_char(chars: &mut Cursor) -> (r: Result<char, ParseError>)
    ensures
        has_significant(old(chars)@) ==> {
            &&& r == Ok::<char, ParseError>(significant(old(chars)@))
            &&& final(chars)@ == after_significant(old(chars)@)
        },
        !has_significant(old(chars)@) ==> {
            &&& r == Err::<char, ParseError>(ParseError::Eof)
            &&& final(chars)@ == Seq::<char>::empty()
        },
        final(chars)@.len() <= old(chars)@.len(),
        r is Ok ==> final(chars)@.len() < old(chars)@.len(),
{
    let ghost mut skipped: int = 0;
    loop
        invariant
            0 <= skipped <= old(chars)@.len(),
            chars@ == old(chars)@.skip(skipped),
            space_run(old(chars)@) == skipped + space_run(chars@),
        decreases chars@.len(),
    {
        match chars.next() {
            Some(c) => {
                if !is_whitespace(c) {
                    assert(chars@ == old(chars)@.skip(skipped + 1));
                    return Ok(c);
                }
                proof {
                    assert(chars@ == old(chars)@.skip(skipped + 1));
                    skipped = skipped + 1;
                }
            },
            None => {
                assert(chars@ == Seq::<char>::empty());
                return Err(ParseError::Eof);
            },
        }
    }
}

/// The value of the digit `c`.
fn digit(c: char) -> (d: i32)
    requires
        is_digit(c),
    ensures
        d == digit_value(c),
{
    let n: u32 = c as u32;
    (n - 0x30) as i32
}

/// Scans a number whose first digit `c` has been consumed: folds `c` and every
/// digit that follows it at once into a decimal value, which wraps on overflow.
/// The scan stops in front of the first character that is no digit.
pub fn convert_to_numeric(c: char, chars: &mut Cursor) -> (value: i32)
    requires
        is_digit(c),
    ensures
        value == scan_digits(digit_value(c) as i32, old(chars)@),
        final(chars)@ == skip_digits(old(chars)@),
        final(chars)@.len() <= old(chars)@.len(),
{
    let mut value: i32 = digit(c);
    loop
        invariant
            scan_digits(value, chars@) == scan_digits(digit_value(c) as i32, old(chars)@),
            skip_digits(chars@) == skip_digits(old(chars)@),
            chars@.len() <= old(chars)@.len(),
        ensures
            value == scan_digits(digit_value(c) as i32, old(chars)@),
            chars@ == skip_digits(old(chars)@),
            chars@.len() <= old(chars)@.len(),
        decreases chars@.len(),
    {
        let d = match chars.peek() {
            Some(next) => to_digit(next),
            None => None,
        };
        match d {
            Some(d) => {
                value = value.wrapping_mul(10).wrapping_add(d);
                chars.next();
            },
            None => {
                break;
            },
        }
    }
    value
}

/// Reads a function's body, whose opening `fn[` has been consumed: the
/// characters up to the first `]`, taken as they are, are appended to the
/// store as one body, and the `]` is consumed. Fails with `Eof` where no `]`
/// comes; the store is then unchanged and the input used up.
pub fn fn_define(chars: &mut Cursor, vec: &mut Vec<String>) -> (r: Result<(), ParseError>)
    ensures
        body_closes(old(chars)@) ==> {
            &&& r == Ok::<(), ParseError>(())
            &&& final(chars)@ == old(chars)@.skip(body_len(old(chars)@) as int + 1)
            &&& bodies(final(vec)@) == bodies(old(vec)@).push(
                old(chars)@.take(body_len(old(chars)@) as int),
            )
        },
        !body_closes(old(chars)@) ==> {
            &&& r == Err::<(), ParseError>(ParseError::Eof)
            &&& final(chars)@ == Seq::<char>::empty()
            &&& final(vec)@ == old(vec)@
        },
        final(chars)@.len() <= old(chars)@.len(),
{
    let mut buffer = String::new();
    let ghost mut taken: int = 0;
    loop
        invariant
            0 <= taken <= old(chars)@.len(),
            chars@ == old(chars)@.skip(taken),
            buffer@ == old(chars)@.take(taken),
            body_len(old(chars)@) == taken + body_len(chars@),
            vec@ == old(vec)@,
        decreases chars@.len(),
    {
        match chars.next() {
            Some(c) => {
                assert(chars@ == old(chars)@.skip(taken + 1));
                if c == ']' {
                    vec.push(buffer);
                    assert(bodies(vec@) == bodies(old(vec)@).push(buffer@));
                    return Ok(());
                }
                buffer.push(c);
                proof {
                    assert(buffer@ == old(chars)@.take(taken + 1));
                    taken = taken + 1;
                }
            },
            None => {
                assert(chars@ == Seq::<char>::empty());
                return Err(ParseError::Eof);
            },
        }
    }
}

/// Applies the function to the number that `buffer` holds. The body that was
/// defined first is evaluated from its start, with that number as its argument
/// and one level of `depth` less.
///
/// Fails with `UnboundApplication` where no function is defined, with `Eof`
/// where `buffer` holds only whitespace, with `UnexpectedError` where its first
/// significant character is no digit, with `DepthExceeded` where `depth` is
/// zero, and as the evaluation of the body fails.
pub fn eval_string(buffer: String, vec: &mut Vec<String>, depth: usize) -> (r: Result<
    i32,
    ParseError,
>)
    ensures
        r == spec_eval_string(buffer@, bodies(old(vec)@), depth as nat).result,
        bodies(final(vec)@) == spec_eval_string(buffer@, bodies(old(vec)@), depth as nat).store,
    decreases depth, 0int, 0int,
{
    if vec.len() == 0 {
        return Err(ParseError::UnboundApplication);
    }
    let mut chars = Cursor::new(buffer.as_str());
    let first = extract_next_char(&mut chars)?;
    if to_digit(first).is_none() {
        return Err(ParseError::UnexpectedError);
    }
    let number = convert_to_numeric(first, &mut chars);
    if depth == 0 {
        return Err(ParseError::DepthExceeded);
    }
    let mut body = Cursor::new(vec[0].as_str());
    eval(&mut body, number, vec, depth - 1)
}

/// Evaluates an application whose opening `fn(` has been consumed.
///
/// The characters up to the closing `)` are gathered as the argument's text;
/// whitespace and `(` are passed over. An application nested in the argument
/// is evaluated first, and the decimal form of its value is gathered in its
/// place. The function is then applied to the gathered text as
/// [`eval_string`] does. Fails with `UnboundApplication`, before it reads
/// anything, where no function is defined, and with `Eof` where the input ends
/// before the closing `)`.
pub fn fn_apply(chars: &mut Cursor, vec: &mut Vec<String>, depth: usize) -> (r: Result<
    i32,
    ParseError,
>)
    ensures
        r == spec_fn_apply(old(chars)@, bodies(old(vec)@), depth as nat).result,
        final(chars)@ == spec_fn_apply(old(chars)@, bodies(old(vec)@), depth as nat).rest,
        bodies(final(vec)@) == spec_fn_apply(old(chars)@, bodies(old(vec)@), depth as nat).store,
        final(chars)@.len() <= old(chars)@.len(),
    decreases depth, old(chars)@.len(), 1int,
{
    if vec.len() == 0 {
        return Err(ParseError::UnboundApplication);
    }
    let mut buffer = String::new();
    loop
        invariant
            spec_gather(chars@, bodies(vec@), buffer@, depth as nat) == spec_fn_apply(
                old(chars)@,
                bodies(old(vec)@),
                depth as nat,
            ),
            chars@.len() <= old(chars)@.len(),
        decreases chars@.len(),
    {
        let nextchar = extract_next_char(chars)?;
        if nextchar == '(' {
        } else if nextchar == ')' {
            return eval_string(buffer, vec, depth);
        } else if nextchar == 'f' {
            let keyword = extract_next_char(chars)?;
            if keyword == 'n' {
                let value = fn_apply(chars, vec, depth)?;
                let text = to_decimal(value);
                buffer.append(text.as_str());
            } else {
                buffer.push(nextchar);
            }
        } else {
            buffer.push(nextchar);
        }
    }
}

/// Consumes one expression from the front of `chars` and returns its value.
///
/// `arg` is the value of the placeholder `.`; `vec` holds the bodies defined so
/// far, and a definition appends to it; `depth` is the number of function
/// bodies that may be entered inside one another.
///
/// The first significant character decides. A `.` yields `arg`, and the
/// character behind it is consumed with it. A digit starts a number. `fn[`
/// starts a definition, after which the evaluation goes on with what follows
/// it; `fn(` starts an application. An operator is applied to the values of the
/// two expressions that follow it, the left one evaluated first. Anything else
/// fails with `UnexpectedError`, the end of the input with `Eof`.
pub fn eval(chars: &mut Cursor, arg: i32, vec: &mut Vec<String>, depth: usize) -> (r: Result<
    i32,
    ParseError,
>)
    ensures
        r == spec_eval(old(chars)@, arg, bodies(old(vec)@), depth as nat).result,
        final(chars)@ == spec_eval(old(chars)@, arg, bodies(old(vec)@), depth as nat).rest,
        bodies(final(vec)@) == spec_eval(old(chars)@, arg, bodies(old(vec)@), depth as nat).store,
        final(chars)@.len() <= old(chars)@.len(),
    decreases depth, old(chars)@.len(), 1int,
{
    let c = extract_next_char(chars)?;
    if c == '.' {
        chars.next();
        return Ok(arg);
    }
    if c == 'f' {
        let keyword = extract_next_char(chars)?;
        if keyword != 'n' {
            return Err(ParseError::UnexpectedError);
        }
        let bracket = extract_next_char(chars)?;
        if bracket == '[' {
            fn_define(chars, vec)?;
            return eval(chars, arg, vec, depth);
        } else if bracket == '(' {
            return fn_apply(chars, vec, depth);
        } else {
            return Err(ParseError::UnexpectedError);
        }
    }
    if to_digit(c).is_some() {
        return Ok(convert_to_numeric(c, chars));
    }
    if c == '+' || c == '-' || c == '*' || c == '/' {
        let x = eval(chars, arg, vec, depth)?;
        let y = eval(chars, arg, vec, depth)?;
        return apply_operator(c, x, y);
    }
    Err(ParseError::UnexpectedError)
}

/// Evaluates `input` as one expression, with no function defined at the start
/// and with zero for the placeholder.
///
/// The result depends on `input` and `depth` alone: every call starts from an
/// empty store of its own, and nothing is kept from one call to the next.
pub fn evaluate(input: &str, depth: usize) -> (r: Result<i32, ParseError>)
    ensures
        r == spec_evaluate(input@, depth as nat),
{
    let mut chars = Cursor::new(input);
    let mut vec: Vec<String> = Vec::new();
    assert(bodies(vec@) == Seq::<Seq<char>>::empty());
    eval(&mut chars, 0, &mut vec, depth)
}

} // verus!
