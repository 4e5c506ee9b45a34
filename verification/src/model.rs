//! The meaning of the language, as functions on sequences of characters.
//!
//! An evaluation reads the characters that are left of its input, an argument
//! value, the bodies of the functions defined so far, and a depth: the number of
//! function bodies that may still be entered inside one another. It gives back
//! an [`Outcome`].

use vstd::prelude::*;
use crate::arith::{is_operator, spec_apply_operator};
use crate::chars::{digit_value, is_digit, is_space};
use crate::error::ParseError;
use crate::number::{decimal, scan_digits, skip_digits};

verus! {

/// How an evaluation ends: with a value or an error, the input that it left
/// unread, and the bodies defined by then.
pub struct Outcome {
    pub result: Result<i32, ParseError>,
    pub rest: Seq<char>,
    pub store: Seq<Seq<char>>,
}

/// The number of whitespace characters at the front of `s`.
pub open spec fn space_run(s: Seq<char>) -> nat
    decreases s.len(),
{
    if s.len() > 0 && is_space(s[0]) {
        1 + space_run(s.drop_first())
    } else {
        0
    }
}

/// `s` without the whitespace at its front.
pub open spec fn skip_space(s: Seq<char>) -> Seq<char> {
    s.skip(space_run(s) as int)
}

/// Whether `s` holds anything but whitespace.
pub open spec fn has_significant(s: Seq<char>) -> bool {
    space_run(s) < s.len()
}

/// The first character of `s` that is no whitespace.
pub open spec fn significant(s: Seq<char>) -> char
    recommends
        has_significant(s),
{
    s[space_run(s) as int]
}

/// What follows the first character of `s` that is no whitespace.
pub open spec fn after_significant(s: Seq<char>) -> Seq<char>
    recommends
        has_significant(s),
{
    s.skip(space_run(s) as int + 1)
}

/// `s` without its first character, where it has one.
pub open spec fn after_first(s: Seq<char>) -> Seq<char> {
    if s.len() > 0 {
        s.drop_first()
    } else {
        s
    }
}

/// The number of characters of `s` in front of its first `]`: all of them
/// where it holds none.
pub open spec fn body_len(s: Seq<char>) -> nat
    decreases s.len(),
{
    if s.len() > 0 && s[0] != ']' {
        1 + body_len(s.drop_first())
    } else {
        0
    }
}

/// Whether `s` holds a `]`.
pub open spec fn body_closes(s: Seq<char>) -> bool {
    body_len(s) < s.len()
}

/// The outcome that fails with `error`.
pub open spec fn failure(error: ParseError, rest: Seq<char>, store: Seq<Seq<char>>) -> Outcome {
    Outcome { result: Err(error), rest, store }
}

/// The input that an evaluation of `s` left unread, where it is shorter than
/// `s`; else the empty input. An evaluation that consumed a character leaves
/// less than it was given, so this is `rest` wherever it is used.
pub open spec fn remainder(rest: Seq<char>, s: Seq<char>) -> Seq<char> {
    if rest.len() < s.len() {
        rest
    } else {
        Seq::empty()
    }
}

/// The evaluation of one expression at the front of `s`.
pub open spec fn spec_eval(s: Seq<char>, arg: i32, store: Seq<Seq<char>>, depth: nat) -> Outcome
    decreases depth, s.len(), 1int,
{
    if !has_significant(s) {
        failure(ParseError::Eof, Seq::empty(), store)
    } else {
        let c = significant(s);
        let s1 = after_significant(s);
        if c == '.' {
            Outcome { result: Ok(arg), rest: after_first(s1), store }
        } else if c == 'f' {
            if !has_significant(s1) {
                failure(ParseError::Eof, Seq::empty(), store)
            } else if significant(s1) != 'n' {
                failure(ParseError::UnexpectedError, after_significant(s1), store)
            } else {
                let s2 = after_significant(s1);
                if !has_significant(s2) {
                    failure(ParseError::Eof, Seq::empty(), store)
                } else {
                    let s3 = after_significant(s2);
                    if significant(s2) == '[' {
                        if body_closes(s3) {
                            spec_eval(
                                s3.skip(body_len(s3) as int + 1),
                                arg,
                                store.push(s3.take(body_len(s3) as int)),
                                depth,
                            )
                        } else {
                            failure(ParseError::Eof, Seq::empty(), store)
                        }
                    } else if significant(s2) == '(' {
                        spec_fn_apply(s3, store, depth)
                    } else {
                        failure(ParseError::UnexpectedError, s3, store)
                    }
                }
            }
        } else if is_digit(c) {
            Outcome {
                result: Ok(scan_digits(digit_value(c) as i32, s1)),
                rest: skip_digits(s1),
                store,
            }
        } else if is_operator(c) {
            let x = spec_eval(s1, arg, store, depth);
            match x.result {
                Err(_) => x,
                Ok(left) => {
                    let y = spec_eval(remainder(x.rest, s), arg, x.store, depth);
                    match y.result {
                        Err(_) => y,
                        Ok(right) => Outcome {
                            result: spec_apply_operator(c, left, right),
                            rest: y.rest,
                            store: y.store,
                        },
                    }
                },
            }
        } else {
            failure(ParseError::UnexpectedError, s1, store)
        }
    }
}

/// The application whose opening `fn(` has been read: `s` holds the argument
/// and what follows it.
pub open spec fn spec_fn_apply(s: Seq<char>, store: Seq<Seq<char>>, depth: nat) -> Outcome
    decreases depth, s.len(), 1int,
{
    if store.len() == 0 {
        failure(ParseError::UnboundApplication, s, store)
    } else {
        spec_gather(s, store, Seq::empty(), depth)
    }
}

/// The rest of an application whose argument text so far is `buffer`.
///
/// Characters are gathered up to the closing `)`. An application nested in the
/// argument is evaluated first, and the decimal form of its value is gathered
/// in its place. The gathered text is then scanned as a number, and the
/// function is evaluated on it.
pub open spec fn spec_gather(
    s: Seq<char>,
    store: Seq<Seq<char>>,
    buffer: Seq<char>,
    depth: nat,
) -> Outcome
    decreases depth, s.len(), 0int,
{
    if !has_significant(s) {
        failure(ParseError::Eof, Seq::empty(), store)
    } else {
        let c = significant(s);
        let s1 = after_significant(s);
        if c == '(' {
            spec_gather(s1, store, buffer, depth)
        } else if c == ')' {
            let body = spec_eval_string(buffer, store, depth);
            Outcome { result: body.result, rest: s1, store: body.store }
        } else if c == 'f' {
            if !has_significant(s1) {
                failure(ParseError::Eof, Seq::empty(), store)
            } else if significant(s1) == 'n' {
                let inner = spec_fn_apply(after_significant(s1), store, depth);
                match inner.result {
                    Err(_) => inner,
                    Ok(value) => spec_gather(
                        remainder(inner.rest, s),
                        inner.store,
                        buffer + decimal(value as int),
                        depth,
                    ),
                }
            } else {
                spec_gather(after_significant(s1), store, buffer.push(c), depth)
            }
        } else {
            spec_gather(s1, store, buffer.push(c), depth)
        }
    }
}

/// The function applied to the number that `buffer` holds: the body that was
/// defined first, evaluated with that number as its argument. The outcome's
/// `rest` is what that evaluation left of the body; it is empty where the body
/// was not entered.
pub open spec fn spec_eval_string(buffer: Seq<char>, store: Seq<Seq<char>>, depth: nat) -> Outcome
    decreases depth, 0int, 0int,
{
    if store.len() == 0 {
        failure(ParseError::UnboundApplication, Seq::empty(), store)
    } else if !has_significant(buffer) {
        failure(ParseError::Eof, Seq::empty(), store)
    } else if !is_digit(significant(buffer)) {
        failure(ParseError::UnexpectedError, Seq::empty(), store)
    } else if depth == 0 {
        failure(ParseError::DepthExceeded, Seq::empty(), store)
    } else {
        spec_eval(
            store[0],
            scan_digits(digit_value(significant(buffer)) as i32, after_significant(buffer)),
            store,
            (depth - 1) as nat,
        )
    }
}

/// The evaluation of a whole input: with no function defined, and with zero
/// for the argument.
pub open spec fn spec_evaluate(input: Seq<char>, depth: nat) -> Result<i32, ParseError> {
    spec_eval(input, 0, Seq::empty(), depth).result
}

} // verus!
