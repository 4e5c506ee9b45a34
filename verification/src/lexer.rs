//! A tokenizer for the same language: it splits an input into its tokens
//! without evaluating anything.

use vstd::prelude::*;
use crate::chars::{digit_value, is_digit, to_digit};
use crate::cursor::Cursor;
use crate::model::{after_significant, has_significant, remainder, significant};
use crate::number::{scan_digits, skip_digits};

verus! {

/// One token of the language.
#[derive(Debug, Clone, PartialEq, Eq)]
pub enum TokenKind {
    Number(i32),
    Plus,
    Minus,
    Asterisk,
    Slash,
    Function,
    LBracket,
    RBracket,
    LParen,
    Rparen,
    Dot,
}

/// Why an input could not be split into tokens.
#[derive(Debug, Clone, PartialEq, Eq)]
pub enum LexError {
    /// A character starts no token, or stands where the `n` of the function
    /// keyword belongs.
    Unexpected,
    /// The input ran out where a character was still expected.
    Eof,
}

/// The token that the character `c` is by itself, if it is one.
pub open spec fn symbol(c: char) -> Option<TokenKind> {
    if c == '+' {
        Some(TokenKind::Plus)
    } else if c == '-' {
        Some(TokenKind::Minus)
    } else if c == '*' {
        Some(TokenKind::Asterisk)
    } else if c == '/' {
        Some(TokenKind::Slash)
    } else if c == '[' {
        Some(TokenKind::LBracket)
    } else if c == ']' {
        Some(TokenKind::RBracket)
    } else if c == '(' {
        Some(TokenKind::LParen)
    } else if c == ')' {
        Some(TokenKind::Rparen)
    } else if c == '.' {
        Some(TokenKind::Dot)
    } else {
        None
    }
}

/// `tokens` in front of the tokens of `rest`, or the error of `rest`.
pub open spec fn extend(tokens: Seq<TokenKind>, rest: Result<Seq<TokenKind>, LexError>) -> Result<
    Seq<TokenKind>,
    LexError,
> {
    match rest {
        Ok(more) => Ok(tokens + more),
        Err(e) => Err(e),
    }
}

/// The tokens of `s`, or the error at the first character that starts none.
///
/// Whitespace separates tokens and is otherwise ignored. The function keyword
/// is an `f` with an `n` right behind it: an `f` with anything else behind it
/// fails with `Unexpected`, an `f` that ends the input with `Eof`. A digit
/// starts a number, which ends in front of the first character that is no
/// digit.
pub open spec fn spec_lex(s: Seq<char>) -> Result<Seq<TokenKind>, LexError>
    decreases s.len(),
{
    if !has_significant(s) {
        Ok(Seq::empty())
    } else {
        let c = significant(s);
        let s1 = after_significant(s);
        if symbol(c) is Some {
            extend(seq![symbol(c)->0], spec_lex(s1))
        } else if c == 'f' {
            if s1.len() == 0 {
                Err(LexError::Eof)
            } else if s1[0] == 'n' {
                extend(seq![TokenKind::Function], spec_lex(s1.drop_first()))
            } else {
                Err(LexError::Unexpected)
            }
        } else if is_digit(c) {
            extend(
                seq![TokenKind::Number(scan_digits(digit_value(c) as i32, s1))],
                spec_lex(remainder(skip_digits(s1), s)),
            )
        } else {
            Err(LexError::Unexpected)
        }
    }
}

/// Moves `chars` past any whitespace and consumes the first character that is
/// none. Fails with `Eof` where only whitespace is left; the input is then used
/// up.
pub fn extract_next_char(chars: &mut Cursor) -> (r: Result<char, LexError>)
    ensures
        has_significant(old(chars)@) ==> {
            &&& r == Ok::<char, LexError>(significant(old(chars)@))
            &&& final(chars)@ == after_significant(old(chars)@)
        },
        !has_significant(old(chars)@) ==> {
            &&& r == Err::<char, LexError>(LexError::Eof)
            &&& final(chars)@ == Seq::<char>::empty()
        },
        final(chars)@.len() <= old(chars)@.len(),
        r is Ok ==> final(chars)@.len() < old(chars)@.len(),
{
    match crate::interpreter::extract_next_char(chars) {
        Ok(c) => Ok(c),
        Err(_) => Err(LexError::Eof),
    }
}

/// Scans a number whose first character `c` has been consumed: folds `c` and
/// every digit that follows it at once into a decimal value, which wraps on
/// overflow, and stops in front of the first character that is no digit. Fails
/// with `Unexpected`, and consumes nothing, where `c` is no digit.
pub fn convert_to_numeric(c: &char, chars: &mut Cursor) -> (r: Result<i32, LexError>)
    ensures
        is_digit(*c) ==> {
            &&& r == Ok::<i32, LexError>(scan_digits(digit_value(*c) as i32, old(chars)@))
            &&& final(chars)@ == skip_digits(old(chars)@)
        },
        !is_digit(*c) ==> {
            &&& r == Err::<i32, LexError>(LexError::Unexpected)
            &&& final(chars)@ == old(chars)@
        },
        final(chars)@.len() <= old(chars)@.len(),
{
    if to_digit(*c).is_none() {
        return Err(LexError::Unexpected);
    }
    Ok(crate::interpreter::convert_to_numeric(*c, chars))
}

/// Splits `input` into its tokens.
///
/// Fails with `Unexpected` at the first character that starts no token, an `f`
/// without an `n` right behind it among them, and with `Eof` where the input
/// ends with an `f`.
pub fn lex(input: &str) -> (r: Result<Vec<TokenKind>, LexError>)
    ensures
        r is Ok <==> spec_lex(input@) is Ok,
        r matches Ok(tokens) ==> spec_lex(input@) == Ok::<Seq<TokenKind>, LexError>(tokens@),
        r matches Err(e) ==> spec_lex(input@) == Err::<Seq<TokenKind>, LexError>(e),
{
    let mut tokens: Vec<TokenKind> = Vec::new();
    let mut chars = Cursor::new(input);
    assert(Seq::<TokenKind>::empty() + Seq::<TokenKind>::empty() == Seq::<TokenKind>::empty());
    loop
        invariant
            spec_lex(input@) == extend(tokens@, spec_lex(chars@)),
        decreases chars@.len(),
    {
        let ghost before = chars@;
        let ghost done = tokens@;
        let c = match extract_next_char(&mut chars) {
            Ok(c) => c,
            Err(_) => {
                assert(done + Seq::<TokenKind>::empty() == done);
                return Ok(tokens);
            },
        };
        let token = if c == '+' {
            TokenKind::Plus
        } else if c == '-' {
            TokenKind::Minus
        } else if c == '*' {
            TokenKind::Asterisk
        } else if c == '/' {
            TokenKind::Slash
        } else if c == '[' {
            TokenKind::LBracket
        } else if c == ']' {
            TokenKind::RBracket
        } else if c == '(' {
            TokenKind::LParen
        } else if c == ')' {
            TokenKind::Rparen
        } else if c == '.' {
            TokenKind::Dot
        } else if c == 'f' {
            match chars.next() {
                Some(keyword) => {
                    if keyword != 'n' {
                        return Err(LexError::Unexpected);
                    }
                },
                None => {
                    return Err(LexError::Eof);
                },
            }
            TokenKind::Function
        } else {
            TokenKind::Number(convert_to_numeric(&c, &mut chars)?)
        };
        tokens.push(token);
        proof {
            let after = spec_lex(chars@);
            assert(spec_lex(before) == extend(seq![token], after));
            if let Ok(more) = after {
                assert(done + (seq![token] + more) == done.push(token) + more);
            }
        }
    }
}

} // verus!
