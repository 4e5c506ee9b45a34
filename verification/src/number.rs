//! Decimal numbers: scanning a run of digits and writing a number out.

use vstd::prelude::*;
use crate::chars::{digit_char, digit_value, is_digit, is_space};

verus! {

/// One step of a scan: the value so far, shifted by one decimal place, plus the
/// next digit. Overflow wraps.
pub open spec fn push_digit(value: i32, d: int) -> i32 {
    value.wrapping_mul(10).wrapping_add(d as i32)
}

/// The value after the digits at the front of `s` have been folded into `value`,
/// one by one. The scan stops at the first character that is no digit.
pub open spec fn scan_digits(value: i32, s: Seq<char>) -> i32
    decreases s.len(),
{
    if s.len() > 0 && is_digit(s[0]) {
        scan_digits(push_digit(value, digit_value(s[0])), s.drop_first())
    } else {
        value
    }
}

/// What is left of `s` after the digits at its front.
pub open spec fn skip_digits(s: Seq<char>) -> Seq<char>
    decreases s.len(),
{
    if s.len() > 0 && is_digit(s[0]) {
        skip_digits(s.drop_first())
    } else {
        s
    }
}

/// Whether `s` holds digits only.
pub open spec fn all_digits(s: Seq<char>) -> bool {
    forall|i: int| 0 <= i < s.len() ==> is_digit(#[trigger] s[i])
}

/// The decimal digits of `n`, most significant first, without leading zeros.
pub open spec fn digits(n: nat) -> Seq<char>
    decreases n,
{
    if n < 10 {
        seq![digit_char(n as int)]
    } else {
        digits(n / 10).push(digit_char((n % 10) as int))
    }
}

/// The decimal form of `n`: its digits, after a minus sign where `n` is negative.
pub open spec fn decimal(n: int) -> Seq<char> {
    if n < 0 {
        seq!['-'] + digits((-n) as nat)
    } else {
        digits(n as nat)
    }
}

/// `s` back to front.
pub open spec fn reversed(s: Seq<char>) -> Seq<char> {
    Seq::new(s.len(), |i: int| s[s.len() - 1 - i])
}

/// The decimal form of a number is never empty and holds digits only.
pub proof fn lemma_digits_are_digits(n: nat)
    ensures
        digits(n).len() > 0,
        all_digits(digits(n)),
        forall|i: int| 0 <= i < digits(n).len() ==> !is_space(#[trigger] digits(n)[i]),
    decreases n,
{
    if n >= 10 {
        lemma_digits_are_digits(n / 10);
    }
}

/// Scanning a run of digits that ends the input, or that a character other than
/// a digit follows, folds in all of them and stops in front of what follows.
pub proof fn lemma_scan_run(value: i32, run: Seq<char>, tail: Seq<char>)
    requires
        all_digits(run),
        tail.len() == 0 || !is_digit(tail[0]),
    ensures
        scan_digits(value, run + tail) == scan_digits(value, run),
        skip_digits(run + tail) == tail,
    decreases run.len(),
{
    if run.len() == 0 {
        assert(run + tail == tail);
    } else {
        assert((run + tail).drop_first() == run.drop_first() + tail);
        lemma_scan_run(push_digit(value, digit_value(run[0])), run.drop_first(), tail);
    }
}

/// Scanning a run of digits with one more digit behind it is one more step.
pub proof fn lemma_scan_push(value: i32, run: Seq<char>, c: char)
    requires
        all_digits(run),
        is_digit(c),
    ensures
        scan_digits(value, run.push(c)) == push_digit(scan_digits(value, run), digit_value(c)),
    decreases run.len(),
{
    let longer = run.push(c);
    if run.len() == 0 {
        assert(longer.drop_first().len() == 0);
        assert(scan_digits(value, longer) == scan_digits(
            push_digit(value, digit_value(c)),
            longer.drop_first(),
        ));
    } else {
        assert(longer.drop_first() == run.drop_first().push(c));
        assert(longer[0] == run[0]);
        lemma_scan_push(push_digit(value, digit_value(run[0])), run.drop_first(), c);
    }
}

/// Scanning the decimal form of a number that an `i32` can hold gives that
/// number back.
pub proof fn lemma_scan_decimal(n: nat)
    requires
        n <= i32::MAX,
    ensures
        scan_digits(0, digits(n)) == n,
    decreases n,
{
    if n < 10 {
        let s = digits(n);
        assert(s.drop_first().len() == 0);
        assert(scan_digits(0, s) == scan_digits(push_digit(0, digit_value(s[0])), s.drop_first()));
    } else {
        lemma_scan_decimal(n / 10);
        lemma_digits_are_digits(n / 10);
        lemma_scan_push(0, digits(n / 10), digit_char((n % 10) as int));
    }
}

/// Folding the first digit into zero gives the digit's own value, so a scan may
/// start from the first digit as well as from zero.
pub proof fn lemma_scan_first(s: Seq<char>)
    requires
        s.len() > 0,
        is_digit(s[0]),
    ensures
        scan_digits(digit_value(s[0]) as i32, s.drop_first()) == scan_digits(0, s),
{
}

/// The decimal form of `n`.
pub fn to_decimal(n: i32) -> (text: String)
    ensures
        text@ == decimal(n as int),
{
    let mut rest: i64 = if n < 0 {
        -(n as i64)
    } else {
        n as i64
    };
    let ghost magnitude: nat = rest as nat;
    let mut low_first: Vec<char> = Vec::new();
    loop
        invariant_except_break
            0 <= rest <= magnitude,
            digits(magnitude) == digits(rest as nat) + reversed(low_first@),
        ensures
            reversed(low_first@) == digits(magnitude),
        decreases rest,
    {
        let d: u8 = (rest % 10) as u8;
        let c: char = (d + 0x30) as char;
        assert(c == digit_char((rest % 10) as int));
        let ghost before = low_first@;
        low_first.push(c);
        if rest < 10 {
            assert(reversed(low_first@) == seq![c] + reversed(before));
            break;
        }
        assert(reversed(low_first@) == seq![c] + reversed(before));
        assert(digits(rest as nat) == digits((rest / 10) as nat).push(c));
        assert(digits((rest / 10) as nat).push(c) + reversed(before) == digits((rest / 10) as nat)
            + reversed(low_first@));
        rest = rest / 10;
    }
    let mut text = String::new();
    if n < 0 {
        text.push('-');
    }
    let ghost sign = text@;
    let mut i: usize = low_first.len();
    while i > 0
        invariant
            i <= low_first.len(),
            text@ == sign + reversed(low_first@).take(low_first.len() - i),
        decreases i,
    {
        i = i - 1;
        text.push(low_first[i]);
        assert(reversed(low_first@).take(low_first.len() - i) == reversed(low_first@).take(
            low_first.len() - i - 1,
        ).push(low_first@[i as int]));
    }
    assert(reversed(low_first@).take(low_first.len() as int) == reversed(low_first@));
    text
}

} // verus!
