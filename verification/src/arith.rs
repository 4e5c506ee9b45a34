//! The four binary operators on wrapping 32-bit integers.

use vstd::prelude::*;
use crate::error::ParseError;

verus! {

/// Whether `c` is one of the four operator symbols.
pub open spec fn is_operator(c: char) -> bool {
    c == '+' || c == '-' || c == '*' || c == '/'
}

/// Integer division that rounds towards zero.
pub open spec fn trunc_div(x: int, y: int) -> int {
    if x >= 0 && y > 0 {
        x / y
    } else if x < 0 && y < 0 {
        (-x) / (-y)
    } else if x < 0 {
        -((-x) / y)
    } else {
        -(x / (-y))
    }
}

/// The quotient of two `i32`, rounded towards zero. The one quotient that no
/// `i32` holds, that of the least value by `-1`, wraps to the least value.
pub open spec fn wrapping_quotient(x: i32, y: i32) -> i32
    recommends
        y != 0,
{
    if x == i32::MIN && y == -1 {
        i32::MIN
    } else {
        trunc_div(x as int, y as int) as i32
    }
}

/// What an operator makes of its two operands. Sum, difference and product
/// wrap; a division by zero fails.
pub open spec fn spec_apply_operator(op: char, x: i32, y: i32) -> Result<i32, ParseError> {
    if op == '+' {
        Ok(x.wrapping_add(y))
    } else if op == '-' {
        Ok(x.wrapping_sub(y))
    } else if op == '*' {
        Ok(x.wrapping_mul(y))
    } else if y == 0 {
        Err(ParseError::DivisionByZero)
    } else {
        Ok(wrapping_quotient(x, y))
    }
}

/// A quotient that rounds towards zero is no larger in magnitude than the
/// dividend, and smaller where the divisor is neither `1` nor `-1`.
pub proof fn lemma_trunc_div_bounds(x: int, y: int)
    requires
        y != 0,
    ensures
        x >= 0 ==> -x <= trunc_div(x, y) <= x,
        x < 0 ==> x <= trunc_div(x, y) <= -x,
        x < 0 && y != -1 ==> trunc_div(x, y) < -x,
        x == 0 ==> trunc_div(x, y) == 0,
{
    let a = if x < 0 { -x } else { x };
    let b = if y < 0 { -y } else { y };
    assert(0 <= a / b <= a) by (nonlinear_arith)
        requires
            a >= 0,
            b > 0,
    ;
    if a > 0 && b >= 2 {
        assert(a / b < a) by (nonlinear_arith)
            requires
                a > 0,
                b >= 2,
        ;
    }
}

/// Applies the operator `op` to `x` and `y`.
pub fn apply_operator(op: char, x: i32, y: i32) -> (r: Result<i32, ParseError>)
    requires
        is_operator(op),
    ensures
        r == spec_apply_operator(op, x, y),
        r is Err <==> op == '/' && y == 0,
{
    if op == '+' {
        Ok(x.wrapping_add(y))
    } else if op == '-' {
        Ok(x.wrapping_sub(y))
    } else if op == '*' {
        Ok(x.wrapping_mul(y))
    } else if y == 0 {
        Err(ParseError::DivisionByZero)
    } else {
        proof {
            lemma_trunc_div_bounds(x as int, y as int);
        }
        match x.checked_div(y) {
            Some(q) => {
                assert(q == trunc_div(x as int, y as int));
                Ok(q)
            },
            None => {
                assert(x == i32::MIN && y == -1);
                Ok(i32::MIN)
            },
        }
    }
}

} // verus!
