//! What holds of every evaluation, proved from the model.

use vstd::prelude::*;
use crate::arith::{is_operator, spec_apply_operator};
use crate::chars::{digit_value, is_digit, is_space};
use crate::error::ParseError;
use crate::lexer::{extend, spec_lex, symbol, LexError, TokenKind};
use crate::model::{
    after_first, after_significant, body_closes, body_len, has_significant, remainder,
    significant, skip_space, space_run, spec_eval, spec_eval_string, spec_evaluate,
    spec_fn_apply, spec_gather, Outcome,
};
use crate::number::{
    all_digits, decimal, digits, lemma_digits_are_digits, lemma_scan_decimal, lemma_scan_first,
    lemma_scan_run, scan_digits, skip_digits,
};

verus! {

/// Whether `t` is the end of `s`: what is left of `s` after some of its
/// characters were consumed from the front.
pub open spec fn is_suffix(t: Seq<char>, s: Seq<char>) -> bool {
    t.len() <= s.len() && s.skip(s.len() - t.len()) == t
}

/// Whether `later` holds the bodies of `earlier`, in their places, and
/// possibly more behind them.
pub open spec fn extends(later: Seq<Seq<char>>, earlier: Seq<Seq<char>>) -> bool {
    earlier.len() <= later.len() && later.take(earlier.len() as int) == earlier
}

/// Whether `s` holds whitespace only.
pub open spec fn all_space(s: Seq<char>) -> bool {
    forall|i: int| 0 <= i < s.len() ==> is_space(#[trigger] s[i])
}

/// The end of an end of `s` is an end of `s`.
pub proof fn lemma_suffix_transitive(u: Seq<char>, t: Seq<char>, s: Seq<char>)
    requires
        is_suffix(u, t),
        is_suffix(t, s),
    ensures
        is_suffix(u, s),
{
    assert(s.skip(s.len() - t.len()).skip(t.len() - u.len()) == s.skip(s.len() - u.len()));
}

/// What comes behind the whitespace at the front of `s` is an end of `s`.
pub proof fn lemma_space_run_bound(s: Seq<char>)
    ensures
        space_run(s) <= s.len(),
        forall|i: int| 0 <= i < space_run(s) ==> is_space(#[trigger] s[i]),
        has_significant(s) ==> !is_space(significant(s)) && is_suffix(after_significant(s), s)
            && after_significant(s).len() < s.len(),
    decreases s.len(),
{
    if s.len() > 0 && is_space(s[0]) {
        let t = s.drop_first();
        lemma_space_run_bound(t);
        assert forall|i: int| 0 <= i < space_run(s) implies is_space(#[trigger] s[i]) by {
            if i > 0 {
                assert(s[i] == t[i - 1]);
            }
        }
        if has_significant(s) {
            assert(significant(s) == significant(t));
        }
    }
    if has_significant(s) {
        let t = after_significant(s);
        assert(s.skip(s.len() - t.len()) == t);
    }
}

/// What comes behind the digits at the front of `s` is an end of `s`.
pub proof fn lemma_skip_digits_suffix(s: Seq<char>)
    ensures
        is_suffix(skip_digits(s), s),
    decreases s.len(),
{
    if s.len() > 0 && is_digit(s[0]) {
        lemma_skip_digits_suffix(s.drop_first());
        assert(is_suffix(s.drop_first(), s));
        lemma_suffix_transitive(skip_digits(s), s.drop_first(), s);
    } else {
        assert(s.skip(0) == s);
    }
}

/// The body of a definition ends in or before the input.
pub proof fn lemma_body_len_bound(s: Seq<char>)
    ensures
        body_len(s) <= s.len(),
        forall|i: int| 0 <= i < body_len(s) ==> #[trigger] s[i] != ']',
        body_closes(s) ==> s[body_len(s) as int] == ']',
    decreases s.len(),
{
    if s.len() > 0 && s[0] != ']' {
        let t = s.drop_first();
        lemma_body_len_bound(t);
        assert forall|i: int| 0 <= i < body_len(s) implies #[trigger] s[i] != ']' by {
            if i > 0 {
                assert(s[i] == t[i - 1]);
            }
        }
    }
}

/// An evaluation only moves forward and only appends to the store: what it
/// leaves unread is an end of its input, and the bodies that were defined
/// before it stay where they are.
pub proof fn lemma_eval_moves_forward(s: Seq<char>, arg: i32, store: Seq<Seq<char>>, depth: nat)
    ensures
        is_suffix(spec_eval(s, arg, store, depth).rest, s),
        extends(spec_eval(s, arg, store, depth).store, store),
    decreases depth, s.len(), 1int,
{
    lemma_space_run_bound(s);
    assert(s.skip(s.len() as int) == Seq::<char>::empty());
    assert(store.take(store.len() as int) == store);
    if has_significant(s) {
        let c = significant(s);
        let s1 = after_significant(s);
        lemma_space_run_bound(s1);
        if c == '.' {
            assert(is_suffix(after_first(s1), s1)) by {
                assert(s1.skip(0) == s1);
            }
            lemma_suffix_transitive(after_first(s1), s1, s);
        } else if c == 'f' {
            if has_significant(s1) {
                let s2 = after_significant(s1);
                lemma_suffix_transitive(s2, s1, s);
                lemma_space_run_bound(s2);
                if significant(s1) == 'n' && has_significant(s2) {
                    let s3 = after_significant(s2);
                    lemma_suffix_transitive(s3, s2, s);
                    if significant(s2) == '[' {
                        if body_closes(s3) {
                            let s4 = s3.skip(body_len(s3) as int + 1);
                            let grown = store.push(s3.take(body_len(s3) as int));
                            assert(is_suffix(s4, s3));
                            lemma_suffix_transitive(s4, s3, s);
                            lemma_eval_moves_forward(s4, arg, grown, depth);
                            let o = spec_eval(s4, arg, grown, depth);
                            lemma_suffix_transitive(o.rest, s4, s);
                            assert(o.store.take(store.len() as int) == o.store.take(
                                grown.len() as int,
                            ).take(store.len() as int));
                            assert(grown.take(store.len() as int) == store);
                        }
                    } else if significant(s2) == '(' {
                        lemma_fn_apply_moves_forward(s3, store, depth);
                        lemma_suffix_transitive(spec_fn_apply(s3, store, depth).rest, s3, s);
                    }
                }
            }
        } else if is_digit(c) {
            lemma_skip_digits_suffix(s1);
            lemma_suffix_transitive(skip_digits(s1), s1, s);
        } else if is_operator(c) {
            lemma_eval_moves_forward(s1, arg, store, depth);
            let x = spec_eval(s1, arg, store, depth);
            lemma_suffix_transitive(x.rest, s1, s);
            if x.result is Ok {
                lemma_eval_moves_forward(x.rest, arg, x.store, depth);
                let y = spec_eval(x.rest, arg, x.store, depth);
                lemma_suffix_transitive(y.rest, x.rest, s);
                assert(y.store.take(store.len() as int) == y.store.take(x.store.len() as int).take(
                    store.len() as int,
                ));
            }
        }
    }
}

/// An application only moves forward and only appends to the store.
pub proof fn lemma_fn_apply_moves_forward(s: Seq<char>, store: Seq<Seq<char>>, depth: nat)
    ensures
        is_suffix(spec_fn_apply(s, store, depth).rest, s),
        extends(spec_fn_apply(s, store, depth).store, store),
    decreases depth, s.len(), 1int,
{
    assert(s.skip(0) == s);
    assert(store.take(store.len() as int) == store);
    if store.len() > 0 {
        lemma_gather_moves_forward(s, store, Seq::empty(), depth);
    }
}

/// Gathering an argument only moves forward and only appends to the store.
pub proof fn lemma_gather_moves_forward(
    s: Seq<char>,
    store: Seq<Seq<char>>,
    buffer: Seq<char>,
    depth: nat,
)
    ensures
        is_suffix(spec_gather(s, store, buffer, depth).rest, s),
        extends(spec_gather(s, store, buffer, depth).store, store),
    decreases depth, s.len(), 0int,
{
    lemma_space_run_bound(s);
    assert(s.skip(s.len() as int) == Seq::<char>::empty());
    assert(store.take(store.len() as int) == store);
    if has_significant(s) {
        let c = significant(s);
        let s1 = after_significant(s);
        lemma_space_run_bound(s1);
        if c == '(' {
            lemma_gather_moves_forward(s1, store, buffer, depth);
            lemma_suffix_transitive(spec_gather(s1, store, buffer, depth).rest, s1, s);
        } else if c == ')' {
            lemma_eval_string_appends(buffer, store, depth);
        } else if c == 'f' {
            if has_significant(s1) {
                let s2 = after_significant(s1);
                lemma_suffix_transitive(s2, s1, s);
                if significant(s1) == 'n' {
                    lemma_fn_apply_moves_forward(s2, store, depth);
                    let inner = spec_fn_apply(s2, store, depth);
                    lemma_suffix_transitive(inner.rest, s2, s);
                    if let Ok(value) = inner.result {
                        let longer = buffer + decimal(value as int);
                        lemma_gather_moves_forward(inner.rest, inner.store, longer, depth);
                        let o = spec_gather(inner.rest, inner.store, longer, depth);
                        lemma_suffix_transitive(o.rest, inner.rest, s);
                        assert(o.store.take(store.len() as int) == o.store.take(
                            inner.store.len() as int,
                        ).take(store.len() as int));
                    }
                } else {
                    lemma_gather_moves_forward(s2, store, buffer.push(c), depth);
                    lemma_suffix_transitive(
                        spec_gather(s2, store, buffer.push(c), depth).rest,
                        s2,
                        s,
                    );
                }
            }
        } else {
            lemma_gather_moves_forward(s1, store, buffer.push(c), depth);
            lemma_suffix_transitive(spec_gather(s1, store, buffer.push(c), depth).rest, s1, s);
        }
    }
}

/// Applying the function only appends to the store.
pub proof fn lemma_eval_string_appends(buffer: Seq<char>, store: Seq<Seq<char>>, depth: nat)
    ensures
        extends(spec_eval_string(buffer, store, depth).store, store),
    decreases depth, 0int, 0int,
{
    assert(store.take(store.len() as int) == store);
    if store.len() > 0 && has_significant(buffer) && is_digit(significant(buffer)) && depth > 0 {
        lemma_eval_moves_forward(
            store[0],
            scan_digits(digit_value(significant(buffer)) as i32, after_significant(buffer)),
            store,
            (depth - 1) as nat,
        );
    }
}

/// Whitespace in front of a character that is none is passed over: that
/// character is the first significant one.
pub proof fn lemma_space_then_char(w: Seq<char>, c: char, t: Seq<char>)
    requires
        all_space(w),
        !is_space(c),
    ensures
        has_significant(w + seq![c] + t),
        significant(w + seq![c] + t) == c,
        after_significant(w + seq![c] + t) == t,
    decreases w.len(),
{
    let s = w + seq![c] + t;
    if w.len() == 0 {
        assert(s[0] == c);
        assert(s.skip(1) == t);
    } else {
        assert(s[0] == w[0]);
        assert(s.drop_first() == w.drop_first() + seq![c] + t);
        lemma_space_then_char(w.drop_first(), c, t);
        let u = s.drop_first();
        assert(s.skip(space_run(s) as int + 1) == u.skip(space_run(u) as int + 1));
        assert(s[space_run(s) as int] == u[space_run(u) as int]);
    }
}

/// Whitespace in front of an input changes nothing about what is significant
/// in it.
pub proof fn lemma_space_in_front(w: Seq<char>, s: Seq<char>)
    requires
        all_space(w),
    ensures
        has_significant(w + s) == has_significant(s),
        has_significant(s) ==> significant(w + s) == significant(s) && after_significant(w + s)
            == after_significant(s),
        skip_space(w + s) == skip_space(s),
    decreases w.len(),
{
    if w.len() == 0 {
        assert(w + s == s);
    } else {
        let whole = w + s;
        assert(whole[0] == w[0]);
        assert(whole.drop_first() == w.drop_first() + s);
        lemma_space_in_front(w.drop_first(), s);
        lemma_space_run_bound(s);
        let u = whole.drop_first();
        lemma_space_run_bound(u);
        assert(whole.skip(space_run(whole) as int) == u.skip(space_run(u) as int));
        if has_significant(s) {
            assert(whole.skip(space_run(whole) as int + 1) == u.skip(space_run(u) as int + 1));
            assert(whole[space_run(whole) as int] == u[space_run(u) as int]);
        }
    }
}

/// An evaluation looks at its input only through the first significant
/// character and what follows it.
pub proof fn lemma_eval_by_first_significant(
    a: Seq<char>,
    b: Seq<char>,
    arg: i32,
    store: Seq<Seq<char>>,
    depth: nat,
)
    requires
        has_significant(a) == has_significant(b),
        has_significant(b) ==> significant(a) == significant(b) && after_significant(a)
            == after_significant(b),
    ensures
        spec_eval(a, arg, store, depth) == spec_eval(b, arg, store, depth),
{
    lemma_space_run_bound(a);
    lemma_space_run_bound(b);
    if has_significant(b) {
        let c = significant(b);
        let s1 = after_significant(b);
        if is_operator(c) {
            lemma_eval_moves_forward(s1, arg, store, depth);
            let x = spec_eval(s1, arg, store, depth);
            assert(remainder(x.rest, a) == x.rest);
            assert(remainder(x.rest, b) == x.rest);
        }
    }
}

/// Whitespace in front of an expression is insignificant: the evaluation is the
/// same with it and without it.
pub proof fn lemma_leading_space_is_insignificant(
    w: Seq<char>,
    s: Seq<char>,
    arg: i32,
    store: Seq<Seq<char>>,
    depth: nat,
)
    requires
        all_space(w),
    ensures
        spec_eval(w + s, arg, store, depth) == spec_eval(s, arg, store, depth),
{
    lemma_space_in_front(w, s);
    lemma_eval_by_first_significant(w + s, s, arg, store, depth);
}

/// The whitespace at the front of an input may be dropped.
pub proof fn lemma_skip_space_is_insignificant(
    s: Seq<char>,
    arg: i32,
    store: Seq<Seq<char>>,
    depth: nat,
)
    ensures
        spec_eval(skip_space(s), arg, store, depth) == spec_eval(s, arg, store, depth),
{
    lemma_space_run_bound(s);
    let w = s.take(space_run(s) as int);
    assert(w + skip_space(s) == s);
    lemma_leading_space_is_insignificant(w, skip_space(s), arg, store, depth);
}

/// Operators nest by position: an operator applies to the values of the two
/// expressions that follow it. The left one is evaluated first, the right one
/// from where the left one ended and with the store that it left; the first
/// failure ends the evaluation.
pub proof fn lemma_operator_takes_two_expressions(
    w: Seq<char>,
    op: char,
    t: Seq<char>,
    arg: i32,
    store: Seq<Seq<char>>,
    depth: nat,
)
    requires
        all_space(w),
        is_operator(op),
    ensures
        spec_eval(w + seq![op] + t, arg, store, depth) == ({
            let x = spec_eval(t, arg, store, depth);
            match x.result {
                Err(_) => x,
                Ok(left) => {
                    let y = spec_eval(x.rest, arg, x.store, depth);
                    match y.result {
                        Err(_) => y,
                        Ok(right) => Outcome {
                            result: spec_apply_operator(op, left, right),
                            rest: y.rest,
                            store: y.store,
                        },
                    }
                },
            }
        }),
{
    let s = w + seq![op] + t;
    lemma_space_then_char(w, op, t);
    lemma_eval_moves_forward(t, arg, store, depth);
    let x = spec_eval(t, arg, store, depth);
    assert(remainder(x.rest, s) == x.rest);
}

/// A number evaluates to itself: the decimal form of `n`, after any whitespace
/// and in front of anything but a digit, yields `n`, and the evaluation stops
/// right behind it.
pub proof fn lemma_number_evaluates_to_itself(
    w: Seq<char>,
    n: nat,
    tail: Seq<char>,
    arg: i32,
    store: Seq<Seq<char>>,
    depth: nat,
)
    requires
        all_space(w),
        n <= i32::MAX,
        tail.len() == 0 || !is_digit(tail[0]),
    ensures
        spec_eval(w + digits(n) + tail, arg, store, depth) == (Outcome {
            result: Ok(n as i32),
            rest: tail,
            store,
        }),
{
    let text = digits(n);
    lemma_digits_are_digits(n);
    lemma_scan_decimal(n);
    lemma_scan_first(text);
    let first = text[0];
    let more = text.drop_first();
    assert(text == seq![first] + more);
    assert(w + text + tail == w + seq![first] + (more + tail));
    lemma_space_then_char(w, first, more + tail);
    assert(all_digits(more)) by {
        assert forall|i: int| 0 <= i < more.len() implies is_digit(#[trigger] more[i]) by {
            assert(more[i] == text[i + 1]);
        }
    }
    lemma_scan_run(digit_value(first) as i32, more, tail);
}

/// An operator between two numbers computes on them: the operator, a number,
/// at least one whitespace character and a second number evaluate to what the
/// operator makes of the two numbers, whatever other whitespace separates the
/// tokens. The sum, the difference and the product are the mathematical ones
/// where an `i32` holds them, the quotient is the integer quotient, and a
/// division by zero fails as such.
pub proof fn lemma_operator_on_numbers(
    op: char,
    a: nat,
    b: nat,
    w0: Seq<char>,
    w1: Seq<char>,
    w2: Seq<char>,
    tail: Seq<char>,
    arg: i32,
    store: Seq<Seq<char>>,
    depth: nat,
)
    requires
        is_operator(op),
        a <= i32::MAX,
        b <= i32::MAX,
        all_space(w0),
        all_space(w1),
        all_space(w2),
        w2.len() > 0,
        tail.len() == 0 || !is_digit(tail[0]),
    ensures
        spec_eval(w0 + seq![op] + w1 + digits(a) + w2 + digits(b) + tail, arg, store, depth) == (
        Outcome { result: spec_apply_operator(op, a as i32, b as i32), rest: tail, store }),
        op == '+' && a + b <= i32::MAX ==> spec_apply_operator(op, a as i32, b as i32) == Ok::<
            i32,
            ParseError,
        >((a + b) as i32),
        op == '-' ==> spec_apply_operator(op, a as i32, b as i32) == Ok::<i32, ParseError>(
            (a - b) as i32,
        ),
        op == '*' && a * b <= i32::MAX ==> spec_apply_operator(op, a as i32, b as i32) == Ok::<
            i32,
            ParseError,
        >((a * b) as i32),
        op == '/' && b != 0 ==> spec_apply_operator(op, a as i32, b as i32) == Ok::<
            i32,
            ParseError,
        >((a / b) as i32),
        op == '/' && b == 0 ==> spec_apply_operator(op, a as i32, b as i32) == Err::<
            i32,
            ParseError,
        >(ParseError::DivisionByZero),
{
    let second = w2 + digits(b) + tail;
    let first = w1 + digits(a) + second;
    assert(w0 + seq![op] + first == w0 + seq![op] + w1 + digits(a) + w2 + digits(b) + tail);
    assert(second[0] == w2[0]);
    lemma_operator_takes_two_expressions(w0, op, first, arg, store, depth);
    lemma_number_evaluates_to_itself(w1, a, second, arg, store, depth);
    lemma_number_evaluates_to_itself(w2, b, tail, arg, store, depth);
    lemma_operator_on_naturals(op, a, b);
}

/// What the operators make of two numbers that are not negative: the
/// mathematical sum, difference and product where an `i32` holds them, the
/// integer quotient, and a failure for a division by zero.
pub proof fn lemma_operator_on_naturals(op: char, a: nat, b: nat)
    requires
        is_operator(op),
        a <= i32::MAX,
        b <= i32::MAX,
    ensures
        op == '+' && a + b <= i32::MAX ==> spec_apply_operator(op, a as i32, b as i32) == Ok::<
            i32,
            ParseError,
        >((a + b) as i32),
        op == '-' ==> spec_apply_operator(op, a as i32, b as i32) == Ok::<i32, ParseError>(
            (a - b) as i32,
        ),
        op == '*' && a * b <= i32::MAX ==> spec_apply_operator(op, a as i32, b as i32) == Ok::<
            i32,
            ParseError,
        >((a * b) as i32),
        op == '/' && b != 0 ==> spec_apply_operator(op, a as i32, b as i32) == Ok::<
            i32,
            ParseError,
        >((a / b) as i32),
        op == '/' && b == 0 ==> spec_apply_operator(op, a as i32, b as i32) == Err::<
            i32,
            ParseError,
        >(ParseError::DivisionByZero),
{
    if op == '*' {
        assert(0 <= a * b) by (nonlinear_arith)
            requires
                a >= 0,
                b >= 0,
        ;
    }
}

/// A character that is no whitespace, at the front of an input, is its first
/// significant character.
pub proof fn lemma_char_in_front(c: char, t: Seq<char>)
    requires
        !is_space(c),
    ensures
        has_significant(seq![c] + t),
        significant(seq![c] + t) == c,
        after_significant(seq![c] + t) == t,
{
    let s = seq![c] + t;
    assert(s[0] == c);
    assert(s.skip(1) == t);
}

/// The placeholder yields the argument, and the character behind it is
/// consumed with it.
pub proof fn lemma_placeholder_is_argument(
    w: Seq<char>,
    t: Seq<char>,
    arg: i32,
    store: Seq<Seq<char>>,
    depth: nat,
)
    requires
        all_space(w),
    ensures
        spec_eval(w + seq!['.'] + t, arg, store, depth) == (Outcome {
            result: Ok(arg),
            rest: after_first(t),
            store,
        }),
{
    lemma_space_then_char(w, '.', t);
}

/// A body that holds no `]` ends where the first `]` behind it stands.
pub proof fn lemma_body_ends_at_bracket(body: Seq<char>, t: Seq<char>)
    requires
        forall|i: int| 0 <= i < body.len() ==> #[trigger] body[i] != ']',
    ensures
        body_len(body + seq![']'] + t) == body.len(),
        body_closes(body + seq![']'] + t),
        (body + seq![']'] + t).take(body.len() as int) == body,
        (body + seq![']'] + t).skip(body.len() as int + 1) == t,
    decreases body.len(),
{
    let s = body + seq![']'] + t;
    if body.len() == 0 {
        assert(s[0] == ']');
    } else {
        assert(s[0] == body[0]);
        assert(s.drop_first() == body.drop_first() + seq![']'] + t);
        lemma_body_ends_at_bracket(body.drop_first(), t);
    }
}

/// A definition only stores its text: the evaluation of a definition and what
/// follows it is the evaluation of what follows it, with the body's text
/// appended to the store.
pub proof fn lemma_definition_stores_text(
    body: Seq<char>,
    t: Seq<char>,
    arg: i32,
    store: Seq<Seq<char>>,
    depth: nat,
)
    requires
        forall|i: int| 0 <= i < body.len() ==> #[trigger] body[i] != ']',
    ensures
        spec_eval(seq!['f', 'n', '['] + body + seq![']'] + t, arg, store, depth) == spec_eval(
            t,
            arg,
            store.push(body),
            depth,
        ),
{
    let s3 = body + seq![']'] + t;
    let s2 = seq!['['] + s3;
    let s1 = seq!['n'] + s2;
    let s = seq!['f'] + s1;
    assert(s == seq!['f', 'n', '['] + body + seq![']'] + t);
    lemma_char_in_front('f', s1);
    lemma_char_in_front('n', s2);
    lemma_char_in_front('[', s3);
    lemma_body_ends_at_bracket(body, t);
}

/// Digits in an argument are gathered as they are: a run of digits at the
/// front of the input goes behind the text gathered so far.
pub proof fn lemma_gather_run(
    run: Seq<char>,
    t: Seq<char>,
    store: Seq<Seq<char>>,
    buffer: Seq<char>,
    depth: nat,
)
    requires
        all_digits(run),
    ensures
        spec_gather(run + t, store, buffer, depth) == spec_gather(t, store, buffer + run, depth),
    decreases run.len(),
{
    if run.len() == 0 {
        assert(run + t == t);
        assert(buffer + run == buffer);
    } else {
        let d = run[0];
        let more = run.drop_first();
        assert(run + t == seq![d] + (more + t));
        lemma_char_in_front(d, more + t);
        lemma_gather_run(more, t, store, buffer.push(d), depth);
        assert(buffer.push(d) + more == buffer + run);
    }
}

/// With a run of digits and the closing `)` ahead, the function is applied to
/// the text gathered so far and that run, and the application ends right
/// behind the `)`.
pub proof fn lemma_gather_digits(
    run: Seq<char>,
    tail: Seq<char>,
    store: Seq<Seq<char>>,
    buffer: Seq<char>,
    depth: nat,
)
    requires
        all_digits(run),
    ensures
        spec_gather(run + seq![')'] + tail, store, buffer, depth) == (Outcome {
            result: spec_eval_string(buffer + run, store, depth).result,
            rest: tail,
            store: spec_eval_string(buffer + run, store, depth).store,
        }),
{
    assert(run + seq![')'] + tail == run + (seq![')'] + tail));
    lemma_gather_run(run, seq![')'] + tail, store, buffer, depth);
    lemma_char_in_front(')', tail);
    lemma_gather_closes(seq![')'] + tail, store, buffer + run, depth);
}

/// The function applied to the decimal form of a number is the first body,
/// evaluated with that number as its argument and with one level of depth
/// less. With no depth left it fails for want of depth.
pub proof fn lemma_function_of_number(n: nat, store: Seq<Seq<char>>, depth: nat)
    requires
        n <= i32::MAX,
        store.len() > 0,
    ensures
        depth > 0 ==> spec_eval_string(digits(n), store, depth) == spec_eval(
            store[0],
            n as i32,
            store,
            (depth - 1) as nat,
        ),
        depth == 0 ==> spec_eval_string(digits(n), store, depth) == (Outcome {
            result: Err(ParseError::DepthExceeded),
            rest: Seq::empty(),
            store,
        }),
{
    let text = digits(n);
    lemma_digits_are_digits(n);
    lemma_scan_decimal(n);
    lemma_scan_first(text);
    assert(text == seq![text[0]] + text.drop_first());
    lemma_char_in_front(text[0], text.drop_first());
}

/// An application substitutes its argument: applying the function to the
/// number `n` evaluates the body that was defined first, from its start, with
/// `n` for every placeholder and with one level of depth less, and ends right
/// behind the closing `)`. With no depth left it fails for want of depth, at
/// the same place and with the store unchanged.
pub proof fn lemma_application_substitutes(
    n: nat,
    tail: Seq<char>,
    arg: i32,
    store: Seq<Seq<char>>,
    depth: nat,
)
    requires
        n <= i32::MAX,
        store.len() > 0,
    ensures
        depth > 0 ==> spec_fn_apply(digits(n) + seq![')'] + tail, store, depth) == (Outcome {
            result: spec_eval(store[0], n as i32, store, (depth - 1) as nat).result,
            rest: tail,
            store: spec_eval(store[0], n as i32, store, (depth - 1) as nat).store,
        }),
        depth == 0 ==> spec_fn_apply(digits(n) + seq![')'] + tail, store, depth) == (Outcome {
            result: Err(ParseError::DepthExceeded),
            rest: tail,
            store,
        }),
        spec_eval(seq!['f', 'n', '('] + digits(n) + seq![')'] + tail, arg, store, depth)
            == spec_fn_apply(digits(n) + seq![')'] + tail, store, depth),
{
    let s3 = digits(n) + seq![')'] + tail;
    let s2 = seq!['('] + s3;
    let s1 = seq!['n'] + s2;
    let s = seq!['f'] + s1;
    assert(s == seq!['f', 'n', '('] + digits(n) + seq![')'] + tail);
    lemma_char_in_front('f', s1);
    lemma_char_in_front('n', s2);
    lemma_char_in_front('(', s3);
    lemma_digits_are_digits(n);
    lemma_gather_digits(digits(n), tail, store, Seq::empty(), depth);
    assert(Seq::<char>::empty() + digits(n) == digits(n));
    lemma_function_of_number(n, store, depth);
}

/// Where the function's body applies nothing, the depth plays no part beyond
/// the one level that the application takes: the application of the function
/// to the number `n` yields what the body yields with `n` for every
/// placeholder, at any depth, and ends right behind the closing `)`.
pub proof fn lemma_application_of_plain_body(
    n: nat,
    tail: Seq<char>,
    store: Seq<Seq<char>>,
    depth: nat,
    other_depth: nat,
)
    requires
        n <= i32::MAX,
        store.len() > 0,
        applies_nothing(store[0]),
        depth > 0,
    ensures
        spec_fn_apply(digits(n) + seq![')'] + tail, store, depth) == (Outcome {
            result: spec_eval(store[0], n as i32, store, other_depth).result,
            rest: tail,
            store: spec_eval(store[0], n as i32, store, other_depth).store,
        }),
{
    lemma_application_substitutes(n, tail, 0, store, depth);
    lemma_unapplied_definitions_are_inert(store[0], n as i32, store, (depth - 1) as nat, 0);
    lemma_unapplied_definitions_are_inert(store[0], n as i32, store, other_depth, 0);
}

/// A function that is defined and then applied to the number `n`, with nothing
/// defined before, yields its own body evaluated with `n` for every
/// placeholder. With no depth left the application fails for want of depth.
pub proof fn lemma_define_then_apply(
    body: Seq<char>,
    w: Seq<char>,
    n: nat,
    tail: Seq<char>,
    arg: i32,
    depth: nat,
)
    requires
        forall|i: int| 0 <= i < body.len() ==> #[trigger] body[i] != ']',
        all_space(w),
        n <= i32::MAX,
    ensures
        depth > 0 ==> spec_eval(
            seq!['f', 'n', '['] + body + seq![']'] + (w + seq!['f', 'n', '('] + digits(n) + seq![
                ')',
            ] + tail),
            arg,
            Seq::empty(),
            depth,
        ).result == spec_eval(body, n as i32, seq![body], (depth - 1) as nat).result,
        depth == 0 ==> spec_eval(
            seq!['f', 'n', '['] + body + seq![']'] + (w + seq!['f', 'n', '('] + digits(n) + seq![
                ')',
            ] + tail),
            arg,
            Seq::empty(),
            depth,
        ).result == Err::<i32, ParseError>(ParseError::DepthExceeded),
{
    let call = seq!['f', 'n', '('] + digits(n) + seq![')'] + tail;
    let store = Seq::<Seq<char>>::empty().push(body);
    assert(store == seq![body]);
    assert(w + seq!['f', 'n', '('] + digits(n) + seq![')'] + tail == w + call);
    lemma_definition_stores_text(body, w + call, arg, Seq::empty(), depth);
    lemma_leading_space_is_insignificant(w, call, arg, store, depth);
    lemma_application_substitutes(n, tail, arg, store, depth);
}

/// Nested applications compose from the inside: where the argument of an
/// application is itself an application that yields `value`, not negative,
/// and the closing `)` follows, the function is applied to `value`. It is the
/// same function: the body defined first.
pub proof fn lemma_nested_application(t: Seq<char>, store: Seq<Seq<char>>, depth: nat)
    requires
        spec_fn_apply(t, store, depth).result is Ok,
        spec_fn_apply(t, store, depth).result->Ok_0 >= 0,
        has_significant(spec_fn_apply(t, store, depth).rest),
        significant(spec_fn_apply(t, store, depth).rest) == ')',
    ensures
        ({
            let inner = spec_fn_apply(t, store, depth);
            let outer = spec_fn_apply(seq!['f', 'n'] + t, store, depth);
            let body = spec_eval(
                store[0],
                inner.result->Ok_0,
                inner.store,
                (depth - 1) as nat,
            );
            &&& depth > 0
            &&& store.len() > 0
            &&& inner.store[0] == store[0]
            &&& outer.result == body.result
            &&& outer.rest == after_significant(inner.rest)
            &&& outer.store == body.store
        }),
{
    let inner = spec_fn_apply(t, store, depth);
    let value = inner.result->Ok_0;
    let text = decimal(value as int);
    lemma_depth_was_left(t, store, depth);
    lemma_fn_apply_moves_forward(t, store, depth);
    assert(inner.store[0] == inner.store.take(store.len() as int)[0]);
    lemma_gather_nested(t, store, Seq::empty(), depth);
    assert(Seq::<char>::empty() + text == text);
    lemma_gather_closes(inner.rest, inner.store, text, depth);
    lemma_function_of_number(value as nat, inner.store, depth);
}

/// A nested application stands for its value: an application whose argument
/// starts with an application that yields `value`, not negative, is the
/// application to the decimal form of `value`, followed by what the inner
/// application left unread, under the store that the inner application left.
pub proof fn lemma_nested_application_is_application_to_value(
    t: Seq<char>,
    store: Seq<Seq<char>>,
    depth: nat,
)
    requires
        spec_fn_apply(t, store, depth).result is Ok,
        spec_fn_apply(t, store, depth).result->Ok_0 >= 0,
    ensures
        spec_fn_apply(seq!['f', 'n'] + t, store, depth) == spec_fn_apply(
            digits(spec_fn_apply(t, store, depth).result->Ok_0 as nat) + spec_fn_apply(
                t,
                store,
                depth,
            ).rest,
            spec_fn_apply(t, store, depth).store,
            depth,
        ),
{
    let inner = spec_fn_apply(t, store, depth);
    let text = digits(inner.result->Ok_0 as nat);
    lemma_fn_apply_moves_forward(t, store, depth);
    lemma_gather_nested(t, store, Seq::empty(), depth);
    lemma_digits_are_digits(inner.result->Ok_0 as nat);
    lemma_gather_run(text, inner.rest, inner.store, Seq::empty(), depth);
}

/// An application in an argument is evaluated first, and the decimal form of
/// its value is gathered in its place.
pub proof fn lemma_gather_nested(
    t: Seq<char>,
    store: Seq<Seq<char>>,
    buffer: Seq<char>,
    depth: nat,
)
    ensures
        spec_gather(seq!['f', 'n'] + t, store, buffer, depth) == (match spec_fn_apply(
            t,
            store,
            depth,
        ).result {
            Err(_) => spec_fn_apply(t, store, depth),
            Ok(value) => spec_gather(
                spec_fn_apply(t, store, depth).rest,
                spec_fn_apply(t, store, depth).store,
                buffer + decimal(value as int),
                depth,
            ),
        }),
{
    let s1 = seq!['n'] + t;
    let s = seq!['f'] + s1;
    assert(s == seq!['f', 'n'] + t);
    lemma_char_in_front('f', s1);
    lemma_char_in_front('n', t);
    lemma_fn_apply_moves_forward(t, store, depth);
    let inner = spec_fn_apply(t, store, depth);
    assert(remainder(inner.rest, s) == inner.rest);
}

/// At the closing `)` the function is applied to the text that was gathered.
pub proof fn lemma_gather_closes(
    s: Seq<char>,
    store: Seq<Seq<char>>,
    buffer: Seq<char>,
    depth: nat,
)
    requires
        has_significant(s),
        significant(s) == ')',
    ensures
        spec_gather(s, store, buffer, depth) == (Outcome {
            result: spec_eval_string(buffer, store, depth).result,
            rest: after_significant(s),
            store: spec_eval_string(buffer, store, depth).store,
        }),
{
}

/// An application that yields a value had depth left: with none, every
/// application fails.
pub proof fn lemma_depth_was_left(s: Seq<char>, store: Seq<Seq<char>>, depth: nat)
    requires
        spec_fn_apply(s, store, depth).result is Ok,
    ensures
        depth > 0,
{
    if depth == 0 {
        lemma_gather_fails_without_depth(s, store, Seq::empty());
    }
}

/// With no depth left, gathering an argument fails.
pub proof fn lemma_gather_fails_without_depth(
    s: Seq<char>,
    store: Seq<Seq<char>>,
    buffer: Seq<char>,
)
    ensures
        spec_gather(s, store, buffer, 0).result is Err,
    decreases s.len(),
{
    lemma_space_run_bound(s);
    if has_significant(s) {
        let c = significant(s);
        let s1 = after_significant(s);
        lemma_space_run_bound(s1);
        if c == '(' {
            lemma_gather_fails_without_depth(s1, store, buffer);
        } else if c == ')' {
            assert(spec_eval_string(buffer, store, 0).result is Err);
        } else if c == 'f' {
            if has_significant(s1) {
                let s2 = after_significant(s1);
                if significant(s1) == 'n' {
                    if store.len() > 0 {
                        lemma_gather_fails_without_depth(s2, store, Seq::empty());
                    }
                    assert(spec_fn_apply(s2, store, 0).result is Err);
                } else {
                    lemma_gather_fails_without_depth(s2, store, buffer.push(c));
                }
            }
        } else {
            lemma_gather_fails_without_depth(s1, store, buffer.push(c));
        }
    }
}

/// An application before any definition fails as unbound, whatever its
/// argument and whatever follows it.
pub proof fn lemma_unbound_application(t: Seq<char>, arg: i32, depth: nat)
    ensures
        spec_eval(seq!['f', 'n', '('] + t, arg, Seq::empty(), depth).result == Err::<
            i32,
            ParseError,
        >(ParseError::UnboundApplication),
        spec_fn_apply(t, Seq::empty(), depth).result == Err::<i32, ParseError>(
            ParseError::UnboundApplication,
        ),
        spec_eval_string(t, Seq::empty(), depth).result == Err::<i32, ParseError>(
            ParseError::UnboundApplication,
        ),
        spec_evaluate(seq!['f', 'n', '('] + t, depth) == Err::<i32, ParseError>(
            ParseError::UnboundApplication,
        ),
{
    let s2 = seq!['('] + t;
    let s1 = seq!['n'] + s2;
    let s = seq!['f'] + s1;
    assert(s == seq!['f', 'n', '('] + t);
    lemma_char_in_front('f', s1);
    lemma_char_in_front('n', s2);
    lemma_char_in_front('(', t);
}

/// Whether `s` holds no `(`: nothing in it can start an application.
pub open spec fn applies_nothing(s: Seq<char>) -> bool {
    forall|i: int| 0 <= i < s.len() ==> #[trigger] s[i] != '('
}

/// An end of an input without `(` holds none either.
pub proof fn lemma_suffix_applies_nothing(t: Seq<char>, s: Seq<char>)
    requires
        is_suffix(t, s),
        applies_nothing(s),
    ensures
        applies_nothing(t),
{
    assert forall|i: int| 0 <= i < t.len() implies #[trigger] t[i] != '(' by {
        assert(t[i] == s[s.len() - t.len() + i]);
    }
}

/// Definitions that are never applied change nothing but the store: an input
/// without `(` evaluates to the same result, and leaves the same input unread,
/// whatever the store holds and whatever depth is allowed. The bodies that it
/// defines are appended to the store.
pub proof fn lemma_unapplied_definitions_are_inert(
    s: Seq<char>,
    arg: i32,
    store: Seq<Seq<char>>,
    depth: nat,
    other_depth: nat,
)
    requires
        applies_nothing(s),
    ensures
        spec_eval(s, arg, store, depth).result == spec_eval(
            s,
            arg,
            Seq::empty(),
            other_depth,
        ).result,
        spec_eval(s, arg, store, depth).rest == spec_eval(s, arg, Seq::empty(), other_depth).rest,
        spec_eval(s, arg, store, depth).store == store + spec_eval(
            s,
            arg,
            Seq::empty(),
            other_depth,
        ).store,
    decreases s.len(),
{
    let none = Seq::<Seq<char>>::empty();
    lemma_space_run_bound(s);
    assert(store + none == store);
    if has_significant(s) {
        let c = significant(s);
        let s1 = after_significant(s);
        lemma_space_run_bound(s1);
        lemma_suffix_applies_nothing(s1, s);
        if c == 'f' {
            if has_significant(s1) && significant(s1) == 'n' {
                let s2 = after_significant(s1);
                lemma_space_run_bound(s2);
                lemma_suffix_applies_nothing(s2, s1);
                if has_significant(s2) {
                    let s3 = after_significant(s2);
                    assert(significant(s2) != '(');
                    if significant(s2) == '[' && body_closes(s3) {
                        let s4 = s3.skip(body_len(s3) as int + 1);
                        let body = s3.take(body_len(s3) as int);
                        lemma_suffix_applies_nothing(s3, s2);
                        assert(is_suffix(s4, s3));
                        lemma_suffix_applies_nothing(s4, s3);
                        lemma_unapplied_definitions_are_inert(
                            s4,
                            arg,
                            store.push(body),
                            depth,
                            other_depth,
                        );
                        lemma_unapplied_definitions_are_inert(
                            s4,
                            arg,
                            none.push(body),
                            other_depth,
                            other_depth,
                        );
                        let z = spec_eval(s4, arg, none, other_depth);
                        assert(store.push(body) + z.store == store + (none.push(body) + z.store));
                    }
                }
            }
        } else if is_operator(c) {
            lemma_unapplied_definitions_are_inert(s1, arg, store, depth, other_depth);
            let x = spec_eval(s1, arg, store, depth);
            let x0 = spec_eval(s1, arg, none, other_depth);
            lemma_eval_moves_forward(s1, arg, store, depth);
            assert(remainder(x.rest, s) == x.rest);
            if x.result is Ok {
                lemma_suffix_applies_nothing(x.rest, s1);
                lemma_unapplied_definitions_are_inert(x.rest, arg, x.store, depth, other_depth);
                lemma_unapplied_definitions_are_inert(
                    x.rest,
                    arg,
                    x0.store,
                    other_depth,
                    other_depth,
                );
                let z = spec_eval(x.rest, arg, none, other_depth);
                assert((store + x0.store) + z.store == store + (x0.store + z.store));
            }
        }
    }
}

/// The depth only bounds an evaluation: one that does not fail for want of
/// depth ends in the same way with any greater depth.
pub proof fn lemma_depth_only_bounds_eval(
    s: Seq<char>,
    arg: i32,
    store: Seq<Seq<char>>,
    depth: nat,
    more: nat,
)
    requires
        depth <= more,
        spec_eval(s, arg, store, depth).result != Err::<i32, ParseError>(
            ParseError::DepthExceeded,
        ),
    ensures
        spec_eval(s, arg, store, more) == spec_eval(s, arg, store, depth),
    decreases depth, s.len(), 1int,
{
    lemma_space_run_bound(s);
    if has_significant(s) {
        let c = significant(s);
        let s1 = after_significant(s);
        lemma_space_run_bound(s1);
        if c == 'f' {
            if has_significant(s1) && significant(s1) == 'n' {
                let s2 = after_significant(s1);
                lemma_space_run_bound(s2);
                if has_significant(s2) {
                    let s3 = after_significant(s2);
                    if significant(s2) == '[' {
                        if body_closes(s3) {
                            lemma_depth_only_bounds_eval(
                                s3.skip(body_len(s3) as int + 1),
                                arg,
                                store.push(s3.take(body_len(s3) as int)),
                                depth,
                                more,
                            );
                        }
                    } else if significant(s2) == '(' {
                        lemma_depth_only_bounds_fn_apply(s3, store, depth, more);
                    }
                }
            }
        } else if is_operator(c) {
            let x = spec_eval(s1, arg, store, depth);
            lemma_depth_only_bounds_eval(s1, arg, store, depth, more);
            if x.result is Ok {
                lemma_depth_only_bounds_eval(remainder(x.rest, s), arg, x.store, depth, more);
            }
        }
    }
}

/// The depth only bounds an application.
pub proof fn lemma_depth_only_bounds_fn_apply(
    s: Seq<char>,
    store: Seq<Seq<char>>,
    depth: nat,
    more: nat,
)
    requires
        depth <= more,
        spec_fn_apply(s, store, depth).result != Err::<i32, ParseError>(
            ParseError::DepthExceeded,
        ),
    ensures
        spec_fn_apply(s, store, more) == spec_fn_apply(s, store, depth),
    decreases depth, s.len(), 1int,
{
    if store.len() > 0 {
        lemma_depth_only_bounds_gather(s, store, Seq::empty(), depth, more);
    }
}

/// The depth only bounds the gathering of an argument.
pub proof fn lemma_depth_only_bounds_gather(
    s: Seq<char>,
    store: Seq<Seq<char>>,
    buffer: Seq<char>,
    depth: nat,
    more: nat,
)
    requires
        depth <= more,
        spec_gather(s, store, buffer, depth).result != Err::<i32, ParseError>(
            ParseError::DepthExceeded,
        ),
    ensures
        spec_gather(s, store, buffer, more) == spec_gather(s, store, buffer, depth),
    decreases depth, s.len(), 0int,
{
    lemma_space_run_bound(s);
    if has_significant(s) {
        let c = significant(s);
        let s1 = after_significant(s);
        lemma_space_run_bound(s1);
        if c == '(' {
            lemma_depth_only_bounds_gather(s1, store, buffer, depth, more);
        } else if c == ')' {
            lemma_depth_only_bounds_eval_string(buffer, store, depth, more);
        } else if c == 'f' {
            if has_significant(s1) {
                let s2 = after_significant(s1);
                if significant(s1) == 'n' {
                    let inner = spec_fn_apply(s2, store, depth);
                    lemma_depth_only_bounds_fn_apply(s2, store, depth, more);
                    if let Ok(value) = inner.result {
                        lemma_depth_only_bounds_gather(
                            remainder(inner.rest, s),
                            inner.store,
                            buffer + decimal(value as int),
                            depth,
                            more,
                        );
                    }
                } else {
                    lemma_depth_only_bounds_gather(s2, store, buffer.push(c), depth, more);
                }
            }
        } else {
            lemma_depth_only_bounds_gather(s1, store, buffer.push(c), depth, more);
        }
    }
}

/// The depth only bounds the function's evaluation.
pub proof fn lemma_depth_only_bounds_eval_string(
    buffer: Seq<char>,
    store: Seq<Seq<char>>,
    depth: nat,
    more: nat,
)
    requires
        depth <= more,
        spec_eval_string(buffer, store, depth).result != Err::<i32, ParseError>(
            ParseError::DepthExceeded,
        ),
    ensures
        spec_eval_string(buffer, store, more) == spec_eval_string(buffer, store, depth),
    decreases depth, 0int, 0int,
{
    if store.len() > 0 && has_significant(buffer) && is_digit(significant(buffer)) && depth > 0 {
        lemma_depth_only_bounds_eval(
            store[0],
            scan_digits(digit_value(significant(buffer)) as i32, after_significant(buffer)),
            store,
            (depth - 1) as nat,
            (more - 1) as nat,
        );
    }
}

/// Whether two stores hold the same function: both hold a body, and the body
/// that was defined first is the same in both.
pub open spec fn same_function(a: Seq<Seq<char>>, b: Seq<Seq<char>>) -> bool {
    a.len() > 0 && b.len() > 0 && a[0] == b[0]
}

/// A store that grew still holds the function that it held.
pub proof fn lemma_extended_store_keeps_function(later: Seq<Seq<char>>, earlier: Seq<Seq<char>>)
    requires
        extends(later, earlier),
        earlier.len() > 0,
    ensures
        same_function(later, earlier),
{
    assert(later[0] == later.take(earlier.len() as int)[0]);
}

/// Only the body that was defined first counts: with two stores that hold the
/// same first body, an evaluation yields the same result and leaves the same
/// input unread, whatever bodies were defined later.
pub proof fn lemma_later_bodies_are_inert_eval(
    s: Seq<char>,
    arg: i32,
    a: Seq<Seq<char>>,
    b: Seq<Seq<char>>,
    depth: nat,
)
    requires
        same_function(a, b),
    ensures
        spec_eval(s, arg, a, depth).result == spec_eval(s, arg, b, depth).result,
        spec_eval(s, arg, a, depth).rest == spec_eval(s, arg, b, depth).rest,
        same_function(spec_eval(s, arg, a, depth).store, spec_eval(s, arg, b, depth).store),
    decreases depth, s.len(), 1int,
{
    lemma_eval_moves_forward(s, arg, a, depth);
    lemma_eval_moves_forward(s, arg, b, depth);
    lemma_extended_store_keeps_function(spec_eval(s, arg, a, depth).store, a);
    lemma_extended_store_keeps_function(spec_eval(s, arg, b, depth).store, b);
    lemma_space_run_bound(s);
    if has_significant(s) {
        let c = significant(s);
        let s1 = after_significant(s);
        lemma_space_run_bound(s1);
        if c == 'f' {
            if has_significant(s1) && significant(s1) == 'n' {
                let s2 = after_significant(s1);
                lemma_space_run_bound(s2);
                if has_significant(s2) {
                    let s3 = after_significant(s2);
                    if significant(s2) == '[' {
                        if body_closes(s3) {
                            let body = s3.take(body_len(s3) as int);
                            lemma_later_bodies_are_inert_eval(
                                s3.skip(body_len(s3) as int + 1),
                                arg,
                                a.push(body),
                                b.push(body),
                                depth,
                            );
                        }
                    } else if significant(s2) == '(' {
                        lemma_later_bodies_are_inert_fn_apply(s3, a, b, depth);
                    }
                }
            }
        } else if is_operator(c) {
            lemma_later_bodies_are_inert_eval(s1, arg, a, b, depth);
            let x = spec_eval(s1, arg, a, depth);
            let y = spec_eval(s1, arg, b, depth);
            if x.result is Ok {
                lemma_later_bodies_are_inert_eval(
                    remainder(x.rest, s),
                    arg,
                    x.store,
                    y.store,
                    depth,
                );
            }
        }
    }
}

/// Only the body that was defined first counts in an application.
pub proof fn lemma_later_bodies_are_inert_fn_apply(
    s: Seq<char>,
    a: Seq<Seq<char>>,
    b: Seq<Seq<char>>,
    depth: nat,
)
    requires
        same_function(a, b),
    ensures
        spec_fn_apply(s, a, depth).result == spec_fn_apply(s, b, depth).result,
        spec_fn_apply(s, a, depth).rest == spec_fn_apply(s, b, depth).rest,
        same_function(spec_fn_apply(s, a, depth).store, spec_fn_apply(s, b, depth).store),
    decreases depth, s.len(), 1int,
{
    lemma_later_bodies_are_inert_gather(s, a, b, Seq::empty(), depth);
}

/// Only the body that was defined first counts while an argument is gathered.
pub proof fn lemma_later_bodies_are_inert_gather(
    s: Seq<char>,
    a: Seq<Seq<char>>,
    b: Seq<Seq<char>>,
    buffer: Seq<char>,
    depth: nat,
)
    requires
        same_function(a, b),
    ensures
        spec_gather(s, a, buffer, depth).result == spec_gather(s, b, buffer, depth).result,
        spec_gather(s, a, buffer, depth).rest == spec_gather(s, b, buffer, depth).rest,
        same_function(
            spec_gather(s, a, buffer, depth).store,
            spec_gather(s, b, buffer, depth).store,
        ),
    decreases depth, s.len(), 0int,
{
    lemma_gather_moves_forward(s, a, buffer, depth);
    lemma_gather_moves_forward(s, b, buffer, depth);
    lemma_extended_store_keeps_function(spec_gather(s, a, buffer, depth).store, a);
    lemma_extended_store_keeps_function(spec_gather(s, b, buffer, depth).store, b);
    lemma_space_run_bound(s);
    if has_significant(s) {
        let c = significant(s);
        let s1 = after_significant(s);
        lemma_space_run_bound(s1);
        if c == '(' {
            lemma_later_bodies_are_inert_gather(s1, a, b, buffer, depth);
        } else if c == ')' {
            lemma_later_bodies_are_inert_eval_string(buffer, a, b, depth);
        } else if c == 'f' {
            if has_significant(s1) {
                let s2 = after_significant(s1);
                if significant(s1) == 'n' {
                    lemma_later_bodies_are_inert_fn_apply(s2, a, b, depth);
                    let x = spec_fn_apply(s2, a, depth);
                    let y = spec_fn_apply(s2, b, depth);
                    if let Ok(value) = x.result {
                        lemma_later_bodies_are_inert_gather(
                            remainder(x.rest, s),
                            x.store,
                            y.store,
                            buffer + decimal(value as int),
                            depth,
                        );
                    }
                } else {
                    lemma_later_bodies_are_inert_gather(s2, a, b, buffer.push(c), depth);
                }
            }
        } else {
            lemma_later_bodies_are_inert_gather(s1, a, b, buffer.push(c), depth);
        }
    }
}

/// Only the body that was defined first counts where the function is applied
/// to a number.
pub proof fn lemma_later_bodies_are_inert_eval_string(
    buffer: Seq<char>,
    a: Seq<Seq<char>>,
    b: Seq<Seq<char>>,
    depth: nat,
)
    requires
        same_function(a, b),
    ensures
        spec_eval_string(buffer, a, depth).result == spec_eval_string(buffer, b, depth).result,
        spec_eval_string(buffer, a, depth).rest == spec_eval_string(buffer, b, depth).rest,
        same_function(
            spec_eval_string(buffer, a, depth).store,
            spec_eval_string(buffer, b, depth).store,
        ),
    decreases depth, 0int, 0int,
{
    if has_significant(buffer) && is_digit(significant(buffer)) && depth > 0 {
        lemma_later_bodies_are_inert_eval(
            a[0],
            scan_digits(digit_value(significant(buffer)) as i32, after_significant(buffer)),
            a,
            b,
            (depth - 1) as nat,
        );
    }
}

/// Whether `s` holds no `]`: nothing in it can end a definition.
pub open spec fn defines_nothing(s: Seq<char>) -> bool {
    forall|i: int| 0 <= i < s.len() ==> #[trigger] s[i] != ']'
}

/// An end of an input without `]` holds none either.
pub proof fn lemma_suffix_defines_nothing(t: Seq<char>, s: Seq<char>)
    requires
        is_suffix(t, s),
        defines_nothing(s),
    ensures
        defines_nothing(t),
{
    assert forall|i: int| 0 <= i < t.len() implies #[trigger] t[i] != ']' by {
        assert(t[i] == s[s.len() - t.len() + i]);
    }
}

/// Without a `]` nothing is defined: an input that holds none, evaluated
/// where the function's body holds none either, leaves the store as it was.
pub proof fn lemma_eval_defines_nothing(
    s: Seq<char>,
    arg: i32,
    store: Seq<Seq<char>>,
    depth: nat,
)
    requires
        defines_nothing(s),
        store.len() > 0 ==> defines_nothing(store[0]),
    ensures
        spec_eval(s, arg, store, depth).store == store,
    decreases depth, s.len(), 1int,
{
    lemma_space_run_bound(s);
    if has_significant(s) {
        let c = significant(s);
        let s1 = after_significant(s);
        lemma_space_run_bound(s1);
        lemma_suffix_defines_nothing(s1, s);
        if c == 'f' {
            if has_significant(s1) && significant(s1) == 'n' {
                let s2 = after_significant(s1);
                lemma_space_run_bound(s2);
                if has_significant(s2) {
                    let s3 = after_significant(s2);
                    lemma_suffix_defines_nothing(s2, s1);
                    lemma_suffix_defines_nothing(s3, s2);
                    if significant(s2) == '[' {
                        lemma_body_len_bound(s3);
                    } else if significant(s2) == '(' {
                        lemma_fn_apply_defines_nothing(s3, store, depth);
                    }
                }
            }
        } else if is_operator(c) {
            lemma_eval_defines_nothing(s1, arg, store, depth);
            let x = spec_eval(s1, arg, store, depth);
            if x.result is Ok {
                lemma_eval_moves_forward(s1, arg, store, depth);
                lemma_suffix_defines_nothing(x.rest, s1);
                lemma_eval_defines_nothing(remainder(x.rest, s), arg, store, depth);
            }
        }
    }
}

/// An application never changes the store where the function's body holds no
/// `]`, whatever the argument.
pub proof fn lemma_fn_apply_defines_nothing(s: Seq<char>, store: Seq<Seq<char>>, depth: nat)
    requires
        store.len() > 0 ==> defines_nothing(store[0]),
    ensures
        spec_fn_apply(s, store, depth).store == store,
    decreases depth, s.len(), 1int,
{
    if store.len() > 0 {
        lemma_gather_defines_nothing(s, store, Seq::empty(), depth);
    }
}

/// Gathering an argument never changes the store where the function's body
/// holds no `]`.
pub proof fn lemma_gather_defines_nothing(
    s: Seq<char>,
    store: Seq<Seq<char>>,
    buffer: Seq<char>,
    depth: nat,
)
    requires
        store.len() > 0 ==> defines_nothing(store[0]),
    ensures
        spec_gather(s, store, buffer, depth).store == store,
    decreases depth, s.len(), 0int,
{
    lemma_space_run_bound(s);
    if has_significant(s) {
        let c = significant(s);
        let s1 = after_significant(s);
        lemma_space_run_bound(s1);
        if c == '(' {
            lemma_gather_defines_nothing(s1, store, buffer, depth);
        } else if c == ')' {
            lemma_eval_string_defines_nothing(buffer, store, depth);
        } else if c == 'f' {
            if has_significant(s1) {
                let s2 = after_significant(s1);
                if significant(s1) == 'n' {
                    lemma_fn_apply_defines_nothing(s2, store, depth);
                    let inner = spec_fn_apply(s2, store, depth);
                    if let Ok(value) = inner.result {
                        lemma_gather_defines_nothing(
                            remainder(inner.rest, s),
                            store,
                            buffer + decimal(value as int),
                            depth,
                        );
                    }
                } else {
                    lemma_gather_defines_nothing(s2, store, buffer.push(c), depth);
                }
            }
        } else {
            lemma_gather_defines_nothing(s1, store, buffer.push(c), depth);
        }
    }
}

/// Applying the function to a number never changes the store where the
/// function's body holds no `]`.
pub proof fn lemma_eval_string_defines_nothing(
    buffer: Seq<char>,
    store: Seq<Seq<char>>,
    depth: nat,
)
    requires
        store.len() > 0 ==> defines_nothing(store[0]),
    ensures
        spec_eval_string(buffer, store, depth).store == store,
    decreases depth, 0int, 0int,
{
    if store.len() > 0 && has_significant(buffer) && is_digit(significant(buffer)) && depth > 0 {
        lemma_eval_defines_nothing(
            store[0],
            scan_digits(digit_value(significant(buffer)) as i32, after_significant(buffer)),
            store,
            (depth - 1) as nat,
        );
    }
}

/// A number token ends in front of the first character that is no digit, and
/// the next token is looked for from there.
pub proof fn lemma_lex_number(s: Seq<char>)
    requires
        has_significant(s),
        is_digit(significant(s)),
    ensures
        spec_lex(s) == extend(
            seq![
                TokenKind::Number(
                    scan_digits(digit_value(significant(s)) as i32, after_significant(s)),
                ),
            ],
            spec_lex(skip_digits(after_significant(s))),
        ),
{
    lemma_space_run_bound(s);
    lemma_skip_digits_suffix(after_significant(s));
    assert(remainder(skip_digits(after_significant(s)), s) == skip_digits(after_significant(s)));
}

/// Splitting an input into tokens fails for want of input only inside the
/// function keyword: where the input ends with the letter `f`. The end of the
/// input anywhere else ends the tokens and is no failure.
pub proof fn lemma_lex_eof_only_inside_keyword(s: Seq<char>)
    requires
        spec_lex(s) == Err::<Seq<TokenKind>, LexError>(LexError::Eof),
    ensures
        s.len() > 0,
        s.last() == 'f',
    decreases s.len(),
{
    lemma_space_run_bound(s);
    let c = significant(s);
    let s1 = after_significant(s);
    if symbol(c) is Some {
        lemma_lex_eof_only_inside_keyword(s1);
        assert(s1.last() == s.last());
    } else if c == 'f' {
        if s1.len() > 0 {
            let s2 = s1.drop_first();
            lemma_lex_eof_only_inside_keyword(s2);
            assert(s2.last() == s1.last());
            assert(s1.last() == s.last());
        }
    } else {
        let s2 = skip_digits(s1);
        lemma_skip_digits_suffix(s1);
        assert(remainder(s2, s) == s2);
        lemma_lex_eof_only_inside_keyword(s2);
        assert(s2.last() == s1.last());
        assert(s1.last() == s.last());
    }
}

/// Whitespace in front of an input changes nothing about its tokens.
pub proof fn lemma_lex_ignores_leading_space(w: Seq<char>, s: Seq<char>)
    requires
        all_space(w),
    ensures
        spec_lex(w + s) == spec_lex(s),
{
    lemma_space_in_front(w, s);
    lemma_space_run_bound(s);
    lemma_space_run_bound(w + s);
    if has_significant(s) {
        lemma_skip_digits_suffix(after_significant(s));
    }
}

} // verus!
