use prefix_calc::{
    convert_to_numeric, eval, eval_string, evaluate, extract_next_char, fn_apply, fn_define,
    Cursor, ParseError,
};

const DEPTH: usize = 64;

fn gen_vec() -> Vec<String> {
    vec![]
}

fn rest(chars: &mut Cursor) -> String {
    let mut out = String::new();
    while let Some(c) = chars.next() {
        out.push(c);
    }
    out
}

#[test]
fn arithmetic_operation() {
    assert_eq!(eval(&mut Cursor::new("+ 30 20"), 0, &mut gen_vec(), DEPTH).unwrap(), 50);
    assert_eq!(
        eval(&mut Cursor::new("+ 40 + 10 20"), 0, &mut gen_vec(), DEPTH).unwrap(),
        70
    );
    assert_eq!(
        eval(&mut Cursor::new("+ + 100 10 20"), 0, &mut gen_vec(), DEPTH).unwrap(),
        130
    );
    assert_eq!(
        eval(&mut Cursor::new("+ 200 1"), 0, &mut gen_vec(), DEPTH).unwrap(),
        201
    );
    assert_eq!(eval(&mut Cursor::new("- 30 20"), 0, &mut gen_vec(), DEPTH).unwrap(), 10);
    assert_eq!(
        eval(&mut Cursor::new("- 20 30"), 0, &mut gen_vec(), DEPTH).unwrap(),
        -10
    );
    assert_eq!(
        eval(&mut Cursor::new("* 10 10"), 0, &mut gen_vec(), DEPTH).unwrap(),
        100
    );
    assert_eq!(eval(&mut Cursor::new("/ 100 5"), 0, &mut gen_vec(), DEPTH).unwrap(), 20);
}

#[test]
fn function() {
    assert_eq!(
        eval(&mut Cursor::new("fn[+ . .] fn(1)"), 0, &mut gen_vec(), DEPTH).unwrap(),
        2
    );
    assert_eq!(
        eval(&mut Cursor::new("fn[+ . .] fn(10)"), 0, &mut gen_vec(), DEPTH).unwrap(),
        20
    );
    assert_eq!(
        eval(&mut Cursor::new("fn[+ . 2] fn(5)"), 0, &mut gen_vec(), DEPTH).unwrap(),
        7
    );
    assert_eq!(
        eval(&mut Cursor::new("fn[* . 2] fn(5)"), 0, &mut gen_vec(), DEPTH).unwrap(),
        10
    );
    assert_eq!(
        eval(&mut Cursor::new("fn[* . .] fn(10)"), 0, &mut gen_vec(), DEPTH).unwrap(),
        100
    );
    assert_eq!(
        eval(&mut Cursor::new("fn[* . .] fn(fn(2))"), 0, &mut gen_vec(), DEPTH).unwrap(),
        16
    );
    assert_eq!(
        eval(&mut Cursor::new("fn[* . .] fn(fn(fn(2)))"), 0, &mut gen_vec(), DEPTH).unwrap(),
        256
    );
    assert_eq!(
        eval(
            &mut Cursor::new("fn[* . .] fn(fn(fn(fn(2))))"),
            0,
            &mut gen_vec(),
            DEPTH
        )
        .unwrap(),
        65536
    );
}

#[test]
fn operators_nest_by_position() {
    assert_eq!(evaluate("+ 40 + 10 20", DEPTH), Ok(70));
    assert_eq!(evaluate("+ + 100 10 20", DEPTH), Ok(130));
    assert_eq!(evaluate("- 100 * 3 + 4 5", DEPTH), Ok(73));
    assert_eq!(evaluate("/ - 0 7 2", DEPTH), Ok(-3));
    assert_eq!(evaluate("/ 7 - 0 2", DEPTH), Ok(-3));
    assert_eq!(evaluate("/ - 0 7 - 0 2", DEPTH), Ok(3));
}

#[test]
fn whitespace_only_separates() {
    assert_eq!(evaluate("+30 20", DEPTH), Ok(50));
    assert_eq!(evaluate("+ 30 20", DEPTH), Ok(50));
    assert_eq!(evaluate("  \t+\n30\u{a0}20  ", DEPTH), Ok(50));
    assert_eq!(evaluate("+ 1+ 2 3", DEPTH), Ok(6));
    assert_eq!(evaluate("+ 1 + 2 3", DEPTH), Ok(6));
    assert_eq!(evaluate("fn[+ . 1]fn(4)", DEPTH), Ok(5));
    assert_eq!(evaluate(" f n [+ . 1] f n ( 4 )", DEPTH), Ok(5));
}

#[test]
fn numbers_wrap() {
    assert_eq!(evaluate("2147483647", DEPTH), Ok(i32::MAX));
    assert_eq!(evaluate("2147483648", DEPTH), Ok(i32::MIN));
    assert_eq!(evaluate("4294967297", DEPTH), Ok(1));
    assert_eq!(evaluate("+ 2147483647 1", DEPTH), Ok(i32::MIN));
    assert_eq!(evaluate("- 2147483648 1", DEPTH), Ok(i32::MAX));
    assert_eq!(evaluate("* 65536 65536", DEPTH), Ok(0));
    assert_eq!(evaluate("/ 2147483648 - 0 1", DEPTH), Ok(i32::MIN));
    assert_eq!(evaluate("007", DEPTH), Ok(7));
}

#[test]
fn division_by_zero_fails() {
    assert_eq!(evaluate("/ 5 0", DEPTH), Err(ParseError::DivisionByZero));
    assert_eq!(evaluate("/ 0 0", DEPTH), Err(ParseError::DivisionByZero));
    assert_eq!(evaluate("+ 1 / 5 - 3 3", DEPTH), Err(ParseError::DivisionByZero));
    assert_eq!(evaluate("/ 0 5", DEPTH), Ok(0));
}

#[test]
fn application_before_definition_fails() {
    assert_eq!(evaluate("fn(1)", DEPTH), Err(ParseError::UnboundApplication));
    assert_eq!(evaluate("+ 1 fn(2)", DEPTH), Err(ParseError::UnboundApplication));
    assert_eq!(evaluate("fn(", DEPTH), Err(ParseError::UnboundApplication));
    let mut chars = Cursor::new("7) 8");
    let mut store = gen_vec();
    assert_eq!(fn_apply(&mut chars, &mut store, DEPTH), Err(ParseError::UnboundApplication));
    assert_eq!(rest(&mut chars), "7) 8");
    assert_eq!(eval_string("7".to_string(), &mut store, DEPTH), Err(ParseError::UnboundApplication));
    assert!(store.is_empty());
}

#[test]
fn end_of_input() {
    assert_eq!(evaluate("", DEPTH), Err(ParseError::Eof));
    assert_eq!(evaluate("   ", DEPTH), Err(ParseError::Eof));
    assert_eq!(evaluate("+ 1", DEPTH), Err(ParseError::Eof));
    assert_eq!(evaluate("f", DEPTH), Err(ParseError::Eof));
    assert_eq!(evaluate("fn", DEPTH), Err(ParseError::Eof));
    assert_eq!(evaluate("fn[+ . .", DEPTH), Err(ParseError::Eof));
    assert_eq!(evaluate("fn[+ . .]", DEPTH), Err(ParseError::Eof));
    assert_eq!(evaluate("fn[.] fn(1", DEPTH), Err(ParseError::Eof));
    assert_eq!(evaluate("fn[.] fn()", DEPTH), Err(ParseError::Eof));
    assert_eq!(evaluate("fn[.] fn(f", DEPTH), Err(ParseError::Eof));
}

#[test]
fn unexpected_character() {
    assert_eq!(evaluate("a", DEPTH), Err(ParseError::UnexpectedError));
    assert_eq!(evaluate("+ 1 x", DEPTH), Err(ParseError::UnexpectedError));
    assert_eq!(evaluate("fx", DEPTH), Err(ParseError::UnexpectedError));
    assert_eq!(evaluate("fn 1", DEPTH), Err(ParseError::UnexpectedError));
    assert_eq!(evaluate("fn{1}", DEPTH), Err(ParseError::UnexpectedError));
    assert_eq!(evaluate(")", DEPTH), Err(ParseError::UnexpectedError));
    assert_eq!(evaluate("fn[.] fn(.)", DEPTH), Err(ParseError::UnexpectedError));
    assert_eq!(evaluate("fn[- 0 .] fn(fn(5))", DEPTH), Err(ParseError::UnexpectedError));
}

#[test]
fn depth_bounds_nested_bodies() {
    assert_eq!(evaluate("fn[+ . 1] fn(1)", 0), Err(ParseError::DepthExceeded));
    assert_eq!(evaluate("fn[+ . 1] fn(1)", 1), Ok(2));
    assert_eq!(evaluate("fn[+ . 1] fn(fn(fn(1)))", 1), Ok(4));
    assert_eq!(evaluate("fn[fn(1)] fn(1)", 1), Err(ParseError::DepthExceeded));
    assert_eq!(evaluate("fn[fn(1)] fn(1)", 50), Err(ParseError::DepthExceeded));
    assert_eq!(evaluate("+ 1 2", 0), Ok(3));
}

#[test]
fn placeholder_takes_the_character_behind_it() {
    assert_eq!(eval(&mut Cursor::new(". 5"), 9, &mut gen_vec(), DEPTH), Ok(9));
    let mut chars = Cursor::new(".x7");
    assert_eq!(eval(&mut chars, 9, &mut gen_vec(), DEPTH), Ok(9));
    assert_eq!(rest(&mut chars), "7");
    assert_eq!(evaluate(".", DEPTH), Ok(0));
    assert_eq!(evaluate("+ . .", DEPTH), Ok(0));
    assert_eq!(evaluate("fn[* .2] fn(3)", DEPTH), Err(ParseError::Eof));
}

#[test]
fn definition_only_stores_its_text() {
    let mut store = gen_vec();
    let mut chars = Cursor::new("fn[+ . .] 5 6");
    assert_eq!(eval(&mut chars, 0, &mut store, DEPTH), Ok(5));
    assert_eq!(store, vec!["+ . .".to_string()]);
    assert_eq!(rest(&mut chars), " 6");

    let mut store = gen_vec();
    assert_eq!(
        eval(&mut Cursor::new("fn[a] fn[ b ] + 1 fn[]2"), 0, &mut store, DEPTH),
        Ok(3)
    );
    assert_eq!(store, vec!["a".to_string(), " b ".to_string(), "".to_string()]);
}

#[test]
fn first_definition_wins() {
    assert_eq!(evaluate("fn[+ . 1] fn[* . 100] fn(5)", DEPTH), Ok(6));
    let mut store = vec!["- . 1".to_string(), "+ . 1".to_string()];
    assert_eq!(eval(&mut Cursor::new("fn(5)"), 0, &mut store, DEPTH), Ok(4));
    assert_eq!(store.len(), 2);
}

#[test]
fn body_may_define() {
    let mut store = vec!["fn[x] + . 1".to_string()];
    assert_eq!(eval(&mut Cursor::new("fn(fn(1))"), 0, &mut store, DEPTH), Ok(3));
    assert_eq!(
        store,
        vec!["fn[x] + . 1".to_string(), "x".to_string(), "x".to_string()]
    );
}

#[test]
fn nested_application_is_reduced_first() {
    assert_eq!(evaluate("fn[* . .] fn(fn(2)))", DEPTH), Ok(16));
    assert_eq!(evaluate("fn[* . .] fn(fn(fn(fn(2))))", DEPTH), Ok(65536));
    assert_eq!(evaluate("fn[+ . 1] fn(1fn(1))", DEPTH), Ok(13));
    assert_eq!(evaluate("fn[+ . 1] fn(fn(1)0)", DEPTH), Ok(21));
    assert_eq!(evaluate("fn[+ . 1] fn(((4)", DEPTH), Ok(5));
    assert_eq!(evaluate("fn[+ . 1] fn(4x9)", DEPTH), Ok(5));
    assert_eq!(evaluate("fn[+ . 1] fn(1 2)", DEPTH), Ok(13));
    assert_eq!(evaluate("fn[+ . 1] fn(1fx2)", DEPTH), Ok(2));
}

#[test]
fn repeated_runs_are_independent() {
    let first = evaluate("fn[* . .] fn(7)", DEPTH);
    assert_eq!(evaluate("fn(7)", DEPTH), Err(ParseError::UnboundApplication));
    assert_eq!(evaluate("fn[+ . .] fn(7)", DEPTH), Ok(14));
    assert_eq!(evaluate("fn[* . .] fn(7)", DEPTH), first);
    assert_eq!(first, Ok(49));
}

#[test]
fn extract_next_char_skips_whitespace() {
    let mut chars = Cursor::new(" \t\n a b");
    assert_eq!(extract_next_char(&mut chars), Ok('a'));
    assert_eq!(rest(&mut chars), " b");
    let mut chars = Cursor::new("\u{3000}\u{2003}x");
    assert_eq!(extract_next_char(&mut chars), Ok('x'));
    let mut chars = Cursor::new("\u{200b}x");
    assert_eq!(extract_next_char(&mut chars), Ok('\u{200b}'));
    let mut chars = Cursor::new("  ");
    assert_eq!(extract_next_char(&mut chars), Err(ParseError::Eof));
    assert_eq!(chars.peek(), None);
}

#[test]
fn convert_to_numeric_stops_before_a_non_digit() {
    let mut chars = Cursor::new("00 7");
    assert_eq!(convert_to_numeric('1', &mut chars), 100);
    assert_eq!(rest(&mut chars), " 7");
    let mut chars = Cursor::new("2)3");
    assert_eq!(convert_to_numeric('4', &mut chars), 42);
    assert_eq!(rest(&mut chars), ")3");
    let mut chars = Cursor::new("");
    assert_eq!(convert_to_numeric('9', &mut chars), 9);
    let mut chars = Cursor::new("\u{663}");
    assert_eq!(convert_to_numeric('9', &mut chars), 9);
    assert_eq!(rest(&mut chars), "\u{663}");
}

#[test]
fn fn_define_reads_up_to_the_bracket() {
    let mut store = vec!["old".to_string()];
    let mut chars = Cursor::new(" + [ . ]] 1");
    assert_eq!(fn_define(&mut chars, &mut store), Ok(()));
    assert_eq!(store, vec!["old".to_string(), " + [ . ".to_string()]);
    assert_eq!(rest(&mut chars), "] 1");

    let mut chars = Cursor::new("+ . .");
    assert_eq!(fn_define(&mut chars, &mut store), Err(ParseError::Eof));
    assert_eq!(store.len(), 2);
    assert_eq!(chars.peek(), None);
}

#[test]
fn eval_string_applies_the_first_body() {
    let mut store = vec!["* . 3".to_string(), "+ . 3".to_string()];
    assert_eq!(eval_string("14".to_string(), &mut store, DEPTH), Ok(42));
    assert_eq!(eval_string("  14xyz".to_string(), &mut store, DEPTH), Ok(42));
    assert_eq!(eval_string("".to_string(), &mut store, DEPTH), Err(ParseError::Eof));
    assert_eq!(eval_string("-1".to_string(), &mut store, DEPTH), Err(ParseError::UnexpectedError));
    assert_eq!(eval_string("1".to_string(), &mut store, 0), Err(ParseError::DepthExceeded));
}

#[test]
fn fn_apply_leaves_what_follows() {
    let mut store = vec!["+ . 1".to_string()];
    let mut chars = Cursor::new("41) + 1 2");
    assert_eq!(fn_apply(&mut chars, &mut store, DEPTH), Ok(42));
    assert_eq!(rest(&mut chars), " + 1 2");
}

#[test]
fn operator_on_two_numbers() {
    let numbers: [i32; 9] = [0, 1, 2, 7, 10, 99, 46341, 65536, i32::MAX];
    for a in numbers {
        for b in numbers {
            assert_eq!(evaluate(&format!("+ {} {}", a, b), DEPTH), Ok(a.wrapping_add(b)));
            assert_eq!(evaluate(&format!("- {} {}", a, b), DEPTH), Ok(a - b));
            assert_eq!(evaluate(&format!("* {} {}", a, b), DEPTH), Ok(a.wrapping_mul(b)));
            if b == 0 {
                assert_eq!(
                    evaluate(&format!("/ {} {}", a, b), DEPTH),
                    Err(ParseError::DivisionByZero)
                );
            } else {
                assert_eq!(evaluate(&format!("/ {} {}", a, b), DEPTH), Ok(a / b));
            }
            assert_eq!(
                evaluate(&format!(" \t+{}\n {}{} ", a, '\u{2003}', b), DEPTH),
                evaluate(&format!("+ {} {}", a, b), DEPTH)
            );
        }
    }
    assert_eq!(evaluate("+ 3 4", DEPTH), Ok(7));
    assert_eq!(evaluate("- 3 4", DEPTH), Ok(-1));
    assert_eq!(evaluate("* 3 4", DEPTH), Ok(12));
    assert_eq!(evaluate("/ 13 4", DEPTH), Ok(3));
}

#[test]
fn application_substitutes_the_argument() {
    for n in [0, 1, 5, 12, 1000, 46340] {
        assert_eq!(evaluate(&format!("fn[+ . .] fn({})", n), DEPTH), Ok(n + n));
        assert_eq!(evaluate(&format!("fn[* . .] fn({})", n), DEPTH), Ok(n * n));
        assert_eq!(evaluate(&format!("fn[+ . 2] fn({})", n), DEPTH), Ok(n + 2));
        assert_eq!(evaluate(&format!("fn[9] fn({})", n), DEPTH), Ok(9));
        let mut store = vec!["- . 1".to_string()];
        let body = eval(&mut Cursor::new("- . 1"), n, &mut store, DEPTH);
        assert_eq!(
            eval(&mut Cursor::new(&format!("fn({})", n)), 77, &mut store, DEPTH),
            body
        );
        assert_eq!(body, Ok(n - 1));
    }
}

#[test]
fn nested_applications_compose() {
    for n in [0, 1, 2, 3, 10] {
        let mut store = vec!["+ * . . 1".to_string()];
        let once = eval(&mut Cursor::new(&format!("fn({})", n)), 0, &mut store, DEPTH).unwrap();
        let twice = eval(&mut Cursor::new(&format!("fn({})", once)), 0, &mut store, DEPTH);
        assert_eq!(
            eval(&mut Cursor::new(&format!("fn(fn({}))", n)), 0, &mut store, DEPTH),
            twice
        );
        assert_eq!(once, n * n + 1);
        assert_eq!(twice, Ok(once * once + 1));
    }
}

#[test]
fn unapplied_definitions_change_only_the_store() {
    let inputs = ["+ 1 2", "fn[+ . 1] * 3 4", "fn[a]fn[b] - fn[c] 9 . 8", "fn[x", "fn[x] y", ""];
    for input in inputs {
        let mut empty = gen_vec();
        let mut chars = Cursor::new(input);
        let plain = eval(&mut chars, 3, &mut empty, DEPTH);
        let plain_rest = rest(&mut chars);

        let mut store = vec!["* . .".to_string(), "q".to_string()];
        let mut chars = Cursor::new(input);
        assert_eq!(eval(&mut chars, 3, &mut store, 0), plain);
        assert_eq!(rest(&mut chars), plain_rest);
        let mut expected = vec!["* . .".to_string(), "q".to_string()];
        expected.extend(empty);
        assert_eq!(store, expected);
    }
    assert_eq!(evaluate("fn[* . .] + 1 2", DEPTH), evaluate("+ 1 2", DEPTH));
}

#[test]
fn more_depth_changes_nothing() {
    let inputs = [
        "fn[+ . 1] fn(fn(fn(1)))",
        "fn[fn[* . 2] + . 1] + fn(1) fn(2)",
        "fn[+ . 1] / fn(1) 0",
        "+ 1 2",
        "fn[.] fn(x)",
    ];
    for input in inputs {
        let shallow = evaluate(input, 1);
        assert_ne!(shallow, Err(ParseError::DepthExceeded));
        for depth in [2, 3, 10, 1000] {
            assert_eq!(evaluate(input, depth), shallow);
        }
    }
    let deep = "fn[+ 1 fn[+ 2 .] fn(.)] fn(5)";
    assert_eq!(evaluate(deep, 3), Err(ParseError::UnexpectedError));
}

#[test]
fn input_is_only_consumed_forward() {
    let inputs = ["+ 1 2 rest", "fn[.] fn(3)) tail", ". x", "12abc", "fn[a] 7 fn[b] 8"];
    for input in inputs {
        let mut chars = Cursor::new(input);
        let mut store = gen_vec();
        let _ = eval(&mut chars, 0, &mut store, DEPTH);
        let left = rest(&mut chars);
        assert!(input.ends_with(&left));
    }
}

#[test]
fn later_bodies_are_inert() {
    let inputs = ["fn(3)", "+ fn(1) fn(fn(2))", "fn[x] fn(4)", "* 2 3", "fn(", "fn(a)", "- fn(9) ."];
    for input in inputs {
        let mut one = vec!["+ * . . 1".to_string()];
        let mut chars = Cursor::new(input);
        let expected = eval(&mut chars, 6, &mut one, DEPTH);
        let expected_rest = rest(&mut chars);

        let mut many = vec!["+ * . . 1".to_string(), "0".to_string(), "- . 1".to_string()];
        let mut chars = Cursor::new(input);
        assert_eq!(eval(&mut chars, 6, &mut many, DEPTH), expected);
        assert_eq!(rest(&mut chars), expected_rest);
        assert_eq!(many[0], one[0]);
    }
}

#[test]
fn application_of_a_body_without_definition_keeps_the_store() {
    let inputs = ["5)", "fn(5))", "fn(fn(1)))", "x)", "5", ")"];
    for input in inputs {
        let mut store = vec!["+ . fn(0".to_string(), "* . .".to_string()];
        let before = store.clone();
        let _ = fn_apply(&mut Cursor::new(input), &mut store, 3);
        assert_eq!(store, before);
    }
    let mut store = vec!["* . 2".to_string()];
    assert_eq!(fn_apply(&mut Cursor::new("21) x"), &mut store, 1), Ok(42));
    assert_eq!(store, vec!["* . 2".to_string()]);
}

#[test]
fn plain_body_needs_one_level_of_depth() {
    for n in [0, 3, 250] {
        let mut store = vec!["+ * . . 1".to_string()];
        let body = eval(&mut Cursor::new("+ * . . 1"), n, &mut store, 0);
        assert_eq!(body, Ok(n * n + 1));
        for depth in [1, 2, 77] {
            let mut chars = Cursor::new(&format!("{}) tail", n));
            assert_eq!(fn_apply(&mut chars, &mut store, depth), body);
            assert_eq!(rest(&mut chars), " tail");
        }
        let mut chars = Cursor::new(&format!("{}) tail", n));
        assert_eq!(fn_apply(&mut chars, &mut store, 0), Err(ParseError::DepthExceeded));
        assert_eq!(rest(&mut chars), " tail");
        assert_eq!(store.len(), 1);
    }
}

#[test]
fn nested_application_stands_for_its_value() {
    for n in [0, 1, 4] {
        let mut store = vec!["+ . 10".to_string()];
        let mut inner = Cursor::new(&format!("({}) 7) end", n));
        let value = fn_apply(&mut inner, &mut store, DEPTH).unwrap();
        let left = rest(&mut inner);
        let direct = fn_apply(&mut Cursor::new(&format!("{}{}", value, left)), &mut store, DEPTH);
        let nested = fn_apply(&mut Cursor::new(&format!("fn({}) 7) end", n)), &mut store, DEPTH);
        assert_eq!(nested, direct);
        assert_eq!(nested, Ok((n + 10) * 10 + 7 + 10));
    }
}
