use lib::calc::{add_key, eval_action, DigitStep, EvalAction, KeyBuffer, NumLit, Oper};
use lib::parse::parse_expression;

fn buffer(text: &[u8]) -> Vec<u8> {
    let mut b = vec![0u8; 256];
    b[..text.len()].copy_from_slice(text);
    b
}

fn parse(text: &[u8]) -> (Vec<Oper>, i32) {
    let b = buffer(text);
    parse_expression(&b, text.len())
}

fn whole(digits: &[u8]) -> Oper {
    Oper::Number(NumLit {
        negative: false,
        var: None,
        steps: digits.iter().map(|d| DigitStep { digit: *d, divisor: 0 }).collect(),
    })
}

fn op(c: u8) -> Oper {
    Oper::Operator(c)
}

/// The items in postfix order (the reader hands them back reversed).
fn postfix(r: &(Vec<Oper>, i32)) -> Vec<&Oper> {
    r.0.iter().rev().collect()
}

#[test]
fn sum_of_two_numbers() {
    let r = parse(b"1+2");
    assert_eq!(r.1, 26);
    assert_eq!(postfix(&r), vec![&whole(&[1]), &whole(&[2]), &op(b'+')]);
}

#[test]
fn multiplication_binds_tighter() {
    let r = parse(b"1+2*3");
    assert_eq!(postfix(&r), vec![&whole(&[1]), &whole(&[2]), &whole(&[3]), &op(b'*'), &op(b'+')]);
}

#[test]
fn parentheses_group() {
    let r = parse(b"2*(3+4)");
    assert_eq!(postfix(&r), vec![&whole(&[2]), &whole(&[3]), &whole(&[4]), &op(b'+'), &op(b'*')]);
}

#[test]
fn same_precedence_goes_left_to_right() {
    let r = parse(b"3-2-1");
    assert_eq!(postfix(&r), vec![&whole(&[3]), &whole(&[2]), &op(b'-'), &whole(&[1]), &op(b'-')]);
    let p = parse(b"2^3^2");
    assert_eq!(postfix(&p), vec![&whole(&[2]), &whole(&[3]), &op(b'^'), &whole(&[2]), &op(b'^')]);
}

#[test]
fn multi_digit_and_fraction() {
    let r = parse(b"12.05");
    let expect = Oper::Number(NumLit {
        negative: false,
        var: None,
        steps: vec![
            DigitStep { digit: 1, divisor: 0 },
            DigitStep { digit: 2, divisor: 0 },
            DigitStep { digit: 0, divisor: 10 },
            DigitStep { digit: 5, divisor: 100 },
        ],
    });
    assert_eq!(r.0, vec![expect]);
    assert_eq!(r.1, 26);
}

#[test]
fn unary_minus_before_digit() {
    let r = parse(b"-5+2");
    let neg5 = Oper::Number(NumLit { negative: true, var: None, steps: vec![DigitStep { digit: 5, divisor: 0 }] });
    assert_eq!(postfix(&r), vec![&neg5, &whole(&[2]), &op(b'+')]);
}

#[test]
fn assignment_to_variable() {
    let r = parse(b"B = 7");
    assert_eq!(r.1, 1);
    assert_eq!(r.0, vec![whole(&[7])]);
}

#[test]
fn variables_and_ans() {
    let r = parse(b"C*ANS");
    let c = Oper::Number(NumLit { negative: false, var: Some(2), steps: vec![] });
    let ans = Oper::Number(NumLit { negative: false, var: Some(26), steps: vec![] });
    assert_eq!(postfix(&r), vec![&c, &ans, &op(b'*')]);
    assert_eq!(r.1, 26);
}

#[test]
fn spaces_are_ignored() {
    let r = parse(b" 4 +  5 ");
    assert_eq!(postfix(&r), vec![&whole(&[4]), &whole(&[5]), &op(b'+')]);
}

#[test]
fn invalid_expressions_fail() {
    // two numbers in a row, followed by more
    let r = parse(b"5 5+1");
    assert_eq!(r.1, -1);
    assert_eq!(r.0, vec![whole(&[5])]);
    // an operator where a number belongs
    assert_eq!(parse(b"*3").1, -1);
    // a character that is not part of the language
    assert_eq!(parse(b"3#4").1, -1);
    // a second decimal point
    assert_eq!(parse(b"1.2.3").1, -1);
    // '(' right after a number
    assert_eq!(parse(b"2(3)").1, -1);
}

#[test]
fn number_after_number_at_the_end_fails() {
    let r = parse(b"5 6");
    assert_eq!(r.1, -1);
    assert_eq!(parse(b"5B").1, -1);
    assert_eq!(parse(b"B C").1, -1);
}

#[test]
fn unmatched_close_paren_fails() {
    assert_eq!(parse(b"5)").1, -1);
    assert_eq!(parse(b"(1+2))*3").1, -1);
    let ok = parse(b"(5)");
    assert_eq!(ok.1, 26);
    assert_eq!(ok.0, vec![whole(&[5])]);
}

#[test]
fn unmatched_open_paren_fails() {
    assert_eq!(parse(b"(5").1, -1);
    assert_eq!(parse(b"((1)").1, -1);
}

#[test]
fn incomplete_expressions_fail() {
    // a trailing operator
    assert_eq!(parse(b"1+").1, -1);
    assert_eq!(parse(b"2* ").1, -1);
    // nothing at all, or only the target of an assignment
    assert_eq!(parse(b"").1, -1);
    assert_eq!(parse(b"   ").1, -1);
    assert_eq!(parse(b"B=").1, -1);
}

#[test]
fn bytes_after_the_expression_are_not_read() {
    // a stale '=' left in the buffer after the expression "B"
    let mut b = buffer(b"B=5");
    let r = parse_expression(&b, 1);
    assert_eq!(r.1, 26);
    assert_eq!(r.0, vec![Oper::Number(NumLit { negative: false, var: Some(1), steps: vec![] })]);
    b[1] = b'5';
    assert_eq!(parse_expression(&b, 1), r);
    // a minus at the end is not completed by a digit after the expression
    let m = buffer(b"-5");
    assert_eq!(parse_expression(&m, 1).1, -1);
    // an "NS" after the expression does not turn "A" into ANS
    let a = buffer(b"ANS");
    let ra = parse_expression(&a, 1);
    assert_eq!(ra.0, vec![Oper::Number(NumLit { negative: false, var: Some(0), steps: vec![] })]);
}

#[test]
fn law_parse_output_well_formed() {
    for text in [&b"1+2*3"[..], b"A=(2+B)^2", b"-3%4-ANS", b"((1)", b"9 9", b"1.25/8"] {
        let r = parse(text);
        assert!(r.1 == -1 || (0..=26).contains(&r.1));
        for item in &r.0 {
            match item {
                Oper::Number(n) => {
                    assert!(n.var.map_or(true, |v| v <= 26));
                    assert!(n.steps.iter().all(|s| s.digit <= 9));
                }
                Oper::Operator(c) => assert!(b"+*%-/^".contains(c)),
                Oper::Error => panic!("the reader never outputs an error item"),
            }
        }
    }
}

/// The values left on the evaluator's stack, or None when it rejects an item.
fn depth_after(items: &[Oper]) -> Option<usize> {
    let mut d = 0usize;
    for item in items.iter().rev() {
        match eval_action(d, item) {
            EvalAction::Push => d += 1,
            EvalAction::Apply(_) => d -= 1,
            EvalAction::Reject => return None,
        }
    }
    Some(d)
}

#[test]
fn law_arith_expression_postfix_complete() {
    for text in [
        &b"7"[..], b"1+2", b"12*34-5/6", b"9^2%4+100-3*2", b"1-2-3-4", b"2^3*4+5", b"(1+2)*3",
        b" ( 2.5 - -1 ) / (((4)))", b"-3*(2^(1+1))-0.125", b"(8) % 3 ",
    ] {
        let r = parse(text);
        assert_eq!(r.1, 26);
        assert_eq!(depth_after(&r.0), Some(1));
    }
}

#[test]
fn law_parsed_postfix_complete() {
    for text in [
        &b"A=(2+B)^2"[..], b"-3%4-ANS", b"C*ANS", b"B = 7", b"((1)", b"9 9", b"1+", b"5)", b"(5",
        b"X=Y", b"2*(3+4)-Z/2", b"ANS = 1",
    ] {
        let r = parse(text);
        if r.1 != -1 {
            assert_eq!(depth_after(&r.0), Some(1));
        }
    }
}

#[test]
fn variable_after_assignment_reads_its_value() {
    let mut buf = KeyBuffer::new();
    for k in b"B=5\n" {
        add_key(&mut buf, *k);
    }
    let r = parse_expression(buf.keys(), 3);
    assert_eq!(r.1, 1);
    assert_eq!(r.0, vec![whole(&[5])]);
    // "B" typed over the stale "B=5": the '=' after it is not read
    add_key(&mut buf, b'B');
    let a = add_key(&mut buf, b'\n');
    assert_eq!(a.evaluate, Some(1));
    let r = parse_expression(buf.keys(), 1);
    assert_eq!(r.1, 26);
    assert_eq!(r.0, vec![Oper::Number(NumLit { negative: false, var: Some(1), steps: vec![] })]);
}

#[test]
fn law_parse_accepts_exactly_arith() {
    let well_formed = [
        &b"7"[..], b"1+2", b" ( 2.5 - -1 ) / (((4)))", b"-3*(2^(1+1))-0.125", b"(8) % 3 ", b"0.5",
    ];
    for text in well_formed {
        assert_ne!(parse(text).1, -1);
    }
    let ill_formed = [
        &b""[..], b" ", b"1+", b"+1", b"(1", b"1)", b"()", b"1 2", b"1..2", b"1.2.3", b".5", b"- 5", b"-(1)",
        b"2(3)", b"(1)2", b"1+*2", b"3#4", b"1=2",
    ];
    for text in ill_formed {
        assert_eq!(parse(text).1, -1);
    }
}

#[test]
fn long_fraction_wraps_the_divisor() {
    // after 31 digits behind the point the divisor has wrapped to zero, so a
    // second point is taken as the start of a new fraction
    let mut text = b"1.".to_vec();
    text.extend(std::iter::repeat(b'0').take(31));
    text.extend(b".5");
    assert_eq!(parse(&text).1, 26);
    // with 30 digits the second point is an error
    let mut short = b"1.".to_vec();
    short.extend(std::iter::repeat(b'0').take(30));
    short.extend(b".5");
    assert_eq!(parse(&short).1, -1);
}
