use lib::calc::{
    add_key, answer_label, eval_action, get_associativity, get_prec, is_letter, is_oper, Associativity,
    DigitStep, EvalAction, KeyAction, KeyBuffer, NumLit, Oper,
};

#[test]
fn precedence_of_operators() {
    assert_eq!(get_prec(b'+'), 1);
    assert_eq!(get_prec(b'-'), 1);
    assert_eq!(get_prec(b'*'), 2);
    assert_eq!(get_prec(b'%'), 2);
    assert_eq!(get_prec(b'/'), 2);
    assert_eq!(get_prec(b'^'), 3);
    assert_eq!(get_prec(b'('), 4);
    assert_eq!(get_prec(b')'), 4);
    assert_eq!(get_prec(b'a'), 0);
    assert_eq!(get_prec(b'='), 0);
}

#[test]
fn associativity_of_operators() {
    for c in [b'+', b'-', b'*', b'/', b'%', b'^', b'(', b')'] {
        assert_eq!(get_associativity(c), Associativity::Left);
    }
    assert_eq!(get_associativity(b'x'), Associativity::No);
    assert_eq!(get_associativity(b'='), Associativity::No);
}

#[test]
fn operator_and_letter_classes() {
    for c in ['+', '*', '%', '-', '/', '^'] {
        assert!(is_oper(c));
    }
    assert!(!is_oper('('));
    assert!(!is_oper('='));
    assert!(is_letter(b'A'));
    assert!(is_letter(b'Z'));
    assert!(!is_letter(b'a'));
    assert!(!is_letter(b'@'));
    assert!(!is_letter(b'['));
}

fn type_all(buf: &mut KeyBuffer, keys: &[u8]) -> Vec<KeyAction> {
    keys.iter().map(|k| add_key(buf, *k)).collect()
}

#[test]
fn typed_keys_are_evaluated_on_enter() {
    let mut buf = KeyBuffer::new();
    let acts = type_all(&mut buf, b"1+2");
    assert!(acts[0].clear_input);
    assert!(!acts[1].clear_input);
    assert!(acts.iter().all(|a| a.echo && a.evaluate.is_none()));
    assert_eq!(buf.len(), 3);
    assert_eq!(&buf.keys()[..3], b"1+2");
    let a = add_key(&mut buf, b'\n');
    assert_eq!(a, KeyAction { clear_input: false, echo: false, evaluate: Some(3) });
    assert_eq!(buf.len(), 0);
    // the keys stay in the buffer; only the length starts over
    assert_eq!(&buf.keys()[..3], b"1+2");
}

#[test]
fn enter_on_empty_buffer_clears_and_evaluates_nothing() {
    let mut buf = KeyBuffer::new();
    let a = add_key(&mut buf, b'\n');
    assert_eq!(a, KeyAction { clear_input: true, echo: false, evaluate: Some(0) });
}

#[test]
fn backspace_removes_last_key() {
    let mut buf = KeyBuffer::new();
    type_all(&mut buf, b"12");
    let a = add_key(&mut buf, 8);
    assert!(a.echo);
    assert_eq!(buf.len(), 1);
    assert_eq!(buf.keys()[0], b'1');
    // backspace on an empty buffer stays at 0
    let mut empty = KeyBuffer::new();
    add_key(&mut empty, 8);
    assert_eq!(empty.len(), 0);
}

#[test]
fn law_backspace_undoes_key() {
    let mut buf = KeyBuffer::new();
    type_all(&mut buf, b"7*");
    let before: Vec<u8> = buf.keys()[..buf.len()].to_vec();
    add_key(&mut buf, b'9');
    add_key(&mut buf, 8);
    assert_eq!(buf.len(), 2);
    assert_eq!(&buf.keys()[..2], &before[..]);
}

#[test]
fn full_buffer_ignores_keys() {
    let mut buf = KeyBuffer::new();
    for _ in 0..256 {
        add_key(&mut buf, b'1');
    }
    assert_eq!(buf.len(), 256);
    let a = add_key(&mut buf, b'2');
    assert!(!a.echo);
    assert_eq!(buf.len(), 256);
    // even backspace is ignored once the buffer is full
    add_key(&mut buf, 8);
    assert_eq!(buf.len(), 256);
    let e = add_key(&mut buf, b'\n');
    assert_eq!(e.evaluate, Some(256));
}

#[test]
fn law_typed_keys_evaluated() {
    let mut buf = KeyBuffer::new();
    let text = b"A=12.5*(3-1)";
    type_all(&mut buf, text);
    let e = add_key(&mut buf, b'\n');
    assert_eq!(e.evaluate, Some(text.len()));
    assert_eq!(&buf.keys()[..text.len()], &text[..]);
}

fn num(d: u8) -> Oper {
    Oper::Number(NumLit { negative: false, var: None, steps: vec![DigitStep { digit: d, divisor: 0 }] })
}

#[test]
fn evaluator_decisions() {
    assert_eq!(eval_action(0, &num(1)), EvalAction::Push);
    assert_eq!(eval_action(2, &Oper::Operator(b'+')), EvalAction::Apply(b'+'));
    assert_eq!(eval_action(3, &Oper::Operator(b'^')), EvalAction::Apply(b'^'));
    assert_eq!(eval_action(1, &Oper::Operator(b'*')), EvalAction::Reject);
    assert_eq!(eval_action(2, &Oper::Operator(b'(')), EvalAction::Reject);
    assert_eq!(eval_action(5, &Oper::Error), EvalAction::Reject);
}

#[test]
fn labels_of_result_slots() {
    assert_eq!(answer_label(26), b"ANS".to_vec());
    assert_eq!(answer_label(0), b"A".to_vec());
    assert_eq!(answer_label(25), b"Z".to_vec());
}
