use lib::extra::{int_text_ok, range, to_str_bytes};
use std::cell::RefCell;

fn text(num: i32, base: i32) -> Vec<u8> {
    let r = to_str_bytes(num, base);
    assert_eq!(r.len(), 65);
    let end = r.iter().position(|b| *b == 0).unwrap();
    assert!(r[end..].iter().all(|b| *b == 0));
    r[..end].to_vec()
}

#[test]
fn decimal_text() {
    assert_eq!(text(0, 10), b"0".to_vec());
    assert_eq!(text(7, 10), b"7".to_vec());
    assert_eq!(text(1234, 10), b"1234".to_vec());
    assert_eq!(text(-42, 10), b"-42".to_vec());
    assert_eq!(text(i32::MAX, 10), b"2147483647".to_vec());
    assert_eq!(text(-i32::MAX, 10), b"-2147483647".to_vec());
}

#[test]
fn other_bases() {
    assert_eq!(text(255, 16), b"FF".to_vec());
    assert_eq!(text(0x7fff_ffff, 16), b"7FFFFFFF".to_vec());
    assert_eq!(text(10, 2), b"1010".to_vec());
    assert_eq!(text(-8, 8), b"-10".to_vec());
    assert_eq!(text(i32::MAX, 2).len(), 31);
}

#[test]
fn negative_base() {
    // repeated division rounded toward zero, as the original does
    assert_eq!(text(5, -2), b"101".to_vec());
    assert_eq!(text(6, -10), b"6".to_vec());
}

#[test]
fn base_above_sixteen_with_small_digits() {
    assert_eq!(text(20, 20), b"10".to_vec());
    assert_eq!(text(35, 20), b"1F".to_vec());
}

fn read_back(t: &[u8], base: i64) -> i64 {
    let (neg, digits) = if t[0] == b'-' { (true, &t[1..]) } else { (false, t) };
    let mut v: i64 = 0;
    for d in digits {
        let x = if *d <= b'9' { (*d - b'0') as i64 } else { (*d - b'A' + 10) as i64 };
        v = v * base + x;
    }
    if neg { -v } else { v }
}

#[test]
fn law_digits_read_back() {
    for (n, b) in [(0, 10), (1, 2), (987654, 10), (-31337, 16), (4096, 8), (-1, 3), (123456789, 7)] {
        assert_eq!(read_back(&text(n, b), b as i64), n as i64);
    }
}

#[test]
fn range_calls_in_order() {
    let seen = RefCell::new(Vec::new());
    range(3, 7, |i| seen.borrow_mut().push(i));
    assert_eq!(*seen.borrow(), vec![3, 4, 5, 6]);
    let none = RefCell::new(Vec::<usize>::new());
    range(5, 5, |i| none.borrow_mut().push(i));
    range(6, 2, |i| none.borrow_mut().push(i));
    assert!(none.borrow().is_empty());
}

#[test]
fn which_numbers_have_text() {
    assert!(int_text_ok(255, 16));
    assert!(int_text_ok(-7, 2));
    assert!(int_text_ok(5, -2));
    assert!(!int_text_ok(3, -2));
    assert!(!int_text_ok(i32::MIN, 10));
    assert!(!int_text_ok(10, 1));
    assert!(!int_text_ok(10, 0));
    assert!(!int_text_ok(10, -1));
    assert!(int_text_ok(35, 20));
    assert!(!int_text_ok(19, 20));
}

#[test]
fn law_int_text_reads_back() {
    for base in 2..=16 {
        for num in [0i32, 1, -1, 7, -15, 16, 255, -256, 1000, 123456789, -987654321, i32::MAX, i32::MIN + 1] {
            let t = text(num, base);
            assert!(t.iter().all(|c| c.is_ascii_digit() || (b'A'..=b'F').contains(c) || *c == b'-'));
            assert_eq!(read_back(&t, base as i64), num as i64);
            let start = if num < 0 { 1 } else { 0 };
            assert_eq!(t[0] == b'-', num < 0);
            if num != 0 {
                assert_ne!(t[start], b'0');
            }
        }
    }
}
