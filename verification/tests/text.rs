use oneloopreduce::text::{decimal_string, push_bracketed, push_bracketed_rows, push_signed};

#[test]
fn decimal_strings() {
    assert_eq!(decimal_string(0), "0");
    assert_eq!(decimal_string(7), "7");
    assert_eq!(decimal_string(1234), "1234");
    assert_eq!(decimal_string(u64::MAX), "18446744073709551615");
}

#[test]
fn signed_integers() {
    let mut s = String::from("x=");
    push_signed(&mut s, -42);
    assert_eq!(s, "x=-42");
    let mut s = String::new();
    push_signed(&mut s, 0);
    push_signed(&mut s, 9);
    assert_eq!(s, "09");
}

#[test]
fn bracketed_lists() {
    let mut s = String::new();
    push_bracketed(&mut s, &vec![0, 1, -1]);
    assert_eq!(s, "[0, 1, -1]");
    let mut s = String::new();
    push_bracketed(&mut s, &vec![]);
    assert_eq!(s, "[]");
    let mut s = String::new();
    push_bracketed_rows(&mut s, &[vec![1], vec![], vec![2, -3]]);
    assert_eq!(s, "[[1], [], [2, -3]]");
    assert_eq!(format!("{:?}", vec![vec![1], vec![], vec![2, -3]]), s);
}
