use rmmodify::wolf::node::Node;
use rmmodify::wolf::search::{row_matches, text_contains};

#[test]
fn numbers_out_of_range_are_refused() {
    let mut n = Node::I32(0);
    assert!(!n.set_u64(u64::MAX));
    assert!(matches!(n, Node::I32(0)));
    assert!(!n.set_u64(0x8000_0000));
    assert!(n.set_u64(0x7fff_ffff));
    assert!(matches!(n, Node::I32(0x7fff_ffff)));
    let mut b = Node::U8(1);
    assert!(!b.set_u64(256));
    assert!(b.set_u64(255));
    assert_eq!(b.as_u64(), Some(255));
    // a negative number is set through its decimal text
    let mut m = Node::I32(5);
    assert!(m.set_decimal(" -3 "));
    assert!(matches!(m, Node::I32(-3)));
}

#[test]
fn rows_pass_the_filter_by_number_or_text() {
    let row = Node::Sec(vec![
        ("a".to_string(), Node::I32(-5)),
        ("b".to_string(), Node::U32(7)),
        ("c".to_string(), Node::Str { width: 2, bytes: b"Hello\0".to_vec() }),
    ]);
    assert!(row_matches(&row, None, 3, Some(-5), "", true));
    assert!(row_matches(&row, None, 3, Some(7), "", true));
    assert!(!row_matches(&row, None, 3, Some(5), "", true));
    assert!(row_matches(&row, None, 3, None, "", true));
    assert!(row_matches(&row, None, 3, None, "ell", true));
    assert!(row_matches(&row, Some("Slime"), 3, None, "slim", true));
    assert!(row_matches(&row, Some(""), 12, None, "12", true));
    assert!(!row_matches(&row, Some("Slime"), 12, None, "12", true));
    assert!(!row_matches(&Node::U8(1), None, 0, None, "", true));
    assert!(text_contains("abc", "bc"));
    assert!(text_contains("abc", ""));
    assert!(!text_contains("ab", "abc"));
}

#[test]
fn decimal_text_is_read_with_its_sign_and_range() {
    let mut m = Node::I32(0);
    assert!(m.set_decimal("-2147483648"));
    assert!(matches!(m, Node::I32(i32::MIN)));
    assert!(!m.set_decimal("-2147483649"));
    assert!(!m.set_decimal("2147483648"));
    assert!(m.set_decimal("+12"));
    assert!(matches!(m, Node::I32(12)));
    assert!(!m.set_decimal("-+1"));
    assert!(!m.set_decimal("-"));
    let mut u = Node::U64(0);
    assert!(u.set_decimal("18446744073709551615"));
    assert_eq!(u.as_u64(), Some(u64::MAX));
    assert!(!u.set_decimal("18446744073709551616"));
    assert!(!u.set_decimal("1x"));
    assert!(u.set_decimal("+7"));
    assert_eq!(u.as_u64(), Some(7));
    assert!(!u.set_decimal("+"));
}
