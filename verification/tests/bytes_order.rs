use ducer::bytes::{bytes_eq, bytes_le, bytes_lt, successor_of};

#[test]
fn lt_orders_by_first_difference() {
    assert!(bytes_lt(b"abc", b"abd"));
    assert!(!bytes_lt(b"abd", b"abc"));
    assert!(!bytes_lt(b"abc", b"abc"));
}

#[test]
fn prefix_comes_first() {
    assert!(bytes_lt(b"", b"a"));
    assert!(bytes_lt(b"ab", b"abc"));
    assert!(!bytes_lt(b"abc", b"ab"));
    assert!(bytes_le(b"ab", b"ab"));
    assert!(bytes_eq(b"ab", b"ab"));
    assert!(!bytes_eq(b"ab", b"abc"));
}

#[test]
fn successor_appends_zero() {
    assert_eq!(successor_of(b"k"), vec![b'k', 0]);
    assert_eq!(successor_of(b""), vec![0]);
}
