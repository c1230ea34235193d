//!
//! Tests for the POSIX/UNIX parser
//!
use cmdline_words_parser::parse_posix;

#[test]
fn posix_test_non_escaped() {
    let s = String::from("Hello world");
    let mut iter = parse_posix(s);
    assert_eq!(iter.next(), Some(b"Hello".to_vec()));
    assert_eq!(iter.next(), Some(b"world".to_vec()));
    assert_eq!(iter.next(), None);
}

#[test]
fn posix_test_escaped_spaces() {
    let s = String::from("Hello\\ world");
    let mut iter = parse_posix(s);
    assert_eq!(iter.next(), Some(b"Hello world".to_vec()));
    assert_eq!(iter.next(), None);
}

#[test]
fn posix_test_semi_complex() {
    let s = String::from(
        r##"Hello world "double quoted (\")" '"single quoted (\')"'  escaped\ string"##,
    );
    let mut iter = parse_posix(s);
    assert_eq!(iter.next(), Some(b"Hello".to_vec()));
    assert_eq!(iter.next(), Some(b"world".to_vec()));
    assert_eq!(iter.next(), Some(b"double quoted (\")".to_vec()));
    assert_eq!(iter.next(), Some(b"\"single quoted (')\"".to_vec()));
    assert_eq!(iter.next(), Some(b"escaped string".to_vec()));
    assert_eq!(iter.next(), None);
}
