//!
//! Tests for the POSIX/UNIX parser, driven through the crate's public
//! surface.
//!
use cmdline_words_parser::parse_posix;

#[test]
fn non_escaped() {
    let s = String::from("Hello world");
    let mut iter = parse_posix(s);
    assert_eq!(iter.next(), Some(b"Hello".to_vec()));
    assert_eq!(iter.next(), Some(b"world".to_vec()));
    assert_eq!(iter.next(), None);
}

#[test]
fn escaped_spaces() {
    let s = String::from("Hello\\ world");
    let mut iter = parse_posix(s);
    assert_eq!(iter.next(), Some(b"Hello world".to_vec()));
    assert_eq!(iter.next(), None);
}

#[test]
fn semi_complex() {
    let s = String::from(
        r##"Hello world "double quoted (\")" '"single quoted (\')"'  escaped\ string"##,
    );
    let mut iter = parse_posix(s);
    assert_eq!(iter.next(), Some(b"Hello".to_vec()));
    assert_eq!(iter.next(), Some(b"world".to_vec()));
    assert_eq!(iter.next(), Some(b"double quoted (\")".to_vec()));
    assert_eq!(iter.next(), Some(b"\"single quoted (')\"".to_vec()));
    assert_eq!(iter.next(), Some(b"escaped string".to_vec()));
    assert_eq!(iter.next(), None);
}
