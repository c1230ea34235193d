//!
//! Scenario and edge-case tests for the POSIX parser: separator handling,
//! escape tables, quote policies, and the escape/parse round trip.
//!
use cmdline_words_parser::ByteString;
use cmdline_words_parser::ByteStringSlice;
use cmdline_words_parser::parse_posix;
use cmdline_words_parser::posix::escape_posix;

#[test]
fn empty_input_yields_absence() {
    let mut iter = parse_posix(Vec::new());
    assert_eq!(iter.next(), None);
    assert_eq!(iter.next(), None);
}

#[test]
fn separator_only_input() {
    // A leading space terminates an empty token, whose separator run is then
    // consumed: one empty word, then absence.
    let mut iter = parse_posix(b" ".to_vec());
    assert_eq!(iter.next(), Some(Vec::new()));
    assert_eq!(iter.next(), None);

    let mut iter = parse_posix(b"   ".to_vec());
    assert_eq!(iter.next(), Some(Vec::new()));
    assert_eq!(iter.next(), None);
}

#[test]
fn leading_space_empty_word() {
    let mut iter = parse_posix(b" a".to_vec());
    assert_eq!(iter.next(), Some(Vec::new()));
    assert_eq!(iter.next(), Some(b"a".to_vec()));
    assert_eq!(iter.next(), None);
}

#[test]
fn tab_boundary_not_consumed() {
    // Only spaces are consumed after a token; a tab stays at the window's
    // front, where it terminates an empty token without being consumed.
    let mut iter = parse_posix(b"a\tb".to_vec());
    assert_eq!(iter.next(), Some(b"a".to_vec()));
    assert_eq!(iter.remaining(), 2);
    assert_eq!(iter.next(), Some(Vec::new()));
    assert_eq!(iter.remaining(), 2);
    assert_eq!(iter.next(), Some(Vec::new()));
    assert_eq!(iter.remaining(), 2);
}

#[test]
fn space_runs_split() {
    let mut iter = parse_posix(b"foo bar  baz ".to_vec());
    assert_eq!(iter.next(), Some(b"foo".to_vec()));
    assert_eq!(iter.next(), Some(b"bar".to_vec()));
    assert_eq!(iter.next(), Some(b"baz".to_vec()));
    assert_eq!(iter.next(), None);
}

#[test]
fn word_count_and_absence_idempotent() {
    let mut iter = parse_posix(b"one two three".to_vec());
    let mut count: usize = 0;
    while let Some(_) = iter.next() {
        count += 1;
    }
    assert_eq!(count, 3);
    assert_eq!(iter.next(), None);
    assert_eq!(iter.next(), None);
}

#[test]
fn unterminated_single_quote() {
    let mut iter = parse_posix(b"abc 'def".to_vec());
    assert_eq!(iter.next(), Some(b"abc".to_vec()));
    assert_eq!(iter.next(), Some(b"def".to_vec()));
    assert_eq!(iter.next(), None);
}

#[test]
fn unterminated_double_quote() {
    let mut iter = parse_posix(b"abc \"def".to_vec());
    assert_eq!(iter.next(), Some(b"abc".to_vec()));
    assert_eq!(iter.next(), Some(b"def".to_vec()));
    assert_eq!(iter.next(), None);
}

#[test]
fn control_escapes_outer() {
    let mut iter = parse_posix(b"a\\nb\\tc\\rd".to_vec());
    assert_eq!(iter.next(), Some(b"a\nb\tc\rd".to_vec()));
    assert_eq!(iter.next(), None);
}

#[test]
fn control_escapes_double_quoted() {
    let mut iter = parse_posix(b"\"a\\nb\\tc\"".to_vec());
    assert_eq!(iter.next(), Some(b"a\nb\tc".to_vec()));
    assert_eq!(iter.next(), None);
}

#[test]
fn invalid_escape_dropped() {
    // A backslash followed by a byte without a table entry drops both.
    let mut iter = parse_posix(b"a\\qb".to_vec());
    assert_eq!(iter.next(), Some(b"ab".to_vec()));
    assert_eq!(iter.next(), None);

    let mut iter = parse_posix(b"\"a\\qb\"".to_vec());
    assert_eq!(iter.next(), Some(b"ab".to_vec()));
    assert_eq!(iter.next(), None);
}

#[test]
fn single_quote_escape_policy() {
    // Inside single quotes only the quote and the backslash can be escaped;
    // anything else after a backslash is dropped.
    let mut iter = parse_posix(b"'a\\'b'".to_vec());
    assert_eq!(iter.next(), Some(b"a'b".to_vec()));
    assert_eq!(iter.next(), None);

    let mut iter = parse_posix(b"'a\\\\b'".to_vec());
    assert_eq!(iter.next(), Some(b"a\\b".to_vec()));
    assert_eq!(iter.next(), None);

    let mut iter = parse_posix(b"'a\\qb'".to_vec());
    assert_eq!(iter.next(), Some(b"ab".to_vec()));
    assert_eq!(iter.next(), None);
}

#[test]
fn escape_posix_exact() {
    assert_eq!(escape_posix(&b"a b".to_vec()), b"a\\ b".to_vec());
    assert_eq!(
        escape_posix(&b" \t\n\r'\"\\".to_vec()),
        b"\\ \\\t\\\n\\\r\\'\\\"\\\\".to_vec()
    );
    assert_eq!(escape_posix(&b"plain".to_vec()), b"plain".to_vec());
}

#[test]
fn escape_then_parse_round_trip() {
    let word = b"alpha beta\\gamma\"'x\ty".to_vec();
    let escaped = escape_posix(&word);
    let mut iter = parse_posix(escaped);
    assert_eq!(iter.next(), Some(word));
    assert_eq!(iter.next(), None);
}

#[test]
fn word_no_longer_than_consumed_span() {
    let mut iter = parse_posix(b"aa\\ bb  'cc' dd\\q".to_vec());
    let mut before = iter.remaining();
    while let Some(word) = iter.next() {
        let after = iter.remaining();
        assert!(word.len() <= before - after);
        before = after;
    }
}

#[test]
fn byte_string_adapters() {
    let v = b"abc".to_vec();
    let bytes = v.clone().into_bytes();
    assert_eq!(bytes, v);
    let back: Option<Vec<u8>> = ByteStringSlice::from_bytes(&bytes);
    assert_eq!(back, Some(v));
}

#[test]
fn string_adapters() {
    let bytes = ByteString::into_bytes(String::from("h\u{e9}llo w\u{f6}rld"));
    assert_eq!(bytes, "h\u{e9}llo w\u{f6}rld".as_bytes().to_vec());
    let back: Option<String> = ByteStringSlice::from_bytes(&bytes);
    assert_eq!(back, Some(String::from("h\u{e9}llo w\u{f6}rld")));

    let invalid = vec![0xffu8, 0xfe];
    let none: Option<String> = ByteStringSlice::from_bytes(&invalid);
    assert_eq!(none, None);
}
