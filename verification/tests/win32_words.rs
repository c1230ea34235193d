//!
//! Tests for the Win32 (cmd.exe) parser: quote mode, the caret escape that
//! never ends, and the newline cut of a pending escape.
//!
use cmdline_words_parser::Win32ShellWords;

#[test]
fn win32_non_escaped() {
    let mut iter = Win32ShellWords::new(b"Hello world".to_vec());
    assert_eq!(iter.next(), Some(b"Hello".to_vec()));
    assert_eq!(iter.next(), Some(b"world".to_vec()));
    assert_eq!(iter.next(), None);
}

#[test]
fn win32_empty_input() {
    let mut iter = Win32ShellWords::new(Vec::new());
    assert_eq!(iter.next(), None);
    assert_eq!(iter.next(), None);
}

#[test]
fn win32_quoted() {
    let mut iter = Win32ShellWords::new(b"\"a b\" c".to_vec());
    assert_eq!(iter.next(), Some(b"a b".to_vec()));
    assert_eq!(iter.next(), Some(b"c".to_vec()));
    assert_eq!(iter.next(), None);
}

#[test]
fn win32_quote_toggles_within_word() {
    let mut iter = Win32ShellWords::new(b"a\"b c\"d e".to_vec());
    assert_eq!(iter.next(), Some(b"ab cd".to_vec()));
    assert_eq!(iter.next(), Some(b"e".to_vec()));
    assert_eq!(iter.next(), None);
}

#[test]
fn win32_caret_escapes_rest_of_token() {
    // Once a caret is read, escape mode is never left: the separators after
    // it are taken literally and the rest of the input is one word.
    let mut iter = Win32ShellWords::new(b"a^ b c".to_vec());
    assert_eq!(iter.next(), Some(b"a b c".to_vec()));
    assert_eq!(iter.next(), None);

    let mut iter = Win32ShellWords::new(b"a^b".to_vec());
    assert_eq!(iter.next(), Some(b"ab".to_vec()));
    assert_eq!(iter.next(), None);
}

#[test]
fn win32_quote_ended_by_newline() {
    // A newline ends quote mode and the token; like a tab it is not
    // consumed, so the next token is empty and the window does not shrink.
    let mut iter = Win32ShellWords::new(b"\"a\nb".to_vec());
    assert_eq!(iter.next(), Some(b"a".to_vec()));
    assert_eq!(iter.remaining(), 2);
    assert_eq!(iter.next(), Some(Vec::new()));
    assert_eq!(iter.remaining(), 2);
}

#[test]
fn win32_newline_cuts_fresh_escape() {
    // The newline cannot be escaped; the token ends on the caret's own
    // position, which stays in the window.
    let mut iter = Win32ShellWords::new(b"a^\nb".to_vec());
    assert_eq!(iter.next(), Some(b"a".to_vec()));
    assert_eq!(iter.remaining(), 3);
    assert_eq!(iter.next(), Some(Vec::new()));
    assert_eq!(iter.remaining(), 3);
}

#[test]
fn win32_newline_cuts_stale_escape() {
    // When bytes were escaped before the newline, the token ends on a read
    // position the compaction already zeroed: the zero byte heads the
    // remaining window and comes out in the next word.
    let mut iter = Win32ShellWords::new(b"x^y\nz".to_vec());
    assert_eq!(iter.next(), Some(b"xy".to_vec()));
    assert_eq!(iter.remaining(), 3);
    assert_eq!(iter.next(), Some(vec![0u8]));
    assert_eq!(iter.remaining(), 2);
    assert_eq!(iter.next(), Some(Vec::new()));
    assert_eq!(iter.remaining(), 2);
}

#[test]
fn win32_word_no_longer_than_consumed_span() {
    let mut iter = Win32ShellWords::new(b"aa \"b c\" d^d  e".to_vec());
    let mut before = iter.remaining();
    while let Some(word) = iter.next() {
        let after = iter.remaining();
        assert!(word.len() <= before - after);
        before = after;
        if after == 0 {
            break;
        }
    }
}
