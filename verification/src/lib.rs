//! Allocation-conscious parsing of escaped command lines.
//!
//! The parsers in this crate split a byte buffer into shell-style words,
//! resolving backslash escapes and quoted regions by compacting the literal
//! bytes toward the front of the not-yet-consumed window of the buffer.
//!
//! - [`parse_posix`] parses using UNIX/POSIX shell escaping rules (see
//!   [`PosixShellWords`] for the exact rules).
//!
//! Note: this crate has no way of handling variable substitutions.
use vstd::prelude::*;
use vstd::string::StrSliceExecFns;
use vstd::utf8::encode_utf8;
use vstd::utf8::valid_utf8;

pub use crate::posix::PosixShellWords;
pub use crate::posix::PosixEscapeMode;
pub mod posix;
pub use crate::win32::Win32ShellWords;
pub use crate::win32::Win32EscapeMode;
pub mod win32;
pub mod laws;

verus! {

/// The byte value of a space.
pub const SPACE: u8 = 32;

/// The byte value of a horizontal tab.
pub const TAB: u8 = 9;

/// The byte value of a newline (line feed).
pub const NEWLINE: u8 = 10;

/// The byte value of a carriage return.
pub const CARRIAGE_RETURN: u8 = 13;

/// The byte value of a single quote `'`.
pub const SINGLE_QUOTE: u8 = 39;

/// The byte value of a double quote `"`.
pub const DOUBLE_QUOTE: u8 = 34;

/// The byte value of a backslash `\`.
pub const BACKSLASH: u8 = 92;

/// The byte value of a caret `^`.
pub const CARET: u8 = 94;

/// The byte value of the letter `n`.
pub const LETTER_N: u8 = 110;

/// The byte value of the letter `r`.
pub const LETTER_R: u8 = 114;

/// The byte value of the letter `t`.
pub const LETTER_T: u8 = 116;

/// The bytes both parsers split words on: space, tab, newline, carriage return.
pub open spec fn is_separator(b: u8) -> bool {
    b == SPACE || b == TAB || b == NEWLINE || b == CARRIAGE_RETURN
}

/// The first position at or after `i` that does not hold a plain space.
///
/// After a word's structural end, both parsers consume exactly one run of
/// spaces (not tabs, newlines or carriage returns) before the next window
/// begins.
pub open spec fn skip_spaces(s: Seq<u8>, i: int) -> int
    decreases s.len() - i,
{
    if 0 <= i < s.len() && s[i] == SPACE {
        skip_spaces(s, i + 1)
    } else {
        i
    }
}

/// `skip_spaces` lands between its start and the end of the sequence,
/// on a byte that is not a space.
pub proof fn lemma_skip_spaces_bounds(s: Seq<u8>, i: int)
    requires
        0 <= i <= s.len(),
    ensures
        i <= skip_spaces(s, i) <= s.len(),
        skip_spaces(s, i) < s.len() ==> s[skip_spaces(s, i)] != SPACE,
    decreases s.len() - i,
{
    if i < s.len() && s[i] == SPACE {
        lemma_skip_spaces_bounds(s, i + 1);
    }
}

/// Trait for types that can be handed over as a byte buffer to be parsed in
/// place (i.e. ASCII-compatible byte strings).
pub trait ByteString: Sized {
    /// The bytes of the string, as a mathematical sequence.
    spec fn bytes_view(&self) -> Seq<u8>;

    /// Surrender the string as a sequence of bytes.
    fn into_bytes(self) -> (bytes: Vec<u8>)
        ensures
            bytes@ == self.bytes_view(),
    ;
}

/// Parse a byte buffer as an ASCII-compatible (or UTF-8/WTF-8/...) string.
impl ByteString for Vec<u8> {
    open spec fn bytes_view(&self) -> Seq<u8> {
        self@
    }

    fn into_bytes(self) -> (bytes: Vec<u8>) {
        self
    }
}

/// Parse a UTF-8 string; the buffer the parsers work on holds its UTF-8
/// bytes.
impl ByteString for String {
    open spec fn bytes_view(&self) -> Seq<u8> {
        encode_utf8(self@)
    }

    fn into_bytes(self) -> (bytes: Vec<u8>) {
        self.as_str().as_bytes_vec()
    }
}

/// Trait for string types backed by byte arrays, built back from the raw
/// bytes of one produced word.
pub trait ByteStringSlice: Sized {
    /// The bytes of the built value, as a mathematical sequence.
    spec fn slice_view(&self) -> Seq<u8>;

    /// Whether a byte sequence can be represented by this type at all.
    spec fn representable(bytes: Seq<u8>) -> bool;

    /// Build a value of this type holding exactly the given bytes;
    /// `None` when the bytes are not representable.
    fn from_bytes(bytes: &Vec<u8>) -> (r: Option<Self>)
        ensures
            r is Some <==> Self::representable(bytes@),
            r matches Some(v) ==> v.slice_view() == bytes@,
    ;
}

/// Every byte sequence is representable as a plain byte vector.
impl ByteStringSlice for Vec<u8> {
    open spec fn slice_view(&self) -> Seq<u8> {
        self@
    }

    open spec fn representable(bytes: Seq<u8>) -> bool {
        true
    }

    fn from_bytes(bytes: &Vec<u8>) -> (r: Option<Self>) {
        let mut copy: Vec<u8> = Vec::new();
        let mut k: usize = 0;
        while k < bytes.len()
            invariant
                k <= bytes@.len(),
                copy@ == bytes@.subrange(0, k as int),
            decreases bytes@.len() - k,
        {
            copy.push(bytes[k]);
            proof {
                assert(copy@ =~= bytes@.subrange(0, k + 1));
            }
            k = k + 1;
        }
        proof {
            assert(copy@ =~= bytes@);
        }
        Some(copy)
    }
}

/// Relies on `String::from_utf8`: it returns `Ok` exactly on valid UTF-8
/// input, and the returned string holds exactly the input bytes.
#[verifier::external_body]
fn string_from_utf8(bytes: &Vec<u8>) -> (r: Option<String>)
    ensures
        r is Some <==> valid_utf8(bytes@),
        r matches Some(s) ==> encode_utf8(s@) == bytes@,
{
    String::from_utf8(bytes.clone()).ok()
}

/// A word's bytes come back as text exactly when they are valid UTF-8.
impl ByteStringSlice for String {
    open spec fn slice_view(&self) -> Seq<u8> {
        encode_utf8(self@)
    }

    open spec fn representable(bytes: Seq<u8>) -> bool {
        valid_utf8(bytes)
    }

    fn from_bytes(bytes: &Vec<u8>) -> (r: Option<String>) {
        string_from_utf8(bytes)
    }
}

/// Helper: splits the front off a vector in place, returning the detached
/// front and leaving the tail behind.
pub fn split_off_front_inplace_mut<T>(v: &mut Vec<T>, idx: usize) -> (front: Vec<T>)
    requires
        idx <= old(v)@.len(),
    ensures
        front@ == old(v)@.subrange(0, idx as int),
        final(v)@ == old(v)@.subrange(idx as int, old(v)@.len() as int),
{
    let mut tail = v.split_off(idx);
    core::mem::swap(v, &mut tail);
    tail
}

/// Parse a string in a UNIX/POSIX-like manner.
///
/// The iterator takes over the buffer; each call to
/// [`PosixShellWords::next`] hands back one unescaped word.
pub fn parse_posix<T: ByteString>(string: T) -> (parse: PosixShellWords)
    ensures
        parse@ == string.bytes_view(),
{
    PosixShellWords::new(string.into_bytes())
}

} // verus!
