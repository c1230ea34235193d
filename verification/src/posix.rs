use vstd::prelude::*;

use crate::BACKSLASH;
use crate::CARRIAGE_RETURN;
use crate::DOUBLE_QUOTE;
use crate::LETTER_N;
use crate::LETTER_R;
use crate::LETTER_T;
use crate::NEWLINE;
use crate::SINGLE_QUOTE;
use crate::SPACE;
use crate::TAB;
use crate::is_separator;
use crate::lemma_skip_spaces_bounds;
use crate::skip_spaces;
use crate::split_off_front_inplace_mut;

verus! {

/// The quoting/escaping context during the scan of one word.
///
/// Scanning starts in `Outer`; the mode is not carried across words.
#[derive(Clone, Copy)]
pub enum PosixEscapeMode {
    Outer,
    OuterSlash,
    SingleQuote,
    SingleQuoteSlash,
    DoubleQuote,
    DoubleQuoteSlash,
}

/// Whether the byte `b`, read in mode `m`, ends the word: only an unescaped
/// separator in `Outer` mode is structural in that way.
pub open spec fn posix_breaks(m: PosixEscapeMode, b: u8) -> bool {
    m is Outer && is_separator(b)
}

/// The mode after reading byte `b` in mode `m` (for a byte that does not end
/// the word).
pub open spec fn posix_next_mode(m: PosixEscapeMode, b: u8) -> PosixEscapeMode {
    match m {
        PosixEscapeMode::Outer => {
            if b == BACKSLASH {
                PosixEscapeMode::OuterSlash
            } else if b == SINGLE_QUOTE {
                PosixEscapeMode::SingleQuote
            } else if b == DOUBLE_QUOTE {
                PosixEscapeMode::DoubleQuote
            } else {
                PosixEscapeMode::Outer
            }
        },
        PosixEscapeMode::OuterSlash => PosixEscapeMode::Outer,
        PosixEscapeMode::SingleQuote => {
            if b == BACKSLASH {
                PosixEscapeMode::SingleQuoteSlash
            } else if b == SINGLE_QUOTE {
                PosixEscapeMode::Outer
            } else {
                PosixEscapeMode::SingleQuote
            }
        },
        PosixEscapeMode::SingleQuoteSlash => PosixEscapeMode::SingleQuote,
        PosixEscapeMode::DoubleQuote => {
            if b == BACKSLASH {
                PosixEscapeMode::DoubleQuoteSlash
            } else if b == DOUBLE_QUOTE {
                PosixEscapeMode::Outer
            } else {
                PosixEscapeMode::DoubleQuote
            }
        },
        PosixEscapeMode::DoubleQuoteSlash => PosixEscapeMode::DoubleQuote,
    }
}

/// The literal byte emitted by reading byte `b` in mode `m`, if any (for a
/// byte that does not end the word).
///
/// Structural bytes (backslashes entering an escape, quotes toggling a
/// quoting mode) emit nothing; a byte after a backslash is looked up in the
/// escape table of the owning context, and one without a table entry is
/// dropped.
pub open spec fn posix_emit(m: PosixEscapeMode, b: u8) -> Option<u8> {
    match m {
        PosixEscapeMode::Outer => {
            if b == BACKSLASH || b == SINGLE_QUOTE || b == DOUBLE_QUOTE || is_separator(b) {
                None
            } else {
                Some(b)
            }
        },
        PosixEscapeMode::OuterSlash => {
            if b == SPACE || b == TAB || b == NEWLINE || b == CARRIAGE_RETURN || b == SINGLE_QUOTE
                || b == DOUBLE_QUOTE || b == BACKSLASH {
                Some(b)
            } else if b == LETTER_N {
                Some(NEWLINE)
            } else if b == LETTER_R {
                Some(CARRIAGE_RETURN)
            } else if b == LETTER_T {
                Some(TAB)
            } else {
                None
            }
        },
        PosixEscapeMode::SingleQuote => {
            if b == BACKSLASH || b == SINGLE_QUOTE {
                None
            } else {
                Some(b)
            }
        },
        PosixEscapeMode::SingleQuoteSlash => {
            if b == SINGLE_QUOTE || b == BACKSLASH {
                Some(b)
            } else {
                None
            }
        },
        PosixEscapeMode::DoubleQuote => {
            if b == BACKSLASH || b == DOUBLE_QUOTE {
                None
            } else {
                Some(b)
            }
        },
        PosixEscapeMode::DoubleQuoteSlash => {
            if b == SINGLE_QUOTE || b == DOUBLE_QUOTE || b == BACKSLASH {
                Some(b)
            } else if b == LETTER_N {
                Some(NEWLINE)
            } else if b == LETTER_R {
                Some(CARRIAGE_RETURN)
            } else if b == LETTER_T {
                Some(TAB)
            } else {
                None
            }
        },
    }
}

/// The structural end of the word being scanned: the position of the first
/// byte that ends it, or the window's length if the scan runs off the end.
pub open spec fn posix_token_end(s: Seq<u8>, i: int, m: PosixEscapeMode) -> int
    decreases s.len() - i,
{
    if i < 0 || i >= s.len() {
        s.len() as int
    } else if posix_breaks(m, s[i]) {
        i
    } else {
        posix_token_end(s, i + 1, posix_next_mode(m, s[i]))
    }
}

/// The literal bytes emitted by scanning from position `i` in mode `m` up to
/// the structural end of the word.
pub open spec fn posix_literals(s: Seq<u8>, i: int, m: PosixEscapeMode) -> Seq<u8>
    decreases s.len() - i,
{
    if i < 0 || i >= s.len() || posix_breaks(m, s[i]) {
        Seq::empty()
    } else {
        let rest = posix_literals(s, i + 1, posix_next_mode(m, s[i]));
        match posix_emit(m, s[i]) {
            Some(b) => seq![b] + rest,
            None => rest,
        }
    }
}

/// The word produced by one scan of the window: the unescaped literal bytes
/// of the token at the window's front.
pub open spec fn posix_word(s: Seq<u8>) -> Seq<u8> {
    posix_literals(s, 0, PosixEscapeMode::Outer)
}

/// How many bytes one scan consumes from the front of the window: the
/// structural token, then one run of plain spaces.
pub open spec fn posix_consumed(s: Seq<u8>) -> int {
    skip_spaces(s, posix_token_end(s, 0, PosixEscapeMode::Outer))
}

/// The structural end of a word lies between the scan's start and the
/// window's end.
pub proof fn lemma_posix_token_end_bounds(s: Seq<u8>, i: int, m: PosixEscapeMode)
    requires
        0 <= i <= s.len(),
    ensures
        i <= posix_token_end(s, i, m) <= s.len(),
    decreases s.len() - i,
{
    if i < s.len() && !posix_breaks(m, s[i]) {
        lemma_posix_token_end_bounds(s, i + 1, posix_next_mode(m, s[i]));
    }
}

/// Unescaping never grows the text: scanning from position `i` emits at most
/// one literal byte per byte read before the structural end.
pub proof fn lemma_posix_literals_len(s: Seq<u8>, i: int, m: PosixEscapeMode)
    requires
        0 <= i <= s.len(),
    ensures
        posix_literals(s, i, m).len() <= posix_token_end(s, i, m) - i,
    decreases s.len() - i,
{
    if i < s.len() && !posix_breaks(m, s[i]) {
        lemma_posix_literals_len(s, i + 1, posix_next_mode(m, s[i]));
        lemma_posix_token_end_bounds(s, i + 1, posix_next_mode(m, s[i]));
    }
}

/// The words that successive calls produce from a window, so long as each
/// call consumes at least one byte.
///
/// A window whose front byte is a tab, newline or carriage return consumes
/// nothing: the iterator then hands back the same empty word forever, and
/// this function stops after the first of those repeated words.
pub open spec fn posix_words(s: Seq<u8>) -> Seq<Seq<u8>>
    decreases s.len(),
    via posix_words_decreases
{
    if s.len() == 0 {
        Seq::empty()
    } else if posix_consumed(s) <= 0 {
        seq![posix_word(s)]
    } else {
        seq![posix_word(s)] + posix_words(s.skip(posix_consumed(s)))
    }
}

#[via_fn]
proof fn posix_words_decreases(s: Seq<u8>) {
    if s.len() > 0 && posix_consumed(s) > 0 {
        lemma_posix_word_len(s);
    }
}

/// The escaped form of one byte under the `Outer`-mode table: the bytes the
/// scanner treats as structural or as separators are prefixed with a
/// backslash, every other byte stands for itself.
pub open spec fn posix_escape_byte(b: u8) -> Seq<u8> {
    if b == SPACE || b == TAB || b == NEWLINE || b == CARRIAGE_RETURN || b == SINGLE_QUOTE
        || b == DOUBLE_QUOTE || b == BACKSLASH {
        seq![BACKSLASH, b]
    } else {
        seq![b]
    }
}

/// The escaped form of a word: each byte escaped with the `Outer`-mode
/// table.
pub open spec fn posix_escape(w: Seq<u8>) -> Seq<u8>
    decreases w.len(),
{
    if w.len() == 0 {
        Seq::empty()
    } else {
        posix_escape_byte(w[0]) + posix_escape(w.skip(1))
    }
}

proof fn lemma_posix_escape_snoc(w: Seq<u8>, b: u8)
    ensures
        posix_escape(w.push(b)) == posix_escape(w) + posix_escape_byte(b),
    decreases w.len(),
{
    if w.len() == 0 {
        assert(w.push(b).skip(1) =~= Seq::<u8>::empty());
        assert(w.push(b)[0] == b);
        assert(posix_escape(w.push(b)) == posix_escape_byte(b) + posix_escape(
            w.push(b).skip(1),
        ));
        assert(posix_escape_byte(b) + Seq::<u8>::empty() =~= Seq::<u8>::empty()
            + posix_escape_byte(b));
        assert(posix_escape(w.push(b)) =~= posix_escape(w) + posix_escape_byte(b));
    } else {
        lemma_posix_escape_snoc(w.skip(1), b);
        assert(w.push(b).skip(1) =~= w.skip(1).push(b));
        assert(w.push(b)[0] == w[0]);
        assert(posix_escape_byte(w[0]) + (posix_escape(w.skip(1)) + posix_escape_byte(b))
            =~= (posix_escape_byte(w[0]) + posix_escape(w.skip(1))) + posix_escape_byte(b));
    }
}

/// Escape a word with the `Outer`-mode table, so that parsing the result
/// yields the word back (see `lemma_posix_escape_round_trip`).
pub fn escape_posix(word: &Vec<u8>) -> (r: Vec<u8>)
    ensures
        r@ == posix_escape(word@),
{
    let mut r: Vec<u8> = Vec::new();
    let mut k: usize = 0;
    while k < word.len()
        invariant
            k <= word@.len(),
            r@ == posix_escape(word@.subrange(0, k as int)),
        decreases word@.len() - k,
    {
        let ghost r0 = r@;
        let b = word[k];
        if b == SPACE || b == TAB || b == NEWLINE || b == CARRIAGE_RETURN || b == SINGLE_QUOTE
            || b == DOUBLE_QUOTE || b == BACKSLASH {
            r.push(BACKSLASH);
            r.push(b);
        } else {
            r.push(b);
        }
        proof {
            lemma_posix_escape_snoc(word@.subrange(0, k as int), b);
            assert(word@.subrange(0, k + 1) =~= word@.subrange(0, k as int).push(b));
            assert(r@ =~= r0 + posix_escape_byte(b));
        }
        k = k + 1;
    }
    proof {
        assert(word@.subrange(0, word@.len() as int) =~= word@);
    }
    r
}

/// Literal length law: each produced word is no longer than the structural
/// span it was carved from, so the words of a window always fit in the bytes
/// the scan consumed for them.
pub proof fn lemma_posix_word_len(s: Seq<u8>)
    ensures
        posix_word(s).len() <= posix_token_end(s, 0, PosixEscapeMode::Outer),
        posix_word(s).len() <= posix_consumed(s) <= s.len(),
{
    lemma_posix_literals_len(s, 0, PosixEscapeMode::Outer);
    lemma_posix_token_end_bounds(s, 0, PosixEscapeMode::Outer);
    lemma_skip_spaces_bounds(s, posix_token_end(s, 0, PosixEscapeMode::Outer));
}

/// Iterator yielding unescaped strings in the standard POSIX shell format.
///
/// - Splits arguments on whitespace (space, tab, newline, and carriage
///   return)
/// - Special character escapes (`\n`, `\t`, `\r`) for literal versions of
///   control characters
/// - Supports single and double-quoted strings
///   - Single quoted strings only support single quote and backslash escapes
///     (a backslash followed by any other byte is dropped)
///   - Double quoted strings support a full set of escaped special
///     characters.
/// - Interpreted characters can be escaped by prefixing with a backslash
pub struct PosixShellWords {
    window: Vec<u8>,
}

impl View for PosixShellWords {
    type V = Seq<u8>;

    /// The not-yet-consumed window of the buffer.
    closed spec fn view(&self) -> Seq<u8> {
        self.window@
    }
}

impl PosixShellWords {
    /// Take over a buffer; the whole of it is the initial window.
    pub fn new(input_bytes: Vec<u8>) -> (r: PosixShellWords)
        ensures
            r@ == input_bytes@,
    {
        PosixShellWords { window: input_bytes }
    }

    /// How many bytes of the buffer are not yet consumed.
    pub fn remaining(&self) -> (n: usize)
        ensures
            n == self@.len(),
    {
        self.window.len()
    }

    /// Produce the next word, or `None` once the window is empty.
    ///
    /// One call scans the window's front token, compacting its unescaped
    /// literal bytes in place, consumes the token and one following run of
    /// spaces, and hands the literal bytes back as the word. On an empty
    /// window nothing changes, so every later call returns `None` as well.
    pub fn next(&mut self) -> (r: Option<Vec<u8>>)
        ensures
            old(self)@.len() == 0 ==> r is None && final(self)@ == old(self)@,
            old(self)@.len() > 0 ==> (r matches Some(word)
                && word@ == posix_word(old(self)@)
                && final(self)@ == old(self)@.skip(posix_consumed(old(self)@))),
    {
        // 1. Check for an empty window; this means the end has been reached.
        if self.window.len() == 0 {
            return None;
        }

        let ghost orig: Seq<u8> = self.window@;

        // 2. Iterate byte-wise along the window until something special is
        // hit, compacting literal bytes toward the front.
        let mut outpos: usize = 0;
        let mut endpos: usize = self.window.len();
        let mut mode: PosixEscapeMode = PosixEscapeMode::Outer;
        let mut i: usize = 0;
        let mut done: bool = false;
        while i < self.window.len() && !done
            invariant
                self.window@.len() == orig.len(),
                outpos <= i <= orig.len(),
                self.window@.subrange(i as int, orig.len() as int) == orig.subrange(
                    i as int,
                    orig.len() as int,
                ),
                !done ==> endpos == orig.len(),
                !done ==> posix_token_end(orig, 0, PosixEscapeMode::Outer) == posix_token_end(
                    orig,
                    i as int,
                    mode,
                ),
                !done ==> self.window@.subrange(0, outpos as int) + posix_literals(
                    orig,
                    i as int,
                    mode,
                ) == posix_word(orig),
                !done && (mode is OuterSlash || mode is SingleQuoteSlash
                    || mode is DoubleQuoteSlash) ==> outpos < i,
                done ==> endpos == posix_token_end(orig, 0, PosixEscapeMode::Outer),
                done ==> endpos == i,
                done ==> self.window@.subrange(0, outpos as int) == posix_word(orig),
            decreases orig.len() - i + (if done { 0int } else { 1int }),
        {
            let ghost mode0 = mode;
            let ghost win0 = self.window@;
            let byte = self.window[i];
            proof {
                assert(byte == orig[i as int]) by {
                    assert(orig.subrange(i as int, orig.len() as int)[0] == orig[i as int]);
                }
            }
            let out: Option<u8>;
            match mode {
                PosixEscapeMode::Outer => {
                    if byte == SPACE || byte == TAB || byte == NEWLINE || byte == CARRIAGE_RETURN {
                        endpos = i;
                        done = true;
                        out = None;
                    } else if byte == BACKSLASH {
                        mode = PosixEscapeMode::OuterSlash;
                        out = None;
                    } else if byte == SINGLE_QUOTE {
                        mode = PosixEscapeMode::SingleQuote;
                        out = None;
                    } else if byte == DOUBLE_QUOTE {
                        mode = PosixEscapeMode::DoubleQuote;
                        out = None;
                    } else {
                        out = Some(byte);
                    }
                },
                PosixEscapeMode::OuterSlash => {
                    mode = PosixEscapeMode::Outer;
                    if byte == SPACE || byte == TAB || byte == NEWLINE || byte == CARRIAGE_RETURN
                        || byte == SINGLE_QUOTE || byte == DOUBLE_QUOTE || byte == BACKSLASH {
                        out = Some(byte);
                    } else if byte == LETTER_N {
                        out = Some(NEWLINE);
                    } else if byte == LETTER_R {
                        out = Some(CARRIAGE_RETURN);
                    } else if byte == LETTER_T {
                        out = Some(TAB);
                    } else {
                        out = None;
                    }
                },
                PosixEscapeMode::SingleQuote => {
                    if byte == BACKSLASH {
                        mode = PosixEscapeMode::SingleQuoteSlash;
                        out = None;
                    } else if byte == SINGLE_QUOTE {
                        mode = PosixEscapeMode::Outer;
                        out = None;
                    } else {
                        out = Some(byte);
                    }
                },
                PosixEscapeMode::SingleQuoteSlash => {
                    mode = PosixEscapeMode::SingleQuote;
                    if byte == SINGLE_QUOTE || byte == BACKSLASH {
                        out = Some(byte);
                    } else {
                        out = None;
                    }
                },
                PosixEscapeMode::DoubleQuote => {
                    if byte == BACKSLASH {
                        mode = PosixEscapeMode::DoubleQuoteSlash;
                        out = None;
                    } else if byte == DOUBLE_QUOTE {
                        mode = PosixEscapeMode::Outer;
                        out = None;
                    } else {
                        out = Some(byte);
                    }
                },
                PosixEscapeMode::DoubleQuoteSlash => {
                    mode = PosixEscapeMode::DoubleQuote;
                    if byte == SINGLE_QUOTE || byte == DOUBLE_QUOTE || byte == BACKSLASH {
                        out = Some(byte);
                    } else if byte == LETTER_N {
                        out = Some(NEWLINE);
                    } else if byte == LETTER_R {
                        out = Some(CARRIAGE_RETURN);
                    } else if byte == LETTER_T {
                        out = Some(TAB);
                    } else {
                        out = None;
                    }
                },
            }
            if done {
                proof {
                    assert(posix_breaks(mode0, byte));
                    assert(posix_token_end(orig, i as int, mode0) == i);
                    assert(posix_literals(orig, i as int, mode0) =~= Seq::<u8>::empty());
                    assert(self.window@.subrange(0, outpos as int) + posix_literals(
                        orig,
                        i as int,
                        mode0,
                    ) =~= self.window@.subrange(0, outpos as int));
                }
            } else {
                proof {
                    assert(!posix_breaks(mode0, byte));
                    assert(mode == posix_next_mode(mode0, byte));
                    assert(out == posix_emit(mode0, byte));
                }
                if let Some(b) = out {
                    if outpos != i {
                        // DEFENSIVE: mangle the window at the read position
                        // to ensure no strays.
                        self.window.set(i, 0);
                        self.window.set(outpos, b);
                    }
                    proof {
                        assert forall|k: int| i + 1 <= k < orig.len() implies self.window@[k]
                            == orig[k] by {
                            assert(win0.subrange(i as int, orig.len() as int)[k - i]
                                == orig.subrange(i as int, orig.len() as int)[k - i]);
                        }
                        assert(self.window@.subrange(i + 1, orig.len() as int) =~= orig.subrange(
                            i + 1,
                            orig.len() as int,
                        ));
                        assert(self.window@[outpos as int] == b) by {
                            if outpos == i {
                                assert(win0.subrange(i as int, orig.len() as int)[0]
                                    == orig.subrange(i as int, orig.len() as int)[0]);
                            }
                        }
                        assert forall|k: int| 0 <= k < outpos implies self.window@[k] == win0[k]
                            by {}
                        assert(self.window@.subrange(0, outpos + 1) =~= win0.subrange(
                            0,
                            outpos as int,
                        ) + seq![b]);
                        assert(self.window@.subrange(0, outpos + 1) + posix_literals(
                            orig,
                            i + 1,
                            mode,
                        ) =~= win0.subrange(0, outpos as int) + posix_literals(
                            orig,
                            i as int,
                            mode0,
                        ));
                    }
                    outpos = outpos + 1;
                } else {
                    proof {
                        assert forall|k: int| i + 1 <= k < orig.len() implies self.window@[k]
                            == orig[k] by {
                            assert(win0.subrange(i as int, orig.len() as int)[k - i]
                                == orig.subrange(i as int, orig.len() as int)[k - i]);
                        }
                        assert(self.window@.subrange(i + 1, orig.len() as int) =~= orig.subrange(
                            i + 1,
                            orig.len() as int,
                        ));
                    }
                }
                i = i + 1;
            }
        }
        proof {
            if !done {
                assert(i == orig.len());
                assert(posix_token_end(orig, i as int, mode) == orig.len());
                assert(posix_literals(orig, i as int, mode) =~= Seq::<u8>::empty());
                assert(self.window@.subrange(0, outpos as int) + posix_literals(
                    orig,
                    i as int,
                    mode,
                ) =~= self.window@.subrange(0, outpos as int));
            }
            assert(endpos == posix_token_end(orig, 0, PosixEscapeMode::Outer));
            assert(self.window@.subrange(0, outpos as int) == posix_word(orig));
            assert(self.window@.subrange(endpos as int, orig.len() as int) =~= orig.subrange(
                endpos as int,
                orig.len() as int,
            ));
            lemma_posix_token_end_bounds(orig, 0, PosixEscapeMode::Outer);
        }

        // 3. Consume one run of plain spaces after the token.
        while endpos < self.window.len() && self.window[endpos] == SPACE
            invariant
                self.window@.len() == orig.len(),
                outpos <= endpos <= orig.len(),
                skip_spaces(orig, endpos as int) == posix_consumed(orig),
                self.window@.subrange(endpos as int, orig.len() as int) == orig.subrange(
                    endpos as int,
                    orig.len() as int,
                ),
                self.window@.subrange(0, outpos as int) == posix_word(orig),
            decreases orig.len() - endpos,
        {
            let ghost win0 = self.window@;
            proof {
                assert(self.window@[endpos as int] == orig[endpos as int]) by {
                    assert(win0.subrange(endpos as int, orig.len() as int)[0] == orig.subrange(
                        endpos as int,
                        orig.len() as int,
                    )[0]);
                }
            }
            self.window.set(endpos, 0);
            proof {
                assert(self.window@.subrange(0, outpos as int) =~= win0.subrange(
                    0,
                    outpos as int,
                ));
                assert forall|k: int| endpos + 1 <= k < orig.len() implies self.window@[k]
                    == orig[k] by {
                    assert(win0.subrange(endpos as int, orig.len() as int)[k - endpos]
                        == orig.subrange(endpos as int, orig.len() as int)[k - endpos]);
                }
                assert(self.window@.subrange(endpos + 1, orig.len() as int) =~= orig.subrange(
                    endpos + 1,
                    orig.len() as int,
                ));
            }
            endpos = endpos + 1;
        }
        proof {
            if endpos < self.window.len() {
                assert(self.window@[endpos as int] == orig[endpos as int]) by {
                    assert(self.window@.subrange(endpos as int, orig.len() as int)[0]
                        == orig.subrange(endpos as int, orig.len() as int)[0]);
                }
            }
            assert(skip_spaces(orig, endpos as int) == endpos);
        }

        // 4. Detach the consumed region; the literal prefix is the word, the
        // rest of the buffer is the new window.
        let ghost before_split = self.window@;
        let mut word = split_off_front_inplace_mut(&mut self.window, endpos);
        word.truncate(outpos);
        proof {
            assert(word@ =~= before_split.subrange(0, outpos as int));
            assert(self.window@ =~= orig.skip(posix_consumed(orig)));
        }
        Some(word)
    }
}

} // verus!
