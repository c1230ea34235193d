use vstd::prelude::*;

use crate::CARET;
use crate::CARRIAGE_RETURN;
use crate::DOUBLE_QUOTE;
use crate::NEWLINE;
use crate::SPACE;
use crate::TAB;
use crate::is_separator;
use crate::lemma_skip_spaces_bounds;
use crate::skip_spaces;
use crate::split_off_front_inplace_mut;

verus! {

/// The quoting/escaping context during the scan of one Win32 word.
///
/// Scanning starts in `Normal`; the mode is not carried across words. `^`
/// enters `Escape`, which is never left again within the word: every later
/// byte of the token is taken literally, until a newline cuts the scan
/// short.
#[derive(Clone, Copy)]
pub enum Win32EscapeMode {
    Normal,
    Quote,
    Escape,
}

/// Whether the byte `b`, read in mode `m`, ends the word at its own
/// position: a separator in `Normal` mode, or a newline in `Quote` mode
/// (a newline ends the quote early and terminates the token).
pub open spec fn win32_breaks(m: Win32EscapeMode, b: u8) -> bool {
    (m is Normal && is_separator(b)) || (m is Quote && b == NEWLINE)
}

/// Whether the byte `b`, read in mode `m`, ends the word anywhere: besides
/// [`win32_breaks`], a newline in `Escape` mode ends it one byte early (a
/// newline cannot be escaped, and the pending escape is abandoned).
pub open spec fn win32_ends(m: Win32EscapeMode, b: u8) -> bool {
    win32_breaks(m, b) || (m is Escape && b == NEWLINE)
}

/// The mode after reading byte `b` in mode `m` (for a byte that does not end
/// the word).
pub open spec fn win32_next_mode(m: Win32EscapeMode, b: u8) -> Win32EscapeMode {
    match m {
        Win32EscapeMode::Normal => {
            if b == CARET {
                Win32EscapeMode::Escape
            } else if b == DOUBLE_QUOTE {
                Win32EscapeMode::Quote
            } else {
                Win32EscapeMode::Normal
            }
        },
        Win32EscapeMode::Quote => {
            if b == DOUBLE_QUOTE {
                Win32EscapeMode::Normal
            } else {
                Win32EscapeMode::Quote
            }
        },
        Win32EscapeMode::Escape => Win32EscapeMode::Escape,
    }
}

/// The literal byte emitted by reading byte `b` in mode `m`, if any (for a
/// byte that does not end the word): carets and quotes are structural and
/// emit nothing, every other byte is emitted as itself.
pub open spec fn win32_emit(m: Win32EscapeMode, b: u8) -> Option<u8> {
    match m {
        Win32EscapeMode::Normal => {
            if b == CARET || b == DOUBLE_QUOTE || is_separator(b) {
                None
            } else {
                Some(b)
            }
        },
        Win32EscapeMode::Quote => {
            if b == DOUBLE_QUOTE || b == NEWLINE {
                None
            } else {
                Some(b)
            }
        },
        Win32EscapeMode::Escape => {
            if b == NEWLINE {
                None
            } else {
                Some(b)
            }
        },
    }
}

/// The structural end of the word being scanned: the position of the byte
/// that ends it — one byte earlier when a newline abandons a pending escape
/// — or the window's length if the scan runs off the end.
pub open spec fn win32_token_end(s: Seq<u8>, i: int, m: Win32EscapeMode) -> int
    decreases s.len() - i,
{
    if i < 0 || i >= s.len() {
        s.len() as int
    } else if m is Escape && s[i] == NEWLINE {
        i - 1
    } else if win32_breaks(m, s[i]) {
        i
    } else {
        win32_token_end(s, i + 1, win32_next_mode(m, s[i]))
    }
}

/// The literal bytes emitted by scanning from position `i` in mode `m` up to
/// the end of the word.
pub open spec fn win32_literals(s: Seq<u8>, i: int, m: Win32EscapeMode) -> Seq<u8>
    decreases s.len() - i,
{
    if i < 0 || i >= s.len() || win32_ends(m, s[i]) {
        Seq::empty()
    } else {
        let rest = win32_literals(s, i + 1, win32_next_mode(m, s[i]));
        match win32_emit(m, s[i]) {
            Some(b) => seq![b] + rest,
            None => rest,
        }
    }
}

/// Whether the scan from position `i` in mode `m` is cut short by a newline
/// while an escape is pending.
pub open spec fn win32_escape_cut(s: Seq<u8>, i: int, m: Win32EscapeMode) -> bool
    decreases s.len() - i,
{
    if i < 0 || i >= s.len() {
        false
    } else if m is Escape && s[i] == NEWLINE {
        true
    } else if win32_breaks(m, s[i]) {
        false
    } else {
        win32_escape_cut(s, i + 1, win32_next_mode(m, s[i]))
    }
}

/// Among scans cut short by a newline during an escape, whether the caret
/// stands immediately before the newline (so nothing was escaped yet, and
/// the caret's own byte is where the token is cut).
pub open spec fn win32_cut_fresh(s: Seq<u8>, i: int, m: Win32EscapeMode) -> bool
    decreases s.len() - i,
{
    if i < 0 || i >= s.len() {
        false
    } else if m is Escape && s[i] == NEWLINE {
        false
    } else if m is Normal && s[i] == CARET && i + 1 < s.len() && s[i + 1] == NEWLINE {
        true
    } else if win32_breaks(m, s[i]) {
        false
    } else {
        win32_cut_fresh(s, i + 1, win32_next_mode(m, s[i]))
    }
}

/// A scan that is already in `Escape` mode can no longer be cut freshly: the
/// caret that entered the mode lies further back.
proof fn lemma_win32_cut_fresh_escape(s: Seq<u8>, i: int)
    ensures
        !win32_cut_fresh(s, i, Win32EscapeMode::Escape),
    decreases s.len() - i,
{
    if 0 <= i < s.len() && s[i] != NEWLINE {
        lemma_win32_cut_fresh_escape(s, i + 1);
    }
}

/// The word produced by one scan of the window: the literal bytes of the
/// token at the window's front.
pub open spec fn win32_word(s: Seq<u8>) -> Seq<u8> {
    win32_literals(s, 0, Win32EscapeMode::Normal)
}

/// How many bytes one scan consumes from the front of the window when no
/// newline cuts a pending escape: the structural token, then one run of
/// plain spaces.
pub open spec fn win32_consumed(s: Seq<u8>) -> int {
    skip_spaces(s, win32_token_end(s, 0, Win32EscapeMode::Normal))
}

/// The window left behind by one scan.
///
/// Ordinarily the consumed front is cut off. When a newline cuts a pending
/// escape, the token ends one byte before the newline, on a position the
/// scan has already passed: the byte left there is the caret itself when the
/// newline came directly after it, and otherwise the zero byte that the
/// compaction wrote over the escaped byte's read position. No spaces are
/// consumed in that case, since neither byte is a space.
pub open spec fn win32_remainder(s: Seq<u8>) -> Seq<u8> {
    if win32_escape_cut(s, 0, Win32EscapeMode::Normal) {
        let e = win32_token_end(s, 0, Win32EscapeMode::Normal);
        let head: u8 = if win32_cut_fresh(s, 0, Win32EscapeMode::Normal) {
            CARET
        } else {
            0
        };
        seq![head] + s.skip(e + 1)
    } else {
        s.skip(win32_consumed(s))
    }
}

/// The end of a word lies between one byte before the scan's start and the
/// window's end.
pub proof fn lemma_win32_token_end_bounds(s: Seq<u8>, i: int, m: Win32EscapeMode)
    requires
        0 <= i <= s.len(),
    ensures
        i - 1 <= win32_token_end(s, i, m) <= s.len(),
        !(m is Escape) ==> i <= win32_token_end(s, i, m),
    decreases s.len() - i,
{
    if i < s.len() && !(m is Escape && s[i] == NEWLINE) && !win32_breaks(m, s[i]) {
        lemma_win32_token_end_bounds(s, i + 1, win32_next_mode(m, s[i]));
    }
}

/// Literal length law: scanning emits at most one byte per byte read, so
/// each produced word is no longer than the structural span it was carved
/// from.
pub proof fn lemma_win32_literals_len(s: Seq<u8>, i: int, m: Win32EscapeMode)
    requires
        0 <= i <= s.len(),
    ensures
        win32_literals(s, i, m).len() <= win32_token_end(s, i, m) - i + (if m is Escape {
            1int
        } else {
            0int
        }),
    decreases s.len() - i,
{
    if i < s.len() && !win32_ends(m, s[i]) {
        lemma_win32_literals_len(s, i + 1, win32_next_mode(m, s[i]));
        lemma_win32_token_end_bounds(s, i + 1, win32_next_mode(m, s[i]));
    }
}

/// Literal length law for whole windows: the word fits in the bytes the scan
/// consumed for it.
pub proof fn lemma_win32_word_len(s: Seq<u8>)
    ensures
        win32_word(s).len() <= win32_token_end(s, 0, Win32EscapeMode::Normal),
        win32_word(s).len() <= win32_consumed(s) <= s.len(),
{
    lemma_win32_literals_len(s, 0, Win32EscapeMode::Normal);
    lemma_win32_token_end_bounds(s, 0, Win32EscapeMode::Normal);
    lemma_skip_spaces_bounds(s, win32_token_end(s, 0, Win32EscapeMode::Normal));
}

/// Iterator yielding unescaped strings parsed in Win32 (cmd.exe) format.
///
/// - Splits arguments on whitespace (space, tab, newline, and carriage
///   return)
/// - A quote enters "quote mode", ended via either a newline or another `"`
///   (a closing quote cannot be escaped)
/// - `^` escapes everything that follows, except a newline, which cuts the
///   token short
pub struct Win32ShellWords {
    window: Vec<u8>,
}

impl View for Win32ShellWords {
    type V = Seq<u8>;

    /// The not-yet-consumed window of the buffer.
    closed spec fn view(&self) -> Seq<u8> {
        self.window@
    }
}

impl Win32ShellWords {
    /// Take over a buffer; the whole of it is the initial window.
    pub fn new(input_bytes: Vec<u8>) -> (r: Win32ShellWords)
        ensures
            r@ == input_bytes@,
    {
        Win32ShellWords { window: input_bytes }
    }

    /// How many bytes of the buffer are not yet consumed.
    pub fn remaining(&self) -> (n: usize)
        ensures
            n == self@.len(),
    {
        self.window.len()
    }

    /// Produce the next word, or `None` once the window is empty.
    ///
    /// One call scans the window's front token, compacting its literal bytes
    /// in place, consumes the token and one following run of spaces, and
    /// hands the literal bytes back as the word ([`win32_word`]); the window
    /// that remains is [`win32_remainder`]. On an empty window nothing
    /// changes, so every later call returns `None` as well.
    pub fn next(&mut self) -> (r: Option<Vec<u8>>)
        ensures
            old(self)@.len() == 0 ==> r is None && final(self)@ == old(self)@,
            old(self)@.len() > 0 ==> (r matches Some(word)
                && word@ == win32_word(old(self)@)
                && final(self)@ == win32_remainder(old(self)@)),
    {
        // 1. Check for an empty window; this means the end has been reached.
        if self.window.len() == 0 {
            return None;
        }

        let ghost orig: Seq<u8> = self.window@;
        let ghost cut = win32_escape_cut(orig, 0, Win32EscapeMode::Normal);
        let ghost fresh = win32_cut_fresh(orig, 0, Win32EscapeMode::Normal);
        let ghost head: u8 = if fresh { CARET } else { 0 };

        // 2. Iterate byte-wise along the window until something special is
        // hit, compacting literal bytes toward the front.
        let mut outpos: usize = 0;
        let mut endpos: usize = self.window.len();
        let mut mode: Win32EscapeMode = Win32EscapeMode::Normal;
        let mut i: usize = 0;
        let mut done: bool = false;
        let ghost mut fresh_caret: bool = false;
        while i < self.window.len() && !done
            invariant
                self.window@.len() == orig.len(),
                head == (if fresh { CARET } else { 0u8 }),
                outpos <= i <= orig.len(),
                self.window@.subrange(i as int, orig.len() as int) == orig.subrange(
                    i as int,
                    orig.len() as int,
                ),
                !done ==> endpos == orig.len(),
                !done ==> win32_token_end(orig, 0, Win32EscapeMode::Normal) == win32_token_end(
                    orig,
                    i as int,
                    mode,
                ),
                !done ==> self.window@.subrange(0, outpos as int) + win32_literals(
                    orig,
                    i as int,
                    mode,
                ) == win32_word(orig),
                !done ==> cut == win32_escape_cut(orig, i as int, mode),
                !done ==> fresh == (if mode is Escape {
                    fresh_caret && i < orig.len() && orig[i as int] == NEWLINE
                } else {
                    win32_cut_fresh(orig, i as int, mode)
                }),
                !done && mode is Escape ==> outpos < i,
                !done && mode is Escape && fresh_caret ==> self.window@[i - 1] == CARET,
                !done && mode is Escape && !fresh_caret ==> self.window@[i - 1] == 0,
                done ==> endpos == win32_token_end(orig, 0, Win32EscapeMode::Normal),
                done ==> outpos <= endpos <= i,
                done ==> self.window@.subrange(0, outpos as int) == win32_word(orig),
                done && cut ==> self.window@.subrange(endpos as int, orig.len() as int)
                    == seq![head] + orig.subrange(endpos + 1, orig.len() as int),
                done && !cut ==> self.window@.subrange(endpos as int, orig.len() as int)
                    == orig.subrange(endpos as int, orig.len() as int),
            decreases orig.len() - i + (if done { 0int } else { 1int }),
        {
            let ghost mode0 = mode;
            let ghost fresh_caret0 = fresh_caret;
            let ghost win0 = self.window@;
            let byte = self.window[i];
            proof {
                assert(byte == orig[i as int]) by {
                    assert(win0.subrange(i as int, orig.len() as int)[0] == orig.subrange(
                        i as int,
                        orig.len() as int,
                    )[0]);
                }
            }
            let out: Option<u8>;
            match mode {
                Win32EscapeMode::Normal => {
                    if byte == SPACE || byte == TAB || byte == NEWLINE || byte == CARRIAGE_RETURN {
                        endpos = i;
                        done = true;
                        out = None;
                    } else if byte == CARET {
                        mode = Win32EscapeMode::Escape;
                        out = None;
                        proof {
                            fresh_caret = true;
                            lemma_win32_cut_fresh_escape(orig, i + 1);
                        }
                    } else if byte == DOUBLE_QUOTE {
                        mode = Win32EscapeMode::Quote;
                        out = None;
                    } else {
                        out = Some(byte);
                    }
                },
                Win32EscapeMode::Quote => {
                    if byte == NEWLINE {
                        // A newline ends the quote early and terminates the
                        // current token.
                        endpos = i;
                        done = true;
                        out = None;
                    } else if byte == DOUBLE_QUOTE {
                        mode = Win32EscapeMode::Normal;
                        out = None;
                    } else {
                        out = Some(byte);
                    }
                },
                Win32EscapeMode::Escape => {
                    if byte == NEWLINE {
                        // A newline can't be escaped; the token ends before
                        // the pending escape's read position.
                        endpos = i - 1;
                        done = true;
                        out = None;
                    } else {
                        out = Some(byte);
                        proof {
                            fresh_caret = false;
                        }
                    }
                },
            }
            if done {
                proof {
                    assert(win32_token_end(orig, i as int, mode0) == endpos);
                    assert(win32_literals(orig, i as int, mode0) =~= Seq::<u8>::empty());
                    assert(self.window@.subrange(0, outpos as int) + win32_literals(
                        orig,
                        i as int,
                        mode0,
                    ) =~= self.window@.subrange(0, outpos as int));
                    if mode0 is Escape {
                        assert(cut);
                        assert(fresh == fresh_caret0);
                        assert forall|k: int| endpos + 1 <= k < orig.len() implies self.window@[k]
                            == orig[k] by {
                            assert(win0.subrange(i as int, orig.len() as int)[k - i]
                                == orig.subrange(i as int, orig.len() as int)[k - i]);
                        }
                        assert(self.window@.subrange(endpos as int, orig.len() as int)
                            =~= seq![head] + orig.subrange(endpos + 1, orig.len() as int));
                    } else {
                        assert(!cut);
                    }
                }
            } else {
                proof {
                    assert(!win32_ends(mode0, byte));
                    assert(mode == win32_next_mode(mode0, byte));
                    assert(out == win32_emit(mode0, byte));
                }
                if let Some(b) = out {
                    if outpos != i {
                        // DEFENSIVE: mangle the window at the read position
                        // to ensure no strays.
                        self.window.set(i, 0);
                        self.window.set(outpos, b);
                    }
                    proof {
                        assert forall|k: int| i + 1 <= k < orig.len() implies self.window@[k]
                            == orig[k] by {
                            assert(win0.subrange(i as int, orig.len() as int)[k - i]
                                == orig.subrange(i as int, orig.len() as int)[k - i]);
                        }
                        assert(self.window@.subrange(i + 1, orig.len() as int) =~= orig.subrange(
                            i + 1,
                            orig.len() as int,
                        ));
                        assert(self.window@[outpos as int] == b) by {
                            if outpos == i {
                                assert(win0.subrange(i as int, orig.len() as int)[0]
                                    == orig.subrange(i as int, orig.len() as int)[0]);
                            }
                        }
                        assert forall|k: int| 0 <= k < outpos implies self.window@[k] == win0[k]
                            by {}
                        assert(self.window@.subrange(0, outpos + 1) =~= win0.subrange(
                            0,
                            outpos as int,
                        ) + seq![b]);
                        assert(self.window@.subrange(0, outpos + 1) + win32_literals(
                            orig,
                            i + 1,
                            mode,
                        ) =~= win0.subrange(0, outpos as int) + win32_literals(
                            orig,
                            i as int,
                            mode0,
                        ));
                    }
                    outpos = outpos + 1;
                } else {
                    proof {
                        assert forall|k: int| i + 1 <= k < orig.len() implies self.window@[k]
                            == orig[k] by {
                            assert(win0.subrange(i as int, orig.len() as int)[k - i]
                                == orig.subrange(i as int, orig.len() as int)[k - i]);
                        }
                        assert(self.window@.subrange(i + 1, orig.len() as int) =~= orig.subrange(
                            i + 1,
                            orig.len() as int,
                        ));
                    }
                }
                i = i + 1;
            }
        }
        proof {
            if !done {
                assert(i == orig.len());
                assert(win32_token_end(orig, i as int, mode) == orig.len());
                assert(win32_literals(orig, i as int, mode) =~= Seq::<u8>::empty());
                assert(self.window@.subrange(0, outpos as int) + win32_literals(
                    orig,
                    i as int,
                    mode,
                ) =~= self.window@.subrange(0, outpos as int));
                assert(!win32_escape_cut(orig, i as int, mode));
            }
            assert(endpos == win32_token_end(orig, 0, Win32EscapeMode::Normal));
            assert(self.window@.subrange(0, outpos as int) == win32_word(orig));
            lemma_win32_token_end_bounds(orig, 0, Win32EscapeMode::Normal);
        }

        // 3. Consume one run of plain spaces after the token (a token cut by
        // a newline during an escape leaves a caret or zero byte in front,
        // so nothing is consumed there).
        while endpos < self.window.len() && self.window[endpos] == SPACE
            invariant
                self.window@.len() == orig.len(),
                head == (if fresh { CARET } else { 0u8 }),
                outpos <= endpos <= orig.len(),
                self.window@.subrange(0, outpos as int) == win32_word(orig),
                cut ==> endpos == win32_token_end(orig, 0, Win32EscapeMode::Normal)
                    && self.window@.subrange(endpos as int, orig.len() as int) == seq![head]
                    + orig.subrange(endpos + 1, orig.len() as int),
                !cut ==> skip_spaces(orig, endpos as int) == win32_consumed(orig)
                    && self.window@.subrange(endpos as int, orig.len() as int) == orig.subrange(
                    endpos as int,
                    orig.len() as int,
                ),
            decreases orig.len() - endpos,
        {
            let ghost win0 = self.window@;
            proof {
                if cut {
                    assert(win0.subrange(endpos as int, orig.len() as int)[0] == head);
                    assert(head == CARET || head == 0);
                    assert(false);
                }
                assert(self.window@[endpos as int] == orig[endpos as int]) by {
                    assert(win0.subrange(endpos as int, orig.len() as int)[0] == orig.subrange(
                        endpos as int,
                        orig.len() as int,
                    )[0]);
                }
            }
            self.window.set(endpos, 0);
            proof {
                assert(self.window@.subrange(0, outpos as int) =~= win0.subrange(
                    0,
                    outpos as int,
                ));
                assert forall|k: int| endpos + 1 <= k < orig.len() implies self.window@[k]
                    == orig[k] by {
                    assert(win0.subrange(endpos as int, orig.len() as int)[k - endpos]
                        == orig.subrange(endpos as int, orig.len() as int)[k - endpos]);
                }
                assert(self.window@.subrange(endpos + 1, orig.len() as int) =~= orig.subrange(
                    endpos + 1,
                    orig.len() as int,
                ));
            }
            endpos = endpos + 1;
        }
        proof {
            if !cut {
                if endpos < self.window.len() {
                    assert(self.window@[endpos as int] == orig[endpos as int]) by {
                        assert(self.window@.subrange(endpos as int, orig.len() as int)[0]
                            == orig.subrange(endpos as int, orig.len() as int)[0]);
                    }
                }
                assert(skip_spaces(orig, endpos as int) == endpos);
            }
        }

        // 4. Detach the consumed region; the literal prefix is the word, the
        // rest of the buffer is the new window.
        let ghost before_split = self.window@;
        let mut word = split_off_front_inplace_mut(&mut self.window, endpos);
        word.truncate(outpos);
        proof {
            assert(word@ =~= before_split.subrange(0, outpos as int));
            assert(self.window@ =~= win32_remainder(orig));
        }
        Some(word)
    }
}

} // verus!
