//! Laws relating the POSIX parser's one-call contract to whole iterations:
//! plain input is split on runs of spaces, and escaping a word and parsing
//! it back is the identity.
use vstd::prelude::*;

use crate::BACKSLASH;
use crate::CARRIAGE_RETURN;
use crate::DOUBLE_QUOTE;
use crate::NEWLINE;
use crate::SINGLE_QUOTE;
use crate::SPACE;
use crate::TAB;
use crate::lemma_skip_spaces_bounds;
use crate::skip_spaces;
use crate::posix::PosixEscapeMode;
use crate::posix::lemma_posix_word_len;
use crate::posix::posix_breaks;
use crate::posix::posix_consumed;
use crate::posix::posix_escape;
use crate::posix::posix_escape_byte;
use crate::posix::posix_literals;
use crate::posix::posix_next_mode;
use crate::posix::posix_token_end;
use crate::posix::posix_word;
use crate::posix::posix_words;

verus! {

/// A byte that is nothing special to the POSIX scanner: not a backslash or
/// a quote, and not a separator other than the plain space.
pub open spec fn posix_plain_byte(b: u8) -> bool {
    b != BACKSLASH && b != SINGLE_QUOTE && b != DOUBLE_QUOTE && b != TAB && b != NEWLINE
        && b != CARRIAGE_RETURN
}

/// A window of nothing but plain bytes and spaces.
pub open spec fn posix_plain_input(s: Seq<u8>) -> bool {
    forall|k: int| 0 <= k < s.len() ==> posix_plain_byte(#[trigger] s[k])
}

/// The first position at or after `i` that holds a space, or the end of the
/// sequence.
pub open spec fn first_space(s: Seq<u8>, i: int) -> int
    decreases s.len() - i,
{
    if 0 <= i < s.len() && s[i] != SPACE {
        first_space(s, i + 1)
    } else {
        i
    }
}

/// `first_space` lands between its start and the end of the sequence, on a
/// space if anywhere short of the end.
pub proof fn lemma_first_space_bounds(s: Seq<u8>, i: int)
    requires
        0 <= i <= s.len(),
    ensures
        i <= first_space(s, i) <= s.len(),
        first_space(s, i) < s.len() ==> s[first_space(s, i)] == SPACE,
    decreases s.len() - i,
{
    if i < s.len() && s[i] != SPACE {
        lemma_first_space_bounds(s, i + 1);
    }
}

/// The words of a window split on runs of spaces, leading and trailing runs
/// dropped: the reference reading of escape-free input.
pub open spec fn space_split(s: Seq<u8>) -> Seq<Seq<u8>>
    decreases s.len(),
    via space_split_decreases
{
    if s.len() == 0 {
        Seq::empty()
    } else if s[0] == SPACE {
        space_split(s.skip(skip_spaces(s, 0)))
    } else {
        seq![s.subrange(0, first_space(s, 0))] + space_split(
            s.skip(skip_spaces(s, first_space(s, 0))),
        )
    }
}

#[via_fn]
proof fn space_split_decreases(s: Seq<u8>) {
    if s.len() > 0 {
        if s[0] == SPACE {
            lemma_skip_spaces_bounds(s, 1);
        } else {
            lemma_first_space_bounds(s, 1);
            lemma_skip_spaces_bounds(s, first_space(s, 0));
        }
    }
}

/// The split of a window on runs of spaces never contains an empty word.
pub proof fn lemma_space_split_no_empties(s: Seq<u8>)
    ensures
        forall|j: int| 0 <= j < space_split(s).len() ==> #[trigger] space_split(s)[j].len() > 0,
    decreases s.len(),
{
    if s.len() > 0 {
        if s[0] == SPACE {
            lemma_skip_spaces_bounds(s, 1);
            lemma_space_split_no_empties(s.skip(skip_spaces(s, 0)));
        } else {
            let e = first_space(s, 0);
            lemma_first_space_bounds(s, 1);
            lemma_skip_spaces_bounds(s, e);
            let rest = space_split(s.skip(skip_spaces(s, e)));
            lemma_space_split_no_empties(s.skip(skip_spaces(s, e)));
            assert forall|j: int| 0 <= j < space_split(s).len() implies #[trigger] space_split(
                s,
            )[j].len() > 0 by {
                if j == 0 {
                    assert(space_split(s)[0] == s.subrange(0, e));
                } else {
                    assert(space_split(s)[j] == rest[j - 1]);
                }
            }
        }
    }
}

/// Over a window of plain bytes the scanner is the identity: it stays in
/// `Outer` mode, emits every byte up to the first space, and ends there.
proof fn lemma_posix_plain_scan(s: Seq<u8>, i: int)
    requires
        0 <= i <= s.len(),
        posix_plain_input(s),
    ensures
        posix_token_end(s, i, PosixEscapeMode::Outer) == first_space(s, i),
        posix_literals(s, i, PosixEscapeMode::Outer) == s.subrange(i, first_space(s, i)),
    decreases s.len() - i,
{
    if i < s.len() && s[i] != SPACE {
        lemma_posix_plain_scan(s, i + 1);
        lemma_first_space_bounds(s, i + 1);
        assert(!posix_breaks(PosixEscapeMode::Outer, s[i]));
        assert(seq![s[i]] + s.subrange(i + 1, first_space(s, i + 1)) =~= s.subrange(
            i,
            first_space(s, i),
        ));
    } else {
        assert(s.subrange(i, i) =~= Seq::<u8>::empty());
    }
}

/// Separator law: a window holding no backslash, no quote, no double quote
/// and no separator besides the plain space — and not beginning with a
/// space — parses to exactly its split on runs of spaces, and never to an
/// empty word.
///
/// The two families of inputs this leaves out genuinely behave otherwise:
/// a window beginning with a space yields one empty word for the leading
/// run, and a tab, newline or carriage return is a separator the parser
/// stops in front of without consuming it.
pub proof fn lemma_posix_plain_split(s: Seq<u8>)
    requires
        posix_plain_input(s),
        s.len() > 0 ==> s[0] != SPACE,
    ensures
        posix_words(s) == space_split(s),
        forall|j: int| 0 <= j < posix_words(s).len() ==> #[trigger] posix_words(s)[j].len() > 0,
    decreases s.len(),
{
    lemma_space_split_no_empties(s);
    if s.len() > 0 {
        lemma_posix_plain_scan(s, 0);
        lemma_first_space_bounds(s, 1);
        let e = first_space(s, 0);
        let c = skip_spaces(s, e);
        lemma_skip_spaces_bounds(s, e);
        let s2 = s.skip(c);
        assert(posix_plain_input(s2)) by {
            assert forall|k: int| 0 <= k < s2.len() implies posix_plain_byte(
                #[trigger] s2[k],
            ) by {
                assert(s2[k] == s[c + k]);
            }
        }
        assert(s2.len() > 0 ==> s2[0] != SPACE) by {
            if s2.len() > 0 {
                assert(s2[0] == s[c]);
            }
        }
        lemma_posix_plain_split(s2);
        assert(posix_word(s) == s.subrange(0, e));
        assert(posix_consumed(s) == c);
        assert(posix_words(s) == seq![s.subrange(0, e)] + space_split(s2));
        assert(space_split(s) == seq![s.subrange(0, e)] + space_split(s2));
    }
}

/// Word count law: over the inputs of the separator law, iterating to
/// absence yields exactly as many words as the window has space-delimited
/// tokens. (That absence then repeats forever is part of `next`'s own
/// contract: an empty window stays empty.)
pub proof fn lemma_posix_word_count(s: Seq<u8>)
    requires
        posix_plain_input(s),
        s.len() > 0 ==> s[0] != SPACE,
    ensures
        posix_words(s).len() == space_split(s).len(),
{
    lemma_posix_plain_split(s);
}

/// Shifting a scan across a prefix: scanning `p + t` from where `t` begins
/// behaves as scanning `t` alone.
proof fn lemma_posix_scan_shift(p: Seq<u8>, t: Seq<u8>, j: int, m: PosixEscapeMode)
    requires
        0 <= j <= t.len(),
    ensures
        posix_token_end(p + t, p.len() + j, m) == p.len() + posix_token_end(t, j, m),
        posix_literals(p + t, p.len() + j, m) == posix_literals(t, j, m),
    decreases t.len() - j,
{
    let s = p + t;
    if j < t.len() {
        assert(s[p.len() + j] == t[j]);
        if !posix_breaks(m, t[j]) {
            lemma_posix_scan_shift(p, t, j + 1, posix_next_mode(m, t[j]));
        }
    }
}

/// Scanning an escaped word: the whole of `posix_escape(w)` is one token
/// with no structural break, and its literals are exactly `w`.
proof fn lemma_posix_escape_scan(w: Seq<u8>)
    ensures
        posix_token_end(posix_escape(w), 0, PosixEscapeMode::Outer) == posix_escape(w).len(),
        posix_literals(posix_escape(w), 0, PosixEscapeMode::Outer) == w,
    decreases w.len(),
{
    let s = posix_escape(w);
    if w.len() > 0 {
        let b = w[0];
        let rest = posix_escape(w.skip(1));
        lemma_posix_escape_scan(w.skip(1));
        let p = posix_escape_byte(b);
        assert(s == p + rest);
        if b == SPACE || b == TAB || b == NEWLINE || b == CARRIAGE_RETURN || b == SINGLE_QUOTE
            || b == DOUBLE_QUOTE || b == BACKSLASH {
            assert(s[0] == BACKSLASH && s[1] == b);
            lemma_posix_scan_shift(p, rest, 0, PosixEscapeMode::Outer);
            assert(posix_token_end(s, 0, PosixEscapeMode::Outer) == posix_token_end(
                s,
                1,
                PosixEscapeMode::OuterSlash,
            ));
            assert(posix_token_end(s, 1, PosixEscapeMode::OuterSlash) == posix_token_end(
                s,
                2,
                PosixEscapeMode::Outer,
            ));
            assert(posix_literals(s, 0, PosixEscapeMode::Outer) == posix_literals(
                s,
                1,
                PosixEscapeMode::OuterSlash,
            ));
            assert(posix_literals(s, 1, PosixEscapeMode::OuterSlash) == seq![b] + posix_literals(
                s,
                2,
                PosixEscapeMode::Outer,
            ));
            assert(seq![b] + w.skip(1) =~= w);
        } else {
            assert(s[0] == b);
            lemma_posix_scan_shift(p, rest, 0, PosixEscapeMode::Outer);
            assert(posix_token_end(s, 0, PosixEscapeMode::Outer) == posix_token_end(
                s,
                1,
                PosixEscapeMode::Outer,
            ));
            assert(posix_literals(s, 0, PosixEscapeMode::Outer) == seq![b] + posix_literals(
                s,
                1,
                PosixEscapeMode::Outer,
            ));
            assert(seq![b] + w.skip(1) =~= w);
        }
    }
}

/// Round-trip law: a word escaped with the `Outer`-mode table parses back
/// to itself — the scan takes the whole escaped window as one token whose
/// literals are the unescaped word, and iterating yields that single word.
pub proof fn lemma_posix_escape_round_trip(w: Seq<u8>)
    ensures
        posix_word(posix_escape(w)) == w,
        posix_consumed(posix_escape(w)) == posix_escape(w).len(),
        w.len() > 0 ==> posix_words(posix_escape(w)) == seq![w],
{
    lemma_posix_escape_scan(w);
    let s = posix_escape(w);
    assert(skip_spaces(s, s.len() as int) == s.len());
    if w.len() > 0 {
        assert(s.len() > 0);
        lemma_posix_word_len(s);
        assert(s.skip(s.len() as int) =~= Seq::<u8>::empty());
        assert(posix_words(s) == seq![posix_word(s)] + posix_words(s.skip(s.len() as int)));
        assert(seq![w] + Seq::<Seq<u8>>::empty() =~= seq![w]);
    }
}

} // verus!
