//! White space in the text of electronic books.
use crate::text;
use crate::text::{chars_of, string_of, white};
use vstd::prelude::*;

verus! {

/// A text in which every run of white space is one space.
pub open spec fn single_spaced(s: Seq<char>) -> Seq<char>
    decreases s.len(),
{
    if s.len() == 0 {
        Seq::empty()
    } else {
        let before = single_spaced(s.drop_last());
        if !text::is_white(s.last()) {
            before.push(s.last())
        } else if s.len() > 1 && text::is_white(s[s.len() - 2]) {
            before
        } else {
            before.push(' ')
        }
    }
}

/// Turns every run of white space into one space.
pub fn normalise_inline_whitespace(t: &str) -> (r: String)
    ensures
        r@ == single_spaced(t@),
{
    let chars = chars_of(t);
    let mut out: Vec<char> = Vec::new();
    let mut i: usize = 0;
    while i < chars.len()
        invariant
            i <= chars.len(),
            out@ == single_spaced(chars@.take(i as int)),
        decreases chars.len() - i,
    {
        proof {
            let longer = chars@.take(i + 1);
            assert(longer.drop_last() =~= chars@.take(i as int));
            assert(longer.last() == chars@[i as int]);
            assert(i > 0 ==> longer[longer.len() - 2] == chars@[i - 1]);
        }
        if !white(chars[i]) {
            out.push(chars[i]);
        } else if i == 0 || !white(chars[i - 1]) {
            out.push(' ');
        }
        i += 1;
    }
    assert(chars@.take(chars@.len() as int) =~= chars@);
    string_of(out.as_slice())
}

/// How many line ends a text ends with.
pub open spec fn trailing_line_ends(s: Seq<char>) -> nat
    decreases s.len(),
{
    if s.len() > 0 && s.last() == '\n' {
        trailing_line_ends(s.drop_last()) + 1
    } else {
        0
    }
}

/// A text in which no more than two line ends follow each other.
pub open spec fn thinned(s: Seq<char>) -> Seq<char>
    decreases s.len(),
{
    if s.len() == 0 {
        Seq::empty()
    } else if trailing_line_ends(s) > 2 {
        thinned(s.drop_last())
    } else {
        thinned(s.drop_last()).push(s.last())
    }
}

/// Drops blank lines that follow a blank line.
pub fn collapse_blank_lines(t: &str) -> (r: String)
    ensures
        r@ == thinned(t@),
{
    let chars = chars_of(t);
    let mut out: Vec<char> = Vec::new();
    let mut ends: usize = 0;
    let mut i: usize = 0;
    while i < chars.len()
        invariant
            i <= chars.len(),
            ends <= i,
            ends == trailing_line_ends(chars@.take(i as int)),
            out@ == thinned(chars@.take(i as int)),
        decreases chars.len() - i,
    {
        assert(chars@.take(i + 1).drop_last() =~= chars@.take(i as int));
        ends = if chars[i] == '\n' {
            ends + 1
        } else {
            0
        };
        if ends <= 2 {
            out.push(chars[i]);
        }
        i += 1;
    }
    assert(chars@.take(chars@.len() as int) =~= chars@);
    string_of(out.as_slice())
}

/// Whether no two white-space characters follow each other and each is a space.
pub open spec fn is_single_spaced(s: Seq<char>) -> bool {
    forall|i: int|
        0 <= i < s.len() && text::is_white(#[trigger] s[i]) ==> s[i] == ' ' && (i == 0 || !text::is_white(s[i - 1]))
}

/// Inline text ends with white space once normalised exactly where it did before.
proof fn lemma_last_white(s: Seq<char>)
    ensures
        s.len() > 0 ==> single_spaced(s).len() > 0 && text::is_white(single_spaced(s).last()) == text::is_white(s.last()),
        s.len() == 0 ==> single_spaced(s).len() == 0,
    decreases s.len(),
{
    if s.len() > 0 {
        lemma_last_white(s.drop_last());
        if s.len() > 1 {
            assert(s.drop_last().last() == s[s.len() - 2]);
        }
    }
}

/// Normalised inline text holds no run of white space and no white space but spaces.
pub proof fn law_inline_text_is_single_spaced(s: Seq<char>)
    ensures
        is_single_spaced(single_spaced(s)),
    decreases s.len(),
{
    if s.len() > 0 {
        law_inline_text_is_single_spaced(s.drop_last());
        lemma_last_white(s.drop_last());
        let before = single_spaced(s.drop_last());
        let after = single_spaced(s);
        if s.len() > 1 {
            assert(s.drop_last().last() == s[s.len() - 2]);
        }
        assert forall|i: int| 0 <= i < after.len() && text::is_white(#[trigger] after[i]) implies after[i] == ' ' && (
        i == 0 || !text::is_white(after[i - 1])) by {
            if i < before.len() {
                assert(after[i] == before[i]);
                if i > 0 {
                    assert(after[i - 1] == before[i - 1]);
                }
            } else if i > 0 {
                assert(after[i - 1] == before.last());
            }
        }
    }
}

/// Normalising inline text twice is normalising it once.
pub proof fn law_normalising_settles(s: Seq<char>)
    ensures
        single_spaced(single_spaced(s)) == single_spaced(s),
{
    law_inline_text_is_single_spaced(s);
    lemma_single_spaced_stays(single_spaced(s));
}

/// Single-spaced text stays as it is.
proof fn lemma_single_spaced_stays(s: Seq<char>)
    requires
        is_single_spaced(s),
    ensures
        single_spaced(s) == s,
    decreases s.len(),
{
    if s.len() > 0 {
        let head = s.drop_last();
        assert(is_single_spaced(head)) by {
            assert forall|i: int| 0 <= i < head.len() && text::is_white(#[trigger] head[i]) implies head[i] == ' ' && (
            i == 0 || !text::is_white(head[i - 1])) by {
                assert(head[i] == s[i]);
                if i > 0 {
                    assert(head[i - 1] == s[i - 1]);
                }
            }
        }
        lemma_single_spaced_stays(head);
        assert(s[s.len() - 1] == s.last());
        assert(s =~= head.push(s.last()));
    }
}

} // verus!
