//! Laws of plain text.
use crate::text;
use vstd::prelude::*;

verus! {

/// A number in decimal notation is made of digits, has no leading zero, and its digits stand for the number.
pub proof fn law_decimal_is_read_back(n: nat)
    ensures
        text::all_digits(text::decimal(n)),
        text::decimal(n).len() > 0,
        text::decimal(n)[0] == '0' ==> n == 0,
        text::digits_value(text::decimal(n)) == n,
    decreases n,
{
    let s = text::decimal(n);
    let d = text::digit_char(n % 10);
    assert(('0' as u32) as int == 48);
    assert(d as u32 == 48 + n % 10);
    if n >= 10 {
        law_decimal_is_read_back(n / 10);
        assert(s.drop_last() =~= text::decimal(n / 10));
        assert(text::decimal(n / 10)[0] == s[0]);
        assert forall|i: int| 0 <= i < s.len() implies text::is_digit(#[trigger] s[i]) by {
            if i < s.len() - 1 {
                assert(text::is_digit(text::decimal(n / 10)[i]));
            }
        }
    } else {
        assert(s.drop_last() =~= Seq::empty());
        assert(n % 10 == n);
        reveal_with_fuel(text::digits_value, 2);
    }
}

/// The white space is cut off at both ends of a text and nowhere else.
pub proof fn law_trimming_cuts_white_space_at_the_ends(s: Seq<char>)
    ensures
        exists|i: int, j: int|
            0 <= i <= j <= s.len() && text::trimmed(s) == #[trigger] s.subrange(i, j) && (forall|k: int|
                0 <= k < i || j <= k < s.len() ==> text::is_white(#[trigger] s[k])),
        text::trimmed(s).len() > 0 ==> !text::is_white(text::trimmed(s)[0]) && !text::is_white(text::trimmed(s).last()),
{
    let t = text::trimmed_start(s);
    lemma_start_trimmed(s);
    lemma_end_trimmed(t);
    let r = text::trimmed(s);
    let i = s.len() - t.len();
    let j = i + r.len();
    assert(r =~= s.subrange(i, j));
    assert forall|k: int| 0 <= k < i || j <= k < s.len() implies text::is_white(#[trigger] s[k]) by {
        if k >= j {
            assert(t[k - i] == s[k]);
        }
    }
}

proof fn lemma_start_trimmed(s: Seq<char>)
    ensures
        ({
            let t = text::trimmed_start(s);
            let i = s.len() - t.len();
            &&& 0 <= i
            &&& t == s.skip(i)
            &&& t.len() > 0 ==> !text::is_white(t[0])
            &&& forall|k: int| 0 <= k < i ==> text::is_white(#[trigger] s[k])
        }),
    decreases s.len(),
{
    let t = text::trimmed_start(s);
    let i = s.len() - t.len();
    if s.len() > 0 && text::is_white(s[0]) {
        lemma_start_trimmed(s.drop_first());
        assert(t =~= s.skip(i));
        assert forall|k: int| 0 <= k < i implies text::is_white(#[trigger] s[k]) by {
            if k > 0 {
                assert(s.drop_first()[k - 1] == s[k]);
            }
        }
    } else {
        assert(t =~= s.skip(0));
    }
}

proof fn lemma_end_trimmed(s: Seq<char>)
    ensures
        ({
            let t = text::trimmed_end(s);
            &&& t.len() <= s.len()
            &&& t == s.take(t.len() as int)
            &&& t.len() > 0 ==> !text::is_white(t.last())
            &&& forall|k: int| t.len() <= k < s.len() ==> text::is_white(#[trigger] s[k])
        }),
    decreases s.len(),
{
    let t = text::trimmed_end(s);
    if s.len() > 0 && text::is_white(s.last()) {
        lemma_end_trimmed(s.drop_last());
        assert(t =~= s.take(t.len() as int));
        assert forall|k: int| t.len() <= k < s.len() implies text::is_white(#[trigger] s[k]) by {
            if k < s.len() - 1 {
                assert(s.drop_last()[k] == s[k]);
            }
        }
    } else {
        assert(t =~= s.take(t.len() as int));
    }
}

/// What was trimmed has no white space at its ends.
pub proof fn lemma_trimmed_ends(s: Seq<char>)
    ensures
        text::trimmed(s).len() > 0 ==> !text::is_white(text::trimmed(s)[0]) && !text::is_white(text::trimmed(s).last()),
{
    law_trimming_cuts_white_space_at_the_ends(s);
}

/// A text without white space at its ends is trimmed to itself.
pub proof fn law_trimmed_text_stays(s: Seq<char>)
    requires
        s.len() > 0 ==> !text::is_white(s[0]) && !text::is_white(s.last()),
    ensures
        text::trimmed(s) == s,
{
}

/// The pieces of a text, with the separator between them again, are the text, and no piece holds the separator.
pub proof fn law_pieces_make_up_the_text(s: Seq<char>, sep: char)
    ensures
        text::split_on(s, sep).len() > 0,
        text::join(text::split_on(s, sep), seq![sep]) == s,
        forall|i: int| 0 <= i < text::split_on(s, sep).len() ==> !(#[trigger] text::split_on(s, sep)[i]).contains(sep),
    decreases s.len(),
{
    text::lemma_split_nonempty(s, sep);
    text::lemma_split_pieces_hold_no_separator(s, sep);
    let pieces = text::split_on(s, sep);
    if s.len() == 0 {
        assert(text::join(pieces, seq![sep]) =~= s);
    } else {
        let init = s.drop_last();
        let before = text::split_on(init, sep);
        law_pieces_make_up_the_text(init, sep);
        let joined = text::join(before, seq![sep]);
        if s.last() == sep {
            assert(pieces.drop_last() =~= before);
            assert(text::join(pieces, seq![sep]) == joined + seq![sep] + Seq::<char>::empty());
            assert(text::join(pieces, seq![sep]) =~= s);
        } else {
            assert(pieces.drop_last() =~= before.drop_last());
            if before.len() > 1 {
                assert(text::join(pieces, seq![sep]) =~= text::join(before.drop_last(), seq![sep]) + seq![sep]
                    + before.last().push(s.last()));
            }
            assert(text::join(pieces, seq![sep]) =~= joined.push(s.last()));
            assert(joined.push(s.last()) =~= s);
        }
    }
}

/// The pieces of a text around a pattern, with the pattern between them again, are the text.
pub proof fn law_parts_make_up_the_text(s: Seq<char>, pattern: Seq<char>)
    ensures
        text::split_by(s, pattern).len() > 0,
        text::join(text::split_by(s, pattern), pattern) == s,
    decreases s.len(),
{
    let parts = text::split_by(s, pattern);
    match text::first_occurrence(s, pattern, 0) {
        Some(i) => {
            if pattern.len() > 0 && 0 <= i && i + pattern.len() <= s.len() {
                let rest = s.skip(i + pattern.len());
                law_parts_make_up_the_text(rest, pattern);
                lemma_found(s, pattern, 0);
                lemma_join_front(s.take(i), text::split_by(rest, pattern), pattern);
                assert(s =~= s.take(i) + s.subrange(i, i + pattern.len()) + rest);
            }
        },
        None => {},
    }
}

proof fn lemma_found(s: Seq<char>, pattern: Seq<char>, from: int)
    requires
        0 <= from,
    ensures
        text::first_occurrence(s, pattern, from) matches Some(i) ==> from <= i && text::occurs_at(s, pattern, i)
            && forall|k: int| from <= k < i ==> !text::occurs_at(s, pattern, k),
        text::first_occurrence(s, pattern, from) is None ==> forall|k: int|
            from <= k ==> !text::occurs_at(s, pattern, k),
    decreases s.len() + 1 - from,
{
    if from <= s.len() && !text::occurs_at(s, pattern, from) {
        lemma_found(s, pattern, from + 1);
    }
}

/// A part before others.
pub proof fn lemma_join_front(first: Seq<char>, rest: Seq<Seq<char>>, sep: Seq<char>)
    requires
        rest.len() > 0,
    ensures
        text::join(seq![first] + rest, sep) == first + sep + text::join(rest, sep),
    decreases rest.len(),
{
    let all = seq![first] + rest;
    assert(all.drop_last() =~= seq![first] + rest.drop_last());
    if rest.len() == 1 {
        assert(all.drop_last() =~= seq![first]);
        assert(text::join(all.drop_last(), sep) == first);
    } else {
        lemma_join_front(first, rest.drop_last(), sep);
        assert(text::join(all, sep) =~= first + sep + text::join(rest, sep));
    }
}

/// The first occurrence of a pattern is an occurrence, and there is none before it; none is found only where there
/// is none.
pub proof fn law_first_occurrence_is_the_first(s: Seq<char>, pattern: Seq<char>, from: int)
    requires
        0 <= from,
    ensures
        text::first_occurrence(s, pattern, from) matches Some(i) ==> from <= i && text::occurs_at(s, pattern, i)
            && forall|k: int| from <= k < i ==> !text::occurs_at(s, pattern, k),
        text::first_occurrence(s, pattern, from) is None ==> forall|k: int|
            from <= k ==> !text::occurs_at(s, pattern, k),
{
    lemma_found(s, pattern, from);
}

/// The position of a character is one of its positions, and there is none before it.
pub proof fn law_position_is_the_first(s: Seq<char>, c: char, from: int)
    requires
        0 <= from,
    ensures
        text::position_of(s, c, from) matches Some(i) ==> from <= i < s.len() && s[i] == c && forall|k: int|
            from <= k < i ==> s[k] != c,
        text::position_of(s, c, from) is None ==> forall|k: int| from <= k < s.len() ==> s[k] != c,
    decreases s.len() - from,
{
    if from < s.len() && s[from] != c {
        law_position_is_the_first(s, c, from + 1);
    }
}

/// Lines, each followed by a line feed.
pub open spec fn fed(lines: Seq<Seq<char>>) -> Seq<char>
    decreases lines.len(),
{
    if lines.len() == 0 {
        Seq::empty()
    } else {
        fed(lines.drop_last()) + lines.last().push('\n')
    }
}

/// Whether a text is a line: it holds no line feed and does not end in a carriage return.
pub open spec fn is_line(s: Seq<char>) -> bool {
    !s.contains('\n') && (s.len() > 0 ==> s.last() != '\r')
}

/// Lines that are each followed by a line feed are read back, and so is one more that is not.
pub proof fn law_lines_are_read_back(lines: Seq<Seq<char>>, last: Seq<char>)
    requires
        forall|i: int| 0 <= i < lines.len() ==> is_line(#[trigger] lines[i]),
        !last.contains('\n'),
    ensures
        text::lines_of(fed(lines)) == lines,
        last.len() > 0 ==> text::lines_of(fed(lines) + last) == lines.push(last),
{
    lemma_fed_splits(lines);
    let pieces = text::split_on(fed(lines), '\n');
    assert(pieces.drop_last() =~= lines);
    assert(text::lines_of(fed(lines)) =~= lines);
    if last.len() > 0 {
        lemma_split_on_line(fed(lines), last);
        let more = text::split_on(fed(lines) + last, '\n');
        assert(more.drop_last() =~= lines);
        assert(Seq::<char>::empty() + last =~= last);
        assert(text::lines_of(fed(lines) + last) =~= lines.push(last));
    }
}

proof fn lemma_split_on_line(head: Seq<char>, line: Seq<char>)
    requires
        !line.contains('\n'),
    ensures
        text::split_on(head, '\n').len() > 0,
        text::split_on(head + line, '\n') == text::split_on(head, '\n').drop_last().push(
            text::split_on(head, '\n').last() + line,
        ),
    decreases line.len(),
{
    text::lemma_split_nonempty(head, '\n');
    let pieces = text::split_on(head, '\n');
    if line.len() == 0 {
        assert(head + line =~= head);
        assert(pieces.last() + line =~= pieces.last());
        assert(pieces.drop_last().push(pieces.last()) =~= pieces);
    } else {
        let init = line.drop_last();
        assert(line[line.len() - 1] == line.last());
        assert(line.contains(line.last()));
        assert forall|x: char| init.contains(x) implies line.contains(x) by {
            let k = choose|k: int| 0 <= k < init.len() && init[k] == x;
            assert(line[k] == x);
        }
        lemma_split_on_line(head, init);
        assert((head + line).drop_last() =~= head + init);
        assert((pieces.last() + init).push(line.last()) =~= pieces.last() + line);
        assert(text::split_on(head + init, '\n').drop_last() =~= pieces.drop_last());
    }
}

/// Fed lines, cut at the line feeds.
pub proof fn lemma_fed_splits(lines: Seq<Seq<char>>)
    requires
        forall|i: int| 0 <= i < lines.len() ==> is_line(#[trigger] lines[i]),
    ensures
        text::split_on(fed(lines), '\n') == lines.push(Seq::empty()),
    decreases lines.len(),
{
    if lines.len() == 0 {
        assert(lines.push(Seq::empty()) =~= seq![Seq::<char>::empty()]);
    } else {
        let init = lines.drop_last();
        let line = lines.last();
        assert(is_line(lines[lines.len() - 1]));
        assert forall|i: int| 0 <= i < init.len() implies is_line(#[trigger] init[i]) by {
            assert(is_line(lines[i]));
        }
        lemma_fed_splits(init);
        lemma_split_on_line(fed(init), line);
        let before = fed(init) + line;
        assert(fed(lines) =~= before.push('\n'));
        assert(before.push('\n').drop_last() =~= before);
        assert(Seq::<char>::empty() + line =~= line);
        assert(init.push(Seq::empty()).drop_last() =~= init);
        assert(text::split_on(before, '\n') =~= lines);
    }
}

} // verus!
