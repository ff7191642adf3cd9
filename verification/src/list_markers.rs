//! Repairs of list markers that text recognition misread.
use crate::text;
use crate::text::{
    chars_of, join_chars, letter, push_chars, same_chars, skip_digits, split_chars, string_of, trim_start,
    white,
};
use vstd::prelude::*;
use vstd::slice::slice_subrange;

verus! {

/// The digit that a letter is easily read for, if there is one.
pub open spec fn confused_digit(c: char) -> Option<char> {
    if c == 'l' || c == 'L' || c == 'I' {
        Some('1')
    } else if c == 'G' || c == 'b' {
        Some('6')
    } else if c == 'S' {
        Some('5')
    } else if c == 'O' || c == 'D' {
        Some('0')
    } else {
        None
    }
}

/// The digit that a letter is easily read for, if there is one.
pub fn confusable_digit_for_letter(c: char) -> (r: Option<char>)
    ensures
        r == confused_digit(c),
{
    if c == 'l' || c == 'L' || c == 'I' {
        Some('1')
    } else if c == 'G' || c == 'b' {
        Some('6')
    } else if c == 'S' {
        Some('5')
    } else if c == 'O' || c == 'D' {
        Some('0')
    } else {
        None
    }
}

/// What a line starts with, after white space.
#[derive(Clone, Copy, Debug, PartialEq, Eq, Structural)]
pub enum Marker {
    /// No list marker.
    Plain,
    /// A number and a point.
    Numbered,
    /// A number of this many digits and a comma.
    Comma(usize),
    /// This many characters that stand for the digit one, and a point.
    MisreadOne(usize),
    /// A letter that is easily read for this digit, and a point.
    Confusable(char),
    /// Another letter and a point.
    Lettered,
}

/// Whether a character is a capital letter.
pub open spec fn is_capital(c: char) -> bool {
    'A' <= c && c <= 'Z'
}

/// Whether white space and then a capital letter stand at a position.
pub open spec fn item_follows(s: Seq<char>, p: int) -> bool {
    let rest = text::trimmed_start(s.skip(p));
    p < s.len() && text::is_white(s[p]) && rest.len() > 0 && is_capital(rest[0])
}

/// Whether a character may stand for the digit one after another one that does.
pub open spec fn is_one_like(c: char) -> bool {
    c == 'l' || c == 'L' || c == 'I'
}

/// The marker of a line without white space before it.
pub open spec fn marker_of(s: Seq<char>) -> Marker {
    let digits = text::digits_end(s, 0);
    if s.len() == 0 {
        Marker::Plain
    } else if digits > 0 {
        if digits > 2 || digits >= s.len() || !item_follows(s, digits + 1) {
            Marker::Plain
        } else if s[digits] == '.' {
            Marker::Numbered
        } else if s[digits] == ',' {
            Marker::Comma(digits as usize)
        } else {
            Marker::Plain
        }
    } else if s.len() > 2 && s[0] == 'l' && is_one_like(s[1]) && s[2] == '.' && item_follows(s, 3) {
        Marker::MisreadOne(2)
    } else if s.len() > 1 && text::is_letter(s[0]) && s[1] == '.' && item_follows(s, 2) {
        if s[0] == 'l' {
            Marker::MisreadOne(1)
        } else {
            match confused_digit(s[0]) {
                Some(digit) => Marker::Confusable(digit),
                None => Marker::Lettered,
            }
        }
    } else {
        Marker::Plain
    }
}

/// The markers of lines.
pub open spec fn markers(lines: Seq<Seq<char>>) -> Seq<Marker> {
    lines.map_values(|line: Seq<char>| marker_of(text::trimmed_start(line)))
}

/// Whether a marker is certainly a number, or certainly a letter, if either.
pub open spec fn certain(marker: Marker) -> Option<bool> {
    match marker {
        Marker::Numbered | Marker::Comma(_) | Marker::MisreadOne(_) => Some(true),
        Marker::Lettered => Some(false),
        Marker::Plain | Marker::Confusable(_) => None,
    }
}

/// Whether the nearest certain marker before a position is a number.
pub open spec fn before(list: Seq<Marker>, i: int) -> Option<bool>
    decreases i,
{
    if i <= 0 || i > list.len() {
        None
    } else if certain(list[i - 1]) is Some {
        certain(list[i - 1])
    } else {
        before(list, i - 1)
    }
}

/// Whether the nearest certain marker from a position on is a number.
pub open spec fn from(list: Seq<Marker>, i: int) -> Option<bool>
    decreases list.len() - i,
{
    if i < 0 || i >= list.len() {
        None
    } else if certain(list[i]) is Some {
        certain(list[i])
    } else {
        from(list, i + 1)
    }
}

/// Whether what is certain about the neighbours of a marker speaks for a number, and nothing against it.
pub open spec fn among_numbers(list: Seq<Marker>, i: int) -> bool {
    let ahead = before(list, i);
    let behind = from(list, i + 1);
    ahead != Some(false) && behind != Some(false) && (ahead == Some(true) || behind == Some(true))
}

/// A line with its marker repaired.
pub open spec fn mended(line: Seq<char>, marker: Marker, numbers_around: bool) -> Seq<char> {
    let body = text::trimmed_start(line);
    let indent = line.take(line.len() - body.len());
    match marker {
        Marker::Comma(digits) => indent + body.take(digits as int) + seq!['.'] + body.skip(digits + 1),
        Marker::MisreadOne(count) => indent + seq!['1'] + body.skip(count as int),
        Marker::Confusable(digit) => if numbers_around {
            indent + seq![digit] + body.skip(1)
        } else {
            line
        },
        _ => line,
    }
}

/// Lines with their markers repaired.
pub open spec fn mended_lines(lines: Seq<Seq<char>>) -> Seq<Seq<char>> {
    let list = markers(lines);
    Seq::new(lines.len(), |i: int| mended(lines[i], list[i], among_numbers(list, i)))
}

/// A text with the list markers of its lines repaired.
pub open spec fn repaired(s: Seq<char>) -> Seq<char> {
    text::join(mended_lines(text::split_on(s, '\n')), seq!['\n'])
}

/// Whether white space and then a capital letter stand at a position.
fn has_item(s: &[char], p: usize) -> (r: bool)
    ensures
        r == item_follows(s@, p as int),
{
    let n = s.len();
    if p >= n || !white(s[p]) {
        return false;
    }
    let rest = trim_start(slice_subrange(s, p, n));
    assert(s@.subrange(p as int, n as int) =~= s@.skip(p as int));
    rest.len() > 0 && 'A' <= rest[0] && rest[0] <= 'Z'
}

/// What the beginning of a text trimmed of white space leaves out is no longer than the text.
proof fn lemma_trimming_shortens(s: Seq<char>)
    ensures
        text::trimmed_start(s).len() <= s.len(),
        text::trimmed_start(s) == s.skip(s.len() - text::trimmed_start(s).len()),
    decreases s.len(),
{
    if s.len() > 0 && text::trimmed_start(s) != s {
        lemma_trimming_shortens(s.skip(1));
        let rest = text::trimmed_start(s.skip(1));
        if text::trimmed_start(s) == rest {
            assert(s.skip(1).skip(s.len() - 1 - rest.len()) =~= s.skip(s.len() - rest.len()));
        }
    } else {
        assert(s.skip(0) =~= s);
    }
}

/// The marker of a line without white space before it.
fn read_marker(s: &[char]) -> (r: Marker)
    ensures
        r == marker_of(s@),
{
    let n = s.len();
    if n == 0 {
        return Marker::Plain;
    }
    let digits = skip_digits(s, 0);
    if digits > 0 {
        return if digits > 2 || digits >= n || !has_item(s, digits + 1) {
            Marker::Plain
        } else if s[digits] == '.' {
            Marker::Numbered
        } else if s[digits] == ',' {
            Marker::Comma(digits)
        } else {
            Marker::Plain
        };
    }
    if n > 2 && s[0] == 'l' && (s[1] == 'l' || s[1] == 'L' || s[1] == 'I') && s[2] == '.' && has_item(s, 3) {
        return Marker::MisreadOne(2);
    }
    if n > 1 && letter(s[0]) && s[1] == '.' && has_item(s, 2) {
        if s[0] == 'l' {
            return Marker::MisreadOne(1);
        }
        return match confusable_digit_for_letter(s[0]) {
            Some(digit) => Marker::Confusable(digit),
            None => Marker::Lettered,
        };
    }
    Marker::Plain
}

/// Whether a marker is certainly a number, or certainly a letter, if either.
fn certainty(marker: Marker) -> (r: Option<bool>)
    ensures
        r == certain(marker),
{
    match marker {
        Marker::Numbered | Marker::Comma(_) | Marker::MisreadOne(_) => Some(true),
        Marker::Lettered => Some(false),
        Marker::Plain | Marker::Confusable(_) => None,
    }
}

/// Whether the nearest certain marker before a position is a number.
fn certain_before(list: &[Marker], i: usize) -> (r: Option<bool>)
    requires
        i <= list.len(),
    ensures
        r == before(list@, i as int),
{
    let mut k: usize = i;
    while k > 0
        invariant
            k <= i <= list.len(),
            before(list@, i as int) == before(list@, k as int),
        decreases k,
    {
        let kind = certainty(list[k - 1]);
        if kind.is_some() {
            return kind;
        }
        k -= 1;
    }
    None
}

/// Whether the nearest certain marker from a position on is a number.
fn certain_from(list: &[Marker], i: usize) -> (r: Option<bool>)
    requires
        i <= list.len(),
    ensures
        r == from(list@, i as int),
{
    let mut k: usize = i;
    while k < list.len()
        invariant
            i <= k <= list.len(),
            from(list@, i as int) == from(list@, k as int),
        decreases list.len() - k,
    {
        let kind = certainty(list[k]);
        if kind.is_some() {
            return kind;
        }
        k += 1;
    }
    None
}

/// Whether what is certain about the neighbours of a marker speaks for a number, and nothing against it.
fn stands_among_numbers(list: &[Marker], i: usize) -> (r: bool)
    requires
        i < list.len(),
    ensures
        r == among_numbers(list@, i as int),
{
    let ahead = certain_before(list, i);
    let behind = certain_from(list, i + 1);
    match (ahead, behind) {
        (Some(true), Some(true)) | (Some(true), None) | (None, Some(true)) => true,
        _ => false,
    }
}

/// A marker of a number with a comma names digits that are there.
proof fn lemma_marker_fits(s: Seq<char>)
    ensures
        match marker_of(s) {
            Marker::Comma(digits) => digits < s.len(),
            Marker::MisreadOne(count) => count < s.len(),
            Marker::Confusable(_) => s.len() > 1,
            _ => true,
        },
{
    lemma_digits_end(s, 0);
}

/// The end of digits is not past the end of the text.
proof fn lemma_digits_end(s: Seq<char>, p: int)
    requires
        0 <= p <= s.len(),
    ensures
        p <= text::digits_end(s, p) <= s.len(),
    decreases s.len() - p,
{
    if p < s.len() && text::is_digit(s[p]) {
        lemma_digits_end(s, p + 1);
    }
}

/// Repairs the marker of a line.
fn mend(line: &[char], marker: Marker, numbers_around: bool) -> (r: Vec<char>)
    requires
        marker == marker_of(text::trimmed_start(line@)),
    ensures
        r@ == mended(line@, marker, numbers_around),
{
    proof {
        lemma_trimming_shortens(line@);
        lemma_marker_fits(text::trimmed_start(line@));
    }
    let body = trim_start(line);
    let n = body.len();
    let start = line.len() - n;
    let mut out: Vec<char> = Vec::new();
    match marker {
        Marker::Comma(digits) => {
            push_chars(&mut out, slice_subrange(line, 0, start));
            push_chars(&mut out, slice_subrange(body, 0, digits));
            out.push('.');
            push_chars(&mut out, slice_subrange(body, digits + 1, n));
        },
        Marker::MisreadOne(count) => {
            push_chars(&mut out, slice_subrange(line, 0, start));
            out.push('1');
            push_chars(&mut out, slice_subrange(body, count, n));
        },
        Marker::Confusable(digit) => {
            if numbers_around {
                push_chars(&mut out, slice_subrange(line, 0, start));
                out.push(digit);
                push_chars(&mut out, slice_subrange(body, 1, n));
            } else {
                push_chars(&mut out, line);
            }
        },
        _ => {
            push_chars(&mut out, line);
        },
    }
    assert(out@ =~= mended(line@, marker, numbers_around));
    out
}

/// Repairs the list markers of a recognised text, or gives nothing where there is nothing to repair.
pub fn repair_ocr_list_markers(t: &str) -> (r: Option<String>)
    ensures
        match r {
            Some(better) => better@ == repaired(t@) && repaired(t@) != t@,
            None => repaired(t@) == t@,
        },
{
    let chars = chars_of(t);
    let lines = split_chars(chars.as_slice(), '\n');
    let ghost all = text::texts(lines@);
    let mut list: Vec<Marker> = Vec::new();
    let mut i: usize = 0;
    while i < lines.len()
        invariant
            i <= lines.len(),
            all == text::texts(lines@),
            list@ == markers(all).take(i as int),
        decreases lines.len() - i,
    {
        assert(all[i as int] == lines@[i as int]@);
        list.push(read_marker(trim_start(lines[i].as_slice())));
        assert(list@ =~= markers(all).take(i + 1));
        i += 1;
    }
    assert(list@ =~= markers(all));
    let mut better: Vec<Vec<char>> = Vec::new();
    i = 0;
    while i < lines.len()
        invariant
            i <= lines.len(),
            all == text::texts(lines@),
            list@ == markers(all),
            text::texts(better@) == mended_lines(all).take(i as int),
        decreases lines.len() - i,
    {
        let ghost so_far = better@;
        assert(all[i as int] == lines@[i as int]@);
        let line = mend(lines[i].as_slice(), list[i], stands_among_numbers(list.as_slice(), i));
        better.push(line);
        assert(text::texts(better@) =~= text::texts(so_far).push(line@));
        assert(text::texts(better@) =~= mended_lines(all).take(i + 1));
        i += 1;
    }
    assert(mended_lines(all).take(all.len() as int) =~= mended_lines(all));
    let newline: Vec<char> = vec!['\n'];
    assert(newline@ =~= seq!['\n']);
    let whole = join_chars(better.as_slice(), newline.as_slice());
    if same_chars(whole.as_slice(), chars.as_slice()) {
        None
    } else {
        Some(string_of(whole.as_slice()))
    }
}

/// Where a text has no certain number among its markers, no nearest certain marker is a number.
proof fn lemma_no_numbers(list: Seq<Marker>, i: int)
    requires
        forall|k: int| 0 <= k < list.len() ==> certain(#[trigger] list[k]) != Some(true),
    ensures
        before(list, i) != Some(true),
        from(list, i) != Some(true),
{
    lemma_no_numbers_before(list, i);
    lemma_no_numbers_from(list, i);
}

/// Where a text has no certain number among its markers, the nearest certain marker before a position is
/// none.
proof fn lemma_no_numbers_before(list: Seq<Marker>, i: int)
    requires
        forall|k: int| 0 <= k < list.len() ==> certain(#[trigger] list[k]) != Some(true),
    ensures
        before(list, i) != Some(true),
    decreases i,
{
    if 0 < i <= list.len() {
        assert(certain(list[i - 1]) != Some(true));
        lemma_no_numbers_before(list, i - 1);
    }
}

/// Where a text has no certain number among its markers, the nearest certain marker from a position on is
/// none.
proof fn lemma_no_numbers_from(list: Seq<Marker>, i: int)
    requires
        forall|k: int| 0 <= k < list.len() ==> certain(#[trigger] list[k]) != Some(true),
    ensures
        from(list, i) != Some(true),
    decreases list.len() - i,
{
    if 0 <= i < list.len() {
        assert(certain(list[i]) != Some(true));
        lemma_no_numbers_from(list, i + 1);
    }
}

/// A text in which no line certainly starts with a number stays as it is: a lettered list is not turned
/// into a numbered one.
pub proof fn law_lettered_lists_stay(s: Seq<char>)
    requires
        forall|k: int|
            0 <= k < text::split_on(s, '\n').len() ==> certain(#[trigger] markers(text::split_on(s, '\n'))[k]) != Some(
                true,
            ),
    ensures
        repaired(s) == s,
{
    let lines = text::split_on(s, '\n');
    let list = markers(lines);
    assert forall|i: int| 0 <= i < lines.len() implies mended_lines(lines)[i] == lines[i] by {
        lemma_no_numbers(list, i);
        lemma_no_numbers(list, i + 1);
        assert(certain(list[i]) != Some(true));
    }
    assert(mended_lines(lines) =~= lines);
    lemma_join_of_split(s);
}

/// The lines of a text, put together again, are the text.
proof fn lemma_join_of_split(s: Seq<char>)
    ensures
        text::join(text::split_on(s, '\n'), seq!['\n']) == s,
    decreases s.len(),
{
    if s.len() == 0 {
        assert(text::join(seq![Seq::<char>::empty()], seq!['\n']) =~= s);
    } else {
        let head = s.drop_last();
        lemma_join_of_split(head);
        text::lemma_split_nonempty(head, '\n');
        let rest = text::split_on(head, '\n');
        if s.last() == '\n' {
            let all = rest.push(Seq::<char>::empty());
            assert(all.drop_last() =~= rest);
            assert(text::join(all, seq!['\n']) =~= s);
        } else {
            let all = rest.drop_last().push(rest.last().push(s.last()));
            assert(all.drop_last() =~= rest.drop_last());
            if rest.len() > 1 {
                assert(text::join(rest, seq!['\n']) == text::join(rest.drop_last(), seq!['\n']) + seq!['\n']
                    + rest.last());
                assert(text::join(all, seq!['\n']) == text::join(all.drop_last(), seq!['\n']) + seq!['\n'] + all.last());
                assert(text::join(all, seq!['\n']) =~= text::join(rest, seq!['\n']).push(s.last()));
            } else {
                assert(rest.drop_last() =~= Seq::<Seq<char>>::empty());
                assert(all.len() == 1 && all[0] == rest[0].push(s.last()));
                assert(text::join(all, seq!['\n']) =~= text::join(rest, seq!['\n']).push(s.last()));
            }
            assert(s =~= head.push(s.last()));
        }
    }
}

} // verus!
