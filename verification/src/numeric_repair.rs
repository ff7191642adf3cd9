//! Repairs of numbers that text recognition misread: thousands separators that were dropped or read as
//! points, and numbers that were split in two.
use crate::config::ExtractionConfig;
use crate::text;
use crate::text::{ascii_digit, chars_of, letter, push_chars, same_chars, skip_digits, string_of};
use vstd::prelude::*;
use vstd::slice::slice_subrange;

verus! {

/// Whether a character next to a number makes it part of something larger: an identifier, a range, a
/// path, a percentage or another number.
pub open spec fn binds(c: char) -> bool {
    text::is_letter(c) || text::is_digit(c) || c == '_' || c == '-' || c == '/' || c == '%' || c == '.' || c == ','
}

/// Whether nothing before a position binds to what stands there.
pub open spec fn free_before(s: Seq<char>, p: int) -> bool {
    p <= 0 || !binds(s[p - 1])
}

/// Whether nothing at a position binds to what stands before it.
pub open spec fn free_at(s: Seq<char>, p: int) -> bool {
    p >= s.len() || !binds(s[p])
}

/// Whether three digits stand at a position.
pub open spec fn three_digits(s: Seq<char>, p: int) -> bool {
    p + 3 <= s.len() && text::is_digit(s[p]) && text::is_digit(s[p + 1]) && text::is_digit(s[p + 2])
}

/// Whether a lone digit stands at a position, and one space after it a digit, a comma and three digits,
/// with no further digit behind.
pub open spec fn is_split(s: Seq<char>, p: int) -> bool {
    &&& p + 7 <= s.len()
    &&& text::is_digit(s[p])
    &&& free_before(s, p)
    &&& s[p + 1] == ' '
    &&& text::is_digit(s[p + 2])
    &&& s[p + 3] == ','
    &&& three_digits(s, p + 4)
    &&& !(p + 7 < s.len() && text::is_digit(s[p + 7]))
}

/// A text from a position on, with split numbers put together.
pub open spec fn joined(s: Seq<char>, p: int) -> Seq<char>
    decreases s.len() - p,
{
    if p < 0 || p >= s.len() {
        Seq::empty()
    } else if is_split(s, p) {
        seq![s[p]] + joined(s, p + 2)
    } else {
        seq![s[p]] + joined(s, p + 1)
    }
}

/// Whether a number of digits stands before a position, with nothing before them that binds.
pub open spec fn leads(s: Seq<char>, p: int, count: int) -> bool {
    p >= count && (forall|k: int| p - count <= k < p ==> text::is_digit(#[trigger] s[k])) && free_before(s, p - count)
}

/// Whether a point stands between one to three digits and three digits, with nothing around them that
/// binds.
pub open spec fn is_misread_separator(s: Seq<char>, p: int) -> bool {
    &&& s[p] == '.'
    &&& leads(s, p, 1) || leads(s, p, 2) || leads(s, p, 3)
    &&& three_digits(s, p + 1)
    &&& free_at(s, p + 4)
}

/// A text with points that stand for thousands separators turned into commas.
pub open spec fn pointless(s: Seq<char>) -> Seq<char> {
    Seq::new(
        s.len(),
        |p: int|
            if is_misread_separator(s, p) {
                ','
            } else {
                s[p]
            },
    )
}

/// Digits with a comma before every third digit from the end.
pub open spec fn grouped_digits(d: Seq<char>) -> Seq<char>
    decreases d.len(),
{
    if d.len() <= 3 {
        d
    } else {
        grouped_digits(d.take(d.len() - 3)) + seq![','] + d.skip(d.len() - 3)
    }
}

/// Whether a fiscal-year mark stands before a position.
pub open spec fn after_fiscal_year_mark(s: Seq<char>, p: int) -> bool {
    p >= 3 && s[p - 3] == 'F' && s[p - 2] == 'Y' && s[p - 1] == ' '
}

/// Whether digits from one position to another are a number that lacks its thousands separators: four to
/// nine digits, with nothing around them that binds, and no fiscal year.
pub open spec fn lacks_separators(s: Seq<char>, p: int, end: int) -> bool {
    4 <= end - p <= 9 && free_before(s, p) && free_at(s, end) && !after_fiscal_year_mark(s, p)
}

/// A text from a position on, with thousands separators in the numbers that lack them. The position is
/// not inside a number.
pub open spec fn grouped(s: Seq<char>, p: int) -> Seq<char>
    decreases s.len() - p,
{
    let end = text::digits_end(s, p);
    if p < 0 || p >= s.len() {
        Seq::empty()
    } else if end <= p || end > s.len() {
        seq![s[p]] + grouped(s, p + 1)
    } else if lacks_separators(s, p, end) {
        grouped_digits(s.subrange(p, end)) + grouped(s, end)
    } else {
        s.subrange(p, end) + grouped(s, end)
    }
}

/// A text with its numbers repaired: split numbers first, then points, then separators.
pub open spec fn repaired(s: Seq<char>) -> Seq<char> {
    grouped(pointless(joined(s, 0)), 0)
}

/// Whether a character next to a number makes it part of something larger.
fn is_bound(c: char) -> (r: bool)
    ensures
        r == binds(c),
{
    letter(c) || ascii_digit(c) || c == '_' || c == '-' || c == '/' || c == '%' || c == '.' || c == ','
}

/// Whether nothing before a position binds to what stands there.
fn nothing_before(s: &[char], p: usize) -> (r: bool)
    requires
        p <= s.len(),
    ensures
        r == free_before(s@, p as int),
{
    p == 0 || !is_bound(s[p - 1])
}

/// Whether nothing at a position binds to what stands before it.
fn nothing_at(s: &[char], p: usize) -> (r: bool)
    ensures
        r == free_at(s@, p as int),
{
    p >= s.len() || !is_bound(s[p])
}

/// Whether three digits stand at a position.
fn has_three_digits(s: &[char], p: usize) -> (r: bool)
    requires
        p <= s.len(),
    ensures
        r == three_digits(s@, p as int),
{
    s.len() - p >= 3 && ascii_digit(s[p]) && ascii_digit(s[p + 1]) && ascii_digit(s[p + 2])
}

/// Puts split numbers together.
fn join_split_numbers(s: &[char]) -> (r: Vec<char>)
    ensures
        r@ == joined(s@, 0),
{
    let mut out: Vec<char> = Vec::new();
    let mut p: usize = 0;
    let n = s.len();
    while p < n
        invariant
            p <= n,
            n == s@.len(),
            out@ + joined(s@, p as int) == joined(s@, 0),
        decreases n - p,
    {
        let split = n - p >= 7 && ascii_digit(s[p]) && nothing_before(s, p) && s[p + 1] == ' ' && ascii_digit(s[p + 2])
            && s[p + 3] == ',' && has_three_digits(s, p + 4) && !(n - p > 7 && ascii_digit(s[p + 7]));
        let ghost before = out@;
        out.push(s[p]);
        let step: usize = if split {
            2
        } else {
            1
        };
        assert(out@ + joined(s@, p + step) =~= before + joined(s@, p as int));
        p += step;
    }
    assert(out@ + joined(s@, n as int) =~= out@);
    out
}

/// Whether a number of digits stands before a position, with nothing before them that binds.
fn has_lead(s: &[char], p: usize, count: usize) -> (r: bool)
    requires
        p <= s.len(),
    ensures
        r == leads(s@, p as int, count as int),
{
    if p < count {
        return false;
    }
    let mut k: usize = p - count;
    while k < p
        invariant
            p - count <= k <= p,
            count <= p <= s.len(),
            forall|j: int| p - count <= j < k ==> text::is_digit(#[trigger] s@[j]),
        decreases p - k,
    {
        if !ascii_digit(s[k]) {
            return false;
        }
        k += 1;
    }
    nothing_before(s, p - count)
}

/// Turns points that stand for thousands separators into commas.
fn replace_misread_points(s: &[char]) -> (r: Vec<char>)
    ensures
        r@ == pointless(s@),
{
    let mut out: Vec<char> = Vec::new();
    let mut p: usize = 0;
    while p < s.len()
        invariant
            p <= s.len(),
            out@ == pointless(s@).take(p as int),
        decreases s.len() - p,
    {
        let misread = s[p] == '.' && (has_lead(s, p, 1) || has_lead(s, p, 2) || has_lead(s, p, 3)) && has_three_digits(
            s,
            p + 1,
        ) && nothing_at(s, p + 4);
        out.push(
            if misread {
                ','
            } else {
                s[p]
            },
        );
        assert(out@ =~= pointless(s@).take(p + 1));
        p += 1;
    }
    assert(pointless(s@).take(s@.len() as int) =~= pointless(s@));
    out
}

/// Writes digits with a comma before every third digit from the end.
fn push_grouped(out: &mut Vec<char>, d: &[char])
    ensures
        final(out)@ == old(out)@ + grouped_digits(d@),
    decreases d@.len(),
{
    let n = d.len();
    if n <= 3 {
        push_chars(out, d);
    } else {
        push_grouped(out, slice_subrange(d, 0, n - 3));
        out.push(',');
        push_chars(out, slice_subrange(d, n - 3, n));
        proof {
            assert(d@.subrange(0, n - 3) =~= d@.take(n - 3));
            assert(d@.subrange(n - 3, n as int) =~= d@.skip(n - 3));
            assert(out@ =~= old(out)@ + grouped_digits(d@));
        }
    }
}

/// Adds thousands separators to the numbers that lack them.
fn add_separators(s: &[char]) -> (r: Vec<char>)
    ensures
        r@ == grouped(s@, 0),
{
    let mut out: Vec<char> = Vec::new();
    let mut p: usize = 0;
    let n = s.len();
    while p < n
        invariant
            p <= n,
            n == s@.len(),
            out@ + grouped(s@, p as int) == grouped(s@, 0),
        decreases n - p,
    {
        let ghost before = out@;
        let end = skip_digits(s, p);
        if end == p {
            out.push(s[p]);
            assert(out@ + grouped(s@, p + 1) =~= before + grouped(s@, p as int));
            p += 1;
        } else {
            let digits = slice_subrange(s, p, end);
            let lacking = end - p >= 4 && end - p <= 9 && nothing_before(s, p) && nothing_at(s, end) && !(p >= 3
                && s[p - 3] == 'F' && s[p - 2] == 'Y' && s[p - 1] == ' ');
            if lacking {
                push_grouped(&mut out, digits);
            } else {
                push_chars(&mut out, digits);
            }
            assert(out@ + grouped(s@, end as int) =~= before + grouped(s@, p as int));
            p = end;
        }
    }
    assert(out@ + grouped(s@, n as int) =~= out@);
    out
}

/// Repairs the numbers of a recognised text, or gives nothing where there is nothing to repair.
pub fn repair_ocr_numeric_tokens(t: &str) -> (r: Option<String>)
    ensures
        match r {
            Some(better) => better@ == repaired(t@) && repaired(t@) != t@,
            None => repaired(t@) == t@,
        },
{
    let chars = chars_of(t);
    let whole = join_split_numbers(chars.as_slice());
    let pointed = replace_misread_points(whole.as_slice());
    let better = add_separators(pointed.as_slice());
    if same_chars(better.as_slice(), chars.as_slice()) {
        None
    } else {
        Some(string_of(better.as_slice()))
    }
}

/// Whether numbers are repaired at all: only where recognition is configured to.
pub fn numeric_repair_enabled(config: &ExtractionConfig) -> (r: bool)
    ensures
        r == match config.ocr {
            Some(ocr) => ocr.numeric_repair,
            None => false,
        },
{
    match &config.ocr {
        Some(ocr) => ocr.numeric_repair,
        None => false,
    }
}

/// The digits of a text, in their order.
pub open spec fn digits_of(s: Seq<char>) -> Seq<char> {
    s.filter(|c: char| text::is_digit(c))
}

/// The digits of a text and of what follows it are the digits of both.
proof fn lemma_digits_add(a: Seq<char>, b: Seq<char>)
    ensures
        digits_of(a + b) == digits_of(a) + digits_of(b),
{
    Seq::filter_distributes_over_add(a, b, |c: char| text::is_digit(c));
}

/// A character that is no digit has no digits.
proof fn lemma_no_digit(c: char)
    requires
        !text::is_digit(c),
    ensures
        digits_of(seq![c]) == Seq::<char>::empty(),
{
    reveal_with_fuel(Seq::filter, 2);
    assert(seq![c].drop_last() =~= Seq::<char>::empty());
}

/// Putting split numbers together keeps the digits.
proof fn lemma_joining_keeps_digits(s: Seq<char>, p: int)
    requires
        0 <= p,
    ensures
        p <= s.len() ==> digits_of(joined(s, p)) == digits_of(s.skip(p)),
    decreases s.len() - p,
{
    if p < s.len() {
        if is_split(s, p) {
            lemma_joining_keeps_digits(s, p + 2);
            lemma_digits_add(seq![s[p]], joined(s, p + 2));
            lemma_digits_add(seq![s[p]] + seq![' '], s.skip(p + 2));
            lemma_digits_add(seq![s[p]], seq![' ']);
            lemma_no_digit(' ');
            assert(s.skip(p) =~= seq![s[p]] + seq![' '] + s.skip(p + 2));
            assert(digits_of(seq![s[p]]) + Seq::<char>::empty() =~= digits_of(seq![s[p]]));
        } else {
            lemma_joining_keeps_digits(s, p + 1);
            lemma_digits_add(seq![s[p]], joined(s, p + 1));
            lemma_digits_add(seq![s[p]], s.skip(p + 1));
            assert(s.skip(p) =~= seq![s[p]] + s.skip(p + 1));
        }
    } else if p == s.len() {
        assert(s.skip(p) =~= Seq::<char>::empty());
    }
}

/// Texts that differ in characters that are no digits only have the same digits.
proof fn lemma_same_digits(a: Seq<char>, b: Seq<char>)
    requires
        a.len() == b.len(),
        forall|i: int| 0 <= i < a.len() ==> #[trigger] a[i] == b[i] || (!text::is_digit(a[i]) && !text::is_digit(b[i])),
    ensures
        digits_of(a) == digits_of(b),
    decreases a.len(),
{
    reveal(Seq::filter);
    if a.len() > 0 {
        lemma_same_digits(a.drop_last(), b.drop_last());
        assert(a[a.len() - 1] == b[a.len() - 1] || (!text::is_digit(a.last()) && !text::is_digit(b.last())));
    }
}

/// Commas between digits add no digit.
proof fn lemma_grouping_digits_keeps_digits(d: Seq<char>)
    ensures
        digits_of(grouped_digits(d)) == digits_of(d),
    decreases d.len(),
{
    if d.len() > 3 {
        let head = d.take(d.len() - 3);
        let tail = d.skip(d.len() - 3);
        lemma_grouping_digits_keeps_digits(head);
        lemma_digits_add(grouped_digits(head) + seq![','], tail);
        lemma_digits_add(grouped_digits(head), seq![',']);
        lemma_no_digit(',');
        lemma_digits_add(head, tail);
        assert(d =~= head + tail);
        assert(digits_of(head) + Seq::<char>::empty() =~= digits_of(head));
    }
}

/// Adding separators keeps the digits.
proof fn lemma_grouping_keeps_digits(s: Seq<char>, p: int)
    requires
        0 <= p <= s.len(),
    ensures
        digits_of(grouped(s, p)) == digits_of(s.skip(p)),
    decreases s.len() - p,
{
    let end = text::digits_end(s, p);
    if p == s.len() {
        assert(s.skip(p) =~= Seq::<char>::empty());
    } else if end <= p || end > s.len() {
        lemma_grouping_keeps_digits(s, p + 1);
        lemma_digits_add(seq![s[p]], grouped(s, p + 1));
        lemma_digits_add(seq![s[p]], s.skip(p + 1));
        assert(s.skip(p) =~= seq![s[p]] + s.skip(p + 1));
    } else {
        let d = s.subrange(p, end);
        lemma_grouping_keeps_digits(s, end);
        lemma_grouping_digits_keeps_digits(d);
        lemma_digits_add(grouped_digits(d), grouped(s, end));
        lemma_digits_add(d, grouped(s, end));
        lemma_digits_add(d, s.skip(end));
        assert(s.skip(p) =~= d + s.skip(end));
    }
}

/// No repair changes, adds or drops a digit.
pub proof fn law_repair_keeps_every_digit(s: Seq<char>)
    ensures
        digits_of(repaired(s)) == digits_of(s),
{
    let whole = joined(s, 0);
    let pointed = pointless(whole);
    lemma_joining_keeps_digits(s, 0);
    assert(s.skip(0) =~= s);
    lemma_same_digits(pointed, whole);
    lemma_grouping_keeps_digits(pointed, 0);
    assert(pointed.skip(0) =~= pointed);
}

} // verus!
