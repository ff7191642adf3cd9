//! Characters, strings and the small vocabulary of text operations that the readers share.
//!
//! A string is modelled by the sequence of its characters; byte offsets and byte lengths are those
//! of its UTF-8 encoding.
use vstd::prelude::*;
use vstd::slice::slice_subrange;

verus! {

/// `String::push` appends one character at the end.
pub assume_specification[ String::push ](s: &mut String, c: char)
    ensures
        final(s)@ == old(s)@.push(c),
;

/// The characters of a string, in order.
pub fn chars_of(s: &str) -> (r: Vec<char>)
    ensures
        r@ == s@,
{
    let mut out: Vec<char> = Vec::new();
    for c in it: s.chars()
        invariant
            it.seq() == s@,
            out@ == s@.take(it.index() as int),
    {
        proof {
            assert(s@.take(it.index() + 1) =~= s@.take(it.index() as int).push(s@[it.index() as int]));
        }
        out.push(c);
    }
    proof {
        assert(s@.take(s@.len() as int) =~= s@);
    }
    out
}

/// The string made of the given characters.
pub fn string_of(chars: &[char]) -> (r: String)
    ensures
        r@ == chars@,
{
    let mut out = String::new();
    let mut i: usize = 0;
    while i < chars.len()
        invariant
            i <= chars.len(),
            out@ == chars@.take(i as int),
        decreases chars.len() - i,
    {
        proof {
            assert(chars@.take(i + 1) =~= chars@.take(i as int).push(chars@[i as int]));
        }
        out.push(chars[i]);
        i = i + 1;
    }
    proof {
        assert(chars@.take(chars@.len() as int) =~= chars@);
    }
    out
}

/// The length of a text in bytes once it is encoded in UTF-8.
pub open spec fn byte_len(s: Seq<char>) -> nat {
    vstd::utf8::encode_utf8(s).len()
}

/// The length of a string in bytes.
pub fn str_byte_len(s: &str) -> (n: usize)
    ensures
        n == byte_len(s@),
{
    s.as_bytes().len()
}

/// The decimal digit of a value below ten.
pub open spec fn digit_char(d: nat) -> char {
    (('0' as u32) + d) as char
}

/// A number in decimal notation, without leading zeros.
pub open spec fn decimal(n: nat) -> Seq<char>
    decreases n,
{
    if n < 10 {
        seq![digit_char(n)]
    } else {
        decimal(n / 10).push(digit_char(n % 10))
    }
}

/// The decimal digit of a value below ten, as a character.
fn digit(d: u64) -> (c: char)
    requires
        d < 10,
    ensures
        c == digit_char(d as nat),
{
    let b: u8 = (48 + d) as u8;
    b as char
}

/// Appends a number in decimal notation.
pub fn push_decimal(out: &mut String, n: u64)
    ensures
        final(out)@ == old(out)@ + decimal(n as nat),
    decreases n,
{
    if n >= 10 {
        push_decimal(out, n / 10);
    }
    let c = digit(n % 10);
    out.push(c);
    proof {
        assert(final(out)@ =~= old(out)@ + decimal(n as nat));
    }
}

/// The texts of string slices.
pub open spec fn slices(v: Seq<&str>) -> Seq<Seq<char>> {
    v.map_values(|s: &str| s@)
}

/// The pieces of a text between the occurrences of a separator; a text without the separator is
/// its own only piece.
pub open spec fn split_on(s: Seq<char>, sep: char) -> Seq<Seq<char>>
    decreases s.len(),
{
    if s.len() == 0 {
        seq![Seq::<char>::empty()]
    } else {
        let rest = split_on(s.drop_last(), sep);
        if s.last() == sep {
            rest.push(Seq::<char>::empty())
        } else {
            rest.drop_last().push(rest.last().push(s.last()))
        }
    }
}

/// The texts held by a list of character buffers.
pub open spec fn texts(v: Seq<Vec<char>>) -> Seq<Seq<char>> {
    v.map_values(|x: Vec<char>| x@)
}

/// The texts held by a list of strings.
pub open spec fn strings(v: Seq<String>) -> Seq<Seq<char>> {
    v.map_values(|x: String| x@)
}

/// The pieces of a text between the occurrences of a separator.
pub fn split_chars(s: &[char], sep: char) -> (r: Vec<Vec<char>>)
    ensures
        texts(r@) == split_on(s@, sep),
{
    let mut out: Vec<Vec<char>> = Vec::new();
    let mut piece: Vec<char> = Vec::new();
    let mut i: usize = 0;
    proof {
        assert(texts(out@).push(piece@) =~= seq![Seq::<char>::empty()]);
    }
    while i < s.len()
        invariant
            i <= s.len(),
            texts(out@).push(piece@) == split_on(s@.take(i as int), sep),
        decreases s.len() - i,
    {
        let ghost before = texts(out@).push(piece@);
        proof {
            assert(s@.take(i + 1).drop_last() =~= s@.take(i as int));
            assert(before.drop_last() =~= texts(out@));
        }
        if s[i] == sep {
            let ghost old_out = out@;
            out.push(piece);
            proof {
                assert(texts(out@) =~= texts(old_out).push(before.last()));
            }
            piece = Vec::new();
        } else {
            piece.push(s[i]);
        }
        i = i + 1;
    }
    let ghost old_out = out@;
    let ghost last = piece@;
    out.push(piece);
    proof {
        assert(s@.take(s@.len() as int) =~= s@);
        assert(texts(out@) =~= texts(old_out).push(last));
    }
    out
}

/// The concatenation of texts with a separator between neighbours.
pub open spec fn join(parts: Seq<Seq<char>>, sep: Seq<char>) -> Seq<char>
    decreases parts.len(),
{
    if parts.len() == 0 {
        Seq::empty()
    } else if parts.len() == 1 {
        parts[0]
    } else {
        join(parts.drop_last(), sep) + sep + parts.last()
    }
}

/// Appends the characters of a slice.
pub fn push_chars(out: &mut Vec<char>, more: &[char])
    ensures
        final(out)@ == old(out)@ + more@,
{
    let ghost start = out@;
    let mut i: usize = 0;
    while i < more.len()
        invariant
            i <= more.len(),
            out@ == start + more@.take(i as int),
        decreases more.len() - i,
    {
        proof {
            assert(start + more@.take(i + 1) =~= (start + more@.take(i as int)).push(more@[i as int]));
        }
        out.push(more[i]);
        i = i + 1;
    }
    proof {
        assert(more@.take(more@.len() as int) =~= more@);
    }
}

/// The concatenation of texts with a separator between neighbours.
pub fn join_chars(parts: &[Vec<char>], sep: &[char]) -> (r: Vec<char>)
    ensures
        r@ == join(texts(parts@), sep@),
{
    let mut out: Vec<char> = Vec::new();
    let mut i: usize = 0;
    while i < parts.len()
        invariant
            i <= parts.len(),
            out@ == join(texts(parts@).take(i as int), sep@),
        decreases parts.len() - i,
    {
        let ghost all = texts(parts@);
        proof {
            assert(all.take(i + 1).drop_last() =~= all.take(i as int));
        }
        if i > 0 {
            push_chars(&mut out, sep);
        }
        push_chars(&mut out, parts[i].as_slice());
        proof {
            assert(all.take(i + 1).last() == parts@[i as int]@);
            if i == 0 {
                assert(out@ =~= parts@[0]@);
            }
        }
        i = i + 1;
    }
    proof {
        assert(texts(parts@).take(parts@.len() as int) =~= texts(parts@));
    }
    out
}

/// A text with every occurrence of one character replaced by another.
pub open spec fn replaced(s: Seq<char>, from: char, to: char) -> Seq<char> {
    s.map_values(|c: char| if c == from { to } else { c })
}

/// A text with every occurrence of one character replaced by another.
pub fn replace_char(s: &[char], from: char, to: char) -> (r: Vec<char>)
    ensures
        r@ == replaced(s@, from, to),
{
    let mut out: Vec<char> = Vec::new();
    let mut i: usize = 0;
    while i < s.len()
        invariant
            i <= s.len(),
            out@ == replaced(s@.take(i as int), from, to),
        decreases s.len() - i,
    {
        out.push(if s[i] == from { to } else { s[i] });
        proof {
            assert(out@ =~= replaced(s@.take(i + 1), from, to));
        }
        i = i + 1;
    }
    proof {
        assert(s@.take(s@.len() as int) =~= s@);
    }
    out
}

/// Whether a text holds a character.
pub fn contains_char(s: &[char], c: char) -> (r: bool)
    ensures
        r == s@.contains(c),
{
    let mut i: usize = 0;
    while i < s.len()
        invariant
            i <= s.len(),
            forall|k: int| 0 <= k < i ==> s@[k] != c,
        decreases s.len() - i,
    {
        if s[i] == c {
            return true;
        }
        i = i + 1;
    }
    false
}

/// Joining pieces that hold no separator, then splitting, gives the pieces back.
pub proof fn lemma_split_of_join(parts: Seq<Seq<char>>, sep: char)
    requires
        parts.len() > 0,
        forall|i: int| 0 <= i < parts.len() ==> !(#[trigger] parts[i]).contains(sep),
    ensures
        split_on(join(parts, seq![sep]), sep) == parts,
    decreases parts.len(),
{
    if parts.len() == 1 {
        lemma_split_without_separator(Seq::empty(), parts[0], sep);
        assert(Seq::<char>::empty() + parts[0] =~= parts[0]);
        assert(split_on(Seq::<char>::empty(), sep) =~= seq![Seq::<char>::empty()]);
        assert(seq![Seq::<char>::empty()].drop_last().push(Seq::<char>::empty() + parts[0]) =~= parts);
    } else {
        let init = parts.drop_last();
        assert forall|i: int| 0 <= i < init.len() implies !(#[trigger] init[i]).contains(sep) by {
            assert(init[i] == parts[i]);
        }
        lemma_split_of_join(init, sep);
        let head = join(init, seq![sep]);
        let opened = head + seq![sep];
        assert(opened.drop_last() =~= head);
        assert(split_on(opened, sep) =~= init.push(Seq::<char>::empty()));
        lemma_split_without_separator(opened, parts.last(), sep);
        assert(!parts[parts.len() - 1].contains(sep));
        assert(init.push(Seq::<char>::empty()).drop_last().push(Seq::<char>::empty() + parts.last()) =~= parts);
        assert(join(parts, seq![sep]) =~= opened + parts.last());
    }
}

/// Appending a text without the separator lengthens the last piece only.
pub proof fn lemma_split_without_separator(head: Seq<char>, tail: Seq<char>, sep: char)
    requires
        !tail.contains(sep),
    ensures
        split_on(head, sep).len() > 0,
        split_on(head + tail, sep) == split_on(head, sep).drop_last().push(split_on(head, sep).last() + tail),
    decreases tail.len(),
{
    lemma_split_nonempty(head, sep);
    let pieces = split_on(head, sep);
    if tail.len() == 0 {
        assert(head + tail =~= head);
        assert(pieces.last() + tail =~= pieces.last());
        assert(pieces.drop_last().push(pieces.last()) =~= pieces);
    } else {
        let init = tail.drop_last();
        assert(!init.contains(sep)) by {
            if init.contains(sep) {
                let k = choose|k: int| 0 <= k < init.len() && init[k] == sep;
                assert(tail[k] == sep);
            }
        }
        lemma_split_without_separator(head, init, sep);
        assert((head + tail).drop_last() =~= head + init);
        assert(tail[tail.len() - 1] != sep);
        assert((pieces.last() + init).push(tail.last()) =~= pieces.last() + tail);
        assert(split_on(head + init, sep).drop_last() =~= pieces.drop_last());
    }
}

/// Splitting always gives at least one piece.
pub proof fn lemma_split_nonempty(s: Seq<char>, sep: char)
    ensures
        split_on(s, sep).len() > 0,
    decreases s.len(),
{
    if s.len() > 0 {
        lemma_split_nonempty(s.drop_last(), sep);
    }
}

/// No piece of a split text holds the separator.
pub proof fn lemma_split_pieces_hold_no_separator(s: Seq<char>, sep: char)
    ensures
        forall|i: int| 0 <= i < split_on(s, sep).len() ==> !(#[trigger] split_on(s, sep)[i]).contains(sep),
    decreases s.len(),
{
    let pieces = split_on(s, sep);
    if s.len() > 0 {
        let before = split_on(s.drop_last(), sep);
        lemma_split_pieces_hold_no_separator(s.drop_last(), sep);
        lemma_split_nonempty(s.drop_last(), sep);
        assert forall|i: int| 0 <= i < pieces.len() implies !(#[trigger] pieces[i]).contains(sep) by {
            if i < before.len() - 1 {
                assert(pieces[i] == before[i]);
            } else if i < before.len() {
                assert(!before[i].contains(sep));
                if s.last() == sep {
                    assert(pieces[i] == before[i]);
                } else {
                    assert(pieces[i] == before[i].push(s.last()));
                    if pieces[i].contains(sep) {
                        let k = choose|k: int| 0 <= k < pieces[i].len() && pieces[i][k] == sep;
                        assert(before[i][k] == sep);
                    }
                }
            }
        }
    }
}

/// Whether a character has the Unicode property White_Space.
pub open spec fn is_white(c: char) -> bool {
    ('\u{9}' <= c && c <= '\u{d}') || c == ' ' || c == '\u{85}' || c == '\u{a0}' || c == '\u{1680}' || (
    '\u{2000}' <= c && c <= '\u{200a}') || c == '\u{2028}' || c == '\u{2029}' || c == '\u{202f}' || c
        == '\u{205f}' || c == '\u{3000}'
}

/// Whether a character has the Unicode property White_Space.
pub fn white(c: char) -> (r: bool)
    ensures
        r == is_white(c),
{
    ('\u{9}' <= c && c <= '\u{d}') || c == ' ' || c == '\u{85}' || c == '\u{a0}' || c == '\u{1680}' || (
    '\u{2000}' <= c && c <= '\u{200a}') || c == '\u{2028}' || c == '\u{2029}' || c == '\u{202f}' || c
        == '\u{205f}' || c == '\u{3000}'
}

/// A text without its leading white space.
pub open spec fn trimmed_start(s: Seq<char>) -> Seq<char>
    decreases s.len(),
{
    if s.len() > 0 && is_white(s[0]) {
        trimmed_start(s.drop_first())
    } else {
        s
    }
}

/// A text without its trailing white space.
pub open spec fn trimmed_end(s: Seq<char>) -> Seq<char>
    decreases s.len(),
{
    if s.len() > 0 && is_white(s.last()) {
        trimmed_end(s.drop_last())
    } else {
        s
    }
}

/// A text without its leading and trailing white space.
pub open spec fn trimmed(s: Seq<char>) -> Seq<char> {
    trimmed_end(trimmed_start(s))
}

/// A text without its leading white space.
pub fn trim_start(s: &[char]) -> (r: &[char])
    ensures
        r@ == trimmed_start(s@),
{
    let mut i: usize = 0;
    proof {
        assert(s@.skip(0) =~= s@);
    }
    while i < s.len() && white(s[i])
        invariant
            i <= s.len(),
            trimmed_start(s@.skip(i as int)) == trimmed_start(s@),
        decreases s.len() - i,
    {
        proof {
            assert(s@.skip(i as int).drop_first() =~= s@.skip(i + 1));
        }
        i = i + 1;
    }
    proof {
        assert(s@.subrange(i as int, s@.len() as int) =~= s@.skip(i as int));
    }
    slice_subrange(s, i, s.len())
}

/// A text without its trailing white space.
pub fn trim_end(s: &[char]) -> (r: &[char])
    ensures
        r@ == trimmed_end(s@),
{
    let mut n: usize = s.len();
    proof {
        assert(s@.take(n as int) =~= s@);
    }
    while n > 0 && white(s[n - 1])
        invariant
            n <= s.len(),
            trimmed_end(s@.take(n as int)) == trimmed_end(s@),
        decreases n,
    {
        proof {
            assert(s@.take(n as int).drop_last() =~= s@.take(n - 1));
        }
        n = n - 1;
    }
    proof {
        assert(s@.subrange(0, n as int) =~= s@.take(n as int));
    }
    slice_subrange(s, 0, n)
}

/// A text without its leading and trailing white space.
pub fn trim(s: &[char]) -> (r: &[char])
    ensures
        r@ == trimmed(s@),
{
    trim_end(trim_start(s))
}

/// A text without the leading occurrences of a character.
pub open spec fn stripped_start(s: Seq<char>, c: char) -> Seq<char>
    decreases s.len(),
{
    if s.len() > 0 && s[0] == c {
        stripped_start(s.drop_first(), c)
    } else {
        s
    }
}

/// A text without the trailing occurrences of a character.
pub open spec fn stripped_end(s: Seq<char>, c: char) -> Seq<char>
    decreases s.len(),
{
    if s.len() > 0 && s.last() == c {
        stripped_end(s.drop_last(), c)
    } else {
        s
    }
}

/// A text without the leading and trailing occurrences of a character.
pub fn strip_matches(s: &[char], c: char) -> (r: &[char])
    ensures
        r@ == stripped_end(stripped_start(s@, c), c),
{
    let mut i: usize = 0;
    proof {
        assert(s@.skip(0) =~= s@);
    }
    while i < s.len() && s[i] == c
        invariant
            i <= s.len(),
            stripped_start(s@.skip(i as int), c) == stripped_start(s@, c),
        decreases s.len() - i,
    {
        proof {
            assert(s@.skip(i as int).drop_first() =~= s@.skip(i + 1));
        }
        i = i + 1;
    }
    let ghost rest = s@.skip(i as int);
    let mut n: usize = s.len();
    proof {
        assert(s@.subrange(i as int, n as int) =~= rest);
    }
    while n > i && s[n - 1] == c
        invariant
            i <= n <= s.len(),
            stripped_end(s@.subrange(i as int, n as int), c) == stripped_end(rest, c),
        decreases n,
    {
        proof {
            assert(s@.subrange(i as int, n as int).drop_last() =~= s@.subrange(i as int, n - 1));
        }
        n = n - 1;
    }
    slice_subrange(s, i, n)
}

/// Whether two slices hold the same characters.
pub fn same_chars(a: &[char], b: &[char]) -> (r: bool)
    ensures
        r == (a@ == b@),
{
    if a.len() != b.len() {
        return false;
    }
    let mut i: usize = 0;
    while i < a.len()
        invariant
            i <= a.len(),
            a.len() == b.len(),
            forall|k: int| 0 <= k < i ==> a@[k] == b@[k],
        decreases a.len() - i,
    {
        if a[i] != b[i] {
            return false;
        }
        i = i + 1;
    }
    proof {
        assert(a@ =~= b@);
    }
    true
}

/// Whether a slice holds the characters of a string.
pub fn is_str(a: &[char], b: &str) -> (r: bool)
    ensures
        r == (a@ == b@),
{
    same_chars(a, chars_of(b).as_slice())
}

/// Whether a pattern occurs at a position.
pub open spec fn occurs_at(s: Seq<char>, pattern: Seq<char>, i: int) -> bool {
    0 <= i && i + pattern.len() <= s.len() && s.subrange(i, i + pattern.len()) == pattern
}

/// Whether a pattern occurs at a position.
pub fn occurs(s: &[char], pattern: &[char], i: usize) -> (r: bool)
    ensures
        r == occurs_at(s@, pattern@, i as int),
{
    if i > s.len() || pattern.len() > s.len() - i {
        return false;
    }
    same_chars(slice_subrange(s, i, i + pattern.len()), pattern)
}

/// Whether a text starts with a string.
pub fn has_prefix(s: &[char], prefix: &str) -> (r: bool)
    ensures
        r == occurs_at(s@, prefix@, 0),
{
    occurs(s, chars_of(prefix).as_slice(), 0)
}

/// The first position from the given one at which a pattern occurs.
pub open spec fn first_occurrence(s: Seq<char>, pattern: Seq<char>, from: int) -> Option<int>
    decreases s.len() + 1 - from,
{
    if from > s.len() {
        None
    } else if occurs_at(s, pattern, from) {
        Some(from)
    } else {
        first_occurrence(s, pattern, from + 1)
    }
}

/// The first position from the given one at which a pattern occurs.
pub fn find_from(s: &[char], pattern: &str, from: usize) -> (r: Option<usize>)
    requires
        from <= s.len(),
    ensures
        match r {
            Some(p) => first_occurrence(s@, pattern@, from as int) == Some(p as int) && from <= p <= s@.len()
                && occurs_at(s@, pattern@, p as int),
            None => first_occurrence(s@, pattern@, from as int) is None,
        },
{
    let wanted = chars_of(pattern);
    let mut i: usize = from;
    loop
        invariant
            from <= i <= s.len(),
            wanted@ == pattern@,
            first_occurrence(s@, pattern@, i as int) == first_occurrence(s@, pattern@, from as int),
        decreases s.len() - i,
    {
        if occurs(s, wanted.as_slice(), i) {
            return Some(i);
        }
        if i == s.len() {
            proof {
                assert(first_occurrence(s@, pattern@, i + 1) is None);
            }
            return None;
        }
        i = i + 1;
    }
}

/// Whether a character is an ASCII letter.
pub open spec fn is_letter(c: char) -> bool {
    ('a' <= c && c <= 'z') || ('A' <= c && c <= 'Z')
}

/// Whether a character is an ASCII letter.
pub fn letter(c: char) -> (r: bool)
    ensures
        r == is_letter(c),
{
    ('a' <= c && c <= 'z') || ('A' <= c && c <= 'Z')
}

/// Whether a character is an ASCII digit.
pub open spec fn is_digit(c: char) -> bool {
    '0' <= c && c <= '9'
}

/// Whether a character is an ASCII digit.
pub fn ascii_digit(c: char) -> (r: bool)
    ensures
        r == is_digit(c),
{
    '0' <= c && c <= '9'
}

/// The number that a run of digits stands for.
pub open spec fn digits_value(s: Seq<char>) -> nat
    decreases s.len(),
{
    if s.len() == 0 {
        0
    } else {
        digits_value(s.drop_last()) * 10 + (s.last() as nat - '0' as nat) as nat
    }
}

/// Whether a text is made of digits only.
pub open spec fn all_digits(s: Seq<char>) -> bool {
    forall|i: int| 0 <= i < s.len() ==> is_digit(#[trigger] s[i])
}

/// The number that a run of digits stands for, if it is at most the given bound.
pub fn digits_up_to(s: &[char], bound: u64) -> (r: Option<u64>)
    requires
        all_digits(s@),
        bound <= 0xffff_ffff,
    ensures
        r == if digits_value(s@) <= bound {
            Some(digits_value(s@) as u64)
        } else {
            None
        },
{
    let mut acc: u64 = 0;
    let mut i: usize = 0;
    while i < s.len()
        invariant
            i <= s.len(),
            all_digits(s@),
            acc <= bound <= 0xffff_ffff,
            acc == digits_value(s@.take(i as int)),
        decreases s.len() - i,
    {
        proof {
            assert(s@.take(i + 1).drop_last() =~= s@.take(i as int));
            assert(s@.take(i + 1).last() == s@[i as int]);
            assert(is_digit(s@[i as int]));
        }
        let d: u64 = (s[i] as u32 - 48) as u64;
        acc = acc * 10 + d;
        if acc > bound {
            proof {
                lemma_digits_grow(s@, i + 1);
            }
            return None;
        }
        i = i + 1;
    }
    proof {
        assert(s@.take(s@.len() as int) =~= s@);
    }
    Some(acc)
}

/// Appending digits never makes the number smaller.
proof fn lemma_digits_grow(s: Seq<char>, n: int)
    requires
        0 <= n <= s.len(),
    ensures
        digits_value(s.take(n)) <= digits_value(s),
    decreases s.len(),
{
    if n == s.len() {
        assert(s.take(n) =~= s);
    } else {
        lemma_digits_grow(s.drop_last(), n);
        assert(s.drop_last().take(n) =~= s.take(n));
    }
}

/// The number of bytes that encode a character in UTF-8.
pub open spec fn utf8_width(c: char) -> nat {
    if (c as u32) < 0x80 {
        1
    } else if (c as u32) < 0x800 {
        2
    } else if (c as u32) < 0x1_0000 {
        3
    } else {
        4
    }
}

/// The number of bytes that encode a character in UTF-8.
pub fn char_width(c: char) -> (n: usize)
    ensures
        n == utf8_width(c),
{
    let code: u32 = c as u32;
    if code < 0x80 {
        1
    } else if code < 0x800 {
        2
    } else if code < 0x1_0000 {
        3
    } else {
        4
    }
}

/// The lines of a text. A line ends at a line feed, or at a carriage return and a line feed; the
/// last one need not end.
pub open spec fn lines_of(s: Seq<char>) -> Seq<Seq<char>> {
    let pieces = split_on(s, '\n');
    let ended = pieces.drop_last().map_values(|piece: Seq<char>| without_return(piece));
    if pieces.last().len() == 0 {
        ended
    } else {
        ended.push(pieces.last())
    }
}

/// A text without one carriage return at its end.
pub open spec fn without_return(s: Seq<char>) -> Seq<char> {
    if s.len() > 0 && s.last() == '\r' {
        s.drop_last()
    } else {
        s
    }
}

/// The lines of a text.
pub fn lines(s: &[char]) -> (r: Vec<Vec<char>>)
    ensures
        texts(r@) == lines_of(s@),
{
    let mut pieces = split_chars(s, '\n');
    let ghost all = split_on(s@, '\n');
    proof {
        lemma_split_nonempty(s@, '\n');
        assert(texts(pieces@).len() == pieces@.len());
    }
    let ghost before = pieces@;
    let last: Vec<char> = match pieces.pop() {
        Some(piece) => piece,
        None => Vec::new(),
    };
    proof {
        assert(texts(pieces@) =~= all.drop_last());
        assert(last@ == all.last());
    }
    let mut out: Vec<Vec<char>> = Vec::new();
    let mut i: usize = 0;
    let ghost ended = all.drop_last().map_values(|piece: Seq<char>| without_return(piece));
    while i < pieces.len()
        invariant
            i <= pieces.len(),
            texts(pieces@) == all.drop_last(),
            ended == all.drop_last().map_values(|piece: Seq<char>| without_return(piece)),
            texts(out@) == ended.take(i as int),
        decreases pieces.len() - i,
    {
        let mut line: Vec<char> = Vec::new();
        let n = pieces[i].len();
        let kept: usize = if n > 0 && pieces[i][n - 1] == '\r' { n - 1 } else { n };
        push_chars(&mut line, slice_subrange(pieces[i].as_slice(), 0, kept));
        proof {
            assert(texts(pieces@)[i as int] == pieces@[i as int]@);
            assert(line@ =~= without_return(pieces@[i as int]@));
            assert(ended.take(i + 1) =~= ended.take(i as int).push(line@));
        }
        let ghost old_out = out@;
        out.push(line);
        proof {
            assert(texts(out@) =~= texts(old_out).push(line@));
        }
        i = i + 1;
    }
    proof {
        assert(ended.take(ended.len() as int) =~= ended);
    }
    if last.len() > 0 {
        let ghost old_out = out@;
        out.push(last);
        proof {
            assert(texts(out@) =~= texts(old_out).push(last@));
        }
    }
    out
}

/// The bytes of a text in UTF-8 determine it: `std::str::from_utf8` accepts exactly the valid
/// encodings, and gives the text that they encode.
#[verifier::external_body]
pub(crate) fn utf8_text(bytes: &[u8]) -> (r: Option<String>)
    ensures
        match r {
            Some(s) => vstd::utf8::valid_utf8(bytes@) && s@ == vstd::utf8::decode_utf8(bytes@),
            None => !vstd::utf8::valid_utf8(bytes@),
        },
{
    std::str::from_utf8(bytes).ok().map(|s| s.to_owned())
}

/// The position after a run of digits.
pub open spec fn digits_end(s: Seq<char>, p: int) -> int
    decreases s.len() - p,
{
    if 0 <= p < s.len() && is_digit(s[p]) {
        digits_end(s, p + 1)
    } else {
        p
    }
}

/// The position after a run of digits.
pub fn skip_digits(s: &[char], p: usize) -> (r: usize)
    requires
        p <= s.len(),
    ensures
        r == digits_end(s@, p as int),
        p <= r <= s.len(),
        forall|k: int| p <= k < r ==> is_digit(#[trigger] s@[k]),
{
    let mut i: usize = p;
    while i < s.len() && ascii_digit(s[i])
        invariant
            p <= i <= s.len(),
            digits_end(s@, i as int) == digits_end(s@, p as int),
            forall|k: int| p <= k < i ==> is_digit(#[trigger] s@[k]),
        decreases s.len() - i,
    {
        i = i + 1;
    }
    i
}

/// The characters of a string without the white space around them.
pub fn trimmed_string(s: &str) -> (r: String)
    ensures
        r@ == trimmed(s@),
{
    string_of(trim(chars_of(s).as_slice()))
}

/// Whether a string holds nothing but white space.
pub fn is_blank(s: &str) -> (r: bool)
    ensures
        r == (trimmed(s@).len() == 0),
{
    trim(chars_of(s).as_slice()).len() == 0
}

/// The concatenation of strings with a separator between neighbours.
pub fn join_strings(parts: &[String], sep: &str) -> (r: String)
    ensures
        r@ == join(strings(parts@), sep@),
{
    let ghost all = strings(parts@);
    let mut out = String::new();
    let mut i: usize = 0;
    while i < parts.len()
        invariant
            i <= parts.len(),
            all == strings(parts@),
            out@ == join(all.take(i as int), sep@),
        decreases parts.len() - i,
    {
        proof {
            assert(all.take(i + 1).drop_last() =~= all.take(i as int));
            assert(all.take(i + 1).last() == parts@[i as int]@);
        }
        if i > 0 {
            out.append(sep);
        }
        out.append(parts[i].as_str());
        proof {
            if i == 0 {
                assert(out@ =~= parts@[0]@);
            }
        }
        i = i + 1;
    }
    proof {
        assert(all.take(all.len() as int) =~= all);
    }
    out
}

/// The pieces of a text between the occurrences of a pattern, found from left to right.
pub open spec fn split_by(s: Seq<char>, pattern: Seq<char>) -> Seq<Seq<char>>
    decreases s.len(),
{
    match first_occurrence(s, pattern, 0) {
        Some(i) => if pattern.len() > 0 && 0 <= i && i + pattern.len() <= s.len() {
            seq![s.take(i)] + split_by(s.skip(i + pattern.len()), pattern)
        } else {
            seq![s]
        },
        None => seq![s],
    }
}

/// The pieces of a text between the occurrences of a pattern.
pub fn split_str(s: &[char], pattern: &str) -> (r: Vec<Vec<char>>)
    requires
        pattern@.len() > 0,
    ensures
        texts(r@) == split_by(s@, pattern@),
{
    let width = chars_of(pattern).len();
    let mut out: Vec<Vec<char>> = Vec::new();
    let mut from: usize = 0;
    proof {
        assert(s@.skip(0) =~= s@);
        assert(texts(out@) + split_by(s@, pattern@) =~= split_by(s@, pattern@));
    }
    loop
        invariant
            from <= s.len(),
            width == pattern@.len(),
            pattern@.len() > 0,
            texts(out@) + split_by(s@.skip(from as int), pattern@) == split_by(s@, pattern@),
        decreases s.len() - from,
    {
        let rest = slice_subrange(s, from, s.len());
        proof {
            assert(rest@ =~= s@.skip(from as int));
        }
        let ghost before = out@;
        let mut piece: Vec<char> = Vec::new();
        match find_from(rest, pattern, 0) {
            Some(i) => {
                push_chars(&mut piece, slice_subrange(rest, 0, i));
                proof {
                    assert(piece@ =~= rest@.take(i as int));
                    assert(rest@.skip(i + width) =~= s@.skip(from + i + width));
                    let tail = split_by(s@.skip(from + i + width), pattern@);
                    assert(texts(before) + (seq![piece@] + tail) =~= texts(before).push(piece@) + tail);
                    assert(texts(before.push(piece)) =~= texts(before).push(piece@));
                }
                out.push(piece);
                from = from + i + width;
            },
            None => {
                push_chars(&mut piece, rest);
                proof {
                    assert(piece@ =~= rest@);
                    assert(texts(before.push(piece)) =~= texts(before) + seq![rest@]);
                }
                out.push(piece);
                return out;
            },
        }
    }
}

/// A character with an ASCII lower-case letter turned into the upper-case one.
pub open spec fn ascii_upper(c: char) -> char {
    if 'a' <= c && c <= 'z' {
        ((c as u32) - 32) as char
    } else {
        c
    }
}

/// A text with its ASCII letters in upper case.
pub open spec fn uppercased(s: Seq<char>) -> Seq<char> {
    s.map_values(|c: char| ascii_upper(c))
}

/// A text with its ASCII letters in upper case.
pub fn to_upper(s: &[char]) -> (r: Vec<char>)
    ensures
        r@ == uppercased(s@),
{
    let mut out: Vec<char> = Vec::new();
    let mut i: usize = 0;
    while i < s.len()
        invariant
            i <= s.len(),
            out@ == uppercased(s@.take(i as int)),
        decreases s.len() - i,
    {
        let c = s[i];
        let upper = if 'a' <= c && c <= 'z' {
            ((c as u32 - 32) as u8) as char
        } else {
            c
        };
        out.push(upper);
        proof {
            assert(out@ =~= uppercased(s@.take(i + 1)));
        }
        i = i + 1;
    }
    proof {
        assert(s@.take(s@.len() as int) =~= s@);
    }
    out
}

/// Whether two strings are the same.
pub fn same_str(a: &str, b: &str) -> (r: bool)
    ensures
        r == (a@ == b@),
{
    is_str(chars_of(a).as_slice(), b)
}

/// One more character takes as many more bytes as it is wide.
pub proof fn lemma_byte_len_push(s: Seq<char>, c: char)
    ensures
        byte_len(s.push(c)) == byte_len(s) + utf8_width(c),
    decreases s.len(),
{
    reveal_with_fuel(vstd::utf8::encode_utf8, 2);
    if s.len() == 0 {
        assert(s.push(c).drop_first() =~= Seq::<char>::empty());
    } else {
        lemma_byte_len_push(s.drop_first(), c);
        assert(s.push(c).drop_first() =~= s.drop_first().push(c));
    }
}

/// A longer prefix does not take fewer bytes.
pub proof fn lemma_byte_len_grows(s: Seq<char>, m: int, n: int)
    requires
        0 <= m <= n <= s.len(),
    ensures
        byte_len(s.take(m)) + (n - m) <= byte_len(s.take(n)),
    decreases n - m,
{
    if m < n {
        lemma_byte_len_grows(s, m, n - 1);
        lemma_byte_len_push(s.take(n - 1), s[n - 1]);
        assert(s.take(n - 1).push(s[n - 1]) =~= s.take(n));
    }
}

/// The longest prefix of a text that takes no more than a number of bytes.
pub open spec fn prefix_within(s: Seq<char>, max: nat) -> Seq<char>
    decreases s.len(),
{
    if s.len() == 0 || byte_len(s) <= max {
        s
    } else {
        prefix_within(s.drop_last(), max)
    }
}

proof fn lemma_prefix_within(s: Seq<char>, max: nat, n: int)
    requires
        0 <= n <= s.len(),
        byte_len(s.take(n)) <= max,
        n < s.len() ==> byte_len(s.take(n + 1)) > max,
    ensures
        prefix_within(s, max) == s.take(n),
    decreases s.len(),
{
    if n == s.len() {
        assert(s.take(n) =~= s);
    } else {
        lemma_byte_len_grows(s, n + 1, s.len() as int);
        assert(s.take(s.len() as int) =~= s);
        assert(s.drop_last().take(n) =~= s.take(n));
        if n + 1 < s.len() {
            assert(s.drop_last().take(n + 1) =~= s.take(n + 1));
        }
        lemma_prefix_within(s.drop_last(), max, n);
    }
}

/// Cuts a text to a number of bytes, at the boundary of a character, and says whether anything was
/// cut off.
pub fn truncate_utf8(value: &str, max_bytes: usize) -> (r: (String, bool))
    ensures
        r.0@ == prefix_within(value@, max_bytes as nat),
        r.1 == (byte_len(value@) > max_bytes),
{
    let s = chars_of(value);
    let truncated = str_byte_len(value) > max_bytes;
    if !truncated {
        return (value.to_owned(), false);
    }
    let mut used: usize = 0;
    let mut n: usize = 0;
    proof {
        assert(s@.take(0) =~= Seq::<char>::empty());
    }
    while n < s.len() && char_width(s[n]) <= max_bytes - used
        invariant
            n <= s.len(),
            used == byte_len(s@.take(n as int)),
            used <= max_bytes,
        decreases s.len() - n,
    {
        proof {
            lemma_byte_len_push(s@.take(n as int), s@[n as int]);
            assert(s@.take(n as int).push(s@[n as int]) =~= s@.take(n + 1));
        }
        used = used + char_width(s[n]);
        n = n + 1;
    }
    proof {
        if n < s.len() {
            lemma_byte_len_push(s@.take(n as int), s@[n as int]);
            assert(s@.take(n as int).push(s@[n as int]) =~= s@.take(n + 1));
        }
        lemma_prefix_within(s@, max_bytes as nat, n as int);
        assert(s@.subrange(0, n as int) =~= s@.take(n as int));
    }
    (string_of(slice_subrange(s.as_slice(), 0, n)), true)
}

/// A text that is cut to a number of bytes stays within it, keeps its beginning, and would not if it
/// kept one character more.
pub proof fn law_truncation_keeps_the_longest_beginning(s: Seq<char>, max: nat)
    ensures
        byte_len(prefix_within(s, max)) <= max,
        prefix_within(s, max).is_prefix_of(s),
        prefix_within(s, max).len() < s.len() ==> byte_len(s.take(prefix_within(s, max).len() as int + 1)) > max,
    decreases s.len(),
{
    if s.len() > 0 && byte_len(s) > max {
        law_truncation_keeps_the_longest_beginning(s.drop_last(), max);
        let kept = prefix_within(s.drop_last(), max);
        assert(kept =~= s.take(kept.len() as int));
        if kept.len() + 1 < s.len() {
            assert(s.drop_last().take(kept.len() as int + 1) =~= s.take(kept.len() as int + 1));
        } else {
            assert(s.take(kept.len() as int + 1) =~= s);
        }
    } else {
        assert(s =~= s.take(s.len() as int));
    }
}

/// Whether one text comes before another, character by character.
pub open spec fn text_before(a: Seq<char>, b: Seq<char>) -> bool
    decreases a.len(),
{
    if a.len() == 0 || b.len() == 0 {
        b.len() > 0
    } else {
        (a[0] as int) < (b[0] as int) || (a[0] == b[0] && text_before(a.skip(1), b.skip(1)))
    }
}

/// Whether one character has a smaller number than another.
fn smaller_char(x: char, y: char) -> (r: bool)
    ensures
        r == ((x as int) < (y as int)),
{
    (x as u32) < (y as u32)
}

/// Whether one text comes before another, character by character.
pub fn comes_before(a: &[char], b: &[char]) -> (r: bool)
    ensures
        r == text_before(a@, b@),
{
    let mut i: usize = 0;
    proof {
        assert(a@.skip(0) =~= a@);
        assert(b@.skip(0) =~= b@);
    }
    while i < a.len() && i < b.len()
        invariant
            i <= a.len(),
            i <= b.len(),
            text_before(a@, b@) == text_before(a@.skip(i as int), b@.skip(i as int)),
        decreases a.len() - i,
    {
        proof {
            assert(a@.skip(i as int).skip(1) =~= a@.skip(i + 1));
            assert(b@.skip(i as int).skip(1) =~= b@.skip(i + 1));
        }
        if a[i] != b[i] {
            return smaller_char(a[i], b[i]);
        }
        i = i + 1;
    }
    i < b.len()
}

/// The position of a character, from a position on.
pub open spec fn position_of(s: Seq<char>, c: char, p: int) -> Option<int>
    decreases s.len() - p,
{
    if p < 0 || p >= s.len() {
        None
    } else if s[p] == c {
        Some(p)
    } else {
        position_of(s, c, p + 1)
    }
}

/// The position of a character, from a position on.
pub fn find_char(s: &[char], c: char, from: usize) -> (r: Option<usize>)
    requires
        from <= s@.len(),
    ensures
        match r {
            Some(p) => position_of(s@, c, from as int) == Some(p as int) && from <= p < s@.len() && s@[p as int] == c,
            None => position_of(s@, c, from as int) is None,
        },
{
    let mut p: usize = from;
    while p < s.len()
        invariant
            from <= p <= s.len(),
            position_of(s@, c, p as int) == position_of(s@, c, from as int),
        decreases s.len() - p,
    {
        if s[p] == c {
            return Some(p);
        }
        p = p + 1;
    }
    None
}

/// The last position of a character.
pub open spec fn last_position_of(s: Seq<char>, c: char) -> Option<int>
    decreases s.len(),
{
    if s.len() == 0 {
        None
    } else if s.last() == c {
        Some(s.len() - 1)
    } else {
        last_position_of(s.drop_last(), c)
    }
}

/// The last position of a character.
pub fn find_last_char(s: &[char], c: char) -> (r: Option<usize>)
    ensures
        match r {
            Some(p) => last_position_of(s@, c) == Some(p as int) && p < s@.len(),
            None => last_position_of(s@, c) is None,
        },
{
    let mut n: usize = s.len();
    proof {
        assert(s@.take(n as int) =~= s@);
    }
    while n > 0
        invariant
            n <= s.len(),
            last_position_of(s@.take(n as int), c) == last_position_of(s@, c),
        decreases n,
    {
        proof {
            assert(s@.take(n as int).drop_last() =~= s@.take(n - 1));
        }
        if s[n - 1] == c {
            return Some(n - 1);
        }
        n = n - 1;
    }
    None
}

/// How often a text starts with a character.
pub open spec fn leading(s: Seq<char>, c: char) -> nat
    decreases s.len(),
{
    if s.len() > 0 && s[0] == c {
        1 + leading(s.skip(1), c)
    } else {
        0
    }
}

/// How often a text starts with a character.
pub fn count_leading(s: &[char], c: char) -> (n: usize)
    ensures
        n == leading(s@, c),
        n <= s@.len(),
{
    let mut n: usize = 0;
    proof {
        assert(s@.skip(0) =~= s@);
    }
    while n < s.len() && s[n] == c
        invariant
            n <= s.len(),
            n + leading(s@.skip(n as int), c) == leading(s@, c),
        decreases s.len() - n,
    {
        proof {
            assert(s@.skip(n as int).skip(1) =~= s@.skip(n + 1));
        }
        n = n + 1;
    }
    n
}

/// Whether a list of strings holds one.
pub fn contains_string(list: &[String], wanted: &str) -> (r: bool)
    ensures
        r == strings(list@).contains(wanted@),
{
    let ghost all = strings(list@);
    let mut i: usize = 0;
    while i < list.len()
        invariant
            i <= list.len(),
            all == strings(list@),
            forall|k: int| 0 <= k < i ==> all[k] != wanted@,
        decreases list.len() - i,
    {
        proof {
            assert(all[i as int] == list@[i as int]@);
        }
        if same_str(list[i].as_str(), wanted) {
            return true;
        }
        i = i + 1;
    }
    false
}

/// Whether a text ends in another.
pub open spec fn ends_with(s: Seq<char>, suffix: Seq<char>) -> bool {
    suffix.len() <= s.len() && s.skip(s.len() - suffix.len()) == suffix
}

/// Whether a text ends in another.
pub fn has_suffix(s: &[char], suffix: &str) -> (r: bool)
    ensures
        r == ends_with(s@, suffix@),
{
    let wanted = chars_of(suffix);
    if wanted.len() > s.len() {
        return false;
    }
    let tail = slice_subrange(s, s.len() - wanted.len(), s.len());
    proof {
        assert(tail@ =~= s@.skip(s@.len() - suffix@.len()));
    }
    same_chars(tail, wanted.as_slice())
}

/// Whether a text stands somewhere in another without a gap.
pub open spec fn is_piece_of(piece: Seq<char>, s: Seq<char>) -> bool {
    exists|o: int| #[trigger] occurs_at(s, piece, o)
}

/// A piece of a piece is a piece.
pub proof fn lemma_piece_of_piece(a: Seq<char>, b: Seq<char>, c: Seq<char>)
    requires
        is_piece_of(a, b),
        is_piece_of(b, c),
    ensures
        is_piece_of(a, c),
{
    let p = choose|o: int| #[trigger] occurs_at(b, a, o);
    let q = choose|o: int| #[trigger] occurs_at(c, b, o);
    assert(c.subrange(q + p, q + p + a.len()) =~= b.subrange(p, p + a.len()));
    assert(occurs_at(c, a, q + p));
}

/// A pattern that has no first occurrence occurs nowhere.
pub proof fn lemma_occurs_nowhere(s: Seq<char>, pattern: Seq<char>, from: int, p: int)
    requires
        first_occurrence(s, pattern, from) is None,
        from <= p,
    ensures
        !occurs_at(s, pattern, p),
    decreases s.len() + 1 - from,
{
    if from <= s.len() && from < p {
        lemma_occurs_nowhere(s, pattern, from + 1, p);
    }
}

/// A pattern that has no first occurrence is no piece.
pub proof fn lemma_no_piece(s: Seq<char>, pattern: Seq<char>)
    requires
        first_occurrence(s, pattern, 0) is None,
    ensures
        !is_piece_of(pattern, s),
{
    assert forall|o: int| !(#[trigger] occurs_at(s, pattern, o)) by {
        if 0 <= o {
            lemma_occurs_nowhere(s, pattern, 0, o);
        }
    }
}

/// A text without the white space around it is a piece of the text.
pub proof fn lemma_trimmed_is_piece(s: Seq<char>)
    ensures
        is_piece_of(trimmed(s), s),
{
    lemma_trimmed_start_is_piece(s);
    lemma_trimmed_end_is_piece(trimmed_start(s));
    lemma_piece_of_piece(trimmed(s), trimmed_start(s), s);
}

proof fn lemma_trimmed_start_is_piece(s: Seq<char>)
    ensures
        is_piece_of(trimmed_start(s), s),
    decreases s.len(),
{
    if s.len() > 0 && is_white(s[0]) {
        lemma_trimmed_start_is_piece(s.drop_first());
        assert(s.subrange(1, s.len() as int) =~= s.drop_first());
        assert(occurs_at(s, s.drop_first(), 1));
        lemma_piece_of_piece(trimmed_start(s), s.drop_first(), s);
    } else {
        assert(s.subrange(0, s.len() as int) =~= s);
        assert(occurs_at(s, s, 0));
    }
}

proof fn lemma_trimmed_end_is_piece(s: Seq<char>)
    ensures
        is_piece_of(trimmed_end(s), s),
    decreases s.len(),
{
    if s.len() > 0 && is_white(s.last()) {
        lemma_trimmed_end_is_piece(s.drop_last());
        assert(s.subrange(0, s.len() - 1) =~= s.drop_last());
        assert(occurs_at(s, s.drop_last(), 0));
        lemma_piece_of_piece(trimmed_end(s), s.drop_last(), s);
    } else {
        assert(s.subrange(0, s.len() as int) =~= s);
        assert(occurs_at(s, s, 0));
    }
}

proof fn lemma_split_gives_pieces(s: Seq<char>, sep: char)
    ensures
        split_on(s, sep).len() > 0,
        occurs_at(s, split_on(s, sep).last(), s.len() - split_on(s, sep).last().len()),
        forall|k: int| 0 <= k < split_on(s, sep).len() ==> is_piece_of(#[trigger] split_on(s, sep)[k], s),
    decreases s.len(),
{
    let all = split_on(s, sep);
    if s.len() == 0 {
        assert(s.subrange(0, 0) =~= Seq::<char>::empty());
        assert(all.last() =~= Seq::<char>::empty());
        assert(occurs_at(s, all.last(), 0));
        assert(all.len() == 1);
        assert(is_piece_of(all[0], s));
    } else {
        let init = s.drop_last();
        let rest = split_on(init, sep);
        lemma_split_gives_pieces(init, sep);
        assert(s.subrange(0, s.len() - 1) =~= init);
        assert(occurs_at(s, init, 0));
        if s.last() == sep {
            assert(s.subrange(s.len() as int, s.len() as int) =~= Seq::<char>::empty());
        } else {
            let o = init.len() - rest.last().len();
            assert(s.subrange(o, s.len() as int) =~= init.subrange(o, init.len() as int).push(s.last()));
        }
        assert(occurs_at(s, all.last(), s.len() - all.last().len()));
        assert forall|k: int| 0 <= k < all.len() implies is_piece_of(#[trigger] all[k], s) by {
            if k < all.len() - 1 {
                assert(all[k] == rest[k]);
                lemma_piece_of_piece(rest[k], init, s);
            } else {
                assert(all[k] == all.last());
            }
        }
    }
}

/// Every line of a text is a piece of it.
pub proof fn lemma_lines_are_pieces(s: Seq<char>, k: int)
    requires
        0 <= k < lines_of(s).len(),
    ensures
        is_piece_of(lines_of(s)[k], s),
{
    let pieces = split_on(s, '\n');
    lemma_split_gives_pieces(s, '\n');
    if k < pieces.len() - 1 {
        let piece = pieces[k];
        let line = lines_of(s)[k];
        assert(line == without_return(piece));
        assert(piece.subrange(0, line.len() as int) =~= line);
        assert(occurs_at(piece, line, 0));
        assert(is_piece_of(piece, s));
        lemma_piece_of_piece(line, piece, s);
    } else {
        assert(lines_of(s)[k] == pieces.last());
    }
}

} // verus!
