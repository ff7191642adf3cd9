//! Laws of text that is tidied up or mended.
use crate::confidence;
use crate::epub_text;
use crate::language;
use crate::list_markers;
use crate::list_markers::Marker;
use crate::numeric_repair;
use crate::page_ocr;
use crate::page_ocr::LumaRaster;
use crate::registry;
use crate::table_model;
use crate::text;
use vstd::prelude::*;

verus! {

/// The characters of a text that are no white space, in order.
pub open spec fn inked(s: Seq<char>) -> Seq<char>
    decreases s.len(),
{
    if s.len() == 0 {
        Seq::empty()
    } else if text::is_white(s.last()) {
        inked(s.drop_last())
    } else {
        inked(s.drop_last()).push(s.last())
    }
}

/// Normalising inline text loses and changes nothing but white space.
pub proof fn law_normalising_keeps_every_word(s: Seq<char>)
    ensures
        inked(epub_text::single_spaced(s)) == inked(s),
    decreases s.len(),
{
    if s.len() > 0 {
        law_normalising_keeps_every_word(s.drop_last());
        let before = epub_text::single_spaced(s.drop_last());
        assert(before.push(s.last()).drop_last() =~= before);
        assert(before.push(' ').drop_last() =~= before);
    }
}

/// White space between two words stays white space: a word does not run into the next one.
pub proof fn law_normalising_keeps_words_apart(a: Seq<char>, b: Seq<char>)
    requires
        a.len() > 0,
        !text::is_white(a.last()),
        b.len() > 0,
        text::is_white(b[0]),
    ensures
        epub_text::single_spaced(a + b).len() > epub_text::single_spaced(a).len(),
        epub_text::single_spaced(a + b).take(epub_text::single_spaced(a).len() as int) == epub_text::single_spaced(a),
        epub_text::single_spaced(a + b)[epub_text::single_spaced(a).len() as int] == ' ',
    decreases b.len(),
{
    let s = a + b;
    let head = epub_text::single_spaced(a);
    if b.len() == 1 {
        assert(s.drop_last() =~= a);
        assert(epub_text::single_spaced(s) == head.push(' '));
        assert(head.push(' ').take(head.len() as int) =~= head);
    } else {
        let init = b.drop_last();
        assert(s.drop_last() =~= a + init);
        law_normalising_keeps_words_apart(a, init);
        let before = epub_text::single_spaced(a + init);
        let after = epub_text::single_spaced(s);
        assert(after.take(head.len() as int) =~= before.take(head.len() as int));
    }
}

/// The characters of a text but its line feeds, in order.
pub open spec fn unfed(s: Seq<char>) -> Seq<char>
    decreases s.len(),
{
    if s.len() == 0 {
        Seq::empty()
    } else if s.last() == '\n' {
        unfed(s.drop_last())
    } else {
        unfed(s.drop_last()).push(s.last())
    }
}

/// Thinning out line ends loses nothing else, and leaves two of them where there were more.
pub proof fn law_thinning_keeps_everything_but_line_ends(s: Seq<char>)
    ensures
        unfed(epub_text::thinned(s)) == unfed(s),
        epub_text::trailing_line_ends(epub_text::thinned(s)) == if epub_text::trailing_line_ends(s) > 2 {
            2
        } else {
            epub_text::trailing_line_ends(s)
        },
    decreases s.len(),
{
    if s.len() > 0 {
        law_thinning_keeps_everything_but_line_ends(s.drop_last());
        let before = epub_text::thinned(s.drop_last());
        assert(before.push(s.last()).drop_last() =~= before);
    }
}

/// The characters of a text but its commas, in order.
pub open spec fn uncommaed(s: Seq<char>) -> Seq<char>
    decreases s.len(),
{
    if s.len() == 0 {
        Seq::empty()
    } else if s.last() == ',' {
        uncommaed(s.drop_last())
    } else {
        uncommaed(s.drop_last()).push(s.last())
    }
}

proof fn lemma_uncommaed_in_parts(a: Seq<char>, b: Seq<char>)
    ensures
        uncommaed(a + b) == uncommaed(a) + uncommaed(b),
    decreases b.len(),
{
    if b.len() == 0 {
        assert(a + b =~= a);
        assert(uncommaed(a) + uncommaed(b) =~= uncommaed(a));
    } else {
        assert((a + b).drop_last() =~= a + b.drop_last());
        lemma_uncommaed_in_parts(a, b.drop_last());
        assert(uncommaed(a + b) =~= uncommaed(a) + uncommaed(b));
    }
}

proof fn lemma_digits_have_no_comma(d: Seq<char>)
    requires
        text::all_digits(d),
    ensures
        uncommaed(d) == d,
    decreases d.len(),
{
    if d.len() > 0 {
        assert(text::is_digit(d[d.len() - 1]));
        assert forall|i: int| 0 <= i < d.drop_last().len() implies text::is_digit(#[trigger] d.drop_last()[i]) by {
            assert(text::is_digit(d[i]));
        }
        lemma_digits_have_no_comma(d.drop_last());
        assert(d.drop_last().push(d.last()) =~= d);
    } else {
        assert(uncommaed(d) =~= d);
    }
}

/// Digits in groups are the same digits, and a comma stands before every third one from the end, but not before the
/// first.
#[verifier::spinoff_prover]
#[verifier::rlimit(60)]
pub proof fn law_digits_are_grouped_by_three(d: Seq<char>)
    requires
        text::all_digits(d),
        d.len() > 0,
    ensures
        uncommaed(numeric_repair::grouped_digits(d)) == d,
        numeric_repair::grouped_digits(d).len() == d.len() + (d.len() - 1) / 3,
        numeric_repair::grouped_digits(d)[0] == d[0],
        forall|k: int|
            0 <= k < numeric_repair::grouped_digits(d).len() ==> ((#[trigger] numeric_repair::grouped_digits(d)[k]) == ','
                <==> (numeric_repair::grouped_digits(d).len() - k) % 4 == 0),
    decreases d.len(),
{
    let g = numeric_repair::grouped_digits(d);
    if d.len() <= 3 {
        lemma_digits_have_no_comma(d);
        assert forall|k: int| 0 <= k < g.len() implies ((#[trigger] g[k]) == ',' <==> (g.len() - k) % 4 == 0) by {
            assert(text::is_digit(d[k]));
        }
    } else {
        let head = d.take(d.len() - 3);
        let tail = d.skip(d.len() - 3);
        assert forall|i: int| 0 <= i < head.len() implies text::is_digit(#[trigger] head[i]) by {
            assert(text::is_digit(d[i]));
        }
        assert forall|i: int| 0 <= i < tail.len() implies text::is_digit(#[trigger] tail[i]) by {
            assert(text::is_digit(d[d.len() - 3 + i]));
        }
        law_digits_are_grouped_by_three(head);
        lemma_digits_have_no_comma(tail);
        let before = numeric_repair::grouped_digits(head);
        lemma_uncommaed_in_parts(before + seq![','], tail);
        lemma_uncommaed_in_parts(before, seq![',']);
        assert(seq![','].drop_last() =~= Seq::empty());
        reveal_with_fuel(uncommaed, 2);
        assert(uncommaed(seq![',']) =~= Seq::empty());
        assert(head + Seq::<char>::empty() + tail =~= d);
        assert(g[0] == before[0]);
        assert forall|k: int| 0 <= k < g.len() implies ((#[trigger] g[k]) == ',' <==> (g.len() - k) % 4 == 0) by {
            if k < before.len() {
                assert(g[k] == before[k]);
                assert((g.len() - k) % 4 == (before.len() - k) % 4);
            } else if k > before.len() {
                assert(g[k] == tail[k - before.len() - 1]);
                assert(text::is_digit(tail[k - before.len() - 1]));
            }
        }
    }
}

proof fn lemma_digits_run(s: Seq<char>, p: int, q: int)
    requires
        0 <= p <= q <= s.len(),
        forall|k: int| p <= k < q ==> text::is_digit(#[trigger] s[k]),
        q < s.len() ==> !text::is_digit(s[q]),
    ensures
        text::digits_end(s, p) == q,
    decreases q - p,
{
    if p < q {
        lemma_digits_run(s, p + 1, q);
    }
}

proof fn lemma_nothing_joined(s: Seq<char>, p: int)
    requires
        0 <= p <= s.len(),
        forall|k: int| 0 <= k < s.len() ==> (#[trigger] s[k]) != ' ',
    ensures
        numeric_repair::joined(s, p) == s.skip(p),
    decreases s.len() - p,
{
    if p < s.len() {
        lemma_nothing_joined(s, p + 1);
        if p + 1 < s.len() {
            assert(s[p + 1] != ' ');
        }
        assert(seq![s[p]] + s.skip(p + 1) =~= s.skip(p));
    } else {
        assert(s.skip(p) =~= Seq::empty());
    }
}

/// A number of four to nine digits that stands alone gets its thousands separators; a shorter one stays as it is.
pub proof fn law_lone_numbers_get_their_separators(d: Seq<char>)
    requires
        text::all_digits(d),
        0 < d.len() <= 9,
    ensures
        numeric_repair::repaired(d) == numeric_repair::grouped_digits(d),
        d.len() <= 3 ==> numeric_repair::repaired(d) == d,
{
    assert forall|k: int| 0 <= k < d.len() implies (#[trigger] d[k]) != ' ' && d[k] != '.' by {
        assert(text::is_digit(d[k]));
    }
    lemma_nothing_joined(d, 0);
    assert(d.skip(0) =~= d);
    assert(numeric_repair::pointless(d) =~= d);
    lemma_digits_run(d, 0, d.len() as int);
    assert(d.subrange(0, d.len() as int) =~= d);
    assert(numeric_repair::grouped(d, d.len() as int) =~= Seq::empty());
    let g = numeric_repair::grouped_digits(d);
    assert(g + Seq::<char>::empty() =~= g);
    assert(d + Seq::<char>::empty() =~= d);
}

/// A point between one to three digits and three more, with nothing around them, becomes a comma.
#[verifier::spinoff_prover]
#[verifier::rlimit(60)]
pub proof fn law_misread_points_become_commas(a: Seq<char>, b: Seq<char>)
    requires
        text::all_digits(a),
        text::all_digits(b),
        0 < a.len() <= 3,
        b.len() == 3,
    ensures
        numeric_repair::repaired(a + seq!['.'] + b) == a + seq![','] + b,
{
    let s = a + seq!['.'] + b;
    let t = a + seq![','] + b;
    let p = a.len() as int;
    assert forall|k: int| 0 <= k < p implies text::is_digit(#[trigger] s[k]) by {
        assert(s[k] == a[k]);
    }
    assert forall|k: int| p < k < s.len() implies text::is_digit(#[trigger] s[k]) by {
        assert(s[k] == b[k - p - 1]);
    }
    assert forall|k: int| 0 <= k < s.len() implies (#[trigger] s[k]) != ' ' by {
        if k < p {
            assert(text::is_digit(s[k]));
        } else if k > p {
            assert(text::is_digit(s[k]));
        }
    }
    lemma_nothing_joined(s, 0);
    assert(s.skip(0) =~= s);
    assert(numeric_repair::leads(s, p, p));
    assert(numeric_repair::is_misread_separator(s, p));
    assert forall|k: int| 0 <= k < s.len() && k != p implies !(#[trigger] numeric_repair::is_misread_separator(s, k)) by {
        assert(text::is_digit(s[k]));
    }
    let u = numeric_repair::pointless(s);
    assert forall|k: int| 0 <= k < s.len() implies u[k] == t[k] by {
        assert(numeric_repair::is_misread_separator(s, k) <==> k == p);
    }
    assert(u =~= t);
    assert forall|k: int| 0 <= k < p implies text::is_digit(#[trigger] t[k]) by {
        assert(t[k] == a[k]);
    }
    assert forall|k: int| p < k < t.len() implies text::is_digit(#[trigger] t[k]) by {
        assert(t[k] == b[k - p - 1]);
    }
    lemma_digits_run(t, 0, p);
    lemma_digits_run(t, p, p);
    lemma_digits_run(t, p + 1, p + 4);
    assert(t.subrange(0, p) =~= a);
    assert(t.subrange(p + 1, p + 4) =~= b);
    assert(numeric_repair::grouped(t, p + 4) =~= Seq::empty());
    assert(b + Seq::<char>::empty() =~= b);
    assert(numeric_repair::grouped(t, p + 1) == b);
    assert(numeric_repair::grouped(t, p) == seq![','] + b);
    assert(numeric_repair::grouped(t, 0) == a + (seq![','] + b));
    assert(a + (seq![','] + b) =~= t);
}

/// A digit that was split off the number behind it is put together with it again.
#[verifier::spinoff_prover]
#[verifier::rlimit(60)]
pub proof fn law_split_numbers_are_put_together(a: char, b: char, c: Seq<char>)
    requires
        text::is_digit(a),
        text::is_digit(b),
        text::all_digits(c),
        c.len() == 3,
    ensures
        numeric_repair::joined(seq![a, ' ', b, ','] + c, 0) == seq![a, b, ','] + c,
{
    let s = seq![a, ' ', b, ','] + c;
    assert(s.len() == 7);
    assert(s[0] == a && s[1] == ' ' && s[2] == b && s[3] == ',');
    assert(s[4] == c[0] && s[5] == c[1] && s[6] == c[2]);
    assert(text::is_digit(c[0]) && text::is_digit(c[1]) && text::is_digit(c[2]));
    assert(numeric_repair::is_split(s, 0));
    lemma_tail_is_kept(s, 2);
    assert(seq![s[0]] + s.skip(2) =~= seq![a, b, ','] + c);
}

proof fn lemma_tail_is_kept(s: Seq<char>, p: int)
    requires
        0 <= p <= s.len(),
        forall|k: int| p <= k < s.len() ==> (#[trigger] s[k]) != ' ',
    ensures
        numeric_repair::joined(s, p) == s.skip(p),
    decreases s.len() - p,
{
    if p < s.len() {
        lemma_tail_is_kept(s, p + 1);
        if p + 1 < s.len() {
            assert(s[p + 1] != ' ');
        }
        assert(seq![s[p]] + s.skip(p + 1) =~= s.skip(p));
    } else {
        assert(s.skip(p) =~= Seq::empty());
    }
}

/// A text without digits is not changed by the repair of numbers.
pub proof fn law_words_are_not_repaired(s: Seq<char>)
    requires
        forall|k: int| 0 <= k < s.len() ==> !text::is_digit(#[trigger] s[k]),
    ensures
        numeric_repair::repaired(s) == s,
{
    lemma_no_digits_joined(s, 0);
    assert(s.skip(0) =~= s);
    assert forall|k: int| 0 <= k < s.len() implies numeric_repair::pointless(s)[k] == s[k] by {
        if numeric_repair::is_misread_separator(s, k) {
            assert(text::is_digit(s[k + 1]));
        }
    }
    assert(numeric_repair::pointless(s) =~= s);
    lemma_no_digits_grouped(s, 0);
}

proof fn lemma_no_digits_joined(s: Seq<char>, p: int)
    requires
        0 <= p <= s.len(),
        forall|k: int| 0 <= k < s.len() ==> !text::is_digit(#[trigger] s[k]),
    ensures
        numeric_repair::joined(s, p) == s.skip(p),
    decreases s.len() - p,
{
    if p < s.len() {
        lemma_no_digits_joined(s, p + 1);
        assert(!text::is_digit(s[p]));
        assert(seq![s[p]] + s.skip(p + 1) =~= s.skip(p));
    } else {
        assert(s.skip(p) =~= Seq::empty());
    }
}

proof fn lemma_no_digits_grouped(s: Seq<char>, p: int)
    requires
        0 <= p <= s.len(),
        forall|k: int| 0 <= k < s.len() ==> !text::is_digit(#[trigger] s[k]),
    ensures
        numeric_repair::grouped(s, p) == s.skip(p),
    decreases s.len() - p,
{
    if p < s.len() {
        lemma_no_digits_grouped(s, p + 1);
        assert(!text::is_digit(s[p]));
        assert(seq![s[p]] + s.skip(p + 1) =~= s.skip(p));
    } else {
        assert(s.skip(p) =~= Seq::empty());
    }
}

proof fn lemma_item_follows(s: Seq<char>, p: int, item: Seq<char>)
    requires
        0 <= p,
        item.len() > 0,
        'A' <= item[0] <= 'Z',
        p + 1 + item.len() == s.len(),
        s.skip(p) == seq![' '] + item,
    ensures
        list_markers::item_follows(s, p),
{
    let rest = seq![' '] + item;
    assert(s.skip(p)[0] == s[p]);
    assert(rest.drop_first() =~= item);
    assert(text::trimmed_start(rest) == text::trimmed_start(item));
    assert(text::trimmed_start(item) == item);
}

/// The marker of a list item whose point was read as a comma gets its point back.
#[verifier::spinoff_prover]
#[verifier::rlimit(60)]
pub proof fn law_commas_behind_item_numbers_become_points(d: Seq<char>, item: Seq<char>, around: bool)
    requires
        text::all_digits(d),
        1 <= d.len() <= 2,
        item.len() > 0,
        'A' <= item[0] <= 'Z',
    ensures
        list_markers::marker_of(d + seq![',', ' '] + item) == Marker::Comma(d.len() as usize),
        list_markers::mended(d + seq![',', ' '] + item, Marker::Comma(d.len() as usize), around) == d + seq!['.', ' ']
            + item,
        list_markers::marker_of(d + seq!['.', ' '] + item) is Numbered,
        list_markers::mended(d + seq!['.', ' '] + item, Marker::Numbered, around) == d + seq!['.', ' '] + item,
{
    let s = d + seq![',', ' '] + item;
    let t = d + seq!['.', ' '] + item;
    let n = d.len() as int;
    assert forall|k: int| 0 <= k < n implies text::is_digit(#[trigger] s[k]) by {
        assert(s[k] == d[k]);
    }
    assert forall|k: int| 0 <= k < n implies text::is_digit(#[trigger] t[k]) by {
        assert(t[k] == d[k]);
    }
    lemma_digits_run(s, 0, n);
    lemma_digits_run(t, 0, n);
    assert(s.skip(n + 1) =~= seq![' '] + item);
    assert(t.skip(n + 1) =~= seq![' '] + item);
    lemma_item_follows(s, n + 1, item);
    lemma_item_follows(t, n + 1, item);
    assert(text::is_digit(s[0]));
    assert(text::trimmed_start(s) == s);
    assert(s.take(0) =~= Seq::empty());
    let mended = list_markers::mended(s, Marker::Comma(d.len() as usize), around);
    assert(mended =~= t);
}

/// The marker of a list item whose one was read as a letter gets its number back, and a letter that is easily read
/// for a digit becomes that digit where the items around it are numbered, and only there.
pub proof fn law_misread_item_numbers_are_mended(item: Seq<char>)
    requires
        item.len() > 0,
        'A' <= item[0] <= 'Z',
    ensures
        list_markers::marker_of(seq!['l', '.', ' '] + item) == Marker::MisreadOne(1),
        list_markers::mended(seq!['l', '.', ' '] + item, Marker::MisreadOne(1), false) == seq!['1', '.', ' '] + item,
        list_markers::marker_of(seq!['S', '.', ' '] + item) == Marker::Confusable('5'),
        list_markers::mended(seq!['S', '.', ' '] + item, Marker::Confusable('5'), true) == seq!['5', '.', ' '] + item,
        list_markers::mended(seq!['S', '.', ' '] + item, Marker::Confusable('5'), false) == seq!['S', '.', ' '] + item,
        list_markers::marker_of(seq!['C', '.', ' '] + item) is Lettered,
{
    let s = seq!['l', '.', ' '] + item;
    let t = seq!['S', '.', ' '] + item;
    let u = seq!['C', '.', ' '] + item;
    assert(s.skip(2) =~= seq![' '] + item);
    assert(t.skip(2) =~= seq![' '] + item);
    assert(u.skip(2) =~= seq![' '] + item);
    lemma_item_follows(s, 2, item);
    lemma_item_follows(t, 2, item);
    lemma_item_follows(u, 2, item);
    assert(s[0] == 'l' && s[1] == '.');
    assert(t[0] == 'S' && t[1] == '.');
    assert(u[0] == 'C' && u[1] == '.');
    assert(text::trimmed_start(s) == s);
    assert(text::trimmed_start(t) == t);
    assert(s.take(0) =~= Seq::empty());
    assert(t.take(0) =~= Seq::empty());
    assert(list_markers::mended(s, Marker::MisreadOne(1), false) =~= seq!['1', '.', ' '] + item);
    assert(list_markers::mended(t, Marker::Confusable('5'), true) =~= seq!['5', '.', ' '] + item);
}

/// Mending markers keeps the number of lines, and changes no line without a marker.
pub proof fn law_lines_without_marker_stay(lines: Seq<Seq<char>>, i: int)
    requires
        0 <= i < lines.len(),
        list_markers::markers(lines)[i] is Plain || list_markers::markers(lines)[i] is Numbered
            || list_markers::markers(lines)[i] is Lettered,
    ensures
        list_markers::mended_lines(lines).len() == lines.len(),
        list_markers::mended_lines(lines)[i] == lines[i],
{
}

/// A resized image has the wanted shorter edge, unless its longer edge would be too long; then that one is as long
/// as it may be.
pub proof fn law_resized_images_have_a_wanted_edge(short: nat, long: nat)
    requires
        0 < short <= long,
    ensures
        ({
            let edges = table_model::resized_edges(short, long);
            &&& edges.0 == table_model::SHORTEST_EDGE || edges.1 == table_model::LONGEST_EDGE
            &&& table_model::SHORTEST_EDGE as nat * long / short <= table_model::LONGEST_EDGE ==> edges.0
                == table_model::SHORTEST_EDGE
            &&& table_model::SHORTEST_EDGE as nat * long / short > table_model::LONGEST_EDGE ==> edges.1
                == table_model::LONGEST_EDGE
            &&& edges.0 <= edges.1
        }),
{
    let stretched = table_model::SHORTEST_EDGE as nat * long / short;
    let a = table_model::SHORTEST_EDGE as nat;
    let b = table_model::LONGEST_EDGE as nat;
    assert(stretched >= a) by (nonlinear_arith)
        requires
            0 < short <= long,
            stretched == a * long / short,
    ;
    if stretched > b {
        assert(a * b / stretched <= b) by (nonlinear_arith)
            requires
                stretched >= a,
                stretched > 0,
        ;
    }
}

/// As many words are counted as there are runs of characters between spaces.
pub proof fn law_words_are_counted(words: Seq<Seq<char>>)
    requires
        forall|i: int| 0 <= i < words.len() ==> (#[trigger] words[i]).len() > 0 && (forall|k: int|
            0 <= k < words[i].len() ==> !text::is_white(#[trigger] words[i][k])),
    ensures
        confidence::word_count(text::join(words, seq![' '])) == words.len(),
        words.len() > 0 ==> text::join(words, seq![' ']).len() > 0 && !text::is_white(
            text::join(words, seq![' ']).last(),
        ),
    decreases words.len(),
{
    if words.len() == 0 {
        assert(text::join(words, seq![' ']) =~= Seq::empty());
    } else {
        let init = words.drop_last();
        let last = words.last();
        assert(words[words.len() - 1].len() > 0);
        assert forall|i: int| 0 <= i < init.len() implies (#[trigger] init[i]).len() > 0 && (forall|k: int|
            0 <= k < init[i].len() ==> !text::is_white(#[trigger] init[i][k])) by {
            assert(words[i].len() > 0);
        }
        law_words_are_counted(init);
        if words.len() == 1 {
            lemma_word_counted(Seq::empty(), last, last.len() as int);
            assert(Seq::<char>::empty() + last.take(last.len() as int) =~= last);
        } else {
            let head = text::join(init, seq![' ']) + seq![' '];
            assert(head.drop_last() =~= text::join(init, seq![' ']));
            assert(confidence::word_count(head) == init.len());
            lemma_word_counted(head, last, last.len() as int);
            assert(head + last.take(last.len() as int) =~= head + last);
        }
    }
}

proof fn lemma_word_counted(head: Seq<char>, word: Seq<char>, n: int)
    requires
        0 < n <= word.len(),
        head.len() > 0 ==> text::is_white(head.last()),
        forall|k: int| 0 <= k < word.len() ==> !text::is_white(#[trigger] word[k]),
    ensures
        confidence::word_count(head + word.take(n)) == confidence::word_count(head) + 1,
    decreases n,
{
    let s = head + word.take(n);
    assert(s.drop_last() =~= head + word.take(n - 1));
    assert(s.last() == word[n - 1]);
    if n == 1 {
        assert(s.drop_last() =~= head);
        if s.len() > 1 {
            assert(s[s.len() - 2] == head.last());
        }
    } else {
        lemma_word_counted(head, word, n - 1);
        assert(s[s.len() - 2] == word[n - 2]);
    }
}

/// The chunks of a text make it up again; none is empty or too long, and only the last one may be shorter.
pub proof fn law_chunks_make_up_the_text(s: Seq<char>, size: nat)
    requires
        size > 0,
    ensures
        text::join(language::chunked(s, size), Seq::empty()) == s,
        forall|i: int|
            0 <= i < language::chunked(s, size).len() ==> 0 < (#[trigger] language::chunked(s, size)[i]).len() <= size && (i
                < language::chunked(s, size).len() - 1 ==> language::chunked(s, size)[i].len() == size),
        s.len() > 0 ==> language::chunked(s, size).len() > 0,
    decreases s.len(),
{
    let all = language::chunked(s, size);
    if s.len() == 0 {
        assert(text::join(all, Seq::empty()) =~= s);
    } else if s.len() > size {
        let first = s.take(size as int);
        let rest = s.skip(size as int);
        law_chunks_make_up_the_text(rest, size);
        let later = language::chunked(rest, size);
        assert forall|i: int| 0 <= i < all.len() implies 0 < (#[trigger] all[i]).len() <= size && (i < all.len() - 1
            ==> all[i].len() == size) by {
            if i > 0 {
                assert(all[i] == later[i - 1]);
            }
        }
        crate::laws::text::lemma_join_front(first, later, Seq::empty());
        assert(first + Seq::<char>::empty() + rest =~= s);
    }
}

/// Every default extractor is registered, and those that were registered before stay in their places.
pub proof fn law_every_default_is_registered(names: Seq<Seq<char>>)
    ensures
        names.len() <= registry::with_defaults(names).len(),
        registry::with_defaults(names).take(names.len() as int) == names,
        forall|i: int|
            0 <= i < registry::baseline_names().len() ==> registry::with_defaults(names).contains(
                #[trigger] registry::baseline_names()[i],
            ),
        forall|i: int|
            0 <= i < registry::format_names().len() ==> registry::with_defaults(names).contains(
                #[trigger] registry::format_names()[i],
            ),
        forall|i: int|
            0 <= i < registry::office_names().len() ==> registry::with_defaults(names).contains(
                #[trigger] registry::office_names()[i],
            ),
        forall|i: int|
            0 <= i < registry::container_names().len() ==> registry::with_defaults(names).contains(
                #[trigger] registry::container_names()[i],
            ),
        forall|i: int|
            0 <= i < registry::bundle_names().len() ==> registry::with_defaults(names).contains(
                #[trigger] registry::bundle_names()[i],
            ),
{
    let a = registry::registered_all(names, registry::baseline_names());
    let b = registry::registered_all(a, registry::format_names());
    let c = registry::registered_all(b, registry::office_names());
    let d = registry::registered_all(c, registry::container_names());
    let e = registry::registered_all(d, registry::bundle_names());
    lemma_registered_all(names, registry::baseline_names());
    lemma_registered_all(a, registry::format_names());
    lemma_registered_all(b, registry::office_names());
    lemma_registered_all(c, registry::container_names());
    lemma_registered_all(d, registry::bundle_names());
    lemma_stay(a, b);
    lemma_stay(b, c);
    lemma_stay(c, d);
    lemma_stay(d, e);
    assert(e.take(names.len() as int) =~= names) by {
        assert forall|k: int| 0 <= k < names.len() implies e[k] == names[k] by {
            assert(a.take(names.len() as int)[k] == names[k]);
            assert(b.take(a.len() as int)[k] == a[k]);
            assert(c.take(b.len() as int)[k] == b[k]);
            assert(d.take(c.len() as int)[k] == c[k]);
            assert(e.take(d.len() as int)[k] == d[k]);
        }
    }
}

proof fn lemma_stay(a: Seq<Seq<char>>, b: Seq<Seq<char>>)
    requires
        a.len() <= b.len(),
        b.take(a.len() as int) == a,
    ensures
        forall|name: Seq<char>| a.contains(name) ==> #[trigger] b.contains(name),
{
    assert forall|name: Seq<char>| a.contains(name) implies #[trigger] b.contains(name) by {
        let k = choose|k: int| 0 <= k < a.len() && a[k] == name;
        assert(b.take(a.len() as int)[k] == b[k]);
    }
}

proof fn lemma_registered_all(names: Seq<Seq<char>>, more: Seq<Seq<char>>)
    ensures
        names.len() <= registry::registered_all(names, more).len(),
        registry::registered_all(names, more).take(names.len() as int) == names,
        forall|i: int| 0 <= i < more.len() ==> registry::registered_all(names, more).contains(#[trigger] more[i]),
    decreases more.len(),
{
    let after = registry::registered_all(names, more);
    if more.len() == 0 {
        assert(after.take(names.len() as int) =~= names);
    } else {
        let init = more.drop_last();
        lemma_registered_all(names, init);
        let before = registry::registered_all(names, init);
        assert(after.take(names.len() as int) =~= before.take(names.len() as int));
        assert(after.take(before.len() as int) =~= before);
        lemma_stay(before, after);
        if !before.contains(more.last()) {
            assert(after[after.len() - 1] == more.last());
        }
        assert forall|i: int| 0 <= i < more.len() implies after.contains(#[trigger] more[i]) by {
            if i < init.len() {
                assert(before.contains(init[i]));
            }
        }
    }
}

/// The characters that count on a page are those that are no white space.
pub proof fn law_only_ink_counts(s: Seq<char>)
    ensures
        page_ocr::inked_chars(s) == inked(s).len(),
    decreases s.len(),
{
    if s.len() > 0 {
        law_only_ink_counts(s.drop_last());
    }
}

/// The text of an image is added whole behind the text before it, with a blank line between them; a blank one adds
/// nothing.
pub proof fn law_recovered_text_is_set_off(before: Seq<char>, content: Seq<char>)
    ensures
        text::trimmed(content).len() == 0 ==> before + page_ocr::text_to_add(before, content) == before,
        text::trimmed(content).len() > 0 && before.len() == 0 ==> before + page_ocr::text_to_add(before, content)
            == content,
        text::trimmed(content).len() > 0 && before.len() > 0 ==> before + page_ocr::text_to_add(before, content) == before
            + seq!['\n', '\n'] + content,
{
    reveal_strlit("\n\n");
    assert("\n\n"@ =~= seq!['\n', '\n']);
    assert(before + Seq::<char>::empty() =~= before);
    if before.len() == 0 {
        assert(before + content =~= content);
    }
    assert(before + (seq!['\n', '\n'] + content) =~= before + seq!['\n', '\n'] + content);
}

proof fn lemma_dark_row(raster: LumaRaster, y: int, x: int)
    requires
        raster.well_formed(),
        forall|i: int| 0 <= i < raster.pixels@.len() ==> raster.pixels@[i] < page_ocr::INK_LUMA_THRESHOLD,
        0 <= y < raster.height,
        0 <= x,
    ensures
        page_ocr::probed_row(raster, y, x).0 == page_ocr::probed_row(raster, y, x).1,
        x < raster.width ==> page_ocr::probed_row(raster, y, x).0 > 0,
    decreases raster.width + page_ocr::INK_PROBE_STRIDE - x,
{
    if x < raster.width {
        lemma_dark_row(raster, y, x + page_ocr::INK_PROBE_STRIDE);
        let at = y * raster.width + x;
        assert(0 <= at < raster.pixels@.len()) by (nonlinear_arith)
            requires
                0 <= y < raster.height,
                0 <= x < raster.width,
                at == y * raster.width + x,
                raster.pixels@.len() == raster.width as int * raster.height as int,
        ;
        assert(raster.pixels@[at] < page_ocr::INK_LUMA_THRESHOLD);
    }
}

proof fn lemma_dark_rows(raster: LumaRaster, y: int)
    requires
        raster.well_formed(),
        raster.width > 0,
        forall|i: int| 0 <= i < raster.pixels@.len() ==> raster.pixels@[i] < page_ocr::INK_LUMA_THRESHOLD,
        0 <= y,
    ensures
        page_ocr::probed(raster, y).0 == page_ocr::probed(raster, y).1,
        y < raster.height ==> page_ocr::probed(raster, y).0 > 0,
    decreases raster.height + page_ocr::INK_PROBE_STRIDE - y,
{
    if y < raster.height {
        lemma_dark_row(raster, y, 0);
        lemma_dark_rows(raster, y + page_ocr::INK_PROBE_STRIDE);
    }
}

/// A page that is dark all over carries ink.
pub proof fn law_dark_page_carries_ink(raster: LumaRaster)
    requires
        raster.well_formed(),
        raster.width > 0,
        raster.height > 0,
        forall|i: int| 0 <= i < raster.pixels@.len() ==> raster.pixels@[i] < page_ocr::INK_LUMA_THRESHOLD,
    ensures
        !page_ocr::carries_no_ink(raster),
{
    lemma_dark_rows(raster, 0);
    let n = page_ocr::probed(raster, 0).0;
    let k = page_ocr::INK_BLANK_SAMPLES_PER_DARK as nat;
    assert(n * k > n) by (nonlinear_arith)
        requires
            n > 0,
            k > 1,
    ;
}

} // verus!
