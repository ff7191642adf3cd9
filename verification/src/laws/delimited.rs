//! Laws of what is made of delimited rows.
use crate::csv;
use crate::document;
use crate::laws::csv::{cut, fed_lines, law_rows_are_lines_and_fields_their_pieces};
use crate::laws::text::{fed, is_line, law_decimal_is_read_back, law_lines_are_read_back};
use crate::text;
use vstd::prelude::*;

verus! {

/// The widest row is one of the rows, and no row is wider.
pub proof fn law_no_row_is_wider(rows: Seq<Seq<Seq<char>>>)
    ensures
        forall|i: int| 0 <= i < rows.len() ==> (#[trigger] rows[i]).len() <= csv::widest(rows),
        rows.len() > 0 ==> exists|i: int| 0 <= i < rows.len() && (#[trigger] rows[i]).len() == csv::widest(rows),
    decreases rows.len(),
{
    if rows.len() > 0 {
        let init = rows.drop_last();
        law_no_row_is_wider(init);
        assert forall|i: int| 0 <= i < rows.len() implies (#[trigger] rows[i]).len() <= csv::widest(rows) by {
            if i < init.len() {
                assert(init[i].len() <= csv::widest(init));
            }
        }
        if rows.last().len() > csv::widest(init) || init.len() == 0 {
            assert(rows[rows.len() - 1].len() == csv::widest(rows));
        } else {
            let i = choose|i: int| 0 <= i < init.len() && (#[trigger] init[i]).len() == csv::widest(init);
            assert(rows[i].len() == csv::widest(rows));
        }
    }
}

proof fn lemma_digits_run(s: Seq<char>, p: int, q: int)
    requires
        0 <= p <= q <= s.len(),
        forall|k: int| p <= k < q ==> text::is_digit(#[trigger] s[k]),
        q < s.len() ==> !text::is_digit(s[q]),
    ensures
        text::digits_end(s, p) == q,
    decreases q - p,
{
    if p < q {
        lemma_digits_run(s, p + 1, q);
    }
}

/// Digits are a number, with a point and more digits after them too, with a sign before them, and with an exponent
/// after them; a text is a number only if all its characters are digits, points, signs or the letter of an exponent.
#[verifier::spinoff_prover]
#[verifier::rlimit(60)]
pub proof fn law_numbers_are_recognised(a: Seq<char>, b: Seq<char>, s: Seq<char>)
    requires
        a.len() > 0,
        b.len() > 0,
        text::all_digits(a),
        text::all_digits(b),
    ensures
        csv::is_number(a),
        csv::is_number(seq!['-'] + a),
        csv::is_number(a + seq!['.'] + b),
        csv::is_number(a + seq!['e'] + b),
        csv::is_number(s) ==> s.len() > 0 && forall|k: int|
            0 <= k < s.len() ==> text::is_digit(#[trigger] s[k]) || s[k] == '.' || s[k] == '+' || s[k] == '-' || s[k]
                == 'e' || s[k] == 'E',
{
    lemma_digits_run(a, 0, a.len() as int);
    assert(text::is_digit(a[0]));
    let signed = seq!['-'] + a;
    assert(signed.skip(1) =~= a);
    let pointed = a + seq!['.'] + b;
    assert(pointed[0] == a[0]);
    assert forall|k: int| 0 <= k < a.len() implies text::is_digit(#[trigger] pointed[k]) by {
        assert(pointed[k] == a[k]);
    }
    lemma_digits_run(pointed, 0, a.len() as int);
    assert forall|k: int| a.len() < k < pointed.len() implies text::is_digit(#[trigger] pointed[k]) by {
        assert(pointed[k] == b[k - a.len() - 1]);
    }
    lemma_digits_run(pointed, (a.len() + 1) as int, pointed.len() as int);
    let raised = a + seq!['e'] + b;
    assert(raised[0] == a[0]);
    assert forall|k: int| 0 <= k < a.len() implies text::is_digit(#[trigger] raised[k]) by {
        assert(raised[k] == a[k]);
    }
    lemma_digits_run(raised, 0, a.len() as int);
    assert forall|k: int| a.len() < k < raised.len() implies text::is_digit(#[trigger] raised[k]) by {
        assert(raised[k] == b[k - a.len() - 1]);
    }
    assert(raised[a.len() as int] == 'e');
    assert(text::is_digit(raised[(a.len() + 1) as int]));
    lemma_digits_run(raised, (a.len() + 1) as int, raised.len() as int);
    if csv::is_number(s) {
        lemma_number_chars(s);
    }
}

proof fn lemma_digits_up_to(s: Seq<char>, p: int)
    requires
        0 <= p <= s.len(),
    ensures
        p <= text::digits_end(s, p) <= s.len(),
        forall|k: int| p <= k < text::digits_end(s, p) ==> text::is_digit(#[trigger] s[k]),
    decreases s.len() - p,
{
    if p < s.len() && text::is_digit(s[p]) {
        lemma_digits_up_to(s, p + 1);
    }
}

proof fn lemma_number_chars(s: Seq<char>)
    requires
        csv::is_number(s),
    ensures
        s.len() > 0,
        forall|k: int|
            0 <= k < s.len() ==> text::is_digit(#[trigger] s[k]) || s[k] == '.' || s[k] == '+' || s[k] == '-' || s[k]
                == 'e' || s[k] == 'E',
{
    let shift: int = if s.len() > 0 && (s[0] == '+' || s[0] == '-') {
        1
    } else {
        0
    };
    let u = if shift == 1 {
        s.skip(1)
    } else {
        s
    };
    let whole = text::digits_end(u, 0);
    lemma_digits_up_to(u, 0);
    let pointed = whole < u.len() && u[whole] == '.';
    if pointed {
        lemma_digits_up_to(u, whole + 1);
    }
    let mantissa = if pointed {
        text::digits_end(u, whole + 1)
    } else {
        whole
    };
    if mantissa < u.len() {
        let signed = mantissa + 1 < u.len() && (u[mantissa + 1] == '+' || u[mantissa + 1] == '-');
        let first = if signed {
            mantissa + 2
        } else {
            mantissa + 1
        };
        lemma_digits_up_to(u, first);
    }
    assert forall|k: int| 0 <= k < s.len() implies text::is_digit(#[trigger] s[k]) || s[k] == '.' || s[k] == '+' || s[k]
        == '-' || s[k] == 'e' || s[k] == 'E' by {
        if k >= shift {
            assert(s[k] == u[k - shift]);
        }
    }
}

/// A first row with a number among its fields names no columns, and neither does the only row.
pub proof fn law_numbers_name_no_column(rows: Seq<Seq<Seq<char>>>, j: int, n: nat)
    ensures
        rows.len() < 2 ==> !csv::first_row_is_header(rows),
        rows.len() > 0 && 0 <= j < rows[0].len() && rows[0][j] == text::decimal(n) ==> !csv::first_row_is_header(rows),
{
    if rows.len() > 0 && 0 <= j < rows[0].len() && rows[0][j] == text::decimal(n) {
        let t = rows[0][j];
        law_decimal_is_read_back(n);
        assert(text::is_digit(t[0]) && text::is_digit(t[t.len() - 1]));
        crate::laws::text::law_trimmed_text_stays(t);
        law_numbers_are_recognised(t, t, t);
        assert(csv::is_number(text::trimmed(rows[0][j])));
    }
}

proof fn lemma_counts(classes: Seq<csv::CellClass>, class: csv::CellClass)
    ensures
        csv::class_count(classes, class) <= classes.len(),
        (forall|k: int| 0 <= k < classes.len() ==> #[trigger] classes[k] == class) ==> csv::class_count(classes, class)
            == classes.len(),
        (forall|k: int| 0 <= k < classes.len() ==> #[trigger] classes[k] != class) ==> csv::class_count(classes, class)
            == 0,
        (exists|k: int| 0 <= k < classes.len() && #[trigger] classes[k] != class) ==> csv::class_count(classes, class)
            < classes.len(),
    decreases classes.len(),
{
    if classes.len() > 0 {
        let init = classes.drop_last();
        lemma_counts(init, class);
        if forall|k: int| 0 <= k < classes.len() ==> #[trigger] classes[k] == class {
            assert forall|k: int| 0 <= k < init.len() implies #[trigger] init[k] == class by {
                assert(classes[k] == class);
            }
        }
        if forall|k: int| 0 <= k < classes.len() ==> #[trigger] classes[k] != class {
            assert forall|k: int| 0 <= k < init.len() implies #[trigger] init[k] != class by {
                assert(classes[k] != class);
            }
            assert(classes[classes.len() - 1] != class);
        }
        if exists|k: int| 0 <= k < classes.len() && #[trigger] classes[k] != class {
            let k = choose|k: int| 0 <= k < classes.len() && #[trigger] classes[k] != class;
            if k < init.len() {
                assert(init[k] != class);
            }
        }
    }
}

/// A column whose fields are all numbers holds numbers; one whose fields are all blank or words holds text; one whose
/// fields are all dates holds dates.
#[verifier::spinoff_prover]
#[verifier::rlimit(60)]
pub proof fn law_columns_hold_what_their_fields_are(rows: Seq<Seq<Seq<char>>>, column: int)
    requires
        rows.len() > 0,
    ensures
        (forall|i: int|
            0 <= i < rows.len() ==> csv::is_number(text::trimmed(#[trigger] csv::cell_at(rows[i], column))))
            ==> csv::column_type(rows, column) == "numeric"@,
        (forall|i: int|
            0 <= i < rows.len() ==> (#[trigger] csv::cell_at(rows[i], column)).len() == 0 || (!csv::is_number(
                text::trimmed(csv::cell_at(rows[i], column)),
            ) && !csv::is_date(csv::cell_at(rows[i], column)))) ==> csv::column_type(rows, column) == "text"@,
        (forall|i: int|
            0 <= i < rows.len() ==> (#[trigger] csv::cell_at(rows[i], column)).len() > 0 && !csv::is_number(
                text::trimmed(csv::cell_at(rows[i], column)),
            ) && csv::is_date(csv::cell_at(rows[i], column))) ==> csv::column_type(rows, column) == "date"@,
{
    let classes = csv::column_classes(rows, column);
    lemma_counts(classes, csv::CellClass::Number);
    lemma_counts(classes, csv::CellClass::Date);
    lemma_counts(classes, csv::CellClass::Blank);
    lemma_counts(classes, csv::CellClass::Word);
    assert forall|i: int| 0 <= i < rows.len() implies #[trigger] classes[i] == csv::class_of(
        csv::cell_at(rows[i], column),
    ) by {}
    if forall|i: int|
        0 <= i < rows.len() ==> csv::is_number(text::trimmed(#[trigger] csv::cell_at(rows[i], column))) {
        assert forall|i: int| 0 <= i < rows.len() implies #[trigger] classes[i] == csv::CellClass::Number by {
            let cell = csv::cell_at(rows[i], column);
            assert(csv::is_number(text::trimmed(cell)));
            lemma_number_chars(text::trimmed(cell));
        }
        assert(classes[0] != csv::CellClass::Blank);
        assert forall|i: int| 0 <= i < rows.len() implies #[trigger] classes[i] != csv::CellClass::Blank by {}
    }
    if forall|i: int|
        0 <= i < rows.len() ==> (#[trigger] csv::cell_at(rows[i], column)).len() == 0 || (!csv::is_number(
            text::trimmed(csv::cell_at(rows[i], column)),
        ) && !csv::is_date(csv::cell_at(rows[i], column))) {
        assert forall|i: int| 0 <= i < rows.len() implies #[trigger] classes[i] != csv::CellClass::Number by {
            let cell = csv::cell_at(rows[i], column);
        }
        assert forall|i: int| 0 <= i < rows.len() implies #[trigger] classes[i] != csv::CellClass::Date by {
            let cell = csv::cell_at(rows[i], column);
        }
    }
    if forall|i: int|
        0 <= i < rows.len() ==> (#[trigger] csv::cell_at(rows[i], column)).len() > 0 && !csv::is_number(
            text::trimmed(csv::cell_at(rows[i], column)),
        ) && csv::is_date(csv::cell_at(rows[i], column)) {
        assert forall|i: int| 0 <= i < rows.len() implies #[trigger] classes[i] == csv::CellClass::Date by {
            let cell = csv::cell_at(rows[i], column);
        }
        assert forall|i: int| 0 <= i < rows.len() implies #[trigger] classes[i] != csv::CellClass::Number by {
            assert(classes[i] == csv::CellClass::Date);
        }
        assert forall|i: int| 0 <= i < rows.len() implies #[trigger] classes[i] != csv::CellClass::Blank by {
            assert(classes[i] == csv::CellClass::Date);
        }
    }
}

/// The file becomes one table with all its rows, and a warning if and only if a cell would break the lines of the
/// table as Markdown.
pub proof fn law_file_becomes_one_table(rows: Seq<Seq<Seq<char>>>, mime_type: Seq<char>)
    ensures
        ({
            let doc = csv::csv_content(rows, mime_type);
            &&& doc.tables.len() == 1
            &&& doc.tables[0].cells == rows
            &&& doc.elements.len() == 1
            &&& doc.elements[0].kind == document::ElementKind::Table { table_index: 0 }
            &&& doc.mime_type == mime_type
            &&& doc.warnings.len() <= 1
            &&& doc.warnings.len() == 1 <==> exists|i: int, j: int|
                0 <= i < rows.len() && 0 <= j < rows[i].len() && ((#[trigger] rows[i][j]).contains('|')
                    || rows[i][j].contains('\n'))
        }),
{
}

/// Text in UTF-8 is read as it is, without the byte order mark that may stand before it.
pub proof fn law_encoded_text_is_read_back(s: Seq<char>)
    ensures
        s.len() > 0 && s[0] != '\u{feff}' ==> csv::file_text(vstd::utf8::encode_utf8(s)) == s,
        csv::file_text(vstd::utf8::encode_utf8(seq!['\u{feff}'] + s)) == s,
{
    let marked = seq!['\u{feff}'] + s;
    vstd::utf8::encode_utf8_valid_utf8(s);
    vstd::utf8::encode_utf8_decode_utf8(s);
    vstd::utf8::encode_utf8_valid_utf8(marked);
    vstd::utf8::encode_utf8_decode_utf8(marked);
    assert(marked.skip(1) =~= s);
}

/// Whether a line is a comment: after white space it starts with one of the prefixes.
pub open spec fn starts_as_comment(line: Seq<char>, prefixes: Seq<Seq<char>>) -> bool {
    exists|space: Seq<char>, k: int, rest: Seq<char>|
        0 <= k < prefixes.len() && line == #[trigger] (space + prefixes[k] + rest) && (forall|i: int|
            0 <= i < space.len() ==> text::is_white(#[trigger] space[i])) && prefixes[k].len() > 0 && !text::is_white(
            prefixes[k][0],
        )
}

proof fn lemma_comment(line: Seq<char>, prefixes: Seq<Seq<char>>)
    requires
        starts_as_comment(line, prefixes),
    ensures
        csv::is_comment(line, prefixes),
{
    let (space, k, rest) = choose|space: Seq<char>, k: int, rest: Seq<char>|
        0 <= k < prefixes.len() && line == #[trigger] (space + prefixes[k] + rest) && (forall|i: int|
            0 <= i < space.len() ==> text::is_white(#[trigger] space[i])) && prefixes[k].len() > 0 && !text::is_white(
            prefixes[k][0],
        );
    lemma_white_is_trimmed(space, prefixes[k] + rest);
    assert(space + prefixes[k] + rest =~= space + (prefixes[k] + rest));
    assert((prefixes[k] + rest).subrange(0, prefixes[k].len() as int) =~= prefixes[k]);
    assert(text::occurs_at(text::trimmed_start(line), prefixes[k], 0));
}

proof fn lemma_white_is_trimmed(space: Seq<char>, rest: Seq<char>)
    requires
        forall|i: int| 0 <= i < space.len() ==> text::is_white(#[trigger] space[i]),
        rest.len() > 0,
        !text::is_white(rest[0]),
    ensures
        text::trimmed_start(space + rest) == rest,
    decreases space.len(),
{
    if space.len() == 0 {
        assert(space + rest =~= rest);
    } else {
        let tail = space.drop_first();
        assert(text::is_white(space[0]));
        assert forall|i: int| 0 <= i < tail.len() implies text::is_white(#[trigger] tail[i]) by {
            assert(text::is_white(space[i + 1]));
        }
        lemma_white_is_trimmed(tail, rest);
        assert((space + rest).drop_first() =~= tail + rest);
    }
}

proof fn lemma_kept_in_parts(a: Seq<Seq<char>>, b: Seq<Seq<char>>, prefixes: Seq<Seq<char>>)
    ensures
        csv::kept_lines(a + b, prefixes) == csv::kept_lines(a, prefixes) + csv::kept_lines(b, prefixes),
    decreases b.len(),
{
    if b.len() == 0 {
        assert(a + b =~= a);
        assert(csv::kept_lines(a, prefixes) + csv::kept_lines(b, prefixes) =~= csv::kept_lines(a, prefixes));
    } else {
        assert((a + b).drop_last() =~= a + b.drop_last());
        lemma_kept_in_parts(a, b.drop_last(), prefixes);
        assert(csv::kept_lines(a + b, prefixes) =~= csv::kept_lines(a, prefixes) + csv::kept_lines(b, prefixes));
    }
}

proof fn lemma_fed_pieces(lines: Seq<Seq<char>>)
    requires
        forall|i: int| 0 <= i < lines.len() ==> is_line(#[trigger] lines[i]),
    ensures
        text::split_on(fed(lines), '\n') == lines.push(Seq::empty()),
{
    crate::laws::text::lemma_fed_splits(lines);
}

/// A comment line leaves no trace, wherever it stands, and a text without comment lines stays as it is.
pub proof fn law_comment_lines_leave_no_trace(
    before: Seq<Seq<char>>,
    comment: Seq<char>,
    after: Seq<Seq<char>>,
    prefixes: Seq<Seq<char>>,
)
    requires
        forall|i: int| 0 <= i < before.len() ==> is_line(#[trigger] before[i]) && !csv::is_comment(
            before[i].push('\n'),
            prefixes,
        ),
        forall|i: int| 0 <= i < after.len() ==> is_line(#[trigger] after[i]) && !csv::is_comment(
            after[i].push('\n'),
            prefixes,
        ),
        is_line(comment),
        starts_as_comment(comment, prefixes),
    ensures
        csv::without_comments(fed(before + seq![comment] + after), prefixes) == fed(before + after),
        csv::without_comments(fed(before + after), prefixes) == fed(before + after),
{
    let with = before + seq![comment] + after;
    let without = before + after;
    assert forall|i: int| 0 <= i < with.len() implies is_line(#[trigger] with[i]) by {
        if i < before.len() {
            assert(is_line(before[i]));
        } else if i > before.len() {
            assert(is_line(after[i - before.len() - 1]));
        }
    }
    assert forall|i: int| 0 <= i < without.len() implies is_line(#[trigger] without[i]) && !csv::is_comment(
        without[i].push('\n'),
        prefixes,
    ) by {
        if i < before.len() {
            assert(is_line(before[i]));
        } else {
            assert(is_line(after[i - before.len()]));
        }
    }
    lemma_fed_pieces(with);
    lemma_fed_pieces(without);
    assert(with.push(Seq::empty()).drop_last() =~= with);
    assert(without.push(Seq::empty()).drop_last() =~= without);
    lemma_kept_in_parts(before + seq![comment], after, prefixes);
    lemma_kept_in_parts(before, seq![comment], prefixes);
    lemma_kept_in_parts(before, after, prefixes);
    lemma_comment_and_feed(comment, prefixes);
    assert(seq![comment].drop_last() =~= Seq::empty());
    assert(csv::kept_lines(Seq::empty(), prefixes) =~= Seq::empty());
    assert(csv::kept_lines(seq![comment], prefixes) =~= Seq::empty());
    assert(csv::kept_lines(before, prefixes) + Seq::<char>::empty() =~= csv::kept_lines(before, prefixes));
    lemma_all_kept(without, prefixes);
}

proof fn lemma_comment_and_feed(comment: Seq<char>, prefixes: Seq<Seq<char>>)
    requires
        starts_as_comment(comment, prefixes),
    ensures
        csv::is_comment(comment.push('\n'), prefixes),
{
    let (space, k, rest) = choose|space: Seq<char>, k: int, rest: Seq<char>|
        0 <= k < prefixes.len() && comment == #[trigger] (space + prefixes[k] + rest) && (forall|i: int|
            0 <= i < space.len() ==> text::is_white(#[trigger] space[i])) && prefixes[k].len() > 0 && !text::is_white(
            prefixes[k][0],
        );
    assert(comment.push('\n') =~= space + prefixes[k] + rest.push('\n'));
    lemma_comment(comment.push('\n'), prefixes);
}

proof fn lemma_all_kept(lines: Seq<Seq<char>>, prefixes: Seq<Seq<char>>)
    requires
        forall|i: int| 0 <= i < lines.len() ==> !csv::is_comment((#[trigger] lines[i]).push('\n'), prefixes),
    ensures
        csv::kept_lines(lines, prefixes) == fed(lines),
    decreases lines.len(),
{
    if lines.len() > 0 {
        let init = lines.drop_last();
        assert(!csv::is_comment(lines[lines.len() - 1].push('\n'), prefixes));
        assert forall|i: int| 0 <= i < init.len() implies !csv::is_comment((#[trigger] init[i]).push('\n'), prefixes) by {
            assert(!csv::is_comment(lines[i].push('\n'), prefixes));
        }
        lemma_all_kept(init, prefixes);
    }
}

proof fn lemma_holds_separator(s: Seq<char>, sep: char)
    ensures
        text::split_on(s, sep).len() > 1 <==> s.contains(sep),
        text::split_on(s, sep).len() > 0,
    decreases s.len(),
{
    if s.len() > 0 {
        let init = s.drop_last();
        lemma_holds_separator(init, sep);
        if s.contains(sep) {
            let k = choose|k: int| 0 <= k < s.len() && s[k] == sep;
            if k < init.len() {
                assert(init[k] == sep);
            }
        }
        if s.last() == sep {
            assert(s[s.len() - 1] == sep);
        }
        if init.contains(sep) {
            let k = choose|k: int| 0 <= k < init.len() && init[k] == sep;
            assert(s[k] == sep);
        }
    }
}

proof fn lemma_samples(lines: Seq<Seq<char>>)
    requires
        lines.len() <= csv::DELIMITER_SAMPLE_LINES,
        forall|i: int| 0 <= i < lines.len() ==> csv::counts_for_delimiter(#[trigger] lines[i]),
    ensures
        csv::sample_lines(lines) == lines,
    decreases lines.len(),
{
    if lines.len() > 0 {
        let init = lines.drop_last();
        assert(csv::counts_for_delimiter(lines[lines.len() - 1]));
        assert forall|i: int| 0 <= i < init.len() implies csv::counts_for_delimiter(#[trigger] init[i]) by {
            assert(csv::counts_for_delimiter(lines[i]));
        }
        lemma_samples(init);
        assert(init.push(lines.last()) =~= lines);
    }
}

proof fn lemma_joined_chars(lines: Seq<Seq<char>>, c: char)
    requires
        c != '\n',
        forall|i: int| 0 <= i < lines.len() ==> !(#[trigger] lines[i]).contains(c),
    ensures
        !text::join(lines, seq!['\n']).contains(c),
    decreases lines.len(),
{
    if lines.len() == 1 {
        assert(!lines[0].contains(c));
    } else if lines.len() > 1 {
        let init = lines.drop_last();
        assert forall|i: int| 0 <= i < init.len() implies !(#[trigger] init[i]).contains(c) by {
            assert(!lines[i].contains(c));
        }
        lemma_joined_chars(init, c);
        let head = text::join(init, seq!['\n']);
        let all = text::join(lines, seq!['\n']);
        if all.contains(c) {
            let k = choose|k: int| 0 <= k < all.len() && all[k] == c;
            if k < head.len() {
                assert(head[k] == c);
            } else if k > head.len() {
                assert(lines.last()[k - head.len() - 1] == c);
                assert(!lines[lines.len() - 1].contains(c));
            }
        }
    }
}

proof fn lemma_some_row_is_as_wide(rows: Seq<Seq<Seq<char>>>, i: int)
    requires
        0 <= i < rows.len(),
    ensures
        csv::rows_with(rows, rows[i].len()) > 0,
    decreases rows.len(),
{
    if i < rows.len() - 1 {
        lemma_some_row_is_as_wide(rows.drop_last(), i);
    }
}

/// The score of a delimiter that divides the first line, and of one that does not.
proof fn lemma_score(lines: Seq<Seq<char>>, delimiter: char)
    requires
        lines.len() >= 2,
        delimiter != '\n',
        forall|i: int| 0 <= i < lines.len() ==> is_line(#[trigger] lines[i]) && !lines[i].contains('"')
            && !lines[i].contains('\r') && lines[i].len() > 0,
    ensures
        lines[0].contains(delimiter) ==> csv::delimiter_score(text::join(lines, seq!['\n']), delimiter) > 0,
        !lines[0].contains(delimiter) ==> csv::delimiter_score(text::join(lines, seq!['\n']), delimiter) == 0,
{
    let sample = text::join(lines, seq!['\n']);
    assert forall|i: int| 0 <= i < lines.len() implies !(#[trigger] lines[i]).contains('"') by {}
    assert forall|i: int| 0 <= i < lines.len() implies !(#[trigger] lines[i]).contains('\r') by {}
    assert forall|i: int| 0 <= i < lines.len() implies !(#[trigger] lines[i]).contains('\n') by {
        assert(is_line(lines[i]));
    }
    lemma_joined_chars(lines, '"');
    lemma_joined_chars(lines, '\r');
    text::lemma_split_of_join(lines, '\n');
    law_rows_are_lines_and_fields_their_pieces(sample, delimiter);
    assert(lines[lines.len() - 1].len() > 0);
    assert(fed_lines(sample) == lines);
    let rows = csv::rows_of(sample, delimiter);
    assert(rows == cut(lines, delimiter));
    assert(rows[0] == text::split_on(lines[0], delimiter));
    lemma_holds_separator(lines[0], delimiter);
    if lines[0].contains(delimiter) {
        lemma_some_row_is_as_wide(rows, 0);
        let n = csv::rows_with(rows, rows[0].len());
        let w = rows[0].len();
        assert(n * w > 0) by (nonlinear_arith)
            requires
                n > 0,
                w > 0,
        ;
    }
}

/// Of the delimiters that a file may have, the only one that stands in the first line is found, if there are at least
/// two lines, none of them is blank or a comment, and nothing is quoted.
pub proof fn law_only_delimiter_is_found(lines: Seq<Seq<char>>, delimiter: char)
    requires
        2 <= lines.len() <= csv::DELIMITER_SAMPLE_LINES,
        delimiter == ',' || delimiter == '\t' || delimiter == '|' || delimiter == ';',
        forall|i: int| 0 <= i < lines.len() ==> is_line(#[trigger] lines[i]) && !lines[i].contains('"')
            && !lines[i].contains('\r') && csv::counts_for_delimiter(lines[i]),
        lines[0].contains(delimiter),
        forall|c: char|
            c != delimiter && (c == ',' || c == '\t' || c == '|' || c == ';') ==> !(#[trigger] lines[0].contains(c)),
    ensures
        csv::likely_delimiter(fed(lines)) == delimiter,
{
    law_lines_are_read_back(lines, Seq::empty());
    lemma_samples(lines);
    assert forall|i: int| 0 <= i < lines.len() implies is_line(#[trigger] lines[i]) && !lines[i].contains('"')
        && !lines[i].contains('\r') && lines[i].len() > 0 by {
        assert(csv::counts_for_delimiter(lines[i]));
    }
    lemma_score(lines, ',');
    lemma_score(lines, '\t');
    lemma_score(lines, '|');
    lemma_score(lines, ';');
    reveal_strlit("\n");
    assert("\n"@ =~= seq!['\n']);
    assert(delimiter != ',' ==> !lines[0].contains(','));
    assert(delimiter != '\t' ==> !lines[0].contains('\t'));
    assert(delimiter != '|' ==> !lines[0].contains('|'));
    assert(delimiter != ';' ==> !lines[0].contains(';'));
}

/// The plain text of rows is that of its parts one after the other; a blank row adds nothing, and another one adds a
/// line that holds its fields with spaces between them.
pub proof fn law_plain_text_is_written_row_by_row(a: Seq<Seq<Seq<char>>>, b: Seq<Seq<Seq<char>>>, row: Seq<Seq<char>>)
    ensures
        csv::plain_text(a + b) == csv::plain_text(a) + csv::plain_text(b),
        (forall|j: int| 0 <= j < row.len() ==> text::trimmed(#[trigger] row[j]).len() == 0) ==> csv::plain_text(
            seq![row],
        ).len() == 0,
        (exists|j: int| 0 <= j < row.len() && text::trimmed(#[trigger] row[j]).len() > 0) && (forall|j: int|
            0 <= j < row.len() ==> !(#[trigger] row[j]).contains(' ')) ==> {
            let line = csv::plain_text(seq![row]);
            line.len() > 0 && line.last() == '\n' && text::split_on(line.drop_last(), ' ') == row
        },
    decreases b.len(),
{
    if b.len() == 0 {
        assert(a + b =~= a);
        assert(csv::plain_text(a) + csv::plain_text(b) =~= csv::plain_text(a));
    } else {
        assert((a + b).drop_last() =~= a + b.drop_last());
        law_plain_text_is_written_row_by_row(a, b.drop_last(), row);
        assert(csv::plain_text(a + b) =~= csv::plain_text(a) + csv::plain_text(b));
    }
    let one = seq![row];
    assert(one.drop_last() =~= Seq::empty());
    assert(csv::plain_text(Seq::empty()) =~= Seq::empty());
    reveal_strlit(" ");
    reveal_strlit("\n");
    assert(" "@ =~= seq![' ']);
    assert("\n"@ =~= seq!['\n']);
    if (exists|j: int| 0 <= j < row.len() && text::trimmed(#[trigger] row[j]).len() > 0) && (forall|j: int|
        0 <= j < row.len() ==> !(#[trigger] row[j]).contains(' ')) {
        text::lemma_split_of_join(row, ' ');
        let line = csv::plain_text(one);
        assert(line =~= text::join(row, seq![' ']).push('\n'));
        assert(line.drop_last() =~= text::join(row, seq![' ']));
    }
}

/// The cells of a line of a table, each between spaces, with nothing before and after them.
pub open spec fn line_parts(row: Seq<Seq<char>>, columns: nat) -> Seq<Seq<char>> {
    Seq::new(
        columns + 2,
        |j: int|
            if 1 <= j <= columns {
                seq![' '] + csv::cell_at(row, j - 1) + seq![' ']
            } else {
                Seq::empty()
            },
    )
}

#[verifier::spinoff_prover]
#[verifier::rlimit(60)]
proof fn lemma_row_line(row: Seq<Seq<char>>, columns: nat)
    ensures
        "|"@ + csv::row_cells(row, columns) == text::join(line_parts(row, columns), seq!['|']),
    decreases columns,
{
    reveal_strlit("|");
    reveal_strlit(" ");
    reveal_strlit(" |");
    assert("|"@ =~= seq!['|']);
    assert(" "@ =~= seq![' ']);
    assert(" |"@ =~= seq![' ', '|']);
    let parts = line_parts(row, columns);
    let init = parts.drop_last();
    if columns == 0 {
        assert(init.len() == 1);
        assert(text::join(init, seq!['|']) == init[0]);
        assert(text::join(parts, seq!['|']) =~= seq!['|']);
        assert("|"@ + csv::row_cells(row, columns) =~= seq!['|']);
    } else {
        let fewer = (columns - 1) as nat;
        lemma_row_line(row, fewer);
        let earlier = line_parts(row, fewer);
        let cell = csv::cell_at(row, columns - 1);
        assert(init.drop_last() =~= earlier.drop_last());
        assert(init.last() == seq![' '] + cell + seq![' ']);
        assert(earlier.last() =~= Seq::<char>::empty());
        let before = text::join(earlier.drop_last(), seq!['|']);
        assert(text::join(earlier, seq!['|']) =~= before + seq!['|']);
        assert(text::join(init, seq!['|']) == before + seq!['|'] + (seq![' '] + cell + seq![' ']));
        assert(text::join(parts, seq!['|']) =~= before + seq!['|'] + seq![' '] + cell + seq![' '] + seq!['|']);
        assert("|"@ + csv::row_cells(row, columns) =~= ("|"@ + csv::row_cells(row, fewer)) + " "@ + cell + " |"@);
        assert(before + seq!['|'] + seq![' '] + cell + seq![' '] + seq!['|'] =~= (before + seq!['|']) + " "@ + cell
            + " |"@);
    }
}

/// The lines of a table of rows.
pub open spec fn row_lines(rows: Seq<Seq<Seq<char>>>, columns: nat) -> Seq<Seq<char>> {
    rows.map_values(|row: Seq<Seq<char>>| text::join(line_parts(row, columns), seq!['|']))
}

proof fn lemma_table_lines(rows: Seq<Seq<Seq<char>>>, columns: nat)
    ensures
        csv::table_lines(rows, columns, false) == fed(row_lines(rows, columns)),
    decreases rows.len(),
{
    reveal_strlit("\n");
    assert("\n"@ =~= seq!['\n']);
    if rows.len() > 0 {
        lemma_table_lines(rows.drop_last(), columns);
        lemma_row_line(rows.last(), columns);
        let lines = row_lines(rows, columns);
        assert(lines.drop_last() =~= row_lines(rows.drop_last(), columns));
        assert(csv::table_lines(rows, columns, false) =~= fed(lines.drop_last()) + ("|"@ + csv::row_cells(
            rows.last(),
            columns,
        )) + "\n"@);
        assert(fed(lines) =~= fed(lines.drop_last()) + lines.last().push('\n'));
    }
}

#[verifier::spinoff_prover]
#[verifier::rlimit(60)]
proof fn lemma_headed_lines(rows: Seq<Seq<Seq<char>>>, columns: nat)
    requires
        rows.len() > 0,
    ensures
        csv::table_lines(rows, columns, true) == fed(row_lines(rows.take(1), columns)) + csv::uniform_line(
            " --- |"@,
            columns,
        ) + fed(row_lines(rows.skip(1), columns)),
    decreases rows.len(),
{
    reveal_strlit("\n");
    assert("\n"@ =~= seq!['\n']);
    let rule = csv::uniform_line(" --- |"@, columns);
    if rows.len() == 1 {
        lemma_row_line(rows[0], columns);
        assert(rows.take(1) =~= rows);
        assert(rows.skip(1) =~= Seq::empty());
        assert(rows.drop_last() =~= Seq::empty());
        let lines = row_lines(rows.take(1), columns);
        assert(lines.drop_last() =~= Seq::empty());
        assert(fed(lines) =~= ("|"@ + csv::row_cells(rows[0], columns)) + "\n"@) by {
            assert(fed(lines.drop_last()) =~= Seq::empty());
        }
        assert(fed(row_lines(rows.skip(1), columns)) =~= Seq::empty());
        assert(csv::table_lines(rows.drop_last(), columns, true) =~= Seq::empty());
        assert(csv::table_lines(rows, columns, true) =~= fed(lines) + rule);
        assert(fed(lines) + rule + Seq::<char>::empty() =~= fed(lines) + rule);
    } else {
        let init = rows.drop_last();
        lemma_headed_lines(init, columns);
        lemma_row_line(rows.last(), columns);
        assert(init.take(1) =~= rows.take(1));
        let lines = row_lines(rows.skip(1), columns);
        assert(lines.drop_last() =~= row_lines(init.skip(1), columns));
        assert(fed(lines) =~= fed(lines.drop_last()) + lines.last().push('\n'));
        assert(csv::table_lines(rows, columns, true) =~= csv::table_lines(init, columns, true) + ("|"@ + csv::row_cells(
            rows.last(),
            columns,
        )) + "\n"@);
        assert(csv::table_lines(rows, columns, true) =~= fed(row_lines(rows.take(1), columns)) + rule + fed(lines));
    }
}

/// A table as Markdown has a line for each row, in order, with a rule below the first one if it names the columns, or
/// else with a blank line of cells and the rule above all of them.
pub proof fn law_table_has_a_line_for_each_row(rows: Seq<Seq<Seq<char>>>, has_header: bool)
    requires
        csv::widest(rows) > 0,
    ensures
        ({
            let columns = csv::widest(rows);
            let lines = row_lines(rows, columns);
            let rule = csv::uniform_line(" --- |"@, columns);
            if has_header {
                csv::markdown_table(rows, has_header) == fed(lines.take(1)) + rule + fed(lines.skip(1))
            } else {
                csv::markdown_table(rows, has_header) == csv::uniform_line("  |"@, columns) + rule + fed(lines)
            }
        }),
{
    let columns = csv::widest(rows);
    let lines = row_lines(rows, columns);
    law_no_row_is_wider(rows);
    if has_header {
        assert(rows.len() > 0);
        lemma_headed_lines(rows, columns);
        assert(row_lines(rows.take(1), columns) =~= lines.take(1));
        assert(row_lines(rows.skip(1), columns) =~= lines.skip(1));
    } else {
        lemma_table_lines(rows, columns);
    }
}

/// Between its bars the line of a row holds every cell of the row, without the white space around it, as long as no
/// cell holds a bar.
pub proof fn law_line_of_a_row_holds_its_cells(row: Seq<Seq<char>>, columns: nat, j: int)
    requires
        0 <= j < row.len() <= columns,
        forall|k: int| 0 <= k < row.len() ==> !(#[trigger] row[k]).contains('|'),
    ensures
        text::split_on(text::join(line_parts(row, columns), seq!['|']), '|').len() == columns + 2,
        text::split_on(text::join(line_parts(row, columns), seq!['|']), '|')[j + 1] == seq![' '] + text::trimmed(row[j])
            + seq![' '],
{
    let parts = line_parts(row, columns);
    assert forall|k: int| 0 <= k < parts.len() implies !(#[trigger] parts[k]).contains('|') by {
        if 1 <= k <= columns {
            let cell = csv::cell_at(row, k - 1);
            if k - 1 < row.len() {
                crate::laws::text::law_trimming_cuts_white_space_at_the_ends(row[k - 1]);
                let (a, b) = choose|a: int, b: int|
                    0 <= a <= b <= row[k - 1].len() && cell == #[trigger] row[k - 1].subrange(a, b);
                assert(!row[k - 1].contains('|'));
                assert forall|m: int| 0 <= m < cell.len() implies cell[m] != '|' by {
                    assert(row[k - 1][a + m] == cell[m]);
                }
            }
            assert forall|m: int| 0 <= m < parts[k].len() implies parts[k][m] != '|' by {
                if 1 <= m <= cell.len() {
                    assert(parts[k][m] == cell[m - 1]);
                }
            }
        }
    }
    text::lemma_split_of_join(parts, '|');
}

} // verus!
