//! Laws of delimited text.
use crate::csv;
use crate::text;
use vstd::prelude::*;

verus! {

/// The lines of a text, where a line feed ends a line; nothing after the last one is no line.
pub open spec fn fed_lines(s: Seq<char>) -> Seq<Seq<char>> {
    let pieces = text::split_on(s, '\n');
    if pieces.last().len() == 0 {
        pieces.drop_last()
    } else {
        pieces
    }
}

/// Lines, each cut at the delimiter.
pub open spec fn cut(lines: Seq<Seq<char>>, delimiter: char) -> Seq<Seq<Seq<char>>> {
    lines.map_values(|line: Seq<char>| text::split_on(line, delimiter))
}

spec fn plain_step(state: csv::Reading, delimiter: char, c: char) -> csv::Reading {
    if c == delimiter {
        state.field_ended()
    } else if c == '\n' {
        state.row_ended()
    } else {
        state.with_char(c)
    }
}

proof fn lemma_plain_push(s: Seq<char>, delimiter: char, state: csv::Reading, c: char)
    requires
        !s.contains('"'),
        !s.contains('\r'),
        c != '"',
        c != '\r',
        !state.quoted,
    ensures
        csv::read_on(s.push(c), delimiter, state) == plain_step(csv::read_on(s, delimiter, state), delimiter, c),
        !csv::read_on(s, delimiter, state).quoted,
    decreases s.len(),
{
    if s.len() == 0 {
        assert(s.push(c).skip(1) =~= Seq::empty());
        reveal_with_fuel(csv::read_on, 2);
    } else {
        assert(s.contains(s[0]));
        assert(s.push(c).skip(1) =~= s.skip(1).push(c));
        assert forall|x: char| s.skip(1).contains(x) implies s.contains(x) by {
            let k = choose|k: int| 0 <= k < s.skip(1).len() && s.skip(1)[k] == x;
            assert(s[k + 1] == x);
        }
        let next = plain_step(state, delimiter, s[0]);
        lemma_plain_push(s.skip(1), delimiter, next, c);
    }
}

proof fn lemma_split_is_blank(s: Seq<char>, sep: char)
    ensures
        text::split_on(s, sep).len() > 0,
        (text::split_on(s, sep).len() == 1 && text::split_on(s, sep)[0].len() == 0) <==> s.len() == 0,
    decreases s.len(),
{
    if s.len() > 0 {
        lemma_split_is_blank(s.drop_last(), sep);
    }
}

proof fn lemma_plain_reading(s: Seq<char>, delimiter: char)
    requires
        !s.contains('"'),
        !s.contains('\r'),
        delimiter != '\n',
    ensures
        ({
            let pieces = text::split_on(s, '\n');
            let read = csv::read_on(s, delimiter, csv::unread());
            &&& pieces.len() > 0
            &&& read.rows == cut(pieces.drop_last(), delimiter)
            &&& read.row.push(read.field) == text::split_on(pieces.last(), delimiter)
            &&& !read.quoted
        }),
    decreases s.len(),
{
    let pieces = text::split_on(s, '\n');
    let read = csv::read_on(s, delimiter, csv::unread());
    if s.len() == 0 {
        assert(pieces.drop_last() =~= Seq::empty());
        assert(read.rows =~= cut(pieces.drop_last(), delimiter));
        assert(read.row.push(read.field) =~= text::split_on(pieces.last(), delimiter));
    } else {
        let init = s.drop_last();
        let c = s.last();
        assert(init.push(c) =~= s);
        assert(s.contains(c));
        assert forall|x: char| init.contains(x) implies s.contains(x) by {
            let k = choose|k: int| 0 <= k < init.len() && init[k] == x;
            assert(s[k] == x);
        }
        lemma_plain_reading(init, delimiter);
        lemma_plain_push(init, delimiter, csv::unread(), c);
        let before = csv::read_on(init, delimiter, csv::unread());
        let parts = text::split_on(init, '\n');
        lemma_split_is_blank(parts.last(), delimiter);
        if c == '\n' {
            assert(pieces.drop_last() =~= parts);
            assert(cut(parts, delimiter) =~= cut(parts.drop_last(), delimiter).push(
                text::split_on(parts.last(), delimiter),
            ));
            assert(read.rows =~= cut(pieces.drop_last(), delimiter));
            assert(read.row.push(read.field) =~= text::split_on(pieces.last(), delimiter));
        } else {
            let line = parts.last().push(c);
            assert(pieces.drop_last() =~= parts.drop_last());
            assert(pieces.last() == line);
            assert(line.drop_last() =~= parts.last());
            let fields = before.row.push(before.field);
            assert(fields.drop_last() =~= before.row);
            assert(read.row.push(read.field) =~= text::split_on(line, delimiter));
        }
    }
}

/// In a text without quotation marks and carriage returns, the rows are the lines, whether or not a line feed ends
/// the last one, and the fields of a row are what stands between the delimiters of its line.
pub proof fn law_rows_are_lines_and_fields_their_pieces(s: Seq<char>, delimiter: char)
    requires
        !s.contains('"'),
        !s.contains('\r'),
        delimiter != '\n',
    ensures
        csv::rows_of(s, delimiter) == cut(fed_lines(s), delimiter),
{
    lemma_plain_reading(s, delimiter);
    let pieces = text::split_on(s, '\n');
    let read = csv::read_on(s, delimiter, csv::unread());
    let fields = read.row.push(read.field);
    lemma_split_is_blank(pieces.last(), delimiter);
    assert(fields.last() == read.field);
    if pieces.last().len() > 0 {
        assert(fields.len() == 1 ==> fields[0].len() > 0);
        assert(cut(pieces, delimiter) =~= cut(pieces.drop_last(), delimiter).push(fields));
    } else {
        assert(read.row.len() == 0 && read.field.len() == 0);
    }
}

proof fn lemma_read_and_feed(s: Seq<char>, delimiter: char, state: csv::Reading)
    requires
        s.len() > 0 ==> s.last() != '\r',
    ensures
        csv::read_on(s.push('\n'), delimiter, state) == csv::read_on(
            seq!['\n'],
            delimiter,
            csv::read_on(s, delimiter, state),
        ),
    decreases s.len(),
{
    let t = s.push('\n');
    if s.len() == 0 {
        assert(t =~= seq!['\n']);
    } else {
        assert(t.skip(1) =~= s.skip(1).push('\n'));
        if s.len() > 1 {
            assert(t.skip(2) =~= s.skip(2).push('\n'));
        }
        if state.quoted {
            if s[0] != '"' {
                lemma_read_and_feed(s.skip(1), delimiter, state.with_char(s[0]));
            } else if s.len() > 1 && s[1] == '"' {
                lemma_read_and_feed(s.skip(2), delimiter, state.with_char('"'));
            } else {
                lemma_read_and_feed(s.skip(1), delimiter, csv::Reading { quoted: false, ..state });
            }
        } else if s[0] == '"' && state.field.len() == 0 {
            lemma_read_and_feed(s.skip(1), delimiter, csv::Reading { quoted: true, ..state });
        } else if s[0] == delimiter {
            lemma_read_and_feed(s.skip(1), delimiter, state.field_ended());
        } else if s[0] == '\r' && s.len() > 1 && s[1] == '\n' {
            lemma_read_and_feed(s.skip(2), delimiter, state.row_ended());
        } else if s[0] == '\r' || s[0] == '\n' {
            lemma_read_and_feed(s.skip(1), delimiter, state.row_ended());
        } else {
            lemma_read_and_feed(s.skip(1), delimiter, state.with_char(s[0]));
        }
    }
}

proof fn lemma_last_char_leaves_something(s: Seq<char>, delimiter: char, state: csv::Reading)
    requires
        s.len() > 0,
        s.last() != '\r',
        s.last() != '\n',
        s.last() != '"',
        !csv::read_on(s, delimiter, state).quoted,
    ensures
        csv::read_on(s, delimiter, state).field.len() > 0 || csv::read_on(s, delimiter, state).row.len() > 0,
    decreases s.len(),
{
    if s.len() == 1 {
        assert(s.skip(1) =~= Seq::empty());
        reveal_with_fuel(csv::read_on, 2);
    } else {
        assert(s.skip(1).last() == s.last());
        if s.len() > 2 {
            assert(s.skip(2).last() == s.last());
        }
        if state.quoted {
            if s[0] != '"' {
                lemma_last_char_leaves_something(s.skip(1), delimiter, state.with_char(s[0]));
            } else if s[1] == '"' {
                lemma_last_char_leaves_something(s.skip(2), delimiter, state.with_char('"'));
            } else {
                lemma_last_char_leaves_something(s.skip(1), delimiter, csv::Reading { quoted: false, ..state });
            }
        } else if s[0] == '"' && state.field.len() == 0 {
            lemma_last_char_leaves_something(s.skip(1), delimiter, csv::Reading { quoted: true, ..state });
        } else if s[0] == delimiter {
            lemma_last_char_leaves_something(s.skip(1), delimiter, state.field_ended());
        } else if s[0] == '\r' && s[1] == '\n' {
            lemma_last_char_leaves_something(s.skip(2), delimiter, state.row_ended());
        } else if s[0] == '\r' || s[0] == '\n' {
            lemma_last_char_leaves_something(s.skip(1), delimiter, state.row_ended());
        } else {
            lemma_last_char_leaves_something(s.skip(1), delimiter, state.with_char(s[0]));
        }
    }
}

/// A line feed after the last row makes no difference, as long as all quotation marks are closed and the text does
/// not end in a line break already. A last line that holds nothing but an empty quoted field is left out: it counts
/// as a row only where a line feed follows.
pub proof fn law_last_line_feed_makes_no_difference(s: Seq<char>, delimiter: char)
    requires
        s.len() > 0,
        s.last() != '\n',
        s.last() != '\r',
        delimiter != '\n',
        !csv::read_on(s, delimiter, csv::unread()).quoted,
        s.last() != '"' || csv::read_on(s, delimiter, csv::unread()).field.len() > 0 || csv::read_on(
            s,
            delimiter,
            csv::unread(),
        ).row.len() > 0,
    ensures
        csv::rows_of(s.push('\n'), delimiter) == csv::rows_of(s, delimiter),
{
    let read = csv::read_on(s, delimiter, csv::unread());
    lemma_read_and_feed(s, delimiter, csv::unread());
    if s.last() != '"' {
        lemma_last_char_leaves_something(s, delimiter, csv::unread());
    }
    assert(seq!['\n'].skip(1) =~= Seq::empty());
    reveal_with_fuel(csv::read_on, 2);
    assert(csv::read_on(seq!['\n'], delimiter, read) == read.row_ended());
}

proof fn lemma_written_ends(rows: Seq<Seq<Seq<char>>>, delimiter: char)
    requires
        rows.len() > 0,
        forall|i: int| 0 <= i < rows.len() ==> (#[trigger] rows[i]).len() > 0,
    ensures
        csv::written(rows, delimiter).len() > 1,
        csv::written(rows, delimiter).last() == '\n',
        csv::written(rows, delimiter).drop_last().last() == '"',
    decreases rows.len(),
{
    let tail = rows.skip(1);
    lemma_written_row_ends(rows[0], delimiter);
    if tail.len() > 0 {
        assert forall|i: int| 0 <= i < tail.len() implies (#[trigger] tail[i]).len() > 0 by {
            assert(tail[i] == rows[i + 1]);
        }
        lemma_written_ends(tail, delimiter);
        let all = csv::written(rows, delimiter);
        let rest = csv::written(tail, delimiter);
        assert(all[all.len() - 1] == rest[rest.len() - 1]);
        assert(all[all.len() - 2] == rest[rest.len() - 2]);
    } else {
        let row = csv::written_row(rows[0], delimiter);
        assert(csv::written(tail, delimiter) =~= Seq::empty());
        assert(csv::written(rows, delimiter) =~= row.push('\n'));
        assert(csv::written(rows, delimiter).drop_last() =~= row);
    }
}

proof fn lemma_written_row_ends(row: Seq<Seq<char>>, delimiter: char)
    requires
        row.len() > 0,
    ensures
        csv::written_row(row, delimiter).len() > 1,
        csv::written_row(row, delimiter).last() == '"',
    decreases row.len(),
{
    if row.len() > 1 {
        lemma_written_row_ends(row.skip(1), delimiter);
    }
}

/// Rows written with every field in quotation marks are read back as they were without a line feed after the last
/// one too, unless the last row is one empty field.
pub proof fn law_quoted_rows_need_no_last_line_feed(rows: Seq<Seq<Seq<char>>>, delimiter: char)
    requires
        rows.len() > 0,
        forall|i: int| 0 <= i < rows.len() ==> (#[trigger] rows[i]).len() > 0,
        rows.last().len() > 1 || rows.last()[0].len() > 0,
        delimiter != '"',
        delimiter != '\n',
        delimiter != '\r',
    ensures
        csv::rows_of(csv::written(rows, delimiter).drop_last(), delimiter) == rows,
{
    lemma_written_ends(rows, delimiter);
    csv::law_quoted_rows_are_read_back(rows, delimiter);
    csv::lemma_read_written(rows, delimiter, csv::unread());
    assert(csv::unread().rows + rows =~= rows);
    let all = csv::written(rows, delimiter);
    let s = all.drop_last();
    assert(s.push('\n') =~= all);
    lemma_read_and_feed(s, delimiter, csv::unread());
    let read = csv::read_on(s, delimiter, csv::unread());
    assert(seq!['\n'].skip(1) =~= Seq::empty());
    reveal_with_fuel(csv::read_on, 2);
    let end = csv::read_on(seq!['\n'], delimiter, read);
    assert(!end.quoted);
    assert(end == read.row_ended());
    assert(rows.last() == read.row.push(read.field));
    assert(rows.last().len() == read.row.len() + 1);
    if read.row.len() == 0 {
        assert(rows.last()[0] == read.field);
    }
    assert(read.finished() == rows);
}

/// A text with a carriage return before every line feed.
pub open spec fn with_returns(s: Seq<char>) -> Seq<char>
    decreases s.len(),
{
    if s.len() == 0 {
        Seq::empty()
    } else if s[0] == '\n' {
        seq!['\r', '\n'] + with_returns(s.skip(1))
    } else {
        seq![s[0]] + with_returns(s.skip(1))
    }
}

proof fn lemma_line_breaks(s: Seq<char>, delimiter: char, state: csv::Reading)
    requires
        !s.contains('"'),
        !s.contains('\r'),
        delimiter != '\n',
        delimiter != '\r',
        !state.quoted,
    ensures
        csv::read_on(with_returns(s), delimiter, state) == csv::read_on(s, delimiter, state),
        csv::read_on(text::replaced(s, '\n', '\r'), delimiter, state) == csv::read_on(s, delimiter, state),
    decreases s.len(),
{
    let t = text::replaced(s, '\n', '\r');
    if s.len() == 0 {
        assert(t =~= s);
    } else {
        assert(s.contains(s[0]));
        if s.len() > 1 {
            assert(s.contains(s[1]));
        }
        assert forall|x: char| s.skip(1).contains(x) implies s.contains(x) by {
            let k = choose|k: int| 0 <= k < s.skip(1).len() && s.skip(1)[k] == x;
            assert(s[k + 1] == x);
        }
        lemma_line_breaks(s.skip(1), delimiter, plain_step(state, delimiter, s[0]));
        assert(t.skip(1) =~= text::replaced(s.skip(1), '\n', '\r'));
        let u = with_returns(s);
        if s[0] == '\n' {
            assert(u.skip(2) =~= with_returns(s.skip(1)));
        } else {
            assert(u.skip(1) =~= with_returns(s.skip(1)));
        }
    }
}

/// A carriage return, a line feed, or one after the other end a row alike.
pub proof fn law_line_breaks_are_alike(s: Seq<char>, delimiter: char)
    requires
        !s.contains('"'),
        !s.contains('\r'),
        delimiter != '\n',
        delimiter != '\r',
    ensures
        csv::rows_of(with_returns(s), delimiter) == csv::rows_of(s, delimiter),
        csv::rows_of(text::replaced(s, '\n', '\r'), delimiter) == csv::rows_of(s, delimiter),
{
    lemma_line_breaks(s, delimiter, csv::unread());
}

proof fn lemma_inside_a_field(s: Seq<char>, delimiter: char, state: csv::Reading)
    requires
        !state.quoted,
        state.field.len() > 0,
        !s.contains(delimiter),
        !s.contains('\n'),
        !s.contains('\r'),
    ensures
        csv::read_on(s, delimiter, state) == (csv::Reading { field: state.field + s, ..state }),
    decreases s.len(),
{
    if s.len() == 0 {
        assert(state.field + s =~= state.field);
    } else {
        let rest = s.skip(1);
        assert(s.contains(s[0]));
        assert forall|x: char| rest.contains(x) implies s.contains(x) by {
            let k = choose|k: int| 0 <= k < rest.len() && rest[k] == x;
            assert(s[k + 1] == x);
        }
        lemma_inside_a_field(rest, delimiter, state.with_char(s[0]));
        assert(state.field.push(s[0]) + rest =~= state.field + s);
    }
}

/// In a field that does not start with a quotation mark, quotation marks are ordinary characters.
pub proof fn law_marks_inside_fields_are_kept(s: Seq<char>, delimiter: char)
    requires
        s.len() > 0,
        s[0] != '"',
        !s.contains(delimiter),
        !s.contains('\n'),
        !s.contains('\r'),
    ensures
        csv::rows_of(s, delimiter) == seq![seq![s]],
{
    let rest = s.skip(1);
    assert(s.contains(s[0]));
    assert forall|x: char| rest.contains(x) implies s.contains(x) by {
        let k = choose|k: int| 0 <= k < rest.len() && rest[k] == x;
        assert(s[k + 1] == x);
    }
    let state = csv::unread().with_char(s[0]);
    lemma_inside_a_field(rest, delimiter, state);
    assert(state.field + rest =~= s);
    assert(csv::rows_of(s, delimiter) =~= seq![seq![s]]) by {
        assert(Seq::<Seq<char>>::empty().push(s) =~= seq![s]);
        assert(Seq::<Seq<Seq<char>>>::empty().push(seq![s]) =~= seq![seq![s]]);
    }
}

} // verus!
