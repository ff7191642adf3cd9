//! Delimited text: comma-separated and tab-separated values.
use crate::config::ExtractionConfig;
use crate::document;
use crate::document::{truncate_u32, CsvMetadata, FormatMetadata, InternalDocument, Metadata, Table};
use crate::encoding;
use crate::encoding::decode_labelled;
use crate::error;
use crate::error::{security_error, XbergError};
use crate::patterns;
use crate::patterns::pattern_matches;
use crate::plugin::package_version;
use crate::security;
use crate::security::{SecurityBudget, SecurityError};
use crate::text;
use crate::text::{
    chars_of, contains_char, has_prefix, is_blank, is_str, join_chars, join_strings, lines, push_chars, skip_digits, split_chars,
    str_byte_len, string_of, trim, trim_start, trimmed_string, utf8_text,
};
use vstd::prelude::*;
use vstd::slice::slice_subrange;

verus! {

/// A reader of delimited text between two characters.
#[verifier::ext_equal]
pub struct Reading {
    /// The rows that are complete.
    pub rows: Seq<Seq<Seq<char>>>,
    /// The fields of the row at hand that are complete.
    pub row: Seq<Seq<char>>,
    /// The field at hand.
    pub field: Seq<char>,
    /// Whether the field at hand is inside quotation marks.
    pub quoted: bool,
}

impl Reading {
    /// The field at hand completed.
    pub open spec fn field_ended(self) -> Reading {
        Reading { row: self.row.push(self.field), field: Seq::empty(), ..self }
    }

    /// The row at hand completed; a blank line is a row with one empty field.
    pub open spec fn row_ended(self) -> Reading {
        Reading {
            rows: self.rows.push(self.row.push(self.field)),
            row: Seq::empty(),
            field: Seq::empty(),
            ..self
        }
    }

    /// The field at hand with one more character.
    pub open spec fn with_char(self, c: char) -> Reading {
        Reading { field: self.field.push(c), ..self }
    }

    /// The rows at the end of the text; a last row that is not ended counts if anything is in it.
    pub open spec fn finished(self) -> Seq<Seq<Seq<char>>> {
        if self.field.len() > 0 || self.row.len() > 0 {
            self.rows.push(self.row.push(self.field))
        } else {
            self.rows
        }
    }
}

/// A reader before the first character.
pub open spec fn unread() -> Reading {
    Reading { rows: Seq::empty(), row: Seq::empty(), field: Seq::empty(), quoted: false }
}

/// The reader after the rest of the text.
pub open spec fn read_on(s: Seq<char>, delimiter: char, state: Reading) -> Reading
    decreases s.len(),
{
    if s.len() == 0 {
        state
    } else if state.quoted {
        if s[0] != '"' {
            read_on(s.skip(1), delimiter, state.with_char(s[0]))
        } else if s.len() > 1 && s[1] == '"' {
            read_on(s.skip(2), delimiter, state.with_char('"'))
        } else {
            read_on(s.skip(1), delimiter, Reading { quoted: false, ..state })
        }
    } else if s[0] == '"' && state.field.len() == 0 {
        read_on(s.skip(1), delimiter, Reading { quoted: true, ..state })
    } else if s[0] == delimiter {
        read_on(s.skip(1), delimiter, state.field_ended())
    } else if s[0] == '\r' && s.len() > 1 && s[1] == '\n' {
        read_on(s.skip(2), delimiter, state.row_ended())
    } else if s[0] == '\r' || s[0] == '\n' {
        read_on(s.skip(1), delimiter, state.row_ended())
    } else {
        read_on(s.skip(1), delimiter, state.with_char(s[0]))
    }
}

/// The rows of a delimited text. A field may stand in quotation marks; inside them the delimiter
/// and line breaks are ordinary characters and a quotation mark is written twice.
pub open spec fn rows_of(s: Seq<char>, delimiter: char) -> Seq<Seq<Seq<char>>> {
    read_on(s, delimiter, unread()).finished()
}

/// The texts of rows of character buffers.
pub open spec fn buffers(rows: Seq<Vec<Vec<char>>>) -> Seq<Seq<Seq<char>>> {
    rows.map_values(|row: Vec<Vec<char>>| text::texts(row@))
}

/// The running state of the reader.
struct ReadState {
    rows: Vec<Vec<Vec<char>>>,
    row: Vec<Vec<char>>,
    field: Vec<char>,
    quoted: bool,
}

impl ReadState {
    spec fn state(&self) -> Reading {
        Reading { rows: buffers(self.rows@), row: text::texts(self.row@), field: self.field@, quoted: self.quoted }
    }

    fn new() -> (r: Self)
        ensures
            r.state() == unread(),
    {
        let r = ReadState { rows: Vec::new(), row: Vec::new(), field: Vec::new(), quoted: false };
        proof {
            assert(r.state() =~= unread());
        }
        r
    }

    fn end_field(&mut self)
        ensures
            final(self).state() == old(self).state().field_ended(),
    {
        let mut field: Vec<char> = Vec::new();
        std::mem::swap(&mut field, &mut self.field);
        let ghost row = self.row@;
        let ghost ended = field@;
        self.row.push(field);
        proof {
            assert(text::texts(self.row@) =~= text::texts(row).push(ended));
        }
    }

    fn end_row(&mut self)
        ensures
            final(self).state() == old(self).state().row_ended(),
    {
        self.end_field();
        let mut row: Vec<Vec<char>> = Vec::new();
        std::mem::swap(&mut row, &mut self.row);
        let ghost rows = self.rows@;
        let ghost ended = row@;
        self.rows.push(row);
        proof {
            assert(buffers(self.rows@) =~= buffers(rows).push(text::texts(ended)));
            assert(text::texts(self.row@) =~= Seq::<Seq<char>>::empty());
        }
    }
}

/// Reads the rows of a delimited text.
fn read_rows(s: &[char], delimiter: char) -> (r: Vec<Vec<Vec<char>>>)
    ensures
        buffers(r@) == rows_of(s@, delimiter),
{
    let mut state = ReadState::new();
    let mut p: usize = 0;
    proof {
        assert(s@.skip(0) =~= s@);
    }
    while p < s.len()
        invariant
            p <= s.len(),
            read_on(s@.skip(p as int), delimiter, state.state()) == read_on(s@, delimiter, unread()),
        decreases s.len() - p,
    {
        let c = s[p];
        let followed = p + 1 < s.len();
        proof {
            assert(s@.skip(p as int).skip(1) =~= s@.skip(p + 1));
            if followed {
                assert(s@.skip(p as int).skip(2) =~= s@.skip(p + 2));
            }
            assert(s@.skip(p as int)[0] == c);
        }
        if state.quoted {
            if c != '"' {
                state.field.push(c);
                p = p + 1;
            } else if followed && s[p + 1] == '"' {
                state.field.push('"');
                p = p + 2;
            } else {
                state.quoted = false;
                p = p + 1;
            }
        } else if c == '"' && state.field.len() == 0 {
            state.quoted = true;
            p = p + 1;
        } else if c == delimiter {
            state.end_field();
            p = p + 1;
        } else if c == '\r' && followed && s[p + 1] == '\n' {
            state.end_row();
            p = p + 2;
        } else if c == '\r' || c == '\n' {
            state.end_row();
            p = p + 1;
        } else {
            state.field.push(c);
            p = p + 1;
        }
    }
    if state.field.len() > 0 || state.row.len() > 0 {
        state.end_row();
    }
    state.rows
}

/// Turns character buffers into strings.
fn row_strings(row: &[Vec<char>]) -> (r: Vec<String>)
    ensures
        text::strings(r@) == text::texts(row@),
{
    let mut out: Vec<String> = Vec::new();
    let mut i: usize = 0;
    while i < row.len()
        invariant
            i <= row.len(),
            text::strings(out@) == text::texts(row@).take(i as int),
        decreases row.len() - i,
    {
        let ghost before = out@;
        let field = string_of(row[i].as_slice());
        proof {
            assert(text::texts(row@).take(i + 1) =~= text::texts(row@).take(i as int).push(field@));
        }
        out.push(field);
        proof {
            assert(text::strings(out@) =~= text::strings(before).push(field@));
        }
        i = i + 1;
    }
    proof {
        assert(text::texts(row@).take(row@.len() as int) =~= text::texts(row@));
    }
    out
}

/// Reads the rows of a delimited text, with RFC 4180 quoting.
pub fn parse_csv(text: &str, delimiter: char) -> (r: Vec<Vec<String>>)
    ensures
        document::grid(r@) == rows_of(text@, delimiter),
{
    let rows = read_rows(chars_of(text).as_slice(), delimiter);
    let ghost all = buffers(rows@);
    let mut out: Vec<Vec<String>> = Vec::new();
    let mut i: usize = 0;
    while i < rows.len()
        invariant
            i <= rows.len(),
            all == buffers(rows@),
            document::grid(out@) == all.take(i as int),
        decreases rows.len() - i,
    {
        let ghost before = out@;
        let row = row_strings(rows[i].as_slice());
        proof {
            assert(all.take(i + 1) =~= all.take(i as int).push(text::strings(row@)));
        }
        out.push(row);
        proof {
            assert(document::grid(out@) =~= document::grid(before).push(text::strings(row@)));
        }
        i = i + 1;
    }
    proof {
        assert(all.take(all.len() as int) =~= all);
    }
    out
}

/// A text with every quotation mark written twice.
pub open spec fn doubled(s: Seq<char>) -> Seq<char>
    decreases s.len(),
{
    if s.len() == 0 {
        Seq::empty()
    } else if s[0] == '"' {
        seq!['"', '"'] + doubled(s.skip(1))
    } else {
        seq![s[0]] + doubled(s.skip(1))
    }
}

/// A field in quotation marks.
pub open spec fn quoted(field: Seq<char>) -> Seq<char> {
    seq!['"'] + doubled(field) + seq!['"']
}

/// The fields of a row, each in quotation marks, with the delimiter between them.
pub open spec fn written_row(row: Seq<Seq<char>>, delimiter: char) -> Seq<char>
    decreases row.len(),
{
    if row.len() == 0 {
        Seq::empty()
    } else if row.len() == 1 {
        quoted(row[0])
    } else {
        quoted(row[0]) + seq![delimiter] + written_row(row.skip(1), delimiter)
    }
}

/// Rows written one per line, every field in quotation marks.
pub open spec fn written(rows: Seq<Seq<Seq<char>>>, delimiter: char) -> Seq<char>
    decreases rows.len(),
{
    if rows.len() == 0 {
        Seq::empty()
    } else {
        written_row(rows[0], delimiter) + seq!['\n'] + written(rows.skip(1), delimiter)
    }
}

/// Reading the inside of a quoted field gives the field back.
proof fn lemma_read_quoted_inside(field: Seq<char>, rest: Seq<char>, delimiter: char, state: Reading)
    requires
        state.quoted,
        rest.len() == 0 || rest[0] != '"',
    ensures
        read_on(doubled(field) + seq!['"'] + rest, delimiter, state) == read_on(
            rest,
            delimiter,
            Reading { field: state.field + field, quoted: false, ..state },
        ),
    decreases field.len(),
{
    let s = doubled(field) + seq!['"'] + rest;
    if field.len() == 0 {
        assert(s =~= seq!['"'] + rest);
        assert(s.skip(1) =~= rest);
        assert(state.field + field =~= state.field);
    } else {
        let tail = field.skip(1);
        let next = doubled(tail) + seq!['"'] + rest;
        lemma_read_quoted_inside(tail, rest, delimiter, state.with_char(field[0]));
        assert(state.field.push(field[0]) + tail =~= state.field + field);
        if field[0] == '"' {
            assert(s =~= seq!['"', '"'] + next);
            assert(s.skip(2) =~= next);
        } else {
            assert(s =~= seq![field[0]] + next);
            assert(s.skip(1) =~= next);
        }
    }
}

/// Reading a quoted field gives the field back.
proof fn lemma_read_quoted(field: Seq<char>, rest: Seq<char>, delimiter: char, state: Reading)
    requires
        !state.quoted,
        state.field.len() == 0,
        rest.len() == 0 || rest[0] != '"',
    ensures
        read_on(quoted(field) + rest, delimiter, state) == read_on(rest, delimiter, Reading { field, ..state }),
{
    let s = quoted(field) + rest;
    let inside = doubled(field) + seq!['"'] + rest;
    assert(s =~= seq!['"'] + inside);
    assert(s.skip(1) =~= inside);
    lemma_read_quoted_inside(field, rest, delimiter, Reading { quoted: true, ..state });
    assert(state.field + field =~= field);
}

/// Reading a written row and the line feed after it gives the row back.
proof fn lemma_read_written_row(row: Seq<Seq<char>>, rest: Seq<char>, delimiter: char, state: Reading)
    requires
        row.len() > 0,
        delimiter != '"',
        delimiter != '\n',
        delimiter != '\r',
        !state.quoted,
        state.field.len() == 0,
    ensures
        read_on(written_row(row, delimiter) + seq!['\n'] + rest, delimiter, state) == read_on(
            rest,
            delimiter,
            Reading { rows: state.rows.push(state.row + row), row: Seq::empty(), field: Seq::empty(), quoted: false },
        ),
    decreases row.len(),
{
    let s = written_row(row, delimiter) + seq!['\n'] + rest;
    if row.len() == 1 {
        let after = seq!['\n'] + rest;
        assert(s =~= quoted(row[0]) + after);
        lemma_read_quoted(row[0], after, delimiter, state);
        assert(after.skip(1) =~= rest);
        assert(state.row + row =~= state.row.push(row[0]));
    } else {
        let tail = row.skip(1);
        let next = written_row(tail, delimiter) + seq!['\n'] + rest;
        let after = seq![delimiter] + next;
        assert(s =~= quoted(row[0]) + after);
        lemma_read_quoted(row[0], after, delimiter, state);
        assert(after.skip(1) =~= next);
        let mid = Reading { field: row[0], ..state };
        lemma_read_written_row(tail, rest, delimiter, mid.field_ended());
        assert(state.row.push(row[0]) + tail =~= state.row + row);
    }
}

/// Reading written rows gives the rows back.
pub proof fn lemma_read_written(rows: Seq<Seq<Seq<char>>>, delimiter: char, state: Reading)
    requires
        forall|i: int| 0 <= i < rows.len() ==> (#[trigger] rows[i]).len() > 0,
        delimiter != '"',
        delimiter != '\n',
        delimiter != '\r',
        !state.quoted,
        state.field.len() == 0,
        state.row.len() == 0,
    ensures
        read_on(written(rows, delimiter), delimiter, state) == (Reading { rows: state.rows + rows, ..state }),
    decreases rows.len(),
{
    if rows.len() == 0 {
        assert(state.rows + rows =~= state.rows);
    } else {
        let tail = rows.skip(1);
        assert forall|i: int| 0 <= i < tail.len() implies (#[trigger] tail[i]).len() > 0 by {
            assert(tail[i] == rows[i + 1]);
        }
        lemma_read_written_row(rows[0], written(tail, delimiter), delimiter, state);
        assert(state.row + rows[0] =~= rows[0]);
        let next = Reading {
            rows: state.rows.push(rows[0]),
            row: Seq::empty(),
            field: Seq::empty(),
            quoted: false,
        };
        lemma_read_written(tail, delimiter, next);
        assert(state.rows.push(rows[0]) + tail =~= state.rows + rows);
        assert(state.row =~= Seq::<Seq<char>>::empty());
        assert(state.field =~= Seq::<char>::empty());
    }
}

/// Rows written with every field in quotation marks are read back as they were, whatever
/// characters the fields hold. Every row has at least one field, and the delimiter is neither a
/// quotation mark nor part of a line break.
pub proof fn law_quoted_rows_are_read_back(rows: Seq<Seq<Seq<char>>>, delimiter: char)
    requires
        forall|i: int| 0 <= i < rows.len() ==> (#[trigger] rows[i]).len() > 0,
        delimiter != '"',
        delimiter != '\n',
        delimiter != '\r',
    ensures
        rows_of(written(rows, delimiter), delimiter) == rows,
{
    lemma_read_written(rows, delimiter, unread());
    assert(unread().rows + rows =~= rows);
}

/// Whether a text is a number: digits with an optional point, an optional sign before them and an
/// optional exponent after them.
pub open spec fn is_number(s: Seq<char>) -> bool {
    let u = if s.len() > 0 && (s[0] == '+' || s[0] == '-') { s.skip(1) } else { s };
    let whole = text::digits_end(u, 0);
    let pointed = whole < u.len() && u[whole] == '.';
    let mantissa = if pointed { text::digits_end(u, whole + 1) } else { whole };
    (whole > 0 || (pointed && mantissa > whole + 1)) && is_exponent(u, mantissa)
}

/// Whether nothing but an optional exponent stands from a position on.
pub open spec fn is_exponent(s: Seq<char>, p: int) -> bool {
    if p >= s.len() {
        true
    } else if s[p] != 'e' && s[p] != 'E' {
        false
    } else {
        let signed = p + 1 < s.len() && (s[p + 1] == '+' || s[p + 1] == '-');
        let first = if signed { p + 2 } else { p + 1 };
        text::digits_end(s, first) > first && text::digits_end(s, first) == s.len()
    }
}

fn exponent(s: &[char], p: usize) -> (r: bool)
    requires
        p <= s.len(),
    ensures
        r == is_exponent(s@, p as int),
{
    if p == s.len() {
        return true;
    }
    if s[p] != 'e' && s[p] != 'E' {
        return false;
    }
    let signed = p + 1 < s.len() && (s[p + 1] == '+' || s[p + 1] == '-');
    let first: usize = if signed { p + 2 } else { p + 1 };
    let end = skip_digits(s, first);
    end > first && end == s.len()
}

/// Whether a cell is a number, white space around it aside. The words for infinities and for what
/// is no number do not count.
pub fn is_csv_number(cell: &str) -> (r: bool)
    ensures
        r == is_number(text::trimmed(cell@)),
{
    let letters = chars_of(cell);
    let s = trim(letters.as_slice());
    let signed = s.len() > 0 && (s[0] == '+' || s[0] == '-');
    proof {
        assert(s@.subrange(0, s@.len() as int) =~= s@);
        if s@.len() > 0 {
            assert(s@.subrange(1, s@.len() as int) =~= s@.skip(1));
        }
    }
    let u = slice_subrange(s, if signed { 1 } else { 0 }, s.len());
    let whole = skip_digits(u, 0);
    let pointed = whole < u.len() && u[whole] == '.';
    let mantissa: usize = if pointed { skip_digits(u, whole + 1) } else { whole };
    (whole > 0 || (pointed && mantissa > whole + 1)) && exponent(u, mantissa)
}

/// The row that names the columns, if the first one does: there are further rows, it has at least
/// two fields, and none of them is a number.
pub open spec fn first_row_is_header(rows: Seq<Seq<Seq<char>>>) -> bool {
    rows.len() >= 2 && rows[0].len() >= 2 && forall|j: int|
        0 <= j < rows[0].len() ==> !is_number(text::trimmed(#[trigger] rows[0][j]))
}

/// Whether the first row names the columns.
pub fn detect_header(rows: &[Vec<String>]) -> (r: bool)
    ensures
        r == first_row_is_header(document::grid(rows@)),
{
    if rows.len() < 2 || rows[0].len() < 2 {
        return false;
    }
    let ghost first = document::grid(rows@)[0];
    let mut j: usize = 0;
    while j < rows[0].len()
        invariant
            rows.len() >= 2,
            j <= rows[0].len(),
            first == text::strings(rows@[0]@),
            first == document::grid(rows@)[0],
            forall|k: int| 0 <= k < j ==> !is_number(text::trimmed(#[trigger] first[k])),
        decreases rows[0].len() - j,
    {
        if is_csv_number(rows[0][j].as_str()) {
            proof {
                assert(first[j as int] == rows@[0]@[j as int]@);
            }
            return false;
        }
        j = j + 1;
    }
    true
}

/// The number of fields of the widest row.
pub open spec fn widest(rows: Seq<Seq<Seq<char>>>) -> nat
    decreases rows.len(),
{
    if rows.len() == 0 {
        0
    } else {
        let before = widest(rows.drop_last());
        if rows.last().len() > before {
            rows.last().len()
        } else {
            before
        }
    }
}

/// The number of fields of the widest row.
pub fn column_count(rows: &[Vec<String>]) -> (r: usize)
    ensures
        r == widest(document::grid(rows@)),
{
    let ghost all = document::grid(rows@);
    let mut most: usize = 0;
    let mut i: usize = 0;
    while i < rows.len()
        invariant
            i <= rows.len(),
            all == document::grid(rows@),
            most == widest(all.take(i as int)),
        decreases rows.len() - i,
    {
        proof {
            assert(all.take(i + 1).drop_last() =~= all.take(i as int));
            assert(all.take(i + 1).last().len() == rows@[i as int]@.len());
        }
        if rows[i].len() > most {
            most = rows[i].len();
        }
        i = i + 1;
    }
    proof {
        assert(all.take(all.len() as int) =~= all);
    }
    most
}

/// A field without the white space around it; a missing one is empty.
pub open spec fn cell_at(row: Seq<Seq<char>>, column: int) -> Seq<char> {
    if 0 <= column < row.len() {
        text::trimmed(row[column])
    } else {
        Seq::empty()
    }
}

fn cell_text(row: &[String], column: usize) -> (r: String)
    ensures
        r@ == cell_at(text::strings(row@), column as int),
{
    if column < row.len() {
        trimmed_string(row[column].as_str())
    } else {
        String::new()
    }
}

/// What a field holds.
#[derive(Clone, Copy, Debug, PartialEq, Eq, Structural)]
pub enum CellClass {
    /// Nothing.
    Blank,
    /// A number.
    Number,
    /// A date.
    Date,
    /// Anything else.
    Word,
}

/// Whether a text starts like a date: ISO, with slashes, or with points.
pub open spec fn is_date(s: Seq<char>) -> bool {
    patterns::regex_matches(r"^\d{4}-\d{2}-\d{2}"@, s) || patterns::regex_matches(
        r"^\d{1,2}/\d{1,2}/\d{2,4}"@,
        s,
    ) || patterns::regex_matches(r"^\d{1,2}\.\d{1,2}\.\d{2,4}"@, s)
}

/// What a field without white space around it holds, given whether it starts like a date.
pub open spec fn class_given(s: Seq<char>, date: bool) -> CellClass {
    if s.len() == 0 {
        CellClass::Blank
    } else if is_number(text::trimmed(s)) {
        CellClass::Number
    } else if date {
        CellClass::Date
    } else {
        CellClass::Word
    }
}

/// What a field without white space around it holds.
pub open spec fn class_of(s: Seq<char>) -> CellClass {
    class_given(s, is_date(s))
}

fn looks_like_date(cell: &str) -> (r: bool)
    ensures
        r == is_date(cell@),
{
    pattern_matches(r"^\d{4}-\d{2}-\d{2}", cell) || pattern_matches(r"^\d{1,2}/\d{1,2}/\d{2,4}", cell) || pattern_matches(
        r"^\d{1,2}\.\d{1,2}\.\d{2,4}",
        cell,
    )
}

/// Tells what a field without white space around it holds, given whether it starts like a date.
pub fn classify_cell(cell: &str, date: bool) -> (r: CellClass)
    ensures
        r == class_given(cell@, date),
{
    if cell.is_empty() {
        CellClass::Blank
    } else if is_csv_number(cell) {
        CellClass::Number
    } else if date {
        CellClass::Date
    } else {
        CellClass::Word
    }
}

/// How many fields are of a class.
pub open spec fn class_count(classes: Seq<CellClass>, class: CellClass) -> nat
    decreases classes.len(),
{
    if classes.len() == 0 {
        0
    } else {
        class_count(classes.drop_last(), class) + if classes.last() == class {
            1nat
        } else {
            0nat
        }
    }
}

/// What a column holds, by the classes of its non-blank fields: numbers if at least half of them are, else dates if
/// at least half of them are, else text.
pub open spec fn type_by_classes(classes: Seq<CellClass>) -> Seq<char> {
    let numbers = class_count(classes, CellClass::Number);
    let dates = class_count(classes, CellClass::Date);
    let filled = classes.len() - class_count(classes, CellClass::Blank);
    if filled == 0 {
        "text"@
    } else if numbers * 2 >= filled {
        "numeric"@
    } else if dates * 2 >= filled {
        "date"@
    } else {
        "text"@
    }
}

/// Tells what a column holds from the classes of its fields.
pub fn column_type_by_classes(classes: &[CellClass]) -> (r: &'static str)
    ensures
        r@ == type_by_classes(classes@),
{
    let mut numbers: usize = 0;
    let mut dates: usize = 0;
    let mut filled: usize = 0;
    let mut i: usize = 0;
    while i < classes.len()
        invariant
            i <= classes.len(),
            numbers == class_count(classes@.take(i as int), CellClass::Number),
            dates == class_count(classes@.take(i as int), CellClass::Date),
            filled == i - class_count(classes@.take(i as int), CellClass::Blank),
            numbers + dates <= filled <= i,
        decreases classes.len() - i,
    {
        proof {
            assert(classes@.take(i + 1).drop_last() =~= classes@.take(i as int));
        }
        match classes[i] {
            CellClass::Blank => {},
            CellClass::Number => {
                filled = filled + 1;
                numbers = numbers + 1;
            },
            CellClass::Date => {
                filled = filled + 1;
                dates = dates + 1;
            },
            CellClass::Word => {
                filled = filled + 1;
            },
        }
        i = i + 1;
    }
    proof {
        assert(classes@.take(classes@.len() as int) =~= classes@);
    }
    if filled == 0 {
        "text"
    } else if numbers >= filled - numbers {
        "numeric"
    } else if dates >= filled - dates {
        "date"
    } else {
        "text"
    }
}

/// The classes of the fields of a column.
pub open spec fn column_classes(rows: Seq<Seq<Seq<char>>>, column: int) -> Seq<CellClass> {
    rows.map_values(|row: Seq<Seq<char>>| class_of(cell_at(row, column)))
}

/// What a column holds.
pub open spec fn column_type(rows: Seq<Seq<Seq<char>>>, column: int) -> Seq<char> {
    type_by_classes(column_classes(rows, column))
}

/// The rows that are looked at to tell what the columns hold: the first twenty after the header.
pub open spec fn sampled(rows: Seq<Seq<Seq<char>>>, has_header: bool) -> Seq<Seq<Seq<char>>> {
    let first: int = if has_header { 1 } else { 0 };
    let last = if rows.len() < first + 20 { rows.len() as int } else { first + 20 };
    if first >= last {
        Seq::empty()
    } else {
        rows.subrange(first, last)
    }
}

/// What each column holds; a column with nothing to look at holds text.
pub open spec fn column_types(rows: Seq<Seq<Seq<char>>>, has_header: bool) -> Seq<Seq<char>> {
    Seq::new(widest(rows), |column: int| column_type(sampled(rows, has_header), column))
}

fn infer_column(rows: &[Vec<String>], column: usize) -> (r: String)
    ensures
        r@ == column_type(document::grid(rows@), column as int),
{
    let ghost all = document::grid(rows@);
    let mut classes: Vec<CellClass> = Vec::new();
    let mut i: usize = 0;
    while i < rows.len()
        invariant
            i <= rows.len(),
            all == document::grid(rows@),
            classes@ == column_classes(all, column as int).take(i as int),
        decreases rows.len() - i,
    {
        let cell = cell_text(rows[i].as_slice(), column);
        let class = classify_cell(cell.as_str(), looks_like_date(cell.as_str()));
        proof {
            assert(all[i as int] == text::strings(rows@[i as int]@));
            assert(column_classes(all, column as int).take(i + 1) =~= column_classes(all, column as int).take(
                i as int,
            ).push(class));
        }
        classes.push(class);
        i = i + 1;
    }
    proof {
        assert(column_classes(all, column as int).take(all.len() as int) =~= column_classes(all, column as int));
    }
    column_type_by_classes(classes.as_slice()).to_owned()
}

/// Tells what each column holds from its first rows.
pub fn infer_column_types(rows: &[Vec<String>], has_header: bool) -> (r: Vec<String>)
    ensures
        text::strings(r@) == column_types(document::grid(rows@), has_header),
{
    let ghost all = document::grid(rows@);
    let columns = column_count(rows);
    let first: usize = if has_header { 1 } else { 0 };
    let last: usize = if rows.len() < first + 20 { rows.len() } else { first + 20 };
    let sample: &[Vec<String>] = if first >= last {
        slice_subrange(rows, 0, 0)
    } else {
        slice_subrange(rows, first, last)
    };
    proof {
        assert(document::grid(sample@) =~= sampled(all, has_header));
    }
    let mut out: Vec<String> = Vec::new();
    let mut column: usize = 0;
    while column < columns
        invariant
            column <= columns,
            columns == widest(all),
            document::grid(sample@) == sampled(all, has_header),
            text::strings(out@) == column_types(all, has_header).take(column as int),
        decreases columns - column,
    {
        let ghost before = out@;
        let found = infer_column(sample, column);
        proof {
            assert(column_types(all, has_header).take(column + 1) =~= column_types(all, has_header).take(
                column as int,
            ).push(found@));
        }
        out.push(found);
        proof {
            assert(text::strings(out@) =~= text::strings(before).push(found@));
        }
        column = column + 1;
    }
    proof {
        assert(column_types(all, has_header).take(columns as int) =~= column_types(all, has_header));
    }
    out
}

/// Whether every field of a row is blank.
pub open spec fn is_blank_row(row: Seq<Seq<char>>) -> bool {
    forall|j: int| 0 <= j < row.len() ==> text::trimmed(#[trigger] row[j]).len() == 0
}

/// The rows as plain text: one line per row that is not blank, its fields with a space between
/// them.
pub open spec fn plain_text(rows: Seq<Seq<Seq<char>>>) -> Seq<char>
    decreases rows.len(),
{
    if rows.len() == 0 {
        Seq::empty()
    } else {
        let before = plain_text(rows.drop_last());
        if is_blank_row(rows.last()) {
            before
        } else {
            before + text::join(rows.last(), " "@) + "\n"@
        }
    }
}

fn blank_row(row: &[String]) -> (r: bool)
    ensures
        r == is_blank_row(text::strings(row@)),
{
    let ghost all = text::strings(row@);
    let mut j: usize = 0;
    while j < row.len()
        invariant
            j <= row.len(),
            all == text::strings(row@),
            forall|k: int| 0 <= k < j ==> text::trimmed(#[trigger] all[k]).len() == 0,
        decreases row.len() - j,
    {
        if !is_blank(row[j].as_str()) {
            proof {
                assert(all[j as int] == row@[j as int]@);
            }
            return false;
        }
        j = j + 1;
    }
    true
}

/// Renders rows as plain text.
pub fn render_plain_text(cells: &[Vec<String>]) -> (r: String)
    ensures
        r@ == plain_text(document::grid(cells@)),
{
    let ghost all = document::grid(cells@);
    let mut out = String::new();
    let mut i: usize = 0;
    while i < cells.len()
        invariant
            i <= cells.len(),
            all == document::grid(cells@),
            out@ == plain_text(all.take(i as int)),
        decreases cells.len() - i,
    {
        proof {
            assert(all.take(i + 1).drop_last() =~= all.take(i as int));
            assert(all.take(i + 1).last() == text::strings(cells@[i as int]@));
        }
        if !blank_row(cells[i].as_slice()) {
            let line = join_strings(cells[i].as_slice(), " ");
            out.append(line.as_str());
            out.append("\n");
        }
        i = i + 1;
    }
    proof {
        assert(all.take(all.len() as int) =~= all);
    }
    out
}

/// A piece of text repeated.
pub open spec fn repeated(piece: Seq<char>, n: nat) -> Seq<char>
    decreases n,
{
    if n == 0 {
        Seq::empty()
    } else {
        repeated(piece, (n - 1) as nat) + piece
    }
}

/// One line of a Markdown table made of equal cells.
pub open spec fn uniform_line(cell: Seq<char>, columns: nat) -> Seq<char> {
    "|"@ + repeated(cell, columns) + "\n"@
}

/// The first cells of a line of a Markdown table.
pub open spec fn row_cells(row: Seq<Seq<char>>, columns: nat) -> Seq<char>
    decreases columns,
{
    if columns == 0 {
        Seq::empty()
    } else {
        row_cells(row, (columns - 1) as nat) + " "@ + cell_at(row, columns - 1) + " |"@
    }
}

/// The lines of a Markdown table from its first rows; the first one is set off if it names the
/// columns.
pub open spec fn table_lines(rows: Seq<Seq<Seq<char>>>, columns: nat, has_header: bool) -> Seq<char>
    decreases rows.len(),
{
    if rows.len() == 0 {
        Seq::empty()
    } else {
        let line = table_lines(rows.drop_last(), columns, has_header) + "|"@ + row_cells(rows.last(), columns) + "\n"@;
        if has_header && rows.len() == 1 {
            line + uniform_line(" --- |"@, columns)
        } else {
            line
        }
    }
}

/// The rows as a Markdown table; without a header of its own it gets a blank one.
pub open spec fn markdown_table(rows: Seq<Seq<Seq<char>>>, has_header: bool) -> Seq<char> {
    let columns = widest(rows);
    if columns == 0 {
        Seq::empty()
    } else if has_header {
        table_lines(rows, columns, true)
    } else {
        uniform_line("  |"@, columns) + uniform_line(" --- |"@, columns) + table_lines(rows, columns, false)
    }
}

fn push_uniform_line(out: &mut String, cell: &str, columns: usize)
    ensures
        final(out)@ == old(out)@ + uniform_line(cell@, columns as nat),
{
    let ghost start = out@;
    out.append("|");
    let mut j: usize = 0;
    while j < columns
        invariant
            j <= columns,
            out@ == start + "|"@ + repeated(cell@, j as nat),
        decreases columns - j,
    {
        out.append(cell);
        proof {
            assert(out@ =~= start + "|"@ + repeated(cell@, (j + 1) as nat));
        }
        j = j + 1;
    }
    out.append("\n");
    proof {
        assert(out@ =~= start + uniform_line(cell@, columns as nat));
    }
}

fn push_row_cells(out: &mut String, row: &[String], columns: usize)
    ensures
        final(out)@ == old(out)@ + row_cells(text::strings(row@), columns as nat),
{
    let ghost start = out@;
    let mut j: usize = 0;
    proof {
        assert(out@ =~= start + row_cells(text::strings(row@), 0));
    }
    while j < columns
        invariant
            j <= columns,
            out@ == start + row_cells(text::strings(row@), j as nat),
        decreases columns - j,
    {
        let cell = cell_text(row, j);
        out.append(" ");
        out.append(cell.as_str());
        out.append(" |");
        proof {
            assert(out@ =~= start + row_cells(text::strings(row@), (j + 1) as nat));
        }
        j = j + 1;
    }
}

/// Renders rows as a Markdown table.
pub fn build_markdown_table(rows: &[Vec<String>], has_header: bool) -> (r: String)
    ensures
        r@ == markdown_table(document::grid(rows@), has_header),
{
    let ghost all = document::grid(rows@);
    let columns = column_count(rows);
    let mut out = String::new();
    if columns == 0 {
        return out;
    }
    if !has_header {
        push_uniform_line(&mut out, "  |", columns);
        push_uniform_line(&mut out, " --- |", columns);
    }
    let ghost head = out@;
    let mut i: usize = 0;
    proof {
        assert(head + table_lines(all.take(0), columns as nat, has_header) =~= head);
    }
    while i < rows.len()
        invariant
            i <= rows.len(),
            all == document::grid(rows@),
            out@ == head + table_lines(all.take(i as int), columns as nat, has_header),
        decreases rows.len() - i,
    {
        proof {
            assert(all.take(i + 1).drop_last() =~= all.take(i as int));
            assert(all.take(i + 1).last() == text::strings(rows@[i as int]@));
        }
        out.append("|");
        push_row_cells(&mut out, rows[i].as_slice(), columns);
        out.append("\n");
        if has_header && i == 0 {
            push_uniform_line(&mut out, " --- |", columns);
        }
        proof {
            assert(out@ =~= head + table_lines(all.take(i + 1), columns as nat, has_header));
        }
        i = i + 1;
    }
    proof {
        assert(all.take(all.len() as int) =~= all);
        assert(out@ =~= markdown_table(all, has_header));
    }
    out
}

/// Whether a line, white space before it aside, starts with one of the prefixes.
pub open spec fn is_comment(line: Seq<char>, prefixes: Seq<Seq<char>>) -> bool {
    exists|k: int| 0 <= k < prefixes.len() && text::occurs_at(text::trimmed_start(line), #[trigger] prefixes[k], 0)
}

/// The lines that are no comments, each with the line feed that ends it.
pub open spec fn kept_lines(lines: Seq<Seq<char>>, prefixes: Seq<Seq<char>>) -> Seq<char>
    decreases lines.len(),
{
    if lines.len() == 0 {
        Seq::empty()
    } else {
        let before = kept_lines(lines.drop_last(), prefixes);
        let line = lines.last().push('\n');
        if is_comment(line, prefixes) {
            before
        } else {
            before + line
        }
    }
}

/// A text without its comment lines. The lines that stay keep their line ends.
pub open spec fn without_comments(s: Seq<char>, prefixes: Seq<Seq<char>>) -> Seq<char> {
    if prefixes.len() == 0 {
        s
    } else {
        let pieces = text::split_on(s, '\n');
        let ended = kept_lines(pieces.drop_last(), prefixes);
        if pieces.last().len() == 0 || is_comment(pieces.last(), prefixes) {
            ended
        } else {
            ended + pieces.last()
        }
    }
}

fn comment_line(line: &[char], prefixes: &[String]) -> (r: bool)
    ensures
        r == is_comment(line@, text::strings(prefixes@)),
{
    let ghost all = text::strings(prefixes@);
    let rest = trim_start(line);
    let mut k: usize = 0;
    while k < prefixes.len()
        invariant
            k <= prefixes.len(),
            all == text::strings(prefixes@),
            rest@ == text::trimmed_start(line@),
            forall|m: int| 0 <= m < k ==> !text::occurs_at(rest@, #[trigger] all[m], 0),
        decreases prefixes.len() - k,
    {
        proof {
            assert(all[k as int] == prefixes@[k as int]@);
        }
        if has_prefix(rest, prefixes[k].as_str()) {
            return true;
        }
        k = k + 1;
    }
    false
}

/// Removes comment lines.
pub fn strip_comment_lines(text: &str, prefixes: &[String]) -> (r: String)
    ensures
        r@ == without_comments(text@, text::strings(prefixes@)),
{
    if prefixes.len() == 0 {
        return text.to_owned();
    }
    let ghost all = text::split_on(text@, '\n');
    let ghost wanted = text::strings(prefixes@);
    let pieces = split_chars(chars_of(text).as_slice(), '\n');
    proof {
        text::lemma_split_nonempty(text@, '\n');
    }
    let mut out: Vec<char> = Vec::new();
    let mut i: usize = 0;
    let last: usize = pieces.len() - 1;
    while i < last
        invariant
            i <= last,
            last == pieces.len() - 1,
            text::texts(pieces@) == all,
            wanted == text::strings(prefixes@),
            out@ == kept_lines(all.take(i as int), wanted),
        decreases last - i,
    {
        let mut line: Vec<char> = Vec::new();
        push_chars(&mut line, pieces[i].as_slice());
        line.push('\n');
        proof {
            assert(all.take(i + 1).drop_last() =~= all.take(i as int));
            assert(all.take(i + 1).last() == pieces@[i as int]@);
            assert(line@ =~= pieces@[i as int]@.push('\n'));
        }
        if !comment_line(line.as_slice(), prefixes) {
            push_chars(&mut out, line.as_slice());
        }
        i = i + 1;
    }
    proof {
        assert(all.take(last as int) =~= all.drop_last());
        assert(all.last() == pieces@[last as int]@);
    }
    if pieces[last].len() > 0 && !comment_line(pieces[last].as_slice(), prefixes) {
        push_chars(&mut out, pieces[last].as_slice());
    }
    string_of(out.as_slice())
}

/// Whether a line counts when the delimiter is guessed: blank lines and comments do not.
pub open spec fn counts_for_delimiter(line: Seq<char>) -> bool {
    text::trimmed(line).len() > 0 && text::trimmed(line)[0] != '#'
}

/// How many lines are looked at when the delimiter is guessed.
pub const DELIMITER_SAMPLE_LINES: usize = 50;

/// The first lines that count when the delimiter is guessed.
pub open spec fn sample_lines(lines: Seq<Seq<char>>) -> Seq<Seq<char>>
    decreases lines.len(),
{
    if lines.len() == 0 {
        Seq::empty()
    } else {
        let before = sample_lines(lines.drop_last());
        if before.len() < DELIMITER_SAMPLE_LINES && counts_for_delimiter(lines.last()) {
            before.push(lines.last())
        } else {
            before
        }
    }
}

/// How many rows have the given number of fields.
pub open spec fn rows_with(rows: Seq<Seq<Seq<char>>>, fields: nat) -> nat
    decreases rows.len(),
{
    if rows.len() == 0 {
        0
    } else {
        rows_with(rows.drop_last(), fields) + if rows.last().len() == fields {
            1nat
        } else {
            0nat
        }
    }
}

/// How consistently a delimiter divides a sample: the number of rows as wide as the first one,
/// times that width. One row, or a first row with one field, shows nothing.
pub open spec fn delimiter_score(sample: Seq<char>, delimiter: char) -> nat {
    let rows = rows_of(sample, delimiter);
    if rows.len() < 2 || rows[0].len() <= 1 {
        0
    } else {
        rows_with(rows, rows[0].len()) * rows[0].len()
    }
}

/// The better of the best delimiter so far and another one; the earlier one wins a tie.
pub open spec fn better(best: (char, nat), sample: Seq<char>, delimiter: char) -> (char, nat) {
    if delimiter_score(sample, delimiter) > best.1 {
        (delimiter, delimiter_score(sample, delimiter))
    } else {
        best
    }
}

/// The delimiter that divides the first lines of a text most consistently; a comma if none does.
pub open spec fn likely_delimiter(s: Seq<char>) -> char {
    let sample = text::join(sample_lines(text::lines_of(s)), "\n"@);
    better(better(better(better((',', 0), sample, ','), sample, '\t'), sample, '|'), sample, ';').0
}

fn score_delimiter(sample: &[char], delimiter: char) -> (r: u128)
    ensures
        r == delimiter_score(sample@, delimiter),
{
    let rows = read_rows(sample, delimiter);
    let ghost all = buffers(rows@);
    if rows.len() < 2 || rows[0].len() <= 1 {
        return 0;
    }
    let first: usize = rows[0].len();
    let mut count: usize = 0;
    let mut i: usize = 0;
    while i < rows.len()
        invariant
            i <= rows.len(),
            all == buffers(rows@),
            count <= i,
            count == rows_with(all.take(i as int), first as nat),
        decreases rows.len() - i,
    {
        proof {
            assert(all.take(i + 1).drop_last() =~= all.take(i as int));
            assert(all.take(i + 1).last().len() == rows@[i as int]@.len());
        }
        if rows[i].len() == first {
            count = count + 1;
        }
        i = i + 1;
    }
    proof {
        assert(all.take(all.len() as int) =~= all);
        assert(count as u128 * first as u128 <= 0xffff_ffff_ffff_ffff * 0xffff_ffff_ffff_ffff) by (nonlinear_arith)
            requires
                0 <= count <= 0xffff_ffff_ffff_ffff,
                0 <= first <= 0xffff_ffff_ffff_ffff,
        ;
    }
    count as u128 * first as u128
}

/// Guesses the delimiter of a text.
pub fn detect_delimiter(text: &str) -> (r: char)
    ensures
        r == likely_delimiter(text@),
{
    let all = lines(chars_of(text).as_slice());
    let ghost every = text::lines_of(text@);
    let mut sampled: Vec<Vec<char>> = Vec::new();
    let mut i: usize = 0;
    proof {
        assert(text::texts(sampled@) =~= sample_lines(every.take(0)));
    }
    while i < all.len()
        invariant
            i <= all.len(),
            text::texts(all@) == every,
            text::texts(sampled@) == sample_lines(every.take(i as int)),
        decreases all.len() - i,
    {
        proof {
            assert(every.take(i + 1).drop_last() =~= every.take(i as int));
            assert(every.take(i + 1).last() == all@[i as int]@);
        }
        let trimmed = trim(all[i].as_slice());
        if sampled.len() < DELIMITER_SAMPLE_LINES && trimmed.len() > 0 && trimmed[0] != '#' {
            let mut line: Vec<char> = Vec::new();
            push_chars(&mut line, all[i].as_slice());
            let ghost before = sampled@;
            proof {
                assert(line@ =~= all@[i as int]@);
            }
            sampled.push(line);
            proof {
                assert(text::texts(sampled@) =~= text::texts(before).push(line@));
            }
        }
        i = i + 1;
    }
    let newline: [char; 1] = ['\n'];
    proof {
        assert(every.take(every.len() as int) =~= every);
        reveal_strlit("\n");
        assert(newline@ =~= "\n"@);
    }
    let sample = join_chars(sampled.as_slice(), newline.as_slice());
    let commas = score_delimiter(sample.as_slice(), ',');
    let tabs = score_delimiter(sample.as_slice(), '\t');
    let pipes = score_delimiter(sample.as_slice(), '|');
    let semicolons = score_delimiter(sample.as_slice(), ';');
    let mut best = ',';
    let mut score: u128 = commas;
    if tabs > score {
        best = '\t';
        score = tabs;
    }
    if pipes > score {
        best = '|';
        score = pipes;
    }
    if semicolons > score {
        best = ';';
    }
    best
}

/// Whether bytes decode under a label without any replacement.
pub open spec fn decodes_cleanly(label: Seq<char>, bytes: Seq<u8>) -> bool {
    encoding::decoding(label, bytes) matches Some((_, had_errors)) && !had_errors
}

/// The text that bytes decode to under a label.
pub open spec fn decoded_as(label: Seq<char>, bytes: Seq<u8>) -> Seq<char> {
    match encoding::decoding(label, bytes) {
        Some((text, _)) => text,
        None => Seq::empty(),
    }
}

/// The text of bytes that are no UTF-8: the first of several legacy encodings under which they
/// decode cleanly decides, else the first of them.
pub open spec fn legacy_text(bytes: Seq<u8>) -> Seq<char> {
    if decodes_cleanly("shift_jis"@, bytes) {
        decoded_as("shift_jis"@, bytes)
    } else
    if decodes_cleanly("windows-31j"@, bytes) {
        decoded_as("windows-31j"@, bytes)
    } else
    if decodes_cleanly("gb18030"@, bytes) {
        decoded_as("gb18030"@, bytes)
    } else
    if decodes_cleanly("big5"@, bytes) {
        decoded_as("big5"@, bytes)
    } else
    if decodes_cleanly("windows-1252"@, bytes) {
        decoded_as("windows-1252"@, bytes)
    } else
    if decodes_cleanly("iso-8859-1"@, bytes) {
        decoded_as("iso-8859-1"@, bytes)
    } else {
        decoded_as("shift_jis"@, bytes)
    }
}

/// A text without a byte order mark before it.
pub open spec fn without_mark(s: Seq<char>) -> Seq<char> {
    if s.len() > 0 && s[0] == '\u{feff}' {
        s.skip(1)
    } else {
        s
    }
}

/// The text of the bytes of a file.
pub open spec fn file_text(bytes: Seq<u8>) -> Seq<char> {
    if vstd::utf8::valid_utf8(bytes) {
        without_mark(vstd::utf8::decode_utf8(bytes))
    } else {
        legacy_text(bytes)
    }
}

/// Decodes bytes that are no UTF-8.
pub fn decode_csv_bytes_fallback(content: &[u8]) -> (r: String)
    requires
        content@.len() <= usize::MAX / 16,
    ensures
        r@ == legacy_text(content@),
{
    if let Some((text, had_errors)) = decode_labelled("shift_jis", content) {
        if !had_errors {
            return text;
        }
    }
    if let Some((text, had_errors)) = decode_labelled("windows-31j", content) {
        if !had_errors {
            return text;
        }
    }
    if let Some((text, had_errors)) = decode_labelled("gb18030", content) {
        if !had_errors {
            return text;
        }
    }
    if let Some((text, had_errors)) = decode_labelled("big5", content) {
        if !had_errors {
            return text;
        }
    }
    if let Some((text, had_errors)) = decode_labelled("windows-1252", content) {
        if !had_errors {
            return text;
        }
    }
    if let Some((text, had_errors)) = decode_labelled("iso-8859-1", content) {
        if !had_errors {
            return text;
        }
    }
    match decode_labelled("shift_jis", content) {
        Some((text, _)) => text,
        None => String::new(),
    }
}

/// Decodes the bytes of a file.
pub fn decode_csv_bytes(content: &[u8]) -> (r: String)
    requires
        content@.len() <= usize::MAX / 16,
    ensures
        r@ == file_text(content@),
{
    match utf8_text(content) {
        Some(text) => {
            let letters = chars_of(text.as_str());
            if letters.len() > 0 && letters[0] == '\u{feff}' {
                proof {
                    assert(letters@.subrange(1, letters@.len() as int) =~= letters@.skip(1));
                }
                string_of(slice_subrange(letters.as_slice(), 1, letters.len()))
            } else {
                text
            }
        },
        None => decode_csv_bytes_fallback(content),
    }
}

/// The fields of a row charged to a budget, up to the first one that is past a ceiling.
pub open spec fn cells_charged(budget: SecurityBudget, cells: Seq<Seq<char>>) -> (
    SecurityBudget,
    Result<(), SecurityError>,
)
    decreases cells.len(),
{
    if cells.len() == 0 {
        (budget, Ok(()))
    } else {
        let before = cells_charged(budget, cells.drop_last());
        if before.1 is Err {
            before
        } else if before.0.entity.verdict(cells.last()) is Err {
            (before.0, before.0.entity.verdict(cells.last()))
        } else {
            before.0.spec_account_text(text::byte_len(cells.last()) as int)
        }
    }
}

/// One row charged to a budget: a turn, its number of cells, then the cells.
pub open spec fn row_charged(budget: SecurityBudget, row: Seq<Seq<char>>) -> (
    SecurityBudget,
    Result<(), SecurityError>,
) {
    let stepped = budget.spec_step();
    if stepped.1 is Err {
        stepped
    } else {
        let added = stepped.0.spec_add_cells(row.len() as int);
        if added.1 is Err {
            added
        } else {
            cells_charged(added.0, row)
        }
    }
}

/// Rows charged to a budget, up to the first one that is past a ceiling.
pub open spec fn rows_charged(budget: SecurityBudget, rows: Seq<Seq<Seq<char>>>) -> (
    SecurityBudget,
    Result<(), SecurityError>,
)
    decreases rows.len(),
{
    if rows.len() == 0 {
        (budget, Ok(()))
    } else {
        let before = rows_charged(budget, rows.drop_last());
        if before.1 is Err {
            before
        } else {
            row_charged(before.0, rows.last())
        }
    }
}

/// A charge that failed early fails as a whole, in the same way.
proof fn lemma_cells_charge_stays(budget: SecurityBudget, cells: Seq<Seq<char>>, n: int)
    requires
        0 <= n <= cells.len(),
        cells_charged(budget, cells.take(n)).1 is Err,
    ensures
        cells_charged(budget, cells) == cells_charged(budget, cells.take(n)),
    decreases cells.len() - n,
{
    if n == cells.len() {
        assert(cells.take(n) =~= cells);
    } else {
        assert(cells.take(n + 1).drop_last() =~= cells.take(n));
        lemma_cells_charge_stays(budget, cells, n + 1);
    }
}

/// A charge that failed early fails as a whole, in the same way.
proof fn lemma_rows_charge_stays(budget: SecurityBudget, rows: Seq<Seq<Seq<char>>>, n: int)
    requires
        0 <= n <= rows.len(),
        rows_charged(budget, rows.take(n)).1 is Err,
    ensures
        rows_charged(budget, rows) == rows_charged(budget, rows.take(n)),
    decreases rows.len() - n,
{
    if n == rows.len() {
        assert(rows.take(n) =~= rows);
    } else {
        assert(rows.take(n + 1).drop_last() =~= rows.take(n));
        lemma_rows_charge_stays(budget, rows, n + 1);
    }
}

/// Charges one row to a budget.
fn charge_row(row: &[String], budget: &mut SecurityBudget) -> (r: Result<(), SecurityError>)
    ensures
        (*final(budget), r) == row_charged(*old(budget), text::strings(row@)),
{
    let ghost cells = text::strings(row@);
    match budget.step() {
        Ok(()) => {},
        Err(error) => {
            return Err(error);
        },
    }
    match budget.add_cells(row.len()) {
        Ok(()) => {},
        Err(error) => {
            return Err(error);
        },
    }
    let ghost base = *budget;
    let mut j: usize = 0;
    while j < row.len()
        invariant
            j <= row.len(),
            cells == text::strings(row@),
            (*budget, Ok::<(), SecurityError>(())) == cells_charged(base, cells.take(j as int)),
            row_charged(*old(budget), cells) == cells_charged(base, cells),
        decreases row.len() - j,
    {
        proof {
            assert(cells.take(j + 1).drop_last() =~= cells.take(j as int));
            assert(cells.take(j + 1).last() == row@[j as int]@);
        }
        match budget.check_entity(row[j].as_str()) {
            Ok(()) => {},
            Err(error) => {
                proof {
                    lemma_cells_charge_stays(base, cells, j + 1);
                }
                return Err(error);
            },
        }
        match budget.account_text(str_byte_len(row[j].as_str())) {
            Ok(()) => {},
            Err(error) => {
                proof {
                    lemma_cells_charge_stays(base, cells, j + 1);
                }
                return Err(error);
            },
        }
        j = j + 1;
    }
    proof {
        assert(cells.take(cells.len() as int) =~= cells);
    }
    Ok(())
}

/// Charges rows to a budget.
fn charge_rows(rows: &[Vec<String>], budget: &mut SecurityBudget) -> (r: Result<(), SecurityError>)
    ensures
        (*final(budget), r) == rows_charged(*old(budget), document::grid(rows@)),
{
    let ghost all = document::grid(rows@);
    let ghost base = *budget;
    let mut i: usize = 0;
    while i < rows.len()
        invariant
            i <= rows.len(),
            all == document::grid(rows@),
            base == *old(budget),
            (*budget, Ok::<(), SecurityError>(())) == rows_charged(base, all.take(i as int)),
        decreases rows.len() - i,
    {
        proof {
            assert(all.take(i + 1).drop_last() =~= all.take(i as int));
            assert(all.take(i + 1).last() == text::strings(rows@[i as int]@));
        }
        match charge_row(rows[i].as_slice(), budget) {
            Ok(()) => {},
            Err(error) => {
                proof {
                    lemma_rows_charge_stays(base, all, i + 1);
                }
                return Err(error);
            },
        }
        i = i + 1;
    }
    proof {
        assert(all.take(all.len() as int) =~= all);
    }
    Ok(())
}

/// The comment prefixes that are configured.
pub open spec fn comment_prefixes(config: ExtractionConfig) -> Seq<Seq<char>> {
    match config.csv {
        Some(options) => text::strings(options.comment_prefixes@),
        None => Seq::empty(),
    }
}

/// The delimiter that is configured.
pub open spec fn configured_delimiter(config: ExtractionConfig) -> Option<char> {
    match config.csv {
        Some(options) => match options.delimiter {
            Some(delimiter) => if delimiter@.len() > 0 {
                Some(delimiter@[0])
            } else {
                None
            },
            None => None,
        },
        None => None,
    }
}

/// The text of a file without its comments.
pub open spec fn data_text(content: Seq<u8>, config: ExtractionConfig) -> Seq<char> {
    without_comments(file_text(content), comment_prefixes(config))
}

/// The delimiter of a file: a tab for tab-separated values, else the configured one, else the
/// likely one.
pub open spec fn file_delimiter(content: Seq<u8>, mime_type: Seq<char>, config: ExtractionConfig) -> char {
    if mime_type == "text/tab-separated-values"@ {
        '\t'
    } else if configured_delimiter(config) is Some {
        configured_delimiter(config)->0
    } else {
        likely_delimiter(data_text(content, config))
    }
}

/// The rows of a file.
pub open spec fn file_rows(content: Seq<u8>, mime_type: Seq<char>, config: ExtractionConfig) -> Seq<
    Seq<Seq<char>>,
> {
    rows_of(data_text(content, config), file_delimiter(content, mime_type, config))
}

/// Reads the rows of a file and charges them to a budget.
pub fn parse_budgeted_csv(
    content: &[u8],
    mime_type: &str,
    config: &ExtractionConfig,
    budget: &mut SecurityBudget,
) -> (r: Result<(Vec<Vec<String>>, char), XbergError>)
    requires
        content@.len() <= usize::MAX / 16,
    ensures
        ({
            let charged = rows_charged(*old(budget), file_rows(content@, mime_type@, *config));
            &&& *final(budget) == charged.0
            &&& match charged.1 {
                Ok(()) => r is Ok && document::grid(r->Ok_0.0@) == file_rows(content@, mime_type@, *config)
                    && r->Ok_0.1 == file_delimiter(content@, mime_type@, *config),
                Err(limit) => r is Err && error::reports(r->Err_0, limit),
            }
        }),
{
    let decoded = decode_csv_bytes(content);
    let filtered: String = match &config.csv {
        Some(options) => strip_comment_lines(decoded.as_str(), options.comment_prefixes.as_slice()),
        None => decoded,
    };
    let mut configured: Option<char> = None;
    if let Some(options) = &config.csv {
        if let Some(delimiter) = &options.delimiter {
            let letters = chars_of(delimiter.as_str());
            if letters.len() > 0 {
                configured = Some(letters[0]);
            }
        }
    }
    let delimiter = if is_str(chars_of(mime_type).as_slice(), "text/tab-separated-values") {
        '\t'
    } else {
        match configured {
            Some(delimiter) => delimiter,
            None => detect_delimiter(filtered.as_str()),
        }
    };
    let rows = parse_csv(filtered.as_str(), delimiter);
    match charge_rows(rows.as_slice(), budget) {
        Ok(()) => Ok((rows, delimiter)),
        Err(limit) => Err(security_error(limit)),
    }
}

/// What a file says of itself, given its rows and its delimiter.
pub open spec fn describes(meta: CsvMetadata, rows: Seq<Seq<Seq<char>>>, delimiter: char) -> bool {
    let has_header = first_row_is_header(rows);
    &&& meta.row_count == rows.len() as u32
    &&& meta.column_count == widest(rows) as u32
    &&& document::opt_text(meta.delimiter) == if delimiter != ',' {
        Some(seq![delimiter])
    } else {
        None
    }
    &&& meta.has_header == has_header
    &&& document::opt_texts(meta.column_types) == if widest(rows) == 0 {
        None
    } else {
        Some(column_types(rows, has_header))
    }
}

/// The table of a file, given its rows.
pub open spec fn table_of(rows: Seq<Seq<Seq<char>>>) -> document::TableData {
    document::TableData {
        cells: rows,
        markdown: markdown_table(rows, first_row_is_header(rows)),
        page_number: 1,
        columns: if first_row_is_header(rows) {
            Some(rows[0])
        } else {
            None
        },
    }
}

fn copy_row(row: &[String]) -> (r: Vec<String>)
    ensures
        text::strings(r@) == text::strings(row@),
{
    let ghost all = text::strings(row@);
    let mut out: Vec<String> = Vec::new();
    let mut i: usize = 0;
    while i < row.len()
        invariant
            i <= row.len(),
            all == text::strings(row@),
            text::strings(out@) == all.take(i as int),
        decreases row.len() - i,
    {
        let ghost before = out@;
        out.push(row[i].clone());
        proof {
            assert(text::strings(out@) =~= text::strings(before).push(row@[i as int]@));
            assert(all.take(i + 1) =~= all.take(i as int).push(row@[i as int]@));
        }
        i = i + 1;
    }
    proof {
        assert(all.take(all.len() as int) =~= all);
    }
    out
}

/// The table of a file and what it says of itself.
pub fn build_csv_table_and_metadata(rows: Vec<Vec<String>>, delimiter: char) -> (r: (Table, CsvMetadata))
    ensures
        r.0@ == table_of(document::grid(rows@)),
        describes(r.1, document::grid(rows@), delimiter),
{
    let ghost all = document::grid(rows@);
    let row_count: u32 = truncate_u32(rows.len());
    let column_count: u32 = truncate_u32(self::column_count(rows.as_slice()));
    let has_header = detect_header(rows.as_slice());
    let types = infer_column_types(rows.as_slice(), has_header);
    let markdown = build_markdown_table(rows.as_slice(), has_header);
    let columns: Option<Vec<String>> = if has_header {
        proof {
            assert(all[0] == text::strings(rows@[0]@));
        }
        Some(copy_row(rows[0].as_slice()))
    } else {
        None
    };
    let delimiter_text: Option<String> = if delimiter != ',' {
        let mut out = String::new();
        out.push(delimiter);
        proof {
            assert(out@ =~= seq![delimiter]);
        }
        Some(out)
    } else {
        None
    };
    proof {
        assert(text::strings(types@).len() == types@.len());
    }
    let meta = CsvMetadata {
        row_count,
        column_count,
        delimiter: delimiter_text,
        has_header,
        column_types: if types.len() == 0 { None } else { Some(types) },
    };
    (Table { cells: rows, markdown, page_number: 1, columns }, meta)
}

/// Whether a cell would break a line of the Markdown table that shows it.
pub open spec fn breaks_table(cell: Seq<char>) -> bool {
    cell.contains('|') || cell.contains('\n')
}

/// Whether any cell would break the Markdown table that shows it.
pub open spec fn any_breaks_table(rows: Seq<Seq<Seq<char>>>) -> bool {
    exists|i: int, j: int| 0 <= i < rows.len() && 0 <= j < rows[i].len() && breaks_table(#[trigger] rows[i][j])
}

fn warns(rows: &[Vec<String>]) -> (r: bool)
    ensures
        r == any_breaks_table(document::grid(rows@)),
{
    let ghost all = document::grid(rows@);
    let mut i: usize = 0;
    while i < rows.len()
        invariant
            i <= rows.len(),
            all == document::grid(rows@),
            forall|k: int, j: int| 0 <= k < i && 0 <= j < all[k].len() ==> !breaks_table(#[trigger] all[k][j]),
        decreases rows.len() - i,
    {
        let row = &rows[i];
        let mut j: usize = 0;
        while j < row.len()
            invariant
                i < rows.len(),
                j <= row.len(),
                row@ == rows@[i as int]@,
                all == document::grid(rows@),
                forall|m: int| 0 <= m < j ==> !breaks_table(#[trigger] all[i as int][m]),
            decreases row.len() - j,
        {
            let letters = chars_of(row[j].as_str());
            proof {
                assert(all[i as int][j as int] == row@[j as int]@);
            }
            if contains_char(letters.as_slice(), '|') || contains_char(letters.as_slice(), '\n') {
                return true;
            }
            j = j + 1;
        }
        i = i + 1;
    }
    false
}

/// The warning about cells that break the Markdown table.
pub open spec fn table_warning() -> Seq<char> {
    "A cell contains a '|' or newline character, which is not escaped in the generated Markdown table; the rendered table may have misaligned or split columns even though the underlying cell data is intact"@
}

/// The document of a file with the given rows: one table, whose element carries the plain text.
pub open spec fn csv_content(rows: Seq<Seq<Seq<char>>>, mime_type: Seq<char>) -> document::Content {
    let start = document::empty_content("csv"@);
    let warned = if any_breaks_table(rows) {
        start.with_warning("csv"@, table_warning())
    } else {
        start
    };
    document::Content { mime_type, ..warned.with_table(table_of(rows), plain_text(rows), None) }
}

/// Reader of delimited text.
#[derive(Clone, Copy, Debug)]
pub struct CsvExtractor;

impl Default for CsvExtractor {
    fn default() -> (r: Self)
        ensures
            r == CsvExtractor,
    {
        CsvExtractor::new()
    }
}

impl CsvExtractor {
    /// The reader.
    pub fn new() -> (r: Self)
        ensures
            r == CsvExtractor,
    {
        CsvExtractor
    }

    /// Its name.
    pub fn name(&self) -> (r: &'static str)
        ensures
            r@ == "csv-extractor"@,
    {
        "csv-extractor"
    }

    /// Its version, which is that of the package.
    pub fn version(&self) -> (r: String)
        ensures
            r@ == "1.0.0"@,
    {
        package_version()
    }

    /// Makes it ready; there is nothing to do.
    pub fn initialize(&self) -> (r: Result<(), XbergError>)
        ensures
            r == (Ok::<(), XbergError>(())),
    {
        Ok(())
    }

    /// Lays it down; there is nothing to do.
    pub fn shutdown(&self) -> (r: Result<(), XbergError>)
        ensures
            r == (Ok::<(), XbergError>(())),
    {
        Ok(())
    }

    /// What it does.
    pub fn description(&self) -> (r: &'static str)
        ensures
            r@ == "CSV/TSV text extraction with table structure"@,
    {
        "CSV/TSV text extraction with table structure"
    }

    /// Who wrote it.
    pub fn author(&self) -> (r: &'static str)
        ensures
            r@ == "Xberg Team"@,
    {
        "Xberg Team"
    }

    /// The media types that it reads.
    pub fn supported_mime_types(&self) -> (r: Vec<&'static str>)
        ensures
            r@ == seq![
                "text/csv",
                "text/tab-separated-values",
            ],
    {
        vec![
            "text/csv",
            "text/tab-separated-values",
        ]
    }

    /// Its rank among the readers of a media type.
    pub fn priority(&self) -> (r: i32)
        ensures
            r == 60,
    {
        60
    }
}

impl CsvExtractor {
    /// Reads a file.
    pub fn extract_content(&self, content: &[u8], mime_type: &str, config: &ExtractionConfig) -> (r: Result<
        InternalDocument,
        XbergError,
    >)
        requires
            content@.len() <= usize::MAX / 16,
        ensures
            ({
                let rows = file_rows(content@, mime_type@, *config);
                match rows_charged(security::configured_budget(*config), rows).1 {
                    Ok(()) => {
                        &&& r matches Ok(doc)
                        &&& doc@ == csv_content(rows, mime_type@)
                        &&& doc.metadata.format matches Some(FormatMetadata::Csv(meta))
                        &&& describes(meta, rows, file_delimiter(content@, mime_type@, *config))
                        &&& document::is_blank_metadata(Metadata { format: None, ..doc.metadata })
                    },
                    Err(limit) => r is Err && error::reports(r->Err_0, limit),
                }
            }),
    {
        let mut budget = SecurityBudget::from_config(config);
        let (rows, delimiter) = match parse_budgeted_csv(content, mime_type, config, &mut budget) {
            Ok(found) => found,
            Err(error) => {
                return Err(error);
            },
        };
        let mut doc = InternalDocument::new("csv");
        if warns(rows.as_slice()) {
            doc.add_warning(
                "csv",
                "A cell contains a '|' or newline character, which is not escaped in the generated Markdown table; the rendered table may have misaligned or split columns even though the underlying cell data is intact".to_owned(),
            );
        }
        let plain = render_plain_text(rows.as_slice());
        let (table, meta) = build_csv_table_and_metadata(rows, delimiter);
        doc.push_table(table, plain, None);
        doc.mime_type = mime_type.to_owned();
        doc.metadata.format = Some(FormatMetadata::Csv(meta));
        Ok(doc)
    }
}

} // verus!
