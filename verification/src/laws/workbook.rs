//! Laws of the headings and the warnings of workbooks.
use crate::excel;
use crate::excel::SheetData;
use crate::text;
use vstd::prelude::*;

verus! {

/// A text without the backslashes that set characters apart.
pub open spec fn unescaped(s: Seq<char>) -> Seq<char>
    decreases s.len(),
{
    if s.len() == 0 {
        Seq::empty()
    } else if s[0] == '\\' && s.len() > 1 {
        seq![s[1]] + unescaped(s.skip(2))
    } else {
        seq![s[0]] + unescaped(s.skip(1))
    }
}

/// The escaped characters from a position on.
spec fn escaped_rest(s: Seq<char>, n: int) -> Seq<char>
    decreases s.len() - n,
{
    if n < 0 || n >= s.len() {
        Seq::empty()
    } else if excel::is_inline_mark(s[n]) || (n == 0 && excel::is_leading_mark(s[0])) {
        seq!['\\', s[n]] + escaped_rest(s, n + 1)
    } else {
        seq![s[n]] + escaped_rest(s, n + 1)
    }
}

proof fn lemma_escaped_in_parts(s: Seq<char>, n: int)
    requires
        0 <= n <= s.len(),
    ensures
        excel::escaped_prefix(s, n) + escaped_rest(s, n) == escaped_rest(s, 0),
    decreases n,
{
    if n == 0 {
        assert(excel::escaped_prefix(s, 0) + escaped_rest(s, 0) =~= escaped_rest(s, 0));
    } else {
        lemma_escaped_in_parts(s, n - 1);
        assert(excel::escaped_prefix(s, n) + escaped_rest(s, n) =~= excel::escaped_prefix(s, n - 1) + escaped_rest(
            s,
            n - 1,
        ));
    }
}

proof fn lemma_unescaped(s: Seq<char>, n: int)
    requires
        0 <= n <= s.len(),
    ensures
        unescaped(escaped_rest(s, n)) == s.skip(n),
    decreases s.len() - n,
{
    if n < s.len() {
        lemma_unescaped(s, n + 1);
        let rest = escaped_rest(s, n + 1);
        let t = escaped_rest(s, n);
        if excel::is_inline_mark(s[n]) || (n == 0 && excel::is_leading_mark(s[0])) {
            assert(t.skip(2) =~= rest);
        } else {
            assert(t.skip(1) =~= rest);
        }
        assert(seq![s[n]] + s.skip(n + 1) =~= s.skip(n));
    } else {
        assert(s.skip(n) =~= Seq::empty());
    }
}

/// The name of a sheet in a heading says what the name says, without the white space before it.
pub proof fn law_heading_says_the_name(name: Seq<char>)
    ensures
        unescaped(excel::heading_text(name)) == text::trimmed_start(name),
{
    let s = text::trimmed_start(name);
    lemma_escaped_in_parts(s, s.len() as int);
    lemma_unescaped(s, 0);
    assert(escaped_rest(s, s.len() as int) =~= Seq::empty());
    assert(excel::escaped_prefix(s, s.len() as int) + Seq::<char>::empty() =~= excel::escaped_prefix(s, s.len() as int));
    assert(s.skip(0) =~= s);
}

/// A name without characters that mean something in Markdown is its own heading.
pub proof fn law_plain_names_are_not_escaped(name: Seq<char>)
    requires
        forall|k: int| 0 <= k < name.len() ==> text::is_letter(#[trigger] name[k]) || text::is_digit(name[k]),
    ensures
        excel::heading_text(name) == name,
{
    if name.len() > 0 {
        assert(!text::is_white(name[0]));
    }
    assert(text::trimmed_start(name) == name);
    lemma_plain_prefix(name, name.len() as int);
    assert(name.take(name.len() as int) =~= name);
}

proof fn lemma_plain_prefix(s: Seq<char>, n: int)
    requires
        0 <= n <= s.len(),
        forall|k: int| 0 <= k < s.len() ==> text::is_letter(#[trigger] s[k]) || text::is_digit(s[k]),
    ensures
        excel::escaped_prefix(s, n) == s.take(n),
    decreases n,
{
    if n > 0 {
        lemma_plain_prefix(s, n - 1);
        assert(!excel::is_inline_mark(s[n - 1]) && !excel::is_leading_mark(s[n - 1]));
        assert(s.take(n - 1).push(s[n - 1]) =~= s.take(n));
    } else {
        assert(s.take(n) =~= Seq::empty());
    }
}

/// What a warning about a cell says of where it stands; rows and columns are counted from one.
pub open spec fn names_cell(warning: (Seq<char>, Seq<char>), sheet: Seq<char>, row: int, column: int) -> bool {
    let place = "Cell ["@ + sheet + "!R"@ + text::decimal((row + 1) as nat) + "C"@ + text::decimal((column + 1) as nat)
        + "] contains a "@;
    warning.0 == "excel_dde_scan"@ && place.len() <= warning.1.len() && warning.1.take(place.len() as int) == place
}

/// Whether some warnings name a cell.
pub open spec fn name_cell(found: Seq<(Seq<char>, Seq<char>)>, sheet: Seq<char>, row: int, column: int) -> bool {
    exists|k: int| 0 <= k < found.len() && names_cell(#[trigger] found[k], sheet, row, column)
}

/// Whether warnings go on with others.
spec fn goes_on(a: Seq<(Seq<char>, Seq<char>)>, b: Seq<(Seq<char>, Seq<char>)>) -> bool {
    a.len() <= b.len() && b.take(a.len() as int) == a
}

proof fn lemma_goes_on(
    a: Seq<(Seq<char>, Seq<char>)>,
    b: Seq<(Seq<char>, Seq<char>)>,
    c: Seq<(Seq<char>, Seq<char>)>,
    sheet: Seq<char>,
    row: int,
    column: int,
)
    requires
        goes_on(a, b),
        goes_on(b, c),
    ensures
        goes_on(a, c),
        name_cell(b, sheet, row, column) ==> name_cell(c, sheet, row, column),
{
    assert(c.take(a.len() as int) =~= b.take(a.len() as int)) by {
        assert forall|k: int| 0 <= k < a.len() implies c[k] == b[k] by {
            assert(c.take(b.len() as int)[k] == b[k]);
        }
    }
    if name_cell(b, sheet, row, column) {
        let k = choose|k: int| 0 <= k < b.len() && names_cell(#[trigger] b[k], sheet, row, column);
        assert(c.take(b.len() as int)[k] == c[k]);
        assert(names_cell(c[k], sheet, row, column));
    }
}

proof fn lemma_row_warns(
    found: Seq<(Seq<char>, Seq<char>)>,
    sheet: Seq<char>,
    row: int,
    cells: Seq<Seq<char>>,
    n: int,
    column: int,
)
    requires
        0 <= n <= cells.len(),
    ensures
        goes_on(found, excel::row_warnings(found, sheet, row, cells, n)),
        0 <= column < n && excel::reaches_outside(cells[column]) && excel::row_warnings(found, sheet, row, cells, n).len()
            < excel::MAX_DDE_WARNINGS ==> name_cell(
            excel::row_warnings(found, sheet, row, cells, n),
            sheet,
            row,
            column,
        ),
    decreases n,
{
    let after = excel::row_warnings(found, sheet, row, cells, n);
    if n <= 0 {
        assert(after.take(found.len() as int) =~= found);
    } else {
        let before = excel::row_warnings(found, sheet, row, cells, n - 1);
        lemma_row_warns(found, sheet, row, cells, n - 1, column);
        assert(after.take(before.len() as int) =~= before);
        lemma_goes_on(found, before, after, sheet, row, column);
        if column == n - 1 && excel::reaches_outside(cells[column]) && after.len() < excel::MAX_DDE_WARNINGS {
            let warning = excel::formula_warning(sheet, row, column, cells[column]);
            let place = "Cell ["@ + sheet + "!R"@ + text::decimal((row + 1) as nat) + "C"@ + text::decimal(
                (column + 1) as nat,
            ) + "] contains a "@;
            assert(warning.1.take(place.len() as int) =~= place);
            assert(after[after.len() - 1] == warning);
            assert(names_cell(after[after.len() - 1], sheet, row, column));
        }
    }
}

proof fn lemma_sheet_warns(
    found: Seq<(Seq<char>, Seq<char>)>,
    sheet: Seq<char>,
    rows: Seq<Seq<Seq<char>>>,
    n: int,
    row: int,
    column: int,
)
    requires
        0 <= n <= rows.len(),
    ensures
        goes_on(found, excel::sheet_warnings(found, sheet, rows, n)),
        0 <= row < n && 0 <= column < rows[row].len() && excel::reaches_outside(rows[row][column])
            && excel::sheet_warnings(found, sheet, rows, n).len() < excel::MAX_DDE_WARNINGS ==> name_cell(
            excel::sheet_warnings(found, sheet, rows, n),
            sheet,
            row,
            column,
        ),
    decreases n,
{
    let after = excel::sheet_warnings(found, sheet, rows, n);
    if n <= 0 {
        assert(after.take(found.len() as int) =~= found);
    } else {
        let before = excel::sheet_warnings(found, sheet, rows, n - 1);
        lemma_sheet_warns(found, sheet, rows, n - 1, row, column);
        lemma_row_warns(before, sheet, n - 1, rows[n - 1], rows[n - 1].len() as int, column);
        lemma_goes_on(found, before, after, sheet, row, column);
    }
}

proof fn lemma_book_warns(book: Seq<SheetData>, n: int, i: int, row: int, column: int)
    requires
        0 <= i < n <= book.len(),
        book[i].cells is Some,
        0 <= row < book[i].cells->0.len(),
        0 <= column < book[i].cells->0[row].len(),
        excel::reaches_outside(book[i].cells->0[row][column]),
        excel::book_warnings(book, n).len() < excel::MAX_DDE_WARNINGS,
    ensures
        name_cell(excel::book_warnings(book, n), book[i].name, row, column),
    decreases n,
{
    let before = excel::book_warnings(book, n - 1);
    let after = excel::book_warnings(book, n);
    if let Some(rows) = book[n - 1].cells {
        lemma_sheet_warns(before, book[n - 1].name, rows, rows.len() as int, row, column);
        assert(before.take(before.len() as int) =~= before);
        lemma_goes_on(before, before, after, book[i].name, row, column);
    }
    if i < n - 1 {
        lemma_book_warns(book, n - 1, i, row, column);
    }
}

/// Every cell with a formula that may reach outside the workbook is warned of, with its sheet, its row and its column,
/// unless there are as many warnings as a workbook gets.
pub proof fn law_every_reaching_formula_is_warned_of(book: Seq<SheetData>, i: int, row: int, column: int)
    requires
        0 <= i < book.len(),
        book[i].cells is Some,
        0 <= row < book[i].cells->0.len(),
        0 <= column < book[i].cells->0[row].len(),
        excel::reaches_outside(book[i].cells->0[row][column]),
    ensures
        excel::book_warnings(book, book.len() as int).len() >= excel::MAX_DDE_WARNINGS || name_cell(
            excel::book_warnings(book, book.len() as int),
            book[i].name,
            row,
            column,
        ),
{
    if excel::book_warnings(book, book.len() as int).len() < excel::MAX_DDE_WARNINGS {
        lemma_book_warns(book, book.len() as int, i, row, column);
    }
}

/// A workbook without such a formula is not warned of.
pub proof fn law_harmless_workbooks_are_not_warned_of(book: Seq<SheetData>, n: int)
    requires
        0 <= n <= book.len(),
        forall|i: int, row: int, column: int|
            0 <= i < n && book[i].cells is Some && 0 <= row < book[i].cells->0.len() && 0 <= column
                < book[i].cells->0[row].len() ==> !excel::reaches_outside(#[trigger] book[i].cells->0[row][column]),
    ensures
        excel::book_warnings(book, n).len() == 0,
    decreases n,
{
    if n > 0 {
        law_harmless_workbooks_are_not_warned_of(book, n - 1);
        if let Some(rows) = book[n - 1].cells {
            assert(rows == book[n - 1].cells->0);
            assert forall|row: int, column: int|
                0 <= row < rows.len() && 0 <= column < rows[row].len() implies !excel::reaches_outside(
                #[trigger] rows[row][column],
            ) by {
                assert(!excel::reaches_outside(book[n - 1].cells->0[row][column]));
            }
            lemma_harmless_sheet(excel::book_warnings(book, n - 1), book[n - 1].name, rows, rows.len() as int);
        }
    }
}

proof fn lemma_harmless_sheet(
    found: Seq<(Seq<char>, Seq<char>)>,
    sheet: Seq<char>,
    rows: Seq<Seq<Seq<char>>>,
    n: int,
)
    requires
        0 <= n <= rows.len(),
        forall|row: int, column: int|
            0 <= row < rows.len() && 0 <= column < rows[row].len() ==> !excel::reaches_outside(
                #[trigger] rows[row][column],
            ),
    ensures
        excel::sheet_warnings(found, sheet, rows, n) == found,
    decreases n,
{
    if n > 0 {
        lemma_harmless_sheet(found, sheet, rows, n - 1);
        let cells = rows[n - 1];
        assert forall|column: int| 0 <= column < cells.len() implies !excel::reaches_outside(#[trigger] cells[column]) by {
            assert(!excel::reaches_outside(rows[n - 1][column]));
        }
        lemma_harmless_row(found, sheet, n - 1, cells, cells.len() as int);
    }
}

proof fn lemma_harmless_row(
    found: Seq<(Seq<char>, Seq<char>)>,
    sheet: Seq<char>,
    row: int,
    cells: Seq<Seq<char>>,
    n: int,
)
    requires
        0 <= n <= cells.len(),
        forall|column: int| 0 <= column < cells.len() ==> !excel::reaches_outside(#[trigger] cells[column]),
    ensures
        excel::row_warnings(found, sheet, row, cells, n) == found,
    decreases n,
{
    if n > 0 {
        lemma_harmless_row(found, sheet, row, cells, n - 1);
        assert(!excel::reaches_outside(cells[n - 1]));
    }
}

} // verus!
