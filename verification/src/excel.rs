//! Workbooks: from sheets, pictures and shapes to a document with one page per sheet.
use crate::config::ExtractionConfig;
use crate::csv;
use crate::csv::column_count;
use crate::document;
use crate::document::{
    copy_bytes, copy_option, copy_rows, copy_strings, find_value, truncate_u32, ElementKind, EmbeddedObject,
    ExcelMetadata, ExtractedImage, FormatMetadata, InternalDocument, Metadata, PageContent, ProcessingWarning, Table,
};
use crate::error;
use crate::error::{security_error, XbergError};
use crate::json;
use crate::json::JsonValue;
use crate::lookup;
use crate::lookup::{insert_number, new_lookup, number_of};
use crate::patterns;
use crate::patterns::pattern_matches;
use crate::plugin::package_version;
use crate::security;
use crate::security::{SecurityBudget, SecurityError};
use crate::text;
use crate::text::{
    chars_of, has_prefix, is_blank, is_str, push_decimal, same_str, split_chars, split_str, str_byte_len, string_of,
    to_upper, trim, trim_start,
};
use vstd::prelude::*;

verus! {

/// One sheet of a workbook.
#[derive(Clone, Debug)]
pub struct ExcelSheet {
    /// Its name.
    pub name: String,
    /// Its cells as a Markdown table.
    pub markdown: String,
    /// Number of rows.
    pub row_count: usize,
    /// Number of columns.
    pub col_count: usize,
    /// Number of cells that hold something.
    pub cell_count: usize,
    /// Its cells, row by row, if it could be read.
    pub table_cells: Option<Vec<Vec<String>>>,
}

/// A workbook.
#[derive(Clone, Debug)]
pub struct ExcelWorkbook {
    /// Its sheets, in order.
    pub sheets: Vec<ExcelSheet>,
    /// What it says of itself, by name; no name occurs twice.
    pub metadata: Vec<(String, String)>,
    /// Its tracked changes, each as a record of its format, where it has them.
    pub revisions: Option<Vec<String>>,
}

/// A picture of a workbook.
#[derive(Clone, Debug)]
pub struct XlsxPicture {
    /// Its encoded bytes.
    pub data: Vec<u8>,
    /// The format of the bytes.
    pub format: String,
    /// What it shows.
    pub description: Option<String>,
    /// Where it is stored in the workbook.
    pub source_path: String,
    /// The name of the sheet that it stands on.
    pub sheet_name: Option<String>,
    /// The one-based position of the sheet that it stands on.
    pub sheet_index: Option<u32>,
    /// The row and the column of the cell that it is anchored to.
    pub anchor: Option<(u32, u32)>,
}

/// The text of a shape that floats over a sheet.
#[derive(Clone, Debug)]
pub struct XlsxShapeText {
    /// The text.
    pub text: String,
    /// The name of the sheet that the shape floats over.
    pub sheet_name: String,
    /// The row and the column of the cell that it is anchored to.
    pub anchor: Option<(u32, u32)>,
}

/// A sheet, with its texts as sequences.
pub struct SheetData {
    /// Its name.
    pub name: Seq<char>,
    /// Its cells as a Markdown table.
    pub markdown: Seq<char>,
    /// Its cells, row by row, if it could be read.
    pub cells: Option<Seq<Seq<Seq<char>>>>,
}

impl View for ExcelSheet {
    type V = SheetData;

    open spec fn view(&self) -> SheetData {
        SheetData {
            name: self.name@,
            markdown: self.markdown@,
            cells: match self.table_cells {
                Some(rows) => Some(document::grid(rows@)),
                None => None,
            },
        }
    }
}

/// The sheets of a workbook, with their texts as sequences.
pub open spec fn sheets(v: Seq<ExcelSheet>) -> Seq<SheetData> {
    v.map_values(|s: ExcelSheet| s@)
}

/// Where an item stands: the page, the anchor on it, and which item it is.
#[derive(Clone, Copy, Debug)]
pub struct Placement {
    /// The page; the largest number where it is unknown.
    pub page: u32,
    /// The row and the column of the anchor.
    pub anchor: Option<(u32, u32)>,
    /// The position of the item in its list.
    pub item: usize,
}

/// Whether one anchor is not after another: a missing one comes first, then row by row.
pub open spec fn anchor_before(a: Option<(u32, u32)>, b: Option<(u32, u32)>) -> bool {
    match (a, b) {
        (None, _) => true,
        (Some(_), None) => false,
        (Some(x), Some(y)) => x.0 < y.0 || (x.0 == y.0 && x.1 <= y.1),
    }
}

/// Whether one place is not after another: page by page, then by anchor.
pub open spec fn placed_before(a: Placement, b: Placement) -> bool {
    a.page < b.page || (a.page == b.page && anchor_before(a.anchor, b.anchor))
}

/// An ordered list with one more place, after all that are not after it.
pub open spec fn inserted(ordered: Seq<Placement>, x: Placement) -> Seq<Placement>
    decreases ordered.len(),
{
    if ordered.len() == 0 || placed_before(ordered.last(), x) {
        ordered.push(x)
    } else {
        inserted(ordered.drop_last(), x).push(ordered.last())
    }
}

/// Places in reading order; equal ones keep their order.
pub open spec fn reading_order(places: Seq<Placement>) -> Seq<Placement>
    decreases places.len(),
{
    if places.len() == 0 {
        Seq::empty()
    } else {
        inserted(reading_order(places.drop_last()), places.last())
    }
}

fn comes_before(a: Placement, b: Placement) -> (r: bool)
    ensures
        r == placed_before(a, b),
{
    if a.page != b.page {
        return a.page < b.page;
    }
    match (a.anchor, b.anchor) {
        (None, _) => true,
        (Some(_), None) => false,
        (Some(x), Some(y)) => x.0 < y.0 || (x.0 == y.0 && x.1 <= y.1),
    }
}

fn insert_placement(ordered: &mut Vec<Placement>, x: Placement)
    ensures
        final(ordered)@ == inserted(old(ordered)@, x),
{
    let ghost before = ordered@;
    let mut i: usize = ordered.len();
    proof {
        assert(before.take(i as int) =~= before);
        assert(before.skip(i as int) =~= Seq::<Placement>::empty());
        assert(inserted(before, x) + Seq::<Placement>::empty() =~= inserted(before, x));
    }
    while i > 0 && !comes_before(ordered[i - 1], x)
        invariant
            i <= ordered.len(),
            ordered@ == before,
            inserted(before, x) == inserted(before.take(i as int), x) + before.skip(i as int),
        decreases i,
    {
        proof {
            assert(before.take(i as int).drop_last() =~= before.take(i - 1));
            let rest = inserted(before.take(i - 1), x);
            assert(rest.push(before[i - 1]) + before.skip(i as int) =~= rest + before.skip(i - 1));
        }
        i = i - 1;
    }
    ordered.insert(i, x);
    proof {
        assert(inserted(before.take(i as int), x) == before.take(i as int).push(x));
        assert(ordered@ =~= before.take(i as int).push(x) + before.skip(i as int));
    }
}

/// Puts places in reading order.
pub fn order_placements(places: &[Placement]) -> (r: Vec<Placement>)
    ensures
        r@ == reading_order(places@),
{
    let mut ordered: Vec<Placement> = Vec::new();
    let mut i: usize = 0;
    while i < places.len()
        invariant
            i <= places.len(),
            ordered@ == reading_order(places@.take(i as int)),
        decreases places.len() - i,
    {
        proof {
            assert(places@.take(i + 1).drop_last() =~= places@.take(i as int));
        }
        insert_placement(&mut ordered, places[i]);
        i = i + 1;
    }
    proof {
        assert(places@.take(places@.len() as int) =~= places@);
    }
    ordered
}

/// Inserting adds one place and disturbs no order.
proof fn lemma_inserted(ordered: Seq<Placement>, x: Placement)
    requires
        in_order(ordered),
    ensures
        in_order(inserted(ordered, x)),
        inserted(ordered, x).to_multiset() == ordered.to_multiset().insert(x),
        inserted(ordered, x).len() == ordered.len() + 1,
        forall|k: int|
            0 <= k < inserted(ordered, x).len() ==> (#[trigger] inserted(ordered, x)[k]) == x || ordered.contains(
                inserted(ordered, x)[k],
            ),
    decreases ordered.len(),
{
    broadcast use vstd::seq_lib::group_to_multiset_ensures;

    let all = inserted(ordered, x);
    if ordered.len() == 0 || placed_before(ordered.last(), x) {
        assert forall|i: int, j: int| 0 <= i < j < all.len() implies placed_before(
            #[trigger] all[i],
            #[trigger] all[j],
        ) by {
            if j == ordered.len() && i < ordered.len() - 1 {
                assert(placed_before(ordered[i], ordered[ordered.len() - 1]));
            }
        }
        assert forall|k: int| 0 <= k < all.len() implies (#[trigger] all[k]) == x || ordered.contains(all[k]) by {
            if k < ordered.len() {
                assert(ordered[k] == all[k]);
            }
        }
    } else {
        let init = ordered.drop_last();
        let rest = inserted(init, x);
        lemma_inserted(init, x);
        assert(init.push(ordered.last()) =~= ordered);
        assert(all.to_multiset() =~= ordered.to_multiset().insert(x));
        assert forall|k: int| 0 <= k < all.len() implies (#[trigger] all[k]) == x || ordered.contains(all[k]) by {
            if k < rest.len() {
                if rest[k] != x {
                    let m = choose|m: int| 0 <= m < init.len() && init[m] == rest[k];
                    assert(ordered[m] == all[k]);
                }
            } else {
                assert(ordered[ordered.len() - 1] == all[k]);
            }
        }
        assert forall|i: int, j: int| 0 <= i < j < all.len() implies placed_before(
            #[trigger] all[i],
            #[trigger] all[j],
        ) by {
            if j == rest.len() {
                if rest[i] != x {
                    let m = choose|m: int| 0 <= m < init.len() && init[m] == rest[i];
                    assert(placed_before(ordered[m], ordered[ordered.len() - 1]));
                }
            }
        }
    }
}

/// Whether places are in reading order.
pub open spec fn in_order(places: Seq<Placement>) -> bool {
    forall|i: int, j: int| 0 <= i < j < places.len() ==> placed_before(#[trigger] places[i], #[trigger] places[j])
}

/// Reading order is in order, and holds every place exactly as often as it was given.
pub proof fn law_reading_order_is_ordered_and_complete(places: Seq<Placement>)
    ensures
        in_order(reading_order(places)),
        reading_order(places).to_multiset() == places.to_multiset(),
        reading_order(places).len() == places.len(),
    decreases places.len(),
{
    broadcast use vstd::seq_lib::group_to_multiset_ensures;

    if places.len() > 0 {
        law_reading_order_is_ordered_and_complete(places.drop_last());
        lemma_inserted(reading_order(places.drop_last()), places.last());
        assert(places.drop_last().push(places.last()) =~= places);
    }
}

/// Whether a cell holds a formula that may reach outside the workbook.
pub open spec fn reaches_outside(cell: Seq<char>) -> bool {
    cell.len() > 0 && patterns::regex_matches(r"(?i)^=(DDE\(|WEBSERVICE\(|HYPERLINK\(|cmd\|)"@, cell)
}

/// What kind of formula a cell holds.
pub open spec fn formula_kind(cell: Seq<char>) -> Seq<char> {
    let upper = text::uppercased(cell);
    if text::occurs_at(upper, "=DDE("@, 0) {
        "DDE"@
    } else if text::occurs_at(upper, "=WEBSERVICE("@, 0) {
        "WEBSERVICE"@
    } else if text::occurs_at(upper, "=HYPERLINK("@, 0) {
        "HYPERLINK"@
    } else {
        "ExternalCall"@
    }
}

/// What kind of formula a cell holds.
pub fn classify_formula(cell: &str) -> (r: &'static str)
    ensures
        r@ == formula_kind(cell@),
{
    let upper = to_upper(chars_of(cell).as_slice());
    if has_prefix(upper.as_slice(), "=DDE(") {
        "DDE"
    } else if has_prefix(upper.as_slice(), "=WEBSERVICE(") {
        "WEBSERVICE"
    } else if has_prefix(upper.as_slice(), "=HYPERLINK(") {
        "HYPERLINK"
    } else {
        "ExternalCall"
    }
}

/// The most warnings about formulas that a workbook gets.
pub const MAX_DDE_WARNINGS: usize = 100;

/// The warning about a formula; rows and columns are counted from one.
pub open spec fn formula_warning(sheet: Seq<char>, row: int, column: int, cell: Seq<char>) -> (
    Seq<char>,
    Seq<char>,
) {
    (
        "excel_dde_scan"@,
        "Cell ["@ + sheet + "!R"@ + text::decimal((row + 1) as nat) + "C"@ + text::decimal((column + 1) as nat)
            + "] contains a "@ + formula_kind(cell) + " formula that may reference external resources"@,
    )
}

/// The warnings after one more cell, given whether it reaches outside.
pub open spec fn cell_warned(
    found: Seq<(Seq<char>, Seq<char>)>,
    sheet: Seq<char>,
    row: int,
    column: int,
    cell: Seq<char>,
    reaching: bool,
) -> Seq<(Seq<char>, Seq<char>)> {
    if found.len() < MAX_DDE_WARNINGS && reaching {
        found.push(formula_warning(sheet, row, column, cell))
    } else {
        found
    }
}

/// The warnings after the first cells of a row.
pub open spec fn row_warnings(
    found: Seq<(Seq<char>, Seq<char>)>,
    sheet: Seq<char>,
    row: int,
    cells: Seq<Seq<char>>,
    n: int,
) -> Seq<(Seq<char>, Seq<char>)>
    decreases n,
{
    if n <= 0 {
        found
    } else {
        cell_warned(
            row_warnings(found, sheet, row, cells, n - 1),
            sheet,
            row,
            n - 1,
            cells[n - 1],
            reaches_outside(cells[n - 1]),
        )
    }
}

/// The warnings after the first rows of a sheet.
pub open spec fn sheet_warnings(
    found: Seq<(Seq<char>, Seq<char>)>,
    sheet: Seq<char>,
    rows: Seq<Seq<Seq<char>>>,
    n: int,
) -> Seq<(Seq<char>, Seq<char>)>
    decreases n,
{
    if n <= 0 {
        found
    } else {
        row_warnings(
            sheet_warnings(found, sheet, rows, n - 1),
            sheet,
            n - 1,
            rows[n - 1],
            rows[n - 1].len() as int,
        )
    }
}

/// The warnings about the formulas of the first sheets: one per formula, in reading order, up to
/// the most that a workbook gets.
pub open spec fn book_warnings(book: Seq<SheetData>, n: int) -> Seq<(Seq<char>, Seq<char>)>
    decreases n,
{
    if n <= 0 {
        Seq::empty()
    } else {
        let before = book_warnings(book, n - 1);
        match book[n - 1].cells {
            Some(rows) => sheet_warnings(before, book[n - 1].name, rows, rows.len() as int),
            None => before,
        }
    }
}

/// Warns about a cell, given whether it reaches outside.
pub fn warn_about_cell(
    found: &mut Vec<ProcessingWarning>,
    sheet: &str,
    row: usize,
    column: usize,
    cell: &str,
    reaching: bool,
)
    requires
        row < usize::MAX,
        column < usize::MAX,
    ensures
        document::warnings(final(found)@) == cell_warned(
            document::warnings(old(found)@),
            sheet@,
            row as int,
            column as int,
            cell@,
            reaching,
        ),
{
    proof {
        assert(document::warnings(found@).len() == found@.len());
    }
    if found.len() < MAX_DDE_WARNINGS && reaching {
        let mut message = "Cell [".to_owned();
        message.append(sheet);
        message.append("!R");
        push_decimal(&mut message, row as u64 + 1);
        message.append("C");
        push_decimal(&mut message, column as u64 + 1);
        message.append("] contains a ");
        message.append(classify_formula(cell));
        message.append(" formula that may reference external resources");
        let warning = ProcessingWarning { source: "excel_dde_scan".to_owned(), message };
        let ghost before = found@;
        proof {
            assert((warning.source@, warning.message@) == formula_warning(
                sheet@,
                row as int,
                column as int,
                cell@,
            ));
            assert(document::warnings(before.push(warning)) =~= document::warnings(before).push(
                (warning.source@, warning.message@),
            ));
        }
        found.push(warning);
    }
}

fn scan_row(found: &mut Vec<ProcessingWarning>, sheet: &str, row: usize, cells: &[String])
    requires
        row < usize::MAX,
    ensures
        document::warnings(final(found)@) == row_warnings(
            document::warnings(old(found)@),
            sheet@,
            row as int,
            text::strings(cells@),
            cells@.len() as int,
        ),
{
    let ghost start = document::warnings(found@);
    let ghost all = text::strings(cells@);
    let mut j: usize = 0;
    while j < cells.len()
        invariant
            row < usize::MAX,
            j <= cells.len(),
            all == text::strings(cells@),
            document::warnings(found@) == row_warnings(start, sheet@, row as int, all, j as int),
        decreases cells.len() - j,
    {
        let cell = &cells[j];
        proof {
            assert(all[j as int] == cell@);
        }
        if found.len() < MAX_DDE_WARNINGS {
            let reaching = !cell.as_str().is_empty() && pattern_matches(
                r"(?i)^=(DDE\(|WEBSERVICE\(|HYPERLINK\(|cmd\|)",
                cell.as_str(),
            );
            warn_about_cell(found, sheet, row, j, cell.as_str(), reaching);
        }
        j = j + 1;
    }
}

/// Warns about the formulas of a workbook that may reach outside it.
pub fn scan_for_dde_warnings(workbook: &ExcelWorkbook) -> (r: Vec<ProcessingWarning>)
    ensures
        document::warnings(r@) == book_warnings(sheets(workbook.sheets@), workbook.sheets@.len() as int),
{
    let ghost book = sheets(workbook.sheets@);
    let mut found: Vec<ProcessingWarning> = Vec::new();
    let mut i: usize = 0;
    proof {
        assert(document::warnings(found@) =~= book_warnings(book, 0));
    }
    while i < workbook.sheets.len()
        invariant
            i <= workbook.sheets.len(),
            book == sheets(workbook.sheets@),
            document::warnings(found@) == book_warnings(book, i as int),
        decreases workbook.sheets.len() - i,
    {
        let sheet = &workbook.sheets[i];
        proof {
            assert(book[i as int] == sheet@);
        }
        if let Some(rows) = &sheet.table_cells {
            let ghost before = document::warnings(found@);
            let ghost all = document::grid(rows@);
            let mut k: usize = 0;
            while k < rows.len()
                invariant
                    k <= rows.len(),
                    all == document::grid(rows@),
                    document::warnings(found@) == sheet_warnings(before, sheet.name@, all, k as int),
                decreases rows.len() - k,
            {
                proof {
                    assert(all[k as int] == text::strings(rows@[k as int]@));
                }
                scan_row(&mut found, sheet.name.as_str(), k, rows[k].as_slice());
                k = k + 1;
            }
        }
        i = i + 1;
    }
    found
}

/// No workbook gets more warnings about formulas than the most allowed.
pub proof fn law_formula_warnings_are_capped(book: Seq<SheetData>, n: int)
    ensures
        book_warnings(book, n).len() <= MAX_DDE_WARNINGS,
    decreases n,
{
    if n > 0 {
        law_formula_warnings_are_capped(book, n - 1);
        if book[n - 1].cells is Some {
            let rows = book[n - 1].cells->0;
            lemma_sheet_warnings_capped(book_warnings(book, n - 1), book[n - 1].name, rows, rows.len() as int);
        }
    }
}

proof fn lemma_sheet_warnings_capped(
    found: Seq<(Seq<char>, Seq<char>)>,
    sheet: Seq<char>,
    rows: Seq<Seq<Seq<char>>>,
    n: int,
)
    requires
        found.len() <= MAX_DDE_WARNINGS,
    ensures
        sheet_warnings(found, sheet, rows, n).len() <= MAX_DDE_WARNINGS,
    decreases n,
{
    if n > 0 {
        lemma_sheet_warnings_capped(found, sheet, rows, n - 1);
        lemma_row_warnings_capped(
            sheet_warnings(found, sheet, rows, n - 1),
            sheet,
            n - 1,
            rows[n - 1],
            rows[n - 1].len() as int,
        );
    }
}

proof fn lemma_row_warnings_capped(
    found: Seq<(Seq<char>, Seq<char>)>,
    sheet: Seq<char>,
    row: int,
    cells: Seq<Seq<char>>,
    n: int,
)
    requires
        found.len() <= MAX_DDE_WARNINGS,
    ensures
        row_warnings(found, sheet, row, cells, n).len() <= MAX_DDE_WARNINGS,
    decreases n,
{
    if n > 0 {
        lemma_row_warnings_capped(found, sheet, row, cells, n - 1);
    }
}

/// The state of a budget and whether it is within its ceilings.
pub type Charge = (SecurityBudget, Result<(), SecurityError>);

/// Texts charged to a budget, unless it is already past a ceiling, up to the first one that is.
pub open spec fn texts_charged(charge: Charge, cells: Seq<Seq<char>>) -> Charge
    decreases cells.len(),
{
    if cells.len() == 0 {
        charge
    } else {
        let before = texts_charged(charge, cells.drop_last());
        if before.1 is Err {
            before
        } else {
            before.0.spec_account_text(text::byte_len(cells.last()) as int)
        }
    }
}

/// Rows of texts charged to a budget.
pub open spec fn grid_charged(charge: Charge, rows: Seq<Seq<Seq<char>>>) -> Charge
    decreases rows.len(),
{
    if rows.len() == 0 {
        charge
    } else {
        texts_charged(grid_charged(charge, rows.drop_last()), rows.last())
    }
}

/// A sheet charged to a budget: the cells of the rectangle that it fills, then its texts.
pub open spec fn sheet_charged(charge: Charge, sheet: SheetData) -> Charge {
    if charge.1 is Err {
        charge
    } else {
        match sheet.cells {
            None => charge,
            Some(rows) => grid_charged(
                charge.0.spec_add_cells(security::saturated((rows.len() * csv::widest(rows)) as int) as int),
                rows,
            ),
        }
    }
}

/// Sheets charged to a budget.
pub open spec fn book_charged(charge: Charge, book: Seq<SheetData>) -> Charge
    decreases book.len(),
{
    if book.len() == 0 {
        charge
    } else {
        sheet_charged(book_charged(charge, book.drop_last()), book.last())
    }
}

/// The texts of shapes.
pub open spec fn shape_texts(shapes: Seq<XlsxShapeText>) -> Seq<Seq<char>> {
    shapes.map_values(|shape: XlsxShapeText| shape.text@)
}

/// A workbook and its shapes charged to a budget.
pub open spec fn workbook_charged(budget: SecurityBudget, book: Seq<SheetData>, shapes: Seq<Seq<char>>) -> Charge {
    texts_charged(book_charged((budget, Ok(())), book), shapes)
}

/// A failed charge stays as it is.
proof fn lemma_texts_charge_stays(charge: Charge, cells: Seq<Seq<char>>, n: int)
    requires
        0 <= n <= cells.len(),
        texts_charged(charge, cells.take(n)).1 is Err,
    ensures
        texts_charged(charge, cells) == texts_charged(charge, cells.take(n)),
    decreases cells.len() - n,
{
    if n == cells.len() {
        assert(cells.take(n) =~= cells);
    } else {
        assert(cells.take(n + 1).drop_last() =~= cells.take(n));
        lemma_texts_charge_stays(charge, cells, n + 1);
    }
}

proof fn lemma_grid_charge_stays(charge: Charge, rows: Seq<Seq<Seq<char>>>, n: int)
    requires
        0 <= n <= rows.len(),
        grid_charged(charge, rows.take(n)).1 is Err,
    ensures
        grid_charged(charge, rows) == grid_charged(charge, rows.take(n)),
    decreases rows.len() - n,
{
    if n == rows.len() {
        assert(rows.take(n) =~= rows);
    } else {
        assert(rows.take(n + 1).drop_last() =~= rows.take(n));
        let before = grid_charged(charge, rows.take(n));
        lemma_texts_charge_stays(before, rows[n], 0);
        assert(rows[n].take(0) =~= Seq::<Seq<char>>::empty());
        lemma_grid_charge_stays(charge, rows, n + 1);
    }
}

proof fn lemma_book_charge_stays(charge: Charge, book: Seq<SheetData>, n: int)
    requires
        0 <= n <= book.len(),
        book_charged(charge, book.take(n)).1 is Err,
    ensures
        book_charged(charge, book) == book_charged(charge, book.take(n)),
    decreases book.len() - n,
{
    if n == book.len() {
        assert(book.take(n) =~= book);
    } else {
        assert(book.take(n + 1).drop_last() =~= book.take(n));
        lemma_book_charge_stays(charge, book, n + 1);
    }
}

fn charge_texts(cells: &[String], budget: &mut SecurityBudget) -> (r: Result<(), SecurityError>)
    ensures
        (*final(budget), r) == texts_charged((*old(budget), Ok(())), text::strings(cells@)),
        r is Ok ==> r == (Ok::<(), SecurityError>(())),
{
    let ghost all = text::strings(cells@);
    let ghost start: Charge = (*budget, Ok(()));
    let mut j: usize = 0;
    while j < cells.len()
        invariant
            j <= cells.len(),
            all == text::strings(cells@),
            start == (*old(budget), Ok::<(), SecurityError>(())),
            (*budget, Ok::<(), SecurityError>(())) == texts_charged(start, all.take(j as int)),
        decreases cells.len() - j,
    {
        proof {
            assert(all.take(j + 1).drop_last() =~= all.take(j as int));
            assert(all.take(j + 1).last() == cells@[j as int]@);
        }
        match budget.account_text(str_byte_len(cells[j].as_str())) {
            Ok(()) => {},
            Err(limit) => {
                proof {
                    lemma_texts_charge_stays(start, all, j + 1);
                }
                return Err(limit);
            },
        }
        j = j + 1;
    }
    proof {
        assert(all.take(all.len() as int) =~= all);
    }
    Ok(())
}

fn charge_grid(rows: &[Vec<String>], budget: &mut SecurityBudget) -> (r: Result<(), SecurityError>)
    ensures
        (*final(budget), r) == grid_charged((*old(budget), Ok(())), document::grid(rows@)),
        r is Ok ==> r == (Ok::<(), SecurityError>(())),
{
    let ghost all = document::grid(rows@);
    let ghost start: Charge = (*budget, Ok(()));
    let mut i: usize = 0;
    while i < rows.len()
        invariant
            i <= rows.len(),
            all == document::grid(rows@),
            start == (*old(budget), Ok::<(), SecurityError>(())),
            (*budget, Ok::<(), SecurityError>(())) == grid_charged(start, all.take(i as int)),
        decreases rows.len() - i,
    {
        proof {
            assert(all.take(i + 1).drop_last() =~= all.take(i as int));
            assert(all.take(i + 1).last() == text::strings(rows@[i as int]@));
        }
        match charge_texts(rows[i].as_slice(), budget) {
            Ok(()) => {},
            Err(limit) => {
                proof {
                    lemma_grid_charge_stays(start, all, i + 1);
                }
                return Err(limit);
            },
        }
        i = i + 1;
    }
    proof {
        assert(all.take(all.len() as int) =~= all);
    }
    Ok(())
}

/// The product of two counts, held within their range.
fn saturating_product(a: usize, b: usize) -> (r: usize)
    ensures
        r == security::saturated(a * b),
{
    match a.checked_mul(b) {
        Some(product) => product,
        None => usize::MAX,
    }
}

/// Charges the sheets of a workbook to a budget.
pub fn validate_workbook_budget(workbook: &ExcelWorkbook, budget: &mut SecurityBudget) -> (r: Result<
    (),
    SecurityError,
>)
    ensures
        (*final(budget), r) == book_charged((*old(budget), Ok(())), sheets(workbook.sheets@)),
        r is Ok ==> r == (Ok::<(), SecurityError>(())),
{
    let ghost book = sheets(workbook.sheets@);
    let ghost start: Charge = (*budget, Ok(()));
    let mut i: usize = 0;
    while i < workbook.sheets.len()
        invariant
            i <= workbook.sheets.len(),
            book == sheets(workbook.sheets@),
            start == (*old(budget), Ok::<(), SecurityError>(())),
            (*budget, Ok::<(), SecurityError>(())) == book_charged(start, book.take(i as int)),
        decreases workbook.sheets.len() - i,
    {
        let sheet = &workbook.sheets[i];
        proof {
            assert(book.take(i + 1).drop_last() =~= book.take(i as int));
            assert(book.take(i + 1).last() == sheet@);
        }
        if let Some(rows) = &sheet.table_cells {
            let columns = column_count(rows.as_slice());
            let ghost all = document::grid(rows@);
            proof {
                assert(rows@.len() * columns == all.len() * csv::widest(all));
            }
            match budget.add_cells(saturating_product(rows.len(), columns)) {
                Ok(()) => {},
                Err(limit) => {
                    proof {
                        let failed = (*budget, Err::<(), SecurityError>(limit));
                        lemma_grid_charge_stays(failed, all, 0);
                        assert(all.take(0) =~= Seq::<Seq<Seq<char>>>::empty());
                        lemma_book_charge_stays(start, book, i + 1);
                    }
                    return Err(limit);
                },
            }
            match charge_grid(rows.as_slice(), budget) {
                Ok(()) => {},
                Err(limit) => {
                    proof {
                        lemma_book_charge_stays(start, book, i + 1);
                    }
                    return Err(limit);
                },
            }
        }
        i = i + 1;
    }
    proof {
        assert(book.take(book.len() as int) =~= book);
    }
    Ok(())
}

/// Charges a workbook and the texts of its shapes to one budget.
pub fn charge_workbook_budget(workbook: &ExcelWorkbook, shapes: &[XlsxShapeText], budget: &mut SecurityBudget) -> (r:
    Result<(), XbergError>)
    ensures
        ({
            let charged = workbook_charged(*old(budget), sheets(workbook.sheets@), shape_texts(shapes@));
            &&& *final(budget) == charged.0
            &&& match charged.1 {
                Ok(()) => r is Ok,
                Err(limit) => r is Err && error::reports(r->Err_0, limit),
            }
        }),
{
    let ghost all = shape_texts(shapes@);
    let ghost start = book_charged((*budget, Ok(())), sheets(workbook.sheets@));
    match validate_workbook_budget(workbook, budget) {
        Ok(()) => {},
        Err(limit) => {
            proof {
                lemma_texts_charge_stays(start, all, 0);
                assert(all.take(0) =~= Seq::<Seq<char>>::empty());
            }
            return Err(security_error(limit));
        },
    }
    let mut i: usize = 0;
    while i < shapes.len()
        invariant
            i <= shapes.len(),
            all == shape_texts(shapes@),
            start == book_charged((*old(budget), Ok(())), sheets(workbook.sheets@)),
            (*budget, Ok::<(), SecurityError>(())) == texts_charged(start, all.take(i as int)),
        decreases shapes.len() - i,
    {
        proof {
            assert(all.take(i + 1).drop_last() =~= all.take(i as int));
            assert(all.take(i + 1).last() == shapes@[i as int].text@);
        }
        match budget.account_text(str_byte_len(shapes[i].text.as_str())) {
            Ok(()) => {},
            Err(limit) => {
                proof {
                    lemma_texts_charge_stays(start, all, i + 1);
                }
                return Err(security_error(limit));
            },
        }
        i = i + 1;
    }
    proof {
        assert(all.take(all.len() as int) =~= all);
    }
    Ok(())
}

/// Media types of workbooks that are stored as a ZIP package of parts.
pub open spec fn is_package(mime_type: Seq<char>) -> bool {
    mime_type == "application/vnd.openxmlformats-officedocument.spreadsheetml.sheet"@ || mime_type
        == "application/vnd.ms-excel.sheet.macroEnabled.12"@ || mime_type
        == "application/vnd.ms-excel.addin.macroEnabled.12"@ || mime_type
        == "application/vnd.ms-excel.template.macroEnabled.12"@ || mime_type
        == "application/vnd.ms-excel.sheet.binary.macroEnabled.12"@ || mime_type
        == "application/vnd.openxmlformats-officedocument.spreadsheetml.template"@
}

/// Whether a workbook of a media type is stored as a ZIP package of parts.
pub fn is_ooxml_zip_mime(mime_type: &str) -> (r: bool)
    ensures
        r == is_package(mime_type@),
{
    same_str(mime_type, "application/vnd.openxmlformats-officedocument.spreadsheetml.sheet") || same_str(
        mime_type,
        "application/vnd.ms-excel.sheet.macroEnabled.12",
    ) || same_str(mime_type, "application/vnd.ms-excel.addin.macroEnabled.12") || same_str(
        mime_type,
        "application/vnd.ms-excel.template.macroEnabled.12",
    ) || same_str(mime_type, "application/vnd.ms-excel.sheet.binary.macroEnabled.12") || same_str(
        mime_type,
        "application/vnd.openxmlformats-officedocument.spreadsheetml.template",
    )
}

/// The file extension of a media type.
pub open spec fn extension_of(mime_type: Seq<char>) -> Seq<char> {
    if mime_type == "application/vnd.ms-excel.sheet.macroEnabled.12"@ {
        ".xlsm"@
    } else if mime_type == "application/vnd.ms-excel.addin.macroEnabled.12"@ {
        ".xlam"@
    } else if mime_type == "application/vnd.ms-excel.template.macroEnabled.12"@ {
        ".xltm"@
    } else if mime_type == "application/vnd.ms-excel"@ {
        ".xls"@
    } else if mime_type == "application/vnd.ms-excel.addin.macroEnabled"@ {
        ".xla"@
    } else if mime_type == "application/vnd.ms-excel.sheet.binary.macroEnabled.12"@ {
        ".xlsb"@
    } else if mime_type == "application/vnd.oasis.opendocument.spreadsheet"@ {
        ".ods"@
    } else {
        ".xlsx"@
    }
}

/// The file extension of a media type; an unknown one is read like an ordinary workbook.
pub fn extension_for_mime(mime_type: &str) -> (r: &'static str)
    ensures
        r@ == extension_of(mime_type@),
{
    if same_str(mime_type, "application/vnd.ms-excel.sheet.macroEnabled.12") {
        ".xlsm"
    } else if same_str(mime_type, "application/vnd.ms-excel.addin.macroEnabled.12") {
        ".xlam"
    } else if same_str(mime_type, "application/vnd.ms-excel.template.macroEnabled.12") {
        ".xltm"
    } else if same_str(mime_type, "application/vnd.ms-excel") {
        ".xls"
    } else if same_str(mime_type, "application/vnd.ms-excel.addin.macroEnabled") {
        ".xla"
    } else if same_str(mime_type, "application/vnd.ms-excel.sheet.binary.macroEnabled.12") {
        ".xlsb"
    } else if same_str(mime_type, "application/vnd.oasis.opendocument.spreadsheet") {
        ".ods"
    } else {
        ".xlsx"
    }
}

/// What of a workbook is to be read.
#[derive(Clone, Copy, Debug)]
pub struct WorkbookPlan {
    /// The file extension by which the workbook is read.
    pub extension: &'static str,
    /// Whether its drawings are read, for the texts of their shapes.
    pub drawings: bool,
    /// Whether the bytes of its pictures are read along with the drawings.
    pub media: bool,
    /// Whether the objects embedded in it are read.
    pub embedded: bool,
}

/// Decides what of a workbook is to be read. Drawings and embedded objects stand only in a ZIP package; pictures
/// are read where their bytes are of use, embedded objects where archives are entered at all. Nothing is read of a
/// cancelled extraction.
pub fn plan_reading(
    mime_type: &str,
    needs_image_data: bool,
    max_archive_depth: usize,
    cancelled: bool,
) -> (r: Result<WorkbookPlan, XbergError>)
    ensures
        cancelled <==> r is Err,
        r matches Err(e) ==> e is Cancelled,
        r matches Ok(plan) ==> {
            &&& plan.extension@ == extension_of(mime_type@)
            &&& plan.drawings == is_package(mime_type@)
            &&& plan.media == (needs_image_data && is_package(mime_type@))
            &&& plan.embedded == (max_archive_depth > 0 && is_package(mime_type@))
        },
{
    if cancelled {
        return Err(XbergError::Cancelled);
    }
    let package = is_ooxml_zip_mime(mime_type);
    Ok(
        WorkbookPlan {
            extension: extension_for_mime(mime_type),
            drawings: package,
            media: needs_image_data && package,
            embedded: max_archive_depth > 0 && package,
        },
    )
}

/// Characters that mean something anywhere in a line of Markdown.
pub open spec fn is_inline_mark(c: char) -> bool {
    c == '\\' || c == '`' || c == '*' || c == '_' || c == '[' || c == ']' || c == '<' || c == '>' || c == '!'
}

/// Characters that mean something at the start of a line of Markdown.
pub open spec fn is_leading_mark(c: char) -> bool {
    c == '#' || c == '>' || c == '-' || c == '*' || c == '+' || c == '~'
}

/// The first characters of a heading with a backslash before each one that would mean something.
pub open spec fn escaped_prefix(s: Seq<char>, n: int) -> Seq<char>
    decreases n,
{
    if n <= 0 {
        Seq::empty()
    } else {
        let before = escaped_prefix(s, n - 1);
        if is_inline_mark(s[n - 1]) || (n == 1 && is_leading_mark(s[0])) {
            before.push('\\').push(s[n - 1])
        } else {
            before.push(s[n - 1])
        }
    }
}

/// A name as the text of a Markdown heading.
pub open spec fn heading_text(name: Seq<char>) -> Seq<char> {
    let s = text::trimmed_start(name);
    escaped_prefix(s, s.len() as int)
}

/// The names of the hidden sheets.
pub open spec fn hidden_names(metadata: Seq<(Seq<char>, Seq<char>)>) -> Seq<Seq<char>> {
    match document::value_of(metadata, "hidden_sheets"@) {
        Some(names) => text::split_by(names, ", "@),
        None => Seq::empty(),
    }
}

fn names_contain(names: &[Vec<char>], name: &str) -> (r: bool)
    ensures
        r == text::texts(names@).contains(name@),
{
    let ghost all = text::texts(names@);
    let mut i: usize = 0;
    while i < names.len()
        invariant
            i <= names.len(),
            all == text::texts(names@),
            forall|k: int| 0 <= k < i ==> all[k] != name@,
        decreases names.len() - i,
    {
        proof {
            assert(all[i as int] == names@[i as int]@);
        }
        if is_str(names[i].as_slice(), name) {
            return true;
        }
        i = i + 1;
    }
    false
}

/// What follows the name of a hidden sheet.
pub open spec fn hidden_suffix(hidden: bool) -> Seq<char> {
    if hidden {
        " (hidden)"@
    } else {
        ""@
    }
}

/// Whether a sheet has rows.
pub open spec fn has_rows(sheet: SheetData) -> bool {
    sheet.cells is Some && sheet.cells->0.len() > 0
}

/// The table of a sheet with rows.
pub open spec fn sheet_table(sheet: SheetData, page: u32) -> document::TableData {
    document::TableData { cells: sheet.cells->0, markdown: sheet.markdown, page_number: page, columns: None }
}

/// A document with one more sheet: a heading with its name, if it has one, and its table. A sheet
/// without rows adds nothing.
pub open spec fn with_sheet(c: document::Content, sheet: SheetData, page: u32, hidden: bool) -> document::Content {
    if !has_rows(sheet) {
        c
    } else {
        let headed = if sheet.name.len() > 0 {
            c.with_element(
                document::bare(ElementKind::Heading { level: 2 }, sheet.name + hidden_suffix(hidden), 0),
            )
        } else {
            c
        };
        headed.with_table(sheet_table(sheet, page), Seq::empty(), Some(page))
    }
}

/// The page of a sheet: its name as a heading, then its table. It is blank if there are neither
/// rows nor pictures nor shapes on it.
pub open spec fn sheet_page(
    sheet: SheetData,
    page: u32,
    hidden: bool,
    image_indices: Seq<u32>,
    shapes: int,
) -> document::PageData {
    document::PageData {
        page_number: page,
        content: (if sheet.name.len() > 0 {
            "## "@ + heading_text(sheet.name) + hidden_suffix(hidden) + "\n\n"@
        } else {
            Seq::empty()
        }) + (if has_rows(sheet) { sheet.markdown } else { Seq::empty() }),
        tables: if has_rows(sheet) { seq![sheet_table(sheet, page)] } else { Seq::empty() },
        image_indices,
        is_blank: Some(!has_rows(sheet) && image_indices.len() == 0 && shapes == 0),
        section_name: None,
        sheet_name: if sheet.name.len() > 0 { Some(sheet.name) } else { None },
    }
}

/// The page of each sheet name among the first sheets; the last sheet of a name counts.
pub open spec fn page_numbers(book: Seq<SheetData>, n: int) -> Map<Seq<char>, u32>
    decreases n,
{
    if n <= 0 {
        Map::empty()
    } else {
        page_numbers(book, n - 1).insert(book[n - 1].name, n as u32)
    }
}

/// The page of a sheet name.
pub open spec fn page_of(book: Seq<SheetData>, name: Seq<char>) -> Option<u32> {
    let numbers = page_numbers(book, book.len() as int);
    if numbers.dom().contains(name) {
        Some(numbers[name])
    } else {
        None
    }
}

/// The page of a picture: the one that it names itself, else that of its sheet.
pub open spec fn picture_page(book: Seq<SheetData>, picture: XlsxPicture) -> Option<u32> {
    match picture.sheet_index {
        Some(index) => Some(index),
        None => match picture.sheet_name {
            Some(name) => page_of(book, name@),
            None => None,
        },
    }
}

/// Where the pictures of a workbook stand.
pub open spec fn picture_placements(book: Seq<SheetData>, pictures: Seq<XlsxPicture>) -> Seq<Placement> {
    Seq::new(
        pictures.len(),
        |i: int|
            Placement {
                page: match picture_page(book, pictures[i]) {
                    Some(page) => page,
                    None => u32::MAX,
                },
                anchor: pictures[i].anchor,
                item: i as usize,
            },
    )
}

/// Where the shapes of a workbook stand.
pub open spec fn shape_placements(book: Seq<SheetData>, shapes: Seq<XlsxShapeText>) -> Seq<Placement> {
    Seq::new(
        shapes.len(),
        |i: int|
            Placement {
                page: match page_of(book, shapes[i].sheet_name@) {
                    Some(page) => page,
                    None => u32::MAX,
                },
                anchor: shapes[i].anchor,
                item: i as usize,
            },
    )
}

/// A picture as an image of the document.
pub open spec fn picture_image(picture: XlsxPicture) -> document::ImageData {
    document::ImageData {
        data: picture.data@,
        format: picture.format@,
        image_index: 0,
        page_number: None,
        description: document::opt_text(picture.description),
        source_path: Some(picture.source_path@),
    }
}

/// Everything that is laid over the sheets: pictures and shapes, each in reading order, with the
/// page of each item in its list.
pub struct Overlay {
    /// The pictures.
    pub pictures: Seq<XlsxPicture>,
    /// The page of each picture.
    pub picture_pages: Seq<Option<u32>>,
    /// The pictures in reading order.
    pub picture_order: Seq<Placement>,
    /// The shapes.
    pub shapes: Seq<XlsxShapeText>,
    /// The page of each shape.
    pub shape_pages: Seq<Option<u32>>,
    /// The shapes in reading order.
    pub shape_order: Seq<Placement>,
}

/// What is laid over the sheets of a workbook.
pub open spec fn overlay(
    book: Seq<SheetData>,
    pictures: Seq<XlsxPicture>,
    shapes: Seq<XlsxShapeText>,
) -> Overlay {
    Overlay {
        pictures,
        picture_pages: pictures.map_values(|p: XlsxPicture| picture_page(book, p)),
        picture_order: reading_order(picture_placements(book, pictures)),
        shapes,
        shape_pages: shapes.map_values(|s: XlsxShapeText| page_of(book, s.sheet_name@)),
        shape_order: reading_order(shape_placements(book, shapes)),
    }
}

impl Overlay {
    /// The position after the pictures from a position on that stand on a page.
    pub open spec fn pictures_end(self, from: int, page: u32) -> int
        decreases self.picture_order.len() - from,
    {
        if 0 <= from < self.picture_order.len() && self.picture_pages[self.picture_order[from].item as int] == Some(
            page,
        ) {
            self.pictures_end(from + 1, page)
        } else {
            from
        }
    }

    /// The position after the shapes from a position on that stand on a page; page zero stands for
    /// an unknown one.
    pub open spec fn shapes_end(self, from: int, page: u32) -> int
        decreases self.shape_order.len() - from,
    {
        if 0 <= from < self.shape_order.len() && (match self.shape_pages[self.shape_order[from].item as int] {
            Some(p) => p,
            None => 0,
        }) == page {
            self.shapes_end(from + 1, page)
        } else {
            from
        }
    }

    /// A document with the pictures of a range, all on one page or on none.
    pub open spec fn with_pictures(
        self,
        c: document::Content,
        from: int,
        to: int,
        page: Option<u32>,
    ) -> document::Content
        decreases to - from,
    {
        if from >= to {
            c
        } else {
            self.with_pictures(c, from, to - 1, page).with_image(
                picture_image(self.pictures[self.picture_order[to - 1].item as int]),
                page,
            )
        }
    }

    /// A document with the shapes of a range, all on one page; page zero stands for none.
    pub open spec fn with_shapes(self, c: document::Content, from: int, to: int, page: u32) -> document::Content
        decreases to - from,
    {
        if from >= to {
            c
        } else {
            self.with_shapes(c, from, to - 1, page).with_element(
                document::Element {
                    page: if page > 0 { Some(page) } else { None },
                    ..document::bare(
                        ElementKind::Paragraph,
                        self.shapes[self.shape_order[to - 1].item as int].text@,
                        0,
                    )
                },
            )
        }
    }
}

/// A document under construction.
#[verifier::ext_equal]
pub struct Assembly {
    /// Its content, without the pages.
    pub content: document::Content,
    /// Its pages.
    pub pages: Seq<document::PageData>,
    /// The next picture in reading order.
    pub picture: int,
    /// The next shape in reading order.
    pub shape: int,
}

/// Consecutive image positions.
pub open spec fn image_positions(first: nat, count: int) -> Seq<u32> {
    Seq::new(count as nat, |k: int| (first + k) as u32)
}

/// A document with the sheet at a position: the sheet itself, then the pictures and the shapes that
/// stand on it.
pub open spec fn sheet_added(
    a: Assembly,
    book: Seq<SheetData>,
    hidden: Seq<Seq<char>>,
    over: Overlay,
    i: int,
) -> Assembly {
    let page = (i + 1) as u32;
    let sheet = book[i];
    let is_hidden = hidden.contains(sheet.name);
    let tabled = with_sheet(a.content, sheet, page, is_hidden);
    let picture = over.pictures_end(a.picture, page);
    let pictured = over.with_pictures(tabled, a.picture, picture, Some(page));
    let shape = over.shapes_end(a.shape, page);
    let shaped = over.with_shapes(pictured, a.shape, shape, page);
    Assembly {
        content: shaped,
        pages: a.pages.push(
            sheet_page(
                sheet,
                page,
                is_hidden,
                image_positions(tabled.images.len(), picture - a.picture),
                shape - a.shape,
            ),
        ),
        picture,
        shape,
    }
}

/// A document with the first sheets.
pub open spec fn sheets_added(book: Seq<SheetData>, hidden: Seq<Seq<char>>, over: Overlay, n: int) -> Assembly
    decreases n,
{
    if n <= 0 {
        Assembly {
            content: document::empty_content("excel"@),
            pages: Seq::empty(),
            picture: 0,
            shape: 0,
        }
    } else {
        sheet_added(sheets_added(book, hidden, over, n - 1), book, hidden, over, n - 1)
    }
}

/// The document of a workbook: its sheets with what stands on them, then the pictures and the shapes
/// that stand on no sheet. There is one page per sheet.
pub open spec fn workbook_content(
    book: Seq<SheetData>,
    hidden: Seq<Seq<char>>,
    pictures: Seq<XlsxPicture>,
    shapes: Seq<XlsxShapeText>,
) -> document::Content {
    let over = overlay(book, pictures, shapes);
    let a = sheets_added(book, hidden, over, book.len() as int);
    let pictured = over.with_pictures(a.content, a.picture, over.picture_order.len() as int, None);
    let shaped = over.with_shapes(pictured, a.shape, over.shapes_end(a.shape, 0), 0);
    document::Content { pages: Some(a.pages), ..shaped }
}

/// The page of each sheet name.
fn page_by_sheet_name(book: &[ExcelSheet]) -> (r: ahash::AHashMap<String, u32, ahash::RandomState>)
    ensures
        lookup::entries(r) == page_numbers(sheets(book@), book@.len() as int),
{
    let ghost all = sheets(book@);
    let mut numbers = new_lookup();
    let mut i: usize = 0;
    while i < book.len()
        invariant
            i <= book.len(),
            all == sheets(book@),
            lookup::entries(numbers) == page_numbers(all, i as int),
        decreases book.len() - i,
    {
        proof {
            assert(all[i as int].name == book@[i as int].name@);
        }
        insert_number(&mut numbers, book[i].name.clone(), truncate_u32(i + 1));
        i = i + 1;
    }
    numbers
}

/// Pictures and shapes, each in reading order.
struct Drawings {
    pictures: Vec<XlsxPicture>,
    picture_pages: Vec<Option<u32>>,
    picture_order: Vec<Placement>,
    shapes: Vec<XlsxShapeText>,
    shape_pages: Vec<Option<u32>>,
    shape_order: Vec<Placement>,
}

impl Drawings {
    spec fn overlay(&self) -> Overlay {
        Overlay {
            pictures: self.pictures@,
            picture_pages: self.picture_pages@,
            picture_order: self.picture_order@,
            shapes: self.shapes@,
            shape_pages: self.shape_pages@,
            shape_order: self.shape_order@,
        }
    }

    spec fn well_formed(&self) -> bool {
        &&& self.picture_pages@.len() == self.pictures@.len()
        &&& self.shape_pages@.len() == self.shapes@.len()
        &&& self.picture_order@.len() == self.pictures@.len()
        &&& self.shape_order@.len() == self.shapes@.len()
        &&& forall|k: int|
            0 <= k < self.picture_order@.len() ==> (#[trigger] self.picture_order@[k]).item < self.pictures@.len()
        &&& forall|k: int|
            0 <= k < self.shape_order@.len() ==> (#[trigger] self.shape_order@[k]).item < self.shapes@.len()
    }
}

/// What is put in reading order was there before.
pub proof fn lemma_reading_order_items(places: Seq<Placement>, k: int)
    requires
        0 <= k < reading_order(places).len(),
    ensures
        places.contains(reading_order(places)[k]),
{
    broadcast use vstd::seq_lib::group_to_multiset_ensures;

    law_reading_order_is_ordered_and_complete(places);
    let item = reading_order(places)[k];
    assert(reading_order(places).contains(item));
    assert(reading_order(places).to_multiset().count(item) > 0);
    assert(places.to_multiset().count(item) > 0);
}

fn page_or_last(page: Option<u32>) -> (r: u32)
    ensures
        r == match page {
            Some(p) => p,
            None => u32::MAX,
        },
{
    match page {
        Some(p) => p,
        None => u32::MAX,
    }
}

fn place_drawings(book: &[ExcelSheet], pictures: Vec<XlsxPicture>, shapes: Vec<XlsxShapeText>) -> (r: Drawings)
    ensures
        r.overlay() == overlay(sheets(book@), pictures@, shapes@),
        r.well_formed(),
{
    let ghost all = sheets(book@);
    let numbers = page_by_sheet_name(book);
    let mut picture_pages: Vec<Option<u32>> = Vec::new();
    let mut picture_places: Vec<Placement> = Vec::new();
    let mut i: usize = 0;
    while i < pictures.len()
        invariant
            i <= pictures.len(),
            lookup::entries(numbers) == page_numbers(all, all.len() as int),
            picture_pages@ == Seq::new(i as nat, |k: int| picture_page(all, pictures@[k])),
            picture_places@ == picture_placements(all, pictures@).take(i as int),
        decreases pictures.len() - i,
    {
        let page = match (pictures[i].sheet_index, &pictures[i].sheet_name) {
            (Some(index), _) => Some(index),
            (None, Some(name)) => number_of(&numbers, name.as_str()),
            (None, None) => None,
        };
        let ghost placed = picture_placements(all, pictures@);
        picture_pages.push(page);
        picture_places.push(Placement { page: page_or_last(page), anchor: pictures[i].anchor, item: i });
        proof {
            assert(page == picture_page(all, pictures@[i as int]));
            assert(picture_pages@ =~= Seq::new((i + 1) as nat, |k: int| picture_page(all, pictures@[k])));
            assert(placed.take(i + 1) =~= placed.take(i as int).push(placed[i as int]));
        }
        i = i + 1;
    }
    let mut shape_pages: Vec<Option<u32>> = Vec::new();
    let mut shape_places: Vec<Placement> = Vec::new();
    let mut j: usize = 0;
    while j < shapes.len()
        invariant
            j <= shapes.len(),
            lookup::entries(numbers) == page_numbers(all, all.len() as int),
            shape_pages@ == Seq::new(j as nat, |k: int| page_of(all, shapes@[k].sheet_name@)),
            shape_places@ == shape_placements(all, shapes@).take(j as int),
        decreases shapes.len() - j,
    {
        let page = number_of(&numbers, shapes[j].sheet_name.as_str());
        let ghost placed = shape_placements(all, shapes@);
        shape_pages.push(page);
        shape_places.push(Placement { page: page_or_last(page), anchor: shapes[j].anchor, item: j });
        proof {
            assert(shape_pages@ =~= Seq::new((j + 1) as nat, |k: int| page_of(all, shapes@[k].sheet_name@)));
            assert(placed.take(j + 1) =~= placed.take(j as int).push(placed[j as int]));
        }
        j = j + 1;
    }
    let picture_order = order_placements(picture_places.as_slice());
    let shape_order = order_placements(shape_places.as_slice());
    proof {
        assert(picture_places@ =~= picture_placements(all, pictures@));
        assert(shape_places@ =~= shape_placements(all, shapes@));
        law_reading_order_is_ordered_and_complete(picture_places@);
        law_reading_order_is_ordered_and_complete(shape_places@);
        assert forall|k: int| 0 <= k < picture_order@.len() implies (#[trigger] picture_order@[k]).item
            < pictures@.len() by {
            lemma_reading_order_items(picture_places@, k);
        }
        assert forall|k: int| 0 <= k < shape_order@.len() implies (#[trigger] shape_order@[k]).item
            < shapes@.len() by {
            lemma_reading_order_items(shape_places@, k);
        }
        assert(picture_pages@ =~= pictures@.map_values(|p: XlsxPicture| picture_page(all, p)));
        assert(shape_pages@ =~= shapes@.map_values(|s: XlsxShapeText| page_of(all, s.sheet_name@)));
    }
    Drawings { pictures, picture_pages, picture_order, shapes, shape_pages, shape_order }
}

/// Appends a picture and gives its position among the images.
fn push_picture(doc: &mut InternalDocument, picture: &XlsxPicture, page: Option<u32>) -> (index: u32)
    ensures
        final(doc)@ == old(doc)@.with_image(picture_image(*picture), page),
        final(doc).metadata == old(doc).metadata,
        index == old(doc)@.images.len() as u32,
{
    doc.push_image(
        ExtractedImage {
            data: copy_bytes(picture.data.as_slice()),
            format: picture.format.clone(),
            image_index: 0,
            page_number: None,
            description: copy_option(&picture.description),
            source_path: Some(picture.source_path.clone()),
        },
        page,
    )
}

/// Appends a sheet with rows: its name as a heading and its table.
fn push_sheet(doc: &mut InternalDocument, sheet: &ExcelSheet, page: u32, hidden: bool) -> (r: PageContent)
    ensures
        final(doc)@ == with_sheet(old(doc)@, sheet@, page, hidden),
        final(doc).metadata == old(doc).metadata,
        r@ == sheet_page(sheet@, page, hidden, Seq::empty(), 0),
{
    let suffix = if hidden {
        " (hidden)"
    } else {
        ""
    };
    let mut content = String::new();
    let mut sheet_name: Option<String> = None;
    let named = !sheet.name.as_str().is_empty();
    if named {
        content.append("## ");
        content.append(ExcelExtractor::escape_sheet_name_for_heading(sheet.name.as_str()).as_str());
        content.append(suffix);
        content.append("\n\n");
        sheet_name = Some(sheet.name.clone());
    }
    let ghost heading = content@;
    proof {
        assert(named == (sheet.name@.len() > 0));
        if named {
            assert(heading =~= "## "@ + heading_text(sheet.name@) + hidden_suffix(hidden) + "\n\n"@);
        } else {
            assert(heading =~= Seq::<char>::empty());
        }
    }
    let mut page_tables: Vec<Table> = Vec::new();
    let mut filled = false;
    if let Some(cells) = &sheet.table_cells {
        if cells.len() > 0 {
            filled = true;
            if named {
                let mut title = sheet.name.clone();
                title.append(suffix);
                doc.push_text(ElementKind::Heading { level: 2 }, title, 0);
            }
            content.append(sheet.markdown.as_str());
            page_tables.push(
                Table {
                    cells: copy_rows(cells.as_slice()),
                    markdown: sheet.markdown.clone(),
                    page_number: page,
                    columns: None,
                },
            );
            doc.push_table(
                Table {
                    cells: copy_rows(cells.as_slice()),
                    markdown: sheet.markdown.clone(),
                    page_number: page,
                    columns: None,
                },
                String::new(),
                Some(page),
            );
        }
    }
    let r = PageContent {
        page_number: page,
        content,
        tables: page_tables,
        image_indices: Vec::new(),
        is_blank: Some(!filled),
        section_name: None,
        sheet_name,
    };
    proof {
        let wanted = sheet_page(sheet@, page, hidden, Seq::empty(), 0);
        assert(filled == has_rows(sheet@));
        assert(r@.tables =~= wanted.tables);
        assert(r@.content =~= wanted.content);
        assert(r@ =~= wanted);
    }
    r
}

impl Overlay {
    /// Each picture of a range adds one image.
    pub proof fn lemma_images_added(self, c: document::Content, from: int, to: int, page: Option<u32>)
        requires
            from <= to,
        ensures
            self.with_pictures(c, from, to, page).images.len() == c.images.len() + (to - from),
            self.with_pictures(c, from, to, page).warnings == c.warnings,
        decreases to - from,
    {
        if from < to {
            self.lemma_images_added(c, from, to - 1, page);
        }
    }

    /// Shapes add no image.
    pub proof fn lemma_shapes_add_no_image(self, c: document::Content, from: int, to: int, page: u32)
        ensures
            self.with_shapes(c, from, to, page).images == c.images,
            self.with_shapes(c, from, to, page).warnings == c.warnings,
        decreases to - from,
    {
        if from < to {
            self.lemma_shapes_add_no_image(c, from, to - 1, page);
        }
    }

    /// A range of pictures or shapes ends at its start or after it, and within its list.
    pub proof fn lemma_ends(self, from: int, page: u32)
        requires
            0 <= from,
        ensures
            from <= self.pictures_end(from, page),
            from <= self.picture_order.len() ==> self.pictures_end(from, page) <= self.picture_order.len(),
            from <= self.shapes_end(from, page),
            from <= self.shape_order.len() ==> self.shapes_end(from, page) <= self.shape_order.len(),
        decreases self.picture_order.len() + self.shape_order.len() - from,
    {
        if from < self.picture_order.len() || from < self.shape_order.len() {
            self.lemma_ends(from + 1, page);
        }
    }
}

/// Appends the pictures of a page, from a position on, and gives their positions among the images
/// and the position of the next picture.
fn push_sheet_pictures(doc: &mut InternalDocument, drawings: &Drawings, from: usize, page: u32) -> (r: (
    Vec<u32>,
    usize,
))
    requires
        drawings.well_formed(),
        from <= drawings.picture_order@.len(),
    ensures
        r.1 == drawings.overlay().pictures_end(from as int, page),
        from <= r.1 <= drawings.picture_order@.len(),
        r.0@ == image_positions(old(doc)@.images.len(), r.1 - from),
        final(doc)@ == drawings.overlay().with_pictures(old(doc)@, from as int, r.1 as int, Some(page)),
        final(doc).metadata == old(doc).metadata,
{
    let ghost over = drawings.overlay();
    let ghost start = doc@;
    let mut indices: Vec<u32> = Vec::new();
    let mut i: usize = from;
    while i < drawings.picture_order.len() && same_page(
        drawings.picture_pages[drawings.picture_order[i].item],
        Some(page),
    )
        invariant
            drawings.well_formed(),
            over == drawings.overlay(),
            from <= i <= drawings.picture_order@.len(),
            start == old(doc)@,
            doc@ == over.with_pictures(start, from as int, i as int, Some(page)),
            doc.metadata == old(doc).metadata,
            indices@ == image_positions(start.images.len(), i - from),
            over.pictures_end(i as int, page) == over.pictures_end(from as int, page),
        decreases drawings.picture_order.len() - i,
    {
        proof {
            over.lemma_images_added(start, from as int, i as int, Some(page));
        }
        let picture = &drawings.pictures[drawings.picture_order[i].item];
        let index = push_picture(doc, picture, Some(page));
        indices.push(index);
        proof {
            assert(indices@ =~= image_positions(start.images.len(), i + 1 - from));
        }
        i = i + 1;
    }
    (indices, i)
}

fn same_page(a: Option<u32>, b: Option<u32>) -> (r: bool)
    ensures
        r == (a == b),
{
    match (a, b) {
        (Some(x), Some(y)) => x == y,
        (None, None) => true,
        _ => false,
    }
}

/// Appends the shapes of a page, from a position on, and gives the position of the next one. Page
/// zero stands for the shapes whose sheet is unknown.
fn push_sheet_shapes(doc: &mut InternalDocument, drawings: &Drawings, from: usize, page: u32) -> (r: usize)
    requires
        drawings.well_formed(),
        from <= drawings.shape_order@.len(),
    ensures
        r == drawings.overlay().shapes_end(from as int, page),
        from <= r <= drawings.shape_order@.len(),
        final(doc)@ == drawings.overlay().with_shapes(old(doc)@, from as int, r as int, page),
        final(doc).metadata == old(doc).metadata,
{
    let ghost over = drawings.overlay();
    let mut i: usize = from;
    while i < drawings.shape_order.len() && drawings.shape_pages[drawings.shape_order[i].item].unwrap_or(0) == page
        invariant
            drawings.well_formed(),
            over == drawings.overlay(),
            from <= i <= drawings.shape_order@.len(),
            doc@ == over.with_shapes(old(doc)@, from as int, i as int, page),
            doc.metadata == old(doc).metadata,
            over.shapes_end(i as int, page) == over.shapes_end(from as int, page),
        decreases drawings.shape_order.len() - i,
    {
        let shape = &drawings.shapes[drawings.shape_order[i].item];
        let on = if page > 0 {
            Some(page)
        } else {
            None
        };
        doc.push_on_page(ElementKind::Paragraph, shape.text.clone(), on);
        i = i + 1;
    }
    i
}

/// Appends one sheet with the pictures and the shapes that stand on it, and gives its page and the
/// positions of the next picture and the next shape.
fn push_whole_sheet(
    doc: &mut InternalDocument,
    sheet: &ExcelSheet,
    hidden: bool,
    drawings: &Drawings,
    picture: usize,
    shape: usize,
    page: u32,
) -> (r: (PageContent, usize, usize))
    requires
        drawings.well_formed(),
        picture <= drawings.picture_order@.len(),
        shape <= drawings.shape_order@.len(),
    ensures
        ({
            let over = drawings.overlay();
            let tabled = with_sheet(old(doc)@, sheet@, page, hidden);
            let pictured = over.with_pictures(tabled, picture as int, r.1 as int, Some(page));
            &&& r.1 == over.pictures_end(picture as int, page)
            &&& r.2 == over.shapes_end(shape as int, page)
            &&& picture <= r.1 <= drawings.picture_order@.len()
            &&& shape <= r.2 <= drawings.shape_order@.len()
            &&& final(doc)@ == over.with_shapes(pictured, shape as int, r.2 as int, page)
            &&& r.0@ == sheet_page(
                sheet@,
                page,
                hidden,
                image_positions(tabled.images.len(), r.1 - picture),
                r.2 - shape,
            )
        }),
        final(doc).metadata == old(doc).metadata,
{
    let mut content = push_sheet(doc, sheet, page, hidden);
    let ghost tabled = doc@;
    let ghost bare_page = content@;
    let (indices, next_picture) = push_sheet_pictures(doc, drawings, picture, page);
    let next_shape = push_sheet_shapes(doc, drawings, shape, page);
    if indices.len() > 0 || next_shape > shape {
        content.is_blank = Some(false);
    }
    content.image_indices = indices;
    proof {
        let wanted = sheet_page(
            sheet@,
            page,
            hidden,
            image_positions(tabled.images.len(), next_picture - picture),
            next_shape - shape,
        );
        assert(content@.tables == bare_page.tables);
        assert(content@ =~= wanted);
    }
    (content, next_picture, next_shape)
}

/// A workbook gets one page per sheet, in order, every picture becomes exactly one image, and
/// nothing is warned of.
pub proof fn law_every_sheet_is_a_page_and_every_picture_an_image(
    book: Seq<SheetData>,
    hidden: Seq<Seq<char>>,
    pictures: Seq<XlsxPicture>,
    shapes: Seq<XlsxShapeText>,
)
    ensures
        ({
            let doc = workbook_content(book, hidden, pictures, shapes);
            &&& doc.pages is Some
            &&& doc.pages->0.len() == book.len()
            &&& forall|i: int| 0 <= i < book.len() ==> (#[trigger] doc.pages->0[i]).page_number == (i + 1) as u32
            &&& doc.images.len() == pictures.len()
            &&& doc.warnings.len() == 0
        }),
{
    let over = overlay(book, pictures, shapes);
    let n = book.len() as int;
    law_reading_order_is_ordered_and_complete(picture_placements(book, pictures));
    lemma_sheets_added(book, hidden, over, n);
    let a = sheets_added(book, hidden, over, n);
    over.lemma_images_added(a.content, a.picture, over.picture_order.len() as int, None);
    let pictured = over.with_pictures(a.content, a.picture, over.picture_order.len() as int, None);
    over.lemma_shapes_add_no_image(pictured, a.shape, over.shapes_end(a.shape, 0), 0);
}

proof fn lemma_sheets_added(book: Seq<SheetData>, hidden: Seq<Seq<char>>, over: Overlay, n: int)
    requires
        0 <= n <= book.len(),
    ensures
        ({
            let a = sheets_added(book, hidden, over, n);
            &&& a.pages.len() == n
            &&& forall|i: int| 0 <= i < n ==> (#[trigger] a.pages[i]).page_number == (i + 1) as u32
            &&& 0 <= a.picture <= over.picture_order.len()
            &&& 0 <= a.shape
            &&& a.content.images.len() == a.picture
            &&& a.content.warnings.len() == 0
        }),
    decreases n,
{
    if n > 0 {
        lemma_sheets_added(book, hidden, over, n - 1);
        let a = sheets_added(book, hidden, over, n - 1);
        let page = n as u32;
        over.lemma_ends(a.picture, page);
        over.lemma_ends(a.shape, page);
        let tabled = with_sheet(a.content, book[n - 1], page, hidden.contains(book[n - 1].name));
        over.lemma_images_added(tabled, a.picture, over.pictures_end(a.picture, page), Some(page));
        let pictured = over.with_pictures(tabled, a.picture, over.pictures_end(a.picture, page), Some(page));
        over.lemma_shapes_add_no_image(pictured, a.shape, over.shapes_end(a.shape, page), page);
    }
}

/// Reads workbooks.
#[derive(Clone, Copy, Debug)]
pub struct ExcelExtractor;

impl Default for ExcelExtractor {
    fn default() -> (r: Self)
        ensures
            r == ExcelExtractor,
    {
        ExcelExtractor
    }
}

impl ExcelExtractor {
    /// The reader.
    pub fn new() -> (r: Self)
        ensures
            r == ExcelExtractor,
    {
        ExcelExtractor
    }

    /// Its name.
    pub fn name(&self) -> (r: &'static str)
        ensures
            r@ == "excel-extractor"@,
    {
        "excel-extractor"
    }

    /// Its version, which is that of the package.
    pub fn version(&self) -> (r: String)
        ensures
            r@ == "1.0.0"@,
    {
        package_version()
    }

    /// Makes it ready; there is nothing to do.
    pub fn initialize(&self) -> (r: Result<(), XbergError>)
        ensures
            r == (Ok::<(), XbergError>(())),
    {
        Ok(())
    }

    /// Lays it down; there is nothing to do.
    pub fn shutdown(&self) -> (r: Result<(), XbergError>)
        ensures
            r == (Ok::<(), XbergError>(())),
    {
        Ok(())
    }

    /// The media types that it reads.
    pub fn supported_mime_types(&self) -> (r: Vec<&'static str>)
        ensures
            r@ == seq![
                "application/vnd.openxmlformats-officedocument.spreadsheetml.sheet",
                "application/vnd.ms-excel.sheet.macroEnabled.12",
                "application/vnd.ms-excel.addin.macroEnabled.12",
                "application/vnd.ms-excel.template.macroEnabled.12",
                "application/vnd.ms-excel",
                "application/vnd.ms-excel.addin.macroEnabled",
                "application/vnd.ms-excel.sheet.binary.macroEnabled.12",
                "application/vnd.oasis.opendocument.spreadsheet",
                "application/vnd.openxmlformats-officedocument.spreadsheetml.template",
            ],
    {
        vec![
            "application/vnd.openxmlformats-officedocument.spreadsheetml.sheet",
            "application/vnd.ms-excel.sheet.macroEnabled.12",
            "application/vnd.ms-excel.addin.macroEnabled.12",
            "application/vnd.ms-excel.template.macroEnabled.12",
            "application/vnd.ms-excel",
            "application/vnd.ms-excel.addin.macroEnabled",
            "application/vnd.ms-excel.sheet.binary.macroEnabled.12",
            "application/vnd.oasis.opendocument.spreadsheet",
            "application/vnd.openxmlformats-officedocument.spreadsheetml.template",
        ]
    }

    /// Its rank among the readers of a media type.
    pub fn priority(&self) -> (r: i32)
        ensures
            r == 50,
    {
        50
    }
}

impl ExcelExtractor {
    /// A name as the text of a Markdown heading.
    pub fn escape_sheet_name_for_heading(name: &str) -> (r: String)
        ensures
            r@ == heading_text(name@),
    {
        let letters = chars_of(name);
        let s = trim_start(letters.as_slice());
        let mut out: Vec<char> = Vec::new();
        let mut i: usize = 0;
        while i < s.len()
            invariant
                i <= s.len(),
                out@ == escaped_prefix(s@, i as int),
            decreases s.len() - i,
        {
            let c = s[i];
            let inline = c == '\\' || c == '`' || c == '*' || c == '_' || c == '[' || c == ']' || c == '<' || c == '>' || c
                == '!';
            let leading = c == '#' || c == '>' || c == '-' || c == '*' || c == '+' || c == '~';
            if inline || (i == 0 && leading) {
                out.push('\\');
            }
            out.push(c);
            i = i + 1;
        }
        string_of(out.as_slice())
    }

    /// The names of the hidden sheets of a workbook.
    pub fn hidden_sheet_names(workbook: &ExcelWorkbook) -> (r: Vec<Vec<char>>)
        ensures
            text::texts(r@) == hidden_names(document::pairs(workbook.metadata@)),
    {
        proof {
            reveal_strlit(", ");
        }
        match find_value(workbook.metadata.as_slice(), "hidden_sheets") {
            Some(names) => split_str(chars_of(names.as_str()).as_slice(), ", "),
            None => {
                let none: Vec<Vec<char>> = Vec::new();
                proof {
                    assert(text::texts(none@) =~= Seq::<Seq<char>>::empty());
                }
                none
            },
        }
    }

    /// Builds the document of a workbook: its sheets with what stands on them, then the pictures and
    /// the shapes that stand on no sheet.
    pub fn build_internal_document(
        workbook: &ExcelWorkbook,
        pictures: Vec<XlsxPicture>,
        shapes: Vec<XlsxShapeText>,
    ) -> (r: InternalDocument)
        ensures
            r@ == workbook_content(
                sheets(workbook.sheets@),
                hidden_names(document::pairs(workbook.metadata@)),
                pictures@,
                shapes@,
            ),
            document::is_blank_metadata(r.metadata),
    {
        let ghost book = sheets(workbook.sheets@);
        let ghost hidden = hidden_names(document::pairs(workbook.metadata@));
        let hidden_sheets = Self::hidden_sheet_names(workbook);
        let drawings = place_drawings(workbook.sheets.as_slice(), pictures, shapes);
        let ghost over = drawings.overlay();
        let mut doc = InternalDocument::new("excel");
        let mut pages: Vec<PageContent> = Vec::new();
        let mut picture: usize = 0;
        let mut shape: usize = 0;
        let mut i: usize = 0;
        proof {
            assert(document::pages(pages@) =~= Seq::<document::PageData>::empty());
        }
        while i < workbook.sheets.len()
            invariant
                i <= workbook.sheets.len(),
                book == sheets(workbook.sheets@),
                text::texts(hidden_sheets@) == hidden,
                drawings.well_formed(),
                over == drawings.overlay(),
                picture <= drawings.picture_order@.len(),
                shape <= drawings.shape_order@.len(),
                document::is_blank_metadata(doc.metadata),
                sheets_added(book, hidden, over, i as int) == (Assembly {
                    content: doc@,
                    pages: document::pages(pages@),
                    picture: picture as int,
                    shape: shape as int,
                }),
            decreases workbook.sheets.len() - i,
        {
            let sheet = &workbook.sheets[i];
            proof {
                assert(book[i as int] == sheet@);
            }
            let is_hidden = names_contain(hidden_sheets.as_slice(), sheet.name.as_str());
            let ghost before = pages@;
            let (content, next_picture, next_shape) = push_whole_sheet(
                &mut doc,
                sheet,
                is_hidden,
                &drawings,
                picture,
                shape,
                truncate_u32(i + 1),
            );
            proof {
                assert(document::pages(before.push(content)) =~= document::pages(before).push(content@));
            }
            pages.push(content);
            picture = next_picture;
            shape = next_shape;
            i = i + 1;
        }
        let ghost placed = doc@;
        let ghost first = picture;
        while picture < drawings.picture_order.len()
            invariant
                drawings.well_formed(),
                over == drawings.overlay(),
                first <= picture <= drawings.picture_order@.len(),
                document::is_blank_metadata(doc.metadata),
                doc@ == over.with_pictures(placed, first as int, picture as int, None),
            decreases drawings.picture_order.len() - picture,
        {
            push_picture(&mut doc, &drawings.pictures[drawings.picture_order[picture].item], None);
            picture = picture + 1;
        }
        push_sheet_shapes(&mut doc, &drawings, shape, 0);
        let ghost shaped = doc@;
        doc.prebuilt_pages = Some(pages);
        proof {
            assert(doc@ =~= document::Content { pages: Some(document::pages(pages@)), ..shaped });
        }
        doc
    }
}

/// Whether a name has a field of its own in the metadata of a document.
pub open spec fn has_own_field(name: Seq<char>) -> bool {
    name == "title"@ || name == "subject"@ || name == "created_by"@ || name == "creator"@ || name == "modified_by"@
        || name == "created_at"@ || name == "modified_at"@ || name == "keywords"@ || name == "language"@
}

/// The entries without a field of their own.
pub open spec fn other_entries(entries: Seq<(Seq<char>, Seq<char>)>) -> Seq<(Seq<char>, Seq<char>)>
    decreases entries.len(),
{
    if entries.len() == 0 {
        Seq::empty()
    } else {
        let before = other_entries(entries.drop_last());
        if has_own_field(entries.last().0) {
            before
        } else {
            before.push(entries.last())
        }
    }
}

/// The pieces of a text that hold more than white space, without the white space around them.
pub open spec fn trimmed_pieces(pieces: Seq<Seq<char>>) -> Seq<Seq<char>>
    decreases pieces.len(),
{
    if pieces.len() == 0 {
        Seq::empty()
    } else {
        let before = trimmed_pieces(pieces.drop_last());
        let piece = text::trimmed(pieces.last());
        if piece.len() > 0 {
            before.push(piece)
        } else {
            before
        }
    }
}

/// The author that a workbook names.
pub open spec fn creator_of(entries: Seq<(Seq<char>, Seq<char>)>) -> Option<Seq<char>> {
    match document::value_of(entries, "created_by"@) {
        Some(name) => Some(name),
        None => document::value_of(entries, "creator"@),
    }
}

/// Whether metadata say what a workbook says of itself.
pub open spec fn describes_workbook(
    m: Metadata,
    entries: Seq<(Seq<char>, Seq<char>)>,
    book: Seq<SheetData>,
) -> bool {
    &&& document::opt_text(m.title) == document::value_of(entries, "title"@)
    &&& document::opt_text(m.subject) == document::value_of(entries, "subject"@)
    &&& document::opt_text(m.created_by) == creator_of(entries)
    &&& document::opt_text(m.modified_by) == document::value_of(entries, "modified_by"@)
    &&& document::opt_text(m.created_at) == document::value_of(entries, "created_at"@)
    &&& document::opt_text(m.modified_at) == document::value_of(entries, "modified_at"@)
    &&& document::opt_text(m.language) == document::value_of(entries, "language"@)
    &&& document::opt_texts(m.authors) == match creator_of(entries) {
        Some(name) => Some(seq![name]),
        None => None,
    }
    &&& document::opt_texts(m.keywords) == match document::value_of(entries, "keywords"@) {
        Some(words) => Some(trimmed_pieces(text::split_on(words, ','))),
        None => None,
    }
    &&& json::members(m.additional@) == document::text_members(other_entries(entries))
    &&& m.format matches Some(FormatMetadata::Excel(meta))
    &&& meta.sheet_count == Some(book.len() as u32)
    &&& document::opt_texts(meta.sheet_names) == Some(book.map_values(|s: SheetData| s.name))
}

fn keyword_list(words: &str) -> (r: Vec<String>)
    ensures
        text::strings(r@) == trimmed_pieces(text::split_on(words@, ',')),
{
    let pieces = split_chars(chars_of(words).as_slice(), ',');
    let ghost all = text::texts(pieces@);
    let mut out: Vec<String> = Vec::new();
    let mut i: usize = 0;
    proof {
        assert(text::strings(out@) =~= Seq::<Seq<char>>::empty());
    }
    while i < pieces.len()
        invariant
            i <= pieces.len(),
            all == text::texts(pieces@),
            text::strings(out@) == trimmed_pieces(all.take(i as int)),
        decreases pieces.len() - i,
    {
        let piece = trim(pieces[i].as_slice());
        proof {
            assert(all.take(i + 1).drop_last() =~= all.take(i as int));
            assert(all.take(i + 1).last() == pieces@[i as int]@);
        }
        if piece.len() > 0 {
            let word = string_of(piece);
            proof {
                assert(text::strings(out@.push(word)) =~= text::strings(out@).push(word@));
            }
            out.push(word);
        }
        i = i + 1;
    }
    proof {
        assert(all.take(all.len() as int) =~= all);
    }
    out
}

fn other_metadata(entries: &[(String, String)]) -> (r: Vec<(String, JsonValue)>)
    ensures
        json::members(r@) == document::text_members(other_entries(document::pairs(entries@))),
{
    let ghost all = document::pairs(entries@);
    let mut out: Vec<(String, JsonValue)> = Vec::new();
    let mut i: usize = 0;
    proof {
        assert(json::members(out@) =~= document::text_members(other_entries(all.take(0))));
    }
    while i < entries.len()
        invariant
            i <= entries.len(),
            all == document::pairs(entries@),
            json::members(out@) == document::text_members(other_entries(all.take(i as int))),
        decreases entries.len() - i,
    {
        let name = entries[i].0.as_str();
        proof {
            assert(all.take(i + 1).drop_last() =~= all.take(i as int));
            assert(all.take(i + 1).last() == (entries@[i as int].0@, entries@[i as int].1@));
        }
        let own = same_str(name, "title") || same_str(name, "subject") || same_str(name, "created_by") || same_str(
            name,
            "creator",
        ) || same_str(name, "modified_by") || same_str(name, "created_at") || same_str(name, "modified_at")
            || same_str(name, "keywords") || same_str(name, "language");
        if !own {
            let entry = (entries[i].0.clone(), JsonValue::Text(entries[i].1.clone()));
            proof {
                assert(json::members(out@.push(entry)) =~= json::members(out@).push((entry.0@, entry.1@)));
                assert(document::text_members(other_entries(all.take(i + 1))) =~= document::text_members(
                    other_entries(all.take(i as int)),
                ).push((entry.0@, entry.1@)));
            }
            out.push(entry);
        }
        i = i + 1;
    }
    proof {
        assert(all.take(all.len() as int) =~= all);
    }
    out
}

fn sheet_names(book: &[ExcelSheet]) -> (r: Vec<String>)
    ensures
        text::strings(r@) == sheets(book@).map_values(|s: SheetData| s.name),
{
    let mut out: Vec<String> = Vec::new();
    let mut i: usize = 0;
    while i < book.len()
        invariant
            i <= book.len(),
            out@.len() == i,
            forall|k: int| 0 <= k < i ==> (#[trigger] out@[k])@ == book@[k].name@,
        decreases book.len() - i,
    {
        out.push(book[i].name.clone());
        i = i + 1;
    }
    proof {
        assert(text::strings(out@) =~= sheets(book@).map_values(|s: SheetData| s.name));
    }
    out
}

fn workbook_metadata(workbook: &ExcelWorkbook) -> (r: Metadata)
    ensures
        describes_workbook(r, document::pairs(workbook.metadata@), sheets(workbook.sheets@)),
{
    let entries = workbook.metadata.as_slice();
    let created_by = match find_value(entries, "created_by") {
        Some(name) => Some(name),
        None => find_value(entries, "creator"),
    };
    let authors = match &created_by {
        Some(name) => {
            let list = vec![name.clone()];
            proof {
                assert(text::strings(list@) =~= seq![name@]);
            }
            Some(list)
        },
        None => None,
    };
    let keywords = match find_value(entries, "keywords") {
        Some(words) => Some(keyword_list(words.as_str())),
        None => None,
    };
    Metadata {
        title: find_value(entries, "title"),
        subject: find_value(entries, "subject"),
        authors,
        keywords,
        language: find_value(entries, "language"),
        created_at: find_value(entries, "created_at"),
        modified_at: find_value(entries, "modified_at"),
        created_by,
        modified_by: find_value(entries, "modified_by"),
        format: Some(
            FormatMetadata::Excel(
                ExcelMetadata {
                    sheet_count: Some(truncate_u32(workbook.sheets.len())),
                    sheet_names: Some(sheet_names(workbook.sheets.as_slice())),
                },
            ),
        ),
        additional: other_metadata(entries),
    }
}

/// Appends warnings to those of a document.
pub fn append_warnings(doc: &mut InternalDocument, more: Vec<ProcessingWarning>)
    ensures
        final(doc)@ == (document::Content {
            warnings: old(doc)@.warnings + document::warnings(more@),
            ..old(doc)@
        }),
        final(doc).metadata == old(doc).metadata,
{
    let ghost before = doc.processing_warnings@;
    let ghost added = more@;
    let mut rest = more;
    doc.processing_warnings.append(&mut rest);
    proof {
        assert(document::warnings(before + added) =~= document::warnings(before) + document::warnings(added));
        assert(doc.processing_warnings@ =~= before + added);
        assert(doc@ =~= (document::Content {
            warnings: old(doc)@.warnings + document::warnings(more@),
            ..old(doc)@
        }));
    }
}

/// Content with the text of each embedded object that holds more than white space, as a paragraph.
pub open spec fn with_object_texts(c: document::Content, objects: Seq<document::ObjectData>) -> document::Content
    decreases objects.len(),
{
    if objects.len() == 0 {
        c
    } else {
        let before = with_object_texts(c, objects.drop_last());
        if text::trimmed(objects.last().content).len() == 0 {
            before
        } else {
            before.with_element(document::bare(ElementKind::Paragraph, objects.last().content, 0))
        }
    }
}

/// Content with embedded objects: the objects themselves, if there are any, and their text in the body.
pub open spec fn with_objects(c: document::Content, objects: Seq<document::ObjectData>) -> document::Content {
    if objects.len() == 0 {
        c
    } else {
        document::Content { children: Some(objects), ..with_object_texts(c, objects) }
    }
}

/// Attaches embedded objects to a document, merges their text into its body, and appends what went less than
/// perfectly when they were read.
pub fn attach_embedded_objects(
    doc: &mut InternalDocument,
    objects: Vec<EmbeddedObject>,
    warnings: Vec<ProcessingWarning>,
)
    ensures
        final(doc)@ == ({
            let attached = with_objects(old(doc)@, document::objects(objects@));
            document::Content { warnings: old(doc)@.warnings + document::warnings(warnings@), ..attached }
        }),
        final(doc).metadata == old(doc).metadata,
{
    let ghost start = doc@;
    let ghost all = document::objects(objects@);
    let mut i: usize = 0;
    proof {
        assert(all.take(0) =~= Seq::empty());
    }
    while i < objects.len()
        invariant
            i <= objects.len(),
            all == document::objects(objects@),
            start == old(doc)@,
            doc@ == with_object_texts(start, all.take(i as int)),
            doc@.warnings == start.warnings,
            doc.metadata == old(doc).metadata,
        decreases objects.len() - i,
    {
        proof {
            assert(all.take(i + 1).drop_last() =~= all.take(i as int));
            assert(all.take(i + 1).last() == objects@[i as int]@);
        }
        if !is_blank(objects[i].content.as_str()) {
            doc.push_text(ElementKind::Paragraph, objects[i].content.clone(), 0);
        }
        i = i + 1;
    }
    proof {
        assert(all.take(all.len() as int) =~= all);
    }
    let ghost merged = doc@;
    if objects.len() > 0 {
        doc.children = Some(objects);
        proof {
            assert(doc@ =~= (document::Content { children: Some(all), ..merged }));
        }
    }
    append_warnings(doc, warnings);
}

impl ExcelExtractor {
    /// The document of a workbook, with what the workbook says of itself, its tracked changes and a warning about each
    /// formula that may reach outside.
    pub fn workbook_to_internal_document(
        workbook: &ExcelWorkbook,
        pictures: Vec<XlsxPicture>,
        shapes: Vec<XlsxShapeText>,
    ) -> (r: InternalDocument)
        ensures
            r@ == warned_content(*workbook, pictures@, shapes@),
            describes_workbook(r.metadata, document::pairs(workbook.metadata@), sheets(workbook.sheets@)),
    {
        let mut doc = Self::build_internal_document(workbook, pictures, shapes);
        doc.metadata = workbook_metadata(workbook);
        doc.revisions = match &workbook.revisions {
            Some(list) => Some(copy_strings(list.as_slice())),
            None => None,
        };
        append_warnings(&mut doc, scan_for_dde_warnings(workbook));
        proof {
            law_every_sheet_is_a_page_and_every_picture_an_image(
                sheets(workbook.sheets@),
                hidden_names(document::pairs(workbook.metadata@)),
                pictures@,
                shapes@,
            );
            assert(doc@.warnings =~= warned_content(*workbook, pictures@, shapes@).warnings);
        }
        doc
    }

    /// The document of a workbook that was read with some warnings, if it is within the ceilings.
    pub fn extract_workbook(
        &self,
        workbook: &ExcelWorkbook,
        read_warnings: Vec<ProcessingWarning>,
        pictures: Vec<XlsxPicture>,
        shapes: Vec<XlsxShapeText>,
        mime_type: &str,
        config: &ExtractionConfig,
    ) -> (r: Result<InternalDocument, XbergError>)
        ensures
            match workbook_charged(
                security::configured_budget(*config),
                sheets(workbook.sheets@),
                shape_texts(shapes@),
            ).1 {
                Ok(()) => {
                    &&& r matches Ok(doc)
                    &&& doc@ == (document::Content {
                        mime_type: mime_type@,
                        warnings: warned_content(*workbook, pictures@, shapes@).warnings + document::warnings(
                            read_warnings@,
                        ),
                        ..warned_content(*workbook, pictures@, shapes@)
                    })
                    &&& describes_workbook(
                        doc.metadata,
                        document::pairs(workbook.metadata@),
                        sheets(workbook.sheets@),
                    )
                },
                Err(limit) => r is Err && error::reports(r->Err_0, limit),
            },
    {
        let mut budget = SecurityBudget::from_config(config);
        match charge_workbook_budget(workbook, shapes.as_slice(), &mut budget) {
            Ok(()) => {},
            Err(error) => {
                return Err(error);
            },
        }
        let mut doc = Self::workbook_to_internal_document(workbook, pictures, shapes);
        append_warnings(&mut doc, read_warnings);
        doc.mime_type = mime_type.to_owned();
        Ok(doc)
    }
}

/// The content of a workbook with its tracked changes and a warning about each formula that may reach outside.
pub open spec fn warned_content(
    workbook: ExcelWorkbook,
    pictures: Seq<XlsxPicture>,
    shapes: Seq<XlsxShapeText>,
) -> document::Content {
    let book = sheets(workbook.sheets@);
    document::Content {
        warnings: book_warnings(book, book.len() as int),
        revisions: document::opt_texts(workbook.revisions),
        ..workbook_content(book, hidden_names(document::pairs(workbook.metadata@)), pictures, shapes)
    }
}

} // verus!
