//! Laws of workbooks.
use crate::document;
use crate::document::ElementKind;
use crate::excel;
use crate::excel::{Overlay, Placement, SheetData, XlsxPicture, XlsxShapeText};
use crate::laws::structured::headings;
use vstd::prelude::*;

verus! {

/// Whether a sheet was read and has a row.
pub open spec fn is_filled(sheet: SheetData) -> bool {
    match sheet.cells {
        Some(cells) => cells.len() > 0,
        None => false,
    }
}

/// How many of the first sheets have rows.
pub open spec fn filled(book: Seq<SheetData>, n: int) -> nat
    decreases n,
{
    if n <= 0 {
        0
    } else if is_filled(book[n - 1]) {
        filled(book, n - 1) + 1
    } else {
        filled(book, n - 1)
    }
}

/// The titles of the first sheets that have rows and a name; hidden ones are told.
pub open spec fn titles(book: Seq<SheetData>, hidden: Seq<Seq<char>>, n: int) -> Seq<(u8, Seq<char>)>
    decreases n,
{
    if n <= 0 {
        Seq::empty()
    } else {
        let name = book[n - 1].name;
        if !is_filled(book[n - 1]) || name.len() == 0 {
            titles(book, hidden, n - 1)
        } else if hidden.contains(name) {
            titles(book, hidden, n - 1).push((2, name + " (hidden)"@))
        } else {
            titles(book, hidden, n - 1).push((2, name))
        }
    }
}

/// The paragraphs of elements, in order, each with its page.
pub open spec fn paragraphs(elements: Seq<document::Element>) -> Seq<(Option<u32>, Seq<char>)>
    decreases elements.len(),
{
    if elements.len() == 0 {
        Seq::empty()
    } else if elements.last().kind is Paragraph {
        paragraphs(elements.drop_last()).push((elements.last().page, elements.last().text))
    } else {
        paragraphs(elements.drop_last())
    }
}

/// The tables that elements stand for, in order, each with its page.
pub open spec fn table_marks(elements: Seq<document::Element>) -> Seq<(Option<u32>, u32)>
    decreases elements.len(),
{
    if elements.len() == 0 {
        Seq::empty()
    } else {
        match elements.last().kind {
            ElementKind::Table { table_index } => table_marks(elements.drop_last()).push(
                (elements.last().page, table_index),
            ),
            _ => table_marks(elements.drop_last()),
        }
    }
}

/// The images that elements stand for, in order, each with its page.
pub open spec fn image_marks(elements: Seq<document::Element>) -> Seq<(Option<u32>, u32)>
    decreases elements.len(),
{
    if elements.len() == 0 {
        Seq::empty()
    } else {
        match elements.last().kind {
            ElementKind::Image { image_index } => image_marks(elements.drop_last()).push(
                (elements.last().page, image_index),
            ),
            _ => image_marks(elements.drop_last()),
        }
    }
}

proof fn lemma_pushed(x: Seq<document::Element>, e: document::Element)
    ensures
        headings(x.push(e)) == match e.kind {
            ElementKind::Heading { level } => headings(x).push((level, e.text)),
            _ => headings(x),
        },
        paragraphs(x.push(e)) == if e.kind is Paragraph {
            paragraphs(x).push((e.page, e.text))
        } else {
            paragraphs(x)
        },
        table_marks(x.push(e)) == match e.kind {
            ElementKind::Table { table_index } => table_marks(x).push((e.page, table_index)),
            _ => table_marks(x),
        },
        image_marks(x.push(e)) == match e.kind {
            ElementKind::Image { image_index } => image_marks(x).push((e.page, image_index)),
            _ => image_marks(x),
        },
{
    assert(x.push(e).drop_last() =~= x);
}

/// What pictures add to a document.
#[verifier::spinoff_prover]
#[verifier::rlimit(60)]
proof fn lemma_pictures(over: Overlay, c: document::Content, from: int, to: int, page: Option<u32>)
    requires
        0 <= from <= to <= over.picture_order.len(),
    ensures
        ({
            let after = over.with_pictures(c, from, to, page);
            &&& after.tables == c.tables
            &&& headings(after.elements) == headings(c.elements)
            &&& paragraphs(after.elements) == paragraphs(c.elements)
            &&& table_marks(after.elements) == table_marks(c.elements)
            &&& after.images.len() == c.images.len() + (to - from)
            &&& after.images.take(c.images.len() as int) == c.images
            &&& forall|k: int|
                from <= k < to ==> {
                    let image = #[trigger] after.images[c.images.len() + (k - from)];
                    let picture = over.pictures[over.picture_order[k].item as int];
                    shows(image, picture) && image.page_number == page
                }
            &&& image_marks(c.elements).len() == c.images.len() ==> image_marks(after.elements).len()
                == after.images.len() && image_marks(after.elements).take(c.images.len() as int) == image_marks(
                c.elements,
            ) && forall|k: int|
                c.images.len() <= k < after.images.len() ==> (#[trigger] image_marks(after.elements)[k]).0 == page
                    && image_marks(after.elements)[k].1 == k as u32
        }),
    decreases to - from,
{
    let after = over.with_pictures(c, from, to, page);
    if from < to {
        let before = over.with_pictures(c, from, to - 1, page);
        lemma_pictures(over, c, from, to - 1, page);
        lemma_pushed(before.elements, after.elements.last());
        assert(after.elements =~= before.elements.push(after.elements.last()));
        assert(after.images.take(c.images.len() as int) =~= c.images) by {
            assert(before.images.take(c.images.len() as int) =~= c.images);
            assert forall|k: int| 0 <= k < c.images.len() implies after.images[k] == c.images[k] by {
                assert(before.images.take(c.images.len() as int)[k] == c.images[k]);
            }
        }
        assert forall|k: int| from <= k < to implies ({
            let image = #[trigger] after.images[c.images.len() + (k - from)];
            let picture = over.pictures[over.picture_order[k].item as int];
            shows(image, picture) && image.page_number == page
        }) by {
            if k < to - 1 {
                assert(after.images[c.images.len() + (k - from)] == before.images[c.images.len() + (k - from)]);
            }
        }
        if image_marks(c.elements).len() == c.images.len() {
            let marks = image_marks(after.elements);
            let earlier = image_marks(before.elements);
            assert(marks =~= earlier.push((page, before.images.len() as u32)));
            assert(marks.take(c.images.len() as int) =~= earlier.take(c.images.len() as int));
            assert forall|k: int| c.images.len() <= k < after.images.len() implies (#[trigger] marks[k]).0 == page
                && marks[k].1 == k as u32 by {
                if k < before.images.len() {
                    assert(marks[k] == earlier[k]);
                }
            }
        }
    } else {
        assert(after.images.take(c.images.len() as int) =~= c.images);
        assert(image_marks(c.elements).len() == c.images.len() ==> image_marks(c.elements).take(c.images.len() as int)
            =~= image_marks(c.elements));
    }
}

/// Whether an image is a picture: its bytes, their format, where it was stored and what it shows.
pub open spec fn shows(image: document::ImageData, picture: XlsxPicture) -> bool {
    &&& image.data == picture.data@
    &&& image.format == picture.format@
    &&& image.source_path == Some(picture.source_path@)
    &&& image.description is Some <==> picture.description is Some
    &&& picture.description is Some ==> image.description->0 == picture.description->0@
}

/// What shapes add to a document.
#[verifier::spinoff_prover]
#[verifier::rlimit(60)]
proof fn lemma_shapes(over: Overlay, c: document::Content, from: int, to: int, page: u32)
    requires
        0 <= from <= to <= over.shape_order.len(),
    ensures
        ({
            let after = over.with_shapes(c, from, to, page);
            let p = if page > 0 {
                Some(page)
            } else {
                None
            };
            let n = paragraphs(c.elements).len();
            &&& after.tables == c.tables
            &&& after.images == c.images
            &&& headings(after.elements) == headings(c.elements)
            &&& table_marks(after.elements) == table_marks(c.elements)
            &&& image_marks(after.elements) == image_marks(c.elements)
            &&& paragraphs(after.elements).len() == n + (to - from)
            &&& paragraphs(after.elements).take(n as int) == paragraphs(c.elements)
            &&& forall|k: int|
                from <= k < to ==> (#[trigger] paragraphs(after.elements)[n + (k - from)]).0 == p && paragraphs(
                    after.elements,
                )[n + (k - from)].1 == over.shapes[over.shape_order[k].item as int].text@
        }),
    decreases to - from,
{
    let after = over.with_shapes(c, from, to, page);
    let n = paragraphs(c.elements).len();
    if from < to {
        let before = over.with_shapes(c, from, to - 1, page);
        lemma_shapes(over, c, from, to - 1, page);
        lemma_pushed(before.elements, after.elements.last());
        assert(after.elements =~= before.elements.push(after.elements.last()));
        let now = paragraphs(after.elements);
        let earlier = paragraphs(before.elements);
        assert(now.take(n as int) =~= earlier.take(n as int));
        let p = if page > 0 {
            Some(page)
        } else {
            None
        };
        assert forall|k: int| from <= k < to implies (#[trigger] now[n + (k - from)]).0 == p && now[n + (k - from)].1
            == over.shapes[over.shape_order[k].item as int].text@ by {
            if k < to - 1 {
                assert(now[n + (k - from)] == earlier[n + (k - from)]);
            }
        }
    } else {
        assert(paragraphs(c.elements).take(n as int) =~= paragraphs(c.elements));
    }
}

/// Whether the items of an order are placed where their pages say.
spec fn is_placed(order: Seq<Placement>, pages: Seq<Option<u32>>) -> bool {
    &&& excel::in_order(order)
    &&& forall|k: int|
        0 <= k < order.len() ==> (#[trigger] order[k]).item < pages.len() && order[k].page == (
        match pages[order[k].item as int] {
            Some(page) => page,
            None => u32::MAX,
        }) && order[k].page > 0
}

/// Whether an item stands in an order.
spec fn is_listed(order: Seq<Placement>, item: int) -> bool {
    exists|k: int| 0 <= k < order.len() && (#[trigger] order[k]).item == item
}

/// Whether a position of an order parts what stands on the first pages from the rest.
spec fn parts(order: Seq<Placement>, position: int, page: int) -> bool {
    &&& 0 <= position <= order.len()
    &&& forall|k: int| 0 <= k < position ==> (#[trigger] order[k]).page <= page
    &&& forall|k: int| position <= k < order.len() ==> (#[trigger] order[k]).page > page
}

proof fn lemma_pictures_end(over: Overlay, from: int, page: u32)
    requires
        is_placed(over.picture_order, over.picture_pages),
        0 <= from <= over.picture_order.len(),
        forall|k: int| 0 <= k < from ==> (#[trigger] over.picture_order[k]).page <= page,
        forall|k: int| from <= k < over.picture_order.len() ==> (#[trigger] over.picture_order[k]).page >= page,
        0 < page < u32::MAX,
    ensures
        parts(over.picture_order, over.pictures_end(from, page), page as int),
        from <= over.pictures_end(from, page),
        forall|k: int|
            from <= k < over.pictures_end(from, page) ==> (#[trigger] over.picture_order[k]).page == page,
    decreases over.picture_order.len() - from,
{
    let order = over.picture_order;
    if from < order.len() {
        if over.picture_pages[order[from].item as int] == Some(page) {
            lemma_pictures_end(over, from + 1, page);
        } else {
            assert(order[from].page > page);
            assert forall|k: int| from <= k < order.len() implies (#[trigger] order[k]).page > page by {
                if k > from {
                    assert(excel::placed_before(order[from], order[k]));
                }
            }
        }
    }
}

proof fn lemma_shapes_end(over: Overlay, from: int, page: u32)
    requires
        is_placed(over.shape_order, over.shape_pages),
        0 <= from <= over.shape_order.len(),
        forall|k: int| 0 <= k < from ==> (#[trigger] over.shape_order[k]).page <= page,
        forall|k: int| from <= k < over.shape_order.len() ==> (#[trigger] over.shape_order[k]).page >= page,
        0 < page < u32::MAX,
    ensures
        parts(over.shape_order, over.shapes_end(from, page), page as int),
        from <= over.shapes_end(from, page),
        forall|k: int| from <= k < over.shapes_end(from, page) ==> (#[trigger] over.shape_order[k]).page == page,
    decreases over.shape_order.len() - from,
{
    let order = over.shape_order;
    if from < order.len() {
        let known = over.shape_pages[order[from].item as int];
        if (match known {
            Some(p) => p,
            None => 0,
        }) == page {
            lemma_shapes_end(over, from + 1, page);
        } else {
            assert(order[from].page > page);
            assert forall|k: int| from <= k < order.len() implies (#[trigger] order[k]).page > page by {
                if k > from {
                    assert(excel::placed_before(order[from], order[k]));
                }
            }
        }
    }
}

/// Shapes of unknown pages, up to the last.
proof fn lemma_unknown_shapes_end(over: Overlay, from: int)
    requires
        is_placed(over.shape_order, over.shape_pages),
        0 <= from <= over.shape_order.len(),
        forall|k: int|
            from <= k < over.shape_order.len() ==> over.shape_pages[(#[trigger] over.shape_order[k]).item as int] is None,
    ensures
        over.shapes_end(from, 0) == over.shape_order.len(),
    decreases over.shape_order.len() - from,
{
    if from < over.shape_order.len() {
        assert(over.shape_pages[over.shape_order[from].item as int] is None);
        lemma_unknown_shapes_end(over, from + 1);
    }
}

/// What holds of the first sheets of a workbook.
spec fn holds_sheets(a: excel::Assembly, book: Seq<SheetData>, hidden: Seq<Seq<char>>, over: Overlay, n: int) -> bool {
    let doc = a.content;
    &&& a.pages.len() == n
    &&& doc.tables.len() == filled(book, n)
    &&& forall|i: int|
        0 <= i < n ==> #[trigger] page_shows(a.pages[i], doc.tables, book, hidden, i)
    &&& headings(doc.elements) == titles(book, hidden, n)
    &&& table_marks(doc.elements).len() == doc.tables.len()
    &&& forall|k: int|
        0 <= k < doc.tables.len() ==> #[trigger] table_marks(doc.elements)[k] == (
            Some(doc.tables[k].page_number),
            k as u32,
        )
}

/// Whether a page shows a sheet: its table, if it has rows, is the table of the document that stands for the sheet
/// and holds all its cells, and its text ends in the sheet as Markdown, below its name.
pub open spec fn page_shows(
    page: document::PageData,
    tables: Seq<document::TableData>,
    book: Seq<SheetData>,
    hidden: Seq<Seq<char>>,
    i: int,
) -> bool {
    let sheet = book[i];
    let above = if sheet.name.len() == 0 {
        Seq::empty()
    } else if hidden.contains(sheet.name) {
        "## "@ + excel::heading_text(sheet.name) + " (hidden)\n\n"@
    } else {
        "## "@ + excel::heading_text(sheet.name) + "\n\n"@
    };
    &&& page.page_number == i + 1
    &&& sheet.name.len() > 0 ==> page.sheet_name == Some(sheet.name)
    &&& sheet.name.len() == 0 ==> page.sheet_name is None
    &&& is_filled(sheet) ==> {
        let k = filled(book, i) as int;
        &&& 0 <= k < tables.len()
        &&& tables[k].page_number == i + 1
        &&& tables[k].cells.len() == sheet.cells->0.len()
        &&& forall|row: int| 0 <= row < sheet.cells->0.len() ==> #[trigger] tables[k].cells[row] == sheet.cells->0[row]
        &&& tables[k].markdown == sheet.markdown
        &&& page.tables == seq![tables[k]]
        &&& page.content == above + sheet.markdown
        &&& page.is_blank == Some(false)
    }
    &&& !is_filled(sheet) ==> page.tables.len() == 0 && page.content == above
    &&& page.image_indices.len() > 0 ==> page.is_blank == Some(false)
}

proof fn lemma_filled_grows(book: Seq<SheetData>, i: int, n: int)
    requires
        0 <= i <= n,
    ensures
        filled(book, i) <= filled(book, n) <= n,
    decreases n,
{
    if i < n {
        lemma_filled_grows(book, i, n - 1);
    } else if n > 0 {
        lemma_filled_grows(book, n - 1, n - 1);
    }
}

proof fn lemma_hidden_marks()
    ensures
        " (hidden)"@ + "\n\n"@ == " (hidden)\n\n"@,
        ""@ == Seq::<char>::empty(),
{
    reveal_strlit(" (hidden)");
    reveal_strlit("\n\n");
    reveal_strlit(" (hidden)\n\n");
    reveal_strlit("");
    assert(" (hidden)"@ + "\n\n"@ =~= " (hidden)\n\n"@);
    assert(""@ =~= Seq::<char>::empty());
}

#[verifier::spinoff_prover]
#[verifier::rlimit(60)]
proof fn lemma_holds_sheets(book: Seq<SheetData>, hidden: Seq<Seq<char>>, over: Overlay, n: int)
    requires
        0 <= n <= book.len(),
        book.len() < u32::MAX,
    ensures
        holds_sheets(excel::sheets_added(book, hidden, over, n), book, hidden, over, n),
        0 <= excel::sheets_added(book, hidden, over, n).picture <= over.picture_order.len(),
        0 <= excel::sheets_added(book, hidden, over, n).shape <= over.shape_order.len(),
    decreases n,
{
    let a = excel::sheets_added(book, hidden, over, n);
    if n > 0 {
        lemma_holds_sheets(book, hidden, over, n - 1);
        lemma_hidden_marks();
        let b = excel::sheets_added(book, hidden, over, n - 1);
        let page = n as u32;
        let sheet = book[n - 1];
        let is_hidden = hidden.contains(sheet.name);
        over.lemma_ends(b.picture, page);
        over.lemma_ends(b.shape, page);
        let tabled = excel::with_sheet(b.content, sheet, page, is_hidden);
        let picture = over.pictures_end(b.picture, page);
        let shape = over.shapes_end(b.shape, page);
        let pictured = over.with_pictures(tabled, b.picture, picture, Some(page));
        lemma_pictures(over, tabled, b.picture, picture, Some(page));
        lemma_shapes(over, pictured, b.shape, shape, page);
        let doc = a.content;
        let title = document::bare(
            ElementKind::Heading { level: 2 },
            sheet.name + excel::hidden_suffix(is_hidden),
            0,
        );
        lemma_pushed(b.content.elements, title);
        if is_filled(sheet) {
            let headed = if sheet.name.len() > 0 {
                b.content.with_element(title)
            } else {
                b.content
            };
            lemma_pushed(headed.elements, tabled.elements.last());
            assert(tabled.elements =~= headed.elements.push(tabled.elements.last()));
            assert(sheet.name + Seq::<char>::empty() =~= sheet.name);
        }
        assert(doc.tables == tabled.tables);
        assert(headings(doc.elements) == titles(book, hidden, n));
        assert forall|i: int| 0 <= i < n implies #[trigger] page_shows(a.pages[i], doc.tables, book, hidden, i) by {
            lemma_filled_grows(book, i, i + 1);
            lemma_filled_grows(book, i + 1, n);
            if i < n - 1 {
                assert(page_shows(b.pages[i], b.content.tables, book, hidden, i));
                assert(a.pages[i] == b.pages[i]);
                lemma_filled_grows(book, i + 1, n - 1);
            } else {
                let k = filled(book, i) as int;
                assert(is_filled(sheet) ==> doc.tables[k] == excel::sheet_table(sheet, page));
                assert("## "@ + excel::heading_text(sheet.name) + (" (hidden)"@ + "\n\n"@) =~= "## "@
                    + excel::heading_text(sheet.name) + " (hidden)"@ + "\n\n"@);
                assert("## "@ + excel::heading_text(sheet.name) + ""@ =~= "## "@ + excel::heading_text(sheet.name));
                assert(a.pages[i].content =~= a.pages[i].content + Seq::<char>::empty());
                assert(is_filled(sheet) ==> a.pages[i].is_blank == Some(false));
            }
        }
        assert forall|k: int| 0 <= k < doc.tables.len() implies #[trigger] table_marks(doc.elements)[k] == (
            Some(doc.tables[k].page_number),
            k as u32,
        ) by {
            if k < b.content.tables.len() {
                assert(table_marks(b.content.elements)[k] == (Some(b.content.tables[k].page_number), k as u32));
            }
        }
    }
}

/// Every sheet of a workbook with rows has one table, which holds all its cells and stands on the page of the sheet;
/// there are no other tables. The tables stand in the document in the order of the sheets, below their names.
pub proof fn law_every_sheet_with_rows_has_its_table(
    book: Seq<SheetData>,
    hidden: Seq<Seq<char>>,
    pictures: Seq<XlsxPicture>,
    shapes: Seq<XlsxShapeText>,
)
    requires
        book.len() < u32::MAX,
    ensures
        ({
            let doc = excel::workbook_content(book, hidden, pictures, shapes);
            &&& doc.tables.len() == filled(book, book.len() as int)
            &&& doc.pages->0.len() == book.len()
            &&& forall|i: int|
                0 <= i < book.len() ==> #[trigger] page_shows(doc.pages->0[i], doc.tables, book, hidden, i)
            &&& headings(doc.elements) == titles(book, hidden, book.len() as int)
            &&& table_marks(doc.elements).len() == doc.tables.len()
            &&& forall|k: int|
                0 <= k < doc.tables.len() ==> #[trigger] table_marks(doc.elements)[k] == (
                    Some(doc.tables[k].page_number),
                    k as u32,
                )
        }),
{
    let over = excel::overlay(book, pictures, shapes);
    let n = book.len() as int;
    lemma_holds_sheets(book, hidden, over, n);
    let a = excel::sheets_added(book, hidden, over, n);
    over.lemma_ends(a.shape, 0);
    let pictured = over.with_pictures(a.content, a.picture, over.picture_order.len() as int, None);
    lemma_pictures(over, a.content, a.picture, over.picture_order.len() as int, None);
    lemma_shapes(over, pictured, a.shape, over.shapes_end(a.shape, 0), 0);
}

/// Without pictures and shapes the page of a sheet is blank if and only if the sheet has no rows, and lists no image.
pub proof fn law_empty_sheets_are_blank_pages(book: Seq<SheetData>, hidden: Seq<Seq<char>>, n: int)
    requires
        0 <= n <= book.len(),
        book.len() < u32::MAX,
    ensures
        ({
            let a = excel::sheets_added(book, hidden, excel::overlay(book, Seq::empty(), Seq::empty()), n);
            &&& a.picture == 0
            &&& a.shape == 0
            &&& a.pages.len() == n
            &&& forall|i: int|
                0 <= i < n ==> (#[trigger] a.pages[i]).is_blank == Some(!is_filled(book[i])) && a.pages[i].image_indices.len()
                    == 0
        }),
    decreases n,
{
    let over = excel::overlay(book, Seq::empty(), Seq::empty());
    assert(excel::picture_placements(book, Seq::empty()).len() == 0);
    assert(excel::shape_placements(book, Seq::empty()).len() == 0);
    assert(over.picture_order.len() == 0);
    assert(over.shape_order.len() == 0);
    if n > 0 {
        law_empty_sheets_are_blank_pages(book, hidden, n - 1);
    }
}

/// The page of the last sheet of a name, if there is one.
pub open spec fn is_page_of(page: Option<u32>, book: Seq<SheetData>, name: Seq<char>) -> bool {
    match page {
        Some(p) => 1 <= p <= book.len() && book[p - 1].name == name && forall|i: int|
            p <= i < book.len() ==> (#[trigger] book[i]).name != name,
        None => forall|i: int| 0 <= i < book.len() ==> (#[trigger] book[i]).name != name,
    }
}

proof fn lemma_page_numbers(book: Seq<SheetData>, n: int, name: Seq<char>)
    requires
        0 <= n <= book.len(),
        book.len() < u32::MAX,
    ensures
        ({
            let numbers = excel::page_numbers(book, n);
            &&& numbers.dom().contains(name) ==> 1 <= numbers[name] <= n && book[numbers[name] - 1].name == name
                && forall|i: int| numbers[name] <= i < n ==> (#[trigger] book[i]).name != name
            &&& !numbers.dom().contains(name) ==> forall|i: int| 0 <= i < n ==> (#[trigger] book[i]).name != name
        }),
    decreases n,
{
    if n > 0 {
        lemma_page_numbers(book, n - 1, name);
    }
}

proof fn lemma_page_of(book: Seq<SheetData>, name: Seq<char>)
    requires
        book.len() < u32::MAX,
    ensures
        is_page_of(excel::page_of(book, name), book, name),
{
    lemma_page_numbers(book, book.len() as int, name);
}

/// Whether a page is that of a picture: the one that it names itself, else that of its sheet, if the workbook has it.
pub open spec fn is_picture_page(page: Option<u32>, book: Seq<SheetData>, picture: XlsxPicture) -> bool {
    match (picture.sheet_index, picture.sheet_name) {
        (Some(index), _) => if index <= book.len() {
            page == Some(index)
        } else {
            page is None
        },
        (None, Some(name)) => is_page_of(page, book, name@),
        (None, None) => page is None,
    }
}

/// The pictures of the first sheets.
#[verifier::spinoff_prover]
#[verifier::rlimit(60)]
proof fn lemma_pictures_of_sheets(book: Seq<SheetData>, hidden: Seq<Seq<char>>, over: Overlay, n: int)
    requires
        0 <= n <= book.len(),
        book.len() < u32::MAX,
        is_placed(over.picture_order, over.picture_pages),
    ensures
        ({
            let a = excel::sheets_added(book, hidden, over, n);
            &&& parts(over.picture_order, a.picture, n)
            &&& a.content.images.len() == a.picture
            &&& forall|k: int|
                0 <= k < a.picture ==> shows(
                    #[trigger] a.content.images[k],
                    over.pictures[over.picture_order[k].item as int],
                ) && a.content.images[k].page_number == Some(over.picture_order[k].page)
            &&& image_marks(a.content.elements).len() == a.picture
            &&& forall|k: int|
                0 <= k < a.picture ==> #[trigger] image_marks(a.content.elements)[k] == (
                    a.content.images[k].page_number,
                    k as u32,
                )
            &&& a.pages.len() == n
            &&& forall|i: int, k: int|
                0 <= i < n && 0 <= k < a.picture && k <= u32::MAX ==> ((#[trigger] a.pages[i]).image_indices.contains(
                    k as u32,
                ) <== (#[trigger] over.picture_order[k]).page == i + 1)
        }),
    decreases n,
{
    let order = over.picture_order;
    let a = excel::sheets_added(book, hidden, over, n);
    if n == 0 {
        assert(parts(order, 0, 0));
    } else {
        lemma_pictures_of_sheets(book, hidden, over, n - 1);
        lemma_holds_sheets(book, hidden, over, n - 1);
        let b = excel::sheets_added(book, hidden, over, n - 1);
        let page = n as u32;
        let sheet = book[n - 1];
        let tabled = excel::with_sheet(b.content, sheet, page, hidden.contains(sheet.name));
        let picture = over.pictures_end(b.picture, page);
        let shape = over.shapes_end(b.shape, page);
        lemma_pictures_end(over, b.picture, page);
        over.lemma_ends(b.shape, page);
        let pictured = over.with_pictures(tabled, b.picture, picture, Some(page));
        let title = document::bare(
            ElementKind::Heading { level: 2 },
            sheet.name + excel::hidden_suffix(hidden.contains(sheet.name)),
            0,
        );
        lemma_pushed(b.content.elements, title);
        if is_filled(sheet) {
            let headed = if sheet.name.len() > 0 {
                b.content.with_element(title)
            } else {
                b.content
            };
            lemma_pushed(headed.elements, tabled.elements.last());
            assert(tabled.elements =~= headed.elements.push(tabled.elements.last()));
        }
        assert(tabled.images == b.content.images);
        assert(image_marks(tabled.elements) == image_marks(b.content.elements));
        lemma_pictures(over, tabled, b.picture, picture, Some(page));
        lemma_shapes(over, pictured, b.shape, shape, page);
        let now = a.content.images;
        assert(now == pictured.images);
        assert forall|k: int| 0 <= k < a.picture implies shows(
            #[trigger] now[k],
            over.pictures[order[k].item as int],
        ) && now[k].page_number == Some(order[k].page) by {
            if k < b.picture {
                assert(now.take(b.picture)[k] == b.content.images[k]);
            } else {
                assert(now[k] == now[tabled.images.len() + (k - b.picture)]);
            }
        }
        let marks = image_marks(a.content.elements);
        assert forall|k: int| 0 <= k < a.picture implies #[trigger] marks[k] == (now[k].page_number, k as u32) by {
            if k < b.picture {
                assert(marks.take(b.picture)[k] == image_marks(b.content.elements)[k]);
                assert(now.take(b.picture)[k] == b.content.images[k]);
            } else {
                assert(now[k] == now[tabled.images.len() + (k - b.picture)]);
            }
        }
        assert forall|i: int, k: int| 0 <= i < n && 0 <= k < a.picture && k <= u32::MAX && (
        #[trigger] order[k]).page == i + 1 implies (#[trigger] a.pages[i]).image_indices.contains(k as u32) by {
            if i < n - 1 {
                assert(a.pages[i] == b.pages[i]);
                assert(k < b.picture);
            } else {
                assert(k >= b.picture);
                let indices = a.pages[i].image_indices;
                assert(indices[k - b.picture] == k as u32);
            }
        }
    }
}

proof fn lemma_pictures_are_placed(book: Seq<SheetData>, pictures: Seq<XlsxPicture>, shapes: Seq<XlsxShapeText>)
    requires
        book.len() < u32::MAX,
        pictures.len() <= usize::MAX,
        forall|j: int| 0 <= j < pictures.len() ==> (#[trigger] pictures[j]).sheet_index != Some(0u32),
    ensures
        ({
            let over = excel::overlay(book, pictures, shapes);
            &&& is_placed(over.picture_order, over.picture_pages)
            &&& over.picture_order.len() == pictures.len()
            &&& forall|j: int|
                0 <= j < pictures.len() ==> #[trigger] is_listed(over.picture_order, j)
        }),
{
    broadcast use vstd::seq_lib::group_to_multiset_ensures;

    let over = excel::overlay(book, pictures, shapes);
    let places = excel::picture_placements(book, pictures);
    let order = over.picture_order;
    excel::law_reading_order_is_ordered_and_complete(places);
    assert forall|k: int| 0 <= k < order.len() implies (#[trigger] order[k]).item < over.picture_pages.len()
        && order[k].page == (match over.picture_pages[order[k].item as int] {
        Some(page) => page,
        None => u32::MAX,
    }) && order[k].page > 0 by {
        excel::lemma_reading_order_items(places, k);
        let j = choose|j: int| 0 <= j < places.len() && places[j] == order[k];
        assert(order[k].item == j);
        assert(pictures[j].sheet_index != Some(0u32));
        if pictures[j].sheet_name is Some {
            lemma_page_of(book, pictures[j].sheet_name->0@);
        }
    }
    assert forall|j: int| 0 <= j < pictures.len() implies #[trigger] is_listed(order, j) by {
        assert(places[j].item == j);
        assert(places.to_multiset().count(places[j]) > 0);
        assert(order.contains(places[j]));
        let k = choose|k: int| 0 <= k < order.len() && order[k] == places[j];
        assert(order[k].item == j);
    }
}

/// Whether a document shows a picture of a workbook, on the page of the picture, and the page lists it.
pub open spec fn is_shown(picture: XlsxPicture, book: Seq<SheetData>, doc: document::Content) -> bool {
    exists|k: int|
        0 <= k < doc.images.len() && shows(#[trigger] doc.images[k], picture) && is_picture_page(
            doc.images[k].page_number,
            book,
            picture,
        ) && (doc.images[k].page_number matches Some(p) ==> doc.pages->0[p - 1].image_indices.contains(k as u32))
}

/// Every picture of a workbook becomes an image with its bytes, on the page that it names or that shows its sheet,
/// and the page lists it. There are as many images as pictures, and as many elements that stand for them, in order.
/// Pages count from one, so no picture names page zero.
#[verifier::spinoff_prover]
#[verifier::rlimit(60)]
pub proof fn law_every_picture_is_shown_on_its_page(
    book: Seq<SheetData>,
    hidden: Seq<Seq<char>>,
    pictures: Seq<XlsxPicture>,
    shapes: Seq<XlsxShapeText>,
)
    requires
        book.len() < u32::MAX,
        pictures.len() <= u32::MAX,
        forall|j: int| 0 <= j < pictures.len() ==> (#[trigger] pictures[j]).sheet_index != Some(0u32),
    ensures
        ({
            let doc = excel::workbook_content(book, hidden, pictures, shapes);
            &&& doc.images.len() == pictures.len()
            &&& forall|j: int|
                0 <= j < pictures.len() ==> is_shown(#[trigger] pictures[j], book, doc)
            &&& image_marks(doc.elements).len() == doc.images.len()
            &&& forall|k: int|
                0 <= k < doc.images.len() ==> #[trigger] image_marks(doc.elements)[k] == (
                    doc.images[k].page_number,
                    k as u32,
                )
        }),
{
    let over = excel::overlay(book, pictures, shapes);
    let order = over.picture_order;
    let n = book.len() as int;
    let a = excel::sheets_added(book, hidden, over, n);
    let doc = excel::workbook_content(book, hidden, pictures, shapes);
    lemma_pictures_are_placed(book, pictures, shapes);
    lemma_pictures_of_sheets(book, hidden, over, n);
    lemma_holds_sheets(book, hidden, over, n);
    over.lemma_ends(a.shape, 0);
    let pictured = over.with_pictures(a.content, a.picture, order.len() as int, None);
    lemma_pictures(over, a.content, a.picture, order.len() as int, None);
    lemma_shapes(over, pictured, a.shape, over.shapes_end(a.shape, 0), 0);
    let now = doc.images;
    let marks = image_marks(doc.elements);
    assert forall|k: int| 0 <= k < now.len() implies shows(#[trigger] now[k], pictures[order[k].item as int])
        && now[k].page_number == (if k < a.picture {
        Some(order[k].page)
    } else {
        None
    }) && marks[k] == (now[k].page_number, k as u32) by {
        if k < a.picture {
            assert(now.take(a.picture)[k] == a.content.images[k]);
            assert(marks.take(a.picture)[k] == image_marks(a.content.elements)[k]);
        } else {
            assert(now[k] == now[a.content.images.len() + (k - a.picture)]);
        }
    }
    assert forall|j: int| 0 <= j < pictures.len() implies is_shown(#[trigger] pictures[j], book, doc) by {
        assert(is_listed(order, j));
        let k = choose|k: int| 0 <= k < order.len() && (#[trigger] order[k]).item == j;
        assert(shows(now[k], pictures[j]));
        assert(over.picture_pages[j] == excel::picture_page(book, pictures[j]));
        if pictures[j].sheet_name is Some {
            lemma_page_of(book, pictures[j].sheet_name->0@);
        }
        if k < a.picture {
            let p = order[k].page;
            assert(p <= n);
            assert(a.pages[p - 1].image_indices.contains(k as u32));
        } else {
            assert(order[k].page > n);
        }
        assert(is_picture_page(now[k].page_number, book, pictures[j]));
    }
    assert forall|k: int| 0 <= k < now.len() implies #[trigger] marks[k] == (now[k].page_number, k as u32) by {
        assert(shows(now[k], pictures[order[k].item as int]));
    }
}

/// The shapes of the first sheets.
#[verifier::spinoff_prover]
#[verifier::rlimit(60)]
proof fn lemma_shapes_of_sheets(book: Seq<SheetData>, hidden: Seq<Seq<char>>, over: Overlay, n: int)
    requires
        0 <= n <= book.len(),
        book.len() < u32::MAX,
        is_placed(over.shape_order, over.shape_pages),
    ensures
        ({
            let a = excel::sheets_added(book, hidden, over, n);
            &&& parts(over.shape_order, a.shape, n)
            &&& paragraphs(a.content.elements).len() == a.shape
            &&& forall|k: int|
                0 <= k < a.shape ==> #[trigger] paragraphs(a.content.elements)[k] == (
                    Some(over.shape_order[k].page),
                    over.shapes[over.shape_order[k].item as int].text@,
                )
        }),
    decreases n,
{
    let order = over.shape_order;
    let a = excel::sheets_added(book, hidden, over, n);
    if n == 0 {
        assert(parts(order, 0, 0));
    } else {
        lemma_shapes_of_sheets(book, hidden, over, n - 1);
        lemma_holds_sheets(book, hidden, over, n - 1);
        let b = excel::sheets_added(book, hidden, over, n - 1);
        let page = n as u32;
        let sheet = book[n - 1];
        let tabled = excel::with_sheet(b.content, sheet, page, hidden.contains(sheet.name));
        let picture = over.pictures_end(b.picture, page);
        let shape = over.shapes_end(b.shape, page);
        lemma_shapes_end(over, b.shape, page);
        over.lemma_ends(b.picture, page);
        let pictured = over.with_pictures(tabled, b.picture, picture, Some(page));
        let title = document::bare(
            ElementKind::Heading { level: 2 },
            sheet.name + excel::hidden_suffix(hidden.contains(sheet.name)),
            0,
        );
        lemma_pushed(b.content.elements, title);
        if is_filled(sheet) {
            let headed = if sheet.name.len() > 0 {
                b.content.with_element(title)
            } else {
                b.content
            };
            lemma_pushed(headed.elements, tabled.elements.last());
            assert(tabled.elements =~= headed.elements.push(tabled.elements.last()));
        }
        assert(paragraphs(tabled.elements) == paragraphs(b.content.elements));
        lemma_pictures(over, tabled, b.picture, picture, Some(page));
        lemma_shapes(over, pictured, b.shape, shape, page);
        let now = paragraphs(a.content.elements);
        assert forall|k: int| 0 <= k < a.shape implies #[trigger] now[k] == (
            Some(order[k].page),
            over.shapes[order[k].item as int].text@,
        ) by {
            if k < b.shape {
                assert(now.take(b.shape)[k] == paragraphs(b.content.elements)[k]);
            } else {
                assert(now[k] == now[paragraphs(tabled.elements).len() + (k - b.shape)]);
            }
        }
    }
}

proof fn lemma_shapes_are_placed(book: Seq<SheetData>, pictures: Seq<XlsxPicture>, shapes: Seq<XlsxShapeText>)
    requires
        book.len() < u32::MAX,
        shapes.len() <= usize::MAX,
    ensures
        ({
            let over = excel::overlay(book, pictures, shapes);
            &&& is_placed(over.shape_order, over.shape_pages)
            &&& over.shape_order.len() == shapes.len()
            &&& forall|j: int|
                0 <= j < shapes.len() ==> #[trigger] is_listed(over.shape_order, j)
        }),
{
    broadcast use vstd::seq_lib::group_to_multiset_ensures;

    let over = excel::overlay(book, pictures, shapes);
    let places = excel::shape_placements(book, shapes);
    let order = over.shape_order;
    excel::law_reading_order_is_ordered_and_complete(places);
    assert forall|k: int| 0 <= k < order.len() implies (#[trigger] order[k]).item < over.shape_pages.len()
        && order[k].page == (match over.shape_pages[order[k].item as int] {
        Some(page) => page,
        None => u32::MAX,
    }) && order[k].page > 0 by {
        excel::lemma_reading_order_items(places, k);
        let j = choose|j: int| 0 <= j < places.len() && places[j] == order[k];
        assert(order[k].item == j);
        lemma_page_of(book, shapes[j].sheet_name@);
    }
    assert forall|j: int| 0 <= j < shapes.len() implies #[trigger] is_listed(order, j) by {
        assert(places[j].item == j);
        assert(places.to_multiset().count(places[j]) > 0);
        assert(order.contains(places[j]));
        let k = choose|k: int| 0 <= k < order.len() && order[k] == places[j];
        assert(order[k].item == j);
    }
}

/// Whether a paragraph tells the text of a shape, on the page of its sheet.
pub open spec fn is_told(shape: XlsxShapeText, book: Seq<SheetData>, found: Seq<(Option<u32>, Seq<char>)>) -> bool {
    exists|k: int|
        0 <= k < found.len() && (#[trigger] found[k]).1 == shape.text@ && is_page_of(
            found[k].0,
            book,
            shape.sheet_name@,
        )
}

/// Every shape of a workbook becomes a paragraph with its text, on the page that shows its sheet, or on none where
/// the workbook has no such sheet. There are no other paragraphs.
#[verifier::spinoff_prover]
#[verifier::rlimit(60)]
pub proof fn law_every_shape_is_a_paragraph_on_its_page(
    book: Seq<SheetData>,
    hidden: Seq<Seq<char>>,
    pictures: Seq<XlsxPicture>,
    shapes: Seq<XlsxShapeText>,
)
    requires
        book.len() < u32::MAX,
        shapes.len() <= usize::MAX,
    ensures
        ({
            let doc = excel::workbook_content(book, hidden, pictures, shapes);
            &&& paragraphs(doc.elements).len() == shapes.len()
            &&& forall|j: int|
                0 <= j < shapes.len() ==> is_told(#[trigger] shapes[j], book, paragraphs(doc.elements))
        }),
{
    let over = excel::overlay(book, pictures, shapes);
    let order = over.shape_order;
    let n = book.len() as int;
    let a = excel::sheets_added(book, hidden, over, n);
    let doc = excel::workbook_content(book, hidden, pictures, shapes);
    lemma_shapes_are_placed(book, pictures, shapes);
    lemma_shapes_of_sheets(book, hidden, over, n);
    lemma_holds_sheets(book, hidden, over, n);
    assert forall|k: int| a.shape <= k < order.len() implies over.shape_pages[(#[trigger] order[k]).item as int] is None by {
        let j = order[k].item as int;
        assert(order[k].page > n);
        assert(over.shape_pages[j] == excel::page_of(book, shapes[j].sheet_name@));
        lemma_page_of(book, shapes[j].sheet_name@);
    }
    lemma_unknown_shapes_end(over, a.shape);
    let pictured = over.with_pictures(a.content, a.picture, over.picture_order.len() as int, None);
    lemma_pictures(over, a.content, a.picture, over.picture_order.len() as int, None);
    lemma_shapes(over, pictured, a.shape, over.shapes_end(a.shape, 0), 0);
    let now = paragraphs(doc.elements);
    assert forall|j: int| 0 <= j < shapes.len() implies is_told(#[trigger] shapes[j], book, now) by {
        assert(is_listed(order, j));
        let k = choose|k: int| 0 <= k < order.len() && (#[trigger] order[k]).item == j;
        assert(over.shape_pages[j] == excel::page_of(book, shapes[j].sheet_name@));
        lemma_page_of(book, shapes[j].sheet_name@);
        if k < a.shape {
            assert(now.take(a.shape)[k] == paragraphs(a.content.elements)[k]);
            assert(now[k] == (Some(order[k].page), shapes[j].text@));
            assert(order[k].page <= n);
        } else {
            assert(now[k] == now[paragraphs(pictured.elements).len() + (k - a.shape)]);
            assert(now[k].0 is None);
        }
        assert(now[k].1 == shapes[j].text@);
    }
}

} // verus!
