//! Text recognition on the pages of a PDF: which pages to render, when a rendered page is blank, and
//! what is recovered from the images that a page embeds.
use crate::confidence::OcrElement;
use crate::document;
use crate::document::{copy_bytes, truncate_u32, ExtractedImage, ProcessingWarning, Table};
use crate::error;
use crate::error::{security_error, XbergError};
use crate::security;
use crate::security::{Ledger, SecurityBudget, SecurityLimits};
use crate::text;
use crate::text::{chars_of, is_blank, push_decimal, white};
use vstd::prelude::*;

verus! {

/// Luma below which a sampled pixel counts as ink.
pub const INK_LUMA_THRESHOLD: u8 = 128;

/// Every how many pixels, along either axis, a page is sampled for ink.
pub const INK_PROBE_STRIDE: usize = 4;

/// One in how many sampled pixels has to be ink at most for a page to count as blank.
pub const INK_BLANK_SAMPLES_PER_DARK: u128 = 10_000;

/// The longest recognised text, in characters that are no white space, for which a page is sampled.
pub const MAX_INK_PROBE_TEXT_CHARS: usize = 200;

/// The fewest characters that are no white space on a page that counts as having text.
pub const MIN_PAGE_TEXT_CHARS: usize = 3;

/// What encoding a page as PNG needs per pixel, in bytes.
pub const OCR_PNG_ENCODE_BYTES_PER_PIXEL: u64 = 4;

/// What encoding a page as PNG needs whatever its size, in bytes.
pub const OCR_PNG_ENCODE_FIXED_BYTES: u64 = 262_144;

/// The size of a decoded page.
#[derive(Clone, Copy, Debug)]
pub struct PageImage {
    /// Its width in pixels.
    pub width: u32,
    /// Its height in pixels.
    pub height: u32,
    /// How many bytes its pixels take.
    pub byte_len: u64,
}

/// What decoded pages take.
pub open spec fn source_bytes(images: Seq<PageImage>) -> nat
    decreases images.len(),
{
    if images.len() == 0 {
        0
    } else {
        source_bytes(images.drop_last()) + images.last().byte_len as nat
    }
}

/// What one page takes once it is converted to three bytes per pixel.
pub open spec fn conversion(image: PageImage) -> nat {
    image.width as nat * image.height as nat * 3
}

/// What converting pages takes at once: all of them together where they are converted in parallel,
/// the largest of them otherwise.
pub open spec fn conversion_bytes(images: Seq<PageImage>, parallel: bool) -> nat
    decreases images.len(),
{
    if images.len() == 0 {
        0
    } else {
        let before = conversion_bytes(images.drop_last(), parallel);
        let more = conversion(images.last());
        if parallel {
            before + more
        } else if before > more {
            before
        } else {
            more
        }
    }
}

/// What the encoded pages take at most.
pub open spec fn output_bytes(images: Seq<PageImage>) -> nat
    decreases images.len(),
{
    if images.len() == 0 {
        0
    } else {
        let last = images.last();
        output_bytes(images.drop_last()) + last.width as nat * last.height as nat
            * OCR_PNG_ENCODE_BYTES_PER_PIXEL as nat + OCR_PNG_ENCODE_FIXED_BYTES as nat
    }
}

/// What encoding a batch of pages takes at its peak.
pub open spec fn encode_peak(images: Seq<PageImage>, parallel: bool) -> nat {
    source_bytes(images) + conversion_bytes(images, parallel) + output_bytes(images)
}

/// None of what a batch of pages takes shrinks as pages are added to it.
proof fn lemma_peak_grows(images: Seq<PageImage>, parallel: bool, n: int)
    requires
        0 <= n <= images.len(),
    ensures
        source_bytes(images.take(n)) <= source_bytes(images),
        conversion_bytes(images.take(n), parallel) <= conversion_bytes(images, parallel),
        output_bytes(images.take(n)) <= output_bytes(images),
    decreases images.len() - n,
{
    if n < images.len() {
        assert(images.take(n + 1).drop_last() =~= images.take(n));
        let last = images.take(n + 1).last();
        assert(0 <= last.width as nat * last.height as nat) by (nonlinear_arith);
        lemma_peak_grows(images, parallel, n + 1);
    } else {
        assert(images.take(n) =~= images);
    }
}

/// Whether an error says that decoded pages take more than a limit.
pub open spec fn tells_of_excess(error: XbergError, limit: usize) -> bool {
    error matches XbergError::Validation { message, source } && message@
        == "Decoded page images would exceed the limit of "@ + text::decimal(limit as nat) + " bytes"@
        && source is None
}

/// The error for decoded pages that take more than a limit.
fn excess_error(limit: usize) -> (r: XbergError)
    ensures
        tells_of_excess(r, limit),
{
    let mut message = "Decoded page images would exceed the limit of ".to_owned();
    push_decimal(&mut message, limit as u64);
    message.append(" bytes");
    XbergError::Validation { message, source: None }
}

/// What the pixels of an image take at a number of bytes per pixel, where that can be counted.
pub fn decoded_byte_count(width: u32, height: u32, bytes_per_pixel: u64) -> (r: Option<u64>)
    requires
        bytes_per_pixel > 0,
    ensures
        match r {
            Some(n) => n == width as nat * height as nat * bytes_per_pixel as nat,
            None => width as nat * height as nat * bytes_per_pixel as nat > u64::MAX,
        },
{
    assert(width as u64 * height as u64 <= 0xffff_ffff * 0xffff_ffff) by (nonlinear_arith)
        requires
            0 <= width <= 0xffff_ffff,
            0 <= height <= 0xffff_ffff,
    ;
    let pixels: u64 = width as u64 * height as u64;
    pixels.checked_mul(bytes_per_pixel)
}

/// Checks that encoding a batch of pages stays below the content ceiling at its peak.
pub fn validate_png_encode_batch_peak(images: &[PageImage], parallel: bool, limits: &SecurityLimits) -> (r: Result<
    (),
    XbergError,
>)
    ensures
        r is Ok <==> encode_peak(images@, parallel) <= limits.max_content_size,
        r matches Err(e) ==> tells_of_excess(e, limits.max_content_size),
{
    let limit = limits.max_content_size;
    let mut source: u64 = 0;
    let mut converted: u64 = 0;
    let mut output: u64 = 0;
    let mut i: usize = 0;
    while i < images.len()
        invariant
            i <= images.len(),
            source == source_bytes(images@.take(i as int)),
            converted == conversion_bytes(images@.take(i as int), parallel),
            output == output_bytes(images@.take(i as int)),
            limit == limits.max_content_size,
        decreases images.len() - i,
    {
        let image = images[i];
        proof {
            assert(images@.take(i + 1).drop_last() =~= images@.take(i as int));
            lemma_peak_grows(images@, parallel, i + 1);
        }
        source = match source.checked_add(image.byte_len) {
            Some(n) => n,
            None => return Err(excess_error(limit)),
        };
        let one = match decoded_byte_count(image.width, image.height, 3) {
            Some(n) => n,
            None => return Err(excess_error(limit)),
        };
        converted = if parallel {
            match converted.checked_add(one) {
                Some(n) => n,
                None => return Err(excess_error(limit)),
            }
        } else if converted > one {
            converted
        } else {
            one
        };
        let encoded = match decoded_byte_count(image.width, image.height, OCR_PNG_ENCODE_BYTES_PER_PIXEL) {
            Some(n) => n,
            None => return Err(excess_error(limit)),
        };
        let encoded = match encoded.checked_add(OCR_PNG_ENCODE_FIXED_BYTES) {
            Some(n) => n,
            None => return Err(excess_error(limit)),
        };
        output = match output.checked_add(encoded) {
            Some(n) => n,
            None => return Err(excess_error(limit)),
        };
        i += 1;
    }
    assert(images@.take(images.len() as int) =~= images@);
    let additional = match converted.checked_add(output) {
        Some(n) => n,
        None => return Err(excess_error(limit)),
    };
    match source.checked_add(additional) {
        Some(total) => if total <= limit as u64 {
            Ok(())
        } else {
            Err(excess_error(limit))
        },
        None => Err(excess_error(limit)),
    }
}

/// Encoding pages in parallel never takes less than encoding them one by one.
pub proof fn law_parallel_encoding_takes_no_less(images: Seq<PageImage>)
    ensures
        encode_peak(images, false) <= encode_peak(images, true),
    decreases images.len(),
{
    if images.len() > 0 {
        law_parallel_encoding_takes_no_less(images.drop_last());
    }
}

/// A page in shades of grey.
#[derive(Clone, Debug)]
pub struct LumaRaster {
    /// Its width in pixels.
    pub width: u32,
    /// Its height in pixels.
    pub height: u32,
    /// The luma of its pixels, row by row.
    pub pixels: Vec<u8>,
}

impl LumaRaster {
    /// Whether there is one pixel for every place of the page.
    pub open spec fn well_formed(self) -> bool {
        self.pixels@.len() == self.width as int * self.height as int
    }
}

/// How many pixels of a row are sampled from a column on, and how many of those are ink.
pub open spec fn probed_row(raster: LumaRaster, y: int, x: int) -> (nat, nat)
    decreases raster.width + INK_PROBE_STRIDE - x,
{
    if x >= raster.width {
        (0, 0)
    } else {
        let rest = probed_row(raster, y, x + INK_PROBE_STRIDE);
        let ink = if raster.pixels@[y * raster.width + x] < INK_LUMA_THRESHOLD {
            1nat
        } else {
            0nat
        };
        (rest.0 + 1, rest.1 + ink)
    }
}

/// How many pixels are sampled from a row on, and how many of those are ink.
pub open spec fn probed(raster: LumaRaster, y: int) -> (nat, nat)
    decreases raster.height + INK_PROBE_STRIDE - y,
{
    if y >= raster.height {
        (0, 0)
    } else {
        let rest = probed(raster, y + INK_PROBE_STRIDE);
        let row = probed_row(raster, y, 0);
        (rest.0 + row.0, rest.1 + row.1)
    }
}

/// Whether at most one in ten thousand sampled pixels is ink.
pub open spec fn carries_no_ink(raster: LumaRaster) -> bool {
    probed(raster, 0).1 * INK_BLANK_SAMPLES_PER_DARK as nat <= probed(raster, 0).0
}

/// Fewer pixels of a row are sampled than there are.
proof fn lemma_row_probe_is_small(raster: LumaRaster, y: int, x: int)
    requires
        0 <= x,
    ensures
        probed_row(raster, y, x).0 <= if x >= raster.width {
            0
        } else {
            raster.width - x
        },
        probed_row(raster, y, x).1 <= probed_row(raster, y, x).0,
    decreases raster.width + INK_PROBE_STRIDE - x,
{
    if x < raster.width {
        lemma_row_probe_is_small(raster, y, x + INK_PROBE_STRIDE);
    }
}

/// Fewer pixels are sampled than there are.
proof fn lemma_probe_is_small(raster: LumaRaster, y: int)
    requires
        0 <= y,
    ensures
        probed(raster, y).0 <= if y >= raster.height {
            0
        } else {
            raster.width * (raster.height - y)
        },
        probed(raster, y).1 <= probed(raster, y).0,
    decreases raster.height + INK_PROBE_STRIDE - y,
{
    if y < raster.height {
        lemma_probe_is_small(raster, y + INK_PROBE_STRIDE);
        lemma_row_probe_is_small(raster, y, 0);
        let width = raster.width as int;
        let left = raster.height - y;
        assert(width + width * (left - 1) == width * left) by (nonlinear_arith);
        assert(width * (left - 4) <= width * (left - 1)) by (nonlinear_arith)
            requires
                width >= 0,
        ;
        assert(width * (left - 1) >= 0) by (nonlinear_arith)
            requires
                width >= 0,
                left >= 1,
        ;
    }
}

/// Counts the sampled pixels of a row, and those that are ink.
fn probe_row(raster: &LumaRaster, y: usize) -> (r: (u64, u64))
    requires
        raster.well_formed(),
        y < raster.height,
    ensures
        (r.0 as nat, r.1 as nat) == probed_row(*raster, y as int, 0),
{
    let width = raster.width as u64;
    let mut x: u64 = 0;
    let mut sampled: u64 = 0;
    let mut dark: u64 = 0;
    proof {
        lemma_row_probe_is_small(*raster, y as int, 0);
    }
    while x < width
        invariant
            width == raster.width,
            width <= u32::MAX,
            x <= width + 3,
            raster.well_formed(),
            y < raster.height,
            sampled + probed_row(*raster, y as int, x as int).0 == probed_row(*raster, y as int, 0).0,
            dark + probed_row(*raster, y as int, x as int).1 == probed_row(*raster, y as int, 0).1,
            probed_row(*raster, y as int, 0).0 <= u32::MAX,
            probed_row(*raster, y as int, 0).1 <= u32::MAX,
        decreases width + 3 - x,
    {
        let across: usize = raster.width as usize;
        let down: usize = raster.height as usize;
        assert(y * across + across <= across * down) by (nonlinear_arith)
            requires
                y + 1 <= down,
        ;
        assert(y * across >= 0) by (nonlinear_arith);
        assert(across * down == raster.pixels.len());
        let at: usize = y * across + x as usize;
        if raster.pixels[at] < INK_LUMA_THRESHOLD {
            dark += 1;
        }
        sampled += 1;
        x += INK_PROBE_STRIDE as u64;
    }
    (sampled, dark)
}

/// Whether a rendered page carries essentially no ink. A page that could not be decoded is no evidence
/// of blankness.
pub fn page_raster_is_blank(raster: Option<&LumaRaster>) -> (r: bool)
    requires
        raster matches Some(page) ==> page.well_formed(),
    ensures
        r == match raster {
            None => false,
            Some(page) => page.width == 0 || page.height == 0 || carries_no_ink(*page),
        },
{
    let page = match raster {
        None => return false,
        Some(page) => page,
    };
    if page.width == 0 || page.height == 0 {
        return true;
    }
    let height = page.height as u64;
    let mut y: u64 = 0;
    let mut sampled: u64 = 0;
    let mut dark: u64 = 0;
    proof {
        lemma_probe_is_small(*page, 0);
        assert(page.width * page.height <= 0xffff_ffff * 0xffff_ffff) by (nonlinear_arith)
            requires
                0 <= page.width <= 0xffff_ffff,
                0 <= page.height <= 0xffff_ffff,
        ;
    }
    while y < height
        invariant
            height == page.height,
            height <= u32::MAX,
            y <= height + 3,
            page.well_formed(),
            sampled + probed(*page, y as int).0 == probed(*page, 0).0,
            dark + probed(*page, y as int).1 == probed(*page, 0).1,
            probed(*page, 0).0 <= u64::MAX,
            probed(*page, 0).1 <= u64::MAX,
        decreases height + 3 - y,
    {
        let row = probe_row(page, y as usize);
        sampled += row.0;
        dark += row.1;
        y += INK_PROBE_STRIDE as u64;
    }
    dark as u128 * INK_BLANK_SAMPLES_PER_DARK <= sampled as u128
}

/// No sampled pixel of a row is ink where none of the page is.
proof fn lemma_row_without_ink(raster: LumaRaster, y: int, x: int)
    requires
        raster.well_formed(),
        0 <= y < raster.height,
        0 <= x,
        forall|i: int| 0 <= i < raster.pixels@.len() ==> raster.pixels@[i] >= INK_LUMA_THRESHOLD,
    ensures
        probed_row(raster, y, x).1 == 0,
    decreases raster.width + INK_PROBE_STRIDE - x,
{
    if x < raster.width {
        let width = raster.width as int;
        let height = raster.height as int;
        assert(0 <= y * width + x < width * height) by (nonlinear_arith)
            requires
                0 <= y,
                y + 1 <= height,
                0 <= x < width,
        ;
        lemma_row_without_ink(raster, y, x + INK_PROBE_STRIDE);
    }
}

/// No sampled pixel from a row on is ink where none of the page is.
proof fn lemma_page_without_ink(raster: LumaRaster, y: int)
    requires
        raster.well_formed(),
        0 <= y,
        forall|i: int| 0 <= i < raster.pixels@.len() ==> raster.pixels@[i] >= INK_LUMA_THRESHOLD,
    ensures
        probed(raster, y).1 == 0,
    decreases raster.height + INK_PROBE_STRIDE - y,
{
    if y < raster.height {
        lemma_row_without_ink(raster, y, 0);
        lemma_page_without_ink(raster, y + INK_PROBE_STRIDE);
    }
}

/// A page without a dark pixel, such as the one a renderer leaves white, counts as blank.
pub proof fn law_white_page_is_blank(raster: LumaRaster)
    requires
        raster.well_formed(),
        forall|i: int| 0 <= i < raster.pixels@.len() ==> raster.pixels@[i] >= INK_LUMA_THRESHOLD,
    ensures
        carries_no_ink(raster),
{
    lemma_page_without_ink(raster, 0);
}

/// How many characters of a text are no white space.
pub open spec fn inked_chars(s: Seq<char>) -> nat
    decreases s.len(),
{
    if s.len() == 0 {
        0
    } else {
        inked_chars(s.drop_last()) + if text::is_white(s.last()) {
            0nat
        } else {
            1nat
        }
    }
}

/// Counts the characters of a text that are no white space.
fn count_inked(s: &str) -> (n: usize)
    ensures
        n == inked_chars(s@),
{
    let chars = chars_of(s);
    let mut n: usize = 0;
    let mut i: usize = 0;
    while i < chars.len()
        invariant
            i <= chars.len(),
            n <= i,
            n == inked_chars(chars@.take(i as int)),
        decreases chars.len() - i,
    {
        assert(chars@.take(i + 1).drop_last() =~= chars@.take(i as int));
        if !white(chars[i]) {
            n += 1;
        }
        i += 1;
    }
    assert(chars@.take(chars@.len() as int) =~= chars@);
    n
}

/// Whether the text of a page is too little to count.
pub fn is_page_text_blank(s: &str) -> (r: bool)
    ensures
        r == (inked_chars(s@) < MIN_PAGE_TEXT_CHARS),
{
    count_inked(s) < MIN_PAGE_TEXT_CHARS
}

/// Whether recognition is to be tried on the images that a page embeds: the page has no text to speak
/// of, or little text and no ink.
pub fn page_needs_xobject_fallback(ocr_text: &str, raster: Option<&LumaRaster>) -> (r: bool)
    requires
        raster matches Some(page) ==> page.well_formed(),
    ensures
        r == (inked_chars(ocr_text@) < MIN_PAGE_TEXT_CHARS || (inked_chars(ocr_text@) <= MAX_INK_PROBE_TEXT_CHARS
            && match raster {
            None => false,
            Some(page) => page.width == 0 || page.height == 0 || carries_no_ink(*page),
        })),
{
    if is_page_text_blank(ocr_text) {
        return true;
    }
    count_inked(ocr_text) <= MAX_INK_PROBE_TEXT_CHARS && page_raster_is_blank(raster)
}

/// The requested pages that a document has, in the order of the request.
pub fn valid_page_indices(page_indices: &[usize], page_count: usize) -> (r: Vec<usize>)
    ensures
        r@ == page_indices@.filter(|index: usize| index < page_count),
{
    let ghost exists = |index: usize| index < page_count;
    let mut kept: Vec<usize> = Vec::new();
    let mut i: usize = 0;
    while i < page_indices.len()
        invariant
            i <= page_indices.len(),
            exists == (|index: usize| index < page_count),
            kept@ == page_indices@.take(i as int).filter(exists),
        decreases page_indices.len() - i,
    {
        proof {
            assert(page_indices@.take(i + 1).drop_last() =~= page_indices@.take(i as int));
            reveal(Seq::filter);
        }
        if page_indices[i] < page_count {
            kept.push(page_indices[i]);
        }
        i += 1;
    }
    assert(page_indices@.take(page_indices@.len() as int) =~= page_indices@);
    kept
}

/// A table that a recognition backend found.
#[derive(Clone, Debug)]
pub struct RecognizedTable {
    /// The table.
    pub table: Table,
    /// The name that it goes by.
    pub table_id: Option<String>,
}

/// A formula that a recognition backend found.
#[derive(Clone, Debug)]
pub struct Formula {
    /// Its notation in LaTeX.
    pub latex: String,
    /// The page that it stands on.
    pub page: Option<u32>,
}

/// Whether a page is among the rejected ones; the first verdict is about the page after an offset.
pub open spec fn is_rejected(rejected: Seq<bool>, page_offset: usize, page: u32) -> bool {
    let i = page - 1 - page_offset;
    0 <= i < rejected.len() && rejected[i]
}

/// Whether a page is among the rejected ones.
fn was_rejected(rejected: &[bool], page_offset: usize, page: u32) -> (r: bool)
    ensures
        r == is_rejected(rejected@, page_offset, page),
{
    let page: usize = page as usize;
    page > page_offset && page - 1 - page_offset < rejected.len() && rejected[page - 1 - page_offset]
}

/// Whether a formula stands on one of the rejected pages.
pub open spec fn is_on_rejected(rejected: Seq<bool>, page_offset: usize, formula: Formula) -> bool {
    match formula.page {
        Some(page) => is_rejected(rejected, page_offset, page),
        None => false,
    }
}

/// Whether a formula stands on one of the rejected pages.
fn stands_on_rejected(rejected: &[bool], page_offset: usize, formula: &Formula) -> (r: bool)
    ensures
        r == is_on_rejected(rejected@, page_offset, *formula),
{
    match formula.page {
        Some(page) => was_rejected(rejected, page_offset, page),
        None => false,
    }
}

/// Drops the items of a list that a test does not pass.
fn retain_where<T, F: Fn(&T) -> bool>(list: &mut Vec<T>, passes: F, Ghost(kept): Ghost<spec_fn(T) -> bool>)
    requires
        forall|item: T| #[trigger] passes.requires((&item,)),
        forall|item: T, b: bool| #[trigger] passes.ensures((&item,), b) ==> b == kept(item),
    ensures
        final(list)@ == old(list)@.filter(kept),
{
    let ghost all = list@;
    let ghost mut seen: int = 0;
    let mut i: usize = 0;
    proof {
        reveal(Seq::filter);
        assert(all.take(0).filter(kept) =~= Seq::<T>::empty());
    }
    while i < list.len()
        invariant
            forall|item: T| #[trigger] passes.requires((&item,)),
            forall|item: T, b: bool| #[trigger] passes.ensures((&item,), b) ==> b == kept(item),
            0 <= seen <= all.len(),
            i == all.take(seen).filter(kept).len(),
            list@ == all.take(seen).filter(kept) + all.skip(seen),
        decreases list.len() - i,
    {
        proof {
            reveal(Seq::filter);
            assert(list@[i as int] == all[seen]);
            assert(all.take(seen + 1).drop_last() =~= all.take(seen));
        }
        if passes(&list[i]) {
            assert(list@ =~= all.take(seen + 1).filter(kept) + all.skip(seen + 1));
            i += 1;
        } else {
            list.remove(i);
            assert(list@ =~= all.take(seen + 1).filter(kept) + all.skip(seen + 1));
        }
        proof {
            seen = seen + 1;
        }
    }
    assert(seen == all.len());
    assert(all.take(seen) =~= all);
    assert(list@ =~= all.filter(kept));
}

/// Drops what was read on rejected pages.
pub fn discard_ocr_elements_from_rejected_pages(list: &mut Vec<OcrElement>, rejected: &[bool], page_offset: usize)
    ensures
        final(list)@ == old(list)@.filter(|item: OcrElement| !is_rejected(rejected@, page_offset, item.page_number)),
{
    let passes = |item: &OcrElement| -> (b: bool)
        ensures
            b == !is_rejected(rejected@, page_offset, item.page_number),
    {
        !was_rejected(rejected, page_offset, item.page_number)
    };
    retain_where(list, passes, Ghost(|item: OcrElement| !is_rejected(rejected@, page_offset, item.page_number)));
}

/// Drops the tables of rejected pages.
fn discard_tables(list: &mut Vec<Table>, rejected: &[bool], page_offset: usize)
    ensures
        final(list)@ == old(list)@.filter(|item: Table| !is_rejected(rejected@, page_offset, item.page_number)),
{
    let passes = |item: &Table| -> (b: bool)
        ensures
            b == !is_rejected(rejected@, page_offset, item.page_number),
    {
        !was_rejected(rejected, page_offset, item.page_number)
    };
    retain_where(list, passes, Ghost(|item: Table| !is_rejected(rejected@, page_offset, item.page_number)));
}

/// Drops the formulas of rejected pages.
fn discard_formulas(list: &mut Vec<Formula>, rejected: &[bool], page_offset: usize)
    ensures
        final(list)@ == old(list)@.filter(|item: Formula| !is_on_rejected(rejected@, page_offset, item)),
{
    let passes = |item: &Formula| -> (b: bool)
        ensures
            b == !is_on_rejected(rejected@, page_offset, *item),
    {
        !stands_on_rejected(rejected, page_offset, item)
    };
    retain_where(list, passes, Ghost(|item: Formula| !is_on_rejected(rejected@, page_offset, item)));
}

/// Drops the tables and formulas of rejected pages.
pub fn discard_rejected_ocr_page_payloads(
    tables: &mut Vec<Table>,
    formulas: &mut Vec<Formula>,
    rejected: &[bool],
    page_offset: usize,
)
    ensures
        final(tables)@ == old(tables)@.filter(|item: Table| !is_rejected(rejected@, page_offset, item.page_number)),
        final(formulas)@ == old(formulas)@.filter(|item: Formula| !is_on_rejected(rejected@, page_offset, item)),
{
    discard_tables(tables, rejected, page_offset);
    discard_formulas(formulas, rejected, page_offset);
}

/// Whether a formula stands on one of the accepted pages.
pub open spec fn is_on_accepted(accepted: Seq<u32>, formula: Formula) -> bool {
    match formula.page {
        Some(page) => accepted.contains(page),
        None => false,
    }
}

/// Whether a formula stands on one of the accepted pages.
fn stands_on_accepted(accepted: &[u32], formula: &Formula) -> (r: bool)
    ensures
        r == is_on_accepted(accepted@, *formula),
{
    let page = match formula.page {
        Some(page) => page,
        None => return false,
    };
    let mut i: usize = 0;
    while i < accepted.len()
        invariant
            i <= accepted.len(),
            formula.page == Some(page),
            forall|k: int| 0 <= k < i ==> accepted@[k] != page,
        decreases accepted.len() - i,
    {
        if accepted[i] == page {
            assert(accepted@.contains(page));
            return true;
        }
        i += 1;
    }
    false
}

/// Keeps the formulas of accepted pages alone.
pub fn retain_ocr_formulas_for_accepted_pages(list: &mut Vec<Formula>, accepted: &[u32])
    ensures
        final(list)@ == old(list)@.filter(|item: Formula| is_on_accepted(accepted@, item)),
{
    let passes = |item: &Formula| -> (b: bool)
        ensures
            b == is_on_accepted(accepted@, *item),
    {
        stands_on_accepted(accepted, item)
    };
    retain_where(list, passes, Ghost(|item: Formula| is_on_accepted(accepted@, item)));
}

/// What a language model was used for.
#[derive(Clone, Debug)]
pub struct LlmUsage {
    /// The model.
    pub model: String,
    /// Which part of the toolkit used it.
    pub source: String,
    /// Why it stopped.
    pub finish_reason: Option<String>,
}

/// How an image was prepared for recognition.
#[derive(Clone, Debug)]
pub struct ImagePreprocessingMetadata {
    /// How it was resampled.
    pub resample_method: String,
    /// Why it could not be resized.
    pub resize_error: Option<String>,
}

/// What a recognition backend made of an image.
#[derive(Clone, Debug)]
pub struct RecognizedImage {
    /// Its text.
    pub content: String,
    /// Its tables.
    pub tables: Vec<RecognizedTable>,
    /// Its formulas.
    pub formulas: Vec<Formula>,
    /// Which language models were used.
    pub llm_usage: Option<Vec<LlmUsage>>,
    /// How the image was prepared.
    pub image_preprocessing: Option<ImagePreprocessingMetadata>,
}

/// An image that a page embeds.
#[derive(Clone, Debug)]
pub struct PageFallbackImage {
    /// Its bytes.
    pub bytes: Vec<u8>,
    /// The format of the bytes.
    pub format: String,
    /// How the bytes were recovered.
    pub recovery: String,
}

/// What was recovered from the images that one page embeds.
#[derive(Clone, Debug)]
pub struct XObjectRecoveryOutcome {
    /// The texts of the images that have any, with a blank line between them.
    pub text: String,
    /// How many images were handed to the backend.
    pub attempted: usize,
    /// The images.
    pub images: Vec<ExtractedImage>,
    /// Which language models were used.
    pub llm_usage: Vec<LlmUsage>,
    /// The tables.
    pub tables: Vec<RecognizedTable>,
    /// The formulas.
    pub formulas: Vec<Formula>,
    /// How the first image that was prepared at all was prepared.
    pub image_preprocessing: Option<ImagePreprocessingMetadata>,
}

/// A ledger after texts.
pub open spec fn after_texts(ledger: Ledger, parts: Seq<Seq<char>>) -> Ledger
    decreases parts.len(),
{
    if parts.len() == 0 {
        ledger
    } else {
        after_texts(ledger, parts.drop_last()).accounted(parts.last())
    }
}

/// A ledger after rows of cells.
pub open spec fn after_rows(ledger: Ledger, rows: Seq<Seq<Seq<char>>>) -> Ledger
    decreases rows.len(),
{
    if rows.len() == 0 {
        ledger
    } else {
        after_texts(after_rows(ledger, rows.drop_last()).tabulated(rows.last().len()), rows.last())
    }
}

/// A ledger after a text that may be missing.
pub open spec fn after_option(ledger: Ledger, part: Option<String>) -> Ledger {
    match part {
        Some(t) => ledger.accounted(t@),
        None => ledger,
    }
}

/// A ledger after a table: its rendering, its name, its column names and its cells.
pub open spec fn after_table(ledger: Ledger, t: RecognizedTable) -> Ledger {
    let named = after_option(ledger.accounted(t.table.markdown@), t.table_id);
    let headed = match t.table.columns {
        Some(columns) => after_texts(named, text::strings(columns@)),
        None => named,
    };
    after_rows(headed, document::grid(t.table.cells@))
}

/// A ledger after tables.
pub open spec fn after_tables(ledger: Ledger, tables: Seq<RecognizedTable>) -> Ledger
    decreases tables.len(),
{
    if tables.len() == 0 {
        ledger
    } else {
        after_table(after_tables(ledger, tables.drop_last()), tables.last())
    }
}

/// A ledger after formulas.
pub open spec fn after_formulas(ledger: Ledger, formulas: Seq<Formula>) -> Ledger
    decreases formulas.len(),
{
    if formulas.len() == 0 {
        ledger
    } else {
        after_formulas(ledger, formulas.drop_last()).accounted(formulas.last().latex@)
    }
}

/// A ledger after uses of language models.
pub open spec fn after_usage(ledger: Ledger, usage: Seq<LlmUsage>) -> Ledger
    decreases usage.len(),
{
    if usage.len() == 0 {
        ledger
    } else {
        let last = usage.last();
        after_option(
            after_usage(ledger, usage.drop_last()).accounted(last.model@).accounted(last.source@),
            last.finish_reason,
        )
    }
}

/// A ledger after the structured part of what a backend made of an image.
pub open spec fn after_structured_output(ledger: Ledger, result: RecognizedImage, retain_image_preprocessing: bool) -> Ledger {
    let listed = after_formulas(after_tables(ledger, result.tables@), result.formulas@);
    let used = match result.llm_usage {
        Some(usage) => after_usage(listed, usage@),
        None => listed,
    };
    match result.image_preprocessing {
        Some(metadata) => if retain_image_preprocessing {
            after_option(used.accounted(metadata.resample_method@), metadata.resize_error)
        } else {
            used
        },
        None => used,
    }
}

/// Accounts for texts.
fn account_texts(parts: &[String], ledger: &mut Ledger)
    ensures
        *final(ledger) == after_texts(*old(ledger), text::strings(parts@)),
{
    let ghost all = text::strings(parts@);
    let ghost start = *ledger;
    let mut i: usize = 0;
    while i < parts.len()
        invariant
            i <= parts.len(),
            all == text::strings(parts@),
            *ledger == after_texts(start, all.take(i as int)),
        decreases parts.len() - i,
    {
        assert(all.take(i + 1).drop_last() =~= all.take(i as int));
        ledger.account_text(parts[i].as_str());
        i += 1;
    }
    assert(all.take(all.len() as int) =~= all);
}

/// Accounts for a text that may be missing.
fn account_option(part: &Option<String>, ledger: &mut Ledger)
    ensures
        *final(ledger) == after_option(*old(ledger), *part),
{
    if let Some(t) = part {
        ledger.account_text(t.as_str());
    }
}

/// Accounts for a table.
fn account_table(t: &RecognizedTable, ledger: &mut Ledger)
    ensures
        *final(ledger) == after_table(*old(ledger), *t),
{
    ledger.account_text(t.table.markdown.as_str());
    account_option(&t.table_id, ledger);
    if let Some(columns) = &t.table.columns {
        account_texts(columns.as_slice(), ledger);
    }
    let rows = &t.table.cells;
    let ghost all = document::grid(rows@);
    let ghost start = *ledger;
    let mut i: usize = 0;
    while i < rows.len()
        invariant
            i <= rows.len(),
            all == document::grid(rows@),
            *ledger == after_rows(start, all.take(i as int)),
        decreases rows.len() - i,
    {
        assert(all.take(i + 1).drop_last() =~= all.take(i as int));
        assert(all[i as int] == text::strings(rows@[i as int]@));
        ledger.add_cells(rows[i].len());
        account_texts(rows[i].as_slice(), ledger);
        i += 1;
    }
    assert(all.take(all.len() as int) =~= all);
}

/// Accounts for the structured part of what a backend made of an image.
pub fn account_xobject_structured_output(result: &RecognizedImage, retain_image_preprocessing: bool, ledger: &mut Ledger)
    ensures
        *final(ledger) == after_structured_output(*old(ledger), *result, retain_image_preprocessing),
{
    let ghost start = *ledger;
    let mut i: usize = 0;
    while i < result.tables.len()
        invariant
            i <= result.tables.len(),
            *ledger == after_tables(start, result.tables@.take(i as int)),
        decreases result.tables.len() - i,
    {
        assert(result.tables@.take(i + 1).drop_last() =~= result.tables@.take(i as int));
        account_table(&result.tables[i], ledger);
        i += 1;
    }
    assert(result.tables@.take(i as int) =~= result.tables@);
    let ghost listed = *ledger;
    i = 0;
    while i < result.formulas.len()
        invariant
            i <= result.formulas.len(),
            *ledger == after_formulas(listed, result.formulas@.take(i as int)),
        decreases result.formulas.len() - i,
    {
        assert(result.formulas@.take(i + 1).drop_last() =~= result.formulas@.take(i as int));
        ledger.account_text(result.formulas[i].latex.as_str());
        i += 1;
    }
    assert(result.formulas@.take(i as int) =~= result.formulas@);
    if let Some(usage) = &result.llm_usage {
        let ghost before = *ledger;
        i = 0;
        while i < usage.len()
            invariant
                i <= usage.len(),
                *ledger == after_usage(before, usage@.take(i as int)),
            decreases usage.len() - i,
        {
            assert(usage@.take(i + 1).drop_last() =~= usage@.take(i as int));
            ledger.account_text(usage[i].model.as_str());
            ledger.account_text(usage[i].source.as_str());
            account_option(&usage[i].finish_reason, ledger);
            i += 1;
        }
        assert(usage@.take(i as int) =~= usage@);
    }
    if retain_image_preprocessing {
        if let Some(metadata) = &result.image_preprocessing {
            ledger.account_text(metadata.resample_method.as_str());
            account_option(&metadata.resize_error, ledger);
        }
    }
}

/// What the text of an image adds to the text recovered so far: nothing where it is blank, otherwise
/// the text, set off by a blank line.
pub open spec fn text_to_add(before: Seq<char>, content: Seq<char>) -> Seq<char> {
    if text::trimmed(content).len() == 0 {
        Seq::empty()
    } else if before.len() == 0 {
        content
    } else {
        "\n\n"@ + content
    }
}

/// A ledger after the text that a backend made of an image.
pub open spec fn after_text(ledger: Ledger, outcome: XObjectRecoveryOutcome, result: RecognizedImage) -> Ledger {
    if text::trimmed(result.content@).len() == 0 {
        ledger
    } else {
        ledger.accounted(text_to_add(outcome.text@, result.content@))
    }
}

/// A ledger after all that a backend made of an image.
pub open spec fn after_result(ledger: Ledger, outcome: XObjectRecoveryOutcome, result: RecognizedImage) -> Ledger {
    let read = after_text(ledger, outcome, result);
    if read.verdict is Err {
        read
    } else {
        after_structured_output(read, result, outcome.image_preprocessing is None)
    }
}

/// The tables of an image, with the page that they stand on.
pub open spec fn tables_on(tables: Seq<RecognizedTable>, page: u32) -> Seq<RecognizedTable> {
    tables.map_values(|t: RecognizedTable| RecognizedTable { table: Table { page_number: page, ..t.table }, ..t })
}

/// The formulas of an image, with the page that they stand on.
pub open spec fn formulas_on(formulas: Seq<Formula>, page: u32) -> Seq<Formula> {
    formulas.map_values(|f: Formula| Formula { page: Some(page), ..f })
}

/// Whether an outcome is another one with what a backend made of an image.
pub open spec fn gathers(
    after: XObjectRecoveryOutcome,
    before: XObjectRecoveryOutcome,
    result: RecognizedImage,
    page: u32,
) -> bool {
    &&& after.text@ == before.text@ + text_to_add(before.text@, result.content@)
    &&& after.attempted == before.attempted
    &&& after.images == before.images
    &&& after.llm_usage@ == before.llm_usage@ + match result.llm_usage {
        Some(usage) => usage@,
        None => Seq::empty(),
    }
    &&& after.tables@ == before.tables@ + tables_on(result.tables@, page)
    &&& after.formulas@ == before.formulas@ + formulas_on(result.formulas@, page)
    &&& after.image_preprocessing == if before.image_preprocessing is None {
        result.image_preprocessing
    } else {
        before.image_preprocessing
    }
}

/// Writes the page on tables.
fn set_table_pages(tables: &mut Vec<RecognizedTable>, page: u32)
    ensures
        final(tables)@ == tables_on(old(tables)@, page),
{
    let ghost all = tables@;
    let mut i: usize = 0;
    while i < tables.len()
        invariant
            i <= tables.len(),
            tables.len() == all.len(),
            tables@ == tables_on(all.take(i as int), page) + all.skip(i as int),
        decreases tables.len() - i,
    {
        assert(tables@[i as int] == all[i as int]);
        tables[i].table.page_number = page;
        assert(tables@ =~= tables_on(all.take(i + 1), page) + all.skip(i + 1));
        i += 1;
    }
    assert(all.take(i as int) =~= all);
}

/// Writes the page on formulas.
fn set_formula_pages(formulas: &mut Vec<Formula>, page: u32)
    ensures
        final(formulas)@ == formulas_on(old(formulas)@, page),
{
    let ghost all = formulas@;
    let mut i: usize = 0;
    while i < formulas.len()
        invariant
            i <= formulas.len(),
            formulas.len() == all.len(),
            formulas@ == formulas_on(all.take(i as int), page) + all.skip(i as int),
        decreases formulas.len() - i,
    {
        assert(formulas@[i as int] == all[i as int]);
        formulas[i].page = Some(page);
        assert(formulas@ =~= formulas_on(all.take(i + 1), page) + all.skip(i + 1));
        i += 1;
    }
    assert(all.take(i as int) =~= all);
}

/// The page number of a page, as it is written on what stands on the page.
pub open spec fn page_number(page_idx: usize) -> u32 {
    ((page_idx + 1) as usize) as u32
}

impl XObjectRecoveryOutcome {
    /// Nothing recovered yet from a number of images.
    pub fn new(attempted: usize) -> (r: Self)
        ensures
            r.text@ == Seq::<char>::empty(),
            r.attempted == attempted,
            r.images@ == Seq::<ExtractedImage>::empty(),
            r.llm_usage@ == Seq::<LlmUsage>::empty(),
            r.tables@ == Seq::<RecognizedTable>::empty(),
            r.formulas@ == Seq::<Formula>::empty(),
            r.image_preprocessing is None,
    {
        XObjectRecoveryOutcome {
            text: String::new(),
            attempted,
            images: Vec::new(),
            llm_usage: Vec::new(),
            tables: Vec::new(),
            formulas: Vec::new(),
            image_preprocessing: None,
        }
    }

    /// Adds what a backend made of an image. Where the backend failed there is nothing to add; where a
    /// ceiling is exceeded nothing is added, but for the text if that alone was within the ceilings.
    pub fn collect_xobject_recovery_result(
        &mut self,
        result: Option<RecognizedImage>,
        page_idx: usize,
        budget: &mut SecurityBudget,
    ) -> (r: Result<(), XbergError>)
        requires
            page_idx < usize::MAX,
        ensures
            match result {
                None => r is Ok && *final(self) == *old(self) && *final(budget) == *old(budget),
                Some(image) => {
                    let ledger = after_result(security::open_ledger(*old(budget)), *old(self), image);
                    &&& *final(budget) == ledger.budget
                    &&& match ledger.verdict {
                        Ok(_) => r is Ok && gathers(*final(self), *old(self), image, page_number(page_idx)),
                        Err(limit) => {
                            &&& r matches Err(e) && error::reports(e, limit)
                            &&& final(self).text@ == if after_text(
                                security::open_ledger(*old(budget)),
                                *old(self),
                                image,
                            ).verdict is Ok {
                                old(self).text@ + text_to_add(old(self).text@, image.content@)
                            } else {
                                old(self).text@
                            }
                            &&& *final(self) == (XObjectRecoveryOutcome { text: final(self).text, ..*old(self) })
                        },
                    }
                },
            },
    {
        let mut image = match result {
            None => return Ok(()),
            Some(image) => image,
        };
        let ghost given = image;
        let mut ledger = Ledger::new(*budget);
        let mut addition = String::new();
        if !is_blank(image.content.as_str()) {
            if !self.text.as_str().is_empty() {
                addition.append("\n\n");
            }
            addition.append(image.content.as_str());
            proof {
                reveal_strlit("\n\n");
                assert(addition@ =~= text_to_add(self.text@, image.content@));
            }
            ledger.account_text(addition.as_str());
        }
        assert(addition@ =~= text_to_add(self.text@, image.content@));
        if let Err(limit) = ledger.verdict {
            *budget = ledger.budget;
            return Err(security_error(limit));
        }
        self.text.append(addition.as_str());
        account_xobject_structured_output(&image, self.image_preprocessing.is_none(), &mut ledger);
        *budget = ledger.budget;
        if let Err(limit) = ledger.verdict {
            return Err(security_error(limit));
        }
        if let Some(mut usage) = image.llm_usage {
            self.llm_usage.append(&mut usage);
        }
        assert(self.llm_usage@ =~= old(self).llm_usage@ + match given.llm_usage {
            Some(usage) => usage@,
            None => Seq::empty(),
        });
        if self.image_preprocessing.is_none() {
            self.image_preprocessing = image.image_preprocessing;
        }
        let page = truncate_u32(page_idx + 1);
        set_table_pages(&mut image.tables, page);
        self.tables.append(&mut image.tables);
        set_formula_pages(&mut image.formulas, page);
        self.formulas.append(&mut image.formulas);
        Ok(())
    }

    /// Adds an image itself, with a note of where on the page it comes from and how it was recovered.
    pub fn keep_image(&mut self, fallback: &PageFallbackImage, image_index: usize, page_idx: usize)
        requires
            page_idx < usize::MAX,
        ensures
            final(self).text == old(self).text,
            final(self).attempted == old(self).attempted,
            final(self).llm_usage == old(self).llm_usage,
            final(self).tables == old(self).tables,
            final(self).formulas == old(self).formulas,
            final(self).image_preprocessing == old(self).image_preprocessing,
            document::images(final(self).images@) == document::images(old(self).images@).push(
                recovered_image(*fallback, image_index, page_idx),
            ),
    {
        let mut path = "xobject:page".to_owned();
        push_decimal(&mut path, (page_idx + 1) as u64);
        path.append(":");
        push_decimal(&mut path, image_index as u64);
        let mut description = "recovered from raw image XObject (".to_owned();
        description.append(fallback.recovery.as_str());
        description.append(") after the page rasterizer produced a blank page");
        let image = ExtractedImage {
            data: copy_bytes(fallback.bytes.as_slice()),
            format: fallback.format.as_str().to_owned(),
            image_index: truncate_u32(image_index),
            page_number: Some(truncate_u32(page_idx + 1)),
            description: Some(description),
            source_path: Some(path),
        };
        self.images.push(image);
        assert(image@ =~= recovered_image(*fallback, image_index, page_idx));
        assert(document::images(self.images@) =~= document::images(old(self).images@).push(
            recovered_image(*fallback, image_index, page_idx),
        ));
    }
}

/// An image that a page embeds, as it is kept.
pub open spec fn recovered_image(fallback: PageFallbackImage, image_index: usize, page_idx: usize) -> document::ImageData {
    document::ImageData {
        data: fallback.bytes@,
        format: fallback.format@,
        image_index: image_index as u32,
        page_number: Some(page_number(page_idx)),
        description: Some(
            "recovered from raw image XObject ("@ + fallback.recovery@
                + ") after the page rasterizer produced a blank page"@,
        ),
        source_path: Some(
            "xobject:page"@ + text::decimal((page_idx + 1) as nat) + ":"@ + text::decimal(image_index as nat),
        ),
    }
}

/// The warning that makes the recovery of a page visible.
pub fn xobject_fallback_warning(page_idx: usize, attempted: usize) -> (r: ProcessingWarning)
    requires
        page_idx < usize::MAX,
    ensures
        r.source@ == "ocr"@,
        r.message@ == "Page "@ + text::decimal((page_idx + 1) as nat) + " rendered blank but contains "@
            + text::decimal(attempted as nat)
            + " image XObject(s) the PDF rasterizer could not draw; OCR was retried on the embedded image bytes."@,
{
    let mut message = "Page ".to_owned();
    push_decimal(&mut message, (page_idx + 1) as u64);
    message.append(" rendered blank but contains ");
    push_decimal(&mut message, attempted as u64);
    message.append(
        " image XObject(s) the PDF rasterizer could not draw; OCR was retried on the embedded image bytes.",
    );
    ProcessingWarning { source: "ocr".to_owned(), message }
}

} // verus!
