//! Further laws of rich text, marked-up text, paragraphs, scores and lines of data.
use crate::confidence;
use crate::confidence::PageOcrConfidence;
use crate::csv;
use crate::doc;
use crate::doc::Para;
use crate::document::ElementKind;
use crate::excel;
use crate::json;
use crate::laws::myst::lemma_first_position;
use crate::page_ocr;
use crate::rtf::formatting;
use crate::rtf::formatting::{Mark, Pass};
use crate::security;
use crate::structured;
use crate::text;
use crate::xml;
use crate::xml::Walk;
use vstd::prelude::*;

verus! {

#[verifier::spinoff_prover]
#[verifier::rlimit(60)]
proof fn lemma_short_words()
    ensures
        "u"@.len() == 1,
        "b"@.len() == 1,
        "i"@.len() == 1,
        "u"@ != "b"@,
        "u"@ != "i"@,
        "ul"@.len() == 2,
        "cf"@.len() == 2,
        "par"@.len() == 3,
        "tab"@.len() == 3,
        "par"@ != "tab"@,
        "line"@.len() == 4,
        "info"@.len() == 4,
        "pict"@.len() == 4,
        "line"@ != "info"@,
        "line"@ != "pict"@,
        "plain"@.len() == 5,
        "ulnone"@.len() == 6,
        "strike"@.len() == 6,
        "header"@.len() == 6,
        "headerl"@.len() == 7,
        "headerr"@.len() == 7,
        "headerf"@.len() == 7,
        "footer"@.len() == 6,
        "footerl"@.len() == 7,
        "footerr"@.len() == 7,
        "footerf"@.len() == 7,
        "bullet"@.len() == 6,
        "lquote"@.len() == 6,
        "rquote"@.len() == 6,
        "ldblquote"@.len() == 9,
        "rdblquote"@.len() == 9,
        "endash"@.len() == 6,
        "emdash"@.len() == 6,
{
    reveal_strlit("u");
    reveal_strlit("b");
    reveal_strlit("i");
    reveal_strlit("ul");
    reveal_strlit("cf");
    reveal_strlit("par");
    reveal_strlit("tab");
    reveal_strlit("line");
    reveal_strlit("info");
    reveal_strlit("pict");
    reveal_strlit("plain");
    reveal_strlit("ulnone");
    reveal_strlit("strike");
    reveal_strlit("header");
    reveal_strlit("headerl");
    reveal_strlit("headerr");
    reveal_strlit("headerf");
    reveal_strlit("footer");
    reveal_strlit("footerl");
    reveal_strlit("footerr");
    reveal_strlit("footerf");
    reveal_strlit("bullet");
    reveal_strlit("lquote");
    reveal_strlit("rquote");
    reveal_strlit("ldblquote");
    reveal_strlit("rdblquote");
    reveal_strlit("endash");
    reveal_strlit("emdash");
    assert("u"@[0] == 'u' && "b"@[0] == 'b' && "i"@[0] == 'i');
    assert("par"@[0] != "tab"@[0]);
    assert("line"@[0] == 'l' && "info"@[0] == 'i' && "pict"@[0] == 'p');
}

/// A character that is given by its number takes as many bytes as it does when it is encoded, and is added to the header
/// or the footer that is being read; the end of a paragraph or a line is one line feed.
#[verifier::spinoff_prover]
#[verifier::rlimit(60)]
pub proof fn law_numbered_characters_and_breaks_are_produced(state: Pass, c: char)
    requires
        state.offset + 4 <= usize::MAX,
        (c as u32) < 0xd800,
    ensures
        (c as u32) >= 0x8000 ==> state.acted("u"@, Some(((c as u32) - 65536) as i32)).offset == state.offset
            + vstd::utf8::encode_utf8(seq![c]).len(),
        ({
            let after = state.acted("u"@, Some(c as i32));
            &&& after.offset == state.offset + vstd::utf8::encode_utf8(seq![c]).len()
            &&& state.header_depth is Some ==> after.header == state.header.push(c)
            &&& state.footer_depth is Some ==> after.footer == state.footer.push(c)
            &&& after.track == state.track
        }),
        ({
            let after = state.acted("par"@, None);
            &&& after.offset == state.offset + 1
            &&& state.header_depth is Some ==> after.header == state.header.push('\n')
            &&& after.track == state.track
        }),
        state.acted("line"@, None).offset == state.offset + 1,
        state.acted("tab"@, None).offset == state.offset + 1,
{
    lemma_short_words();
    text::lemma_byte_len_push(Seq::empty(), c);
    assert(Seq::<char>::empty().push(c) =~= seq![c]);
    assert(vstd::utf8::encode_utf8(Seq::empty()).len() == 0);
}

/// In a drawing only text inside elements that hold text counts; elsewhere all text does.
pub proof fn law_drawings_say_only_their_texts(w: Walk, t: Seq<char>)
    ensures
        w.is_svg && (forall|i: int|
            0 <= i < w.stack.len() ==> (#[trigger] w.stack[i]) != "text"@ && w.stack[i] != "tspan"@ && w.stack[i] != "title"@
                && w.stack[i] != "desc"@ && w.stack[i] != "textPath"@) ==> w.with_characters(t) == w,
        (!w.is_svg || w.stack.contains("text"@)) && w.ledger.verdict is Ok && w.with_characters(t).ledger.verdict is Ok
            && text::trimmed(t).len() > 0 ==> {
            let after = w.with_characters(t).content.elements;
            &&& after.len() == w.content.elements.len() + 1
            &&& after.last().kind is Paragraph
            &&& after.last().text == text::trimmed(t)
        },
{
    if w.stack.contains("text"@) {
        let k = choose|k: int| 0 <= k < w.stack.len() && w.stack[k] == "text"@;
        assert(xml::is_text_element(w.stack[k]));
    }
}

/// The heading of an element is one level below that of the element around it, down to the sixth, and the end of an
/// element takes back what its start did.
pub proof fn law_elements_nest(w: Walk, tag: Seq<char>)
    requires
        w.depth < u16::MAX,
        w.started(tag).ledger.verdict is Ok,
    ensures
        w.started(tag).content.elements.len() == w.content.elements.len() + 1,
        w.started(tag).content.elements.last().kind == (ElementKind::Heading {
            level: if w.depth < 6 {
                (w.depth + 1) as u8
            } else {
                6
            },
        }),
        w.started(tag).content.elements.last().text == xml::tag_name(tag),
        w.started(tag).stack == w.stack.push(xml::tag_name(tag)),
        w.started(tag).ended().stack == w.stack,
        w.started(tag).ended().depth == w.depth,
{
    assert(w.stack.push(xml::tag_name(tag)).drop_last() =~= w.stack);
}

proof fn lemma_no_equals_skipped(s: Seq<char>, p: int)
    requires
        0 <= p < s.len(),
        s[p] == '=',
        p + 1 < s.len(),
        s[p + 1] == '"',
    ensures
        xml::after_equals(s, p) == p + 1,
{
    reveal_with_fuel(xml::after_equals, 2);
}

/// The encoding that a document declares is what stands between the quotation marks.
pub proof fn law_declared_encodings_are_read(before: Seq<char>, label: Seq<char>, after: Seq<char>)
    requires
        !before.contains('e'),
        !label.contains('"'),
    ensures
        xml::encoding_in(before + "encoding"@ + seq!['=', '"'] + label + seq!['"'] + after) == Some(label),
{
    let line = before + "encoding"@ + seq!['=', '"'] + label + seq!['"'] + after;
    let p = before.len() as int;
    reveal_strlit("encoding");
    assert("encoding"@.len() == 8 && "encoding"@[0] == 'e');
    assert forall|k: int| 0 <= k < p implies !text::occurs_at(line, "encoding"@, k) by {
        if text::occurs_at(line, "encoding"@, k) {
            assert(line.subrange(k, k + 8)[0] == line[k]);
            assert(line[k] == before[k]);
            assert(before.contains(before[k]));
        }
    }
    assert(line.subrange(p, p + 8) =~= "encoding"@);
    lemma_occurs_first(line, "encoding"@, 0, p);
    assert(line[p + 8] == '=' && line[p + 9] == '"');
    lemma_no_equals_skipped(line, p + 8);
    let q = p + 9;
    let end = q + 1 + label.len();
    assert forall|k: int| q + 1 <= k < end implies line[k] != '"' by {
        assert(line[k] == label[k - q - 1]);
        assert(label.contains(label[k - q - 1]));
    }
    assert(line[end] == '"');
    lemma_first_position(line, '"', q + 1, end);
    assert(line.subrange(q + 1, end) =~= label);
}

proof fn lemma_occurs_first(s: Seq<char>, pattern: Seq<char>, from: int, p: int)
    requires
        0 <= from <= p,
        text::occurs_at(s, pattern, p),
        forall|k: int| from <= k < p ==> !text::occurs_at(s, pattern, k),
    ensures
        text::first_occurrence(s, pattern, from) == Some(p),
    decreases p - from,
{
    if from < p {
        lemma_occurs_first(s, pattern, from + 1, p);
    }
}

/// Where no heading styles are used, a paragraph is a heading only if it is one line of at most eighty bytes that does
/// not end like a sentence, and the next one is longer; where they are used, the style alone decides.
pub proof fn law_sentences_are_no_headings(paragraphs: Seq<Para>, i: int)
    requires
        0 <= i < paragraphs.len(),
    ensures
        doc::heading_of(paragraphs, i, true) == paragraphs[i].heading_level,
        doc::heading_of(paragraphs, i, false) is Some ==> {
            let t = paragraphs[i].text;
            &&& !t.contains('\n')
            &&& vstd::utf8::encode_utf8(t).len() <= 80
            &&& t.len() > 0 ==> t.last() != '.' && t.last() != ':' && t.last() != ';'
            &&& i + 1 < paragraphs.len()
            &&& vstd::utf8::encode_utf8(t).len() < vstd::utf8::encode_utf8(paragraphs[i + 1].text).len()
        },
        i + 1 < paragraphs.len() && paragraphs[i].text.len() > 0 && paragraphs[i + 1].text.len() > 0
            && !paragraphs[i].text.contains('\n') && vstd::utf8::encode_utf8(paragraphs[i].text).len() <= 80
            && paragraphs[i].text.last() != '.' && paragraphs[i].text.last() != ':' && paragraphs[i].text.last() != ';'
            && vstd::utf8::encode_utf8(paragraphs[i].text).len() < vstd::utf8::encode_utf8(paragraphs[i + 1].text).len()
            ==> doc::heading_of(paragraphs, i, false) == Some(2u8),
{
}

/// Every page with a score is evidence, with its number of words, and no other page is.
pub proof fn law_scored_pages_are_evidence(pages: Seq<Option<PageOcrConfidence>>, score: u64, words: nat)
    ensures
        confidence::page_evidence(pages).len() <= pages.len(),
        confidence::page_evidence(pages).contains((score, words)) <==> exists|i: int|
            0 <= i < pages.len() && (#[trigger] pages[i]) is Some && pages[i]->0.score == Some(score) && pages[i]->0.word_count
                == words,
    decreases pages.len(),
{
    if pages.len() > 0 {
        let init = pages.drop_last();
        law_scored_pages_are_evidence(init, score, words);
        let before = confidence::page_evidence(init);
        let after = confidence::page_evidence(pages);
        if after.contains((score, words)) {
            let k = choose|k: int| 0 <= k < after.len() && after[k] == (score, words);
            if k < before.len() {
                assert(before[k] == (score, words));
                let i = choose|i: int|
                    0 <= i < init.len() && (#[trigger] init[i]) is Some && init[i]->0.score == Some(score)
                        && init[i]->0.word_count == words;
                assert(pages[i] == init[i]);
            } else {
                assert(pages[pages.len() - 1] is Some);
            }
        }
        if exists|i: int|
            0 <= i < pages.len() && (#[trigger] pages[i]) is Some && pages[i]->0.score == Some(score)
                && pages[i]->0.word_count == words {
            let i = choose|i: int|
                0 <= i < pages.len() && (#[trigger] pages[i]) is Some && pages[i]->0.score == Some(score)
                    && pages[i]->0.word_count == words;
            if i < init.len() {
                assert(init[i] == pages[i]);
                let k = choose|k: int| 0 <= k < before.len() && before[k] == (score, words);
                assert(after[k] == (score, words));
            } else {
                assert(after[after.len() - 1] == (score, words));
            }
        }
    }
}

/// The lines that are not blank.
pub open spec fn written_lines(lines: Seq<Seq<char>>) -> Seq<Seq<char>>
    decreases lines.len(),
{
    if lines.len() == 0 {
        Seq::empty()
    } else if text::trimmed(lines.last()).len() == 0 {
        written_lines(lines.drop_last())
    } else {
        written_lines(lines.drop_last()).push(lines.last())
    }
}

/// Data of one value per line hold the value of every line that is not blank, in order, if all of these can be read,
/// and nothing at all if one of them cannot.
pub proof fn law_every_line_of_data_is_a_value(lines: Seq<Seq<char>>, k: int)
    ensures
        structured::rows_read(lines) matches Ok(rows) ==> rows.len() == written_lines(lines).len() && (0 <= k < rows.len()
            ==> json::json_read(vstd::utf8::encode_utf8(written_lines(lines)[k])) == Ok::<json::Json, Seq<char>>(rows[k])),
        0 <= k < written_lines(lines).len() && json::json_read(vstd::utf8::encode_utf8(written_lines(lines)[k])) is Err
            ==> structured::rows_read(lines) is Err,
    decreases lines.len(),
{
    if lines.len() > 0 {
        law_every_line_of_data_is_a_value(lines.drop_last(), k);
    }
}

/// A header or a footer is read from the word that starts it to the end of its group.
#[verifier::spinoff_prover]
#[verifier::rlimit(60)]
pub proof fn law_headers_last_as_long_as_their_group(state: Pass)
    ensures
        state.acted("header"@, None).header_depth == Some(state.depth),
        state.acted("footer"@, None).footer_depth == Some(state.depth),
        state.acted("header"@, None).closed().header_depth is None,
        state.acted("footer"@, None).closed().footer_depth is None,
        state.acted("header"@, None).opened().closed().header_depth == Some(state.depth),
        state.acted("header"@, None).offset == state.offset,
{
    lemma_short_words();
    reveal_strlit("header");
    reveal_strlit("footer");
    reveal_strlit("ulnone");
    reveal_strlit("strike");
    assert("header"@[0] == 'h' && "footer"@[0] == 'f' && "ulnone"@[0] == 'u' && "strike"@[0] == 's');
}

/// Text in a skipped group leaves no trace.
pub proof fn law_skipped_text_leaves_no_trace(state: Pass, c: char)
    requires
        state.skip_depth > 0,
        state.instruction_depth is None,
    ensures
        state.literal(c) == state,
        state.blank().offset == state.offset,
        state.escaped(c).offset == state.offset,
        state.escaped(c).header == state.header,
        state.escaped(c).track == state.track,
{
}

/// A paragraph that a link lies in has an annotation with the target of the link, over its bytes, counted from the
/// start of the paragraph.
pub proof fn law_links_are_annotated(
    links: Seq<(usize, usize, Seq<char>)>,
    para_start: usize,
    para_end: usize,
    i: int,
)
    requires
        0 <= i < links.len(),
        para_start <= links[i].0 < links[i].1 <= para_end,
        para_end - para_start <= u32::MAX,
    ensures
        formatting::link_annotations(links, para_start, para_end).contains(
            ((links[i].0 - para_start) as u32, (links[i].1 - para_start) as u32, Mark::Link(links[i].2)),
        ),
    decreases links.len(),
{
    let wanted = ((links[i].0 - para_start) as u32, (links[i].1 - para_start) as u32, Mark::Link(links[i].2));
    let init = links.drop_last();
    let before = formatting::link_annotations(init, para_start, para_end);
    let all = formatting::link_annotations(links, para_start, para_end);
    if i < init.len() {
        law_links_are_annotated(init, para_start, para_end, i);
        let k = choose|k: int| 0 <= k < before.len() && before[k] == wanted;
        assert(all[k] == wanted);
    } else {
        assert(all[all.len() - 1] == wanted);
    }
}

/// What the columns hold is told from the rows below the header alone: the header does not count, and neither do rows
/// after the twentieth.
pub proof fn law_header_tells_nothing_of_the_columns(header: Seq<Seq<char>>, rows: Seq<Seq<Seq<char>>>)
    ensures
        csv::sampled(seq![header] + rows, true) == csv::sampled(rows, false),
        rows.len() <= 20 ==> csv::sampled(rows, false) == rows,
        rows.len() > 20 ==> csv::sampled(rows, false) == rows.take(20),
{
    let all = seq![header] + rows;
    assert(csv::sampled(all, true) =~= csv::sampled(rows, false));
    if rows.len() <= 20 {
        assert(csv::sampled(rows, false) =~= rows);
    } else {
        assert(csv::sampled(rows, false) =~= rows.take(20));
    }
}

/// Text after a group that had text is set apart by a space, which counts once it is followed by text; a group that had
/// none, or that is skipped, leaves none.
pub proof fn law_groups_with_text_are_set_apart(state: Pass)
    requires
        state.has_text.len() > 0,
        state.skip_depth == 0,
        state.offset + 1 <= usize::MAX,
    ensures
        state.has_text.last() ==> state.closed().pending_space,
        !state.has_text.last() ==> state.closed().pending_space == state.pending_space,
        state.closed().pending_space && state.offset > 0 ==> state.closed().spaced().offset == state.offset + 1,
        !state.closed().spaced().pending_space,
        !state.opened().pending_space,
        state.offset > 0 ==> state.blank().offset == state.offset + 1,
        state.offset == 0 ==> state.blank().offset == 0,
        state.closed().depth == state.depth - 1,
        state.opened().closed().depth == state.depth,
{
}

/// The verdict on a page is that at its place, counted from the offset on; pages without a verdict are not rejected.
pub proof fn law_verdicts_are_about_their_pages(rejected: Seq<bool>, offset: usize, i: int)
    requires
        0 <= i < rejected.len(),
        offset + i + 1 <= u32::MAX,
    ensures
        page_ocr::is_rejected(rejected, offset, (offset + i + 1) as u32) == rejected[i],
        offset + rejected.len() + 1 <= u32::MAX ==> !page_ocr::is_rejected(
            rejected,
            offset,
            (offset + rejected.len() + 1) as u32,
        ),
        !page_ocr::is_rejected(rejected, offset, 0),
{
}

proof fn lemma_upper_stays(s: Seq<char>)
    ensures
        text::uppercased(text::uppercased(s)) == text::uppercased(s),
{
    assert forall|k: int| 0 <= k < s.len() implies text::ascii_upper(text::ascii_upper(s[k])) == text::ascii_upper(s[k]) by {}
    assert(text::uppercased(text::uppercased(s)) =~= text::uppercased(s));
}

/// The kind of a formula is that of the function that it starts with, in letters of either case.
#[verifier::spinoff_prover]
#[verifier::rlimit(60)]
pub proof fn law_formulas_are_told_by_their_function(rest: Seq<char>, s: Seq<char>)
    ensures
        excel::formula_kind("=DDE("@ + rest) == "DDE"@,
        excel::formula_kind("=WEBSERVICE("@ + rest) == "WEBSERVICE"@,
        excel::formula_kind("=HYPERLINK("@ + rest) == "HYPERLINK"@,
        excel::formula_kind(text::uppercased(s)) == excel::formula_kind(s),
{
    lemma_upper_stays(s);
    lemma_function_starts(rest);
}

#[verifier::spinoff_prover]
#[verifier::rlimit(60)]
proof fn lemma_function_starts(rest: Seq<char>)
    ensures
        text::occurs_at(text::uppercased("=DDE("@ + rest), "=DDE("@, 0),
        text::occurs_at(text::uppercased("=WEBSERVICE("@ + rest), "=WEBSERVICE("@, 0),
        text::occurs_at(text::uppercased("=HYPERLINK("@ + rest), "=HYPERLINK("@, 0),
        !text::occurs_at(text::uppercased("=WEBSERVICE("@ + rest), "=DDE("@, 0),
        !text::occurs_at(text::uppercased("=HYPERLINK("@ + rest), "=DDE("@, 0),
        !text::occurs_at(text::uppercased("=HYPERLINK("@ + rest), "=WEBSERVICE("@, 0),
{
    reveal_strlit("=DDE(");
    reveal_strlit("=WEBSERVICE(");
    reveal_strlit("=HYPERLINK(");
    let a = text::uppercased("=DDE("@ + rest);
    let b = text::uppercased("=WEBSERVICE("@ + rest);
    let c = text::uppercased("=HYPERLINK("@ + rest);
    assert(a.subrange(0, 5) =~= "=DDE("@);
    assert(b.subrange(0, 12) =~= "=WEBSERVICE("@);
    assert(c.subrange(0, 11) =~= "=HYPERLINK("@);
    assert(b[1] == 'W' && c[1] == 'H');
    assert("=DDE("@[1] == 'D' && "=WEBSERVICE("@[1] == 'W');
    assert(b.subrange(0, 5)[1] == b[1]);
    assert(c.subrange(0, 5)[1] == c[1]);
    if c.len() >= 12 {
        assert(c.subrange(0, 12)[1] == c[1]);
    }
}

/// A ratio is shown by the nearest tenth.
pub proof fn law_ratios_are_shown_by_the_nearest_tenth(uncompressed: nat, compressed: nat)
    requires
        compressed > 0,
    ensures
        ({
            let tenths = security::ratio_tenths(uncompressed, compressed);
            &&& 2 * (10 * uncompressed) <= (2 * tenths + 1) * compressed
            &&& (2 * tenths - 1) * compressed <= 2 * (10 * uncompressed)
        }),
{
    let n = uncompressed * 10;
    let whole = n / compressed;
    let rest = n % compressed;
    assert(n == whole * compressed + rest && 0 <= rest < compressed) by (nonlinear_arith)
        requires
            compressed > 0,
            whole == n / compressed,
            rest == n % compressed,
    ;
    let tenths = security::ratio_tenths(uncompressed, compressed);
    assert((2 * tenths + 1) * compressed == 2 * (tenths * compressed) + compressed) by (nonlinear_arith);
    assert((2 * tenths - 1) * compressed == 2 * (tenths * compressed) - compressed) by (nonlinear_arith);
    assert((whole + 1) * compressed == whole * compressed + compressed) by (nonlinear_arith);
}

/// Every word for a header starts one, and every word for a footer starts one; a word for a bullet, a quotation mark or
/// a dash is one character of three bytes. None of them changes the formatting.
#[verifier::spinoff_prover]
#[verifier::rlimit(60)]
pub proof fn law_headers_footers_and_symbols_have_their_words(state: Pass, word: Seq<char>)
    requires
        state.offset + 3 <= usize::MAX,
    ensures
        word == "header"@ || word == "headerl"@ || word == "headerr"@ || word == "headerf"@ ==> state.acted(
            word,
            None,
        ).header_depth == Some(state.depth) && state.acted(word, None).offset == state.offset,
        word == "footer"@ || word == "footerl"@ || word == "footerr"@ || word == "footerf"@ ==> state.acted(
            word,
            None,
        ).footer_depth == Some(state.depth) && state.acted(word, None).offset == state.offset,
        word == "bullet"@ || word == "lquote"@ || word == "rquote"@ || word == "ldblquote"@ || word == "rdblquote"@ || word
            == "endash"@ || word == "emdash"@ ==> state.acted(word, None).offset == state.offset + 3,
{
    lemma_short_words();
    lemma_long_words();
}

#[verifier::spinoff_prover]
#[verifier::rlimit(60)]
proof fn lemma_long_words()
    ensures
        "header"@[0] == 'h',
        "headerl"@[0] == 'h',
        "headerr"@[0] == 'h',
        "headerf"@[0] == 'h',
        "footer"@[0] == 'f',
        "footerl"@[0] == 'f',
        "footerr"@[0] == 'f',
        "footerf"@[0] == 'f',
        "ulnone"@[0] == 'u',
        "strike"@[0] == 's',
        "bullet"@[0] == 'b',
        "lquote"@[0] == 'l',
        "rquote"@[0] == 'r',
        "endash"@[0] == 'e',
        "emdash"@[0] == 'e',
{
    reveal_strlit("header");
    reveal_strlit("headerl");
    reveal_strlit("headerr");
    reveal_strlit("headerf");
    reveal_strlit("footer");
    reveal_strlit("footerl");
    reveal_strlit("footerr");
    reveal_strlit("footerf");
    reveal_strlit("ulnone");
    reveal_strlit("strike");
    reveal_strlit("bullet");
    reveal_strlit("lquote");
    reveal_strlit("rquote");
    reveal_strlit("endash");
    reveal_strlit("emdash");
}

} // verus!
