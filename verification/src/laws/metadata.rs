//! Laws of what documents say of themselves, and of errors.
use crate::csv;
use crate::document;
use crate::document::{CsvMetadata, ElementKind, FormatMetadata, Metadata, ObjectData, XmlMetadata};
use crate::error::XbergError;
use crate::excel;
use crate::excel::SheetData;
use crate::geojson;
use crate::json;
use crate::laws::documents::trimmed_texts;
use crate::laws::structured::lines;
use crate::myst;
use crate::myst::Render;
use crate::page_ocr;
use crate::page_ocr::{RecognizedImage, XObjectRecoveryOutcome};
use crate::structured;
use crate::structured::StructuredDataResult;
use crate::text;
use crate::xml;
use crate::xml::Walk;
use vstd::prelude::*;

verus! {

/// A file of delimited text says how many rows it has, how wide the widest one is, its delimiter unless that is a
/// comma, and one type per column.
pub proof fn law_delimited_files_describe_their_rows(
    meta: CsvMetadata,
    rows: Seq<Seq<Seq<char>>>,
    delimiter: char,
    i: int,
)
    requires
        csv::describes(meta, rows, delimiter),
        rows.len() <= u32::MAX,
        csv::widest(rows) <= u32::MAX,
        0 <= i < rows.len(),
    ensures
        meta.row_count == rows.len(),
        rows[i].len() <= meta.column_count,
        exists|k: int| 0 <= k < rows.len() && (#[trigger] rows[k]).len() == meta.column_count,
        delimiter == ',' <==> meta.delimiter is None,
        meta.delimiter matches Some(told) ==> told@ == seq![delimiter],
        meta.has_header ==> rows.len() >= 2 && rows[0].len() >= 2,
        meta.column_types matches Some(types) ==> types@.len() == meta.column_count,
        meta.column_types is None <==> meta.column_count == 0,
{
    crate::laws::delimited::law_no_row_is_wider(rows);
    if let Some(types) = meta.column_types {
        assert(text::strings(types@).len() == types@.len());
    }
}

/// The value of a name is that of the first entry of the name, and there is none where no entry has the name.
pub proof fn law_values_are_found_by_name(entries: Seq<(Seq<char>, Seq<char>)>, name: Seq<char>)
    ensures
        document::value_of(entries, name) is None <==> forall|k: int| 0 <= k < entries.len() ==> (#[trigger] entries[k]).0
            != name,
        document::value_of(entries, name) matches Some(value) ==> exists|k: int|
            0 <= k < entries.len() && #[trigger] entries[k] == (name, value) && forall|m: int|
                0 <= m < k ==> (#[trigger] entries[m]).0 != name,
    decreases entries.len(),
{
    if entries.len() > 0 && entries[0].0 != name {
        let rest = entries.skip(1);
        law_values_are_found_by_name(rest, name);
        if document::value_of(rest, name) is None {
            assert forall|k: int| 0 <= k < entries.len() implies (#[trigger] entries[k]).0 != name by {
                if k > 0 {
                    assert(rest[k - 1].0 != name);
                }
            }
        } else {
            let value = document::value_of(rest, name)->0;
            let k = choose|k: int|
                0 <= k < rest.len() && #[trigger] rest[k] == (name, value) && forall|m: int|
                    0 <= m < k ==> (#[trigger] rest[m]).0 != name;
            assert(entries[k + 1] == (name, value));
            assert forall|m: int| 0 <= m < k + 1 implies (#[trigger] entries[m]).0 != name by {
                if m > 0 {
                    assert(rest[m - 1].0 != name);
                }
            }
        }
    } else if entries.len() > 0 {
        assert(entries[0] == (name, entries[0].1));
    }
}

/// A workbook says how many sheets it has and how they are called, in their order; its author is its creator and its
/// only author.
pub proof fn law_workbooks_describe_their_sheets(
    m: Metadata,
    entries: Seq<(Seq<char>, Seq<char>)>,
    book: Seq<SheetData>,
    i: int,
)
    requires
        excel::describes_workbook(m, entries, book),
        book.len() <= u32::MAX,
        0 <= i < book.len(),
    ensures
        m.format matches Some(FormatMetadata::Excel(meta)) && meta.sheet_count == Some(book.len() as u32)
            && meta.sheet_names is Some && meta.sheet_names->0@.len() == book.len() && meta.sheet_names->0@[i]@
            == book[i].name,
        m.created_by is Some <==> m.authors is Some,
        m.created_by matches Some(name) ==> m.authors->0@.len() == 1 && m.authors->0@[0]@ == name@,
        m.title matches Some(title) ==> entries.contains(("title"@, title@)),
{
    if let Some(FormatMetadata::Excel(meta)) = m.format {
        let names = text::strings(meta.sheet_names->0@);
        assert(names == book.map_values(|s: SheetData| s.name));
        assert(names[i] == meta.sheet_names->0@[i]@);
    }
    if m.created_by is Some {
        let names = text::strings(m.authors->0@);
        assert(names.len() == 1);
        assert(names[0] == m.authors->0@[0]@);
    }
    law_values_are_found_by_name(entries, "title"@);
    if let Some(title) = m.title {
        let k = choose|k: int| 0 <= k < entries.len() && #[trigger] entries[k] == ("title"@, title@);
        assert(entries[k] == ("title"@, title@));
    }
}

/// The keywords of a workbook are what stands between its commas, without white space and blanks.
pub proof fn law_keywords_are_the_pieces_between_commas(words: Seq<Seq<char>>)
    requires
        words.len() > 0,
        forall|k: int| 0 <= k < words.len() ==> !(#[trigger] words[k]).contains(','),
    ensures
        excel::trimmed_pieces(text::split_on(text::join(words, seq![',']), ',')) == trimmed_texts(words),
{
    text::lemma_split_of_join(words, ',');
    lemma_trimmed_pieces(words);
}

proof fn lemma_trimmed_pieces(words: Seq<Seq<char>>)
    ensures
        excel::trimmed_pieces(words) == trimmed_texts(words),
    decreases words.len(),
{
    if words.len() > 0 {
        lemma_trimmed_pieces(words.drop_last());
    }
}

/// Every entry without a field of its own is kept among the others, and no other entry is.
pub proof fn law_other_entries_are_kept(entries: Seq<(Seq<char>, Seq<char>)>, entry: (Seq<char>, Seq<char>))
    ensures
        excel::other_entries(entries).contains(entry) <==> entries.contains(entry) && !excel::has_own_field(entry.0),
    decreases entries.len(),
{
    if entries.len() > 0 {
        let init = entries.drop_last();
        law_other_entries_are_kept(init, entry);
        let before = excel::other_entries(init);
        let after = excel::other_entries(entries);
        if after.contains(entry) {
            let k = choose|k: int| 0 <= k < after.len() && after[k] == entry;
            if k < before.len() {
                assert(before[k] == entry);
                let m = choose|m: int| 0 <= m < init.len() && init[m] == entry;
                assert(entries[m] == entry);
            } else {
                assert(entries[entries.len() - 1] == entry);
            }
        }
        if entries.contains(entry) && !excel::has_own_field(entry.0) {
            let m = choose|m: int| 0 <= m < entries.len() && entries[m] == entry;
            if m < init.len() {
                assert(init[m] == entry);
                let k = choose|k: int| 0 <= k < before.len() && before[k] == entry;
                assert(after[k] == entry);
            } else {
                assert(after[after.len() - 1] == entry);
            }
        }
    }
}

/// The texts of objects that are not blank, in order.
pub open spec fn object_texts(objects: Seq<ObjectData>) -> Seq<Seq<char>>
    decreases objects.len(),
{
    if objects.len() == 0 {
        Seq::empty()
    } else if text::trimmed(objects.last().content).len() == 0 {
        object_texts(objects.drop_last())
    } else {
        object_texts(objects.drop_last()).push(objects.last().content)
    }
}

/// Embedded objects are kept as they are, and the text of each that is not blank follows in the body, in order and
/// whole.
pub proof fn law_embedded_objects_are_kept_and_said(c: document::Content, objects: Seq<ObjectData>)
    ensures
        objects.len() > 0 ==> excel::with_objects(c, objects).children == Some(objects),
        objects.len() == 0 ==> excel::with_objects(c, objects) == c,
        lines(excel::with_objects(c, objects).elements) == lines(c.elements) + object_texts(objects),
        excel::with_objects(c, objects).tables == c.tables,
        excel::with_objects(c, objects).images == c.images,
{
    lemma_object_texts(c, objects);
    assert(lines(c.elements) + Seq::<Seq<char>>::empty() =~= lines(c.elements));
}

proof fn lemma_object_texts(c: document::Content, objects: Seq<ObjectData>)
    ensures
        ({
            let after = excel::with_object_texts(c, objects);
            &&& lines(after.elements) == lines(c.elements) + object_texts(objects)
            &&& after.tables == c.tables
            &&& after.images == c.images
        }),
    decreases objects.len(),
{
    if objects.len() == 0 {
        assert(lines(c.elements) + Seq::<Seq<char>>::empty() =~= lines(c.elements));
    } else {
        lemma_object_texts(c, objects.drop_last());
        let before = excel::with_object_texts(c, objects.drop_last());
        let e = document::bare(ElementKind::Paragraph, objects.last().content, 0);
        assert(before.elements.push(e).drop_last() =~= before.elements);
        assert(lines(excel::with_object_texts(c, objects).elements) =~= lines(c.elements) + object_texts(objects));
    }
}

/// Parsed data say how many of their fields hold text and which format they have; every leaf is listed if there is
/// one.
pub proof fn law_parsed_data_describe_themselves(result: StructuredDataResult, is_geojson: bool, summarized: bool)
    requires
        result.metadata@.len() == 0,
    ensures
        ({
            let said = structured::additional_metadata(result, is_geojson, summarized);
            &&& said.len() >= 2
            &&& said[0] == ("field_count"@, json::count_number(result.text_fields@.len()))
            &&& said[1] == ("data_format"@, json::Json::Text(result.format@))
            &&& is_geojson ==> said.contains(("geojson_summarized"@, json::Json::Bool(summarized)))
            &&& is_geojson && summarized && result.value is Some ==> said.contains(
                ("geojson_summary"@, result.value->0@),
            )
            &&& result.flattened@.len() > 0 ==> said.last() == (
                "flattened_fields"@,
                json::text_values(text::strings(result.flattened@)),
            )
            &&& !is_geojson && result.flattened@.len() == 0 ==> said.len() == 2
        }),
{
    let said = structured::additional_metadata(result, is_geojson, summarized);
    assert(document::pairs(result.metadata@) =~= Seq::empty());
    if is_geojson {
        assert(said[2] == ("geojson_summarized"@, json::Json::Bool(summarized)));
        if summarized && result.value is Some {
            assert(said[3] == ("geojson_summary"@, result.value->0@));
        }
    }
}

/// A summary tells each count under its name.
pub proof fn law_summary_tells_each_count_by_name(value: json::Json)
    ensures
        ({
            let g = geojson::gathered(value);
            &&& geojson::summary_of(value) is Object
            &&& tells_count(geojson::summary_of(value), "feature_count"@, g.counts.feature_count as nat)
            &&& tells_count(geojson::summary_of(value), "geometry_count"@, g.counts.geometry_count as nat)
            &&& tells_count(geojson::summary_of(value), "null_geometry_count"@, g.counts.null_geometry_count as nat)
            &&& tells_count(geojson::summary_of(value), "invalid_geometry_count"@, g.counts.invalid_geometry_count as nat)
            &&& tells_count(geojson::summary_of(value), "invalid_feature_count"@, g.counts.invalid_feature_count as nat)
            &&& tells_count(geojson::summary_of(value), "property_count"@, g.counts.property_count as nat)
            &&& tells_count(geojson::summary_of(value), "position_count"@, g.counts.position_count as nat)
        }),
{
    let members = geojson::summary_of(value)->Object_0;
    let c = geojson::gathered(value).counts;
    assert(members[3] == ("feature_count"@, json::count_number(c.feature_count as nat)));
    assert(members[4] == ("geometry_count"@, json::count_number(c.geometry_count as nat)));
    assert(members[5] == ("null_geometry_count"@, json::count_number(c.null_geometry_count as nat)));
    assert(members[6] == ("invalid_geometry_count"@, json::count_number(c.invalid_geometry_count as nat)));
    assert(members[7] == ("invalid_feature_count"@, json::count_number(c.invalid_feature_count as nat)));
    assert(members[9] == ("property_count"@, json::count_number(c.property_count as nat)));
    assert(members[12] == ("position_count"@, json::count_number(c.position_count as nat)));
}

/// Whether an object tells a count under a name, in decimal digits.
pub open spec fn tells_count(summary: json::Json, name: Seq<char>, n: nat) -> bool {
    exists|k: int|
        0 <= k < summary->Object_0.len() && #[trigger] summary->Object_0[k] == (
            name,
            json::Json::Number(json::Number { text: text::decimal(n), integer: true, double: None }),
        )
}

/// Whether a text ends in another one.
pub open spec fn closes_with(s: Seq<char>, tail: Seq<char>) -> bool {
    tail.len() <= s.len() && s.skip(s.len() - tail.len()) == tail
}

proof fn lemma_closes(head: Seq<char>, tail: Seq<char>)
    ensures
        closes_with(head + tail, tail),
{
    assert((head + tail).skip((head + tail).len() - tail.len()) =~= tail);
}

/// What an error is about, if it says so in words of its own.
pub open spec fn words_of(error: XbergError) -> Option<(Seq<char>, Option<String>)> {
    match error {
        XbergError::Validation { message, source } => Some((message@, source)),
        XbergError::Parsing { message, source } => Some((message@, source)),
        XbergError::Ocr { message, source } => Some((message@, source)),
        XbergError::Cache { message, source } => Some((message@, source)),
        XbergError::ImageProcessing { message, source } => Some((message@, source)),
        XbergError::Serialization { message, source } => Some((message@, source)),
        XbergError::Embedding { message, source } => Some((message@, source)),
        XbergError::Security { message, source } => Some((message@, source)),
        XbergError::Transcription { message, source } => Some((message@, source)),
        XbergError::Reranking { message, source } => Some((message@, source)),
        XbergError::Io(message) => Some((message@, None)),
        XbergError::UnsupportedFormat(message) => Some((message@, None)),
        XbergError::Other(message) => Some((message@, None)),
        XbergError::LockPoisoned(message) => Some((message@, None)),
        XbergError::Plugin { message, .. } => Some((message@, None)),
        _ => None,
    }
}

/// An error tells its own words, and its cause after them, where it has one.
pub proof fn law_errors_tell_their_words_and_their_cause(error: XbergError)
    requires
        words_of(error) is Some,
    ensures
        ({
            let (words, cause) = words_of(error)->0;
            match cause {
                None => closes_with(error.spec_message(), words),
                Some(reason) => closes_with(
                    error.spec_message(),
                    words + " (caused by: "@ + reason@ + ")"@,
                ),
            }
        }),
{
    let (words, cause) = words_of(error)->0;
    let full = error.spec_message();
    match cause {
        None => {
            if let XbergError::Other(message) = error {
                assert(full.skip(0) =~= full);
            } else {
                lemma_prefixed(error);
            }
        },
        Some(reason) => {
            lemma_prefixed(error);
        },
    }
}

#[verifier::spinoff_prover]
#[verifier::rlimit(60)]
proof fn lemma_prefixed(error: XbergError)
    requires
        words_of(error) is Some,
        !(error is Other),
    ensures
        ({
            let (words, cause) = words_of(error)->0;
            let tail = match cause {
                None => words,
                Some(reason) => words + " (caused by: "@ + reason@ + ")"@,
            };
            closes_with(error.spec_message(), tail)
        }),
{
    let (words, cause) = words_of(error)->0;
    let prefix = match error {
        XbergError::Validation { .. } => "Validation error"@ + ": "@,
        XbergError::Parsing { .. } => "Parsing error"@ + ": "@,
        XbergError::Ocr { .. } => "OCR processing error"@ + ": "@,
        XbergError::Cache { .. } => "Cache error"@ + ": "@,
        XbergError::ImageProcessing { .. } => "Image processing error"@ + ": "@,
        XbergError::Serialization { .. } => "Serialization error"@ + ": "@,
        XbergError::Embedding { .. } => "Embedding error"@ + ": "@,
        XbergError::Security { .. } => "Security violation"@ + ": "@,
        XbergError::Transcription { .. } => "Transcription error"@ + ": "@,
        XbergError::Reranking { .. } => "Reranking error"@ + ": "@,
        XbergError::Io(_) => "System I/O error: "@,
        XbergError::UnsupportedFormat(_) => "Unsupported format: "@,
        XbergError::LockPoisoned(_) => "Internal lock poisoned: "@,
        XbergError::Plugin { plugin_name, .. } => "Plugin '"@ + plugin_name@ + "' error: "@,
        _ => Seq::empty(),
    };
    let tail = match cause {
        None => words,
        Some(reason) => words + " (caused by: "@ + reason@ + ")"@,
    };
    lemma_closes(prefix, tail);
    match cause {
        None => {
            assert(error.spec_message() =~= prefix + words);
        },
        Some(reason) => {
            assert(prefix + words + " (caused by: "@ + reason@ + ")"@ =~= prefix + tail);
        },
    }
}

/// What a backend made of an image is added behind what was there, and its tables and formulas stand on the page of
/// the image.
pub proof fn law_recovered_parts_stand_on_their_page(
    after: XObjectRecoveryOutcome,
    before: XObjectRecoveryOutcome,
    result: RecognizedImage,
    page: u32,
    i: int,
)
    requires
        page_ocr::gathers(after, before, result, page),
    ensures
        after.tables@.len() == before.tables@.len() + result.tables@.len(),
        after.formulas@.len() == before.formulas@.len() + result.formulas@.len(),
        0 <= i < before.tables@.len() ==> after.tables@[i] == before.tables@[i],
        0 <= i < result.tables@.len() ==> after.tables@[before.tables@.len() + i].table.page_number == page
            && after.tables@[before.tables@.len() + i].table.cells == result.tables@[i].table.cells
            && after.tables@[before.tables@.len() + i].table.markdown == result.tables@[i].table.markdown,
        0 <= i < result.formulas@.len() ==> after.formulas@[before.formulas@.len() + i].page == Some(page)
            && after.formulas@[before.formulas@.len() + i].latex == result.formulas@[i].latex,
{
}

/// A document says how often elements start in it, and names each of them once.
pub proof fn law_elements_are_tallied(meta: XmlMetadata, names: Seq<Seq<char>>, name: Seq<char>)
    requires
        xml::tallied(meta, names),
        names.len() < u32::MAX,
    ensures
        meta.element_count == names.len(),
        text::strings(meta.unique_elements@).no_duplicates(),
        text::strings(meta.unique_elements@).contains(name) <==> names.contains(name),
{
    xml::law_distinct_names_occur_once(names);
    lemma_distinct_names_occur(names, name);
}

proof fn lemma_distinct_names_occur(names: Seq<Seq<char>>, name: Seq<char>)
    ensures
        xml::distinct(names).contains(name) <==> names.contains(name),
    decreases names.len(),
{
    xml::law_distinct_names_occur_once(names);
    if names.contains(name) {
        let k = choose|k: int| 0 <= k < names.len() && names[k] == name;
        assert(xml::distinct(names).contains(names[k]));
    }
    if names.len() > 0 && xml::distinct(names).contains(name) {
        let init = names.drop_last();
        lemma_distinct_names_occur(init, name);
        let before = xml::distinct(init);
        let after = xml::distinct(names);
        let k = choose|k: int| 0 <= k < after.len() && after[k] == name;
        if k < before.len() {
            assert(before[k] == name);
            let m = choose|m: int| 0 <= m < init.len() && init[m] == name;
            assert(names[m] == name);
        } else {
            assert(names[names.len() - 1] == name);
        }
    }
}

/// It is warned of a document that ends inside elements, and of no other one.
pub proof fn law_unclosed_elements_are_warned_of(w: Walk)
    ensures
        xml::closed_content(w).elements == w.content.elements,
        w.stack.len() == 0 ==> xml::closed_content(w).warnings == w.content.warnings,
        w.stack.len() > 0 ==> xml::closed_content(w).warnings.len() == w.content.warnings.len() + 1,
{
}

/// Tags in brackets are read back, in order.
pub proof fn law_tags_are_read_back(r: Render, tags: Seq<Seq<char>>)
    requires
        tags.len() > 0,
        forall|k: int|
            0 <= k < tags.len() ==> (#[trigger] tags[k]).len() > 0 && text::trimmed(tags[k]) == tags[k]
                && !tags[k].contains(',') && !myst::is_quote(tags[k][0]) && !myst::is_quote(tags[k].last()),
        !myst::tags_read(r, tags).0.failed(),
    ensures
        myst::tags_read(r, tags).1 == tags,
        myst::tags_read(r, text::split_on(text::join(tags, seq![',']), ',')).1 == tags,
{
    lemma_tags_read(r, tags);
    assert forall|k: int| 0 <= k < tags.len() implies !(#[trigger] tags[k]).contains(',') by {}
    text::lemma_split_of_join(tags, ',');
}

#[verifier::spinoff_prover]
#[verifier::rlimit(60)]
proof fn lemma_tags_read(r: Render, tags: Seq<Seq<char>>)
    requires
        forall|k: int|
            0 <= k < tags.len() ==> (#[trigger] tags[k]).len() > 0 && text::trimmed(tags[k]) == tags[k]
                && !myst::is_quote(tags[k][0]) && !myst::is_quote(tags[k].last()),
        !myst::tags_read(r, tags).0.failed(),
    ensures
        myst::tags_read(r, tags).1 == tags,
    decreases tags.len(),
{
    broadcast use myst::lemma_appended;

    if tags.len() == 0 {
        assert(myst::tags_read(r, tags).1 =~= tags);
    } else {
        let init = tags.drop_last();
        assert(tags[tags.len() - 1].len() > 0);
        assert forall|k: int| 0 <= k < init.len() implies (#[trigger] init[k]).len() > 0 && text::trimmed(init[k])
            == init[k] && !myst::is_quote(init[k][0]) && !myst::is_quote(init[k].last()) by {
            assert(tags[k].len() > 0);
        }
        let before = myst::tags_read(r, init);
        assert(myst::unquoted(tags.last()) == tags.last());
        assert(!before.0.failed());
        lemma_tags_read(r, init);
        assert(init.push(tags.last()) =~= tags);
    }
}

} // verus!
