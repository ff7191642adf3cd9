//! Laws of tables of names and codes, of named values, and of spans that move.
use crate::confidence::SchemaCompliance;
use crate::error::{McpErrorCategory, XbergError};
use crate::json;
use crate::json::Json;
use crate::myst;
use crate::rtf::tables;
use crate::rtf::tracker;
use crate::rtf::tracker::RtfFormattingSpan;
use crate::rtf::words;
use crate::table_model::TatrClass;
use crate::text;
use vstd::prelude::*;

verus! {

/// No two charsets stand for the same code page.
pub proof fn law_charsets_have_code_pages_of_their_own(a: u8, b: u8)
    requires
        words::charset_codepage(a) is Some,
        words::charset_codepage(a) == words::charset_codepage(b),
    ensures
        a == b,
{
}

/// The font in force decides the code page, if it has one; else the code page that the group declares does.
pub proof fn law_font_decides_the_code_page(
    stack: Seq<Option<u16>>,
    default_font: Option<u16>,
    fonts: Map<u16, u32>,
    codepages: Seq<u32>,
    font: u16,
)
    requires
        stack.len() > 0,
        codepages.len() > 0,
    ensures
        stack.last() == Some(font) && fonts.dom().contains(font) ==> tables::decode_codepage(
            stack,
            default_font,
            fonts,
            codepages,
        ) == fonts[font],
        stack.last() is None && default_font == Some(font) && fonts.dom().contains(font) ==> tables::decode_codepage(
            stack,
            default_font,
            fonts,
            codepages,
        ) == fonts[font],
        stack.last() == Some(font) && !fonts.dom().contains(font) ==> tables::decode_codepage(
            stack,
            default_font,
            fonts,
            codepages,
        ) == codepages.last(),
        stack.last() is None && default_font is None ==> tables::decode_codepage(stack, default_font, fonts, codepages)
            == codepages.last(),
{
}

/// The request is at fault for what it asks and for what goes past a limit, the document for what cannot be read, the
/// client for a cancellation, and the server for everything else.
pub proof fn law_faults_are_told_apart(error: XbergError)
    ensures
        error.spec_category() == McpErrorCategory::InvalidParams <==> error is Validation || error is UnsupportedFormat
            || error is MissingDependency || error is Security,
        error.spec_category() == McpErrorCategory::ParseError <==> error is Parsing,
        error.spec_category() == McpErrorCategory::Cancelled <==> error is Cancelled,
{
}

/// The better data comply with their schema, the more it weighs.
pub proof fn law_better_compliance_weighs_more()
    ensures
        SchemaCompliance::AllInvalid.spec_half_points() == 0,
        SchemaCompliance::AllInvalid.spec_half_points() < SchemaCompliance::PartialValid.spec_half_points(),
        SchemaCompliance::PartialValid.spec_half_points() < SchemaCompliance::AllValid.spec_half_points(),
        SchemaCompliance::PartialValid.spec_half_points() * 2 == SchemaCompliance::AllValid.spec_half_points(),
{
}

/// No two classes stand at the same position among the outputs of the model.
pub proof fn law_classes_have_positions_of_their_own(a: TatrClass, b: TatrClass)
    requires
        a.index() == b.index(),
    ensures
        a == b,
{
}

/// An admonition without a title of its own is titled by its kind, with a capital letter; a plain one is a note.
#[verifier::spinoff_prover]
#[verifier::rlimit(60)]
pub proof fn law_default_titles_say_the_kind(kind: Seq<char>)
    requires
        kind == "attention"@ || kind == "caution"@ || kind == "danger"@ || kind == "error"@ || kind == "hint"@ || kind
            == "important"@ || kind == "tip"@ || kind == "warning"@ || kind == "note"@,
    ensures
        text::uppercased(myst::default_title(kind)) == text::uppercased(kind),
        myst::semantic_kind(kind) == kind,
        myst::semantic_kind("admonition"@) == "note"@,
{
    reveal_strlit("attention");
    reveal_strlit("caution");
    reveal_strlit("danger");
    reveal_strlit("error");
    reveal_strlit("hint");
    reveal_strlit("important");
    reveal_strlit("tip");
    reveal_strlit("warning");
    reveal_strlit("note");
    reveal_strlit("seealso");
    reveal_strlit("admonition");
    reveal_strlit("Attention");
    reveal_strlit("Caution");
    reveal_strlit("Danger");
    reveal_strlit("Error");
    reveal_strlit("Hint");
    reveal_strlit("Important");
    reveal_strlit("Tip");
    reveal_strlit("Warning");
    reveal_strlit("Note");
    assert("attention"@.len() == 9 && "important"@.len() == 9 && "attention"@[0] == 'a' && "important"@[0] == 'i');
    assert("caution"@.len() == 7 && "warning"@.len() == 7 && "seealso"@.len() == 7);
    assert("caution"@[0] == 'c' && "warning"@[0] == 'w' && "seealso"@[0] == 's');
    assert("hint"@.len() == 4 && "note"@.len() == 4 && "hint"@[0] == 'h' && "note"@[0] == 'n');
    assert("danger"@.len() == 6 && "error"@.len() == 5 && "tip"@.len() == 3 && "admonition"@.len() == 10);
    assert(text::uppercased("Attention"@) =~= text::uppercased("attention"@));
    assert(text::uppercased("Caution"@) =~= text::uppercased("caution"@));
    assert(text::uppercased("Danger"@) =~= text::uppercased("danger"@));
    assert(text::uppercased("Error"@) =~= text::uppercased("error"@));
    assert(text::uppercased("Hint"@) =~= text::uppercased("hint"@));
    assert(text::uppercased("Important"@) =~= text::uppercased("important"@));
    assert(text::uppercased("Tip"@) =~= text::uppercased("tip"@));
    assert(text::uppercased("Warning"@) =~= text::uppercased("warning"@));
    assert(text::uppercased("Note"@) =~= text::uppercased("note"@));
}

/// A named value is found under its name after it was set, and no other name changes its value.
pub proof fn law_set_members_are_found(object: Seq<(Seq<char>, Json)>, name: Seq<char>, value: Json, other: Seq<char>)
    ensures
        json::member(json::with_member(object, name, value), name) == Some(value),
        other != name ==> json::member(json::with_member(object, name, value), other) == json::member(object, other),
    decreases object.len(),
{
    let after = json::with_member(object, name, value);
    if object.len() == 0 {
        assert(after.skip(1) =~= Seq::empty());
        reveal_with_fuel(json::member, 2);
    } else if object[0].0 == name {
        assert(after.skip(1) =~= object.skip(1));
        assert(after[0] == (name, value));
    } else {
        law_set_members_are_found(object.skip(1), name, value, other);
        assert(after.skip(1) =~= json::with_member(object.skip(1), name, value));
        assert(after[0] == object[0]);
    }
}

/// A list of scalars is the same as itself, and as no list of another length or with another integer or text at some
/// place.
pub proof fn law_lists_of_scalars_are_compared_by_their_items(items: Seq<Json>, other: Seq<Json>, k: int)
    requires
        forall|i: int| 0 <= i < items.len() ==> !((#[trigger] items[i]) is Array) && !(items[i] is Object),
    ensures
        json::same_items(items, items),
        items.len() != other.len() ==> !json::same_items(items, other),
        0 <= k < items.len() && k < other.len() && !json::same_value(items[k], other[k]) ==> !json::same_items(
            items,
            other,
        ),
    decreases items.len(),
{
    if items.len() > 0 {
        let init = items.drop_last();
        let last = items[items.len() - 1];
        assert(!(last is Array) && !(last is Object));
        assert(json::same_value(last, last));
        assert forall|i: int| 0 <= i < init.len() implies !((#[trigger] init[i]) is Array) && !(init[i] is Object) by {
            assert(!(items[i] is Array));
        }
        if other.len() == items.len() {
            law_lists_of_scalars_are_compared_by_their_items(init, other.drop_last(), k);
        } else {
            law_lists_of_scalars_are_compared_by_their_items(init, init, k);
        }
    }
}

/// Spans keep their formatting when they move, and their ends move with the text.
pub proof fn law_moved_spans_keep_their_formatting(
    spans: Seq<RtfFormattingSpan>,
    mapping: Seq<(usize, usize)>,
    i: int,
)
    requires
        0 <= i < spans.len(),
        tracker::mapped_offset(mapping, spans[i].start) < tracker::mapped_offset(mapping, spans[i].end),
    ensures
        tracker::remapped(spans, mapping).contains(
            RtfFormattingSpan {
                start: tracker::mapped_offset(mapping, spans[i].start),
                end: tracker::mapped_offset(mapping, spans[i].end),
                bold: spans[i].bold,
                italic: spans[i].italic,
                underline: spans[i].underline,
                strikethrough: spans[i].strikethrough,
                color_index: spans[i].color_index,
            },
        ),
    decreases spans.len(),
{
    let init = spans.drop_last();
    let before = tracker::remapped(init, mapping);
    let after = tracker::remapped(spans, mapping);
    let wanted = RtfFormattingSpan {
        start: tracker::mapped_offset(mapping, spans[i].start),
        end: tracker::mapped_offset(mapping, spans[i].end),
        ..spans[i]
    };
    if i < init.len() {
        law_moved_spans_keep_their_formatting(init, mapping, i);
        let k = choose|k: int| 0 <= k < before.len() && before[k] == wanted;
        assert(after[k] == wanted);
    } else {
        assert(after[after.len() - 1] == wanted);
    }
}

/// An offset moves to where the last mapped position that is not past it went.
pub proof fn law_offsets_move_with_the_text(mapping: Seq<(usize, usize)>, i: int, offset: usize)
    requires
        0 <= i < mapping.len(),
        mapping[i].0 <= offset,
        forall|k: int| i < k < mapping.len() ==> (#[trigger] mapping[k]).0 > offset,
    ensures
        tracker::mapped_offset(mapping, offset) == mapping[i].1,
    decreases mapping.len(),
{
    if i < mapping.len() - 1 {
        assert(mapping[mapping.len() - 1].0 > offset);
        law_offsets_move_with_the_text(mapping.drop_last(), i, offset);
    }
}

} // verus!
