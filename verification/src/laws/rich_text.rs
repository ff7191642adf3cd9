//! Laws of the tables, the links and the annotations of rich text.
use crate::laws::text::{law_decimal_is_read_back, law_trimmed_text_stays};
use crate::rtf::formatting;
use crate::rtf::formatting::{Mark, Pass};
use crate::rtf::tables;
use crate::rtf::tracker::RtfFormattingSpan;
use crate::rtf::words;
use crate::text;
use vstd::prelude::*;

verus! {

/// A byte written in two hexadecimal digits is read back.
pub proof fn law_hexadecimal_digits_are_read_back(n: u8)
    ensures
        tables::hex_pair(n).len() == 2,
        words::hex_byte(words::low_byte(tables::hex_pair(n)[0]), words::low_byte(tables::hex_pair(n)[1])) == Some(n),
{
    let high = (n / 16) as int;
    let low = (n % 16) as int;
    lemma_hex_digit(high);
    lemma_hex_digit(low);
    assert(high * 16 + low == n);
}

proof fn lemma_hex_digit(n: int)
    requires
        0 <= n < 16,
    ensures
        words::hex_value(words::low_byte(tables::hex_digit_char(n))) == Some(n as u8),
{
    let c = tables::hex_digit_char(n);
    if n < 10 {
        assert(c as u32 == 48 + n);
    } else {
        assert(c as u32 == 87 + n);
    }
}

/// Bytes as hex escapes.
pub open spec fn escapes(bytes: Seq<u8>) -> Seq<char>
    decreases bytes.len(),
{
    if bytes.len() == 0 {
        Seq::empty()
    } else {
        seq!['\\', '\''] + tables::hex_pair(bytes[0]) + escapes(bytes.skip(1))
    }
}

/// Hex escapes that follow one another are read back as the bytes that they stand for.
#[verifier::spinoff_prover]
#[verifier::rlimit(60)]
pub proof fn law_escapes_are_read_back(before: Seq<char>, bytes: Seq<u8>, after: Seq<char>)
    requires
        after.len() > 0 ==> after[0] != '\\' && after[0] != '\r' && after[0] != '\n',
    ensures
        words::hex_run(before + escapes(bytes) + after, before.len() as int) == (
            bytes,
            before.len() + escapes(bytes).len() as int,
        ),
    decreases bytes.len(),
{
    let s = before + escapes(bytes) + after;
    let p = before.len() as int;
    if bytes.len() == 0 {
        assert(after.len() > 0 ==> s[p] == after[0]);
        assert(words::breaks_end(s, p) == p);
        assert(words::hex_run(s, p).0 =~= bytes);
    } else {
        let pair = tables::hex_pair(bytes[0]);
        law_hexadecimal_digits_are_read_back(bytes[0]);
        let rest = bytes.skip(1);
        let lead = before + seq!['\\', '\''] + pair;
        assert(s =~= lead + escapes(rest) + after);
        law_escapes_are_read_back(lead, rest, after);
        assert(s[p] == '\\' && s[p + 1] == '\'' && s[p + 2] == pair[0] && s[p + 3] == pair[1]);
        assert(words::breaks_end(s, p) == p);
        assert(words::adjacent_escape(s, p) == Some((bytes[0], p + 4)));
        assert(seq![bytes[0]] + rest =~= bytes);
    }
}

proof fn lemma_color_words()
    ensures
        "red"@ == seq!['r', 'e', 'd'],
        "green"@ == seq!['g', 'r', 'e', 'e', 'n'],
        "blue"@ == seq!['b', 'l', 'u', 'e'],
        "{\\colortbl"@ == seq!['{', '\\', 'c', 'o', 'l', 'o', 'r', 't', 'b', 'l'],
{
    reveal_strlit("red");
    reveal_strlit("green");
    reveal_strlit("blue");
    reveal_strlit("{\\colortbl");
    assert("red"@ =~= seq!['r', 'e', 'd']);
    assert("green"@ =~= seq!['g', 'r', 'e', 'e', 'n']);
    assert("blue"@ =~= seq!['b', 'l', 'u', 'e']);
    assert("{\\colortbl"@ =~= seq!['{', '\\', 'c', 'o', 'l', 'o', 'r', 't', 'b', 'l']);
}

/// A word with a number, as part of an entry.
proof fn lemma_part(word: Seq<char>, n: u8)
    requires
        word.len() > 0,
        forall|k: int| 0 <= k < word.len() ==> text::is_letter(#[trigger] word[k]),
    ensures
        ({
            let part = word + text::decimal(n as nat);
            &&& text::trimmed(part) == part
            &&& part[0] == word[0]
            &&& part.len() > word.len()
            &&& text::occurs_at(part, word, 0)
            &&& tables::channel(part.skip(word.len() as int)) == n
            &&& !part.contains('\\')
        }),
{
    let number = text::decimal(n as nat);
    let part = word + number;
    law_decimal_is_read_back(n as nat);
    assert(text::is_letter(word[0]));
    assert(text::is_digit(number[number.len() - 1]));
    assert(part.last() == number.last());
    law_trimmed_text_stays(part);
    assert(part.subrange(0, word.len() as int) =~= word);
    assert(part.skip(word.len() as int) =~= number);
    assert(text::is_digit(number[0]));
    assert forall|k: int| 0 <= k < part.len() implies part[k] != '\\' by {
        if k < word.len() {
            assert(text::is_letter(word[k]));
        } else {
            assert(text::is_digit(number[k - word.len()]));
        }
    }
}

/// An entry of a colour table as it is written.
pub open spec fn written_color(r: u8, g: u8, b: u8) -> Seq<char> {
    text::join(
        seq![
            Seq::empty(),
            "red"@ + text::decimal(r as nat),
            "green"@ + text::decimal(g as nat),
            "blue"@ + text::decimal(b as nat),
        ],
        seq!['\\'],
    )
}

/// The red, green and blue of an entry of a colour table are read as they are written.
#[verifier::spinoff_prover]
#[verifier::rlimit(60)]
pub proof fn law_colors_are_read_as_written(r: u8, g: u8, b: u8)
    ensures
        tables::color_entry(written_color(r, g, b)) == seq!['#'] + tables::hex_pair(r) + tables::hex_pair(g)
            + tables::hex_pair(b),
        tables::color_entry(Seq::empty()).len() == 0,
{
    lemma_color_words();
    let red = "red"@ + text::decimal(r as nat);
    let green = "green"@ + text::decimal(g as nat);
    let blue = "blue"@ + text::decimal(b as nat);
    lemma_part("red"@, r);
    lemma_part("green"@, g);
    lemma_part("blue"@, b);
    let none = Seq::<char>::empty();
    let parts = seq![none, red, green, blue];
    assert forall|k: int| 0 <= k < parts.len() implies !(#[trigger] parts[k]).contains('\\') by {
        assert(parts[0] == none && parts[1] == red && parts[2] == green && parts[3] == blue);
    }
    text::lemma_split_of_join(parts, '\\');
    let entry = written_color(r, g, b);
    lemma_entry_ends(red, green, blue);
    assert(text::is_digit(blue.last())) by {
        law_decimal_is_read_back(b as nat);
        let number = text::decimal(b as nat);
        assert(blue.last() == number[number.len() - 1]);
    }
    law_trimmed_text_stays(entry);
    let three = parts.drop_last();
    let two = three.drop_last();
    let one = two.drop_last();
    assert(three =~= seq![none, red, green]);
    assert(two =~= seq![none, red]);
    assert(one =~= seq![none]);
    assert(one.drop_last() =~= Seq::empty());
    law_trimmed_text_stays(none);
    assert(tables::channels(one.drop_last()) == (0u8, 0u8, 0u8));
    assert(tables::channels(one) == (0u8, 0u8, 0u8));
    assert(tables::channels(two) == (r, 0u8, 0u8));
    assert(green.subrange(0, 3)[0] == green[0]);
    assert(tables::channels(three) == (r, g, 0u8));
    assert(blue.subrange(0, 3)[0] == blue[0]);
    assert(blue.len() >= 5 ==> blue.subrange(0, 5)[0] == blue[0]);
    assert(tables::channels(parts) == (r, g, b));
}

proof fn lemma_entry_ends(red: Seq<char>, green: Seq<char>, blue: Seq<char>)
    requires
        blue.len() > 0,
    ensures
        ({
            let entry = text::join(seq![Seq::empty(), red, green, blue], seq!['\\']);
            entry.len() > 0 && entry[0] == '\\' && entry.last() == blue.last()
        }),
{
    let none = Seq::<char>::empty();
    let parts = seq![none, red, green, blue];
    let three = parts.drop_last();
    let two = three.drop_last();
    let one = two.drop_last();
    assert(three =~= seq![none, red, green]);
    assert(two =~= seq![none, red]);
    assert(one =~= seq![none]);
    let sep = seq!['\\'];
    assert(text::join(one, sep) == none);
    assert(text::join(two, sep) == none + sep + red);
    assert(text::join(three, sep) == none + sep + red + sep + green);
    assert(text::join(parts, sep) == none + sep + red + sep + green + sep + blue);
}

proof fn lemma_group_body(s: Seq<char>, p: int, end: int)
    requires
        0 <= p <= end < s.len(),
        s[end] == '}',
        forall|k: int| p <= k < end ==> s[k] != '{' && s[k] != '}',
    ensures
        tables::group_body(s, p, 1) == s.subrange(p, end),
    decreases end - p,
{
    if p < end {
        lemma_group_body(s, p + 1, end);
        assert(seq![s[p]] + s.subrange(p + 1, end) =~= s.subrange(p, end));
    } else {
        assert(s.subrange(p, end) =~= Seq::empty());
    }
}

/// The colour table of a document has one colour for each entry between its semicolons, in order.
#[verifier::spinoff_prover]
#[verifier::rlimit(60)]
pub proof fn law_color_table_has_every_entry(before: Seq<char>, entries: Seq<Seq<char>>, after: Seq<char>)
    requires
        entries.len() > 0,
        !before.contains('{'),
        forall|k: int| 0 <= k < entries.len() ==> !(#[trigger] entries[k]).contains(';') && !entries[k].contains('{')
            && !entries[k].contains('}'),
    ensures
        tables::color_table(before + "{\\colortbl"@ + text::join(entries, seq![';']) + seq!['}'] + after)
            == entries.map_values(|entry: Seq<char>| tables::color_entry(entry)),
{
    let body = text::join(entries, seq![';']);
    let s = before + "{\\colortbl"@ + body + seq!['}'] + after;
    lemma_color_words();
    assert("{\\colortbl"@.len() == 10);
    let start = before.len() as int;
    let end = start + 10 + body.len();
    assert forall|k: int| 0 <= k < start implies !text::occurs_at(s, "{\\colortbl"@, k) by {
        if text::occurs_at(s, "{\\colortbl"@, k) {
            assert(s.subrange(k, k + 10)[0] == s[k]);
            assert(s[k] == before[k]);
            assert(before.contains(before[k]));
        }
    }
    assert(s.subrange(start, start + 10) =~= "{\\colortbl"@);
    lemma_first_occurrence(s, "{\\colortbl"@, 0, start);
    assert forall|k: int| 0 <= k < entries.len() implies !(#[trigger] entries[k]).contains('{') by {}
    assert forall|k: int| 0 <= k < entries.len() implies !(#[trigger] entries[k]).contains('}') by {}
    assert forall|k: int| 0 <= k < entries.len() implies !(#[trigger] entries[k]).contains(';') by {}
    lemma_joined_without(entries, '{');
    lemma_joined_without(entries, '}');
    assert(s[start] == '{');
    assert(s[end] == '}');
    assert forall|k: int| start + 1 <= k < end implies s[k] != '{' && s[k] != '}' by {
        if k >= start + 10 {
            assert(s[k] == body[k - start - 10]);
            assert(body.contains(body[k - start - 10]));
        } else {
            assert(s[k] == "{\\colortbl"@[k - start]);
        }
    }
    lemma_group_body(s, start + 1, end);
    let group = tables::group_body(s, start, 0);
    assert(group == seq!['{'] + s.subrange(start + 1, end));
    assert(group =~= "{\\colortbl"@ + body);
    assert(group.subrange(0, 10) =~= "{\\colortbl"@);
    assert(group.skip(10) =~= body);
    text::lemma_split_of_join(entries, ';');
}

proof fn lemma_first_occurrence(s: Seq<char>, pattern: Seq<char>, from: int, p: int)
    requires
        0 <= from <= p,
        text::occurs_at(s, pattern, p),
        forall|k: int| from <= k < p ==> !text::occurs_at(s, pattern, k),
    ensures
        text::first_occurrence(s, pattern, from) == Some(p),
    decreases p - from,
{
    if from < p {
        lemma_first_occurrence(s, pattern, from + 1, p);
    }
}

proof fn lemma_joined_without(parts: Seq<Seq<char>>, c: char)
    requires
        c != ';',
        forall|k: int| 0 <= k < parts.len() ==> !(#[trigger] parts[k]).contains(c),
    ensures
        !text::join(parts, seq![';']).contains(c),
    decreases parts.len(),
{
    if parts.len() == 1 {
        assert(!parts[0].contains(c));
    } else if parts.len() > 1 {
        let init = parts.drop_last();
        assert forall|k: int| 0 <= k < init.len() implies !(#[trigger] init[k]).contains(c) by {
            assert(!parts[k].contains(c));
        }
        lemma_joined_without(init, c);
        assert(!parts[parts.len() - 1].contains(c));
        let head = text::join(init, seq![';']);
        let all = text::join(parts, seq![';']);
        if all.contains(c) {
            let k = choose|k: int| 0 <= k < all.len() && all[k] == c;
            if k < head.len() {
                assert(head[k] == c);
            } else if k > head.len() {
                assert(parts.last()[k - head.len() - 1] == c);
            }
        }
    }
}

/// A field that is a hyperlink links to what stands between its quotation marks.
#[verifier::spinoff_prover]
#[verifier::rlimit(60)]
pub proof fn law_hyperlinks_link_to_their_target(url: Seq<char>)
    requires
        url.len() > 0,
        text::trimmed(url) == url,
        url[0] != '"',
        url.last() != '"',
        url[0] != '\\',
    ensures
        formatting::hyperlink_target("HYPERLINK "@ + seq!['"'] + url + seq!['"']) == Some(url),
{
    let s = "HYPERLINK "@ + seq!['"'] + url + seq!['"'];
    reveal_strlit("HYPERLINK ");
    reveal_strlit("HYPERLINK");
    reveal_strlit("\\l ");
    reveal_strlit("\\l\"");
    assert("HYPERLINK "@.len() == 10 && "HYPERLINK"@.len() == 9);
    assert(s[0] == 'H' && s.last() == '"');
    law_trimmed_text_stays(s);
    assert(s.subrange(0, 9) =~= "HYPERLINK"@);
    let rest = s.skip(9);
    let quoted = seq!['"'] + url + seq!['"'];
    assert(rest =~= seq![' '] + quoted);
    assert(rest.drop_first() =~= quoted);
    assert(text::trimmed_start(rest) == text::trimmed_start(quoted));
    assert(quoted[0] == '"' && quoted.last() == '"');
    law_trimmed_text_stays(quoted);
    assert(text::trimmed(rest) == quoted);
    let opened = url + seq!['"'];
    assert(quoted.drop_first() =~= opened);
    assert(opened[0] == url[0]);
    assert(text::stripped_start(quoted, '"') == opened) by {
        reveal_with_fuel(text::stripped_start, 2);
    }
    assert(opened.drop_last() =~= url);
    assert(text::stripped_end(opened, '"') == url) by {
        reveal_with_fuel(text::stripped_end, 2);
    }
    assert(formatting::unquoted(quoted) == url);
    assert("\\l "@[0] == '\\' && "\\l\""@[0] == '\\');
    if url.len() >= 3 {
        assert(url.subrange(0, 3)[0] == url[0]);
    }
}

/// A field that is no hyperlink links to nothing.
pub proof fn law_other_fields_link_to_nothing(instruction: Seq<char>)
    requires
        text::trimmed(instruction).len() == 0 || text::trimmed(instruction)[0] != 'H',
    ensures
        formatting::hyperlink_target(instruction) is None,
{
    reveal_strlit("HYPERLINK");
    let t = text::trimmed(instruction);
    if text::occurs_at(t, "HYPERLINK"@, 0) {
        assert(t.subrange(0, 9)[0] == "HYPERLINK"@[0]);
    }
}

/// The text of a field's result is linked: from where the result starts to where it ends, to the target of the field's
/// instruction.
pub proof fn law_result_of_a_field_is_linked(state: Pass, opened: int, start: usize, url: Seq<char>)
    requires
        state.result_at == Some((opened, start)),
        state.pending_url == Some(url),
        state.instruction_depth is None,
        state.depth <= opened,
    ensures
        state.closed().links == state.links.push((start, state.offset, url)),
        state.closed().result_at is None,
        state.closed().pending_url is None,
{
}

/// The target of a field is that of its instruction, once the instruction ends.
pub proof fn law_instruction_gives_the_target(state: Pass, opened: int)
    requires
        state.instruction_depth == Some(opened),
        state.depth <= opened,
        state.result_at is None,
        formatting::hyperlink_target(state.instruction) is Some,
    ensures
        state.closed().pending_url == formatting::hyperlink_target(state.instruction),
        state.closed().instruction_depth is None,
        state.closed().instruction.len() == 0,
        state.closed().links == state.links,
{
}

/// Text in a header or a footer is added to it, and other text is not; all of it is part of the document.
pub proof fn law_headers_and_footers_gather_their_text(state: Pass, c: char)
    requires
        state.skip_depth <= 0,
        state.instruction_depth is None,
        state.offset + 5 <= usize::MAX,
    ensures
        ({
            let after = state.literal(c);
            let space: int = if state.pending_space && state.offset > 0 {
                1
            } else {
                0
            };
            &&& state.header_depth is Some ==> after.header == state.header.push(c)
            &&& state.header_depth is None ==> after.header == state.header
            &&& state.footer_depth is Some ==> after.footer == state.footer.push(c)
            &&& state.footer_depth is None ==> after.footer == state.footer
            &&& after.offset == state.offset + space + vstd::utf8::encode_utf8(seq![c]).len()
            &&& after.track == state.track
        }),
{
    text::lemma_byte_len_push(Seq::empty(), c);
    assert(Seq::<char>::empty().push(c) =~= seq![c]);
    assert(vstd::utf8::encode_utf8(Seq::empty()).len() == 0);
}

/// The marks of a span for which its attributes ask.
pub open spec fn asks_for(span: RtfFormattingSpan, mark: Mark) -> bool {
    match mark {
        Mark::Bold => span.bold,
        Mark::Italic => span.italic,
        Mark::Underline => span.underline,
        Mark::Strikethrough => span.strikethrough,
        _ => false,
    }
}

/// A paragraph that a formatted span lies in has an annotation for each attribute of the span, over the bytes of the
/// span, counted from the start of the paragraph.
pub proof fn law_formatted_spans_are_annotated(
    spans: Seq<RtfFormattingSpan>,
    colors: Seq<Seq<char>>,
    para_start: usize,
    para_end: usize,
    i: int,
    mark: Mark,
)
    requires
        0 <= i < spans.len(),
        para_start <= spans[i].start < spans[i].end <= para_end,
        para_end - para_start <= u32::MAX,
        asks_for(spans[i], mark),
    ensures
        formatting::span_annotations(spans, colors, para_start, para_end).contains(
            ((spans[i].start - para_start) as u32, (spans[i].end - para_start) as u32, mark),
        ),
    decreases spans.len(),
{
    let wanted = ((spans[i].start - para_start) as u32, (spans[i].end - para_start) as u32, mark);
    let init = spans.drop_last();
    let before = formatting::span_annotations(init, colors, para_start, para_end);
    let span = spans.last();
    let own = formatting::placed(
        formatting::paragraph_range(span.start, span.end, para_start, para_end),
        formatting::span_marks(span, colors),
    );
    let all = formatting::span_annotations(spans, colors, para_start, para_end);
    assert(all == before + own);
    if i < init.len() {
        law_formatted_spans_are_annotated(init, colors, para_start, para_end, i, mark);
        let k = choose|k: int| 0 <= k < before.len() && before[k] == wanted;
        assert(all[k] == wanted);
    } else {
        lemma_mark_is_placed(span, colors, para_start, para_end, mark);
        let k = choose|k: int| 0 <= k < own.len() && own[k] == wanted;
        assert(all[before.len() + k] == wanted);
    }
}

proof fn lemma_mark_is_placed(
    span: RtfFormattingSpan,
    colors: Seq<Seq<char>>,
    para_start: usize,
    para_end: usize,
    mark: Mark,
)
    requires
        para_start <= span.start < span.end <= para_end,
        para_end - para_start <= u32::MAX,
        asks_for(span, mark),
    ensures
        formatting::placed(
            formatting::paragraph_range(span.start, span.end, para_start, para_end),
            formatting::span_marks(span, colors),
        ).contains(((span.start - para_start) as u32, (span.end - para_start) as u32, mark)),
{
    let marks = formatting::span_marks(span, colors);
    let a = formatting::optional(span.bold, Mark::Bold);
    let b = formatting::optional(span.italic, Mark::Italic);
    let c = formatting::optional(span.underline, Mark::Underline);
    let k = match mark {
        Mark::Bold => 0int,
        Mark::Italic => a.len() as int,
        Mark::Underline => (a.len() + b.len()) as int,
        _ => (a.len() + b.len() + c.len()) as int,
    };
    assert(marks[k] == mark);
    let range = formatting::paragraph_range(span.start, span.end, para_start, para_end);
    let own = formatting::placed(range, marks);
    assert(own[k] == ((span.start - para_start) as u32, (span.end - para_start) as u32, mark));
}

/// A span with a colour of the table, which is neither black nor automatic, shows it, and no mark shows more than
/// its span has.
pub proof fn law_marks_show_what_the_span_has(span: RtfFormattingSpan, colors: Seq<Seq<char>>, k: int)
    requires
        0 <= k < formatting::span_marks(span, colors).len(),
    ensures
        formatting::span_marks(span, colors)[k] is Bold ==> span.bold,
        formatting::span_marks(span, colors)[k] is Italic ==> span.italic,
        formatting::span_marks(span, colors)[k] is Underline ==> span.underline,
        formatting::span_marks(span, colors)[k] is Strikethrough ==> span.strikethrough,
        formatting::span_marks(span, colors)[k] matches Mark::Color(color) ==> 0 < span.color_index < colors.len()
            && color == colors[span.color_index as int] && color.len() > 0 && color != "#000000"@,
        !(formatting::span_marks(span, colors)[k] is Link),
        0 < span.color_index < colors.len() && colors[span.color_index as int].len() > 0 && colors[span.color_index as int]
            != "#000000"@ ==> formatting::span_marks(span, colors).last() == Mark::Color(
            colors[span.color_index as int],
        ),
{
}

} // verus!
