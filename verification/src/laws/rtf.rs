//! Laws of rich text.
use crate::laws;
use crate::rtf::formatting;
use crate::rtf::formatting::Pass;
use crate::rtf::tracker;
use crate::rtf::tracker::{FmtState, RtfFormattingSpan, SpanTrack};
use crate::rtf::words;
use crate::text;
use vstd::prelude::*;

verus! {

/// A parameter as it is written behind a control word.
pub open spec fn written_param(param: Option<i32>) -> Seq<char> {
    match param {
        None => Seq::empty(),
        Some(n) => if n < 0 {
            seq!['-'] + text::decimal((-n) as nat)
        } else {
            text::decimal(n as nat)
        },
    }
}

proof fn lemma_letters_end(s: Seq<char>, p: int, q: int)
    requires
        0 <= p <= q <= s.len(),
        forall|k: int| p <= k < q ==> text::is_letter(#[trigger] s[k]),
        q < s.len() ==> !text::is_letter(s[q]),
    ensures
        words::letters_end(s, p) == q,
    decreases q - p,
{
    if p < q {
        lemma_letters_end(s, p + 1, q);
    }
}

proof fn lemma_digits_end(s: Seq<char>, p: int, q: int)
    requires
        0 <= p <= q <= s.len(),
        forall|k: int| p <= k < q ==> text::is_digit(#[trigger] s[k]),
        q < s.len() ==> !text::is_digit(s[q]),
    ensures
        text::digits_end(s, p) == q,
    decreases q - p,
{
    if p < q {
        lemma_digits_end(s, p + 1, q);
    }
}

/// A control word is read back with its parameter, and one space after it belongs to it. Something that would go on
/// with the word or the number must not follow.
#[verifier::spinoff_prover]
#[verifier::rlimit(60)]
pub proof fn law_control_words_are_read_back(
    before: Seq<char>,
    word: Seq<char>,
    param: Option<i32>,
    after: Seq<char>,
)
    requires
        forall|k: int| 0 <= k < word.len() ==> text::is_letter(#[trigger] word[k]),
        param != Some(i32::MIN),
        after.len() > 0 ==> !text::is_digit(after[0]),
        after.len() > 0 && param is None ==> !text::is_letter(after[0]) && after[0] != '-',
    ensures
        ({
            let found = words::control_word_at(before + word + written_param(param) + after, before.len() as int);
            &&& found.word == word
            &&& found.param == param
            &&& found.end == before.len() + word.len() + written_param(param).len() + if after.len() > 0 && after[0]
                == ' ' {
                1int
            } else {
                0
            }
        }),
{
    let number = written_param(param);
    let s = before + word + number + after;
    let p = before.len() as int;
    let letters = p + word.len();
    let digits = letters + number.len();
    assert forall|k: int| p <= k < letters implies text::is_letter(#[trigger] s[k]) by {
        assert(s[k] == word[k - p]);
    }
    assert(after.len() > 0 ==> s[digits] == after[0]);
    match param {
        None => {
            lemma_letters_end(s, p, letters);
            lemma_digits_end(s, letters, letters);
            assert(s.subrange(p, letters) =~= word);
        },
        Some(n) => {
            let magnitude = (if n < 0 {
                -n
            } else {
                n as int
            }) as nat;
            laws::text::law_decimal_is_read_back(magnitude);
            let first = if n < 0 {
                letters + 1
            } else {
                letters
            };
            assert(number.len() > 0 && s[letters] == number[0]);
            if n >= 0 {
                assert(text::is_digit(number[0]));
            }
            lemma_letters_end(s, p, letters);
            assert forall|k: int| first <= k < digits implies text::is_digit(#[trigger] s[k]) by {
                assert(s[k] == text::decimal(magnitude)[k - first]);
            }
            lemma_digits_end(s, first, digits);
            assert(s.subrange(p, letters) =~= word);
            assert(s.subrange(first, digits) =~= text::decimal(magnitude));
        },
    }
}

#[verifier::spinoff_prover]
#[verifier::rlimit(60)]
proof fn lemma_formats_are_no_destinations(word: Seq<char>)
    requires
        word == "b"@ || word == "i"@ || word == "ul"@ || word == "ulnone"@ || word == "strike"@ || word == "cf"@ || word
            == "plain"@,
    ensures
        word != "fldinst"@,
        word != "fldrslt"@,
        !formatting::is_skipped_destination(word),
{
    reveal_strlit("b");
    reveal_strlit("i");
    reveal_strlit("ul");
    reveal_strlit("ulnone");
    reveal_strlit("strike");
    reveal_strlit("cf");
    reveal_strlit("plain");
    reveal_strlit("fldinst");
    reveal_strlit("fldrslt");
    reveal_strlit("fonttbl");
    reveal_strlit("stylesheet");
    reveal_strlit("info");
    reveal_strlit("listtable");
    reveal_strlit("listoverridetable");
    reveal_strlit("generator");
    reveal_strlit("filetbl");
    reveal_strlit("revtbl");
    reveal_strlit("rsidtbl");
    reveal_strlit("xmlnstbl");
    reveal_strlit("mmathPr");
    reveal_strlit("themedata");
    reveal_strlit("colorschememapping");
    reveal_strlit("datastore");
    reveal_strlit("latentstyles");
    reveal_strlit("datafield");
    reveal_strlit("objdata");
    reveal_strlit("objclass");
    reveal_strlit("panose");
    reveal_strlit("bkmkstart");
    reveal_strlit("bkmkend");
    reveal_strlit("wgrffmtfilter");
    reveal_strlit("fcharset");
    reveal_strlit("pgdsctbl");
    reveal_strlit("colortbl");
    reveal_strlit("pict");
    assert("b"@.len() == 1);
    assert("i"@.len() == 1);
    assert("ul"@.len() == 2);
    assert("ulnone"@.len() == 6);
    assert("strike"@.len() == 6);
    assert("cf"@.len() == 2);
    assert("plain"@.len() == 5);
    assert("fldinst"@.len() == 7);
    assert("fldrslt"@.len() == 7);
    assert("fonttbl"@.len() == 7);
    assert("stylesheet"@.len() == 10);
    assert("info"@.len() == 4);
    assert("listtable"@.len() == 9);
    assert("listoverridetable"@.len() == 17);
    assert("generator"@.len() == 9);
    assert("filetbl"@.len() == 7);
    assert("revtbl"@.len() == 6);
    assert("rsidtbl"@.len() == 7);
    assert("xmlnstbl"@.len() == 8);
    assert("mmathPr"@.len() == 7);
    assert("themedata"@.len() == 9);
    assert("colorschememapping"@.len() == 18);
    assert("datastore"@.len() == 9);
    assert("latentstyles"@.len() == 12);
    assert("datafield"@.len() == 9);
    assert("objdata"@.len() == 7);
    assert("objclass"@.len() == 8);
    assert("panose"@.len() == 6);
    assert("bkmkstart"@.len() == 9);
    assert("bkmkend"@.len() == 7);
    assert("wgrffmtfilter"@.len() == 13);
    assert("fcharset"@.len() == 8);
    assert("pgdsctbl"@.len() == 8);
    assert("colortbl"@.len() == 8);
    assert("pict"@.len() == 4);
    assert("revtbl"@[0] == 'r' && "panose"@[0] == 'p' && "strike"@[0] == 's' && "ulnone"@[0] == 'u');
}

#[verifier::spinoff_prover]
#[verifier::rlimit(60)]
proof fn lemma_formats_differ()
    ensures
        "b"@ != "i"@,
        "b"@.len() == 1,
        "i"@.len() == 1,
        "ul"@.len() == 2,
        "cf"@.len() == 2,
        "ul"@ != "cf"@,
        "plain"@.len() == 5,
        "ulnone"@.len() == 6,
        "strike"@.len() == 6,
        "ulnone"@ != "strike"@,
{
    reveal_strlit("b");
    reveal_strlit("i");
    reveal_strlit("ul");
    reveal_strlit("ulnone");
    reveal_strlit("strike");
    reveal_strlit("cf");
    reveal_strlit("plain");
    assert("b"@[0] != "i"@[0]);
    assert("ul"@[0] != "cf"@[0]);
    assert("ulnone"@[0] != "strike"@[0]);
}

/// Outside skipped groups a toggle turns its attribute off if its parameter is zero, and on if it has another one or
/// none; the other attributes stay as they were. Underlining has a word of its own that turns it off, a colour is
/// selected by its number, one word drops all formatting, and every other word leaves it alone.
#[verifier::spinoff_prover]
#[verifier::rlimit(60)]
pub proof fn law_toggles_switch_one_attribute(state: Pass, word: Seq<char>, param: Option<i32>)
    requires
        state.skip_depth <= 0,
        !state.ignorable,
    ensures
        ({
            let before = state.track.fmt;
            let after = state.controlled(word, param).track.fmt;
            &&& word == "b"@ ==> after.bold == (param != Some(0i32))
            &&& word == "i"@ ==> after.italic == (param != Some(0i32))
            &&& word == "ul"@ ==> after.underline == (param != Some(0i32))
            &&& word == "ulnone"@ ==> !after.underline
            &&& word == "strike"@ ==> after.strikethrough == (param != Some(0i32))
            &&& word == "cf"@ ==> (param is Some && 0 <= param->0 < 65536 ==> after.color_idx == param->0)
            &&& word == "cf"@ && param is None ==> after.color_idx == 0
            &&& word == "plain"@ ==> !after.bold && !after.italic && !after.underline && !after.strikethrough
                && after.color_idx == 0
            &&& word != "b"@ && word != "plain"@ ==> after.bold == before.bold
            &&& word != "i"@ && word != "plain"@ ==> after.italic == before.italic
            &&& word != "ul"@ && word != "ulnone"@ && word != "plain"@ ==> after.underline == before.underline
            &&& word != "strike"@ && word != "plain"@ ==> after.strikethrough == before.strikethrough
            &&& word != "cf"@ && word != "plain"@ ==> after.color_idx == before.color_idx
        }),
{
    lemma_formats_differ();
    if word == "b"@ || word == "i"@ || word == "ul"@ || word == "ulnone"@ || word == "strike"@ || word == "cf"@ || word
        == "plain"@ {
        lemma_formats_are_no_destinations(word);
    }
}

/// Within skipped groups no control word changes the formatting or produces text.
pub proof fn law_skipped_words_format_nothing(state: Pass, word: Seq<char>, param: Option<i32>)
    requires
        state.skip_depth > 0,
    ensures
        state.controlled(word, param).track == state.track,
        state.controlled(word, param).offset == state.offset,
        state.controlled(word, param).header == state.header,
        state.controlled(word, param).footer == state.footer,
{
}

/// Whether a span has the attributes of a formatting.
pub open spec fn looks(span: RtfFormattingSpan, fmt: FmtState) -> bool {
    &&& span.bold == fmt.bold
    &&& span.italic == fmt.italic
    &&& span.underline == fmt.underline
    &&& span.strikethrough == fmt.strikethrough
    &&& span.color_index == fmt.color_idx
}

/// Whether a byte lies in a span.
pub open spec fn lies_in(o: int, span: RtfFormattingSpan) -> bool {
    span.start <= o < span.end
}

/// Whether spans give a byte a formatting: it lies in a span of that formatting and in no other one, or, if the
/// formatting is none at all, it may lie in no span.
pub open spec fn formatted_as(spans: Seq<RtfFormattingSpan>, o: int, fmt: FmtState) -> bool {
    &&& forall|k: int| 0 <= k < spans.len() && lies_in(o, #[trigger] spans[k]) ==> looks(spans[k], fmt)
    &&& (exists|k: int| 0 <= k < spans.len() && lies_in(o, #[trigger] spans[k])) || (!fmt.bold && !fmt.italic
        && !fmt.underline && !fmt.strikethrough && fmt.color_idx == 0)
}

/// Whether a tracker gives a byte a formatting: in a closed span, or in the open one.
spec fn settled(track: SpanTrack, offset: int, o: int, fmt: FmtState) -> bool {
    &&& 0 <= o < offset
    &&& if o >= track.span_start {
        track.fmt == fmt
    } else {
        exists|k: int|
            0 <= k < track.spans.len() && lies_in(o, #[trigger] track.spans[k]) && looks(track.spans[k], fmt)
    }
    &&& forall|k: int| 0 <= k < track.spans.len() && lies_in(o, #[trigger] track.spans[k]) ==> looks(track.spans[k], fmt)
}

proof fn lemma_change_settles(track: SpanTrack, offset: usize, o: int, fmt: FmtState, next: FmtState)
    requires
        track.ordered(offset),
        settled(track, offset as int, o, fmt),
    ensures
        settled(track.changed(offset, next), offset as int, o, fmt),
{
    let after = track.changed(offset, next);
    if next != track.fmt {
        let spans = after.spans;
        if o >= track.span_start {
            assert(lies_in(o, spans[spans.len() - 1]));
        } else {
            let k = choose|k: int|
                0 <= k < track.spans.len() && lies_in(o, #[trigger] track.spans[k]) && looks(track.spans[k], fmt);
            assert(spans[k] == track.spans[k]);
        }
        assert forall|k: int| 0 <= k < spans.len() && lies_in(o, #[trigger] spans[k]) implies looks(spans[k], fmt) by {
            if k < track.spans.len() {
                assert(spans[k] == track.spans[k]);
            }
        }
    }
}

proof fn lemma_same_spans_settle(a: SpanTrack, b: SpanTrack, offset: int, grown: int, o: int, fmt: FmtState)
    requires
        settled(a, offset, o, fmt),
        offset <= grown,
        a.spans == b.spans,
        a.span_start == b.span_start,
        a.fmt == b.fmt,
    ensures
        settled(b, grown, o, fmt),
{
    if o < a.span_start {
        let k = choose|k: int|
            0 <= k < a.spans.len() && lies_in(o, #[trigger] a.spans[k]) && looks(a.spans[k], fmt);
        assert(lies_in(o, b.spans[k]));
    }
}

proof fn lemma_growth_settles(before: SpanTrack, after: SpanTrack, offset: usize, grown: usize, o: int, fmt: FmtState, next: FmtState)
    requires
        before.ordered(offset),
        settled(before, offset as int, o, fmt),
        offset <= grown,
        after == before || after == before.changed(grown, next) || after == before.pushed() || after == before.popped(
            grown,
        ),
    ensures
        settled(after, grown as int, o, fmt),
{
    assert(before.ordered(grown));
    lemma_same_spans_settle(before, before, offset as int, grown as int, o, fmt);
    lemma_same_spans_settle(before, before.pushed(), offset as int, grown as int, o, fmt);
    lemma_change_settles(before, grown, o, fmt, next);
    if before.stack.len() > 0 {
        let below = SpanTrack { stack: before.stack.drop_last(), ..before };
        lemma_same_spans_settle(before, below, offset as int, grown as int, o, fmt);
        lemma_change_settles(below, grown, o, fmt, before.stack.last());
    }
}

#[verifier::spinoff_prover]
#[verifier::rlimit(60)]
proof fn lemma_token_grows(s: Seq<char>, charsets: Map<u16, u32>, state: Pass, p: int)
    requires
        0 <= p < s.len(),
    ensures
        ({
            let after = formatting::token(s, charsets, state, p).0;
            &&& state.offset <= after.offset
            &&& after.track == state.track || after.track == state.track.changed(after.offset, after.track.fmt)
                || after.track == state.track.pushed() || after.track == state.track.popped(after.offset)
        }),
{
    let c = s[p];
    if c == '\\' && p + 1 < s.len() && s[p + 1] != '\\' && s[p + 1] != '{' && s[p + 1] != '}' && s[p + 1] != '\''
        && s[p + 1] != '*' {
        let w = words::control_word_at(s, p + 1);
        if !state.diverts(w.word) {
            formatting::lemma_act_grows(state.announced(w.word, w.param), w.word, w.param);
        }
    }
}

proof fn lemma_reading_settles(s: Seq<char>, charsets: Map<u16, u32>, state: Pass, p: int, o: int, fmt: FmtState)
    requires
        state.within_text(),
        settled(state.track, state.offset as int, o, fmt),
    ensures
        ({
            let end = formatting::passed(s, charsets, state, p);
            end.within_text() && settled(end.track, end.offset as int, o, fmt)
        }),
    decreases s.len() - p,
{
    if 0 <= p < s.len() {
        let next = formatting::token(s, charsets, state, p);
        formatting::lemma_token_within_text(s, charsets, state, p);
        lemma_token_grows(s, charsets, state, p);
        lemma_growth_settles(state.track, next.0.track, state.offset, next.0.offset, o, fmt, next.0.track.fmt);
        if p < next.1 <= s.len() {
            lemma_reading_settles(s, charsets, next.0, next.1, o, fmt);
        }
    }
}

/// Text keeps the formatting that was in force when it was produced: at the end of the document every byte from the
/// last change of formatting on lies in a span of that formatting, and in none of another.
#[verifier::spinoff_prover]
#[verifier::rlimit(60)]
pub proof fn law_text_keeps_its_formatting(s: Seq<char>, charsets: Map<u16, u32>, state: Pass, p: int, o: int)
    requires
        state.within_text(),
        state.track.span_start <= o < state.offset,
    ensures
        formatted_as(
            formatting::passed(s, charsets, state, p).track.finalized(formatting::passed(s, charsets, state, p).offset),
            o,
            state.track.fmt,
        ),
{
    let fmt = state.track.fmt;
    let end = formatting::passed(s, charsets, state, p);
    assert forall|k: int| 0 <= k < state.track.spans.len() && lies_in(o, #[trigger] state.track.spans[k]) implies looks(
        state.track.spans[k],
        fmt,
    ) by {
        assert(state.track.spans[k].end <= state.track.span_start);
    }
    lemma_reading_settles(s, charsets, state, p, o, fmt);
    let spans = end.track.finalized(end.offset);
    assert forall|k: int| 0 <= k < spans.len() && lies_in(o, #[trigger] spans[k]) implies looks(spans[k], fmt) by {
        if k < end.track.spans.len() {
            assert(spans[k] == end.track.spans[k]);
        }
    }
    if o >= end.track.span_start {
        if fmt != tracker::plain() {
            assert(lies_in(o, spans[spans.len() - 1]));
        }
    } else {
        let k = choose|k: int|
            0 <= k < end.track.spans.len() && lies_in(o, #[trigger] end.track.spans[k]) && looks(
                end.track.spans[k],
                fmt,
            );
        assert(spans[k] == end.track.spans[k]);
    }
}

/// Whether a character stands for itself.
pub open spec fn is_plain(c: char) -> bool {
    c != '{' && c != '}' && c != '\\' && c != '\n' && c != '\r'
}

/// The state after a run of characters that stand for themselves.
pub open spec fn typed(state: Pass, t: Seq<char>) -> Pass
    decreases t.len(),
{
    if t.len() == 0 {
        state
    } else {
        let before = typed(state, t.drop_last());
        if t.last() == ' ' || t.last() == '\t' {
            before.blank()
        } else {
            before.literal(t.last())
        }
    }
}

/// The bytes of a run of text that stands in the document.
proof fn lemma_typed(state: Pass, t: Seq<char>)
    requires
        state.within_text(),
        state.skip_depth <= 0,
        state.instruction_depth is None,
    ensures
        typed(state, t).track == state.track,
        typed(state, t).within_text(),
        state.offset <= typed(state, t).offset,
        typed(state, t).skip_depth == state.skip_depth,
        typed(state, t).instruction_depth is None,
        typed(state, t).ignorable == state.ignorable,
        typed(state, t).depth == state.depth,
    decreases t.len(),
{
    if t.len() > 0 {
        lemma_typed(state, t.drop_last());
        let before = typed(state, t.drop_last());
        let after = typed(state, t);
        assert(before.track.ordered(after.offset));
    }
}

proof fn lemma_typing_is_reading(s: Seq<char>, charsets: Map<u16, u32>, state: Pass, p: int, t: Seq<char>)
    requires
        0 <= p,
        p + t.len() <= s.len(),
        s.subrange(p, p + t.len()) == t,
        forall|k: int| 0 <= k < t.len() ==> is_plain(#[trigger] t[k]),
    ensures
        formatting::passed(s, charsets, state, p) == formatting::passed(s, charsets, typed(state, t), p + t.len()),
    decreases t.len(),
{
    if t.len() > 0 {
        let init = t.drop_last();
        assert(s.subrange(p, p + init.len()) =~= init);
        assert forall|k: int| 0 <= k < init.len() implies is_plain(#[trigger] init[k]) by {
            assert(is_plain(t[k]));
        }
        lemma_typing_is_reading(s, charsets, state, p, init);
        let at = p + init.len();
        assert(is_plain(t[t.len() - 1]));
        assert(s[at] == t.last()) by {
            assert(s.subrange(p, p + t.len())[t.len() - 1] == s[at]);
        }
    }
}

/// What is in force between two control words that switch an attribute on and off again: the text between them lies
/// in spans with the attribute, and the text after the second one, up to whatever comes then, lies in none with it.
/// The other attributes are those that were in force before.
#[verifier::spinoff_prover]
#[verifier::rlimit(60)]
pub proof fn law_text_between_toggles_has_the_attribute(
    before: Seq<char>,
    word: Seq<char>,
    inside: Seq<char>,
    outside: Seq<char>,
    rest: Seq<char>,
    charsets: Map<u16, u32>,
    state: Pass,
    o: int,
)
    requires
        word == "b"@ || word == "i"@ || word == "ul"@ || word == "strike"@,
        state.within_text(),
        state.skip_depth <= 0,
        state.instruction_depth is None,
        !state.ignorable,
        forall|k: int| 0 <= k < inside.len() ==> is_plain(#[trigger] inside[k]),
        forall|k: int| 0 <= k < outside.len() ==> is_plain(#[trigger] outside[k]),
    ensures
        ({
            let s = before + toggled(word, None) + inside + toggled(word, Some(0)) + outside + rest;
            let end = formatting::passed(s, charsets, state, before.len() as int);
            let spans = end.track.finalized(end.offset);
            let on = switched(state.track.fmt, word, true);
            let off = switched(state.track.fmt, word, false);
            let middle = typed(state.controlled(word, None), inside);
            let last = typed(middle.controlled(word, Some(0)), outside);
            &&& state.offset <= middle.offset <= last.offset <= end.offset
            &&& state.offset <= o < middle.offset ==> formatted_as(spans, o, on)
            &&& middle.offset <= o < last.offset ==> formatted_as(spans, o, off)
        }),
{
    let s = before + toggled(word, None) + inside + toggled(word, Some(0)) + outside + rest;
    let middle = typed(state.controlled(word, None), inside);
    let last = typed(middle.controlled(word, Some(0)), outside);
    let start = before + toggled(word, None) + inside;
    let tail = toggled(word, Some(0)) + outside + rest;
    assert(s =~= before + toggled(word, None) + inside + tail);
    assert(s =~= start + toggled(word, Some(0)) + outside + rest);
    lemma_toggle_and_text(before, word, None, inside, tail, charsets, state);
    lemma_toggle_and_text(start, word, Some(0), outside, rest, charsets, middle);
    let b = start.len() as int;
    let d = b + toggled(word, Some(0)).len() + outside.len();
    lemma_grows(s, charsets, last, d);
    assert(switched(switched(state.track.fmt, word, true), word, false) == switched(state.track.fmt, word, false)) by {
        lemma_formats_differ();
    }
    if state.offset <= o < middle.offset {
        law_text_keeps_its_formatting(s, charsets, middle, b, o);
    }
    if middle.offset <= o < last.offset {
        law_text_keeps_its_formatting(s, charsets, last, d, o);
    }
}

/// A toggle and the text after it.
#[verifier::spinoff_prover]
#[verifier::rlimit(60)]
proof fn lemma_toggle_and_text(
    before: Seq<char>,
    word: Seq<char>,
    param: Option<i32>,
    t: Seq<char>,
    rest: Seq<char>,
    charsets: Map<u16, u32>,
    state: Pass,
)
    requires
        word == "b"@ || word == "i"@ || word == "ul"@ || word == "strike"@,
        param is None || param == Some(0i32),
        state.within_text(),
        state.skip_depth <= 0,
        state.instruction_depth is None,
        !state.ignorable,
        forall|k: int| 0 <= k < t.len() ==> is_plain(#[trigger] t[k]),
    ensures
        ({
            let s = before + toggled(word, param) + t + rest;
            let last = typed(state.controlled(word, param), t);
            &&& formatting::passed(s, charsets, state, before.len() as int) == formatting::passed(
                s,
                charsets,
                last,
                (before.len() + toggled(word, param).len() + t.len()) as int,
            )
            &&& last.within_text()
            &&& state.offset <= last.offset
            &&& last.skip_depth <= 0
            &&& last.instruction_depth is None
            &&& !last.ignorable
            &&& last.track.fmt == switched(state.track.fmt, word, param is None)
            &&& last.track.span_start <= state.offset
        }),
{
    let s = before + toggled(word, param) + t + rest;
    let next = state.controlled(word, param);
    assert(s =~= before + toggled(word, param) + (t + rest));
    lemma_toggle_is_read(before, word, param, t + rest, charsets, state);
    lemma_typed(next, t);
    let a = (before.len() + toggled(word, param).len()) as int;
    assert(s.subrange(a, a + t.len()) =~= t);
    lemma_typing_is_reading(s, charsets, next, a, t);
}

/// A control word with its parameter and the space that ends it.
pub open spec fn toggled(word: Seq<char>, param: Option<i32>) -> Seq<char> {
    seq!['\\'] + word + written_param(param) + seq![' ']
}

/// A formatting with one attribute switched.
pub open spec fn switched(fmt: FmtState, word: Seq<char>, on: bool) -> FmtState {
    FmtState {
        bold: if word == "b"@ { on } else { fmt.bold },
        italic: if word == "i"@ { on } else { fmt.italic },
        underline: if word == "ul"@ { on } else { fmt.underline },
        strikethrough: if word == "strike"@ { on } else { fmt.strikethrough },
        color_idx: fmt.color_idx,
    }
}

proof fn lemma_grows(s: Seq<char>, charsets: Map<u16, u32>, state: Pass, p: int)
    ensures
        state.offset <= formatting::passed(s, charsets, state, p).offset,
    decreases s.len() - p,
{
    if 0 <= p < s.len() {
        let next = formatting::token(s, charsets, state, p);
        lemma_token_grows(s, charsets, state, p);
        if p < next.1 <= s.len() {
            lemma_grows(s, charsets, next.0, next.1);
        }
    }
}

proof fn lemma_toggle_words()
    ensures
        forall|k: int| 0 <= k < "b"@.len() ==> text::is_letter(#[trigger] "b"@[k]),
        forall|k: int| 0 <= k < "i"@.len() ==> text::is_letter(#[trigger] "i"@[k]),
        forall|k: int| 0 <= k < "ul"@.len() ==> text::is_letter(#[trigger] "ul"@[k]),
        forall|k: int| 0 <= k < "strike"@.len() ==> text::is_letter(#[trigger] "strike"@[k]),
        "b"@.len() == 1,
        "i"@.len() == 1,
        "ul"@.len() == 2,
        "strike"@.len() == 6,
        "u"@.len() == 1,
        "b"@ != "u"@,
        "i"@ != "u"@,
{
    reveal_strlit("b");
    reveal_strlit("i");
    reveal_strlit("ul");
    reveal_strlit("strike");
    reveal_strlit("u");
    assert("b"@[0] != "u"@[0]);
    assert("i"@[0] != "u"@[0]);
}

#[verifier::spinoff_prover]
#[verifier::rlimit(60)]
proof fn lemma_toggle_acts(word: Seq<char>, param: Option<i32>, state: Pass)
    requires
        word == "b"@ || word == "i"@ || word == "ul"@ || word == "strike"@,
        param is None || param == Some(0i32),
        state.skip_depth <= 0,
        state.instruction_depth is None,
        !state.ignorable,
    ensures
        ({
            let next = state.controlled(word, param);
            &&& next.offset == state.offset
            &&& next.skip_depth == state.skip_depth
            &&& next.instruction_depth is None
            &&& !next.ignorable
            &&& next.track.fmt == switched(state.track.fmt, word, param is None)
            &&& next.track == state.track.changed(state.offset, next.track.fmt)
        }),
{
    lemma_toggle_words();
    lemma_formats_differ();
    lemma_formats_are_no_destinations(word);
}

/// The token of a toggle.
#[verifier::spinoff_prover]
#[verifier::rlimit(60)]
proof fn lemma_toggle_token(s: Seq<char>, charsets: Map<u16, u32>, state: Pass, p: int)
    requires
        0 <= p,
        p + 1 < s.len(),
        s[p] == '\\',
        text::is_letter(s[p + 1]),
        words::control_word_at(s, p + 1).word != "u"@,
    ensures
        formatting::token(s, charsets, state, p) == (
            state.controlled(words::control_word_at(s, p + 1).word, words::control_word_at(s, p + 1).param),
            words::control_word_at(s, p + 1).end,
        ),
{
}

#[verifier::spinoff_prover]
#[verifier::rlimit(60)]
proof fn lemma_toggle_is_read(
    before: Seq<char>,
    word: Seq<char>,
    param: Option<i32>,
    after: Seq<char>,
    charsets: Map<u16, u32>,
    state: Pass,
)
    requires
        word == "b"@ || word == "i"@ || word == "ul"@ || word == "strike"@,
        param is None || param == Some(0i32),
        state.within_text(),
        state.skip_depth <= 0,
        state.instruction_depth is None,
        !state.ignorable,
    ensures
        ({
            let s = before + toggled(word, param) + after;
            let next = state.controlled(word, param);
            &&& formatting::passed(s, charsets, state, before.len() as int) == formatting::passed(
                s,
                charsets,
                next,
                (before.len() + toggled(word, param).len()) as int,
            )
            &&& next.within_text()
            &&& next.offset == state.offset
            &&& next.skip_depth == state.skip_depth
            &&& next.instruction_depth is None
            &&& !next.ignorable
            &&& next.track.fmt == switched(state.track.fmt, word, param is None)
            &&& next.track.span_start <= state.offset
        }),
{
    let s = before + toggled(word, param) + after;
    let p = before.len() as int;
    lemma_toggle_acts(word, param, state);
    lemma_toggle_word(before, word, param, after);
    formatting::lemma_token_within_text(s, charsets, state, p);
    lemma_toggle_token(s, charsets, state, p);
    lemma_one_token(s, charsets, state, p);
}

/// What a toggle is read as.
#[verifier::spinoff_prover]
#[verifier::rlimit(60)]
proof fn lemma_toggle_word(before: Seq<char>, word: Seq<char>, param: Option<i32>, after: Seq<char>)
    requires
        word == "b"@ || word == "i"@ || word == "ul"@ || word == "strike"@,
        param is None || param == Some(0i32),
    ensures
        ({
            let s = before + toggled(word, param) + after;
            let p = before.len() as int;
            let w = words::control_word_at(s, p + 1);
            &&& p + 1 < s.len()
            &&& s[p] == '\\'
            &&& text::is_letter(s[p + 1])
            &&& w.word == word
            &&& w.word != "u"@
            &&& w.param == param
            &&& w.end == p + toggled(word, param).len()
            &&& w.end <= s.len()
        }),
{
    let s = before + toggled(word, param) + after;
    let p = before.len() as int;
    lemma_toggle_words();
    let lead = before + seq!['\\'];
    let tail = seq![' '] + after;
    assert(s =~= lead + word + written_param(param) + tail);
    law_control_words_are_read_back(lead, word, param, tail);
    assert(s[p] == '\\');
    assert(s[p + 1] == word[0]);
    assert(text::is_letter(word[0]));
    assert(lead.len() == p + 1);
}

proof fn lemma_one_token(s: Seq<char>, charsets: Map<u16, u32>, state: Pass, p: int)
    requires
        0 <= p < formatting::token(s, charsets, state, p).1 <= s.len(),
        p < s.len(),
    ensures
        formatting::passed(s, charsets, state, p) == formatting::passed(
            s,
            charsets,
            formatting::token(s, charsets, state, p).0,
            formatting::token(s, charsets, state, p).1,
        ),
{
}

} // verus!
