//! The formatting pass: spans, colours, headers, footers and hyperlinks of a document.
//!
//! The pass reads the document once, from left to right. It counts the bytes of the text that the
//! document produces, so that spans and hyperlinks are byte ranges of that text.
use crate::document::{AnnotationKind, TextAnnotation};
use crate::rtf::tables;
use crate::rtf::tables::{clamp_u16, parse_font_charset_table, parse_rtf_color_table, resolve_decode_codepage};
use crate::rtf::tracker;
use crate::rtf::tracker::{FormattingTracker, RtfFormattingSpan};
use crate::rtf::words;
use crate::rtf::words::{
    char_low_byte, consume_hex_run, decode_ansi_bytes, parse_hex_byte, parse_rtf_control_word,
};
use crate::security;
use crate::text;
use crate::text::{
    char_width, chars_of, has_prefix, is_str, push_chars, str_byte_len, string_of, strip_matches, trim,
};
use std::collections::HashMap;
use vstd::prelude::*;
use vstd::slice::slice_subrange;

verus! {

/// `char::from_u32` gives the character of a Unicode scalar value, and nothing for any other
/// number.
pub assume_specification[ char::from_u32 ](i: u32) -> (r: Option<char>)
    ensures
        r == if i < 0xd800 || (0xe000 <= i <= 0x10_ffff) {
            Some(i as char)
        } else {
            None
        },
;

/// The state of the pass between two tokens.
#[verifier::ext_equal]
pub struct Pass {
    /// Formatting spans.
    pub track: tracker::SpanTrack,
    /// Bytes of text produced so far.
    pub offset: usize,
    /// Open groups; negative after unbalanced closes.
    pub depth: int,
    /// Depth of the group whose text is being skipped; zero when none is.
    pub skip_depth: int,
    /// Whether the next control word may name a destination.
    pub expect_destination: bool,
    /// Whether the next control word names a destination that may be ignored.
    pub ignorable: bool,
    /// Whether each open group produced text.
    pub has_text: Seq<bool>,
    /// Whether a space separates what was produced from what comes.
    pub pending_space: bool,
    /// Declared code page of each open group, under that of the document.
    pub codepages: Seq<u32>,
    /// Active font of each open group, under that of the document.
    pub fonts: Seq<Option<u16>>,
    /// Default font of the document.
    pub default_font: Option<u16>,
    /// Depth of the header being read, if one is.
    pub header_depth: Option<int>,
    /// Header text so far.
    pub header: Seq<char>,
    /// Depth of the footer being read, if one is.
    pub footer_depth: Option<int>,
    /// Footer text so far.
    pub footer: Seq<char>,
    /// Depth of the field instruction being read, if one is.
    pub instruction_depth: Option<int>,
    /// Its text so far.
    pub instruction: Seq<char>,
    /// Depth and starting offset of the field result being read, if one is.
    pub result_at: Option<(int, usize)>,
    /// Target of the field whose result is expected.
    pub pending_url: Option<Seq<char>>,
    /// Hyperlinks: first byte, byte after the last one, target.
    pub links: Seq<(usize, usize, Seq<char>)>,
}

/// The state before the first token.
pub open spec fn initial() -> Pass {
    Pass {
        track: tracker::untracked(),
        offset: 0,
        depth: 0,
        skip_depth: 0,
        expect_destination: false,
        ignorable: false,
        has_text: Seq::empty(),
        pending_space: false,
        codepages: seq![1252u32],
        fonts: seq![None::<u16>],
        default_font: None,
        header_depth: None,
        header: Seq::empty(),
        footer_depth: None,
        footer: Seq::empty(),
        instruction_depth: None,
        instruction: Seq::empty(),
        result_at: None,
        pending_url: None,
        links: Seq::empty(),
    }
}

/// Destinations whose text is not part of the document.
pub open spec fn is_skipped_destination(word: Seq<char>) -> bool {
    word == "fonttbl"@ || word == "stylesheet"@ || word == "info"@ || word == "listtable"@ || word
        == "listoverridetable"@ || word == "generator"@ || word == "filetbl"@ || word == "revtbl"@ || word
        == "rsidtbl"@ || word == "xmlnstbl"@ || word == "mmathPr"@ || word == "themedata"@ || word
        == "colorschememapping"@ || word == "datastore"@ || word == "latentstyles"@ || word == "datafield"@ || word
        == "objdata"@ || word == "objclass"@ || word == "panose"@ || word == "bkmkstart"@ || word == "bkmkend"@
        || word == "wgrffmtfilter"@ || word == "fcharset"@ || word == "pgdsctbl"@ || word == "colortbl"@ || word
        == "pict"@
}

/// Whether a control word starts a header.
pub open spec fn is_header(word: Seq<char>) -> bool {
    word == "header"@ || word == "headerl"@ || word == "headerr"@ || word == "headerf"@
}

/// Whether a control word starts a footer.
pub open spec fn is_footer(word: Seq<char>) -> bool {
    word == "footer"@ || word == "footerl"@ || word == "footerr"@ || word == "footerf"@
}

/// Whether a control word stands for one character of three bytes.
pub open spec fn is_wide_symbol(word: Seq<char>) -> bool {
    word == "bullet"@ || word == "lquote"@ || word == "rquote"@ || word == "ldblquote"@ || word == "rdblquote"@
        || word == "endash"@ || word == "emdash"@
}

/// The target of a field instruction, if it is a hyperlink with one. A bookmark becomes a fragment.
pub open spec fn hyperlink_target(instruction: Seq<char>) -> Option<Seq<char>> {
    let trimmed = text::trimmed(instruction);
    if !text::occurs_at(trimmed, "HYPERLINK"@, 0) {
        None
    } else {
        let url = text::trimmed(unquoted(text::trimmed(trimmed.skip(9))));
        let target = if text::occurs_at(url, "\\l "@, 0) {
            seq!['#'] + unquoted(text::trimmed(url.skip(3)))
        } else if text::occurs_at(url, "\\l\""@, 0) {
            seq!['#'] + unquoted(url.skip(3))
        } else {
            url
        };
        if target.len() == 0 {
            None
        } else {
            Some(target)
        }
    }
}

/// A text without the quotation marks around it.
pub open spec fn unquoted(s: Seq<char>) -> Seq<char> {
    text::stripped_end(text::stripped_start(s, '"'), '"')
}

/// Whether the group that was opened at a depth is closed when the given depth is left.
pub open spec fn closes(opened_at: Option<int>, depth: int) -> bool {
    opened_at is Some && depth < opened_at->0
}

/// The last flag raised.
pub open spec fn marked(flags: Seq<bool>) -> Seq<bool> {
    if flags.len() > 0 {
        flags.update(flags.len() - 1, true)
    } else {
        flags
    }
}

impl Pass {
    /// The offset with more bytes produced.
    pub open spec fn after(self, bytes: int) -> usize {
        security::saturated(self.offset + bytes)
    }

    /// The pending space produced, if one is due.
    pub open spec fn spaced(self) -> Pass {
        Pass {
            offset: if self.pending_space && self.offset > 0 {
                self.after(1)
            } else {
                self.offset
            },
            pending_space: false,
            ..self
        }
    }

    /// Characters added to the header and to the footer, whichever is being read.
    pub open spec fn noted(self, c: char) -> Pass {
        Pass {
            header: if self.header_depth is Some {
                self.header.push(c)
            } else {
                self.header
            },
            footer: if self.footer_depth is Some {
                self.footer.push(c)
            } else {
                self.footer
            },
            ..self
        }
    }

    /// Text added to the field instruction, if one is being read.
    pub open spec fn instructed(self, more: Seq<char>) -> Pass {
        Pass {
            instruction: if self.instruction_depth is Some {
                self.instruction + more
            } else {
                self.instruction
            },
            ..self
        }
    }

    /// One character of text produced.
    pub open spec fn produced(self, c: char) -> Pass {
        let s = self.spaced();
        Pass { offset: s.after(text::utf8_width(c) as int), has_text: marked(s.has_text), ..s }.noted(c)
    }

    /// An escaped brace or backslash.
    pub open spec fn escaped(self, c: char) -> Pass {
        let s = Pass { expect_destination: false, ..self }.instructed(seq![c]);
        if self.skip_depth > 0 {
            s
        } else {
            s.produced(c)
        }
    }

    /// An ordinary character.
    pub open spec fn literal(self, c: char) -> Pass {
        if self.instruction_depth is Some {
            self.instructed(seq![c])
        } else if self.skip_depth > 0 {
            self
        } else {
            self.produced(c)
        }
    }

    /// A space or a tab.
    pub open spec fn blank(self) -> Pass {
        let s = self.instructed(seq![' ']);
        if self.skip_depth > 0 || self.offset == 0 {
            s
        } else {
            Pass { offset: s.after(1), has_text: marked(s.has_text), ..s }
        }
    }

    /// A run of hex escapes; `None` where the first one is malformed.
    pub open spec fn hex(self, bytes: Option<Seq<u8>>, charsets: Map<u16, u32>) -> Pass {
        let s = Pass { expect_destination: false, ..self };
        if self.skip_depth > 0 || bytes is None {
            s
        } else {
            let codepage = tables::decode_codepage(s.fonts, s.default_font, charsets, s.codepages);
            let t = s.spaced();
            Pass {
                offset: t.after(text::byte_len(words::ansi_text(bytes->0, codepage)) as int),
                has_text: marked(t.has_text),
                ..t
            }
        }
    }

    /// A group opened.
    pub open spec fn opened(self) -> Pass {
        Pass {
            depth: self.depth + 1,
            expect_destination: true,
            track: self.track.pushed(),
            has_text: self.has_text.push(false),
            pending_space: false,
            codepages: self.codepages.push(
                if self.codepages.len() > 0 { self.codepages.last() } else { 1252 },
            ),
            fonts: self.fonts.push(if self.fonts.len() > 0 { self.fonts.last() } else { None }),
            ..self
        }
    }

    /// The field instruction closed, if the given depth ends it.
    pub open spec fn instruction_closed(self, depth: int) -> Pass {
        if closes(self.instruction_depth, depth) {
            Pass {
                instruction_depth: None,
                instruction: Seq::empty(),
                pending_url: match hyperlink_target(self.instruction) {
                    Some(url) => Some(url),
                    None => self.pending_url,
                },
                ..self
            }
        } else {
            self
        }
    }

    /// The field result closed, if the given depth ends it.
    pub open spec fn result_closed(self, depth: int) -> Pass {
        if self.result_at is Some && depth < (self.result_at->0).0 {
            Pass {
                result_at: None,
                pending_url: None,
                links: match self.pending_url {
                    Some(url) => self.links.push(((self.result_at->0).1, self.offset, url)),
                    None => self.links,
                },
                ..self
            }
        } else {
            self
        }
    }

    /// A group closed.
    pub open spec fn closed(self) -> Pass {
        let depth = self.depth - 1;
        let skip_depth = if self.skip_depth > 0 && depth < self.skip_depth { 0 } else { self.skip_depth };
        let produced_text = self.has_text.len() > 0 && self.has_text.last();
        Pass {
            depth,
            expect_destination: false,
            ignorable: false,
            codepages: if self.codepages.len() > 1 { self.codepages.drop_last() } else { self.codepages },
            fonts: if self.fonts.len() > 1 { self.fonts.drop_last() } else { self.fonts },
            track: self.track.popped(self.offset),
            skip_depth,
            header_depth: if closes(self.header_depth, depth) { None } else { self.header_depth },
            footer_depth: if closes(self.footer_depth, depth) { None } else { self.footer_depth },
            has_text: if self.has_text.len() > 0 { self.has_text.drop_last() } else { self.has_text },
            pending_space: self.pending_space || (produced_text && skip_depth == 0),
            ..self.instruction_closed(depth).result_closed(depth)
        }
    }

    /// The group at hand skipped, unless an enclosing one is.
    pub open spec fn skipping(self) -> Pass {
        Pass { skip_depth: if self.skip_depth == 0 { self.depth } else { self.skip_depth }, ..self }
    }

    /// The field instruction at hand being read.
    pub open spec fn instructing(self) -> Pass {
        Pass { instruction_depth: Some(self.depth), ..self }.skipping()
    }

    /// The declarations that hold in skipped groups too: code page, font, default font.
    pub open spec fn declared(self, word: Seq<char>, param: Option<i32>) -> Pass {
        match param {
            None => self,
            Some(value) => Pass {
                codepages: if word == "ansicpg"@ && value > 0 && self.codepages.len() > 0 {
                    self.codepages.update(self.codepages.len() - 1, value as u32)
                } else {
                    self.codepages
                },
                fonts: if word == "f"@ && self.fonts.len() > 0 {
                    self.fonts.update(self.fonts.len() - 1, Some(tables::clamped(value, 65536) as u16))
                } else {
                    self.fonts
                },
                default_font: if word == "deff"@ {
                    Some(tables::clamped(value, 65536) as u16)
                } else {
                    self.default_font
                },
                ..self
            },
        }
    }

    /// Other formatting put in force.
    pub open spec fn formatted(self, fmt: tracker::FmtState) -> Pass {
        Pass { track: self.track.changed(self.offset, fmt), ..self }
    }

    /// A character given by its number, where the number is that of one. A negative number counts back from 65536.
    pub open spec fn numbered(self, number: Option<i32>) -> Pass {
        match number {
            None => self,
            Some(value) => {
                let code = if value < 0 { value + 65536 } else { value as int };
                if 0 <= code < 0xd800 || 0xe000 <= code <= 0x10_ffff {
                    Pass { offset: self.after(text::utf8_width(code as char) as int), ..self }.noted(code as char)
                } else {
                    self
                }
            },
        }
    }

    /// What a control word does outside skipped groups.
    pub open spec fn acted(self, word: Seq<char>, param: Option<i32>) -> Pass {
        let fmt = self.track.fmt;
        let on = match param {
            Some(value) => value != 0,
            None => true,
        };
        if word == "b"@ {
            self.formatted(tracker::FmtState { bold: on, ..fmt })
        } else if word == "i"@ {
            self.formatted(tracker::FmtState { italic: on, ..fmt })
        } else if word == "ul"@ {
            self.formatted(tracker::FmtState { underline: on, ..fmt })
        } else if word == "ulnone"@ {
            self.formatted(tracker::FmtState { underline: false, ..fmt })
        } else if word == "strike"@ {
            self.formatted(tracker::FmtState { strikethrough: on, ..fmt })
        } else if word == "cf"@ {
            self.formatted(
                tracker::FmtState {
                    color_idx: match param {
                        Some(value) => (value as int % 65536) as u16,
                        None => 0,
                    },
                    ..fmt
                },
            )
        } else if word == "plain"@ {
            self.formatted(tracker::plain())
        } else if is_header(word) {
            Pass { header_depth: Some(self.depth), ..self }
        } else if is_footer(word) {
            Pass { footer_depth: Some(self.depth), ..self }
        } else if word == "par"@ || word == "line"@ {
            Pass { offset: self.after(1), ..self }.noted('\n')
        } else if word == "tab"@ {
            Pass { offset: self.after(1), ..self }
        } else if is_wide_symbol(word) {
            Pass { offset: self.after(3), ..self }
        } else if word == "u"@ {
            self.numbered(param)
        } else {
            self
        }
    }

    /// Whether a control word is a destination at this point whose group is read apart or skipped.
    pub open spec fn diverts(self, word: Seq<char>) -> bool {
        self.ignorable || (self.expect_destination && (word == "fldinst"@ || word == "fldrslt"@
            || is_skipped_destination(word)))
    }

    /// What a destination does to the group that it starts.
    pub open spec fn diverted(self, word: Seq<char>) -> Pass {
        let s = Pass { expect_destination: false, ignorable: false, ..self };
        if word == "fldinst"@ {
            s.instructing()
        } else if word == "fldrslt"@ && !self.ignorable {
            Pass { result_at: Some((self.depth, self.offset)), ..s }
        } else {
            s.skipping()
        }
    }

    /// A control word that does not divert, as far as skipped groups see it.
    pub open spec fn announced(self, word: Seq<char>, param: Option<i32>) -> Pass {
        Pass { expect_destination: false, ..self }.instructed(word).declared(word, param)
    }

    /// A control word.
    pub open spec fn controlled(self, word: Seq<char>, param: Option<i32>) -> Pass {
        if self.diverts(word) {
            self.diverted(word)
        } else {
            let s = self.announced(word, param);
            if self.skip_depth > 0 {
                s
            } else {
                s.acted(word, param)
            }
        }
    }

    /// Whether a control word is followed by a replacement character that is not read.
    pub open spec fn drops_replacement(self, word: Seq<char>) -> bool {
        !self.diverts(word) && self.skip_depth <= 0 && word == "u"@
    }
}

/// The position after the replacement character of a Unicode escape, if one stands there.
pub open spec fn replacement_end(s: Seq<char>, p: int) -> int {
    if p < s.len() && s[p] != '\\' && s[p] != '{' && s[p] != '}' {
        p + 1
    } else {
        p
    }
}

/// The run of hex escapes whose first digits stand at a position, and the position after it.
pub open spec fn escape_run(s: Seq<char>, p: int) -> (Option<Seq<u8>>, int) {
    if p + 2 > s.len() {
        (None, s.len() as int)
    } else {
        match words::hex_byte(words::low_byte(s[p]), words::low_byte(s[p + 1])) {
            None => (None, p + 2),
            Some(byte) => {
                let rest = words::hex_run(s, p + 2);
                (Some(seq![byte] + rest.0), rest.1)
            },
        }
    }
}

/// One token read: the state after it and the position after it.
pub open spec fn token(s: Seq<char>, charsets: Map<u16, u32>, state: Pass, p: int) -> (Pass, int) {
    let c = s[p];
    if c == '{' {
        (state.opened(), p + 1)
    } else if c == '}' {
        (state.closed(), p + 1)
    } else if c == '\\' {
        if p + 1 >= s.len() {
            (state, p + 1)
        } else {
            let d = s[p + 1];
            if d == '\\' || d == '{' || d == '}' {
                (state.escaped(d), p + 2)
            } else if d == '\'' {
                let run = escape_run(s, p + 2);
                (state.hex(run.0, charsets), run.1)
            } else if d == '*' {
                (Pass { ignorable: true, ..state }, p + 2)
            } else {
                let w = words::control_word_at(s, p + 1);
                (
                    state.controlled(w.word, w.param),
                    if state.drops_replacement(w.word) {
                        replacement_end(s, w.end)
                    } else {
                        w.end
                    },
                )
            }
        }
    } else if c == '\n' || c == '\r' {
        (state, p + 1)
    } else if c == ' ' || c == '\t' {
        (state.blank(), p + 1)
    } else {
        (state.literal(c), p + 1)
    }
}

/// The state after everything from a position on is read.
pub open spec fn passed(s: Seq<char>, charsets: Map<u16, u32>, state: Pass, p: int) -> Pass
    decreases s.len() - p,
{
    if p < 0 || p >= s.len() {
        state
    } else {
        let next = token(s, charsets, state, p);
        if p < next.1 <= s.len() {
            passed(s, charsets, next.0, next.1)
        } else {
            next.0
        }
    }
}

/// The state at the end of a document.
pub open spec fn pass_over(content: Seq<char>) -> Pass {
    passed(content, tables::font_codepages(content), initial(), 0)
}

/// The formatting spans of a document.
pub open spec fn spans_of(content: Seq<char>) -> Seq<RtfFormattingSpan> {
    pass_over(content).track.finalized(pass_over(content).offset)
}

/// A text, unless there is nothing in it but white space.
pub open spec fn some_text(s: Seq<char>) -> Option<Seq<char>> {
    if text::trimmed(s).len() == 0 {
        None
    } else {
        Some(text::trimmed(s))
    }
}

/// Formatting metadata of a document.
#[derive(Clone, Debug)]
pub struct RtfFormattingData {
    /// Formatting spans, in the order of the text.
    pub spans: Vec<RtfFormattingSpan>,
    /// Colours; the first one is the automatic colour.
    pub color_table: Vec<String>,
    /// Text of the headers.
    pub header_text: Option<String>,
    /// Text of the footers.
    pub footer_text: Option<String>,
    /// Hyperlinks: first byte, byte after the last one, target.
    pub hyperlinks: Vec<(usize, usize, String)>,
}

/// Metadata for a single paragraph.
#[derive(Clone, Debug)]
pub struct ParagraphMeta {
    /// Heading level; zero for a paragraph that is no heading.
    pub heading_level: u8,
    /// Nesting level of a list item.
    pub list_level: Option<u8>,
    /// Identifier of the list of a list item.
    pub list_id: Option<u16>,
    /// Whether the paragraph stands for a table.
    pub is_table: bool,
    /// Whether a list item is numbered.
    pub ordered: bool,
}

impl Default for ParagraphMeta {
    fn default() -> (r: Self)
        ensures
            r == (ParagraphMeta { heading_level: 0, list_level: None, list_id: None, is_table: false, ordered: false }),
    {
        ParagraphMeta { heading_level: 0, list_level: None, list_id: None, is_table: false, ordered: false }
    }
}

/// The texts of hyperlinks.
pub open spec fn link_views(links: Seq<(usize, usize, String)>) -> Seq<(usize, usize, Seq<char>)> {
    links.map_values(|link: (usize, usize, String)| (link.0, link.1, link.2@))
}

/// The text of an optional string.
pub open spec fn string_view(s: Option<String>) -> Option<Seq<char>> {
    match s {
        Some(string) => Some(string@),
        None => None,
    }
}

/// A depth as a number.
pub open spec fn depth_view(depth: Option<i32>) -> Option<int> {
    match depth {
        Some(d) => Some(d as int),
        None => None,
    }
}

/// The running state of the pass.
struct PassState {
    tracker: FormattingTracker,
    offset: usize,
    depth: i32,
    skip_depth: i32,
    expect_destination: bool,
    ignorable: bool,
    has_text: Vec<bool>,
    pending_space: bool,
    codepages: Vec<u32>,
    fonts: Vec<Option<u16>>,
    default_font: Option<u16>,
    header_depth: Option<i32>,
    header: Vec<char>,
    footer_depth: Option<i32>,
    footer: Vec<char>,
    instruction_depth: Option<i32>,
    instruction: Vec<char>,
    result_at: Option<(i32, usize)>,
    pending_url: Option<String>,
    links: Vec<(usize, usize, String)>,
}

impl PassState {
    spec fn state(&self) -> Pass {
        Pass {
            track: self.tracker@,
            offset: self.offset,
            depth: self.depth as int,
            skip_depth: self.skip_depth as int,
            expect_destination: self.expect_destination,
            ignorable: self.ignorable,
            has_text: self.has_text@,
            pending_space: self.pending_space,
            codepages: self.codepages@,
            fonts: self.fonts@,
            default_font: self.default_font,
            header_depth: depth_view(self.header_depth),
            header: self.header@,
            footer_depth: depth_view(self.footer_depth),
            footer: self.footer@,
            instruction_depth: depth_view(self.instruction_depth),
            instruction: self.instruction@,
            result_at: match self.result_at {
                Some((d, start)) => Some((d as int, start)),
                None => None,
            },
            pending_url: string_view(self.pending_url),
            links: link_views(self.links@),
        }
    }

    fn new() -> (r: Self)
        ensures
            r.state() == initial(),
    {
        let r = PassState {
            tracker: FormattingTracker::new(),
            offset: 0,
            depth: 0,
            skip_depth: 0,
            expect_destination: false,
            ignorable: false,
            has_text: Vec::new(),
            pending_space: false,
            codepages: vec![1252],
            fonts: vec![None],
            default_font: None,
            header_depth: None,
            header: Vec::new(),
            footer_depth: None,
            footer: Vec::new(),
            instruction_depth: None,
            instruction: Vec::new(),
            result_at: None,
            pending_url: None,
            links: Vec::new(),
        };
        proof {
            assert(r.state() =~= initial());
        }
        r
    }

    fn space(&mut self)
        ensures
            final(self).state() == old(self).state().spaced(),
    {
        if self.pending_space && self.offset > 0 {
            self.offset = self.offset.saturating_add(1);
        }
        self.pending_space = false;
    }

    fn mark(&mut self)
        ensures
            final(self).state() == (Pass { has_text: marked(old(self).state().has_text), ..old(self).state() }),
    {
        let n = self.has_text.len();
        if n > 0 {
            self.has_text.set(n - 1, true);
        }
    }

    fn note(&mut self, c: char)
        ensures
            final(self).state() == old(self).state().noted(c),
    {
        if self.header_depth.is_some() {
            self.header.push(c);
        }
        if self.footer_depth.is_some() {
            self.footer.push(c);
        }
    }

    fn instruct(&mut self, more: &[char])
        ensures
            final(self).state() == old(self).state().instructed(more@),
    {
        if self.instruction_depth.is_some() {
            push_chars(&mut self.instruction, more);
        }
    }

    fn instruct_char(&mut self, c: char)
        ensures
            final(self).state() == old(self).state().instructed(seq![c]),
    {
        if self.instruction_depth.is_some() {
            self.instruction.push(c);
            proof {
                assert(self.instruction@ =~= old(self).instruction@ + seq![c]);
            }
        }
    }

    fn produce(&mut self, c: char)
        ensures
            final(self).state() == old(self).state().produced(c),
    {
        self.space();
        self.offset = self.offset.saturating_add(char_width(c));
        self.mark();
        self.note(c);
    }

    fn escaped(&mut self, c: char)
        ensures
            final(self).state() == old(self).state().escaped(c),
    {
        self.expect_destination = false;
        self.instruct_char(c);
        if self.skip_depth <= 0 {
            self.produce(c);
        }
    }

    fn literal(&mut self, c: char)
        ensures
            final(self).state() == old(self).state().literal(c),
    {
        if self.instruction_depth.is_some() {
            self.instruct_char(c);
        } else if self.skip_depth <= 0 {
            self.produce(c);
        }
    }

    fn blank(&mut self)
        ensures
            final(self).state() == old(self).state().blank(),
    {
        self.instruct_char(' ');
        if self.skip_depth <= 0 && self.offset > 0 {
            self.offset = self.offset.saturating_add(1);
            self.mark();
        }
    }

    fn hex(&mut self, bytes: Option<Vec<u8>>, charsets: &HashMap<u16, u32>)
        requires
            bytes matches Some(b) ==> b@.len() <= usize::MAX / 16,
        ensures
            final(self).state() == old(self).state().hex(
                match bytes {
                    Some(b) => Some(b@),
                    None => None,
                },
                charsets@,
            ),
    {
        self.expect_destination = false;
        if self.skip_depth > 0 {
            return ;
        }
        if let Some(b) = bytes {
            let codepage = resolve_decode_codepage(
                self.fonts.as_slice(),
                self.default_font,
                charsets,
                self.codepages.as_slice(),
            );
            let decoded = decode_ansi_bytes(b.as_slice(), codepage);
            self.space();
            self.offset = self.offset.saturating_add(str_byte_len(decoded.as_str()));
            self.mark();
        }
    }

    fn open(&mut self)
        requires
            old(self).depth < i32::MAX,
        ensures
            final(self).state() == old(self).state().opened(),
    {
        self.depth = self.depth + 1;
        self.expect_destination = true;
        self.tracker.push();
        self.has_text.push(false);
        self.pending_space = false;
        let n = self.codepages.len();
        let codepage: u32 = if n > 0 { self.codepages[n - 1] } else { 1252 };
        self.codepages.push(codepage);
        let m = self.fonts.len();
        let font: Option<u16> = if m > 0 { self.fonts[m - 1] } else { None };
        self.fonts.push(font);
    }

    fn close_scopes(&mut self)
        requires
            old(self).depth > i32::MIN,
        ensures
            final(self).state() == (Pass {
                depth: old(self).state().depth - 1,
                expect_destination: false,
                ignorable: false,
                codepages: if old(self).state().codepages.len() > 1 {
                    old(self).state().codepages.drop_last()
                } else {
                    old(self).state().codepages
                },
                fonts: if old(self).state().fonts.len() > 1 {
                    old(self).state().fonts.drop_last()
                } else {
                    old(self).state().fonts
                },
                track: old(self).state().track.popped(old(self).state().offset),
                ..old(self).state()
            }),
    {
        self.depth = self.depth - 1;
        self.expect_destination = false;
        self.ignorable = false;
        if self.codepages.len() > 1 {
            self.codepages.pop();
        }
        if self.fonts.len() > 1 {
            self.fonts.pop();
        }
        self.tracker.pop(self.offset);
    }

    fn close_regions(&mut self, depth: i32)
        ensures
            final(self).state() == (Pass {
                skip_depth: if old(self).state().skip_depth > 0 && depth < old(self).state().skip_depth {
                    0
                } else {
                    old(self).state().skip_depth
                },
                header_depth: if closes(old(self).state().header_depth, depth as int) {
                    None
                } else {
                    old(self).state().header_depth
                },
                footer_depth: if closes(old(self).state().footer_depth, depth as int) {
                    None
                } else {
                    old(self).state().footer_depth
                },
                ..old(self).state()
            }),
    {
        if self.skip_depth > 0 && depth < self.skip_depth {
            self.skip_depth = 0;
        }
        if let Some(opened) = self.header_depth {
            if depth < opened {
                self.header_depth = None;
            }
        }
        if let Some(opened) = self.footer_depth {
            if depth < opened {
                self.footer_depth = None;
            }
        }
    }

    fn close_text(&mut self)
        ensures
            final(self).state() == (Pass {
                has_text: if old(self).state().has_text.len() > 0 {
                    old(self).state().has_text.drop_last()
                } else {
                    old(self).state().has_text
                },
                pending_space: old(self).state().pending_space || (old(self).state().has_text.len() > 0
                    && old(self).state().has_text.last() && old(self).state().skip_depth == 0),
                ..old(self).state()
            }),
    {
        let produced_text: bool = match self.has_text.pop() {
            Some(flag) => flag,
            None => false,
        };
        if produced_text && self.skip_depth == 0 {
            self.pending_space = true;
        }
    }

    fn close(&mut self)
        requires
            old(self).depth > i32::MIN,
        ensures
            final(self).state() == old(self).state().closed(),
    {
        self.close_scopes();
        let depth: i32 = self.depth;
        self.close_regions(depth);
        self.close_fldinst_group(depth);
        self.close_fldrslt_group(depth);
        self.close_text();
    }

    fn close_fldinst_group(&mut self, depth: i32)
        ensures
            final(self).state() == old(self).state().instruction_closed(depth as int),
    {
        let opened: i32 = match self.instruction_depth {
            Some(opened) => opened,
            None => {
                return ;
            },
        };
        if depth >= opened {
            return ;
        }
        self.instruction_depth = None;
        if let Some(url) = parse_hyperlink_target(self.instruction.as_slice()) {
            self.pending_url = Some(url);
        }
        self.instruction.clear();
    }

    fn close_fldrslt_group(&mut self, depth: i32)
        ensures
            final(self).state() == old(self).state().result_closed(depth as int),
    {
        let (opened, start): (i32, usize) = match self.result_at {
            Some(at) => at,
            None => {
                return ;
            },
        };
        if depth >= opened {
            return ;
        }
        self.result_at = None;
        if let Some(url) = self.pending_url.take() {
            let ghost links = self.links@;
            let ghost link = (start, self.offset, url@);
            self.links.push((start, self.offset, url));
            proof {
                assert(link_views(self.links@) =~= link_views(links).push(link));
            }
        }
    }

    fn skip_group(&mut self)
        ensures
            final(self).state() == old(self).state().skipping(),
    {
        if self.skip_depth == 0 {
            self.skip_depth = self.depth;
        }
    }

    fn divert(&mut self, word: &[char])
        ensures
            final(self).state() == old(self).state().diverted(word@),
    {
        let ignorable = self.ignorable;
        self.expect_destination = false;
        self.ignorable = false;
        if is_str(word, "fldinst") {
            self.instruction_depth = Some(self.depth);
            self.skip_group();
        } else if !ignorable && is_str(word, "fldrslt") {
            self.result_at = Some((self.depth, self.offset));
        } else {
            self.skip_group();
        }
    }

    fn diverting(&self, word: &[char]) -> (r: bool)
        ensures
            r == self.state().diverts(word@),
    {
        self.ignorable || (self.expect_destination && (is_str(word, "fldinst") || is_str(word, "fldrslt")
            || names_skipped_destination(word)))
    }

    fn announce(&mut self, word: &[char], param: Option<i32>)
        ensures
            final(self).state() == old(self).state().announced(word@, param),
    {
        self.expect_destination = false;
        self.instruct(word);
        if let Some(value) = param {
            let n = self.codepages.len();
            if n > 0 && value > 0 && is_str(word, "ansicpg") {
                self.codepages.set(n - 1, value as u32);
            }
            let m = self.fonts.len();
            if m > 0 && is_str(word, "f") {
                self.fonts.set(m - 1, Some(clamp_u16(value)));
            }
            if is_str(word, "deff") {
                self.default_font = Some(clamp_u16(value));
            }
        }
    }

    fn number(&mut self, number: Option<i32>)
        ensures
            final(self).state() == old(self).state().numbered(number),
    {
        if let Some(value) = number {
            let code: i64 = if value < 0 { value as i64 + 65536 } else { value as i64 };
            if code >= 0 {
                if let Some(c) = char::from_u32(code as u32) {
                    self.offset = self.offset.saturating_add(char_width(c));
                    self.note(c);
                }
            }
        }
    }

    #[verifier::spinoff_prover]
    #[verifier::rlimit(60)]
    fn act(&mut self, word: &[char], param: Option<i32>)
        ensures
            final(self).state() == old(self).state().acted(word@, param),
    {
        let on: bool = match param {
            Some(value) => value != 0,
            None => true,
        };
        if is_str(word, "b") {
            self.tracker.update_bold(self.offset, on);
        } else if is_str(word, "i") {
            self.tracker.update_italic(self.offset, on);
        } else if is_str(word, "ul") {
            self.tracker.update_underline(self.offset, on);
        } else if is_str(word, "ulnone") {
            self.tracker.update_underline(self.offset, false);
        } else if is_str(word, "strike") {
            self.tracker.update_strikethrough(self.offset, on);
        } else if is_str(word, "cf") {
            let index: u16 = match param {
                Some(value) => ((value as i64 + 0x1_0000_0000) % 65536) as u16,
                None => 0,
            };
            self.tracker.update_color(self.offset, index);
        } else if is_str(word, "plain") {
            self.tracker.reset_all(self.offset);
        } else if starts_header(word) {
            self.header_depth = Some(self.depth);
        } else if starts_footer(word) {
            self.footer_depth = Some(self.depth);
        } else if is_str(word, "par") || is_str(word, "line") {
            self.offset = self.offset.saturating_add(1);
            self.note('\n');
        } else if is_str(word, "tab") {
            self.offset = self.offset.saturating_add(1);
        } else if names_wide_symbol(word) {
            self.offset = self.offset.saturating_add(3);
        } else if is_str(word, "u") {
            self.number(param);
        }
    }

    fn control(&mut self, word: &[char], param: Option<i32>) -> (r: bool)
        ensures
            final(self).state() == old(self).state().controlled(word@, param),
            r == old(self).state().drops_replacement(word@),
    {
        if self.diverting(word) {
            self.divert(word);
            return false;
        }
        self.announce(word, param);
        if self.skip_depth > 0 {
            return false;
        }
        self.act(word, param);
        is_str(word, "u")
    }
}

fn names_skipped_destination(word: &[char]) -> (r: bool)
    ensures
        r == is_skipped_destination(word@),
{
    is_str(word, "fonttbl") || is_str(word, "stylesheet") || is_str(word, "info") || is_str(word, "listtable")
        || is_str(word, "listoverridetable") || is_str(word, "generator") || is_str(word, "filetbl") || is_str(
        word,
        "revtbl",
    ) || is_str(word, "rsidtbl") || is_str(word, "xmlnstbl") || is_str(word, "mmathPr") || is_str(word, "themedata")
        || is_str(word, "colorschememapping") || is_str(word, "datastore") || is_str(word, "latentstyles") || is_str(
        word,
        "datafield",
    ) || is_str(word, "objdata") || is_str(word, "objclass") || is_str(word, "panose") || is_str(word, "bkmkstart")
        || is_str(word, "bkmkend") || is_str(word, "wgrffmtfilter") || is_str(word, "fcharset") || is_str(
        word,
        "pgdsctbl",
    ) || is_str(word, "colortbl") || is_str(word, "pict")
}

fn starts_header(word: &[char]) -> (r: bool)
    ensures
        r == is_header(word@),
{
    is_str(word, "header") || is_str(word, "headerl") || is_str(word, "headerr") || is_str(word, "headerf")
}

fn starts_footer(word: &[char]) -> (r: bool)
    ensures
        r == is_footer(word@),
{
    is_str(word, "footer") || is_str(word, "footerl") || is_str(word, "footerr") || is_str(word, "footerf")
}

fn names_wide_symbol(word: &[char]) -> (r: bool)
    ensures
        r == is_wide_symbol(word@),
{
    is_str(word, "bullet") || is_str(word, "lquote") || is_str(word, "rquote") || is_str(word, "ldblquote") || is_str(
        word,
        "rdblquote",
    ) || is_str(word, "endash") || is_str(word, "emdash")
}

/// The target of a field instruction, if it is a hyperlink with one.
fn parse_hyperlink_target(instruction: &[char]) -> (r: Option<String>)
    ensures
        string_view(r) == hyperlink_target(instruction@),
{
    let trimmed = trim(instruction);
    if !has_prefix(trimmed, "HYPERLINK") {
        return None;
    }
    proof {
        reveal_strlit("HYPERLINK");
        reveal_strlit("\\l ");
        reveal_strlit("\\l\"");
        assert(trimmed@.subrange(9, trimmed@.len() as int) =~= trimmed@.skip(9));
    }
    let rest = trim(slice_subrange(trimmed, 9, trimmed.len()));
    let url = trim(strip_matches(rest, '"'));
    proof {
        if url@.len() >= 3 {
            assert(url@.subrange(3, url@.len() as int) =~= url@.skip(3));
        }
    }
    let mut target: Vec<char> = Vec::new();
    if has_prefix(url, "\\l ") {
        target.push('#');
        push_chars(&mut target, strip_matches(trim(slice_subrange(url, 3, url.len())), '"'));
        proof {
            assert(target@ =~= seq!['#'] + unquoted(text::trimmed(url@.skip(3))));
        }
    } else if has_prefix(url, "\\l\"") {
        target.push('#');
        push_chars(&mut target, strip_matches(slice_subrange(url, 3, url.len()), '"'));
        proof {
            assert(target@ =~= seq!['#'] + unquoted(url@.skip(3)));
        }
    } else {
        push_chars(&mut target, url);
        proof {
            assert(target@ =~= url@);
        }
    }
    if target.len() == 0 {
        None
    } else {
        Some(string_of(target.as_slice()))
    }
}

/// Reads the run of hex escapes whose first digits stand at a position.
fn read_escape_run(s: &[char], p: usize) -> (r: (Option<Vec<u8>>, usize))
    requires
        p <= s.len(),
        s.len() <= usize::MAX / 16,
    ensures
        r.0 is Some <==> escape_run(s@, p as int).0 is Some,
        r.0 matches Some(bytes) ==> bytes@ == escape_run(s@, p as int).0->0 && bytes@.len() <= s@.len(),
        r.1 == escape_run(s@, p as int).1,
        p <= r.1 <= s.len(),
{
    if s.len() - p < 2 {
        return (None, s.len());
    }
    match parse_hex_byte(char_low_byte(s[p]), char_low_byte(s[p + 1])) {
        None => (None, p + 2),
        Some(byte) => {
            let (mut rest, end) = consume_hex_run(s, p + 2);
            let ghost tail = rest@;
            rest.insert(0, byte);
            proof {
                assert(rest@ =~= seq![byte] + tail);
            }
            (Some(rest), end)
        },
    }
}

/// Reads the whole document, token by token.
fn run_pass(s: &[char], charsets: &HashMap<u16, u32>) -> (r: PassState)
    requires
        s.len() <= i32::MAX,
        s.len() <= usize::MAX / 16,
    ensures
        r.state() == passed(s@, charsets@, initial(), 0),
{
    let mut state = PassState::new();
    let mut p: usize = 0;
    while p < s.len()
        invariant
            p <= s.len() <= i32::MAX,
            s.len() <= usize::MAX / 16,
            -p <= state.depth <= p,
            passed(s@, charsets@, state.state(), p as int) == passed(s@, charsets@, initial(), 0),
        decreases s.len() - p,
    {
        let ghost before = state.state();
        let ghost at = p as int;
        let c = s[p];
        if c == '{' {
            state.open();
            p = p + 1;
        } else if c == '}' {
            state.close();
            p = p + 1;
        } else if c == '\\' {
            if p + 1 == s.len() {
                p = p + 1;
            } else {
                let d = s[p + 1];
                if d == '\\' || d == '{' || d == '}' {
                    state.escaped(d);
                    p = p + 2;
                } else if d == '\'' {
                    let (bytes, end) = read_escape_run(s, p + 2);
                    state.hex(bytes, charsets);
                    p = end;
                } else if d == '*' {
                    state.ignorable = true;
                    p = p + 2;
                } else {
                    let (word, param, end) = parse_rtf_control_word(s, p + 1);
                    let drops = state.control(word.as_slice(), param);
                    p = end;
                    if drops && p < s.len() && s[p] != '\\' && s[p] != '{' && s[p] != '}' {
                        p = p + 1;
                    }
                }
            }
        } else if c == '\n' || c == '\r' {
            p = p + 1;
        } else if c == ' ' || c == '\t' {
            state.blank();
            p = p + 1;
        } else {
            state.literal(c);
            p = p + 1;
        }
        proof {
            assert((state.state(), p as int) == token(s@, charsets@, before, at));
            assert(-(p as int) <= state.depth <= p);
        }
    }
    state
}

fn some_trimmed(s: &[char]) -> (r: Option<String>)
    ensures
        string_view(r) == some_text(s@),
{
    let trimmed = trim(s);
    if trimmed.len() == 0 {
        None
    } else {
        Some(string_of(trimmed))
    }
}

/// Reads the formatting metadata of a document.
pub fn extract_rtf_formatting(content: &str) -> (r: RtfFormattingData)
    requires
        content@.len() <= i32::MAX,
        content@.len() <= usize::MAX / 16,
    ensures
        r.spans@ == spans_of(content@),
        text::strings(r.color_table@) == tables::color_table(content@),
        string_view(r.header_text) == some_text(pass_over(content@).header),
        string_view(r.footer_text) == some_text(pass_over(content@).footer),
        link_views(r.hyperlinks@) == pass_over(content@).links,
{
    let chars = chars_of(content);
    let color_table = parse_rtf_color_table(chars.as_slice());
    let charsets = parse_font_charset_table(chars.as_slice());
    let mut state = run_pass(chars.as_slice(), &charsets);
    state.tracker.finalize(state.offset);
    RtfFormattingData {
        spans: state.tracker.spans,
        color_table,
        header_text: some_trimmed(state.header.as_slice()),
        footer_text: some_trimmed(state.footer.as_slice()),
        hyperlinks: state.links,
    }
}

impl Pass {
    /// Every span and every hyperlink lies within the text produced so far, the spans are non-empty, in order and
    /// without a gap, and every hyperlink has a target.
    pub open spec fn within_text(self) -> bool {
        &&& self.track.ordered(self.offset)
        &&& self.result_at is Some ==> (self.result_at->0).1 <= self.offset
        &&& forall|i: int| 0 <= i < self.links.len() ==> (#[trigger] self.links[i]).0 <= self.links[i].1 <= self.offset
        &&& self.pending_url matches Some(url) ==> url.len() > 0
        &&& forall|i: int| 0 <= i < self.links.len() ==> (#[trigger] self.links[i]).2.len() > 0
    }
}

/// Producing text and closing spans at its end keeps everything within it.
#[verifier::spinoff_prover]
proof fn lemma_grown_within_text(before: Pass, after: Pass, fmt: tracker::FmtState)
    requires
        before.within_text(),
        before.offset <= after.offset,
        after.track == before.track || after.track == before.track.changed(after.offset, fmt) || after.track
            == before.track.pushed() || after.track == before.track.popped(after.offset),
        after.result_at == before.result_at || after.result_at is None || (after.result_at->0).1 == after.offset,
        after.links == before.links || (after.links.len() == before.links.len() + 1 && after.links.drop_last()
            == before.links && after.links.last().0 <= after.links.last().1 <= after.offset && after.links.last().2.len()
            > 0),
        after.pending_url matches Some(url) ==> url.len() > 0,
    ensures
        after.within_text(),
{
    tracker::law_tracking_keeps_spans_ordered(before.track, before.offset, after.offset, fmt);
    assert forall|i: int| 0 <= i < after.links.len() implies (#[trigger] after.links[i]).0 <= after.links[i].1
        <= after.offset by {
        if i < before.links.len() {
            if after.links != before.links {
                assert(after.links.drop_last()[i] == after.links[i]);
            }
            assert(before.links[i].1 <= before.offset);
        }
    }
    assert forall|i: int| 0 <= i < after.links.len() implies (#[trigger] after.links[i]).2.len() > 0 by {
        if i < before.links.len() {
            if after.links != before.links {
                assert(after.links.drop_last()[i] == after.links[i]);
            }
            assert(before.links[i].2.len() > 0);
        }
    }
}

/// What a control word does leaves the hyperlinks alone, and only lets the text grow or changes the formatting at its
/// end.
#[verifier::spinoff_prover]
pub proof fn lemma_act_grows(state: Pass, word: Seq<char>, param: Option<i32>)
    ensures
        ({
            let after = state.acted(word, param);
            &&& state.offset <= after.offset
            &&& after.track == state.track || after.track == state.track.changed(after.offset, after.track.fmt)
            &&& after.result_at == state.result_at
            &&& after.links == state.links
            &&& after.pending_url == state.pending_url
        }),
{
}

/// What a control word does keeps everything within the text.
#[verifier::spinoff_prover]
proof fn lemma_act_within_text(state: Pass, word: Seq<char>, param: Option<i32>)
    requires
        state.within_text(),
    ensures
        state.acted(word, param).within_text(),
{
    let after = state.acted(word, param);
    lemma_act_grows(state, word, param);
    lemma_grown_within_text(state, after, after.track.fmt);
}

/// What a control word announces keeps everything within the text.
#[verifier::spinoff_prover]
proof fn lemma_announcement_within_text(state: Pass, word: Seq<char>, param: Option<i32>)
    requires
        state.within_text(),
    ensures
        state.announced(word, param).within_text(),
{
    lemma_grown_within_text(state, state.announced(word, param), state.track.fmt);
}

/// A destination keeps everything within the text.
#[verifier::spinoff_prover]
proof fn lemma_diversion_within_text(state: Pass, word: Seq<char>)
    requires
        state.within_text(),
    ensures
        state.diverted(word).within_text(),
{
    lemma_grown_within_text(state, state.diverted(word), state.track.fmt);
}

/// A control word keeps everything within the text.
#[verifier::spinoff_prover]
proof fn lemma_control_within_text(state: Pass, word: Seq<char>, param: Option<i32>)
    requires
        state.within_text(),
    ensures
        state.controlled(word, param).within_text(),
{
    if state.diverts(word) {
        lemma_diversion_within_text(state, word);
    } else {
        let announced = state.announced(word, param);
        lemma_announcement_within_text(state, word, param);
        if state.skip_depth <= 0 {
            lemma_act_within_text(announced, word, param);
        }
    }
}

/// One token keeps everything within the text.
#[verifier::spinoff_prover]
pub proof fn lemma_token_within_text(s: Seq<char>, charsets: Map<u16, u32>, state: Pass, p: int)
    requires
        state.within_text(),
        0 <= p < s.len(),
    ensures
        token(s, charsets, state, p).0.within_text(),
{
    let after = token(s, charsets, state, p).0;
    let c = s[p];
    if c == '\\' && p + 1 < s.len() && s[p + 1] != '\\' && s[p + 1] != '{' && s[p + 1] != '}' && s[p + 1] != '\''
        && s[p + 1] != '*' {
        let w = words::control_word_at(s, p + 1);
        lemma_control_within_text(state, w.word, w.param);
    } else if c == '}' {
        assert(after.links == state.links || after.links.drop_last() =~= state.links);
        lemma_grown_within_text(state, after, state.track.fmt);
    } else {
        lemma_grown_within_text(state, after, state.track.fmt);
    }
}

/// Reading on keeps everything within the text.
pub proof fn lemma_passed_within_text(s: Seq<char>, charsets: Map<u16, u32>, state: Pass, p: int)
    requires
        state.within_text(),
    ensures
        passed(s, charsets, state, p).within_text(),
    decreases s.len() - p,
{
    if 0 <= p < s.len() {
        lemma_token_within_text(s, charsets, state, p);
        let next = token(s, charsets, state, p);
        if p < next.1 <= s.len() {
            lemma_passed_within_text(s, charsets, next.0, next.1);
        }
    }
}

/// The spans of a document are non-empty, follow each other without a gap from its start on, and lie within its text.
/// The ranges of its hyperlinks lie within it too, though they may be empty; their targets are not.
pub proof fn law_spans_lie_in_order_within_the_text(content: Seq<char>)
    ensures
        tracker::spans_ordered(spans_of(content)),
        tracker::tiles(spans_of(content), tracker::reached(spans_of(content))),
        forall|i: int|
            0 <= i < spans_of(content).len() ==> (#[trigger] spans_of(content)[i]).end <= pass_over(content).offset,
        forall|i: int|
            0 <= i < pass_over(content).links.len() ==> (#[trigger] pass_over(content).links[i]).0 <= pass_over(
                content,
            ).links[i].1 <= pass_over(content).offset,
        forall|i: int| 0 <= i < pass_over(content).links.len() ==> (#[trigger] pass_over(content).links[i]).2.len() > 0,
{
    let end = pass_over(content);
    assert(initial().within_text());
    lemma_passed_within_text(content, tables::font_codepages(content), initial(), 0);
    tracker::law_tracking_keeps_spans_ordered(end.track, end.offset, end.offset, end.track.fmt);
}

/// A range of the document text, as a range of a paragraph of it: `None` where the two do not
/// overlap.
pub open spec fn paragraph_range(start: usize, end: usize, para_start: usize, para_end: usize) -> Option<(int, int)> {
    let first = if start > para_start { start } else { para_start };
    let last = if end < para_end { end } else { para_end };
    if end <= para_start || start >= para_end || first >= last {
        None
    } else {
        Some((first - para_start, last - para_start))
    }
}

/// An offset kept to the width of annotations.
pub open spec fn annotation_offset(n: int) -> u32 {
    (n % 0x1_0000_0000) as u32
}

/// An annotation, with its texts as sequences.
pub enum Mark {
    /// Bold text.
    Bold,
    /// Italic text.
    Italic,
    /// Underlined text.
    Underline,
    /// Struck-through text.
    Strikethrough,
    /// Text in a colour.
    Color(Seq<char>),
    /// A hyperlink without a title.
    Link(Seq<char>),
}

/// What an annotation kind says.
pub open spec fn kind_is(kind: AnnotationKind, mark: Mark) -> bool {
    match mark {
        Mark::Bold => kind is Bold,
        Mark::Italic => kind is Italic,
        Mark::Underline => kind is Underline,
        Mark::Strikethrough => kind is Strikethrough,
        Mark::Color(color) => kind matches AnnotationKind::Color { value } && value@ == color,
        Mark::Link(target) => kind matches AnnotationKind::Link { url, title } && url@ == target && title is None,
    }
}

/// The marks of a span: one for each kind of formatting, and one for a colour that is neither
/// automatic nor black nor missing from the table.
pub open spec fn span_marks(span: RtfFormattingSpan, colors: Seq<Seq<char>>) -> Seq<Mark> {
    optional(span.bold, Mark::Bold) + optional(span.italic, Mark::Italic) + optional(span.underline, Mark::Underline)
        + optional(span.strikethrough, Mark::Strikethrough) + optional(
        shows_color(span, colors),
        Mark::Color(colors[span.color_index as int]),
    )
}

/// A mark that may not apply.
pub open spec fn optional(applies: bool, mark: Mark) -> Seq<Mark> {
    if applies {
        seq![mark]
    } else {
        Seq::empty()
    }
}

/// Whether a span has a colour worth an annotation.
pub open spec fn shows_color(span: RtfFormattingSpan, colors: Seq<Seq<char>>) -> bool {
    0 < span.color_index < colors.len() && colors[span.color_index as int].len() > 0 && colors[span.color_index as int]
        != "#000000"@
}

/// The marks of a paragraph that a range gives, with their offsets.
pub open spec fn placed(range: Option<(int, int)>, marks: Seq<Mark>) -> Seq<(u32, u32, Mark)> {
    match range {
        None => Seq::empty(),
        Some((first, last)) => marks.map_values(
            |mark: Mark| (annotation_offset(first), annotation_offset(last), mark),
        ),
    }
}

/// The marks that formatting spans give a paragraph.
pub open spec fn span_annotations(
    spans: Seq<RtfFormattingSpan>,
    colors: Seq<Seq<char>>,
    para_start: usize,
    para_end: usize,
) -> Seq<(u32, u32, Mark)>
    decreases spans.len(),
{
    if spans.len() == 0 {
        Seq::empty()
    } else {
        let span = spans.last();
        span_annotations(spans.drop_last(), colors, para_start, para_end) + placed(
            paragraph_range(span.start, span.end, para_start, para_end),
            span_marks(span, colors),
        )
    }
}

/// The marks that hyperlinks give a paragraph.
pub open spec fn link_annotations(
    links: Seq<(usize, usize, Seq<char>)>,
    para_start: usize,
    para_end: usize,
) -> Seq<(u32, u32, Mark)>
    decreases links.len(),
{
    if links.len() == 0 {
        Seq::empty()
    } else {
        let link = links.last();
        let before = link_annotations(links.drop_last(), para_start, para_end);
        let first = (if link.0 > para_start { link.0 } else { para_start }) - para_start;
        let last = (if link.1 < para_end { link.1 } else { para_end }) - para_start;
        if link.1 <= para_start || link.0 >= para_end || annotation_offset(first) >= annotation_offset(last) {
            before
        } else {
            before.push((annotation_offset(first), annotation_offset(last), Mark::Link(link.2)))
        }
    }
}

/// Whether annotations carry the given marks.
pub open spec fn annotations_are(annotations: Seq<TextAnnotation>, marks: Seq<(u32, u32, Mark)>) -> bool {
    &&& annotations.len() == marks.len()
    &&& forall|i: int|
        0 <= i < marks.len() ==> (#[trigger] annotations[i]).start == marks[i].0 && annotations[i].end == marks[i].1
            && kind_is(annotations[i].kind, marks[i].2)
}

fn to_annotation_offset(n: usize) -> (r: u32)
    ensures
        r == annotation_offset(n as int),
{
    (n as u64 % 0x1_0000_0000u64) as u32
}

/// Appends one annotation.
fn push_annotation(
    annotations: &mut Vec<TextAnnotation>,
    start: u32,
    end: u32,
    kind: AnnotationKind,
    Ghost(marks): Ghost<Seq<(u32, u32, Mark)>>,
    Ghost(mark): Ghost<Mark>,
)
    requires
        annotations_are(old(annotations)@, marks),
        kind_is(kind, mark),
    ensures
        annotations_are(final(annotations)@, marks.push((start, end, mark))),
{
    annotations.push(TextAnnotation { start, end, kind });
}

/// Appends one annotation of a span, if it applies.
fn push_span_annotation(
    annotations: &mut Vec<TextAnnotation>,
    applies: bool,
    first: usize,
    last: usize,
    kind: AnnotationKind,
    Ghost(marks): Ghost<Seq<(u32, u32, Mark)>>,
    Ghost(done): Ghost<Seq<Mark>>,
    Ghost(mark): Ghost<Mark>,
)
    requires
        annotations_are(old(annotations)@, marks + placed(Some((first as int, last as int)), done)),
        kind_is(kind, mark),
    ensures
        annotations_are(
            final(annotations)@,
            marks + placed(Some((first as int, last as int)), done + optional(applies, mark)),
        ),
{
    if applies {
        let start: u32 = to_annotation_offset(first);
        let end: u32 = to_annotation_offset(last);
        let ghost range = Some((first as int, last as int));
        push_annotation(annotations, start, end, kind, Ghost(marks + placed(range, done)), Ghost(mark));
        proof {
            assert((marks + placed(range, done)).push((start, end, mark)) =~= marks + placed(
                range,
                done + seq![mark],
            ));
        }
    } else {
        proof {
            assert(done + Seq::<Mark>::empty() =~= done);
        }
    }
}

/// Appends the annotations of one span.
fn push_span_annotations(
    annotations: &mut Vec<TextAnnotation>,
    span: &RtfFormattingSpan,
    first: usize,
    last: usize,
    color_table: &[String],
    Ghost(marks): Ghost<Seq<(u32, u32, Mark)>>,
)
    requires
        annotations_are(old(annotations)@, marks),
    ensures
        annotations_are(
            final(annotations)@,
            marks + placed(Some((first as int, last as int)), span_marks(*span, text::strings(color_table@))),
        ),
{
    let ghost colors = text::strings(color_table@);
    let ghost range = Some((first as int, last as int));
    let ghost none = Seq::<Mark>::empty();
    proof {
        assert(marks + placed(range, none) =~= marks);
    }
    let kind = AnnotationKind::Bold;
    push_span_annotation(annotations, span.bold, first, last, kind, Ghost(marks), Ghost(none), Ghost(Mark::Bold));
    let ghost bold = optional(span.bold, Mark::Bold);
    proof {
        assert(none + bold =~= bold);
    }
    let kind = AnnotationKind::Italic;
    push_span_annotation(annotations, span.italic, first, last, kind, Ghost(marks), Ghost(bold), Ghost(Mark::Italic));
    let ghost italic = bold + optional(span.italic, Mark::Italic);
    let kind = AnnotationKind::Underline;
    push_span_annotation(
        annotations,
        span.underline,
        first,
        last,
        kind,
        Ghost(marks),
        Ghost(italic),
        Ghost(Mark::Underline),
    );
    let ghost underline = italic + optional(span.underline, Mark::Underline);
    let kind = AnnotationKind::Strikethrough;
    push_span_annotation(
        annotations,
        span.strikethrough,
        first,
        last,
        kind,
        Ghost(marks),
        Ghost(underline),
        Ghost(Mark::Strikethrough),
    );
    let ghost strikethrough = underline + optional(span.strikethrough, Mark::Strikethrough);
    let index: usize = span.color_index as usize;
    if 0 < index && index < color_table.len() {
        let color = &color_table[index];
        proof {
            assert(colors[index as int] == color@);
        }
        let letters = chars_of(color.as_str());
        let shown = letters.len() > 0 && !is_str(letters.as_slice(), "#000000");
        let kind = AnnotationKind::Color { value: color.clone() };
        push_span_annotation(
            annotations,
            shown,
            first,
            last,
            kind,
            Ghost(marks),
            Ghost(strikethrough),
            Ghost(Mark::Color(color@)),
        );
    } else {
        proof {
            assert(strikethrough + none =~= strikethrough);
        }
    }
}

/// The annotations of a paragraph, given its byte range in the text: those of the spans that
/// overlap it, then those of the hyperlinks that do.
pub fn spans_to_annotations(para_start: usize, para_end: usize, formatting: &RtfFormattingData) -> (r: Vec<
    TextAnnotation,
>)
    requires
        para_start <= para_end,
    ensures
        annotations_are(
            r@,
            span_annotations(formatting.spans@, text::strings(formatting.color_table@), para_start, para_end)
                + link_annotations(link_views(formatting.hyperlinks@), para_start, para_end),
        ),
{
    let mut annotations: Vec<TextAnnotation> = Vec::new();
    let ghost colors = text::strings(formatting.color_table@);
    let mut i: usize = 0;
    while i < formatting.spans.len()
        invariant
            para_start <= para_end,
            i <= formatting.spans.len(),
            colors == text::strings(formatting.color_table@),
            annotations_are(
                annotations@,
                span_annotations(formatting.spans@.take(i as int), colors, para_start, para_end),
            ),
        decreases formatting.spans.len() - i,
    {
        let span = &formatting.spans[i];
        let ghost marks = span_annotations(formatting.spans@.take(i as int), colors, para_start, para_end);
        proof {
            assert(formatting.spans@.take(i + 1).drop_last() =~= formatting.spans@.take(i as int));
            assert(marks + Seq::<(u32, u32, Mark)>::empty() =~= marks);
        }
        if span.end > para_start && span.start < para_end {
            let first: usize = if span.start > para_start { span.start - para_start } else { 0 };
            let last: usize = if span.end < para_end { span.end - para_start } else { para_end - para_start };
            if first < last {
                push_span_annotations(
                    &mut annotations,
                    span,
                    first,
                    last,
                    formatting.color_table.as_slice(),
                    Ghost(marks),
                );
            }
        }
        i = i + 1;
    }
    let ghost from_spans = span_annotations(formatting.spans@, colors, para_start, para_end);
    let ghost links = link_views(formatting.hyperlinks@);
    let mut j: usize = 0;
    proof {
        assert(formatting.spans@.take(formatting.spans@.len() as int) =~= formatting.spans@);
        assert(from_spans + link_annotations(links.take(0), para_start, para_end) =~= from_spans);
    }
    while j < formatting.hyperlinks.len()
        invariant
            para_start <= para_end,
            j <= formatting.hyperlinks.len(),
            links == link_views(formatting.hyperlinks@),
            annotations_are(
                annotations@,
                from_spans + link_annotations(links.take(j as int), para_start, para_end),
            ),
        decreases formatting.hyperlinks.len() - j,
    {
        let link = &formatting.hyperlinks[j];
        let ghost before = link_annotations(links.take(j as int), para_start, para_end);
        proof {
            assert(links.take(j + 1).drop_last() =~= links.take(j as int));
            assert(links.take(j + 1).last() == (link.0, link.1, link.2@));
        }
        if link.1 > para_start && link.0 < para_end {
            let first: usize = if link.0 > para_start { link.0 - para_start } else { 0 };
            let last: usize = if link.1 < para_end { link.1 - para_start } else { para_end - para_start };
            let start: u32 = to_annotation_offset(first);
            let end: u32 = to_annotation_offset(last);
            if start < end {
                push_annotation(
                    &mut annotations,
                    start,
                    end,
                    AnnotationKind::Link { url: link.2.clone(), title: None },
                    Ghost(from_spans + before),
                    Ghost(Mark::Link(link.2@)),
                );
                proof {
                    assert((from_spans + before).push((start, end, Mark::Link(link.2@))) =~= from_spans + before.push(
                        (start, end, Mark::Link(link.2@)),
                    ));
                }
            }
        }
        j = j + 1;
    }
    proof {
        assert(links.take(links.len() as int) =~= links);
    }
    annotations
}

/// Whether annotations are non-empty and lie within a width.
pub open spec fn lie_within(marks: Seq<(u32, u32, Mark)>, width: int) -> bool {
    forall|i: int| 0 <= i < marks.len() ==> (#[trigger] marks[i]).0 < marks[i].1 && marks[i].1 <= width
}

#[verifier::spinoff_prover]
proof fn lemma_span_annotations_lie_within(
    spans: Seq<RtfFormattingSpan>,
    colors: Seq<Seq<char>>,
    para_start: usize,
    para_end: usize,
)
    requires
        para_start <= para_end,
        para_end - para_start <= u32::MAX,
    ensures
        lie_within(span_annotations(spans, colors, para_start, para_end), para_end - para_start),
    decreases spans.len(),
{
    if spans.len() > 0 {
        lemma_span_annotations_lie_within(spans.drop_last(), colors, para_start, para_end);
    }
}

#[verifier::spinoff_prover]
proof fn lemma_link_annotations_lie_within(
    links: Seq<(usize, usize, Seq<char>)>,
    para_start: usize,
    para_end: usize,
)
    requires
        para_start <= para_end,
        para_end - para_start <= u32::MAX,
    ensures
        lie_within(link_annotations(links, para_start, para_end), para_end - para_start),
    decreases links.len(),
{
    if links.len() > 0 {
        lemma_link_annotations_lie_within(links.drop_last(), para_start, para_end);
    }
}

/// The annotations of a paragraph shorter than four gigabytes are non-empty and lie within it.
pub proof fn law_annotations_lie_within_the_paragraph(
    spans: Seq<RtfFormattingSpan>,
    colors: Seq<Seq<char>>,
    links: Seq<(usize, usize, Seq<char>)>,
    para_start: usize,
    para_end: usize,
)
    requires
        para_start <= para_end,
        para_end - para_start <= u32::MAX,
    ensures
        lie_within(
            span_annotations(spans, colors, para_start, para_end) + link_annotations(links, para_start, para_end),
            para_end - para_start,
        ),
{
    lemma_span_annotations_lie_within(spans, colors, para_start, para_end);
    lemma_link_annotations_lie_within(links, para_start, para_end);
}

} // verus!
