//! Word 97-2003 documents: from paragraphs to headings, paragraphs and lists.
use crate::document;
use crate::document::{ElementKind, InternalDocument, Metadata, ProcessingWarning};
use crate::error::XbergError;
use crate::json;
use crate::json::{push_member, JsonValue};
use crate::plugin::package_version;
use crate::text;
use crate::text::{chars_of, contains_char, split_str, str_byte_len, string_of, trim, trimmed_string};
use vstd::prelude::*;

verus! {

/// The list that a paragraph belongs to.
#[derive(Clone, Copy, Debug, PartialEq, Eq, Structural)]
pub struct ListBinding {
    /// How deeply it is nested; the outermost level is zero.
    pub level: u8,
    /// Whether its items are numbered.
    pub ordered: bool,
}

/// A paragraph.
#[derive(Clone, Debug)]
pub struct DocParagraph {
    /// Its text.
    pub content: String,
    /// The list that it belongs to.
    pub list: Option<ListBinding>,
    /// The level of the heading style that it has.
    pub heading_level: Option<u8>,
}

/// A paragraph, with its text as a sequence.
pub struct Para {
    /// Its text, without the white space around it.
    pub text: Seq<char>,
    /// The list that it belongs to.
    pub list: Option<ListBinding>,
    /// The level of the heading style that it has.
    pub heading_level: Option<u8>,
}

impl View for DocParagraph {
    type V = Para;

    open spec fn view(&self) -> Para {
        Para { text: text::trimmed(self.content@), list: self.list, heading_level: self.heading_level }
    }
}

/// The paragraphs of a document, with their texts as sequences.
pub open spec fn paras(v: Seq<DocParagraph>) -> Seq<Para> {
    v.map_values(|p: DocParagraph| p@)
}

/// What a document says of itself.
#[derive(Clone, Debug)]
pub struct DocMetadata {
    /// Its title.
    pub title: Option<String>,
    /// Its subject.
    pub subject: Option<String>,
    /// Its author.
    pub author: Option<String>,
    /// Who last changed it.
    pub last_author: Option<String>,
    /// How often it was saved.
    pub revision_number: Option<String>,
}

/// What a reader of the binary format makes of a document.
#[derive(Clone, Debug)]
pub struct DocText {
    /// Its text.
    pub content: String,
    /// Its paragraphs, where the format tells them apart.
    pub paragraphs: Vec<DocParagraph>,
    /// What it says of itself.
    pub metadata: DocMetadata,
    /// What went less than perfectly.
    pub processing_warnings: Vec<ProcessingWarning>,
}

/// Whether a text looks like a heading: one short line that does not end like a sentence, followed by
/// something longer.
pub open spec fn heading_shaped(t: Seq<char>, next: Option<Seq<char>>) -> bool {
    &&& !t.contains('\n')
    &&& text::byte_len(t) <= 80
    &&& !(t.len() > 0 && (t.last() == '.' || t.last() == ':' || t.last() == ';'))
    &&& next is Some && next->0.len() > 0 && text::byte_len(next->0) > text::byte_len(t)
}

/// Whether a text looks like a heading.
pub fn looks_like_heading(t: &str, next: Option<&str>) -> (r: bool)
    ensures
        r == heading_shaped(
            t@,
            match next {
                Some(n) => Some(n@),
                None => None,
            },
        ),
{
    let letters = chars_of(t);
    let ends = letters.len() > 0 && (letters[letters.len() - 1] == '.' || letters[letters.len() - 1] == ':'
        || letters[letters.len() - 1] == ';');
    let longer = match next {
        Some(n) => !n.is_empty() && str_byte_len(n) > str_byte_len(t),
        None => false,
    };
    !contains_char(letters.as_slice(), '\n') && str_byte_len(t) <= 80 && !ends && longer
}

/// The element of a chunk, given the one after it; a blank chunk has none.
pub open spec fn with_chunk(c: document::Content, chunks: Seq<Seq<char>>, i: int) -> document::Content {
    let t = text::trimmed(chunks[i]);
    let next = if i + 1 < chunks.len() && text::trimmed(chunks[i + 1]).len() > 0 {
        Some(text::trimmed(chunks[i + 1]))
    } else {
        None
    };
    if t.len() == 0 {
        c
    } else if heading_shaped(t, next) {
        c.with_element(document::bare(ElementKind::Heading { level: 2 }, t, 0))
    } else {
        c.with_element(document::bare(ElementKind::Paragraph, t, 0))
    }
}

/// A document with the first chunks.
pub open spec fn with_chunks(c: document::Content, chunks: Seq<Seq<char>>, n: int) -> document::Content
    decreases n,
{
    if n <= 0 {
        c
    } else {
        with_chunk(with_chunks(c, chunks, n - 1), chunks, n - 1)
    }
}

/// The chunks of a text that empty lines separate, as elements.
pub open spec fn with_blank_line_chunks(c: document::Content, content: Seq<char>) -> document::Content {
    let chunks = text::split_by(content, "\n\n"@);
    with_chunks(c, chunks, chunks.len() as int)
}

/// Appends the chunks of a text that empty lines separate.
pub fn push_blank_line_chunks(doc: &mut InternalDocument, content: &str)
    ensures
        final(doc)@ == with_blank_line_chunks(old(doc)@, content@),
        final(doc).metadata == old(doc).metadata,
{
    proof {
        reveal_strlit("\n\n");
    }
    let chunks = split_str(chars_of(content).as_slice(), "\n\n");
    let ghost all = text::texts(chunks@);
    let mut i: usize = 0;
    while i < chunks.len()
        invariant
            i <= chunks.len(),
            all == text::texts(chunks@),
            doc@ == with_chunks(old(doc)@, all, i as int),
            doc.metadata == old(doc).metadata,
        decreases chunks.len() - i,
    {
        let t = string_of(trim(chunks[i].as_slice()));
        proof {
            assert(all[i as int] == chunks@[i as int]@);
        }
        if !t.as_str().is_empty() {
            let after = if i + 1 < chunks.len() {
                proof {
                    assert(all[i + 1] == chunks@[i + 1]@);
                }
                string_of(trim(chunks[i + 1].as_slice()))
            } else {
                String::new()
            };
            let next = if after.as_str().is_empty() {
                None
            } else {
                Some(after.as_str())
            };
            if looks_like_heading(t.as_str(), next) {
                doc.push_text(ElementKind::Heading { level: 2 }, t, 0);
            } else {
                doc.push_text(ElementKind::Paragraph, t, 0);
            }
        }
        i = i + 1;
    }
}

/// A depth within the range that elements have.
pub open spec fn element_depth(n: nat) -> u16 {
    if n <= u16::MAX {
        n as u16
    } else {
        u16::MAX
    }
}

fn capped_depth(n: usize) -> (r: u16)
    ensures
        r == element_depth(n as nat),
{
    if n <= 0xffff {
        n as u16
    } else {
        u16::MAX
    }
}

/// A document and the kinds of the lists that are open in it, outermost first.
#[verifier::ext_equal]
pub struct Outline {
    /// The document.
    pub content: document::Content,
    /// Whether each open list is numbered.
    pub open: Seq<bool>,
}

impl Outline {
    /// With lists closed until only so many are open.
    pub open spec fn closed_to(self, target: nat) -> Outline
        decreases self.open.len(),
    {
        if self.open.len() <= target {
            self
        } else {
            let rest = self.open.drop_last();
            Outline {
                content: self.content.with_element(
                    document::bare(ElementKind::ListEnd, Seq::empty(), element_depth(rest.len())),
                ),
                open: rest,
            }.closed_to(target)
        }
    }

    /// With lists of a kind opened until so many are open.
    pub open spec fn opened_to(self, target: nat, ordered: bool) -> Outline
        decreases target - self.open.len(),
    {
        if self.open.len() >= target {
            self
        } else {
            Outline {
                content: self.content.with_element(
                    document::bare(ElementKind::ListStart { ordered }, Seq::empty(), element_depth(self.open.len())),
                ),
                open: self.open.push(ordered),
            }.opened_to(target, ordered)
        }
    }

    /// With lists closed and opened so that an item of a list can follow. A list of the other kind at
    /// the same depth gives way.
    pub open spec fn ready_for(self, list: ListBinding) -> Outline {
        let depth = (list.level + 1) as nat;
        let closed = self.closed_to(depth);
        let fitting = if closed.open.len() == depth && closed.open.last() != list.ordered {
            closed.closed_to((depth - 1) as nat)
        } else {
            closed
        };
        fitting.opened_to(depth, list.ordered)
    }

    /// With one more element.
    pub open spec fn with(self, e: document::Element) -> Outline {
        Outline { content: self.content.with_element(e), ..self }
    }
}

/// Whether some paragraph that is no item of a list has a heading style.
pub open spec fn uses_heading_styles(paragraphs: Seq<Para>) -> bool {
    exists|i: int|
        0 <= i < paragraphs.len() && (#[trigger] paragraphs[i]).heading_level is Some && paragraphs[i].list is None
}

/// The level of the heading that a paragraph is, if it is one: by its style where the document uses
/// heading styles, and else by its shape.
pub open spec fn heading_of(paragraphs: Seq<Para>, i: int, styled: bool) -> Option<u8> {
    if styled {
        paragraphs[i].heading_level
    } else {
        let next = if i + 1 < paragraphs.len() && paragraphs[i + 1].text.len() > 0 {
            Some(paragraphs[i + 1].text)
        } else {
            None
        };
        if heading_shaped(paragraphs[i].text, next) {
            Some(2)
        } else {
            None
        }
    }
}

/// A document with one more paragraph; a blank one adds nothing.
pub open spec fn with_paragraph(o: Outline, paragraphs: Seq<Para>, i: int, styled: bool) -> Outline {
    let p = paragraphs[i];
    if p.text.len() == 0 {
        o
    } else {
        match p.list {
            None => o.closed_to(0).with(
                document::bare(
                    match heading_of(paragraphs, i, styled) {
                        Some(level) => ElementKind::Heading { level },
                        None => ElementKind::Paragraph,
                    },
                    p.text,
                    0,
                ),
            ),
            Some(list) => {
                let ready = o.ready_for(list);
                ready.with(
                    document::bare(
                        ElementKind::ListItem { ordered: list.ordered },
                        p.text,
                        element_depth(ready.open.len()),
                    ),
                )
            },
        }
    }
}

/// A document with the first paragraphs.
pub open spec fn with_first_paragraphs(c: document::Content, paragraphs: Seq<Para>, n: int) -> Outline
    decreases n,
{
    if n <= 0 {
        Outline { content: c, open: Seq::empty() }
    } else {
        with_paragraph(
            with_first_paragraphs(c, paragraphs, n - 1),
            paragraphs,
            n - 1,
            uses_heading_styles(paragraphs),
        )
    }
}

/// A document with paragraphs, and every list closed.
pub open spec fn with_paragraphs(c: document::Content, paragraphs: Seq<Para>) -> document::Content {
    with_first_paragraphs(c, paragraphs, paragraphs.len() as int).closed_to(0).content
}

/// Closes lists until only so many are open.
pub fn close_lists(doc: &mut InternalDocument, open: &mut Vec<bool>, target: usize)
    ensures
        (Outline { content: final(doc)@, open: final(open)@ }) == (Outline {
            content: old(doc)@,
            open: old(open)@,
        }).closed_to(target as nat),
        final(doc).metadata == old(doc).metadata,
{
    let ghost wanted = (Outline { content: doc@, open: open@ }).closed_to(target as nat);
    while open.len() > target
        invariant
            wanted == (Outline { content: doc@, open: open@ }).closed_to(target as nat),
            doc.metadata == old(doc).metadata,
        decreases open.len(),
    {
        let ghost before = open@;
        open.pop();
        proof {
            assert(open@ =~= before.drop_last());
        }
        push_mark(doc, ElementKind::ListEnd, capped_depth(open.len()));
    }
}

fn push_mark(doc: &mut InternalDocument, kind: ElementKind, depth: u16)
    ensures
        final(doc)@ == old(doc)@.with_element(document::bare(kind, Seq::empty(), depth)),
        final(doc).metadata == old(doc).metadata,
{
    let empty = String::new();
    proof {
        assert(empty@ =~= Seq::<char>::empty());
    }
    doc.push_text(kind, empty, depth);
}

fn prepare_lists(doc: &mut InternalDocument, open: &mut Vec<bool>, list: ListBinding)
    ensures
        (Outline { content: final(doc)@, open: final(open)@ }) == (Outline {
            content: old(doc)@,
            open: old(open)@,
        }).ready_for(list),
        final(doc).metadata == old(doc).metadata,
{
    let depth: usize = list.level as usize + 1;
    close_lists(doc, open, depth);
    if open.len() == depth && open[depth - 1] != list.ordered {
        close_lists(doc, open, depth - 1);
    }
    let ghost wanted = (Outline { content: doc@, open: open@ }).opened_to(depth as nat, list.ordered);
    while open.len() < depth
        invariant
            wanted == (Outline { content: doc@, open: open@ }).opened_to(depth as nat, list.ordered),
            doc.metadata == old(doc).metadata,
        decreases depth - open.len(),
    {
        push_mark(doc, ElementKind::ListStart { ordered: list.ordered }, capped_depth(open.len()));
        open.push(list.ordered);
    }
}

/// The level of the heading that a paragraph is, if it is one.
pub fn heading_kind(paragraphs: &[DocParagraph], index: usize, styled_headings: bool) -> (r: Option<u8>)
    requires
        index < paragraphs@.len(),
    ensures
        r == heading_of(paras(paragraphs@), index as int, styled_headings),
{
    let ghost all = paras(paragraphs@);
    if styled_headings {
        return paragraphs[index].heading_level;
    }
    let after = if paragraphs.len() - index > 1 {
        proof {
            assert(all[index + 1] == paragraphs@[index + 1]@);
        }
        trimmed_string(paragraphs[index + 1].content.as_str())
    } else {
        String::new()
    };
    let next = if after.as_str().is_empty() {
        None
    } else {
        Some(after.as_str())
    };
    if looks_like_heading(trimmed_string(paragraphs[index].content.as_str()).as_str(), next) {
        Some(2)
    } else {
        None
    }
}

fn find_heading_styles(paragraphs: &[DocParagraph]) -> (r: bool)
    ensures
        r == uses_heading_styles(paras(paragraphs@)),
{
    let ghost all = paras(paragraphs@);
    let mut i: usize = 0;
    while i < paragraphs.len()
        invariant
            i <= paragraphs.len(),
            all == paras(paragraphs@),
            forall|k: int| 0 <= k < i ==> (#[trigger] all[k]).heading_level is None || all[k].list is Some,
        decreases paragraphs.len() - i,
    {
        proof {
            assert(all[i as int] == paragraphs@[i as int]@);
        }
        if paragraphs[i].heading_level.is_some() && paragraphs[i].list.is_none() {
            return true;
        }
        i = i + 1;
    }
    false
}

/// Appends paragraphs: an item of a list inside as many lists as its level asks for, any other one as
/// a heading or a paragraph.
pub fn push_paragraph_elements(doc: &mut InternalDocument, paragraphs: &[DocParagraph])
    ensures
        final(doc)@ == with_paragraphs(old(doc)@, paras(paragraphs@)),
        final(doc).metadata == old(doc).metadata,
{
    let ghost all = paras(paragraphs@);
    let styled = find_heading_styles(paragraphs);
    let mut open: Vec<bool> = Vec::new();
    let mut i: usize = 0;
    proof {
        assert(open@ =~= Seq::<bool>::empty());
    }
    while i < paragraphs.len()
        invariant
            i <= paragraphs.len(),
            all == paras(paragraphs@),
            styled == uses_heading_styles(all),
            (Outline { content: doc@, open: open@ }) == with_first_paragraphs(old(doc)@, all, i as int),
            doc.metadata == old(doc).metadata,
        decreases paragraphs.len() - i,
    {
        let t = trimmed_string(paragraphs[i].content.as_str());
        proof {
            assert(all[i as int] == paragraphs@[i as int]@);
        }
        if !t.as_str().is_empty() {
            match paragraphs[i].list {
                None => {
                    close_lists(doc, &mut open, 0);
                    let kind = match heading_kind(paragraphs, i, styled) {
                        Some(level) => ElementKind::Heading { level },
                        None => ElementKind::Paragraph,
                    };
                    doc.push_text(kind, t, 0);
                },
                Some(list) => {
                    prepare_lists(doc, &mut open, list);
                    doc.push_text(ElementKind::ListItem { ordered: list.ordered }, t, capped_depth(open.len()));
                },
            }
        }
        i = i + 1;
    }
    close_lists(doc, &mut open, 0);
}

/// Whether no list is closed that was not opened.
pub open spec fn never_overclosed(elements: Seq<document::Element>) -> bool {
    forall|n: int| 0 <= n <= elements.len() ==> document::open_lists(#[trigger] elements.take(n)) >= 0
}

/// Whether the lists that are said to be open are.
pub open spec fn keeps_count(o: Outline) -> bool {
    document::open_lists(o.content.elements) == o.open.len() && never_overclosed(o.content.elements)
}

proof fn lemma_with_counts(o: Outline, e: document::Element)
    requires
        never_overclosed(o.content.elements),
        document::open_lists(o.content.elements.push(e)) >= 0,
    ensures
        document::open_lists(o.content.elements.push(e)) == document::open_lists(o.content.elements) + match e.kind {
            ElementKind::ListStart { .. } => 1int,
            ElementKind::ListEnd => -1,
            _ => 0,
        },
        never_overclosed(o.content.elements.push(e)),
{
    let before = o.content.elements;
    let after = before.push(e);
    assert(after.drop_last() =~= before);
    assert forall|n: int| 0 <= n <= after.len() implies document::open_lists(#[trigger] after.take(n)) >= 0 by {
        if n <= before.len() {
            assert(after.take(n) =~= before.take(n));
        } else {
            assert(after.take(n) =~= after);
        }
    }
}

proof fn lemma_closing_counts(o: Outline, target: nat)
    requires
        keeps_count(o),
    ensures
        keeps_count(o.closed_to(target)),
        o.closed_to(target).open.len() <= target || o.closed_to(target).open.len() <= o.open.len(),
        o.open.len() >= target ==> o.closed_to(target).open.len() == target,
        o.open.len() <= target ==> o.closed_to(target) == o,
    decreases o.open.len(),
{
    if o.open.len() > target {
        let rest = o.open.drop_last();
        let e = document::bare(ElementKind::ListEnd, Seq::empty(), element_depth(rest.len()));
        assert(o.content.elements.push(e).drop_last() =~= o.content.elements);
        lemma_with_counts(o, e);
        lemma_closing_counts(Outline { content: o.content.with_element(e), open: rest }, target);
    }
}

proof fn lemma_opening_counts(o: Outline, target: nat, ordered: bool)
    requires
        keeps_count(o),
    ensures
        keeps_count(o.opened_to(target, ordered)),
    decreases target - o.open.len(),
{
    if o.open.len() < target {
        let e = document::bare(ElementKind::ListStart { ordered }, Seq::empty(), element_depth(o.open.len()));
        assert(o.content.elements.push(e).drop_last() =~= o.content.elements);
        lemma_with_counts(o, e);
        lemma_opening_counts(
            Outline { content: o.content.with_element(e), open: o.open.push(ordered) },
            target,
            ordered,
        );
    }
}

proof fn lemma_paragraphs_count(c: document::Content, paragraphs: Seq<Para>, n: int)
    requires
        0 <= n <= paragraphs.len(),
        document::open_lists(c.elements) == 0,
        never_overclosed(c.elements),
    ensures
        keeps_count(with_first_paragraphs(c, paragraphs, n)),
    decreases n,
{
    if n > 0 {
        lemma_paragraphs_count(c, paragraphs, n - 1);
        let o = with_first_paragraphs(c, paragraphs, n - 1);
        let styled = uses_heading_styles(paragraphs);
        let p = paragraphs[n - 1];
        if p.text.len() > 0 {
            match p.list {
                None => {
                    lemma_closing_counts(o, 0);
                    let kind = match heading_of(paragraphs, n - 1, styled) {
                        Some(level) => ElementKind::Heading { level },
                        None => ElementKind::Paragraph,
                    };
                    let e = document::bare(kind, p.text, 0);
                    let ready = o.closed_to(0);
                    assert(ready.content.elements.push(e).drop_last() =~= ready.content.elements);
                    lemma_with_counts(ready, e);
                },
                Some(list) => {
                    let depth = (list.level + 1) as nat;
                    lemma_closing_counts(o, depth);
                    let closed = o.closed_to(depth);
                    lemma_closing_counts(closed, (depth - 1) as nat);
                    let fitting = if closed.open.len() == depth && closed.open.last() != list.ordered {
                        closed.closed_to((depth - 1) as nat)
                    } else {
                        closed
                    };
                    lemma_opening_counts(fitting, depth, list.ordered);
                    let ready = o.ready_for(list);
                    let e = document::bare(
                        ElementKind::ListItem { ordered: list.ordered },
                        p.text,
                        element_depth(ready.open.len()),
                    );
                    assert(ready.content.elements.push(e).drop_last() =~= ready.content.elements);
                    lemma_with_counts(ready, e);
                },
            }
        }
    }
}

/// Every list that is opened is closed, and none is closed that was not opened.
pub proof fn law_lists_are_balanced(c: document::Content, paragraphs: Seq<Para>)
    requires
        document::open_lists(c.elements) == 0,
        never_overclosed(c.elements),
    ensures
        document::open_lists(with_paragraphs(c, paragraphs).elements) == 0,
        never_overclosed(with_paragraphs(c, paragraphs).elements),
{
    let n = paragraphs.len() as int;
    lemma_paragraphs_count(c, paragraphs, n);
    lemma_closing_counts(with_first_paragraphs(c, paragraphs, n), 0);
}

/// Whether metadata say what a document says of itself.
pub open spec fn describes_doc(m: Metadata, source: DocMetadata) -> bool {
    &&& document::opt_text(m.title) == document::opt_text(source.title)
    &&& document::opt_text(m.subject) == document::opt_text(source.subject)
    &&& document::opt_text(m.created_by) == document::opt_text(source.author)
    &&& document::opt_texts(m.authors) == match source.author {
        Some(author) => Some(seq![author@]),
        None => None,
    }
    &&& document::opt_text(m.modified_by) == document::opt_text(source.last_author)
    &&& m.keywords is None
    &&& m.language is None
    &&& m.created_at is None
    &&& m.modified_at is None
    &&& m.format is None
    &&& json::members(m.additional@) == match source.revision_number {
        Some(revision) => seq![
            ("revision"@, json::Json::Text(revision@)),
            ("extraction_method"@, json::Json::Text("native_ole"@)),
        ],
        None => seq![("extraction_method"@, json::Json::Text("native_ole"@))],
    }
}

/// What a document says of itself, as metadata.
pub fn build_metadata(source: DocMetadata) -> (r: Metadata)
    ensures
        describes_doc(r, source),
{
    let mut additional: Vec<(String, JsonValue)> = Vec::new();
    proof {
        assert(json::members(additional@) =~= Seq::empty());
    }
    if let Some(revision) = source.revision_number {
        push_member(&mut additional, "revision", JsonValue::Text(revision));
    }
    push_member(&mut additional, "extraction_method", JsonValue::Text("native_ole".to_owned()));
    proof {
        assert(json::members(additional@) =~= match source.revision_number {
            Some(revision) => seq![
                ("revision"@, json::Json::Text(revision@)),
                ("extraction_method"@, json::Json::Text("native_ole"@)),
            ],
            None => seq![("extraction_method"@, json::Json::Text("native_ole"@))],
        });
    }
    let (authors, created_by) = match source.author {
        Some(author) => {
            let list = vec![author.clone()];
            proof {
                assert(text::strings(list@) =~= seq![author@]);
            }
            (Some(list), Some(author))
        },
        None => (None, None),
    };
    Metadata {
        title: source.title,
        subject: source.subject,
        authors,
        keywords: None,
        language: None,
        created_at: None,
        modified_at: None,
        created_by,
        modified_by: source.last_author,
        format: None,
        additional,
    }
}

/// The content of a document.
pub open spec fn doc_content(result: DocText, mime_type: Seq<char>) -> document::Content {
    let opened = document::Content {
        mime_type,
        warnings: document::warnings(result.processing_warnings@),
        ..document::empty_content("doc"@)
    };
    if result.paragraphs@.len() == 0 {
        with_blank_line_chunks(opened, result.content@)
    } else {
        with_paragraphs(opened, paras(result.paragraphs@))
    }
}

/// Reads Word 97-2003 documents.
#[derive(Clone, Copy, Debug)]
pub struct DocExtractor;

impl Default for DocExtractor {
    fn default() -> (r: Self)
        ensures
            r == DocExtractor,
    {
        DocExtractor
    }
}

impl DocExtractor {
    /// The reader.
    pub fn new() -> (r: Self)
        ensures
            r == DocExtractor,
    {
        DocExtractor
    }

    /// Its name.
    pub fn name(&self) -> (r: &'static str)
        ensures
            r@ == "doc-extractor"@,
    {
        "doc-extractor"
    }

    /// Its version, which is that of the package.
    pub fn version(&self) -> (r: String)
        ensures
            r@ == "1.0.0"@,
    {
        package_version()
    }

    /// Makes it ready; there is nothing to do.
    pub fn initialize(&self) -> (r: Result<(), XbergError>)
        ensures
            r == (Ok::<(), XbergError>(())),
    {
        Ok(())
    }

    /// Lays it down; there is nothing to do.
    pub fn shutdown(&self) -> (r: Result<(), XbergError>)
        ensures
            r == (Ok::<(), XbergError>(())),
    {
        Ok(())
    }

    /// What it does.
    pub fn description(&self) -> (r: &'static str)
        ensures
            r@ == "Native DOC text extraction via OLE/CFB parsing"@,
    {
        "Native DOC text extraction via OLE/CFB parsing"
    }

    /// Who wrote it.
    pub fn author(&self) -> (r: &'static str)
        ensures
            r@ == "Xberg Team"@,
    {
        "Xberg Team"
    }

    /// The media types that it reads.
    pub fn supported_mime_types(&self) -> (r: Vec<&'static str>)
        ensures
            r@ == seq![
                "application/msword",
            ],
    {
        vec![
            "application/msword",
        ]
    }

    /// Its rank among the readers of a media type.
    pub fn priority(&self) -> (r: i32)
        ensures
            r == 60,
    {
        60
    }
}

impl DocExtractor {
    /// The document of what a reader of the binary format found.
    pub fn extract_text(&self, result: DocText, mime_type: &str) -> (r: InternalDocument)
        ensures
            r@ == doc_content(result, mime_type@),
            describes_doc(r.metadata, result.metadata),
    {
        let mut doc = InternalDocument::new("doc");
        doc.mime_type = mime_type.to_owned();
        doc.processing_warnings = result.processing_warnings;
        doc.metadata = build_metadata(result.metadata);
        proof {
            assert(doc@ =~= document::Content {
                mime_type: mime_type@,
                warnings: document::warnings(result.processing_warnings@),
                ..document::empty_content("doc"@)
            });
        }
        if result.paragraphs.len() == 0 {
            push_blank_line_chunks(&mut doc, result.content.as_str());
        } else {
            push_paragraph_elements(&mut doc, result.paragraphs.as_slice());
        }
        doc
    }
}

} // verus!
