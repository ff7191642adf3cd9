//! XML documents: elements become headings, their texts paragraphs.
use crate::config::{ExtractionConfig, OutputFormat};
use crate::diagnostics;
use crate::diagnostics::{
    push_lossy_decode_warning, push_truncated_parse_warning, push_unclosed_elements_warning,
};
use crate::document;
use crate::document::{
    ElementKind, FormatMetadata, InternalDocument, InternalElement, Metadata, XmlMetadata,
};
use crate::encoding;
use crate::encoding::decode_labelled;
use crate::error;
use crate::error::{security_error, XbergError};
use crate::plugin::package_version;
use crate::security;
use crate::security::{Ledger, SecurityBudget};
use crate::text;
use crate::text::{
    chars_of, contains_string, find_char, find_from, has_prefix, same_str, string_of, trimmed_string, white,
};
use quick_xml::events::Event;
use vstd::prelude::*;
use vstd::slice::slice_subrange;

verus! {

/// What an XML parser has come across.
#[derive(Clone, Copy, Debug, PartialEq, Eq, Structural)]
pub enum XmlEventKind {
    /// A start tag.
    Start,
    /// An end tag.
    End,
    /// The tag of an element without content.
    Empty,
    /// Character data.
    Text,
    /// A section of character data.
    CData,
    /// A reference to an entity or a character.
    Reference,
    /// Anything else.
    Other,
    /// Something that is not well formed.
    Malformed,
    /// The end of the document.
    Eof,
}

/// What an XML parser has come across, with its text: what stands between the brackets of a tag, the
/// character data, the name of a reference, or the reason why something is not well formed.
#[derive(Clone, Debug)]
pub struct XmlEvent {
    /// What it is.
    pub kind: XmlEventKind,
    /// Its text.
    pub text: String,
}

impl View for XmlEvent {
    type V = (XmlEventKind, Seq<char>);

    open spec fn view(&self) -> (XmlEventKind, Seq<char>) {
        (self.kind, self.text@)
    }
}

/// The parser of the `quick_xml` crate.
#[verifier::external_type_specification]
#[verifier::external_body]
#[verifier::reject_recursive_types(R)]
pub struct ExXmlReader<R>(quick_xml::Reader<R>);

/// What `quick_xml` comes across in a text, without checking the names of end tags, up to the end or
/// the first thing that is not well formed. The end itself is not listed.
pub uninterp spec fn xml_events(text: Seq<char>) -> Seq<(XmlEventKind, Seq<char>)>;

/// What a parser has yet to come across, up to the end or the first thing that is not well formed.
pub uninterp spec fn events_left(reader: quick_xml::Reader<&[u8]>) -> Seq<(XmlEventKind, Seq<char>)>;

/// `quick_xml::Reader::from_str` makes a parser that has the whole text before it; the names of end
/// tags are not checked.
#[verifier::external_body]
fn open_xml<'a>(text: &'a str) -> (r: quick_xml::Reader<&'a [u8]>)
    ensures
        events_left(r) == xml_events(text@),
{
    let mut reader = quick_xml::Reader::from_str(text);
    reader.config_mut().check_end_names = false;
    reader
}

/// `quick_xml::Reader::read_event` gives the next thing that the parser comes across, and the end when
/// there is nothing left. Nothing is promised of what follows something that is not well formed.
#[verifier::external_body]
fn next_event(reader: &mut quick_xml::Reader<&[u8]>) -> (r: XmlEvent)
    ensures
        (r.kind == XmlEventKind::Eof) == (events_left(*old(reader)).len() == 0),
        events_left(*old(reader)).len() > 0 ==> r@ == events_left(*old(reader))[0],
        events_left(*old(reader)).len() > 0 && r.kind != XmlEventKind::Malformed ==> events_left(*final(reader))
            == events_left(*old(reader)).skip(1),
{
    match reader.read_event() {
        Err(error) => XmlEvent { kind: XmlEventKind::Malformed, text: error.to_string() },
        Ok(event) => XmlEvent {
            kind: match &event {
                Event::Start(_) => XmlEventKind::Start,
                Event::End(_) => XmlEventKind::End,
                Event::Empty(_) => XmlEventKind::Empty,
                Event::Text(_) => XmlEventKind::Text,
                Event::CData(_) => XmlEventKind::CData,
                Event::GeneralRef(_) => XmlEventKind::Reference,
                Event::Eof => XmlEventKind::Eof, _ => XmlEventKind::Other,
            },
            text: String::from(&*event),
        },
    }
}

/// The attributes of a tag, as `quick_xml` reads them from the text of the tag, from an offset in
/// bytes on; `None` stands for one that it does not accept.
pub uninterp spec fn xml_attributes(tag: Seq<char>, offset: usize) -> Seq<Option<(Seq<char>, Seq<char>)>>;

/// The names and values of attributes.
pub open spec fn attribute_views(list: Seq<Option<(String, String)>>) -> Seq<Option<(Seq<char>, Seq<char>)>> {
    list.map_values(
        |a: Option<(String, String)>|
            match a {
                Some(pair) => Some((pair.0@, pair.1@)),
                None => None,
            },
    )
}

/// Whether a character starts, or the text ends, at an offset in bytes.
pub open spec fn is_boundary(s: Seq<char>, offset: usize) -> bool {
    exists|n: int| 0 <= n <= s.len() && text::byte_len(#[trigger] s.take(n)) == offset
}

/// `quick_xml::events::attributes::Attributes` reads the attributes of a tag one after the other; an
/// attribute that it does not accept, such as a repeated one, is an error of its own. It must not start
/// inside a character.
#[verifier::external_body]
fn attribute_list(tag: &str, offset: usize) -> (r: Vec<Option<(String, String)>>)
    requires
        is_boundary(tag@, offset),
    ensures
        attribute_views(r@) == xml_attributes(tag@, offset),
{
    let attributes = quick_xml::events::attributes::Attributes::new(tag, offset);
    attributes.map(|a| a.ok().map(|a| (a.key.as_ref().to_string(), a.value.to_string()))).collect()
}

/// What `quick_xml` puts in the place of the references of a text; `None` if one is unknown.
pub uninterp spec fn xml_unescaped(raw: Seq<char>) -> Option<Seq<char>>;

/// `quick_xml::escape::unescape` puts the characters that the predefined entities and the character
/// references stand for in their place, and fails on any other reference.
#[verifier::external_body]
fn unescape_xml(raw: &str) -> (r: Option<String>)
    ensures
        document::opt_text(r) == xml_unescaped(raw@),
{
    quick_xml::escape::unescape(raw).ok().map(|s| s.into_owned())
}

/// What stands for a reference: its characters, or the reference itself where it is unknown.
pub open spec fn resolved(name: Seq<char>) -> Seq<char> {
    let reference = "&"@ + name + ";"@;
    match xml_unescaped(reference) {
        Some(s) => s,
        None => reference,
    }
}

fn resolve_reference(name: &str) -> (r: String)
    ensures
        r@ == resolved(name@),
{
    let mut reference = "&".to_owned();
    reference.append(name);
    reference.append(";");
    match unescape_xml(reference.as_str()) {
        Some(s) => s,
        None => reference,
    }
}

/// Whether a character separates the name of a tag from its attributes.
pub open spec fn ends_name(c: char) -> bool {
    c == ' ' || c == '\t' || c == '\r' || c == '\n'
}

/// The name of a tag.
pub open spec fn tag_name(tag: Seq<char>) -> Seq<char>
    decreases tag.len(),
{
    if tag.len() == 0 || ends_name(tag[0]) {
        Seq::empty()
    } else {
        seq![tag[0]] + tag_name(tag.skip(1))
    }
}

fn name_of_tag(tag: &str) -> (r: String)
    ensures
        r@ == tag_name(tag@),
        exists|n: int| 0 <= n <= tag@.len() && r@ == #[trigger] tag@.take(n),
{
    let s = chars_of(tag);
    let mut n: usize = 0;
    proof {
        assert(s@.skip(0) =~= s@);
        assert(s@.take(0) + tag_name(s@) =~= tag_name(s@));
    }
    while n < s.len() && !(s[n] == ' ' || s[n] == '\t' || s[n] == '\r' || s[n] == '\n')
        invariant
            n <= s.len(),
            s@.take(n as int) + tag_name(s@.skip(n as int)) == tag_name(s@),
        decreases s.len() - n,
    {
        proof {
            assert(s@.skip(n as int).skip(1) =~= s@.skip(n + 1));
            let rest = tag_name(s@.skip(n + 1));
            assert(s@.take(n + 1) + rest =~= s@.take(n as int) + (seq![s@[n as int]] + rest));
        }
        n = n + 1;
    }
    proof {
        assert(s@.take(n as int) + Seq::<char>::empty() =~= s@.take(n as int));
        assert(s@.subrange(0, n as int) =~= s@.take(n as int));
    }
    string_of(slice_subrange(s.as_slice(), 0, n))
}

/// The attributes of a tag that hold more than white space, each charged to a ledger; nothing is
/// collected once a ceiling was exceeded.
pub open spec fn attributes_collected(l: Ledger, list: Seq<Option<(Seq<char>, Seq<char>)>>) -> (
    Ledger,
    Seq<(Seq<char>, Seq<char>)>,
)
    decreases list.len(),
{
    if list.len() == 0 {
        (l, Seq::empty())
    } else {
        let (before, found) = attributes_collected(l, list.drop_last());
        match list.last() {
            Some(pair) => {
                let checked = before.checked(pair.1);
                let value = text::trimmed(pair.1);
                if checked.verdict is Ok && value.len() > 0 {
                    (checked, found.push((pair.0, value)))
                } else {
                    (checked, found)
                }
            },
            None => (before, found),
        }
    }
}

/// Collects the attributes of a tag.
pub fn collect_attributes(ledger: &mut Ledger, list: &Vec<Option<(String, String)>>) -> (r: Vec<(String, String)>)
    ensures
        (*final(ledger), document::pairs(r@)) == attributes_collected(*old(ledger), attribute_views(list@)),
{
    let ghost all = attribute_views(list@);
    let mut out: Vec<(String, String)> = Vec::new();
    let mut i: usize = 0;
    proof {
        assert(document::pairs(out@) =~= Seq::empty());
    }
    while i < list.len()
        invariant
            i <= list.len(),
            all == attribute_views(list@),
            (*ledger, document::pairs(out@)) == attributes_collected(*old(ledger), all.take(i as int)),
        decreases list.len() - i,
    {
        proof {
            assert(all.take(i + 1).drop_last() =~= all.take(i as int));
            assert(all.take(i + 1).last() == all[i as int]);
        }
        if let Some(pair) = &list[i] {
            ledger.check_entity(pair.1.as_str());
            let value = trimmed_string(pair.1.as_str());
            if !ledger.failed() && !value.as_str().is_empty() {
                let entry = (pair.0.clone(), value);
                proof {
                    assert(document::pairs(out@.push(entry)) =~= document::pairs(out@).push((entry.0@, entry.1@)));
                }
                out.push(entry);
            }
        }
        i = i + 1;
    }
    proof {
        assert(all.take(all.len() as int) =~= all);
    }
    out
}

/// The heading level of a depth: the topmost level at the top, and no level below the sixth.
pub open spec fn level_of(depth: u16) -> u8 {
    if depth < 5 {
        (depth + 1) as u8
    } else {
        6
    }
}

/// The heading level of a depth.
pub fn heading_level(depth: u16) -> (r: u8)
    ensures
        r == level_of(depth),
        1 <= r <= 6,
{
    if depth < 5 {
        (depth + 1) as u8
    } else {
        6
    }
}

/// Where a walk through a document stands.
#[verifier::ext_equal]
pub struct Walk {
    /// The document so far.
    pub content: document::Content,
    /// The names of the open elements, outermost first.
    pub stack: Seq<Seq<char>>,
    /// How deeply the next element is nested.
    pub depth: u16,
    /// What the walk has cost.
    pub ledger: Ledger,
    /// The character data since the last tag, if there were any.
    pub text: Option<Seq<char>>,
    /// Whether the document is a drawing, of which only some texts count.
    pub is_svg: bool,
}

/// Whether an element of a drawing holds text.
pub open spec fn is_text_element(name: Seq<char>) -> bool {
    name == "text"@ || name == "tspan"@ || name == "title"@ || name == "desc"@ || name == "textPath"@
}

/// Whether text counts inside some elements.
pub open spec fn counts_inside(stack: Seq<Seq<char>>) -> bool {
    exists|i: int| 0 <= i < stack.len() && is_text_element(#[trigger] stack[i])
}

/// The heading of an element.
pub open spec fn element_heading(tag: Seq<char>, depth: u16, attributes: Seq<(Seq<char>, Seq<char>)>) -> document::Element {
    document::Element {
        attributes,
        ..document::bare(ElementKind::Heading { level: level_of(depth) }, tag_name(tag), depth)
    }
}

/// The offset in bytes of the end of the name of a tag.
pub open spec fn name_end(tag: Seq<char>) -> usize {
    text::byte_len(tag_name(tag)) as usize
}

impl Walk {
    /// With another ledger.
    pub open spec fn paid(self, ledger: Ledger) -> Walk {
        Walk { ledger, ..self }
    }

    /// With the heading of an element.
    pub open spec fn headed(self, tag: Seq<char>) -> Walk {
        let (ledger, attributes) = attributes_collected(self.ledger, xml_attributes(tag, name_end(tag)));
        if ledger.verdict is Err {
            self.paid(ledger)
        } else {
            Walk {
                content: self.content.with_element(element_heading(tag, self.depth, attributes)),
                ledger,
                ..self
            }
        }
    }

    /// After a start tag.
    pub open spec fn started(self, tag: Seq<char>) -> Walk {
        let headed = self.paid(self.ledger.entered()).headed(tag);
        if headed.ledger.verdict is Err {
            headed
        } else {
            Walk {
                stack: headed.stack.push(tag_name(tag)),
                depth: if headed.depth < u16::MAX {
                    (headed.depth + 1) as u16
                } else {
                    headed.depth
                },
                ..headed
            }
        }
    }

    /// After an end tag.
    pub open spec fn ended(self) -> Walk {
        if self.ledger.verdict is Err {
            self
        } else {
            Walk {
                stack: if self.stack.len() > 0 {
                    self.stack.drop_last()
                } else {
                    self.stack
                },
                depth: if self.depth > 0 {
                    (self.depth - 1) as u16
                } else {
                    0
                },
                ..self.paid(self.ledger.left())
            }
        }
    }

    /// With a text as a paragraph of a depth, if it holds more than white space.
    pub open spec fn with_paragraph(self, t: Seq<char>, depth: u16) -> Walk {
        let checked = self.paid(self.ledger.checked(t));
        let trimmed = text::trimmed(t);
        if checked.ledger.verdict is Err || trimmed.len() == 0 {
            checked
        } else {
            let charged = checked.paid(checked.ledger.accounted(trimmed));
            if charged.ledger.verdict is Err {
                charged
            } else {
                Walk {
                    content: charged.content.with_element(document::bare(ElementKind::Paragraph, trimmed, depth)),
                    ..charged
                }
            }
        }
    }

    /// After character data: they belong to the element around them.
    pub open spec fn with_characters(self, t: Seq<char>) -> Walk {
        if self.ledger.verdict is Err || (self.is_svg && !counts_inside(self.stack)) {
            self
        } else {
            self.with_paragraph(
                t,
                if self.depth > 0 {
                    (self.depth - 1) as u16
                } else {
                    0
                },
            )
        }
    }

    /// After the character data since the last tag, if there were any.
    pub open spec fn flushed(self) -> Walk {
        match self.text {
            Some(t) => Walk { text: None, ..self.paid(self.ledger.stepped()).with_characters(t) },
            None => self,
        }
    }

    /// With more character data.
    pub open spec fn with_more(self, t: Seq<char>) -> Walk {
        Walk {
            text: Some(
                match self.text {
                    Some(before) => before + t,
                    None => t,
                },
            ),
            ..self
        }
    }

    /// After something that the parser came across. Character data and references that follow each
    /// other count as one.
    pub open spec fn taken(self, event: (XmlEventKind, Seq<char>)) -> Walk {
        match event.0 {
            XmlEventKind::Text => self.with_more(event.1),
            XmlEventKind::Reference => self.with_more(resolved(event.1)),
            kind => {
                let flushed = self.flushed();
                let stepped = flushed.paid(flushed.ledger.stepped());
                match kind {
                    XmlEventKind::Start => stepped.started(event.1),
                    XmlEventKind::End => stepped.ended(),
                    XmlEventKind::Empty => stepped.headed(event.1),
                    XmlEventKind::CData => stepped.with_paragraph(event.1, stepped.depth),
                    XmlEventKind::Malformed => Walk {
                        content: stepped.content.with_warning(
                            "xml"@,
                            diagnostics::truncated_parse_message("the XML element tree"@, event.1),
                        ),
                        ..stepped
                    },
                    _ => stepped,
                }
            },
        }
    }

    /// After everything that the parser came across, up to the first thing that is not well formed.
    pub open spec fn walked(self, events: Seq<(XmlEventKind, Seq<char>)>) -> Walk
        decreases events.len(),
    {
        if events.len() == 0 {
            let flushed = self.flushed();
            flushed.paid(flushed.ledger.stepped())
        } else {
            let after = self.taken(events[0]);
            if events[0].0 == XmlEventKind::Malformed {
                after
            } else {
                after.walked(events.skip(1))
            }
        }
    }
}

/// A walk that has not begun.
pub open spec fn fresh_walk(content: document::Content, budget: SecurityBudget, is_svg: bool) -> Walk {
    Walk {
        content,
        stack: Seq::empty(),
        depth: 0,
        ledger: security::open_ledger(budget),
        text: None,
        is_svg,
    }
}

/// Walks through a document.
pub struct XmlTreeBuilder {
    /// The document so far.
    pub doc: InternalDocument,
    /// The names of the open elements, outermost first.
    pub element_stack: Vec<String>,
    /// How deeply the next element is nested.
    pub depth: u16,
    /// What the walk has cost.
    pub ledger: Ledger,
    /// The character data since the last tag, if there were any.
    pub text: Option<String>,
    /// Whether the document is a drawing, of which only some texts count.
    pub is_svg: bool,
}

impl View for XmlTreeBuilder {
    type V = Walk;

    open spec fn view(&self) -> Walk {
        Walk {
            content: self.doc@,
            stack: text::strings(self.element_stack@),
            depth: self.depth,
            ledger: self.ledger,
            text: document::opt_text(self.text),
            is_svg: self.is_svg,
        }
    }
}

impl XmlTreeBuilder {
    /// A walk that has not begun.
    pub fn new(doc: InternalDocument, budget: SecurityBudget, is_svg: bool) -> (r: Self)
        ensures
            r@ == fresh_walk(doc@, budget, is_svg),
            r.doc.metadata == doc.metadata,
    {
        let r = XmlTreeBuilder {
            doc,
            element_stack: Vec::new(),
            depth: 0,
            ledger: Ledger::new(budget),
            text: None,
            is_svg,
        };
        proof {
            assert(r@ =~= fresh_walk(doc@, budget, is_svg));
        }
        r
    }

    fn push_heading(&mut self, tag: &str)
        ensures
            final(self)@ == old(self)@.headed(tag@),
            final(self).doc.metadata == old(self).doc.metadata,
    {
        let name = name_of_tag(tag);
        let end = text::str_byte_len(name.as_str());
        assert(is_boundary(tag@, end));
        let list = attribute_list(tag, end);
        let attributes = collect_attributes(&mut self.ledger, &list);
        if !self.ledger.failed() {
            let mut element = InternalElement::text(
                ElementKind::Heading { level: heading_level(self.depth) },
                name,
                self.depth,
            );
            element.attributes = attributes;
            self.doc.push_element(element);
        }
    }

    /// Takes a start tag.
    pub fn on_start(&mut self, tag: &str)
        ensures
            final(self)@ == old(self)@.started(tag@),
            final(self).doc.metadata == old(self).doc.metadata,
    {
        self.ledger.enter();
        self.push_heading(tag);
        if !self.ledger.failed() {
            let name = name_of_tag(tag);
            proof {
                assert(text::strings(self.element_stack@.push(name)) =~= text::strings(self.element_stack@).push(
                    name@,
                ));
            }
            self.element_stack.push(name);
            if self.depth < u16::MAX {
                self.depth = self.depth + 1;
            }
        }
    }

    /// Takes an end tag.
    pub fn on_end(&mut self)
        ensures
            final(self)@ == old(self)@.ended(),
            final(self).doc.metadata == old(self).doc.metadata,
    {
        if !self.ledger.failed() {
            self.ledger.leave();
            let ghost before = self.element_stack@;
            self.element_stack.pop();
            proof {
                if before.len() > 0 {
                    assert(text::strings(self.element_stack@) =~= text::strings(before).drop_last());
                }
            }
            if self.depth > 0 {
                self.depth = self.depth - 1;
            }
        }
    }

    fn push_paragraph(&mut self, t: &str, depth: u16)
        ensures
            final(self)@ == old(self)@.with_paragraph(t@, depth),
            final(self).doc.metadata == old(self).doc.metadata,
    {
        self.ledger.check_entity(t);
        let trimmed = trimmed_string(t);
        if !self.ledger.failed() && !trimmed.as_str().is_empty() {
            self.ledger.account_text(trimmed.as_str());
            if !self.ledger.failed() {
                self.doc.push_text(ElementKind::Paragraph, trimmed, depth);
            }
        }
    }

    fn in_text_element(&self) -> (r: bool)
        ensures
            r == counts_inside(self@.stack),
    {
        let ghost all = text::strings(self.element_stack@);
        let mut i: usize = 0;
        while i < self.element_stack.len()
            invariant
                i <= self.element_stack.len(),
                all == text::strings(self.element_stack@),
                forall|k: int| 0 <= k < i ==> !is_text_element(#[trigger] all[k]),
            decreases self.element_stack.len() - i,
        {
            let name = self.element_stack[i].as_str();
            proof {
                assert(all[i as int] == name@);
            }
            if same_str(name, "text") || same_str(name, "tspan") || same_str(name, "title") || same_str(name, "desc")
                || same_str(name, "textPath") {
                return true;
            }
            i = i + 1;
        }
        false
    }

    /// Takes character data.
    pub fn on_text(&mut self, t: &str)
        ensures
            final(self)@ == old(self)@.with_characters(t@),
            final(self).doc.metadata == old(self).doc.metadata,
    {
        if self.ledger.failed() || (self.is_svg && !self.in_text_element()) {
            return;
        }
        let depth: u16 = if self.depth > 0 {
            self.depth - 1
        } else {
            0
        };
        self.push_paragraph(t, depth);
    }

    /// Takes the tag of an element without content.
    pub fn on_empty(&mut self, tag: &str)
        ensures
            final(self)@ == old(self)@.headed(tag@),
            final(self).doc.metadata == old(self).doc.metadata,
    {
        self.push_heading(tag);
    }

    /// Takes a section of character data.
    pub fn on_cdata(&mut self, t: &str)
        ensures
            final(self)@ == old(self)@.with_paragraph(t@, old(self)@.depth),
            final(self).doc.metadata == old(self).doc.metadata,
    {
        let depth: u16 = self.depth;
        self.push_paragraph(t, depth);
    }

    /// Notes that parsing stopped before the end.
    pub fn record_truncated_parse(&mut self, cause: &str)
        ensures
            final(self)@ == (Walk {
                content: old(self)@.content.with_warning(
                    "xml"@,
                    diagnostics::truncated_parse_message("the XML element tree"@, cause@),
                ),
                ..old(self)@
            }),
            final(self).doc.metadata == old(self).doc.metadata,
    {
        push_truncated_parse_warning(&mut self.doc, "xml", "the XML element tree", cause);
    }

    fn flush(&mut self)
        ensures
            final(self)@ == old(self)@.flushed(),
            final(self).doc.metadata == old(self).doc.metadata,
    {
        let mut waiting: Option<String> = None;
        std::mem::swap(&mut waiting, &mut self.text);
        if let Some(t) = waiting {
            self.ledger.step();
            self.on_text(t.as_str());
        }
    }

    fn add_characters(&mut self, more: &str)
        ensures
            final(self)@ == old(self)@.with_more(more@),
            final(self).doc.metadata == old(self).doc.metadata,
    {
        let mut waiting: Option<String> = None;
        std::mem::swap(&mut waiting, &mut self.text);
        self.text = match waiting {
            Some(before) => {
                let mut all = before;
                all.append(more);
                Some(all)
            },
            None => Some(more.to_owned()),
        };
    }

    fn take_event(&mut self, event: &XmlEvent)
        ensures
            final(self)@ == old(self)@.taken(event@),
            final(self).doc.metadata == old(self).doc.metadata,
    {
        match event.kind {
            XmlEventKind::Text => {
                self.add_characters(event.text.as_str());
            },
            XmlEventKind::Reference => {
                self.add_characters(resolve_reference(event.text.as_str()).as_str());
            },
            kind => {
                self.flush();
                self.ledger.step();
                match kind {
                    XmlEventKind::Start => self.on_start(event.text.as_str()),
                    XmlEventKind::End => self.on_end(),
                    XmlEventKind::Empty => self.on_empty(event.text.as_str()),
                    XmlEventKind::CData => self.on_cdata(event.text.as_str()),
                    XmlEventKind::Malformed => self.record_truncated_parse(event.text.as_str()),
                    _ => {},
                }
            },
        }
    }
}

/// Nothing is charged any more once a ceiling was exceeded.
proof fn lemma_attributes_stay(l: Ledger, list: Seq<Option<(Seq<char>, Seq<char>)>>)
    requires
        l.verdict is Err,
    ensures
        attributes_collected(l, list).0 == l,
    decreases list.len(),
{
    if list.len() > 0 {
        lemma_attributes_stay(l, list.drop_last());
    }
}

proof fn lemma_walk_stays(w: Walk, events: Seq<(XmlEventKind, Seq<char>)>)
    requires
        w.ledger.verdict is Err,
    ensures
        w.walked(events).ledger == w.ledger,
    decreases events.len(),
{
    if events.len() > 0 {
        let tag = events[0].1;
        lemma_attributes_stay(w.ledger, xml_attributes(tag, name_end(tag)));
        assert(w.taken(events[0]).ledger == w.ledger);
        if events[0].0 != XmlEventKind::Malformed {
            lemma_walk_stays(w.taken(events[0]), events.skip(1));
        }
    }
}

/// The first bytes of a document as characters.
pub open spec fn head_of(content: Seq<u8>) -> Seq<char> {
    Seq::new(
        if content.len() < 1024 {
            content.len()
        } else {
            1024
        },
        |i: int| content[i] as char,
    )
}

fn head_chars(content: &[u8]) -> (r: Vec<char>)
    ensures
        r@ == head_of(content@),
{
    let n: usize = if content.len() < 1024 {
        content.len()
    } else {
        1024
    };
    let mut out: Vec<char> = Vec::new();
    let mut i: usize = 0;
    while i < n
        invariant
            i <= n,
            n <= content.len(),
            n == head_of(content@).len(),
            out@ == head_of(content@).take(i as int),
        decreases n - i,
    {
        out.push(content[i] as char);
        proof {
            assert(head_of(content@).take(i + 1) =~= head_of(content@).take(i as int).push(head_of(content@)[i as int]));
        }
        i = i + 1;
    }
    proof {
        assert(head_of(content@).take(n as int) =~= head_of(content@));
    }
    out
}

/// The position after white space and equals signs.
pub open spec fn after_equals(s: Seq<char>, p: int) -> int
    decreases s.len() - p,
{
    if 0 <= p < s.len() && (text::is_white(s[p]) || s[p] == '=') {
        after_equals(s, p + 1)
    } else {
        p
    }
}

/// The encoding that a document declares in its first line.
pub open spec fn declared_encoding(head: Seq<char>) -> Option<Seq<char>> {
    if !text::occurs_at(head, "<?xml"@, 0) {
        None
    } else {
        match text::first_occurrence(head, "?>"@, 0) {
            None => None,
            Some(end) => encoding_in(head.take(end)),
        }
    }
}

/// The encoding that the first line of a document names.
pub open spec fn encoding_in(line: Seq<char>) -> Option<Seq<char>> {
    match text::first_occurrence(line, "encoding"@, 0) {
        None => None,
        Some(p) => {
            let q = after_equals(line, p + 8);
            if q < line.len() && (line[q] == '"' || line[q] == '\'') {
                match text::position_of(line, line[q], q + 1) {
                    Some(e) => Some(line.subrange(q + 1, e)),
                    None => None,
                }
            } else {
                None
            }
        },
    }
}

fn find_encoding_in(line: &[char]) -> (r: Option<String>)
    ensures
        document::opt_text(r) == encoding_in(line@),
{
    proof {
        reveal_strlit("encoding");
        assert("encoding"@.len() == 8);
    }
    let p = match find_from(line, "encoding", 0) {
        Some(p) => p,
        None => {
            return None;
        },
    };
    let mut q: usize = p + 8;
    while q < line.len() && (white(line[q]) || line[q] == '=')
        invariant
            p + 8 <= q <= line.len(),
            after_equals(line@, q as int) == after_equals(line@, p + 8),
        decreases line.len() - q,
    {
        q = q + 1;
    }
    if q >= line.len() || !(line[q] == '"' || line[q] == '\'') {
        return None;
    }
    let quote = line[q];
    match find_char(line, quote, q + 1) {
        Some(e) => Some(string_of(slice_subrange(line, q + 1, e))),
        None => None,
    }
}

fn find_declared_encoding(head: &[char]) -> (r: Option<String>)
    ensures
        document::opt_text(r) == declared_encoding(head@),
{
    if !has_prefix(head, "<?xml") {
        return None;
    }
    match find_from(head, "?>", 0) {
        Some(end) => {
            let line = slice_subrange(head, 0, end);
            let found = find_encoding_in(line);
            proof {
                assert(line@ =~= head@.take(end as int));
                assert(declared_encoding(head@) == encoding_in(head@.take(end as int)));
            }
            found
        },
        None => None,
    }
}

/// The text of a document, and whether some bytes could not be decoded: in the encoding that it
/// declares, if that is a known one, and else in UTF-8.
pub open spec fn decoded(content: Seq<u8>) -> (Seq<char>, bool) {
    let in_utf8 = encoding::decoding("utf-8"@, content);
    match declared_encoding(head_of(content)) {
        Some(label) => match encoding::decoding(label, content) {
            Some(found) => found,
            None => in_utf8->0,
        },
        None => in_utf8->0,
    }
}

/// Decodes a document.
pub fn decode_xml_to_utf8(content: &[u8]) -> (r: (String, bool))
    requires
        content@.len() <= usize::MAX / 16,
    ensures
        (r.0@, r.1) == decoded(content@),
{
    if let Some(label) = find_declared_encoding(head_chars(content).as_slice()) {
        if let Some(found) = decode_labelled(label.as_str(), content) {
            return found;
        }
    }
    match decode_labelled("utf-8", content) {
        Some(found) => found,
        None => (String::new(), false),
    }
}

/// The content of a document before the walk begins.
pub open spec fn opened_content(content: Seq<u8>) -> document::Content {
    let empty = document::empty_content("xml"@);
    if decoded(content).1 {
        empty.with_warning("xml"@, diagnostics::lossy_decode_message("XML source"@))
    } else {
        empty
    }
}

/// The whole walk through a document.
pub open spec fn whole_walk(content: Seq<u8>, is_svg: bool, budget: SecurityBudget) -> Walk {
    fresh_walk(opened_content(content), budget, is_svg).walked(xml_events(decoded(content).0))
}

/// The content of a document after the walk: it is said which elements were not closed.
pub open spec fn closed_content(w: Walk) -> document::Content {
    if w.stack.len() == 0 {
        w.content
    } else {
        w.content.with_warning("xml"@, diagnostics::unclosed_elements_message(w.stack))
    }
}

/// Walks through a text.
fn walk_text(builder: &mut XmlTreeBuilder, decoded_text: &str)
    ensures
        final(builder)@.ledger == old(builder)@.walked(xml_events(decoded_text@)).ledger,
        final(builder)@.ledger.verdict is Ok ==> final(builder)@ == old(builder)@.walked(xml_events(decoded_text@)),
        final(builder).doc.metadata == old(builder).doc.metadata,
{
    let mut reader = open_xml(decoded_text);
    let ghost all = xml_events(decoded_text@);
    let ghost start = builder@;
    loop
        invariant
            start == old(builder)@,
            all == xml_events(decoded_text@),
            start.walked(all) == builder@.walked(events_left(reader)),
            builder.doc.metadata == old(builder).doc.metadata,
        decreases events_left(reader).len(),
    {
        let ghost left = events_left(reader);
        if builder.ledger.failed() {
            proof {
                lemma_walk_stays(builder@, left);
            }
            return;
        }
        let event = next_event(&mut reader);
        if let XmlEventKind::Eof = event.kind {
            builder.flush();
            builder.ledger.step();
            return;
        }
        builder.take_event(&event);
        if let XmlEventKind::Malformed = event.kind {
            return;
        }
    }
}

/// Builds the document of XML content within the ceilings of a budget.
pub fn build_internal_document(content: &[u8], mime_type: &str, budget: &mut SecurityBudget) -> (r: Result<
    InternalDocument,
    XbergError,
>)
    requires
        content@.len() <= usize::MAX / 16,
    ensures
        ({
            let walk = whole_walk(content@, mime_type@ == "image/svg+xml"@, *old(budget));
            &&& *final(budget) == walk.ledger.budget
            &&& match walk.ledger.verdict {
                Ok(()) => {
                    &&& r matches Ok(doc)
                    &&& doc@ == closed_content(walk)
                    &&& document::is_blank_metadata(doc.metadata)
                },
                Err(limit) => r is Err && error::reports(r->Err_0, limit),
            }
        }),
{
    let (decoded_text, lossy) = decode_xml_to_utf8(content);
    let mut doc = InternalDocument::new("xml");
    if lossy {
        push_lossy_decode_warning(&mut doc, "xml", "XML source");
    }
    let mut builder = XmlTreeBuilder::new(doc, *budget, same_str(mime_type, "image/svg+xml"));
    walk_text(&mut builder, decoded_text.as_str());
    *budget = builder.ledger.budget;
    if let Err(limit) = builder.ledger.verdict {
        return Err(security_error(limit));
    }
    let mut doc = builder.doc;
    push_unclosed_elements_warning(&mut doc, "xml", &builder.element_stack);
    Ok(doc)
}

/// The names of the elements of a document, each time that one starts.
pub open spec fn element_names(events: Seq<(XmlEventKind, Seq<char>)>) -> Seq<Seq<char>>
    decreases events.len(),
{
    if events.len() == 0 || events[0].0 == XmlEventKind::Malformed {
        Seq::empty()
    } else if events[0].0 == XmlEventKind::Start || events[0].0 == XmlEventKind::Empty {
        seq![tag_name(events[0].1)] + element_names(events.skip(1))
    } else {
        element_names(events.skip(1))
    }
}

/// A list without repetitions; the first of equal items stays.
pub open spec fn distinct(names: Seq<Seq<char>>) -> Seq<Seq<char>>
    decreases names.len(),
{
    if names.len() == 0 {
        Seq::empty()
    } else {
        let before = distinct(names.drop_last());
        if before.contains(names.last()) {
            before
        } else {
            before.push(names.last())
        }
    }
}

/// No name is listed twice, and every name is listed.
pub proof fn law_distinct_names_occur_once(names: Seq<Seq<char>>)
    ensures
        distinct(names).no_duplicates(),
        forall|i: int| 0 <= i < names.len() ==> distinct(names).contains(#[trigger] names[i]),
    decreases names.len(),
{
    if names.len() > 0 {
        law_distinct_names_occur_once(names.drop_last());
        let before = distinct(names.drop_last());
        let all = distinct(names);
        assert forall|i: int| 0 <= i < names.len() implies all.contains(#[trigger] names[i]) by {
            if i < names.len() - 1 {
                assert(names.drop_last()[i] == names[i]);
                let k = choose|k: int| 0 <= k < before.len() && before[k] == names[i];
                assert(all[k] == names[i]);
            } else if !before.contains(names.last()) {
                assert(all[before.len() as int] == names[i]);
            }
        }
    }
}

/// What is said of the elements of a document: how many there are, up to the largest number, and the
/// names that occur.
pub open spec fn tallied(meta: XmlMetadata, names: Seq<Seq<char>>) -> bool {
    &&& meta.element_count == if names.len() < u32::MAX {
        names.len() as u32
    } else {
        u32::MAX
    }
    &&& text::strings(meta.unique_elements@) == distinct(names)
}

/// Counts the elements of a text.
pub fn tally_elements(decoded_text: &str) -> (r: XmlMetadata)
    ensures
        tallied(r, element_names(xml_events(decoded_text@))),
{
    let mut reader = open_xml(decoded_text);
    let ghost all = element_names(xml_events(decoded_text@));
    let ghost mut names: Seq<Seq<char>> = Seq::empty();
    let mut meta = XmlMetadata { element_count: 0, unique_elements: Vec::new() };
    proof {
        assert(text::strings(meta.unique_elements@) =~= Seq::empty());
        assert(names + all =~= all);
    }
    loop
        invariant
            all == element_names(xml_events(decoded_text@)),
            all == names + element_names(events_left(reader)),
            tallied(meta, names),
        decreases events_left(reader).len(),
    {
        let ghost left = events_left(reader);
        let event = next_event(&mut reader);
        match event.kind {
            XmlEventKind::Eof | XmlEventKind::Malformed => {
                proof {
                    assert(element_names(left) =~= Seq::empty());
                    assert(all =~= names);
                }
                return meta;
            },
            XmlEventKind::Start | XmlEventKind::Empty => {
                let name = name_of_tag(event.text.as_str());
                if meta.element_count < u32::MAX {
                    meta.element_count = meta.element_count + 1;
                }
                let ghost before = text::strings(meta.unique_elements@);
                let ghost name_text = name@;
                proof {
                    assert(names.push(name_text).drop_last() =~= names);
                    assert(names.push(name_text) + element_names(left.skip(1)) =~= names + (seq![name_text]
                        + element_names(left.skip(1))));
                }
                if !contains_string(meta.unique_elements.as_slice(), name.as_str()) {
                    proof {
                        assert(text::strings(meta.unique_elements@.push(name)) =~= before.push(name_text));
                    }
                    meta.unique_elements.push(name);
                }
                proof {
                    names = names.push(name_text);
                }
            },
            _ => {},
        }
    }
}

/// Whether a rendering as a diagram is asked for.
pub open spec fn asks_for_dot(config: ExtractionConfig) -> bool {
    config.output_format matches OutputFormat::Custom(name) && name@ == "dot"@
}

/// Whether a rendering as a diagram is asked for.
pub fn wants_dot_output(config: &ExtractionConfig) -> (r: bool)
    ensures
        r == asks_for_dot(*config),
{
    match &config.output_format {
        OutputFormat::Custom(name) => same_str(name.as_str(), "dot"),
        _ => false,
    }
}

/// What a diagram can be recovered from.
#[derive(Clone, Copy, Debug, PartialEq, Eq, Structural)]
pub enum DiagramSource {
    /// A vector graphic, by the geometry of its shapes.
    Svg,
    /// A flat drawing of OpenDocument, which names its shapes and connectors.
    FlatDrawing,
}

/// What a diagram is recovered from in a document of a media type: nothing, unless a rendering as a diagram is asked
/// for.
pub open spec fn diagram_source(mime_type: Seq<char>, config: ExtractionConfig) -> Option<DiagramSource> {
    if !asks_for_dot(config) {
        None
    } else if mime_type == "image/svg+xml"@ {
        Some(DiagramSource::Svg)
    } else if mime_type == "application/vnd.oasis.opendocument.graphics-flat-xml"@ {
        Some(DiagramSource::FlatDrawing)
    } else {
        None
    }
}

/// Decides what a diagram is to be recovered from in a document of a media type.
pub fn diagram_to_recover(mime_type: &str, config: &ExtractionConfig) -> (r: Option<DiagramSource>)
    ensures
        r == diagram_source(mime_type@, *config),
{
    if !wants_dot_output(config) {
        None
    } else if same_str(mime_type, "image/svg+xml") {
        Some(DiagramSource::Svg)
    } else if same_str(mime_type, "application/vnd.oasis.opendocument.graphics-flat-xml") {
        Some(DiagramSource::FlatDrawing)
    } else {
        None
    }
}

/// The diagrams of a document, given what was recovered from it: what no rendering asks for is left out.
pub open spec fn diagrams_kept(
    mime_type: Seq<char>,
    config: ExtractionConfig,
    recovered: Option<Seq<char>>,
) -> Seq<Seq<char>> {
    match recovered {
        Some(graph) => if diagram_source(mime_type, config) is Some {
            seq![graph]
        } else {
            Seq::empty()
        },
        None => Seq::empty(),
    }
}

/// Reads XML documents.
#[derive(Clone, Copy, Debug)]
pub struct XmlExtractor;

impl Default for XmlExtractor {
    fn default() -> (r: Self)
        ensures
            r == XmlExtractor,
    {
        XmlExtractor
    }
}

impl XmlExtractor {
    /// The reader.
    pub fn new() -> (r: Self)
        ensures
            r == XmlExtractor,
    {
        XmlExtractor
    }

    /// Its name.
    pub fn name(&self) -> (r: &'static str)
        ensures
            r@ == "xml-extractor"@,
    {
        "xml-extractor"
    }

    /// Its version, which is that of the package.
    pub fn version(&self) -> (r: String)
        ensures
            r@ == "1.0.0"@,
    {
        package_version()
    }

    /// Makes it ready; there is nothing to do.
    pub fn initialize(&self) -> (r: Result<(), XbergError>)
        ensures
            r == (Ok::<(), XbergError>(())),
    {
        Ok(())
    }

    /// Lays it down; there is nothing to do.
    pub fn shutdown(&self) -> (r: Result<(), XbergError>)
        ensures
            r == (Ok::<(), XbergError>(())),
    {
        Ok(())
    }

    /// What it does.
    pub fn description(&self) -> (r: &'static str)
        ensures
            r@ == "Extracts text content from XML files with element metadata"@,
    {
        "Extracts text content from XML files with element metadata"
    }

    /// Who wrote it.
    pub fn author(&self) -> (r: &'static str)
        ensures
            r@ == "Xberg Team"@,
    {
        "Xberg Team"
    }

    /// The media types that it reads.
    pub fn supported_mime_types(&self) -> (r: Vec<&'static str>)
        ensures
            r@ == seq![
                "application/xml",
                "text/xml",
                "application/vnd.google-earth.kml+xml",
                "image/svg+xml",
                "application/x-endnote+xml",
                "application/vnd.oasis.opendocument.graphics-flat-xml",
            ],
    {
        vec![
            "application/xml",
            "text/xml",
            "application/vnd.google-earth.kml+xml",
            "image/svg+xml",
            "application/x-endnote+xml",
            "application/vnd.oasis.opendocument.graphics-flat-xml",
        ]
    }

    /// Its rank among the readers of a media type.
    pub fn priority(&self) -> (r: i32)
        ensures
            r == 50,
    {
        50
    }
}

impl XmlExtractor {
    /// Reads a document, given the diagram that was recovered from it, if any was to be.
    pub fn extract_sync(
        &self,
        content: &[u8],
        mime_type: &str,
        config: &ExtractionConfig,
        recovered: Option<String>,
    ) -> (r: Result<InternalDocument, XbergError>)
        requires
            content@.len() <= usize::MAX / 16,
        ensures
            ({
                let walk = whole_walk(
                    content@,
                    mime_type@ == "image/svg+xml"@,
                    security::configured_budget(*config),
                );
                match walk.ledger.verdict {
                    Ok(()) => {
                        &&& r matches Ok(doc)
                        &&& doc@ == (document::Content {
                            mime_type: mime_type@,
                            diagrams: diagrams_kept(mime_type@, *config, document::opt_text(recovered)),
                            ..closed_content(walk)
                        })
                        &&& doc.metadata.format matches Some(FormatMetadata::Xml(meta))
                        &&& tallied(meta, element_names(xml_events(decoded(content@).0)))
                        &&& document::is_blank_metadata(Metadata { format: None, ..doc.metadata })
                    },
                    Err(limit) => r is Err && error::reports(r->Err_0, limit),
                }
            }),
    {
        let mut budget = SecurityBudget::from_config(config);
        let mut doc = match build_internal_document(content, mime_type, &mut budget) {
            Ok(doc) => doc,
            Err(error) => {
                return Err(error);
            },
        };
        let (decoded_text, _) = decode_xml_to_utf8(content);
        doc.mime_type = mime_type.to_owned();
        doc.metadata.format = Some(FormatMetadata::Xml(tally_elements(decoded_text.as_str())));
        let mut diagrams: Vec<String> = Vec::new();
        if let Some(graph) = recovered {
            if diagram_to_recover(mime_type, config).is_some() {
                diagrams.push(graph);
            }
        }
        proof {
            assert(text::strings(diagrams@) =~= diagrams_kept(mime_type@, *config, document::opt_text(recovered)));
        }
        doc.diagrams = diagrams;
        Ok(doc)
    }
}

/// However deeply elements are nested, every heading has one of the six levels.
pub proof fn law_heading_levels_exist(w: Walk, events: Seq<(XmlEventKind, Seq<char>)>)
    requires
        document::levels_exist(w.content.elements),
    ensures
        document::levels_exist(w.walked(events).content.elements),
    decreases events.len(),
{
    lemma_flush_keeps_levels(w);
    if events.len() > 0 {
        let flushed = w.flushed();
        let stepped = flushed.paid(flushed.ledger.stepped());
        lemma_headed_keeps_levels(stepped.paid(stepped.ledger.entered()), events[0].1);
        lemma_headed_keeps_levels(stepped, events[0].1);
        assert(document::levels_exist(w.taken(events[0]).content.elements));
        if events[0].0 != XmlEventKind::Malformed {
            law_heading_levels_exist(w.taken(events[0]), events.skip(1));
        }
    }
}

proof fn lemma_headed_keeps_levels(w: Walk, tag: Seq<char>)
    requires
        document::levels_exist(w.content.elements),
    ensures
        document::levels_exist(w.headed(tag).content.elements),
{
}

proof fn lemma_flush_keeps_levels(w: Walk)
    requires
        document::levels_exist(w.content.elements),
    ensures
        document::levels_exist(w.flushed().content.elements),
{
}

} // verus!
