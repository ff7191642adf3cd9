//! Structured data: from a parsed value to headings, lists and paragraphs.
use crate::code;
use crate::code::lossy_text;
use crate::config::ExtractionConfig;
use crate::document;
use crate::document::{ElementKind, InternalDocument};
use crate::error;
use crate::error::{security_error, XbergError};
use crate::geojson;
use crate::geojson::parse_geojson_summary;
use crate::json;
use crate::json::{read_json, read_toml, read_yaml, JsonValue};
use crate::plugin::package_version;
use crate::security;
use crate::security::{Ledger, SecurityBudget};
use crate::text;
use crate::text::{chars_of, lines, push_decimal, same_str, string_of, trim, utf8_text};
use vstd::prelude::*;

verus! {

/// What a scalar looks like when it is written out.
pub open spec fn scalar_text(value: json::Json) -> Seq<char> {
    match value {
        json::Json::Bool(true) => "true"@,
        json::Json::Bool(false) => "false"@,
        json::Json::Number(n) => n.text,
        json::Json::Text(s) => s,
        _ => "null"@,
    }
}

/// What a scalar looks like when it is written out.
fn render_scalar(value: &JsonValue) -> (r: String)
    ensures
        r@ == scalar_text(value@),
{
    match value {
        JsonValue::Bool(true) => "true".to_owned(),
        JsonValue::Bool(false) => "false".to_owned(),
        JsonValue::Number(n) => n.text.clone(),
        JsonValue::Text(s) => s.clone(),
        _ => "null".to_owned(),
    }
}

/// A document under construction and what it has cost so far.
#[verifier::ext_equal]
pub struct Build {
    /// The document.
    pub content: document::Content,
    /// What it has cost.
    pub ledger: Ledger,
}

impl Build {
    /// With one more element, unless a ceiling was exceeded.
    pub open spec fn with(self, e: document::Element) -> Build {
        if self.ledger.verdict is Err {
            self
        } else {
            Build { content: self.content.with_element(e), ..self }
        }
    }

    /// With another ledger.
    pub open spec fn paid(self, ledger: Ledger) -> Build {
        Build { ledger, ..self }
    }

    /// With a text that is charged and becomes an element.
    pub open spec fn with_text(self, kind: ElementKind, t: Seq<char>) -> Build {
        self.paid(self.ledger.accounted(t)).with(document::bare(kind, t, 0))
    }
}

/// The heading level of a depth.
pub open spec fn level_at(depth: u8) -> u8 {
    if depth < 6 {
        depth
    } else {
        6
    }
}

/// One level further down; the deepest level that is told apart stays the deepest.
pub open spec fn below(depth: u8) -> u8 {
    if depth < u8::MAX {
        (depth + 1) as u8
    } else {
        depth
    }
}

/// A heading.
pub open spec fn heading(depth: u8, t: Seq<char>) -> document::Element {
    document::bare(ElementKind::Heading { level: level_at(depth) }, t, 0)
}

/// The heading of an item of a list; items are counted from one.
pub open spec fn item_label(index: int) -> Seq<char> {
    "Item "@ + text::decimal((index + 1) as nat)
}

/// A document with a value: an object by its members, a list by its items, a scalar as a paragraph.
pub open spec fn value_built(b: Build, value: json::Json, depth: u8) -> Build
    decreases value, 1int,
{
    match value {
        json::Json::Object(members) => {
            let done = members_built(b.paid(b.ledger.entered()), members, depth);
            done.paid(done.ledger.left())
        },
        json::Json::Array(items) => array_built(b, items, depth),
        json::Json::Text(s) => b.paid(b.ledger.checked(s)).with_text(ElementKind::Paragraph, s),
        other => b.with_text(ElementKind::Paragraph, scalar_text(other)),
    }
}

/// A document with the members of an object: a member that holds members or items becomes a heading
/// with them below it, another one a paragraph.
pub open spec fn members_built(b: Build, members: Seq<(Seq<char>, json::Json)>, depth: u8) -> Build
    decreases members, 0int,
{
    if members.len() == 0 {
        b
    } else {
        member_built(
            members_built(b, members.drop_last(), depth),
            members[members.len() - 1].0,
            members[members.len() - 1].1,
            depth,
        )
    }
}

/// A document with one member of an object.
pub open spec fn member_built(b: Build, key: Seq<char>, value: json::Json, depth: u8) -> Build
    decreases value, 2int,
{
    let named = b.paid(b.ledger.stepped().checked(key));
    match value {
        json::Json::Object(_) => value_built(named.with(heading(depth, key)), value, below(depth)),
        json::Json::Array(items) => array_built(named.with(heading(depth, key)), items, below(depth)),
        json::Json::Text(s) => named.paid(named.ledger.checked(s)).with_text(ElementKind::Paragraph, key + ": "@ + s),
        other => named.with_text(ElementKind::Paragraph, key + ": "@ + scalar_text(other)),
    }
}

/// A document with a list.
pub open spec fn array_built(b: Build, items: Seq<json::Json>, depth: u8) -> Build
    decreases items, 1int,
{
    let (done, open) = items_built(b.paid(b.ledger.entered()), items, depth);
    let closed = if open {
        done.with(document::bare(ElementKind::ListEnd, Seq::empty(), 0))
    } else {
        done
    };
    closed.paid(closed.ledger.left())
}

/// A document with the items of a list, and whether a list is still open: scalars that follow each
/// other are items of one list, any other item becomes a heading with its value below it.
pub open spec fn items_built(b: Build, items: Seq<json::Json>, depth: u8) -> (Build, bool)
    decreases items, 0int,
{
    if items.len() == 0 {
        (b, false)
    } else {
        let (before, open) = items_built(b, items.drop_last(), depth);
        item_built(before, open, items[items.len() - 1], items.len() - 1, depth)
    }
}

/// A document with one item of a list, and whether a list is still open.
pub open spec fn item_built(b: Build, open: bool, item: json::Json, index: int, depth: u8) -> (Build, bool)
    decreases item, 2int,
{
    let stepped = b.paid(b.ledger.stepped());
    match item {
        json::Json::Object(_) | json::Json::Array(_) => {
            let closed = if open {
                stepped.with(document::bare(ElementKind::ListEnd, Seq::empty(), 0))
            } else {
                stepped
            };
            let label = item_label(index);
            let headed = closed.paid(closed.ledger.accounted(label)).with(heading(depth, label));
            (value_built(headed, item, below(depth)), false)
        },
        other => {
            let checked = match other {
                json::Json::Text(s) => stepped.paid(stepped.ledger.checked(s)),
                _ => stepped,
            };
            let t = scalar_text(other);
            let charged = checked.paid(checked.ledger.accounted(t));
            let opened = if open {
                charged
            } else {
                charged.with(document::bare(ElementKind::ListStart { ordered: false }, Seq::empty(), 0))
            };
            (opened.with(document::bare(ElementKind::ListItem { ordered: false }, t, 0)), true)
        },
    }
}

/// Once a ceiling was exceeded, nothing changes any more.
proof fn lemma_value_stays(b: Build, value: json::Json, depth: u8)
    requires
        b.ledger.verdict is Err,
    ensures
        value_built(b, value, depth) == b,
    decreases value, 1int,
{
    match value {
        json::Json::Object(members) => {
            lemma_members_stay(b, members, depth);
        },
        json::Json::Array(items) => {
            lemma_array_stays(b, items, depth);
        },
        _ => {},
    }
}

proof fn lemma_members_stay(b: Build, members: Seq<(Seq<char>, json::Json)>, depth: u8)
    requires
        b.ledger.verdict is Err,
    ensures
        members_built(b, members, depth) == b,
    decreases members, 0int,
{
    if members.len() > 0 {
        lemma_members_stay(b, members.drop_last(), depth);
        lemma_member_stays(b, members[members.len() - 1].0, members[members.len() - 1].1, depth);
    }
}

proof fn lemma_member_stays(b: Build, key: Seq<char>, value: json::Json, depth: u8)
    requires
        b.ledger.verdict is Err,
    ensures
        member_built(b, key, value, depth) == b,
    decreases value, 2int,
{
    match value {
        json::Json::Object(_) => {
            lemma_value_stays(b, value, below(depth));
        },
        json::Json::Array(items) => {
            lemma_array_stays(b, items, below(depth));
        },
        _ => {},
    }
}

proof fn lemma_array_stays(b: Build, items: Seq<json::Json>, depth: u8)
    requires
        b.ledger.verdict is Err,
    ensures
        array_built(b, items, depth) == b,
    decreases items, 1int,
{
    lemma_items_stay(b, items, depth);
}

proof fn lemma_items_stay(b: Build, items: Seq<json::Json>, depth: u8)
    requires
        b.ledger.verdict is Err,
    ensures
        items_built(b, items, depth).0 == b,
    decreases items, 0int,
{
    if items.len() > 0 {
        lemma_items_stay(b, items.drop_last(), depth);
        let open = items_built(b, items.drop_last(), depth).1;
        lemma_item_stays(b, open, items[items.len() - 1], items.len() - 1, depth);
    }
}

proof fn lemma_item_stays(b: Build, open: bool, item: json::Json, index: int, depth: u8)
    requires
        b.ledger.verdict is Err,
    ensures
        item_built(b, open, item, index, depth).0 == b,
    decreases item, 2int,
{
    match item {
        json::Json::Object(_) | json::Json::Array(_) => {
            lemma_value_stays(b, item, below(depth));
        },
        _ => {},
    }
}

/// What was exceeded after some members stays so after all of them.
proof fn lemma_members_stay_from(b: Build, members: Seq<(Seq<char>, json::Json)>, depth: u8, n: int)
    requires
        0 <= n <= members.len(),
        members_built(b, members.take(n), depth).ledger.verdict is Err,
    ensures
        members_built(b, members, depth) == members_built(b, members.take(n), depth),
    decreases members.len() - n,
{
    if n == members.len() {
        assert(members.take(n) =~= members);
    } else {
        let done = members_built(b, members.take(n), depth);
        assert(members.take(n + 1).drop_last() =~= members.take(n));
        lemma_member_stays(done, members[n].0, members[n].1, depth);
        lemma_members_stay_from(b, members, depth, n + 1);
    }
}

proof fn lemma_items_stay_from(b: Build, items: Seq<json::Json>, depth: u8, n: int)
    requires
        0 <= n <= items.len(),
        items_built(b, items.take(n), depth).0.ledger.verdict is Err,
    ensures
        items_built(b, items, depth).0 == items_built(b, items.take(n), depth).0,
    decreases items.len() - n,
{
    if n == items.len() {
        assert(items.take(n) =~= items);
    } else {
        let (done, open) = items_built(b, items.take(n), depth);
        assert(items.take(n + 1).drop_last() =~= items.take(n));
        lemma_item_stays(done, open, items[n], n, depth);
        lemma_items_stay_from(b, items, depth, n + 1);
    }
}

/// Builds a document from a value within the ceilings of a budget.
pub struct StructureBuilder {
    /// The document.
    pub doc: InternalDocument,
    /// What it has cost.
    pub ledger: Ledger,
}

impl View for StructureBuilder {
    type V = Build;

    open spec fn view(&self) -> Build {
        Build { content: self.doc@, ledger: self.ledger }
    }
}

fn heading_level(depth: u8) -> (r: u8)
    ensures
        r == level_at(depth),
{
    if depth < 6 {
        depth
    } else {
        6
    }
}

fn one_below(depth: u8) -> (r: u8)
    ensures
        r == below(depth),
{
    if depth < u8::MAX {
        depth + 1
    } else {
        depth
    }
}

impl StructureBuilder {
    /// An empty document of a format, under a budget.
    pub fn new(source_format: &str, budget: SecurityBudget) -> (r: Self)
        ensures
            r@ == (Build {
                content: document::empty_content(source_format@),
                ledger: security::open_ledger(budget),
            }),
            document::is_blank_metadata(r.doc.metadata),
    {
        StructureBuilder { doc: InternalDocument::new(source_format), ledger: Ledger::new(budget) }
    }

    fn push(&mut self, kind: ElementKind, t: &str)
        ensures
            final(self)@ == old(self)@.with(document::bare(kind, t@, 0)),
            final(self).doc.metadata == old(self).doc.metadata,
    {
        if !self.ledger.failed() {
            self.doc.push_text(kind, t.to_owned(), 0);
        }
    }

    fn push_charged(&mut self, kind: ElementKind, t: &str)
        ensures
            final(self)@ == old(self)@.with_text(kind, t@),
            final(self).doc.metadata == old(self).doc.metadata,
    {
        self.ledger.account_text(t);
        self.push(kind, t);
    }

    fn push_heading(&mut self, depth: u8, t: &str)
        ensures
            final(self)@ == old(self)@.with(heading(depth, t@)),
            final(self).doc.metadata == old(self).doc.metadata,
    {
        self.push(ElementKind::Heading { level: heading_level(depth) }, t);
    }

    fn push_mark(&mut self, kind: ElementKind)
        ensures
            final(self)@ == old(self)@.with(document::bare(kind, Seq::empty(), 0)),
            final(self).doc.metadata == old(self).doc.metadata,
    {
        if !self.ledger.failed() {
            let empty = String::new();
            proof {
                assert(empty@ =~= Seq::<char>::empty());
            }
            self.doc.push_text(kind, empty, 0);
        }
    }

    /// Appends a value.
    pub fn build_json_internal_structure(&mut self, value: &JsonValue, depth: u8)
        ensures
            final(self)@ == value_built(old(self)@, value@, depth),
            final(self).doc.metadata == old(self).doc.metadata,
        decreases *value, 1int,
    {
        proof {
            json::lemma_view(*value);
        }
        match value {
            JsonValue::Object(members) => {
                self.ledger.enter();
                self.build_members(members, depth);
                self.ledger.leave();
            },
            JsonValue::Array(items) => {
                self.build_json_array(items, depth);
            },
            JsonValue::Text(s) => {
                self.ledger.check_entity(s.as_str());
                self.push_charged(ElementKind::Paragraph, s.as_str());
            },
            other => {
                let t = render_scalar(other);
                self.push_charged(ElementKind::Paragraph, t.as_str());
            },
        }
    }

    fn build_member(&mut self, key: &String, value: &JsonValue, depth: u8)
        ensures
            final(self)@ == member_built(old(self)@, key@, value@, depth),
            final(self).doc.metadata == old(self).doc.metadata,
        decreases *value, 2int,
    {
        proof {
            json::lemma_view(*value);
        }
        self.ledger.step();
        self.ledger.check_entity(key.as_str());
        match value {
            JsonValue::Object(_) => {
                self.push_heading(depth, key.as_str());
                self.build_json_internal_structure(value, one_below(depth));
            },
            JsonValue::Array(items) => {
                self.push_heading(depth, key.as_str());
                self.build_json_array(items, one_below(depth));
            },
            other => {
                if let JsonValue::Text(s) = other {
                    self.ledger.check_entity(s.as_str());
                }
                let mut t = key.clone();
                t.append(": ");
                t.append(render_scalar(other).as_str());
                self.push_charged(ElementKind::Paragraph, t.as_str());
            },
        }
    }

    fn build_members(&mut self, members: &Vec<(String, JsonValue)>, depth: u8)
        ensures
            final(self)@ == members_built(old(self)@, json::members(members@), depth),
            final(self).doc.metadata == old(self).doc.metadata,
        decreases members@, 0int,
    {
        let ghost all = json::members(members@);
        let ghost start = self@;
        let mut i: usize = 0;
        proof {
            assert(all.take(0) =~= Seq::empty());
        }
        while i < members.len()
            invariant
                i <= members.len(),
                all == json::members(members@),
                start == old(self)@,
                self@ == members_built(start, all.take(i as int), depth),
                self.doc.metadata == old(self).doc.metadata,
            decreases members.len() - i,
        {
            if self.ledger.failed() {
                proof {
                    lemma_members_stay_from(start, all, depth, i as int);
                }
                return;
            }
            proof {
                assert(all.take(i + 1).drop_last() =~= all.take(i as int));
                assert(all.take(i + 1)[i as int] == (members@[i as int].0@, members@[i as int].1@));
                assert(decreases_to!(members@ => members@[i as int]));
            }
            let entry = &members[i];
            self.build_member(&entry.0, &entry.1, depth);
            i = i + 1;
        }
        proof {
            assert(all.take(all.len() as int) =~= all);
        }
    }

    /// Appends the items of a list: scalars that follow each other as one list, any other item under
    /// a heading of its own. A list is closed before such a heading.
    pub fn build_json_array(&mut self, items: &Vec<JsonValue>, depth: u8)
        ensures
            final(self)@ == array_built(old(self)@, json::values(items@), depth),
            final(self).doc.metadata == old(self).doc.metadata,
        decreases items@, 0int,
    {
        let ghost all = json::values(items@);
        self.ledger.enter();
        let ghost start = self@;
        let mut open = false;
        let mut i: usize = 0;
        proof {
            assert(all.take(0) =~= Seq::empty());
        }
        while i < items.len()
            invariant
                i <= items.len(),
                all == json::values(items@),
                start == old(self)@.paid(old(self)@.ledger.entered()),
                (self@, open) == items_built(start, all.take(i as int), depth),
                self.doc.metadata == old(self).doc.metadata,
            decreases items.len() - i,
        {
            if self.ledger.failed() {
                proof {
                    lemma_items_stay_from(start, all, depth, i as int);
                }
                return;
            }
            proof {
                assert(all.take(i + 1).drop_last() =~= all.take(i as int));
                assert(all.take(i + 1)[i as int] == items@[i as int]@);
                assert(decreases_to!(items@ => items@[i as int]));
            }
            open = self.build_item(&items[i], i, open, depth);
            i = i + 1;
        }
        proof {
            assert(all.take(all.len() as int) =~= all);
        }
        if open {
            self.push_mark(ElementKind::ListEnd);
        }
        self.ledger.leave();
    }

    fn build_item(&mut self, item: &JsonValue, index: usize, open: bool, depth: u8) -> (r: bool)
        requires
            index < usize::MAX,
        ensures
            (final(self)@, r) == item_built(old(self)@, open, item@, index as int, depth),
            final(self).doc.metadata == old(self).doc.metadata,
        decreases *item, 2int,
    {
        proof {
            json::lemma_view(*item);
        }
        self.ledger.step();
        match item {
            JsonValue::Object(_) | JsonValue::Array(_) => {
                if open {
                    self.push_mark(ElementKind::ListEnd);
                }
                let mut label = "Item ".to_owned();
                push_decimal(&mut label, (index + 1) as u64);
                self.ledger.account_text(label.as_str());
                self.push_heading(depth, label.as_str());
                self.build_json_internal_structure(item, one_below(depth));
                false
            },
            other => {
                if let JsonValue::Text(s) = other {
                    self.ledger.check_entity(s.as_str());
                }
                let t = render_scalar(other);
                self.ledger.account_text(t.as_str());
                if !open {
                    self.push_mark(ElementKind::ListStart { ordered: false });
                }
                self.push(ElementKind::ListItem { ordered: false }, t.as_str());
                true
            },
        }
    }
}

/// Whether a step left as many lists open as `more` says, and gave each heading one of the six
/// levels.
pub open spec fn orderly(before: Build, after: Build, more: int) -> bool {
    &&& before.ledger.verdict is Err ==> after == before
    &&& after.ledger.verdict is Ok ==> document::open_lists(after.content.elements) == document::open_lists(before.content.elements)
        + more
    &&& document::levels_exist(before.content.elements) ==> document::levels_exist(after.content.elements)
}

/// Every list that a value opens is closed again, and every heading has one of the six levels, if the
/// value stands below the top.
pub proof fn law_structure_is_orderly(b: Build, value: json::Json, depth: u8)
    requires
        depth >= 1,
    ensures
        orderly(b, value_built(b, value, depth), 0),
    decreases value, 1int,
{
    match value {
        json::Json::Object(members) => {
            lemma_members_orderly(b.paid(b.ledger.entered()), members, depth);
            lemma_value_stays_if(b, value, depth);
        },
        json::Json::Array(items) => {
            lemma_array_orderly(b, items, depth);
        },
        json::Json::Text(s) => {
            lemma_push_orderly(
                b.paid(b.ledger.checked(s).accounted(s)),
                document::bare(ElementKind::Paragraph, s, 0),
            );
        },
        other => {
            lemma_push_orderly(
                b.paid(b.ledger.accounted(scalar_text(other))),
                document::bare(ElementKind::Paragraph, scalar_text(other), 0),
            );
        },
    }
}

proof fn lemma_value_stays_if(b: Build, value: json::Json, depth: u8)
    ensures
        b.ledger.verdict is Err ==> value_built(b, value, depth) == b,
{
    if b.ledger.verdict is Err {
        lemma_value_stays(b, value, depth);
    }
}

/// What one more element does.
proof fn lemma_push_orderly(b: Build, e: document::Element)
    ensures
        b.ledger.verdict is Ok ==> document::open_lists(b.with(e).content.elements) == document::open_lists(b.content.elements)
            + match e.kind {
            ElementKind::ListStart { .. } => 1int,
            ElementKind::ListEnd => -1,
            _ => 0,
        },
        document::levels_exist(b.content.elements) && (match e.kind {
            ElementKind::Heading { level } => 1 <= level <= 6,
            _ => true,
        }) ==> document::levels_exist(b.with(e).content.elements),
{
    let elements = b.content.elements;
    assert(elements.push(e).drop_last() =~= elements);
}

proof fn lemma_members_orderly(b: Build, members: Seq<(Seq<char>, json::Json)>, depth: u8)
    requires
        depth >= 1,
    ensures
        orderly(b, members_built(b, members, depth), 0),
    decreases members, 0int,
{
    if members.len() > 0 {
        lemma_members_orderly(b, members.drop_last(), depth);
        lemma_member_orderly(
            members_built(b, members.drop_last(), depth),
            members[members.len() - 1].0,
            members[members.len() - 1].1,
            depth,
        );
    }
}

proof fn lemma_member_orderly(b: Build, key: Seq<char>, value: json::Json, depth: u8)
    requires
        depth >= 1,
    ensures
        orderly(b, member_built(b, key, value, depth), 0),
    decreases value, 2int,
{
    if b.ledger.verdict is Err {
        lemma_member_stays(b, key, value, depth);
    }
    let named = b.paid(b.ledger.stepped().checked(key));
    match value {
        json::Json::Object(_) => {
            lemma_push_orderly(named, heading(depth, key));
            law_structure_is_orderly(named.with(heading(depth, key)), value, below(depth));
        },
        json::Json::Array(items) => {
            lemma_push_orderly(named, heading(depth, key));
            lemma_array_orderly(named.with(heading(depth, key)), items, below(depth));
        },
        json::Json::Text(s) => {
            let t = key + ": "@ + s;
            lemma_push_orderly(
                named.paid(named.ledger.checked(s).accounted(t)),
                document::bare(ElementKind::Paragraph, t, 0),
            );
        },
        other => {
            let t = key + ": "@ + scalar_text(other);
            lemma_push_orderly(
                named.paid(named.ledger.accounted(t)),
                document::bare(ElementKind::Paragraph, t, 0),
            );
        },
    }
}

proof fn lemma_array_orderly(b: Build, items: Seq<json::Json>, depth: u8)
    requires
        depth >= 1,
    ensures
        orderly(b, array_built(b, items, depth), 0),
    decreases items, 1int,
{
    if b.ledger.verdict is Err {
        lemma_array_stays(b, items, depth);
    }
    let entered = b.paid(b.ledger.entered());
    lemma_items_orderly(entered, items, depth);
    let (done, open) = items_built(entered, items, depth);
    lemma_push_orderly(done, document::bare(ElementKind::ListEnd, Seq::empty(), 0));
}

proof fn lemma_items_orderly(b: Build, items: Seq<json::Json>, depth: u8)
    requires
        depth >= 1,
    ensures
        orderly(
            b,
            items_built(b, items, depth).0,
            if items_built(b, items, depth).1 {
                1
            } else {
                0
            },
        ),
    decreases items, 0int,
{
    if items.len() > 0 {
        lemma_items_orderly(b, items.drop_last(), depth);
        let (before, open) = items_built(b, items.drop_last(), depth);
        lemma_item_orderly(before, open, items[items.len() - 1], items.len() - 1, depth);
    }
}

proof fn lemma_item_orderly(b: Build, open: bool, item: json::Json, index: int, depth: u8)
    requires
        depth >= 1,
    ensures
        ({
            let (after, still_open) = item_built(b, open, item, index, depth);
            orderly(
                b,
                after,
                if still_open == open {
                    0
                } else if open {
                    -1
                } else {
                    1
                },
            )
        }),
    decreases item, 2int,
{
    if b.ledger.verdict is Err {
        lemma_item_stays(b, open, item, index, depth);
    }
    let stepped = b.paid(b.ledger.stepped());
    match item {
        json::Json::Object(_) | json::Json::Array(_) => {
            let end = document::bare(ElementKind::ListEnd, Seq::empty(), 0);
            lemma_push_orderly(stepped, end);
            let closed = if open {
                stepped.with(end)
            } else {
                stepped
            };
            let label = item_label(index);
            let charged = closed.paid(closed.ledger.accounted(label));
            lemma_push_orderly(charged, heading(depth, label));
            law_structure_is_orderly(charged.with(heading(depth, label)), item, below(depth));
        },
        other => {
            let checked = match other {
                json::Json::Text(s) => stepped.paid(stepped.ledger.checked(s)),
                _ => stepped,
            };
            let t = scalar_text(other);
            let charged = checked.paid(checked.ledger.accounted(t));
            let start = document::bare(ElementKind::ListStart { ordered: false }, Seq::empty(), 0);
            lemma_push_orderly(charged, start);
            let opened = if open {
                charged
            } else {
                charged.with(start)
            };
            lemma_push_orderly(opened, document::bare(ElementKind::ListItem { ordered: false }, t, 0));
        },
    }
}

/// What a parser makes of structured data.
#[derive(Debug)]
pub struct StructuredDataResult {
    /// The data as text.
    pub content: String,
    /// The name of the format.
    pub format: String,
    /// The names of the fields that hold text.
    pub text_fields: Vec<String>,
    /// Every leaf as a path and a value.
    pub flattened: Vec<String>,
    /// What the parser says of the data, by name.
    pub metadata: Vec<(String, String)>,
    /// The data, if they were read as values.
    pub value: Option<JsonValue>,
}

/// A leaf of a value: a scalar and where it stands.
#[verifier::ext_equal]
pub struct LeafData {
    /// Where it stands: names with a point between them, and positions in brackets.
    pub path: Seq<char>,
    /// What it looks like when it is written out.
    pub text: Seq<char>,
    /// Whether it is a text.
    pub is_text: bool,
}

/// A leaf of a value.
#[derive(Clone, Debug)]
pub struct Leaf {
    /// Where it stands: names with a point between them, and positions in brackets.
    pub path: String,
    /// What it looks like when it is written out.
    pub text: String,
    /// Whether it is a text.
    pub is_text: bool,
}

impl View for Leaf {
    type V = LeafData;

    open spec fn view(&self) -> LeafData {
        LeafData { path: self.path@, text: self.text@, is_text: self.is_text }
    }
}

/// Leaves, with their texts as sequences.
pub open spec fn leaf_views(leaves: Seq<Leaf>) -> Seq<LeafData> {
    leaves.map_values(|leaf: Leaf| leaf@)
}

/// The path of a named value of an object.
pub open spec fn member_path(path: Seq<char>, name: Seq<char>) -> Seq<char> {
    if path.len() == 0 {
        name
    } else {
        path + "."@ + name
    }
}

/// The path of a value of a list.
pub open spec fn item_path(path: Seq<char>, position: nat) -> Seq<char> {
    path + "["@ + text::decimal(position) + "]"@
}

/// The leaves of a value that stands at a path, in reading order.
pub open spec fn leaves_of(path: Seq<char>, value: json::Json) -> Seq<LeafData>
    decreases value, 1int,
{
    match value {
        json::Json::Array(items) => item_leaves(path, items),
        json::Json::Object(members) => member_leaves(path, members),
        _ => seq![LeafData { path, text: scalar_text(value), is_text: value is Text }],
    }
}

/// The leaves of a list.
pub open spec fn item_leaves(path: Seq<char>, items: Seq<json::Json>) -> Seq<LeafData>
    decreases items, 0int,
{
    if items.len() == 0 {
        Seq::empty()
    } else {
        item_leaves(path, items.drop_last()) + leaves_of(
            item_path(path, (items.len() - 1) as nat),
            items[items.len() - 1],
        )
    }
}

/// The leaves of an object.
pub open spec fn member_leaves(path: Seq<char>, members: Seq<(Seq<char>, json::Json)>) -> Seq<LeafData>
    decreases members, 0int,
{
    if members.len() == 0 {
        Seq::empty()
    } else {
        member_leaves(path, members.drop_last()) + leaves_of(
            member_path(path, members[members.len() - 1].0),
            members[members.len() - 1].1,
        )
    }
}

fn push_leaves(out: &mut Vec<Leaf>, path: &str, value: &JsonValue)
    ensures
        leaf_views(final(out)@) == leaf_views(old(out)@) + leaves_of(path@, value@),
    decreases value, 1int,
{
    proof {
        json::lemma_view(*value);
    }
    match value {
        JsonValue::Array(items) => {
            push_item_leaves(out, path, items);
        },
        JsonValue::Object(members) => {
            push_member_leaves(out, path, members);
        },
        _ => {
            let is_text = match value {
                JsonValue::Text(_) => true,
                _ => false,
            };
            let leaf = Leaf { path: path.to_owned(), text: render_scalar(value), is_text };
            let ghost before = out@;
            out.push(leaf);
            proof {
                assert(leaf_views(out@) =~= leaf_views(before) + leaves_of(path@, value@));
            }
        },
    }
}

fn push_item_leaves(out: &mut Vec<Leaf>, path: &str, items: &Vec<JsonValue>)
    ensures
        leaf_views(final(out)@) == leaf_views(old(out)@) + item_leaves(path@, json::values(items@)),
    decreases items@, 0int,
{
    let ghost all = json::values(items@);
    let ghost start = leaf_views(out@);
    let mut i: usize = 0;
    proof {
        assert(all.take(0) =~= Seq::empty());
        assert(start + item_leaves(path@, all.take(0)) =~= start);
    }
    while i < items.len()
        invariant
            i <= items.len(),
            all == json::values(items@),
            leaf_views(out@) == start + item_leaves(path@, all.take(i as int)),
        decreases items.len() - i,
    {
        proof {
            assert(all.take(i + 1).drop_last() =~= all.take(i as int));
            assert(all.take(i + 1)[i as int] == items@[i as int]@);
            assert(decreases_to!(items@ => items@[i as int]));
        }
        let mut inner = path.to_owned();
        inner.append("[");
        push_decimal(&mut inner, i as u64);
        inner.append("]");
        push_leaves(out, inner.as_str(), &items[i]);
        proof {
            assert(leaf_views(out@) =~= start + item_leaves(path@, all.take(i + 1)));
        }
        i = i + 1;
    }
    proof {
        assert(all.take(all.len() as int) =~= all);
    }
}

fn push_member_leaves(out: &mut Vec<Leaf>, path: &str, members: &Vec<(String, JsonValue)>)
    ensures
        leaf_views(final(out)@) == leaf_views(old(out)@) + member_leaves(path@, json::members(members@)),
    decreases members@, 0int,
{
    let ghost all = json::members(members@);
    let ghost start = leaf_views(out@);
    let mut i: usize = 0;
    proof {
        assert(all.take(0) =~= Seq::empty());
        assert(start + member_leaves(path@, all.take(0)) =~= start);
    }
    while i < members.len()
        invariant
            i <= members.len(),
            all == json::members(members@),
            leaf_views(out@) == start + member_leaves(path@, all.take(i as int)),
        decreases members.len() - i,
    {
        proof {
            assert(all.take(i + 1).drop_last() =~= all.take(i as int));
            assert(all.take(i + 1)[i as int] == (members@[i as int].0@, members@[i as int].1@));
            assert(decreases_to!(members@ => members@[i as int]));
        }
        let mut inner = path.to_owned();
        if !path.is_empty() {
            inner.append(".");
        }
        inner.append(members[i].0.as_str());
        proof {
            assert(inner@ =~= member_path(path@, members@[i as int].0@));
        }
        push_leaves(out, inner.as_str(), &members[i].1);
        proof {
            assert(leaf_views(out@) =~= start + member_leaves(path@, all.take(i + 1)));
        }
        i = i + 1;
    }
    proof {
        assert(all.take(all.len() as int) =~= all);
    }
}

/// The leaves of a value, in reading order.
pub fn list_leaves(value: &JsonValue) -> (r: Vec<Leaf>)
    ensures
        leaf_views(r@) == leaves_of(Seq::empty(), value@),
{
    let mut out: Vec<Leaf> = Vec::new();
    let root = String::new();
    push_leaves(&mut out, root.as_str(), value);
    proof {
        assert(root@ =~= Seq::<char>::empty());
        assert(leaf_views(out@) =~= leaves_of(Seq::empty(), value@));
    }
    out
}

/// A leaf as a path and a value; one that is the whole value has no path.
pub open spec fn leaf_line(leaf: LeafData) -> Seq<char> {
    if leaf.path.len() == 0 {
        leaf.text
    } else {
        leaf.path + ": "@ + leaf.text
    }
}

/// Leaves, each as a path and a value.
pub open spec fn leaf_lines(leaves: Seq<LeafData>) -> Seq<Seq<char>> {
    leaves.map_values(|leaf: LeafData| leaf_line(leaf))
}

/// The paths of the leaves that are texts.
pub open spec fn text_paths(leaves: Seq<LeafData>) -> Seq<Seq<char>>
    decreases leaves.len(),
{
    if leaves.len() == 0 {
        Seq::empty()
    } else if leaves.last().is_text {
        text_paths(leaves.drop_last()).push(leaves.last().path)
    } else {
        text_paths(leaves.drop_last())
    }
}

/// Every leaf as a path and a value, and the paths of those that are texts.
pub fn report_leaves(leaves: &[Leaf]) -> (r: (Vec<String>, Vec<String>))
    ensures
        text::strings(r.0@) == leaf_lines(leaf_views(leaves@)),
        text::strings(r.1@) == text_paths(leaf_views(leaves@)),
{
    let ghost all = leaf_views(leaves@);
    let mut lines: Vec<String> = Vec::new();
    let mut paths: Vec<String> = Vec::new();
    let mut i: usize = 0;
    proof {
        assert(all.take(0) =~= Seq::empty());
        assert(text::strings(paths@) =~= Seq::empty());
    }
    while i < leaves.len()
        invariant
            i <= leaves.len(),
            all == leaf_views(leaves@),
            text::strings(lines@) == leaf_lines(all).take(i as int),
            text::strings(paths@) == text_paths(all.take(i as int)),
        decreases leaves.len() - i,
    {
        let leaf = &leaves[i];
        let mut line = leaf.path.clone();
        if !leaf.path.as_str().is_empty() {
            line.append(": ");
        }
        line.append(leaf.text.as_str());
        let ghost listed = lines@;
        let ghost named = paths@;
        proof {
            assert(all[i as int] == leaf@);
            assert(line@ =~= leaf_line(leaf@));
            assert(all.take(i + 1).drop_last() =~= all.take(i as int));
            assert(text::strings(listed.push(line)) =~= text::strings(listed).push(line@));
            assert(leaf_lines(all).take(i + 1) =~= leaf_lines(all).take(i as int).push(line@));
        }
        lines.push(line);
        if leaf.is_text {
            let path = leaf.path.clone();
            proof {
                assert(text::strings(named.push(path)) =~= text::strings(named).push(path@));
            }
            paths.push(path);
        }
        i = i + 1;
    }
    proof {
        assert(all.take(all.len() as int) =~= all);
        assert(leaf_lines(all).take(all.len() as int) =~= leaf_lines(all));
    }
    (lines, paths)
}

/// The scalars of a value, in reading order.
pub open spec fn scalars(value: json::Json) -> Seq<json::Json>
    decreases value, 1int,
{
    match value {
        json::Json::Array(items) => item_scalars(items),
        json::Json::Object(members) => member_scalars(members),
        _ => seq![value],
    }
}

/// The scalars of a list.
pub open spec fn item_scalars(items: Seq<json::Json>) -> Seq<json::Json>
    decreases items, 0int,
{
    if items.len() == 0 {
        Seq::empty()
    } else {
        item_scalars(items.drop_last()) + scalars(items[items.len() - 1])
    }
}

/// The scalars of an object.
pub open spec fn member_scalars(members: Seq<(Seq<char>, json::Json)>) -> Seq<json::Json>
    decreases members, 0int,
{
    if members.len() == 0 {
        Seq::empty()
    } else {
        member_scalars(members.drop_last()) + scalars(members[members.len() - 1].1)
    }
}

/// Whether leaves stand for scalars, one for one and in their order.
pub open spec fn stand_for(leaves: Seq<LeafData>, values: Seq<json::Json>) -> bool {
    &&& leaves.len() == values.len()
    &&& forall|i: int|
        0 <= i < leaves.len() ==> (#[trigger] leaves[i]).text == scalar_text(values[i]) && leaves[i].is_text
            == (values[i] is Text)
}

/// Every scalar of a value is listed as a leaf, once and in its order, and nothing else is.
pub proof fn law_every_scalar_is_listed_once(path: Seq<char>, value: json::Json)
    ensures
        stand_for(leaves_of(path, value), scalars(value)),
    decreases value, 1int,
{
    match value {
        json::Json::Array(items) => {
            lemma_items_are_listed(path, items);
        },
        json::Json::Object(members) => {
            lemma_members_are_listed(path, members);
        },
        _ => {},
    }
}

proof fn lemma_items_are_listed(path: Seq<char>, items: Seq<json::Json>)
    ensures
        stand_for(item_leaves(path, items), item_scalars(items)),
    decreases items, 0int,
{
    if items.len() > 0 {
        lemma_items_are_listed(path, items.drop_last());
        law_every_scalar_is_listed_once(item_path(path, (items.len() - 1) as nat), items[items.len() - 1]);
    }
}

proof fn lemma_members_are_listed(path: Seq<char>, members: Seq<(Seq<char>, json::Json)>)
    ensures
        stand_for(member_leaves(path, members), member_scalars(members)),
    decreases members, 0int,
{
    if members.len() > 0 {
        lemma_members_are_listed(path, members.drop_last());
        law_every_scalar_is_listed_once(
            member_path(path, members[members.len() - 1].0),
            members[members.len() - 1].1,
        );
    }
}

/// The format that a media type stands for.
pub open spec fn format_of(mime_type: Seq<char>) -> Seq<char> {
    if mime_type == "application/json"@ || mime_type == "text/json"@ || mime_type == "application/csl+json"@ || mime_type == "application/geo+json"@ || mime_type == "application/vnd.geo+json"@ {
        "json"@
    } else if mime_type == "application/x-ndjson"@ || mime_type == "application/jsonl"@ || mime_type == "application/x-jsonlines"@ {
        "jsonl"@
    } else if mime_type == "application/yaml"@ || mime_type == "application/x-yaml"@ || mime_type == "text/yaml"@ || mime_type == "text/x-yaml"@ {
        "yaml"@
    } else if mime_type == "application/toml"@ || mime_type == "text/toml"@ {
        "toml"@
    } else {
        "structured"@
    }
}

/// Whether a media type stands for a format that can be read.
pub open spec fn is_supported(mime_type: Seq<char>) -> bool {
    mime_type == "application/json"@ || mime_type == "text/json"@ || mime_type == "application/csl+json"@ || mime_type == "application/geo+json"@ || mime_type == "application/vnd.geo+json"@ || mime_type == "application/x-ndjson"@ || mime_type == "application/jsonl"@ || mime_type == "application/x-jsonlines"@ || mime_type == "application/yaml"@ || mime_type == "application/x-yaml"@ || mime_type == "text/yaml"@ || mime_type == "text/x-yaml"@ || mime_type == "application/toml"@ || mime_type == "text/toml"@
}

/// The language of a block of code in a format.
pub open spec fn language_of(mime_type: Seq<char>) -> Option<Seq<char>> {
    let format = format_of(mime_type);
    if format == "json"@ || format == "jsonl"@ {
        Some("json"@)
    } else if format == "yaml"@ {
        Some("yaml"@)
    } else if format == "toml"@ {
        Some("toml"@)
    } else {
        None
    }
}

/// The format that a media type stands for.
pub fn source_format(mime_type: &str) -> (r: &'static str)
    ensures
        r@ == format_of(mime_type@),
{
    if same_str(mime_type, "application/json") || same_str(mime_type, "text/json") || same_str(mime_type, "application/csl+json") || same_str(mime_type, "application/geo+json") || same_str(mime_type, "application/vnd.geo+json") {
        "json"
    } else if same_str(mime_type, "application/x-ndjson") || same_str(mime_type, "application/jsonl") || same_str(mime_type, "application/x-jsonlines") {
        "jsonl"
    } else if same_str(mime_type, "application/yaml") || same_str(mime_type, "application/x-yaml") || same_str(mime_type, "text/yaml") || same_str(mime_type, "text/x-yaml") {
        "yaml"
    } else if same_str(mime_type, "application/toml") || same_str(mime_type, "text/toml") {
        "toml"
    } else {
        "structured"
    }
}

/// The document of parsed data, under a budget: structure where there are members or items, and
/// else the text as a block of code.
pub open spec fn data_built(result: StructuredDataResult, mime_type: Seq<char>, budget: SecurityBudget) -> Build {
    let format = format_of(mime_type);
    let b = Build { content: document::empty_content(format), ledger: security::open_ledger(budget) };
    let as_code = b.paid(b.ledger.accounted(result.content@)).with(
        document::Element {
            language: language_of(mime_type),
            ..document::bare(ElementKind::Code, result.content@, 0)
        },
    );
    if format == "structured"@ {
        as_code
    } else {
        match result.value {
            Some(value) => match value@ {
                json::Json::Object(_) => value_built(b, value@, 1),
                json::Json::Array(items) => if items.len() > 0 {
                    array_built(b, items, 1)
                } else {
                    as_code
                },
                _ => as_code,
            },
            None => as_code,
        }
    }
}

/// The document of parsed data.
pub fn build_internal_document(result: &StructuredDataResult, mime_type: &str, budget: SecurityBudget) -> (r:
    StructureBuilder)
    ensures
        r@ == data_built(*result, mime_type@, budget),
        document::is_blank_metadata(r.doc.metadata),
{
    let format = source_format(mime_type);
    let mut builder = StructureBuilder::new(format, budget);
    if !same_str(format, "structured") {
        if let Some(value) = &result.value {
            proof {
                json::lemma_view(*value);
            }
            match value {
                JsonValue::Object(_) => {
                    builder.build_json_internal_structure(value, 1);
                    return builder;
                },
                JsonValue::Array(items) => {
                    if items.len() > 0 {
                        builder.build_json_array(items, 1);
                        return builder;
                    }
                },
                _ => {},
            }
        }
    }
    builder.ledger.account_text(result.content.as_str());
    if !builder.ledger.failed() {
        let language = if same_str(format, "json") || same_str(format, "jsonl") {
            Some("json")
        } else if same_str(format, "yaml") {
            Some("yaml")
        } else if same_str(format, "toml") {
            Some("toml")
        } else {
            None
        };
        builder.doc.push_code(result.content.as_str(), language);
    }
    builder
}

/// Reads structured data.
#[derive(Clone, Copy, Debug)]
pub struct StructuredExtractor;

impl Default for StructuredExtractor {
    fn default() -> (r: Self)
        ensures
            r == StructuredExtractor,
    {
        StructuredExtractor
    }
}

impl StructuredExtractor {
    /// The reader.
    pub fn new() -> (r: Self)
        ensures
            r == StructuredExtractor,
    {
        StructuredExtractor
    }

    /// Its name.
    pub fn name(&self) -> (r: &'static str)
        ensures
            r@ == "structured-extractor"@,
    {
        "structured-extractor"
    }

    /// Its version, which is that of the package.
    pub fn version(&self) -> (r: String)
        ensures
            r@ == "1.0.0"@,
    {
        package_version()
    }

    /// Makes it ready; there is nothing to do.
    pub fn initialize(&self) -> (r: Result<(), XbergError>)
        ensures
            r == (Ok::<(), XbergError>(())),
    {
        Ok(())
    }

    /// Lays it down; there is nothing to do.
    pub fn shutdown(&self) -> (r: Result<(), XbergError>)
        ensures
            r == (Ok::<(), XbergError>(())),
    {
        Ok(())
    }

    /// The media types that it reads.
    pub fn supported_mime_types(&self) -> (r: Vec<&'static str>)
        ensures
            r@ == seq![
                "application/json",
                "text/json",
                "application/csl+json",
                "application/geo+json",
                "application/vnd.geo+json",
                "application/x-ndjson",
                "application/jsonl",
                "application/x-jsonlines",
                "application/yaml",
                "application/x-yaml",
                "text/yaml",
                "text/x-yaml",
                "application/toml",
                "text/toml",
            ],
    {
        vec![
            "application/json",
            "text/json",
            "application/csl+json",
            "application/geo+json",
            "application/vnd.geo+json",
            "application/x-ndjson",
            "application/jsonl",
            "application/x-jsonlines",
            "application/yaml",
            "application/x-yaml",
            "text/yaml",
            "text/x-yaml",
            "application/toml",
            "text/toml",
        ]
    }

    /// Its rank among the readers of a media type.
    pub fn priority(&self) -> (r: i32)
        ensures
            r == 50,
    {
        50
    }
}

/// Named texts added to an object.
pub open spec fn with_texts(object: Seq<(Seq<char>, json::Json)>, entries: Seq<(Seq<char>, Seq<char>)>) -> Seq<
    (Seq<char>, json::Json),
>
    decreases entries.len(),
{
    if entries.len() == 0 {
        object
    } else {
        json::with_member(
            with_texts(object, entries.drop_last()),
            entries.last().0,
            json::Json::Text(entries.last().1),
        )
    }
}

/// What is said of parsed data: the number of its text fields, its format, for geographic data
/// whether they were summarised and their summary, every leaf, and what the parser says.
pub open spec fn additional_metadata(
    result: StructuredDataResult,
    is_geojson: bool,
    summarized: bool,
) -> Seq<(Seq<char>, json::Json)> {
    let counted = seq![
        ("field_count"@, json::count_number(result.text_fields@.len())),
        ("data_format"@, json::Json::Text(result.format@)),
    ];
    let flagged = if is_geojson {
        counted.push(("geojson_summarized"@, json::Json::Bool(summarized)))
    } else {
        counted
    };
    let summed = if is_geojson && summarized && result.value is Some {
        flagged.push(("geojson_summary"@, result.value->0@))
    } else {
        flagged
    };
    let listed = if result.flattened@.len() > 0 {
        summed.push(("flattened_fields"@, json::text_values(text::strings(result.flattened@))))
    } else {
        summed
    };
    with_texts(listed, document::pairs(result.metadata@))
}

/// What is said of parsed data.
pub fn build_additional_metadata(result: &StructuredDataResult, is_geojson: bool, summarized: bool) -> (r: Vec<
    (String, JsonValue),
>)
    ensures
        json::members(r@) == additional_metadata(*result, is_geojson, summarized),
{
    let mut out: Vec<(String, JsonValue)> = Vec::new();
    proof {
        assert(json::members(out@) =~= Seq::empty());
    }
    json::push_member(&mut out, "field_count", json::number_of_count(result.text_fields.len()));
    json::push_member(&mut out, "data_format", JsonValue::Text(result.format.clone()));
    proof {
        assert(json::members(out@) =~= seq![
            ("field_count"@, json::count_number(result.text_fields@.len())),
            ("data_format"@, json::Json::Text(result.format@)),
        ]);
    }
    if is_geojson {
        json::push_member(&mut out, "geojson_summarized", JsonValue::Bool(summarized));
        if summarized {
            if let Some(value) = &result.value {
                json::push_member(&mut out, "geojson_summary", json::copy_value(value));
            }
        }
    }
    if result.flattened.len() > 0 {
        json::push_member(&mut out, "flattened_fields", json::list_of_texts(result.flattened.as_slice()));
    }
    let ghost listed = json::members(out@);
    let ghost all = document::pairs(result.metadata@);
    let mut i: usize = 0;
    while i < result.metadata.len()
        invariant
            i <= result.metadata.len(),
            all == document::pairs(result.metadata@),
            json::members(out@) == with_texts(listed, all.take(i as int)),
        decreases result.metadata.len() - i,
    {
        let entry = &result.metadata[i];
        proof {
            assert(all.take(i + 1).drop_last() =~= all.take(i as int));
            assert(all.take(i + 1).last() == (entry.0@, entry.1@));
        }
        json::set_member(&mut out, entry.0.as_str(), JsonValue::Text(entry.1.clone()));
        i = i + 1;
    }
    proof {
        assert(all.take(all.len() as int) =~= all);
    }
    out
}

/// Whether a media type stands for geographic data.
pub open spec fn is_geographic(mime_type: Seq<char>) -> bool {
    mime_type == "application/geo+json"@ || mime_type == "application/vnd.geo+json"@
}

/// Whether data of a media type are summarised: geographic data are, unless the whole document is
/// asked for.
pub open spec fn is_summarized(mime_type: Seq<char>, config: ExtractionConfig) -> bool {
    is_geographic(mime_type) && !(config.geojson is Some && config.geojson->0.include_full_coordinates)
}

/// Whether data of a media type are summarised.
pub fn summarizes(mime_type: &str, config: &ExtractionConfig) -> (r: bool)
    ensures
        r == is_summarized(mime_type@, *config),
{
    let full = match &config.geojson {
        Some(options) => options.include_full_coordinates,
        None => false,
    };
    (same_str(mime_type, "application/geo+json") || same_str(mime_type, "application/vnd.geo+json")) && !full
}

/// The warning about a summary.
pub open spec fn summary_warning() -> Seq<char> {
    "GeoJSON was replaced by a bounded aggregate summary; inspect `metadata.geojson_summary.discarded_categories` for omitted data, or set `geojson.include_full_coordinates` to true to preserve the full document."@
}

/// The content of parsed data as a document of its media type.
pub open spec fn data_content(built: document::Content, mime_type: Seq<char>, summarized: bool) -> document::Content {
    let typed = document::Content { mime_type, ..built };
    if summarized {
        typed.with_warning("geojson"@, summary_warning())
    } else {
        typed
    }
}

/// The values of lines, one per line that is not blank, or why the first bad one holds none.
pub open spec fn rows_read(lines: Seq<Seq<char>>) -> Result<Seq<json::Json>, Seq<char>>
    decreases lines.len(),
{
    if lines.len() == 0 {
        Ok(Seq::empty())
    } else {
        match rows_read(lines.drop_last()) {
            Err(reason) => Err(reason),
            Ok(rows) => if text::trimmed(lines.last()).len() == 0 {
                Ok(rows)
            } else {
                match json::json_read(vstd::utf8::encode_utf8(lines.last())) {
                    Ok(value) => Ok(rows.push(value)),
                    Err(reason) => Err(reason),
                }
            },
        }
    }
}

/// The value that data of a format hold, or why they hold none.
pub open spec fn data_read(format: Seq<char>, content: Seq<u8>) -> Result<json::Json, Seq<char>> {
    if format == "json"@ {
        json::json_read(content)
    } else if !vstd::utf8::valid_utf8(content) {
        Err("the data are not valid UTF-8"@)
    } else if format == "jsonl"@ {
        match rows_read(text::lines_of(vstd::utf8::decode_utf8(content))) {
            Ok(rows) => Ok(json::Json::Array(rows)),
            Err(reason) => Err(reason),
        }
    } else if format == "toml"@ {
        json::toml_read(vstd::utf8::decode_utf8(content))
    } else {
        json::yaml_read(vstd::utf8::decode_utf8(content))
    }
}

fn read_rows(lines: &[Vec<char>]) -> (r: Result<Vec<JsonValue>, String>)
    ensures
        match r {
            Ok(rows) => rows_read(text::texts(lines@)) == Ok::<Seq<json::Json>, Seq<char>>(json::values(rows@)),
            Err(reason) => rows_read(text::texts(lines@)) == Err::<Seq<json::Json>, Seq<char>>(reason@),
        },
{
    let ghost all = text::texts(lines@);
    let mut rows: Vec<JsonValue> = Vec::new();
    let mut i: usize = 0;
    proof {
        assert(json::values(rows@) =~= Seq::empty());
        assert(all.take(0) =~= Seq::empty());
    }
    while i < lines.len()
        invariant
            i <= lines.len(),
            all == text::texts(lines@),
            rows_read(all.take(i as int)) == Ok::<Seq<json::Json>, Seq<char>>(json::values(rows@)),
        decreases lines.len() - i,
    {
        proof {
            assert(all.take(i + 1).drop_last() =~= all.take(i as int));
            assert(all.take(i + 1).last() == lines@[i as int]@);
        }
        if trim(lines[i].as_slice()).len() > 0 {
            let line = string_of(lines[i].as_slice());
            match read_json(line.as_str().as_bytes()) {
                Ok(value) => {
                    proof {
                        assert(json::values(rows@.push(value)) =~= json::values(rows@).push(value@));
                    }
                    rows.push(value);
                },
                Err(reason) => {
                    proof {
                        lemma_bad_row_stays(all, i + 1);
                    }
                    return Err(reason);
                },
            }
        }
        i = i + 1;
    }
    proof {
        assert(all.take(all.len() as int) =~= all);
    }
    Ok(rows)
}

proof fn lemma_bad_row_stays(lines: Seq<Seq<char>>, n: int)
    requires
        0 <= n <= lines.len(),
        rows_read(lines.take(n)) is Err,
    ensures
        rows_read(lines) == rows_read(lines.take(n)),
    decreases lines.len() - n,
{
    if n == lines.len() {
        assert(lines.take(n) =~= lines);
    } else {
        assert(lines.take(n + 1).drop_last() =~= lines.take(n));
        lemma_bad_row_stays(lines, n + 1);
    }
}

fn read_data(format: &str, content: &[u8]) -> (r: Result<JsonValue, String>)
    ensures
        match r {
            Ok(value) => data_read(format@, content@) == Ok::<json::Json, Seq<char>>(value@),
            Err(reason) => data_read(format@, content@) == Err::<json::Json, Seq<char>>(reason@),
        },
{
    if same_str(format, "json") {
        return read_json(content);
    }
    match utf8_text(content) {
        None => Err("the data are not valid UTF-8".to_owned()),
        Some(t) => {
            if same_str(format, "jsonl") {
                match read_rows(lines(chars_of(t.as_str()).as_slice()).as_slice()) {
                    Ok(rows) => {
                        let value = JsonValue::Array(rows);
                        proof {
                            json::lemma_view(value);
                        }
                        Ok(value)
                    },
                    Err(reason) => Err(reason),
                }
            } else if same_str(format, "toml") {
                read_toml(t.as_str())
            } else {
                read_yaml(t.as_str())
            }
        },
    }
}

/// Whether a result tells the value that data of a media type hold: that the media type is unknown, why the data
/// cannot be parsed, or the value. Of geographic data it is a summary, unless the whole document is asked for.
pub open spec fn tells_value(
    r: Result<JsonValue, XbergError>,
    content: Seq<u8>,
    mime_type: Seq<char>,
    config: ExtractionConfig,
) -> bool {
    let format = format_of(mime_type);
    if !is_supported(mime_type) {
        r matches Err(XbergError::UnsupportedFormat(name)) && name@ == mime_type
    } else if is_summarized(mime_type, config) {
        geojson::tells_summary(r, content, config)
    } else {
        match data_read(format, content) {
            Ok(value) => r matches Ok(found) && found@ == value,
            Err(reason) => r is Err && error::tells_parsing(
                r->Err_0,
                "Failed to parse "@ + format + ": "@ + reason,
            ),
        }
    }
}

/// Reads the value that data of a media type hold.
pub fn read_value(content: &[u8], mime_type: &str, config: &ExtractionConfig) -> (r: Result<JsonValue, XbergError>)
    ensures
        tells_value(r, content@, mime_type@, *config),
{
    let format = source_format(mime_type);
    proof {
        lemma_formats_differ();
    }
    if same_str(format, "structured") {
        return Err(XbergError::UnsupportedFormat(mime_type.to_owned()));
    }
    if summarizes(mime_type, config) {
        return parse_geojson_summary(content, config);
    }
    match read_data(format, content) {
        Ok(value) => Ok(value),
        Err(reason) => {
            let mut message = "Failed to parse ".to_owned();
            message.append(format);
            message.append(": ");
            message.append(reason.as_str());
            Err(XbergError::parsing(message.as_str()))
        },
    }
}

proof fn lemma_formats_differ()
    ensures
        "json"@ != "structured"@,
        "jsonl"@ != "structured"@,
        "yaml"@ != "structured"@,
        "toml"@ != "structured"@,
{
    reveal_strlit("json");
    reveal_strlit("jsonl");
    reveal_strlit("yaml");
    reveal_strlit("toml");
    reveal_strlit("structured");
    assert("json"@.len() < "structured"@.len());
    assert("jsonl"@.len() < "structured"@.len());
    assert("yaml"@.len() < "structured"@.len());
    assert("toml"@.len() < "structured"@.len());
}

/// Whether parsed data hold a value of a media type, their text, every leaf of the value and the names of those that
/// hold text, and nothing else.
pub open spec fn holds_value(
    result: StructuredDataResult,
    content: Seq<u8>,
    mime_type: Seq<char>,
    value: JsonValue,
) -> bool {
    &&& result.content@ == code::lossy_utf8(content)
    &&& result.format@ == format_of(mime_type)
    &&& text::strings(result.text_fields@) == text_paths(leaves_of(Seq::empty(), value@))
    &&& text::strings(result.flattened@) == leaf_lines(leaves_of(Seq::empty(), value@))
    &&& result.metadata@.len() == 0
    &&& result.value == Some(value)
}

/// Whether a result tells the document of parsed data: that their media type is unknown, the ceiling that they pass,
/// or the document.
pub open spec fn tells_document(
    r: Result<InternalDocument, XbergError>,
    result: StructuredDataResult,
    mime_type: Seq<char>,
    config: ExtractionConfig,
) -> bool {
    if !is_supported(mime_type) {
        r matches Err(XbergError::UnsupportedFormat(name)) && name@ == mime_type
    } else {
        let built = data_built(result, mime_type, security::configured_budget(config));
        match built.ledger.verdict {
            Ok(()) => {
                &&& r matches Ok(doc)
                &&& doc@ == data_content(built.content, mime_type, is_summarized(mime_type, config))
                &&& json::members(doc.metadata.additional@) == additional_metadata(
                    result,
                    is_geographic(mime_type),
                    is_summarized(mime_type, config),
                )
                &&& document::no_fields(doc.metadata)
            },
            Err(limit) => r is Err && error::reports(r->Err_0, limit),
        }
    }
}

/// Whether a result tells the document of data: what reading their value fails with, or the document of the value.
pub open spec fn tells_data(
    r: Result<InternalDocument, XbergError>,
    content: Seq<u8>,
    mime_type: Seq<char>,
    config: ExtractionConfig,
) -> bool {
    exists|read: Result<JsonValue, XbergError>| #[trigger]
        tells_value(read, content, mime_type, config) && match read {
            Err(e) => r == Err::<InternalDocument, XbergError>(e),
            Ok(value) => exists|result: StructuredDataResult|
                holds_value(result, content, mime_type, value) && #[trigger] tells_document(
                    r,
                    result,
                    mime_type,
                    config,
                ),
        }
}

impl StructuredExtractor {
    /// Reads data of a media type.
    pub fn extract_content(&self, content: &[u8], mime_type: &str, config: &ExtractionConfig) -> (r: Result<
        InternalDocument,
        XbergError,
    >)
        ensures
            tells_data(r, content@, mime_type@, *config),
    {
        let read = read_value(content, mime_type, config);
        let ghost told = read;
        match read {
            Err(e) => {
                proof {
                    assert(tells_value(told, content@, mime_type@, *config));
                }
                Err(e)
            },
            Ok(value) => {
                let (flattened, text_fields) = report_leaves(list_leaves(&value).as_slice());
                let result = StructuredDataResult {
                    content: lossy_text(content),
                    format: source_format(mime_type).to_owned(),
                    text_fields,
                    flattened,
                    metadata: Vec::new(),
                    value: Some(value),
                };
                let r = self.extract_parsed(&result, mime_type, config);
                proof {
                    assert(tells_value(told, content@, mime_type@, *config));
                    assert(holds_value(result, content@, mime_type@, value));
                    assert(tells_document(r, result, mime_type@, *config));
                }
                r
            },
        }
    }
}

impl StructuredExtractor {
    /// The document of parsed data, if they are of a known format and within the ceilings.
    pub fn extract_parsed(&self, result: &StructuredDataResult, mime_type: &str, config: &ExtractionConfig) -> (r: Result<
        InternalDocument,
        XbergError,
    >)
        ensures
            tells_document(r, *result, mime_type@, *config),
    {
        proof {
            lemma_formats_differ();
        }
        if same_str(source_format(mime_type), "structured") {
            return Err(XbergError::UnsupportedFormat(mime_type.to_owned()));
        }
        let summarized = summarizes(mime_type, config);
        let is_geojson = same_str(mime_type, "application/geo+json") || same_str(mime_type, "application/vnd.geo+json");
        let additional = build_additional_metadata(result, is_geojson, summarized);
        let builder = build_internal_document(result, mime_type, SecurityBudget::from_config(config));
        if let Err(limit) = builder.ledger.verdict {
            return Err(security_error(limit));
        }
        let mut doc = builder.doc;
        doc.mime_type = mime_type.to_owned();
        doc.metadata.additional = additional;
        if summarized {
            doc.add_warning(
                "geojson",
                "GeoJSON was replaced by a bounded aggregate summary; inspect `metadata.geojson_summary.discarded_categories` for omitted data, or set `geojson.include_full_coordinates` to true to preserve the full document.".to_owned(),
            );
        }
        Ok(doc)
    }
}

} // verus!
