//! Laws of structured data.
use crate::config::ExtractionConfig;
use crate::document;
use crate::document::{ElementKind, InternalDocument};
use crate::error::XbergError;
use crate::json;
use crate::structured;
use crate::structured::{Build, LeafData, StructuredDataResult};
use crate::text;
use vstd::prelude::*;

verus! {

/// Whether a text tells a scalar: a truth value by its word, a missing value by the word for it, a number by its
/// digits, a text by itself.
pub open spec fn tells(t: Seq<char>, scalar: json::Json) -> bool {
    match scalar {
        json::Json::Null => t == "null"@,
        json::Json::Bool(b) => (b ==> t == "true"@) && (!b ==> t == "false"@),
        json::Json::Number(n) => t == n.text,
        json::Json::Text(s) => t == s,
        _ => false,
    }
}

/// Whether a value is a scalar.
pub open spec fn is_scalar(value: json::Json) -> bool {
    !(value is Array) && !(value is Object)
}

/// Every scalar is written out by a text that tells it, and truth values and missing values are told apart: no two
/// of them look the same.
pub proof fn law_scalars_are_told_apart(value: json::Json, other: json::Json)
    requires
        is_scalar(value),
        is_scalar(other),
    ensures
        tells(structured::scalar_text(value), value),
        (value is Bool || value is Null) && (other is Bool || other is Null) && structured::scalar_text(value)
            == structured::scalar_text(other) ==> value == other,
        value is Bool ==> (structured::scalar_text(value) == "true"@ <==> value == json::Json::Bool(true)),
        value is Bool ==> (structured::scalar_text(value) == "false"@ <==> value == json::Json::Bool(false)),
{
    reveal_strlit("true");
    reveal_strlit("false");
    reveal_strlit("null");
    assert("true"@.len() == 4 && "false"@.len() == 5 && "null"@.len() == 4);
    assert("true"@[0] != "null"@[0]);
}

/// The lines of elements: the texts of their paragraphs and list items, in order.
pub open spec fn lines(elements: Seq<document::Element>) -> Seq<Seq<char>>
    decreases elements.len(),
{
    if elements.len() == 0 {
        Seq::empty()
    } else if elements.last().kind is Paragraph || elements.last().kind is ListItem {
        lines(elements.drop_last()).push(elements.last().text)
    } else {
        lines(elements.drop_last())
    }
}

/// The headings of elements, in order, with their levels.
pub open spec fn headings(elements: Seq<document::Element>) -> Seq<(u8, Seq<char>)>
    decreases elements.len(),
{
    if elements.len() == 0 {
        Seq::empty()
    } else {
        match elements.last().kind {
            ElementKind::Heading { level } => headings(elements.drop_last()).push((level, elements.last().text)),
            _ => headings(elements.drop_last()),
        }
    }
}

/// The scalars of a value in reading order, each with the name that it has if it is a member of an object.
pub open spec fn named_scalars(value: json::Json) -> Seq<(Option<Seq<char>>, json::Json)>
    decreases value, 1int,
{
    match value {
        json::Json::Array(items) => named_in_items(items),
        json::Json::Object(members) => named_in_members(members),
        _ => seq![(None, value)],
    }
}

/// The scalars of a list.
pub open spec fn named_in_items(items: Seq<json::Json>) -> Seq<(Option<Seq<char>>, json::Json)>
    decreases items, 0int,
{
    if items.len() == 0 {
        Seq::empty()
    } else {
        named_in_items(items.drop_last()) + named_scalars(items[items.len() - 1])
    }
}

/// The scalars of an object.
pub open spec fn named_in_members(members: Seq<(Seq<char>, json::Json)>) -> Seq<(Option<Seq<char>>, json::Json)>
    decreases members, 0int,
{
    if members.len() == 0 {
        Seq::empty()
    } else {
        let name = members[members.len() - 1].0;
        let value = members[members.len() - 1].1;
        named_in_members(members.drop_last()) + match value {
            json::Json::Array(_) | json::Json::Object(_) => named_scalars(value),
            _ => seq![(Some(name), value)],
        }
    }
}

/// The values below a value that hold others, in reading order: how far down each stands, and the name of a member
/// or the position of an item, which counts from one.
pub open spec fn branches(value: json::Json) -> Seq<(nat, Seq<char>)>
    decreases value, 1int,
{
    match value {
        json::Json::Array(items) => branches_of_items(items),
        json::Json::Object(members) => branches_of_members(members),
        _ => Seq::empty(),
    }
}

/// The values of a list that hold others.
pub open spec fn branches_of_items(items: Seq<json::Json>) -> Seq<(nat, Seq<char>)>
    decreases items, 0int,
{
    if items.len() == 0 {
        Seq::empty()
    } else {
        let value = items[items.len() - 1];
        branches_of_items(items.drop_last()) + match value {
            json::Json::Array(_) | json::Json::Object(_) => seq![(0nat, "Item "@ + text::decimal(items.len()))]
                + lowered(branches(value)),
            _ => Seq::empty(),
        }
    }
}

/// The values of an object that hold others.
pub open spec fn branches_of_members(members: Seq<(Seq<char>, json::Json)>) -> Seq<(nat, Seq<char>)>
    decreases members, 0int,
{
    if members.len() == 0 {
        Seq::empty()
    } else {
        let name = members[members.len() - 1].0;
        let value = members[members.len() - 1].1;
        branches_of_members(members.drop_last()) + match value {
            json::Json::Array(_) | json::Json::Object(_) => seq![(0nat, name)] + lowered(branches(value)),
            _ => Seq::empty(),
        }
    }
}

/// Branches, one level further down.
pub open spec fn lowered(all: Seq<(nat, Seq<char>)>) -> Seq<(nat, Seq<char>)> {
    all.map_values(|b: (nat, Seq<char>)| (b.0 + 1, b.1))
}

/// Whether lines tell scalars, one for one and in their order: a member by its name and its value, an item by its
/// value.
pub open spec fn tell_all(found: Seq<Seq<char>>, scalars: Seq<(Option<Seq<char>>, json::Json)>) -> bool {
    &&& found.len() == scalars.len()
    &&& forall|i: int| 0 <= i < found.len() ==> #[trigger] tells_named(found[i], scalars[i].0, scalars[i].1)
}

/// Whether a line tells a scalar: by its value alone, or by its name and its value.
pub open spec fn tells_named(line: Seq<char>, name: Option<Seq<char>>, scalar: json::Json) -> bool {
    match name {
        None => tells(line, scalar),
        Some(n) => exists|t: Seq<char>| #[trigger] tells(t, scalar) && line == n + ": "@ + t,
    }
}

/// Whether headings stand for branches below a depth, one for one and in their order; no level is below the sixth.
pub open spec fn head_all(found: Seq<(u8, Seq<char>)>, all: Seq<(nat, Seq<char>)>, depth: int) -> bool {
    &&& found.len() == all.len()
    &&& forall|i: int|
        0 <= i < found.len() ==> (#[trigger] found[i]).1 == all[i].1 && found[i].0 == if depth + all[i].0 < 6 {
            depth + all[i].0
        } else {
            6
        }
}

/// What a value adds to a document whose ceilings hold: lines for its scalars and headings for its branches.
spec fn adds(
    before: Build,
    after: Build,
    scalars: Seq<(Option<Seq<char>>, json::Json)>,
    all: Seq<(nat, Seq<char>)>,
    depth: int,
) -> bool {
    let b = before.content.elements;
    let a = after.content.elements;
    after.ledger.verdict is Ok ==> {
        &&& before.ledger.verdict is Ok
        &&& b.len() <= a.len()
        &&& a.take(b.len() as int) == b
        &&& tell_all(lines(a.skip(b.len() as int)), scalars)
        &&& head_all(headings(a.skip(b.len() as int)), all, depth)
    }
}

proof fn lemma_in_parts(x: Seq<document::Element>, y: Seq<document::Element>)
    ensures
        lines(x + y) == lines(x) + lines(y),
        headings(x + y) == headings(x) + headings(y),
    decreases y.len(),
{
    if y.len() == 0 {
        assert(x + y =~= x);
        assert(lines(x) + lines(y) =~= lines(x));
        assert(headings(x) + headings(y) =~= headings(x));
    } else {
        assert((x + y).drop_last() =~= x + y.drop_last());
        lemma_in_parts(x, y.drop_last());
        assert(lines(x + y) =~= lines(x) + lines(y));
        assert(headings(x + y) =~= headings(x) + headings(y));
    }
}

#[verifier::spinoff_prover]
#[verifier::rlimit(60)]
proof fn lemma_adds_in_turn(
    a: Build,
    b: Build,
    c: Build,
    s1: Seq<(Option<Seq<char>>, json::Json)>,
    s2: Seq<(Option<Seq<char>>, json::Json)>,
    h1: Seq<(nat, Seq<char>)>,
    h2: Seq<(nat, Seq<char>)>,
    depth: int,
)
    requires
        adds(a, b, s1, h1, depth),
        adds(b, c, s2, h2, depth),
    ensures
        adds(a, c, s1 + s2, h1 + h2, depth),
{
    if c.ledger.verdict is Ok {
        let (x, y, z) = (a.content.elements, b.content.elements, c.content.elements);
        let first = y.skip(x.len() as int);
        let second = z.skip(y.len() as int);
        assert(z.take(y.len() as int) + second =~= z);
        assert(y.take(x.len() as int) + first =~= y);
        assert(z =~= x + first + second);
        assert(z.skip(x.len() as int) =~= first + second);
        assert(z.take(x.len() as int) =~= x);
        lemma_in_parts(first, second);
        let found = lines(first) + lines(second);
        let scalars = s1 + s2;
        assert forall|i: int| 0 <= i < found.len() implies #[trigger] tells_named(
            found[i],
            scalars[i].0,
            scalars[i].1,
        ) by {
            if i < s1.len() {
                assert(tells_named(lines(first)[i], s1[i].0, s1[i].1));
            } else {
                assert(tells_named(lines(second)[i - s1.len()], s2[i - s1.len()].0, s2[i - s1.len()].1));
            }
        }
    }
}

/// A step that adds no element.
proof fn lemma_adds_nothing(a: Build, b: Build, depth: int)
    requires
        a.content.elements == b.content.elements,
        b.ledger.verdict is Ok ==> a.ledger.verdict is Ok,
    ensures
        adds(a, b, Seq::empty(), Seq::empty(), depth),
{
    let x = a.content.elements;
    assert(x.take(x.len() as int) =~= x);
    assert(x.skip(x.len() as int) =~= Seq::empty());
}

/// A step that adds one element.
proof fn lemma_adds_one(a: Build, e: document::Element, name: Option<Seq<char>>, scalar: json::Json, level: nat, depth: int)
    requires
        e.kind is Paragraph || e.kind is ListItem ==> tells_named(e.text, name, scalar),
        e.kind matches ElementKind::Heading { level: l } ==> l == if depth + level < 6 {
            depth + level
        } else {
            6
        },
    ensures
        e.kind is Paragraph || e.kind is ListItem ==> adds(a, a.with(e), seq![(name, scalar)], Seq::empty(), depth),
        e.kind is Heading ==> adds(a, a.with(e), Seq::empty(), seq![(level, e.text)], depth),
        e.kind is ListStart || e.kind is ListEnd ==> adds(a, a.with(e), Seq::empty(), Seq::empty(), depth),
{
    let x = a.content.elements;
    if a.ledger.verdict is Ok {
        let y = x.push(e);
        assert(a.with(e).content.elements == y);
        assert(y.take(x.len() as int) =~= x);
        let added = y.skip(x.len() as int);
        assert(added =~= seq![e]);
        assert(added.drop_last() =~= Seq::empty());
        assert(lines(Seq::empty()) =~= Seq::empty());
        assert(headings(Seq::empty()) =~= Seq::empty());
        reveal_with_fuel(lines, 2);
        reveal_with_fuel(headings, 2);
    }
}

/// What stands one level further down.
proof fn lemma_adds_lower(a: Build, b: Build, scalars: Seq<(Option<Seq<char>>, json::Json)>, all: Seq<(nat, Seq<char>)>, depth: u8)
    requires
        adds(a, b, scalars, all, structured::below(depth) as int),
    ensures
        adds(a, b, scalars, lowered(all), depth as int),
{
    if b.ledger.verdict is Ok {
        let found = headings(b.content.elements.skip(a.content.elements.len() as int));
        assert forall|i: int| 0 <= i < found.len() implies (#[trigger] found[i]).1 == lowered(all)[i].1 && found[i].0
            == if depth + lowered(all)[i].0 < 6 {
            depth + lowered(all)[i].0
        } else {
            6
        } by {
            assert(found[i].1 == all[i].1);
        }
    }
}

proof fn lemma_value_adds(b: Build, value: json::Json, depth: u8)
    ensures
        adds(b, structured::value_built(b, value, depth), named_scalars(value), branches(value), depth as int),
    decreases value, 1int,
{
    match value {
        json::Json::Object(members) => {
            let entered = b.paid(b.ledger.entered());
            let done = structured::members_built(entered, members, depth);
            lemma_adds_nothing(b, entered, depth as int);
            lemma_members_add(entered, members, depth);
            lemma_adds_nothing(done, done.paid(done.ledger.left()), depth as int);
            lemma_three(b, entered, done, done.paid(done.ledger.left()), named_scalars(value), branches(value), depth);
        },
        json::Json::Array(items) => {
            lemma_array_adds(b, items, depth);
        },
        _ => {
            law_scalars_are_told_apart(value, value);
            let t = structured::scalar_text(value);
            let charged = match value {
                json::Json::Text(s) => b.paid(b.ledger.checked(s)).paid(b.ledger.checked(s).accounted(t)),
                _ => b.paid(b.ledger.accounted(t)),
            };
            let e = document::bare(ElementKind::Paragraph, t, 0);
            lemma_adds_nothing(b, charged, depth as int);
            lemma_adds_one(charged, e, None, value, 0, depth as int);
            lemma_adds_in_turn(
                b,
                charged,
                charged.with(e),
                Seq::empty(),
                seq![(None, value)],
                Seq::empty(),
                Seq::empty(),
                depth as int,
            );
            assert(Seq::<(Option<Seq<char>>, json::Json)>::empty() + seq![(None, value)] =~= seq![(None, value)]);
            assert(Seq::<(nat, Seq<char>)>::empty() + Seq::<(nat, Seq<char>)>::empty() =~= Seq::empty());
        },
    }
}

/// A part between two steps that add nothing.
proof fn lemma_three(
    a: Build,
    b: Build,
    c: Build,
    d: Build,
    scalars: Seq<(Option<Seq<char>>, json::Json)>,
    all: Seq<(nat, Seq<char>)>,
    depth: u8,
)
    requires
        adds(a, b, Seq::empty(), Seq::empty(), depth as int),
        adds(b, c, scalars, all, depth as int),
        adds(c, d, Seq::empty(), Seq::empty(), depth as int),
    ensures
        adds(a, d, scalars, all, depth as int),
{
    lemma_adds_in_turn(a, b, c, Seq::empty(), scalars, Seq::empty(), all, depth as int);
    assert(Seq::empty() + scalars =~= scalars);
    assert(Seq::empty() + all =~= all);
    lemma_adds_in_turn(a, c, d, scalars, Seq::empty(), all, Seq::empty(), depth as int);
    assert(scalars + Seq::empty() =~= scalars);
    assert(all + Seq::empty() =~= all);
}

proof fn lemma_members_add(b: Build, members: Seq<(Seq<char>, json::Json)>, depth: u8)
    ensures
        adds(
            b,
            structured::members_built(b, members, depth),
            named_in_members(members),
            branches_of_members(members),
            depth as int,
        ),
    decreases members, 0int,
{
    if members.len() == 0 {
        lemma_adds_nothing(b, b, depth as int);
    } else {
        let before = structured::members_built(b, members.drop_last(), depth);
        let name = members[members.len() - 1].0;
        let value = members[members.len() - 1].1;
        lemma_members_add(b, members.drop_last(), depth);
        lemma_member_adds(before, name, value, depth);
        lemma_adds_in_turn(
            b,
            before,
            structured::member_built(before, name, value, depth),
            named_in_members(members.drop_last()),
            if is_scalar(value) {
                seq![(Some(name), value)]
            } else {
                named_scalars(value)
            },
            branches_of_members(members.drop_last()),
            if is_scalar(value) {
                Seq::empty()
            } else {
                seq![(0nat, name)] + lowered(branches(value))
            },
            depth as int,
        );
    }
}

#[verifier::spinoff_prover]
#[verifier::rlimit(60)]
proof fn lemma_member_adds(b: Build, name: Seq<char>, value: json::Json, depth: u8)
    ensures
        adds(
            b,
            structured::member_built(b, name, value, depth),
            if is_scalar(value) {
                seq![(Some(name), value)]
            } else {
                named_scalars(value)
            },
            if is_scalar(value) {
                Seq::empty()
            } else {
                seq![(0nat, name)] + lowered(branches(value))
            },
            depth as int,
        ),
    decreases value, 2int,
{
    let named = b.paid(b.ledger.stepped().checked(name));
    lemma_adds_nothing(b, named, depth as int);
    if is_scalar(value) {
        law_scalars_are_told_apart(value, value);
        let t = structured::scalar_text(value);
        let line = name + ": "@ + t;
        let charged = match value {
            json::Json::Text(s) => named.paid(named.ledger.checked(s).accounted(line)),
            _ => named.paid(named.ledger.accounted(line)),
        };
        let e = document::bare(ElementKind::Paragraph, line, 0);
        lemma_adds_nothing(named, charged, depth as int);
        lemma_adds_one(charged, e, Some(name), value, 0, depth as int);
        let last = charged.with(e);
        let one = seq![(Some(name), value)];
        lemma_adds_in_turn(named, charged, last, Seq::empty(), one, Seq::empty(), Seq::empty(), depth as int);
        assert(Seq::empty() + one =~= one);
        assert(Seq::<(nat, Seq<char>)>::empty() + Seq::<(nat, Seq<char>)>::empty() =~= Seq::empty());
        lemma_adds_in_turn(b, named, last, Seq::empty(), one, Seq::empty(), Seq::empty(), depth as int);
    } else {
        let e = structured::heading(depth, name);
        let headed = named.with(e);
        lemma_adds_one(named, e, None, value, 0, depth as int);
        let last = structured::member_built(b, name, value, depth);
        match value {
            json::Json::Object(_) => {
                lemma_value_adds(headed, value, structured::below(depth));
            },
            json::Json::Array(items) => {
                lemma_array_adds(headed, items, structured::below(depth));
            },
            _ => {},
        }
        lemma_adds_lower(headed, last, named_scalars(value), branches(value), depth);
        lemma_headed(b, named, headed, last, named_scalars(value), name, lowered(branches(value)), depth);
    }
}

/// A step that adds nothing, a heading, and what stands below it.
proof fn lemma_headed(
    a: Build,
    b: Build,
    c: Build,
    d: Build,
    scalars: Seq<(Option<Seq<char>>, json::Json)>,
    label: Seq<char>,
    all: Seq<(nat, Seq<char>)>,
    depth: u8,
)
    requires
        adds(a, b, Seq::empty(), Seq::empty(), depth as int),
        adds(b, c, Seq::empty(), seq![(0nat, label)], depth as int),
        adds(c, d, scalars, all, depth as int),
    ensures
        adds(a, d, scalars, seq![(0nat, label)] + all, depth as int),
{
    let none = Seq::<(Option<Seq<char>>, json::Json)>::empty();
    let one = seq![(0nat, label)];
    lemma_adds_in_turn(b, c, d, none, scalars, one, all, depth as int);
    assert(none + scalars =~= scalars);
    lemma_adds_in_turn(a, b, d, none, scalars, Seq::empty(), one + all, depth as int);
    assert(Seq::empty() + (one + all) =~= one + all);
}

proof fn lemma_array_adds(b: Build, items: Seq<json::Json>, depth: u8)
    ensures
        adds(b, structured::array_built(b, items, depth), named_in_items(items), branches_of_items(items), depth as int),
    decreases items, 1int,
{
    let entered = b.paid(b.ledger.entered());
    let (done, open) = structured::items_built(entered, items, depth);
    lemma_adds_nothing(b, entered, depth as int);
    lemma_items_add(entered, items, depth);
    let e = document::bare(ElementKind::ListEnd, Seq::empty(), 0);
    let closed = if open {
        done.with(e)
    } else {
        done
    };
    lemma_adds_one(done, e, None, json::Json::Null, 0, depth as int);
    lemma_adds_nothing(done, done, depth as int);
    assert(adds(done, closed, Seq::empty(), Seq::empty(), depth as int));
    let last = closed.paid(closed.ledger.left());
    lemma_adds_nothing(closed, last, depth as int);
    lemma_three(b, entered, done, closed, named_in_items(items), branches_of_items(items), depth);
    lemma_adds_nothing(b, b, depth as int);
    lemma_three(b, b, closed, last, named_in_items(items), branches_of_items(items), depth);
}

proof fn lemma_items_add(b: Build, items: Seq<json::Json>, depth: u8)
    ensures
        adds(
            b,
            structured::items_built(b, items, depth).0,
            named_in_items(items),
            branches_of_items(items),
            depth as int,
        ),
    decreases items, 0int,
{
    if items.len() == 0 {
        lemma_adds_nothing(b, b, depth as int);
    } else {
        let (before, open) = structured::items_built(b, items.drop_last(), depth);
        let value = items[items.len() - 1];
        lemma_items_add(b, items.drop_last(), depth);
        lemma_item_adds(before, open, value, items.len() - 1, depth);
        lemma_adds_in_turn(
            b,
            before,
            structured::item_built(before, open, value, items.len() - 1, depth).0,
            named_in_items(items.drop_last()),
            named_scalars(value),
            branches_of_items(items.drop_last()),
            if is_scalar(value) {
                Seq::empty()
            } else {
                seq![(0nat, "Item "@ + text::decimal(items.len()))] + lowered(branches(value))
            },
            depth as int,
        );
    }
}

#[verifier::spinoff_prover]
#[verifier::rlimit(60)]
proof fn lemma_item_adds(b: Build, open: bool, value: json::Json, index: int, depth: u8)
    requires
        0 <= index,
    ensures
        adds(
            b,
            structured::item_built(b, open, value, index, depth).0,
            named_scalars(value),
            if is_scalar(value) {
                Seq::empty()
            } else {
                seq![(0nat, "Item "@ + text::decimal((index + 1) as nat))] + lowered(branches(value))
            },
            depth as int,
        ),
    decreases value, 2int,
{
    let stepped = b.paid(b.ledger.stepped());
    let last = structured::item_built(b, open, value, index, depth).0;
    if is_scalar(value) {
        law_scalars_are_told_apart(value, value);
        let t = structured::scalar_text(value);
        let checked = match value {
            json::Json::Text(s) => stepped.paid(stepped.ledger.checked(s)),
            _ => stepped,
        };
        let charged = checked.paid(checked.ledger.accounted(t));
        let start = document::bare(ElementKind::ListStart { ordered: false }, Seq::empty(), 0);
        let opened = if open {
            charged
        } else {
            charged.with(start)
        };
        let e = document::bare(ElementKind::ListItem { ordered: false }, t, 0);
        lemma_adds_nothing(b, charged, depth as int);
        lemma_adds_nothing(charged, charged, depth as int);
        lemma_adds_one(charged, start, None, value, 0, depth as int);
        assert(adds(charged, opened, Seq::empty(), Seq::empty(), depth as int));
        lemma_adds_one(opened, e, None, value, 0, depth as int);
        let one = seq![(None::<Seq<char>>, value)];
        lemma_adds_in_turn(charged, opened, last, Seq::empty(), one, Seq::empty(), Seq::empty(), depth as int);
        assert(Seq::empty() + one =~= one);
        assert(Seq::<(nat, Seq<char>)>::empty() + Seq::<(nat, Seq<char>)>::empty() =~= Seq::empty());
        lemma_adds_in_turn(b, charged, last, Seq::empty(), one, Seq::empty(), Seq::empty(), depth as int);
    } else {
        let end = document::bare(ElementKind::ListEnd, Seq::empty(), 0);
        let closed = if open {
            stepped.with(end)
        } else {
            stepped
        };
        let label = structured::item_label(index);
        let charged = closed.paid(closed.ledger.accounted(label));
        let e = structured::heading(depth, label);
        let headed = charged.with(e);
        lemma_adds_nothing(b, stepped, depth as int);
        lemma_adds_nothing(stepped, stepped, depth as int);
        lemma_adds_one(stepped, end, None, value, 0, depth as int);
        assert(adds(stepped, closed, Seq::empty(), Seq::empty(), depth as int));
        lemma_adds_nothing(closed, charged, depth as int);
        lemma_three(b, stepped, closed, charged, Seq::empty(), Seq::empty(), depth);
        lemma_adds_one(charged, e, None, value, 0, depth as int);
        lemma_value_adds(headed, value, structured::below(depth));
        lemma_adds_lower(headed, last, named_scalars(value), branches(value), depth);
        lemma_headed(b, charged, headed, last, named_scalars(value), label, lowered(branches(value)), depth);
    }
}

/// The document of an object or of a list that is not empty, if its ceilings hold, has one line for each scalar of
/// the value, in reading order, and a heading for each value below it that holds others.
pub proof fn law_document_tells_every_scalar_in_order(
    r: Result<InternalDocument, XbergError>,
    result: StructuredDataResult,
    mime_type: Seq<char>,
    config: ExtractionConfig,
)
    requires
        structured::tells_document(r, result, mime_type, config),
        structured::is_supported(mime_type),
        r is Ok,
        result.value is Some,
        !is_scalar(result.value->0@),
        result.value->0@ matches json::Json::Array(items) ==> items.len() > 0,
    ensures
        tell_all(lines(r->Ok_0@.elements), named_scalars(result.value->0@)),
        head_all(headings(r->Ok_0@.elements), branches(result.value->0@), 1),
{
    let value = result.value->0@;
    let format = structured::format_of(mime_type);
    let budget = crate::security::configured_budget(config);
    let b = Build {
        content: document::empty_content(format),
        ledger: crate::security::open_ledger(budget),
    };
    lemma_known_format(mime_type);
    let built = structured::data_built(result, mime_type, budget);
    match value {
        json::Json::Object(_) => {
            lemma_value_adds(b, value, 1);
        },
        json::Json::Array(items) => {
            lemma_array_adds(b, items, 1);
        },
        _ => {},
    }
    let found = built.content.elements;
    assert(b.content.elements.len() == 0);
    assert(found.skip(0) =~= found);
}

proof fn lemma_known_format(mime_type: Seq<char>)
    requires
        structured::is_supported(mime_type),
    ensures
        structured::format_of(mime_type) != "structured"@,
{
    reveal_strlit("json");
    reveal_strlit("jsonl");
    reveal_strlit("yaml");
    reveal_strlit("toml");
    reveal_strlit("structured");
    assert("json"@.len() == 4 && "jsonl"@.len() == 5 && "yaml"@.len() == 4 && "toml"@.len() == 4);
    assert("structured"@.len() == 10);
}

/// A scalar, an empty list, and data without a value become one block of code with the text of the data.
pub proof fn law_other_data_are_kept_as_code(
    r: Result<InternalDocument, XbergError>,
    result: StructuredDataResult,
    mime_type: Seq<char>,
    config: ExtractionConfig,
)
    requires
        structured::tells_document(r, result, mime_type, config),
        structured::is_supported(mime_type),
        r is Ok,
        result.value is Some ==> is_scalar(result.value->0@) || (result.value->0@ matches json::Json::Array(items)
            && items.len() == 0),
    ensures
        r->Ok_0@.elements.len() == 1,
        r->Ok_0@.elements[0].kind is Code,
        r->Ok_0@.elements[0].text == result.content@,
{
}

/// A step from a value to one that it holds.
pub enum Step {
    /// To the member of a name.
    Name(Seq<char>),
    /// To the item at a position.
    At(nat),
}

/// The value that steps lead to, if they lead to one.
pub open spec fn followed(value: json::Json, steps: Seq<Step>) -> Option<json::Json>
    decreases steps.len(),
{
    if steps.len() == 0 {
        Some(value)
    } else {
        match (value, steps[0]) {
            (json::Json::Array(items), Step::At(k)) => if k < items.len() {
                followed(items[k as int], steps.skip(1))
            } else {
                None
            },
            (json::Json::Object(members), Step::Name(name)) => if exists|k: int|
                0 <= k < members.len() && (#[trigger] members[k]).0 == name {
                let k = choose|k: int| 0 <= k < members.len() && (#[trigger] members[k]).0 == name;
                followed(members[k].1, steps.skip(1))
            } else {
                None
            },
            _ => None,
        }
    }
}

/// A path that goes on by steps: names with points between them, positions in brackets.
pub open spec fn path_on(path: Seq<char>, steps: Seq<Step>) -> Seq<char>
    decreases steps.len(),
{
    if steps.len() == 0 {
        path
    } else {
        let next = match steps[0] {
            Step::Name(name) => if path.len() == 0 {
                name
            } else {
                path.push('.') + name
            },
            Step::At(k) => path.push('[') + text::decimal(k).push(']'),
        };
        path_on(next, steps.skip(1))
    }
}

/// Whether no object within a value has two members of one name.
pub open spec fn names_differ(value: json::Json) -> bool
    decreases value, 1int,
{
    match value {
        json::Json::Array(items) => names_differ_in_items(items),
        json::Json::Object(members) => names_differ_in_members(members),
        _ => true,
    }
}

/// Whether no object within the items of a list has two members of one name.
pub open spec fn names_differ_in_items(items: Seq<json::Json>) -> bool
    decreases items, 0int,
{
    items.len() == 0 || (names_differ_in_items(items.drop_last()) && names_differ(items[items.len() - 1]))
}

/// Whether no two members have one name, and no object within them has two such members.
pub open spec fn names_differ_in_members(members: Seq<(Seq<char>, json::Json)>) -> bool
    decreases members, 0int,
{
    members.len() == 0 || {
        &&& names_differ_in_members(members.drop_last())
        &&& names_differ(members[members.len() - 1].1)
        &&& forall|i: int| 0 <= i < members.len() - 1 ==> (#[trigger] members[i]).0 != members[members.len() - 1].0
    }
}

proof fn lemma_names_differ_in_items(items: Seq<json::Json>, k: int)
    requires
        names_differ_in_items(items),
        0 <= k < items.len(),
    ensures
        names_differ(items[k]),
    decreases items.len(),
{
    if k < items.len() - 1 {
        lemma_names_differ_in_items(items.drop_last(), k);
    }
}

proof fn lemma_names_differ_in_members(members: Seq<(Seq<char>, json::Json)>, k: int)
    requires
        names_differ_in_members(members),
        0 <= k < members.len(),
    ensures
        names_differ(members[k].1),
        forall|i: int| 0 <= i < members.len() && i != k ==> (#[trigger] members[i]).0 != members[k].0,
    decreases members.len(),
{
    let init = members.drop_last();
    if k < init.len() {
        lemma_names_differ_in_members(init, k);
        assert forall|i: int| 0 <= i < members.len() && i != k implies (#[trigger] members[i]).0 != members[k].0 by {
            if i < init.len() {
                assert(init[i].0 != init[k].0);
            }
        }
    }
}

/// Whether a leaf stands for the scalar that its path leads to.
pub open spec fn is_led_to(leaf: LeafData, path: Seq<char>, value: json::Json) -> bool {
    exists|steps: Seq<Step>|
        #[trigger] followed(value, steps) is Some && is_scalar(followed(value, steps)->0) && tells(
            leaf.text,
            followed(value, steps)->0,
        ) && leaf.path == path_on(path, steps)
}

proof fn lemma_led_below(leaf: LeafData, path: Seq<char>, value: json::Json, step: Step, below: json::Json)
    requires
        is_led_to(leaf, path_on(path, seq![step]), below),
        forall|steps: Seq<Step>|
            steps.len() > 0 && steps[0] == step ==> #[trigger] followed(value, steps) == followed(below, steps.skip(1)),
    ensures
        is_led_to(leaf, path, value),
{
    let next = path_on(path, seq![step]);
    let steps = choose|steps: Seq<Step>|
        #[trigger] followed(below, steps) is Some && is_scalar(followed(below, steps)->0) && tells(
            leaf.text,
            followed(below, steps)->0,
        ) && leaf.path == path_on(next, steps);
    let all = seq![step] + steps;
    assert(all.skip(1) =~= steps);
    assert(followed(value, all) == followed(below, steps));
    assert(seq![step].skip(1) =~= Seq::empty());
    reveal_with_fuel(path_on, 2);
    assert(path_on(path, all) == path_on(next, steps));
}

/// Every leaf of a value stands for the scalar that its path leads to from that value.
pub proof fn law_paths_lead_to_their_scalars(path: Seq<char>, value: json::Json)
    requires
        names_differ(value),
    ensures
        forall|i: int|
            0 <= i < structured::leaves_of(path, value).len() ==> is_led_to(
                #[trigger] structured::leaves_of(path, value)[i],
                path,
                value,
            ),
    decreases value, 1int,
{
    match value {
        json::Json::Array(items) => {
            assert(value == json::Json::Array(items));
            lemma_item_paths_lead(path, items, items.len() as int);
            assert(items.take(items.len() as int) =~= items);
            assert(structured::leaves_of(path, value) == structured::item_leaves(path, items));
        },
        json::Json::Object(members) => {
            assert(value == json::Json::Object(members));
            lemma_member_paths_lead(path, members, members.len() as int);
            assert(members.take(members.len() as int) =~= members);
            assert(structured::leaves_of(path, value) == structured::member_leaves(path, members));
        },
        _ => {
            law_scalars_are_told_apart(value, value);
            assert(followed(value, Seq::empty()) == Some(value));
        },
    }
}

proof fn lemma_item_paths_lead(path: Seq<char>, items: Seq<json::Json>, n: int)
    requires
        0 <= n <= items.len(),
        names_differ(json::Json::Array(items)),
    ensures
        forall|i: int|
            0 <= i < structured::item_leaves(path, items.take(n)).len() ==> is_led_to(
                #[trigger] structured::item_leaves(path, items.take(n))[i],
                path,
                json::Json::Array(items),
            ),
    decreases items, n,
{
    if n > 0 {
        let k = (n - 1) as nat;
        let value = json::Json::Array(items);
        assert(items.take(n).drop_last() =~= items.take(n - 1));
        lemma_item_paths_lead(path, items, n - 1);
        let step = Step::At(k);
        let next = structured::item_path(path, k);
        assert(decreases_to!(items => items[k as int]));
        lemma_names_differ_in_items(items, k as int);
        law_paths_lead_to_their_scalars(next, items[k as int]);
        assert(seq![step].skip(1) =~= Seq::empty());
        reveal_with_fuel(path_on, 2);
        reveal_strlit("[");
        reveal_strlit("]");
        assert("["@ =~= seq!['[']);
        assert("]"@ =~= seq![']']);
        assert(path_on(path, seq![step]) =~= next);
        let before = structured::item_leaves(path, items.take(n - 1));
        let last = structured::leaves_of(next, items[k as int]);
        let leaves = before + last;
        assert(structured::item_leaves(path, items.take(n)) == leaves);
        assert forall|i: int| 0 <= i < leaves.len() implies is_led_to(#[trigger] leaves[i], path, value) by {
            if i < before.len() {
                assert(leaves[i] == before[i]);
            } else {
                assert(leaves[i] == last[i - before.len()]);
                lemma_led_below(leaves[i], path, value, step, items[k as int]);
            }
        }
    }
}

proof fn lemma_member_paths_lead(path: Seq<char>, members: Seq<(Seq<char>, json::Json)>, n: int)
    requires
        0 <= n <= members.len(),
        names_differ(json::Json::Object(members)),
    ensures
        forall|i: int|
            0 <= i < structured::member_leaves(path, members.take(n)).len() ==> is_led_to(
                #[trigger] structured::member_leaves(path, members.take(n))[i],
                path,
                json::Json::Object(members),
            ),
    decreases members, n,
{
    if n > 0 {
        let k = n - 1;
        let value = json::Json::Object(members);
        assert(members.take(n).drop_last() =~= members.take(n - 1));
        lemma_member_paths_lead(path, members, n - 1);
        let step = Step::Name(members[k].0);
        let next = structured::member_path(path, members[k].0);
        assert(decreases_to!(members => members[k]));
        lemma_names_differ_in_members(members, k);
        law_paths_lead_to_their_scalars(next, members[k].1);
        assert(seq![step].skip(1) =~= Seq::empty());
        reveal_with_fuel(path_on, 2);
        reveal_strlit(".");
        assert("."@ =~= seq!['.']);
        assert(path_on(path, seq![step]) =~= next);
        let before = structured::member_leaves(path, members.take(n - 1));
        let last = structured::leaves_of(next, members[k].1);
        let leaves = before + last;
        assert(structured::member_leaves(path, members.take(n)) == leaves);
        assert forall|steps: Seq<Step>| steps.len() > 0 && steps[0] == step implies #[trigger] followed(value, steps)
            == followed(members[k].1, steps.skip(1)) by {
            assert(members[k].0 == members[k].0);
        }
        assert forall|i: int| 0 <= i < leaves.len() implies is_led_to(#[trigger] leaves[i], path, value) by {
            if i < before.len() {
                assert(leaves[i] == before[i]);
            } else {
                assert(leaves[i] == last[i - before.len()]);
                lemma_led_below(leaves[i], path, value, step, members[k].1);
            }
        }
    }
}

/// The leaves that are reported as texts are those that stand for texts, in their order.
pub proof fn law_text_fields_are_the_texts(path: Seq<char>, value: json::Json)
    ensures
        structured::text_paths(structured::leaves_of(path, value)).len() == structured::scalars(value).filter(
            |scalar: json::Json| scalar is Text,
        ).len(),
        forall|p: Seq<char>|
            structured::text_paths(structured::leaves_of(path, value)).contains(p) <==> exists|i: int|
                0 <= i < structured::scalars(value).len() && structured::scalars(value)[i] is Text
                    && (#[trigger] structured::leaves_of(path, value)[i]).path == p,
{
    structured::law_every_scalar_is_listed_once(path, value);
    lemma_text_paths(structured::leaves_of(path, value), structured::scalars(value));
}

proof fn lemma_text_paths(leaves: Seq<LeafData>, scalars: Seq<json::Json>)
    requires
        structured::stand_for(leaves, scalars),
    ensures
        structured::text_paths(leaves).len() == scalars.filter(|scalar: json::Json| scalar is Text).len(),
        forall|p: Seq<char>|
            structured::text_paths(leaves).contains(p) <==> exists|i: int|
                0 <= i < scalars.len() && scalars[i] is Text && (#[trigger] leaves[i]).path == p,
    decreases leaves.len(),
{
    reveal(Seq::filter);
    if leaves.len() > 0 {
        let init = leaves.drop_last();
        lemma_text_paths(init, scalars.drop_last());
        let n = leaves.len() - 1;
        let before = structured::text_paths(init);
        let all = structured::text_paths(leaves);
        assert forall|p: Seq<char>| all.contains(p) <==> exists|i: int|
            0 <= i < scalars.len() && scalars[i] is Text && (#[trigger] leaves[i]).path == p by {
            if all.contains(p) {
                if before.contains(p) {
                    let i = choose|i: int|
                        0 <= i < scalars.drop_last().len() && scalars.drop_last()[i] is Text && (#[trigger] init[i]).path
                            == p;
                    assert(leaves[i].path == p);
                } else {
                    let k = choose|k: int| 0 <= k < all.len() && all[k] == p;
                    if k < before.len() {
                        assert(before[k] == p);
                    }
                    assert(leaves[n].path == p);
                }
            }
            if exists|i: int| 0 <= i < scalars.len() && scalars[i] is Text && (#[trigger] leaves[i]).path == p {
                let i = choose|i: int|
                    0 <= i < scalars.len() && scalars[i] is Text && (#[trigger] leaves[i]).path == p;
                if i < n {
                    assert(init[i].path == p);
                    assert(before.contains(p));
                    let k = choose|k: int| 0 <= k < before.len() && before[k] == p;
                    assert(all[k] == p);
                } else {
                    assert(all[all.len() - 1] == p);
                }
            }
        }
    }
}

} // verus!
