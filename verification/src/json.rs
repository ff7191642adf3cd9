//! Values of structured data.
use crate::text;
use crate::text::{push_decimal, same_str};
use vstd::prelude::*;

verus! {

/// A double.
#[derive(Clone, Debug)]
pub struct Double {
    /// Its bits.
    pub bits: u64,
    /// Its digits, as they are written out.
    pub text: String,
}

/// A number.
#[derive(Clone, Debug)]
pub struct JsonNumber {
    /// Its digits, as they are written out.
    pub text: String,
    /// Whether it is held as an integer.
    pub integer: bool,
    /// The nearest double, where it is known.
    pub double: Option<Double>,
}

/// A value of structured data.
#[derive(Debug)]
pub enum JsonValue {
    /// No value.
    Null,
    /// A truth value.
    Bool(bool),
    /// A number.
    Number(JsonNumber),
    /// A text.
    Text(String),
    /// A list of values.
    Array(Vec<JsonValue>),
    /// Named values; no name occurs twice.
    Object(Vec<(String, JsonValue)>),
}

/// A double, with its digits as a sequence.
#[verifier::ext_equal]
pub struct DoubleData {
    /// Its bits.
    pub bits: u64,
    /// Its digits, as they are written out.
    pub text: Seq<char>,
}

impl View for Double {
    type V = DoubleData;

    open spec fn view(&self) -> DoubleData {
        DoubleData { bits: self.bits, text: self.text@ }
    }
}

/// A number, with its texts as sequences.
#[verifier::ext_equal]
pub struct Number {
    /// Its digits, as they are written out.
    pub text: Seq<char>,
    /// Whether it is held as an integer.
    pub integer: bool,
    /// The nearest double, where it is known.
    pub double: Option<DoubleData>,
}

/// A value, with its texts as sequences.
pub enum Json {
    /// No value.
    Null,
    /// A truth value.
    Bool(bool),
    /// A number.
    Number(Number),
    /// A text.
    Text(Seq<char>),
    /// A list of values.
    Array(Seq<Json>),
    /// Named values.
    Object(Seq<(Seq<char>, Json)>),
}

impl View for JsonNumber {
    type V = Number;

    open spec fn view(&self) -> Number {
        Number {
            text: self.text@,
            integer: self.integer,
            double: match self.double {
                Some(d) => Some(d@),
                None => None,
            },
        }
    }
}

/// A count as a number.
pub open spec fn count_number(n: nat) -> Json {
    Json::Number(Number { text: text::decimal(n), integer: true, double: None })
}

/// A count as a number.
pub fn number_of_count(n: usize) -> (r: JsonValue)
    ensures
        r@ == count_number(n as nat),
{
    let mut digits = String::new();
    push_decimal(&mut digits, n as u64);
    proof {
        assert(digits@ =~= text::decimal(n as nat));
    }
    JsonValue::Number(JsonNumber { text: digits, integer: true, double: None })
}

/// A value, with its texts as sequences.
pub open spec fn json(value: JsonValue) -> Json
    decreases value,
{
    match value {
        JsonValue::Null => Json::Null,
        JsonValue::Bool(b) => Json::Bool(b),
        JsonValue::Number(n) => Json::Number(n@),
        JsonValue::Text(s) => Json::Text(s@),
        JsonValue::Array(items) => Json::Array(
            Seq::new(
                items@.len(),
                |i: int|
                    if 0 <= i < items@.len() {
                        json(items@[i])
                    } else {
                        Json::Null
                    },
            ),
        ),
        JsonValue::Object(members) => Json::Object(
            Seq::new(
                members@.len(),
                |i: int|
                    if 0 <= i < members@.len() {
                        (members@[i].0@, json(members@[i].1))
                    } else {
                        (Seq::empty(), Json::Null)
                    },
            ),
        ),
    }
}

impl View for JsonValue {
    type V = Json;

    open spec fn view(&self) -> Json {
        json(*self)
    }
}

/// The values of a list.
pub open spec fn values(items: Seq<JsonValue>) -> Seq<Json> {
    items.map_values(|v: JsonValue| v@)
}

/// The named values of an object.
pub open spec fn members(items: Seq<(String, JsonValue)>) -> Seq<(Seq<char>, Json)> {
    items.map_values(|m: (String, JsonValue)| (m.0@, m.1@))
}

/// The view of a list is the list of views, and so for objects.
pub proof fn lemma_view(value: JsonValue)
    ensures
        value matches JsonValue::Array(items) ==> value@ == Json::Array(values(items@)),
        value matches JsonValue::Object(items) ==> value@ == Json::Object(members(items@)),
{
    match value {
        JsonValue::Array(items) => {
            assert(value@->Array_0 =~= values(items@));
        },
        JsonValue::Object(items) => {
            assert(value@->Object_0 =~= members(items@));
        },
        _ => {},
    }
}

/// The value of a name; the first one counts.
pub open spec fn member(object: Seq<(Seq<char>, Json)>, name: Seq<char>) -> Option<Json>
    decreases object.len(),
{
    if object.len() == 0 {
        None
    } else if object[0].0 == name {
        Some(object[0].1)
    } else {
        member(object.skip(1), name)
    }
}

/// The value of a name.
pub fn find_member<'a>(object: &'a [(String, JsonValue)], name: &str) -> (r: Option<&'a JsonValue>)
    ensures
        match r {
            Some(value) => member(members(object@), name@) == Some(value@) && exists|i: int|
                0 <= i < object@.len() && (#[trigger] object@[i]).1 == *value,
            None => member(members(object@), name@) is None,
        },
{
    let ghost all = members(object@);
    let mut i: usize = 0;
    proof {
        assert(all.skip(0) =~= all);
    }
    while i < object.len()
        invariant
            i <= object.len(),
            all == members(object@),
            member(all.skip(i as int), name@) == member(all, name@),
        decreases object.len() - i,
    {
        let entry = &object[i];
        proof {
            assert(all.skip(i as int)[0] == (entry.0@, entry.1@));
            assert(all.skip(i as int).skip(1) =~= all.skip(i + 1));
        }
        if same_str(entry.0.as_str(), name) {
            proof {
                assert(object@[i as int].1 == entry.1);
            }
            return Some(&entry.1);
        }
        i = i + 1;
    }
    None
}

/// Whether a value holds anything: no value, an empty list and an empty object do not.
pub open spec fn has_content(value: Json) -> bool {
    match value {
        Json::Null => false,
        Json::Array(items) => items.len() > 0,
        Json::Object(items) => items.len() > 0,
        _ => true,
    }
}

/// Whether a value holds anything.
pub fn value_has_content(value: &JsonValue) -> (r: bool)
    ensures
        r == has_content(value@),
{
    match value {
        JsonValue::Null => false,
        JsonValue::Array(items) => items.len() > 0,
        JsonValue::Object(items) => items.len() > 0,
        _ => true,
    }
}

/// The text of a value, if it is one.
pub open spec fn text_of(value: Option<Json>) -> Option<Seq<char>> {
    match value {
        Some(Json::Text(s)) => Some(s),
        _ => None,
    }
}

/// The text of a value, if it is one.
pub fn as_text<'a>(value: Option<&'a JsonValue>) -> (r: Option<&'a str>)
    ensures
        match r {
            Some(s) => value is Some && text_of(Some(value->0@)) == Some(s@),
            None => value is None || text_of(Some(value->0@)) is None,
        },
{
    match value {
        Some(JsonValue::Text(s)) => Some(s.as_str()),
        _ => None,
    }
}

/// An object with a named value; an earlier value of the name gives way.
pub open spec fn with_member(object: Seq<(Seq<char>, Json)>, name: Seq<char>, value: Json) -> Seq<(Seq<char>, Json)>
    decreases object.len(),
{
    if object.len() == 0 {
        seq![(name, value)]
    } else if object[0].0 == name {
        seq![(name, value)] + object.skip(1)
    } else {
        seq![object[0]] + with_member(object.skip(1), name, value)
    }
}

/// Gives a name its value in an object.
pub fn set_member(object: &mut Vec<(String, JsonValue)>, name: &str, value: JsonValue)
    ensures
        members(final(object)@) == with_member(members(old(object)@), name@, value@),
{
    let ghost all = members(object@);
    let ghost before = object@;
    let mut i: usize = 0;
    proof {
        assert(all.skip(0) =~= all);
        assert(all.take(0) + with_member(all, name@, value@) =~= with_member(all, name@, value@));
    }
    while i < object.len()
        invariant
            i <= object.len(),
            before == object@,
            before == old(object)@,
            all == members(before),
            all.take(i as int) + with_member(all.skip(i as int), name@, value@) == with_member(all, name@, value@),
        decreases object.len() - i,
    {
        proof {
            assert(all.skip(i as int)[0] == (before[i as int].0@, before[i as int].1@));
            assert(all.skip(i as int).skip(1) =~= all.skip(i + 1));
        }
        if same_str(object[i].0.as_str(), name) {
            let entry = (name.to_owned(), value);
            object.set(i, entry);
            proof {
                assert(members(object@) =~= all.take(i as int) + (seq![(name@, value@)] + all.skip(i + 1)));
            }
            return;
        }
        proof {
            let rest = with_member(all.skip(i + 1), name@, value@);
            assert(all.take(i + 1) + rest =~= all.take(i as int) + (seq![all[i as int]] + rest));
        }
        i = i + 1;
    }
    proof {
        assert(all.skip(i as int) =~= Seq::empty());
        assert(all.take(i as int) =~= all);
    }
    let entry = (name.to_owned(), value);
    proof {
        assert(members(before.push(entry)) =~= all + seq![(name@, value@)]);
    }
    object.push(entry);
}

/// Appends a named value to an object that does not have the name.
pub fn push_member(object: &mut Vec<(String, JsonValue)>, name: &str, value: JsonValue)
    ensures
        members(final(object)@) == members(old(object)@).push((name@, value@)),
{
    let entry = (name.to_owned(), value);
    proof {
        assert(members(object@.push(entry)) =~= members(object@).push((name@, value@)));
    }
    object.push(entry);
}

/// A copy of a value.
pub fn copy_value(value: &JsonValue) -> (r: JsonValue)
    ensures
        r@ == value@,
    decreases *value, 1int,
{
    proof {
        lemma_view(*value);
    }
    match value {
        JsonValue::Null => JsonValue::Null,
        JsonValue::Bool(b) => JsonValue::Bool(*b),
        JsonValue::Number(n) => {
            let double = match &n.double {
                Some(d) => Some(Double { bits: d.bits, text: d.text.clone() }),
                None => None,
            };
            JsonValue::Number(JsonNumber { text: n.text.clone(), integer: n.integer, double })
        },
        JsonValue::Text(s) => JsonValue::Text(s.clone()),
        JsonValue::Array(items) => {
            let r = JsonValue::Array(copy_items(items));
            proof {
                lemma_view(r);
            }
            r
        },
        JsonValue::Object(entries) => {
            let r = JsonValue::Object(copy_members(entries));
            proof {
                lemma_view(r);
            }
            r
        },
    }
}

fn copy_items(items: &Vec<JsonValue>) -> (r: Vec<JsonValue>)
    ensures
        values(r@) == values(items@),
    decreases items@, 0int,
{
    let mut out: Vec<JsonValue> = Vec::new();
    let mut i: usize = 0;
    while i < items.len()
        invariant
            i <= items.len(),
            out@.len() == i,
            forall|k: int| 0 <= k < i ==> (#[trigger] out@[k])@ == items@[k]@,
        decreases items.len() - i,
    {
        proof {
            assert(decreases_to!(items@ => items@[i as int]));
        }
        out.push(copy_value(&items[i]));
        i = i + 1;
    }
    proof {
        assert(values(out@) =~= values(items@));
    }
    out
}

fn copy_members(entries: &Vec<(String, JsonValue)>) -> (r: Vec<(String, JsonValue)>)
    ensures
        members(r@) == members(entries@),
    decreases entries@, 0int,
{
    let mut out: Vec<(String, JsonValue)> = Vec::new();
    let mut i: usize = 0;
    while i < entries.len()
        invariant
            i <= entries.len(),
            out@.len() == i,
            forall|k: int|
                0 <= k < i ==> (#[trigger] out@[k]).0@ == entries@[k].0@ && out@[k].1@ == entries@[k].1@,
        decreases entries.len() - i,
    {
        proof {
            assert(decreases_to!(entries@ => entries@[i as int]));
        }
        let name = entries[i].0.clone();
        let value = copy_value(&entries[i].1);
        out.push((name, value));
        i = i + 1;
    }
    proof {
        assert(members(out@) =~= members(entries@));
    }
    out
}

/// Texts as a list of values.
pub open spec fn text_values(list: Seq<Seq<char>>) -> Json {
    Json::Array(list.map_values(|s: Seq<char>| Json::Text(s)))
}

/// Texts as a list of values.
pub fn list_of_texts(list: &[String]) -> (r: JsonValue)
    ensures
        r@ == text_values(text::strings(list@)),
{
    let mut out: Vec<JsonValue> = Vec::new();
    let mut i: usize = 0;
    while i < list.len()
        invariant
            i <= list.len(),
            out@.len() == i,
            forall|k: int| 0 <= k < i ==> (#[trigger] out@[k])@ == Json::Text(list@[k]@),
        decreases list.len() - i,
    {
        out.push(JsonValue::Text(list[i].clone()));
        i = i + 1;
    }
    let ghost items = out@;
    let r = JsonValue::Array(out);
    proof {
        lemma_view(r);
        assert(values(items) =~= text::strings(list@).map_values(|s: Seq<char>| Json::Text(s)));
    }
    r
}

/// Whether two doubles are the same number; there are two zeros.
pub open spec fn same_double(a: u64, b: u64) -> bool {
    a == b || (a % 0x8000_0000_0000_0000 == 0 && b % 0x8000_0000_0000_0000 == 0)
}

/// Whether two numbers are the same: integers by their digits, others by their values. An integer is
/// never the same as a number that is none.
pub open spec fn same_number(a: Number, b: Number) -> bool {
    if a.integer || b.integer {
        a.integer == b.integer && a.text == b.text
    } else {
        match (a.double, b.double) {
            (Some(x), Some(y)) => same_double(x.bits, y.bits),
            _ => a.text == b.text,
        }
    }
}

/// Whether two values are the same; the order of the members of an object does not matter.
pub open spec fn same_value(a: Json, b: Json) -> bool
    decreases a, 1int,
{
    match (a, b) {
        (Json::Null, Json::Null) => true,
        (Json::Bool(x), Json::Bool(y)) => x == y,
        (Json::Number(x), Json::Number(y)) => same_number(x, y),
        (Json::Text(x), Json::Text(y)) => x == y,
        (Json::Array(x), Json::Array(y)) => same_items(x, y),
        (Json::Object(x), Json::Object(y)) => x.len() == y.len() && same_members(x, y),
        _ => false,
    }
}

/// Whether two lists hold the same values in the same order.
pub open spec fn same_items(a: Seq<Json>, b: Seq<Json>) -> bool
    decreases a, 0int,
{
    if a.len() != b.len() || a.len() == 0 {
        a.len() == b.len()
    } else {
        same_items(a.drop_last(), b.drop_last()) && same_value(a[a.len() - 1], b[b.len() - 1])
    }
}

/// Whether an object has every member of another one, with the same value.
pub open spec fn same_members(a: Seq<(Seq<char>, Json)>, b: Seq<(Seq<char>, Json)>) -> bool
    decreases a, 0int,
{
    if a.len() == 0 {
        true
    } else {
        same_members(a.drop_last(), b) && match member(b, a[a.len() - 1].0) {
            Some(value) => same_value(a[a.len() - 1].1, value),
            None => false,
        }
    }
}

fn equal_numbers(a: &JsonNumber, b: &JsonNumber) -> (r: bool)
    ensures
        r == same_number(a@, b@),
{
    if a.integer || b.integer {
        a.integer == b.integer && same_str(a.text.as_str(), b.text.as_str())
    } else {
        match (&a.double, &b.double) {
            (Some(x), Some(y)) => x.bits == y.bits || (x.bits % 0x8000_0000_0000_0000 == 0 && y.bits
                % 0x8000_0000_0000_0000 == 0),
            _ => same_str(a.text.as_str(), b.text.as_str()),
        }
    }
}

/// Whether two values are the same.
pub fn equal_values(a: &JsonValue, b: &JsonValue) -> (r: bool)
    ensures
        r == same_value(a@, b@),
    decreases *a, 1int,
{
    proof {
        lemma_view(*a);
        lemma_view(*b);
    }
    match (a, b) {
        (JsonValue::Null, JsonValue::Null) => true,
        (JsonValue::Bool(x), JsonValue::Bool(y)) => *x == *y,
        (JsonValue::Number(x), JsonValue::Number(y)) => equal_numbers(x, y),
        (JsonValue::Text(x), JsonValue::Text(y)) => same_str(x.as_str(), y.as_str()),
        (JsonValue::Array(x), JsonValue::Array(y)) => equal_items(x, y),
        (JsonValue::Object(x), JsonValue::Object(y)) => x.len() == y.len() && equal_members(x, y),
        _ => false,
    }
}

fn equal_items(a: &Vec<JsonValue>, b: &Vec<JsonValue>) -> (r: bool)
    ensures
        r == same_items(values(a@), values(b@)),
    decreases a@, 0int,
{
    if a.len() != b.len() {
        return false;
    }
    let ghost x = values(a@);
    let ghost y = values(b@);
    let mut i: usize = 0;
    let mut same = true;
    proof {
        assert(x.take(0) =~= Seq::empty());
        assert(y.take(0) =~= Seq::empty());
    }
    while i < a.len()
        invariant
            i <= a.len(),
            a.len() == b.len(),
            x == values(a@),
            y == values(b@),
            same == same_items(x.take(i as int), y.take(i as int)),
        decreases a.len() - i,
    {
        proof {
            assert(x.take(i + 1).drop_last() =~= x.take(i as int));
            assert(y.take(i + 1).drop_last() =~= y.take(i as int));
            assert(x.take(i + 1)[i as int] == a@[i as int]@);
            assert(y.take(i + 1)[i as int] == b@[i as int]@);
            assert(decreases_to!(a@ => a@[i as int]));
        }
        let next = equal_values(&a[i], &b[i]);
        same = same && next;
        i = i + 1;
    }
    proof {
        assert(x.take(x.len() as int) =~= x);
        assert(y.take(y.len() as int) =~= y);
    }
    same
}

fn equal_members(a: &Vec<(String, JsonValue)>, b: &Vec<(String, JsonValue)>) -> (r: bool)
    ensures
        r == same_members(members(a@), members(b@)),
    decreases a@, 0int,
{
    let ghost x = members(a@);
    let ghost y = members(b@);
    let mut i: usize = 0;
    let mut same = true;
    proof {
        assert(x.take(0) =~= Seq::empty());
    }
    while i < a.len()
        invariant
            i <= a.len(),
            x == members(a@),
            y == members(b@),
            same == same_members(x.take(i as int), y),
        decreases a.len() - i,
    {
        proof {
            assert(x.take(i + 1).drop_last() =~= x.take(i as int));
            assert(x.take(i + 1)[i as int] == (a@[i as int].0@, a@[i as int].1@));
            assert(decreases_to!(a@ => a@[i as int]));
        }
        let next = match find_member(b.as_slice(), a[i].0.as_str()) {
            Some(value) => equal_values(&a[i].1, value),
            None => false,
        };
        same = same && next;
        i = i + 1;
    }
    proof {
        assert(x.take(x.len() as int) =~= x);
    }
    same
}

/// A member of an object is smaller than the object.
pub proof fn lemma_member_is_smaller(object: Seq<(Seq<char>, Json)>, name: Seq<char>)
    ensures
        member(object, name) matches Some(value) ==> decreases_to!(object => value),
    decreases object.len(),
{
    if object.len() > 0 {
        if object[0].0 == name {
            assert(decreases_to!(object => object[0]));
        } else {
            lemma_member_is_smaller(object.skip(1), name);
            assert(decreases_to!(object => object.skip(1)));
        }
    }
}

/// A digit of a hexadecimal number.
pub open spec fn hex_digit(n: int) -> char {
    if n < 10 {
        (48 + n) as char
    } else {
        (87 + n) as char
    }
}

/// A character inside a text in the notation of JSON: quotation marks, backslashes and control characters are
/// escaped.
pub open spec fn escaped(c: char) -> Seq<char> {
    if c == '"' || c == '\\' {
        seq!['\\', c]
    } else if c == '\u{8}' {
        seq!['\\', 'b']
    } else if c == '\t' {
        seq!['\\', 't']
    } else if c == '\n' {
        seq!['\\', 'n']
    } else if c == '\u{c}' {
        seq!['\\', 'f']
    } else if c == '\r' {
        seq!['\\', 'r']
    } else if (c as int) < 32 {
        seq!['\\', 'u', '0', '0', hex_digit(c as int / 16), hex_digit(c as int % 16)]
    } else {
        seq![c]
    }
}

/// The characters of a text in the notation of JSON.
pub open spec fn all_escaped(s: Seq<char>) -> Seq<char>
    decreases s.len(),
{
    if s.len() == 0 {
        Seq::empty()
    } else {
        all_escaped(s.drop_last()) + escaped(s.last())
    }
}

/// A text in the notation of JSON.
pub open spec fn json_notation(s: Seq<char>) -> Seq<char> {
    seq!['"'] + all_escaped(s) + seq!['"']
}

/// `serde_json::to_string` on a string gives its notation in JSON, and does not fail on one.
#[verifier::external_body]
pub(crate) fn json_text(s: &str) -> (r: String)
    ensures
        r@ == json_notation(s@),
{
    serde_json::to_string(s).unwrap_or_default()
}

/// The values that `serde_json` parses.
#[verifier::external_type_specification]
#[verifier::external_body]
pub struct ExParsedValue(serde_json::Value);

/// A `serde_json::Value` variant by variant: its number in the digits that `serde_json` writes, with the double that
/// `Number::as_f64` gives for it. Only the parsers below call it, and nothing is claimed of it but what they say.
#[verifier::external_body]
fn converted(value: serde_json::Value) -> (r: JsonValue) {
    match value {
        serde_json::Value::Null => JsonValue::Null,
        serde_json::Value::Bool(b) => JsonValue::Bool(b),
        serde_json::Value::Number(n) => JsonValue::Number(JsonNumber {
            text: n.to_string(),
            integer: !n.is_f64(),
            double: n.as_f64().map(|d| Double { bits: d.to_bits(), text: serde_json::Value::from(d).to_string() }),
        }),
        serde_json::Value::String(s) => JsonValue::Text(s),
        serde_json::Value::Array(items) => JsonValue::Array(items.into_iter().map(converted).collect()),
        serde_json::Value::Object(members) => JsonValue::Object(
            members.into_iter().map(|(name, v)| (name, converted(v))).collect(),
        ),
    }
}

/// The value that bytes hold in the notation of JSON, as `serde_json` parses them, or why they hold none.
pub uninterp spec fn json_read(bytes: Seq<u8>) -> Result<Json, Seq<char>>;

/// `serde_json::from_slice` parses bytes in the notation of JSON into a `serde_json::Value`; what it fails with is
/// told in the words of its error. Both depend on the bytes alone.
#[verifier::external_body]
pub(crate) fn read_json(bytes: &[u8]) -> (r: Result<JsonValue, String>)
    ensures
        match r {
            Ok(value) => json_read(bytes@) == Ok::<Json, Seq<char>>(value@),
            Err(reason) => json_read(bytes@) == Err::<Json, Seq<char>>(reason@),
        },
{
    match serde_json::from_slice::<serde_json::Value>(bytes) {
        Ok(value) => Ok(converted(value)),
        Err(error) => Err(error.to_string()),
    }
}

/// The value that a text holds in the notation of YAML, as `serde_yaml_ng` parses it and `serde_json` renders it, or
/// why it holds none.
pub uninterp spec fn yaml_read(source: Seq<char>) -> Result<Json, Seq<char>>;

/// `serde_yaml_ng::from_str` parses a text in the notation of YAML into a `serde_yaml_ng::Value`, which
/// `serde_json::to_value` turns into a `serde_json::Value`. The one refuses a repeated key, the other a key that JSON
/// cannot hold; what either fails with is told in the words of its error. Both depend on their argument alone.
#[verifier::external_body]
pub(crate) fn read_yaml(source: &str) -> (r: Result<JsonValue, String>)
    ensures
        match r {
            Ok(value) => yaml_read(source@) == Ok::<Json, Seq<char>>(value@),
            Err(reason) => yaml_read(source@) == Err::<Json, Seq<char>>(reason@),
        },
{
    match serde_yaml_ng::from_str::<serde_yaml_ng::Value>(source) {
        Ok(yaml) => match serde_json::to_value(yaml) {
            Ok(value) => Ok(converted(value)),
            Err(error) => Err(error.to_string()),
        },
        Err(error) => Err(error.to_string()),
    }
}

/// The values that `toml` parses.
#[verifier::external_type_specification]
#[verifier::external_body]
pub struct ExTomlValue(toml::Value);

/// A `toml::Value` as a `serde_json::Value`, variant by variant: a date or a time in the words of
/// `toml::value::Datetime`, and a number that JSON cannot hold as null, as `serde_json::Value::from` has it. Only
/// `read_toml` calls it, and nothing is claimed of it but what that says.
#[verifier::external_body]
fn from_toml(value: toml::Value) -> (r: serde_json::Value) {
    match value {
        toml::Value::String(s) => serde_json::Value::String(s),
        toml::Value::Integer(n) => serde_json::Value::from(n),
        toml::Value::Float(n) => serde_json::Value::from(n),
        toml::Value::Boolean(b) => serde_json::Value::Bool(b),
        toml::Value::Datetime(when) => serde_json::Value::String(when.to_string()),
        toml::Value::Array(items) => serde_json::Value::Array(items.into_iter().map(from_toml).collect()),
        toml::Value::Table(members) => serde_json::Value::Object(
            members.into_iter().map(|(name, v)| (name, from_toml(v))).collect(),
        ),
    }
}

/// The value that a text holds in the notation of TOML, as `toml` parses it, or why it holds none.
pub uninterp spec fn toml_read(source: Seq<char>) -> Result<Json, Seq<char>>;

/// `toml::from_str` parses a document in the notation of TOML into a `toml::Value`, whose variants are those of JSON
/// but for dates and times, which become texts. What it fails with is told in the words of its error. It depends on
/// the text alone.
#[verifier::external_body]
pub(crate) fn read_toml(source: &str) -> (r: Result<JsonValue, String>)
    ensures
        match r {
            Ok(value) => toml_read(source@) == Ok::<Json, Seq<char>>(value@),
            Err(reason) => toml_read(source@) == Err::<Json, Seq<char>>(reason@),
        },
{
    match toml::from_str::<toml::Value>(source) {
        Ok(value) => Ok(converted(from_toml(value))),
        Err(error) => Err(error.to_string()),
    }
}

/// Whether a text in the notation of YAML, as `serde_yaml_ng` parses it, gives a name a mapping.
pub uninterp spec fn yaml_maps(source: Seq<char>, name: Seq<char>) -> bool;

/// `serde_yaml_ng::Value::get` and `as_mapping`, on what `serde_yaml_ng::from_str` parses: whether the name has a
/// mapping. A text that does not parse gives none. All depend on their arguments alone.
#[verifier::external_body]
pub(crate) fn has_mapping(source: &str, name: &str) -> (r: bool)
    ensures
        r == yaml_maps(source@, name@),
{
    match serde_yaml_ng::from_str::<serde_yaml_ng::Value>(source) {
        Ok(yaml) => yaml.get(name).and_then(serde_yaml_ng::Value::as_mapping).is_some(),
        Err(_) => false,
    }
}

/// Where a double stands among all doubles.
pub open spec fn order_of(bits: u64) -> int {
    if bits < 0x8000_0000_0000_0000 {
        bits as int
    } else {
        0x8000_0000_0000_0000 - bits
    }
}

/// Whether one double is less than another; neither may be a NaN.
pub fn is_less(a: u64, b: u64) -> (r: bool)
    ensures
        r == (order_of(a) < order_of(b)),
{
    let sign: u64 = 0x8000_0000_0000_0000;
    if a < sign {
        b < sign && a < b
    } else if b < sign {
        a > sign || b > 0
    } else {
        b < a
    }
}

} // verus!
