//! JSON values, as the stored files hold them.
//!
//! Text is turned into a `Json` and back by `serde_json`; everything the library reads
//! from a value, or writes into one, is decided here and in the modules that
//! use it.

use crate::path::same_text;
use crate::text;
use vstd::prelude::*;

verus! {

/// A JSON value.
///
/// A number is held as an unsigned integer, a negative integer, or, for any
/// other number, the text it was written as.
#[derive(Debug)]
pub enum Json {
    /// `null`.
    Null,
    /// `true` or `false`.
    Bool(bool),
    /// A number that is a non-negative integer within `u64`.
    Unsigned(u64),
    /// A number that is a negative integer within `i64`.
    Negative(i64),
    /// Any other number, as written.
    Fraction(String),
    /// A string.
    Text(String),
    /// An array.
    List(Vec<Json>),
    /// An object: its keys and values, in order.
    Object(Vec<(String, Json)>),
}

/// A JSON value as a mathematical value: strings as their characters,
/// arrays and objects as sequences.
pub enum JsonValue {
    /// `null`.
    Null,
    /// `true` or `false`.
    Bool(bool),
    /// A non-negative integer within `u64`.
    Unsigned(u64),
    /// A negative integer within `i64`.
    Negative(i64),
    /// Any other number, as written.
    Fraction(Seq<char>),
    /// A string.
    Text(Seq<char>),
    /// An array.
    List(Seq<JsonValue>),
    /// An object.
    Object(Seq<(Seq<char>, JsonValue)>),
}

impl Json {
    /// The value this holds.
    pub open spec fn value(&self) -> JsonValue
        decreases self,
    {
        match self {
            Json::Null => JsonValue::Null,
            Json::Bool(b) => JsonValue::Bool(*b),
            Json::Unsigned(n) => JsonValue::Unsigned(*n),
            Json::Negative(n) => JsonValue::Negative(*n),
            Json::Fraction(s) => JsonValue::Fraction(s@),
            Json::Text(s) => JsonValue::Text(s@),
            Json::List(items) => JsonValue::List(
                Seq::new(
                    items@.len(),
                    |i: int|
                        if 0 <= i < items@.len() {
                            items@[i].value()
                        } else {
                            JsonValue::Null
                        },
                ),
            ),
            Json::Object(fields) => JsonValue::Object(
                Seq::new(
                    fields@.len(),
                    |i: int|
                        if 0 <= i < fields@.len() {
                            (fields@[i].0@, fields@[i].1.value())
                        } else {
                            (Seq::empty(), JsonValue::Null)
                        },
                ),
            ),
        }
    }
}

/// A copy of a value.
pub fn copy_json(value: &Json) -> (copy: Json)
    ensures
        copy.value() == value.value(),
    decreases value,
{
    match value {
        Json::Null => Json::Null,
        Json::Bool(b) => Json::Bool(*b),
        Json::Unsigned(n) => Json::Unsigned(*n),
        Json::Negative(n) => Json::Negative(*n),
        Json::Fraction(s) => Json::Fraction(text::owned(s.as_str())),
        Json::Text(s) => Json::Text(text::owned(s.as_str())),
        Json::List(items) => {
            let mut out: Vec<Json> = Vec::new();
            let mut i: usize = 0;
            while i < items.len()
                invariant
                    *value == Json::List(*items),
                    i <= items@.len(),
                    out@.len() == i,
                    forall|k: int| 0 <= k < i ==> (#[trigger] out@[k]).value() == items@[k].value(),
                decreases items.len() - i,
            {
                proof {
                    assert(decreases_to!(*value => value->List_0));
                    assert(value->List_0 == *items);
                    assert(decreases_to!(*items => items@));
                    assert(decreases_to!(items@ => items@[i as int]));
                }
                out.push(copy_json(&items[i]));
                i = i + 1;
            }
            let copy = Json::List(out);
            assert(copy.value() == value.value()) by {
                if let JsonValue::List(a) = copy.value() {
                    if let JsonValue::List(b) = value.value() {
                        assert(a =~= b);
                    }
                }
            }
            copy
        },
        Json::Object(fields) => {
            let mut out: Vec<(String, Json)> = Vec::new();
            let mut i: usize = 0;
            while i < fields.len()
                invariant
                    *value == Json::Object(*fields),
                    i <= fields@.len(),
                    out@.len() == i,
                    forall|k: int| 0 <= k < i ==> (#[trigger] out@[k]).0@ == fields@[k].0@ && out@[k].1.value()
                        == fields@[k].1.value(),
                decreases fields.len() - i,
            {
                let key = text::owned(fields[i].0.as_str());
                proof {
                    assert(decreases_to!(*value => value->Object_0));
                    assert(value->Object_0 == *fields);
                    assert(decreases_to!(*fields => fields@));
                    assert(decreases_to!(fields@ => fields@[i as int]));
                    assert(decreases_to!(fields@[i as int] => fields@[i as int].1));
                }
                let item = copy_json(&fields[i].1);
                out.push((key, item));
                i = i + 1;
            }
            let copy = Json::Object(out);
            assert(copy.value() == value.value()) by {
                if let JsonValue::Object(a) = copy.value() {
                    if let JsonValue::Object(b) = value.value() {
                        assert(a =~= b);
                    }
                }
            }
            copy
        },
    }
}

/// The value of the first field of `fields` named `key`.
pub open spec fn field(fields: Seq<(String, Json)>, key: Seq<char>) -> Option<Json>
    decreases fields.len(),
{
    if fields.len() == 0 {
        None
    } else if fields[0].0@ == key {
        Some(fields[0].1)
    } else {
        field(fields.drop_first(), key)
    }
}

/// The value of the field named `key`, when `value` is an object.
pub open spec fn member(value: Json, key: Seq<char>) -> Option<Json> {
    match value {
        Json::Object(fields) => field(fields@, key),
        _ => None,
    }
}

/// The unsigned integer `value` holds, if it holds one.
pub open spec fn unsigned_of(value: Option<Json>) -> Option<u64> {
    match value {
        Some(Json::Unsigned(n)) => Some(n),
        _ => None,
    }
}

/// The string `value` holds, if it holds one.
pub open spec fn text_of(value: Option<Json>) -> Option<Seq<char>> {
    match value {
        Some(Json::Text(s)) => Some(s@),
        _ => None,
    }
}

/// The first field of `fields` named `key`.
pub fn find_field<'a>(fields: &'a Vec<(String, Json)>, key: &str) -> (found: Option<&'a Json>)
    ensures
        match found {
            Some(v) => field(fields@, key@) == Some(*v),
            None => field(fields@, key@) is None,
        },
{
    let wanted = text::owned(key);
    let mut i: usize = 0;
    assert(fields@.skip(0) =~= fields@);
    while i < fields.len()
        invariant
            i <= fields@.len(),
            wanted@ == key@,
            field(fields@, key@) == field(fields@.skip(i as int), key@),
        decreases fields.len() - i,
    {
        proof {
            assert(fields@.skip(i as int)[0] == fields@[i as int]);
            assert(fields@.skip(i as int).drop_first() =~= fields@.skip(i + 1));
        }
        if same_text(&fields[i].0, &wanted) {
            return Some(&fields[i].1);
        }
        i = i + 1;
    }
    proof {
        assert(fields@.skip(i as int).len() == 0);
    }
    None
}

/// The field of `value` named `key`, when `value` is an object.
pub fn find_member<'a>(value: &'a Json, key: &str) -> (found: Option<&'a Json>)
    ensures
        match found {
            Some(v) => member(*value, key@) == Some(*v),
            None => member(*value, key@) is None,
        },
{
    match value {
        Json::Object(fields) => find_field(fields, key),
        _ => None,
    }
}

/// The unsigned integer a field holds, if it holds one.
pub fn unsigned_member(value: &Json, key: &str) -> (n: Option<u64>)
    ensures
        n == unsigned_of(member(*value, key@)),
{
    match find_member(value, key) {
        Some(Json::Unsigned(n)) => Some(*n),
        _ => None,
    }
}

/// Whether `value` is the string `expected`.
pub fn is_text(value: &Json, expected: &str) -> (b: bool)
    ensures
        b == (value matches Json::Text(s) && s@ == expected@),
{
    match value {
        Json::Text(s) => {
            let wanted = text::owned(expected);
            same_text(s, &wanted)
        },
        _ => false,
    }
}

/// A string value.
pub fn text_value(s: &str) -> (value: Json)
    ensures
        value matches Json::Text(t) && t@ == s@,
{
    Json::Text(text::owned(s))
}

/// A field of an object: its key and its value.
pub fn entry(key: &str, value: Json) -> (e: (String, Json))
    ensures
        e.0@ == key@,
        e.1 == value,
{
    (text::owned(key), value)
}

/// Whether two values hold the same thing, as options.
pub open spec fn same_value(a: Option<Json>, b: Option<Json>) -> bool {
    match (a, b) {
        (None, None) => true,
        (Some(x), Some(y)) => x.value() == y.value(),
        _ => false,
    }
}

/// Two values that hold the same thing are of the same kind, and hold the
/// same number or text when they hold one.
pub proof fn lemma_same_kind(a: Json, b: Json)
    requires
        a.value() == b.value(),
    ensures
        a is Null <==> b is Null,
        a is Object <==> b is Object,
        a is List <==> b is List,
        a matches Json::Unsigned(n) ==> b == Json::Unsigned(n),
        a matches Json::Bool(x) ==> b == Json::Bool(x),
        a matches Json::Text(s) ==> (b matches Json::Text(t) && s@ == t@),
{
}

/// The fields of two objects that hold the same thing have the same keys,
/// and values that hold the same thing.
proof fn lemma_same_fields(a: Json, b: Json)
    requires
        a.value() == b.value(),
        a is Object,
    ensures
        b is Object,
        a->Object_0@.len() == b->Object_0@.len(),
        forall|i: int| 0 <= i < a->Object_0@.len() ==> (#[trigger] a->Object_0@[i]).0@ == b->Object_0@[i].0@
            && a->Object_0@[i].1.value() == b->Object_0@[i].1.value(),
{
    let f = a->Object_0@;
    let g = b->Object_0@;
    let x = a.value()->Object_0;
    let y = b.value()->Object_0;
    assert(x.len() == f.len() && y.len() == g.len());
    assert forall|i: int| 0 <= i < f.len() implies (#[trigger] f[i]).0@ == g[i].0@ && f[i].1.value()
        == g[i].1.value() by {
        assert(x[i] == (f[i].0@, f[i].1.value()));
        assert(y[i] == (g[i].0@, g[i].1.value()));
    }
}

/// Looking up a key in fields that agree gives values that agree.
proof fn lemma_field_same(f: Seq<(String, Json)>, g: Seq<(String, Json)>, key: Seq<char>)
    requires
        f.len() == g.len(),
        forall|i: int| 0 <= i < f.len() ==> (#[trigger] f[i]).0@ == g[i].0@ && f[i].1.value() == g[i].1.value(),
    ensures
        same_value(field(f, key), field(g, key)),
    decreases f.len(),
{
    if f.len() > 0 {
        assert(f[0].0@ == g[0].0@);
        let f2 = f.drop_first();
        let g2 = g.drop_first();
        assert forall|i: int| 0 <= i < f2.len() implies (#[trigger] f2[i]).0@ == g2[i].0@ && f2[i].1.value()
            == g2[i].1.value() by {
            assert(f2[i] == f[i + 1] && g2[i] == g[i + 1]);
        }
        lemma_field_same(f2, g2, key);
    }
}

/// A key of two values that hold the same thing holds the same thing in
/// both.
pub proof fn lemma_member_same(a: Json, b: Json, key: Seq<char>)
    requires
        a.value() == b.value(),
    ensures
        same_value(member(a, key), member(b, key)),
{
    lemma_same_kind(a, b);
    if a is Object {
        lemma_same_fields(a, b);
        lemma_field_same(a->Object_0@, b->Object_0@, key);
    }
}

/// A JSON value as `serde_json` holds it.
#[verifier::external_type_specification]
#[verifier::external_body]
pub struct ExSerdeValue(serde_json::Value);

/// A JSON number as `serde_json` holds it.
#[verifier::external_type_specification]
#[verifier::external_body]
pub struct ExSerdeNumber(serde_json::Number);

/// What `serde_json` makes of a text: the value it holds, or why it holds
/// none.
pub uninterp spec fn parsed_json(text: Seq<char>) -> Result<JsonValue, Seq<char>>;

/// `serde_json::from_str` into a `serde_json::Value`, converted to a `Json`,
/// or the error's message. What it gives depends on the text alone, so it
/// is named rather than stated.
#[verifier::external_body]
pub(crate) fn parse_json(text: &str) -> (parsed: Result<Json, String>)
    ensures
        match parsed {
            Ok(v) => parsed_json(text@) == Ok::<JsonValue, Seq<char>>(v.value()),
            Err(m) => parsed_json(text@) == Err::<JsonValue, Seq<char>>(m@),
        },
{
    match serde_json::from_str::<serde_json::Value>(text) {
        Ok(value) => Ok(json_of(&value)),
        Err(error) => Err(error.to_string()),
    }
}

/// A `serde_json::Value` as a `Json`, variant for variant.
#[verifier::external_body]
fn json_of(value: &serde_json::Value) -> Json {
    match value {
        serde_json::Value::Null => Json::Null,
        serde_json::Value::Bool(b) => Json::Bool(*b),
        serde_json::Value::Number(n) => number_of(n),
        serde_json::Value::String(s) => Json::Text(s.clone()),
        serde_json::Value::Array(items) => Json::List(items.iter().map(json_of).collect()),
        serde_json::Value::Object(fields) => Json::Object(fields.iter().map(|(k, v)| (k.clone(), json_of(v))).collect()),
    }
}

/// A `serde_json::Number` as a `Json`, by the kind of number it holds: a
/// non-negative integer, a negative one, or any other as written.
#[verifier::external_body]
fn number_of(number: &serde_json::Number) -> Json {
    match (number.as_u64(), number.as_i64()) {
        (Some(u), _) => Json::Unsigned(u),
        (None, Some(i)) => Json::Negative(i),
        _ => Json::Fraction(number.to_string()),
    }
}

/// The indented text `serde_json` writes a value as, or why it could not
/// write it.
pub uninterp spec fn encoded_json(value: JsonValue) -> Result<Seq<char>, Seq<char>>;

/// `serde_json::to_string_pretty` of a `Json` converted to a
/// `serde_json::Value`, or the error's message. What it gives depends on the
/// value alone, so it is named rather than stated.
#[verifier::external_body]
pub(crate) fn encode_json(json: &Json) -> (encoded: Result<String, String>)
    ensures
        match encoded {
            Ok(t) => encoded_json(json.value()) == Ok::<Seq<char>, Seq<char>>(t@),
            Err(m) => encoded_json(json.value()) == Err::<Seq<char>, Seq<char>>(m@),
        },
{
    serde_json::to_string_pretty(&value_of(json)).map_err(|error| error.to_string())
}

/// A `Json` as a `serde_json::Value`, variant for variant; a number held as
/// written is read back as the number it writes.
#[verifier::external_body]
fn value_of(json: &Json) -> serde_json::Value {
    match json {
        Json::Null => serde_json::Value::Null,
        Json::Bool(b) => serde_json::Value::Bool(*b),
        Json::Unsigned(n) => serde_json::Value::from(*n),
        Json::Negative(n) => serde_json::Value::from(*n),
        Json::Fraction(text) => serde_json::from_str(text).unwrap_or(serde_json::Value::Null),
        Json::Text(s) => serde_json::Value::String(s.clone()),
        Json::List(items) => serde_json::Value::Array(items.iter().map(value_of).collect()),
        Json::Object(fields) => serde_json::Value::Object(fields.iter().map(|(k, v)| (k.clone(), value_of(v))).collect()),
    }
}

} // verus!
