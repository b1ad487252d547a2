//! Reading and writing JSON values with `serde_json`.
use serde_json::Value;
use vstd::prelude::*;
use vstd::string::*;

verus! {

/// A JSON value of `serde_json`. What it holds is `json_tree`.
#[verifier::external_type_specification]
#[verifier::external_body]
pub struct ExValue(serde_json::Value);

/// What a JSON value holds, as far as it matters here: texts, lists, records and natural numbers.
/// Everything else (other numbers, booleans, null) is `Other`.
pub enum JsonTree {
    Str(Seq<char>),
    Array(Seq<JsonTree>),
    Object(Map<Seq<char>, JsonTree>),
    Uint(u64),
    Other,
}

/// The contents of a JSON value.
pub uninterp spec fn json_tree(v: serde_json::Value) -> JsonTree;

/// The contents of the values of a list.
pub open spec fn trees(list: Seq<serde_json::Value>) -> Seq<JsonTree> {
    Seq::new(list.len(), |i: int| json_tree(list[i]))
}

impl JsonTree {
    /// The value under a key of a record.
    pub open spec fn field(self, key: Seq<char>) -> Option<JsonTree> {
        match self {
            JsonTree::Object(m) => if m.dom().contains(key) {
                Some(m[key])
            } else {
                None
            },
            _ => None,
        }
    }

    /// The text under a key of a record.
    pub open spec fn text(self, key: Seq<char>) -> Option<Seq<char>> {
        match self.field(key) {
            Some(JsonTree::Str(s)) => Some(s),
            _ => None,
        }
    }

    /// The natural number under a key of a record.
    pub open spec fn number(self, key: Seq<char>) -> Option<u64> {
        match self.field(key) {
            Some(JsonTree::Uint(n)) => Some(n),
            _ => None,
        }
    }

    /// The list under `data` and then under `key`.
    pub open spec fn data_list(self, key: Seq<char>) -> Option<Seq<JsonTree>> {
        match self.field("data"@) {
            Some(d) => match d.field(key) {
                Some(JsonTree::Array(list)) => Some(list),
                _ => None,
            },
            None => None,
        }
    }

    /// Texts, lists and records only, nested no deeper than `depth`.
    pub open spec fn plain(self, depth: nat) -> bool
        decreases depth,
    {
        match self {
            JsonTree::Str(_) => true,
            JsonTree::Array(list) => depth > 0 && forall|i: int|
                0 <= i < list.len() ==> (#[trigger] list[i]).plain((depth - 1) as nat),
            JsonTree::Object(m) => depth > 0 && forall|k: Seq<char>| #[trigger]
                m.dom().contains(k) ==> m[k].plain((depth - 1) as nat),
            _ => false,
        }
    }
}

// ---------------------------------------------------------------- reading

/// What parsing some bytes as JSON gives: the value, or the message of the error.
pub uninterp spec fn json_value_of(bytes: Seq<u8>) -> Result<JsonTree, Seq<char>>;

/// A parse that succeeded.
pub open spec fn parsed(tree: JsonTree) -> Result<JsonTree, Seq<char>> {
    Ok(tree)
}

/// Wraps `serde_json::from_slice` into a `Value`. The outcome depends on the bytes alone and is
/// named `json_value_of`; the error is given as its message.
#[verifier::external_body]
pub(crate) fn parse_json(bytes: &[u8]) -> (r: Result<Value, String>)
    ensures
        match r {
            Ok(v) => json_value_of(bytes@) == Ok::<JsonTree, Seq<char>>(json_tree(v)),
            Err(e) => json_value_of(bytes@) == Err::<JsonTree, Seq<char>>(e@),
        },
{
    match serde_json::from_slice(bytes) {
        Ok(v) => Ok(v),
        Err(e) => Err(e.to_string()),
    }
}

/// What parsing a text as a JSON array gives: its items, or the message of the error.
pub uninterp spec fn json_list_of(text: Seq<char>) -> Result<Seq<JsonTree>, Seq<char>>;

/// Wraps `serde_json::from_str` into a `Vec<Value>`. The outcome depends on the text alone and is
/// named `json_list_of`; the error is given as its message.
#[verifier::external_body]
pub(crate) fn parse_json_list(text: &str) -> (r: Result<Vec<Value>, String>)
    ensures
        match r {
            Ok(list) => json_list_of(text@) == Ok::<Seq<JsonTree>, Seq<char>>(trees(list@)),
            Err(e) => json_list_of(text@) == Err::<Seq<JsonTree>, Seq<char>>(e@),
        },
{
    match serde_json::from_str(text) {
        Ok(list) => Ok(list),
        Err(e) => Err(e.to_string()),
    }
}

/// Wraps `Value::get` with a text: the value under a key of a record; nothing for any other value
/// and for a key that is not there.
#[verifier::external_body]
pub(crate) fn json_field<'a>(v: &'a Value, key: &str) -> (r: Option<&'a Value>)
    ensures
        match r {
            Some(x) => json_tree(*v).field(key@) == Some(json_tree(*x)),
            None => json_tree(*v).field(key@) is None,
        },
{
    v.get(key)
}

/// Wraps `Value::as_array`: the items of an array; nothing for any other value.
#[verifier::external_body]
pub(crate) fn json_items<'a>(v: &'a Value) -> (r: Option<&'a Vec<Value>>)
    ensures
        match r {
            Some(list) => json_tree(*v) == JsonTree::Array(trees(list@)),
            None => !(json_tree(*v) is Array),
        },
{
    v.as_array()
}

/// Wraps `Value::as_str`: the text of a string; nothing for any other value.
#[verifier::external_body]
pub(crate) fn json_str<'a>(v: &'a Value) -> (r: Option<&'a str>)
    ensures
        match r {
            Some(s) => json_tree(*v) == JsonTree::Str(s@),
            None => !(json_tree(*v) is Str),
        },
{
    v.as_str()
}

/// Wraps `Value::as_u64`: a number that is a natural number of 64 bits; nothing for any other
/// value.
#[verifier::external_body]
pub(crate) fn json_uint(v: &Value) -> (r: Option<u64>)
    ensures
        match r {
            Some(n) => json_tree(*v) == JsonTree::Uint(n),
            None => !(json_tree(*v) is Uint),
        },
{
    v.as_u64()
}

/// The text under a key of a record.
pub fn text_field<'a>(v: &'a Value, key: &str) -> (r: Option<&'a str>)
    ensures
        match r {
            Some(s) => json_tree(*v).text(key@) == Some(s@),
            None => json_tree(*v).text(key@) is None,
        },
{
    match json_field(v, key) {
        Some(x) => json_str(x),
        None => None,
    }
}

/// The natural number under a key of a record.
pub fn number_field(v: &Value, key: &str) -> (r: Option<u64>)
    ensures
        r == json_tree(*v).number(key@),
{
    match json_field(v, key) {
        Some(x) => json_uint(x),
        None => None,
    }
}

/// The list under `data` and then under `key`.
pub fn data_list<'a>(v: &'a Value, key: &str) -> (r: Option<&'a Vec<Value>>)
    ensures
        match r {
            Some(list) => json_tree(*v).data_list(key@) == Some(trees(list@)),
            None => json_tree(*v).data_list(key@) is None,
        },
{
    match json_field(v, "data") {
        Some(d) => match json_field(d, key) {
            Some(x) => json_items(x),
            None => None,
        },
        None => None,
    }
}

// ---------------------------------------------------------------- writing

/// How a value of texts, lists and records is written as compact JSON.
pub uninterp spec fn json_text(tree: JsonTree) -> Seq<char>;

/// Wraps `Value::to_string`, which writes compact JSON. Of a value made of texts, lists and
/// records alone, what is written depends on its contents alone and is named `json_text`; unless
/// the value is nested too deeply for the parser, parsing what is written gives the contents back.
#[verifier::external_body]
pub(crate) fn write_json(v: &Value) -> (out: String)
    ensures
        json_tree(*v).plain(100) ==> out@ == json_text(json_tree(*v)),
        json_tree(*v).plain(100) ==> json_value_of(vstd::utf8::encode_utf8(out@)) == parsed(
            json_tree(*v),
        ),
{
    v.to_string()
}

/// Wraps the constructor `Value::String`.
#[verifier::external_body]
pub(crate) fn make_text(s: &str) -> (v: Value)
    ensures
        json_tree(v) == JsonTree::Str(s@),
{
    Value::String(s.to_string())
}

/// Wraps the constructor `Value::Array`.
#[verifier::external_body]
pub(crate) fn make_array(items: Vec<Value>) -> (v: Value)
    ensures
        json_tree(v) == JsonTree::Array(trees(items@)),
{
    Value::Array(items)
}

/// Wraps the constructor `Value::Object` on an empty `serde_json::Map`.
#[verifier::external_body]
pub(crate) fn make_object() -> (v: Value)
    ensures
        json_tree(v) == JsonTree::Object(Map::empty()),
{
    Value::Object(serde_json::Map::new())
}

/// Wraps the assignment `v[key] = item` on a record, which sets the value of that key.
#[verifier::external_body]
pub(crate) fn set_field(v: &mut Value, key: &str, item: Value)
    requires
        json_tree(*old(v)) is Object,
    ensures
        json_tree(*final(v)) == JsonTree::Object(
            json_tree(*old(v))->Object_0.insert(key@, json_tree(item)),
        ),
{
    v[key] = item;
}

} // verus!
