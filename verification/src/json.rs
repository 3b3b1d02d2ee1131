//! An owned JSON document model, its mathematical view, and the calls into
//! `serde_json` that parse, navigate and print such documents.
use vstd::prelude::*;
use vstd::utf8::encode_utf8;

use crate::pointer::{canonical, pointer_target};
use crate::text::{decimal, escape_token};

verus! {

/// `serde_json`'s number type, carried through the model without being read.
#[verifier::external_type_specification]
#[verifier::external_body]
pub struct ExJsonNumber(serde_json::Number);

/// `serde_json`'s dynamically typed value; tools hand their input schemas
/// over as such values.
#[verifier::external_type_specification]
#[verifier::external_body]
pub struct ExJsonValue(serde_json::Value);

/// A JSON document held as plain values.
///
/// Numbers read from a document are carried as `serde_json` numbers; counts
/// and offsets that this library writes into a document are `Unsigned`.
/// The members of an object are listed in the order in which `serde_json`
/// iterates them.
#[derive(Debug)]
pub enum Json {
    Null,
    Bool(bool),
    Unsigned(u64),
    Number(serde_json::Number),
    Str(String),
    Array(Vec<Json>),
    Object(Vec<(String, Json)>),
}

/// The mathematical value of a [`Json`] document.
pub enum JsonV {
    Null,
    Bool(bool),
    Unsigned(u64),
    Number(serde_json::Number),
    Str(Seq<char>),
    Array(Seq<JsonV>),
    Object(Seq<(Seq<char>, JsonV)>),
}

/// The value of a document: strings by their characters, arrays and objects
/// by the values of their members.
pub open spec fn json_view(j: Json) -> JsonV
    decreases j,
{
    match j {
        Json::Null => JsonV::Null,
        Json::Bool(b) => JsonV::Bool(b),
        Json::Unsigned(n) => JsonV::Unsigned(n),
        Json::Number(n) => JsonV::Number(n),
        Json::Str(s) => JsonV::Str(s@),
        Json::Array(items) => JsonV::Array(
            Seq::new(
                items@.len(),
                |i: int|
                    if 0 <= i < items@.len() {
                        json_view(items@[i])
                    } else {
                        JsonV::Null
                    },
            ),
        ),
        Json::Object(fields) => JsonV::Object(
            Seq::new(
                fields@.len(),
                |i: int|
                    if 0 <= i < fields@.len() {
                        (fields@[i].0@, json_view(fields@[i].1))
                    } else {
                        (Seq::empty(), JsonV::Null)
                    },
            ),
        ),
    }
}

impl View for Json {
    type V = JsonV;

    open spec fn view(&self) -> JsonV {
        json_view(*self)
    }
}

/// The view of an optional document.
pub open spec fn opt_json_view(o: Option<Json>) -> Option<JsonV> {
    match o {
        Some(j) => Some(j@),
        None => None,
    }
}

/// The children of a container, each with the key by which a JSON pointer
/// reaches it: an object's members in order, an array's items by their
/// decimal index. Other values have no children.
pub open spec fn children(v: JsonV) -> Seq<(Seq<char>, JsonV)> {
    match v {
        JsonV::Object(fields) => fields,
        JsonV::Array(items) => Seq::new(items.len(), |i: int| (decimal(i as nat), items[i])),
        _ => Seq::empty(),
    }
}

/// The pointer that reaches child key `key` of the value at `pointer`.
pub open spec fn child_pointer(pointer: Seq<char>, key: Seq<char>) -> Seq<char> {
    pointer + seq!['/'] + escape_token(key)
}

/// What `serde_json::from_str::<serde_json::Value>` makes of a text: the
/// document it denotes, or `None` where the text is not JSON.
pub uninterp spec fn json_parse_result(text: Seq<char>) -> Option<JsonV>;

/// The compact text that `serde_json` prints for a document (`Display` of
/// `serde_json::Value`; object members printed in key order).
pub uninterp spec fn json_text(j: JsonV) -> Seq<char>;

/// The number of bytes of a text in UTF-8, as `str::len` reports it.
pub open spec fn byte_len(s: Seq<char>) -> nat {
    encode_utf8(s).len()
}

/// No character of `s` is a control character (one below U+0020).
pub open spec fn no_control_chars(s: Seq<char>) -> bool {
    forall|i: int| 0 <= i < s.len() ==> #[trigger] s[i] >= ' '
}

/// `s` is printable ASCII with no quote and no backslash: JSON writes it
/// inside quotes as it is.
pub open spec fn json_plain(s: Seq<char>) -> bool {
    forall|i: int|
        0 <= i < s.len() ==> ' ' <= #[trigger] s[i] <= '~' && s[i] != '"' && s[i] != '\\'
}

/// Sizes that `serde_json`'s compact printer gives a value: `null` takes
/// four bytes, a boolean at most five, an unsigned integer at most twenty
/// digits, an empty array or object two bytes; a string takes its two
/// quotes and, per character, its UTF-8 bytes or an escape (`\n`, `\"`,
/// `\\` and the like take two bytes, `\u00XX` for other control characters
/// six), so at most six bytes a character, at most twice its bytes where it
/// has no control character, and exactly its bytes where it needs no escape.
pub open spec fn printed_size_bounds(v: JsonV) -> bool {
    match v {
        JsonV::Null => byte_len(json_text(v)) == 4,
        JsonV::Bool(_) => byte_len(json_text(v)) <= 5,
        JsonV::Unsigned(_) => byte_len(json_text(v)) <= 20,
        JsonV::Str(s) => {
            &&& byte_len(json_text(v)) <= 2 + 6 * s.len()
            &&& no_control_chars(s) ==> byte_len(json_text(v)) <= 2 + 2 * byte_len(s)
            &&& json_plain(s) ==> byte_len(json_text(v)) == 2 + byte_len(s)
        },
        JsonV::Array(items) => items.len() == 0 ==> byte_len(json_text(v)) == 2,
        JsonV::Object(fields) => fields.len() == 0 ==> byte_len(json_text(v)) == 2,
        _ => true,
    }
}

/// No two members of `fields` share a key.
pub open spec fn distinct_keys(fields: Seq<(Seq<char>, JsonV)>) -> bool {
    forall|i: int, j: int|
        0 <= i < j < fields.len() ==> (#[trigger] fields[i]).0 != (#[trigger] fields[j]).0
}

/// The bytes printed for one member of an object: its key as a string, a
/// colon, its value, and the comma or closing brace after it.
pub open spec fn member_len(field: (Seq<char>, JsonV)) -> nat {
    byte_len(json_text(JsonV::Str(field.0))) + 1 + byte_len(json_text(field.1)) + 1
}

/// The bytes printed for the members of an object.
pub open spec fn members_len(fields: Seq<(Seq<char>, JsonV)>) -> nat
    decreases fields.len(),
{
    if fields.len() == 0 {
        0
    } else {
        members_len(fields.drop_last()) + member_len(fields.last())
    }
}

/// How `serde_json`'s compact printer lays out an object with distinct keys
/// and at least one member, by size: an opening brace, then each member as
/// its key, a colon and its value, followed by a comma or the closing brace;
/// each key and each member's value sized as [`printed_size_bounds`] says.
pub open spec fn object_printed(v: JsonV, text: Seq<char>) -> bool {
    match v {
        JsonV::Object(fields) => fields.len() > 0 && distinct_keys(fields) ==> {
            &&& byte_len(text) == 1 + members_len(fields)
            &&& forall|i: int|
                0 <= i < fields.len() ==> printed_size_bounds(JsonV::Str((#[trigger] fields[i]).0))
                    && printed_size_bounds(fields[i].1)
        },
        _ => true,
    }
}

/// Parses `text` as one JSON document with `serde_json::from_str`.
///
/// Trusted: the result is `Some` exactly where `serde_json` accepts the text,
/// and then holds the document it parsed. The contract names that result and
/// says nothing more of which texts are accepted. It states one more thing
/// that the source shows: the document is [`canonical`], as it comes from a
/// `serde_json::Value` whose objects are `BTreeMap`s (keys in increasing
/// byte order, which is the order of their characters, each key once),
/// whose numbers are `serde_json` numbers and whose arrays are `Vec`s.
#[verifier::external_body]
pub(crate) fn parse_json(text: &str) -> (r: Option<Json>)
    ensures
        opt_json_view(r) == json_parse_result(text@),
        r matches Some(v) ==> canonical(v@),
{
    serde_json::from_str::<serde_json::Value>(text).ok().map(json_from_value)
}

/// Looks a JSON pointer up in a document with `serde_json::Value::pointer`.
///
/// Trusted: for a [`canonical`] document the result is [`pointer_target`],
/// which states in a few lines what the source of `Value::pointer` does:
/// the empty pointer addresses the document, another must start with `/`,
/// its pieces between slashes are unescaped (`~1` to `/`, then `~0` to
/// `~`) and each looks up an object's member by key or an array's item by
/// `parse_index`. A canonical document comes through the conversion to a
/// `serde_json::Value` and back unchanged, so the value found is handed
/// back as it stands in the document.
#[verifier::external_body]
pub(crate) fn json_pointer(root: &Json, pointer: &str) -> (r: Option<Json>)
    requires
        canonical(root@),
    ensures
        opt_json_view(r) == pointer_target(root@, pointer@),
{
    value_from_json(root).pointer(pointer).map(|v| json_from_value(v.clone()))
}

/// Prints a document as compact JSON text with `serde_json` (`to_string` of
/// the equivalent `serde_json::Value`).
///
/// Trusted: the text is the one `serde_json` prints; it is named. Of an
/// object with distinct keys the contract states what the source of the
/// compact formatter and of `format_escaped_str` shows of its size
/// ([`object_printed`]); the order of the members (key order, from the
/// `BTreeMap` behind `serde_json::Map`) and the characters printed are left
/// to the name.
#[verifier::external_body]
pub(crate) fn json_to_string(j: &Json) -> (s: String)
    ensures
        s@ == json_text(j@),
        object_printed(j@, s@),
{
    value_from_json(j).to_string()
}

/// Converts a `serde_json` value into the model, member for member.
#[verifier::external_body]
fn json_from_value(v: serde_json::Value) -> Json {
    match v {
        serde_json::Value::Null => Json::Null,
        serde_json::Value::Bool(b) => Json::Bool(b),
        serde_json::Value::Number(n) => Json::Number(n),
        serde_json::Value::String(s) => Json::Str(s),
        serde_json::Value::Array(a) => Json::Array(a.into_iter().map(json_from_value).collect()),
        serde_json::Value::Object(m) => Json::Object(
            m.into_iter().map(|(k, x)| (k, json_from_value(x))).collect(),
        ),
    }
}

/// Converts a model document into a `serde_json` value, member for member.
#[verifier::external_body]
fn value_from_json(j: &Json) -> serde_json::Value {
    match j {
        Json::Null => serde_json::Value::Null,
        Json::Bool(b) => serde_json::Value::Bool(*b),
        Json::Unsigned(n) => serde_json::Value::Number((*n).into()),
        Json::Number(n) => serde_json::Value::Number(n.clone()),
        Json::Str(s) => serde_json::Value::String(s.clone()),
        Json::Array(a) => serde_json::Value::Array(a.iter().map(value_from_json).collect()),
        Json::Object(m) => serde_json::Value::Object(
            m.iter().map(|(k, x)| (k.clone(), value_from_json(x))).collect(),
        ),
    }
}

} // verus!
