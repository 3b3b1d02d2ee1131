//! Paging of tool resources: a small value comes back whole, a large string
//! in character pages, and a large array or object as an index of child
//! pointers, never as a truncated JSON document.
use vstd::prelude::*;

use vstd::utf8::{is_ascii_chars, is_ascii_chars_encode_utf8};

use crate::json::{
    byte_len, child_pointer, children, distinct_keys, json_parse_result, json_plain, json_pointer,
    json_text, json_to_string, json_view, member_len, members_len, no_control_chars,
    object_printed, parse_json, printed_size_bounds, Json, JsonV,
};
use crate::pointer::{canonical, lemma_child_pointer_reaches_child, member, pointer_target};
use crate::text::{decimal_string, escape_pointer_token, escape_token, push_char};

verus! {

/// The most bytes a page may take.
pub const PAGE_BYTES: usize = 6000;

/// The most child entries an index page lists.
pub const PAGE_ENTRIES: usize = 20;

/// The most characters of a string that one text page carries: at most six
/// bytes each once escaped as JSON, which leaves room for the page's other
/// members.
pub const TEXT_PAGE_CHARS: usize = 600;

/// The most characters of a child's `name` that an index entry repeats.
pub const NAME_CHARS: usize = 100;

/// The longest pointer accepted, in bytes.
pub const MAX_POINTER_BYTES: usize = 1024;

/// The bytes that the entries of an index page may take, leaving room for
/// the page's other members.
pub const INDEX_BYTES: usize = PAGE_BYTES - 200;

/// An error of the MCP layer.
#[derive(Debug)]
pub enum McpError {
    Transport(String),
}

impl McpError {
    /// The text of the error.
    pub open spec fn message(self) -> Seq<char> {
        match self {
            McpError::Transport(m) => m@,
        }
    }

    /// The text of the error.
    pub fn to_string(&self) -> (s: String)
        ensures
            s@ == self.message(),
    {
        match self {
            McpError::Transport(m) => m.clone(),
        }
    }
}

fn transport(msg: &str) -> (e: McpError)
    ensures
        e.message() == msg@,
{
    McpError::Transport(msg.to_owned())
}

/// What a tool execution hands back to the model.
#[derive(Debug)]
pub struct ToolResult {
    pub content: String,
    pub is_error: bool,
}

/// The error for arguments of a resource read that do not decode.
pub open spec fn msg_invalid_arguments() -> Seq<char> {
    "Invalid resource read arguments"@
}

/// The error for arguments of a resource read that do not decode.
pub fn invalid_arguments() -> (e: McpError)
    ensures
        e.message() == msg_invalid_arguments(),
{
    transport("Invalid resource read arguments")
}

/// The tool result for the outcome of a resource read: the page text, or
/// the error's text marked as an error.
pub fn tool_result(result: Result<String, McpError>) -> (t: ToolResult)
    ensures
        match result {
            Ok(c) => t.content@ == c@ && !t.is_error,
            Err(e) => t.content@ == e.message() && t.is_error,
        },
{
    match result {
        Ok(content) => ToolResult { content, is_error: false },
        Err(error) => ToolResult { content: error.to_string(), is_error: true },
    }
}

/// The error for a pointer longer than [`MAX_POINTER_BYTES`].
pub open spec fn msg_pointer_too_long() -> Seq<char> {
    "Resource pointer is too long"@
}

/// The error for a non-empty pointer into a text that is no JSON.
pub open spec fn msg_requires_json() -> Seq<char> {
    "JSON pointer requires a JSON resource"@
}

/// The error for a pointer that addresses nothing.
pub open spec fn msg_not_found() -> Seq<char> {
    "Resource JSON pointer not found"@
}

/// The error for an offset past the last character or child.
pub open spec fn msg_out_of_range() -> Seq<char> {
    "Resource offset out of range"@
}

/// The error for an offset into a value that is neither text nor container.
pub open spec fn msg_not_container() -> Seq<char> {
    "Resource offset requires a container or text"@
}

/// The error for an index page whose first entry alone is over budget.
pub open spec fn msg_over_budget() -> Seq<char> {
    "Resource entry exceeds page budget"@
}

/// The note that every index page carries.
pub open spec fn msg_index_only() -> Seq<char> {
    "Index only; follow child pointers to read values."@
}

/// The first `k` characters of `s`, or all of them where there are fewer.
pub open spec fn prefix(s: Seq<char>, k: nat) -> Seq<char> {
    if s.len() <= k {
        s
    } else {
        s.take(k as int)
    }
}

/// The page that carries a whole value.
pub open spec fn whole_page(pointer: Seq<char>, value: JsonV) -> JsonV {
    JsonV::Object(
        seq![
            ("pointer"@, JsonV::Str(pointer)),
            ("complete"@, JsonV::Bool(true)),
            ("value"@, value),
        ],
    )
}

/// Where the text page that starts at `offset` ends.
pub open spec fn text_end(len: nat, offset: nat) -> nat {
    if len - offset > TEXT_PAGE_CHARS {
        offset + TEXT_PAGE_CHARS as nat
    } else {
        len
    }
}

/// The page of string `s` that starts at character `offset`.
pub open spec fn text_page_of(pointer: Seq<char>, s: Seq<char>, offset: nat) -> JsonV {
    let end = text_end(s.len(), offset);
    JsonV::Object(
        seq![
            ("pointer"@, JsonV::Str(pointer)),
            ("complete"@, JsonV::Bool(end == s.len())),
            ("text"@, JsonV::Str(s.subrange(offset as int, end as int))),
            ("offset"@, JsonV::Unsigned(offset as u64)),
            ("next_offset"@, if end < s.len() {
                JsonV::Unsigned(end as u64)
            } else {
                JsonV::Null
            }),
            ("total_chars"@, JsonV::Unsigned(s.len() as u64)),
        ],
    )
}

/// An array or an object.
pub open spec fn is_container(v: JsonV) -> bool {
    v is Object || v is Array
}

/// The type an index entry gives a child.
pub open spec fn kind_name(v: JsonV) -> Seq<char> {
    match v {
        JsonV::Array(_) => "array"@,
        JsonV::Object(_) => "object"@,
        JsonV::Str(_) => "string"@,
        _ => "scalar"@,
    }
}

/// The name an index entry repeats for a child: the first characters of
/// the child's `name` member, where the child is an object whose `name` is a
/// string.
pub open spec fn display_name(child: JsonV) -> Option<Seq<char>> {
    match child {
        JsonV::Object(fields) => match member(fields, "name"@) {
            Some(JsonV::Str(n)) => Some(prefix(n, NAME_CHARS as nat)),
            _ => None,
        },
        _ => None,
    }
}

/// The index entry of the child with key `key`.
pub open spec fn index_entry_of(pointer: Seq<char>, key: Seq<char>, child: JsonV) -> JsonV {
    let base = seq![
        ("pointer"@, JsonV::Str(child_pointer(pointer, key))),
        ("type"@, JsonV::Str(kind_name(child))),
    ];
    let named = match display_name(child) {
        Some(n) => base.push(("name"@, JsonV::Str(n))),
        None => base,
    };
    JsonV::Object(
        match child {
            JsonV::Array(items) => named.push(("count"@, JsonV::Unsigned(items.len() as u64))),
            _ => named,
        },
    )
}

/// The entries of `n` children from `offset` on.
pub open spec fn index_entries(
    pointer: Seq<char>,
    chs: Seq<(Seq<char>, JsonV)>,
    offset: nat,
    n: nat,
) -> Seq<JsonV> {
    Seq::new(n, |i: int| index_entry_of(pointer, chs[offset + i].0, chs[offset + i].1))
}

/// The document whose printed size bounds the entries of an index page.
pub open spec fn entries_probe(pointer: Seq<char>, es: Seq<JsonV>) -> JsonV {
    JsonV::Object(seq![("pointer"@, JsonV::Str(pointer)), ("entries"@, JsonV::Array(es))])
}

/// Whether entries `es` fit the budget of an index page.
pub open spec fn entries_fit(pointer: Seq<char>, es: Seq<JsonV>) -> bool {
    byte_len(json_text(entries_probe(pointer, es))) <= INDEX_BYTES
}

/// How many children an index page from `offset` may list at most.
pub open spec fn index_limit(len: nat, offset: nat) -> nat {
    if len - offset < PAGE_ENTRIES {
        (len - offset) as nat
    } else {
        PAGE_ENTRIES as nat
    }
}

/// How many entries an index page from `offset` lists, given that the
/// first `k` fit: entries are added while they fit, up to the limit.
pub open spec fn index_count_from(
    pointer: Seq<char>,
    chs: Seq<(Seq<char>, JsonV)>,
    offset: nat,
    k: nat,
) -> nat
    decreases index_limit(chs.len(), offset) - k,
{
    if k >= index_limit(chs.len(), offset) {
        k
    } else if entries_fit(pointer, index_entries(pointer, chs, offset, k + 1)) {
        index_count_from(pointer, chs, offset, k + 1)
    } else {
        k
    }
}

/// How many entries the index page from `offset` lists.
pub open spec fn index_count(pointer: Seq<char>, chs: Seq<(Seq<char>, JsonV)>, offset: nat) -> nat {
    index_count_from(pointer, chs, offset, 0)
}

/// The index page from `offset` listing `n` entries.
pub open spec fn index_page_of(
    pointer: Seq<char>,
    chs: Seq<(Seq<char>, JsonV)>,
    offset: nat,
    n: nat,
) -> JsonV {
    JsonV::Object(
        seq![
            ("pointer"@, JsonV::Str(pointer)),
            ("complete"@, JsonV::Bool(false)),
            ("entries"@, JsonV::Array(index_entries(pointer, chs, offset, n))),
            ("offset"@, JsonV::Unsigned(offset as u64)),
            ("next_offset"@, if offset + n < chs.len() {
                JsonV::Unsigned((offset + n) as u64)
            } else {
                JsonV::Null
            }),
            ("total_entries"@, JsonV::Unsigned(chs.len() as u64)),
            ("message"@, JsonV::Str(msg_index_only())),
        ],
    )
}

/// The index of container `v` from child `offset` on, as text, or the error.
pub open spec fn index_result(pointer: Seq<char>, v: JsonV, offset: nat) -> Result<
    Seq<char>,
    Seq<char>,
> {
    let chs = children(v);
    if offset > chs.len() {
        Err(msg_out_of_range())
    } else {
        let n = index_count(pointer, chs, offset);
        if n == 0 && offset < chs.len() {
            Err(msg_over_budget())
        } else {
            Ok(json_text(index_page_of(pointer, chs, offset, n)))
        }
    }
}

/// The page of `value` (found at `pointer`) from `offset` on, as text, or
/// the error.
pub open spec fn value_page_result(pointer: Seq<char>, value: JsonV, offset: nat) -> Result<
    Seq<char>,
    Seq<char>,
> {
    let whole = json_text(whole_page(pointer, value));
    if offset == 0 && byte_len(whole) <= PAGE_BYTES {
        Ok(whole)
    } else {
        match value {
            JsonV::Str(s) => if offset > s.len() {
                Err(msg_out_of_range())
            } else {
                Ok(json_text(text_page_of(pointer, s, offset)))
            },
            JsonV::Object(_) => index_result(pointer, value, offset),
            JsonV::Array(_) => index_result(pointer, value, offset),
            _ => Err(msg_not_container()),
        }
    }
}

/// The document a resource text stands for: the JSON it parses to, or,
/// where it is no JSON and the pointer is empty, the text as one string.
pub open spec fn resource_root(text: Seq<char>, pointer: Seq<char>) -> Option<JsonV> {
    match json_parse_result(text) {
        Some(v) => Some(v),
        None => if pointer.len() == 0 {
            Some(JsonV::Str(text))
        } else {
            None
        },
    }
}

/// The page of a resource text at `pointer` from `offset` on, or the error.
pub open spec fn resource_page_result(text: Seq<char>, pointer: Seq<char>, offset: nat) -> Result<
    Seq<char>,
    Seq<char>,
> {
    if byte_len(pointer) > MAX_POINTER_BYTES {
        Err(msg_pointer_too_long())
    } else {
        match resource_root(text, pointer) {
            None => Err(msg_requires_json()),
            Some(root) => match pointer_target(root, pointer) {
                None => Err(msg_not_found()),
                Some(value) => value_page_result(pointer, value, offset),
            },
        }
    }
}

fn field(key: &str, value: Json) -> (f: (String, Json))
    ensures
        f.0@ == key@,
        f.1 == value,
{
    (key.to_owned(), value)
}

/// The schema of a string argument, with its description where it has one.
pub open spec fn string_argument(description: Option<Seq<char>>) -> JsonV {
    match description {
        Some(d) => JsonV::Object(
            seq![("type"@, JsonV::Str("string"@)), ("description"@, JsonV::Str(d))],
        ),
        None => JsonV::Object(seq![("type"@, JsonV::Str("string"@))]),
    }
}

/// The description of the `pointer` argument.
pub open spec fn pointer_argument_note() -> Seq<char> {
    "RFC 6901 JSON pointer from a previous page, or empty for root"@
}

/// The description of the `offset` argument.
pub open spec fn offset_argument_note() -> Seq<char> {
    "Use next_offset from the previous page; defaults to 0"@
}

/// The input schema of a resource read: an object with the strings
/// `server` and `uri`, which it requires, an optional string `pointer` and
/// an optional non-negative integer `offset`, and no other member.
pub open spec fn read_schema() -> JsonV {
    JsonV::Object(
        seq![
            ("type"@, JsonV::Str("object"@)),
            ("properties"@, JsonV::Object(
                seq![
                    ("server"@, string_argument(None)),
                    ("uri"@, string_argument(None)),
                    ("pointer"@, string_argument(Some(pointer_argument_note()))),
                    ("offset"@, JsonV::Object(
                        seq![
                            ("type"@, JsonV::Str("integer"@)),
                            ("minimum"@, JsonV::Unsigned(0)),
                            ("description"@, JsonV::Str(offset_argument_note())),
                        ],
                    )),
                ],
            )),
            ("required"@, JsonV::Array(seq![JsonV::Str("server"@), JsonV::Str("uri"@)])),
            ("additionalProperties"@, JsonV::Bool(false)),
        ],
    )
}

fn string_argument_schema(description: Option<&str>) -> (j: Json)
    ensures
        j@ == string_argument(
            match description {
                Some(d) => Some(d@),
                None => None,
            },
        ),
{
    let mut fields = vec![field("type", Json::Str("string".to_owned()))];
    match description {
        Some(d) => fields.push(field("description", Json::Str(d.to_owned()))),
        None => {},
    }
    let j = Json::Object(fields);
    proof {
        reveal_with_fuel(json_view, 2);
        if let JsonV::Object(es) = string_argument(
            match description {
                Some(d) => Some(d@),
                None => None,
            },
        ) {
            if let JsonV::Object(ps) = j@ {
                assert(ps =~= es);
            }
        }
    }
    j
}

/// The input schema of a resource read, as [`read_schema`] states it.
pub fn resource_read_schema() -> (s: Json)
    ensures
        s@ == read_schema(),
{
    let server = string_argument_schema(None);
    let uri = string_argument_schema(None);
    let pointer = string_argument_schema(
        Some("RFC 6901 JSON pointer from a previous page, or empty for root"),
    );
    let offset = Json::Object(
        vec![
            field("type", Json::Str("integer".to_owned())),
            field("minimum", Json::Unsigned(0)),
            field(
                "description",
                Json::Str("Use next_offset from the previous page; defaults to 0".to_owned()),
            ),
        ],
    );
    proof {
        reveal_with_fuel(json_view, 2);
        if let JsonV::Object(ps) = offset@ {
            assert(ps =~= seq![
                ("type"@, JsonV::Str("integer"@)),
                ("minimum"@, JsonV::Unsigned(0)),
                ("description"@, JsonV::Str(offset_argument_note())),
            ]);
        }
    }
    let ghost offset_view = offset@;
    let ghost argument_views = seq![
        ("server"@, server@),
        ("uri"@, uri@),
        ("pointer"@, pointer@),
        ("offset"@, offset_view),
    ];
    let properties = Json::Object(
        vec![
            field("server", server),
            field("uri", uri),
            field("pointer", pointer),
            field("offset", offset),
        ],
    );
    proof {
        reveal_with_fuel(json_view, 2);
        if let JsonV::Object(ps) = properties@ {
            assert(ps =~= argument_views);
        }
    }
    let ghost properties_view = properties@;
    let required = Json::Array(
        vec![Json::Str("server".to_owned()), Json::Str("uri".to_owned())],
    );
    proof {
        reveal_with_fuel(json_view, 2);
        if let JsonV::Array(items) = required@ {
            assert(items =~= seq![JsonV::Str("server"@), JsonV::Str("uri"@)]);
        }
    }
    let ghost required_view = required@;
    let schema = Json::Object(
        vec![
            field("type", Json::Str("object".to_owned())),
            field("properties", properties),
            field("required", required),
            field("additionalProperties", Json::Bool(false)),
        ],
    );
    proof {
        reveal_with_fuel(json_view, 2);
        if let JsonV::Object(ps) = schema@ {
            if let JsonV::Object(es) = read_schema() {
                assert(ps =~= es);
            }
        }
    }
    schema
}

/// The page of string `text` (found at `pointer`) that starts at character
/// `offset`; an offset past the end is out of range.
pub fn text_page(pointer: &str, text: &str, offset: usize) -> (r: Result<Json, McpError>)
    ensures
        match r {
            Ok(page) => offset <= text@.len() && page@ == text_page_of(
                pointer@,
                text@,
                offset as nat,
            ),
            Err(e) => offset > text@.len() && e.message() == msg_out_of_range(),
        },
        r matches Ok(page) ==> page_member(page@, "total_chars"@) == Some(
            JsonV::Unsigned(text@.len() as u64),
        ),
        r matches Ok(page) ==> page_member(page@, "text"@) == Some(
            JsonV::Str(
                text@.subrange(
                    offset as int,
                    if text@.len() - offset < 600 {
                        text@.len() as int
                    } else {
                        offset + 600
                    },
                ),
            ),
        ),
{
    proof {
        if offset <= text@.len() {
            lemma_text_page_members(pointer@, text@, offset as nat);
        }
    }
    let total = text.unicode_len();
    if offset > total {
        return Err(transport("Resource offset out of range"));
    }
    let end = if total - offset > TEXT_PAGE_CHARS {
        offset + TEXT_PAGE_CHARS
    } else {
        total
    };
    let part = text.substring_char(offset, end).to_owned();
    let next_offset = if end < total {
        Json::Unsigned(end as u64)
    } else {
        Json::Null
    };
    let fields = vec![
        field("pointer", Json::Str(pointer.to_owned())),
        field("complete", Json::Bool(end == total)),
        field("text", Json::Str(part)),
        field("offset", Json::Unsigned(offset as u64)),
        field("next_offset", next_offset),
        field("total_chars", Json::Unsigned(total as u64)),
    ];
    let page = Json::Object(fields);
    proof {
        reveal_with_fuel(json_view, 2);
        let expected = text_page_of(pointer@, text@, offset as nat);
        if let JsonV::Object(es) = expected {
            if let JsonV::Object(ps) = page@ {
                assert(ps =~= es);
            }
        }
    }
    Ok(page)
}

/// The name an index entry repeats for `child`.
fn entry_name(child: &Json) -> (r: Option<String>)
    ensures
        match r {
            Some(n) => display_name(child@) == Some(n@),
            None => display_name(child@) is None,
        },
{
    match child {
        Json::Object(fields) => {
            let ghost fv = match child@ {
                JsonV::Object(f) => f,
                _ => Seq::empty(),
            };
            let name_key = "name".to_owned();
            let mut i: usize = 0;
            assert(fv.skip(0) =~= fv);
            while i < fields.len()
                invariant
                    i <= fields@.len(),
                    name_key@ == "name"@,
                    child@ == JsonV::Object(fv),
                    fv.len() == fields@.len(),
                    forall|j: int|
                        0 <= j < fields@.len() ==> #[trigger] fv[j] == (
                            fields@[j].0@,
                            json_view(fields@[j].1),
                        ),
                    member(fv, "name"@) == member(fv.skip(i as int), "name"@),
                decreases fields@.len() - i,
            {
                assert(fv.skip(i as int)[0] == fv[i as int]);
                if fields[i].0 == name_key {
                    match &fields[i].1 {
                        Json::Str(n) => {
                            let len = n.unicode_len();
                            let k = if len <= NAME_CHARS {
                                len
                            } else {
                                NAME_CHARS
                            };
                            let shown = n.substring_char(0, k).to_owned();
                            assert(shown@ =~= prefix(n@, NAME_CHARS as nat));
                            return Some(shown);
                        },
                        _ => {
                            return None;
                        },
                    }
                }
                assert(fv.skip(i as int).drop_first() =~= fv.skip(i + 1));
                i = i + 1;
            }
            None
        },
        _ => None,
    }
}

/// How many children container `value` has.
fn child_count(value: &Json) -> (n: usize)
    ensures
        n == children(value@).len(),
{
    match value {
        Json::Object(fields) => fields.len(),
        Json::Array(items) => items.len(),
        _ => 0,
    }
}

/// The key and value of child `i` of `value`.
fn child_at(value: &Json, i: usize) -> (r: (String, &Json))
    requires
        i < children(value@).len(),
    ensures
        r.0@ == children(value@)[i as int].0,
        r.1@ == children(value@)[i as int].1,
{
    match value {
        Json::Object(fields) => (fields[i].0.clone(), &fields[i].1),
        Json::Array(items) => (decimal_string(i), &items[i]),
        _ => (String::new(), value),
    }
}

/// The index entry of child `child` with key `key` of the value at
/// `pointer`: the child's pointer, its type, the start of its name and, for
/// an array, its length.
pub fn index_entry(pointer: &str, key: &str, child: &Json) -> (e: Json)
    ensures
        e@ == index_entry_of(pointer@, key@, child@),
        page_member(e@, "type"@) is Some,
        page_member(e@, "type"@)->0 is Str,
        page_member(e@, "type"@)->0->Str_0 == "object"@ <==> child@ is Object,
        page_member(e@, "type"@)->0->Str_0 == "array"@ <==> child@ is Array,
        page_member(e@, "type"@)->0->Str_0 == "string"@ <==> child@ is Str,
        page_member(e@, "type"@)->0->Str_0 == "scalar"@ <==> !(child@ is Object) && !(
        child@ is Array) && !(child@ is Str),
        page_member(e@, "name"@) matches Some(JsonV::Str(shown)) ==> child@ matches JsonV::Object(
            fs,
        ) && member(fs, "name"@) matches Some(JsonV::Str(n)) && shown.len() == (if n.len() <= 100 {
            n.len()
        } else {
            100
        }) && shown == n.subrange(0, shown.len() as int),
{
    proof {
        lemma_index_entry_members(pointer@, key@, child@);
    }
    let mut path = pointer.to_owned();
    push_char(&mut path, '/');
    let token = escape_pointer_token(key);
    path.append(token.as_str());
    assert(path@ =~= pointer@ + seq!['/'] + escape_token(key@));
    let kind = match child {
        Json::Array(_) => "array",
        Json::Object(_) => "object",
        Json::Str(_) => "string",
        _ => "scalar",
    };
    let mut fields: Vec<(String, Json)> = Vec::new();
    fields.push(field("pointer", Json::Str(path)));
    fields.push(field("type", Json::Str(kind.to_owned())));
    let ghost base = fields@;
    match entry_name(child) {
        Some(n) => fields.push(field("name", Json::Str(n))),
        None => {},
    }
    let ghost named = fields@;
    match child {
        Json::Array(items) => fields.push(field("count", Json::Unsigned(items.len() as u64))),
        _ => {},
    }
    let e = Json::Object(fields);
    proof {
        reveal_with_fuel(json_view, 2);
        if let JsonV::Object(es) = index_entry_of(pointer@, key@, child@) {
            if let JsonV::Object(ps) = e@ {
                assert(ps =~= es);
            }
        }
    }
    e
}

/// The index page of container `value` (found at `pointer`) from child
/// `offset` on, as text. Entries are added while the printed entries stay
/// within [`INDEX_BYTES`], up to [`PAGE_ENTRIES`] of them.
fn index_page(pointer: &str, value: &Json, offset: usize) -> (r: Result<String, McpError>)
    requires
        is_container(value@),
    ensures
        page_view(r) == index_result(pointer@, value@, offset as nat),
        r matches Ok(p) ==> (no_control_chars(pointer@) && byte_len(pointer@)
            <= MAX_POINTER_BYTES ==> byte_len(p@) <= PAGE_BYTES),
{
    let total = child_count(value);
    if offset > total {
        return Err(transport("Resource offset out of range"));
    }
    let limit = if total - offset < PAGE_ENTRIES {
        total - offset
    } else {
        PAGE_ENTRIES
    };
    let ghost chs = children(value@);
    let ghost ptr = pointer@;
    let mut entries: Vec<Json> = Vec::new();
    let mut k: usize = 0;
    let mut full = false;
    while k < limit && !full
        invariant
            chs == children(value@),
            ptr == pointer@,
            total == chs.len(),
            offset <= total,
            limit == index_limit(chs.len(), offset as nat),
            k <= limit,
            entries@.len() == k,
            forall|j: int|
                0 <= j < k ==> #[trigger] json_view(entries@[j]) == index_entries(
                    ptr,
                    chs,
                    offset as nat,
                    k as nat,
                )[j],
            index_count(ptr, chs, offset as nat) == if full {
                k as nat
            } else {
                index_count_from(ptr, chs, offset as nat, k as nat)
            },
            k > 0 ==> object_printed(
                entries_probe(ptr, index_entries(ptr, chs, offset as nat, k as nat)),
                json_text(entries_probe(ptr, index_entries(ptr, chs, offset as nat, k as nat))),
            ),
        decreases limit - k + (if full {
            0int
        } else {
            1int
        }),
    {
        let (key, child) = child_at(value, offset + k);
        let entry = index_entry(pointer, key.as_str(), child);
        entries.push(entry);
        let ghost listed = index_entries(ptr, chs, offset as nat, (k + 1) as nat);
        assert(forall|j: int| 0 <= j <= k ==> #[trigger] json_view(entries@[j]) == listed[j]);
        let ghost ev = entries@;
        let probe = Json::Object(
            vec![field("pointer", Json::Str(pointer.to_owned())), field("entries", Json::Array(entries))],
        );
        proof {
            reveal_with_fuel(json_view, 3);
            if let JsonV::Object(ps) = probe@ {
                if let JsonV::Object(es) = entries_probe(ptr, listed) {
                    if let JsonV::Array(av) = ps[1].1 {
                        assert(forall|j: int| 0 <= j < av.len() ==> av[j] == json_view(ev[j]));
                        assert(av =~= listed);
                    }
                    assert(ps =~= es);
                }
            }
        }
        let probe_text = json_to_string(&probe);
        entries =
        match probe {
            Json::Object(mut members) => match members.pop() {
                Some((_, Json::Array(listed_entries))) => listed_entries,
                _ => Vec::new(),
            },
            _ => Vec::new(),
        };
        if probe_text.as_str().as_bytes().len() > INDEX_BYTES {
            entries.pop();
            full = true;
        } else {
            k = k + 1;
        }
    }
    if k == 0 && offset < total {
        return Err(transport("Resource entry exceeds page budget"));
    }
    let next = offset + k;
    let next_offset = if next < total {
        Json::Unsigned(next as u64)
    } else {
        Json::Null
    };
    let ghost listed = index_entries(ptr, chs, offset as nat, k as nat);
    let ghost ev = entries@;
    let page = Json::Object(
        vec![
            field("pointer", Json::Str(pointer.to_owned())),
            field("complete", Json::Bool(false)),
            field("entries", Json::Array(entries)),
            field("offset", Json::Unsigned(offset as u64)),
            field("next_offset", next_offset),
            field("total_entries", Json::Unsigned(total as u64)),
            field("message", Json::Str("Index only; follow child pointers to read values.".to_owned())),
        ],
    );
    proof {
        reveal_with_fuel(json_view, 3);
        if let JsonV::Object(ps) = page@ {
            if let JsonV::Object(es) = index_page_of(ptr, chs, offset as nat, k as nat) {
                if let JsonV::Array(av) = ps[2].1 {
                    assert(forall|j: int| 0 <= j < av.len() ==> av[j] == json_view(ev[j]));
                    assert(av =~= listed);
                }
                assert(ps =~= es);
            }
        }
    }
    let printed = json_to_string(&page);
    proof {
        if no_control_chars(ptr) && byte_len(ptr) <= MAX_POINTER_BYTES {
            lemma_index_count_bounds(ptr, chs, offset as nat, 0);
            lemma_index_page_size(ptr, chs, offset as nat, k as nat, printed@);
        }
    }
    Ok(printed)
}

/// The page of `value`, found at `pointer`, from `offset` on: the whole
/// value where `offset` is 0 and it fits [`PAGE_BYTES`], else a text page
/// of a string or an index page of an array or object.
pub fn value_page(pointer: &str, value: Json, offset: usize) -> (r: Result<String, McpError>)
    ensures
        page_view(r) == value_page_result(pointer@, value@, offset as nat),
        r matches Ok(p) ==> (no_control_chars(pointer@) && byte_len(pointer@)
            <= MAX_POINTER_BYTES ==> byte_len(p@) <= PAGE_BYTES),
        offset == 0 && byte_len(
            json_text(
                JsonV::Object(
                    seq![
                        ("pointer"@, JsonV::Str(pointer@)),
                        ("complete"@, JsonV::Bool(true)),
                        ("value"@, value@),
                    ],
                ),
            ),
        ) <= PAGE_BYTES ==> page_view(r) == Ok::<Seq<char>, Seq<char>>(
            json_text(
                JsonV::Object(
                    seq![
                        ("pointer"@, JsonV::Str(pointer@)),
                        ("complete"@, JsonV::Bool(true)),
                        ("value"@, value@),
                    ],
                ),
            ),
        ),
{
    proof {
        let small = JsonV::Object(
            seq![
                ("pointer"@, JsonV::Str(pointer@)),
                ("complete"@, JsonV::Bool(true)),
                ("value"@, value@),
            ],
        );
        if offset == 0 && byte_len(json_text(small)) <= PAGE_BYTES {
            lemma_small_value_whole(pointer@, value@);
        }
    }
    let ghost v = value@;
    let whole_page_json = Json::Object(
        vec![
            field("pointer", Json::Str(pointer.to_owned())),
            field("complete", Json::Bool(true)),
            field("value", value),
        ],
    );
    proof {
        reveal_with_fuel(json_view, 2);
        if let JsonV::Object(ps) = whole_page_json@ {
            if let JsonV::Object(es) = whole_page(pointer@, v) {
                assert(ps =~= es);
            }
        }
    }
    let whole = json_to_string(&whole_page_json);
    if offset == 0 && whole.as_str().as_bytes().len() <= PAGE_BYTES {
        return Ok(whole);
    }
    let value = match whole_page_json {
        Json::Object(mut members) => match members.pop() {
            Some((_, x)) => x,
            None => Json::Null,
        },
        _ => Json::Null,
    };
    assert(value@ == v);
    match &value {
        Json::Str(s) => match text_page(pointer, s.as_str(), offset) {
            Ok(page) => {
                let printed = json_to_string(&page);
                proof {
                    if no_control_chars(pointer@) && byte_len(pointer@) <= MAX_POINTER_BYTES {
                        lemma_text_page_size(pointer@, s@, offset as nat, printed@);
                    }
                }
                Ok(printed)
            },
            Err(e) => Err(e),
        },
        Json::Object(_) => index_page(pointer, &value, offset),
        Json::Array(_) => index_page(pointer, &value, offset),
        _ => Err(transport("Resource offset requires a container or text")),
    }
}

/// Produces one page of a resource text: the value at `pointer` whole where
/// it is small, else a page of its characters or an index of its children
/// from `offset` on; never a truncated JSON document.
///
/// A text that is no JSON is read as one string, under the empty pointer
/// only; the empty pointer reads a JSON text's whole document. Where the
/// pointer has no control character, every page takes at most
/// [`PAGE_BYTES`] bytes.
pub fn resource_page(text: &str, pointer: &str, offset: usize) -> (r: Result<String, McpError>)
    ensures
        page_view(r) == resource_page_result(text@, pointer@, offset as nat),
        r is Ok ==> pointers_reach_children(text@, pointer@),
        r matches Ok(p) ==> (no_control_chars(pointer@) ==> byte_len(p@) <= PAGE_BYTES),
        pointer@.len() == 0 ==> (json_parse_result(text@) matches Some(root) ==> page_view(r)
            == value_page_result(pointer@, root, offset as nat)),
{
    if pointer.as_bytes().len() > MAX_POINTER_BYTES {
        return Err(transport("Resource pointer is too long"));
    }
    let root = match parse_json(text) {
        Some(v) => v,
        None => {
            if pointer.is_empty() {
                Json::Str(text.to_owned())
            } else {
                return Err(transport("JSON pointer requires a JSON resource"));
            }
        },
    };
    assert(canonical(root@));
    let value = match json_pointer(&root, pointer) {
        Some(v) => v,
        None => {
            return Err(transport("Resource JSON pointer not found"));
        },
    };
    proof {
        assert forall|i: int| 0 <= i < children(value@).len() implies pointer_target(
            root@,
            #[trigger] child_pointer(pointer@, children(value@)[i].0),
        ) == Some(children(value@)[i].1) by {
            lemma_child_pointer_reaches_child(root@, pointer@, i);
        }
    }
    value_page(pointer, value, offset)
}

/// Member `key` of a page.
pub open spec fn page_member(page: JsonV, key: Seq<char>) -> Option<JsonV> {
    match page {
        JsonV::Object(fields) => member(fields, key),
        _ => None,
    }
}

/// The texts of the pages of string `s` from `offset` on, read page after
/// page by following each page's `next_offset`.
pub open spec fn text_pages_joined(pointer: Seq<char>, s: Seq<char>, offset: nat) -> Seq<char>
    decreases s.len() - offset,
{
    let page = text_page_of(pointer, s, offset);
    let text = match page_member(page, "text"@) {
        Some(JsonV::Str(t)) => t,
        _ => Seq::empty(),
    };
    match page_member(page, "next_offset"@) {
        Some(JsonV::Unsigned(next)) => if offset < next <= s.len() {
            text + text_pages_joined(pointer, s, next as nat)
        } else {
            text
        },
        _ => text,
    }
}

/// Text pages lose nothing: reading the pages of a string from `offset`
/// on, following `next_offset` until it is null, gives back the string
/// from `offset` on, in order.
pub proof fn lemma_text_pages_rejoin(pointer: Seq<char>, s: Seq<char>, offset: nat)
    requires
        offset <= s.len(),
        s.len() <= u64::MAX,
    ensures
        text_pages_joined(pointer, s, offset) == s.subrange(offset as int, s.len() as int),
    decreases s.len() - offset,
{
    reveal_strlit("pointer");
    reveal_strlit("complete");
    reveal_strlit("text");
    reveal_strlit("offset");
    reveal_strlit("next_offset");
    let end = text_end(s.len(), offset);
    let page = text_page_of(pointer, s, offset);
    if let JsonV::Object(fields) = page {
        assert("pointer"@.len() != "text"@.len());
        assert("complete"@.len() != "text"@.len());
        assert("text"@.len() != "next_offset"@.len());
        assert("offset"@.len() != "next_offset"@.len());
        assert("pointer"@.len() != "next_offset"@.len());
        assert("complete"@.len() != "next_offset"@.len());
        assert(fields[0].0 != "text"@);
        assert(fields[1].0 != "text"@);
        assert(member(fields, "text"@) == Some(JsonV::Str(s.subrange(offset as int, end as int))))
            by {
            reveal_with_fuel(member, 4);
            assert(fields.drop_first().drop_first()[0].0 == "text"@);
        }
        assert(member(fields, "next_offset"@) == Some(fields[4].1)) by {
            reveal_with_fuel(member, 6);
            let f1 = fields.drop_first();
            let f2 = f1.drop_first();
            let f3 = f2.drop_first();
            let f4 = f3.drop_first();
            assert(f2[0].0 != "next_offset"@);
            assert(f3[0].0 != "next_offset"@);
            assert(f4[0].0 == "next_offset"@);
        }
    }
    if end < s.len() {
        lemma_text_pages_rejoin(pointer, s, end);
        assert(s.subrange(offset as int, end as int) + s.subrange(end as int, s.len() as int)
            =~= s.subrange(offset as int, s.len() as int));
    }
}

/// The entries that the index pages of `chs` list from `offset` on, read
/// page after page by following each page's `next_offset`.
pub open spec fn index_pages_joined(
    pointer: Seq<char>,
    chs: Seq<(Seq<char>, JsonV)>,
    offset: nat,
) -> Seq<JsonV>
    decreases chs.len() - offset,
{
    let page = index_page_of(pointer, chs, offset, index_count(pointer, chs, offset));
    let entries = match page_member(page, "entries"@) {
        Some(JsonV::Array(es)) => es,
        _ => Seq::empty(),
    };
    match page_member(page, "next_offset"@) {
        Some(JsonV::Unsigned(next)) => if offset < next <= chs.len() {
            entries + index_pages_joined(pointer, chs, next as nat)
        } else {
            entries
        },
        _ => entries,
    }
}

/// An index page lists at least the entries known to fit and at most
/// [`PAGE_ENTRIES`], never more children than remain; whenever it lists
/// some, their printed list fits [`INDEX_BYTES`].
pub proof fn lemma_index_count_bounds(
    pointer: Seq<char>,
    chs: Seq<(Seq<char>, JsonV)>,
    offset: nat,
    k: nat,
)
    requires
        offset <= chs.len(),
        k <= index_limit(chs.len(), offset),
    ensures
        k <= index_count_from(pointer, chs, offset, k) <= index_limit(chs.len(), offset),
        index_limit(chs.len(), offset) <= chs.len() - offset,
        index_limit(chs.len(), offset) <= PAGE_ENTRIES,
        index_count_from(pointer, chs, offset, k) > k ==> entries_fit(
            pointer,
            index_entries(pointer, chs, offset, index_count_from(pointer, chs, offset, k)),
        ),
    decreases index_limit(chs.len(), offset) - k,
{
    if k < index_limit(chs.len(), offset) && entries_fit(
        pointer,
        index_entries(pointer, chs, offset, k + 1),
    ) {
        lemma_index_count_bounds(pointer, chs, offset, k + 1);
    }
}

/// Index pages lose nothing: where no page fails for want of room, reading
/// the index pages from `offset` on, following `next_offset` until it is
/// null, lists every child from `offset` on once, in order.
pub proof fn lemma_index_pages_cover(pointer: Seq<char>, chs: Seq<(Seq<char>, JsonV)>, offset: nat)
    requires
        offset <= chs.len(),
        chs.len() <= u64::MAX,
        forall|p: nat| offset <= p < chs.len() ==> #[trigger] index_count(pointer, chs, p) > 0,
    ensures
        index_pages_joined(pointer, chs, offset) == index_entries(
            pointer,
            chs,
            offset,
            (chs.len() - offset) as nat,
        ),
    decreases chs.len() - offset,
{
    reveal_strlit("pointer");
    reveal_strlit("complete");
    reveal_strlit("entries");
    reveal_strlit("offset");
    reveal_strlit("next_offset");
    let n = index_count(pointer, chs, offset);
    lemma_index_count_bounds(pointer, chs, offset, 0);
    let page = index_page_of(pointer, chs, offset, n);
    if let JsonV::Object(fields) = page {
        assert(member(fields, "entries"@) == Some(fields[2].1)) by {
            reveal_with_fuel(member, 4);
            let f1 = fields.drop_first();
            let f2 = f1.drop_first();
            assert("pointer"@[0] != "entries"@[0]);
            assert("complete"@.len() != "entries"@.len());
            assert(fields[0].0 != "entries"@);
            assert(f1[0].0 != "entries"@);
            assert(f2[0].0 == "entries"@);
        }
        assert(member(fields, "next_offset"@) == Some(fields[4].1)) by {
            reveal_with_fuel(member, 6);
            let f1 = fields.drop_first();
            let f2 = f1.drop_first();
            let f3 = f2.drop_first();
            let f4 = f3.drop_first();
            assert("pointer"@.len() != "next_offset"@.len());
            assert("complete"@.len() != "next_offset"@.len());
            assert("entries"@.len() != "next_offset"@.len());
            assert("offset"@.len() != "next_offset"@.len());
            assert(fields[0].0 != "next_offset"@);
            assert(f1[0].0 != "next_offset"@);
            assert(f2[0].0 != "next_offset"@);
            assert(f3[0].0 != "next_offset"@);
            assert(f4[0].0 == "next_offset"@);
        }
    }
    if offset + n < chs.len() {
        assert(n > 0) by {
            if offset < chs.len() {
                assert(index_count(pointer, chs, offset) > 0);
            }
        }
        lemma_index_pages_cover(pointer, chs, offset + n);
        assert(index_entries(pointer, chs, offset, n) + index_entries(
            pointer,
            chs,
            offset + n,
            (chs.len() - (offset + n)) as nat,
        ) =~= index_entries(pointer, chs, offset, (chs.len() - offset) as nat));
    } else {
        assert(index_entries(pointer, chs, offset, n) =~= index_entries(
            pointer,
            chs,
            offset,
            (chs.len() - offset) as nat,
        ));
    }
}

/// Every child of the value at `pointer` in a resource text is at the
/// pointer that an index entry gives it: reading that pointer in the same
/// text reads the child.
pub open spec fn pointers_reach_children(text: Seq<char>, pointer: Seq<char>) -> bool {
    match resource_root(text, pointer) {
        Some(root) => match pointer_target(root, pointer) {
            Some(value) => forall|i: int|
                0 <= i < children(value).len() ==> pointer_target(
                    root,
                    #[trigger] child_pointer(pointer, children(value)[i].0),
                ) == Some(children(value)[i].1),
            None => true,
        },
        None => true,
    }
}

/// A page result by its texts.
pub open spec fn page_view(r: Result<String, McpError>) -> Result<Seq<char>, Seq<char>> {
    match r {
        Ok(s) => Ok(s@),
        Err(e) => Err(e.message()),
    }
}


/// A key that needs no escape is printed as its characters within quotes.
proof fn lemma_plain_key_len(k: Seq<char>)
    requires
        json_plain(k),
        printed_size_bounds(JsonV::Str(k)),
    ensures
        byte_len(json_text(JsonV::Str(k))) == k.len() + 2,
{
    assert(is_ascii_chars(k)) by {
        assert forall|i: int| 0 <= i < k.len() implies '\0' <= #[trigger] k[i] <= '\u{7f}' by {
            assert(' ' <= k[i] <= '~');
        }
    }
    is_ascii_chars_encode_utf8(k);
}

/// A text page takes at most [`PAGE_BYTES`] once printed, where its pointer
/// has no control character and at most [`MAX_POINTER_BYTES`] bytes: its
/// at most [`TEXT_PAGE_CHARS`] characters take six bytes each at most, the
/// pointer twice its bytes at most.
proof fn lemma_text_page_size(pointer: Seq<char>, s: Seq<char>, offset: nat, text: Seq<char>)
    requires
        offset <= s.len(),
        no_control_chars(pointer),
        byte_len(pointer) <= MAX_POINTER_BYTES,
        object_printed(text_page_of(pointer, s, offset), text),
    ensures
        byte_len(text) <= PAGE_BYTES,
{
    reveal_strlit("pointer");
    reveal_strlit("complete");
    reveal_strlit("text");
    reveal_strlit("offset");
    reveal_strlit("next_offset");
    reveal_strlit("total_chars");
    let page = text_page_of(pointer, s, offset);
    if let JsonV::Object(fields) = page {
        assert(distinct_keys(fields)) by {
            assert(fields[4].0[0] != fields[5].0[0]);
            assert forall|i: int, j: int| 0 <= i < j < fields.len() implies (#[trigger] fields[i]).0
                != (#[trigger] fields[j]).0 by {
                if i == 4 && j == 5 {
                    assert(fields[i].0[0] != fields[j].0[0]);
                } else {
                    assert(fields[i].0.len() != fields[j].0.len());
                }
            }
        }
        lemma_members_len_all(fields);
        assert forall|i: int| 0 <= i < fields.len() implies json_plain(#[trigger] fields[i].0) by {
        }
        assert(printed_size_bounds(JsonV::Str(fields[0].0)) && printed_size_bounds(fields[0].1));
        assert(printed_size_bounds(JsonV::Str(fields[1].0)) && printed_size_bounds(fields[1].1));
        assert(printed_size_bounds(JsonV::Str(fields[2].0)) && printed_size_bounds(fields[2].1));
        assert(printed_size_bounds(JsonV::Str(fields[3].0)) && printed_size_bounds(fields[3].1));
        assert(printed_size_bounds(JsonV::Str(fields[4].0)) && printed_size_bounds(fields[4].1));
        assert(printed_size_bounds(JsonV::Str(fields[5].0)) && printed_size_bounds(fields[5].1));
        lemma_plain_key_len(fields[0].0);
        lemma_plain_key_len(fields[1].0);
        lemma_plain_key_len(fields[2].0);
        lemma_plain_key_len(fields[3].0);
        lemma_plain_key_len(fields[4].0);
        lemma_plain_key_len(fields[5].0);
        assert(text_end(s.len(), offset) - offset <= TEXT_PAGE_CHARS);
    }
}

/// The bytes of the first `k` members are those of the first `k - 1` and
/// those of member `k - 1`.
proof fn lemma_members_len_take(fields: Seq<(Seq<char>, JsonV)>, k: int)
    requires
        0 < k <= fields.len(),
    ensures
        members_len(fields.take(k)) == members_len(fields.take(k - 1)) + member_len(fields[k - 1]),
{
    assert(fields.take(k).drop_last() =~= fields.take(k - 1));
}

/// The bytes of at most seven members, member by member.
proof fn lemma_members_len_all(fields: Seq<(Seq<char>, JsonV)>)
    requires
        fields.len() <= 7,
    ensures
        fields.len() == 2 ==> members_len(fields) == member_len(fields[0]) + member_len(fields[1]),
        fields.len() == 6 ==> members_len(fields) == member_len(fields[0]) + member_len(fields[1])
            + member_len(fields[2]) + member_len(fields[3]) + member_len(fields[4]) + member_len(
            fields[5],
        ),
        fields.len() == 7 ==> members_len(fields) == member_len(fields[0]) + member_len(fields[1])
            + member_len(fields[2]) + member_len(fields[3]) + member_len(fields[4]) + member_len(
            fields[5],
        ) + member_len(fields[6]),
{
    assert(fields.take(0) =~= Seq::<(Seq<char>, JsonV)>::empty());
    assert(fields.take(fields.len() as int) =~= fields);
    if fields.len() >= 1 {
        lemma_members_len_take(fields, 1);
    }
    if fields.len() >= 2 {
        lemma_members_len_take(fields, 2);
    }
    if fields.len() >= 3 {
        lemma_members_len_take(fields, 3);
    }
    if fields.len() >= 4 {
        lemma_members_len_take(fields, 4);
    }
    if fields.len() >= 5 {
        lemma_members_len_take(fields, 5);
    }
    if fields.len() >= 6 {
        lemma_members_len_take(fields, 6);
    }
    if fields.len() >= 7 {
        lemma_members_len_take(fields, 7);
    }
}

/// The members of an index page have distinct keys, none of which needs an
/// escape, and its note needs none either.
proof fn lemma_index_page_keys(pointer: Seq<char>, chs: Seq<(Seq<char>, JsonV)>, offset: nat, n: nat)
    ensures
        index_page_of(pointer, chs, offset, n) matches JsonV::Object(fields) && fields.len() == 7
            && distinct_keys(fields) && (forall|i: int|
            0 <= i < fields.len() ==> json_plain(#[trigger] fields[i].0))
            && fields[0].0.len() == 7 && fields[1].0.len() == 8 && fields[2].0.len() == 7
            && fields[3].0.len() == 6 && fields[4].0.len() == 11 && fields[5].0.len() == 13
            && fields[6].0.len() == 7,
        entries_probe(pointer, index_entries(pointer, chs, offset, n)) matches JsonV::Object(
            probe_fields,
        ) && probe_fields.len() == 2 && distinct_keys(probe_fields),
{
    reveal_strlit("pointer");
    reveal_strlit("complete");
    reveal_strlit("entries");
    reveal_strlit("offset");
    reveal_strlit("next_offset");
    reveal_strlit("total_entries");
    reveal_strlit("message");
    if let JsonV::Object(fields) = index_page_of(pointer, chs, offset, n) {
        assert forall|i: int, j: int| 0 <= i < j < fields.len() implies (#[trigger] fields[i]).0
            != (#[trigger] fields[j]).0 by {
            assert(fields[i].0.len() != fields[j].0.len() || fields[i].0[0] != fields[j].0[0]);
        }
        assert forall|i: int| 0 <= i < fields.len() implies json_plain(#[trigger] fields[i].0) by {
        }
    }
    if let JsonV::Object(probe_fields) = entries_probe(
        pointer,
        index_entries(pointer, chs, offset, n),
    ) {
        assert(probe_fields[0].0[0] != probe_fields[1].0[0]);
    }
}

/// The note of an index page needs no escape and has forty-nine characters.
proof fn lemma_index_note_plain()
    ensures
        json_plain(msg_index_only()),
        msg_index_only().len() == 49,
{
    reveal_strlit("Index only; follow child pointers to read values.");
}

/// An index page takes at most [`PAGE_BYTES`] once printed, where its
/// pointer has no control character and at most [`MAX_POINTER_BYTES`]
/// bytes: its entries, printed with the pointer, fit [`INDEX_BYTES`], and
/// its other members take less than the two hundred bytes left.
proof fn lemma_index_page_size(
    pointer: Seq<char>,
    chs: Seq<(Seq<char>, JsonV)>,
    offset: nat,
    n: nat,
    text: Seq<char>,
)
    requires
        no_control_chars(pointer),
        byte_len(pointer) <= MAX_POINTER_BYTES,
        object_printed(index_page_of(pointer, chs, offset, n), text),
        n > 0 ==> object_printed(
            entries_probe(pointer, index_entries(pointer, chs, offset, n)),
            json_text(entries_probe(pointer, index_entries(pointer, chs, offset, n))),
        ),
        n > 0 ==> entries_fit(pointer, index_entries(pointer, chs, offset, n)),
    ensures
        byte_len(text) <= PAGE_BYTES,
{
    let es = index_entries(pointer, chs, offset, n);
    let page = index_page_of(pointer, chs, offset, n);
    let probe = entries_probe(pointer, es);
    lemma_index_page_keys(pointer, chs, offset, n);
    lemma_index_note_plain();
    if let JsonV::Object(fields) = page {
        assert(printed_size_bounds(JsonV::Str(fields[0].0)) && printed_size_bounds(fields[0].1));
        assert(printed_size_bounds(JsonV::Str(fields[1].0)) && printed_size_bounds(fields[1].1));
        assert(printed_size_bounds(JsonV::Str(fields[2].0)) && printed_size_bounds(fields[2].1));
        assert(printed_size_bounds(JsonV::Str(fields[3].0)) && printed_size_bounds(fields[3].1));
        assert(printed_size_bounds(JsonV::Str(fields[4].0)) && printed_size_bounds(fields[4].1));
        assert(printed_size_bounds(JsonV::Str(fields[5].0)) && printed_size_bounds(fields[5].1));
        assert(printed_size_bounds(JsonV::Str(fields[6].0)) && printed_size_bounds(fields[6].1));
        lemma_plain_key_len(fields[0].0);
        lemma_plain_key_len(fields[1].0);
        lemma_plain_key_len(fields[2].0);
        lemma_plain_key_len(fields[3].0);
        lemma_plain_key_len(fields[4].0);
        lemma_plain_key_len(fields[5].0);
        lemma_plain_key_len(fields[6].0);
        lemma_plain_key_len(msg_index_only());
        lemma_members_len_all(fields);
        if n > 0 {
            if let JsonV::Object(probe_fields) = probe {
                assert(probe_fields[0] == fields[0]);
                assert(probe_fields[1] == fields[2]);
                lemma_members_len_all(probe_fields);
            }
        } else {
            assert(es.len() == 0);
        }
    }
}

/// The member at `i` is the first with its key.
proof fn lemma_member_at(fields: Seq<(Seq<char>, JsonV)>, i: int, key: Seq<char>)
    requires
        0 <= i < fields.len(),
        fields[i].0 == key,
        forall|j: int| 0 <= j < i ==> (#[trigger] fields[j]).0 != key,
    ensures
        member(fields, key) == Some(fields[i].1),
    decreases i,
{
    if i > 0 {
        let rest = fields.drop_first();
        assert forall|j: int| 0 <= j < i - 1 implies (#[trigger] rest[j]).0 != key by {
            assert(rest[j] == fields[j + 1]);
        }
        lemma_member_at(rest, i - 1, key);
    }
}

/// No member has the key.
proof fn lemma_member_absent(fields: Seq<(Seq<char>, JsonV)>, key: Seq<char>)
    requires
        forall|j: int| 0 <= j < fields.len() ==> (#[trigger] fields[j]).0 != key,
    ensures
        member(fields, key) is None,
    decreases fields.len(),
{
    if fields.len() > 0 {
        let rest = fields.drop_first();
        assert forall|j: int| 0 <= j < rest.len() implies (#[trigger] rest[j]).0 != key by {
            assert(rest[j] == fields[j + 1]);
        }
        lemma_member_absent(rest, key);
    }
}

/// What a text page says of a string `s` read from character `offset`:
/// it carries the pointer, the next characters of `s` (six hundred, or as
/// many as remain), the offset it starts at, the length of the whole string
/// as `total_chars` whatever the offset, and it is complete exactly where it
/// reaches the end of `s`, its `next_offset` then null and else where it
/// stopped.
pub proof fn lemma_text_page_members(pointer: Seq<char>, s: Seq<char>, offset: nat)
    requires
        offset <= s.len(),
    ensures
        ({
            let page = text_page_of(pointer, s, offset);
            let n: nat = if s.len() - offset < 600 {
                (s.len() - offset) as nat
            } else {
                600
            };
            &&& page_member(page, "pointer"@) == Some(JsonV::Str(pointer))
            &&& page_member(page, "text"@) == Some(
                JsonV::Str(s.subrange(offset as int, (offset + n) as int)),
            )
            &&& page_member(page, "total_chars"@) == Some(JsonV::Unsigned(s.len() as u64))
            &&& page_member(page, "offset"@) == Some(JsonV::Unsigned(offset as u64))
            &&& page_member(page, "complete"@) == Some(JsonV::Bool(offset + n == s.len()))
            &&& page_member(page, "next_offset"@) == Some(
                if offset + n < s.len() {
                    JsonV::Unsigned((offset + n) as u64)
                } else {
                    JsonV::Null
                },
            )
        }),
{
    reveal_strlit("pointer");
    reveal_strlit("complete");
    reveal_strlit("text");
    reveal_strlit("offset");
    reveal_strlit("next_offset");
    reveal_strlit("total_chars");
    if let JsonV::Object(fields) = text_page_of(pointer, s, offset) {
        assert forall|i: int, j: int| 0 <= j < i < fields.len() implies (#[trigger] fields[j]).0
            != (#[trigger] fields[i]).0 by {
            assert(fields[i].0.len() != fields[j].0.len() || fields[i].0[0] != fields[j].0[0]);
        }
        assert(fields[1].0 != fields[0].0);
        assert(fields[2].0 != fields[0].0 && fields[2].0 != fields[1].0);
        assert(fields[3].0 != fields[0].0 && fields[3].0 != fields[1].0 && fields[3].0
            != fields[2].0);
        lemma_member_at(fields, 0, "pointer"@);
        lemma_member_at(fields, 1, "complete"@);
        lemma_member_at(fields, 2, "text"@);
        lemma_member_at(fields, 3, "offset"@);
        lemma_member_at(fields, 4, "next_offset"@);
        lemma_member_at(fields, 5, "total_chars"@);
    }
}

/// What an index entry says of a child: the child's pointer (the parent's
/// pointer, `/`, the escaped key); its type, `object`, `array` or `string`
/// exactly for a child of that kind and `scalar` for every other child; for
/// an object child whose `name` member is a string, the first hundred
/// characters of that name (all of it where it is shorter), and no name
/// otherwise; and for an array child its length as `count`, and no count
/// otherwise.
pub proof fn lemma_index_entry_members(pointer: Seq<char>, key: Seq<char>, child: JsonV)
    ensures
        ({
            let e = index_entry_of(pointer, key, child);
            &&& page_member(e, "pointer"@) == Some(JsonV::Str(pointer + seq!['/'] + escape_token(key)))
            &&& page_member(e, "type"@) is Some
            &&& page_member(e, "type"@)->0 is Str
            &&& (page_member(e, "type"@)->0->Str_0 == "object"@ <==> child is Object)
            &&& (page_member(e, "type"@)->0->Str_0 == "array"@ <==> child is Array)
            &&& (page_member(e, "type"@)->0->Str_0 == "string"@ <==> child is Str)
            &&& (page_member(e, "type"@)->0->Str_0 == "scalar"@ <==> !(child is Object)
                && !(child is Array) && !(child is Str))
            &&& match child {
                JsonV::Array(items) => page_member(e, "count"@) == Some(
                    JsonV::Unsigned(items.len() as u64),
                ),
                _ => page_member(e, "count"@) is None,
            }
            &&& match child {
                JsonV::Object(fs) => match member(fs, "name"@) {
                    Some(JsonV::Str(n)) => {
                        &&& page_member(e, "name"@) is Some
                        &&& page_member(e, "name"@)->0 is Str
                        &&& page_member(e, "name"@)->0->Str_0.len() == if n.len() <= 100 {
                            n.len()
                        } else {
                            100
                        }
                        &&& page_member(e, "name"@)->0->Str_0 == n.subrange(
                            0,
                            page_member(e, "name"@)->0->Str_0.len() as int,
                        )
                    },
                    _ => page_member(e, "name"@) is None,
                },
                _ => page_member(e, "name"@) is None,
            }
        }),
{
    reveal_strlit("pointer");
    reveal_strlit("type");
    reveal_strlit("name");
    reveal_strlit("count");
    reveal_strlit("object");
    reveal_strlit("array");
    reveal_strlit("string");
    reveal_strlit("scalar");
    assert("object"@ != "scalar"@ && "object"@ != "string"@ && "scalar"@ != "string"@) by {
        assert("object"@[0] != "scalar"@[0] && "object"@[0] != "string"@[0] && "scalar"@[1]
            != "string"@[1]);
    }
    assert("array"@.len() != "object"@.len());
    if let JsonV::Object(fields) = index_entry_of(pointer, key, child) {
        assert forall|i: int, j: int| 0 <= j < i < fields.len() implies (#[trigger] fields[j]).0
            != (#[trigger] fields[i]).0 by {
            assert(fields[i].0.len() != fields[j].0.len() || fields[i].0[0] != fields[j].0[0]);
        }
        lemma_member_at(fields, 0, "pointer"@);
        assert(fields[1].0 != fields[0].0);
        lemma_member_at(fields, 1, "type"@);
        if fields.len() > 2 {
            assert(fields[2].0 != fields[0].0 && fields[2].0 != fields[1].0);
            if fields[2].0 == "name"@ {
                lemma_member_at(fields, 2, "name"@);
            } else {
                lemma_member_at(fields, 2, "count"@);
            }
        }
        if !(child is Array) {
            assert forall|j: int| 0 <= j < fields.len() implies (#[trigger] fields[j]).0
                != "count"@ by {
                if j == 0 {
                    assert(fields[j].0 == "pointer"@);
                    assert("pointer"@.len() != "count"@.len());
                } else if j == 1 {
                    assert(fields[j].0 == "type"@);
                    assert("type"@.len() != "count"@.len());
                } else {
                    assert(fields[j].0 == "name"@);
                    assert("name"@.len() != "count"@.len());
                }
            }
            lemma_member_absent(fields, "count"@);
        }
        if display_name(child) is None {
            assert forall|j: int| 0 <= j < fields.len() implies (#[trigger] fields[j]).0
                != "name"@ by {
                if j == 0 {
                    assert(fields[j].0 == "pointer"@);
                    assert("pointer"@.len() != "name"@.len());
                } else if j == 1 {
                    assert(fields[j].0 == "type"@);
                    assert("type"@[0] != "name"@[0]);
                } else {
                    assert(fields[j].0 == "count"@);
                    assert("count"@.len() != "name"@.len());
                }
            }
            lemma_member_absent(fields, "name"@);
        }
    }
}

/// A small value comes back whole: at offset 0, where the page holding the
/// pointer, `complete: true` and the whole value prints in at most
/// [`PAGE_BYTES`] bytes, the page is that text, whatever kind of value it is
/// and however many children it has.
pub proof fn lemma_small_value_whole(pointer: Seq<char>, value: JsonV)
    requires
        byte_len(
            json_text(
                JsonV::Object(
                    seq![
                        ("pointer"@, JsonV::Str(pointer)),
                        ("complete"@, JsonV::Bool(true)),
                        ("value"@, value),
                    ],
                ),
            ),
        ) <= PAGE_BYTES,
    ensures
        value_page_result(pointer, value, 0) == Ok::<Seq<char>, Seq<char>>(
            json_text(
                JsonV::Object(
                    seq![
                        ("pointer"@, JsonV::Str(pointer)),
                        ("complete"@, JsonV::Bool(true)),
                        ("value"@, value),
                    ],
                ),
            ),
        ),
{
}

/// What an index page says of the children `chs` listed from `offset` on:
/// it carries the pointer, is never complete, lists one entry per child in
/// order, each the entry of that child, gives the offset it starts at, the
/// number of all children as `total_entries` whatever the offset, a
/// `next_offset` just past its last entry or null where none remain, and
/// the note that it is an index only.
pub proof fn lemma_index_page_members(
    pointer: Seq<char>,
    chs: Seq<(Seq<char>, JsonV)>,
    offset: nat,
    n: nat,
)
    requires
        offset + n <= chs.len(),
    ensures
        ({
            let page = index_page_of(pointer, chs, offset, n);
            &&& page_member(page, "pointer"@) == Some(JsonV::Str(pointer))
            &&& page_member(page, "complete"@) == Some(JsonV::Bool(false))
            &&& page_member(page, "entries"@) is Some
            &&& page_member(page, "entries"@)->0 is Array
            &&& page_member(page, "entries"@)->0->Array_0.len() == n
            &&& forall|j: int|
                0 <= j < n ==> (#[trigger] page_member(page, "entries"@)->0->Array_0[j])
                    == index_entry_of(pointer, chs[offset + j].0, chs[offset + j].1)
            &&& page_member(page, "offset"@) == Some(JsonV::Unsigned(offset as u64))
            &&& page_member(page, "total_entries"@) == Some(JsonV::Unsigned(chs.len() as u64))
            &&& page_member(page, "next_offset"@) == Some(
                if offset + n < chs.len() {
                    JsonV::Unsigned((offset + n) as u64)
                } else {
                    JsonV::Null
                },
            )
            &&& page_member(page, "message"@) == Some(
                JsonV::Str("Index only; follow child pointers to read values."@),
            )
        }),
{
    lemma_index_page_keys(pointer, chs, offset, n);
    if let JsonV::Object(fields) = index_page_of(pointer, chs, offset, n) {
        lemma_member_at(fields, 0, fields[0].0);
        lemma_member_at(fields, 1, fields[1].0);
        lemma_member_at(fields, 2, fields[2].0);
        lemma_member_at(fields, 3, fields[3].0);
        lemma_member_at(fields, 4, fields[4].0);
        lemma_member_at(fields, 5, fields[5].0);
        lemma_member_at(fields, 6, fields[6].0);
    }
}

} // verus!
