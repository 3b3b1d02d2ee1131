use aion_tools::json::Json;
use aion_tools::resource::{
    index_entry, invalid_arguments, resource_page, resource_read_schema, text_page, tool_result,
    value_page, McpError, PAGE_BYTES,
};
use serde_json::Value;

fn error_text(r: Result<String, McpError>) -> String {
    r.unwrap_err().to_string()
}

fn member<'a>(page: &'a Json, key: &str) -> Option<&'a Json> {
    match page {
        Json::Object(fields) => fields.iter().find(|(k, _)| k == key).map(|(_, v)| v),
        _ => None,
    }
}

#[test]
fn small_value_comes_back_whole() {
    let page = resource_page(r#"{"b":[1,2],"a":"x"}"#, "", 0).unwrap();
    assert_eq!(page, r#"{"complete":true,"pointer":"","value":{"a":"x","b":[1,2]}}"#);
    let page = resource_page(r#"{"b":[1,2],"a":"x"}"#, "/b/1", 0).unwrap();
    assert_eq!(page, r#"{"complete":true,"pointer":"/b/1","value":2}"#);
}

#[test]
fn plain_text_is_one_string_under_the_empty_pointer() {
    let page = resource_page("hello world", "", 0).unwrap();
    assert_eq!(page, r#"{"complete":true,"pointer":"","value":"hello world"}"#);
    assert_eq!(
        error_text(resource_page("hello world", "/a", 0)),
        "JSON pointer requires a JSON resource"
    );
}

#[test]
fn pointer_length_limit_is_in_bytes() {
    let text = r#"{"a":1}"#;
    let long = format!("/{}", "a".repeat(1024));
    assert_eq!(error_text(resource_page(text, &long, 0)), "Resource pointer is too long");
    let limit = format!("/{}", "a".repeat(1023));
    assert_eq!(error_text(resource_page(text, &limit, 0)), "Resource JSON pointer not found");
    let wide = format!("/{}", "é".repeat(512));
    assert_eq!(error_text(resource_page(text, &wide, 0)), "Resource pointer is too long");
}

#[test]
fn pointer_without_leading_slash_is_not_found() {
    assert_eq!(
        error_text(resource_page(r#"{"a":1}"#, "a", 0)),
        "Resource JSON pointer not found"
    );
}

#[test]
fn offset_into_a_scalar_is_refused() {
    assert_eq!(
        error_text(resource_page("5", "", 1)),
        "Resource offset requires a container or text"
    );
    assert_eq!(error_text(resource_page("true", "", 3)), "Resource offset requires a container or text");
}

#[test]
fn text_page_at_the_end_is_complete_and_empty() {
    let page = resource_page(r#"{"s":"abc"}"#, "/s", 3).unwrap();
    assert_eq!(
        page,
        r#"{"complete":true,"next_offset":null,"offset":3,"pointer":"/s","text":"","total_chars":3}"#
    );
    assert_eq!(
        error_text(resource_page(r#"{"s":"abc"}"#, "/s", 4)),
        "Resource offset out of range"
    );
}

#[test]
fn text_page_carries_six_hundred_characters() {
    let s = "é".repeat(1000);
    let page = text_page("/t", &s, 0).unwrap();
    match member(&page, "text") {
        Some(Json::Str(t)) => assert_eq!(t.chars().count(), 600),
        _ => panic!("text page without text"),
    }
    assert!(matches!(member(&page, "next_offset"), Some(Json::Unsigned(600))));
    assert!(matches!(member(&page, "complete"), Some(Json::Bool(false))));
    let last = text_page("/t", &s, 600).unwrap();
    match member(&last, "text") {
        Some(Json::Str(t)) => assert_eq!(t.chars().count(), 400),
        _ => panic!("text page without text"),
    }
    assert!(matches!(member(&last, "next_offset"), Some(Json::Null)));
    assert!(matches!(member(&last, "total_chars"), Some(Json::Unsigned(1000))));
    assert_eq!(text_page("/t", &s, 1001).unwrap_err().to_string(), "Resource offset out of range");
}

#[test]
fn index_of_an_array_lists_twenty_children() {
    let items: Vec<String> = (0..45).map(|i| format!("{{\"name\":\"n{i}\",\"v\":[1,2,3]}}")).collect();
    let text = format!("[{}]", items.join(","));
    let page: Value = serde_json::from_str(&resource_page(&text, "", 1).unwrap()).unwrap();
    assert_eq!(page["complete"], false);
    assert_eq!(page["offset"], 1);
    assert_eq!(page["next_offset"], 21);
    assert_eq!(page["total_entries"], 45);
    assert_eq!(page["entries"].as_array().unwrap().len(), 20);
    assert_eq!(page["entries"][0]["pointer"], "/1");
    assert_eq!(page["entries"][0]["type"], "object");
    assert_eq!(page["entries"][0]["name"], "n1");
    assert_eq!(page["message"], "Index only; follow child pointers to read values.");
    let last: Value = serde_json::from_str(&resource_page(&text, "", 41).unwrap()).unwrap();
    assert_eq!(last["entries"].as_array().unwrap().len(), 4);
    assert!(last["next_offset"].is_null());
    let end: Value = serde_json::from_str(&resource_page(&text, "", 45).unwrap()).unwrap();
    assert_eq!(end["entries"].as_array().unwrap().len(), 0);
    assert_eq!(error_text(resource_page(&text, "", 46)), "Resource offset out of range");
}

#[test]
fn index_pages_cover_every_child_once() {
    let items: Vec<String> = (0..130).map(|i| format!("{{\"name\":\"{}\"}}", "n".repeat(i % 7 + 1))).collect();
    let text = format!("[{}]", items.join(","));
    let mut offset = 1;
    let mut seen = Vec::new();
    loop {
        let page = resource_page(&text, "", offset).unwrap();
        assert!(page.len() <= PAGE_BYTES);
        let page: Value = serde_json::from_str(&page).unwrap();
        for entry in page["entries"].as_array().unwrap() {
            seen.push(entry["pointer"].as_str().unwrap().to_string());
        }
        if page["next_offset"].is_null() {
            break;
        }
        offset = page["next_offset"].as_u64().unwrap() as usize;
    }
    let expected: Vec<String> = (1..130).map(|i| format!("/{i}")).collect();
    assert_eq!(seen, expected);
}

#[test]
fn index_entries_carry_kind_name_and_count() {
    let text = format!(
        r#"{{"arr":[1,2,3],"obj":{{"name":"{}"}},"str":"s","num":1.5,"pad":"{}"}}"#,
        "x".repeat(150),
        "p".repeat(6000)
    );
    let page: Value = serde_json::from_str(&resource_page(&text, "", 0).unwrap()).unwrap();
    let entries = page["entries"].as_array().unwrap();
    assert_eq!(entries.len(), 5);
    assert_eq!(entries[0]["pointer"], "/arr");
    assert_eq!(entries[0]["type"], "array");
    assert_eq!(entries[0]["count"], 3);
    assert_eq!(entries[1]["type"], "scalar");
    assert_eq!(entries[2]["type"], "object");
    assert_eq!(entries[2]["name"].as_str().unwrap().chars().count(), 100);
    assert_eq!(entries[3]["type"], "string");
    assert!(entries[3].get("count").is_none());
}

#[test]
fn entry_larger_than_the_budget_is_refused() {
    let text = format!(r#"{{"{}":1}}"#, "k".repeat(6000));
    assert_eq!(error_text(resource_page(&text, "", 0)), "Resource entry exceeds page budget");
}

#[test]
fn index_entry_escapes_the_key() {
    let entry = index_entry("/root", "a/b~c", &Json::Array(vec![Json::Null, Json::Bool(true)]));
    match entry {
        Json::Object(fields) => {
            assert_eq!(fields.len(), 3);
            assert_eq!(fields[0].0, "pointer");
            assert!(matches!(&fields[0].1, Json::Str(p) if p == "/root/a~1b~0c"));
            assert!(matches!(&fields[1].1, Json::Str(t) if t == "array"));
            assert_eq!(fields[2].0, "count");
            assert!(matches!(fields[2].1, Json::Unsigned(2)));
        },
        _ => panic!("entry is not an object"),
    }
}

#[test]
fn value_page_of_a_small_value_is_whole() {
    let page = value_page("/x", Json::Str("hi".to_string()), 0).unwrap();
    assert_eq!(page, r#"{"complete":true,"pointer":"/x","value":"hi"}"#);
    let page = value_page("/x", Json::Str("hi".to_string()), 1).unwrap();
    assert_eq!(
        page,
        r#"{"complete":true,"next_offset":null,"offset":1,"pointer":"/x","text":"i","total_chars":2}"#
    );
}

#[test]
fn tool_result_marks_errors() {
    let ok = tool_result(Ok("page".to_string()));
    assert_eq!(ok.content, "page");
    assert!(!ok.is_error);
    let err = tool_result(Err(McpError::Transport("Resource offset out of range".to_string())));
    assert_eq!(err.content, "Resource offset out of range");
    assert!(err.is_error);
}

#[test]
fn entry_pointers_read_back_their_children() {
    let text = format!(
        r#"{{"a/b":{{"x":1}},"c~d":[10,20],"~1":"{}","plain":null,"pad":"{}"}}"#,
        "s".repeat(10),
        "p".repeat(6000)
    );
    let index: Value = serde_json::from_str(&resource_page(&text, "", 0).unwrap()).unwrap();
    let parsed: Value = serde_json::from_str(&text).unwrap();
    let object = parsed.as_object().unwrap();
    let entries = index["entries"].as_array().unwrap();
    assert_eq!(entries.len(), object.len());
    for (entry, (key, child)) in entries.iter().zip(object.iter()) {
        let pointer = entry["pointer"].as_str().unwrap();
        assert_eq!(parsed.pointer(pointer), Some(child), "{key}");
        if key != "pad" {
            let page: Value = serde_json::from_str(&resource_page(&text, pointer, 0).unwrap()).unwrap();
            assert_eq!(&page["value"], child);
        }
    }
    let items: Value =
        serde_json::from_str(&resource_page(&text, "/c~0d", 1).unwrap()).unwrap();
    assert_eq!(items["entries"][0]["pointer"], "/c~0d/1");
    let item: Value = serde_json::from_str(&resource_page(&text, "/c~0d/1", 0).unwrap()).unwrap();
    assert_eq!(item["value"], 20);
}

#[test]
fn pages_stay_within_the_byte_budget_with_escaped_pointer_and_text() {
    let key = "\"\\".repeat(250);
    let mut object = serde_json::Map::new();
    object.insert(key.clone(), Value::String("\u{1}".repeat(8000)));
    let mut wide = serde_json::Map::new();
    for i in 0..40 {
        wide.insert(format!("{}{}", "\"".repeat(90), i), Value::Array(vec![]));
    }
    object.insert("wide".to_owned(), Value::Object(wide));
    let text = Value::Object(object).to_string();
    let pointer = format!("/{}", key.replace('~', "~0").replace('/', "~1"));
    let mut offset = 0;
    loop {
        let page = resource_page(&text, &pointer, offset).unwrap();
        assert!(page.len() <= PAGE_BYTES);
        let page: Value = serde_json::from_str(&page).unwrap();
        if page["next_offset"].is_null() {
            break;
        }
        offset = page["next_offset"].as_u64().unwrap() as usize;
    }
    let mut offset = 0;
    loop {
        let page = resource_page(&text, "/wide", offset).unwrap();
        assert!(page.len() <= PAGE_BYTES);
        let page: Value = serde_json::from_str(&page).unwrap();
        assert_eq!(page["complete"], false);
        if page["next_offset"].is_null() {
            break;
        }
        offset = page["next_offset"].as_u64().unwrap() as usize;
    }
}

fn to_value(j: &Json) -> Value {
    match j {
        Json::Null => Value::Null,
        Json::Bool(b) => Value::Bool(*b),
        Json::Unsigned(n) => Value::Number((*n).into()),
        Json::Number(n) => Value::Number(n.clone()),
        Json::Str(s) => Value::String(s.clone()),
        Json::Array(items) => Value::Array(items.iter().map(to_value).collect()),
        Json::Object(fields) => {
            Value::Object(fields.iter().map(|(k, v)| (k.clone(), to_value(v))).collect())
        }
    }
}

#[test]
fn read_schema_declares_the_arguments() {
    let schema = to_value(&resource_read_schema());
    assert_eq!(
        schema.to_string(),
        [
            r#"{"additionalProperties":false,"properties":{"offset":{"description":"Use next_offset from the previous page; defaults to 0","minimum":0,"type":"integer"},"#,
            r#""pointer":{"description":"RFC 6901 JSON pointer from a previous page, or empty for root","type":"string"},"#,
            r#""server":{"type":"string"},"uri":{"type":"string"}},"required":["server","uri"],"type":"object"}"#,
        ]
        .concat()
    );
}

#[test]
fn undecodable_arguments_are_a_tool_error() {
    assert_eq!(invalid_arguments().to_string(), "Invalid resource read arguments");
    let t = tool_result(Err(invalid_arguments()));
    assert!(t.is_error);
    assert_eq!(t.content, "Invalid resource read arguments");
}

#[test]
fn array_indices_follow_parse_index() {
    let text = r#"{"b":[10,20],"":{"~/":"k"}}"#;
    assert_eq!(resource_page(text, "/b/1", 0).unwrap(), r#"{"complete":true,"pointer":"/b/1","value":20}"#);
    assert_eq!(error_text(resource_page(text, "/b/01", 0)), "Resource JSON pointer not found");
    assert_eq!(error_text(resource_page(text, "/b/+1", 0)), "Resource JSON pointer not found");
    assert_eq!(error_text(resource_page(text, "/b/2", 0)), "Resource JSON pointer not found");
    assert_eq!(
        resource_page(text, "//~0~1", 0).unwrap(),
        r#"{"complete":true,"pointer":"//~0~1","value":"k"}"#
    );
}
