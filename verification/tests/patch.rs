use airbyte_to_flow::errors::Error;
use airbyte_to_flow::json::{Json, Number};
use airbyte_to_flow::patch::{merge, remap};
use serde_json::Value;

fn to_json(v: &Value) -> Json {
    match v {
        Value::Null => Json::Null,
        Value::Bool(b) => Json::Bool(*b),
        Value::Number(n) => Json::Number(if let Some(u) = n.as_u64() {
            Number::PosInt(u)
        } else if let Some(i) = n.as_i64() {
            Number::NegInt(i)
        } else {
            Number::Float(n.to_string())
        }),
        Value::String(s) => Json::String(s.clone()),
        Value::Array(items) => Json::Array(items.iter().map(to_json).collect()),
        Value::Object(members) => {
            Json::Object(members.iter().map(|(k, v)| (k.clone(), to_json(v))).collect())
        }
    }
}

fn from_json(v: &Json) -> Value {
    match v {
        Json::Null => Value::Null,
        Json::Bool(b) => Value::Bool(*b),
        Json::Number(Number::PosInt(u)) => Value::from(*u),
        Json::Number(Number::NegInt(i)) => Value::from(*i),
        Json::Number(Number::Float(text)) => serde_json::from_str(text).unwrap(),
        Json::String(s) => Value::String(s.clone()),
        Json::Array(items) => Value::Array(items.iter().map(from_json).collect()),
        Json::Object(members) => Value::Object(
            members
                .iter()
                .map(|(k, v)| (k.clone(), from_json(v)))
                .collect(),
        ),
    }
}

fn parse(text: &str) -> Json {
    to_json(&serde_json::from_str::<Value>(text).unwrap())
}

fn value(text: &str) -> Value {
    serde_json::from_str::<Value>(text).unwrap()
}

#[test]
fn test_remap() {
    let mut doc = parse(
        r#"{
            "app_id": "id",
            "app_secret": "secret",
            "foo": "bar"
        }"#,
    );

    let map = parse(
        r#"{
            "/credentials/client_id": "/app_id",
            "/credentials/client_secret": "/app_secret"
        }"#,
    );

    remap(&mut doc, &map).unwrap();
    assert_eq!(
        from_json(&doc),
        value(
            r#"{
                "credentials": {
                    "client_id": "id",
                    "client_secret": "secret"
                },
                "foo": "bar"
            }"#
        )
    );
}

#[test]
fn remap_there_and_back() {
    let start = r#"{"credentials": {"client_id": "id", "client_secret": "secret"}, "foo": "bar"}"#;
    let mut doc = parse(start);
    let back = parse(
        r#"{"/app_id": "/credentials/client_id", "/app_secret": "/credentials/client_secret"}"#,
    );
    let forth = parse(
        r#"{"/credentials/client_id": "/app_id", "/credentials/client_secret": "/app_secret"}"#,
    );
    remap(&mut doc, &back).unwrap();
    assert_eq!(
        from_json(&doc),
        value(r#"{"app_id": "id", "app_secret": "secret", "credentials": {}, "foo": "bar"}"#)
    );
    remap(&mut doc, &forth).unwrap();
    assert_eq!(from_json(&doc), value(start));
}

#[test]
fn remap_deletes_the_leaf_only() {
    let mut doc = parse(r#"{"a": {"b": {"c": 1}}}"#);
    remap(&mut doc, &parse(r#"{"/x": "/a/b/c"}"#)).unwrap();
    assert_eq!(from_json(&doc), value(r#"{"a": {"b": {}}, "x": 1}"#));
}

#[test]
fn remap_refuses_what_it_cannot_move() {
    let start = r#"{"a": 1, "list": [1, 2]}"#;
    for mapping in [
        r#"{"/b": 5}"#,
        r#"{"/b": "/missing"}"#,
        r#"{"/a/x": "/a"}"#,
        r#"{"/b": "a"}"#,
        r#"{"/b": "/list/0"}"#,
        r#"["/b", "/a"]"#,
    ] {
        let mut doc = parse(start);
        let r = remap(&mut doc, &parse(mapping));
        assert!(matches!(r, Err(Error::InvalidMapping(_))), "{}", mapping);
        assert_eq!(from_json(&doc), value(start));
    }
}

#[test]
fn remap_reads_from_the_document_as_it_was() {
    let mut doc = parse(r#"{"a": 1, "b": 2}"#);
    remap(&mut doc, &parse(r#"{"/a": "/b", "/c": "/a"}"#)).unwrap();
    assert_eq!(from_json(&doc), value(r#"{"c": 1}"#));
}

#[test]
fn merge_agrees_with_json_patch() {
    let cases = [
        (r#"{"a":"b"}"#, r#"{"a":"c"}"#),
        (r#"{"a":"b"}"#, r#"{"b":"c"}"#),
        (r#"{"a":"b"}"#, r#"{"a":null}"#),
        (r#"{"a":"b","b":"c"}"#, r#"{"a":null}"#),
        (r#"{"a":["b"]}"#, r#"{"a":"c"}"#),
        (r#"{"a":"c"}"#, r#"{"a":["b"]}"#),
        (r#"{"a":{"b":"c"}}"#, r#"{"a":{"b":"d","c":null}}"#),
        (r#"{"a":[{"b":"c"}]}"#, r#"{"a":[1]}"#),
        (r#"["a","b"]"#, r#"["c","d"]"#),
        (r#"{"a":"b"}"#, r#"["c"]"#),
        (r#"{"a":"foo"}"#, r#"null"#),
        (r#"{"a":"foo"}"#, r#""bar""#),
        (r#"{"e":null}"#, r#"{"a":1}"#),
        (r#"[1,2]"#, r#"{"a":"b","c":null}"#),
        (r#"{}"#, r#"{"a":{"bb":{"ccc":null}}}"#),
        (r#"{"z": 1, "m": {"k": [1.5, -2]}}"#, r#"{"m": {"k": null, "j": {"i": 1}}, "a": 0}"#),
    ];
    for (target, patch) in cases {
        let mut expected = value(target);
        json_patch::merge(&mut expected, &value(patch));
        let mut doc = parse(target);
        merge(&mut doc, &parse(patch));
        assert_eq!(from_json(&doc), expected, "{} {}", target, patch);
    }
}

#[test]
fn merge_of_a_specification() {
    let mut doc = parse(r#"{"title": "Source", "properties": {"key": {"type": "string"}}}"#);
    merge(
        &mut doc,
        &parse(r#"{"properties": {"key": {"secret": true}}, "title": null}"#),
    );
    assert_eq!(
        from_json(&doc),
        value(r#"{"properties": {"key": {"type": "string", "secret": true}}}"#)
    );
}

#[test]
fn remap_there_and_back_with_names_that_read_as_an_index() {
    let start = r#"{"a": {"-": 2, "0": 1, "x": 3}, "b": {}}"#;
    let mut doc = parse(start);
    let back = parse(r#"{"/b/0": "/a/0", "/b/-": "/a/-"}"#);
    let forth = parse(r#"{"/a/0": "/b/0", "/a/-": "/b/-"}"#);
    remap(&mut doc, &back).unwrap();
    assert_eq!(
        from_json(&doc),
        value(r#"{"a": {"x": 3}, "b": {"-": 2, "0": 1}}"#)
    );
    remap(&mut doc, &forth).unwrap();
    assert_eq!(from_json(&doc), value(start));
}
