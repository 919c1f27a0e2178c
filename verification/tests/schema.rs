use airbyte_to_flow::errors::Error;
use airbyte_to_flow::json::{Json, Number};
use airbyte_to_flow::schema::{
    fix_document_schema_keys, fix_nonstandard_jsonschema_attributes,
    normalize_schema_date_to_datetime, remove_enums, type_for,
};
use serde_json::Value;

fn to_json(v: &Value) -> Json {
    match v {
        Value::Null => Json::Null,
        Value::Bool(b) => Json::Bool(*b),
        Value::Number(n) => Json::Number(if let Some(u) = n.as_u64() {
            Number::PosInt(u)
        } else if let Some(i) = n.as_i64() {
            Number::NegInt(i)
        } else {
            Number::Float(n.to_string())
        }),
        Value::String(s) => Json::String(s.clone()),
        Value::Array(items) => Json::Array(items.iter().map(to_json).collect()),
        Value::Object(members) => {
            Json::Object(members.iter().map(|(k, v)| (k.clone(), to_json(v))).collect())
        }
    }
}

fn from_json(v: &Json) -> Value {
    match v {
        Json::Null => Value::Null,
        Json::Bool(b) => Value::Bool(*b),
        Json::Number(Number::PosInt(u)) => Value::from(*u),
        Json::Number(Number::NegInt(i)) => Value::from(*i),
        Json::Number(Number::Float(text)) => serde_json::from_str(text).unwrap(),
        Json::String(s) => Value::String(s.clone()),
        Json::Array(items) => Value::Array(items.iter().map(from_json).collect()),
        Json::Object(members) => Value::Object(
            members
                .iter()
                .map(|(k, v)| (k.clone(), from_json(v)))
                .collect(),
        ),
    }
}

fn parse(text: &str) -> Json {
    to_json(&serde_json::from_str::<Value>(text).unwrap())
}

fn value(text: &str) -> Value {
    serde_json::from_str::<Value>(text).unwrap()
}

#[test]
fn test_fix_document_schema_keys_prop() {
    let doc_schema = r#"{
            "properties": {
                "id": {
                    "type": ["string", "null"]
                }
            }
        }"#
    .to_string();

    let key_ptrs = vec!["id".to_string()];

    assert_eq!(
        from_json(&fix_document_schema_keys(parse(&doc_schema), key_ptrs).unwrap()),
        value(
            r#"{
                "properties": {
                    "id": {
                        "type": "string"
                    }
                },
                "required": ["id"]
            }"#
        )
    );
}

#[test]
fn test_fix_document_schema_ref_and_defs() {
    let doc_schema = r#"{
            "$defs": {
                "test": {
                    "properties": {
                        "id": {
                            "type": ["string", "null"]
                        }
                    }
                }
            },
            "$ref": "test"
        }"#
    .to_string();

    let key_ptrs = vec!["id".to_string()];

    assert_eq!(
        from_json(&fix_document_schema_keys(parse(&doc_schema), key_ptrs).unwrap()),
        value(
            r#"{
                "$defs": {
                    "test": {
                        "properties": {
                            "id": {
                                "type": "string"
                            }
                        },
                        "required": ["id"]
                    }
                },
                "$ref": "test"
            }"#
        )
    );
}

#[test]
#[allow(non_snake_case)]
fn test_fix_document_schema_allOf() {
    let doc_schema = r#"{
            "$defs": {
                "test": {
                    "properties": {
                        "id": {
                            "type": ["string", "null"]
                        }
                    }
                }
            },
            "allOf": [{
                "$ref": "test"
            }, {
                "type": "object"
            }]
        }"#
    .to_string();

    let key_ptrs = vec!["id".to_string()];

    assert_eq!(
        from_json(&fix_document_schema_keys(parse(&doc_schema), key_ptrs).unwrap()),
        value(
            r#"{
                "$defs": {
                    "test": {
                        "properties": {
                            "id": {
                                "type": ["string", "null"]
                            }
                        }
                    }
                },
                "allOf": [{
                    "$ref": "test"
                }, {
                    "type": "object"
                }]
            }"#
        )
    );
}

#[test]
fn test_fix_document_schema_keys_prop_deep() {
    let doc_schema = r#"{
            "properties": {
                "doc": {
                    "type": ["object", "null"],
                    "properties": {
                        "id": {
                            "type": ["string", "null"]
                        }
                    }
                }
            }
        }"#
    .to_string();

    let key_ptrs = vec!["doc/id".to_string()];

    assert_eq!(
        from_json(&fix_document_schema_keys(parse(&doc_schema), key_ptrs).unwrap()),
        value(
            r#"{
                "properties": {
                    "doc": {
                        "type": "object",
                        "properties": {
                            "id": {
                                "type": "string"
                            }
                        },
                        "required": ["id"]
                    }
                },
                "required": ["doc"]
            }"#
        )
    );
}

#[test]
fn fix_document_schema_keys_refuses_an_index() {
    let doc = parse(r#"{"items": {"properties": {"id": {"type": "string"}}}}"#);
    let r = fix_document_schema_keys(doc, vec!["0/id".to_string()]);
    assert!(matches!(r, Err(Error::InvalidSchema(_))));
}

#[test]
fn fix_document_schema_keys_refuses_the_next_index() {
    let doc = parse(r#"{"properties": {"id": {"type": "string"}}}"#);
    let r = fix_document_schema_keys(doc, vec!["/-".to_string()]);
    assert!(matches!(r, Err(Error::InvalidSchema(_))));
}

#[test]
fn fix_document_schema_keys_refuses_a_missing_property() {
    let doc = parse(r#"{"properties": {"id": {"type": "string"}}}"#);
    let r = fix_document_schema_keys(doc, vec!["/name".to_string()]);
    assert!(matches!(r, Err(Error::InvalidSchema(_))));
    let doc = parse(r#"["not", "an", "object"]"#);
    let r = fix_document_schema_keys(doc, vec!["/name".to_string()]);
    assert!(matches!(r, Err(Error::InvalidSchema(_))));
    let doc = parse(r#"{"required": "id", "properties": {"id": {"type": "string"}}}"#);
    let r = fix_document_schema_keys(doc, vec!["/id".to_string()]);
    assert!(matches!(r, Err(Error::InvalidSchema(_))));
    let doc = parse(r#"{"$ref": "gone", "$defs": {}}"#);
    let r = fix_document_schema_keys(doc, vec!["/id".to_string()]);
    assert!(matches!(r, Err(Error::InvalidSchema(_))));
}

#[test]
fn fix_document_schema_keys_keeps_other_required_and_types() {
    let doc = parse(
        r#"{
            "type": ["null", "object"],
            "required": ["other"],
            "properties": {
                "id": {"type": ["null", "integer", "string"]},
                "other": {"type": "string"}
            }
        }"#,
    );
    let fixed = fix_document_schema_keys(doc, vec!["/id".to_string(), "/id".to_string()]).unwrap();
    assert_eq!(
        from_json(&fixed),
        value(
            r#"{
                "type": ["object"],
                "required": ["other", "id"],
                "properties": {
                    "id": {"type": ["string", "integer"]},
                    "other": {"type": "string"}
                }
            }"#
        )
    );
}

#[test]
fn fix_document_schema_keys_without_keys_changes_nothing() {
    let doc = parse(r#"{"properties": {"id": {"type": ["string", "null"]}}}"#);
    let fixed = fix_document_schema_keys(doc, vec![]).unwrap();
    assert_eq!(
        from_json(&fixed),
        value(r#"{"properties": {"id": {"type": ["string", "null"]}}}"#)
    );
}

#[test]
#[allow(non_snake_case)]
fn test_fix_nonstandard_jsonschema_attributes_multiple() {
    let doc_schema = r#"{
            "type": ["object", "null"],
            "airbyte_hidden": true,
            "properties": {
                "my_key": {
                    "type": ["object", "null"],
                    "properties": {
                        "group": {
                            "type": "array",
                            "items": {
                                "group": "x",
                                "type": "string"
                            }
                        },
                        "airbyte_type": {
                            "type": "string",
                            "airbyte_type": "string",
                            "xml": {}
                        },
                        "id": {
                            "type": ["string", "null"],
                            "group": "test"
                        }
                    }
                }
            }
        }"#
    .to_string();

    let mut doc = parse(&doc_schema);
    fix_nonstandard_jsonschema_attributes(&mut doc);
    assert_eq!(
        from_json(&doc),
        value(
            r#"{
                "type": ["object", "null"],
                "properties": {
                    "my_key": {
                        "type": ["object", "null"],
                        "properties": {
                            "group": {
                                "type": "array",
                                "items": {
                                    "type": "string"
                                }
                            },
                            "airbyte_type": {
                                "type": "string"
                            },
                            "id": {
                                "type": ["string", "null"]
                            }
                        }
                    }
                }
            }"#
        )
    );
}

#[test]
fn test_fix_nonstandard_jsonschema_format_int32_int64() {
    let doc_schema = r#"{
            "type": ["object", "null"],
            "airbyte_hidden": true,
            "properties": {
                "my_key": {
                    "type": ["string", "null"],
                    "format": "int32"
                },
                "my_key_2": {
                    "type": ["string", "null"],
                    "format": "int64"
                }
            }
        }"#
    .to_string();

    let mut doc = parse(&doc_schema);
    fix_nonstandard_jsonschema_attributes(&mut doc);
    assert_eq!(
        from_json(&doc),
        value(
            r#"{
                "type": ["object", "null"],
                "properties": {
                    "my_key": {
                        "type": ["string", "null"],
                        "format": "integer"
                    },
                    "my_key_2": {
                        "type": ["string", "null"],
                        "format": "integer"
                    }
                }
            }"#
        )
    );
}

#[test]
fn test_remove_enums() {
    let doc_schema = r#"{
            "type": ["object", "null"],
            "properties": {
                "preDefinedType": {
                    "type": ["string"],
                    "enum": ["a", "b", "c", true]
                },
                "allStrings": {
                    "enum": ["a", "b", "c" ]
                },
                "allIntegers": {
                    "enum": [123, 456]
                },
                "mixedNumbers": {
                    "enum": [123, 4.56]
                },
                "grabBag": {
                    "enum": [123, "456", true, {"oh": "geez"}, []],
                    "x-untouched-annotation": true
                }
            }
        }"#
    .to_string();

    let mut doc = parse(&doc_schema);
    remove_enums(&mut doc);
    assert_eq!(
        from_json(&doc),
        value(
            r#"{
                "type": ["object", "null"],
                "properties": {
                    "preDefinedType": { "type": ["string"] },
                    "allStrings": { "type": "string" },
                    "allIntegers": { "type": "integer" },
                    "mixedNumbers": { "type": ["integer", "number"]},
                    "grabBag": { "type": ["array", "boolean", "integer", "object", "string"], "x-untouched-annotation": true }
                }
            }"#
        )
    );
}

#[test]
fn remove_enums_of_no_values_and_of_no_list() {
    let mut doc = parse(r#"{"enum": [], "items": {"enum": "x"}}"#);
    remove_enums(&mut doc);
    assert_eq!(from_json(&doc), value(r#"{"type": [], "items": {}}"#));
    let mut doc = parse(r#"{"enum": [null, -1]}"#);
    remove_enums(&mut doc);
    assert_eq!(from_json(&doc), value(r#"{"type": ["integer", "null"]}"#));
}

#[test]
fn type_for_names_each_type() {
    assert_eq!(type_for(&parse("null")), "null");
    assert_eq!(type_for(&parse("true")), "boolean");
    assert_eq!(type_for(&parse("12")), "integer");
    assert_eq!(type_for(&parse("-12")), "integer");
    assert_eq!(type_for(&parse("1.5")), "number");
    assert_eq!(type_for(&parse("\"a\"")), "string");
    assert_eq!(type_for(&parse("[]")), "array");
    assert_eq!(type_for(&parse("{}")), "object");
}

#[test]
fn schema_dates_become_date_times() {
    let mut doc = parse(
        r#"{
            "format": "date",
            "properties": {
                "a": {"format": "date", "type": "string"},
                "b": {"format": "date-time"},
                "c": {"items": {"format": "date"}},
                "format": {"format": "time"}
            }
        }"#,
    );
    normalize_schema_date_to_datetime(&mut doc);
    assert_eq!(
        from_json(&doc),
        value(
            r#"{
                "format": "date-time",
                "properties": {
                    "a": {"format": "date-time", "type": "string"},
                    "b": {"format": "date-time"},
                    "c": {"items": {"format": "date-time"}},
                    "format": {"format": "time"}
                }
            }"#
        )
    );
}

#[test]
fn traversal_leaves_what_is_no_schema() {
    let mut doc = parse(
        r#"{"properties": ["group"], "items": [{"group": 1}], "group": {"group": 2}, "other": {"group": 3}}"#,
    );
    fix_nonstandard_jsonschema_attributes(&mut doc);
    assert_eq!(
        from_json(&doc),
        value(r#"{"properties": ["group"], "items": [{"group": 1}], "other": {"group": 3}}"#)
    );
}

fn required(node: &Value, name: &str) -> bool {
    node["required"]
        .as_array()
        .map_or(false, |r| r.iter().any(|x| x == name))
}

fn non_null(node: &Value) -> bool {
    match &node["type"] {
        Value::String(s) => s != "null",
        Value::Array(items) => !items.iter().any(|x| x == "null"),
        _ => true,
    }
}

fn key_holds(schema: &Value, names: &[&str]) -> bool {
    match names.split_first() {
        None => true,
        Some((name, rest)) => {
            let child = &schema["properties"][*name];
            required(schema, name)
                && non_null(schema)
                && child.is_object()
                && non_null(child)
                && key_holds(child, rest)
        }
    }
}

#[test]
fn fixed_keys_are_required_and_not_null() {
    let doc = parse(
        r#"{
            "type": ["object", "null"],
            "properties": {
                "a": {
                    "type": ["null", "object"],
                    "required": ["x"],
                    "properties": {
                        "b": {"type": ["string", "null"]},
                        "c": {"type": ["null", "object"], "properties": {"d": {"type": "integer"}}},
                        "x": {}
                    }
                },
                "e": {"type": ["number", "null", "string"]},
                "f": {}
            }
        }"#,
    );
    let keys = ["/a/b", "/e", "/a/c/d", "/a/b", "/f"];
    let fixed = fix_document_schema_keys(doc, keys.iter().map(|k| k.to_string()).collect()).unwrap();
    let fixed = from_json(&fixed);
    for key in keys {
        let names: Vec<&str> = key[1..].split('/').collect();
        assert!(key_holds(&fixed, &names), "{}", key);
    }
    assert!(!key_holds(&fixed, &["a", "c", "missing"]));
    assert!(required(&fixed["properties"]["a"], "x"));
}

#[test]
fn a_type_with_two_nulls_keeps_one() {
    let doc = parse(r#"{"properties": {"id": {"type": ["null", "string", "null"]}}}"#);
    let fixed = fix_document_schema_keys(doc, vec!["/id".to_string()]).unwrap();
    assert_eq!(
        from_json(&fixed),
        value(r#"{"properties": {"id": {"type": ["null", "string"]}}, "required": ["id"]}"#)
    );
}

#[test]
fn a_composed_property_stays_as_it_is() {
    let doc_schema = r#"{
        "properties": {
            "b": {
                "type": ["object", "null"],
                "anyOf": [{"required": ["c"]}],
                "properties": {"c": {"type": ["string", "null"]}}
            }
        }
    }"#;
    let fixed = from_json(
        &fix_document_schema_keys(parse(doc_schema), vec!["b/c".to_string()]).unwrap(),
    );
    assert_eq!(
        fixed["properties"]["b"],
        value(
            r#"{
                "type": ["object", "null"],
                "anyOf": [{"required": ["c"]}],
                "properties": {"c": {"type": ["string", "null"]}}
            }"#
        )
    );
    assert_eq!(fixed["required"], value(r#"["b"]"#));

    for word in ["allOf", "anyOf", "not"] {
        let schema = format!(
            r#"{{"properties": {{"id": {{"type": ["string", "null"], "{}": []}}}}}}"#,
            word
        );
        let fixed =
            from_json(&fix_document_schema_keys(parse(&schema), vec!["id".to_string()]).unwrap());
        assert_eq!(fixed["properties"]["id"]["type"], value(r#"["string", "null"]"#));
        assert_eq!(fixed["required"], value(r#"["id"]"#));
    }
}
