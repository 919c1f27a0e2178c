use airbyte_to_flow::catalog::{
    ConnectionStatus, DestinationSyncMode, Message, MessageType, Projection, Range, Record,
    ResourceSpec, Spec, State, Status, Stream, SyncMode,
};
use airbyte_to_flow::errors::{Error, ValidationCode, ValidationError};
use airbyte_to_flow::interceptor::{
    adapt_command_args, adapt_discover_stream, adapt_pull_request, adapt_pull_response,
    adapt_spec_response, adapt_validate_response, connector_command, delayed_command,
    first_request, ready, Bindings, CaptureBinding, Collection, Operation, RequestParts, Response,
    SavedBinding, SpecPatches, StreamFiles, PROTOCOL_VERSION,
};
use airbyte_to_flow::json::{Json, Number};
use airbyte_to_flow::normalize::{Normalization, NormalizationEntry};
use serde_json::Value;

fn to_json(v: &Value) -> Json {
    match v {
        Value::Null => Json::Null,
        Value::Bool(b) => Json::Bool(*b),
        Value::Number(n) => Json::Number(if let Some(u) = n.as_u64() {
            Number::PosInt(u)
        } else if let Some(i) = n.as_i64() {
            Number::NegInt(i)
        } else {
            Number::Float(n.to_string())
        }),
        Value::String(s) => Json::String(s.clone()),
        Value::Array(items) => Json::Array(items.iter().map(to_json).collect()),
        Value::Object(members) => {
            Json::Object(members.iter().map(|(k, v)| (k.clone(), to_json(v))).collect())
        }
    }
}

fn parse(text: &str) -> Json {
    to_json(&serde_json::from_str::<Value>(text).unwrap())
}

fn strings(v: &[&str]) -> Vec<String> {
    v.iter().map(|s| s.to_string()).collect()
}

#[test]
fn first_request_tells_the_operation() {
    let none = RequestParts {
        spec: false,
        discover: false,
        validate: false,
        apply: false,
        open: false,
    };
    assert_eq!(
        first_request(&RequestParts { spec: true, ..none }, ""),
        Ok(Operation::Spec)
    );
    assert_eq!(
        first_request(&RequestParts { discover: true, ..none }, ""),
        Ok(Operation::Discover)
    );
    assert_eq!(
        first_request(&RequestParts { validate: true, ..none }, ""),
        Ok(Operation::Validate)
    );
    assert_eq!(
        first_request(&RequestParts { apply: true, ..none }, ""),
        Ok(Operation::Apply)
    );
    assert_eq!(
        first_request(&RequestParts { open: true, ..none }, ""),
        Ok(Operation::Capture)
    );
    assert_eq!(
        first_request(&RequestParts { open: true, discover: true, ..none }, ""),
        Ok(Operation::Discover)
    );
    assert_eq!(
        first_request(&none, "Request {}"),
        Err(Error::UnknownOperation("Request {}".to_string()))
    );
}

#[test]
fn command_args_for_each_operation() {
    let args = |op| adapt_command_args(&op, "/t/config.json", "/t/catalog.json", "/t/state.json");
    assert_eq!(args(Operation::Spec), strings(&["spec"]));
    assert_eq!(
        args(Operation::Discover),
        strings(&["discover", "--config", "/t/config.json"])
    );
    assert_eq!(
        args(Operation::Validate),
        strings(&["check", "--config", "/t/config.json"])
    );
    assert_eq!(args(Operation::Apply), strings(&["spec"]));
    assert_eq!(
        args(Operation::Capture),
        strings(&[
            "read",
            "--config",
            "/t/config.json",
            "--catalog",
            "/t/catalog.json",
            "--state",
            "/t/state.json"
        ])
    );
}

#[test]
fn command_lines() {
    assert_eq!(
        connector_command("python main.py", &strings(&["read", "--config", "/t/c.json"])),
        "python main.py \"read\" \"--config\" \"/t/c.json\""
    );
    assert_eq!(connector_command("run", &strings(&["spec"])), "run \"spec\"");
    assert_eq!(connector_command("run", &vec![]), "run \"\"");
    assert_eq!(
        delayed_command("run \"spec\""),
        "read -r connector_proxy_dummy_var && exec run \"spec\""
    );
    assert_eq!(ready(), b"READY\n".to_vec());
    assert_eq!(PROTOCOL_VERSION, 3032023);
}

fn spec(documentation_url: Option<&str>) -> Spec {
    Spec {
        documentation_url: documentation_url.map(|s| s.to_string()),
        changelog_url: None,
        connection_specification: parse(
            r#"{"type": "object", "group": "g", "properties": {"key": {"type": "string", "airbyte_hidden": true}}}"#,
        ),
        supports_incremental: None,
        supported_destination_sync_modes: None,
        supports_normalization: None,
        supports_dbt: None,
        auth_specification: Some(parse(r#"{"auth": "own"}"#)),
        advanced_auth: None,
    }
}

#[test]
fn spec_response_without_patches() {
    let r = adapt_spec_response(
        spec(Some("https://docs")),
        SpecPatches {
            spec_patch: None,
            oauth2_patch: None,
            documentation_url_patch: None,
        },
    );
    assert_eq!(r.protocol, 3032023);
    assert_eq!(
        r.config_schema,
        parse(r#"{"type": "object", "properties": {"key": {"type": "string"}}}"#)
    );
    assert_eq!(r.oauth2, Some(parse(r#"{"auth": "own"}"#)));
    assert_eq!(r.documentation_url, "https://docs");
    let r = adapt_spec_response(
        spec(None),
        SpecPatches {
            spec_patch: None,
            oauth2_patch: None,
            documentation_url_patch: None,
        },
    );
    assert_eq!(r.documentation_url, "");
}

#[test]
fn spec_response_with_patches() {
    let r = adapt_spec_response(
        spec(Some("https://docs")),
        SpecPatches {
            spec_patch: Some(parse(
                r#"{"properties": {"key": {"secret": true, "name": "n"}}, "type": null}"#,
            )),
            oauth2_patch: Some(parse(r#"{"provider": "p"}"#)),
            documentation_url_patch: Some(parse(r#"{"documentation_url": "https://patched"}"#)),
        },
    );
    assert_eq!(
        r.config_schema,
        parse(r#"{"properties": {"key": {"type": "string", "secret": true}}}"#)
    );
    assert_eq!(r.oauth2, Some(parse(r#"{"provider": "p"}"#)));
    assert_eq!(r.documentation_url, "https://patched");
    for patch in [r#"{"other": "x"}"#, r#"{"documentation_url": 5}"#, r#"["x"]"#] {
        let r = adapt_spec_response(
            spec(Some("https://docs")),
            SpecPatches {
                spec_patch: None,
                oauth2_patch: None,
                documentation_url_patch: Some(parse(patch)),
            },
        );
        assert_eq!(r.documentation_url, "", "{}", patch);
    }
}

fn resource(stream: &str) -> ResourceSpec {
    ResourceSpec {
        stream: stream.to_string(),
        namespace: None,
        sync_mode: SyncMode::Incremental,
        cursor_field: None,
    }
}

#[test]
fn validate_response() {
    let ok = ConnectionStatus {
        status: Status::Succeeded,
        message: None,
    };
    assert_eq!(
        adapt_validate_response(&ok, &Some(vec![resource("a"), resource("b")])),
        Ok(vec![strings(&["a"]), strings(&["b"])])
    );
    assert_eq!(adapt_validate_response(&ok, &Some(vec![])), Ok(vec![]));
    assert_eq!(
        adapt_validate_response(&ok, &None),
        Err(Error::MissingValidateRequest)
    );
    let failed = ConnectionStatus {
        status: Status::Failed,
        message: Some("wrong password".to_string()),
    };
    assert_eq!(
        adapt_validate_response(&failed, &Some(vec![resource("a")])),
        Err(Error::ConnectionStatusUnsuccessful(
            "wrong password".to_string()
        ))
    );
    let failed = ConnectionStatus {
        status: Status::Failed,
        message: None,
    };
    assert_eq!(
        adapt_validate_response(&failed, &None),
        Err(Error::ConnectionStatusUnsuccessful("".to_string()))
    );
}

fn stream(name: &str) -> Stream {
    Stream {
        name: name.to_string(),
        json_schema: parse(
            r#"{
                "type": "object",
                "properties": {
                    "id": {"type": ["null", "integer"], "airbyte_type": "big_integer"},
                    "kind": {"enum": ["a", "b"]},
                    "day": {"type": "string", "format": "date"},
                    "owner": {"type": ["object", "null"], "properties": {"name": {"type": ["string", "null"]}}}
                }
            }"#,
        ),
        supported_sync_modes: Some(vec![SyncMode::FullRefresh, SyncMode::Incremental]),
        source_defined_cursor: None,
        default_cursor_field: Some(strings(&["updated"])),
        source_defined_primary_key: Some(vec![strings(&["id"]), strings(&["owner", "name"])]),
        namespace: Some("ns".to_string()),
    }
}

fn no_files() -> StreamFiles {
    StreamFiles {
        primary_key: None,
        schema_patch: None,
    }
}

#[test]
fn discover_stream_as_the_connector_describes_it() {
    let b = adapt_discover_stream(stream("My Stream/One!"), &None, &vec![], no_files()).unwrap();
    assert_eq!(b.recommended_name, "MyStream/One");
    assert!(!b.disable);
    assert_eq!(b.key, strings(&["/id", "/owner/name"]));
    assert_eq!(
        b.resource_config,
        ResourceSpec {
            stream: "My Stream/One!".to_string(),
            namespace: Some("ns".to_string()),
            sync_mode: SyncMode::Incremental,
            cursor_field: Some(strings(&["updated"])),
        }
    );
    assert_eq!(
        b.document_schema,
        parse(
            r#"{
                "type": "object",
                "required": ["id", "owner"],
                "properties": {
                    "id": {"type": "integer"},
                    "kind": {"type": "string"},
                    "day": {"type": "string", "format": "date"},
                    "owner": {
                        "type": "object",
                        "required": ["name"],
                        "properties": {"name": {"type": "string"}}
                    }
                }
            }"#
        )
    );
}

#[test]
fn discover_stream_with_files() {
    let mut s = stream("s");
    s.supported_sync_modes = Some(vec![SyncMode::FullRefresh]);
    s.default_cursor_field = Some(vec![]);
    let b = adapt_discover_stream(
        s,
        &Some(strings(&["other"])),
        &strings(&["unknown", "date-to-datetime"]),
        StreamFiles {
            primary_key: Some(parse(r#"["kind", "day"]"#)),
            schema_patch: Some(parse(r#"{"properties": {"kind": {"type": ["string", "null"]}}}"#)),
        },
    )
    .unwrap();
    assert!(b.disable);
    assert_eq!(b.key, strings(&["/kind", "/day"]));
    assert_eq!(b.resource_config.sync_mode, SyncMode::FullRefresh);
    assert_eq!(b.resource_config.cursor_field, Some(strings(&["kind", "day"])));
    assert_eq!(
        b.document_schema,
        parse(
            r#"{
                "type": "object",
                "required": ["kind", "day"],
                "properties": {
                    "id": {"type": ["null", "integer"]},
                    "kind": {"type": "string"},
                    "day": {"type": "string", "format": "date-time"},
                    "owner": {"type": ["object", "null"], "properties": {"name": {"type": ["string", "null"]}}}
                }
            }"#
        )
    );
    let mut s = stream("s");
    s.supported_sync_modes = None;
    s.default_cursor_field = None;
    s.source_defined_primary_key = None;
    let b = adapt_discover_stream(s, &Some(strings(&["s"])), &vec![], no_files()).unwrap();
    assert!(!b.disable);
    assert_eq!(b.key, Vec::<String>::new());
    assert_eq!(b.resource_config.sync_mode, SyncMode::FullRefresh);
    assert_eq!(b.resource_config.cursor_field, Some(vec![]));
}

#[test]
fn discover_stream_refuses_bad_keys() {
    for pk in [r#"{"id": 1}"#, r#"["id", 5]"#, r#""id""#] {
        let r = adapt_discover_stream(
            stream("s"),
            &None,
            &vec![],
            StreamFiles {
                primary_key: Some(parse(pk)),
                schema_patch: None,
            },
        );
        assert!(matches!(r, Err(Error::InvalidPKPatch(_))), "{}", pk);
    }
    let r = adapt_discover_stream(
        stream("s"),
        &None,
        &vec![],
        StreamFiles {
            primary_key: Some(parse(r#"["missing"]"#)),
            schema_patch: None,
        },
    );
    assert!(matches!(r, Err(Error::InvalidSchema(_))));
    let mut s = stream("s");
    s.source_defined_primary_key = Some(vec![strings(&["0"])]);
    let r = adapt_discover_stream(s, &None, &vec![], no_files());
    assert!(matches!(r, Err(Error::InvalidSchema(_))));
}

fn binding(stream: &str, mode: SyncMode, with_collection: bool) -> CaptureBinding {
    CaptureBinding {
        resource: ResourceSpec {
            stream: stream.to_string(),
            namespace: Some("ns".to_string()),
            sync_mode: mode,
            cursor_field: Some(strings(&["updated"])),
        },
        normalizations: Some(vec![NormalizationEntry {
            pointer: "/day".to_string(),
            normalization: Normalization::DatetimeToDate,
        }]),
        collection: if with_collection {
            Some(Collection {
                write_schema: parse(r#"{"properties": {"at": {"format": "date-time"}}}"#),
                key: strings(&["/id", "/owner/na~1me"]),
                projections: vec![Projection {
                    field: "id".to_string(),
                    ptr: "/id".to_string(),
                }],
            })
        } else {
            None
        },
    }
}

#[test]
fn pull_request_builds_the_catalog() {
    let bindings = vec![
        binding("a", SyncMode::Incremental, true),
        binding("skipped", SyncMode::Incremental, false),
        binding("b", SyncMode::FullRefresh, true),
    ];
    let (catalog, kept) = adapt_pull_request(&bindings, Some(Range { begin: 1, end: 9 })).unwrap();
    assert_eq!(catalog.range, Some(Range { begin: 1, end: 9 }));
    assert_eq!(catalog.streams.len(), 2);
    let s = &catalog.streams[1];
    assert_eq!(s.sync_mode, SyncMode::FullRefresh);
    assert_eq!(s.destination_sync_mode, DestinationSyncMode::Append);
    assert_eq!(s.cursor_field, Some(strings(&["updated"])));
    assert_eq!(
        s.primary_key,
        Some(vec![strings(&["id"]), strings(&["owner", "na/me"])])
    );
    assert_eq!(s.stream.name, "b");
    assert_eq!(s.stream.namespace, Some("ns".to_string()));
    assert_eq!(
        s.stream.json_schema,
        parse(r#"{"properties": {"at": {"format": "date-time"}}}"#)
    );
    assert_eq!(
        s.stream.supported_sync_modes,
        Some(vec![SyncMode::FullRefresh])
    );
    assert_eq!(s.stream.default_cursor_field, None);
    assert_eq!(s.stream.source_defined_cursor, None);
    assert_eq!(s.stream.source_defined_primary_key, None);
    assert_eq!(
        s.projections,
        vec![Projection {
            field: "id".to_string(),
            ptr: "/id".to_string(),
        }]
    );
    for s in &catalog.streams {
        assert!(s
            .stream
            .supported_sync_modes
            .as_ref()
            .unwrap()
            .contains(&s.sync_mode));
    }
    assert_eq!(catalog.validate(), Ok(()));
    assert_eq!(kept.saved.len(), 2);
    assert_eq!(kept.get("a").unwrap().i, 0);
    assert_eq!(kept.get("b").unwrap().i, 2);
    assert_eq!(kept.get("skipped"), None);
    assert_eq!(
        kept.get("b").unwrap().normalizations,
        bindings[2].normalizations
    );
}

#[test]
fn pull_request_refuses_a_bad_catalog() {
    assert_eq!(
        adapt_pull_request(&vec![], None),
        Err(Error::InvalidCatalog(vec![ValidationError {
            stream: None,
            code: ValidationCode::Length
        }]))
    );
    assert_eq!(
        adapt_pull_request(
            &vec![binding("skipped", SyncMode::Incremental, false)],
            Some(Range { begin: 2, end: 1 })
        ),
        Err(Error::InvalidCatalog(vec![
            ValidationError {
                stream: None,
                code: ValidationCode::Length
            },
            ValidationError {
                stream: None,
                code: ValidationCode::RangeOrder
            }
        ]))
    );
    assert_eq!(
        adapt_pull_request(
            &vec![binding("a", SyncMode::Incremental, true)],
            Some(Range { begin: 2, end: 1 })
        ),
        Err(Error::InvalidCatalog(vec![ValidationError {
            stream: None,
            code: ValidationCode::RangeOrder
        }]))
    );
    assert!(adapt_pull_request(
        &vec![binding("a", SyncMode::Incremental, true)],
        Some(Range { begin: 2, end: 2 })
    )
    .is_ok());
}

fn message() -> Message {
    Message {
        message_type: MessageType::Record,
        log: None,
        state: None,
        record: None,
        connection_status: None,
        spec: None,
        catalog: None,
    }
}

fn record(stream: &str, data: &str) -> Message {
    Message {
        record: Some(Record {
            stream: stream.to_string(),
            data: parse(data),
            emitted_at: 0,
            namespace: None,
        }),
        ..message()
    }
}

#[test]
fn pull_response_for_each_message() {
    let (_, kept) = adapt_pull_request(
        &vec![
            binding("a", SyncMode::Incremental, true),
            binding("b", SyncMode::Incremental, true),
            binding("a", SyncMode::Incremental, true),
        ],
        None,
    )
    .unwrap();
    assert_eq!(
        adapt_pull_response(
            &kept,
            record("b", r#"{"at": 1685098188, "day": "2023-03-05T15:41:54"}"#)
        ),
        Ok(Response::Captured {
            binding: 1,
            doc: parse(r#"{"at": "2023-05-26T10:49:48Z", "day": "2023-03-05"}"#)
        })
    );
    assert_eq!(
        adapt_pull_response(&kept, record("a", r#"{"id": 1}"#)),
        Ok(Response::Captured {
            binding: 2,
            doc: parse(r#"{"id": 1}"#)
        })
    );
    assert_eq!(
        adapt_pull_response(&kept, record("c", r#"{"id": 1}"#)),
        Err(Error::DanglingConnectorRecord("c".to_string()))
    );
    assert_eq!(
        adapt_pull_response(&kept, message()),
        Err(Error::InvalidPullResponse)
    );
    let state = |merge| Message {
        state: Some(State {
            data: r#"{"cursor": 5}"#.to_string(),
            merge,
        }),
        ..record("c", "{}")
    };
    assert_eq!(
        adapt_pull_response(&kept, state(None)),
        Ok(Response::Checkpoint {
            updated_json: r#"{"cursor": 5}"#.to_string(),
            merge_patch: false
        })
    );
    assert_eq!(
        adapt_pull_response(&kept, state(Some(true))),
        Ok(Response::Checkpoint {
            updated_json: r#"{"cursor": 5}"#.to_string(),
            merge_patch: true
        })
    );
}

#[test]
fn bindings_by_name() {
    let saved = |stream: &str, i| SavedBinding {
        stream: stream.to_string(),
        i,
        normalizations: None,
        doc_schema: Json::Null,
    };
    let b = Bindings {
        saved: vec![saved("x", 0), saved("y", 1), saved("x", 2)],
    };
    assert_eq!(b.get("x").unwrap().i, 2);
    assert_eq!(b.get("y").unwrap().i, 1);
    assert_eq!(b.get("z"), None);
    assert_eq!(Bindings { saved: vec![] }.get("x"), None);
}
