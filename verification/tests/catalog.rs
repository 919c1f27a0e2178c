use airbyte_to_flow::catalog::{
    Catalog, ConfiguredCatalog, ConfiguredStream, DestinationSyncMode, Log, LogLevel, Message,
    MessageType, Range, Stream, SyncMode, TraceLevel,
};
use airbyte_to_flow::errors::{
    create_custom_error, raise_err, Error, IoError, IoErrorKind, ValidationCode, ValidationError,
};
use airbyte_to_flow::json::Json;

fn stream(modes: Option<Vec<SyncMode>>) -> Stream {
    Stream {
        name: "s".to_string(),
        json_schema: Json::Null,
        supported_sync_modes: modes,
        source_defined_cursor: None,
        default_cursor_field: None,
        source_defined_primary_key: None,
        namespace: None,
    }
}

fn configured(modes: Option<Vec<SyncMode>>, mode: SyncMode) -> ConfiguredStream {
    ConfiguredStream {
        stream: stream(modes),
        sync_mode: mode,
        destination_sync_mode: DestinationSyncMode::Append,
        cursor_field: None,
        primary_key: None,
        projections: vec![],
    }
}

fn failure(stream: Option<usize>, code: ValidationCode) -> ValidationError {
    ValidationError { stream, code }
}

#[test]
fn a_stream_names_a_mode_if_it_names_its_modes() {
    assert!(stream(None).validate());
    assert!(stream(Some(vec![SyncMode::Incremental])).validate());
    assert!(!stream(Some(vec![])).validate());
}

#[test]
fn a_configured_stream_is_read_in_a_mode_it_supports() {
    assert_eq!(
        configured(Some(vec![SyncMode::FullRefresh, SyncMode::Incremental]), SyncMode::Incremental).validate_configured_stream(),
        Ok(())
    );
    assert_eq!(
        configured(Some(vec![SyncMode::FullRefresh]), SyncMode::Incremental).validate_configured_stream(),
        Err(ValidationCode::SyncModeNotSupported)
    );
    assert_eq!(
        configured(None, SyncMode::Incremental).validate_configured_stream(),
        Err(ValidationCode::SyncModeNotSupported)
    );
    assert_eq!(
        configured(Some(vec![]), SyncMode::FullRefresh).validate(3),
        vec![
            failure(Some(3), ValidationCode::Length),
            failure(Some(3), ValidationCode::SyncModeNotSupported)
        ]
    );
    assert_eq!(configured(Some(vec![SyncMode::FullRefresh]), SyncMode::FullRefresh).validate(0), vec![]);
}

#[test]
fn a_range_does_not_begin_after_its_end() {
    assert_eq!(Range { begin: 1, end: 2 }.validate_range(), Ok(()));
    assert_eq!(Range { begin: 2, end: 2 }.validate_range(), Ok(()));
    assert_eq!(
        Range { begin: 3, end: 2 }.validate_range(),
        Err(ValidationCode::RangeOrder)
    );
}

#[test]
fn a_configured_catalog_keeps_its_rules() {
    let good = ConfiguredCatalog {
        streams: vec![configured(Some(vec![SyncMode::Incremental]), SyncMode::Incremental)],
        range: Some(Range { begin: 0, end: u32::MAX }),
    };
    assert_eq!(good.validate(), Ok(()));
    let bad = ConfiguredCatalog {
        streams: vec![
            configured(Some(vec![SyncMode::Incremental]), SyncMode::Incremental),
            configured(Some(vec![SyncMode::Incremental]), SyncMode::FullRefresh),
            configured(Some(vec![]), SyncMode::FullRefresh),
        ],
        range: Some(Range { begin: 5, end: 4 }),
    };
    assert_eq!(
        bad.validate(),
        Err(vec![
            failure(Some(1), ValidationCode::SyncModeNotSupported),
            failure(Some(2), ValidationCode::Length),
            failure(Some(2), ValidationCode::SyncModeNotSupported),
            failure(None, ValidationCode::RangeOrder),
        ])
    );
    let empty = ConfiguredCatalog {
        streams: vec![],
        range: None,
    };
    assert_eq!(
        empty.validate(),
        Err(vec![failure(None, ValidationCode::Length)])
    );
}

#[test]
fn a_catalog_and_a_message_keep_their_rules() {
    let good = Catalog {
        streams: vec![stream(None), stream(Some(vec![SyncMode::FullRefresh]))],
    };
    assert_eq!(good.validate(), Ok(()));
    let bad = || Catalog {
        streams: vec![stream(None), stream(Some(vec![]))],
    };
    assert_eq!(
        bad().validate(),
        Err(vec![failure(Some(1), ValidationCode::Length)])
    );
    let message = |catalog| Message {
        message_type: MessageType::Catalog,
        log: None,
        state: None,
        record: None,
        connection_status: None,
        spec: None,
        catalog,
    };
    assert_eq!(message(None).validate(), Ok(()));
    assert_eq!(message(Some(good)).validate(), Ok(()));
    assert_eq!(
        message(Some(bad())).validate(),
        Err(vec![failure(Some(1), ValidationCode::Length)])
    );
}

#[test]
fn log_lines_go_to_their_level() {
    let at = |level| {
        let log = Log {
            level,
            message: "m".to_string(),
        };
        let (l, m) = log.log();
        assert_eq!(m, "m");
        l
    };
    assert_eq!(at(LogLevel::Trace), TraceLevel::Trace);
    assert_eq!(at(LogLevel::Debug), TraceLevel::Debug);
    assert_eq!(at(LogLevel::Info), TraceLevel::Info);
    assert_eq!(at(LogLevel::Warn), TraceLevel::Warn);
    assert_eq!(at(LogLevel::Error), TraceLevel::Error);
    assert_eq!(at(LogLevel::Fatal), TraceLevel::Error);
}

#[test]
fn custom_errors() {
    assert_eq!(
        create_custom_error("gone"),
        IoError {
            kind: IoErrorKind::Other,
            message: "gone".to_string()
        }
    );
    let r: Result<u8, IoError> = raise_err("gone");
    assert_eq!(r, Err(create_custom_error("gone")));
}

#[test]
fn errors_are_reported_in_words() {
    let s = |t: &str| t.to_string();
    assert_eq!(
        Error::CommandExecutionError(s("x")).message(),
        "Failed to execute command: x"
    );
    assert_eq!(
        Error::MissingIOPipe.message(),
        "Unable to create an IO pipe to the connector"
    );
    assert_eq!(Error::IOError(create_custom_error("io")).message(), "io");
    assert_eq!(Error::JsonError(s("json")).message(), "json");
    assert_eq!(
        Error::CheckpointPending.message(),
        "ATF Connector's pending checkpoint was not committed, this can happen if the connector exits abruptly"
    );
    assert_eq!(
        Error::EmptyStream.message(),
        "Stream is empty, expected to find a message but could not find any"
    );
    assert_eq!(
        Error::MessageNotFound(s("spec")).message(),
        "Could not find expected message in stream: spec"
    );
    assert_eq!(Error::ConnectionStatusUnsuccessful(s("no")).message(), "no");
    assert_eq!(
        Error::MissingValidateRequest.message(),
        "Validation request is missing"
    );
    assert_eq!(
        Error::DanglingConnectorRecord(s("users")).message(),
        "Connector output a Record that does not belong to any known stream: users"
    );
    assert_eq!(
        Error::InvalidPullResponse.message(),
        "Invalid PullResponse received from connector"
    );
    assert_eq!(
        Error::InvalidCatalog(vec![]).message(),
        "Invalid connector catalog"
    );
    assert_eq!(
        Error::InvalidSchema(s("x")).message(),
        "Adapting ATF schema to Flow: x"
    );
    assert_eq!(
        Error::InvalidMapping(s("x")).message(),
        "Adapting ATF schema to Flow: x"
    );
    assert_eq!(
        Error::InvalidPKPatch(s("x")).message(),
        "Invalid primary key patch file: x"
    );
    assert_eq!(
        Error::UnknownOperation(s("x")).message(),
        "Unknown operation: x"
    );
    assert_eq!(Error::IdleConnector.message(), "Connector has been idle");
    assert_eq!(
        Error::ParseIntError.message(),
        "Could not parse run interval"
    );
    assert_eq!(
        Error::ExitCode(2).message(),
        "Connector exited with a failure status"
    );
}

#[test]
fn a_range_is_written_in_base_sixteen() {
    assert_eq!(
        Range { begin: 0, end: u32::MAX }.serialize(),
        ("00000000".to_string(), "ffffffff".to_string())
    );
    assert_eq!(
        Range { begin: 0x1234abcd, end: 255 }.serialize(),
        (format!("{:08x}", 0x1234abcd_u32), "000000ff".to_string())
    );
    assert_eq!(airbyte_to_flow::catalog::hex8_text(0xdeadbeef), "deadbeef");
}
