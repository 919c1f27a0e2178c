use airbyte_to_flow::destination::{
    api_url, check_status, connector_specification, import_path, AirbyteConnectionStatus, Config,
    AirbyteLogMessage, AirbyteMessage, AirbyteRecordMessage, Batch, Batches, DestinationSyncMode,
    LogLevel, Message, MessageType, ParseAirbyteMessageError, Status,
};
use airbyte_to_flow::json::{Json, Number};

fn record(namespace: Option<&str>, stream: &str, n: u64) -> AirbyteRecordMessage {
    AirbyteRecordMessage {
        namespace: namespace.map(|s| s.to_string()),
        stream: stream.to_string(),
        data: Json::Number(Number::PosInt(n)),
        emitted_at: 0,
    }
}

fn empty(message_type: MessageType) -> AirbyteMessage {
    AirbyteMessage {
        message_type,
        spec: None,
        record: None,
        log: None,
        connection_status: None,
    }
}

#[test]
fn messages_are_written_under_the_name_of_their_type() {
    let m = Message::Record(record(None, "s", 1)).airbyte_message();
    assert_eq!(
        m,
        AirbyteMessage {
            record: Some(record(None, "s", 1)),
            ..empty(MessageType::Record)
        }
    );
    let log = || AirbyteLogMessage {
        level: LogLevel::Info,
        message: "m".to_string(),
        stack_trace: None,
    };
    assert_eq!(
        Message::Log(log()).airbyte_message(),
        AirbyteMessage {
            log: Some(log()),
            ..empty(MessageType::Log)
        }
    );
    let status = || check_status(Ok(()));
    assert_eq!(
        Message::ConnectionStatus(status()).airbyte_message(),
        AirbyteMessage {
            connection_status: Some(status()),
            ..empty(MessageType::ConnectionStatus)
        }
    );
    let spec = || connector_specification(Json::Null);
    assert_eq!(
        Message::Spec(spec()).airbyte_message(),
        AirbyteMessage {
            spec: Some(spec()),
            ..empty(MessageType::Spec)
        }
    );
}

#[test]
fn messages_are_read_back() {
    let messages = || {
        vec![
            Message::Record(record(Some("ns"), "s", 1)),
            Message::ConnectionStatus(check_status(Err("bad".to_string()))),
            Message::Spec(connector_specification(Json::Bool(true))),
        ]
    };
    for (m, same) in messages().into_iter().zip(messages()) {
        assert_eq!(Message::try_from(m.airbyte_message()), Ok(same));
    }
    assert_eq!(
        Message::try_from(empty(MessageType::Record)),
        Err(ParseAirbyteMessageError::MissingData)
    );
    assert_eq!(
        Message::try_from(AirbyteMessage {
            record: Some(record(None, "s", 1)),
            ..empty(MessageType::Log)
        }),
        Err(ParseAirbyteMessageError::MissingData)
    );
    for t in [MessageType::State, MessageType::Catalog, MessageType::Trace] {
        assert_eq!(
            Message::try_from(AirbyteMessage {
                record: Some(record(None, "s", 1)),
                ..empty(t)
            }),
            Err(ParseAirbyteMessageError::MissingData)
        );
    }
    assert_eq!(ParseAirbyteMessageError::MissingData.message(), "missing data");
}

#[test]
fn specification_of_the_connector() {
    let s = connector_specification(Json::Object(vec![]));
    assert_eq!(s.connection_specification, Json::Object(vec![]));
    assert_eq!(
        s.supported_destination_sync_modes,
        Some(vec![DestinationSyncMode::Overwrite])
    );
    assert_eq!(s.documentation_url, Some("https://example.com".to_string()));
    assert_eq!(s.supports_incremental, Some(true));
    assert_eq!(s.supports_normalization, Some(false));
    assert_eq!(s.supports_dbt, Some(false));
    assert_eq!(s.protocol_version, None);
    assert_eq!(s.changelog_url, None);
}

#[test]
fn status_of_a_check() {
    assert_eq!(
        check_status(Ok(())),
        AirbyteConnectionStatus {
            status: Status::Succeeded,
            message: None
        }
    );
    assert_eq!(
        check_status(Err("no such file".to_string())),
        AirbyteConnectionStatus {
            status: Status::Failed,
            message: Some("no such file".to_string())
        }
    );
}

#[test]
fn addresses() {
    assert_eq!(api_url(None), "https://app.field33.com/api/v1/");
    assert_eq!(api_url(Some("http://localhost/".to_string())), "http://localhost/");
    let config = |api: Option<&str>| Config {
        token: "t".to_string(),
        organization: "o".to_string(),
        api: api.map(|s| s.to_string()),
    };
    assert_eq!(config(None).url(), "https://app.field33.com/api/v1/");
    assert_eq!(config(Some("http://localhost/")).url(), "http://localhost/");
    assert_eq!(
        import_path("org-1", "ns_users"),
        "organizations/org-1/jsonlimport/ns_users"
    );
}

#[test]
fn records_are_collected_by_name() {
    let mut b = Batches::new();
    b.write_record(record(None, "users", 1));
    b.write_record(record(Some("ns"), "users", 2));
    b.write_record(record(None, "users", 3));
    b.write_record(record(None, "ns_users", 4));
    let n = |v: u64| Json::Number(Number::PosInt(v));
    assert_eq!(
        b.batches,
        vec![
            Batch {
                name: "users".to_string(),
                items: vec![n(1), n(3)]
            },
            Batch {
                name: "ns_users".to_string(),
                items: vec![n(2), n(4)]
            },
        ]
    );
}
