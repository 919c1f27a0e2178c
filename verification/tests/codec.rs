use airbyte_to_flow::catalog::{
    Catalog, ConnectionStatus, Log, LogLevel, Message, MessageType, Status, Stream, TraceLevel,
};
use airbyte_to_flow::codec::{
    decode_message, encode_message, get_airbyte_response, get_decoded_message,
    stream_airbyte_responses, stream_lines, stream_runtime_messages, streaming_all, with_newline,
    Expected,
};
use airbyte_to_flow::errors::{Error, IoErrorKind};
use airbyte_to_flow::json::Json;
use serde_json::Value;

fn empty_message(message_type: MessageType) -> Message {
    Message {
        message_type,
        log: None,
        state: None,
        record: None,
        connection_status: None,
        spec: None,
        catalog: None,
    }
}

fn status_message() -> Message {
    Message {
        connection_status: Some(ConnectionStatus {
            status: Status::Succeeded,
            message: Some("test".to_string()),
        }),
        ..empty_message(MessageType::ConnectionStatus)
    }
}

#[test]
fn test_stream_lines() {
    let line_0 = "{\"test\": \"hello\"}".as_bytes();
    let line_1 = "other".as_bytes();
    let line_2 = "{\"object\": {}}".as_bytes();
    let newline = "\n".as_bytes();
    let mut input = Vec::new();
    input.extend_from_slice(line_0);
    input.extend_from_slice(newline);
    input.extend_from_slice(line_1);
    input.extend_from_slice(newline);
    input.extend_from_slice(line_2);
    let result = stream_lines(&input);
    assert_eq!(result, vec![line_0, line_1, line_2]);
}

#[test]
fn stream_lines_at_the_edges() {
    assert_eq!(stream_lines(b""), Vec::<Vec<u8>>::new());
    assert_eq!(stream_lines(b"\n"), vec![b"".to_vec()]);
    assert_eq!(stream_lines(b"a\n"), vec![b"a".to_vec()]);
    assert_eq!(stream_lines(b"a\n\nb"), vec![b"a".to_vec(), b"".to_vec(), b"b".to_vec()]);
    assert_eq!(stream_lines(b"a\r\nb\n"), vec![b"a\r".to_vec(), b"b".to_vec()]);
}

#[test]
fn encode_message_frames_with_a_little_endian_length() {
    assert_eq!(encode_message(b"").unwrap(), vec![0, 0, 0, 0]);
    assert_eq!(encode_message(b"abc").unwrap(), vec![3, 0, 0, 0, 97, 98, 99]);
    let long = vec![7u8; 0x01_02_03];
    let framed = encode_message(&long).unwrap();
    assert_eq!(&framed[..4], &[3, 2, 1, 0]);
    assert_eq!(framed.len(), 4 + long.len());
}

#[test]
fn decode_message_reads_one_frame() {
    assert_eq!(decode_message(&[3, 0, 0, 0, 97, 98, 99, 1]), Some((b"abc".to_vec(), 7)));
    assert_eq!(decode_message(&[0, 0, 0, 0]), Some((vec![], 4)));
    assert_eq!(decode_message(&[]), None);
    assert_eq!(decode_message(&[3, 0, 0]), None);
    assert_eq!(decode_message(&[3, 0, 0, 0, 97, 98]), None);
    assert_eq!(decode_message(&[0, 1, 0, 0, 1, 2, 3]), None);
    let mut input = vec![0, 1, 0, 0];
    input.extend(vec![9u8; 256]);
    assert_eq!(decode_message(&input), Some((vec![9u8; 256], 260)));
}

#[test]
fn test_get_decoded_message() {
    let msg = b"materialization".to_vec();
    let framed = encode_message(&msg).unwrap();
    assert_eq!(get_decoded_message(&framed).unwrap(), msg);
    let e = get_decoded_message(&framed[..5]).unwrap_err();
    assert_eq!(e.kind, IoErrorKind::Other);
    assert_eq!(e.message, "missing request");
}

#[test]
fn test_stream_runtime_messages() {
    let msg1 = b"materialization".to_vec();
    let msg2 = b"materialization 2".to_vec();
    let mut input = encode_message(&msg1).unwrap();
    input.extend(encode_message(&msg2).unwrap());
    assert_eq!(stream_runtime_messages(&input), vec![msg1.clone(), msg2.clone()]);
    input.extend([5, 0, 0, 0, 1]);
    assert_eq!(stream_runtime_messages(&input), vec![msg1, msg2]);
    assert_eq!(stream_runtime_messages(&[]), Vec::<Vec<u8>>::new());
}

#[test]
fn with_newline_appends_one() {
    assert_eq!(with_newline(b"{}"), b"{}\n".to_vec());
    assert_eq!(with_newline(b""), b"\n".to_vec());
}

#[test]
fn test_stream_airbyte_responses_plaintext_mixed() {
    let messages = responses_of(&[
        "I am plaintext!\n{\"type\": \"CONNECTION_STATUS\", \"connectionStatus\": {",
        "\"status\": \"SUCCEEDED\",\"message\":\"test\"}}",
    ]);
    assert_eq!(messages.len(), 1);
    assert_eq!(
        messages[0].connection_status,
        status_message().connection_status
    );
}

#[test]
fn stream_airbyte_responses_logs_what_is_no_message() {
    let r = stream_airbyte_responses(vec![
        Err("Encountered error while trying to parse Airbyte Message".to_string()),
        Ok(status_message()),
    ]);
    assert_eq!(r.forwarded, vec![status_message()]);
    assert_eq!(
        r.logged,
        vec![(
            TraceLevel::Debug,
            "Encountered error while trying to parse Airbyte Message".to_string()
        )]
    );
    assert_eq!(r.failure, None);
}

#[test]
fn stream_airbyte_responses_takes_log_lines_out() {
    let log = |level, text: &str| Message {
        log: Some(Log {
            level,
            message: text.to_string(),
        }),
        ..empty_message(MessageType::Log)
    };
    let r = stream_airbyte_responses(vec![
        Ok(log(LogLevel::Trace, "t")),
        Ok(status_message()),
        Ok(log(LogLevel::Debug, "d")),
        Ok(log(LogLevel::Info, "i")),
        Ok(log(LogLevel::Warn, "w")),
        Ok(empty_message(MessageType::Record)),
        Ok(log(LogLevel::Error, "e")),
        Ok(log(LogLevel::Fatal, "f")),
    ]);
    assert_eq!(
        r.forwarded,
        vec![status_message(), empty_message(MessageType::Record)]
    );
    assert_eq!(
        r.logged,
        vec![
            (TraceLevel::Trace, "t".to_string()),
            (TraceLevel::Debug, "d".to_string()),
            (TraceLevel::Info, "i".to_string()),
            (TraceLevel::Warn, "w".to_string()),
            (TraceLevel::Error, "e".to_string()),
            (TraceLevel::Error, "f".to_string()),
        ]
    );
    assert_eq!(r.failure, None);
}

#[test]
fn stream_airbyte_responses_breaks_off_at_a_bad_catalog() {
    let stream = |modes| Stream {
        name: "s".to_string(),
        json_schema: Json::Null,
        supported_sync_modes: modes,
        source_defined_cursor: None,
        default_cursor_field: None,
        source_defined_primary_key: None,
        namespace: None,
    };
    let catalog = |modes| Message {
        catalog: Some(Catalog {
            streams: vec![stream(modes)],
        }),
        ..empty_message(MessageType::Catalog)
    };
    let r = stream_airbyte_responses(vec![
        Ok(catalog(None)),
        Ok(catalog(Some(vec![]))),
        Ok(status_message()),
    ]);
    assert_eq!(r.forwarded, vec![catalog(None)]);
    assert_eq!(r.logged, vec![]);
    assert_eq!(r.failure.unwrap().kind, IoErrorKind::Other);
}

#[test]
fn get_airbyte_response_wants_the_right_message() {
    assert_eq!(
        get_airbyte_response(Some(status_message()), Expected::ConnectionStatus),
        Ok(status_message())
    );
    let e = get_airbyte_response(Some(status_message()), Expected::Spec).unwrap_err();
    assert_eq!(e.message, "Could not find message matching condition");
    let e = get_airbyte_response(Some(status_message()), Expected::Catalog).unwrap_err();
    assert_eq!(e.message, "Could not find message matching condition");
    let e = get_airbyte_response(None, Expected::Spec).unwrap_err();
    assert_eq!(e.message, "Could not find message in stream");
    assert_eq!(e.kind, IoErrorKind::Other);
}

#[test]
fn streaming_all_writes_up_to_a_failure() {
    let (written, failure) = streaming_all(vec![
        Ok(b"a\n".to_vec()),
        Err(Error::EmptyStream),
        Ok(b"b\n".to_vec()),
    ]);
    assert_eq!(written, b"a\nb\n".to_vec());
    assert_eq!(failure, None);
    let (written, failure) = streaming_all(vec![
        Ok(b"a\n".to_vec()),
        Err(Error::InvalidPullResponse),
        Ok(b"b\n".to_vec()),
        Err(Error::MissingIOPipe),
    ]);
    assert_eq!(written, b"a\n".to_vec());
    assert_eq!(failure, Some(Error::InvalidPullResponse));
}

fn read_message(line: &[u8]) -> Result<Message, String> {
    let v: Value = serde_json::from_slice(line).map_err(|e| e.to_string())?;
    let status = &v["connectionStatus"];
    if v["type"] != "CONNECTION_STATUS" || !status.is_object() {
        return Err("no message".to_string());
    }
    Ok(Message {
        connection_status: Some(ConnectionStatus {
            status: if status["status"] == "SUCCEEDED" {
                Status::Succeeded
            } else {
                Status::Failed
            },
            message: status["message"].as_str().map(|s| s.to_string()),
        }),
        ..empty_message(MessageType::ConnectionStatus)
    })
}

fn responses_of(chunks: &[&str]) -> Vec<Message> {
    let input: Vec<u8> = chunks.concat().into_bytes();
    let parsed = stream_lines(&input)
        .iter()
        .map(|line| read_message(line))
        .collect();
    let r = stream_airbyte_responses(parsed);
    assert_eq!(r.failure, None);
    r.forwarded
}

#[test]
fn test_stream_airbyte_responses_eof_split_json() {
    let messages = responses_of(&[
        "{\"type\": \"CONNECTION_STATUS\", \"connectionStatus\": {",
        "\"status\": \"SUCCEEDED\",\"message\":\"test\"}}",
    ]);
    assert_eq!(
        messages[0].connection_status,
        status_message().connection_status
    );
}

#[test]
fn test_stream_airbyte_responses_eof_split_json_partial() {
    let messages = responses_of(&[
        "{}\n{\"type\": \"CONNECTION_STATUS\", \"connectionStatus\": {",
        "\"status\": \"SUCCEEDED\",\"message\":\"test\"}}",
    ]);
    assert_eq!(
        messages[0].connection_status,
        status_message().connection_status
    );
}
