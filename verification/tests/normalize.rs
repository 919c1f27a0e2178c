use airbyte_to_flow::dates::{
    has_wide_offset, is_rfc3339_date, is_rfc3339_date_time, leading_date, Instant,
};
use airbyte_to_flow::json::{Json, Number};
use airbyte_to_flow::normalize::{
    automatic_normalizations, date_time_pointers, find_date_time_places, normalize_doc,
    instant_of_number, normalize_to_rfc3339, rfc3339_of_number, rfc3339_of_text, Normalization,
    NormalizationEntry,
};
use airbyte_to_flow::pointer::Pointer;
use serde_json::Value;

fn to_json(v: &Value) -> Json {
    match v {
        Value::Null => Json::Null,
        Value::Bool(b) => Json::Bool(*b),
        Value::Number(n) => Json::Number(if let Some(u) = n.as_u64() {
            Number::PosInt(u)
        } else if let Some(i) = n.as_i64() {
            Number::NegInt(i)
        } else {
            Number::Float(n.to_string())
        }),
        Value::String(s) => Json::String(s.clone()),
        Value::Array(items) => Json::Array(items.iter().map(to_json).collect()),
        Value::Object(members) => {
            Json::Object(members.iter().map(|(k, v)| (k.clone(), to_json(v))).collect())
        }
    }
}

fn from_json(v: &Json) -> Value {
    match v {
        Json::Null => Value::Null,
        Json::Bool(b) => Value::Bool(*b),
        Json::Number(Number::PosInt(u)) => Value::from(*u),
        Json::Number(Number::NegInt(i)) => Value::from(*i),
        Json::Number(Number::Float(text)) => serde_json::from_str(text).unwrap(),
        Json::String(s) => Value::String(s.clone()),
        Json::Array(items) => Value::Array(items.iter().map(from_json).collect()),
        Json::Object(members) => Value::Object(
            members
                .iter()
                .map(|(k, v)| (k.clone(), from_json(v)))
                .collect(),
        ),
    }
}

fn parse(text: &str) -> Json {
    to_json(&serde_json::from_str::<Value>(text).unwrap())
}

fn value(text: &str) -> Value {
    serde_json::from_str::<Value>(text).unwrap()
}

#[test]
fn datetime_to_date() {
    let cases = vec![
        (
            r#"{
                "some": "thing",
                "properties": {
                    "hs_latest_source_timestamp": "2023-03-05T15:41:54.565000+00:00"
                }
            }"#,
            r#"{
                "some": "thing",
                "properties": {
                    "hs_latest_source_timestamp": "2023-03-05"
                }
            }"#,
        ),
        (
            r#"{
                "some": "thing",
                "properties": {
                    "hs_latest_source_timestamp": "2023-03-05"
                }
            }"#,
            r#"{
                "some": "thing",
                "properties": {
                    "hs_latest_source_timestamp": "2023-03-05"
                }
            }"#,
        ),
        (
            r#"{
                "some": "thing",
                "properties": {
                    "hs_latest_source_timestamp": "hello"
                }
            }"#,
            r#"{
                "some": "thing",
                "properties": {
                    "hs_latest_source_timestamp": "hello"
                }
            }"#,
        ),
    ];

    let normalizations = Some(vec![NormalizationEntry {
        pointer: "/properties/hs_latest_source_timestamp".to_string(),
        normalization: Normalization::DatetimeToDate,
    }]);

    for case in cases {
        let mut doc = parse(case.0);
        normalize_doc(&mut doc, &normalizations);
        assert_eq!(from_json(&doc), value(case.1));
    }
}

const NESTED_SCHEMA: &str = r#"{
    "type": "object",
    "properties": {
        "created": {
            "type": "string",
            "format": "date-time"
        },
        "nested": {
            "type": "object",
            "properties": {
                "x": {
                    "type": ["string", "null"],
                    "format": "date-time"
                }
            }
        }
    }
}"#;

#[test]
fn automatic_normalizations_rfc3339() {
    let cases = vec![
        (
            NESTED_SCHEMA,
            r#"{
                "created": "2023-01-30 02:34:15",
                "nested": {
                    "x": "2020-03-25T21:03:18.000+0000"
                }
            }"#,
            r#"{
                "created": "2023-01-30T02:34:15Z",
                "nested": {
                    "x": "2020-03-25T21:03:18Z"
                }
            }"#,
        ),
        (
            NESTED_SCHEMA,
            r#"{
                "created": "2023-01-30 02:34:15",
                "nested": {
                    "x": "2019-03-18T16:40:23+0000"
                }
            }"#,
            r#"{
                "created": "2023-01-30T02:34:15Z",
                "nested": {
                    "x": "2019-03-18T16:40:23Z"
                }
            }"#,
        ),
        (
            NESTED_SCHEMA,
            r#"{
                "created": "2023-01-30 02:34:15",
                "nested": {
                    "x": "2021-03-02T23:00:00"
                }
            }"#,
            r#"{
                "created": "2023-01-30T02:34:15Z",
                "nested": {
                    "x": "2021-03-02T23:00:00Z"
                }
            }"#,
        ),
        (
            r#"{
                "type": "object",
                "properties": {
                    "seconds": {
                        "type": "string",
                        "format": "date-time"
                    },
                    "arr": {
                        "type": "array",
                        "items": {
                            "properties": {
                                "milliseconds": {
                                    "type": "string",
                                    "format": "date-time"
                                },
                                "fractional_milliseconds": {
                                    "type": "string",
                                    "format": "date-time"
                                }
                            }
                        }
                    }
                }
            }"#,
            r#"{
                "seconds": 1685098188,
                "arr": [{
                    "milliseconds": 1685098188123,
                    "fractional_milliseconds": 1685098188.123
                }]
            }"#,
            r#"{
                "seconds": "2023-05-26T10:49:48Z",
                "arr": [{
                    "milliseconds": "2023-05-26T10:49:48.123Z",
                    "fractional_milliseconds": "2023-05-26T10:49:48.123Z"
                }]
            }"#,
        ),
    ];

    for (schema, input, expected) in cases {
        let mut schema = parse(schema);
        let mut input = parse(input);
        automatic_normalizations(&mut input, &mut schema);
        assert_eq!(from_json(&input), value(expected));
    }
}

#[test]
fn automatic_normalizations_of_every_element() {
    let schema = parse(
        r#"{
            "properties": {
                "times": {"items": {"format": "date-time"}},
                "grid": {"items": {"items": {"properties": {"at": {"format": "date-time"}}}}}
            }
        }"#,
    );
    let mut doc = parse(
        r#"{
            "times": [1685098188, "2023-01-30 02:34:15", "never", null],
            "grid": [[{"at": 0}, {"at": 1685098188123}], [], [{"other": 1}, {"at": true}]]
        }"#,
    );
    automatic_normalizations(&mut doc, &schema);
    assert_eq!(
        from_json(&doc),
        value(
            r#"{
                "times": ["2023-05-26T10:49:48Z", "2023-01-30T02:34:15Z", "never", null],
                "grid": [
                    [{"at": "1970-01-01T00:00:00Z"}, {"at": "2023-05-26T10:49:48.123Z"}],
                    [],
                    [{"other": 1}, {"at": true}]
                ]
            }"#
        )
    );
}

#[test]
fn automatic_normalizations_keeps_what_is_rfc3339() {
    let schema = parse(NESTED_SCHEMA);
    let text = r#"{
        "created": "2023-01-30T02:34:15.120+05:30",
        "nested": {"x": "2020-03-25t21:03:18z"},
        "other": "2023-01-30 02:34:15"
    }"#;
    let mut doc = parse(text);
    automatic_normalizations(&mut doc, &schema);
    assert_eq!(from_json(&doc), value(text));
}

#[test]
fn normalize_to_rfc3339_at_a_pointer() {
    let mut doc = parse(r#"{"a": [{"t": "2023-01-30 02:34:15"}], "b": 1}"#);
    normalize_to_rfc3339(&mut doc, &Pointer::from_str("/a/0/t"));
    normalize_to_rfc3339(&mut doc, &Pointer::from_str("/a/1/t"));
    normalize_to_rfc3339(&mut doc, &Pointer::from_str("/a"));
    normalize_to_rfc3339(&mut doc, &Pointer::from_str("/b"));
    assert_eq!(
        from_json(&doc),
        value(r#"{"a": [{"t": "2023-01-30T02:34:15Z"}], "b": "1970-01-01T00:00:01Z"}"#)
    );
}

#[test]
fn rfc3339_of_text_takes_the_first_moment() {
    assert_eq!(rfc3339_of_text("2023-01-30T02:34:15Z", None), None);
    assert_eq!(
        rfc3339_of_text(
            "2023-01-30T02:34:15Z",
            Some(Instant { secs: 0, nanos: 0 })
        ),
        None
    );
    assert_eq!(
        rfc3339_of_text("anything", Some(Instant { secs: 1685098188, nanos: 123000000 })),
        Some("2023-05-26T10:49:48.123Z".to_string())
    );
    assert_eq!(
        rfc3339_of_text("2020-03-25T21:03:18.000+0100", None),
        Some("2020-03-25T20:03:18Z".to_string())
    );
    assert_eq!(
        rfc3339_of_text("2019-03-18T16:40:23-0230", None),
        Some("2019-03-18T19:10:23Z".to_string())
    );
    assert_eq!(
        rfc3339_of_text("2021-03-02T23:00:00.250", None),
        Some("2021-03-02T23:00:00.250Z".to_string())
    );
    assert_eq!(rfc3339_of_text("hello", None), None);
    assert_eq!(
        rfc3339_of_text("hello", Some(Instant { secs: i64::MAX, nanos: 0 })),
        None
    );
}

#[test]
fn rfc3339_of_number_reads_seconds_and_milliseconds() {
    assert_eq!(
        rfc3339_of_number(&Number::PosInt(1685098188)),
        Some("2023-05-26T10:49:48Z".to_string())
    );
    assert_eq!(
        rfc3339_of_number(&Number::PosInt(1685098188123)),
        Some("2023-05-26T10:49:48.123Z".to_string())
    );
    assert_eq!(
        rfc3339_of_number(&Number::PosInt(32503680000)),
        Some("3000-01-01T00:00:00Z".to_string())
    );
    assert_eq!(
        rfc3339_of_number(&Number::PosInt(32503680001)),
        Some("1971-01-12T04:48:00.001Z".to_string())
    );
    assert_eq!(
        rfc3339_of_number(&Number::NegInt(-1)),
        Some("1969-12-31T23:59:59Z".to_string())
    );
    assert_eq!(
        rfc3339_of_number(&Number::Float("1685098188.123".to_string())),
        Some("2023-05-26T10:49:48.123Z".to_string())
    );
    assert_eq!(
        rfc3339_of_number(&Number::Float("1.5".to_string())),
        Some("1970-01-01T00:00:01.500Z".to_string())
    );
    assert_eq!(
        rfc3339_of_number(&Number::Float("1000.5".to_string())),
        Some("1970-01-01T00:16:40.500Z".to_string())
    );
    assert_eq!(
        rfc3339_of_number(&Number::Float("-1.5".to_string())),
        Some("1969-12-31T23:59:58.500Z".to_string())
    );
    assert_eq!(rfc3339_of_number(&Number::PosInt(u64::MAX)), None);
    assert_eq!(rfc3339_of_number(&Number::NegInt(i64::MIN)), None);
}

#[test]
fn date_time_pointers_follow_the_schema() {
    let schema = parse(
        r#"{
            "format": "date-time",
            "properties": {
                "b": {"format": "date-time"},
                "a": {"items": {"format": "date-time", "properties": {"c": {"format": "date-time"}}}},
                "d": {"format": "date"}
            },
            "items": {"format": "date-time"}
        }"#,
    );
    assert_eq!(
        date_time_pointers(&schema, ""),
        vec!["", "/a/*", "/a/*/c", "/b", "/*"]
    );
    assert_eq!(date_time_pointers(&parse("[]"), ""), Vec::<String>::new());
}

#[test]
fn date_time_places_resolve_stars() {
    let schema = parse(r#"{"properties": {"a": {"items": {"properties": {"t": {"format": "date-time"}}}}}}"#);
    let doc = parse(r#"{"a": [{}, {"t": 1}, 5]}"#);
    let places: Vec<String> = find_date_time_places(&doc, &schema)
        .iter()
        .map(|p| p.to_string())
        .collect();
    assert_eq!(places, vec!["/a/0/t", "/a/1/t", "/a/2/t"]);
    let doc = parse(r#"{"a": {"*": {"t": 1}}}"#);
    assert_eq!(find_date_time_places(&doc, &schema).len(), 0);
}

#[test]
fn recognizes_rfc3339() {
    for good in [
        "2023-01-30T02:34:15Z",
        "2023-01-30T02:34:15z",
        "2023-01-30t02:34:15Z",
        "2023-01-30T02:34:15.1Z",
        "2023-01-30T02:34:15.123456789123Z",
        "2023-01-30T02:34:15+00:00",
        "2023-01-30T02:34:15.5-23:59",
        "2024-02-29T23:59:59Z",
        "2000-02-29T00:00:00Z",
        "0000-01-01T00:00:00Z",
        "2023-01-30T02:34:60Z",
        "1990-12-31T15:59:60-08:00",
    ] {
        assert!(is_rfc3339_date_time(good), "{}", good);
    }
    for bad in [
        "",
        "2023-01-30",
        "2023-01-30 02:34:15Z",
        "2023-01-30T02:34:15",
        "2023-01-30T02:34:15.Z",
        "2023-01-30T02:34:15+0000",
        "2023-01-30T02:34:15+24:00",
        "2023-01-30T02:34:15+00:60",
        "2023-01-30T24:00:00Z",
        "2023-01-30T02:60:00Z",
        "2023-01-30T02:34:61Z",
        "2023-02-29T02:34:15Z",
        "1900-02-29T02:34:15Z",
        "2023-13-01T02:34:15Z",
        "2023-00-10T02:34:15Z",
        "2023-04-31T02:34:15Z",
        "2023-04-00T02:34:15Z",
        "2023-01-30T02:34:15ZZ",
        "2023-01-30T02:34:15Z ",
        "٢٠٢٣-01-30T02:34:15Z",
        "2023-01-30T02:34:15.12x3Z",
    ] {
        assert!(!is_rfc3339_date_time(bad), "{}", bad);
    }
}

#[test]
fn recognizes_dates() {
    assert!(is_rfc3339_date("2023-03-05"));
    assert!(is_rfc3339_date("2024-02-29"));
    assert!(!is_rfc3339_date("2023-02-29"));
    assert!(!is_rfc3339_date("2023-3-05"));
    assert!(!is_rfc3339_date("2023-03-05T"));
    assert!(!is_rfc3339_date("hello"));
    assert_eq!(leading_date("2023-03-05T15:41:54"), Some("2023-03-05".to_string()));
    assert_eq!(leading_date("2023-99-99 and more"), Some("2023-99-99".to_string()));
    assert_eq!(leading_date(" 2023-03-05"), None);
    assert_eq!(leading_date("2023-03-0"), None);
    assert_eq!(leading_date("hello"), None);
}

#[test]
fn a_number_with_a_fraction_counts_seconds() {
    let mut doc = parse(r#"{"t": 1000.5}"#);
    normalize_to_rfc3339(&mut doc, &Pointer::from_str("/t"));
    assert_eq!(from_json(&doc), value(r#"{"t": "1970-01-01T00:16:40.500Z"}"#));
    assert_eq!(
        instant_of_number(&Number::Float("1000.5".to_string())),
        Some(Instant { secs: 1000, nanos: 500_000_000 })
    );
    assert_eq!(
        instant_of_number(&Number::Float("1685098188.123".to_string())),
        Some(Instant { secs: 1685098188, nanos: 123_000_000 })
    );
    assert_eq!(
        instant_of_number(&Number::Float("-1.5".to_string())),
        Some(Instant { secs: -2, nanos: 500_000_000 })
    );
    assert_eq!(
        instant_of_number(&Number::Float("-0.001".to_string())),
        Some(Instant { secs: -1, nanos: 999_000_000 })
    );
    assert_eq!(
        instant_of_number(&Number::Float("-2.0".to_string())),
        Some(Instant { secs: -2, nanos: 0 })
    );
    assert_eq!(
        instant_of_number(&Number::PosInt(32503680000)),
        Some(Instant { secs: 32503680000, nanos: 0 })
    );
    assert_eq!(
        instant_of_number(&Number::PosInt(32503680001)),
        Some(Instant { secs: 32503680, nanos: 1_000_000 })
    );
    assert_eq!(instant_of_number(&Number::PosInt(u64::MAX)), None);
}

#[test]
fn an_offset_of_a_day_or_more_is_told() {
    for wide in [
        "2021-02-21 +9900",
        "+2400",
        "2021-02-21+99:00",
        "2021-02-21 10:30:00 -2400",
        "2021-02-21 10:30:00-24:00",
        "01:06:06 +9959",
        "-9900Z",
    ] {
        assert!(has_wide_offset(wide), "{}", wide);
    }
    for fine in [
        "",
        "2021-02-21",
        "2021-12-31",
        "2021-02-21 +2300",
        "2021-02-21+23:59",
        "2023-01-30 02:34:15",
        "2020-03-25T21:03:18.000+0000",
        "2021-02-21 PST",
        "+99",
        "12-31-2021",
    ] {
        assert!(!has_wide_offset(fine), "{}", fine);
    }
}

#[test]
fn a_text_with_an_offset_of_a_day_or_more_stays() {
    for text in ["2021-02-21 +9900", "+2400", "2021-02-21+99:00", "2021-02-21 10:30:00 -2400"] {
        let mut doc = Json::from_members(vec![("t".to_string(), Json::string(text))]);
        normalize_to_rfc3339(&mut doc, &Pointer::from_str("/t"));
        assert_eq!(
            doc,
            Json::from_members(vec![("t".to_string(), Json::string(text))]),
            "{}",
            text
        );
        assert_eq!(rfc3339_of_text(text, Some(Instant { secs: 0, nanos: 0 })), None);
    }
    let mut doc = parse(r#"{"t": "2021-02-21 +2300"}"#);
    let schema = parse(r#"{"properties": {"t": {"format": "date-time"}}}"#);
    automatic_normalizations(&mut doc, &schema);
    assert_ne!(from_json(&doc), value(r#"{"t": "2021-02-21 +2300"}"#));
}

#[test]
fn a_number_with_an_exponent_counts_too() {
    assert_eq!(
        rfc3339_of_number(&Number::Float("1.685098188123e9".to_string())),
        Some("2023-05-26T10:49:48.123Z".to_string())
    );
    assert_eq!(
        rfc3339_of_number(&Number::Float("1e-7".to_string())),
        Some("1970-01-01T00:00:00Z".to_string())
    );
    assert_eq!(rfc3339_of_number(&Number::Float("1e300".to_string())), None);
    let mut doc = parse(r#"{"t": 1e-7, "u": 1e300}"#);
    normalize_to_rfc3339(&mut doc, &Pointer::from_str("/t"));
    normalize_to_rfc3339(&mut doc, &Pointer::from_str("/u"));
    assert_eq!(
        from_json(&doc),
        value(r#"{"t": "1970-01-01T00:00:00Z", "u": 1e300}"#)
    );
}

#[test]
fn a_leap_second_stays() {
    let text = r#"{"t": "1990-12-31T15:59:60-08:00"}"#;
    let mut doc = parse(text);
    normalize_to_rfc3339(&mut doc, &Pointer::from_str("/t"));
    assert_eq!(from_json(&doc), value(text));
}
