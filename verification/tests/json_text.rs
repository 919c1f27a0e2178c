use airbyte_to_flow::errors::Error;
use airbyte_to_flow::interceptor::adapt_config_json;
use airbyte_to_flow::json::{thousandths_of, Json, Number};
use airbyte_to_flow::json_text::{parse_json, print_json};

#[test]
fn thousandths_of_a_number() {
    assert_eq!(thousandths_of("1685098188.123"), Some(1685098188123));
    assert_eq!(thousandths_of("1.5"), Some(1500));
    assert_eq!(thousandths_of("0.25"), Some(250));
    assert_eq!(thousandths_of("-0.0015"), Some(-1));
    assert_eq!(thousandths_of("-2.5"), Some(-2500));
    assert_eq!(thousandths_of("0.0009"), Some(0));
    assert_eq!(thousandths_of("12"), Some(12000));
}

#[test]
fn thousandths_of_a_number_with_an_exponent() {
    assert_eq!(thousandths_of("1e21"), None);
    assert_eq!(thousandths_of("1.5e3"), Some(1_500_000));
    assert_eq!(thousandths_of("1.5E3"), Some(1_500_000));
    assert_eq!(thousandths_of("1.5e+3"), Some(1_500_000));
    assert_eq!(thousandths_of("1.2345678e2"), Some(123_456));
    assert_eq!(thousandths_of("1685098188123e-3"), Some(1685098188123));
    assert_eq!(thousandths_of("-1.5e0"), Some(-1500));
    assert_eq!(thousandths_of("1e-3"), Some(1));
    assert_eq!(thousandths_of("9.99e-4"), Some(0));
    assert_eq!(thousandths_of("1e-7"), Some(0));
    assert_eq!(thousandths_of("-1e-7"), Some(0));
    assert_eq!(thousandths_of("1e15"), Some(1_000_000_000_000_000_000));
    assert_eq!(thousandths_of("9.223372036854775807e15"), Some(i64::MAX));
    assert_eq!(thousandths_of("9.223372036854775808e15"), None);
    assert_eq!(thousandths_of("-9.223372036854775808e15"), Some(i64::MIN));
    assert_eq!(thousandths_of("1e16"), None);
    assert_eq!(thousandths_of("0e999999999999999999999999"), Some(0));
    assert_eq!(thousandths_of("0.000e99999999999999999999"), Some(0));
    assert_eq!(thousandths_of("7e99999999999999999999"), None);
    assert_eq!(thousandths_of("7e-99999999999999999999"), Some(0));
    assert_eq!(thousandths_of("12e00000000000000000000000001"), Some(120_000));
}

#[test]
fn thousandths_of_what_is_no_number() {
    assert_eq!(thousandths_of(""), None);
    assert_eq!(thousandths_of("-"), None);
    assert_eq!(thousandths_of("1."), None);
    assert_eq!(thousandths_of(".5"), None);
    assert_eq!(thousandths_of("1e"), None);
    assert_eq!(thousandths_of("1e+"), None);
    assert_eq!(thousandths_of("1e5x"), None);
    assert_eq!(thousandths_of("1.5f3"), None);
    assert_eq!(thousandths_of("+1"), None);
    assert_eq!(thousandths_of("99999999999999999999.5"), None);
}

#[test]
fn parse_json_reads_each_sort_of_value() {
    let doc = parse_json(r#"{"b": [1, -2, 1.5, "x", true, null], "a": {"z": 0}}"#).unwrap();
    let expected = Json::Object(vec![
        (
            "a".to_string(),
            Json::Object(vec![("z".to_string(), Json::Number(Number::PosInt(0)))]),
        ),
        (
            "b".to_string(),
            Json::Array(vec![
                Json::Number(Number::PosInt(1)),
                Json::Number(Number::NegInt(-2)),
                Json::Number(Number::Float("1.5".to_string())),
                Json::String("x".to_string()),
                Json::Bool(true),
                Json::Null,
            ]),
        ),
    ]);
    assert_eq!(doc, expected);
    assert!(doc.well_formed());
}

#[test]
fn parse_json_refuses_what_is_no_json() {
    assert!(matches!(parse_json("{"), Err(Error::JsonError(_))));
    assert!(matches!(parse_json(""), Err(Error::JsonError(_))));
    assert!(matches!(parse_json("[1,]"), Err(Error::JsonError(_))));
}

#[test]
fn print_json_writes_what_parse_json_reads() {
    let text = r#"{"a":{"z":0},"b":[1,-2,1.5,"x",true,null]}"#;
    let doc = parse_json(text).unwrap();
    assert_eq!(print_json(&doc), text);
    assert_eq!(print_json(&Json::Null), "null");
    assert_eq!(print_json(&Json::String("a\"b".to_string())), r#""a\"b""#);
    assert_eq!(parse_json(&print_json(&doc)).unwrap(), doc);
}

#[test]
fn adapt_config_json_without_a_mapping() {
    let config = adapt_config_json(r#"{"x": 1}"#, &None).unwrap();
    assert_eq!(print_json(&config), r#"{"x":1}"#);
}

#[test]
fn adapt_config_json_remaps_by_the_mapping() {
    let mapping = Some(r#"{"/token": "/credentials/token"}"#.to_string());
    let config = adapt_config_json(r#"{"credentials": {"token": "t"}, "x": 1}"#, &mapping).unwrap();
    assert_eq!(print_json(&config), r#"{"credentials":{},"token":"t","x":1}"#);
}

#[test]
fn adapt_config_json_fails_on_bad_input() {
    assert!(matches!(
        adapt_config_json("{", &None),
        Err(Error::JsonError(_))
    ));
    assert!(matches!(
        adapt_config_json("{}", &Some("nope".to_string())),
        Err(Error::JsonError(_))
    ));
    assert!(matches!(
        adapt_config_json("{}", &Some(r#"{"/a": 1}"#.to_string())),
        Err(Error::InvalidMapping(_))
    ));
}
