use airbyte_to_flow::json::{
    find_key, get_member, insert_member, remove_member, Json, Number,
};

fn members(keys: &[&str]) -> Vec<(String, Json)> {
    keys.iter()
        .map(|k| (k.to_string(), Json::String(k.to_uppercase())))
        .collect()
}

#[test]
fn find_key_gives_the_place() {
    let m = members(&["b", "d", "f"]);
    assert_eq!(find_key(&m, "a"), (0, false));
    assert_eq!(find_key(&m, "b"), (0, true));
    assert_eq!(find_key(&m, "c"), (1, false));
    assert_eq!(find_key(&m, "d"), (1, true));
    assert_eq!(find_key(&m, "f"), (2, true));
    assert_eq!(find_key(&m, "g"), (3, false));
    assert_eq!(find_key(&m, "bb"), (1, false));
    assert_eq!(find_key(&vec![], "a"), (0, false));
}

#[test]
fn members_are_kept_in_the_order_of_their_keys() {
    let mut m: Vec<(String, Json)> = vec![];
    for k in ["m", "b", "z", "a", "mm", "B", "é", ""] {
        insert_member(&mut m, k.to_string(), Json::Null);
    }
    let keys: Vec<&str> = m.iter().map(|(k, _)| k.as_str()).collect();
    assert_eq!(keys, vec!["", "B", "a", "b", "m", "mm", "z", "é"]);
    let mut sorted = keys.clone();
    sorted.sort();
    assert_eq!(keys, sorted);
}

#[test]
fn insert_replaces_and_remove_takes_out() {
    let mut m = members(&["b", "d"]);
    insert_member(&mut m, "d".to_string(), Json::Bool(true));
    assert_eq!(
        m,
        vec![
            ("b".to_string(), Json::String("B".to_string())),
            ("d".to_string(), Json::Bool(true))
        ]
    );
    assert_eq!(get_member(&m, "d"), Some(&Json::Bool(true)));
    assert_eq!(get_member(&m, "c"), None);
    assert_eq!(remove_member(&mut m, "c"), None);
    assert_eq!(
        remove_member(&mut m, "b"),
        Some(Json::String("B".to_string()))
    );
    assert_eq!(m, vec![("d".to_string(), Json::Bool(true))]);
    assert_eq!(remove_member(&mut m, "d"), Some(Json::Bool(true)));
    assert_eq!(m, vec![]);
}

#[test]
fn duplicate_copies_the_whole_document() {
    let doc = Json::Object(vec![
        (
            "a".to_string(),
            Json::Array(vec![
                Json::Null,
                Json::Bool(false),
                Json::Number(Number::PosInt(7)),
                Json::Number(Number::NegInt(-7)),
                Json::Number(Number::Float("1.5".to_string())),
            ]),
        ),
        (
            "b".to_string(),
            Json::Object(vec![("c".to_string(), Json::String("d".to_string()))]),
        ),
    ]);
    assert_eq!(doc.duplicate(), doc);
}

#[test]
fn numbers() {
    assert_eq!(Number::from_i64(5), Number::PosInt(5));
    assert_eq!(Number::from_i64(0), Number::PosInt(0));
    assert_eq!(Number::from_i64(-5), Number::NegInt(-5));
    assert_eq!(Number::PosInt(5).as_i64(), Some(5));
    assert_eq!(Number::PosInt(i64::MAX as u64).as_i64(), Some(i64::MAX));
    assert_eq!(Number::PosInt(i64::MAX as u64 + 1).as_i64(), None);
    assert_eq!(Number::NegInt(-5).as_i64(), Some(-5));
    let f = Number::Float("2.5".to_string());
    assert_eq!(f.as_i64(), None);
    assert!(!f.is_integer());
    assert!(Number::PosInt(1).is_integer());
    assert_eq!(f.duplicate(), f);
}

#[test]
fn values() {
    assert_eq!(Json::empty_object(), Json::Object(vec![]));
    assert_eq!(Json::string("x"), Json::String("x".to_string()));
    assert_eq!(Json::string("x").as_str(), Some("x"));
    assert_eq!(Json::Null.as_str(), None);
    assert!(Json::string("x").is_string("x"));
    assert!(!Json::string("x").is_string("y"));
    assert!(!Json::Bool(true).is_string("true"));
}

#[test]
fn from_members_orders_and_keeps_the_later_of_two() {
    let doc = Json::from_members(vec![
        ("b".to_string(), Json::Bool(true)),
        ("a".to_string(), Json::Null),
        ("b".to_string(), Json::String("later".to_string())),
    ]);
    assert_eq!(
        doc,
        Json::Object(vec![
            ("a".to_string(), Json::Null),
            ("b".to_string(), Json::String("later".to_string())),
        ])
    );
    assert!(doc.well_formed());
    assert_eq!(Json::from_members(vec![]), Json::empty_object());
}
