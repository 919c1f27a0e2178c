use airbyte_to_flow::json::{Json, Number};
use airbyte_to_flow::pointer::{lay_down, tokenize_jsonpointer, Edit, Pointer, Token};

#[test]
fn test_tokenize_jsonpointer() {
    let input = "/a/1/-/*";
    let expected = [
        "a".to_string(),
        "1".to_string(),
        "-".to_string(),
        "*".to_string(),
    ];
    assert_eq!(&expected[..], &tokenize_jsonpointer(input));
}

#[test]
fn pointer_reads_tokens() {
    let p = Pointer::from_str("/a/1/-/01/+2/b~1c/d~0e/~01");
    assert_eq!(
        p.0,
        vec![
            Token::Property("a".to_string()),
            Token::Index(1),
            Token::NextIndex,
            Token::Property("01".to_string()),
            Token::Property("+2".to_string()),
            Token::Property("b/c".to_string()),
            Token::Property("d~e".to_string()),
            Token::Property("~1".to_string()),
        ]
    );
}

#[test]
fn pointer_without_leading_slash() {
    assert_eq!(
        Pointer::from_str("doc/id").0,
        vec![
            Token::Property("doc".to_string()),
            Token::Property("id".to_string())
        ]
    );
    assert_eq!(Pointer::from_str("").0, vec![]);
    assert_eq!(
        Pointer::from_str("/").0,
        vec![Token::Property("".to_string())]
    );
    assert_eq!(Pointer::from_str("0").0, vec![Token::Index(0)]);
}

#[test]
fn pointer_index_that_does_not_fit_is_a_property() {
    assert_eq!(
        Pointer::from_str("/99999999999999999999999999").0,
        vec![Token::Property("99999999999999999999999999".to_string())]
    );
    assert_eq!(
        Pointer::from_str("/18446744073709551615").0,
        vec![Token::Index(18446744073709551615)]
    );
}

#[test]
fn pointer_text_escapes() {
    let p = Pointer::from_tokens(vec![
        Token::Property("a/b".to_string()),
        Token::Index(12),
        Token::NextIndex,
        Token::Property("m~n".to_string()),
    ]);
    assert_eq!(p.to_string(), "/a~1b/12/-/m~0n");
    assert_eq!(Pointer::empty().to_string(), "");
}

fn sorted_doc() -> Json {
    Json::Object(vec![
        ("-".to_string(), Json::Bool(true)),
        ("0".to_string(), Json::String("zero".to_string())),
        (
            "a".to_string(),
            Json::Array(vec![
                Json::Number(Number::PosInt(1)),
                Json::Object(vec![("b".to_string(), Json::Null)]),
            ]),
        ),
    ])
}

#[test]
fn query_follows_tokens() {
    let d = sorted_doc();
    assert_eq!(Pointer::from_str("").query(&d), Some(&d));
    assert_eq!(
        Pointer::from_str("/0").query(&d),
        Some(&Json::String("zero".to_string()))
    );
    assert_eq!(Pointer::from_str("/-").query(&d), Some(&Json::Bool(true)));
    assert_eq!(
        Pointer::from_str("/a/0").query(&d),
        Some(&Json::Number(Number::PosInt(1)))
    );
    assert_eq!(Pointer::from_str("/a/1/b").query(&d), Some(&Json::Null));
    assert_eq!(Pointer::from_str("/a/2").query(&d), None);
    assert_eq!(Pointer::from_str("/a/-").query(&d), None);
    assert_eq!(Pointer::from_str("/a/b").query(&d), None);
    assert_eq!(Pointer::from_str("/a/0/x").query(&d), None);
    assert_eq!(Pointer::from_str("/missing").query(&d), None);
}

#[test]
fn lay_down_creates_what_is_missing() {
    let one = || Json::Number(Number::PosInt(1));
    let put = |doc: Json, ptr: &str| lay_down(doc, &Pointer::from_str(ptr), 0, Edit::Put(one()));
    assert_eq!(put(Json::Null, ""), Some(one()));
    assert_eq!(
        put(Json::Null, "/a/b"),
        Some(Json::Object(vec![(
            "a".to_string(),
            Json::Object(vec![("b".to_string(), one())])
        )]))
    );
    assert_eq!(
        put(Json::Null, "/2"),
        Some(Json::Array(vec![Json::Null, Json::Null, one()]))
    );
    assert_eq!(
        put(Json::Null, "/-/-"),
        Some(Json::Array(vec![Json::Array(vec![one()])]))
    );
    assert_eq!(
        put(Json::Array(vec![Json::Bool(true)]), "/0"),
        Some(Json::Array(vec![one()]))
    );
    assert_eq!(
        put(Json::Array(vec![Json::Bool(true)]), "/-"),
        Some(Json::Array(vec![Json::Bool(true), one()]))
    );
    assert_eq!(put(Json::Array(vec![]), "/a"), None);
    assert_eq!(put(Json::Bool(true), "/a"), None);
    assert_eq!(put(Json::String("s".to_string()), "/0"), None);
    assert_eq!(
        put(Json::Object(vec![("b".to_string(), Json::Null)]), "/a"),
        Some(Json::Object(vec![
            ("a".to_string(), one()),
            ("b".to_string(), Json::Null)
        ]))
    );
    assert_eq!(
        put(Json::Object(vec![]), "/1"),
        Some(Json::Object(vec![("1".to_string(), one())]))
    );
    let remove = |doc: Json, ptr: &str, key: &str| {
        lay_down(
            doc,
            &Pointer::from_str(ptr),
            0,
            Edit::RemoveKey(key.to_string()),
        )
    };
    assert_eq!(
        remove(
            Json::Object(vec![("a".to_string(), one()), ("b".to_string(), one())]),
            "",
            "a"
        ),
        Some(Json::Object(vec![("b".to_string(), one())]))
    );
    assert_eq!(remove(Json::Array(vec![]), "", "a"), None);
    assert_eq!(remove(Json::Null, "", "a"), None);
    assert_eq!(remove(Json::Null, "/x", "a"), None);
}

#[test]
fn token_texts() {
    assert_eq!(Token::from_str("-"), Token::NextIndex);
    assert_eq!(Token::from_str("12"), Token::Index(12));
    assert_eq!(Token::from_str("012"), Token::Property("012".to_string()));
    assert_eq!(Token::from_str(""), Token::Property("".to_string()));
    assert_eq!(Token::from_str("1a"), Token::Property("1a".to_string()));
    assert_eq!(Token::Index(12).to_string(), "12");
    assert_eq!(Token::NextIndex.to_string(), "-");
    assert_eq!(Token::Property("a/b".to_string()).to_string(), "a/b");
    assert_eq!(Token::Index(3).duplicate(), Token::Index(3));
    let p = Pointer::from_str("/a/1");
    assert_eq!(p.duplicate(), p);
}
