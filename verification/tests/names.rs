use airbyte_to_flow::names::stream_to_recommended_name;

#[test]
fn test_stream_to_recommended_name() {
    assert_eq!(stream_to_recommended_name("Hello-World"), "Hello-World");
    assert_eq!(
        stream_to_recommended_name("/&foo!/B ar// b+i-n.g /"),
        "foo/Bar/bi-n.g"
    );
}

#[test]
fn recommended_name_is_idempotent_on_examples() {
    for name in [
        "",
        "/",
        "///",
        "a",
        "/a/",
        "a//b",
        "!!/a/!!/b/!!",
        "Hello-World",
        "/&foo!/B ar// b+i-n.g /",
        "snake_case.and-dots/UPPER/123",
        "ünïcödé/καλημέρα/x",
    ] {
        let once = stream_to_recommended_name(name);
        assert_eq!(stream_to_recommended_name(&once), once, "{}", name);
        assert!(once
            .chars()
            .all(|c| c.is_ascii_alphanumeric() || "._/-".contains(c)));
        assert!(!once.starts_with('/') && !once.ends_with('/') && !once.contains("//"));
    }
}

#[test]
fn recommended_name_keeps_ascii_only() {
    assert_eq!(stream_to_recommended_name("ünïcödé/καλημέρα/x"), "ncd/x");
    assert_eq!(stream_to_recommended_name("!!!"), "");
    assert_eq!(stream_to_recommended_name("a_b.c-d"), "a_b.c-d");
}
