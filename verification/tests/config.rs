use vc::{parse_sources, sources_from_entries, Error, Source};

#[test]
fn loads_and_sorts_numerically() {
    let sources = parse_sources("urls.json", r#"{"10":"u10","2":"u2","1":"u1"}"#).unwrap();
    let ids: Vec<_> = sources.iter().map(|s| s.id.as_str()).collect();
    assert_eq!(ids, vec!["1", "2", "10"]);
}

#[test]
fn rejects_empty_object() {
    assert!(matches!(
        parse_sources("urls.json", r#"{}"#),
        Err(Error::EmptySources { .. })
    ));
}

#[test]
fn rejects_invalid_json() {
    assert!(matches!(parse_sources("urls.json", "not json"), Err(Error::Parse { .. })));
}

#[test]
fn pipeline_reads_real_urls_json_shape() {
    let sources = parse_sources(
        "urls.json",
        r#"{"2":"https://example.com/b","1":"https://example.com/a"}"#,
    )
    .unwrap();
    assert_eq!(sources.len(), 2);
    assert_eq!(sources[0].id, "1");
    assert_eq!(sources[1].id, "2");
    assert_eq!(sources[0].url, "https://example.com/a");
}

#[test]
fn blank_entries_are_dropped() {
    let sources = parse_sources("u.json", r#"{"1":"  ","2":"u2"," ":"u3"}"#).unwrap();
    assert_eq!(sources.len(), 1);
    assert_eq!(sources[0].id, "2");
}

#[test]
fn non_numeric_ids_sort_lexicographically_after_numbers() {
    let sources = parse_sources("u.json", r#"{"b":"1","a":"2","3":"3","20":"4"}"#).unwrap();
    let ids: Vec<_> = sources.iter().map(|s| s.id.as_str()).collect();
    assert_eq!(ids, vec!["3", "20", "a", "b"]);
}

#[test]
fn errors_carry_the_path() {
    match parse_sources("lists/urls.json", "[1, 2]") {
        Err(Error::Parse { path, .. }) => assert_eq!(path, "lists/urls.json"),
        other => panic!("unexpected {other:?}"),
    }
    match parse_sources("lists/urls.json", "{}") {
        Err(Error::EmptySources { path }) => assert_eq!(path, "lists/urls.json"),
        other => panic!("unexpected {other:?}"),
    }
}

fn entry(id: &str, url: &str) -> (String, String) {
    (id.to_string(), url.to_string())
}

#[test]
fn entries_with_equal_values_keep_key_order() {
    let sources = sources_from_entries(
        "u.json",
        vec![entry("02", "a"), entry("10", "c"), entry("2", "b")],
    )
    .unwrap();
    let ids: Vec<_> = sources.iter().map(|s| s.id.as_str()).collect();
    assert_eq!(ids, vec!["02", "2", "10"]);
}

#[test]
fn entries_drop_blank_ids_and_urls() {
    let sources = sources_from_entries(
        "u.json",
        vec![entry(" ", "x"), entry("1", " \t"), entry("3", "u3")],
    )
    .unwrap();
    assert_eq!(sources, vec![Source { id: "3".to_string(), url: "u3".to_string() }]);
}

#[test]
fn no_entries_is_the_empty_sources_error() {
    match sources_from_entries("lists/u.json", Vec::new()) {
        Err(Error::EmptySources { path }) => assert_eq!(path, "lists/u.json"),
        other => panic!("unexpected {other:?}"),
    }
}

#[test]
fn json_keys_of_equal_value_come_in_text_order() {
    let sources = parse_sources("u.json", r#"{"2":"b","02":"a","1":"z"}"#).unwrap();
    let ids: Vec<_> = sources.iter().map(|s| s.id.as_str()).collect();
    assert_eq!(ids, vec!["1", "02", "2"]);
}
