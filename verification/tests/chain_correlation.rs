use myllm_proxy::chain_correlation::{extract_correlation, percent_decode, prompt_hash};
use myllm_proxy::json::Json;

fn s(text: &str) -> Json {
    Json::Str(text.to_string())
}

fn obj(members: Vec<(&str, Json)>) -> Json {
    Json::Object(members.into_iter().map(|(k, v)| (k.to_string(), v)).collect())
}

fn msg(role: &str, content: Json) -> Json {
    obj(vec![("role", s(role)), ("content", content)])
}

fn headers(pairs: &[(&str, &str)]) -> Vec<(String, Option<String>)> {
    pairs
        .iter()
        .map(|(k, v)| (k.to_string(), Some(v.to_string())))
        .collect()
}

#[test]
fn prompt_hash_string_content_deterministic() {
    let body = obj(vec![(
        "messages",
        Json::Array(vec![msg("system", s("sys")), msg("user", s("  hello \n"))]),
    )]);
    assert_eq!(prompt_hash(&body).as_deref(), Some("2cf24dba5fb0a30e"));
    assert_eq!(prompt_hash(&body), prompt_hash(&body));
}

#[test]
fn prompt_hash_parts_and_last_user() {
    let body = obj(vec![(
        "messages",
        Json::Array(vec![
            msg("user", s("перше")),
            msg("assistant", s("відповідь")),
            msg(
                "user",
                Json::Array(vec![
                    obj(vec![("type", s("text")), ("text", s("hel"))]),
                    obj(vec![("type", s("image")), ("url", s("x"))]),
                    obj(vec![("type", s("text")), ("text", s("lo"))]),
                ]),
            ),
        ]),
    )]);
    assert_eq!(prompt_hash(&body).as_deref(), Some("2cf24dba5fb0a30e"));
}

#[test]
fn prompt_hash_none_without_messages() {
    assert_eq!(prompt_hash(&obj(vec![("model", s("x"))])), None);
    assert_eq!(prompt_hash(&obj(vec![("messages", Json::Array(vec![]))])), None);
}

#[test]
fn extract_correlation_full_and_empty() {
    let h = headers(&[
        ("x-chain-id", "abc123"),
        ("x-chain-step", "3"),
        ("x-chain-kind", "fix-concern"),
        ("x-chain-cwd", "%2FUsers%2Fx%2Fproj"),
    ]);
    let body = obj(vec![("messages", Json::Array(vec![msg("user", s("hello"))]))]);
    let c = extract_correlation(&h, Some(&body));
    assert_eq!(c.correlation_id.as_deref(), Some("abc123"));
    assert_eq!(c.chain_step, Some(3));
    assert_eq!(c.chain_kind.as_deref(), Some("fix-concern"));
    assert_eq!(c.chain_cwd.as_deref(), Some("/Users/x/proj"));
    assert_eq!(c.prompt_hash.as_deref(), Some("2cf24dba5fb0a30e"));

    let empty = extract_correlation(&Vec::new(), None);
    assert!(empty.correlation_id.is_none());
    assert!(empty.prompt_hash.is_none());
}

#[test]
fn extract_correlation_bad_step_is_none() {
    let h = headers(&[("x-chain-step", "not-a-number")]);
    let c = extract_correlation(&h, None);
    assert_eq!(c.chain_step, None);
}

#[test]
fn percent_decode_roundtrip() {
    assert_eq!(percent_decode("%2Ftmp%2Fx"), "/tmp/x");
    assert_eq!(percent_decode("plain"), "plain");
}

#[test]
fn percent_decode_keeps_bad_escapes_and_decodes_utf8() {
    assert_eq!(percent_decode("100%"), "100%");
    assert_eq!(percent_decode("%zz%4"), "%zz%4");
    assert_eq!(percent_decode("%2f%2F"), "//");
    assert_eq!(percent_decode("%D0%B6"), "ж");
    assert_eq!(percent_decode("шлях"), "шлях");
}

#[test]
fn percent_decode_replaces_invalid_utf8() {
    assert_eq!(percent_decode("a%FFb"), "a\u{FFFD}b");
}

#[test]
fn prompt_hash_ignores_surrounding_whitespace_only() {
    let with = |t: &str| obj(vec![("messages", Json::Array(vec![msg("user", s(t))]))]);
    assert_eq!(prompt_hash(&with("hello")), prompt_hash(&with("\t hello\n")));
    assert_ne!(prompt_hash(&with("hello")), prompt_hash(&with("hel lo")));
    let h = prompt_hash(&with("anything")).unwrap();
    assert_eq!(h.len(), 16);
    assert!(h.chars().all(|c| c.is_ascii_digit() || ('a'..='f').contains(&c)));
}

#[test]
fn prompt_hash_of_empty_text() {
    // SHA-256 of the empty input.
    let body = obj(vec![("messages", Json::Array(vec![msg("user", s("   "))]))]);
    assert_eq!(prompt_hash(&body).as_deref(), Some("e3b0c44298fc1c14"));
}

#[test]
fn prompt_hash_needs_a_user_message_with_content() {
    let only_assistant = obj(vec![("messages", Json::Array(vec![msg("assistant", s("hi"))]))]);
    assert_eq!(prompt_hash(&only_assistant), None);
    let no_content = obj(vec![("messages", Json::Array(vec![obj(vec![("role", s("user"))])]))]);
    assert_eq!(prompt_hash(&no_content), None);
    let numeric_content = obj(vec![("messages", Json::Array(vec![msg("user", Json::Number("1".to_string()))]))]);
    assert_eq!(prompt_hash(&numeric_content), None);
}

#[test]
fn extract_correlation_takes_first_header_value_and_checks_step_range() {
    let h = vec![
        ("x-chain-id".to_string(), Some("first".to_string())),
        ("x-chain-id".to_string(), Some("second".to_string())),
        ("x-chain-step".to_string(), Some("4294967296".to_string())),
        ("x-chain-kind".to_string(), None),
    ];
    let c = extract_correlation(&h, None);
    assert_eq!(c.correlation_id.as_deref(), Some("first"));
    assert_eq!(c.chain_step, None);
    assert_eq!(c.chain_kind, None);
    let plus = extract_correlation(&headers(&[("x-chain-step", "+7")]), None);
    assert_eq!(plus.chain_step, Some(7));
}

#[test]
fn percent_decode_undoes_uri_encoding() {
    // encodeURIComponent("/Users/x y/проєкт (1)!")
    assert_eq!(
        percent_decode("%2FUsers%2Fx%20y%2F%D0%BF%D1%80%D0%BE%D1%94%D0%BA%D1%82%20(1)!"),
        "/Users/x y/проєкт (1)!"
    );
    assert_eq!(percent_decode("50%%zz%2"), "50%%zz%2");
    // Hex digits of either case.
    assert_eq!(percent_decode("%d0%B6%2f"), "ж/");
}
