use myllm_proxy::json::Json;
use myllm_proxy::proxy::{
    bind_address, extract_json_text, extract_response_text, extract_sse_text, finish_entry,
    history_path, is_hop_by_hop, prepare_request, redact_headers, should_log, tail_entries,
    upstream_url, ProxyError, MAX_RESPONSE_CHARS,
};

fn s(text: &str) -> Json {
    Json::Str(text.to_string())
}

fn obj(members: Vec<(&str, Json)>) -> Json {
    Json::Object(members.into_iter().map(|(k, v)| (k.to_string(), v)).collect())
}

fn headers(pairs: &[(&str, &str)]) -> Vec<(String, Option<String>)> {
    pairs
        .iter()
        .map(|(k, v)| (k.to_string(), Some(v.to_string())))
        .collect()
}

#[test]
fn proxy_extracts_sse_delta_text() {
    let sse = "data: {\"choices\":[{\"delta\":{\"content\":\"Hel\"}}]}\n\n\
               data: {\"choices\":[{\"delta\":{\"content\":\"lo\"}}]}\n\n\
               data: [DONE]\n\n";
    assert_eq!(extract_sse_text(sse), "Hello");
}

#[test]
fn proxy_extracts_chat_completion_json() {
    let json = r#"{"choices":[{"message":{"content":"hi there"}}]}"#;
    assert_eq!(extract_json_text(json), Some("hi there".to_string()));
}

#[test]
fn proxy_extracts_completion_text_field() {
    let json = r#"{"choices":[{"text":"hi there"}]}"#;
    assert_eq!(extract_json_text(json), Some("hi there".to_string()));
}

#[test]
fn proxy_falls_back_to_raw_for_unknown_shape() {
    let raw = b"not json at all";
    assert_eq!(extract_response_text("text/plain", raw), "not json at all");
}

#[test]
fn sse_skips_comments_bad_payloads_and_other_fields() {
    let sse = ": keep-alive\r\n\
               data:{\"choices\":[{\"delta\":{\"content\":\"a\"}}]}\r\n\
               data: not json\n\
               data: {\"choices\":[{\"delta\":{\"role\":\"assistant\"}}]}\n\
               event: x\n\
               data:   {\"choices\":[{\"delta\":{\"content\":\"b\"}}]}   \n\
               data:\n";
    assert_eq!(extract_sse_text(sse), "ab");
}

#[test]
fn json_text_prefers_message_content_then_text() {
    let both = r#"{"choices":[{"text":"t","message":{"content":"m"}}]}"#;
    assert_eq!(extract_json_text(both), Some("m".to_string()));
    let non_string = r#"{"choices":[{"message":{"content":null},"text":"t"}]}"#;
    assert_eq!(extract_json_text(non_string), Some("t".to_string()));
    assert_eq!(extract_json_text(r#"{"choices":[]}"#), None);
    assert_eq!(extract_json_text("[1,2]"), None);
}

#[test]
fn response_text_uses_sse_for_event_streams_and_caps_length() {
    let sse = b"data: {\"choices\":[{\"delta\":{\"content\":\"x\"}}]}\n";
    assert_eq!(extract_response_text("text/event-stream; charset=utf-8", sse), "x");
    let long = "ы".repeat(MAX_RESPONSE_CHARS + 5);
    let out = extract_response_text("text/plain", long.as_bytes());
    assert_eq!(out.chars().count(), MAX_RESPONSE_CHARS);
    let json = br#"{"choices":[{"message":{"content":"hi"}}]}"#;
    assert_eq!(extract_response_text("application/json", json), "hi");
    assert_eq!(extract_response_text("text/plain", b"ok\xFF"), "ok\u{FFFD}");
}

#[test]
fn hop_by_hop_headers_are_not_forwarded() {
    for name in ["host", "content-length", "connection", "transfer-encoding"] {
        assert!(is_hop_by_hop(name));
    }
    assert!(!is_hop_by_hop("content-type"));
    assert!(!is_hop_by_hop("x-chain-id"));
}

#[test]
fn redacted_headers_drop_credentials_and_keep_last_value() {
    let mut h = headers(&[
        ("authorization", "Bearer sk"),
        ("Authorization", "Bearer sk2"),
        ("x-api-key", "k"),
        ("accept", "a"),
        ("accept", "b"),
        ("content-type", "application/json"),
    ]);
    h.push(("x-binary".to_string(), None));
    let r = redact_headers(&h);
    assert_eq!(
        r,
        obj(vec![("accept", s("b")), ("content-type", s("application/json"))])
    );
}

#[test]
fn tail_entries_respects_limit_and_skips_garbage() {
    let content = "{\"id\":0}\n{\"id\":1}\nnot json\n{\"id\":3}\n{\"id\":4}\n";
    let entries = tail_entries(content, 2);
    assert_eq!(entries.len(), 2);
    assert_eq!(entries[0].get("id"), Some(&Json::Number("3".to_string())));
    assert_eq!(entries[1].get("id"), Some(&Json::Number("4".to_string())));
    let three = tail_entries(content, 3);
    assert_eq!(three.len(), 2);
    assert!(tail_entries("", 10).is_empty());
    assert_eq!(tail_entries(content, 100).len(), 4);
}

#[test]
fn health_pings_are_not_logged() {
    assert!(!should_log("/health"));
    assert!(should_log("/health?x=1"));
    assert!(should_log("/v1/chat/completions"));
}

#[test]
fn urls_and_paths() {
    assert_eq!(
        upstream_url("http://127.0.0.1:8000", "/v1/models?x=1"),
        "http://127.0.0.1:8000/v1/models?x=1"
    );
    assert_eq!(bind_address(8088), "127.0.0.1:8088");
    assert_eq!(bind_address(0), "127.0.0.1:0");
    assert_eq!(history_path("/data"), "/data/requests.jsonl");
    assert_eq!(history_path("/data/"), "/data/requests.jsonl");
}

#[test]
fn proxy_error_messages() {
    assert_eq!(ProxyError::Io("disk full".to_string()).message(), "IO error: disk full");
    assert_eq!(
        ProxyError::Bind("127.0.0.1:8088".to_string(), "in use".to_string()).message(),
        "failed to bind 127.0.0.1:8088: in use"
    );
    assert_eq!(ProxyError::NotRunning.message(), "proxy is not running");
    assert_eq!(
        ProxyError::AppData("no home".to_string()).message(),
        "could not resolve app data dir: no home"
    );
}

#[test]
fn prepare_request_parses_correlates_and_compresses() {
    let big = format!("{{\n  \"data\": \"{}\"\n}}", "x".repeat(6000));
    let body = format!(
        "{{\"model\":\"gemma\",\"messages\":[{{\"role\":\"user\",\"content\":{}}},{{\"role\":\"assistant\",\"content\":\"a\"}},{{\"role\":\"user\",\"content\":\"hello\"}}]}}",
        serde_json::to_string(&big).unwrap()
    );
    let h = headers(&[("authorization", "Bearer x"), ("x-chain-id", "c1")]);
    let p = prepare_request("http://up", "/v1/chat/completions", &h, body.as_bytes());
    assert_eq!(p.url, "http://up/v1/chat/completions");
    assert_eq!(p.model.as_deref(), Some("gemma"));
    assert_eq!(p.request_headers, obj(vec![("x-chain-id", s("c1"))]));
    assert_eq!(p.correlation.correlation_id.as_deref(), Some("c1"));
    assert_eq!(p.correlation.prompt_hash.as_deref(), Some("2cf24dba5fb0a30e"));
    assert!(p.compressed_body.is_some());
    assert!(p.should_log);
    assert!(p.request_body.is_some());
}

#[test]
fn prepare_request_with_non_json_body() {
    let p = prepare_request("http://up", "/health", &Vec::new(), b"\xFF not json");
    assert!(p.request_body.is_none());
    assert!(p.model.is_none());
    assert!(p.compressed_body.is_none());
    assert!(p.correlation.prompt_hash.is_none());
    assert!(!p.should_log);
}

#[test]
fn finish_entry_keeps_prepared_parts() {
    let body = br#"{"model":"m","messages":[{"role":"user","content":"hello"}]}"#;
    let h = headers(&[("x-chain-step", "2")]);
    let p = prepare_request("http://up", "/v1/x", &h, body);
    let e = finish_entry(
        p,
        7,
        1000,
        "POST".to_string(),
        "/v1/x".to_string(),
        200,
        12,
        "application/json",
        br#"{"choices":[{"message":{"content":"hi there"}}]}"#,
        None,
        false,
    );
    assert_eq!(e.id, 7);
    assert_eq!(e.status, 200);
    assert_eq!(e.model.as_deref(), Some("m"));
    assert_eq!(e.response_text, "hi there");
    assert_eq!(e.chain_step, Some(2));
    assert_eq!(e.prompt_hash.as_deref(), Some("2cf24dba5fb0a30e"));
}
