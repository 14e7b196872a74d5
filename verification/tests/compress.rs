use myllm_proxy::compress::{
    compress_request_body, compress_text, minify_embedded_json, truncate_middle,
    SYSTEM_TRUNCATION_SIZE_THRESHOLD,
};
use myllm_proxy::json::Json;

fn s(text: &str) -> Json {
    Json::Str(text.to_string())
}

fn obj(members: Vec<(&str, Json)>) -> Json {
    Json::Object(members.into_iter().map(|(k, v)| (k.to_string(), v)).collect())
}

fn msg(role: &str, content: Json) -> Json {
    obj(vec![("role", s(role)), ("content", content)])
}

fn messages(body: &Json) -> &Vec<Json> {
    body.get("messages").unwrap().as_array().unwrap()
}

fn content_text(message: &Json) -> &String {
    message.get("content").unwrap().as_str().unwrap()
}

fn big_json(fill: &str) -> String {
    format!("{{\n  \"data\": \"{}\"\n}}", fill.repeat(6000))
}

#[test]
fn minifies_embedded_pretty_json_block() {
    let text = "Запит:\n{\n  \"a\": 1,\n  \"b\": [1, 2, 3],\n  \"c\": \"hello world\"\n}\n\nдалі текст";
    let (out, changed) = minify_embedded_json(text);
    assert!(changed);
    assert!(out.contains(r#"{"a":1,"b":[1,2,3],"c":"hello world"}"#));
    assert!(out.starts_with("Запит:\n"));
    assert!(out.ends_with("далі текст"));
}

#[test]
fn leaves_plain_text_without_json_unchanged() {
    let text = "звичайний текст без жодних дужок JSON";
    let (out, changed) = minify_embedded_json(text);
    assert!(!changed);
    assert_eq!(out, text);
}

#[test]
fn ignores_invalid_json_looking_braces() {
    let text = "код: { not: valid, json here }";
    let (out, changed) = minify_embedded_json(text);
    assert!(!changed);
    assert_eq!(out, text);
}

#[test]
fn skips_short_json_blocks_even_without_newlines() {
    let text = "ok: {\"a\":1}";
    let (out, changed) = minify_embedded_json(text);
    assert!(!changed);
    assert_eq!(out, text);
}

fn conversation_with_tool_message(tool_message: Json) -> Json {
    obj(vec![(
        "messages",
        Json::Array(vec![
            msg("system", s("sys")),
            msg("user", Json::Str(big_json("x"))),
            tool_message,
            msg("assistant", s("остання відповідь")),
            msg("user", s("останнє питання")),
        ]),
    )])
}

#[test]
fn leaves_tool_calls_message_untouched_but_compresses_others() {
    let make = || {
        obj(vec![
            ("role", s("assistant")),
            ("tool_calls", Json::Array(vec![obj(vec![("id", s("1"))])])),
            ("content", s("{\n  \"x\": 1\n}")),
        ])
    };
    let body = conversation_with_tool_message(make());
    let compressed =
        compress_request_body(&body, 0).expect("should compress the non-tool message");
    let msgs = messages(&compressed);
    assert_eq!(msgs[2], make(), "tool_calls message must stay byte-exact");
    assert!(content_text(&msgs[1]).contains("truncated"));
}

#[test]
fn leaves_function_call_message_untouched_but_compresses_others() {
    let make = || {
        obj(vec![
            ("role", s("assistant")),
            ("function_call", obj(vec![("name", s("f"))])),
            ("content", s("{\n  \"x\": 1\n}")),
        ])
    };
    let body = conversation_with_tool_message(make());
    let compressed =
        compress_request_body(&body, 0).expect("should compress the non-tool message");
    let msgs = messages(&compressed);
    assert_eq!(msgs[2], make(), "function_call message must stay byte-exact");
    assert!(content_text(&msgs[1]).contains("truncated"));
}

#[test]
fn leaves_tool_role_message_untouched_but_compresses_others() {
    let make = || msg("tool", s("{\n  \"x\": 1\n}"));
    let body = conversation_with_tool_message(make());
    let compressed =
        compress_request_body(&body, 0).expect("should compress the non-tool message");
    let msgs = messages(&compressed);
    assert_eq!(msgs[2], make(), "role: tool message must stay byte-exact");
    assert!(content_text(&msgs[1]).contains("truncated"));
}

#[test]
fn skips_requests_with_response_format() {
    let body = obj(vec![
        ("response_format", obj(vec![("type", s("json_schema"))])),
        ("messages", Json::Array(vec![msg("user", s("{\n  \"x\": 1\n}"))])),
    ]);
    assert!(compress_request_body(&body, 0).is_none());
}

#[test]
fn skips_requests_without_messages_array() {
    let body = obj(vec![("model", s("gemma"))]);
    assert!(compress_request_body(&body, 0).is_none());
}

#[test]
fn minifies_old_message_and_truncates_large_old_block() {
    let body = obj(vec![(
        "messages",
        Json::Array(vec![
            msg("system", s("sys")),
            msg("user", Json::Str(big_json("x"))),
            msg("assistant", s("остання відповідь")),
            msg("user", s("останнє питання")),
        ]),
    )]);
    let compressed = compress_request_body(&body, 0).expect("should compress");
    let msgs = messages(&compressed);
    assert_eq!(content_text(&msgs[0]), "sys");
    let old_content = content_text(&msgs[1]);
    assert!(old_content.contains("truncated"));
    assert!(old_content.len() < 6000);
    assert_eq!(content_text(&msgs[2]), "остання відповідь");
    assert_eq!(content_text(&msgs[3]), "останнє питання");
}

#[test]
fn protects_last_messages_from_truncation_even_if_large() {
    let big_text = format!("{{\n  \"data\": \"{}\"\n}}", "y".repeat(6000));
    let body = obj(vec![(
        "messages",
        Json::Array(vec![msg("user", Json::Str(big_text.clone()))]),
    )]);
    let compressed = compress_request_body(&body, 0).expect("should minify");
    let content = content_text(&messages(&compressed)[0]);
    assert!(!content.contains("truncated"));
    assert!(content.len() < big_text.len());
}

fn conversation_with_big_system(system_len: usize) -> Json {
    obj(vec![(
        "messages",
        Json::Array(vec![
            msg("system", Json::Str("x".repeat(system_len))),
            msg("user", s("останнє питання")),
        ]),
    )])
}

#[test]
fn keeps_system_message_protected_when_request_under_size_threshold() {
    let body = conversation_with_big_system(6000);
    let compressed = compress_request_body(&body, SYSTEM_TRUNCATION_SIZE_THRESHOLD);
    assert!(
        compressed.is_none(),
        "нема JSON для minify і система захищена — нічого стискати"
    );
}

#[test]
fn truncates_system_message_when_request_exceeds_size_threshold() {
    let body = conversation_with_big_system(6000);
    let over_threshold = SYSTEM_TRUNCATION_SIZE_THRESHOLD + 1;
    let compressed = compress_request_body(&body, over_threshold)
        .expect("system message should become truncatable over the threshold");
    let msgs = messages(&compressed);
    let system_content = content_text(&msgs[0]);
    assert!(system_content.contains("truncated"));
    assert!(system_content.len() < 6000);
    assert_eq!(content_text(&msgs[1]), "останнє питання");
}

#[test]
fn compresses_multimodal_text_part_and_skips_image_part() {
    let body = obj(vec![(
        "messages",
        Json::Array(vec![
            msg(
                "user",
                Json::Array(vec![
                    obj(vec![("type", s("text")), ("text", Json::Str(big_json("z")))]),
                    obj(vec![
                        ("type", s("image_url")),
                        ("image_url", obj(vec![("url", s("data:image/png;base64,AAA"))])),
                    ]),
                ]),
            ),
            msg("assistant", s("ok")),
            msg("user", s("ще одне")),
        ]),
    )]);
    let compressed = compress_request_body(&body, 0).expect("should compress");
    let parts = messages(&compressed)[0].get("content").unwrap().as_array().unwrap();
    let text = parts[0].get("text").unwrap().as_str().unwrap();
    assert!(text.contains("truncated"));
    assert_eq!(parts[1].get("type").unwrap(), &s("image_url"));
}

#[test]
fn truncate_middle_keeps_head_and_tail_with_count() {
    let text: String = (0..2100).map(|i| if i < 1500 { 'a' } else if i < 1600 { 'b' } else { 'c' }).collect();
    let out = truncate_middle(&text);
    let expected = format!("{}\n...[truncated 100 chars]...\n{}", "a".repeat(1500), "c".repeat(500));
    assert_eq!(out, expected);
}

#[test]
fn truncate_middle_keeps_short_text() {
    let text = "ї".repeat(2000);
    assert_eq!(truncate_middle(&text), text);
}

#[test]
fn truncate_middle_counts_characters_not_bytes() {
    let text = "ж".repeat(2001);
    let out = truncate_middle(&text);
    assert!(out.contains("[truncated 1 chars]"));
    assert!(out.starts_with(&"ж".repeat(1500)));
    assert!(out.ends_with(&"ж".repeat(500)));
}

#[test]
fn compress_text_threshold_counts_characters() {
    // 2500 two-byte characters: 5000 bytes but only 2500 characters, kept.
    let text = "я".repeat(2500);
    assert_eq!(compress_text(&text, false), (text.clone(), false));
    // 4001 characters are over the threshold and get truncated.
    let long = "ж".repeat(4001);
    let (out, changed) = compress_text(&long, false);
    assert!(changed);
    assert!(out.contains("[truncated 2001 chars]"));
    // 4000 characters stay.
    let edge = "q".repeat(4000);
    assert_eq!(compress_text(&edge, false), (edge.clone(), false));
    // A protected text is never truncated.
    assert_eq!(compress_text(&long, true), (long.clone(), false));
}

#[test]
fn wide_characters_under_the_threshold_leave_the_body_alone() {
    let body = obj(vec![(
        "messages",
        Json::Array(vec![
            msg("user", Json::Str("\u{1F600}".repeat(1001))),
            msg("assistant", s("a")),
            msg("user", s("b")),
        ]),
    )]);
    assert!(compress_request_body(&body, 0).is_none());
}

#[test]
fn minify_replacement_is_shorter() {
    let text = "x {\n  \"key\": \"value value value value value\"\n} y";
    let (out, changed) = minify_embedded_json(text);
    assert!(changed);
    assert!(out.len() < text.len());
    assert_eq!(out, "x {\"key\":\"value value value value value\"} y");
}

#[test]
fn minify_keeps_json_without_newline() {
    let text = "x {\"aaaaaaaaaaaaaaaaaaaa\": \"bbbbbbbbbbbbbbbbbbbbbbbbbbbb\"} y";
    let (out, changed) = minify_embedded_json(text);
    assert!(!changed);
    assert_eq!(out, text);
}

#[test]
fn minify_handles_several_blocks_and_arrays() {
    let text = "a [\n  1,\n  2,\n  3,\n  4,\n  5,\n  6,\n  7,\n  8,\n  9\n] b {\n  \"k\": \"vvvvvvvvvvvvvvvvvvvvvvvvvvvvvvvvvv\"\n} c";
    let (out, changed) = minify_embedded_json(text);
    assert!(changed);
    assert_eq!(out, "a [1,2,3,4,5,6,7,8,9] b {\"k\":\"vvvvvvvvvvvvvvvvvvvvvvvvvvvvvvvvvv\"} c");
}

#[test]
fn compress_keeps_other_members_of_body() {
    let body = obj(vec![
        ("model", s("gemma")),
        ("messages", Json::Array(vec![msg("user", Json::Str(big_json("x"))), msg("assistant", s("a")), msg("user", s("q"))])),
        ("stream", Json::Bool(true)),
    ]);
    let compressed = compress_request_body(&body, 0).expect("should compress");
    assert_eq!(compressed.get("model"), Some(&s("gemma")));
    assert_eq!(compressed.get("stream"), Some(&Json::Bool(true)));
    assert_eq!(messages(&compressed).len(), 3);
}
