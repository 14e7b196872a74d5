use myllm_proxy::client_info::{
    client_info_from, cwd_from_path_buffer, file_name, pid_by_tcp_ports, resolve, SocketRecord,
};
use myllm_proxy::json::{json_from_value, parse_json, parse_json_bytes, Json};
use myllm_proxy::sort::{sort_by_num_key, sort_by_text_key, text_lt};
use myllm_proxy::text::{parse_unsigned, split_lines, trim};

fn s(text: &str) -> Json {
    Json::Str(text.to_string())
}

#[test]
fn parses_json_into_the_library_model() {
    let v = parse_json(" {\"b\": [1, -2.5, true, null], \"a\": \"x\"} ").unwrap();
    assert_eq!(
        v,
        Json::Object(vec![
            ("a".to_string(), s("x")),
            (
                "b".to_string(),
                Json::Array(vec![
                    Json::Number("1".to_string()),
                    Json::Number("-2.5".to_string()),
                    Json::Bool(true),
                    Json::Null,
                ])
            ),
        ])
    );
    assert!(parse_json("{} {}").is_none());
    assert!(parse_json("").is_none());
    assert_eq!(parse_json_bytes(b"[\"\xD0\xB6\"]"), Some(Json::Array(vec![s("ж")])));
    assert!(parse_json_bytes(b"[\"\xFF\"]").is_none());
}

#[test]
fn converts_serde_values() {
    let v: serde_json::Value = serde_json::from_str("{\"k\":[{\"n\":1}],\"s\":\"t\"}").unwrap();
    let j = json_from_value(v);
    assert_eq!(j.get("s"), Some(&s("t")));
    let inner = j.get("k").unwrap().as_array().unwrap();
    assert_eq!(inner[0].get("n"), Some(&Json::Number("1".to_string())));
    assert_eq!(j.deep_clone(), j);
}

#[test]
fn member_updates() {
    let o = Json::Object(vec![("a".to_string(), s("1"))]);
    let o = o.with_inserted("b", s("2")).with_inserted("a", s("3"));
    assert_eq!(
        o,
        Json::Object(vec![("a".to_string(), s("3")), ("b".to_string(), s("2"))])
    );
    assert_eq!(o.member_pos("b"), Some(1));
    assert!(o.field_str_is("a", "3"));
    assert_eq!(s("x").with_inserted("a", Json::Null), s("x"));
}

#[test]
fn sorts_are_stable() {
    let items = vec![
        ("b".to_string(), 1),
        ("a".to_string(), 2),
        ("b".to_string(), 3),
        ("ab".to_string(), 4),
    ];
    let sorted: Vec<i32> = sort_by_text_key(items).into_iter().map(|(_, v)| v).collect();
    assert_eq!(sorted, vec![2, 4, 1, 3]);
    let nums: Vec<&str> = sort_by_num_key(vec![(3u64, "c"), (1, "a"), (3, "d"), (0, "z")])
        .into_iter()
        .map(|(_, v)| v)
        .collect();
    assert_eq!(nums, vec!["z", "a", "c", "d"]);
    assert!(text_lt("a", "b"));
    assert!(text_lt("a", "ab"));
    assert!(!text_lt("b", "ab"));
    assert!(text_lt("Z", "a"));
}

#[test]
fn text_helpers() {
    assert_eq!(trim("\u{3000} x y \n"), "x y");
    assert_eq!(split_lines("a\r\nb\n\nc"), vec!["a", "b", "", "c"]);
    assert_eq!(split_lines("a\n"), vec!["a"]);
    assert!(split_lines("").is_empty());
    assert_eq!(parse_unsigned("42", 100), Some(42));
    assert_eq!(parse_unsigned("101", 100), None);
}

#[test]
fn finds_client_pid_by_ports() {
    let sockets = vec![
        SocketRecord { tcp_ports: Some((8088, 5000)), pids: vec![1] },
        SocketRecord { tcp_ports: None, pids: vec![2] },
        SocketRecord { tcp_ports: Some((5000, 8088)), pids: vec![] },
        SocketRecord { tcp_ports: Some((5000, 8088)), pids: vec![42, 43] },
    ];
    assert_eq!(pid_by_tcp_ports(&sockets, 5000, 8088), Some(42));
    assert_eq!(pid_by_tcp_ports(&sockets, 5001, 8088), None);
}

#[test]
fn client_info_falls_back_to_executable_name() {
    let c = client_info_from(7, Some("/usr/bin/curl".to_string()), None, Some(String::new()));
    assert_eq!(c.pid, 7);
    assert_eq!(c.name.as_deref(), Some("curl"));
    assert_eq!(c.exe.as_deref(), Some("/usr/bin/curl"));
    assert_eq!(c.cwd, None);
    let named = client_info_from(8, None, Some("node".to_string()), Some("/w".to_string()));
    assert_eq!(named.name.as_deref(), Some("node"));
    assert_eq!(named.cwd.as_deref(), Some("/w"));
    assert_eq!(file_name("/usr/bin/"), Some("bin".to_string()));
    assert_eq!(file_name("a/."), Some("a".to_string()));
    assert_eq!(file_name("a/.."), None);
    assert_eq!(file_name("/"), None);
}

#[test]
fn cwd_from_a_nul_terminated_buffer() {
    let mut buf = vec![0u8; 16];
    buf[..4].copy_from_slice(b"/tmp");
    assert_eq!(cwd_from_path_buffer(&buf), Some("/tmp".to_string()));
    assert_eq!(cwd_from_path_buffer(&[0u8; 8]), None);
    assert_eq!(cwd_from_path_buffer(b"/x"), Some("/x".to_string()));
}

#[test]
fn resolve_finds_nothing_for_an_unused_connection() {
    assert!(resolve(1, 1).is_none());
}
