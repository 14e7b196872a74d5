use myllm_proxy::admin::{
    admin_url, is_success_status, login_outcome, response_outcome, session_or_not_connected,
    AdminError, GLOBAL_SETTINGS_PATH, LOGIN_PATH, STATS_PATH,
};
use myllm_proxy::config::{default_data_dir, Config, DEFAULT_PORT, DEFAULT_UPSTREAM_BASE_URL};

#[test]
fn admin_error_messages() {
    assert_eq!(AdminError::Http("timeout".to_string()).message(), "HTTP error: timeout");
    assert_eq!(
        AdminError::LoginFailed { status: 401, message: "{\"detail\":\"invalid api key\"}".to_string() }
            .message(),
        "omlx login failed with HTTP 401: {\"detail\":\"invalid api key\"}"
    );
    assert_eq!(
        AdminError::NotConnected.message(),
        "not connected — call omlx_connect first"
    );
}

#[test]
fn success_statuses() {
    assert!(is_success_status(200));
    assert!(is_success_status(204));
    assert!(is_success_status(299));
    assert!(!is_success_status(199));
    assert!(!is_success_status(300));
    assert!(!is_success_status(401));
}

#[test]
fn login_rejects_bad_key_with_status_and_body() {
    assert!(login_outcome(200, String::new()).is_ok());
    match login_outcome(401, "{\"detail\":\"invalid api key\"}".to_string()) {
        Err(AdminError::LoginFailed { status, message }) => {
            assert_eq!(status, 401);
            assert!(message.contains("invalid api key"));
        }
        other => panic!("unexpected: {other:?}"),
    }
}

#[test]
fn admin_response_returns_parsed_body_or_its_text() {
    let body: serde_json::Value = serde_json::from_str("{\"total_requests\":60}").unwrap();
    let ok = response_outcome(200, body.clone()).unwrap();
    assert_eq!(ok["total_requests"], 60);
    match response_outcome(503, body) {
        Err(AdminError::LoginFailed { status, message }) => {
            assert_eq!(status, 503);
            assert_eq!(message, "{\"total_requests\":60}");
        }
        other => panic!("unexpected: {other:?}"),
    }
}

#[test]
fn admin_endpoints() {
    assert_eq!(admin_url("http://127.0.0.1:8000", LOGIN_PATH), "http://127.0.0.1:8000/admin/api/login");
    assert_eq!(admin_url("http://h", STATS_PATH), "http://h/admin/api/stats");
    assert_eq!(admin_url("http://h", GLOBAL_SETTINGS_PATH), "http://h/admin/api/global-settings");
}

#[test]
fn session_is_required() {
    assert_eq!(session_or_not_connected(Some(5)).unwrap(), 5);
    assert!(matches!(
        session_or_not_connected::<u8>(None),
        Err(AdminError::NotConnected)
    ));
}

#[test]
fn config_defaults_when_nothing_is_set() {
    let c = Config::from_env(None, None, None, None, Some("/Users/me".to_string()));
    assert_eq!(c.upstream_base_url, DEFAULT_UPSTREAM_BASE_URL);
    assert_eq!(c.upstream_base_url, "http://127.0.0.1:8000");
    assert_eq!(c.port, DEFAULT_PORT);
    assert_eq!(c.port, 8088);
    assert_eq!(c.api_key, None);
    assert_eq!(c.data_dir, "/Users/me/Library/Application Support/myllm-proxy-service");
}

#[test]
fn config_reads_values_and_ignores_empty_ones() {
    let c = Config::from_env(
        Some("http://up:9".to_string()),
        Some("9090".to_string()),
        Some("key".to_string()),
        Some("/data".to_string()),
        None,
    );
    assert_eq!(c.upstream_base_url, "http://up:9");
    assert_eq!(c.port, 9090);
    assert_eq!(c.api_key.as_deref(), Some("key"));
    assert_eq!(c.data_dir, "/data");
    let e = Config::from_env(
        Some(String::new()),
        Some(String::new()),
        Some(String::new()),
        Some(String::new()),
        None,
    );
    assert_eq!(e.upstream_base_url, "http://127.0.0.1:8000");
    assert_eq!(e.port, 8088);
    assert_eq!(e.api_key, None);
    assert_eq!(e.data_dir, "/Library/Application Support/myllm-proxy-service");
}

#[test]
fn config_port_parsing_follows_u16_parse() {
    let port = |p: &str| Config::from_env(None, Some(p.to_string()), None, None, None).port;
    assert_eq!(port("+80"), 80);
    assert_eq!(port("0"), 0);
    assert_eq!(port("65535"), 65535);
    assert_eq!(port("65536"), 8088);
    assert_eq!(port("-1"), 8088);
    assert_eq!(port(" 80"), 8088);
    assert_eq!(port("8o"), 8088);
    assert_eq!(port("+"), 8088);
    assert_eq!(default_data_dir(Some("/h/".to_string())), "/h/Library/Application Support/myllm-proxy-service");
}
