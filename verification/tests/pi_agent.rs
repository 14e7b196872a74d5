use myllm_proxy::pi_agent::{
    label_for_key, pi_agent_models_from_env, pi_args, pi_outcome, PiAgentError, PiModelOption,
    SYSTEM_PROMPT,
};

fn vars(pairs: &[(&str, &str)]) -> Vec<(String, String)> {
    pairs
        .iter()
        .map(|(k, v)| (k.to_string(), v.to_string()))
        .collect()
}

#[test]
fn finds_all_n_prefixed_model_vars_sorted_by_key() {
    let options = pi_agent_models_from_env(vars(&[
        ("N_CLOUD_MAX_MODEL", "openai-codex/gpt-5.5"),
        ("N_LOCAL_MIN_MODEL", "omlx/gemma-4-e4b-it-OptiQ-4bit"),
        ("N_CLOUD_MIN_MODEL", "openai-codex/gpt-5.4-mini"),
        ("N_CLOUD_AVG_MODEL", "openai-codex/gpt-5.4"),
        ("OMLX_API_KEY", "sample-secret"),
        ("PATH", "/usr/bin"),
    ]));
    assert_eq!(
        options,
        vec![
            PiModelOption {
                key: "N_CLOUD_AVG_MODEL".to_string(),
                label: "CLOUD AVG".to_string(),
                model: "openai-codex/gpt-5.4".to_string(),
            },
            PiModelOption {
                key: "N_CLOUD_MAX_MODEL".to_string(),
                label: "CLOUD MAX".to_string(),
                model: "openai-codex/gpt-5.5".to_string(),
            },
            PiModelOption {
                key: "N_CLOUD_MIN_MODEL".to_string(),
                label: "CLOUD MIN".to_string(),
                model: "openai-codex/gpt-5.4-mini".to_string(),
            },
            PiModelOption {
                key: "N_LOCAL_MIN_MODEL".to_string(),
                label: "LOCAL MIN".to_string(),
                model: "omlx/gemma-4-e4b-it-OptiQ-4bit".to_string(),
            },
        ]
    );
}

#[test]
fn ignores_empty_values_and_non_matching_keys() {
    let options = pi_agent_models_from_env(vars(&[
        ("N_CLOUD_MAX_MODEL", ""),
        ("N_WEIRD_OTHER", "value"),
        ("SOME_MODEL", "value"),
    ]));
    assert!(options.is_empty());
}

#[test]
fn labels_strip_repeated_prefixes_and_suffixes() {
    assert_eq!(label_for_key("N_CLOUD_MAX_MODEL"), "CLOUD MAX");
    assert_eq!(label_for_key("N_N_X_MODEL_MODEL"), "X");
    assert_eq!(label_for_key("N__MODEL"), "");
    // The key `N_MODEL` both starts with `N_` and ends with `_MODEL`.
    let options = pi_agent_models_from_env(vars(&[("N_MODEL", "m")]));
    assert_eq!(options.len(), 1);
    assert_eq!(options[0].label, "MODEL");
}

#[test]
fn equal_keys_keep_their_order() {
    let options = pi_agent_models_from_env(vars(&[
        ("N_B_MODEL", "second"),
        ("N_A_MODEL", "first"),
        ("N_B_MODEL", "third"),
    ]));
    let models: Vec<&str> = options.iter().map(|o| o.model.as_str()).collect();
    assert_eq!(models, vec!["first", "second", "third"]);
}

#[test]
fn agent_arguments_carry_model_session_and_prompt() {
    let args = pi_args("openai/x", "s-1", "fix it");
    assert_eq!(
        args,
        vec![
            "--print".to_string(),
            "--model".to_string(),
            "openai/x".to_string(),
            "--session-id".to_string(),
            "s-1".to_string(),
            "--no-context-files".to_string(),
            "--system-prompt".to_string(),
            SYSTEM_PROMPT.to_string(),
            "fix it".to_string(),
        ]
    );
}

#[test]
fn agent_outcome_success_and_failure() {
    assert_eq!(pi_outcome(true, Some(0), "готово".as_bytes(), b"").unwrap(), "готово");
    match pi_outcome(false, Some(2), b"", b"bad\xFF") {
        Err(PiAgentError::NonZeroExit { code, stderr }) => {
            assert_eq!(code, Some(2));
            assert_eq!(stderr, "bad\u{FFFD}");
        }
        other => panic!("unexpected: {other:?}"),
    }
}

#[test]
fn agent_error_messages() {
    assert_eq!(
        PiAgentError::Spawn("no such file".to_string()).message(),
        "не вдалось запустити `pi`: no such file"
    );
    assert_eq!(
        PiAgentError::NonZeroExit { code: Some(1), stderr: "boom".to_string() }.message(),
        "pi завершився з кодом Some(1): boom"
    );
    assert_eq!(
        PiAgentError::NonZeroExit { code: None, stderr: String::new() }.message(),
        "pi завершився з кодом None: "
    );
    assert_eq!(
        PiAgentError::NonZeroExit { code: Some(-9), stderr: "x".to_string() }.message(),
        "pi завершився з кодом Some(-9): x"
    );
    assert_eq!(
        PiAgentError::NonZeroExit { code: Some(i32::MIN), stderr: "x".to_string() }.message(),
        "pi завершився з кодом Some(-2147483648): x"
    );
}

#[test]
fn choices_of_one_key_keep_their_order_among_others() {
    let options = pi_agent_models_from_env(vars(&[
        ("N_Z_MODEL", "z"),
        ("N_A_MODEL", "a1"),
        ("N_M_MODEL", "m"),
        ("N_A_MODEL", "a2"),
        ("N_A_MODEL", "a3"),
    ]));
    let models: Vec<&str> = options.iter().map(|o| o.model.as_str()).collect();
    assert_eq!(models, vec!["a1", "a2", "a3", "m", "z"]);
}
