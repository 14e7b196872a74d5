use myllm_proxy::chains::{
    analyses_index_path, analysis_document, analysis_index_records, analysis_path,
    analysis_record, analysis_summary, bodies_dir, body_captures, chain_steps, chains_list,
    chrono_like_now_ms, daily_file_date, daily_trace_names, explicit_trace_path, insights_dir,
    legacy_trace_path, merge_trace_chunks, millis_u64, remaining_budget, safe_component, tail_records,
    tail_budgets, tail_start, trace_dir, trace_records, trace_sources, TRACE_TAIL_BYTES,
};
use myllm_proxy::json::Json;

fn s(text: &str) -> Json {
    Json::Str(text.to_string())
}

fn marker(v: &Json) -> Option<String> {
    v.get("marker").and_then(|m| m.as_str()).cloned()
}

fn strings(items: &[&str]) -> Vec<String> {
    items.iter().map(|x| x.to_string()).collect()
}

#[test]
fn daily_file_date_accepts_only_the_exact_writer_shape() {
    assert_eq!(daily_file_date("llm-trace-2026-08-20.jsonl"), Some("2026-08-20"));
    assert_eq!(daily_file_date("llm-trace.jsonl"), None);
    assert_eq!(daily_file_date("llm-trace-2026-08-20.json"), None);
    assert_eq!(daily_file_date("llm-trace-20260820.jsonl"), None);
    assert_eq!(daily_file_date("llm-trace-2026-08-2X.jsonl"), None);
    assert_eq!(daily_file_date("calibration.json"), None);
}

#[test]
fn daily_names_are_chronological_and_skip_foreign_names() {
    let names = daily_trace_names(strings(&[
        "llm-trace-2026-08-20.jsonl",
        "llm-trace-2026-08-18.jsonl",
        "llm-trace-2026-08-19.jsonl",
        "not-a-trace.txt",
        "llm-trace.jsonl",
    ]));
    assert_eq!(
        names,
        strings(&[
            "llm-trace-2026-08-18.jsonl",
            "llm-trace-2026-08-19.jsonl",
            "llm-trace-2026-08-20.jsonl",
        ])
    );
    assert!(daily_trace_names(Vec::new()).is_empty());
}

#[test]
fn trace_records_skip_garbage_lines() {
    let content = [
        "{\"kind\":\"one-shot\",\"chainId\":\"c1\",\"chainStep\":1}\n",
        "не json\n",
        "{\"kind\":\"chain\",\"chainId\":\"c1\",\"outcome\":\"success\",\"невідоме\":true}\n",
        "{\"обірваний",
    ]
    .concat();
    let records = trace_records(content.as_bytes(), false);
    assert_eq!(records.len(), 2);
    assert_eq!(records[1].get("kind"), Some(&s("chain")));
    assert!(trace_records(b"", false).is_empty());
}

#[test]
fn trace_records_drop_first_line_of_a_mid_file_tail() {
    let content = "ail\":1}\n{\"a\":2}\n  {\"a\":3}  \r\n";
    let records = trace_records(content.as_bytes(), true);
    assert_eq!(records.len(), 2);
    let whole = "{\"a\":1}\n{\"a\":2}\n";
    assert_eq!(trace_records(whole.as_bytes(), true).len(), 1);
    assert_eq!(trace_records(whole.as_bytes(), false).len(), 2);
}

#[test]
fn tail_start_and_budget() {
    assert_eq!(tail_start(1000, 1024), 0);
    assert_eq!(tail_start(5000, 1024), 3976);
    assert_eq!(remaining_budget(200, 176), 24);
    assert_eq!(remaining_budget(24, 176), 0);
    assert_eq!(TRACE_TAIL_BYTES, 8 * 1024 * 1024);
}

#[test]
fn budget_goes_to_newest_sources_first() {
    // Lengths newest first: the newest file fits, the older gets what is left.
    assert_eq!(tail_budgets(&vec![176, 176], 200), vec![200, 24]);
    assert_eq!(tail_budgets(&vec![300, 50, 10], 200), vec![200]);
    assert_eq!(tail_budgets(&vec![0, 5], 10), vec![10, 10]);
    assert!(tail_budgets(&vec![1, 2], 0).is_empty());
    // The older file read with a 24-byte tail starts mid-file: its only line is
    // dropped, so under the cap only the newer source survives.
    let filler = "x".repeat(150);
    let old = format!("{{\"marker\":\"old\",\"pad\":\"{filler}\"}}\n");
    let new = format!("{{\"marker\":\"new\",\"pad\":\"{filler}\"}}\n");
    let budgets = tail_budgets(&vec![new.len() as u64, old.len() as u64], 200);
    let new_chunk = trace_records(new.as_bytes(), tail_start(new.len() as u64, budgets[0]) > 0);
    let start = tail_start(old.len() as u64, budgets[1]) as usize;
    let old_chunk = trace_records(&old.as_bytes()[start..], start > 0);
    let merged = merge_trace_chunks(vec![new_chunk, old_chunk]);
    let markers: Vec<String> = merged.iter().filter_map(marker).collect();
    assert_eq!(markers, vec!["new".to_string()]);
}

#[test]
fn reads_both_stores_in_chronological_order() {
    let legacy = trace_records(b"{\"kind\":\"one-shot\",\"chainId\":\"js\",\"marker\":\"legacy\"}\n", false);
    let day19 = trace_records(b"{\"kind\":\"fix\",\"chainId\":\"rs\",\"marker\":\"day-19\"}\n", false);
    let day20 = trace_records(b"{\"kind\":\"chain\",\"chainId\":\"rs\",\"marker\":\"day-20\"}\n", false);
    // Chunks come newest source first.
    let records = merge_trace_chunks(vec![day20, day19, legacy]);
    let markers: Vec<String> = records.iter().filter_map(marker).collect();
    assert_eq!(markers, strings(&["legacy", "day-19", "day-20"]));
    assert_eq!(chains_list(&records, None).len(), 1);
}

#[test]
fn trace_sources_explicit_overrides_and_legacy_first() {
    let daily = strings(&["/d/llm-trace-2026-08-19.jsonl"]);
    assert_eq!(
        trace_sources(Some("/x.jsonl".to_string()), "/h/legacy".to_string(), true, daily.clone()),
        strings(&["/x.jsonl"])
    );
    assert_eq!(
        trace_sources(None, "/h/legacy".to_string(), true, daily.clone()),
        strings(&["/h/legacy", "/d/llm-trace-2026-08-19.jsonl"])
    );
    assert_eq!(trace_sources(None, "/h/legacy".to_string(), false, daily.clone()), daily);
}

#[test]
fn trace_locations() {
    assert_eq!(explicit_trace_path(Some(String::new()), Some("/c".to_string())), Some("/c".to_string()));
    assert_eq!(explicit_trace_path(Some("/a".to_string()), Some("/c".to_string())), Some("/a".to_string()));
    assert_eq!(explicit_trace_path(None, None), None);
    assert_eq!(legacy_trace_path("/home/u"), "/home/u/.n-cursor/llm-trace.jsonl");
    assert_eq!(trace_dir(None, "/home/u"), "/home/u/.n-llm-lib");
    assert_eq!(trace_dir(Some("/t".to_string()), "/home/u"), "/t");
    assert_eq!(trace_dir(Some(String::new()), "/"), "/.n-llm-lib");
    assert_eq!(bodies_dir(None, "/home/u"), "/home/u/.n-cursor/llm-bodies");
    assert_eq!(insights_dir("/home/u"), "/home/u/.n-cursor/insights");
    assert_eq!(analyses_index_path("/app"), "/app/chain-analyses.jsonl");
}

#[test]
fn chains_list_keeps_latest_chains() {
    let mut records = Vec::new();
    for i in 0..5 {
        records.push(Json::Object(vec![
            ("kind".to_string(), s("chain")),
            ("i".to_string(), Json::Number(i.to_string())),
        ]));
        records.push(Json::Object(vec![("kind".to_string(), s("one-shot"))]));
    }
    let latest = chains_list(&records, Some(2));
    assert_eq!(latest.len(), 2);
    assert_eq!(latest[0].get("i"), Some(&Json::Number("3".to_string())));
    assert_eq!(latest[1].get("i"), Some(&Json::Number("4".to_string())));
    assert_eq!(chains_list(&records, None).len(), 5);
    assert!(chains_list(&records, Some(0)).is_empty());
}

#[test]
fn chain_steps_are_per_call_records_of_the_chain() {
    let rec = |id: &str, kind: &str| {
        Json::Object(vec![("chainId".to_string(), s(id)), ("kind".to_string(), s(kind))])
    };
    let records = vec![rec("a", "fix"), rec("b", "fix"), rec("a", "chain"), rec("a", "review")];
    let steps = chain_steps(&records, "a");
    assert_eq!(steps, vec![rec("a", "fix"), rec("a", "review")]);
    assert!(chain_steps(&records, "zzz").is_empty());
}

#[test]
fn read_body_capture_sorts_by_chain_step_and_skips_garbage() {
    let texts = strings(&[
        r#"{"chainStep":2,"prompt":"друге"}"#,
        r#"{"chainStep":1,"prompt":"перше"}"#,
        "не json",
        r#"{"prompt":"без кроку"}"#,
    ]);
    let bodies = body_captures(&texts);
    let prompts: Vec<String> = bodies
        .iter()
        .map(|b| b.get("prompt").unwrap().as_str().unwrap().clone())
        .collect();
    assert_eq!(prompts, strings(&["без кроку", "перше", "друге"]));
    assert!(body_captures(&Vec::new()).is_empty());
}

#[test]
fn safe_components_and_analysis_path() {
    assert_eq!(safe_component("fix/concern x"), "fix-concern-x");
    assert_eq!(safe_component("ab_C-9"), "ab_C-9");
    assert_eq!(safe_component("ї.."), "---");
    assert_eq!(analysis_path("/h/.n-cursor/insights", "fix concern", "c/1"), "/h/.n-cursor/insights/fix-concern/c-1.md");
}

#[test]
fn analysis_document_frontmatter() {
    let doc = analysis_document(
        "c1",
        "fix",
        &Some("u".to_string()),
        &None,
        &Some("repo".to_string()),
        &None,
        42,
        "# body",
    );
    assert_eq!(
        doc,
        "---\nchainId: c1\nkind: fix\nunit: u\ncwd: \ntargetRepo: repo\nmodel: \nts: 42\n---\n\n# body"
    );
}

#[test]
fn analysis_summary_and_record() {
    let md = "я".repeat(250);
    assert_eq!(analysis_summary(&md).chars().count(), 200);
    assert_eq!(analysis_summary("short"), "short");
    let r = analysis_record("c1", "fix", &None, &Some("/w".to_string()), &None, &None, "/p.md", 7, "sum");
    assert_eq!(r.get("chainId"), Some(&s("c1")));
    assert_eq!(r.get("unit"), Some(&Json::Null));
    assert_eq!(r.get("cwd"), Some(&s("/w")));
    assert_eq!(r.get("ts"), Some(&Json::Number("7".to_string())));
    assert_eq!(r.get("summary"), Some(&s("sum")));
}

#[test]
fn analysis_index_reads_trimmed_json_lines() {
    let text = "{\"chainId\":\"a\"}\n  {\"chainId\":\"b\"}  \nnot json\n";
    let records = analysis_index_records(text);
    assert_eq!(records.len(), 2);
    assert_eq!(records[1].get("chainId"), Some(&s("b")));
}

#[test]
fn clock_reading_and_millisecond_cut() {
    assert!(chrono_like_now_ms() > 1_600_000_000_000);
    assert_eq!(millis_u64(5), 5);
    assert_eq!(millis_u64((1u128 << 64) + 3), 3);
}

#[test]
fn tail_records_drop_the_cut_line_only_mid_file() {
    let content = "{\"a\":1}\n{\"a\":2}\n";
    // The whole file fits the tail.
    assert_eq!(tail_records(content.as_bytes(), content.len() as u64, 1024).len(), 2);
    // An 8-byte tail starts mid-file: its first line is taken as cut and
    // dropped, even though here it is whole.
    let tail = &content.as_bytes()[content.len() - 8..];
    assert!(tail_records(tail, content.len() as u64, 8).is_empty());
    // A 9-byte tail's first line is the empty rest of the first record.
    let tail = &content.as_bytes()[content.len() - 9..];
    assert_eq!(tail_records(tail, content.len() as u64, 9).len(), 1);
}
