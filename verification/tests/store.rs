use artificiency_core::collectors::claude_code::{resume_offset, Turn};
use artificiency_core::collectors::limits::UsageLimit;
use artificiency_core::collectors::IngestReport;
use artificiency_core::pricing::{cost_of, COST_UNITS_PER_USD};
use artificiency_core::store::{Bucket, Granularity, NewEvent, Store};
use artificiency_core::waste::{dup_totals, rank_dup_reads, DupTotals};

const ASSISTANT_LINE: &str = r#"{"type":"assistant","uuid":"aaa-1","sessionId":"s-1","timestamp":"2026-07-13T10:00:00.000Z","cwd":"/home/u/proj","isSidechain":false,"message":{"model":"model-opus-4-8","role":"assistant","usage":{"input_tokens":5733,"output_tokens":475,"cache_read_input_tokens":10319,"cache_creation_input_tokens":2590,"cache_creation":{"ephemeral_1h_input_tokens":2590,"ephemeral_5m_input_tokens":0}}}}"#;
const USER_LINE: &str =
    r#"{"type":"user","uuid":"bbb-1","sessionId":"s-1","message":{"role":"user","content":"hi"}}"#;

/// The wasted-volume estimate of a file's repeated reads: each session's
/// repeats at that session's average result size, truncated.
fn wasted_of(t: &DupTotals) -> i64 {
    let mut w = 0.0f64;
    for (reads, chars) in &t.parts {
        let avg = *chars as f64 / *reads as f64;
        w += (*reads as f64 - 1.0) * avg;
    }
    w as i64
}

fn event(session: &str, ts: &str, model: Option<&str>, tin: i64, tout: i64, key: &str) -> NewEvent {
    NewEvent {
        session_id: session.to_string(),
        ts: ts.to_string(),
        granularity: Granularity::Turn,
        model: model.map(|m| m.to_string()),
        tokens_in: tin,
        tokens_out: tout,
        cache_read: 0,
        cache_write: 0,
        cost: None,
        dedup_key: Some(key.to_string()),
        meta: None,
    }
}

fn local_times(store: &Store) -> Vec<String> {
    store.events.iter().map(|e| e.ts.clone()).collect()
}

#[test]
fn usage_limits_cache_round_trips() {
    let mut store = Store::open_in_memory();
    assert!(store.cached_usage_limits().is_none()); // nothing yet
    let limits = vec![UsageLimit {
        kind: "session".into(),
        label: "Session".into(),
        percent: 77,
        severity: "warning".into(),
        resets_at: Some("2026-07-14T14:20:00Z".into()),
    }];
    store.cache_usage_limits(&limits);
    assert_eq!(store.cached_usage_limits().as_deref(), Some(limits.as_slice()));
    // A later successful fetch overwrites the cache.
    store.cache_usage_limits(&vec![]);
    assert_eq!(store.cached_usage_limits(), Some(vec![]));
}

#[test]
fn cached_limits_text_and_missing_reset() {
    let mut store = Store::open_in_memory();
    let limits = vec![UsageLimit {
        kind: "weekly".into(),
        label: "Weekly \"all\"".into(),
        percent: -3,
        severity: "normal".into(),
        resets_at: None,
    }];
    store.cache_usage_limits(&limits);
    assert_eq!(
        store.kv_get("usage_limits").as_deref(),
        Some(r#"[{"kind":"weekly","label":"Weekly \"all\"","percent":-3,"severity":"normal","resets_at":null}]"#)
    );
    assert_eq!(store.cached_usage_limits(), Some(limits));
    // Text that does not read as limits gives nothing.
    store.kv_set("usage_limits", r#"[{"kind":"x"}]"#);
    assert_eq!(store.cached_usage_limits(), None);
    store.kv_set("usage_limits", "not json");
    assert_eq!(store.cached_usage_limits(), None);
}

#[test]
fn waste_queries_find_duplicate_reads() {
    let mut store = Store::open_in_memory();
    // Same file read twice in one session, once in another.
    for (sess, id, chars) in [("s-1", "t1", 1000), ("s-1", "t2", 1000), ("s-2", "t3", 500)] {
        store.insert_tool_use(sess, "2026-07-13T10:00:00Z", "Read", Some("/repo/a.rs"), id);
        store.set_tool_result_chars(id, chars);
    }
    let groups = store.read_groups(None);
    let totals = dup_totals(&groups).unwrap();
    let wasted: Vec<i64> = totals.iter().map(wasted_of).collect();
    let dups = rank_dup_reads(&totals, &wasted, 10);
    assert_eq!(dups.len(), 1); // only s-1 has a duplicate
    assert_eq!(dups[0].target, "/repo/a.rs");
    assert_eq!(dups[0].reads, 2);
    assert_eq!(dups[0].extra, 1);
    assert_eq!(dups[0].wasted_chars, 1000);

    let all_wasted: i64 = {
        let mut w = 0.0f64;
        for g in &groups {
            w += (g.reads as f64 - 1.0) * (g.chars as f64 / g.reads as f64);
        }
        w as i64
    };
    let sum = store.waste_summary(None, all_wasted).unwrap();
    assert_eq!(sum.tool_calls, 3);
    assert_eq!(sum.extra_reads, 1);
    assert_eq!(sum.wasted_chars, 1000);
    assert_eq!(sum.biggest_chars, 1000);

    let stats = store.tool_stats(None).unwrap();
    assert_eq!(stats[0].tool, "Read");
    assert_eq!(stats[0].calls, 3);
    assert_eq!(stats[0].chars, 2500);
}

#[test]
fn ingest_is_incremental_and_idempotent() {
    let path = "/projects/p/s-1.jsonl";
    let mut file: Vec<u8> = Vec::new();
    file.extend_from_slice(format!("{USER_LINE}\n{ASSISTANT_LINE}\n").as_bytes());
    file.extend_from_slice(br#"{"type":"assistant","note":"par"#); // no trailing newline

    let mut store = Store::open_in_memory();
    let pass = |store: &mut Store, file: &Vec<u8>| -> IngestReport {
        let mut report = IngestReport::default();
        let stored = store.file_offset(path);
        if let Some(offset) = resume_offset(stored, file.len() as u64) {
            let buf = file[offset as usize..].to_vec();
            store.ingest_chunk(path, offset, &buf, &mut report);
        }
        report
    };
    let report = pass(&mut store, &file);
    assert_eq!(report.events_added, 1);
    assert_eq!(report.lines_skipped, 1); // the user line

    // Second pass: nothing new, partial line still pending.
    let report2 = pass(&mut store, &file);
    assert_eq!(report2.events_added, 0);

    // Complete the partial line with a second turn; only it is added.
    file.extend_from_slice(br#"tial","uuid":"aaa-2","sessionId":"s-1","timestamp":"2026-07-13T10:01:00.000Z","message":{"usage":{"input_tokens":10,"output_tokens":2}}}"#);
    file.push(b'\n');
    let report3 = pass(&mut store, &file);
    assert_eq!(report3.events_added, 1);
    assert_eq!(store.file_offset(path), file.len() as u64);

    let ov = store.overview(None).unwrap();
    assert_eq!(ov.turns, 2);
    assert_eq!(ov.tokens_in, 5743);
    assert_eq!(ov.sessions, 1);

    // All-time rollups over the ingested turns.
    let local = local_times(&store);
    let series = store.series(None, Bucket::Day, &local).unwrap();
    assert_eq!(series.len(), 1); // both turns fall on the same day
    assert_eq!(series[0].turns, 2);
    assert_eq!(series[0].tokens_out, 477);

    let models = store.by_model(None).unwrap();
    assert_eq!(models.len(), 2); // opus + the model-less second turn
    assert_eq!(models[0].model, "model-opus-4-8");
    assert_eq!(models[1].model, "unknown");

    // Range filtering: a range starting after the fixed timestamps is empty.
    let recent = store.overview(Some("2099-01-01T00:00:00")).unwrap();
    assert_eq!(recent.turns, 0);
    assert_eq!(recent.sessions, 0);

    // A full re-read from the start adds nothing.
    let mut again = IngestReport::default();
    store.ingest_chunk(path, 0, &file, &mut again);
    assert_eq!(again.events_added, 0);
    assert_eq!(store.events.len(), 2);
    assert_eq!(store.sessions.len(), 1);
    assert_eq!(store.sessions[0].started_at.as_deref(), Some("2026-07-13T10:00:00.000Z"));
    assert_eq!(store.sessions[0].project.as_deref(), Some("/home/u/proj"));
}

#[test]
fn kv_and_offsets_read_back_what_was_written() {
    let mut store = Store::new();
    assert_eq!(store.kv_get("a"), None);
    store.kv_set("a", "1");
    store.kv_set("b", "2");
    store.kv_set("a", "3");
    assert_eq!(store.kv_get("a").as_deref(), Some("3"));
    assert_eq!(store.kv_get("b").as_deref(), Some("2"));
    assert_eq!(store.file_offset("f"), 0);
    store.set_file_offset("f", 42);
    store.set_file_offset("g", 7);
    store.set_file_offset("f", 43);
    assert_eq!(store.file_offset("f"), 43);
    assert_eq!(store.file_offset("g"), 7);
}

#[test]
fn sessions_keep_earliest_start_and_first_project() {
    let mut store = Store::new();
    store.upsert_session("s", "p", None, Some("2026-07-13T10:00:00Z"));
    store.upsert_session("s", "p", Some("/a"), Some("2026-07-13T09:00:00Z"));
    store.upsert_session("s", "p", Some("/b"), Some("2026-07-13T11:00:00Z"));
    store.upsert_session("s", "p", None, None);
    assert_eq!(store.sessions.len(), 1);
    assert_eq!(store.sessions[0].project.as_deref(), Some("/a"));
    assert_eq!(store.sessions[0].started_at.as_deref(), Some("2026-07-13T09:00:00Z"));
}

#[test]
fn events_and_tool_calls_are_idempotent() {
    let mut store = Store::new();
    let ev = event("s", "2026-07-13T10:00:00Z", Some("m"), 1, 2, "k1");
    assert!(store.insert_event(&ev));
    assert!(!store.insert_event(&ev));
    assert_eq!(store.events.len(), 1);
    let mut unkeyed = event("s", "2026-07-13T10:00:00Z", None, 1, 2, "x");
    unkeyed.dedup_key = None;
    assert!(store.insert_event(&unkeyed));
    assert!(store.insert_event(&unkeyed));
    assert_eq!(store.events.len(), 3);
    assert!(store.insert_tool_use("s", "t", "Bash", None, "u1"));
    assert!(!store.insert_tool_use("s", "t", "Bash", None, "u1"));
    assert_eq!(store.tool_calls.len(), 1);
    assert!(store.insert_hook_call("s", "t", "x.sh", Some(5), "h1"));
    assert!(!store.insert_hook_call("s", "t", "x.sh", Some(5), "h1"));
    assert_eq!(store.hook_calls.len(), 1);
}

#[test]
fn migration_drops_placeholders_and_resets_offsets_once() {
    let mut store = Store::new();
    store.insert_event(&event("s", "2026-07-13T10:00:00Z", Some("<synthetic>"), 0, 0, "a"));
    store.insert_event(&event("s", "2026-07-13T10:01:00Z", Some("m"), 1, 1, "b"));
    store.set_file_offset("f", 10);
    store.migrate();
    assert_eq!(store.events.len(), 1);
    assert_eq!(store.events[0].model.as_deref(), Some("m"));
    assert_eq!(store.file_offset("f"), 0);
    // With tool calls present the offsets stay.
    store.set_file_offset("f", 10);
    store.insert_tool_use("s", "t", "Read", None, "u");
    store.migrate();
    assert_eq!(store.file_offset("f"), 10);
    assert_eq!(store.events.len(), 1);
    // Running the migrations again changes nothing.
    store.migrate();
    assert_eq!(store.file_offset("f"), 10);
    assert_eq!(store.events.len(), 1);
}

#[test]
fn rollups_group_rank_and_price() {
    let mut store = Store::new();
    store.insert_event(&event("s1", "2026-07-13T10:00:00Z", Some("model-haiku-4-5"), 1_000_000, 10, "a"));
    store.insert_event(&event("s1", "2026-07-13T11:30:00Z", Some("model-sonnet-4-5"), 0, 1_000_000, "b"));
    store.insert_event(&event("s2", "2026-07-14T09:00:00Z", Some("model-haiku-4-5"), 1_000_000, 20, "c"));
    let mut agg = event("s3", "2026-07-14T09:00:00Z", Some("model-haiku-4-5"), 5, 5, "d");
    agg.granularity = Granularity::Aggregate;
    store.insert_event(&agg);

    let models = store.by_model(None).unwrap();
    assert_eq!(models.len(), 2);
    assert_eq!(models[0].model, "model-sonnet-4-5"); // largest output first
    assert_eq!(models[0].cost, 15 * COST_UNITS_PER_USD);
    assert_eq!(models[1].model, "model-haiku-4-5");
    assert_eq!(models[1].turns, 2);
    assert_eq!(models[1].tokens_in, 2_000_000);
    assert_eq!(models[1].cost, cost_of(Some("model-haiku-4-5"), 2_000_000, 30, 0, 0));

    let ov = store.overview(None).unwrap();
    assert_eq!(ov.turns, 3);
    assert_eq!(ov.sessions, 2);
    assert_eq!(ov.first_ts.as_deref(), Some("2026-07-13T10:00:00Z"));
    assert_eq!(ov.last_ts.as_deref(), Some("2026-07-14T09:00:00Z"));
    assert_eq!(ov.cost, models[0].cost + models[1].cost);
    assert_eq!(ov.turns, models[0].turns + models[1].turns);
    assert_eq!(ov.tokens_in, models[0].tokens_in + models[1].tokens_in);
    assert_eq!(ov.tokens_out, models[0].tokens_out + models[1].tokens_out);

    let local = local_times(&store);
    let hours = store.series(None, Bucket::Hour, &local).unwrap();
    let keys: Vec<&str> = hours.iter().map(|b| b.bucket.as_str()).collect();
    assert_eq!(keys, vec!["2026-07-13T10:00", "2026-07-13T11:00", "2026-07-14T09:00"]);
    let days = store.series_sessions(None, Bucket::Day, &local).unwrap();
    assert_eq!(days.len(), 2);
    assert_eq!(days[0].bucket, "2026-07-13");
    assert_eq!(days[0].sessions, 1);
    let per_model = store.series_by_model(None, Bucket::Day, &local).unwrap();
    assert_eq!(per_model.len(), 3);
    assert_eq!(per_model[2].bucket, "2026-07-14");
    assert_eq!(per_model[2].model, "model-haiku-4-5");
    // Per bucket, the per-model rows add up to the series row.
    let days_series = store.series(None, Bucket::Day, &local).unwrap();
    for row in &days_series {
        let split: i64 = per_model.iter().filter(|m| m.bucket == row.bucket).map(|m| m.turns).sum();
        assert_eq!(split, row.turns);
    }
    assert_eq!(days_series[0].turns, 2);

    let later = store.overview(Some("2026-07-14T00:00:00Z")).unwrap();
    assert_eq!(later.turns, 1);
    assert_eq!(later.first_ts.as_deref(), Some("2026-07-14T09:00:00Z"));
    let none = store.overview(Some("2030-01-01")).unwrap();
    assert_eq!(none.turns, 0);
    assert_eq!(none.first_ts, None);
    assert_eq!(none.cost, 0);
}

#[test]
fn overflowing_totals_are_refused() {
    let mut store = Store::new();
    store.insert_event(&event("s", "2026-07-13T10:00:00Z", Some("m"), i64::MAX, 0, "a"));
    store.insert_event(&event("s", "2026-07-13T10:01:00Z", Some("m"), 1, 0, "b"));
    assert!(store.by_model(None).is_none());
    assert!(store.overview(None).is_none());
    // Counting sessions sums nothing.
    let local = local_times(&store);
    assert_eq!(store.series_sessions(None, Bucket::Minute, &local).unwrap().len(), 2);
}

#[test]
fn largest_results_and_limits() {
    let mut store = Store::new();
    for (i, c) in [5i64, 50, 20, 50].iter().enumerate() {
        let id = format!("k{i}");
        store.insert_tool_use("s", "2026-07-13T10:00:00Z", "Bash", None, &id);
        store.set_tool_result_chars(&id, *c);
    }
    store.insert_tool_use("s", "2026-07-13T10:00:00Z", "Read", Some("/x"), "unsized");
    let big = store.largest_results(None, 2);
    assert_eq!(big.len(), 2);
    assert_eq!(big[0].chars, 50);
    assert_eq!(big[1].chars, 50);
    let all = store.largest_results(None, -1);
    let sizes: Vec<i64> = all.iter().map(|b| b.chars).collect();
    assert_eq!(sizes, vec![50, 50, 20, 5]);
    assert!(store.largest_results(Some("2027-01-01"), 10).is_empty());
}

#[test]
fn hooks_markers_and_windows() {
    let mut store = Store::new();
    store.insert_hook_call("s", "2026-07-13T10:00:00Z", "a.sh", Some(10), "h1");
    store.insert_hook_call("s", "2026-07-13T10:00:01Z", "b.sh", Some(100), "h2");
    store.insert_hook_call("s", "2026-07-13T10:00:02Z", "a.sh", None, "h3");
    let stats = store.hook_stats(None).unwrap();
    assert_eq!(stats, vec![("b.sh".to_string(), 1, 100), ("a.sh".to_string(), 2, 10)]);

    store.record_marker("plugin_removed", "p@m", "2026-07-13T12:00:00Z");
    store.record_marker("other", "x", "2026-07-13T12:00:01Z");
    assert_eq!(store.markers("plugin_removed"), vec![("2026-07-13T12:00:00Z".to_string(), "p@m".to_string())]);

    store.insert_event(&event("s1", "2026-07-13T10:00:00Z", Some("model-opus-4-8"), 10, 1, "a"));
    store.insert_event(&event("s2", "2026-07-13T11:00:00Z", None, 20, 2, "b"));
    store.insert_event(&event("s1", "2026-07-13T12:00:00Z", None, 30, 3, "c"));
    let w = store.turns_in_window("2026-07-13T10:00:00Z", "2026-07-13T12:00:00Z");
    assert_eq!(w.len(), 2);
    assert_eq!(artificiency_core::activity::session_count(&w), 2);
    assert_eq!(artificiency_core::activity::metric_values(&w, "input"), vec![10, 20]);
    assert_eq!(artificiency_core::activity::metric_values(&w, "output"), vec![1, 2]);
    assert_eq!(
        artificiency_core::activity::metric_values(&w, "cost"),
        vec![cost_of(Some("model-opus-4-8"), 10, 1, 0, 0), 0]
    );
}

#[test]
fn turn_application_keeps_session_and_event() {
    let mut store = Store::new();
    let turn = Turn {
        session_id: "s".into(),
        ts: "2026-07-13T10:00:00Z".into(),
        model: Some("m".into()),
        tokens_in: 1,
        tokens_out: 2,
        cache_read: 3,
        cache_write: 4,
        is_sidechain: true,
        cwd: Some("/w".into()),
        uuid: "u".into(),
    };
    assert!(store.apply_turn(turn));
    assert_eq!(store.events[0].meta.as_deref(), Some(r#"{"sidechain":true}"#));
    assert_eq!(store.events[0].dedup_key.as_deref(), Some("code-assistant:u"));
    assert_eq!(store.sessions[0].provider, "code-assistant");
}
