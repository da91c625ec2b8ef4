use artificiency_core::collectors::claude_code::{
    complete_lines, hook_key, hook_script, parse_chunk, parse_line, record_key,
    resume_offset, Parsed,
};
use artificiency_core::collectors::claude_code::parse_record;
use artificiency_core::collectors::IngestReport;
use artificiency_core::json::{JsonMember, JsonNumber, JsonValue, NumberKind};
/// The plain tree of a JSON text, node for node.
fn parse_json(text: &str) -> Option<JsonValue> {
    serde_json::from_str::<serde_json::Value>(text).ok().map(tree)
}

fn tree(v: serde_json::Value) -> JsonValue {
    match v {
        serde_json::Value::Null => JsonValue::Null,
        serde_json::Value::Bool(b) => JsonValue::Bool(b),
        serde_json::Value::Number(n) => {
            let kind = match (n.as_u64(), n.as_i64()) {
                (Some(u), _) => NumberKind::PosInt(u),
                (None, Some(i)) => NumberKind::NegInt(i),
                (None, None) => NumberKind::Float,
            };
            JsonValue::Number(JsonNumber { kind, text: n.to_string() })
        }
        serde_json::Value::String(s) => JsonValue::Str(s),
        serde_json::Value::Array(a) => JsonValue::Array(a.into_iter().map(tree).collect()),
        serde_json::Value::Object(o) => {
            JsonValue::Object(o.into_iter().map(|(key, x)| JsonMember { key, value: tree(x) }).collect())
        }
    }
}



// Mirrors the real record shape (fields that are not read are elided).
const ASSISTANT_LINE: &str = r#"{"type":"assistant","uuid":"aaa-1","sessionId":"s-1","timestamp":"2026-07-13T10:00:00.000Z","cwd":"/home/u/proj","isSidechain":false,"message":{"model":"model-opus-4-8","role":"assistant","usage":{"input_tokens":5733,"output_tokens":475,"cache_read_input_tokens":10319,"cache_creation_input_tokens":2590,"cache_creation":{"ephemeral_1h_input_tokens":2590,"ephemeral_5m_input_tokens":0}}}}"#;
const USER_LINE: &str =
    r#"{"type":"user","uuid":"bbb-1","sessionId":"s-1","message":{"role":"user","content":"hi"}}"#;
const HOUSEKEEPING_LINE: &str = r#"{"type":"file-history-snapshot","messageId":"m"}"#;

const TOOL_USE_LINE: &str = r#"{"type":"assistant","uuid":"ccc-1","sessionId":"s-1","timestamp":"2026-07-13T10:02:00.000Z","message":{"model":"model-opus-4-8","role":"assistant","usage":{"input_tokens":1,"output_tokens":1},"content":[{"type":"text","text":"reading"},{"type":"tool_use","id":"toolu_1","name":"Read","input":{"file_path":"/repo/main.rs"}}]}}"#;
const TOOL_RESULT_LINE: &str = r#"{"type":"user","uuid":"ddd-1","sessionId":"s-1","timestamp":"2026-07-13T10:02:01.000Z","message":{"role":"user","content":[{"type":"tool_result","tool_use_id":"toolu_1","content":"0123456789"}]}}"#;
const SYNTHETIC_LINE: &str = r#"{"type":"assistant","uuid":"eee-1","sessionId":"s-1","timestamp":"2026-07-13T10:03:00.000Z","message":{"model":"<synthetic>","role":"assistant","usage":{"input_tokens":0,"output_tokens":0}}}"#;

#[test]
fn parses_assistant_usage() {
    let t = parse_line(ASSISTANT_LINE).turn.expect("assistant line should parse");
    assert_eq!(t.session_id, "s-1");
    assert_eq!(t.tokens_in, 5733);
    assert_eq!(t.tokens_out, 475);
    assert_eq!(t.cache_read, 10319);
    assert_eq!(t.cache_write, 2590);
    assert_eq!(t.model.as_deref(), Some("model-opus-4-8"));
    assert!(!t.is_sidechain);
}

#[test]
fn parses_tool_use_and_result() {
    let p = parse_line(TOOL_USE_LINE);
    assert!(p.turn.is_some()); // same record carries usage AND the tool call
    assert_eq!(p.tool_uses.len(), 1);
    assert_eq!(p.tool_uses[0].tool, "Read");
    assert_eq!(p.tool_uses[0].target.as_deref(), Some("/repo/main.rs"));

    let r = parse_line(TOOL_RESULT_LINE);
    assert!(r.turn.is_none());
    assert_eq!(r.tool_results.len(), 1);
    assert_eq!(r.tool_results[0].chars, 10);
}

#[test]
fn skips_non_assistant_synthetic_and_garbage() {
    let empty =
        |p: &Parsed| p.turn.is_none() && p.tool_uses.is_empty() && p.tool_results.is_empty();
    assert!(empty(&parse_line(USER_LINE)));
    assert!(empty(&parse_line(HOUSEKEEPING_LINE)));
    assert!(empty(&parse_line(SYNTHETIC_LINE)));
    assert!(empty(&parse_line("not json at all")));
    assert!(empty(&parse_line("")));
}

#[test]
fn tool_result_size_of_structured_content_is_its_json_length() {
    let line = r#"{"type":"user","sessionId":"s","timestamp":"t","message":{"content":[{"type":"tool_result","tool_use_id":"x","content":[{"type":"text","text":"a\"b"}]}]}}"#;
    let p = parse_line(line);
    assert_eq!(p.tool_results.len(), 1);
    // [{"text":"a\"b","type":"text"}] with keys in map order
    assert_eq!(p.tool_results[0].chars, r#"[{"text":"a\"b","type":"text"}]"#.len() as i64);
    // Byte length of a multi-byte string.
    let line2 = r#"{"type":"user","sessionId":"s","timestamp":"t","message":{"content":[{"type":"tool_result","tool_use_id":"y","content":"héllo"}]}}"#;
    assert_eq!(parse_line(line2).tool_results[0].chars, 6);
    // Missing content counts zero.
    let line3 = r#"{"type":"user","sessionId":"s","timestamp":"t","message":{"content":[{"type":"tool_result","tool_use_id":"z"}]}}"#;
    assert_eq!(parse_line(line3).tool_results[0].chars, 0);
}

#[test]
fn system_records_give_hook_calls() {
    let line = r#"  {"type":"system","uuid":"u-9","sessionId":"s-2","timestamp":"2026-07-13T11:00:00Z","hookInfos":[{"command":"node \"${CLAUDE_PLUGIN_ROOT}/hooks/guard.js\" --x","durationMs":12},{"nocommand":true},{"command":"python3 /opt/tools/check.py","durationMs":"7"},{"command":"   "}]}  "#;
    let p = parse_line(line);
    assert_eq!(p.hook_calls.len(), 3);
    assert_eq!(p.hook_calls[0].script, "guard.js");
    assert_eq!(p.hook_calls[0].duration_ms, Some(12));
    assert_eq!(p.hook_calls[0].idx, 0);
    assert_eq!(p.hook_calls[1].script, "/opt/tools/check.py");
    assert_eq!(p.hook_calls[1].duration_ms, Some(7));
    assert_eq!(p.hook_calls[1].idx, 2);
    assert_eq!(p.hook_calls[1].uuid, "u-9");
    assert_eq!(p.hook_calls[2].script, "   ");
    assert_eq!(p.hook_calls[2].duration_ms, None);
}

#[test]
fn hook_script_names() {
    assert_eq!(hook_script("${CLAUDE_PLUGIN_ROOT}/hooks/a.sh"), "a.sh");
    assert_eq!(hook_script("bash '${CLAUDE_PLUGIN_ROOT}/x/y/z.py' arg"), "z.py");
    assert_eq!(hook_script("${CLAUDE_PLUGIN_ROOT}/one.sh ${CLAUDE_PLUGIN_ROOT}/two.sh"), "one.sh");
    assert_eq!(hook_script("run it"), "it");
    let long = "x".repeat(50);
    assert_eq!(hook_script(&long).len(), 40);
    assert_eq!(hook_script(""), "");
}

#[test]
fn targets_prefer_file_path_and_cap_length() {
    let line = format!(
        r#"{{"type":"assistant","sessionId":"s","timestamp":"t","message":{{"model":"m","content":[{{"type":"tool_use","id":"1","name":"Bash","input":{{"command":"{}","url":"u"}}}},{{"type":"tool_use","id":"2","name":"X","input":{{"path":5,"query":"q"}}}},{{"type":"tool_use","name":"NoId"}}]}}}}"#,
        "c".repeat(200)
    );
    let p = parse_line(&line);
    assert!(p.turn.is_none()); // no usage
    assert_eq!(p.tool_uses.len(), 2);
    assert_eq!(p.tool_uses[0].target.as_ref().unwrap().chars().count(), 160);
    assert_eq!(p.tool_uses[1].target.as_deref(), Some("q"));
    assert_eq!(p.tool_uses[1].session_id, "s");
}

#[test]
fn turn_becomes_a_keyed_event() {
    let t = parse_line(ASSISTANT_LINE).turn.unwrap();
    let ev = t.into_event();
    assert_eq!(ev.dedup_key.as_deref(), Some("code-assistant:aaa-1"));
    assert_eq!(ev.tokens_in, 5733);
    assert!(ev.cost.is_none());
    assert_eq!(record_key("toolu_1"), "code-assistant:toolu_1");
    assert_eq!(hook_key("u", 12), "code-assistant:hook:u:12");
}

#[test]
fn chunks_split_into_complete_lines() {
    let buf = b"a\nbc\npartial".to_vec();
    let (lines, consumed) = complete_lines(&buf);
    assert_eq!(lines, vec![b"a\n".to_vec(), b"bc\n".to_vec()]);
    assert_eq!(consumed, 5);
    let (none, zero) = complete_lines(&b"no newline".to_vec());
    assert!(none.is_empty());
    assert_eq!(zero, 0);
}

#[test]
fn invalid_utf8_in_a_line_is_replaced() {
    let mut line = br#"{"type":"assistant","uuid":"u-1","sessionId":"s"#.to_vec();
    line.push(0xff);
    line.extend_from_slice(br#"1","timestamp":"2026-07-13T10:00:00Z","message":{"usage":{"input_tokens":1,"output_tokens":1}}}"#);
    line.push(b'\n');
    let batch = parse_chunk(&line);
    let t = batch.records[0].turn.as_ref().unwrap();
    assert_eq!(t.session_id, "s\u{fffd}1");
}

#[test]
fn resume_offsets() {
    assert_eq!(resume_offset(0, 100), Some(0));
    assert_eq!(resume_offset(40, 100), Some(40));
    assert_eq!(resume_offset(100, 100), None);
    // truncated or replaced file: start over
    assert_eq!(resume_offset(200, 100), Some(0));
    assert_eq!(resume_offset(5, 0), None);
}

#[test]
fn chunk_parsing_and_report_counting() {
    let text = format!("{USER_LINE}\n{ASSISTANT_LINE}\n{{\"type\":\"assistant\",\"note\":\"par");
    let batch = parse_chunk(&text.as_bytes().to_vec());
    assert_eq!(batch.records.len(), 2);
    assert_eq!(batch.consumed, USER_LINE.len() + ASSISTANT_LINE.len() + 2);
    let mut report = IngestReport::default();
    for p in &batch.records {
        report.count_line(p, p.turn.is_some());
    }
    assert_eq!(report.events_added, 1);
    assert_eq!(report.lines_skipped, 1);
}

#[test]
fn parsed_record_gives_what_the_line_gives() {
    let tree = parse_json(TOOL_USE_LINE).unwrap();
    let p = parse_record(&tree);
    assert_eq!(p.turn.unwrap().tokens_in, 1);
    assert_eq!(p.tool_uses[0].id, "toolu_1");
    assert!(parse_record(&JsonValue::Null).is_empty());
}
