use artificiency_core::dashboard::{parse_bucket, range};
use artificiency_core::json::{JsonMember, JsonNumber, JsonValue, NumberKind};
use artificiency_core::plugins::{owner_label, parse_roster, removed_from, removed_plugins, roster_json, roster_of, timeline};
/// The plain tree of a JSON text, node for node.
fn parse_json(text: &str) -> Option<JsonValue> {
    serde_json::from_str::<serde_json::Value>(text).ok().map(tree)
}

fn tree(v: serde_json::Value) -> JsonValue {
    match v {
        serde_json::Value::Null => JsonValue::Null,
        serde_json::Value::Bool(b) => JsonValue::Bool(b),
        serde_json::Value::Number(n) => {
            let kind = match (n.as_u64(), n.as_i64()) {
                (Some(u), _) => NumberKind::PosInt(u),
                (None, Some(i)) => NumberKind::NegInt(i),
                (None, None) => NumberKind::Float,
            };
            JsonValue::Number(JsonNumber { kind, text: n.to_string() })
        }
        serde_json::Value::String(s) => JsonValue::Str(s),
        serde_json::Value::Array(a) => JsonValue::Array(a.into_iter().map(tree).collect()),
        serde_json::Value::Object(o) => {
            JsonValue::Object(o.into_iter().map(|(key, x)| JsonMember { key, value: tree(x) }).collect())
        }
    }
}


use artificiency_core::store::{Bucket, Store};

const ROSTER: &str = r#"{"version":2,"plugins":{
  "zeta@market":[{"scope":"user","installedAt":"2026-07-10T09:00:00Z"},{"scope":"project","installedAt":"2026-07-01T09:00:00Z"}],
  "alpha@market":[{"scope":"user","installedAt":"2026-07-05T09:00:00Z"}],
  "broken@market":[{"scope":"user"}],
  "odd@market":{"installedAt":"2026-07-02T00:00:00Z"}
}}"#;

fn ids(roster: &[(String, String)]) -> Vec<String> {
    roster.iter().map(|(id, _)| id.clone()).collect()
}

#[test]
fn roster_takes_earliest_install_per_plugin() {
    let r = parse_roster(ROSTER);
    assert_eq!(
        r,
        vec![
            ("alpha@market".to_string(), "2026-07-05T09:00:00Z".to_string()),
            ("zeta@market".to_string(), "2026-07-01T09:00:00Z".to_string()),
        ]
    );
    assert!(parse_roster("not json").is_empty());
    assert!(parse_roster(r#"{"plugins":[]}"#).is_empty());
}

#[test]
fn removals_are_diffed_against_the_last_roster() {
    let current = vec!["a@m".to_string(), "c@m".to_string()];
    assert_eq!(removed_plugins(r#"["a@m","b@m","c@m","d@m"]"#, &current), vec!["b@m", "d@m"]);
    assert!(removed_plugins("garbage", &current).is_empty());
    assert_eq!(roster_json(&current), r#"["a@m","c@m"]"#);
    assert_eq!(roster_json(&vec![]), "[]");
    assert_eq!(roster_json(&vec!["q\"x\n".to_string()]), r#"["q\"x\n"]"#);
    // What is stored reads back as the same list.
    let stored = roster_json(&vec!["a@m".to_string(), "b\\m".to_string()]);
    assert_eq!(removed_plugins(&stored, &vec!["a@m".to_string()]), vec!["b\\m"]);
    assert!(removed_plugins(r#"["a@m",1]"#, &current).is_empty());
}

#[test]
fn timeline_is_oldest_first() {
    let roster = vec![
        ("b@m".to_string(), "2026-07-03T00:00:00Z".to_string()),
        ("a@m".to_string(), "2026-07-01T00:00:00Z".to_string()),
    ];
    let removed = vec![("2026-07-02T00:00:00Z".to_string(), "c@m".to_string())];
    let t = timeline(roster, removed);
    let got: Vec<(&str, &str)> = t.iter().map(|e| (e.plugin.as_str(), e.kind.as_str())).collect();
    assert_eq!(got, vec![("a@m", "installed"), ("c@m", "removed"), ("b@m", "installed")]);
}

#[test]
fn removal_is_recorded_once_when_detected() {
    let mut store = Store::new();
    let roster = parse_roster(ROSTER);
    let first = store.plugin_events(parse_roster(ROSTER), "2026-07-20T00:00:00Z");
    assert_eq!(first.len(), 2);
    assert!(store.markers.is_empty());
    assert_eq!(store.kv_get("plugin_roster_seen").as_deref(), Some(r#"["alpha@market","zeta@market"]"#));

    // zeta disappears.
    let shrunk: Vec<(String, String)> = roster.into_iter().filter(|(id, _)| id != "zeta@market").collect();
    assert_eq!(ids(&shrunk), vec!["alpha@market"]);
    let second = store.plugin_events(shrunk, "2026-07-21T00:00:00Z");
    let got: Vec<(&str, &str, &str)> =
        second.iter().map(|e| (e.plugin.as_str(), e.kind.as_str(), e.ts.as_str())).collect();
    assert_eq!(
        got,
        vec![
            ("alpha@market", "installed", "2026-07-05T09:00:00Z"),
            ("zeta@market", "removed", "2026-07-21T00:00:00Z"),
        ]
    );
    // Seen again: no second removal.
    let third = store.plugin_events(parse_roster(r#"{"plugins":{"alpha@market":[{"installedAt":"2026-07-05T09:00:00Z"}]}}"#), "2026-07-22T00:00:00Z");
    assert_eq!(third.len(), 2);
    assert_eq!(store.markers.len(), 1);
}

#[test]
fn hook_owner_labels() {
    assert_eq!(owner_label(None), "unknown");
    assert_eq!(owner_label(Some(&vec!["p@m".to_string()])), "p@m");
    assert_eq!(owner_label(Some(&vec!["p@m".to_string(), "q@m".to_string()])), "shared");
}

#[test]
fn request_parameters() {
    assert_eq!(range(0), None);
    assert_eq!(range(-5), None);
    assert_eq!(range(24), Some(24));
    assert_eq!(parse_bucket("minute"), Bucket::Minute);
    assert_eq!(parse_bucket("hour"), Bucket::Hour);
    assert_eq!(parse_bucket("day"), Bucket::Day);
    assert_eq!(parse_bucket("fortnight"), Bucket::Day);
    assert_eq!(Bucket::Hour.label("2026-07-13T15:42:07"), "2026-07-13T15:00");
    assert_eq!(Bucket::Minute.label("2026-07-13T15:42:07"), "2026-07-13T15:42");
    assert_eq!(Bucket::Day.label("2026-07-13T15:42:07"), "2026-07-13");
}

#[test]
fn parsed_roster_and_removals() {
    let tree = parse_json(ROSTER).unwrap();
    assert_eq!(roster_of(&tree), parse_roster(ROSTER));
    let prev = parse_json(r#"["a@m","b@m"]"#).unwrap();
    assert_eq!(removed_from(&prev, &vec!["b@m".to_string()]), vec!["a@m"]);
    assert!(removed_from(&JsonValue::Null, &vec![]).is_empty());
}
