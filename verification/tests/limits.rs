use artificiency_core::collectors::limits::{label_for, parse_limits, LegacyReading};
use artificiency_core::collectors::limits::limits_from_response;
use artificiency_core::json::{JsonMember, JsonNumber, JsonValue, NumberKind};

/// The plain tree of a JSON text, node for node.
fn parse_json(text: &str) -> Option<JsonValue> {
    serde_json::from_str::<serde_json::Value>(text).ok().map(tree)
}

fn tree(v: serde_json::Value) -> JsonValue {
    match v {
        serde_json::Value::Null => JsonValue::Null,
        serde_json::Value::Bool(b) => JsonValue::Bool(b),
        serde_json::Value::Number(n) => {
            let kind = match (n.as_u64(), n.as_i64()) {
                (Some(u), _) => NumberKind::PosInt(u),
                (None, Some(i)) => NumberKind::NegInt(i),
                (None, None) => NumberKind::Float,
            };
            JsonValue::Number(JsonNumber { kind, text: n.to_string() })
        }
        serde_json::Value::String(s) => JsonValue::Str(s),
        serde_json::Value::Array(a) => JsonValue::Array(a.into_iter().map(tree).collect()),
        serde_json::Value::Object(o) => {
            JsonValue::Object(o.into_iter().map(|(key, x)| JsonMember { key, value: tree(x) }).collect())
        }
    }
}

/// The legacy windows' float utilizations, rounded as the collector does.
fn legacy(text: &str, key: &str) -> Option<LegacyReading> {
    let v: serde_json::Value = serde_json::from_str(text).unwrap();
    v.pointer(&format!("/{key}/utilization"))
        .and_then(serde_json::Value::as_f64)
        .map(|pct| LegacyReading { percent: pct.round() as i64, warning: pct >= 90.0 })
}

fn limits_of(text: &str) -> Vec<artificiency_core::collectors::limits::UsageLimit> {
    let body: JsonValue = parse_json(text).unwrap();
    parse_limits(&body, legacy(text, "five_hour"), legacy(text, "seven_day"))
}

#[test]
fn parses_limits_array() {
    let limits = limits_of(
        r#"{"limits":[
          {"kind":"weekly_scoped","group":"weekly","percent":14,"severity":"normal","resets_at":"2026-07-19T16:00:00Z","scope":{"model":{"id":null,"display_name":"Fable"}},"is_active":false},
          {"kind":"session","group":"session","percent":77,"severity":"warning","resets_at":"2026-07-13T14:20:00Z","scope":null,"is_active":true},
          {"kind":"weekly_all","group":"weekly","percent":8,"severity":"normal","resets_at":"2026-07-19T16:00:00Z","scope":null,"is_active":false}
        ]}"#,
    );
    assert_eq!(limits.len(), 3);
    assert_eq!(limits[0].kind, "session"); // session sorts first
    assert_eq!(limits[0].percent, 77);
    assert_eq!(limits[0].severity, "warning");
    assert_eq!(limits[1].label, "Weekly (all models)");
    assert_eq!(limits[2].label, "Weekly · Fable");
}

#[test]
fn falls_back_to_legacy_shape() {
    let limits = limits_of(
        r#"{"five_hour":{"utilization":91.0,"resets_at":"2026-07-13T14:20:00Z"},
            "seven_day":{"utilization":8.0,"resets_at":null}}"#,
    );
    assert_eq!(limits.len(), 2);
    assert_eq!(limits[0].percent, 91);
    assert_eq!(limits[0].severity, "warning");
    assert_eq!(limits[1].percent, 8);
}

#[test]
fn empty_for_accounts_without_limits() {
    assert!(limits_of(r#"{"limits":[]}"#).is_empty());
}

#[test]
fn labels_and_defaults() {
    assert_eq!(label_for("session", Some("x")), "Session");
    assert_eq!(label_for("weekly_all", None), "Weekly (all models)");
    assert_eq!(label_for("weekly_opus_extra", None), "weekly opus extra");
    assert_eq!(label_for("weekly_scoped", Some("Opus")), "Weekly · Opus");
    let l = limits_of(r#"{"limits":[{"kind":"b_x"},{"percent":3},{"kind":"a"},{"kind":"session","percent":1.5}]}"#);
    let kinds: Vec<&str> = l.iter().map(|x| x.kind.as_str()).collect();
    assert_eq!(kinds, vec!["session", "a", "b_x"]);
    assert_eq!(l[0].percent, 0); // a float percent reads as 0
    assert_eq!(l[2].severity, "normal");
    assert_eq!(l[2].label, "b x");
    assert!(l[2].resets_at.is_none());
}

#[test]
fn response_text_gives_limits_or_nothing() {
    let text = r#"{"limits":[{"kind":"session","percent":5}]}"#;
    let got = limits_from_response(text, None, None).unwrap();
    assert_eq!(got.len(), 1);
    assert_eq!(got[0].label, "Session");
    assert_eq!(got[0].severity, "normal");
    assert_eq!(got[0].resets_at, None);
    assert!(limits_from_response(r#"{"limits":[]}"#, None, None).is_none());
    assert!(limits_from_response("<html>rate limited</html>", None, None).is_none());
}
