//! Subscription usage limits of coding-assistant accounts, from the OAuth usage
//! endpoint's response: a `limits[]` array with kind, percent, severity,
//! reset time and optional model scope; legacy `five_hour`/`seven_day`
//! objects as fallback. Accounts without a subscription have no limits.

use vstd::prelude::*;

use crate::collectors::claude_code::{opt_str, opt_string_view};
use crate::json::{JsonValue, opt_deref, parse_json, spec_parse_json};
use crate::sort::{code_points, push_code_points, stable_sort};
use crate::text::{chars_of, concat, decimal, decimal_string, push_str_chars, str_eq, string_from_chars};
use crate::json::{push_quoted, quoted};

verus! {

/// One limit, display-ready.
#[derive(Debug, PartialEq)]
pub struct UsageLimit {
    pub kind: String,
    pub label: String,
    pub percent: i64,
    /// "normal" | "warning" | ... as reported; the UI maps unknowns to normal.
    pub severity: String,
    pub resets_at: Option<String>,
}

pub struct UsageLimitModel {
    pub kind: Seq<char>,
    pub label: Seq<char>,
    pub percent: i64,
    pub severity: Seq<char>,
    pub resets_at: Option<Seq<char>>,
}

impl View for UsageLimit {
    type V = UsageLimitModel;

    open spec fn view(&self) -> UsageLimitModel {
        UsageLimitModel {
            kind: self.kind@,
            label: self.label@,
            percent: self.percent,
            severity: self.severity@,
            resets_at: opt_string_view(self.resets_at),
        }
    }
}

/// A legacy usage window's utilization, rounded to a whole percent, and
/// whether it is at or above the 90% warning threshold.
#[derive(Debug, Clone, Copy)]
pub struct LegacyReading {
    pub percent: i64,
    pub warning: bool,
}

/// `_` replaced by a blank.
pub open spec fn underscores_to_blanks(s: Seq<char>) -> Seq<char> {
    s.map_values(|c: char| if c == '_' { ' ' } else { c })
}

/// Display label of a limit kind.
pub open spec fn label_spec(kind: Seq<char>, scope_model: Option<Seq<char>>) -> Seq<char> {
    if kind == "session"@ {
        "Session"@
    } else if kind == "weekly_all"@ {
        "Weekly (all models)"@
    } else {
        match scope_model {
            Some(m) => "Weekly · "@ + m,
            None => underscores_to_blanks(kind),
        }
    }
}

/// Display label of a limit: fixed names for the session and all-model
/// weekly limits, `Weekly · <model>` for model-scoped ones, else the kind
/// with underscores as blanks.
pub fn label_for(kind: &str, scope_model: Option<&str>) -> (r: String)
    ensures
        r@ == label_spec(
            kind@,
            match scope_model {
                Some(m) => Some(m@),
                None => None,
            },
        ),
{
    if str_eq(kind, "session") {
        "Session".to_string()
    } else if str_eq(kind, "weekly_all") {
        "Weekly (all models)".to_string()
    } else {
        match scope_model {
            Some(m) => concat("Weekly · ", m),
            None => {
                let cs = chars_of(kind);
                let mut out: Vec<char> = Vec::new();
                let mut i: usize = 0;
                while i < cs.len()
                    invariant
                        i <= cs@.len(),
                        out@.len() == i,
                        forall|j: int|
                            0 <= j < i ==> out@[j] == (if cs@[j] == '_' {
                                ' '
                            } else {
                                cs@[j]
                            }),
                    decreases cs.len() - i,
                {
                    let c = cs[i];
                    out.push(
                        if c == '_' {
                            ' '
                        } else {
                            c
                        },
                    );
                    i += 1;
                }
                assert(out@ == underscores_to_blanks(kind@));
                string_from_chars(&out)
            },
        }
    }
}

/// `value.<a>.<b>`.
pub open spec fn path2(v: JsonValue, a: Seq<char>, b: Seq<char>) -> Option<JsonValue> {
    match v.field(a) {
        Some(x) => x.field(b),
        None => None,
    }
}

/// `value.scope.model.display_name`.
pub open spec fn scope_model_spec(l: JsonValue) -> Option<Seq<char>> {
    match path2(l, "scope"@, "model"@) {
        Some(m) => m.str_field("display_name"@),
        None => None,
    }
}

/// One entry of `limits[]`; entries without a string `kind` are skipped.
/// A missing percent reads as 0, a missing severity as "normal".
pub open spec fn limit_of(l: JsonValue) -> Option<UsageLimitModel> {
    match l.str_field("kind"@) {
        Some(kind) => Some(
            UsageLimitModel {
                kind,
                label: label_spec(kind, scope_model_spec(l)),
                percent: match l.field("percent"@) {
                    Some(p) => match p.int_spec() {
                        Some(i) => i,
                        None => 0,
                    },
                    None => 0,
                },
                severity: match l.str_field("severity"@) {
                    Some(s) => s,
                    None => "normal"@,
                },
                resets_at: l.str_field("resets_at"@),
            },
        ),
        None => None,
    }
}

pub open spec fn limits_list_spec(items: Seq<JsonValue>) -> Seq<UsageLimitModel>
    decreases items.len(),
{
    if items.len() == 0 {
        seq![]
    } else {
        let prev = limits_list_spec(items.drop_last());
        match limit_of(items.last()) {
            Some(m) => prev.push(m),
            None => prev,
        }
    }
}

/// A legacy window as a limit.
pub open spec fn legacy_limit(
    body: JsonValue,
    window: Seq<char>,
    kind: Seq<char>,
    label: Seq<char>,
    reading: LegacyReading,
) -> UsageLimitModel {
    UsageLimitModel {
        kind,
        label,
        percent: reading.percent,
        severity: if reading.warning {
            "warning"@
        } else {
            "normal"@
        },
        resets_at: opt_str(path2(body, window, "resets_at"@)),
    }
}

pub open spec fn legacy_spec(
    body: JsonValue,
    five_hour: Option<LegacyReading>,
    seven_day: Option<LegacyReading>,
) -> Seq<UsageLimitModel> {
    let first: Seq<UsageLimitModel> = match five_hour {
        Some(r) => seq![legacy_limit(body, "five_hour"@, "session"@, "Session"@, r)],
        None => seq![],
    };
    match seven_day {
        Some(r) => first.push(
            legacy_limit(body, "seven_day"@, "weekly_all"@, "Weekly (all models)"@, r),
        ),
        None => first,
    }
}

pub open spec fn limit_views(s: Seq<UsageLimit>) -> Seq<UsageLimitModel> {
    s.map_values(|l: UsageLimit| l@)
}

/// Sort key of a limit: session first, then by kind.
pub open spec fn limit_key(kind: Seq<char>) -> Seq<u32> {
    seq![if kind == "session"@ { 0u32 } else { 1u32 }] + code_points(kind)
}

pub open spec fn keyed_limits(s: Seq<UsageLimitModel>) -> Seq<(Seq<u32>, UsageLimitModel)> {
    s.map_values(|m: UsageLimitModel| (limit_key(m.kind), m))
}

/// The limits of a usage response: the `limits[]` entries, or when there
/// are none the legacy windows (whose float utilizations arrive rounded),
/// stably sorted with the session limit first and then by kind.
pub open spec fn parse_limits_spec(
    body: JsonValue,
    five_hour: Option<LegacyReading>,
    seven_day: Option<LegacyReading>,
) -> Seq<UsageLimitModel> {
    let listed = match body.field("limits"@) {
        Some(a) => match a.items_spec() {
            Some(items) => limits_list_spec(items),
            None => seq![],
        },
        None => seq![],
    };
    let out = if listed.len() == 0 {
        legacy_spec(body, five_hour, seven_day)
    } else {
        listed
    };
    stable_sort(keyed_limits(out)).map_values(|p: (Seq<u32>, UsageLimitModel)| p.1)
}

fn limit_from(l: &JsonValue) -> (r: Option<UsageLimit>)
    ensures
        match r {
            Some(x) => limit_of(*l) == Some(x@),
            None => limit_of(*l) is None,
        },
{
    let kind = match l.get_str("kind") {
        Some(k) => k,
        None => return None,
    };
    let scope_model = match l.get("scope") {
        Some(s) => match s.get("model") {
            Some(m) => m.get_str("display_name"),
            None => None,
        },
        None => None,
    };
    let percent = match l.get("percent") {
        Some(p) => match p.as_i64() {
            Some(i) => i,
            None => 0,
        },
        None => 0,
    };
    let severity = match l.get_str("severity") {
        Some(s) => s.to_string(),
        None => "normal".to_string(),
    };
    let resets_at = match l.get_str("resets_at") {
        Some(s) => Some(s.to_string()),
        None => None,
    };
    Some(
        UsageLimit { kind: kind.to_string(), label: label_for(kind, scope_model), percent, severity, resets_at },
    )
}

fn resets_of(body: &JsonValue, window: &str) -> (r: Option<String>)
    ensures
        opt_string_view(r) == opt_str(path2(*body, window@, "resets_at"@)),
{
    match body.get(window) {
        Some(w) => match w.get_str("resets_at") {
            Some(s) => Some(s.to_string()),
            None => None,
        },
        None => None,
    }
}

fn severity_of(warning: bool) -> (r: String)
    ensures
        r@ == if warning {
            "warning"@
        } else {
            "normal"@
        },
{
    if warning {
        "warning".to_string()
    } else {
        "normal".to_string()
    }
}

fn limit_key_of(kind: &str) -> (r: Vec<u32>)
    ensures
        r@ == limit_key(kind@),
{
    let mut key: Vec<u32> = Vec::new();
    key.push(
        if str_eq(kind, "session") {
            0
        } else {
            1
        },
    );
    push_code_points(&mut key, kind);
    key
}

/// Normalizes a usage response into display-ready limits (session first).
/// The legacy fallback's utilizations are floats; they arrive rounded, as
/// `five_hour` and `seven_day`, present when the response holds a number
/// there.
pub fn parse_limits(
    body: &JsonValue,
    five_hour: Option<LegacyReading>,
    seven_day: Option<LegacyReading>,
) -> (r: Vec<UsageLimit>)
    ensures
        r@.map_values(|l: UsageLimit| l@) == parse_limits_spec(*body, five_hour, seven_day),
{
    let mut out: Vec<UsageLimit> = Vec::new();
    let ghost listed: Seq<UsageLimitModel> = seq![];
    if let Some(arr) = body.get("limits") {
        if let Some(items) = arr.as_array() {
            let mut i: usize = 0;
            while i < items.len()
                invariant
                    i <= items@.len(),
                    out@.map_values(|l: UsageLimit| l@) == limits_list_spec(items@.take(i as int)),
                decreases items.len() - i,
            {
                assert(items@.take(i + 1).drop_last() == items@.take(i as int));
                assert(items@.take(i + 1).last() == items@[i as int]);
                let ghost prev = out@;
                if let Some(l) = limit_from(&items[i]) {
                    out.push(l);
                    assert(out@.map_values(|l: UsageLimit| l@) == prev.map_values(
                        |l: UsageLimit| l@,
                    ).push(out@.last()@));
                }
                i += 1;
            }
            assert(items@.take(items@.len() as int) == items@);
            proof {
                listed = limits_list_spec(items@);
            }
        }
    }
    assert(out@.map_values(|l: UsageLimit| l@) == listed);
    assert(listed == match body.field("limits"@) {
        Some(a) => match a.items_spec() {
            Some(items) => limits_list_spec(items),
            None => seq![],
        },
        None => seq![],
    });
    if out.len() == 0 {
        if let Some(r) = five_hour {
            out.push(
                UsageLimit {
                    kind: "session".to_string(),
                    label: "Session".to_string(),
                    percent: r.percent,
                    severity: severity_of(r.warning),
                    resets_at: resets_of(body, "five_hour"),
                },
            );
        }
        let ghost mid = out@;
        if let Some(r) = seven_day {
            out.push(
                UsageLimit {
                    kind: "weekly_all".to_string(),
                    label: "Weekly (all models)".to_string(),
                    percent: r.percent,
                    severity: severity_of(r.warning),
                    resets_at: resets_of(body, "seven_day"),
                },
            );
            assert(out@.map_values(|l: UsageLimit| l@) == mid.map_values(|l: UsageLimit| l@).push(
                out@.last()@,
            ));
        }
        assert(out@.map_values(|l: UsageLimit| l@) == legacy_spec(*body, five_hour, seven_day));
    }
    let ghost chosen = out@.map_values(|l: UsageLimit| l@);
    // pair each limit with its sort key
    let ghost all = out@;
    let mut keys: Vec<Vec<u32>> = Vec::new();
    let mut i: usize = 0;
    while i < out.len()
        invariant
            i <= out@.len(),
            keys@.len() == i,
            forall|j: int| 0 <= j < i ==> (#[trigger] keys@[j])@ == limit_key(out@[j]@.kind),
        decreases out.len() - i,
    {
        keys.push(limit_key_of(out[i].kind.as_str()));
        i += 1;
    }
    let ghost kv = crate::sort::keyed_views(keys@, all);
    let result = crate::sort::sort_by_keys(keys, out);
    assert(kv =~= keyed_limits(chosen));
    assert(limit_views(result@) =~= stable_sort(keyed_limits(chosen)).map_values(
        |p: (Seq<u32>, UsageLimitModel)| p.1,
    ));
    result
}

/// The limits of a usage response's text: nothing when the text is not
/// JSON or names no limit (accounts without a subscription), else the
/// normalized limits.
pub fn limits_from_response(
    text: &str,
    five_hour: Option<LegacyReading>,
    seven_day: Option<LegacyReading>,
) -> (r: Option<Vec<UsageLimit>>)
    ensures
        match spec_parse_json(text@) {
            Some(body) => {
                let ls = parse_limits_spec(body, five_hour, seven_day);
                if ls.len() == 0 {
                    r is None
                } else {
                    r matches Some(v) && limit_views(v@) == ls
                }
            },
            None => r is None,
        },
{
    let body = match parse_json(text) {
        Some(b) => b,
        None => {
            return None;
        },
    };
    let limits = parse_limits(&body, five_hour, seven_day);
    assert(limit_views(limits@) =~= parse_limits_spec(body, five_hour, seven_day));
    if limits.len() == 0 {
        None
    } else {
        Some(limits)
    }
}

// ---------------------------------------------------------------------------
// Cached form: the limits as a JSON array of objects
// ---------------------------------------------------------------------------

/// The decimal text of an integer.
pub open spec fn int_text(v: i64) -> Seq<char> {
    if v >= 0 {
        decimal(v as nat)
    } else {
        seq!['-'] + decimal((-v) as nat)
    }
}

/// `"key":value`.
pub open spec fn member_text(key: Seq<char>, value: Seq<char>) -> Seq<char> {
    quoted(key) + seq![':'] + value
}

/// One limit as a JSON object, fields in declaration order, a missing
/// reset time as `null`.
pub open spec fn limit_text(l: UsageLimitModel) -> Seq<char> {
    seq!['{'] + member_text("kind"@, quoted(l.kind)) + seq![','] + member_text("label"@, quoted(l.label))
        + seq![','] + member_text("percent"@, int_text(l.percent)) + seq![','] + member_text(
        "severity"@,
        quoted(l.severity),
    ) + seq![','] + member_text(
        "resets_at"@,
        match l.resets_at {
            Some(t) => quoted(t),
            None => "null"@,
        },
    ) + seq!['}']
}

pub open spec fn limit_list_text(ls: Seq<UsageLimitModel>) -> Seq<char>
    decreases ls.len(),
{
    if ls.len() == 0 {
        seq![]
    } else if ls.len() == 1 {
        limit_text(ls[0])
    } else {
        limit_list_text(ls.drop_last()) + seq![','] + limit_text(ls.last())
    }
}

/// The limits as compact JSON text: an array of objects.
pub open spec fn limits_text(ls: Seq<UsageLimitModel>) -> Seq<char> {
    seq!['['] + limit_list_text(ls) + seq![']']
}

fn push_int(out: &mut Vec<char>, v: i64)
    ensures
        final(out)@ == old(out)@ + int_text(v),
{
    if v >= 0 {
        let d = decimal_string(v as u64);
        let ghost before = out@;
        let mut i: usize = 0;
        while i < d.len()
            invariant
                i <= d@.len(),
                out@ == before + d@.take(i as int),
            decreases d.len() - i,
        {
            out.push(d[i]);
            assert(d@.take(i + 1) == d@.take(i as int).push(d@[i as int]));
            i += 1;
        }
        assert(d@.take(d@.len() as int) == d@);
    } else {
        let mag: u64 = (0i128 - v as i128) as u64;
        let d = decimal_string(mag);
        out.push('-');
        let ghost before = out@;
        let mut i: usize = 0;
        while i < d.len()
            invariant
                i <= d@.len(),
                out@ == before + d@.take(i as int),
            decreases d.len() - i,
        {
            out.push(d[i]);
            assert(d@.take(i + 1) == d@.take(i as int).push(d@[i as int]));
            i += 1;
        }
        assert(d@.take(d@.len() as int) == d@);
    }
}

fn push_member(out: &mut Vec<char>, key: &str, value: &str)
    ensures
        final(out)@ == old(out)@ + member_text(key@, quoted(value@)),
{
    let ghost start = out@;
    push_quoted(out, key);
    out.push(':');
    push_quoted(out, value);
    assert(out@ =~= start + member_text(key@, quoted(value@)));
}

fn push_limit(out: &mut Vec<char>, l: &UsageLimit)
    ensures
        final(out)@ == old(out)@ + limit_text(l@),
{
    let ghost start = out@;
    let ghost m1 = member_text("kind"@, quoted(l.kind@));
    let ghost m2 = member_text("label"@, quoted(l.label@));
    let ghost m3 = member_text("percent"@, int_text(l.percent));
    let ghost m4 = member_text("severity"@, quoted(l.severity@));
    let ghost m5 = member_text(
        "resets_at"@,
        match l@.resets_at {
            Some(t) => quoted(t),
            None => "null"@,
        },
    );
    out.push('{');
    push_member(out, "kind", l.kind.as_str());
    out.push(',');
    push_member(out, "label", l.label.as_str());
    out.push(',');
    assert(out@ =~= start + (seq!['{'] + m1 + seq![','] + m2 + seq![',']));
    let ghost s3 = out@;
    push_quoted(out, "percent");
    out.push(':');
    push_int(out, l.percent);
    assert(out@ =~= s3 + m3);
    out.push(',');
    push_member(out, "severity", l.severity.as_str());
    out.push(',');
    assert(out@ =~= start + (seq!['{'] + m1 + seq![','] + m2 + seq![','] + m3 + seq![','] + m4 + seq![',']));
    let ghost s5 = out@;
    push_quoted(out, "resets_at");
    out.push(':');
    match &l.resets_at {
        Some(t) => push_quoted(out, t.as_str()),
        None => push_str_chars(out, "null"),
    }
    assert(out@ =~= s5 + m5);
    out.push('}');
    assert(out@ =~= start + limit_text(l@));
}

/// The limits as compact JSON text, as they are cached.
pub fn limits_to_text(limits: &Vec<UsageLimit>) -> (r: String)
    ensures
        r@ == limits_text(limit_views(limits@)),
{
    let ghost ls = limit_views(limits@);
    let mut out: Vec<char> = Vec::new();
    out.push('[');
    let mut i: usize = 0;
    while i < limits.len()
        invariant
            i <= limits@.len(),
            ls == limit_views(limits@),
            out@ == seq!['['] + limit_list_text(ls.take(i as int)),
        decreases limits.len() - i,
    {
        assert(ls.take(i + 1).drop_last() =~= ls.take(i as int));
        assert(ls.take(i + 1).last() == limits@[i as int]@);
        if i > 0 {
            out.push(',');
        } else {
            assert(ls.take(0) =~= Seq::<UsageLimitModel>::empty());
        }
        let ghost before = out@;
        push_limit(&mut out, &limits[i]);
        if i == 0 {
            assert(ls.take(1) =~= seq![ls[0]]);
        }
        assert(out@ =~= seq!['['] + limit_list_text(ls.take(i + 1)));
        i += 1;
    }
    out.push(']');
    assert(ls.take(ls.len() as int) == ls);
    assert(out@ =~= limits_text(ls));
    string_from_chars(&out)
}

/// `j` is an object holding the limit's fields: its kind, label and
/// severity as strings, its percentage as an integer, its reset time as a
/// string or `null`.
pub open spec fn limit_tree(j: JsonValue, l: UsageLimitModel) -> bool {
    &&& j is Object
    &&& j.str_field("kind"@) == Some(l.kind)
    &&& j.str_field("label"@) == Some(l.label)
    &&& j.field("percent"@) matches Some(p) && p.int_spec() == Some(l.percent)
    &&& j.str_field("severity"@) == Some(l.severity)
    &&& match (j.field("resets_at"@), l.resets_at) {
        (Some(JsonValue::Null), None) => true,
        (Some(JsonValue::Str(s)), Some(t)) => s@ == t,
        _ => false,
    }
}

/// `v` is an array of the limits' objects, in order.
pub open spec fn limits_tree(v: JsonValue, ls: Seq<UsageLimitModel>) -> bool {
    match v {
        JsonValue::Array(a) => a@.len() == ls.len() && forall|i: int|
            0 <= i < ls.len() ==> #[trigger] limit_tree(a@[i], ls[i]),
        _ => false,
    }
}

/// An optional string field as read back: absent or `null` is none.
pub open spec fn opt_text_value(f: Option<JsonValue>) -> Option<Option<Seq<char>>> {
    match f {
        None => Some(None),
        Some(JsonValue::Null) => Some(None),
        Some(JsonValue::Str(s)) => Some(Some(s@)),
        _ => None,
    }
}

pub open spec fn limit_of_fields(
    kind: Option<Seq<char>>,
    label: Option<Seq<char>>,
    percent: Option<i64>,
    severity: Option<Seq<char>>,
    resets_at: Option<Option<Seq<char>>>,
) -> Option<UsageLimitModel> {
    match (kind, label, percent, severity, resets_at) {
        (Some(k), Some(l), Some(p), Some(s), Some(r)) => Some(
            UsageLimitModel { kind: k, label: l, percent: p, severity: s, resets_at: r },
        ),
        _ => None,
    }
}

/// A limit read back from its cached JSON: an object with string `kind`,
/// `label` and `severity`, an integer `percent` and an optional string
/// `resets_at` (other members ignored), or the same five values as an
/// array in field order.
pub open spec fn cached_limit(j: JsonValue) -> Option<UsageLimitModel> {
    match j {
        JsonValue::Object(_) => limit_of_fields(
            j.str_field("kind"@),
            j.str_field("label"@),
            match j.field("percent"@) {
                Some(v) => v.int_spec(),
                None => None,
            },
            j.str_field("severity"@),
            opt_text_value(j.field("resets_at"@)),
        ),
        JsonValue::Array(a) => if a@.len() == 5 {
            limit_of_fields(
                a@[0].str_spec(),
                a@[1].str_spec(),
                a@[2].int_spec(),
                a@[3].str_spec(),
                match a@[4] {
                    JsonValue::Null => Some(None),
                    JsonValue::Str(s) => Some(Some(s@)),
                    _ => None,
                },
            )
        } else {
            None
        },
        _ => None,
    }
}

pub open spec fn cached_limit_list(items: Seq<JsonValue>) -> Option<Seq<UsageLimitModel>>
    decreases items.len(),
{
    if items.len() == 0 {
        Some(seq![])
    } else {
        match (cached_limit_list(items.drop_last()), cached_limit(items.last())) {
            (Some(ls), Some(l)) => Some(ls.push(l)),
            _ => None,
        }
    }
}

/// The limits read back from their cached JSON: an array of limits, or
/// nothing when any item does not read as one.
pub open spec fn cached_limits(j: JsonValue) -> Option<Seq<UsageLimitModel>> {
    match j {
        JsonValue::Array(a) => cached_limit_list(a@),
        _ => None,
    }
}

fn text_of(v: Option<&JsonValue>) -> (r: Option<String>)
    ensures
        match r {
            Some(s) => opt_deref(v) matches Some(j) && j.str_spec() == Some(s@),
            None => !(opt_deref(v) matches Some(j) && j.str_spec() is Some),
        },
{
    match v {
        Some(JsonValue::Str(s)) => Some(s.clone()),
        _ => None,
    }
}

fn opt_text_of(v: Option<&JsonValue>) -> (r: Option<Option<String>>)
    ensures
        match r {
            Some(o) => opt_text_value(opt_deref(v)) == Some(opt_string_view(o)),
            None => opt_text_value(opt_deref(v)) is None,
        },
{
    match v {
        None => Some(None),
        Some(JsonValue::Null) => Some(None),
        Some(JsonValue::Str(s)) => Some(Some(s.clone())),
        _ => None,
    }
}

fn assemble(
    kind: Option<String>,
    label: Option<String>,
    percent: Option<i64>,
    severity: Option<String>,
    resets_at: Option<Option<String>>,
) -> (r: Option<UsageLimit>)
    ensures
        match r {
            Some(l) => limit_of_fields(
                opt_string_view(kind),
                opt_string_view(label),
                percent,
                opt_string_view(severity),
                match resets_at {
                    Some(o) => Some(opt_string_view(o)),
                    None => None,
                },
            ) == Some(l@),
            None => limit_of_fields(
                opt_string_view(kind),
                opt_string_view(label),
                percent,
                opt_string_view(severity),
                match resets_at {
                    Some(o) => Some(opt_string_view(o)),
                    None => None,
                },
            ) is None,
        },
{
    match (kind, label, percent, severity, resets_at) {
        (Some(k), Some(l), Some(p), Some(s), Some(r)) => Some(
            UsageLimit { kind: k, label: l, percent: p, severity: s, resets_at: r },
        ),
        _ => None,
    }
}

fn cached_limit_of(j: &JsonValue) -> (r: Option<UsageLimit>)
    ensures
        match r {
            Some(l) => cached_limit(*j) == Some(l@),
            None => cached_limit(*j) is None,
        },
{
    match j {
        JsonValue::Object(_) => {
            let kind = text_of(j.get("kind"));
            let label = text_of(j.get("label"));
            let percent = match j.get("percent") {
                Some(v) => v.as_i64(),
                None => None,
            };
            let severity = text_of(j.get("severity"));
            let resets_at = opt_text_of(j.get("resets_at"));
            proof {
                assert(j.str_field("kind"@) == opt_string_view(kind));
                assert(j.str_field("label"@) == opt_string_view(label));
                assert(j.str_field("severity"@) == opt_string_view(severity));
            }
            assemble(kind, label, percent, severity, resets_at)
        },
        JsonValue::Array(a) => {
            if a.len() != 5 {
                return None;
            }
            let kind = text_of(Some(&a[0]));
            let label = text_of(Some(&a[1]));
            let percent = a[2].as_i64();
            let severity = text_of(Some(&a[3]));
            let resets_at = match &a[4] {
                JsonValue::Null => Some(None),
                JsonValue::Str(s) => Some(Some(s.clone())),
                _ => None,
            };
            proof {
                assert(a@[0].str_spec() == opt_string_view(kind));
                assert(a@[1].str_spec() == opt_string_view(label));
                assert(a@[3].str_spec() == opt_string_view(severity));
            }
            assemble(kind, label, percent, severity, resets_at)
        },
        _ => None,
    }
}

/// The limits read back from their cached JSON; nothing when it does not
/// read as a list of limits.
pub fn limits_from_json(j: &JsonValue) -> (r: Option<Vec<UsageLimit>>)
    ensures
        match r {
            Some(v) => cached_limits(*j) == Some(limit_views(v@)),
            None => cached_limits(*j) is None,
        },
{
    match j {
        JsonValue::Array(a) => {
            let mut out: Vec<UsageLimit> = Vec::new();
            let mut i: usize = 0;
            while i < a.len()
                invariant
                    i <= a@.len(),
                    *j == JsonValue::Array(*a),
                    cached_limit_list(a@.take(i as int)) == Some(limit_views(out@)),
                decreases a.len() - i,
            {
                assert(a@.take(i + 1).drop_last() =~= a@.take(i as int));
                assert(a@.take(i + 1).last() == a@[i as int]);
                match cached_limit_of(&a[i]) {
                    Some(l) => {
                        let ghost before = limit_views(out@);
                        out.push(l);
                        assert(limit_views(out@) =~= before.push(l@));
                    },
                    None => {
                        proof {
                            lemma_cached_list_fails(a@, i as int);
                        }
                        return None;
                    },
                }
                i += 1;
            }
            assert(a@.take(a@.len() as int) == a@);
            Some(out)
        },
        _ => None,
    }
}

/// Once an item fails to read, the whole list fails.
proof fn lemma_cached_list_fails(items: Seq<JsonValue>, i: int)
    requires
        0 <= i < items.len(),
        cached_limit(items[i]) is None,
    ensures
        cached_limit_list(items) is None,
    decreases items.len(),
{
    if i < items.len() - 1 {
        lemma_cached_list_fails(items.drop_last(), i);
    }
}

/// A tree holding the limits' fields reads back as those limits.
pub proof fn lemma_limits_tree_reads_back(v: JsonValue, ls: Seq<UsageLimitModel>)
    requires
        limits_tree(v, ls),
    ensures
        cached_limits(v) == Some(ls),
{
    match v {
        JsonValue::Array(a) => lemma_limit_list_reads_back(a@, ls),
        _ => {},
    }
}

proof fn lemma_limit_list_reads_back(items: Seq<JsonValue>, ls: Seq<UsageLimitModel>)
    requires
        items.len() == ls.len(),
        forall|i: int| 0 <= i < ls.len() ==> #[trigger] limit_tree(items[i], ls[i]),
    ensures
        cached_limit_list(items) == Some(ls),
    decreases items.len(),
{
    if items.len() > 0 {
        let n = items.len() - 1;
        assert forall|i: int| 0 <= i < ls.drop_last().len() implies #[trigger] limit_tree(
            items.drop_last()[i],
            ls.drop_last()[i],
        ) by {
            assert(limit_tree(items[i], ls[i]));
        }
        lemma_limit_list_reads_back(items.drop_last(), ls.drop_last());
        assert(limit_tree(items[n], ls[n]));
        let j = items[n];
        let l = ls[n];
        assert(cached_limit(j) == Some(l)) by {
            assert(j is Object);
            match j.field("resets_at"@) {
                Some(JsonValue::Null) => {},
                Some(JsonValue::Str(x)) => {},
                _ => {},
            }
        }
        assert(ls.drop_last().push(l) =~= ls);
    }
}

} // verus!
