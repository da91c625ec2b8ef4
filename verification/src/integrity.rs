//! Config integrity guard: baseline the user-level assistant config and
//! surface changes to security-relevant keys. Read-only and fail-open: a
//! malformed file degrades to a coarse finding, never an error.

use vstd::prelude::*;

use crate::json::{
    JsonMember, JsonValue, spec_values_equal, json_equal, spec_json_text, json_to_string, member_lookup,
    opt_deref, parse_json, spec_parse_json,
};
use crate::sort::stable_sort;
use crate::text::{
    chars_of, concat, contains_seq, contains_string, join, join_spec, prefix_upto, spec_to_lowercase,
    str_contains, str_eq, string_views, take_chars, to_lowercase,
};

verus! {

/// One changed top-level key.
#[derive(Debug, PartialEq)]
pub struct Finding {
    pub key: String,
    /// added | modified | removed
    pub change: String,
    /// info | warning | critical
    pub severity: String,
    pub detail: String,
}

/// The state of one watched config file.
#[derive(Debug, PartialEq)]
pub struct ConfigFile {
    pub path: String,
    /// watching (first seen) | clean | changed
    pub status: String,
    pub findings: Vec<Finding>,
}

pub struct FindingModel {
    pub key: Seq<char>,
    pub change: Seq<char>,
    pub severity: Seq<char>,
    pub detail: Seq<char>,
}

impl View for Finding {
    type V = FindingModel;

    open spec fn view(&self) -> FindingModel {
        FindingModel {
            key: self.key@,
            change: self.change@,
            severity: self.severity@,
            detail: self.detail@,
        }
    }
}

pub open spec fn finding_views(s: Seq<Finding>) -> Seq<FindingModel> {
    s.map_values(|f: Finding| f@)
}

/// The kv key under which a file's baseline is stored.
pub open spec fn baseline_key_spec(path: Seq<char>) -> Seq<char> {
    "cfgbase:"@ + path
}

pub fn baseline_key(path: &str) -> (r: String)
    ensures
        r@ == baseline_key_spec(path@),
{
    concat("cfgbase:", path)
}

// ---------------------------------------------------------------------------
// Hook command scanning
// ---------------------------------------------------------------------------

/// Every string inside a JSON value, depth first, in document order.
pub open spec fn strings_of(v: JsonValue) -> Seq<Seq<char>>
    decreases v,
{
    match v {
        JsonValue::Str(s) => seq![s@],
        JsonValue::Array(a) => strings_of_items(a@),
        JsonValue::Object(m) => strings_of_members(m@),
        _ => seq![],
    }
}

pub open spec fn strings_of_items(s: Seq<JsonValue>) -> Seq<Seq<char>>
    decreases s,
{
    if s.len() == 0 {
        seq![]
    } else {
        strings_of_items(s.drop_last()) + strings_of(s.last())
    }
}

pub open spec fn strings_of_members(s: Seq<JsonMember>) -> Seq<Seq<char>>
    decreases s,
{
    if s.len() == 0 {
        seq![]
    } else {
        strings_of_members(s.drop_last()) + strings_of(s.last().value)
    }
}

/// Appends every string inside `v`, depth first.
pub fn collect_strings(v: &JsonValue, out: &mut Vec<String>)
    ensures
        string_views(final(out)@) == string_views(old(out)@) + strings_of(*v),
    decreases v,
{
    match v {
        JsonValue::Str(s) => {
            let ghost before = string_views(out@);
            out.push(s.clone());
            assert(string_views(out@) == before.push(s@));
        },
        JsonValue::Array(a) => {
            let ghost start = string_views(out@);
            let mut i: usize = 0;
            while i < a.len()
                invariant
                    i <= a@.len(),
                    string_views(out@) == start + strings_of_items(a@.take(i as int)),
                    *v == JsonValue::Array(*a),
                decreases a.len() - i,
            {
                proof {
                    assert(decreases_to!(*v => (*v)->Array_0));
                    assert(decreases_to!(*a => a@));
                    assert(decreases_to!(a@ => a@[i as int]));
                }
                assert(a@.take(i + 1).drop_last() == a@.take(i as int));
                assert(a@.take(i + 1).last() == a@[i as int]);
                collect_strings(&a[i], out);
                i += 1;
            }
            assert(a@.take(a@.len() as int) == a@);
        },
        JsonValue::Object(m) => {
            let ghost start = string_views(out@);
            let mut i: usize = 0;
            while i < m.len()
                invariant
                    i <= m@.len(),
                    string_views(out@) == start + strings_of_members(m@.take(i as int)),
                    *v == JsonValue::Object(*m),
                decreases m.len() - i,
            {
                proof {
                    assert(decreases_to!(*v => (*v)->Object_0));
                    assert(decreases_to!(*m => m@));
                    assert(decreases_to!(m@ => m@[i as int]));
                    assert(decreases_to!(m@[i as int] => m@[i as int].value));
                }
                assert(m@.take(i + 1).drop_last() == m@.take(i as int));
                assert(m@.take(i + 1).last() == m@[i as int]);
                collect_strings(&m[i].value, out);
                i += 1;
            }
            assert(m@.take(m@.len() as int) == m@);
        },
        _ => {
            assert(strings_of(*v) == Seq::<Seq<char>>::empty());
            assert(string_views(out@) == string_views(old(out)@) + strings_of(*v));
        },
    }
}

/// A lower-cased command pipes something into a shell.
pub open spec fn pipes_to_shell(l: Seq<char>) -> bool {
    contains_seq(l, "| sh"@) || contains_seq(l, "|sh"@) || contains_seq(l, "| bash"@)
        || contains_seq(l, "|bash"@)
}

/// Downloads (`curl`/`wget`) piped into a shell.
pub open spec fn downloads_to_shell(l: Seq<char>) -> bool {
    (contains_seq(l, "curl"@) || contains_seq(l, "wget"@)) && pipes_to_shell(l)
}

pub open spec fn decodes_base64(l: Seq<char>) -> bool {
    contains_seq(l, "base64 -d"@) || contains_seq(l, "base64 --decode"@)
}

pub open spec fn touches_profile(l: Seq<char>) -> bool {
    contains_seq(l, ".bashrc"@) || contains_seq(l, ".zshrc"@) || contains_seq(l, ".profile"@)
        || contains_seq(l, ".bash_profile"@)
}

pub open spec fn touches_pth(l: Seq<char>) -> bool {
    contains_seq(l, ".pth"@)
}

/// Some command, lower-cased, decodes base64.
pub open spec fn any_base64(cmds: Seq<Seq<char>>) -> bool {
    exists|i: int| 0 <= i < cmds.len() && #[trigger] decodes_base64(spec_to_lowercase(cmds[i]))
}

/// Some command, lower-cased, pipes a download into a shell.
pub open spec fn any_download(cmds: Seq<Seq<char>>) -> bool {
    exists|i: int| 0 <= i < cmds.len() && #[trigger] downloads_to_shell(spec_to_lowercase(cmds[i]))
}

/// Some command, lower-cased, touches a `.pth` file.
pub open spec fn any_pth(cmds: Seq<Seq<char>>) -> bool {
    exists|i: int| 0 <= i < cmds.len() && #[trigger] touches_pth(spec_to_lowercase(cmds[i]))
}

/// Some command, lower-cased, touches a shell profile.
pub open spec fn any_profile(cmds: Seq<Seq<char>>) -> bool {
    exists|i: int| 0 <= i < cmds.len() && #[trigger] touches_profile(spec_to_lowercase(cmds[i]))
}

pub open spec fn opt_reason(b: bool, r: Seq<char>) -> Seq<Seq<char>> {
    if b {
        seq![r]
    } else {
        seq![]
    }
}

/// The danger reasons found in hook commands, each once, in sorted order
/// (the four reasons sort as listed here).
pub open spec fn danger_reasons(cmds: Seq<Seq<char>>) -> Seq<Seq<char>> {
    opt_reason(any_base64(cmds), "a hook decodes a base64 blob"@) + opt_reason(
        any_download(cmds),
        "a hook pipes a download into a shell"@,
    ) + opt_reason(any_pth(cmds), "a hook touches a python .pth file"@) + opt_reason(
        any_profile(cmds),
        "a hook writes to a shell profile"@,
    )
}

/// Danger shapes in the hook command strings of a config value.
pub fn scan_hook_danger(v: &JsonValue) -> (r: Vec<String>)
    ensures
        string_views(r@) == danger_reasons(strings_of(*v)),
{
    let mut cmds: Vec<String> = Vec::new();
    collect_strings(v, &mut cmds);
    let ghost cs = string_views(cmds@);
    assert(cs == strings_of(*v));
    let mut b64 = false;
    let mut download = false;
    let mut pth = false;
    let mut profile = false;
    let mut i: usize = 0;
    while i < cmds.len()
        invariant
            i <= cmds@.len(),
            cs == string_views(cmds@),
            b64 == (exists|j: int| 0 <= j < i && #[trigger] decodes_base64(spec_to_lowercase(cs[j]))),
            download == (exists|j: int|
                0 <= j < i && #[trigger] downloads_to_shell(spec_to_lowercase(cs[j]))),
            pth == (exists|j: int| 0 <= j < i && #[trigger] touches_pth(spec_to_lowercase(cs[j]))),
            profile == (exists|j: int|
                0 <= j < i && #[trigger] touches_profile(spec_to_lowercase(cs[j]))),
        decreases cmds.len() - i,
    {
        let lower = to_lowercase(cmds[i].as_str());
        let l = chars_of(lower.as_str());
        assert(l@ == spec_to_lowercase(cs[i as int]));
        let piped = str_contains(&l, "| sh") || str_contains(&l, "|sh") || str_contains(&l, "| bash")
            || str_contains(&l, "|bash");
        let is_download = (str_contains(&l, "curl") || str_contains(&l, "wget")) && piped;
        let is_b64 = str_contains(&l, "base64 -d") || str_contains(&l, "base64 --decode");
        let is_profile = str_contains(&l, ".bashrc") || str_contains(&l, ".zshrc") || str_contains(
            &l,
            ".profile",
        ) || str_contains(&l, ".bash_profile");
        let is_pth = str_contains(&l, ".pth");
        assert(is_download == downloads_to_shell(spec_to_lowercase(cs[i as int])));
        assert(is_b64 == decodes_base64(spec_to_lowercase(cs[i as int])));
        assert(is_profile == touches_profile(spec_to_lowercase(cs[i as int])));
        assert(is_pth == touches_pth(spec_to_lowercase(cs[i as int])));
        download = download || is_download;
        b64 = b64 || is_b64;
        profile = profile || is_profile;
        pth = pth || is_pth;
        i += 1;
    }
    assert(b64 == any_base64(cs));
    assert(download == any_download(cs));
    assert(pth == any_pth(cs));
    assert(profile == any_profile(cs));
    let mut reasons: Vec<String> = Vec::new();
    if b64 {
        reasons.push("a hook decodes a base64 blob".to_string());
    }
    if download {
        reasons.push("a hook pipes a download into a shell".to_string());
    }
    if pth {
        reasons.push("a hook touches a python .pth file".to_string());
    }
    if profile {
        reasons.push("a hook writes to a shell profile".to_string());
    }
    assert(string_views(reasons@) =~= danger_reasons(cs));
    reasons
}

// ---------------------------------------------------------------------------
// Classification and description of one changed key
// ---------------------------------------------------------------------------

/// Keys whose change is security-relevant: execution, credentials, supply
/// chain.
pub open spec fn is_sensitive(key: Seq<char>) -> bool {
    key == "hooks"@ || key == "mcpServers"@ || key == "apiKeyHelper"@ || key == "env"@ || key
        == "enabledPlugins"@ || key == "extraKnownMarketplaces"@
}

/// Severity of a changed key and the danger reasons behind it: `info` for
/// other keys, `critical` for hooks whose new value shows danger, else
/// `warning`.
pub open spec fn classify_spec(key: Seq<char>, new: Option<JsonValue>) -> (Seq<char>, Seq<Seq<char>>) {
    if !is_sensitive(key) {
        ("info"@, seq![])
    } else {
        let reasons = if key == "hooks"@ {
            match new {
                Some(v) => danger_reasons(strings_of(v)),
                None => seq![],
            }
        } else {
            seq![]
        };
        if reasons.len() > 0 {
            ("critical"@, reasons)
        } else {
            ("warning"@, seq![])
        }
    }
}

fn is_sensitive_key(key: &str) -> (r: bool)
    ensures
        r == is_sensitive(key@),
{
    str_eq(key, "hooks") || str_eq(key, "mcpServers") || str_eq(key, "apiKeyHelper") || str_eq(
        key,
        "env",
    ) || str_eq(key, "enabledPlugins") || str_eq(key, "extraKnownMarketplaces")
}

fn classify(key: &str, new: Option<&JsonValue>) -> (r: (String, Vec<String>))
    ensures
        (r.0@, string_views(r.1@)) == classify_spec(key@, opt_deref(new)),
{
    if !is_sensitive_key(key) {
        return ("info".to_string(), Vec::new());
    }
    if str_eq(key, "hooks") {
        let reasons = match new {
            Some(v) => scan_hook_danger(v),
            None => Vec::new(),
        };
        if reasons.len() > 0 {
            return ("critical".to_string(), reasons);
        }
    }
    ("warning".to_string(), Vec::new())
}

/// A short display form of a list entry: its string, or its compact JSON,
/// at most 48 characters.
pub open spec fn short_spec(v: JsonValue) -> Seq<char> {
    prefix_upto(
        match v.str_spec() {
            Some(s) => s,
            None => spec_json_text(v),
        },
        48,
    )
}

fn short(v: &JsonValue) -> (r: String)
    ensures
        r@ == short_spec(*v),
{
    match v.as_str() {
        Some(s) => take_chars(s, 48),
        None => {
            let text = json_to_string(v);
            take_chars(text.as_str(), 48)
        },
    }
}

pub open spec fn shorts(s: Seq<JsonValue>) -> Seq<Seq<char>> {
    s.map_values(|v: JsonValue| short_spec(v))
}

/// The entries of `a` that do not occur in `b`, in order.
pub open spec fn missing_from(a: Seq<Seq<char>>, b: Seq<Seq<char>>) -> Seq<Seq<char>> {
    a.filter(|x: Seq<char>| !b.contains(x))
}

/// `added x, y; removed z` for list-shaped values, when anything moved.
pub open spec fn list_moves(o: Seq<JsonValue>, n: Seq<JsonValue>) -> Seq<Seq<char>> {
    let added = missing_from(shorts(n), shorts(o));
    let removed = missing_from(shorts(o), shorts(n));
    (if added.len() > 0 {
        seq!["added "@ + join_spec(added, ", "@)]
    } else {
        seq![]
    }) + (if removed.len() > 0 {
        seq!["removed "@ + join_spec(removed, ", "@)]
    } else {
        seq![]
    })
}

/// The detail text of a finding: the danger reasons; else, for two
/// arrays, which entries were added and removed; else the change itself
/// ("value changed" for a modification).
pub open spec fn describe_spec(
    change: Seq<char>,
    old: Option<JsonValue>,
    new: Option<JsonValue>,
    reasons: Seq<Seq<char>>,
) -> Seq<char> {
    if reasons.len() > 0 {
        join_spec(reasons, "; "@)
    } else {
        let moves = match (old, new) {
            (Some(JsonValue::Array(o)), Some(JsonValue::Array(n))) => list_moves(o@, n@),
            _ => seq![],
        };
        if moves.len() > 0 {
            join_spec(moves, "; "@)
        } else if change == "added"@ {
            "added"@
        } else if change == "removed"@ {
            "removed"@
        } else {
            "value changed"@
        }
    }
}

fn shorts_of(items: &Vec<JsonValue>) -> (r: Vec<String>)
    ensures
        string_views(r@) == shorts(items@),
{
    let mut out: Vec<String> = Vec::new();
    let mut i: usize = 0;
    while i < items.len()
        invariant
            i <= items@.len(),
            string_views(out@) == shorts(items@.take(i as int)),
        decreases items.len() - i,
    {
        let ghost before = string_views(out@);
        out.push(short(&items[i]));
        assert(shorts(items@.take(i + 1)) == shorts(items@.take(i as int)).push(short_spec(items@[i as int])));
        i += 1;
    }
    assert(items@.take(items@.len() as int) == items@);
    out
}

fn missing(a: &Vec<String>, b: &Vec<String>) -> (r: Vec<String>)
    ensures
        string_views(r@) == missing_from(string_views(a@), string_views(b@)),
{
    let ghost av = string_views(a@);
    let ghost bv = string_views(b@);
    let ghost pred = |x: Seq<char>| !bv.contains(x);
    let mut out: Vec<String> = Vec::new();
    let mut i: usize = 0;
    while i < a.len()
        invariant
            i <= a@.len(),
            av == string_views(a@),
            bv == string_views(b@),
            pred == (|x: Seq<char>| !bv.contains(x)),
            string_views(out@) == av.take(i as int).filter(pred),
        decreases a.len() - i,
    {
        let ghost before = string_views(out@);
        assert(av.take(i + 1).drop_last() == av.take(i as int));
        assert(av.take(i + 1).last() == a@[i as int]@);
        reveal_with_fuel(Seq::<_>::filter, 1);
        if !contains_string(b, &a[i]) {
            out.push(a[i].clone());
            assert(string_views(out@) == before.push(a@[i as int]@));
        }
        i += 1;
    }
    assert(av.take(av.len() as int) == av);
    out
}

fn describe(change: &str, old: Option<&JsonValue>, new: Option<&JsonValue>, reasons: &Vec<String>) -> (r:
    String)
    ensures
        r@ == describe_spec(change@, opt_deref(old), opt_deref(new), string_views(reasons@)),
{
    if reasons.len() > 0 {
        return join(reasons, "; ");
    }
    match (old, new) {
        (Some(JsonValue::Array(o)), Some(JsonValue::Array(n))) => {
            let os = shorts_of(o);
            let ns = shorts_of(n);
            let added = missing(&ns, &os);
            let removed = missing(&os, &ns);
            let mut parts: Vec<String> = Vec::new();
            if added.len() > 0 {
                let a = join(&added, ", ");
                parts.push(concat("added ", a.as_str()));
            }
            let ghost mid = string_views(parts@);
            if removed.len() > 0 {
                let rm = join(&removed, ", ");
                parts.push(concat("removed ", rm.as_str()));
                assert(string_views(parts@) == mid.push(("removed "@ + join_spec(string_views(removed@), ", "@))));
            }
            assert(string_views(parts@) =~= list_moves(o@, n@));
            if parts.len() > 0 {
                return join(&parts, "; ");
            }
        },
        _ => {},
    }
    if str_eq(change, "added") {
        "added".to_string()
    } else if str_eq(change, "removed") {
        "removed".to_string()
    } else {
        "value changed".to_string()
    }
}

// ---------------------------------------------------------------------------
// The diff of two snapshots
// ---------------------------------------------------------------------------

/// The members of an object (none for any other value).
pub open spec fn object_members(v: JsonValue) -> Seq<JsonMember> {
    match v {
        JsonValue::Object(m) => m@,
        _ => seq![],
    }
}

pub open spec fn member_keys(ms: Seq<JsonMember>) -> Seq<Seq<char>> {
    ms.map_values(|m: JsonMember| m.key@)
}

/// Consecutive duplicates removed (`Vec::dedup`).
pub open spec fn dedup_spec(s: Seq<Seq<char>>) -> Seq<Seq<char>>
    decreases s.len(),
{
    if s.len() == 0 {
        s
    } else {
        let d = dedup_spec(s.drop_last());
        if d.len() > 0 && d.last() == s.last() {
            d
        } else {
            d.push(s.last())
        }
    }
}

pub open spec fn keyed_strings(s: Seq<Seq<char>>) -> Seq<(Seq<u32>, Seq<char>)> {
    s.map_values(|k: Seq<char>| (crate::sort::code_points(k), k))
}

/// Strings in ascending order (stable; `String`'s order, which is code
/// point order).
pub open spec fn sorted_strings(s: Seq<Seq<char>>) -> Seq<Seq<char>> {
    stable_sort(keyed_strings(s)).map_values(|p: (Seq<u32>, Seq<char>)| p.1)
}

/// The keys of either snapshot, ascending, each once.
pub open spec fn diff_keys(a: Seq<JsonMember>, b: Seq<JsonMember>) -> Seq<Seq<char>> {
    dedup_spec(sorted_strings(member_keys(a) + member_keys(b)))
}

/// The finding for one key, if its value was added, removed or changed.
pub open spec fn finding_for(k: Seq<char>, a: Seq<JsonMember>, b: Seq<JsonMember>) -> Option<
    FindingModel,
> {
    let old = member_lookup(a, k);
    let new = member_lookup(b, k);
    let change: Option<Seq<char>> = match (old, new) {
        (None, Some(_)) => Some("added"@),
        (Some(_), None) => Some("removed"@),
        (Some(x), Some(y)) => if !spec_values_equal(x, y) {
            Some("modified"@)
        } else {
            None
        },
        _ => None,
    };
    match change {
        Some(c) => {
            let cl = classify_spec(k, new);
            Some(FindingModel { key: k, change: c, severity: cl.0, detail: describe_spec(c, old, new, cl.1) })
        },
        None => None,
    }
}

pub open spec fn findings_for(keys: Seq<Seq<char>>, a: Seq<JsonMember>, b: Seq<JsonMember>) -> Seq<
    FindingModel,
>
    decreases keys.len(),
{
    if keys.len() == 0 {
        seq![]
    } else {
        let prev = findings_for(keys.drop_last(), a, b);
        match finding_for(keys.last(), a, b) {
            Some(f) => prev.push(f),
            None => prev,
        }
    }
}

/// Severity rank: critical first, then warning, then the rest.
pub open spec fn severity_rank(sev: Seq<char>) -> u32 {
    if sev == "critical"@ {
        0
    } else if sev == "warning"@ {
        1
    } else {
        2
    }
}

pub open spec fn keyed_findings(s: Seq<FindingModel>) -> Seq<(Seq<u32>, FindingModel)> {
    s.map_values(|f: FindingModel| (seq![severity_rank(f.severity)], f))
}

/// The coarse finding for content that is not JSON.
pub open spec fn unparsable_finding() -> FindingModel {
    FindingModel {
        key: "(file)"@,
        change: "modified"@,
        severity: "warning"@,
        detail: "content changed and could not be parsed as JSON"@,
    }
}

/// Top-level key diff of two config snapshots: one finding per key whose
/// value was added, removed or changed, visited in key order and then
/// stably ordered by severity. A side that is not JSON gives the single
/// coarse finding; a side that is JSON but not an object counts as empty.
pub open spec fn diff_spec(base: Seq<char>, current: Seq<char>) -> Seq<FindingModel> {
    match (spec_parse_json(base), spec_parse_json(current)) {
        (Some(a), Some(b)) => diff_trees_spec(a, b),
        _ => seq![unparsable_finding()],
    }
}

/// The key diff of two parsed snapshots (a value that is not an object
/// counts as empty).
pub open spec fn diff_trees_spec(a: JsonValue, b: JsonValue) -> Seq<FindingModel> {
    let ao = object_members(a);
    let bo = object_members(b);
    stable_sort(keyed_findings(findings_for(diff_keys(ao, bo), ao, bo))).map_values(
        |p: (Seq<u32>, FindingModel)| p.1,
    )
}

fn keys_of(ms: &Vec<JsonMember>, out: &mut Vec<String>)
    ensures
        string_views(final(out)@) == string_views(old(out)@) + member_keys(ms@),
{
    let ghost start = string_views(out@);
    let mut i: usize = 0;
    while i < ms.len()
        invariant
            i <= ms@.len(),
            string_views(out@) == start + member_keys(ms@.take(i as int)),
        decreases ms.len() - i,
    {
        let ghost before = string_views(out@);
        out.push(ms[i].key.clone());
        assert(string_views(out@) == before.push(ms@[i as int].key@));
        assert(member_keys(ms@.take(i + 1)) == member_keys(ms@.take(i as int)).push(ms@[i as int].key@));
        i += 1;
    }
    assert(ms@.take(ms@.len() as int) == ms@);
}

fn sort_strings(v: Vec<String>) -> (r: Vec<String>)
    ensures
        string_views(r@) == sorted_strings(string_views(v@)),
{
    let ghost all = v@;
    let mut keys: Vec<Vec<u32>> = Vec::new();
    let mut i: usize = 0;
    while i < v.len()
        invariant
            i <= v@.len(),
            keys@.len() == i,
            forall|j: int| 0 <= j < i ==> (#[trigger] keys@[j])@ == crate::sort::code_points(v@[j]@),
        decreases v.len() - i,
    {
        let mut key: Vec<u32> = Vec::new();
        crate::sort::push_code_points(&mut key, v[i].as_str());
        keys.push(key);
        i += 1;
    }
    let ghost kv = crate::sort::keyed_views(keys@, all);
    let r = crate::sort::sort_by_keys(keys, v);
    assert(kv =~= keyed_strings(string_views(all)));
    assert(string_views(r@) =~= sorted_strings(string_views(all)));
    r
}

fn dedup_strings(v: &Vec<String>) -> (r: Vec<String>)
    ensures
        string_views(r@) == dedup_spec(string_views(v@)),
{
    let mut out: Vec<String> = Vec::new();
    let mut i: usize = 0;
    while i < v.len()
        invariant
            i <= v@.len(),
            string_views(out@) == dedup_spec(string_views(v@.take(i as int))),
        decreases v.len() - i,
    {
        assert(string_views(v@.take(i + 1)).drop_last() == string_views(v@.take(i as int)));
        assert(string_views(v@.take(i + 1)).last() == v@[i as int]@);
        let ghost before = string_views(out@);
        let dup = out.len() > 0 && str_eq(out[out.len() - 1].as_str(), v[i].as_str());
        if !dup {
            out.push(v[i].clone());
            assert(string_views(out@) == before.push(v@[i as int]@));
        }
        i += 1;
    }
    assert(v@.take(v@.len() as int) == v@);
    out
}

fn severity_rank_of(sev: &str) -> (r: u32)
    ensures
        r == severity_rank(sev@),
{
    if str_eq(sev, "critical") {
        0
    } else if str_eq(sev, "warning") {
        1
    } else {
        2
    }
}

fn sort_findings(v: Vec<Finding>) -> (r: Vec<Finding>)
    ensures
        finding_views(r@) == stable_sort(keyed_findings(finding_views(v@))).map_values(
            |p: (Seq<u32>, FindingModel)| p.1,
        ),
{
    let ghost all = v@;
    let mut keys: Vec<Vec<u32>> = Vec::new();
    let mut i: usize = 0;
    while i < v.len()
        invariant
            i <= v@.len(),
            keys@.len() == i,
            forall|j: int| 0 <= j < i ==> (#[trigger] keys@[j])@ == seq![severity_rank(v@[j]@.severity)],
        decreases v.len() - i,
    {
        let mut key: Vec<u32> = Vec::new();
        key.push(severity_rank_of(v[i].severity.as_str()));
        assert(key@ =~= seq![severity_rank(v@[i as int]@.severity)]);
        keys.push(key);
        i += 1;
    }
    let ghost kv = crate::sort::keyed_views(keys@, all);
    let r = crate::sort::sort_by_keys(keys, v);
    assert(kv =~= keyed_findings(finding_views(all)));
    assert(finding_views(r@) =~= stable_sort(keyed_findings(finding_views(all))).map_values(
        |p: (Seq<u32>, FindingModel)| p.1,
    ));
    r
}

/// Top-level key diff of two config snapshots. Malformed JSON on either
/// side degrades to a coarse whole-file finding rather than an error.
pub fn diff(base: &str, current: &str) -> (r: Vec<Finding>)
    ensures
        finding_views(r@) == diff_spec(base@, current@),
        spec_parse_json(base@) is Some && base@ == current@ ==> r@.len() == 0,
{
    let (a, b) = match (parse_json(base), parse_json(current)) {
        (Some(a), Some(b)) => (a, b),
        _ => {
            let mut out: Vec<Finding> = Vec::new();
            out.push(
                Finding {
                    key: "(file)".to_string(),
                    change: "modified".to_string(),
                    severity: "warning".to_string(),
                    detail: "content changed and could not be parsed as JSON".to_string(),
                },
            );
            assert(finding_views(out@) =~= seq![unparsable_finding()]);
            return out;
        },
    };
    diff_trees(&a, &b)
}

/// Top-level key diff of two parsed config snapshots: one finding per key
/// whose value was added, removed or changed, in key order, then stably
/// ordered by severity.
pub fn diff_trees(a: &JsonValue, b: &JsonValue) -> (r: Vec<Finding>)
    ensures
        finding_views(r@) == diff_trees_spec(*a, *b),
        *a == *b ==> r@.len() == 0,
{
    let empty: Vec<JsonMember> = Vec::new();
    let ao: &Vec<JsonMember> = match a {
        JsonValue::Object(m) => m,
        _ => &empty,
    };
    let bo: &Vec<JsonMember> = match b {
        JsonValue::Object(m) => m,
        _ => &empty,
    };
    assert(ao@ == object_members(*a));
    assert(bo@ == object_members(*b));
    let mut all_keys: Vec<String> = Vec::new();
    keys_of(ao, &mut all_keys);
    keys_of(bo, &mut all_keys);
    let sorted = sort_strings(all_keys);
    let keys = dedup_strings(&sorted);
    let ghost ks = string_views(keys@);
    assert(ks == diff_keys(ao@, bo@));
    let mut findings: Vec<Finding> = Vec::new();
    let mut i: usize = 0;
    while i < keys.len()
        invariant
            i <= keys@.len(),
            ks == string_views(keys@),
            finding_views(findings@) == findings_for(ks.take(i as int), ao@, bo@),
            *a == *b ==> ao == bo && findings@.len() == 0,
        decreases keys.len() - i,
    {
        assert(ks.take(i + 1).drop_last() == ks.take(i as int));
        assert(ks.take(i + 1).last() == keys@[i as int]@);
        let k = keys[i].as_str();
        let old = crate::json::lookup(ao, k);
        let new = crate::json::lookup(bo, k);
        let change: Option<&str> = match (old, new) {
            (None, Some(_)) => Some("added"),
            (Some(_), None) => Some("removed"),
            (Some(x), Some(y)) => if !json_equal(x, y) {
                Some("modified")
            } else {
                None
            },
            _ => None,
        };
        let ghost before = finding_views(findings@);
        match change {
            Some(c) => {
                let (severity, reasons) = classify(k, new);
                let detail = describe(c, old, new, &reasons);
                findings.push(Finding { key: k.to_string(), change: c.to_string(), severity, detail });
                assert(finding_views(findings@) == before.push(findings@.last()@));
            },
            None => {},
        }
        i += 1;
    }
    assert(ks.take(ks.len() as int) == ks);
    proof {
        crate::sort::lemma_stable_sort_len(keyed_findings(finding_views(findings@)));
    }
    let r = sort_findings(findings);
    assert(finding_views(r@).len() == r@.len());
    r
}

/// The state of a watched file and whether its baseline must be (re)stored.
pub struct Assessment {
    pub file: ConfigFile,
    /// The content to record as baseline (first sight of the file).
    pub new_baseline: Option<String>,
}

pub struct ConfigFileModel {
    pub path: Seq<char>,
    pub status: Seq<char>,
    pub findings: Seq<FindingModel>,
}

impl View for ConfigFile {
    type V = ConfigFileModel;

    open spec fn view(&self) -> ConfigFileModel {
        ConfigFileModel { path: self.path@, status: self.status@, findings: finding_views(self.findings@) }
    }
}

/// Judging a watched file against its stored baseline: the first sight is
/// trusted (watching, baseline recorded, no findings); identical content is
/// clean; otherwise the diff decides between clean and changed.
pub open spec fn assess_spec(path: Seq<char>, baseline: Option<Seq<char>>, current: Seq<char>) -> (
    ConfigFileModel,
    Option<Seq<char>>,
) {
    match baseline {
        None => (ConfigFileModel { path, status: "watching"@, findings: seq![] }, Some(current)),
        Some(base) => if base == current {
            (ConfigFileModel { path, status: "clean"@, findings: seq![] }, None)
        } else {
            let fs = diff_spec(base, current);
            (
                ConfigFileModel {
                    path,
                    status: if fs.len() == 0 {
                        "clean"@
                    } else {
                        "changed"@
                    },
                    findings: fs,
                },
                None,
            )
        },
    }
}

/// The per-file decision of the integrity check.
pub fn assess(path: &str, baseline: Option<&str>, current: &str) -> (r: Assessment)
    ensures
        (r.file@, match r.new_baseline {
            Some(s) => Some(s@),
            None => None,
        }) == assess_spec(
            path@,
            match baseline {
                Some(b) => Some(b@),
                None => None,
            },
            current@,
        ),
{
    match baseline {
        None => {
            let file = ConfigFile { path: path.to_string(), status: "watching".to_string(), findings: Vec::new() };
            assert(file@.findings =~= Seq::<FindingModel>::empty());
            Assessment { file, new_baseline: Some(current.to_string()) }
        },
        Some(base) => if str_eq(base, current) {
            let file = ConfigFile { path: path.to_string(), status: "clean".to_string(), findings: Vec::new() };
            assert(file@.findings =~= Seq::<FindingModel>::empty());
            Assessment { file, new_baseline: None }
        } else {
            let findings = diff(base, current);
            let status = if findings.len() == 0 {
                "clean".to_string()
            } else {
                "changed".to_string()
            };
            Assessment { file: ConfigFile { path: path.to_string(), status, findings }, new_baseline: None }
        },
    }
}

} // verus!
