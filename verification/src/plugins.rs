//! Plugin roster timeline for the plugin impact view. Installs come from
//! the assistant's `installed_plugins.json` (`installedAt`, retroactive);
//! removals are detected by diffing the current roster against the
//! last-seen one.

use vstd::prelude::*;

use crate::json::{JsonMember, JsonValue, parse_json, push_quoted, quoted, spec_parse_json, string_list_text, string_list_tree};
use crate::sort::{code_points, lex_less, lex_lt, push_code_points, reversed, stable_sort};
use crate::text::{contains_string, join_spec, string_from_chars, string_views};
use crate::store::{kv_lookup, KvRow, Store};
use crate::activity::markers_of;

verus! {

/// An install or removal of a plugin.
#[derive(Debug, PartialEq)]
pub struct PluginEvent {
    pub plugin: String,
    /// installed | removed
    pub kind: String,
    /// ISO 8601
    pub ts: String,
}

pub struct PluginEventModel {
    pub plugin: Seq<char>,
    pub kind: Seq<char>,
    pub ts: Seq<char>,
}

impl View for PluginEvent {
    type V = PluginEventModel;

    open spec fn view(&self) -> PluginEventModel {
        PluginEventModel { plugin: self.plugin@, kind: self.kind@, ts: self.ts@ }
    }
}

pub open spec fn event_views(s: Seq<PluginEvent>) -> Seq<PluginEventModel> {
    s.map_values(|e: PluginEvent| e@)
}

pub open spec fn pair_views(s: Seq<(String, String)>) -> Seq<(Seq<char>, Seq<char>)> {
    s.map_values(|p: (String, String)| (p.0@, p.1@))
}

// ---------------------------------------------------------------------------
// The installed roster
// ---------------------------------------------------------------------------

/// The `installedAt` strings of an array of install records, in order.
pub open spec fn install_times(items: Seq<JsonValue>) -> Seq<Seq<char>>
    decreases items.len(),
{
    if items.len() == 0 {
        seq![]
    } else {
        let prev = install_times(items.drop_last());
        match items.last().str_field("installedAt"@) {
            Some(t) => prev.push(t),
            None => prev,
        }
    }
}

/// The smallest text (`Iterator::min`: the first of equal minima).
pub open spec fn earliest(xs: Seq<Seq<char>>) -> Option<Seq<char>>
    decreases xs.len(),
{
    if xs.len() == 0 {
        None
    } else {
        match earliest(xs.drop_last()) {
            Some(m) => if lex_lt(code_points(xs.last()), code_points(m)) {
                Some(xs.last())
            } else {
                Some(m)
            },
            None => Some(xs.last()),
        }
    }
}

/// One roster entry: a plugin id with its earliest install time, when it
/// has any.
pub open spec fn roster_entry(m: JsonMember) -> Option<(Seq<char>, Seq<char>)> {
    let times = match m.value.items_spec() {
        Some(items) => install_times(items),
        None => seq![],
    };
    match earliest(times) {
        Some(t) => Some((m.key@, t)),
        None => None,
    }
}

pub open spec fn roster_entries(ms: Seq<JsonMember>) -> Seq<(Seq<char>, Seq<char>)>
    decreases ms.len(),
{
    if ms.len() == 0 {
        seq![]
    } else {
        let prev = roster_entries(ms.drop_last());
        match roster_entry(ms.last()) {
            Some(e) => prev.push(e),
            None => prev,
        }
    }
}

/// The roster in `installed_plugins.json`: for each plugin id under
/// `plugins` (which maps "name@marketplace" to install records), its
/// earliest `installedAt`; nothing when the text is not such JSON.
pub open spec fn roster_spec(raw: Seq<char>) -> Seq<(Seq<char>, Seq<char>)> {
    match spec_parse_json(raw) {
        Some(v) => roster_tree_spec(v),
        None => seq![],
    }
}

/// The roster of a parsed `installed_plugins.json`.
pub open spec fn roster_tree_spec(v: JsonValue) -> Seq<(Seq<char>, Seq<char>)> {
    match v.field("plugins"@) {
        Some(JsonValue::Object(ms)) => roster_entries(ms@),
        _ => seq![],
    }
}

fn earliest_install(recs: &JsonValue) -> (r: Option<String>)
    ensures
        match r {
            Some(t) => earliest(
                match recs.items_spec() {
                    Some(items) => install_times(items),
                    None => seq![],
                },
            ) == Some(t@),
            None => earliest(
                match recs.items_spec() {
                    Some(items) => install_times(items),
                    None => seq![],
                },
            ) is None,
        },
{
    let items = match recs.as_array() {
        Some(a) => a,
        None => {
            assert(install_times(seq![]) == Seq::<Seq<char>>::empty());
            return None;
        },
    };
    let mut best: Option<&str> = None;
    let mut best_key: Vec<u32> = Vec::new();
    let mut i: usize = 0;
    while i < items.len()
        invariant
            i <= items@.len(),
            match best {
                Some(b) => earliest(install_times(items@.take(i as int))) == Some(b@) && best_key@
                    == code_points(b@),
                None => earliest(install_times(items@.take(i as int))) is None && install_times(
                    items@.take(i as int),
                ).len() == 0,
            },
        decreases items.len() - i,
    {
        assert(items@.take(i + 1).drop_last() == items@.take(i as int));
        assert(items@.take(i + 1).last() == items@[i as int]);
        let ghost prev_times = install_times(items@.take(i as int));
        if let Some(t) = items[i].get_str("installedAt") {
            let ghost times = prev_times.push(t@);
            assert(install_times(items@.take(i + 1)) == times);
            assert(times.drop_last() == prev_times);
            let mut key: Vec<u32> = Vec::new();
            push_code_points(&mut key, t);
            match best {
                Some(_) => {
                    if lex_less(&key, &best_key) {
                        best = Some(t);
                        best_key = key;
                    }
                },
                None => {
                    best = Some(t);
                    best_key = key;
                },
            }
        } else {
            assert(install_times(items@.take(i + 1)) == prev_times);
        }
        i += 1;
    }
    assert(items@.take(items@.len() as int) == items@);
    match best {
        Some(b) => Some(b.to_string()),
        None => None,
    }
}

/// Parses `installed_plugins.json` into (plugin id, earliest installedAt).
pub fn parse_roster(raw: &str) -> (r: Vec<(String, String)>)
    ensures
        pair_views(r@) == roster_spec(raw@),
{
    match parse_json(raw) {
        Some(v) => roster_of(&v),
        None => Vec::new(),
    }
}

/// The roster of a parsed `installed_plugins.json`: (plugin id, earliest
/// installedAt) for each plugin with a recorded install.
pub fn roster_of(v: &JsonValue) -> (r: Vec<(String, String)>)
    ensures
        pair_views(r@) == roster_tree_spec(*v),
{
    let mut out: Vec<(String, String)> = Vec::new();
    let ms = match v.get("plugins") {
        Some(JsonValue::Object(ms)) => ms,
        _ => {
            assert(pair_views(out@) =~= roster_tree_spec(*v));
            return out;
        },
    };
    let mut i: usize = 0;
    while i < ms.len()
        invariant
            i <= ms@.len(),
            pair_views(out@) == roster_entries(ms@.take(i as int)),
        decreases ms.len() - i,
    {
        assert(ms@.take(i + 1).drop_last() == ms@.take(i as int));
        assert(ms@.take(i + 1).last() == ms@[i as int]);
        let ghost before = pair_views(out@);
        if let Some(ts) = earliest_install(&ms[i].value) {
            out.push((ms[i].key.clone(), ts));
            assert(pair_views(out@) == before.push((ms@[i as int].key@, ts@)));
        }
        i += 1;
    }
    assert(ms@.take(ms@.len() as int) == ms@);
    out
}

// ---------------------------------------------------------------------------
// Removals
// ---------------------------------------------------------------------------

/// The strings of a JSON array whose items are all strings
/// (`serde_json::from_str::<Vec<String>>`).
pub open spec fn string_list(v: JsonValue) -> Option<Seq<Seq<char>>> {
    match v {
        JsonValue::Array(items) => if forall|i: int|
            0 <= i < items@.len() ==> (#[trigger] items@[i]).str_spec() is Some {
            Some(items@.map_values(|x: JsonValue| x.str_spec()->0))
        } else {
            None
        },
        _ => None,
    }
}

/// The plugins of the last-seen roster (a JSON list of ids) that are not
/// in the current one, in last-seen order; none when the stored text is
/// not such a list.
pub open spec fn removed_spec(prev_json: Seq<char>, current: Seq<Seq<char>>) -> Seq<Seq<char>> {
    match spec_parse_json(prev_json) {
        Some(v) => removed_tree_spec(v, current),
        None => seq![],
    }
}

/// The ids of a parsed last-seen roster that are not in the current one;
/// none when it is not a list of strings.
pub open spec fn removed_tree_spec(v: JsonValue, current: Seq<Seq<char>>) -> Seq<Seq<char>> {
    match string_list(v) {
        Some(prev) => gone_from(prev, current),
        None => seq![],
    }
}

/// The ids of `prev` that are not in `current`, in order.
pub open spec fn gone_from(prev: Seq<Seq<char>>, current: Seq<Seq<char>>) -> Seq<Seq<char>> {
    prev.filter(|id: Seq<char>| !current.contains(id))
}

proof fn lemma_list_tree(v: JsonValue, ids: Seq<Seq<char>>)
    requires
        string_list_tree(v, ids),
    ensures
        string_list(v) == Some(ids),
{
    match v {
        JsonValue::Array(items) => {
            assert(items@.map_values(|x: JsonValue| x.str_spec()->0) =~= ids);
        },
        _ => {},
    }
}

/// The plugins that dropped out of the roster since it was last seen.
pub fn removed_plugins(prev_json: &str, current_ids: &Vec<String>) -> (r: Vec<String>)
    ensures
        string_views(r@) == removed_spec(prev_json@, string_views(current_ids@)),
        forall|prev: Seq<Seq<char>>|
            #[trigger] string_list_text(prev) == prev_json@ ==> string_views(r@) == gone_from(
                prev,
                string_views(current_ids@),
            ),
{
    let parsed = parse_json(prev_json);
    proof {
        assert forall|prev: Seq<Seq<char>>| #[trigger] string_list_text(prev) == prev_json@ implies string_list(
            parsed->Some_0,
        ) == Some(prev) by {
            lemma_list_tree(parsed->Some_0, prev);
        }
    }
    match parsed {
        Some(v) => removed_from(&v, current_ids),
        None => Vec::new(),
    }
}

/// The ids of a parsed last-seen roster that are not in the current one,
/// in last-seen order; none when it is not a list of strings.
pub fn removed_from(v: &JsonValue, current_ids: &Vec<String>) -> (r: Vec<String>)
    ensures
        string_views(r@) == removed_tree_spec(*v, string_views(current_ids@)),
{
    let mut out: Vec<String> = Vec::new();
    let items = match v {
        JsonValue::Array(items) => items,
        _ => {
            assert(string_views(out@) =~= removed_tree_spec(*v, string_views(current_ids@)));
            return out;
        },
    };
    let mut all_str = true;
    let mut i: usize = 0;
    while i < items.len()
        invariant
            i <= items@.len(),
            all_str == forall|j: int| 0 <= j < i ==> (#[trigger] items@[j]).str_spec() is Some,
        decreases items.len() - i,
    {
        if items[i].as_str().is_none() {
            all_str = false;
        }
        i += 1;
    }
    if !all_str {
        assert(string_views(out@) =~= removed_tree_spec(*v, string_views(current_ids@)));
        return out;
    }
    let ghost prev = items@.map_values(|x: JsonValue| x.str_spec()->0);
    let ghost cur = string_views(current_ids@);
    let ghost pred = |id: Seq<char>| !cur.contains(id);
    let mut k: usize = 0;
    while k < items.len()
        invariant
            k <= items@.len(),
            prev == items@.map_values(|x: JsonValue| x.str_spec()->0),
            forall|j: int| 0 <= j < items@.len() ==> (#[trigger] items@[j]).str_spec() is Some,
            cur == string_views(current_ids@),
            pred == (|id: Seq<char>| !cur.contains(id)),
            string_views(out@) == prev.take(k as int).filter(pred),
        decreases items.len() - k,
    {
        assert(prev.take(k + 1).drop_last() == prev.take(k as int));
        assert(prev.take(k + 1).last() == prev[k as int]);
        reveal_with_fuel(Seq::<_>::filter, 1);
        let id = match items[k].as_str() {
            Some(s) => s.to_string(),
            None => String::new(),
        };
        assert(id@ == prev[k as int]);
        let ghost before = string_views(out@);
        if !contains_string(current_ids, &id) {
            out.push(id);
            assert(string_views(out@) == before.push(prev[k as int]));
        }
        k += 1;
    }
    assert(prev.take(prev.len() as int) == prev);
    out
}

/// The roster as stored for the next comparison: the compact JSON list of
/// the ids (`serde_json::to_string` of a `Vec<String>`).
pub open spec fn roster_json_spec(ids: Seq<Seq<char>>) -> Seq<char> {
    string_list_text(ids)
}

pub fn roster_json(ids: &Vec<String>) -> (r: String)
    ensures
        r@ == roster_json_spec(string_views(ids@)),
{
    let ghost qs = string_views(ids@).map_values(|id: Seq<char>| quoted(id));
    let mut out: Vec<char> = Vec::new();
    out.push('[');
    let ghost start = out@;
    let mut i: usize = 0;
    while i < ids.len()
        invariant
            i <= ids@.len(),
            qs == string_views(ids@).map_values(|id: Seq<char>| quoted(id)),
            out@ == start + join_spec(qs.take(i as int), seq![',']),
        decreases ids.len() - i,
    {
        assert(qs.take(i + 1).drop_last() == qs.take(i as int));
        assert(qs.take(i + 1).last() == quoted(ids@[i as int]@));
        if i > 0 {
            out.push(',');
        }
        push_quoted(&mut out, ids[i].as_str());
        i += 1;
    }
    assert(qs.take(qs.len() as int) == qs);
    out.push(']');
    string_from_chars(&out)
}

// ---------------------------------------------------------------------------
// The timeline
// ---------------------------------------------------------------------------

pub open spec fn keyed_events(s: Seq<PluginEventModel>) -> Seq<(Seq<u32>, PluginEventModel)> {
    s.map_values(|e: PluginEventModel| (code_points(e.ts), e))
}

pub open spec fn installs_spec(roster: Seq<(Seq<char>, Seq<char>)>) -> Seq<PluginEventModel> {
    roster.map_values(
        |p: (Seq<char>, Seq<char>)| PluginEventModel { plugin: p.0, kind: "installed"@, ts: p.1 },
    )
}

pub open spec fn removals_spec(removed: Seq<(Seq<char>, Seq<char>)>) -> Seq<PluginEventModel> {
    removed.map_values(
        |p: (Seq<char>, Seq<char>)| PluginEventModel { plugin: p.1, kind: "removed"@, ts: p.0 },
    )
}

/// Install and removal events, oldest first (a stable sort by timestamp:
/// installs before removals at equal times).
pub open spec fn timeline_spec(
    roster: Seq<(Seq<char>, Seq<char>)>,
    removed: Seq<(Seq<char>, Seq<char>)>,
) -> Seq<PluginEventModel> {
    stable_sort(keyed_events(installs_spec(roster) + removals_spec(removed))).map_values(
        |p: (Seq<u32>, PluginEventModel)| p.1,
    )
}

/// The timeline from the roster (plugin id, earliest install) and the
/// recorded removals (time of detection, plugin id).
pub fn timeline(roster: Vec<(String, String)>, removed: Vec<(String, String)>) -> (r: Vec<
    PluginEvent,
>)
    ensures
        event_views(r@) == timeline_spec(pair_views(roster@), pair_views(removed@)),
{
    let ghost want = installs_spec(pair_views(roster@)) + removals_spec(pair_views(removed@));
    let mut events: Vec<PluginEvent> = Vec::new();
    let ghost rv = roster@;
    let n1 = roster.len();
    let mut rev = reversed(roster);
    let mut k: usize = 0;
    while rev.len() > 0
        invariant
            k + rev@.len() == rv.len(),
            n1 == rv.len(),
            rev@.reverse() == rv.skip(k as int),
            event_views(events@) == installs_spec(pair_views(rv.take(k as int))),
        decreases rev.len(),
    {
        let ghost bv = rev@;
        let (plugin, ts) = rev.pop().unwrap();
        assert(bv.reverse()[0] == bv.last());
        assert(rv.skip(k as int)[0] == rv[k as int]);
        assert(rev@.reverse() == rv.skip(k + 1)) by {
            assert(bv.reverse().drop_first() == bv.drop_last().reverse());
            assert(rv.skip(k as int).drop_first() == rv.skip(k + 1));
        }
        let ghost before = event_views(events@);
        events.push(PluginEvent { plugin, kind: "installed".to_string(), ts });
        assert(rv.take(k + 1) == rv.take(k as int).push(rv[k as int]));
        assert(event_views(events@) == before.push(events@.last()@));
        assert(installs_spec(pair_views(rv.take(k + 1))) == installs_spec(pair_views(rv.take(k as int))).push(events@.last()@));
        k += 1;
    }
    assert(rv.take(rv.len() as int) == rv);
    let ghost mid = event_views(events@);
    let ghost dv = removed@;
    let n2 = removed.len();
    let mut rev2 = reversed(removed);
    let mut m: usize = 0;
    while rev2.len() > 0
        invariant
            m + rev2@.len() == dv.len(),
            n2 == dv.len(),
            rev2@.reverse() == dv.skip(m as int),
            event_views(events@) == mid + removals_spec(pair_views(dv.take(m as int))),
        decreases rev2.len(),
    {
        let ghost bv = rev2@;
        let (ts, plugin) = rev2.pop().unwrap();
        assert(bv.reverse()[0] == bv.last());
        assert(dv.skip(m as int)[0] == dv[m as int]);
        assert(rev2@.reverse() == dv.skip(m + 1)) by {
            assert(bv.reverse().drop_first() == bv.drop_last().reverse());
            assert(dv.skip(m as int).drop_first() == dv.skip(m + 1));
        }
        let ghost before = event_views(events@);
        events.push(PluginEvent { plugin, kind: "removed".to_string(), ts });
        assert(dv.take(m + 1) == dv.take(m as int).push(dv[m as int]));
        assert(event_views(events@) == before.push(events@.last()@));
        assert(removals_spec(pair_views(dv.take(m + 1))) == removals_spec(pair_views(dv.take(m as int))).push(events@.last()@));
        m += 1;
    }
    assert(dv.take(dv.len() as int) == dv);
    assert(event_views(events@) == want);
    // sort by timestamp
    let ghost all = events@;
    let mut keys: Vec<Vec<u32>> = Vec::new();
    let mut i: usize = 0;
    while i < events.len()
        invariant
            i <= events@.len(),
            keys@.len() == i,
            forall|j: int| 0 <= j < i ==> (#[trigger] keys@[j])@ == code_points(events@[j]@.ts),
        decreases events.len() - i,
    {
        let mut key: Vec<u32> = Vec::new();
        push_code_points(&mut key, events[i].ts.as_str());
        keys.push(key);
        i += 1;
    }
    let ghost kv = crate::sort::keyed_views(keys@, all);
    let result = crate::sort::sort_by_keys(keys, events);
    assert(kv =~= keyed_events(event_views(all)));
    assert(event_views(result@) =~= timeline_spec(pair_views(rv), pair_views(dv)));
    result
}

/// The plugin a hook script belongs to: the only plugin shipping it,
/// `shared` when several do, `unknown` when none does.
pub open spec fn owner_spec(owners: Option<Seq<Seq<char>>>) -> Seq<char> {
    match owners {
        Some(ids) => if ids.len() == 1 {
            ids[0]
        } else {
            "shared"@
        },
        None => "unknown"@,
    }
}

pub fn owner_label(owners: Option<&Vec<String>>) -> (r: String)
    ensures
        r@ == owner_spec(
            match owners {
                Some(ids) => Some(string_views(ids@)),
                None => None,
            },
        ),
{
    match owners {
        Some(ids) => if ids.len() == 1 {
            ids[0].clone()
        } else {
            "shared".to_string()
        },
        None => "unknown".to_string(),
    }
}

// ---------------------------------------------------------------------------
// Removal detection
// ---------------------------------------------------------------------------

/// Where the last-seen roster is kept.
pub const ROSTER_KEY: &'static str = "plugin_roster_seen";

/// The marker kind of a detected removal.
pub const REMOVED_KIND: &'static str = "plugin_removed";

pub open spec fn roster_ids(roster: Seq<(Seq<char>, Seq<char>)>) -> Seq<Seq<char>> {
    roster.map_values(|p: (Seq<char>, Seq<char>)| p.0)
}

/// The plugins found gone since the roster was last seen (none on the
/// first look).
pub open spec fn gone_spec(kv: Seq<KvRow>, ids: Seq<Seq<char>>) -> Seq<Seq<char>> {
    match kv_lookup(kv, "plugin_roster_seen"@) {
        Some(prev) => removed_spec(prev, ids),
        None => seq![],
    }
}

impl Store {
    /// Install and removal events, oldest first, for the current roster
    /// (plugin id, earliest install). A plugin that dropped out of the
    /// roster since the last call is recorded once as removed at `now`;
    /// the roster is then remembered for the next call.
    pub fn plugin_events(&mut self, roster: Vec<(String, String)>, now: &str) -> (r: Vec<PluginEvent>)
        ensures
            ({
                let ids = roster_ids(pair_views(roster@));
                let gone = gone_spec(old(self).kv@, ids);
                let n = old(self).markers@.len();
                &&& forall|prev: Seq<Seq<char>>|
                    kv_lookup(old(self).kv@, "plugin_roster_seen"@) == Some(#[trigger] string_list_text(prev))
                        ==> gone == gone_from(prev, ids)
                &&& final(self).markers@.len() == n + gone.len()
                &&& final(self).markers@.take(n as int) == old(self).markers@
                &&& forall|k: int|
                    0 <= k < gone.len() ==> {
                        let m = #[trigger] final(self).markers@[n + k];
                        &&& m.kind@ == "plugin_removed"@
                        &&& m.payload@ == gone[k]
                        &&& m.ts@ == now@
                    }
                &&& kv_lookup(final(self).kv@, "plugin_roster_seen"@) == Some(roster_json_spec(ids))
                &&& forall|k: Seq<char>|
                    k != "plugin_roster_seen"@ ==> kv_lookup(final(self).kv@, k) == kv_lookup(old(self).kv@, k)
                &&& event_views(r@) == timeline_spec(
                    pair_views(roster@),
                    markers_of(final(self).markers@, "plugin_removed"@),
                )
            }),
            final(self).sessions == old(self).sessions,
            final(self).events == old(self).events,
            final(self).tool_calls == old(self).tool_calls,
            final(self).files == old(self).files,
            final(self).hook_calls == old(self).hook_calls,
    {
        let ghost ids_v = roster_ids(pair_views(roster@));
        let mut ids: Vec<String> = Vec::new();
        let mut i: usize = 0;
        while i < roster.len()
            invariant
                i <= roster@.len(),
                ids_v == roster_ids(pair_views(roster@)),
                string_views(ids@) == ids_v.take(i as int),
            decreases roster.len() - i,
        {
            let id = roster[i].0.clone();
            let ghost before = string_views(ids@);
            ids.push(id);
            assert(string_views(ids@) =~= before.push(roster@[i as int].0@));
            assert(ids_v.take(i + 1) =~= ids_v.take(i as int).push(ids_v[i as int]));
            i += 1;
        }
        assert(ids_v.take(roster@.len() as int) =~= ids_v);
        let ghost gone = gone_spec(self.kv@, ids_v);
        let ghost start = *self;
        let removed: Vec<String> = match self.kv_get(ROSTER_KEY) {
            Some(prev) => removed_plugins(prev.as_str(), &ids),
            None => Vec::new(),
        };
        assert(string_views(removed@) =~= gone);
        assert(forall|prev: Seq<Seq<char>>|
            kv_lookup(start.kv@, "plugin_roster_seen"@) == Some(#[trigger] string_list_text(prev)) ==> gone
                == gone_from(prev, ids_v));
        let n = self.markers.len();
        let mut k: usize = 0;
        assert(self.markers@.take(n as int) =~= start.markers@);
        while k < removed.len()
            invariant
                k <= removed@.len(),
                n == start.markers@.len(),
                string_views(removed@) == gone,
                self.markers@.len() == n + k,
                self.markers@.take(n as int) == start.markers@,
                forall|j: int|
                    0 <= j < k ==> {
                        let m = #[trigger] self.markers@[n + j];
                        &&& m.kind@ == "plugin_removed"@
                        &&& m.payload@ == gone[j]
                        &&& m.ts@ == now@
                    },
                self.kv == start.kv,
                self.sessions == start.sessions,
                self.events == start.events,
                self.tool_calls == start.tool_calls,
                self.files == start.files,
                self.hook_calls == start.hook_calls,
            decreases removed.len() - k,
        {
            let ghost before = self.markers@;
            self.record_marker(REMOVED_KIND, removed[k].as_str(), now);
            assert(self.markers@.take(n as int) =~= start.markers@) by {
                assert(self.markers@.drop_last() == before);
                assert(before.take(n as int) == start.markers@);
            }
            assert forall|j: int| 0 <= j < k + 1 implies {
                let m = #[trigger] self.markers@[n + j];
                &&& m.kind@ == "plugin_removed"@
                &&& m.payload@ == gone[j]
                &&& m.ts@ == now@
            } by {
                if j < k {
                    assert(self.markers@[n + j] == before[n + j]);
                } else {
                    assert(string_views(removed@)[k as int] == removed@[k as int]@);
                }
            }
            k += 1;
        }
        let text = roster_json(&ids);
        self.kv_set(ROSTER_KEY, text.as_str());
        let past = self.markers(REMOVED_KIND);
        timeline(roster, past)
    }
}

} // verus!
