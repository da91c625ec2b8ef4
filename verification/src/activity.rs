//! Hook invocations, markers, and the turns of a time window.

use vstd::prelude::*;

use crate::text::{str_eq, string_views};
use crate::sort::{
    all_views, code_points, desc_key, lex_less, lex_lt, push_code_points, sort_desc_viewed, sorted_payloads,
    viewed_desc,
};
use crate::store::{
    fits_i64, in_range, opt_view_of, since_key, ts_in_range, EventRow, Granularity, HookCallRow, MarkerRow,
    Store,
};
use crate::collectors::claude_code::opt_string_view;
use crate::plugins::pair_views;

verus! {

/// Some hook call already carries the idempotency key.
pub open spec fn hook_key_taken(rows: Seq<HookCallRow>, key: Seq<char>) -> bool {
    exists|i: int| 0 <= i < rows.len() && (#[trigger] rows[i].dedup_key)@ == key
}

/// The markers of one kind, as (time, payload), in the order recorded.
pub open spec fn markers_of(rows: Seq<MarkerRow>, kind: Seq<char>) -> Seq<(Seq<char>, Seq<char>)>
    decreases rows.len(),
{
    if rows.len() == 0 {
        seq![]
    } else {
        let rest = markers_of(rows.drop_last(), kind);
        if rows.last().kind@ == kind {
            rest.push((rows.last().ts@, rows.last().payload@))
        } else {
            rest
        }
    }
}

impl Store {
    fn hook_key_exists(&self, key: &str) -> (r: bool)
        ensures
            r == hook_key_taken(self.hook_calls@, key@),
    {
        let mut i: usize = 0;
        while i < self.hook_calls.len()
            invariant
                i <= self.hook_calls@.len(),
                forall|j: int| 0 <= j < i ==> self.hook_calls@[j].dedup_key@ != key@,
            decreases self.hook_calls.len() - i,
        {
            if str_eq(self.hook_calls[i].dedup_key.as_str(), key) {
                return true;
            }
            i += 1;
        }
        false
    }

    /// Records a hook invocation; returns false, changing nothing, when its
    /// idempotency key is already stored.
    pub fn insert_hook_call(
        &mut self,
        session_id: &str,
        ts: &str,
        script: &str,
        duration_ms: Option<i64>,
        dedup_key: &str,
    ) -> (r: bool)
        ensures
            r == !hook_key_taken(old(self).hook_calls@, dedup_key@),
            r ==> final(self).hook_calls@.len() == old(self).hook_calls@.len() + 1
                && final(self).hook_calls@.drop_last() == old(self).hook_calls@ && {
                let row = final(self).hook_calls@.last();
                &&& row.session_id@ == session_id@
                &&& row.ts@ == ts@
                &&& row.script@ == script@
                &&& row.duration_ms == duration_ms
                &&& row.dedup_key@ == dedup_key@
            },
            !r ==> final(self).hook_calls == old(self).hook_calls,
            final(self).sessions == old(self).sessions,
            final(self).events == old(self).events,
            final(self).tool_calls == old(self).tool_calls,
            final(self).kv == old(self).kv,
            final(self).files == old(self).files,
            final(self).markers == old(self).markers,
    {
        if self.hook_key_exists(dedup_key) {
            return false;
        }
        let ghost before = self.hook_calls@;
        self.hook_calls.push(
            HookCallRow {
                session_id: session_id.to_string(),
                ts: ts.to_string(),
                script: script.to_string(),
                duration_ms,
                dedup_key: dedup_key.to_string(),
            },
        );
        assert(self.hook_calls@.drop_last() == before);
        true
    }

    /// Records a marker of `kind` with `payload`, at time `ts`.
    pub fn record_marker(&mut self, kind: &str, payload: &str, ts: &str)
        ensures
            final(self).markers@.len() == old(self).markers@.len() + 1,
            final(self).markers@.drop_last() == old(self).markers@,
            final(self).markers@.last().kind@ == kind@,
            final(self).markers@.last().payload@ == payload@,
            final(self).markers@.last().ts@ == ts@,
            final(self).sessions == old(self).sessions,
            final(self).events == old(self).events,
            final(self).tool_calls == old(self).tool_calls,
            final(self).kv == old(self).kv,
            final(self).files == old(self).files,
            final(self).hook_calls == old(self).hook_calls,
    {
        let ghost before = self.markers@;
        self.markers.push(MarkerRow { ts: ts.to_string(), kind: kind.to_string(), payload: payload.to_string() });
        assert(self.markers@.drop_last() == before);
    }

    /// The markers of `kind`, as (time, payload), in the order recorded.
    pub fn markers(&self, kind: &str) -> (r: Vec<(String, String)>)
        ensures
            pair_views(r@) == markers_of(self.markers@, kind@),
    {
        let rows = &self.markers;
        let mut out: Vec<(String, String)> = Vec::new();
        let mut i: usize = 0;
        while i < rows.len()
            invariant
                i <= rows@.len(),
                rows@ == self.markers@,
                pair_views(out@) == markers_of(rows@.take(i as int), kind@),
            decreases rows.len() - i,
        {
            assert(rows@.take(i + 1).drop_last() == rows@.take(i as int));
            assert(rows@.take(i + 1).last() == rows@[i as int]);
            if str_eq(rows[i].kind.as_str(), kind) {
                let ghost before = pair_views(out@);
                out.push((rows[i].ts.clone(), rows[i].payload.clone()));
                assert(pair_views(out@) =~= before.push((rows@[i as int].ts@, rows@[i as int].payload@)));
            }
            i += 1;
        }
        assert(rows@.take(rows@.len() as int) == rows@);
        out
    }
}

// ---------------------------------------------------------------------------
// Hook cost per script
// ---------------------------------------------------------------------------

/// Calls and total duration of one hook script.
#[derive(Debug)]
pub struct HookStat {
    pub script: String,
    pub calls: i64,
    pub total_ms: i64,
    pub overflow: bool,
}

pub struct HookStatModel {
    pub script: Seq<char>,
    pub calls: int,
    pub total_ms: int,
    pub overflow: bool,
}

impl View for HookStat {
    type V = HookStatModel;

    open spec fn view(&self) -> HookStatModel {
        HookStatModel {
            script: self.script@,
            calls: self.calls as int,
            total_ms: self.total_ms as int,
            overflow: self.overflow,
        }
    }
}

pub open spec fn duration_of(r: HookCallRow) -> int {
    match r.duration_ms {
        Some(d) => d as int,
        None => 0,
    }
}

pub open spec fn hook_index(g: Seq<HookStatModel>, script: Seq<char>) -> Option<int>
    decreases g.len(),
{
    if g.len() == 0 {
        None
    } else {
        match hook_index(g.drop_last(), script) {
            Some(i) => Some(i),
            None => if g.last().script == script {
                Some(g.len() - 1)
            } else {
                None
            },
        }
    }
}

/// One more call of the row's script. The sums stop at the first addition
/// that would leave 64-bit integers, and `overflow` says so.
pub open spec fn add_hook(g: Seq<HookStatModel>, r: HookCallRow) -> Seq<HookStatModel> {
    match hook_index(g, r.script@) {
        Some(i) => {
            let t = g[i];
            let ok = !t.overflow && fits_i64(t.calls + 1) && fits_i64(t.total_ms + duration_of(r));
            g.update(
                i,
                HookStatModel {
                    script: t.script,
                    calls: if ok { t.calls + 1 } else { t.calls },
                    total_ms: if ok { t.total_ms + duration_of(r) } else { t.total_ms },
                    overflow: !ok,
                },
            )
        },
        None => g.push(HookStatModel { script: r.script@, calls: 1, total_ms: duration_of(r), overflow: false }),
    }
}

/// Hook calls within the range grouped by script, scripts in order of
/// first call.
pub open spec fn hook_groups(rows: Seq<HookCallRow>, since: Option<Seq<char>>) -> Seq<HookStatModel>
    decreases rows.len(),
{
    if rows.len() == 0 {
        seq![]
    } else {
        let g = hook_groups(rows.drop_last(), since);
        if in_range(rows.last().ts@, since) {
            add_hook(g, rows.last())
        } else {
            g
        }
    }
}

pub open spec fn hooks_fit(g: Seq<HookStatModel>) -> bool {
    forall|i: int| 0 <= i < g.len() ==> !(#[trigger] g[i]).overflow
}

/// (script, calls, total duration) keyed largest total first.
pub open spec fn hook_entries(g: Seq<HookStatModel>) -> Seq<(Seq<u32>, (Seq<char>, i64, i64))> {
    g.map_values(
        |t: HookStatModel| (desc_key(t.total_ms as i64), (t.script, t.calls as i64, t.total_ms as i64)),
    )
}

proof fn lemma_hook_index_bound(g: Seq<HookStatModel>, s: Seq<char>)
    ensures
        hook_index(g, s) matches Some(i) ==> 0 <= i < g.len() && g[i].script == s,
    decreases g.len(),
{
    if g.len() > 0 {
        lemma_hook_index_bound(g.drop_last(), s);
    }
}

proof fn lemma_hook_index_none(g: Seq<HookStatModel>, s: Seq<char>)
    requires
        forall|j: int| 0 <= j < g.len() ==> g[j].script != s,
    ensures
        hook_index(g, s) is None,
    decreases g.len(),
{
    if g.len() > 0 {
        lemma_hook_index_none(g.drop_last(), s);
    }
}

proof fn lemma_hook_index_first(g: Seq<HookStatModel>, s: Seq<char>, i: int)
    requires
        0 <= i < g.len(),
        g[i].script == s,
        forall|j: int| 0 <= j < i ==> g[j].script != s,
    ensures
        hook_index(g, s) == Some(i),
    decreases g.len(),
{
    if i < g.len() - 1 {
        lemma_hook_index_first(g.drop_last(), s, i);
    } else {
        lemma_hook_index_none(g.drop_last(), s);
    }
}

fn find_hook(g: &Vec<HookStat>, script: &str) -> (r: Option<usize>)
    ensures
        match r {
            Some(i) => hook_index(all_views(g@), script@) == Some(i as int),
            None => hook_index(all_views(g@), script@) is None,
        },
{
    let ghost gv = all_views(g@);
    let mut i: usize = 0;
    while i < g.len()
        invariant
            i <= g@.len(),
            gv == all_views(g@),
            forall|j: int| 0 <= j < i ==> gv[j].script != script@,
        decreases g.len() - i,
    {
        if str_eq(g[i].script.as_str(), script) {
            proof {
                lemma_hook_index_first(gv, script@, i as int);
            }
            return Some(i);
        }
        i += 1;
    }
    proof {
        lemma_hook_index_none(gv, script@);
    }
    None
}

fn add_call(t: &mut HookStat, d: i64)
    ensures
        ({
            let o = old(t)@;
            let ok = !o.overflow && fits_i64(o.calls + 1) && fits_i64(o.total_ms + d);
            final(t)@ == HookStatModel {
                script: o.script,
                calls: if ok { o.calls + 1 } else { o.calls },
                total_ms: if ok { o.total_ms + d } else { o.total_ms },
                overflow: !ok,
            }
        }),
{
    if !t.overflow {
        match (t.calls.checked_add(1), t.total_ms.checked_add(d)) {
            (Some(c), Some(m)) => {
                t.calls = c;
                t.total_ms = m;
            },
            _ => {
                t.overflow = true;
            },
        }
    }
}

impl Store {
    /// Hook cost per script within the range: (script, calls, total
    /// duration in ms, an unknown duration counting 0), largest total
    /// first; `None` when a sum overflows.
    pub fn hook_stats(&self, since: Option<&str>) -> (r: Option<Vec<(String, i64, i64)>>)
        ensures
            match r {
                Some(v) => hooks_fit(hook_groups(self.hook_calls@, opt_view_of(since))) && all_views(v@)
                    == sorted_payloads(hook_entries(hook_groups(self.hook_calls@, opt_view_of(since)))),
                None => !hooks_fit(hook_groups(self.hook_calls@, opt_view_of(since))),
            },
    {
        let ghost sv = opt_view_of(since);
        let key = since_key(since);
        let rows = &self.hook_calls;
        let mut groups: Vec<HookStat> = Vec::new();
        let mut i: usize = 0;
        while i < rows.len()
            invariant
                i <= rows@.len(),
                rows@ == self.hook_calls@,
                sv == opt_view_of(since),
                all_views(groups@) == hook_groups(rows@.take(i as int), sv),
                match key {
                    Some(k) => sv matches Some(t) && k@ == code_points(t),
                    None => sv is None,
                },
            decreases rows.len() - i,
        {
            assert(rows@.take(i + 1).drop_last() == rows@.take(i as int));
            assert(rows@.take(i + 1).last() == rows@[i as int]);
            let row = &rows[i];
            if ts_in_range(row.ts.as_str(), &key) {
                let d: i64 = match row.duration_ms {
                    Some(d) => d,
                    None => 0,
                };
                let ghost gv = all_views(groups@);
                match find_hook(&groups, row.script.as_str()) {
                    Some(j) => {
                        proof {
                            lemma_hook_index_bound(gv, row.script@);
                        }
                        let mut t = groups.remove(j);
                        add_call(&mut t, d);
                        groups.insert(j, t);
                        assert(all_views(groups@) =~= add_hook(gv, *row));
                    },
                    None => {
                        groups.push(HookStat { script: row.script.clone(), calls: 1, total_ms: d, overflow: false });
                        assert(all_views(groups@) =~= add_hook(gv, *row));
                    },
                }
            }
            i += 1;
        }
        assert(rows@.take(rows@.len() as int) == rows@);
        let ghost gv = all_views(groups@);
        let mut items: Vec<(i64, (String, i64, i64))> = Vec::new();
        let mut k: usize = 0;
        while k < groups.len()
            invariant
                k <= groups@.len(),
                gv == all_views(groups@),
                gv == hook_groups(self.hook_calls@, opt_view_of(since)),
                forall|j: int| 0 <= j < k ==> !(#[trigger] gv[j]).overflow,
                items@.len() == k,
                forall|j: int|
                    0 <= j < k ==> {
                        let it = #[trigger] items@[j];
                        &&& it.0 == gv[j].total_ms
                        &&& it.1.0@ == gv[j].script
                        &&& it.1.1 == gv[j].calls
                        &&& it.1.2 == gv[j].total_ms
                    },
            decreases groups.len() - k,
        {
            let t = &groups[k];
            if t.overflow {
                assert(gv[k as int].overflow);
                return None;
            }
            items.push((t.total_ms, (t.script.clone(), t.calls, t.total_ms)));
            k += 1;
        }
        let ghost pre = items@;
        let sorted = sort_desc_viewed(items);
        assert(viewed_desc(pre) =~= hook_entries(gv));
        Some(sorted)
    }
}

// ---------------------------------------------------------------------------
// The turns of a time window
// ---------------------------------------------------------------------------

/// One turn's usage, as the per-turn distributions read it.
#[derive(Debug)]
pub struct WindowTurn {
    pub session_id: String,
    pub model: Option<String>,
    pub tokens_in: i64,
    pub tokens_out: i64,
    pub cache_read: i64,
    pub cache_write: i64,
}

pub struct WindowTurnModel {
    pub session_id: Seq<char>,
    pub model: Option<Seq<char>>,
    pub tokens_in: i64,
    pub tokens_out: i64,
    pub cache_read: i64,
    pub cache_write: i64,
}

impl View for WindowTurn {
    type V = WindowTurnModel;

    open spec fn view(&self) -> WindowTurnModel {
        WindowTurnModel {
            session_id: self.session_id@,
            model: opt_string_view(self.model),
            tokens_in: self.tokens_in,
            tokens_out: self.tokens_out,
            cache_read: self.cache_read,
            cache_write: self.cache_write,
        }
    }
}

/// A timestamp within [start, end), compared as text.
pub open spec fn in_window(ts: Seq<char>, start: Seq<char>, end: Seq<char>) -> bool {
    !lex_lt(code_points(ts), code_points(start)) && lex_lt(code_points(ts), code_points(end))
}

pub open spec fn window_turn_of(e: EventRow) -> WindowTurnModel {
    WindowTurnModel {
        session_id: e.session_id@,
        model: opt_string_view(e.model),
        tokens_in: e.tokens_in,
        tokens_out: e.tokens_out,
        cache_read: e.cache_read,
        cache_write: e.cache_write,
    }
}

/// The turns whose time lies in [start, end), in stored order.
pub open spec fn window_spec(events: Seq<EventRow>, start: Seq<char>, end: Seq<char>) -> Seq<WindowTurnModel>
    decreases events.len(),
{
    if events.len() == 0 {
        seq![]
    } else {
        let rest = window_spec(events.drop_last(), start, end);
        let e = events.last();
        if e.granularity == Granularity::Turn && in_window(e.ts@, start, end) {
            rest.push(window_turn_of(e))
        } else {
            rest
        }
    }
}

fn clone_opt(o: &Option<String>) -> (r: Option<String>)
    ensures
        opt_string_view(r) == opt_string_view(*o),
{
    match o {
        Some(s) => Some(s.clone()),
        None => None,
    }
}

impl Store {
    /// The turns whose time lies in [start, end), in stored order.
    pub fn turns_in_window(&self, start: &str, end: &str) -> (r: Vec<WindowTurn>)
        ensures
            all_views(r@) == window_spec(self.events@, start@, end@),
    {
        let mut ks: Vec<u32> = Vec::new();
        push_code_points(&mut ks, start);
        let mut ke: Vec<u32> = Vec::new();
        push_code_points(&mut ke, end);
        assert(ks@ =~= code_points(start@));
        assert(ke@ =~= code_points(end@));
        let rows = &self.events;
        let mut out: Vec<WindowTurn> = Vec::new();
        let mut i: usize = 0;
        while i < rows.len()
            invariant
                i <= rows@.len(),
                rows@ == self.events@,
                ks@ == code_points(start@),
                ke@ == code_points(end@),
                all_views(out@) == window_spec(rows@.take(i as int), start@, end@),
            decreases rows.len() - i,
        {
            assert(rows@.take(i + 1).drop_last() == rows@.take(i as int));
            assert(rows@.take(i + 1).last() == rows@[i as int]);
            let e = &rows[i];
            if e.granularity == Granularity::Turn {
                let mut k: Vec<u32> = Vec::new();
                push_code_points(&mut k, e.ts.as_str());
                assert(k@ =~= code_points(e.ts@));
                if !lex_less(&k, &ks) && lex_less(&k, &ke) {
                    let t = WindowTurn {
                        session_id: e.session_id.clone(),
                        model: clone_opt(&e.model),
                        tokens_in: e.tokens_in,
                        tokens_out: e.tokens_out,
                        cache_read: e.cache_read,
                        cache_write: e.cache_write,
                    };
                    let ghost before = all_views(out@);
                    out.push(t);
                    assert(all_views(out@) =~= before.push(window_turn_of(*e)));
                }
            }
            i += 1;
        }
        assert(rows@.take(rows@.len() as int) == rows@);
        out
    }
}

/// A turn's value of a metric: its priced cost (10^-10 USD) for "cost",
/// its input or cache-read tokens for "input" or "cache_read", its output
/// tokens otherwise.
pub open spec fn metric_value(t: WindowTurnModel, metric: Seq<char>) -> int {
    if metric == "cost"@ {
        crate::pricing::cost_of_spec(
            t.model,
            t.tokens_in as int,
            t.tokens_out as int,
            t.cache_read as int,
            t.cache_write as int,
        )
    } else if metric == "input"@ {
        t.tokens_in as int
    } else if metric == "cache_read"@ {
        t.cache_read as int
    } else {
        t.tokens_out as int
    }
}

fn opt_as_str(o: &Option<String>) -> (r: Option<&str>)
    ensures
        crate::store::opt_str_view(r) == opt_string_view(*o),
{
    match o {
        Some(s) => Some(s.as_str()),
        None => None,
    }
}

/// Each turn's value of the metric, in turn order.
pub fn metric_values(turns: &Vec<WindowTurn>, metric: &str) -> (r: Vec<i128>)
    ensures
        r@.len() == turns@.len(),
        forall|i: int| 0 <= i < r@.len() ==> (#[trigger] r@[i]) as int == metric_value(turns@[i]@, metric@),
{
    let is_cost = str_eq(metric, "cost");
    let is_input = str_eq(metric, "input");
    let is_cache = str_eq(metric, "cache_read");
    let mut out: Vec<i128> = Vec::new();
    let mut i: usize = 0;
    while i < turns.len()
        invariant
            i <= turns@.len(),
            out@.len() == i,
            is_cost == (metric@ == "cost"@),
            is_input == (metric@ == "input"@),
            is_cache == (metric@ == "cache_read"@),
            forall|j: int| 0 <= j < i ==> (#[trigger] out@[j]) as int == metric_value(turns@[j]@, metric@),
        decreases turns.len() - i,
    {
        let t = &turns[i];
        let v: i128 = if is_cost {
            crate::pricing::cost_of(opt_as_str(&t.model), t.tokens_in, t.tokens_out, t.cache_read, t.cache_write)
        } else if is_input {
            t.tokens_in as i128
        } else if is_cache {
            t.cache_read as i128
        } else {
            t.tokens_out as i128
        };
        out.push(v);
        i += 1;
    }
    out
}

/// The distinct sessions among the turns, in order of first appearance.
pub open spec fn distinct_sessions(turns: Seq<WindowTurnModel>) -> Seq<Seq<char>>
    decreases turns.len(),
{
    if turns.len() == 0 {
        seq![]
    } else {
        let d = distinct_sessions(turns.drop_last());
        if d.contains(turns.last().session_id) {
            d
        } else {
            d.push(turns.last().session_id)
        }
    }
}

/// How many distinct sessions the turns come from.
pub fn session_count(turns: &Vec<WindowTurn>) -> (r: usize)
    ensures
        r as int == distinct_sessions(all_views(turns@)).len(),
{
    let ghost tv = all_views(turns@);
    let mut seen: Vec<String> = Vec::new();
    let mut i: usize = 0;
    while i < turns.len()
        invariant
            i <= turns@.len(),
            tv == all_views(turns@),
            string_views(seen@) == distinct_sessions(tv.take(i as int)),
            seen@.len() <= i,
        decreases turns.len() - i,
    {
        assert(tv.take(i + 1).drop_last() =~= tv.take(i as int));
        assert(tv.take(i + 1).last() == turns@[i as int]@);
        if !crate::text::contains_string(&seen, &turns[i].session_id) {
            let ghost before = string_views(seen@);
            seen.push(turns[i].session_id.clone());
            assert(string_views(seen@) =~= before.push(turns@[i as int].session_id@));
        }
        i += 1;
    }
    assert(tv.take(tv.len() as int) =~= tv);
    seen.len()
}

} // verus!
