//! Applying parsed transcript records to the store, and ingesting a chunk
//! of transcript bytes read from a stored offset.

use vstd::prelude::*;

use crate::collectors::claude_code::{
    hook_key, hook_key_spec, key_spec, opt_string_view, record_key, sidechain_meta, HookCall, HookCallModel, Parsed,
    ParsedModel, ToolResult, ToolResultModel, ToolUse, ToolUseModel, Turn, TurnModel, PROVIDER,
};
use crate::activity::hook_key_taken;
use crate::json::{spec_json_text, JsonValue};
use crate::store::{
    event_key_taken, merged_session, session_index, session_views, tool_key_taken, EventRow, Granularity,
    HookCallRow, SessionModel, Store, ToolCallRow,
};

verus! {

// ---------------------------------------------------------------------------
// A turn
// ---------------------------------------------------------------------------

/// The stored event of a turn.
pub open spec fn turn_row_of(row: EventRow, t: TurnModel) -> bool {
    &&& row.session_id@ == t.session_id
    &&& row.ts@ == t.ts
    &&& row.granularity == Granularity::Turn
    &&& opt_string_view(row.model) == t.model
    &&& row.tokens_in == t.tokens_in
    &&& row.tokens_out == t.tokens_out
    &&& row.cache_read == t.cache_read
    &&& row.cache_write == t.cache_write
    &&& row.cost is None
    &&& opt_string_view(row.dedup_key) == Some(key_spec(t.uuid))
    &&& exists|m: JsonValue|
        #[trigger] sidechain_meta(m, t.is_sidechain) && opt_string_view(row.meta) == Some(spec_json_text(m))
}

/// The sessions after a turn: its session recorded, or refreshed with the
/// turn's working directory and time.
pub open spec fn sessions_after_turn(before: Seq<SessionRow>, after: Seq<SessionRow>, t: TurnModel) -> bool {
    match session_index(before, t.session_id) {
        Some(i) => session_views(after) == session_views(before).update(
            i,
            merged_session(before[i]@, t.cwd, Some(t.ts)),
        ),
        None => session_views(after) == session_views(before).push(
            SessionModel { id: t.session_id, provider: "code-assistant"@, project: t.cwd, started_at: Some(t.ts) },
        ),
    }
}

/// The events after a turn: its event appended unless its key is stored
/// (`added` says which).
pub open spec fn events_after_turn(before: Seq<EventRow>, after: Seq<EventRow>, t: TurnModel, added: bool) -> bool {
    &&& added == !event_key_taken(before, key_spec(t.uuid))
    &&& added ==> after.len() == before.len() + 1 && after.drop_last() == before && turn_row_of(after.last(), t)
    &&& !added ==> after == before
}

use crate::store::SessionRow;

impl Store {
    /// Records a turn: its session upserted (project from its working
    /// directory, start from its time), then its event inserted; returns
    /// whether the event was new.
    pub fn apply_turn(&mut self, turn: Turn) -> (r: bool)
        ensures
            sessions_after_turn(old(self).sessions@, final(self).sessions@, turn@),
            events_after_turn(old(self).events@, final(self).events@, turn@, r),
            final(self).tool_calls == old(self).tool_calls,
            final(self).kv == old(self).kv,
            final(self).files == old(self).files,
            final(self).hook_calls == old(self).hook_calls,
            final(self).markers == old(self).markers,
    {
        let ghost t = turn@;
        let cwd: Option<&str> = match &turn.cwd {
            Some(c) => Some(c.as_str()),
            None => None,
        };
        self.upsert_session(turn.session_id.as_str(), PROVIDER, cwd, Some(turn.ts.as_str()));
        let ghost mid = self.events@;
        let ev = turn.into_event();
        let added = self.insert_event(&ev);
        proof {
            if added {
                let row = self.events@.last();
                let m = ev.meta->Some_0;
                assert(sidechain_meta(m, t.is_sidechain));
                assert(opt_string_view(row.meta) == Some(spec_json_text(m)));
                assert(turn_row_of(row, t));
            }
        }
        added
    }
}

// ---------------------------------------------------------------------------
// Tool calls
// ---------------------------------------------------------------------------

/// The stored row of a freshly inserted tool call.
pub open spec fn tool_row_of(row: ToolCallRow, u: ToolUseModel) -> bool {
    &&& row.session_id@ == u.session_id
    &&& row.ts@ == u.ts
    &&& row.tool@ == u.tool
    &&& opt_string_view(row.target) == u.target
    &&& row.dedup_key@ == key_spec(u.id)
    &&& row.result_chars is None
}

/// The tool uses that get inserted: those whose key is neither stored nor
/// used by an earlier one of them.
pub open spec fn fresh_uses(rows: Seq<ToolCallRow>, uses: Seq<ToolUseModel>) -> Seq<ToolUseModel>
    decreases uses.len(),
{
    if uses.len() == 0 {
        seq![]
    } else {
        let prev = fresh_uses(rows, uses.drop_last());
        let u = uses.last();
        if tool_key_taken(rows, key_spec(u.id)) || exists|k: int|
            0 <= k < prev.len() && key_spec(#[trigger] prev[k].id) == key_spec(u.id) {
            prev
        } else {
            prev.push(u)
        }
    }
}

/// `after` is `before` with a row for each of `fresh` appended, in order.
pub open spec fn tools_appended(before: Seq<ToolCallRow>, after: Seq<ToolCallRow>, fresh: Seq<ToolUseModel>) -> bool {
    &&& after.len() == before.len() + fresh.len()
    &&& after.take(before.len() as int) == before
    &&& forall|k: int| 0 <= k < fresh.len() ==> tool_row_of(#[trigger] after[before.len() + k], fresh[k])
}

pub open spec fn use_views(s: Seq<ToolUse>) -> Seq<ToolUseModel> {
    s.map_values(|t: ToolUse| t@)
}

proof fn lemma_tool_key_appended(
    before: Seq<ToolCallRow>,
    after: Seq<ToolCallRow>,
    fresh: Seq<ToolUseModel>,
    key: Seq<char>,
)
    requires
        tools_appended(before, after, fresh),
    ensures
        tool_key_taken(after, key) == (tool_key_taken(before, key) || exists|k: int|
            0 <= k < fresh.len() && key_spec(#[trigger] fresh[k].id) == key),
{
    if tool_key_taken(after, key) {
        let j = choose|j: int| 0 <= j < after.len() && (#[trigger] after[j].dedup_key)@ == key;
        if j < before.len() {
            assert(after.take(before.len() as int)[j] == after[j]);
            assert(before[j].dedup_key@ == key);
        } else {
            let k = j - before.len();
            assert(tool_row_of(after[before.len() + k], fresh[k]));
        }
    }
    if tool_key_taken(before, key) {
        let j = choose|j: int| 0 <= j < before.len() && (#[trigger] before[j].dedup_key)@ == key;
        assert(after.take(before.len() as int)[j] == after[j]);
        assert(after[j].dedup_key@ == key);
    }
    if exists|k: int| 0 <= k < fresh.len() && key_spec(#[trigger] fresh[k].id) == key {
        let k = choose|k: int| 0 <= k < fresh.len() && key_spec(#[trigger] fresh[k].id) == key;
        assert(tool_row_of(after[before.len() + k], fresh[k]));
        assert(after[before.len() + k].dedup_key@ == key);
    }
}

impl Store {
    /// Records a record's tool calls (result sizes not yet known); a call
    /// whose key is already stored is skipped.
    pub fn apply_tool_uses(&mut self, uses: &Vec<ToolUse>)
        ensures
            tools_appended(old(self).tool_calls@, final(self).tool_calls@, fresh_uses(old(self).tool_calls@, use_views(uses@))),
            final(self).sessions == old(self).sessions,
            final(self).events == old(self).events,
            final(self).kv == old(self).kv,
            final(self).files == old(self).files,
            final(self).hook_calls == old(self).hook_calls,
            final(self).markers == old(self).markers,
    {
        let ghost start = *self;
        let ghost uv = use_views(uses@);
        let mut i: usize = 0;
        assert(self.tool_calls@.take(start.tool_calls@.len() as int) =~= start.tool_calls@);
        assert(uv.take(0) =~= Seq::<ToolUseModel>::empty());
        while i < uses.len()
            invariant
                i <= uses@.len(),
                uv == use_views(uses@),
                tools_appended(start.tool_calls@, self.tool_calls@, fresh_uses(start.tool_calls@, uv.take(i as int))),
                self.sessions == start.sessions,
                self.events == start.events,
                self.kv == start.kv,
                self.files == start.files,
                self.hook_calls == start.hook_calls,
                self.markers == start.markers,
            decreases uses.len() - i,
        {
            let u = &uses[i];
            let ghost before = self.tool_calls@;
            let ghost prev = fresh_uses(start.tool_calls@, uv.take(i as int));
            assert(uv.take(i + 1).drop_last() =~= uv.take(i as int));
            assert(uv.take(i + 1).last() == u@);
            let key = record_key(u.id.as_str());
            let target: Option<&str> = match &u.target {
                Some(t) => Some(t.as_str()),
                None => None,
            };
            proof {
                lemma_tool_key_appended(start.tool_calls@, before, prev, key_spec(u@.id));
            }
            let added = self.insert_tool_use(u.session_id.as_str(), u.ts.as_str(), u.tool.as_str(), target, key.as_str());
            proof {
                let s0 = start.tool_calls@;
                let after = self.tool_calls@;
                if added {
                    let fresh = prev.push(u@);
                    assert(fresh_uses(s0, uv.take(i + 1)) == fresh);
                    assert(after.take(s0.len() as int) =~= s0) by {
                        assert(after.drop_last() == before);
                        assert(before.take(s0.len() as int) == s0);
                    }
                    assert forall|k: int| 0 <= k < fresh.len() implies tool_row_of(#[trigger] after[s0.len() + k], fresh[k]) by {
                        if k < prev.len() {
                            assert(after[s0.len() + k] == before[s0.len() + k]);
                        }
                    }
                } else {
                    assert(fresh_uses(s0, uv.take(i + 1)) == prev);
                }
            }
            i += 1;
        }
        assert(uv.take(uses@.len() as int) =~= uv);
    }
}

/// A tool call's result size after a pass over results: the last result
/// for its key, else what it had.
pub open spec fn result_after(key: Seq<char>, prior: Option<i64>, results: Seq<ToolResultModel>) -> Option<i64>
    decreases results.len(),
{
    if results.len() == 0 {
        prior
    } else if key_spec(results.last().tool_use_id) == key {
        Some(results.last().chars)
    } else {
        result_after(key, prior, results.drop_last())
    }
}

/// `after` is `before` with the result sizes of `results` recorded.
pub open spec fn results_applied(before: Seq<ToolCallRow>, after: Seq<ToolCallRow>, results: Seq<ToolResultModel>) -> bool {
    &&& after.len() == before.len()
    &&& forall|j: int|
        0 <= j < before.len() ==> {
            let o = before[j];
            let n = #[trigger] after[j];
            &&& n.session_id == o.session_id
            &&& n.ts == o.ts
            &&& n.tool == o.tool
            &&& n.target == o.target
            &&& n.dedup_key == o.dedup_key
            &&& n.result_chars == result_after(o.dedup_key@, o.result_chars, results)
        }
}

pub open spec fn result_views(s: Seq<ToolResult>) -> Seq<ToolResultModel> {
    s.map_values(|t: ToolResult| t@)
}

impl Store {
    /// Records the result sizes of a record's tool results on the calls
    /// they answer.
    pub fn apply_tool_results(&mut self, results: &Vec<ToolResult>)
        ensures
            results_applied(old(self).tool_calls@, final(self).tool_calls@, result_views(results@)),
            final(self).sessions == old(self).sessions,
            final(self).events == old(self).events,
            final(self).kv == old(self).kv,
            final(self).files == old(self).files,
            final(self).hook_calls == old(self).hook_calls,
            final(self).markers == old(self).markers,
    {
        let ghost start = *self;
        let ghost rv = result_views(results@);
        let mut i: usize = 0;
        assert(rv.take(0) =~= Seq::<ToolResultModel>::empty());
        while i < results.len()
            invariant
                i <= results@.len(),
                rv == result_views(results@),
                results_applied(start.tool_calls@, self.tool_calls@, rv.take(i as int)),
                self.sessions == start.sessions,
                self.events == start.events,
                self.kv == start.kv,
                self.files == start.files,
                self.hook_calls == start.hook_calls,
                self.markers == start.markers,
            decreases results.len() - i,
        {
            let r = &results[i];
            assert(rv.take(i + 1).drop_last() =~= rv.take(i as int));
            assert(rv.take(i + 1).last() == r@);
            let key = record_key(r.tool_use_id.as_str());
            self.set_tool_result_chars(key.as_str(), r.chars);
            i += 1;
        }
        assert(rv.take(results@.len() as int) =~= rv);
    }
}

// ---------------------------------------------------------------------------
// Hook calls
// ---------------------------------------------------------------------------

/// The stored row of a freshly inserted hook call.
pub open spec fn hook_row_of(row: HookCallRow, h: HookCallModel) -> bool {
    &&& row.session_id@ == h.session_id
    &&& row.ts@ == h.ts
    &&& row.script@ == h.script
    &&& row.duration_ms == h.duration_ms
    &&& row.dedup_key@ == hook_key_spec(h.uuid, h.idx)
}

/// The hook calls that get inserted: those whose key is neither stored nor
/// used by an earlier one of them.
pub open spec fn fresh_hooks(rows: Seq<HookCallRow>, hooks: Seq<HookCallModel>) -> Seq<HookCallModel>
    decreases hooks.len(),
{
    if hooks.len() == 0 {
        seq![]
    } else {
        let prev = fresh_hooks(rows, hooks.drop_last());
        let h = hooks.last();
        if hook_key_taken(rows, hook_key_spec(h.uuid, h.idx)) || exists|k: int|
            0 <= k < prev.len() && hook_key_spec((#[trigger] prev[k]).uuid, prev[k].idx) == hook_key_spec(
                h.uuid,
                h.idx,
            ) {
            prev
        } else {
            prev.push(h)
        }
    }
}

/// `after` is `before` with a row for each of `fresh` appended, in order.
pub open spec fn hooks_appended(before: Seq<HookCallRow>, after: Seq<HookCallRow>, fresh: Seq<HookCallModel>) -> bool {
    &&& after.len() == before.len() + fresh.len()
    &&& after.take(before.len() as int) == before
    &&& forall|k: int| 0 <= k < fresh.len() ==> hook_row_of(#[trigger] after[before.len() + k], fresh[k])
}

pub open spec fn hook_views(s: Seq<HookCall>) -> Seq<HookCallModel> {
    s.map_values(|h: HookCall| h@)
}

proof fn lemma_hook_key_appended(
    before: Seq<HookCallRow>,
    after: Seq<HookCallRow>,
    fresh: Seq<HookCallModel>,
    key: Seq<char>,
)
    requires
        hooks_appended(before, after, fresh),
    ensures
        hook_key_taken(after, key) == (hook_key_taken(before, key) || exists|k: int|
            0 <= k < fresh.len() && hook_key_spec((#[trigger] fresh[k]).uuid, fresh[k].idx) == key),
{
    if hook_key_taken(after, key) {
        let j = choose|j: int| 0 <= j < after.len() && (#[trigger] after[j].dedup_key)@ == key;
        if j < before.len() {
            assert(after.take(before.len() as int)[j] == after[j]);
            assert(before[j].dedup_key@ == key);
        } else {
            let k = j - before.len();
            assert(hook_row_of(after[before.len() + k], fresh[k]));
        }
    }
    if hook_key_taken(before, key) {
        let j = choose|j: int| 0 <= j < before.len() && (#[trigger] before[j].dedup_key)@ == key;
        assert(after.take(before.len() as int)[j] == after[j]);
        assert(after[j].dedup_key@ == key);
    }
    if exists|k: int| 0 <= k < fresh.len() && hook_key_spec((#[trigger] fresh[k]).uuid, fresh[k].idx) == key {
        let k = choose|k: int| 0 <= k < fresh.len() && hook_key_spec((#[trigger] fresh[k]).uuid, fresh[k].idx) == key;
        assert(hook_row_of(after[before.len() + k], fresh[k]));
        assert(after[before.len() + k].dedup_key@ == key);
    }
}

impl Store {
    /// Records a record's hook calls; a call whose key is already stored is
    /// skipped.
    pub fn apply_hook_calls(&mut self, hooks: &Vec<HookCall>)
        ensures
            hooks_appended(old(self).hook_calls@, final(self).hook_calls@, fresh_hooks(old(self).hook_calls@, hook_views(hooks@))),
            final(self).sessions == old(self).sessions,
            final(self).events == old(self).events,
            final(self).tool_calls == old(self).tool_calls,
            final(self).kv == old(self).kv,
            final(self).files == old(self).files,
            final(self).markers == old(self).markers,
    {
        let ghost start = *self;
        let ghost hv = hook_views(hooks@);
        let mut i: usize = 0;
        assert(self.hook_calls@.take(start.hook_calls@.len() as int) =~= start.hook_calls@);
        assert(hv.take(0) =~= Seq::<HookCallModel>::empty());
        while i < hooks.len()
            invariant
                i <= hooks@.len(),
                hv == hook_views(hooks@),
                hooks_appended(start.hook_calls@, self.hook_calls@, fresh_hooks(start.hook_calls@, hv.take(i as int))),
                self.sessions == start.sessions,
                self.events == start.events,
                self.tool_calls == start.tool_calls,
                self.kv == start.kv,
                self.files == start.files,
                self.markers == start.markers,
            decreases hooks.len() - i,
        {
            let h = &hooks[i];
            let ghost before = self.hook_calls@;
            let ghost prev = fresh_hooks(start.hook_calls@, hv.take(i as int));
            assert(hv.take(i + 1).drop_last() =~= hv.take(i as int));
            assert(hv.take(i + 1).last() == h@);
            let key = hook_key(h.uuid.as_str(), h.idx);
            proof {
                lemma_hook_key_appended(start.hook_calls@, before, prev, hook_key_spec(h@.uuid, h@.idx));
            }
            let added = self.insert_hook_call(h.session_id.as_str(), h.ts.as_str(), h.script.as_str(), h.duration_ms, key.as_str());
            proof {
                let s0 = start.hook_calls@;
                let after = self.hook_calls@;
                if added {
                    let fresh = prev.push(h@);
                    assert(fresh_hooks(s0, hv.take(i + 1)) == fresh);
                    assert(after.take(s0.len() as int) =~= s0) by {
                        assert(after.drop_last() == before);
                        assert(before.take(s0.len() as int) == s0);
                    }
                    assert forall|k: int| 0 <= k < fresh.len() implies hook_row_of(#[trigger] after[s0.len() + k], fresh[k]) by {
                        if k < prev.len() {
                            assert(after[s0.len() + k] == before[s0.len() + k]);
                        }
                    }
                } else {
                    assert(fresh_hooks(s0, hv.take(i + 1)) == prev);
                }
            }
            i += 1;
        }
        assert(hv.take(hooks@.len() as int) =~= hv);
    }
}

// ---------------------------------------------------------------------------
// A record, and a chunk of transcript
// ---------------------------------------------------------------------------

/// What recording one parsed line does to the store: the turn's session
/// and event (`added` says whether the event was new), the fresh tool
/// calls appended and then the result sizes recorded, the fresh hook
/// calls appended; nothing else changes.
#[verifier::opaque]
pub open spec fn record_applied(before: Store, after: Store, p: ParsedModel, added: bool) -> bool {
    &&& match p.turn {
        Some(t) => sessions_after_turn(before.sessions@, after.sessions@, t) && events_after_turn(
            before.events@,
            after.events@,
            t,
            added,
        ),
        None => !added && after.sessions == before.sessions && after.events == before.events,
    }
    &&& exists|mid: Seq<ToolCallRow>|
        tools_appended(before.tool_calls@, mid, fresh_uses(before.tool_calls@, p.tool_uses)) && results_applied(
            mid,
            after.tool_calls@,
            p.tool_results,
        )
    &&& hooks_appended(before.hook_calls@, after.hook_calls@, fresh_hooks(before.hook_calls@, p.hook_calls))
    &&& after.kv == before.kv
    &&& after.files == before.files
    &&& after.markers == before.markers
}

impl Store {
    /// Records one parsed transcript line; returns whether it added an
    /// event.
    pub fn apply_record(&mut self, parsed: Parsed) -> (r: bool)
        ensures
            record_applied(*old(self), *final(self), parsed@, r),
            final(self).files == old(self).files,
    {
        let ghost p = parsed@;
        let ghost start = *self;
        let added = match parsed.turn {
            Some(t) => self.apply_turn(t),
            None => false,
        };
        let ghost s1 = *self;
        self.apply_tool_uses(&parsed.tool_uses);
        let ghost mid = self.tool_calls@;
        self.apply_tool_results(&parsed.tool_results);
        self.apply_hook_calls(&parsed.hook_calls);
        proof {
            reveal(record_applied);
            assert(use_views(parsed.tool_uses@) == p.tool_uses);
            assert(result_views(parsed.tool_results@) == p.tool_results);
            assert(hook_views(parsed.hook_calls@) == p.hook_calls);
            assert(s1.tool_calls == start.tool_calls);
            assert(tools_appended(start.tool_calls@, mid, fresh_uses(start.tool_calls@, p.tool_uses)));
        }
        added
    }
}

/// The number of records that added an event.
pub open spec fn count_added(added: Seq<bool>) -> int
    decreases added.len(),
{
    if added.len() == 0 {
        0
    } else {
        count_added(added.drop_last()) + if added.last() {
            1int
        } else {
            0int
        }
    }
}

/// The number of lines that yielded nothing.
pub open spec fn count_empty(records: Seq<ParsedModel>) -> int
    decreases records.len(),
{
    if records.len() == 0 {
        0
    } else {
        count_empty(records.drop_last()) + if records.last().turn is None && records.last().tool_uses.len() == 0
            && records.last().tool_results.len() == 0 && records.last().hook_calls.len() == 0 {
            1int
        } else {
            0int
        }
    }
}

proof fn lemma_lines_fit(ls: Seq<Seq<u8>>)
    requires
        forall|j: int| 0 <= j < ls.len() ==> is_line(#[trigger] ls[j]),
    ensures
        ls.len() <= ls.flatten_alt().len(),
    decreases ls.len(),
{
    if ls.len() > 0 {
        let d = ls.drop_last();
        assert forall|j: int| 0 <= j < d.len() implies is_line(#[trigger] d[j]) by {
            assert(d[j] == ls[j]);
        }
        lemma_lines_fit(d);
        assert(is_line(ls[ls.len() - 1]));
    }
}

use crate::collectors::claude_code::{is_line, line_record_spec, no_newline, parse_chunk, resume_spec, splits_into};
use crate::collectors::IngestReport;
use crate::store::offset_lookup;

/// Ingesting `buf`, read from `offset` of the transcript at `path`: it
/// splits into the complete lines `ls` (`consumed` bytes); `states` are the
/// store before and after recording each line in order (`added[k]` whether
/// line k added an event); the offset of `path` then moves past the
/// consumed bytes, other offsets unchanged.
#[verifier::opaque]
pub open spec fn chunk_ingested(
    before: Store,
    after: Store,
    path: Seq<char>,
    offset: u64,
    buf: Seq<u8>,
    ls: Seq<Seq<u8>>,
    consumed: int,
    states: Seq<Store>,
    added: Seq<bool>,
) -> bool {
    let records = ls.map_values(|l: Seq<u8>| line_record_spec(l));
    &&& splits_into(buf, ls, consumed)
    &&& states.len() == ls.len() + 1
    &&& added.len() == ls.len()
    &&& states[0] == before
    &&& forall|k: int| 0 <= k < ls.len() ==> record_applied(#[trigger] states[k], states[k + 1], records[k], added[k])
    &&& after.sessions == states.last().sessions
    &&& after.events == states.last().events
    &&& after.tool_calls == states.last().tool_calls
    &&& after.kv == states.last().kv
    &&& after.hook_calls == states.last().hook_calls
    &&& after.markers == states.last().markers
    &&& offset_lookup(after.files@, path) == Some((offset + consumed) as i64)
    &&& forall|q: Seq<char>| q != path ==> offset_lookup(after.files@, q) == offset_lookup(before.files@, q)
}

impl Store {
    /// Ingests the bytes of a transcript read from `offset` on: every
    /// complete line is parsed and recorded in order, the stored offset of
    /// `path` moves past the last complete line (a partial trailing line is
    /// left for the next pass), and the report counts the file as read, the
    /// events added and the lines that yielded nothing.
    #[verifier::rlimit(50)]
    pub fn ingest_chunk(&mut self, path: &str, offset: u64, buf: &Vec<u8>, report: &mut IngestReport)
        requires
            offset + buf@.len() <= u64::MAX,
            offset + buf@.len() <= i64::MAX,
            old(report).files_read < usize::MAX,
            old(report).events_added + buf@.len() < usize::MAX,
            old(report).lines_skipped + buf@.len() < usize::MAX,
        ensures
            exists|ls: Seq<Seq<u8>>, consumed: int, states: Seq<Store>, added: Seq<bool>|
                #[trigger] chunk_ingested(
                    *old(self),
                    *final(self),
                    path@,
                    offset,
                    buf@,
                    ls,
                    consumed,
                    states,
                    added,
                ) && final(report).events_added == old(report).events_added + count_added(added)
                    && final(report).lines_skipped == old(report).lines_skipped + count_empty(
                    ls.map_values(|l: Seq<u8>| line_record_spec(l)),
                ),
            final(report).files_seen == old(report).files_seen,
            final(report).files_read == old(report).files_read + 1,
    {
        report.files_read = report.files_read + 1;
        let batch = parse_chunk(buf);
        let ghost ls = choose|ls: Seq<Seq<u8>>|
            {
                &&& splits_into(buf@, ls, batch.consumed as int)
                &&& batch.records@.len() == ls.len()
                &&& forall|j: int|
                    0 <= j < ls.len() ==> (#[trigger] batch.records@[j])@ == line_record_spec(ls[j])
            };
        let ghost records = ls.map_values(|l: Seq<u8>| line_record_spec(l));
        proof {
            lemma_lines_fit(ls);
        }
        let consumed = batch.consumed;
        let mut rest = crate::sort::reversed(batch.records);
        let ghost all = rest@.reverse();
        let n = rest.len();
        let ghost mut states: Seq<Store> = seq![*self];
        let ghost mut added: Seq<bool> = seq![];
        let ghost start_report = *report;
        let mut k: usize = 0;
        while rest.len() > 0
            invariant
                k + rest@.len() == n,
                n == all.len(),
                n == ls.len(),
                ls.len() <= buf@.len(),
                rest@.reverse() == all.skip(k as int),
                forall|j: int| 0 <= j < ls.len() ==> (#[trigger] all[j])@ == records[j],
                records == ls.map_values(|l: Seq<u8>| line_record_spec(l)),
                states.len() == k + 1,
                added.len() == k,
                states[0] == *old(self),
                states.last() == *self,
                self.files == old(self).files,
                forall|j: int| 0 <= j < k ==> record_applied(#[trigger] states[j], states[j + 1], records[j], added[j]),
                report.files_seen == start_report.files_seen,
                report.files_read == start_report.files_read,
                start_report.events_added + buf@.len() < usize::MAX,
                start_report.lines_skipped + buf@.len() < usize::MAX,
                report.events_added == start_report.events_added + count_added(added),
                report.lines_skipped == start_report.lines_skipped + count_empty(records.take(k as int)),
                count_added(added) <= k,
                count_empty(records.take(k as int)) <= k,
            decreases rest.len(),
        {
            let ghost bv = rest@;
            let rec = rest.pop().unwrap();
            assert(bv.reverse()[0] == bv.last());
            assert(all.skip(k as int)[0] == all[k as int]);
            assert(rest@.reverse() == all.skip(k + 1)) by {
                assert(bv.reverse().drop_first() == bv.drop_last().reverse());
                assert(all.skip(k as int).drop_first() == all.skip(k + 1));
            }
            assert(rec@ == records[k as int]);
            let empty = rec.is_empty();
            let ghost before = *self;
            let was_added = self.apply_record(rec);
            proof {
                let old_added = added;
                let old_states = states;
                states = states.push(*self);
                added = added.push(was_added);
                assert(added.drop_last() =~= old_added);
                assert(states.drop_last() =~= old_states);
                assert(records.take(k + 1).drop_last() =~= records.take(k as int));
                assert(records.take(k + 1).last() == records[k as int]);
                assert forall|j: int| 0 <= j < k + 1 implies record_applied(#[trigger] states[j], states[j + 1], records[j], added[j]) by {
                    if j < k {
                        assert(states[j] == states.drop_last()[j]);
                    }
                }
            }
            if was_added {
                report.events_added = report.events_added + 1;
            }
            if empty {
                report.lines_skipped = report.lines_skipped + 1;
            }
            k += 1;
        }
        assert(records.take(n as int) =~= records);
        let ghost pre = *self;
        assert(consumed <= buf@.len());
        let stored: u64 = offset + consumed as u64;
        self.set_file_offset(path, stored);
        proof {
            assert(states.last() == pre);
            assert(self.sessions == pre.sessions);
            assert(offset_lookup(self.files@, path@) == Some((offset + consumed) as i64));
            assert(forall|q: Seq<char>| q != path@ ==> offset_lookup(self.files@, q) == offset_lookup(pre.files@, q));
            assert(pre.files == old(self).files);
            assert(splits_into(buf@, ls, consumed as int));
            reveal(chunk_ingested);
            assert(chunk_ingested(*old(self), *self, path@, offset, buf@, ls, consumed as int, states, added));
        }
    }
}

// ---------------------------------------------------------------------------
// Re-ingesting a record changes nothing
// ---------------------------------------------------------------------------

proof fn lemma_session_index_bound(rows: Seq<SessionRow>, id: Seq<char>)
    ensures
        session_index(rows, id) matches Some(i) ==> 0 <= i < rows.len() && rows[i].id@ == id,
    decreases rows.len(),
{
    if rows.len() > 0 {
        lemma_session_index_bound(rows.drop_first(), id);
    }
}

proof fn lemma_session_index_same_ids(a: Seq<SessionRow>, b: Seq<SessionRow>, id: Seq<char>)
    requires
        a.len() == b.len(),
        forall|k: int| 0 <= k < a.len() ==> (#[trigger] a[k]).id@ == b[k].id@,
    ensures
        session_index(a, id) == session_index(b, id),
    decreases a.len(),
{
    if a.len() > 0 {
        assert forall|k: int| 0 <= k < a.drop_first().len() implies (#[trigger] a.drop_first()[k]).id@ == b.drop_first()[k].id@ by {
            assert(a.drop_first()[k] == a[k + 1]);
            assert(b.drop_first()[k] == b[k + 1]);
        }
        lemma_session_index_same_ids(a.drop_first(), b.drop_first(), id);
    }
}

proof fn lemma_session_index_pushed(a: Seq<SessionRow>, b: Seq<SessionRow>, id: Seq<char>)
    requires
        session_index(a, id) is None,
        b.len() == a.len() + 1,
        forall|k: int| 0 <= k < a.len() ==> (#[trigger] a[k]).id@ == b[k].id@,
        b[a.len() as int].id@ == id,
    ensures
        session_index(b, id) == Some(a.len() as int),
    decreases a.len(),
{
    if a.len() > 0 {
        assert forall|k: int| 0 <= k < a.drop_first().len() implies (#[trigger] a.drop_first()[k]).id@ == b.drop_first()[k].id@ by {
            assert(a.drop_first()[k] == a[k + 1]);
            assert(b.drop_first()[k] == b[k + 1]);
        }
        assert(b.drop_first()[a.drop_first().len() as int] == b[a.len() as int]);
        lemma_session_index_pushed(a.drop_first(), b.drop_first(), id);
    }
}

proof fn lemma_merge_twice(o: SessionModel, project: Option<Seq<char>>, ts: Seq<char>)
    ensures
        merged_session(merged_session(o, project, Some(ts)), project, Some(ts)) == merged_session(o, project, Some(ts)),
{
    crate::sort::lemma_lex_irreflexive(crate::sort::code_points(ts));
    match o.started_at {
        Some(x) => crate::sort::lemma_lex_irreflexive(crate::sort::code_points(x)),
        None => {},
    }
}

proof fn lemma_fresh_uses_cover(rows: Seq<ToolCallRow>, uses: Seq<ToolUseModel>)
    ensures
        forall|m: int|
            0 <= m < uses.len() ==> tool_key_taken(rows, key_spec((#[trigger] uses[m]).id)) || exists|k: int|
                0 <= k < fresh_uses(rows, uses).len() && key_spec(#[trigger] fresh_uses(rows, uses)[k].id)
                    == key_spec(uses[m].id),
    decreases uses.len(),
{
    if uses.len() > 0 {
        let d = uses.drop_last();
        lemma_fresh_uses_cover(rows, d);
        let prev = fresh_uses(rows, d);
        let fresh = fresh_uses(rows, uses);
        assert forall|m: int| 0 <= m < uses.len() implies tool_key_taken(rows, key_spec((#[trigger] uses[m]).id))
            || exists|k: int| 0 <= k < fresh.len() && key_spec(#[trigger] fresh[k].id) == key_spec(uses[m].id) by {
            if m < d.len() {
                assert(d[m] == uses[m]);
                if !tool_key_taken(rows, key_spec(uses[m].id)) {
                    let k = choose|k: int| 0 <= k < prev.len() && key_spec(#[trigger] prev[k].id) == key_spec(d[m].id);
                    assert(fresh[k] == prev[k]);
                }
            } else if !tool_key_taken(rows, key_spec(uses[m].id)) {
                if exists|k: int| 0 <= k < prev.len() && key_spec(#[trigger] prev[k].id) == key_spec(uses.last().id) {
                    let k = choose|k: int| 0 <= k < prev.len() && key_spec(#[trigger] prev[k].id) == key_spec(uses.last().id);
                    assert(fresh[k] == prev[k]);
                } else {
                    assert(fresh[prev.len() as int] == uses.last());
                }
            }
        }
    }
}

proof fn lemma_fresh_uses_none(rows: Seq<ToolCallRow>, uses: Seq<ToolUseModel>)
    requires
        forall|m: int| 0 <= m < uses.len() ==> tool_key_taken(rows, key_spec((#[trigger] uses[m]).id)),
    ensures
        fresh_uses(rows, uses).len() == 0,
    decreases uses.len(),
{
    if uses.len() > 0 {
        let d = uses.drop_last();
        assert forall|m: int| 0 <= m < d.len() implies tool_key_taken(rows, key_spec((#[trigger] d[m]).id)) by {
            assert(d[m] == uses[m]);
        }
        lemma_fresh_uses_none(rows, d);
        assert(tool_key_taken(rows, key_spec(uses[uses.len() - 1].id)));
    }
}

proof fn lemma_results_keep_keys(mid: Seq<ToolCallRow>, after: Seq<ToolCallRow>, rs: Seq<ToolResultModel>, key: Seq<char>)
    requires
        results_applied(mid, after, rs),
    ensures
        tool_key_taken(after, key) == tool_key_taken(mid, key),
{
    if tool_key_taken(after, key) {
        let j = choose|j: int| 0 <= j < after.len() && (#[trigger] after[j].dedup_key)@ == key;
        assert(mid[j].dedup_key@ == key);
    }
    if tool_key_taken(mid, key) {
        let j = choose|j: int| 0 <= j < mid.len() && (#[trigger] mid[j].dedup_key)@ == key;
        assert(after[j].dedup_key@ == key);
    }
}

proof fn lemma_result_after_twice(key: Seq<char>, prior: Option<i64>, rs: Seq<ToolResultModel>)
    ensures
        result_after(key, result_after(key, prior, rs), rs) == result_after(key, prior, rs),
    decreases rs.len(),
{
    if rs.len() > 0 && key_spec(rs.last().tool_use_id) != key {
        lemma_result_after_twice(key, prior, rs.drop_last());
    }
}

proof fn lemma_fresh_hooks_cover(rows: Seq<HookCallRow>, hooks: Seq<HookCallModel>)
    ensures
        forall|m: int|
            0 <= m < hooks.len() ==> hook_key_taken(rows, hook_key_spec((#[trigger] hooks[m]).uuid, hooks[m].idx))
                || exists|k: int|
                0 <= k < fresh_hooks(rows, hooks).len() && hook_key_spec(
                    (#[trigger] fresh_hooks(rows, hooks)[k]).uuid,
                    fresh_hooks(rows, hooks)[k].idx,
                ) == hook_key_spec(hooks[m].uuid, hooks[m].idx),
    decreases hooks.len(),
{
    if hooks.len() > 0 {
        let d = hooks.drop_last();
        lemma_fresh_hooks_cover(rows, d);
        let prev = fresh_hooks(rows, d);
        let fresh = fresh_hooks(rows, hooks);
        assert forall|m: int| 0 <= m < hooks.len() implies hook_key_taken(
            rows,
            hook_key_spec((#[trigger] hooks[m]).uuid, hooks[m].idx),
        ) || exists|k: int|
            0 <= k < fresh.len() && hook_key_spec((#[trigger] fresh[k]).uuid, fresh[k].idx) == hook_key_spec(
                hooks[m].uuid,
                hooks[m].idx,
            ) by {
            let key = hook_key_spec(hooks[m].uuid, hooks[m].idx);
            if m < d.len() {
                assert(d[m] == hooks[m]);
                if !hook_key_taken(rows, key) {
                    let k = choose|k: int| 0 <= k < prev.len() && hook_key_spec((#[trigger] prev[k]).uuid, prev[k].idx) == key;
                    assert(fresh[k] == prev[k]);
                }
            } else if !hook_key_taken(rows, key) {
                if exists|k: int| 0 <= k < prev.len() && hook_key_spec((#[trigger] prev[k]).uuid, prev[k].idx) == key {
                    let k = choose|k: int| 0 <= k < prev.len() && hook_key_spec((#[trigger] prev[k]).uuid, prev[k].idx) == key;
                    assert(fresh[k] == prev[k]);
                } else {
                    assert(fresh[prev.len() as int] == hooks.last());
                }
            }
        }
    }
}

proof fn lemma_fresh_hooks_none(rows: Seq<HookCallRow>, hooks: Seq<HookCallModel>)
    requires
        forall|m: int|
            0 <= m < hooks.len() ==> hook_key_taken(rows, hook_key_spec((#[trigger] hooks[m]).uuid, hooks[m].idx)),
    ensures
        fresh_hooks(rows, hooks).len() == 0,
    decreases hooks.len(),
{
    if hooks.len() > 0 {
        let d = hooks.drop_last();
        assert forall|m: int| 0 <= m < d.len() implies hook_key_taken(rows, hook_key_spec((#[trigger] d[m]).uuid, d[m].idx)) by {
            assert(d[m] == hooks[m]);
        }
        lemma_fresh_hooks_none(rows, d);
        assert(hook_key_taken(rows, hook_key_spec(hooks[hooks.len() - 1].uuid, hooks[hooks.len() - 1].idx)));
    }
}

/// Ingestion is idempotent: recording the same parsed line a second time
/// adds no event, tool call or hook call, and leaves every table as the
/// first recording left it.
pub proof fn law_record_reapplied_changes_nothing(s0: Store, s1: Store, s2: Store, p: ParsedModel, a1: bool, a2: bool)
    requires
        record_applied(s0, s1, p, a1),
        record_applied(s1, s2, p, a2),
    ensures
        !a2,
        session_views(s2.sessions@) == session_views(s1.sessions@),
        s2.events@ == s1.events@,
        s2.tool_calls@ == s1.tool_calls@,
        s2.hook_calls@ == s1.hook_calls@,
        s2.kv == s1.kv,
        s2.files == s1.files,
        s2.markers == s1.markers,
{
    reveal(record_applied);
    // The turn: its event key is stored after the first recording.
    match p.turn {
        Some(t) => {
            let key = key_spec(t.uuid);
            if a1 {
                assert(opt_string_view(s1.events@[s1.events@.len() - 1].dedup_key) == Some(key));
            }
            assert(event_key_taken(s1.events@, key));
            let v0 = session_views(s0.sessions@);
            let v1 = session_views(s1.sessions@);
            match session_index(s0.sessions@, t.session_id) {
                Some(i) => {
                    lemma_session_index_bound(s0.sessions@, t.session_id);
                    assert(v1.len() == s1.sessions@.len());
                    assert(v1.len() == v0.len());
                    assert forall|k: int| 0 <= k < s0.sessions@.len() implies (#[trigger] s0.sessions@[k]).id@
                        == s1.sessions@[k].id@ by {
                        assert(v0[k].id == s0.sessions@[k].id@);
                        assert(v1[k].id == v0[k].id);
                        assert(v1[k].id == s1.sessions@[k].id@);
                    }
                    lemma_session_index_same_ids(s0.sessions@, s1.sessions@, t.session_id);
                    assert(v1[i] == s1.sessions@[i]@);
                    lemma_merge_twice(s0.sessions@[i]@, t.cwd, t.ts);
                    assert(session_views(s2.sessions@) =~= v1);
                },
                None => {
                    assert(v1.len() == s1.sessions@.len());
                    assert(v1.len() == v0.len() + 1);
                    assert forall|k: int| 0 <= k < s0.sessions@.len() implies (#[trigger] s0.sessions@[k]).id@
                        == s1.sessions@[k].id@ by {
                        assert(v1[k] == v0[k]);
                        assert(v0[k].id == s0.sessions@[k].id@);
                        assert(v1[k].id == s1.sessions@[k].id@);
                    }
                    assert(v1[s0.sessions@.len() as int].id == s1.sessions@[s0.sessions@.len() as int].id@);
                    lemma_session_index_pushed(s0.sessions@, s1.sessions@, t.session_id);
                    let n = s0.sessions@.len() as int;
                    assert(v1[n] == s1.sessions@[n]@);
                    lemma_merge_twice(
                        SessionModel { id: t.session_id, provider: "code-assistant"@, project: None, started_at: None },
                        t.cwd,
                        t.ts,
                    );
                    assert(session_views(s2.sessions@) =~= v1);
                },
            }
        },
        None => {},
    }
    // Tool calls: every use's key is stored, so none is fresh again; the
    // result sizes are recorded to what they already are.
    let mid1 = choose|mid: Seq<ToolCallRow>|
        tools_appended(s0.tool_calls@, mid, fresh_uses(s0.tool_calls@, p.tool_uses)) && results_applied(
            mid,
            s1.tool_calls@,
            p.tool_results,
        );
    let mid2 = choose|mid: Seq<ToolCallRow>|
        tools_appended(s1.tool_calls@, mid, fresh_uses(s1.tool_calls@, p.tool_uses)) && results_applied(
            mid,
            s2.tool_calls@,
            p.tool_results,
        );
    lemma_fresh_uses_cover(s0.tool_calls@, p.tool_uses);
    assert forall|m: int| 0 <= m < p.tool_uses.len() implies tool_key_taken(
        s1.tool_calls@,
        key_spec((#[trigger] p.tool_uses[m]).id),
    ) by {
        let key = key_spec(p.tool_uses[m].id);
        lemma_tool_key_appended(s0.tool_calls@, mid1, fresh_uses(s0.tool_calls@, p.tool_uses), key);
        lemma_results_keep_keys(mid1, s1.tool_calls@, p.tool_results, key);
    }
    lemma_fresh_uses_none(s1.tool_calls@, p.tool_uses);
    assert(mid2 =~= s1.tool_calls@) by {
        assert(mid2.take(s1.tool_calls@.len() as int) == s1.tool_calls@);
    }
    assert forall|j: int| 0 <= j < s1.tool_calls@.len() implies #[trigger] s2.tool_calls@[j] == s1.tool_calls@[j] by {
        lemma_result_after_twice(mid1[j].dedup_key@, mid1[j].result_chars, p.tool_results);
    }
    assert(s2.tool_calls@ =~= s1.tool_calls@);
    // Hook calls: likewise none is fresh again.
    lemma_fresh_hooks_cover(s0.hook_calls@, p.hook_calls);
    assert forall|m: int| 0 <= m < p.hook_calls.len() implies hook_key_taken(
        s1.hook_calls@,
        hook_key_spec((#[trigger] p.hook_calls[m]).uuid, p.hook_calls[m].idx),
    ) by {
        lemma_hook_key_appended(
            s0.hook_calls@,
            s1.hook_calls@,
            fresh_hooks(s0.hook_calls@, p.hook_calls),
            hook_key_spec(p.hook_calls[m].uuid, p.hook_calls[m].idx),
        );
    }
    lemma_fresh_hooks_none(s1.hook_calls@, p.hook_calls);
    assert(s2.hook_calls@ =~= s1.hook_calls@) by {
        assert(s2.hook_calls@.take(s1.hook_calls@.len() as int) == s1.hook_calls@);
    }
}

// ---------------------------------------------------------------------------
// Passes over a transcript
// ---------------------------------------------------------------------------

proof fn lemma_lines_end_in_newline(ls: Seq<Seq<u8>>)
    requires
        ls.len() > 0,
        forall|j: int| 0 <= j < ls.len() ==> is_line(#[trigger] ls[j]),
    ensures
        ls.flatten_alt().len() > 0,
        ls.flatten_alt().last() == 10,
{
    let f = ls.drop_last().flatten_alt();
    assert(is_line(ls[ls.len() - 1]));
    assert(ls.flatten_alt() == f + ls.last());
    assert(ls.flatten_alt()[ls.flatten_alt().len() - 1] == ls.last()[ls.last().len() - 1]);
}

/// A transcript read again without having changed adds nothing: the
/// stored offset points at its end or at a partial line, so either nothing
/// is read, or the bytes read hold no complete line and the second pass
/// leaves every table, and every offset, as the first left them.
pub proof fn law_unchanged_transcript_adds_nothing(
    s0: Store,
    s1: Store,
    s2: Store,
    path: Seq<char>,
    offset: u64,
    buf: Seq<u8>,
    ls: Seq<Seq<u8>>,
    consumed: int,
    states: Seq<Store>,
    added: Seq<bool>,
    ls2: Seq<Seq<u8>>,
    consumed2: int,
    states2: Seq<Store>,
    added2: Seq<bool>,
)
    requires
        offset + buf.len() <= u64::MAX,
        chunk_ingested(s0, s1, path, offset, buf, ls, consumed, states, added),
        chunk_ingested(s1, s2, path, (offset + consumed) as u64, buf.skip(consumed), ls2, consumed2, states2, added2),
    ensures
        resume_spec((offset + consumed) as u64, (offset + buf.len()) as u64) == if consumed == buf.len() {
            None
        } else {
            Some((offset + consumed) as u64)
        },
        ls2.len() == 0,
        consumed2 == 0,
        count_added(added2) == 0,
        count_empty(ls2.map_values(|l: Seq<u8>| line_record_spec(l))) == 0,
        s2.sessions == s1.sessions,
        s2.events == s1.events,
        s2.tool_calls == s1.tool_calls,
        s2.kv == s1.kv,
        s2.hook_calls == s1.hook_calls,
        s2.markers == s1.markers,
        forall|q: Seq<char>| offset_lookup(s2.files@, q) == offset_lookup(s1.files@, q),
{
    reveal(chunk_ingested);
    let rest = buf.skip(consumed);
    assert(no_newline(rest));
    if ls2.len() > 0 {
        lemma_lines_end_in_newline(ls2);
        let f = ls2.flatten_alt();
        assert(rest.take(consumed2) == f);
        assert(rest[f.len() - 1] == 10);
    }
    assert(ls2.flatten_alt().len() == 0);
    assert(rest.take(consumed2).len() == consumed2);
    assert(added2 =~= Seq::<bool>::empty());
    assert(ls2.map_values(|l: Seq<u8>| line_record_spec(l)) =~= Seq::<ParsedModel>::empty());
    assert(states2.last() == s1);
}

/// Completing a partial line adds only that line: when the bytes read from
/// the stored offset are the partial tail of the last pass followed by the
/// rest of that line, the pass records exactly that one line, once, and
/// moves the offset to the transcript's new end.
pub proof fn law_completed_line_is_recorded_alone(
    s0: Store,
    s1: Store,
    s2: Store,
    path: Seq<char>,
    offset: u64,
    buf: Seq<u8>,
    ls: Seq<Seq<u8>>,
    consumed: int,
    states: Seq<Store>,
    added: Seq<bool>,
    rest: Seq<u8>,
    ls2: Seq<Seq<u8>>,
    consumed2: int,
    states2: Seq<Store>,
    added2: Seq<bool>,
)
    requires
        offset + buf.len() <= u64::MAX,
        chunk_ingested(s0, s1, path, offset, buf, ls, consumed, states, added),
        is_line(rest),
        chunk_ingested(
            s1,
            s2,
            path,
            (offset + consumed) as u64,
            buf.skip(consumed) + rest,
            ls2,
            consumed2,
            states2,
            added2,
        ),
    ensures
        ls2 == seq![buf.skip(consumed) + rest],
        consumed2 == buf.len() - consumed + rest.len(),
        added2.len() == 1,
        count_added(added2) <= 1,
        record_applied(s1, states2[1], line_record_spec(buf.skip(consumed) + rest), added2[0]),
        s2.sessions == states2[1].sessions,
        s2.events == states2[1].events,
        s2.tool_calls == states2[1].tool_calls,
        s2.hook_calls == states2[1].hook_calls,
        offset_lookup(s2.files@, path) == Some((offset + consumed + consumed2) as i64),
        offset + consumed + consumed2 == offset + buf.len() + rest.len(),
{
    reveal(chunk_ingested);
    let tail = buf.skip(consumed);
    let b2 = tail + rest;
    assert(no_newline(tail));
    assert(is_line(b2)) by {
        assert forall|t: int| 0 <= t < b2.len() - 1 implies b2[t] != 10 by {
            if t < tail.len() {
                assert(b2[t] == tail[t]);
            } else {
                assert(b2[t] == rest[t - tail.len()]);
            }
        }
        assert(b2.last() == rest.last());
    }
    // All of it is consumed: what is left holds no line end.
    if consumed2 < b2.len() {
        assert(b2.skip(consumed2)[b2.len() - 1 - consumed2] == b2[b2.len() - 1]);
    }
    assert(consumed2 == b2.len());
    assert(b2.take(consumed2) =~= b2);
    let f = ls2.flatten_alt();
    assert(f == b2);
    if ls2.len() == 0 {
        assert(f.len() == 0);
    }
    if ls2.len() >= 2 {
        let d = ls2.drop_last();
        assert forall|j: int| 0 <= j < d.len() implies is_line(#[trigger] d[j]) by {
            assert(d[j] == ls2[j]);
        }
        lemma_lines_end_in_newline(d);
        let g = d.flatten_alt();
        assert(f == g + ls2.last());
        assert(is_line(ls2[ls2.len() - 1]));
        assert(f[g.len() - 1] == g[g.len() - 1]);
    }
    assert(ls2.len() == 1);
    assert(ls2.drop_last().flatten_alt() =~= Seq::<u8>::empty());
    assert(f =~= ls2[0]);
    assert(ls2 =~= seq![b2]);
    assert(added2.drop_last().len() == 0);
    assert(count_added(added2.drop_last()) == 0);
}

} // verus!
