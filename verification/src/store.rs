//! The usage store's data model: normalized events and the rollup rows the
//! dashboard reads. Costs are integers in 10^-10 USD (see `pricing`).

use vstd::prelude::*;

use crate::json::{parse_json, spec_parse_json, JsonValue};
use crate::collectors::limits::{lemma_limits_tree_reads_back, UsageLimitModel, cached_limits, limit_views, limits_from_json, limits_to_text, limits_text, UsageLimit};
use crate::text::{concat, prefix_upto, str_eq, take_chars};
use crate::sort::{
    code_points, desc_key, keyed_desc, lemma_sort_map_payload, lex_less, lex_lt, map_payload,
    push_code_points, sort_desc, };
use crate::collectors::claude_code::opt_string_view;

verus! {

/// How fine-grained a usage event is: one model call, or a provider's
/// aggregate total.
#[derive(Debug, Clone, Copy, PartialEq, Eq, Structural)]
pub enum Granularity {
    Turn,
    Aggregate,
}

impl Granularity {
    pub open spec fn name(self) -> Seq<char> {
        match self {
            Granularity::Turn => "turn"@,
            Granularity::Aggregate => "aggregate"@,
        }
    }

    /// The stored name of the granularity.
    pub fn as_str(self) -> (r: &'static str)
        ensures
            r@ == self.name(),
    {
        match self {
            Granularity::Turn => "turn",
            Granularity::Aggregate => "aggregate",
        }
    }
}

/// A normalized usage event, provider-agnostic.
#[derive(Debug)]
pub struct NewEvent {
    pub session_id: String,
    pub ts: String,
    pub granularity: Granularity,
    pub model: Option<String>,
    pub tokens_in: i64,
    pub tokens_out: i64,
    pub cache_read: i64,
    pub cache_write: i64,
    /// Known cost in 10^-10 USD, when the source reports one.
    pub cost: Option<i128>,
    /// Provider-specific idempotency key; re-ingesting the same record is a
    /// no-op.
    pub dedup_key: Option<String>,
    pub meta: Option<JsonValue>,
}

/// Time bucket width of a series.
#[derive(Debug, Clone, Copy, PartialEq, Eq, Structural)]
pub enum Bucket {
    Minute,
    Hour,
    Day,
}

impl Bucket {
    pub open spec fn expr(self) -> Seq<char> {
        match self {
            Bucket::Minute => "strftime('%Y-%m-%dT%H:%M', ts, 'localtime')"@,
            Bucket::Hour => "strftime('%Y-%m-%dT%H:00', ts, 'localtime')"@,
            Bucket::Day => "date(ts, 'localtime')"@,
        }
    }

    /// The bucket of a local timestamp in the stored ISO-8601 shape
    /// ("2026-07-13T15:42:07"): its minute, its hour, or its day.
    pub open spec fn label_of(self, local: Seq<char>) -> Seq<char> {
        match self {
            Bucket::Minute => prefix_upto(local, 16),
            Bucket::Hour => prefix_upto(local, 13) + ":00"@,
            Bucket::Day => prefix_upto(local, 10),
        }
    }

    /// The bucket key of a local timestamp: "2026-07-13T15:42",
    /// "2026-07-13T15:00" or "2026-07-13".
    pub fn label(self, local: &str) -> (r: String)
        ensures
            r@ == self.label_of(local@),
    {
        match self {
            Bucket::Minute => take_chars(local, 16),
            Bucket::Hour => {
                let h = take_chars(local, 13);
                concat(h.as_str(), ":00")
            },
            Bucket::Day => take_chars(local, 10),
        }
    }

    /// SQL expression producing the bucket key. Buckets are computed in
    /// local time (the user's clock), while range filtering stays on raw
    /// UTC timestamps.
    pub fn sql_expr(self) -> (r: &'static str)
        ensures
            r@ == self.expr(),
    {
        match self {
            Bucket::Minute => "strftime('%Y-%m-%dT%H:%M', ts, 'localtime')",
            Bucket::Hour => "strftime('%Y-%m-%dT%H:00', ts, 'localtime')",
            Bucket::Day => "date(ts, 'localtime')",
        }
    }
}

/// Bucketed turn totals.
#[derive(Debug)]
pub struct UsageBucket {
    /// Bucket key in local time: "2026-07-13" (day) or "2026-07-13T15:00".
    pub bucket: String,
    pub turns: i64,
    pub tokens_in: i64,
    pub tokens_out: i64,
    pub cache_read: i64,
    pub cache_write: i64,
}

/// Distinct sessions active per bucket.
#[derive(Debug)]
pub struct SessionBucket {
    pub bucket: String,
    pub sessions: i64,
}

/// Calls and result volume of one tool.
#[derive(Debug)]
pub struct ToolStat {
    pub tool: String,
    pub calls: i64,
    pub chars: i64,
}

/// A file read more than once within sessions.
#[derive(Debug)]
pub struct DupRead {
    pub target: String,
    pub reads: i64,
    /// Reads beyond the first, per session, summed.
    pub extra: i64,
    pub wasted_chars: i64,
    pub sessions: i64,
}

/// One large tool result.
#[derive(Debug)]
pub struct BigResult {
    pub tool: String,
    pub target: Option<String>,
    pub chars: i64,
    pub ts: String,
}

/// Totals of one model within a range.
#[derive(Debug)]
pub struct ModelUsage {
    pub model: String,
    pub turns: i64,
    pub tokens_in: i64,
    pub tokens_out: i64,
    pub cache_read: i64,
    pub cache_write: i64,
    /// Estimated cost of this model's usage in 10^-10 USD (0 if unpriced).
    pub cost: i128,
}

/// Per-(bucket, model) rollup carrying every chartable metric.
#[derive(Debug)]
pub struct ModelBucket {
    pub bucket: String,
    pub model: String,
    pub turns: i64,
    pub tokens_in: i64,
    pub tokens_out: i64,
    pub cache_read: i64,
    pub cache_write: i64,
    pub cost: i128,
}

/// Totals over a range.
#[derive(Debug, Default)]
pub struct Overview {
    pub sessions: i64,
    pub turns: i64,
    pub tokens_in: i64,
    pub tokens_out: i64,
    pub cache_read: i64,
    pub cache_write: i64,
    pub first_ts: Option<String>,
    pub last_ts: Option<String>,
    pub db_path: Option<String>,
    /// Estimated total spend across priced models in 10^-10 USD.
    pub cost: i128,
}

/// Headline waste numbers.
#[derive(Debug, Default)]
pub struct WasteSummary {
    pub tool_calls: i64,
    pub extra_reads: i64,
    pub wasted_chars: i64,
    pub biggest_chars: i64,
}

// ---------------------------------------------------------------------------
// The store's tables
// ---------------------------------------------------------------------------

/// A session: one conversation of one provider.
#[derive(Debug, Clone)]
pub struct SessionRow {
    pub id: String,
    pub provider: String,
    pub project: Option<String>,
    pub started_at: Option<String>,
}

/// A stored usage event.
#[derive(Debug, Clone)]
pub struct EventRow {
    pub session_id: String,
    pub ts: String,
    pub granularity: Granularity,
    pub model: Option<String>,
    pub tokens_in: i64,
    pub tokens_out: i64,
    pub cache_read: i64,
    pub cache_write: i64,
    pub cost: Option<i128>,
    pub dedup_key: Option<String>,
    pub meta: Option<String>,
}

/// A stored tool call, with the size of its result once known.
#[derive(Debug, Clone)]
pub struct ToolCallRow {
    pub session_id: String,
    pub ts: String,
    pub tool: String,
    pub target: Option<String>,
    pub dedup_key: String,
    pub result_chars: Option<i64>,
}

/// A stored key/value pair.
#[derive(Debug, Clone)]
pub struct KvRow {
    pub key: String,
    pub value: String,
}

/// How far a transcript file has been ingested.
#[derive(Debug, Clone)]
pub struct FileOffsetRow {
    pub path: String,
    pub byte_offset: i64,
}

/// A stored hook invocation.
#[derive(Debug, Clone)]
pub struct HookCallRow {
    pub session_id: String,
    pub ts: String,
    pub script: String,
    pub duration_ms: Option<i64>,
    pub dedup_key: String,
}

/// A stored marker: something that happened at a moment (a plugin removed,
/// a config change).
#[derive(Debug, Clone)]
pub struct MarkerRow {
    pub ts: String,
    pub kind: String,
    pub payload: String,
}

/// The usage store: sessions, events, tool calls, small values, ingest
/// offsets, hook calls and markers. Idempotency keys are unique:
/// re-ingesting a record is a no-op.
#[derive(Debug)]
pub struct Store {
    pub sessions: Vec<SessionRow>,
    pub events: Vec<EventRow>,
    pub tool_calls: Vec<ToolCallRow>,
    pub kv: Vec<KvRow>,
    pub files: Vec<FileOffsetRow>,
    pub hook_calls: Vec<HookCallRow>,
    pub markers: Vec<MarkerRow>,
}

pub struct SessionModel {
    pub id: Seq<char>,
    pub provider: Seq<char>,
    pub project: Option<Seq<char>>,
    pub started_at: Option<Seq<char>>,
}

impl View for SessionRow {
    type V = SessionModel;

    open spec fn view(&self) -> SessionModel {
        SessionModel {
            id: self.id@,
            provider: self.provider@,
            project: opt_string_view(self.project),
            started_at: opt_string_view(self.started_at),
        }
    }
}

/// The value stored under `key` (the first row with that key).
pub open spec fn kv_lookup(rows: Seq<KvRow>, key: Seq<char>) -> Option<Seq<char>>
    decreases rows.len(),
{
    if rows.len() == 0 {
        None
    } else if rows[0].key@ == key {
        Some(rows[0].value@)
    } else {
        kv_lookup(rows.drop_first(), key)
    }
}

/// The offset stored for `path` (the first row with that path).
pub open spec fn offset_lookup(rows: Seq<FileOffsetRow>, path: Seq<char>) -> Option<i64>
    decreases rows.len(),
{
    if rows.len() == 0 {
        None
    } else if rows[0].path@ == path {
        Some(rows[0].byte_offset)
    } else {
        offset_lookup(rows.drop_first(), path)
    }
}

/// The byte offset stored for `path`: 0 when none is stored, or when a
/// negative one is.
pub open spec fn stored_offset(rows: Seq<FileOffsetRow>, path: Seq<char>) -> u64 {
    match offset_lookup(rows, path) {
        Some(o) => if o < 0 {
            0u64
        } else {
            o as u64
        },
        None => 0u64,
    }
}

/// Index of the first session row with `id`.
pub open spec fn session_index(rows: Seq<SessionRow>, id: Seq<char>) -> Option<int>
    decreases rows.len(),
{
    if rows.len() == 0 {
        None
    } else if rows[0].id@ == id {
        Some(0)
    } else {
        match session_index(rows.drop_first(), id) {
            Some(i) => Some(i + 1),
            None => None,
        }
    }
}

/// A placeholder turn: generated locally, not a model call.
pub open spec fn is_synthetic(e: EventRow) -> bool {
    opt_string_view(e.model) == Some("<synthetic>"@)
}

/// The events without the placeholder turns, in order.
pub open spec fn real_events(events: Seq<EventRow>) -> Seq<EventRow>
    decreases events.len(),
{
    if events.len() == 0 {
        seq![]
    } else if is_synthetic(events.last()) {
        real_events(events.drop_last())
    } else {
        real_events(events.drop_last()).push(events.last())
    }
}

/// Some event already carries the idempotency key.
pub open spec fn event_key_taken(rows: Seq<EventRow>, key: Seq<char>) -> bool {
    exists|i: int| 0 <= i < rows.len() && opt_string_view(#[trigger] rows[i].dedup_key) == Some(key)
}

/// Some tool call already carries the idempotency key.
pub open spec fn tool_key_taken(rows: Seq<ToolCallRow>, key: Seq<char>) -> bool {
    exists|i: int| 0 <= i < rows.len() && (#[trigger] rows[i].dedup_key)@ == key
}

/// The earlier of two optional start times; a missing one yields to the
/// other (SQL `MIN(COALESCE(a, b), COALESCE(b, a))`, strings compared by
/// code point).
pub open spec fn earlier(a: Option<Seq<char>>, b: Option<Seq<char>>) -> Option<Seq<char>> {
    match (a, b) {
        (Some(x), Some(y)) => if crate::sort::lex_lt(
            crate::sort::code_points(y),
            crate::sort::code_points(x),
        ) {
            Some(y)
        } else {
            Some(x)
        },
        (Some(x), None) => Some(x),
        (None, Some(y)) => Some(y),
        (None, None) => None,
    }
}

/// A session row after an upsert: the project is filled only when it was
/// unknown, the start time is the earliest seen.
pub open spec fn merged_session(
    old: SessionModel,
    project: Option<Seq<char>>,
    started_at: Option<Seq<char>>,
) -> SessionModel {
    SessionModel {
        id: old.id,
        provider: old.provider,
        project: match old.project {
            Some(p) => Some(p),
            None => project,
        },
        started_at: earlier(old.started_at, started_at),
    }
}

fn opt_str_to_string(o: Option<&str>) -> (r: Option<String>)
    ensures
        opt_string_view(r) == match o {
            Some(s) => Some(s@),
            None => None::<Seq<char>>,
        },
{
    match o {
        Some(s) => Some(s.to_string()),
        None => None,
    }
}

fn earlier_of(a: Option<String>, b: Option<&str>) -> (r: Option<String>)
    ensures
        opt_string_view(r) == earlier(
            opt_string_view(a),
            match b {
                Some(s) => Some(s@),
                None => None,
            },
        ),
{
    match (a, b) {
        (Some(x), Some(y)) => {
            let mut kx: Vec<u32> = Vec::new();
            crate::sort::push_code_points(&mut kx, x.as_str());
            let mut ky: Vec<u32> = Vec::new();
            crate::sort::push_code_points(&mut ky, y);
            if crate::sort::lex_less(&ky, &kx) {
                Some(y.to_string())
            } else {
                Some(x)
            }
        },
        (Some(x), None) => Some(x),
        (None, Some(y)) => Some(y.to_string()),
        (None, None) => None,
    }
}

impl Store {
    /// A store with no rows.
    pub fn new() -> (r: Store)
        ensures
            r.sessions@.len() == 0,
            r.events@.len() == 0,
            r.tool_calls@.len() == 0,
            r.kv@.len() == 0,
            r.files@.len() == 0,
            r.hook_calls@.len() == 0,
            r.markers@.len() == 0,
    {
        Store {
            sessions: Vec::new(),
            events: Vec::new(),
            tool_calls: Vec::new(),
            kv: Vec::new(),
            files: Vec::new(),
            hook_calls: Vec::new(),
            markers: Vec::new(),
        }
    }

    /// A fresh store, with the data migrations applied.
    pub fn open_in_memory() -> (r: Store)
        ensures
            r.sessions@.len() == 0,
            r.events@.len() == 0,
            r.tool_calls@.len() == 0,
            r.kv@.len() == 0,
            r.files@.len() == 0,
            r.hook_calls@.len() == 0,
            r.markers@.len() == 0,
    {
        let mut s = Store::new();
        s.migrate();
        s
    }

    /// Idempotent data migrations for stores written by earlier versions:
    /// placeholder turns (model "<synthetic>", locally generated messages
    /// rather than model calls) are deleted; and a store with events but no
    /// tool calls forgets its ingest offsets once, so that tool calls get
    /// backfilled (event idempotency keys make the re-read a no-op).
    pub fn migrate(&mut self)
        ensures
            final(self).events@ == real_events(old(self).events@),
            final(self).files@ == if old(self).tool_calls@.len() == 0 && real_events(old(self).events@).len() > 0 {
                Seq::<FileOffsetRow>::empty()
            } else {
                old(self).files@
            },
            final(self).sessions == old(self).sessions,
            final(self).tool_calls == old(self).tool_calls,
            final(self).kv == old(self).kv,
            final(self).hook_calls == old(self).hook_calls,
            final(self).markers == old(self).markers,
    {
        let mut events: Vec<EventRow> = Vec::new();
        std::mem::swap(&mut events, &mut self.events);
        let ghost all = events@;
        let n = events.len();
        let mut rest = crate::sort::reversed(events);
        let mut kept: Vec<EventRow> = Vec::new();
        let mut k: usize = 0;
        assert(all.take(0) =~= Seq::<EventRow>::empty());
        while rest.len() > 0
            invariant
                k + rest@.len() == all.len(),
                n == all.len(),
                rest@.reverse() == all.skip(k as int),
                kept@ == real_events(all.take(k as int)),
            decreases rest.len(),
        {
            let ghost bv = rest@;
            let e = rest.pop().unwrap();
            assert(bv.reverse()[0] == bv.last());
            assert(all.skip(k as int)[0] == all[k as int]);
            assert(rest@.reverse() == all.skip(k + 1)) by {
                assert(bv.reverse().drop_first() == bv.drop_last().reverse());
                assert(all.skip(k as int).drop_first() == all.skip(k + 1));
            }
            assert(all.take(k + 1).drop_last() =~= all.take(k as int));
            assert(all.take(k + 1).last() == e);
            let synthetic = match &e.model {
                Some(m) => str_eq(m.as_str(), "<synthetic>"),
                None => false,
            };
            if !synthetic {
                kept.push(e);
            }
            k += 1;
        }
        assert(all.take(all.len() as int) == all);
        self.events = kept;
        if self.tool_calls.len() == 0 && self.events.len() > 0 {
            self.files = Vec::new();
        }
    }

    /// The value stored under `key`.
    pub fn kv_get(&self, key: &str) -> (r: Option<String>)
        ensures
            opt_string_view(r) == kv_lookup(self.kv@, key@),
    {
        let mut i: usize = 0;
        assert(self.kv@.skip(0) == self.kv@);
        while i < self.kv.len()
            invariant
                i <= self.kv@.len(),
                kv_lookup(self.kv@, key@) == kv_lookup(self.kv@.skip(i as int), key@),
            decreases self.kv.len() - i,
        {
            assert(self.kv@.skip(i as int).drop_first() == self.kv@.skip(i + 1));
            assert(self.kv@.skip(i as int)[0] == self.kv@[i as int]);
            if str_eq(self.kv[i].key.as_str(), key) {
                return Some(self.kv[i].value.clone());
            }
            i += 1;
        }
        None
    }

    /// Stores `value` under `key`, replacing what was there.
    pub fn kv_set(&mut self, key: &str, value: &str)
        ensures
            kv_lookup(final(self).kv@, key@) == Some(value@),
            forall|k: Seq<char>| k != key@ ==> kv_lookup(final(self).kv@, k) == kv_lookup(old(self).kv@, k),
            final(self).sessions == old(self).sessions,
            final(self).events == old(self).events,
            final(self).tool_calls == old(self).tool_calls,
            final(self).files == old(self).files,
            final(self).hook_calls == old(self).hook_calls,
            final(self).markers == old(self).markers,
    {
        let ghost rows = self.kv@;
        let mut i: usize = 0;
        while i < self.kv.len() && !str_eq(self.kv[i].key.as_str(), key)
            invariant
                rows == self.kv@,
                i <= rows.len(),
                forall|j: int| 0 <= j < i ==> rows[j].key@ != key@,
            decreases self.kv.len() - i,
        {
            i += 1;
        }
        let row = KvRow { key: key.to_string(), value: value.to_string() };
        if i < self.kv.len() {
            proof {
                lemma_kv_update(rows, i as int, row);
            }
            self.kv.set(i, row);
        } else {
            proof {
                lemma_kv_push(rows, row);
            }
            self.kv.push(row);
        }
    }

    /// Remembers the last successful subscription limits, as JSON text
    /// under "usage_limits", so a later failed fetch can fall back to them.
    pub fn cache_usage_limits(&mut self, limits: &Vec<UsageLimit>)
        ensures
            kv_lookup(final(self).kv@, "usage_limits"@) == Some(limits_text(limit_views(limits@))),
            forall|k: Seq<char>|
                k != "usage_limits"@ ==> kv_lookup(final(self).kv@, k) == kv_lookup(old(self).kv@, k),
            final(self).sessions == old(self).sessions,
            final(self).events == old(self).events,
            final(self).tool_calls == old(self).tool_calls,
            final(self).files == old(self).files,
            final(self).hook_calls == old(self).hook_calls,
            final(self).markers == old(self).markers,
    {
        let text = limits_to_text(limits);
        self.kv_set("usage_limits", text.as_str());
    }

    /// The last cached subscription limits: nothing when none were ever
    /// stored or the stored text does not read as a list of limits.
    pub fn cached_usage_limits(&self) -> (r: Option<Vec<UsageLimit>>)
        ensures
            match r {
                Some(v) => kv_lookup(self.kv@, "usage_limits"@) matches Some(t) && spec_parse_json(t) matches Some(
                    j,
                ) && cached_limits(j) == Some(limit_views(v@)),
                None => match kv_lookup(self.kv@, "usage_limits"@) {
                    Some(t) => match spec_parse_json(t) {
                        Some(j) => cached_limits(j) is None,
                        None => true,
                    },
                    None => true,
                },
            },
            forall|ls: Seq<UsageLimitModel>|
                kv_lookup(self.kv@, "usage_limits"@) == Some(#[trigger] limits_text(ls)) ==> (r matches Some(v)
                    && limit_views(v@) == ls),
    {
        let raw = match self.kv_get("usage_limits") {
            Some(t) => t,
            None => {
                return None;
            },
        };
        let parsed = parse_json(raw.as_str());
        proof {
            assert forall|ls: Seq<UsageLimitModel>| #[trigger] limits_text(ls) == raw@ implies cached_limits(
                parsed->Some_0,
            ) == Some(ls) by {
                lemma_limits_tree_reads_back(parsed->Some_0, ls);
            }
        }
        match parsed {
            Some(j) => limits_from_json(&j),
            None => None,
        }
    }

    /// The stored byte offset of a file, 0 when none is stored (or when a
    /// negative one is).
    pub fn file_offset(&self, path: &str) -> (r: u64)
        ensures
            r == stored_offset(self.files@, path@),
    {
        let mut i: usize = 0;
        assert(self.files@.skip(0) == self.files@);
        while i < self.files.len()
            invariant
                i <= self.files@.len(),
                offset_lookup(self.files@, path@) == offset_lookup(self.files@.skip(i as int), path@),
            decreases self.files.len() - i,
        {
            assert(self.files@.skip(i as int).drop_first() == self.files@.skip(i + 1));
            assert(self.files@.skip(i as int)[0] == self.files@[i as int]);
            if str_eq(self.files[i].path.as_str(), path) {
                let o = self.files[i].byte_offset;
                return if o < 0 {
                    0
                } else {
                    o as u64
                };
            }
            i += 1;
        }
        0
    }

    /// Records the byte offset of a file (stored as a signed 64-bit value).
    pub fn set_file_offset(&mut self, path: &str, offset: u64)
        ensures
            offset_lookup(final(self).files@, path@) == Some(#[verifier::truncate] (offset as i64)),
            forall|p: Seq<char>| p != path@ ==> offset_lookup(final(self).files@, p) == offset_lookup(old(self).files@, p),
            final(self).sessions == old(self).sessions,
            final(self).events == old(self).events,
            final(self).tool_calls == old(self).tool_calls,
            final(self).kv == old(self).kv,
            final(self).hook_calls == old(self).hook_calls,
            final(self).markers == old(self).markers,
    {
        let ghost rows = self.files@;
        let stored = #[verifier::truncate] (offset as i64);
        let mut i: usize = 0;
        while i < self.files.len() && !str_eq(self.files[i].path.as_str(), path)
            invariant
                rows == self.files@,
                i <= rows.len(),
                forall|j: int| 0 <= j < i ==> rows[j].path@ != path@,
            decreases self.files.len() - i,
        {
            i += 1;
        }
        let row = FileOffsetRow { path: path.to_string(), byte_offset: stored };
        if i < self.files.len() {
            proof {
                lemma_offset_update(rows, i as int, row);
            }
            self.files.set(i, row);
        } else {
            proof {
                lemma_offset_push(rows, row);
            }
            self.files.push(row);
        }
    }
}

proof fn lemma_kv_update(rows: Seq<KvRow>, i: int, r: KvRow)
    requires
        0 <= i < rows.len(),
        rows[i].key@ == r.key@,
        forall|j: int| 0 <= j < i ==> rows[j].key@ != r.key@,
    ensures
        kv_lookup(rows.update(i, r), r.key@) == Some(r.value@),
        forall|k: Seq<char>| k != r.key@ ==> kv_lookup(rows.update(i, r), k) == kv_lookup(rows, k),
    decreases i,
{
    let u = rows.update(i, r);
    if i > 0 {
        lemma_kv_update(rows.drop_first(), i - 1, r);
        assert(u.drop_first() == rows.drop_first().update(i - 1, r));
        assert forall|k: Seq<char>| k != r.key@ implies kv_lookup(u, k) == kv_lookup(rows, k) by {
            assert(kv_lookup(u.drop_first(), k) == kv_lookup(rows.drop_first(), k));
        }
    } else {
        assert(u.drop_first() == rows.drop_first());
        assert forall|k: Seq<char>| k != r.key@ implies kv_lookup(u, k) == kv_lookup(rows, k) by {
            assert(kv_lookup(u.drop_first(), k) == kv_lookup(rows.drop_first(), k));
        }
    }
}

proof fn lemma_kv_push(rows: Seq<KvRow>, r: KvRow)
    requires
        forall|j: int| 0 <= j < rows.len() ==> rows[j].key@ != r.key@,
    ensures
        kv_lookup(rows.push(r), r.key@) == Some(r.value@),
        forall|k: Seq<char>| k != r.key@ ==> kv_lookup(rows.push(r), k) == kv_lookup(rows, k),
    decreases rows.len(),
{
    let u = rows.push(r);
    if rows.len() > 0 {
        lemma_kv_push(rows.drop_first(), r);
        assert(u.drop_first() == rows.drop_first().push(r));
        assert forall|k: Seq<char>| k != r.key@ implies kv_lookup(u, k) == kv_lookup(rows, k) by {
            assert(kv_lookup(u.drop_first(), k) == kv_lookup(rows.drop_first(), k));
        }
    } else {
        assert(u.drop_first() == rows);
        assert forall|k: Seq<char>| k != r.key@ implies kv_lookup(u, k) == kv_lookup(rows, k) by {
            assert(kv_lookup(u.drop_first(), k) == kv_lookup(rows, k));
        }
    }
}

proof fn lemma_offset_update(rows: Seq<FileOffsetRow>, i: int, r: FileOffsetRow)
    requires
        0 <= i < rows.len(),
        rows[i].path@ == r.path@,
        forall|j: int| 0 <= j < i ==> rows[j].path@ != r.path@,
    ensures
        offset_lookup(rows.update(i, r), r.path@) == Some(r.byte_offset),
        forall|p: Seq<char>| p != r.path@ ==> offset_lookup(rows.update(i, r), p) == offset_lookup(rows, p),
    decreases i,
{
    let u = rows.update(i, r);
    if i > 0 {
        lemma_offset_update(rows.drop_first(), i - 1, r);
        assert(u.drop_first() == rows.drop_first().update(i - 1, r));
        assert forall|p: Seq<char>| p != r.path@ implies offset_lookup(u, p) == offset_lookup(rows, p) by {
            assert(offset_lookup(u.drop_first(), p) == offset_lookup(rows.drop_first(), p));
        }
    } else {
        assert(u.drop_first() == rows.drop_first());
        assert forall|p: Seq<char>| p != r.path@ implies offset_lookup(u, p) == offset_lookup(rows, p) by {
            assert(offset_lookup(u.drop_first(), p) == offset_lookup(rows.drop_first(), p));
        }
    }
}

proof fn lemma_offset_push(rows: Seq<FileOffsetRow>, r: FileOffsetRow)
    requires
        forall|j: int| 0 <= j < rows.len() ==> rows[j].path@ != r.path@,
    ensures
        offset_lookup(rows.push(r), r.path@) == Some(r.byte_offset),
        forall|p: Seq<char>| p != r.path@ ==> offset_lookup(rows.push(r), p) == offset_lookup(rows, p),
    decreases rows.len(),
{
    let u = rows.push(r);
    if rows.len() > 0 {
        lemma_offset_push(rows.drop_first(), r);
        assert(u.drop_first() == rows.drop_first().push(r));
        assert forall|p: Seq<char>| p != r.path@ implies offset_lookup(u, p) == offset_lookup(rows, p) by {
            assert(offset_lookup(u.drop_first(), p) == offset_lookup(rows.drop_first(), p));
        }
    } else {
        assert(u.drop_first() == rows);
        assert forall|p: Seq<char>| p != r.path@ implies offset_lookup(u, p) == offset_lookup(rows, p) by {
            assert(offset_lookup(u.drop_first(), p) == offset_lookup(rows, p));
        }
    }
}

pub open spec fn session_views(s: Seq<SessionRow>) -> Seq<SessionModel> {
    s.map_values(|r: SessionRow| r@)
}

pub open spec fn opt_str_view(o: Option<&str>) -> Option<Seq<char>> {
    match o {
        Some(s) => Some(s@),
        None => None,
    }
}

/// The stored form of an event: the event itself, its metadata as compact
/// JSON text.
pub open spec fn event_row_of(ev: NewEvent, r: EventRow) -> bool {
    &&& r.session_id@ == ev.session_id@
    &&& r.ts@ == ev.ts@
    &&& r.granularity == ev.granularity
    &&& opt_string_view(r.model) == opt_string_view(ev.model)
    &&& r.tokens_in == ev.tokens_in
    &&& r.tokens_out == ev.tokens_out
    &&& r.cache_read == ev.cache_read
    &&& r.cache_write == ev.cache_write
    &&& r.cost == ev.cost
    &&& opt_string_view(r.dedup_key) == opt_string_view(ev.dedup_key)
    &&& opt_string_view(r.meta) == match ev.meta {
        Some(m) => Some(crate::json::spec_json_text(m)),
        None => None,
    }
}

fn clone_opt(o: &Option<String>) -> (r: Option<String>)
    ensures
        opt_string_view(r) == opt_string_view(*o),
{
    match o {
        Some(s) => Some(s.clone()),
        None => None,
    }
}

fn clone_opt_exact(o: &Option<String>) -> (r: Option<String>)
    ensures
        r == *o,
{
    match o {
        Some(s) => Some(s.clone()),
        None => None,
    }
}

impl Store {
    /// Index of the session with `id`.
    fn find_session(&self, id: &str) -> (r: Option<usize>)
        ensures
            match r {
                Some(i) => session_index(self.sessions@, id@) == Some(i as int) && i < self.sessions@.len(),
                None => session_index(self.sessions@, id@) is None,
            },
    {
        let mut i: usize = 0;
        while i < self.sessions.len()
            invariant
                i <= self.sessions@.len(),
                forall|j: int| 0 <= j < i ==> self.sessions@[j].id@ != id@,
            decreases self.sessions.len() - i,
        {
            if str_eq(self.sessions[i].id.as_str(), id) {
                proof {
                    lemma_session_index_first(self.sessions@, id@, i as int);
                }
                return Some(i);
            }
            i += 1;
        }
        proof {
            lemma_session_index_none(self.sessions@, id@);
        }
        None
    }

    /// Records a session, or refreshes a known one: its project is filled
    /// when it was unknown, and the earliest start time is kept.
    pub fn upsert_session(
        &mut self,
        id: &str,
        provider: &str,
        project: Option<&str>,
        started_at: Option<&str>,
    )
        ensures
            match session_index(old(self).sessions@, id@) {
                Some(i) => session_views(final(self).sessions@) == session_views(
                    old(self).sessions@,
                ).update(i, merged_session(old(self).sessions@[i]@, opt_str_view(project), opt_str_view(started_at))),
                None => session_views(final(self).sessions@) == session_views(old(self).sessions@).push(
                    SessionModel {
                        id: id@,
                        provider: provider@,
                        project: opt_str_view(project),
                        started_at: opt_str_view(started_at),
                    },
                ),
            },
            final(self).events == old(self).events,
            final(self).tool_calls == old(self).tool_calls,
            final(self).kv == old(self).kv,
            final(self).files == old(self).files,
            final(self).hook_calls == old(self).hook_calls,
            final(self).markers == old(self).markers,
    {
        match self.find_session(id) {
            Some(i) => {
                let old_project = clone_opt(&self.sessions[i].project);
                let old_started = clone_opt(&self.sessions[i].started_at);
                let project2 = match old_project {
                    Some(p) => Some(p),
                    None => opt_str_to_string(project),
                };
                let started2 = earlier_of(old_started, started_at);
                let row = SessionRow {
                    id: self.sessions[i].id.clone(),
                    provider: self.sessions[i].provider.clone(),
                    project: project2,
                    started_at: started2,
                };
                let ghost before = session_views(self.sessions@);
                self.sessions.set(i, row);
                assert(session_views(self.sessions@) =~= before.update(i as int, self.sessions@[i as int]@));
            },
            None => {
                let ghost before = session_views(self.sessions@);
                self.sessions.push(
                    SessionRow {
                        id: id.to_string(),
                        provider: provider.to_string(),
                        project: opt_str_to_string(project),
                        started_at: opt_str_to_string(started_at),
                    },
                );
                assert(session_views(self.sessions@) =~= before.push(self.sessions@.last()@));
            },
        }
    }

    fn event_key_exists(&self, key: &str) -> (r: bool)
        ensures
            r == event_key_taken(self.events@, key@),
    {
        let mut i: usize = 0;
        while i < self.events.len()
            invariant
                i <= self.events@.len(),
                forall|j: int| 0 <= j < i ==> opt_string_view(self.events@[j].dedup_key) != Some(key@),
            decreases self.events.len() - i,
        {
            match &self.events[i].dedup_key {
                Some(k) => if str_eq(k.as_str(), key) {
                    return true;
                },
                None => {},
            }
            i += 1;
        }
        false
    }

    /// Inserts an event; returns false, changing nothing, when its
    /// idempotency key is already stored.
    pub fn insert_event(&mut self, ev: &NewEvent) -> (r: bool)
        ensures
            r == !(ev.dedup_key matches Some(k) && event_key_taken(old(self).events@, k@)),
            r ==> final(self).events@.len() == old(self).events@.len() + 1
                && final(self).events@.drop_last() == old(self).events@
                && event_row_of(*ev, final(self).events@.last()),
            !r ==> final(self).events == old(self).events,
            final(self).sessions == old(self).sessions,
            final(self).tool_calls == old(self).tool_calls,
            final(self).kv == old(self).kv,
            final(self).files == old(self).files,
            final(self).hook_calls == old(self).hook_calls,
            final(self).markers == old(self).markers,
    {
        if let Some(k) = &ev.dedup_key {
            if self.event_key_exists(k.as_str()) {
                return false;
            }
        }
        let meta = match &ev.meta {
            Some(m) => Some(crate::json::json_to_string(m)),
            None => None,
        };
        let row = EventRow {
            session_id: ev.session_id.clone(),
            ts: ev.ts.clone(),
            granularity: ev.granularity,
            model: clone_opt(&ev.model),
            tokens_in: ev.tokens_in,
            tokens_out: ev.tokens_out,
            cache_read: ev.cache_read,
            cache_write: ev.cache_write,
            cost: ev.cost,
            dedup_key: clone_opt(&ev.dedup_key),
            meta,
        };
        let ghost before = self.events@;
        self.events.push(row);
        assert(self.events@.drop_last() == before);
        true
    }

    fn tool_key_exists(&self, key: &str) -> (r: bool)
        ensures
            r == tool_key_taken(self.tool_calls@, key@),
    {
        let mut i: usize = 0;
        while i < self.tool_calls.len()
            invariant
                i <= self.tool_calls@.len(),
                forall|j: int| 0 <= j < i ==> self.tool_calls@[j].dedup_key@ != key@,
            decreases self.tool_calls.len() - i,
        {
            if str_eq(self.tool_calls[i].dedup_key.as_str(), key) {
                return true;
            }
            i += 1;
        }
        false
    }

    /// Inserts a tool call (result size not yet known); returns false,
    /// changing nothing, when its idempotency key is already stored.
    pub fn insert_tool_use(
        &mut self,
        session_id: &str,
        ts: &str,
        tool: &str,
        target: Option<&str>,
        dedup_key: &str,
    ) -> (r: bool)
        ensures
            r == !tool_key_taken(old(self).tool_calls@, dedup_key@),
            r ==> final(self).tool_calls@.len() == old(self).tool_calls@.len() + 1
                && final(self).tool_calls@.drop_last() == old(self).tool_calls@ && {
                let row = final(self).tool_calls@.last();
                &&& row.session_id@ == session_id@
                &&& row.ts@ == ts@
                &&& row.tool@ == tool@
                &&& opt_string_view(row.target) == opt_str_view(target)
                &&& row.dedup_key@ == dedup_key@
                &&& row.result_chars is None
            },
            !r ==> final(self).tool_calls == old(self).tool_calls,
            final(self).sessions == old(self).sessions,
            final(self).events == old(self).events,
            final(self).kv == old(self).kv,
            final(self).files == old(self).files,
            final(self).hook_calls == old(self).hook_calls,
            final(self).markers == old(self).markers,
    {
        if self.tool_key_exists(dedup_key) {
            return false;
        }
        let ghost before = self.tool_calls@;
        self.tool_calls.push(
            ToolCallRow {
                session_id: session_id.to_string(),
                ts: ts.to_string(),
                tool: tool.to_string(),
                target: opt_str_to_string(target),
                dedup_key: dedup_key.to_string(),
                result_chars: None,
            },
        );
        assert(self.tool_calls@.drop_last() == before);
        true
    }

    /// Records the result size of the tool call with this key.
    pub fn set_tool_result_chars(&mut self, dedup_key: &str, chars: i64)
        ensures
            final(self).tool_calls@.len() == old(self).tool_calls@.len(),
            forall|i: int|
                0 <= i < old(self).tool_calls@.len() ==> {
                    let o = old(self).tool_calls@[i];
                    let n = #[trigger] final(self).tool_calls@[i];
                    &&& n.session_id == o.session_id
                    &&& n.ts == o.ts
                    &&& n.tool == o.tool
                    &&& n.target == o.target
                    &&& n.dedup_key == o.dedup_key
                    &&& n.result_chars == if o.dedup_key@ == dedup_key@ {
                        Some(chars)
                    } else {
                        o.result_chars
                    }
                },
            final(self).sessions == old(self).sessions,
            final(self).events == old(self).events,
            final(self).kv == old(self).kv,
            final(self).files == old(self).files,
            final(self).hook_calls == old(self).hook_calls,
            final(self).markers == old(self).markers,
    {
        let ghost start = self.tool_calls@;
        let mut i: usize = 0;
        while i < self.tool_calls.len()
            invariant
                i <= self.tool_calls@.len(),
                self.tool_calls@.len() == start.len(),
                self.sessions == old(self).sessions,
                self.events == old(self).events,
                self.kv == old(self).kv,
                self.files == old(self).files,
                self.hook_calls == old(self).hook_calls,
                self.markers == old(self).markers,
                start == old(self).tool_calls@,
                forall|j: int|
                    0 <= j < start.len() ==> {
                        let o = start[j];
                        let n = #[trigger] self.tool_calls@[j];
                        &&& n.session_id == o.session_id
                        &&& n.ts == o.ts
                        &&& n.tool == o.tool
                        &&& n.target == o.target
                        &&& n.dedup_key == o.dedup_key
                        &&& n.result_chars == if j < i && o.dedup_key@ == dedup_key@ {
                            Some(chars)
                        } else {
                            o.result_chars
                        }
                    },
            decreases self.tool_calls.len() - i,
        {
            if str_eq(self.tool_calls[i].dedup_key.as_str(), dedup_key) {
                let row = ToolCallRow {
                    session_id: self.tool_calls[i].session_id.clone(),
                    ts: self.tool_calls[i].ts.clone(),
                    tool: self.tool_calls[i].tool.clone(),
                    target: clone_opt_exact(&self.tool_calls[i].target),
                    dedup_key: self.tool_calls[i].dedup_key.clone(),
                    result_chars: Some(chars),
                };
                self.tool_calls.set(i, row);
            }
            i += 1;
        }
    }
}

proof fn lemma_session_index_first(rows: Seq<SessionRow>, id: Seq<char>, i: int)
    requires
        0 <= i < rows.len(),
        rows[i].id@ == id,
        forall|j: int| 0 <= j < i ==> rows[j].id@ != id,
    ensures
        session_index(rows, id) == Some(i),
    decreases i,
{
    if i > 0 {
        lemma_session_index_first(rows.drop_first(), id, i - 1);
    }
}

proof fn lemma_session_index_none(rows: Seq<SessionRow>, id: Seq<char>)
    requires
        forall|j: int| 0 <= j < rows.len() ==> rows[j].id@ != id,
    ensures
        session_index(rows, id) is None,
    decreases rows.len(),
{
    if rows.len() > 0 {
        lemma_session_index_none(rows.drop_first(), id);
    }
}

// ---------------------------------------------------------------------------
// Rollups
// ---------------------------------------------------------------------------

/// A timestamp is within the range starting at `since` (all time when
/// there is none); timestamps compare as text, which orders the stored
/// ISO-8601 form chronologically.
pub open spec fn in_range(ts: Seq<char>, since: Option<Seq<char>>) -> bool {
    match since {
        Some(t) => !lex_lt(code_points(ts), code_points(t)),
        None => true,
    }
}

/// The range start as a comparison key.
pub fn since_key(since: Option<&str>) -> (r: Option<Vec<u32>>)
    ensures
        match r {
            Some(k) => since matches Some(t) && k@ == code_points(t@),
            None => since is None,
        },
{
    match since {
        Some(t) => {
            let mut k: Vec<u32> = Vec::new();
            push_code_points(&mut k, t);
            Some(k)
        },
        None => None,
    }
}

pub(crate) fn ts_in_range(ts: &str, since: &Option<Vec<u32>>) -> (r: bool)
    ensures
        r == match since {
            Some(k) => !lex_lt(code_points(ts@), k@),
            None => true,
        },
{
    match since {
        Some(k) => {
            let mut key: Vec<u32> = Vec::new();
            push_code_points(&mut key, ts);
            !lex_less(&key, k)
        },
        None => true,
    }
}

pub open spec fn fits_i64(v: int) -> bool {
    i64::MIN <= v <= i64::MAX
}

pub struct ToolStatModel {
    pub tool: Seq<char>,
    pub calls: int,
    pub chars: int,
}

impl View for ToolStat {
    type V = ToolStatModel;

    open spec fn view(&self) -> ToolStatModel {
        ToolStatModel { tool: self.tool@, calls: self.calls as int, chars: self.chars as int }
    }
}

pub open spec fn row_chars(r: ToolCallRow) -> int {
    match r.result_chars {
        Some(c) => c as int,
        None => 0,
    }
}

pub open spec fn tool_index(g: Seq<ToolStatModel>, tool: Seq<char>) -> Option<int>
    decreases g.len(),
{
    if g.len() == 0 {
        None
    } else if g.last().tool == tool {
        match tool_index(g.drop_last(), tool) {
            Some(i) => Some(i),
            None => Some(g.len() - 1),
        }
    } else {
        tool_index(g.drop_last(), tool)
    }
}

/// One more call of `tool` with `c` result characters.
pub open spec fn add_tool_call(g: Seq<ToolStatModel>, tool: Seq<char>, c: int) -> Seq<ToolStatModel> {
    match tool_index(g, tool) {
        Some(i) => g.update(i, ToolStatModel { tool, calls: g[i].calls + 1, chars: g[i].chars + c }),
        None => g.push(ToolStatModel { tool, calls: 1, chars: c }),
    }
}

/// Calls and result volume per tool within the range, tools in order of
/// first appearance.
pub open spec fn tool_groups(rows: Seq<ToolCallRow>, since: Option<Seq<char>>) -> Seq<ToolStatModel>
    decreases rows.len(),
{
    if rows.len() == 0 {
        seq![]
    } else {
        let g = tool_groups(rows.drop_last(), since);
        let r = rows.last();
        if in_range(r.ts@, since) {
            add_tool_call(g, r.tool@, row_chars(r))
        } else {
            g
        }
    }
}

/// Every running total stays within 64-bit integers (SQL `SUM` fails with
/// an integer overflow otherwise).
pub open spec fn tool_groups_fit(rows: Seq<ToolCallRow>, since: Option<Seq<char>>) -> bool
    decreases rows.len(),
{
    if rows.len() == 0 {
        true
    } else {
        let g = tool_groups(rows.drop_last(), since);
        let r = rows.last();
        &&& tool_groups_fit(rows.drop_last(), since)
        &&& in_range(r.ts@, since) ==> match tool_index(g, r.tool@) {
            Some(i) => fits_i64(g[i].calls + 1) && fits_i64(g[i].chars + row_chars(r)),
            None => fits_i64(row_chars(r)),
        }
    }
}

/// Each tool's totals keyed largest volume first.
pub open spec fn tool_entries(g: Seq<ToolStatModel>) -> Seq<(Seq<u32>, ToolStatModel)> {
    g.map_values(|t: ToolStatModel| (desc_key(t.chars as i64), t))
}

/// The tools' totals, largest volume first.
pub open spec fn tool_stats_order(g: Seq<ToolStatModel>) -> Seq<ToolStatModel> {
    crate::sort::sorted_payloads(tool_entries(g))
}

pub open spec fn tool_stat_views(s: Seq<ToolStat>) -> Seq<ToolStatModel> {
    s.map_values(|t: ToolStat| t@)
}

pub open spec fn opt_view_of(o: Option<&str>) -> Option<Seq<char>> {
    match o {
        Some(s) => Some(s@),
        None => None,
    }
}

pub proof fn lemma_tool_index_bound(g: Seq<ToolStatModel>, tool: Seq<char>)
    ensures
        tool_index(g, tool) matches Some(i) ==> 0 <= i < g.len() && g[i].tool == tool,
    decreases g.len(),
{
    if g.len() > 0 {
        lemma_tool_index_bound(g.drop_last(), tool);
    }
}

fn find_tool(g: &Vec<ToolStat>, tool: &str) -> (r: Option<usize>)
    ensures
        match r {
            Some(i) => tool_index(tool_stat_views(g@), tool@) == Some(i as int),
            None => tool_index(tool_stat_views(g@), tool@) is None,
        },
{
    let ghost gv = tool_stat_views(g@);
    let mut i: usize = 0;
    while i < g.len()
        invariant
            i <= g@.len(),
            gv == tool_stat_views(g@),
            forall|j: int| 0 <= j < i ==> gv[j].tool != tool@,
        decreases g.len() - i,
    {
        if str_eq(g[i].tool.as_str(), tool) {
            proof {
                lemma_tool_index_first(gv, tool@, i as int);
            }
            return Some(i);
        }
        i += 1;
    }
    proof {
        lemma_tool_index_none(gv, tool@);
    }
    None
}

proof fn lemma_tool_index_first(g: Seq<ToolStatModel>, tool: Seq<char>, i: int)
    requires
        0 <= i < g.len(),
        g[i].tool == tool,
        forall|j: int| 0 <= j < i ==> g[j].tool != tool,
    ensures
        tool_index(g, tool) == Some(i),
    decreases g.len(),
{
    if i < g.len() - 1 {
        lemma_tool_index_first(g.drop_last(), tool, i);
    } else {
        lemma_tool_index_none(g.drop_last(), tool);
    }
}

proof fn lemma_tool_index_none(g: Seq<ToolStatModel>, tool: Seq<char>)
    requires
        forall|j: int| 0 <= j < g.len() ==> g[j].tool != tool,
    ensures
        tool_index(g, tool) is None,
    decreases g.len(),
{
    if g.len() > 0 {
        lemma_tool_index_none(g.drop_last(), tool);
    }
}

/// A fitting table fits on every prefix.
proof fn lemma_tool_fit_prefix(rows: Seq<ToolCallRow>, since: Option<Seq<char>>, k: int)
    requires
        0 <= k <= rows.len(),
        tool_groups_fit(rows, since),
    ensures
        tool_groups_fit(rows.take(k), since),
    decreases rows.len() - k,
{
    if k == rows.len() {
        assert(rows.take(k) == rows);
    } else {
        lemma_tool_fit_prefix(rows, since, k + 1);
        assert(rows.take(k + 1).drop_last() == rows.take(k));
    }
}

impl Store {
    /// Calls and result volume per tool within the range, largest volume
    /// first; `None` when a total overflows.
    pub fn tool_stats(&self, since: Option<&str>) -> (r: Option<Vec<ToolStat>>)
        ensures
            match r {
                Some(v) => tool_groups_fit(self.tool_calls@, opt_view_of(since)) && tool_stat_views(v@)
                    == tool_stats_order(tool_groups(self.tool_calls@, opt_view_of(since))),
                None => !tool_groups_fit(self.tool_calls@, opt_view_of(since)),
            },
    {
        let ghost sv = opt_view_of(since);
        let key = since_key(since);
        let rows = &self.tool_calls;
        let mut groups: Vec<ToolStat> = Vec::new();
        let mut i: usize = 0;
        while i < rows.len()
            invariant
                i <= rows@.len(),
                rows@ == self.tool_calls@,
                sv == opt_view_of(since),
                tool_groups_fit(rows@.take(i as int), sv),
                tool_stat_views(groups@) == tool_groups(rows@.take(i as int), sv),
                match key {
                    Some(k) => sv matches Some(t) && k@ == code_points(t),
                    None => sv is None,
                },
            decreases rows.len() - i,
        {
            assert(rows@.take(i + 1).drop_last() == rows@.take(i as int));
            assert(rows@.take(i + 1).last() == rows@[i as int]);
            let row = &rows[i];
            if ts_in_range(row.ts.as_str(), &key) {
                let c: i64 = match row.result_chars {
                    Some(c) => c,
                    None => 0,
                };
                let ghost gv = tool_stat_views(groups@);
                match find_tool(&groups, row.tool.as_str()) {
                    Some(j) => {
                        proof {
                            lemma_tool_index_bound(gv, row.tool@);
                            assert(in_range(rows@[i as int].ts@, sv));
                            assert(gv[j as int].calls == groups@[j as int].calls);
                        }
                        let calls = groups[j].calls;
                        let chars = groups[j].chars;
                        if calls == i64::MAX {
                            proof {
                                let g0 = tool_groups(rows@.take(i + 1).drop_last(), sv);
                                assert(g0 == gv);
                                assert(tool_index(g0, rows@.take(i + 1).last().tool@) == Some(j as int));
                                assert(!fits_i64(g0[j as int].calls + 1));
                                assert(!tool_groups_fit(rows@.take(i + 1), sv));
                                if tool_groups_fit(rows@, sv) {
                                    lemma_tool_fit_prefix(rows@, sv, i + 1);
                                }
                            }
                            return None;
                        }
                        let total = match chars.checked_add(c) {
                            Some(t) => t,
                            None => {
                                proof {
                                    assert(!tool_groups_fit(rows@.take(i + 1), sv));
                                    if tool_groups_fit(rows@, sv) {
                                        lemma_tool_fit_prefix(rows@, sv, i + 1);
                                    }
                                }
                                return None;
                            },
                        };
                        let stat = ToolStat { tool: groups[j].tool.clone(), calls: calls + 1, chars: total };
                        groups.set(j, stat);
                        assert(tool_stat_views(groups@) =~= gv.update(
                            j as int,
                            ToolStatModel { tool: row.tool@, calls: gv[j as int].calls + 1, chars: gv[j as int].chars + c },
                        ));
                    },
                    None => {
                        groups.push(ToolStat { tool: row.tool.clone(), calls: 1, chars: c });
                        assert(tool_stat_views(groups@) =~= gv.push(ToolStatModel { tool: row.tool@, calls: 1, chars: c as int }));
                    },
                }
            }
            i += 1;
        }
        assert(rows@.take(rows@.len() as int) == rows@);
        let ghost gs = groups@;
        let n = groups.len();
        let mut items: Vec<(i64, ToolStat)> = Vec::new();
        let mut rest = crate::sort::reversed(groups);
        let mut k: usize = 0;
        while rest.len() > 0
            invariant
                k + rest@.len() == gs.len(),
                n == gs.len(),
                rest@.reverse() == gs.skip(k as int),
                items@ == gs.take(k as int).map_values(|t: ToolStat| (t.chars, t)),
            decreases rest.len(),
        {
            let ghost bv = rest@;
            let e = rest.pop().unwrap();
            assert(bv.reverse()[0] == bv.last());
            assert(gs.skip(k as int)[0] == gs[k as int]);
            assert(rest@.reverse() == gs.skip(k + 1)) by {
                assert(bv.reverse().drop_first() == bv.drop_last().reverse());
                assert(gs.skip(k as int).drop_first() == gs.skip(k + 1));
            }
            let ch = e.chars;
            items.push((ch, e));
            assert(gs.take(k + 1) == gs.take(k as int).push(gs[k as int]));
            k += 1;
        }
        assert(gs.take(gs.len() as int) == gs);
        let ghost pre = keyed_desc(items@);
        let sorted = sort_desc(items);
        let ghost f = |t: ToolStat| t@;
        proof {
            lemma_sort_map_payload(pre, f);
            assert(map_payload(pre, f) =~= tool_stat_views(gs).map_values(
                |t: ToolStatModel| (desc_key(t.chars as i64), t),
            ));
            crate::sort::lemma_stable_sort_len(pre);
        }
        assert forall|j: int| 0 <= j < sorted@.len() implies #[trigger] tool_stat_views(sorted@)[j]
            == tool_stats_order(tool_stat_views(gs))[j] by {
        }
        assert(tool_stat_views(sorted@) =~= tool_stats_order(tool_stat_views(gs)));
        Some(sorted)
    }
}

} // verus!
