//! Properties that span several operations of the library, stated over the
//! same models the operations' contracts use, and proved.

use vstd::prelude::*;

use crate::text::ascii_lower;
use crate::pricing::{best_row, table_row};
use crate::integrity::{diff_trees_spec, finding_for};
use crate::json::{member_lookup, spec_values_equal, JsonMember};
use crate::activity::{metric_value, WindowTurnModel};
use crate::pricing::{cost_of_spec, cost_spec, price_spec, ModelPrice};
use crate::sort::{
    lemma_lex_transitive,
    lemma_sorted_payloads_sum, pay_sum, sum_of,
    code_points, desc_key, lex_lt, lemma_lex_irreflexive, lemma_lex_total, lemma_lex_asymmetric, lemma_sorted_asc,
    lemma_sorted_desc, lemma_stable_sort_len, lemma_stable_sort_member, lemma_stable_sort_permutes, limited, sorted_payloads, stable_sort,
};
use crate::waste::{biggest, calls_in_range, big_entries, dup_entries, largest_spec, BigResultModel, DupReadModel, DupTotalsModel};
use crate::rollup::{
    ts_before, bucket_keys, bucket_model_keys, cost_total, lemma_unit_groups, overview_ok, overview_spec, OverviewModel,
    add_totals, counted, group_index, groups_fit, overview_groups, start_totals, totals_fit, unit_keys, TotalsModel,
    bucket_entries, by_model_spec, event_groups, lemma_group_index_bound, model_bucket_entries, model_groups,
    model_keys, model_series_groups, series_by_model_spec, series_groups, series_sessions_spec, series_spec,
    session_entries, usage_entries, usage_of, ModelBucketModel, ModelUsageModel, SessionBucketModel,
    UsageBucketModel,
};
use crate::store::{
    event_key_taken, session_index, session_views, SessionRow, event_row_of, is_synthetic, merged_session, offset_lookup, real_events,
    stored_offset, tool_key_taken, EventRow, FileOffsetRow, NewEvent, SessionModel, ToolCallRow,
    fits_i64, in_range, row_chars, tool_index, lemma_tool_index_bound, tool_entries, tool_groups, tool_groups_fit, tool_stats_order, Bucket,
    ToolStatModel,
};
use crate::collectors::claude_code::opt_string_view;
use crate::json::spec_parse_json;
use crate::collectors::claude_code::resume_spec;
use crate::integrity::{assess_spec, ConfigFileModel, diff_keys, diff_spec, findings_for, keyed_findings, object_members, severity_rank, FindingModel};
use crate::plugins::{gone_from, installs_spec, keyed_events, removals_spec, timeline_spec, PluginEventModel};
use crate::collectors::limits::{keyed_limits, legacy_spec, limit_key, limits_list_spec, parse_limits_spec, LegacyReading, UsageLimitModel};
use crate::json::JsonValue;

verus! {

/// A file offset written is the offset read back (for every offset that
/// the store's 64-bit column holds).
pub proof fn law_offset_round_trip(files: Seq<FileOffsetRow>, path: Seq<char>, offset: u64)
    requires
        offset <= i64::MAX,
        offset_lookup(files, path) == Some(offset as i64),
    ensures
        stored_offset(files, path) == offset,
{
}

/// Inserting an event with an idempotency key makes the key taken, so
/// inserting it again is refused and changes nothing.
pub proof fn law_event_insert_idempotent(before: Seq<EventRow>, after: Seq<EventRow>, ev: NewEvent, key: Seq<char>)
    requires
        opt_string_view(ev.dedup_key) == Some(key),
        (after.len() == before.len() + 1 && after.drop_last() == before && event_row_of(ev, after.last()))
            || (after == before && event_key_taken(before, key)),
    ensures
        event_key_taken(after, key),
{
    if after.len() == before.len() + 1 && after.drop_last() == before && event_row_of(ev, after.last()) {
        assert(opt_string_view(after[after.len() - 1].dedup_key) == Some(key));
    }
}

/// Inserting a tool call makes its idempotency key taken, so inserting it
/// again is refused and changes nothing.
pub proof fn law_tool_insert_idempotent(
    before: Seq<ToolCallRow>,
    after: Seq<ToolCallRow>,
    key: Seq<char>,
)
    requires
        (after.len() == before.len() + 1 && after.drop_last() == before && after.last().dedup_key@ == key)
            || (after == before && tool_key_taken(before, key)),
    ensures
        tool_key_taken(after, key),
{
    if after.len() == before.len() + 1 && after.drop_last() == before && after.last().dedup_key@ == key {
        assert(after[after.len() - 1].dedup_key@ == key);
    }
}

/// Refreshing a session keeps the earliest start time seen: the stored
/// start is known whenever either start is, and is no later than either.
pub proof fn law_upsert_keeps_earliest(
    old: SessionModel,
    project: Option<Seq<char>>,
    started_at: Option<Seq<char>>,
)
    ensures
        ({
            let m = merged_session(old, project, started_at);
            &&& (old.started_at is Some || started_at is Some) ==> m.started_at is Some
            &&& old.started_at matches Some(x) ==> m.started_at matches Some(y) && !lex_lt(
                code_points(x),
                code_points(y),
            )
            &&& started_at matches Some(x) ==> m.started_at matches Some(y) && !lex_lt(
                code_points(x),
                code_points(y),
            )
        }),
{
    match (old.started_at, started_at) {
        (Some(x), Some(y)) => {
            lemma_lex_irreflexive(code_points(x));
            lemma_lex_irreflexive(code_points(y));
            lemma_lex_asymmetric(code_points(x), code_points(y));
            lemma_lex_total(code_points(x), code_points(y));
        },
        (Some(x), None) => {
            lemma_lex_irreflexive(code_points(x));
        },
        (None, Some(y)) => {
            lemma_lex_irreflexive(code_points(y));
        },
        (None, None) => {},
    }
}

/// A project, once known, is never replaced by a refresh.
pub proof fn law_upsert_keeps_project(
    old: SessionModel,
    project: Option<Seq<char>>,
    started_at: Option<Seq<char>>,
)
    requires
        old.project is Some,
    ensures
        merged_session(old, project, started_at).project == old.project,
{
}

/// Model ids are matched case-insensitively: an id prices as its
/// lower-cased form does.
pub proof fn law_price_ignores_case(model: Seq<char>)
    ensures
        price_spec(model) == price_spec(ascii_lower(model)),
{
    assert(ascii_lower(ascii_lower(model)) =~= ascii_lower(model));
}

/// Cost is additive: pricing summed usage costs the sum of pricing each
/// part, so per-model rollups may be priced on their totals.
pub proof fn law_cost_additive(
    p: ModelPrice,
    a1: int,
    b1: int,
    c1: int,
    d1: int,
    a2: int,
    b2: int,
    c2: int,
    d2: int,
)
    ensures
        cost_spec(p, a1 + a2, b1 + b2, c1 + c2, d1 + d2) == cost_spec(p, a1, b1, c1, d1) + cost_spec(
            p,
            a2,
            b2,
            c2,
            d2,
        ),
{
    let i = p.input as int;
    let o = p.output as int;
    let r = p.cache_read_mult as int;
    let w = p.cache_write_mult as int;
    assert((a1 + a2) * i * 100 == a1 * i * 100 + a2 * i * 100) by (nonlinear_arith);
    assert((b1 + b2) * o * 100 == b1 * o * 100 + b2 * o * 100) by (nonlinear_arith);
    assert((c1 + c2) * i * r == c1 * i * r + c2 * i * r) by (nonlinear_arith);
    assert((d1 + d2) * i * w == d1 * i * w + d2 * i * w) by (nonlinear_arith);
}

/// Usage of an unknown model, or of no model, costs nothing.
pub proof fn law_unpriced_costs_nothing(
    model: Option<Seq<char>>,
    tokens_in: int,
    tokens_out: int,
    cache_read: int,
    cache_write: int,
)
    requires
        model matches Some(m) ==> price_spec(m) is None,
    ensures
        cost_of_spec(model, tokens_in, tokens_out, cache_read, cache_write) == 0,
{
}

/// The ingest offsets after the migrations: forgotten when there are
/// events but no tool calls.
pub open spec fn migrated_files(
    tool_calls: Seq<ToolCallRow>,
    events: Seq<EventRow>,
    files: Seq<FileOffsetRow>,
) -> Seq<FileOffsetRow> {
    if tool_calls.len() == 0 && real_events(events).len() > 0 {
        Seq::empty()
    } else {
        files
    }
}

proof fn lemma_real_events_idempotent(events: Seq<EventRow>)
    ensures
        real_events(real_events(events)) == real_events(events),
        forall|i: int| 0 <= i < real_events(events).len() ==> !is_synthetic(#[trigger] real_events(events)[i]),
    decreases events.len(),
{
    if events.len() > 0 {
        lemma_real_events_idempotent(events.drop_last());
        let r = real_events(events.drop_last());
        if !is_synthetic(events.last()) {
            assert(r.push(events.last()).drop_last() == r);
        }
    }
}

/// The migrations are idempotent: running them twice leaves what running
/// them once leaves.
pub proof fn law_migrate_idempotent(
    tool_calls: Seq<ToolCallRow>,
    events: Seq<EventRow>,
    files: Seq<FileOffsetRow>,
)
    ensures
        real_events(real_events(events)) == real_events(events),
        migrated_files(tool_calls, real_events(events), migrated_files(tool_calls, events, files))
            == migrated_files(tool_calls, events, files),
{
    lemma_real_events_idempotent(events);
}

// ---------------------------------------------------------------------------
// Rankings and orderings
// ---------------------------------------------------------------------------

proof fn lemma_limited_prefix<T>(s: Seq<T>, limit: i64)
    ensures
        limited(s, limit).len() <= s.len(),
        forall|i: int| 0 <= i < limited(s, limit).len() ==> limited(s, limit)[i] == s[i],
{
}

proof fn lemma_big_entries_keys(rows: Seq<ToolCallRow>, since: Option<Seq<char>>)
    ensures
        forall|k: int|
            0 <= k < big_entries(rows, since).len() ==> (#[trigger] big_entries(rows, since)[k]).0 == desc_key(
                big_entries(rows, since)[k].1.chars as i64,
            ),
    decreases rows.len(),
{
    if rows.len() > 0 {
        lemma_big_entries_keys(rows.drop_last(), since);
    }
}

pub open spec fn big_chars(b: BigResultModel) -> i64 {
    b.chars as i64
}

/// The largest results come largest first, and no more than the limit.
pub proof fn law_largest_results_ordered(rows: Seq<ToolCallRow>, since: Option<Seq<char>>, limit: i64)
    ensures
        limit >= 0 ==> largest_spec(rows, since, limit).len() <= limit,
        forall|i: int, j: int|
            0 <= i < j < largest_spec(rows, since, limit).len() ==> (#[trigger] largest_spec(rows, since, limit)[i]).chars
                >= (#[trigger] largest_spec(rows, since, limit)[j]).chars,
{
    let es = big_entries(rows, since);
    lemma_big_entries_keys(rows, since);
    lemma_big_entries_range(rows, since);
    lemma_sorted_desc(es, |b: BigResultModel| big_chars(b));
    lemma_limited_prefix(sorted_payloads(es), limit);
    lemma_stable_sort_member_all(es);
}

proof fn lemma_big_entries_range(rows: Seq<ToolCallRow>, since: Option<Seq<char>>)
    ensures
        forall|k: int|
            0 <= k < big_entries(rows, since).len() ==> i64::MIN <= (#[trigger] big_entries(rows, since)[k]).1.chars
                <= i64::MAX,
    decreases rows.len(),
{
    if rows.len() > 0 {
        lemma_big_entries_range(rows.drop_last(), since);
    }
}

/// Every payload of the sorted sequence is the payload of an input entry.
proof fn lemma_stable_sort_member_all<V>(s: Seq<(Seq<u32>, V)>)
    ensures
        sorted_payloads(s).len() == s.len(),
        forall|i: int| 0 <= i < s.len() ==> exists|k: int| 0 <= k < s.len() && #[trigger] sorted_payloads(s)[i] == s[k].1,
{
    lemma_stable_sort_len(s);
    assert forall|i: int| 0 <= i < s.len() implies exists|k: int| 0 <= k < s.len() && #[trigger] sorted_payloads(s)[i] == s[k].1 by {
        lemma_stable_sort_member(s, i);
        let k = choose|k: int| 0 <= k < s.len() && s[k] == stable_sort(s)[i];
        assert(sorted_payloads(s)[i] == s[k].1);
    }
}

pub open spec fn dup_wasted(d: DupReadModel) -> i64 {
    d.wasted_chars as i64
}

/// Repeated reads are ranked worst waste first, and no more than the
/// limit are kept.
pub proof fn law_dup_reads_ranked(d: Seq<DupTotalsModel>, wasted: Seq<i64>, limit: i64)
    requires
        wasted.len() == d.len(),
    ensures
        limit >= 0 ==> limited(sorted_payloads(dup_entries(d, wasted)), limit).len() <= limit,
        forall|i: int, j: int|
            0 <= i < j < limited(sorted_payloads(dup_entries(d, wasted)), limit).len() ==> (#[trigger] limited(
                sorted_payloads(dup_entries(d, wasted)),
                limit,
            )[i]).wasted_chars >= (#[trigger] limited(sorted_payloads(dup_entries(d, wasted)), limit)[j]).wasted_chars,
{
    let es = dup_entries(d, wasted);
    lemma_sorted_desc(es, |x: DupReadModel| dup_wasted(x));
    lemma_stable_sort_member_all(es);
    lemma_limited_prefix(sorted_payloads(es), limit);
}

proof fn lemma_group_ranges(rows: Seq<EventRow>, keys: Seq<Seq<Seq<char>>>, since: Option<Seq<char>>)
    ensures
        forall|k: int|
            0 <= k < event_groups(rows, keys, since).len() ==> {
                let t = #[trigger] event_groups(rows, keys, since)[k];
                &&& fits_i64(t.tokens_in)
                &&& fits_i64(t.tokens_out)
                &&& fits_i64(t.cache_read)
                &&& fits_i64(t.cache_write)
            },
    decreases rows.len(),
{
    if rows.len() > 0 {
        lemma_group_ranges(rows.drop_last(), keys, since);
        let g = event_groups(rows.drop_last(), keys, since);
        lemma_group_index_bound(g, keys[rows.len() - 1]);
    }
}

pub open spec fn usage_out(u: ModelUsageModel) -> i64 {
    u.tokens_out as i64
}

/// The per-model rollup comes largest output first.
pub proof fn law_by_model_ordered(events: Seq<EventRow>, since: Option<Seq<char>>)
    ensures
        forall|i: int, j: int|
            0 <= i < j < by_model_spec(events, since).len() ==> (#[trigger] by_model_spec(events, since)[i]).tokens_out
                >= (#[trigger] by_model_spec(events, since)[j]).tokens_out,
{
    let g = model_groups(events, since);
    let es = usage_entries(g);
    lemma_group_ranges(events, model_keys(events), since);
    assert forall|k: int| 0 <= k < es.len() implies (#[trigger] es[k]).0 == desc_key(usage_out(es[k].1)) by {
        assert(es[k] == (desc_key(g[k].tokens_out as i64), usage_of(g[k])));
    }
    lemma_sorted_desc(es, |u: ModelUsageModel| usage_out(u));
    lemma_stable_sort_member_all(es);
    assert forall|i: int, j: int| 0 <= i < j < by_model_spec(events, since).len() implies (#[trigger] by_model_spec(
        events,
        since,
    )[i]).tokens_out >= (#[trigger] by_model_spec(events, since)[j]).tokens_out by {
        let k1 = choose|k: int| 0 <= k < es.len() && sorted_payloads(es)[i] == es[k].1;
        let k2 = choose|k: int| 0 <= k < es.len() && sorted_payloads(es)[j] == es[k].1;
        assert(es[k1].1 == usage_of(g[k1]));
        assert(es[k2].1 == usage_of(g[k2]));
    }
}

proof fn lemma_tool_ranges(rows: Seq<ToolCallRow>, since: Option<Seq<char>>)
    requires
        tool_groups_fit(rows, since),
    ensures
        forall|k: int| 0 <= k < tool_groups(rows, since).len() ==> fits_i64((#[trigger] tool_groups(rows, since)[k]).chars),
    decreases rows.len(),
{
    if rows.len() > 0 {
        lemma_tool_ranges(rows.drop_last(), since);
        let g = tool_groups(rows.drop_last(), since);
        lemma_tool_index_bound(g, rows.last().tool@);
    }
}

pub open spec fn tool_chars(t: ToolStatModel) -> i64 {
    t.chars as i64
}

/// The tool rollup comes largest result volume first.
pub proof fn law_tool_stats_ordered(rows: Seq<ToolCallRow>, since: Option<Seq<char>>)
    requires
        tool_groups_fit(rows, since),
    ensures
        forall|i: int, j: int|
            0 <= i < j < tool_stats_order(tool_groups(rows, since)).len() ==> (#[trigger] tool_stats_order(
                tool_groups(rows, since),
            )[i]).chars >= (#[trigger] tool_stats_order(tool_groups(rows, since))[j]).chars,
{
    let g = tool_groups(rows, since);
    let es = tool_entries(g);
    lemma_tool_ranges(rows, since);
    lemma_sorted_desc(es, |t: ToolStatModel| tool_chars(t));
    lemma_stable_sort_member_all(es);
    assert forall|i: int, j: int| 0 <= i < j < tool_stats_order(g).len() implies (#[trigger] tool_stats_order(
        g,
    )[i]).chars >= (#[trigger] tool_stats_order(g)[j]).chars by {
        let k1 = choose|k: int| 0 <= k < es.len() && sorted_payloads(es)[i] == es[k].1;
        let k2 = choose|k: int| 0 <= k < es.len() && sorted_payloads(es)[j] == es[k].1;
        assert(es[k1].1 == g[k1]);
        assert(es[k2].1 == g[k2]);
    }
}

pub open spec fn bucket_points(u: UsageBucketModel) -> Seq<u32> {
    code_points(u.bucket)
}

pub open spec fn model_bucket_points(u: ModelBucketModel) -> Seq<u32> {
    code_points(u.bucket)
}

pub open spec fn session_bucket_points(u: SessionBucketModel) -> Seq<u32> {
    code_points(u.bucket)
}

/// Every series comes in bucket order.
pub proof fn law_series_in_bucket_order(
    events: Seq<EventRow>,
    b: Bucket,
    local: Seq<Seq<char>>,
    since: Option<Seq<char>>,
)
    ensures
        forall|i: int, j: int|
            0 <= i < j < series_spec(events, b, local, since).len() ==> !lex_lt(
                code_points((#[trigger] series_spec(events, b, local, since)[j]).bucket),
                code_points((#[trigger] series_spec(events, b, local, since)[i]).bucket),
            ),
        forall|i: int, j: int|
            0 <= i < j < series_by_model_spec(events, b, local, since).len() ==> !lex_lt(
                code_points((#[trigger] series_by_model_spec(events, b, local, since)[j]).bucket),
                code_points((#[trigger] series_by_model_spec(events, b, local, since)[i]).bucket),
            ),
        forall|i: int, j: int|
            0 <= i < j < series_sessions_spec(events, b, local, since).len() ==> !lex_lt(
                code_points((#[trigger] series_sessions_spec(events, b, local, since)[j]).bucket),
                code_points((#[trigger] series_sessions_spec(events, b, local, since)[i]).bucket),
            ),
{
    let g1 = series_groups(events, b, local, since);
    let e1 = bucket_entries(g1);
    assert forall|k: int| 0 <= k < e1.len() implies (#[trigger] e1[k]).0 == bucket_points(e1[k].1) by {}
    lemma_sorted_asc(e1, |u: UsageBucketModel| bucket_points(u));
    let g2 = model_series_groups(events, b, local, since);
    let e2 = model_bucket_entries(g2);
    assert forall|k: int| 0 <= k < e2.len() implies (#[trigger] e2[k]).0 == model_bucket_points(e2[k].1) by {}
    lemma_sorted_asc(e2, |u: ModelBucketModel| model_bucket_points(u));
    let e3 = session_entries(g1);
    assert forall|k: int| 0 <= k < e3.len() implies (#[trigger] e3[k]).0 == session_bucket_points(e3[k].1) by {}
    lemma_sorted_asc(e3, |u: SessionBucketModel| session_bucket_points(u));
}

// ---------------------------------------------------------------------------
// Rollups account for every counted turn
// ---------------------------------------------------------------------------

/// Field `f` of a row's usage: input, output, cache-read or cache-write
/// tokens (`f` = 0, 1, 2, 3); any other `f` counts the row itself.
pub open spec fn row_value(r: EventRow, f: int) -> int {
    if f == 0 {
        r.tokens_in as int
    } else if f == 1 {
        r.tokens_out as int
    } else if f == 2 {
        r.cache_read as int
    } else if f == 3 {
        r.cache_write as int
    } else {
        1
    }
}

/// The same field of a group's totals.
pub open spec fn group_value(t: TotalsModel, f: int) -> int {
    if f == 0 {
        t.tokens_in
    } else if f == 1 {
        t.tokens_out
    } else if f == 2 {
        t.cache_read
    } else if f == 3 {
        t.cache_write
    } else {
        t.turns
    }
}

/// The field summed over the counted rows.
pub open spec fn counted_sum(rows: Seq<EventRow>, since: Option<Seq<char>>, f: int) -> int
    decreases rows.len(),
{
    if rows.len() == 0 {
        0
    } else {
        counted_sum(rows.drop_last(), since, f) + if counted(rows.last(), since) {
            row_value(rows.last(), f)
        } else {
            0
        }
    }
}

/// The field summed over the groups.
pub open spec fn groups_sum(g: Seq<TotalsModel>, f: int) -> int
    decreases g.len(),
{
    if g.len() == 0 {
        0
    } else {
        groups_sum(g.drop_last(), f) + group_value(g.last(), f)
    }
}

proof fn lemma_groups_sum_update(g: Seq<TotalsModel>, i: int, x: TotalsModel, f: int)
    requires
        0 <= i < g.len(),
    ensures
        groups_sum(g.update(i, x), f) == groups_sum(g, f) - group_value(g[i], f) + group_value(x, f),
    decreases g.len(),
{
    let u = g.update(i, x);
    if i < g.len() - 1 {
        lemma_groups_sum_update(g.drop_last(), i, x, f);
        assert(u.drop_last() =~= g.drop_last().update(i, x));
    } else {
        assert(u.drop_last() =~= g.drop_last());
    }
}

proof fn lemma_groups_sum_push(g: Seq<TotalsModel>, x: TotalsModel, f: int)
    ensures
        groups_sum(g.push(x), f) == groups_sum(g, f) + group_value(x, f),
{
    assert(g.push(x).drop_last() =~= g);
}

proof fn lemma_group_turns_positive(rows: Seq<EventRow>, keys: Seq<Seq<Seq<char>>>, since: Option<Seq<char>>)
    ensures
        forall|k: int| 0 <= k < event_groups(rows, keys, since).len() ==> (#[trigger] event_groups(rows, keys, since)[k]).turns >= 1,
    decreases rows.len(),
{
    if rows.len() > 0 {
        lemma_group_turns_positive(rows.drop_last(), keys, since);
        let g = event_groups(rows.drop_last(), keys, since);
        lemma_group_index_bound(g, keys[rows.len() - 1]);
    }
}

/// Every counted turn lands in exactly one group: the groups' turn counts
/// add up to the number of counted turns, whatever the keys.
pub proof fn law_groups_count_every_turn(
    rows: Seq<EventRow>,
    keys: Seq<Seq<Seq<char>>>,
    since: Option<Seq<char>>,
)
    ensures
        groups_sum(event_groups(rows, keys, since), 4) == counted_sum(rows, since, 4),
    decreases rows.len(),
{
    if rows.len() > 0 {
        law_groups_count_every_turn(rows.drop_last(), keys, since);
        let g = event_groups(rows.drop_last(), keys, since);
        let key = keys[rows.len() - 1];
        let r = rows.last();
        if counted(r, since) {
            lemma_group_index_bound(g, key);
            match group_index(g, key) {
                Some(i) => lemma_groups_sum_update(g, i, add_totals(g[i], r), 4),
                None => lemma_groups_sum_push(g, start_totals(key, r), 4),
            }
        }
    }
}

/// When no total overflowed, the groups' token sums add up to the token
/// sums of the counted turns, whatever the keys: grouping loses and
/// doubles nothing.
pub proof fn law_groups_conserve_tokens(
    rows: Seq<EventRow>,
    keys: Seq<Seq<Seq<char>>>,
    since: Option<Seq<char>>,
    f: int,
)
    requires
        groups_fit(event_groups(rows, keys, since)),
    ensures
        groups_sum(event_groups(rows, keys, since), f) == counted_sum(rows, since, f),
    decreases rows.len(),
{
    if rows.len() > 0 {
        let g = event_groups(rows.drop_last(), keys, since);
        let key = keys[rows.len() - 1];
        let r = rows.last();
        let after = event_groups(rows, keys, since);
        if counted(r, since) {
            lemma_group_index_bound(g, key);
            match group_index(g, key) {
                Some(i) => {
                    lemma_group_turns_positive(rows.drop_last(), keys, since);
                    assert(after[i] == add_totals(g[i], r));
                    assert(totals_fit(after[i]));
                    assert forall|j: int| 0 <= j < g.len() implies totals_fit(#[trigger] g[j]) by {
                        if j != i {
                            assert(after[j] == g[j]);
                            assert(totals_fit(after[j]));
                        }
                    }
                    law_groups_conserve_tokens(rows.drop_last(), keys, since, f);
                    lemma_groups_sum_update(g, i, add_totals(g[i], r), f);
                },
                None => {
                    assert forall|j: int| 0 <= j < g.len() implies totals_fit(#[trigger] g[j]) by {
                        assert(after[j] == g[j]);
                        assert(totals_fit(after[j]));
                    }
                    law_groups_conserve_tokens(rows.drop_last(), keys, since, f);
                    lemma_groups_sum_push(g, start_totals(key, r), f);
                },
            }
        } else {
            law_groups_conserve_tokens(rows.drop_last(), keys, since, f);
        }
    }
}

/// The overview and the per-model rollup agree: the overview's turns are
/// the sum of the per-model turns.
pub proof fn law_overview_matches_models(events: Seq<EventRow>, since: Option<Seq<char>>)
    ensures
        groups_sum(overview_groups(events, since), 4) == groups_sum(model_groups(events, since), 4),
{
    law_groups_count_every_turn(events, unit_keys(events.len()), since);
    law_groups_count_every_turn(events, model_keys(events), since);
}

// ---------------------------------------------------------------------------
// Config integrity
// ---------------------------------------------------------------------------

/// Findings come most severe first: critical, then warning, then the
/// rest.
pub proof fn law_findings_most_severe_first(base: Seq<char>, current: Seq<char>)
    ensures
        forall|i: int, j: int|
            0 <= i < j < diff_spec(base, current).len() ==> severity_rank((#[trigger] diff_spec(base, current)[i]).severity)
                <= severity_rank((#[trigger] diff_spec(base, current)[j]).severity),
{
    match (spec_parse_json(base), spec_parse_json(current)) {
        (Some(a), Some(b)) => {
            let ao = object_members(a);
            let bo = object_members(b);
            let es = keyed_findings(findings_for(diff_keys(ao, bo), ao, bo));
            assert(diff_spec(base, current) =~= sorted_payloads(es));
            assert forall|k: int| 0 <= k < es.len() implies (#[trigger] es[k]).0 == finding_key(es[k].1) by {}
            lemma_sorted_asc(es, |f: FindingModel| finding_key(f));
            assert forall|i: int, j: int| 0 <= i < j < diff_spec(base, current).len() implies severity_rank(
                (#[trigger] diff_spec(base, current)[i]).severity,
            ) <= severity_rank((#[trigger] diff_spec(base, current)[j]).severity) by {
                let fi = diff_spec(base, current)[i];
                let fj = diff_spec(base, current)[j];
                assert(!lex_lt(finding_key(fj), finding_key(fi)));
                if severity_rank(fj.severity) < severity_rank(fi.severity) {
                    assert(finding_key(fj)[0] < finding_key(fi)[0]);
                }
            }
        },
        _ => {},
    }
}

pub open spec fn finding_key(f: FindingModel) -> Seq<u32> {
    seq![severity_rank(f.severity)]
}

pub open spec fn event_time(e: PluginEventModel) -> Seq<u32> {
    code_points(e.ts)
}

/// The plugin timeline comes oldest first.
pub proof fn law_timeline_oldest_first(roster: Seq<(Seq<char>, Seq<char>)>, removed: Seq<(Seq<char>, Seq<char>)>)
    ensures
        forall|i: int, j: int|
            0 <= i < j < timeline_spec(roster, removed).len() ==> !lex_lt(
                code_points((#[trigger] timeline_spec(roster, removed)[j]).ts),
                code_points((#[trigger] timeline_spec(roster, removed)[i]).ts),
            ),
{
    let es = keyed_events(installs_spec(roster) + removals_spec(removed));
    assert(timeline_spec(roster, removed) =~= sorted_payloads(es));
    assert forall|k: int| 0 <= k < es.len() implies (#[trigger] es[k]).0 == event_time(es[k].1) by {}
    lemma_sorted_asc(es, |e: PluginEventModel| event_time(e));
}

pub open spec fn limit_order(l: UsageLimitModel) -> Seq<u32> {
    limit_key(l.kind)
}

/// Usage limits come session first, then ordered by kind.
pub proof fn law_limits_session_first(
    body: JsonValue,
    five_hour: Option<LegacyReading>,
    seven_day: Option<LegacyReading>,
)
    ensures
        forall|i: int, j: int|
            0 <= i < j < parse_limits_spec(body, five_hour, seven_day).len() ==> {
                let li = #[trigger] parse_limits_spec(body, five_hour, seven_day)[i];
                let lj = #[trigger] parse_limits_spec(body, five_hour, seven_day)[j];
                &&& lj.kind == "session"@ ==> li.kind == "session"@
                &&& (li.kind == "session"@) == (lj.kind == "session"@) ==> !lex_lt(code_points(lj.kind), code_points(li.kind))
            },
{
    let listed = match body.field("limits"@) {
        Some(a) => match a.items_spec() {
            Some(items) => limits_list_spec(items),
            None => seq![],
        },
        None => seq![],
    };
    let out = if listed.len() == 0 {
        legacy_spec(body, five_hour, seven_day)
    } else {
        listed
    };
    let es = keyed_limits(out);
    let r = parse_limits_spec(body, five_hour, seven_day);
    assert(r =~= sorted_payloads(es));
    assert forall|k: int| 0 <= k < es.len() implies (#[trigger] es[k]).0 == limit_order(es[k].1) by {}
    lemma_sorted_asc(es, |l: UsageLimitModel| limit_order(l));
    assert forall|i: int, j: int| 0 <= i < j < r.len() implies {
        let li = #[trigger] r[i];
        let lj = #[trigger] r[j];
        &&& lj.kind == "session"@ ==> li.kind == "session"@
        &&& (li.kind == "session"@) == (lj.kind == "session"@) ==> !lex_lt(code_points(lj.kind), code_points(li.kind))
    } by {
        let ki = limit_key(r[i].kind);
        let kj = limit_key(r[j].kind);
        assert(!lex_lt(kj, ki));
        assert(ki.drop_first() =~= code_points(r[i].kind));
        assert(kj.drop_first() =~= code_points(r[j].kind));
        if r[j].kind == "session"@ && r[i].kind != "session"@ {
            assert(kj[0] < ki[0]);
        }
    }
}

// ---------------------------------------------------------------------------
// Idempotency keys stay unique
// ---------------------------------------------------------------------------

/// No two events carry the same idempotency key.
pub open spec fn event_keys_unique(rows: Seq<EventRow>) -> bool {
    forall|i: int, j: int|
        0 <= i < j < rows.len() && (#[trigger] rows[i]).dedup_key is Some ==> opt_string_view(rows[i].dedup_key)
            != opt_string_view((#[trigger] rows[j]).dedup_key)
}

/// No two tool calls carry the same idempotency key.
pub open spec fn tool_keys_unique(rows: Seq<ToolCallRow>) -> bool {
    forall|i: int, j: int| 0 <= i < j < rows.len() ==> (#[trigger] rows[i]).dedup_key@ != (#[trigger] rows[j]).dedup_key@
}

/// Inserting an event keeps the idempotency keys unique.
pub proof fn law_event_keys_stay_unique(before: Seq<EventRow>, after: Seq<EventRow>, ev: NewEvent, added: bool)
    requires
        event_keys_unique(before),
        added == !(ev.dedup_key matches Some(k) && event_key_taken(before, k@)),
        added ==> after.len() == before.len() + 1 && after.drop_last() == before && event_row_of(ev, after.last()),
        !added ==> after == before,
    ensures
        event_keys_unique(after),
{
    if added {
        assert forall|i: int, j: int|
            0 <= i < j < after.len() && (#[trigger] after[i]).dedup_key is Some implies opt_string_view(
            after[i].dedup_key,
        ) != opt_string_view((#[trigger] after[j]).dedup_key) by {
            assert(after[i] == before[i]);
            if j < before.len() {
                assert(after[j] == before[j]);
            } else {
                match ev.dedup_key {
                    Some(k) => {
                        if opt_string_view(after[i].dedup_key) == Some(k@) {
                            assert(event_key_taken(before, k@));
                        }
                    },
                    None => {},
                }
            }
        }
    }
}

/// Inserting a tool call keeps the idempotency keys unique.
pub proof fn law_tool_keys_stay_unique(before: Seq<ToolCallRow>, after: Seq<ToolCallRow>, key: Seq<char>, added: bool)
    requires
        tool_keys_unique(before),
        added == !tool_key_taken(before, key),
        added ==> after.len() == before.len() + 1 && after.drop_last() == before && after.last().dedup_key@ == key,
        !added ==> after == before,
    ensures
        tool_keys_unique(after),
{
    if added {
        assert forall|i: int, j: int| 0 <= i < j < after.len() implies (#[trigger] after[i]).dedup_key@ != (
        #[trigger] after[j]).dedup_key@ by {
            assert(after[i] == before[i]);
            if j < before.len() {
                assert(after[j] == before[j]);
            } else if after[i].dedup_key@ == key {
                assert(tool_key_taken(before, key));
            }
        }
    }
}

/// Recording a result size keeps the idempotency keys unique: keys are
/// never rewritten.
pub proof fn law_result_sizes_keep_keys(before: Seq<ToolCallRow>, after: Seq<ToolCallRow>)
    requires
        tool_keys_unique(before),
        after.len() == before.len(),
        forall|i: int| 0 <= i < before.len() ==> (#[trigger] after[i]).dedup_key == before[i].dedup_key,
    ensures
        tool_keys_unique(after),
{
    assert forall|i: int, j: int| 0 <= i < j < after.len() implies (#[trigger] after[i]).dedup_key@ != (
    #[trigger] after[j]).dedup_key@ by {
        assert(before[i].dedup_key@ != before[j].dedup_key@);
    }
}

/// No two sessions share an id.
pub open spec fn session_ids_unique(rows: Seq<SessionRow>) -> bool {
    forall|i: int, j: int| 0 <= i < j < rows.len() ==> (#[trigger] rows[i]).id@ != (#[trigger] rows[j]).id@
}

proof fn lemma_session_absent(rows: Seq<SessionRow>, id: Seq<char>)
    ensures
        session_index(rows, id) is None ==> forall|k: int| 0 <= k < rows.len() ==> (#[trigger] rows[k]).id@ != id,
        session_index(rows, id) matches Some(i) ==> 0 <= i < rows.len() && rows[i].id@ == id,
    decreases rows.len(),
{
    if rows.len() > 0 {
        lemma_session_absent(rows.drop_first(), id);
        if session_index(rows, id) is None {
            assert forall|k: int| 0 <= k < rows.len() implies (#[trigger] rows[k]).id@ != id by {
                if k > 0 {
                    assert(rows[k] == rows.drop_first()[k - 1]);
                }
            }
        }
    }
}

/// Recording or refreshing a session keeps session ids unique.
pub proof fn law_session_ids_stay_unique(
    before: Seq<SessionRow>,
    after: Seq<SessionRow>,
    id: Seq<char>,
    provider: Seq<char>,
    project: Option<Seq<char>>,
    started_at: Option<Seq<char>>,
)
    requires
        session_ids_unique(before),
        match session_index(before, id) {
            Some(i) => session_views(after) == session_views(before).update(
                i,
                merged_session(before[i]@, project, started_at),
            ),
            None => session_views(after) == session_views(before).push(
                SessionModel { id, provider, project, started_at },
            ),
        },
    ensures
        session_ids_unique(after),
{
    lemma_session_absent(before, id);
    let vb = session_views(before);
    let va = session_views(after);
    assert(va.len() == after.len());
    assert forall|i: int, j: int| 0 <= i < j < after.len() implies (#[trigger] after[i]).id@ != (
    #[trigger] after[j]).id@ by {
        assert(va[i].id == after[i].id@);
        assert(va[j].id == after[j].id@);
        if j < before.len() {
            assert(vb[i].id == before[i].id@);
            assert(vb[j].id == before[j].id@);
        } else {
            assert(vb[i].id == before[i].id@);
        }
    }
}

// ---------------------------------------------------------------------------
// Rollups agree with each other
// ---------------------------------------------------------------------------

/// The turns of a bucket's rows of the per-(bucket, model) series.
pub open spec fn model_turns_in(b: Seq<char>) -> spec_fn(ModelBucketModel) -> int {
    |r: ModelBucketModel| if r.bucket == b { r.turns } else { 0 }
}

/// The turns of a bucket's row of the series.
pub open spec fn bucket_turns_in(b: Seq<char>) -> spec_fn(UsageBucketModel) -> int {
    |r: UsageBucketModel| if r.bucket == b { r.turns } else { 0 }
}

/// The turns of the groups whose key starts with `b`.
pub open spec fn key_turns_in(g: Seq<TotalsModel>, b: Seq<char>) -> int
    decreases g.len(),
{
    if g.len() == 0 {
        0
    } else {
        key_turns_in(g.drop_last(), b) + if g.last().key[0] == b {
            g.last().turns
        } else {
            0
        }
    }
}

/// The counted rows whose key starts with `b`.
pub open spec fn counted_in_bucket(
    rows: Seq<EventRow>,
    keys: Seq<Seq<Seq<char>>>,
    since: Option<Seq<char>>,
    b: Seq<char>,
) -> int
    decreases rows.len(),
{
    if rows.len() == 0 {
        0
    } else {
        counted_in_bucket(rows.drop_last(), keys, since, b) + if counted(rows.last(), since)
            && keys[rows.len() - 1][0] == b {
            1int
        } else {
            0int
        }
    }
}

proof fn lemma_key_turns_update(g: Seq<TotalsModel>, i: int, x: TotalsModel, b: Seq<char>)
    requires
        0 <= i < g.len(),
        x.key == g[i].key,
    ensures
        key_turns_in(g.update(i, x), b) == key_turns_in(g, b) + if g[i].key[0] == b {
            x.turns - g[i].turns
        } else {
            0
        },
    decreases g.len(),
{
    let u = g.update(i, x);
    if i < g.len() - 1 {
        lemma_key_turns_update(g.drop_last(), i, x, b);
        assert(u.drop_last() =~= g.drop_last().update(i, x));
    } else {
        assert(u.drop_last() =~= g.drop_last());
    }
}

proof fn lemma_key_turns_count(rows: Seq<EventRow>, keys: Seq<Seq<Seq<char>>>, since: Option<Seq<char>>, b: Seq<char>)
    ensures
        key_turns_in(event_groups(rows, keys, since), b) == counted_in_bucket(rows, keys, since, b),
    decreases rows.len(),
{
    if rows.len() > 0 {
        lemma_key_turns_count(rows.drop_last(), keys, since, b);
        let g = event_groups(rows.drop_last(), keys, since);
        let key = keys[rows.len() - 1];
        let r = rows.last();
        if counted(r, since) {
            lemma_group_index_bound(g, key);
            match group_index(g, key) {
                Some(i) => lemma_key_turns_update(g, i, add_totals(g[i], r), b),
                None => assert(g.push(start_totals(key, r)).drop_last() =~= g),
            }
        }
    }
}

proof fn lemma_counted_in_bucket_same(
    rows: Seq<EventRow>,
    k1: Seq<Seq<Seq<char>>>,
    k2: Seq<Seq<Seq<char>>>,
    since: Option<Seq<char>>,
    b: Seq<char>,
)
    requires
        forall|i: int| 0 <= i < rows.len() ==> (#[trigger] k1[i])[0] == k2[i][0],
    ensures
        counted_in_bucket(rows, k1, since, b) == counted_in_bucket(rows, k2, since, b),
    decreases rows.len(),
{
    if rows.len() > 0 {
        lemma_counted_in_bucket_same(rows.drop_last(), k1, k2, since, b);
        assert(k1[rows.len() - 1][0] == k2[rows.len() - 1][0]);
    }
}

proof fn lemma_model_bucket_sum(g: Seq<TotalsModel>, b: Seq<char>)
    ensures
        pay_sum(model_bucket_entries(g), model_turns_in(b)) == key_turns_in(g, b),
    decreases g.len(),
{
    if g.len() > 0 {
        assert(model_bucket_entries(g).drop_last() =~= model_bucket_entries(g.drop_last()));
        lemma_model_bucket_sum(g.drop_last(), b);
    }
}

proof fn lemma_bucket_sum(g: Seq<TotalsModel>, b: Seq<char>)
    ensures
        pay_sum(bucket_entries(g), bucket_turns_in(b)) == key_turns_in(g, b),
    decreases g.len(),
{
    if g.len() > 0 {
        assert(bucket_entries(g).drop_last() =~= bucket_entries(g.drop_last()));
        lemma_bucket_sum(g.drop_last(), b);
    }
}

/// Per time bucket, the per-model rows of the series add up to the
/// bucket's row of the plain series: a bucket's turns are split by model,
/// none lost or counted twice.
pub proof fn law_model_rows_sum_to_series(
    events: Seq<EventRow>,
    bucket: Bucket,
    local: Seq<Seq<char>>,
    since: Option<Seq<char>>,
    b: Seq<char>,
)
    requires
        local.len() == events.len(),
    ensures
        sum_of(series_by_model_spec(events, bucket, local, since), model_turns_in(b)) == sum_of(
            series_spec(events, bucket, local, since),
            bucket_turns_in(b),
        ),
{
    let g1 = series_groups(events, bucket, local, since);
    let g2 = model_series_groups(events, bucket, local, since);
    lemma_sorted_payloads_sum(model_bucket_entries(g2), model_turns_in(b));
    lemma_sorted_payloads_sum(bucket_entries(g1), bucket_turns_in(b));
    lemma_model_bucket_sum(g2, b);
    lemma_bucket_sum(g1, b);
    let k1 = bucket_keys(bucket, local);
    let k2 = bucket_model_keys(events, bucket, local);
    lemma_key_turns_count(events, k1, since, b);
    lemma_key_turns_count(events, k2, since, b);
    assert forall|i: int| 0 <= i < events.len() implies (#[trigger] k2[i])[0] == k1[i][0] by {}
    lemma_counted_in_bucket_same(events, k2, k1, since, b);
}

/// Field `f` of a per-model row: input, output, cache-read or cache-write
/// tokens (`f` = 0, 1, 2, 3), its turns otherwise.
pub open spec fn usage_value(f: int) -> spec_fn(ModelUsageModel) -> int {
    |u: ModelUsageModel| if f == 0 {
        u.tokens_in
    } else if f == 1 {
        u.tokens_out
    } else if f == 2 {
        u.cache_read
    } else if f == 3 {
        u.cache_write
    } else {
        u.turns
    }
}

/// The same field of the overview.
pub open spec fn overview_value(o: OverviewModel, f: int) -> int {
    if f == 0 {
        o.tokens_in
    } else if f == 1 {
        o.tokens_out
    } else if f == 2 {
        o.cache_read
    } else if f == 3 {
        o.cache_write
    } else {
        o.turns
    }
}

proof fn lemma_usage_sum(g: Seq<TotalsModel>, f: int)
    ensures
        pay_sum(usage_entries(g), usage_value(f)) == groups_sum(g, f),
    decreases g.len(),
{
    if g.len() > 0 {
        assert(usage_entries(g).drop_last() =~= usage_entries(g.drop_last()));
        lemma_usage_sum(g.drop_last(), f);
    }
}

/// The overview and the per-model rollup agree: whenever both can be
/// computed, the overview's turns and token totals are the sums of the
/// per-model rows, and its cost is the sum of their costs.
pub proof fn law_overview_totals_match_models(events: Seq<EventRow>, since: Option<Seq<char>>, f: int)
    requires
        overview_ok(events, since),
    ensures
        overview_value(overview_spec(events, since), f) == sum_of(by_model_spec(events, since), usage_value(f)),
        overview_spec(events, since).cost == cost_total(by_model_spec(events, since)),
{
    let og = overview_groups(events, since);
    let mg = model_groups(events, since);
    lemma_unit_groups(events, events.len(), since);
    if og.len() == 1 {
        assert(og.drop_last().len() == 0);
    }
    if 0 <= f < 4 {
        law_groups_conserve_tokens(events, unit_keys(events.len()), since, f);
        law_groups_conserve_tokens(events, model_keys(events), since, f);
    } else {
        law_groups_count_every_turn(events, unit_keys(events.len()), since);
        law_groups_count_every_turn(events, model_keys(events), since);
        assert(groups_sum(og, f) == groups_sum(og, 4)) by {
            lemma_groups_sum_turns(og, f);
        }
        assert(groups_sum(mg, f) == groups_sum(mg, 4)) by {
            lemma_groups_sum_turns(mg, f);
        }
        assert(counted_sum(events, since, f) == counted_sum(events, since, 4)) by {
            lemma_counted_sum_turns(events, since, f);
        }
    }
    lemma_sorted_payloads_sum(usage_entries(mg), usage_value(f));
    lemma_usage_sum(mg, f);
    assert(groups_sum(og, f) == groups_sum(mg, f));
    assert(sum_of(by_model_spec(events, since), usage_value(f)) == groups_sum(mg, f));
    if og.len() == 1 {
        assert(groups_sum(og.drop_last(), f) == 0);
        assert(og.last() == og[0]);
        assert(groups_sum(og, f) == group_value(og[0], f));
    }
    assert(overview_value(overview_spec(events, since), f) == groups_sum(og, f));
}

proof fn lemma_groups_sum_turns(g: Seq<TotalsModel>, f: int)
    requires
        !(0 <= f < 4),
    ensures
        groups_sum(g, f) == groups_sum(g, 4),
    decreases g.len(),
{
    if g.len() > 0 {
        lemma_groups_sum_turns(g.drop_last(), f);
    }
}

proof fn lemma_counted_sum_turns(rows: Seq<EventRow>, since: Option<Seq<char>>, f: int)
    requires
        !(0 <= f < 4),
    ensures
        counted_sum(rows, since, f) == counted_sum(rows, since, 4),
    decreases rows.len(),
{
    if rows.len() > 0 {
        lemma_counted_sum_turns(rows.drop_last(), since, f);
    }
}

// ---------------------------------------------------------------------------
// Plugin removals
// ---------------------------------------------------------------------------

proof fn lemma_gone_from(prev: Seq<Seq<char>>, current: Seq<Seq<char>>)
    ensures
        forall|x: Seq<char>| #[trigger] gone_from(prev, current).contains(x) <==> (prev.contains(x) && !current.contains(x)),
    decreases prev.len(),
{
    reveal_with_fuel(Seq::<_>::filter, 1);
    if prev.len() > 0 {
        let d = prev.drop_last();
        lemma_gone_from(d, current);
        let g = gone_from(prev, current);
        let gd = gone_from(d, current);
        assert forall|x: Seq<char>| #[trigger] g.contains(x) <==> (prev.contains(x) && !current.contains(x)) by {
            if !current.contains(prev.last()) {
                assert(g == gd.push(prev.last()));
                if g.contains(x) {
                    let k = choose|k: int| 0 <= k < g.len() && g[k] == x;
                    if k < gd.len() {
                        assert(gd[k] == x);
                        assert(gd.contains(x));
                        let j = choose|j: int| 0 <= j < d.len() && d[j] == x;
                        assert(prev[j] == x);
                    } else {
                        assert(prev[prev.len() - 1] == x);
                    }
                }
                if prev.contains(x) && !current.contains(x) {
                    let j = choose|j: int| 0 <= j < prev.len() && prev[j] == x;
                    if j < d.len() {
                        assert(d[j] == x);
                        assert(gd.contains(x));
                        let k = choose|k: int| 0 <= k < gd.len() && gd[k] == x;
                        assert(g[k] == x);
                    } else {
                        assert(g[gd.len() as int] == x);
                    }
                }
            } else {
                assert(g == gd);
                if g.contains(x) {
                    let j = choose|j: int| 0 <= j < d.len() && d[j] == x;
                    assert(prev[j] == x);
                }
                if prev.contains(x) && !current.contains(x) {
                    let j = choose|j: int| 0 <= j < prev.len() && prev[j] == x;
                    if j < d.len() {
                        assert(d[j] == x);
                    }
                }
            }
        }
    }
}

/// A removal is recorded once: when the stored roster is the list of ids
/// the last call saw, a call records as removed exactly the ids of that
/// list missing from the current roster, so a plugin that was already
/// absent last time is not recorded again, and one that has just dropped
/// out is.
pub proof fn law_removal_recorded_once(prev: Seq<Seq<char>>, current: Seq<Seq<char>>, p: Seq<char>)
    ensures
        !prev.contains(p) ==> !gone_from(prev, current).contains(p),
        current.contains(p) ==> !gone_from(prev, current).contains(p),
        prev.contains(p) && !current.contains(p) ==> gone_from(prev, current).contains(p),
{
    lemma_gone_from(prev, current);
}

/// A watched config is trusted on first sight: reported as watching, with
/// no findings, its content becoming the baseline. Checked again while
/// unchanged (or after a review stored its current content as the
/// baseline) it is clean, and the baseline is left as it is.
pub proof fn law_first_sight_then_clean(path: Seq<char>, content: Seq<char>)
    ensures
        assess_spec(path, None, content) == (
            ConfigFileModel { path, status: "watching"@, findings: seq![] },
            Some(content),
        ),
        assess_spec(path, Some(content), content) == (
            ConfigFileModel { path, status: "clean"@, findings: seq![] },
            None::<Seq<char>>,
        ),
{
}

// ---------------------------------------------------------------------------
// One row per group
// ---------------------------------------------------------------------------

proof fn lemma_group_index_absent(g: Seq<TotalsModel>, key: Seq<Seq<char>>)
    requires
        group_index(g, key) is None,
    ensures
        forall|j: int| 0 <= j < g.len() ==> (#[trigger] g[j]).key != key,
    decreases g.len(),
{
    if g.len() > 0 {
        lemma_group_index_absent(g.drop_last(), key);
        assert forall|j: int| 0 <= j < g.len() implies (#[trigger] g[j]).key != key by {
            if j < g.len() - 1 {
                assert(g[j] == g.drop_last()[j]);
            }
        }
    }
}

/// The groups of a rollup have distinct keys.
pub proof fn lemma_group_keys_distinct(rows: Seq<EventRow>, keys: Seq<Seq<Seq<char>>>, since: Option<Seq<char>>)
    ensures
        forall|i: int, j: int|
            0 <= i < j < event_groups(rows, keys, since).len() ==> (#[trigger] event_groups(rows, keys, since)[i]).key
                != (#[trigger] event_groups(rows, keys, since)[j]).key,
    decreases rows.len(),
{
    if rows.len() > 0 {
        lemma_group_keys_distinct(rows.drop_last(), keys, since);
        let g = event_groups(rows.drop_last(), keys, since);
        let key = keys[rows.len() - 1];
        lemma_group_index_bound(g, key);
        if group_index(g, key) is None {
            lemma_group_index_absent(g, key);
        }
    }
}

/// The rows of the per-(bucket, model) series have distinct (bucket,
/// model) pairs.
pub proof fn law_model_rows_distinct(
    events: Seq<EventRow>,
    bucket: Bucket,
    local: Seq<Seq<char>>,
    since: Option<Seq<char>>,
)
    requires
        local.len() == events.len(),
    ensures
        forall|i: int, j: int|
            0 <= i < j < series_by_model_spec(events, bucket, local, since).len() ==> {
                let a = #[trigger] series_by_model_spec(events, bucket, local, since)[i];
                let b = #[trigger] series_by_model_spec(events, bucket, local, since)[j];
                a.bucket != b.bucket || a.model != b.model
            },
{
    let g = model_series_groups(events, bucket, local, since);
    let ks = bucket_model_keys(events, bucket, local);
    let es = model_bucket_entries(g);
    lemma_group_keys_distinct(events, ks, since);
    assert forall|i: int| 0 <= i < ks.len() implies (#[trigger] ks[i]).len() == 2 by {}
    crate::rollup::lemma_group_keys(events, ks, since, 2);
    assert(es.no_duplicates()) by {
        assert forall|i: int, j: int| 0 <= i < es.len() && 0 <= j < es.len() && i != j implies es[i] != es[j] by {
            if i < j {
                assert(g[i].key != g[j].key);
            } else {
                assert(g[j].key != g[i].key);
            }
            assert(g[i].key.len() == 2 && g[j].key.len() == 2);
            if es[i] == es[j] {
                assert(g[i].key =~= g[j].key);
            }
        }
    }
    es.lemma_multiset_has_no_duplicates();
    lemma_stable_sort_permutes(es);
    lemma_stable_sort_len(es);
    let r = stable_sort(es);
    r.lemma_multiset_has_no_duplicates_conv();
    lemma_stable_sort_member_all(es);
    assert forall|i: int, j: int| 0 <= i < j < series_by_model_spec(events, bucket, local, since).len() implies {
        let a = #[trigger] series_by_model_spec(events, bucket, local, since)[i];
        let b = #[trigger] series_by_model_spec(events, bucket, local, since)[j];
        a.bucket != b.bucket || a.model != b.model
    } by {
        lemma_stable_sort_member(es, i);
        lemma_stable_sort_member(es, j);
        let x = choose|k: int| 0 <= k < es.len() && es[k] == r[i];
        let y = choose|k: int| 0 <= k < es.len() && es[k] == r[j];
        assert(r[i] != r[j]);
        assert(x != y);
        assert(g[x].key.len() == 2 && g[y].key.len() == 2);
        if x < y {
            assert(g[x].key != g[y].key);
        } else {
            assert(g[y].key != g[x].key);
        }
        if g[x].key[0] == g[y].key[0] && g[x].key[1] == g[y].key[1] {
            assert(g[x].key =~= g[y].key);
        }
    }
}

// ---------------------------------------------------------------------------
// Prices of cached tokens
// ---------------------------------------------------------------------------

proof fn lemma_table_cache_rates(i: int)
    ensures
        table_row(i).1.cache_read_mult == 10,
        table_row(i).1.cache_write_mult == 125,
{
}

/// For every priced model, reading a token from the prompt cache costs a
/// tenth of a fresh input token, and writing one to the cache costs a
/// quarter more than a fresh input token (1.25x).
pub proof fn law_cache_rates(model: Seq<char>, n: int)
    requires
        price_spec(model) is Some,
    ensures
        cost_of_spec(Some(model), 0, 0, n, 0) * 10 == cost_of_spec(Some(model), n, 0, 0, 0),
        cost_of_spec(Some(model), 0, 0, 0, n) * 4 == cost_of_spec(Some(model), n, 0, 0, 0) * 5,
{
    let m = ascii_lower(model);
    let c = choose|i: int| best_row(m, i);
    lemma_table_cache_rates(c);
    let p = price_spec(model)->Some_0;
    assert(p == table_row(c).1);
    let inp = p.input as int;
    assert(n * inp * 10 * 10 == n * inp * 100) by (nonlinear_arith);
    assert(n * inp * 125 * 4 == n * inp * 100 * 5) by (nonlinear_arith);
    assert(0 * inp * 100 == 0 && 0 * (p.output as int) * 100 == 0 && 0 * inp * 10 == 0 && 0 * inp * 125 == 0)
        by (nonlinear_arith);
}

// ---------------------------------------------------------------------------
// Severity of config findings
// ---------------------------------------------------------------------------

/// A finding's severity fits its key: the security-relevant keys (hooks,
/// MCP servers, the API-key helper, environment, enabled plugins, extra
/// marketplaces) are warnings or critical, every other key is info.
pub open spec fn severity_fits_key(f: FindingModel) -> bool {
    let watched = f.key == "hooks"@ || f.key == "mcpServers"@ || f.key == "apiKeyHelper"@ || f.key == "env"@
        || f.key == "enabledPlugins"@ || f.key == "extraKnownMarketplaces"@;
    &&& watched ==> (f.severity == "warning"@ || f.severity == "critical"@)
    &&& !watched ==> f.severity == "info"@
}

proof fn lemma_findings_fit(keys: Seq<Seq<char>>, a: Seq<JsonMember>, b: Seq<JsonMember>)
    ensures
        forall|k: int| 0 <= k < findings_for(keys, a, b).len() ==> severity_fits_key(#[trigger] findings_for(keys, a, b)[k]),
    decreases keys.len(),
{
    if keys.len() > 0 {
        lemma_findings_fit(keys.drop_last(), a, b);
        let prev = findings_for(keys.drop_last(), a, b);
        match finding_for(keys.last(), a, b) {
            Some(f) => {
                assert forall|k: int| 0 <= k < prev.push(f).len() implies severity_fits_key(#[trigger] prev.push(f)[k]) by {
                    if k == prev.len() {
                        assert(prev.push(f)[k] == f);
                    } else {
                        assert(prev.push(f)[k] == prev[k]);
                    }
                }
            },
            None => {},
        }
    }
}

/// Every finding of a diff of two parsed snapshots has a severity that
/// fits its key.
pub proof fn law_finding_severity_fits_key(a: JsonValue, b: JsonValue)
    ensures
        forall|i: int| 0 <= i < diff_trees_spec(a, b).len() ==> severity_fits_key(#[trigger] diff_trees_spec(a, b)[i]),
{
    let ao = object_members(a);
    let bo = object_members(b);
    let fs = findings_for(diff_keys(ao, bo), ao, bo);
    let es = keyed_findings(fs);
    lemma_findings_fit(diff_keys(ao, bo), ao, bo);
    lemma_stable_sort_len(es);
    assert forall|i: int| 0 <= i < diff_trees_spec(a, b).len() implies severity_fits_key(
        #[trigger] diff_trees_spec(a, b)[i],
    ) by {
        lemma_stable_sort_member(es, i);
        let k = choose|k: int| 0 <= k < es.len() && es[k] == stable_sort(es)[i];
        assert(es[k].1 == fs[k]);
        assert(diff_trees_spec(a, b)[i] == stable_sort(es)[i].1);
    }
}

// ---------------------------------------------------------------------------
// Usage limits from the response's entries
// ---------------------------------------------------------------------------

/// `m` is what the response entry `l` says: its kind, its percentage (0
/// when absent or not an integer), its severity ("normal" when absent) and
/// its reset time (when it is a string).
#[verifier::opaque]
pub open spec fn limit_from_entry(l: JsonValue, m: UsageLimitModel) -> bool {
    &&& l.str_field("kind"@) == Some(m.kind)
    &&& m.resets_at == l.str_field("resets_at"@)
    &&& m.severity == match l.str_field("severity"@) {
        Some(s) => s,
        None => "normal"@,
    }
    &&& m.percent == match l.field("percent"@) {
        Some(p) => match p.int_spec() {
            Some(x) => x,
            None => 0,
        },
        None => 0,
    }
}

proof fn lemma_list_limits_from_entries(items: Seq<JsonValue>)
    ensures
        forall|k: int|
            0 <= k < limits_list_spec(items).len() ==> exists|j: int|
                0 <= j < items.len() && limit_from_entry(items[j], #[trigger] limits_list_spec(items)[k]),
        forall|j: int|
            0 <= j < items.len() && (#[trigger] items[j]).str_field("kind"@) is Some ==> exists|k: int|
                0 <= k < limits_list_spec(items).len() && limit_from_entry(items[j], limits_list_spec(items)[k]),
    decreases items.len(),
{
    reveal(limit_from_entry);
    if items.len() > 0 {
        let d = items.drop_last();
        lemma_list_limits_from_entries(d);
        let prev = limits_list_spec(d);
        let out = limits_list_spec(items);
        let n = items.len() - 1;
        assert forall|k: int| 0 <= k < out.len() implies exists|j: int|
            0 <= j < items.len() && limit_from_entry(items[j], #[trigger] out[k]) by {
            if k < prev.len() {
                assert(out[k] == prev[k]);
                let j = choose|j: int| 0 <= j < d.len() && limit_from_entry(d[j], prev[k]);
                assert(items[j] == d[j]);
            } else {
                assert(limit_from_entry(items[n], out[k]));
            }
        }
        assert forall|j: int| 0 <= j < items.len() && (#[trigger] items[j]).str_field("kind"@) is Some implies exists|k: int|
            0 <= k < out.len() && limit_from_entry(items[j], out[k]) by {
            if j < n {
                assert(items[j] == d[j]);
                let k = choose|k: int| 0 <= k < prev.len() && limit_from_entry(d[j], prev[k]);
                assert(out[k] == prev[k]);
            } else {
                assert(limit_from_entry(items[n], out[prev.len() as int]));
            }
        }
    }
}

/// When the response lists limits, every parsed limit is what one of its
/// entries says (kind, percentage, severity, reset time), and every entry
/// with a kind gives one of the parsed limits.
pub proof fn law_limits_follow_entries(
    body: JsonValue,
    items: Seq<JsonValue>,
    five_hour: Option<LegacyReading>,
    seven_day: Option<LegacyReading>,
)
    requires
        body.field("limits"@) matches Some(a) && a.items_spec() == Some(items),
        limits_list_spec(items).len() > 0,
    ensures
        forall|k: int|
            0 <= k < parse_limits_spec(body, five_hour, seven_day).len() ==> exists|j: int|
                0 <= j < items.len() && limit_from_entry(items[j], #[trigger] parse_limits_spec(body, five_hour, seven_day)[k]),
        forall|j: int|
            0 <= j < items.len() && (#[trigger] items[j]).str_field("kind"@) is Some ==> exists|k: int|
                0 <= k < parse_limits_spec(body, five_hour, seven_day).len() && limit_from_entry(
                    items[j],
                    parse_limits_spec(body, five_hour, seven_day)[k],
                ),
{
    let out = limits_list_spec(items);
    let r = parse_limits_spec(body, five_hour, seven_day);
    assert(r == sorted_payloads(keyed_limits(out))) by {
        assert(r =~= sorted_payloads(keyed_limits(out)));
    }
    lemma_list_limits_from_entries(items);
    lemma_sorted_limits_entries(items, out, r);
}

proof fn lemma_sorted_limits_entries(items: Seq<JsonValue>, out: Seq<UsageLimitModel>, r: Seq<UsageLimitModel>)
    requires
        r == sorted_payloads(keyed_limits(out)),
        forall|k: int| 0 <= k < out.len() ==> exists|j: int|
            0 <= j < items.len() && limit_from_entry(items[j], #[trigger] out[k]),
        forall|j: int| 0 <= j < items.len() && (#[trigger] items[j]).str_field("kind"@) is Some ==> exists|k: int|
            0 <= k < out.len() && limit_from_entry(items[j], out[k]),
    ensures
        forall|k: int| 0 <= k < r.len() ==> exists|j: int|
            0 <= j < items.len() && limit_from_entry(items[j], #[trigger] r[k]),
        forall|j: int| 0 <= j < items.len() && (#[trigger] items[j]).str_field("kind"@) is Some ==> exists|k: int|
            0 <= k < r.len() && limit_from_entry(items[j], r[k]),
{
    let es = keyed_limits(out);
    lemma_stable_sort_len(es);
    assert forall|k: int| 0 <= k < r.len() implies exists|j: int|
        0 <= j < items.len() && limit_from_entry(items[j], #[trigger] r[k]) by {
        lemma_stable_sort_member(es, k);
        let x = choose|x: int| 0 <= x < es.len() && es[x] == stable_sort(es)[k];
        assert(r[k] == out[x]);
    }
    assert forall|j: int| 0 <= j < items.len() && (#[trigger] items[j]).str_field("kind"@) is Some implies exists|k: int|
        0 <= k < r.len() && limit_from_entry(items[j], r[k]) by {
        let x = choose|x: int| 0 <= x < out.len() && limit_from_entry(items[j], out[x]);
        let k = lemma_sorted_has(es, x);
        assert(r[k] == out[x]);
    }
}

/// Every entry shows up in the sorted sequence.
proof fn lemma_sorted_has<V>(es: Seq<(Seq<u32>, V)>, x: int) -> (k: int)
    requires
        0 <= x < es.len(),
    ensures
        0 <= k < stable_sort(es).len(),
        stable_sort(es)[k] == es[x],
{
    broadcast use vstd::seq_lib::group_to_multiset_ensures;
    lemma_stable_sort_permutes(es);
    assert(es.contains(es[x]));
    assert(es.to_multiset().count(es[x]) > 0);
    assert(stable_sort(es).to_multiset().count(es[x]) > 0);
    assert(stable_sort(es).contains(es[x]));
    choose|k: int| 0 <= k < stable_sort(es).len() && stable_sort(es)[k] == es[x]
}

// ---------------------------------------------------------------------------
// Per-turn metrics
// ---------------------------------------------------------------------------

/// Each per-turn metric reads the turn's own field: "input" its input
/// tokens, "cache_read" its cache-read tokens, "cost" its usage priced at
/// its model's rates, any other name its output tokens.
pub proof fn law_metric_reads_its_field(t: WindowTurnModel, metric: Seq<char>)
    ensures
        metric == "input"@ ==> metric_value(t, metric) == t.tokens_in as int,
        metric == "cache_read"@ ==> metric_value(t, metric) == t.cache_read as int,
        metric == "cost"@ ==> metric_value(t, metric) == match t.model {
            Some(m) => match price_spec(m) {
                Some(p) => t.tokens_in * p.input * 100 + t.tokens_out * p.output * 100 + t.cache_read * p.input
                    * p.cache_read_mult + t.cache_write * p.input * p.cache_write_mult,
                None => 0,
            },
            None => 0,
        },
        metric != "input"@ && metric != "cache_read"@ && metric != "cost"@ ==> metric_value(t, metric)
            == t.tokens_out as int,
{
    reveal_strlit("input");
    reveal_strlit("cache_read");
    reveal_strlit("cost");
    assert("input"@.len() == 5);
    assert("cache_read"@.len() == 10);
    assert("cost"@.len() == 4);
}

// ---------------------------------------------------------------------------
// First and last times of a rollup
// ---------------------------------------------------------------------------

/// Row `j` is a counted turn of the group with key `key`.
pub open spec fn in_group(rows: Seq<EventRow>, keys: Seq<Seq<Seq<char>>>, since: Option<Seq<char>>, key: Seq<Seq<char>>, j: int) -> bool {
    0 <= j < rows.len() && counted(rows[j], since) && keys[j] == key
}

/// The group's first and last times are times of its rows, and no row of
/// it lies before the first or after the last.
pub open spec fn spans_rows(t: TotalsModel, rows: Seq<EventRow>, keys: Seq<Seq<Seq<char>>>, since: Option<Seq<char>>) -> bool {
    &&& exists|j: int| #[trigger] in_group(rows, keys, since, t.key, j) && rows[j].ts@ == t.last_ts
    &&& exists|j: int| #[trigger] in_group(rows, keys, since, t.key, j) && rows[j].ts@ == t.first_ts
    &&& forall|j: int|
        #[trigger] in_group(rows, keys, since, t.key, j) ==> !ts_before(t.last_ts, rows[j].ts@) && !ts_before(
            rows[j].ts@,
            t.first_ts,
        )
}

proof fn lemma_counted_rows_grouped(rows: Seq<EventRow>, keys: Seq<Seq<Seq<char>>>, since: Option<Seq<char>>)
    ensures
        forall|j: int|
            0 <= j < rows.len() && counted(#[trigger] rows[j], since) ==> group_index(
                event_groups(rows, keys, since),
                keys[j],
            ) is Some,
    decreases rows.len(),
{
    if rows.len() > 0 {
        let d = rows.drop_last();
        lemma_counted_rows_grouped(d, keys, since);
        let g = event_groups(d, keys, since);
        let g2 = event_groups(rows, keys, since);
        let n = rows.len() - 1;
        let kk = keys[n];
        lemma_group_index_bound(g, kk);
        assert forall|j: int| 0 <= j < rows.len() && counted(#[trigger] rows[j], since) implies group_index(
            g2,
            keys[j],
        ) is Some by {
            lemma_group_index_bound(g2, keys[j]);
            if j < n {
                assert(d[j] == rows[j]);
                assert(group_index(g, keys[j]) is Some);
                let x = group_index(g, keys[j])->Some_0;
                lemma_group_index_bound(g, keys[j]);
                if group_index(g2, keys[j]) is None {
                    lemma_group_index_absent(g2, keys[j]);
                    if counted(rows[n], since) {
                        match group_index(g, kk) {
                            Some(i) => assert(g2[x].key == g[x].key),
                            None => assert(g2[x] == g[x]),
                        }
                    } else {
                        assert(g2[x] == g[x]);
                    }
                }
            } else {
                if group_index(g2, keys[j]) is None {
                    lemma_group_index_absent(g2, keys[j]);
                    match group_index(g, kk) {
                        Some(i) => assert(g2[i].key == kk),
                        None => assert(g2[g.len() as int].key == kk),
                    }
                }
            }
        }
    }
}

proof fn lemma_group_spans(rows: Seq<EventRow>, keys: Seq<Seq<Seq<char>>>, since: Option<Seq<char>>)
    ensures
        forall|k: int|
            0 <= k < event_groups(rows, keys, since).len() ==> spans_rows(
                #[trigger] event_groups(rows, keys, since)[k],
                rows,
                keys,
                since,
            ),
    decreases rows.len(),
{
    if rows.len() > 0 {
        let d = rows.drop_last();
        lemma_group_spans(d, keys, since);
        lemma_counted_rows_grouped(d, keys, since);
        lemma_group_keys_distinct(d, keys, since);
        let g = event_groups(d, keys, since);
        let g2 = event_groups(rows, keys, since);
        let n = rows.len() - 1;
        let kk = keys[n];
        let r = rows[n];
        lemma_group_index_bound(g, kk);
        lemma_lex_irreflexive(code_points(r.ts@));
        // Rows of the shorter sequence are rows of this one.
        assert forall|key: Seq<Seq<char>>, j: int| #[trigger] in_group(d, keys, since, key, j) implies in_group(
            rows,
            keys,
            since,
            key,
            j,
        ) && rows[j] == d[j] by {
            assert(d[j] == rows[j]);
        }
        assert forall|k: int| 0 <= k < g2.len() implies spans_rows(#[trigger] g2[k], rows, keys, since) by {
            if !counted(r, since) {
                assert(g2[k] == g[k]);
                let t = g[k];
                assert(spans_rows(t, d, keys, since));
                assert forall|j: int| #[trigger] in_group(rows, keys, since, t.key, j) implies !ts_before(
                    t.last_ts,
                    rows[j].ts@,
                ) && !ts_before(rows[j].ts@, t.first_ts) by {
                    assert(j < n);
                    assert(in_group(d, keys, since, t.key, j));
                }
                let j1 = choose|j: int| #[trigger] in_group(d, keys, since, t.key, j) && d[j].ts@ == t.last_ts;
                assert(in_group(rows, keys, since, t.key, j1));
                let j2 = choose|j: int| #[trigger] in_group(d, keys, since, t.key, j) && d[j].ts@ == t.first_ts;
                assert(in_group(rows, keys, since, t.key, j2));
                assert(rows[j1] == d[j1] && rows[j2] == d[j2]);
                assert(spans_rows(t, rows, keys, since));
            } else {
                match group_index(g, kk) {
                    Some(i) => {
                        if k != i {
                            assert(g2[k] == g[k]);
                            let t = g[k];
                            assert(t.key != kk) by {
                                if k < i {
                                    assert(g[k].key != g[i].key);
                                } else {
                                    assert(g[i].key != g[k].key);
                                }
                            }
                            assert(spans_rows(t, d, keys, since));
                            assert forall|j: int| #[trigger] in_group(rows, keys, since, t.key, j) implies !ts_before(
                                t.last_ts,
                                rows[j].ts@,
                            ) && !ts_before(rows[j].ts@, t.first_ts) by {
                                assert(j < n);
                                assert(in_group(d, keys, since, t.key, j));
                            }
                            let j1 = choose|j: int| #[trigger] in_group(d, keys, since, t.key, j) && d[j].ts@ == t.last_ts;
                            assert(in_group(rows, keys, since, t.key, j1));
                            let j2 = choose|j: int| #[trigger] in_group(d, keys, since, t.key, j) && d[j].ts@ == t.first_ts;
                            assert(in_group(rows, keys, since, t.key, j2));
                            assert(rows[j1] == d[j1] && rows[j2] == d[j2]);
                            assert(spans_rows(t, rows, keys, since));
                        } else {
                            let o = g[i];
                            let t = g2[i];
                            assert(t == add_totals(o, r));
                            assert(spans_rows(o, d, keys, since));
                            assert(in_group(rows, keys, since, kk, n));
                            let j1 = choose|j: int| #[trigger] in_group(d, keys, since, o.key, j) && d[j].ts@ == o.last_ts;
                            assert(in_group(rows, keys, since, kk, j1));
                            let j2 = choose|j: int| #[trigger] in_group(d, keys, since, o.key, j) && d[j].ts@ == o.first_ts;
                            assert(in_group(rows, keys, since, kk, j2));
                            assert(rows[j1] == d[j1] && rows[j2] == d[j2]);
                            assert(t.key == kk);
                            if ts_before(o.last_ts, r.ts@) {
                                assert(in_group(rows, keys, since, t.key, n) && rows[n].ts@ == t.last_ts);
                            } else {
                                assert(in_group(rows, keys, since, t.key, j1) && rows[j1].ts@ == t.last_ts);
                            }
                            if ts_before(r.ts@, o.first_ts) {
                                assert(in_group(rows, keys, since, t.key, n) && rows[n].ts@ == t.first_ts);
                            } else {
                                assert(in_group(rows, keys, since, t.key, j2) && rows[j2].ts@ == t.first_ts);
                            }
                            assert forall|j: int| #[trigger] in_group(rows, keys, since, t.key, j) implies !ts_before(
                                t.last_ts,
                                rows[j].ts@,
                            ) && !ts_before(rows[j].ts@, t.first_ts) by {
                                if j < n {
                                    assert(in_group(d, keys, since, o.key, j));
                                    let x = code_points(rows[j].ts@);
                                    if ts_before(o.last_ts, r.ts@) {
                                        if lex_lt(code_points(r.ts@), x) {
                                            lemma_lex_transitive(code_points(o.last_ts), code_points(r.ts@), x);
                                        }
                                    }
                                    if ts_before(r.ts@, o.first_ts) {
                                        if lex_lt(x, code_points(r.ts@)) {
                                            lemma_lex_transitive(x, code_points(r.ts@), code_points(o.first_ts));
                                        }
                                    }
                                } else {
                                    lemma_lex_asymmetric(code_points(o.last_ts), code_points(r.ts@));
                                    lemma_lex_asymmetric(code_points(r.ts@), code_points(o.first_ts));
                                }
                            }
                        }
                    },
                    None => {
                        lemma_group_index_absent(g, kk);
                        if k < g.len() {
                            assert(g2[k] == g[k]);
                            let t = g[k];
                            assert(t.key != kk);
                            assert(spans_rows(t, d, keys, since));
                            assert forall|j: int| #[trigger] in_group(rows, keys, since, t.key, j) implies !ts_before(
                                t.last_ts,
                                rows[j].ts@,
                            ) && !ts_before(rows[j].ts@, t.first_ts) by {
                                assert(j < n);
                                assert(in_group(d, keys, since, t.key, j));
                            }
                            let j1 = choose|j: int| #[trigger] in_group(d, keys, since, t.key, j) && d[j].ts@ == t.last_ts;
                            assert(in_group(rows, keys, since, t.key, j1));
                            let j2 = choose|j: int| #[trigger] in_group(d, keys, since, t.key, j) && d[j].ts@ == t.first_ts;
                            assert(in_group(rows, keys, since, t.key, j2));
                            assert(rows[j1] == d[j1] && rows[j2] == d[j2]);
                            assert(spans_rows(t, rows, keys, since));
                        } else {
                            let t = g2[k];
                            assert(t == start_totals(kk, r));
                            assert(in_group(rows, keys, since, kk, n));
                            assert(in_group(rows, keys, since, t.key, n) && rows[n].ts@ == t.last_ts);
                            assert(in_group(rows, keys, since, t.key, n) && rows[n].ts@ == t.first_ts);
                            assert forall|j: int| #[trigger] in_group(rows, keys, since, t.key, j) implies !ts_before(
                                t.last_ts,
                                rows[j].ts@,
                            ) && !ts_before(rows[j].ts@, t.first_ts) by {
                                if j < n {
                                    assert(d[j] == rows[j]);
                                    assert(counted(d[j], since));
                                    assert(group_index(g, keys[j]) is Some);
                                }
                            }
                        }
                    },
                }
            }
        }
    }
}

/// The overview's first and last times are the earliest and the latest
/// times of the counted turns (whatever order the events were stored in),
/// and they are absent exactly when no turn is counted.
pub proof fn law_overview_time_span(events: Seq<EventRow>, since: Option<Seq<char>>)
    ensures
        match overview_spec(events, since).last_ts {
            Some(l) => (exists|i: int| 0 <= i < events.len() && counted(#[trigger] events[i], since) && events[i].ts@ == l)
                && forall|i: int|
                0 <= i < events.len() && counted(#[trigger] events[i], since) ==> !lex_lt(
                    code_points(l),
                    code_points(events[i].ts@),
                ),
            None => forall|i: int| 0 <= i < events.len() ==> !counted(#[trigger] events[i], since),
        },
        match overview_spec(events, since).first_ts {
            Some(f) => (exists|i: int| 0 <= i < events.len() && counted(#[trigger] events[i], since) && events[i].ts@ == f)
                && forall|i: int|
                0 <= i < events.len() && counted(#[trigger] events[i], since) ==> !lex_lt(
                    code_points(events[i].ts@),
                    code_points(f),
                ),
            None => forall|i: int| 0 <= i < events.len() ==> !counted(#[trigger] events[i], since),
        },
{
    let keys = unit_keys(events.len());
    let g = overview_groups(events, since);
    lemma_unit_groups(events, events.len(), since);
    crate::rollup::lemma_group_keys(events, keys, since, 0);
    lemma_group_spans(events, keys, since);
    lemma_counted_rows_grouped(events, keys, since);
    if g.len() == 0 {
        assert forall|i: int| 0 <= i < events.len() implies !counted(#[trigger] events[i], since) by {
            if counted(events[i], since) {
                lemma_group_index_bound(g, keys[i]);
            }
        }
    } else {
        let t = g[0];
        assert(spans_rows(t, events, keys, since));
        assert(t.key =~= Seq::<Seq<char>>::empty());
        assert forall|i: int| 0 <= i < events.len() && counted(#[trigger] events[i], since) implies in_group(
            events,
            keys,
            since,
            t.key,
            i,
        ) by {
            assert(keys[i] =~= t.key);
        }
        let j1 = choose|j: int| #[trigger] in_group(events, keys, since, t.key, j) && events[j].ts@ == t.last_ts;
        let j2 = choose|j: int| #[trigger] in_group(events, keys, since, t.key, j) && events[j].ts@ == t.first_ts;
        assert(counted(events[j1], since));
        assert(counted(events[j2], since));
    }
}

/// Rates are per million tokens, in cents: a million input (or output)
/// tokens of a priced model cost its input (or output) rate in cents.
pub proof fn law_rates_per_million(model: Seq<char>)
    requires
        price_spec(model) is Some,
    ensures
        cost_of_spec(Some(model), 1_000_000, 0, 0, 0) * 100 == price_spec(model)->Some_0.input * 10_000_000_000,
        cost_of_spec(Some(model), 0, 1_000_000, 0, 0) * 100 == price_spec(model)->Some_0.output * 10_000_000_000,
{
    let p = price_spec(model)->Some_0;
    let i = p.input as int;
    let o = p.output as int;
    assert(1_000_000 * i * 100 * 100 == i * 10_000_000_000) by (nonlinear_arith);
    assert(1_000_000 * o * 100 * 100 == o * 10_000_000_000) by (nonlinear_arith);
    assert(0 * i * 100 == 0 && 0 * o * 100 == 0 && 0 * i * (p.cache_read_mult as int) == 0 && 0 * i
        * (p.cache_write_mult as int) == 0) by (nonlinear_arith);
}

/// A finding's change matches the two snapshots: "added" when only the new
/// one has the key, "removed" when only the old one has it, "modified"
/// when both have it with different values.
pub open spec fn change_fits(f: FindingModel, a: Seq<JsonMember>, b: Seq<JsonMember>) -> bool {
    let old = member_lookup(a, f.key);
    let new = member_lookup(b, f.key);
    &&& f.change == "added"@ <==> (old is None && new is Some)
    &&& f.change == "removed"@ <==> (old is Some && new is None)
    &&& f.change == "modified"@ <==> (old matches Some(x) && new matches Some(y) && !spec_values_equal(x, y))
}

proof fn lemma_findings_change(keys: Seq<Seq<char>>, a: Seq<JsonMember>, b: Seq<JsonMember>)
    ensures
        forall|k: int| 0 <= k < findings_for(keys, a, b).len() ==> change_fits(#[trigger] findings_for(keys, a, b)[k], a, b),
    decreases keys.len(),
{
    reveal_strlit("added");
    reveal_strlit("removed");
    reveal_strlit("modified");
    assert("added"@.len() == 5 && "removed"@.len() == 7 && "modified"@.len() == 8);
    if keys.len() > 0 {
        lemma_findings_change(keys.drop_last(), a, b);
        let prev = findings_for(keys.drop_last(), a, b);
        match finding_for(keys.last(), a, b) {
            Some(f) => {
                assert(change_fits(f, a, b));
                assert forall|k: int| 0 <= k < prev.push(f).len() implies change_fits(#[trigger] prev.push(f)[k], a, b) by {
                    if k == prev.len() {
                        assert(prev.push(f)[k] == f);
                    } else {
                        assert(prev.push(f)[k] == prev[k]);
                    }
                }
            },
            None => {},
        }
    }
}

/// Every finding of a diff of two parsed snapshots reports the change its
/// key underwent.
pub proof fn law_finding_change_fits(a: JsonValue, b: JsonValue)
    ensures
        forall|i: int|
            0 <= i < diff_trees_spec(a, b).len() ==> change_fits(
                #[trigger] diff_trees_spec(a, b)[i],
                object_members(a),
                object_members(b),
            ),
{
    let ao = object_members(a);
    let bo = object_members(b);
    let fs = findings_for(diff_keys(ao, bo), ao, bo);
    let es = keyed_findings(fs);
    lemma_findings_change(diff_keys(ao, bo), ao, bo);
    lemma_stable_sort_len(es);
    assert forall|i: int| 0 <= i < diff_trees_spec(a, b).len() implies change_fits(
        #[trigger] diff_trees_spec(a, b)[i],
        ao,
        bo,
    ) by {
        lemma_stable_sort_member(es, i);
        let k = choose|k: int| 0 <= k < es.len() && es[k] == stable_sort(es)[i];
        assert(es[k].1 == fs[k]);
        assert(diff_trees_spec(a, b)[i] == stable_sort(es)[i].1);
    }
}

// ---------------------------------------------------------------------------
// Waste headline numbers
// ---------------------------------------------------------------------------

/// The largest result is the size of a tool call in the range, and no call
/// in the range has a larger known result; there is none exactly when no
/// call in the range has a known size.
pub proof fn law_biggest_is_maximum(rows: Seq<ToolCallRow>, since: Option<Seq<char>>)
    ensures
        match biggest(rows, since) {
            Some(b) => (exists|i: int| #[trigger] sized_in_range(rows, since, i) && rows[i].result_chars->Some_0 == b)
                && forall|i: int| #[trigger] sized_in_range(rows, since, i) ==> rows[i].result_chars->Some_0 <= b,
            None => forall|i: int| !#[trigger] sized_in_range(rows, since, i),
        },
    decreases rows.len(),
{
    if rows.len() > 0 {
        let d = rows.drop_last();
        law_biggest_is_maximum(d, since);
        let n = rows.len() - 1;
        let r = rows[n];
        assert forall|i: int| 0 <= i < n implies #[trigger] sized_in_range(rows, since, i) == sized_in_range(d, since, i) by {
            assert(rows[i] == d[i]);
        }
        match biggest(d, since) {
            Some(b) => {
                let w = choose|i: int| #[trigger] sized_in_range(d, since, i) && d[i].result_chars->Some_0 == b;
                assert(rows[w] == d[w]);
                assert(sized_in_range(rows, since, w));
                if sized_in_range(rows, since, n) {
                    let c = r.result_chars->Some_0;
                    if c > b {
                        assert(biggest(rows, since) == Some(c as int));
                        assert forall|i: int| #[trigger] sized_in_range(rows, since, i) implies rows[i].result_chars->Some_0 <= c by {
                            if i < n {
                                assert(sized_in_range(d, since, i));
                            }
                        }
                    } else {
                        assert(biggest(rows, since) == Some(b));
                        assert forall|i: int| #[trigger] sized_in_range(rows, since, i) implies rows[i].result_chars->Some_0 <= b by {
                            if i < n {
                                assert(sized_in_range(d, since, i));
                            }
                        }
                    }
                } else {
                    assert(biggest(rows, since) == Some(b));
                    assert forall|i: int| #[trigger] sized_in_range(rows, since, i) implies rows[i].result_chars->Some_0 <= b by {
                        assert(i < n);
                        assert(sized_in_range(d, since, i));
                    }
                }
            },
            None => {
                if sized_in_range(rows, since, n) {
                    assert(biggest(rows, since) == Some(r.result_chars->Some_0 as int));
                    assert forall|i: int| #[trigger] sized_in_range(rows, since, i) implies rows[i].result_chars->Some_0
                        <= r.result_chars->Some_0 by {
                        if i < n {
                            assert(sized_in_range(d, since, i));
                        }
                    }
                } else {
                    assert(biggest(rows, since) is None);
                    assert forall|i: int| !#[trigger] sized_in_range(rows, since, i) by {
                        if 0 <= i < n {
                            assert(!sized_in_range(d, since, i));
                        }
                    }
                }
            },
        }
    }
}

/// Row `i` is a tool call in the range with a known result size.
pub open spec fn sized_in_range(rows: Seq<ToolCallRow>, since: Option<Seq<char>>, i: int) -> bool {
    0 <= i < rows.len() && in_range(rows[i].ts@, since) && rows[i].result_chars is Some
}

/// Calls per tool add up: the tools' call counts sum to the number of tool
/// calls in the range.
pub open spec fn calls_sum(g: Seq<ToolStatModel>) -> int
    decreases g.len(),
{
    if g.len() == 0 {
        0
    } else {
        calls_sum(g.drop_last()) + g.last().calls
    }
}

proof fn lemma_calls_sum_update(g: Seq<ToolStatModel>, i: int, x: ToolStatModel)
    requires
        0 <= i < g.len(),
    ensures
        calls_sum(g.update(i, x)) == calls_sum(g) - g[i].calls + x.calls,
    decreases g.len(),
{
    let u = g.update(i, x);
    if i < g.len() - 1 {
        lemma_calls_sum_update(g.drop_last(), i, x);
        assert(u.drop_last() =~= g.drop_last().update(i, x));
    } else {
        assert(u.drop_last() =~= g.drop_last());
    }
}

/// Every tool call in the range is counted once, under its tool.
pub proof fn law_tool_calls_all_counted(rows: Seq<ToolCallRow>, since: Option<Seq<char>>)
    ensures
        calls_sum(tool_groups(rows, since)) == calls_in_range(rows, since),
    decreases rows.len(),
{
    if rows.len() > 0 {
        law_tool_calls_all_counted(rows.drop_last(), since);
        let g = tool_groups(rows.drop_last(), since);
        let r = rows.last();
        if in_range(r.ts@, since) {
            lemma_tool_index_bound(g, r.tool@);
            match tool_index(g, r.tool@) {
                Some(i) => lemma_calls_sum_update(
                    g,
                    i,
                    ToolStatModel { tool: r.tool@, calls: g[i].calls + 1, chars: g[i].chars + row_chars(r) },
                ),
                None => {
                    let x = ToolStatModel { tool: r.tool@, calls: 1, chars: row_chars(r) };
                    assert(g.push(x).drop_last() =~= g);
                },
            }
        }
    }
}

// ---------------------------------------------------------------------------
// Distinct sessions of a rollup
// ---------------------------------------------------------------------------

/// The group's sessions are its rows' sessions, each once.
pub open spec fn sessions_cover(t: TotalsModel, rows: Seq<EventRow>, keys: Seq<Seq<Seq<char>>>, since: Option<Seq<char>>) -> bool {
    &&& t.sessions.no_duplicates()
    &&& forall|s: Seq<char>|
        #[trigger] t.sessions.contains(s) <==> exists|j: int| #[trigger] in_group(rows, keys, since, t.key, j) && rows[j].session_id@ == s
}

proof fn lemma_group_sessions(rows: Seq<EventRow>, keys: Seq<Seq<Seq<char>>>, since: Option<Seq<char>>)
    ensures
        forall|k: int|
            0 <= k < event_groups(rows, keys, since).len() ==> sessions_cover(
                #[trigger] event_groups(rows, keys, since)[k],
                rows,
                keys,
                since,
            ),
    decreases rows.len(),
{
    if rows.len() > 0 {
        let d = rows.drop_last();
        lemma_group_sessions(d, keys, since);
        lemma_counted_rows_grouped(d, keys, since);
        lemma_group_keys_distinct(d, keys, since);
        let g = event_groups(d, keys, since);
        let g2 = event_groups(rows, keys, since);
        let n = rows.len() - 1;
        let kk = keys[n];
        let r = rows[n];
        lemma_group_index_bound(g, kk);
        assert forall|key: Seq<Seq<char>>, j: int| #[trigger] in_group(d, keys, since, key, j) implies in_group(
            rows,
            keys,
            since,
            key,
            j,
        ) && rows[j] == d[j] by {
            assert(d[j] == rows[j]);
        }
        assert forall|key: Seq<Seq<char>>, j: int| #[trigger] in_group(rows, keys, since, key, j) && j < n implies in_group(
            d,
            keys,
            since,
            key,
            j,
        ) by {
            assert(d[j] == rows[j]);
        }
        assert forall|k: int| 0 <= k < g2.len() implies sessions_cover(#[trigger] g2[k], rows, keys, since) by {
            let unchanged = !counted(r, since) || (match group_index(g, kk) {
                Some(i) => k != i,
                None => k < g.len(),
            });
            if unchanged {
                assert(g2[k] == g[k]);
                let t = g[k];
                if counted(r, since) {
                    match group_index(g, kk) {
                        Some(i) => {
                            if k < i {
                                assert(g[k].key != g[i].key);
                            } else {
                                assert(g[i].key != g[k].key);
                            }
                        },
                        None => lemma_group_index_absent(g, kk),
                    }
                    assert(t.key != kk);
                }
                assert(sessions_cover(t, d, keys, since));
                assert forall|x: Seq<char>| #[trigger] t.sessions.contains(x) <==> exists|j: int|
                    #[trigger] in_group(rows, keys, since, t.key, j) && rows[j].session_id@ == x by {
                    if t.sessions.contains(x) {
                        let j = choose|j: int| #[trigger] in_group(d, keys, since, t.key, j) && d[j].session_id@ == x;
                        assert(in_group(rows, keys, since, t.key, j));
                    }
                    if exists|j: int| #[trigger] in_group(rows, keys, since, t.key, j) && rows[j].session_id@ == x {
                        let j = choose|j: int| #[trigger] in_group(rows, keys, since, t.key, j) && rows[j].session_id@ == x;
                        assert(j < n);
                        assert(in_group(d, keys, since, t.key, j));
                    }
                }
            } else {
                match group_index(g, kk) {
                    Some(i) => {
                        let o = g[i];
                        let t = g2[i];
                        assert(k == i);
                        assert(t == add_totals(o, r));
                        assert(sessions_cover(o, d, keys, since));
                        assert(in_group(rows, keys, since, kk, n));
                        let sid = r.session_id@;
                        if !o.sessions.contains(sid) {
                            assert(t.sessions == o.sessions.push(sid));
                            assert forall|a: int, b: int| 0 <= a < b < t.sessions.len() implies t.sessions[a] != t.sessions[b] by {
                                if b == o.sessions.len() {
                                    assert(o.sessions.contains(o.sessions[a]));
                                }
                            }
                        }
                        assert forall|x: Seq<char>| #[trigger] t.sessions.contains(x) <==> exists|j: int|
                            #[trigger] in_group(rows, keys, since, t.key, j) && rows[j].session_id@ == x by {
                            if t.sessions.contains(x) {
                                if o.sessions.contains(x) {
                                    let j = choose|j: int| #[trigger] in_group(d, keys, since, o.key, j) && d[j].session_id@ == x;
                                    assert(in_group(rows, keys, since, t.key, j));
                                } else {
                                    let q = choose|q: int| 0 <= q < t.sessions.len() && t.sessions[q] == x;
                                    if q < o.sessions.len() {
                                        assert(o.sessions[q] == x);
                                    }
                                    assert(x == sid);
                                }
                            }
                            if exists|j: int| #[trigger] in_group(rows, keys, since, t.key, j) && rows[j].session_id@ == x {
                                let j = choose|j: int| #[trigger] in_group(rows, keys, since, t.key, j) && rows[j].session_id@ == x;
                                if j < n {
                                    assert(in_group(d, keys, since, o.key, j));
                                    assert(o.sessions.contains(x));
                                    if !o.sessions.contains(sid) {
                                        let q = choose|q: int| 0 <= q < o.sessions.len() && o.sessions[q] == x;
                                        assert(t.sessions[q] == x);
                                    }
                                } else {
                                    if !o.sessions.contains(sid) {
                                        assert(t.sessions[o.sessions.len() as int] == x);
                                    }
                                }
                            }
                        }
                    },
                    None => {
                        lemma_group_index_absent(g, kk);
                        let t = g2[k];
                        assert(k == g.len());
                        assert(t == start_totals(kk, r));
                        assert(in_group(rows, keys, since, kk, n));
                        assert(t.sessions.no_duplicates());
                        assert forall|x: Seq<char>| #[trigger] t.sessions.contains(x) <==> exists|j: int|
                            #[trigger] in_group(rows, keys, since, t.key, j) && rows[j].session_id@ == x by {
                            if t.sessions.contains(x) {
                                assert(t.sessions[0] == x);
                                assert(in_group(rows, keys, since, t.key, n));
                            }
                            if exists|j: int| #[trigger] in_group(rows, keys, since, t.key, j) && rows[j].session_id@ == x {
                                let j = choose|j: int| #[trigger] in_group(rows, keys, since, t.key, j) && rows[j].session_id@ == x;
                                if j < n {
                                    assert(d[j] == rows[j]);
                                    assert(counted(d[j], since));
                                    assert(group_index(g, keys[j]) is Some);
                                }
                                assert(t.sessions[0] == x);
                            }
                        }
                    },
                }
            }
        }
    }
}

/// The overview's session count is the number of distinct sessions among
/// the counted turns.
pub proof fn law_overview_counts_distinct_sessions(events: Seq<EventRow>, since: Option<Seq<char>>)
    ensures
        exists|ss: Seq<Seq<char>>|
            #[trigger] ss.no_duplicates() && overview_spec(events, since).sessions == ss.len() && forall|s: Seq<char>|
                #[trigger] ss.contains(s) <==> exists|i: int|
                    0 <= i < events.len() && counted(#[trigger] events[i], since) && events[i].session_id@ == s,
{
    let keys = unit_keys(events.len());
    let g = overview_groups(events, since);
    lemma_unit_groups(events, events.len(), since);
    crate::rollup::lemma_group_keys(events, keys, since, 0);
    lemma_group_sessions(events, keys, since);
    lemma_counted_rows_grouped(events, keys, since);
    if g.len() == 0 {
        let ss = Seq::<Seq<char>>::empty();
        assert forall|s: Seq<char>| #[trigger] ss.contains(s) <==> exists|i: int|
            0 <= i < events.len() && counted(#[trigger] events[i], since) && events[i].session_id@ == s by {
            if exists|i: int| 0 <= i < events.len() && counted(#[trigger] events[i], since) && events[i].session_id@ == s {
                let i = choose|i: int| 0 <= i < events.len() && counted(#[trigger] events[i], since) && events[i].session_id@ == s;
                lemma_group_index_bound(g, keys[i]);
            }
        }
        assert(ss.no_duplicates());
    } else {
        let t = g[0];
        assert(sessions_cover(t, events, keys, since));
        assert(t.key =~= Seq::<Seq<char>>::empty());
        assert forall|i: int| 0 <= i < events.len() && counted(#[trigger] events[i], since) implies in_group(
            events,
            keys,
            since,
            t.key,
            i,
        ) by {
            assert(keys[i] =~= t.key);
        }
        assert forall|s: Seq<char>| #[trigger] t.sessions.contains(s) <==> exists|i: int|
            0 <= i < events.len() && counted(#[trigger] events[i], since) && events[i].session_id@ == s by {
            if t.sessions.contains(s) {
                let j = choose|j: int| #[trigger] in_group(events, keys, since, t.key, j) && events[j].session_id@ == s;
                assert(counted(events[j], since));
            }
            if exists|i: int| 0 <= i < events.len() && counted(#[trigger] events[i], since) && events[i].session_id@ == s {
                let i = choose|i: int| 0 <= i < events.len() && counted(#[trigger] events[i], since) && events[i].session_id@ == s;
                assert(in_group(events, keys, since, t.key, i));
            }
        }
        assert(t.sessions.no_duplicates());
    }
}

// ---------------------------------------------------------------------------
// Resuming a transcript
// ---------------------------------------------------------------------------

/// Reading resumes at the stored offset while the file has grown past
/// it, from the start when the file shrank below it, and not at all when
/// nothing was written since; a resumed read never starts past the end.
pub proof fn law_resume_offset(stored: u64, len: u64)
    ensures
        resume_spec(stored, len) is None <==> (len == stored || len == 0),
        stored < len ==> resume_spec(stored, len) == Some(stored),
        0 < len < stored ==> resume_spec(stored, len) == Some(0u64),
        resume_spec(stored, len) matches Some(o) ==> o < len,
{
}

} // verus!
