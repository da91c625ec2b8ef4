//! Grouped totals over the turn events of a range: the engine behind the
//! usage series, the per-model rollup and the overview.

use vstd::prelude::*;

use crate::text::{str_eq, string_views, contains_string};
use crate::collectors::claude_code::opt_string_view;
use crate::sort::{
    all_views, code_points, desc_key, lex_less, lex_lt, push_code_points, sort_asc_viewed,
    sort_desc_viewed, sorted_payloads, viewed_desc, viewed_keyed,
};
use crate::pricing::{cost_of, cost_of_spec};
use crate::store::{
    in_range, fits_i64, opt_view_of, Bucket, EventRow, Granularity, ModelBucket, ModelUsage, Overview,
    SessionBucket, Store, UsageBucket,
};

verus! {

/// Running totals of one group of turn events. The token sums stop at the
/// first addition that would leave 64-bit integers, and `overflow` says so.
pub struct Totals {
    pub key: Vec<String>,
    pub turns: usize,
    pub tokens_in: i64,
    pub tokens_out: i64,
    pub cache_read: i64,
    pub cache_write: i64,
    pub overflow: bool,
    /// Distinct sessions, in order of first appearance.
    pub sessions: Vec<String>,
    pub first_ts: String,
    pub last_ts: String,
}

pub struct TotalsModel {
    pub key: Seq<Seq<char>>,
    pub turns: int,
    pub tokens_in: int,
    pub tokens_out: int,
    pub cache_read: int,
    pub cache_write: int,
    pub overflow: bool,
    pub sessions: Seq<Seq<char>>,
    pub first_ts: Seq<char>,
    pub last_ts: Seq<char>,
}

impl View for Totals {
    type V = TotalsModel;

    open spec fn view(&self) -> TotalsModel {
        TotalsModel {
            key: string_views(self.key@),
            turns: self.turns as int,
            tokens_in: self.tokens_in as int,
            tokens_out: self.tokens_out as int,
            cache_read: self.cache_read as int,
            cache_write: self.cache_write as int,
            overflow: self.overflow,
            sessions: string_views(self.sessions@),
            first_ts: self.first_ts@,
            last_ts: self.last_ts@,
        }
    }
}

pub open spec fn totals_views(g: Seq<Totals>) -> Seq<TotalsModel> {
    g.map_values(|t: Totals| t@)
}

/// Timestamps compare as text, by code point.
pub open spec fn ts_before(a: Seq<char>, b: Seq<char>) -> bool {
    lex_lt(code_points(a), code_points(b))
}

/// An event counts toward the rollups: a turn within the range.
pub open spec fn counted(r: EventRow, since: Option<Seq<char>>) -> bool {
    r.granularity == Granularity::Turn && in_range(r.ts@, since)
}

/// Adding the row's tokens keeps every sum within 64-bit integers.
pub open spec fn sums_fit(t: TotalsModel, r: EventRow) -> bool {
    &&& fits_i64(t.tokens_in + r.tokens_in)
    &&& fits_i64(t.tokens_out + r.tokens_out)
    &&& fits_i64(t.cache_read + r.cache_read)
    &&& fits_i64(t.cache_write + r.cache_write)
}

/// The totals of a group that starts with `r`.
pub open spec fn start_totals(key: Seq<Seq<char>>, r: EventRow) -> TotalsModel {
    TotalsModel {
        key,
        turns: 1,
        tokens_in: r.tokens_in as int,
        tokens_out: r.tokens_out as int,
        cache_read: r.cache_read as int,
        cache_write: r.cache_write as int,
        overflow: false,
        sessions: seq![r.session_id@],
        first_ts: r.ts@,
        last_ts: r.ts@,
    }
}

/// The totals of a group after one more row.
pub open spec fn add_totals(t: TotalsModel, r: EventRow) -> TotalsModel {
    let add = !t.overflow && sums_fit(t, r);
    TotalsModel {
        key: t.key,
        turns: t.turns + 1,
        tokens_in: if add { t.tokens_in + r.tokens_in } else { t.tokens_in },
        tokens_out: if add { t.tokens_out + r.tokens_out } else { t.tokens_out },
        cache_read: if add { t.cache_read + r.cache_read } else { t.cache_read },
        cache_write: if add { t.cache_write + r.cache_write } else { t.cache_write },
        overflow: !add,
        sessions: if t.sessions.contains(r.session_id@) {
            t.sessions
        } else {
            t.sessions.push(r.session_id@)
        },
        first_ts: if ts_before(r.ts@, t.first_ts) { r.ts@ } else { t.first_ts },
        last_ts: if ts_before(t.last_ts, r.ts@) { r.ts@ } else { t.last_ts },
    }
}

/// Index of the group with `key`.
pub open spec fn group_index(g: Seq<TotalsModel>, key: Seq<Seq<char>>) -> Option<int>
    decreases g.len(),
{
    if g.len() == 0 {
        None
    } else {
        match group_index(g.drop_last(), key) {
            Some(i) => Some(i),
            None => if g.last().key == key {
                Some(g.len() - 1)
            } else {
                None
            },
        }
    }
}

pub open spec fn add_event(g: Seq<TotalsModel>, key: Seq<Seq<char>>, r: EventRow) -> Seq<TotalsModel> {
    match group_index(g, key) {
        Some(i) => g.update(i, add_totals(g[i], r)),
        None => g.push(start_totals(key, r)),
    }
}

/// The counted events grouped by their keys (`keys[i]` is the key of
/// `rows[i]`), groups in order of first appearance.
pub open spec fn event_groups(
    rows: Seq<EventRow>,
    keys: Seq<Seq<Seq<char>>>,
    since: Option<Seq<char>>,
) -> Seq<TotalsModel>
    decreases rows.len(),
{
    if rows.len() == 0 {
        seq![]
    } else {
        let g = event_groups(rows.drop_last(), keys, since);
        let r = rows.last();
        if counted(r, since) {
            add_event(g, keys[rows.len() - 1], r)
        } else {
            g
        }
    }
}

pub open spec fn key_views(keys: Seq<Vec<String>>) -> Seq<Seq<Seq<char>>> {
    keys.map_values(|k: Vec<String>| string_views(k@))
}

pub proof fn lemma_group_index_bound(g: Seq<TotalsModel>, key: Seq<Seq<char>>)
    ensures
        group_index(g, key) matches Some(i) ==> 0 <= i < g.len() && g[i].key == key,
    decreases g.len(),
{
    if g.len() > 0 {
        lemma_group_index_bound(g.drop_last(), key);
    }
}

proof fn lemma_group_index_none(g: Seq<TotalsModel>, key: Seq<Seq<char>>)
    requires
        forall|j: int| 0 <= j < g.len() ==> g[j].key != key,
    ensures
        group_index(g, key) is None,
    decreases g.len(),
{
    if g.len() > 0 {
        lemma_group_index_none(g.drop_last(), key);
    }
}

proof fn lemma_group_index_first(g: Seq<TotalsModel>, key: Seq<Seq<char>>, i: int)
    requires
        0 <= i < g.len(),
        g[i].key == key,
        forall|j: int| 0 <= j < i ==> g[j].key != key,
    ensures
        group_index(g, key) == Some(i),
    decreases g.len(),
{
    if i < g.len() - 1 {
        lemma_group_index_first(g.drop_last(), key, i);
    } else {
        lemma_group_index_none(g.drop_last(), key);
    }
}

/// Two keys are equal part by part.
fn keys_equal(a: &Vec<String>, b: &Vec<String>) -> (r: bool)
    ensures
        r == (string_views(a@) == string_views(b@)),
{
    if a.len() != b.len() {
        proof {
            assert(string_views(a@).len() != string_views(b@).len());
        }
        return false;
    }
    let mut i: usize = 0;
    while i < a.len()
        invariant
            i <= a@.len(),
            a@.len() == b@.len(),
            forall|j: int| 0 <= j < i ==> a@[j]@ == b@[j]@,
        decreases a.len() - i,
    {
        if !str_eq(a[i].as_str(), b[i].as_str()) {
            proof {
                assert(string_views(a@)[i as int] != string_views(b@)[i as int]);
            }
            return false;
        }
        i += 1;
    }
    assert(string_views(a@) =~= string_views(b@));
    true
}

fn find_group(g: &Vec<Totals>, key: &Vec<String>) -> (r: Option<usize>)
    ensures
        match r {
            Some(i) => group_index(totals_views(g@), string_views(key@)) == Some(i as int),
            None => group_index(totals_views(g@), string_views(key@)) is None,
        },
{
    let ghost gv = totals_views(g@);
    let mut i: usize = 0;
    while i < g.len()
        invariant
            i <= g@.len(),
            gv == totals_views(g@),
            forall|j: int| 0 <= j < i ==> gv[j].key != string_views(key@),
        decreases g.len() - i,
    {
        if keys_equal(&g[i].key, key) {
            proof {
                lemma_group_index_first(gv, string_views(key@), i as int);
            }
            return Some(i);
        }
        i += 1;
    }
    proof {
        lemma_group_index_none(gv, string_views(key@));
    }
    None
}

fn clone_key(key: &Vec<String>) -> (r: Vec<String>)
    ensures
        string_views(r@) == string_views(key@),
{
    let mut out: Vec<String> = Vec::new();
    let mut i: usize = 0;
    while i < key.len()
        invariant
            i <= key@.len(),
            string_views(out@) == string_views(key@.take(i as int)),
        decreases key.len() - i,
    {
        let part = key[i].clone();
        let ghost before = out@;
        out.push(part);
        assert(key@.take(i + 1) == key@.take(i as int).push(key@[i as int]));
        assert(string_views(out@) =~= string_views(before).push(key@[i as int]@));
        assert(string_views(key@.take(i + 1)) =~= string_views(key@.take(i as int)).push(key@[i as int]@));
        i += 1;
    }
    assert(key@.take(key@.len() as int) == key@);
    out
}

fn ts_earlier(a: &str, b: &str) -> (r: bool)
    ensures
        r == ts_before(a@, b@),
{
    let mut ka: Vec<u32> = Vec::new();
    push_code_points(&mut ka, a);
    let mut kb: Vec<u32> = Vec::new();
    push_code_points(&mut kb, b);
    assert(ka@ =~= code_points(a@));
    assert(kb@ =~= code_points(b@));
    lex_less(&ka, &kb)
}

fn start_group(key: &Vec<String>, r: &EventRow) -> (t: Totals)
    ensures
        t@ == start_totals(string_views(key@), *r),
{
    let mut sessions: Vec<String> = Vec::new();
    sessions.push(r.session_id.clone());
    let t = Totals {
        key: clone_key(key),
        turns: 1,
        tokens_in: r.tokens_in,
        tokens_out: r.tokens_out,
        cache_read: r.cache_read,
        cache_write: r.cache_write,
        overflow: false,
        sessions,
        first_ts: r.ts.clone(),
        last_ts: r.ts.clone(),
    };
    assert(t@.sessions =~= seq![r.session_id@]);
    t
}

fn add_row(t: &mut Totals, r: &EventRow)
    requires
        old(t).turns < usize::MAX,
    ensures
        final(t)@ == add_totals(old(t)@, *r),
{
    t.turns = t.turns + 1;
    if !t.overflow {
        let a = t.tokens_in.checked_add(r.tokens_in);
        let b = t.tokens_out.checked_add(r.tokens_out);
        let c = t.cache_read.checked_add(r.cache_read);
        let d = t.cache_write.checked_add(r.cache_write);
        match (a, b, c, d) {
            (Some(a), Some(b), Some(c), Some(d)) => {
                t.tokens_in = a;
                t.tokens_out = b;
                t.cache_read = c;
                t.cache_write = d;
            },
            _ => {
                t.overflow = true;
            },
        }
    }
    let ghost before = string_views(t.sessions@);
    if !contains_string(&t.sessions, &r.session_id) {
        t.sessions.push(r.session_id.clone());
        assert(string_views(t.sessions@) =~= before.push(r.session_id@));
    }
    if ts_earlier(r.ts.as_str(), t.first_ts.as_str()) {
        t.first_ts = r.ts.clone();
    }
    if ts_earlier(t.last_ts.as_str(), r.ts.as_str()) {
        t.last_ts = r.ts.clone();
    }
}

impl Store {
    /// Groups the counted events (turns from `since` on) by their keys:
    /// `keys[i]` is the key of the i-th stored event.
    pub fn group_events(&self, keys: &Vec<Vec<String>>, since: Option<&str>) -> (r: Vec<Totals>)
        requires
            keys@.len() == self.events@.len(),
        ensures
            totals_views(r@) == event_groups(
                self.events@,
                key_views(keys@),
                crate::store::opt_view_of(since),
            ),
    {
        let ghost sv = crate::store::opt_view_of(since);
        let ghost kv = key_views(keys@);
        let skey = crate::store::since_key(since);
        let rows = &self.events;
        let mut groups: Vec<Totals> = Vec::new();
        let mut i: usize = 0;
        while i < rows.len()
            invariant
                i <= rows@.len(),
                rows@ == self.events@,
                keys@.len() == rows@.len(),
                kv == key_views(keys@),
                sv == crate::store::opt_view_of(since),
                totals_views(groups@) == event_groups(rows@.take(i as int), kv, sv),
                forall|j: int| 0 <= j < groups@.len() ==> #[trigger] groups@[j].turns <= i,
                match skey {
                    Some(k) => sv matches Some(t) && k@ == code_points(t),
                    None => sv is None,
                },
            decreases rows.len() - i,
        {
            assert(rows@.take(i + 1).drop_last() == rows@.take(i as int));
            assert(rows@.take(i + 1).last() == rows@[i as int]);
            let row = &rows[i];
            if row.granularity == Granularity::Turn && crate::store::ts_in_range(row.ts.as_str(), &skey) {
                let ghost gv = totals_views(groups@);
                assert(kv[i as int] == string_views(keys@[i as int]@));
                match find_group(&groups, &keys[i]) {
                    Some(j) => {
                        proof {
                            lemma_group_index_bound(gv, kv[i as int]);
                        }
                        let mut t = groups.remove(j);
                        add_row(&mut t, row);
                        groups.insert(j, t);
                        assert(totals_views(groups@) =~= gv.update(j as int, add_totals(gv[j as int], *row)));
                    },
                    None => {
                        let t = start_group(&keys[i], row);
                        groups.push(t);
                        assert(totals_views(groups@) =~= gv.push(start_totals(kv[i as int], *row)));
                    },
                }
            }
            i += 1;
        }
        assert(rows@.take(rows@.len() as int) == rows@);
        groups
    }
}


pub proof fn lemma_group_keys(
    rows: Seq<EventRow>,
    keys: Seq<Seq<Seq<char>>>,
    since: Option<Seq<char>>,
    n: nat,
)
    requires
        keys.len() >= rows.len(),
        forall|i: int| 0 <= i < keys.len() ==> (#[trigger] keys[i]).len() == n,
    ensures
        forall|j: int|
            0 <= j < event_groups(rows, keys, since).len() ==> (#[trigger] event_groups(
                rows,
                keys,
                since,
            )[j]).key.len() == n,
    decreases rows.len(),
{
    if rows.len() > 0 {
        lemma_group_keys(rows.drop_last(), keys, since, n);
        let g = event_groups(rows.drop_last(), keys, since);
        lemma_group_index_bound(g, keys[rows.len() - 1]);
    }
}

// ---------------------------------------------------------------------------
// Keys
// ---------------------------------------------------------------------------

/// The model an event is attributed to; events without one count as
/// "unknown".
pub open spec fn model_name(r: EventRow) -> Seq<char> {
    match r.model {
        Some(m) => m@,
        None => "unknown"@,
    }
}

pub open spec fn model_keys(rows: Seq<EventRow>) -> Seq<Seq<Seq<char>>> {
    rows.map_values(|r: EventRow| seq![model_name(r)])
}

/// Each event keyed by its bucket (`local[i]` is the i-th event's
/// timestamp in local time).
pub open spec fn bucket_keys(b: Bucket, local: Seq<Seq<char>>) -> Seq<Seq<Seq<char>>> {
    local.map_values(|l: Seq<char>| seq![b.label_of(l)])
}

/// Each event keyed by its bucket and its model.
pub open spec fn bucket_model_keys(rows: Seq<EventRow>, b: Bucket, local: Seq<Seq<char>>) -> Seq<Seq<Seq<char>>> {
    Seq::new(rows.len(), |i: int| seq![b.label_of(local[i]), model_name(rows[i])])
}

pub open spec fn unit_keys(n: nat) -> Seq<Seq<Seq<char>>> {
    Seq::new(n, |i: int| Seq::<Seq<char>>::empty())
}

fn model_name_of(r: &EventRow) -> (s: String)
    ensures
        s@ == model_name(*r),
{
    match &r.model {
        Some(m) => m.clone(),
        None => "unknown".to_string(),
    }
}

fn one_part(s: String) -> (k: Vec<String>)
    ensures
        string_views(k@) == seq![s@],
{
    let mut k: Vec<String> = Vec::new();
    k.push(s);
    assert(string_views(k@) =~= seq![s@]);
    k
}

fn two_parts(a: String, b: String) -> (k: Vec<String>)
    ensures
        string_views(k@) == seq![a@, b@],
{
    let mut k: Vec<String> = Vec::new();
    k.push(a);
    k.push(b);
    assert(string_views(k@) =~= seq![a@, b@]);
    k
}

impl Store {
    fn model_key_list(&self) -> (r: Vec<Vec<String>>)
        ensures
            key_views(r@) == model_keys(self.events@),
    {
        let mut out: Vec<Vec<String>> = Vec::new();
        let mut i: usize = 0;
        while i < self.events.len()
            invariant
                i <= self.events@.len(),
                key_views(out@) == model_keys(self.events@.take(i as int)),
            decreases self.events.len() - i,
        {
            let k = one_part(model_name_of(&self.events[i]));
            let ghost before = key_views(out@);
            out.push(k);
            assert(key_views(out@) =~= before.push(string_views(k@)));
            assert(self.events@.take(i + 1) == self.events@.take(i as int).push(self.events@[i as int]));
            assert(model_keys(self.events@.take(i + 1)) =~= model_keys(self.events@.take(i as int)).push(
                seq![model_name(self.events@[i as int])],
            ));
            i += 1;
        }
        assert(self.events@.take(self.events@.len() as int) == self.events@);
        out
    }

    fn bucket_model_key_list(&self, b: Bucket, local: &Vec<String>) -> (r: Vec<Vec<String>>)
        requires
            local@.len() == self.events@.len(),
        ensures
            key_views(r@) == bucket_model_keys(self.events@, b, string_views(local@)),
    {
        let ghost target = bucket_model_keys(self.events@, b, string_views(local@));
        let mut out: Vec<Vec<String>> = Vec::new();
        let mut i: usize = 0;
        while i < self.events.len()
            invariant
                i <= self.events@.len(),
                local@.len() == self.events@.len(),
                target == bucket_model_keys(self.events@, b, string_views(local@)),
                key_views(out@) == target.take(i as int),
            decreases self.events.len() - i,
        {
            let label = b.label(local[i].as_str());
            let k = two_parts(label, model_name_of(&self.events[i]));
            let ghost before = key_views(out@);
            out.push(k);
            assert(string_views(local@)[i as int] == local@[i as int]@);
            assert(key_views(out@) =~= before.push(string_views(k@)));
            assert(target.take(i + 1) =~= target.take(i as int).push(target[i as int]));
            i += 1;
        }
        assert(target.take(target.len() as int) == target);
        out
    }
}

fn bucket_key_list(b: Bucket, local: &Vec<String>) -> (r: Vec<Vec<String>>)
    ensures
        key_views(r@) == bucket_keys(b, string_views(local@)),
{
    let ghost target = bucket_keys(b, string_views(local@));
    let mut out: Vec<Vec<String>> = Vec::new();
    let mut i: usize = 0;
    while i < local.len()
        invariant
            i <= local@.len(),
            target == bucket_keys(b, string_views(local@)),
            key_views(out@) == target.take(i as int),
        decreases local.len() - i,
    {
        let label = b.label(local[i].as_str());
        let k = one_part(label);
        let ghost before = key_views(out@);
        out.push(k);
        assert(string_views(local@)[i as int] == local@[i as int]@);
        assert(key_views(out@) =~= before.push(string_views(k@)));
        assert(target.take(i + 1) =~= target.take(i as int).push(target[i as int]));
        i += 1;
    }
    assert(target.take(target.len() as int) == target);
    out
}

fn unit_key_list(n: usize) -> (r: Vec<Vec<String>>)
    ensures
        key_views(r@) == unit_keys(n as nat),
{
    let mut out: Vec<Vec<String>> = Vec::new();
    let mut i: usize = 0;
    while i < n
        invariant
            i <= n,
            key_views(out@) == unit_keys(i as nat),
        decreases n - i,
    {
        let k: Vec<String> = Vec::new();
        let ghost before = key_views(out@);
        out.push(k);
        assert(string_views(k@) =~= Seq::<Seq<char>>::empty());
        assert(key_views(out@) =~= before.push(string_views(k@)));
        assert(key_views(out@) =~= unit_keys((i + 1) as nat));
        i += 1;
    }
    out
}

// ---------------------------------------------------------------------------
// Fitting totals
// ---------------------------------------------------------------------------

/// The group's sums and count stayed within 64-bit integers (SQL `SUM`
/// fails with an integer overflow otherwise).
pub open spec fn totals_fit(t: TotalsModel) -> bool {
    !t.overflow && fits_i64(t.turns)
}

pub open spec fn groups_fit(g: Seq<TotalsModel>) -> bool {
    forall|i: int| 0 <= i < g.len() ==> totals_fit(#[trigger] g[i])
}

fn all_fit(g: &Vec<Totals>) -> (r: bool)
    ensures
        r == groups_fit(totals_views(g@)),
{
    let mut i: usize = 0;
    while i < g.len()
        invariant
            i <= g@.len(),
            forall|j: int| 0 <= j < i ==> totals_fit(#[trigger] totals_views(g@)[j]),
        decreases g.len() - i,
    {
        if g[i].overflow || (g[i].turns as u64) > 0x7fff_ffff_ffff_ffffu64 {
            proof {
                assert(!totals_fit(totals_views(g@)[i as int]));
            }
            return false;
        }
        i += 1;
    }
    true
}

// ---------------------------------------------------------------------------
// Per-model totals
// ---------------------------------------------------------------------------

pub struct ModelUsageModel {
    pub model: Seq<char>,
    pub turns: int,
    pub tokens_in: int,
    pub tokens_out: int,
    pub cache_read: int,
    pub cache_write: int,
    pub cost: int,
}

impl View for ModelUsage {
    type V = ModelUsageModel;

    open spec fn view(&self) -> ModelUsageModel {
        ModelUsageModel {
            model: self.model@,
            turns: self.turns as int,
            tokens_in: self.tokens_in as int,
            tokens_out: self.tokens_out as int,
            cache_read: self.cache_read as int,
            cache_write: self.cache_write as int,
            cost: self.cost as int,
        }
    }
}

/// A group's totals, priced at its model's rates.
pub open spec fn usage_of(t: TotalsModel) -> ModelUsageModel {
    ModelUsageModel {
        model: t.key[0],
        turns: t.turns,
        tokens_in: t.tokens_in,
        tokens_out: t.tokens_out,
        cache_read: t.cache_read,
        cache_write: t.cache_write,
        cost: cost_of_spec(Some(t.key[0]), t.tokens_in, t.tokens_out, t.cache_read, t.cache_write),
    }
}

pub open spec fn usage_entries(g: Seq<TotalsModel>) -> Seq<(Seq<u32>, ModelUsageModel)> {
    g.map_values(|t: TotalsModel| (desc_key(t.tokens_out as i64), usage_of(t)))
}

/// Counted turns grouped by model.
pub open spec fn model_groups(events: Seq<EventRow>, since: Option<Seq<char>>) -> Seq<TotalsModel> {
    event_groups(events, model_keys(events), since)
}

/// Totals per model, largest output first.
pub open spec fn by_model_spec(events: Seq<EventRow>, since: Option<Seq<char>>) -> Seq<ModelUsageModel> {
    sorted_payloads(usage_entries(model_groups(events, since)))
}

fn usage_from(t: &Totals) -> (r: ModelUsage)
    requires
        t@.key.len() == 1,
        totals_fit(t@),
    ensures
        r@ == usage_of(t@),
{
    let model = t.key[0].clone();
    let cost = cost_of(Some(model.as_str()), t.tokens_in, t.tokens_out, t.cache_read, t.cache_write);
    ModelUsage {
        model,
        turns: t.turns as i64,
        tokens_in: t.tokens_in,
        tokens_out: t.tokens_out,
        cache_read: t.cache_read,
        cache_write: t.cache_write,
        cost,
    }
}

impl Store {
    /// Totals per model within the range (turns from `since` on; events
    /// without a model count as "unknown"), largest output first; `None`
    /// when a total overflows.
    pub fn by_model(&self, since: Option<&str>) -> (r: Option<Vec<ModelUsage>>)
        ensures
            match r {
                Some(v) => groups_fit(model_groups(self.events@, opt_view_of(since))) && all_views(v@)
                    == by_model_spec(self.events@, opt_view_of(since)),
                None => !groups_fit(model_groups(self.events@, opt_view_of(since))),
            },
    {
        let keys = self.model_key_list();
        let groups = self.group_events(&keys, since);
        if !all_fit(&groups) {
            return None;
        }
        let ghost gv = totals_views(groups@);
        proof {
            lemma_group_keys(self.events@, model_keys(self.events@), opt_view_of(since), 1);
        }
        let mut items: Vec<(i64, ModelUsage)> = Vec::new();
        let mut i: usize = 0;
        while i < groups.len()
            invariant
                i <= groups@.len(),
                gv == totals_views(groups@),
                groups_fit(gv),
                forall|j: int| 0 <= j < gv.len() ==> (#[trigger] gv[j]).key.len() == 1,
                viewed_desc(items@) == usage_entries(gv.take(i as int)),
            decreases groups.len() - i,
        {
            let t = &groups[i];
            assert(gv[i as int] == t@);
            let u = usage_from(t);
            let ghost before = viewed_desc(items@);
            items.push((t.tokens_out, u));
            assert(viewed_desc(items@) =~= before.push((desc_key(t.tokens_out), u@)));
            assert(gv.take(i + 1) =~= gv.take(i as int).push(gv[i as int]));
            assert(usage_entries(gv.take(i + 1)) =~= usage_entries(gv.take(i as int)).push(
                (desc_key(t.tokens_out), usage_of(gv[i as int])),
            ));
            i += 1;
        }
        assert(gv.take(gv.len() as int) == gv);
        Some(sort_desc_viewed(items))
    }
}

// ---------------------------------------------------------------------------
// Series
// ---------------------------------------------------------------------------

pub struct UsageBucketModel {
    pub bucket: Seq<char>,
    pub turns: int,
    pub tokens_in: int,
    pub tokens_out: int,
    pub cache_read: int,
    pub cache_write: int,
}

impl View for UsageBucket {
    type V = UsageBucketModel;

    open spec fn view(&self) -> UsageBucketModel {
        UsageBucketModel {
            bucket: self.bucket@,
            turns: self.turns as int,
            tokens_in: self.tokens_in as int,
            tokens_out: self.tokens_out as int,
            cache_read: self.cache_read as int,
            cache_write: self.cache_write as int,
        }
    }
}

pub open spec fn bucket_of(t: TotalsModel) -> UsageBucketModel {
    UsageBucketModel {
        bucket: t.key[0],
        turns: t.turns,
        tokens_in: t.tokens_in,
        tokens_out: t.tokens_out,
        cache_read: t.cache_read,
        cache_write: t.cache_write,
    }
}

pub open spec fn bucket_entries(g: Seq<TotalsModel>) -> Seq<(Seq<u32>, UsageBucketModel)> {
    g.map_values(|t: TotalsModel| (code_points(t.key[0]), bucket_of(t)))
}

/// Counted turns grouped by bucket.
pub open spec fn series_groups(
    events: Seq<EventRow>,
    b: Bucket,
    local: Seq<Seq<char>>,
    since: Option<Seq<char>>,
) -> Seq<TotalsModel> {
    event_groups(events, bucket_keys(b, local), since)
}

/// Totals per bucket, in bucket order.
pub open spec fn series_spec(
    events: Seq<EventRow>,
    b: Bucket,
    local: Seq<Seq<char>>,
    since: Option<Seq<char>>,
) -> Seq<UsageBucketModel> {
    sorted_payloads(bucket_entries(series_groups(events, b, local, since)))
}

fn key_of(s: &str) -> (k: Vec<u32>)
    ensures
        k@ == code_points(s@),
{
    let mut k: Vec<u32> = Vec::new();
    push_code_points(&mut k, s);
    assert(k@ =~= code_points(s@));
    k
}

fn bucket_from(t: &Totals) -> (r: UsageBucket)
    requires
        t@.key.len() == 1,
        totals_fit(t@),
    ensures
        r@ == bucket_of(t@),
{
    UsageBucket {
        bucket: t.key[0].clone(),
        turns: t.turns as i64,
        tokens_in: t.tokens_in,
        tokens_out: t.tokens_out,
        cache_read: t.cache_read,
        cache_write: t.cache_write,
    }
}

impl Store {
    /// Bucketed turn totals within the range, in bucket order; buckets
    /// without activity are absent. `local[i]` is the i-th stored event's
    /// timestamp in local time, which decides its bucket. `None` when a
    /// total overflows.
    pub fn series(&self, since: Option<&str>, bucket: Bucket, local: &Vec<String>) -> (r: Option<
        Vec<UsageBucket>,
    >)
        requires
            local@.len() == self.events@.len(),
        ensures
            match r {
                Some(v) => groups_fit(series_groups(self.events@, bucket, string_views(local@), opt_view_of(since)))
                    && all_views(v@) == series_spec(self.events@, bucket, string_views(local@), opt_view_of(since)),
                None => !groups_fit(series_groups(self.events@, bucket, string_views(local@), opt_view_of(since))),
            },
    {
        let keys = bucket_key_list(bucket, local);
        assert(key_views(keys@).len() == keys@.len());
        let groups = self.group_events(&keys, since);
        if !all_fit(&groups) {
            return None;
        }
        let ghost gv = totals_views(groups@);
        proof {
            lemma_group_keys(self.events@, bucket_keys(bucket, string_views(local@)), opt_view_of(since), 1);
        }
        let mut items: Vec<(Vec<u32>, UsageBucket)> = Vec::new();
        let mut i: usize = 0;
        while i < groups.len()
            invariant
                i <= groups@.len(),
                gv == totals_views(groups@),
                groups_fit(gv),
                forall|j: int| 0 <= j < gv.len() ==> (#[trigger] gv[j]).key.len() == 1,
                viewed_keyed(items@) == bucket_entries(gv.take(i as int)),
            decreases groups.len() - i,
        {
            let t = &groups[i];
            assert(gv[i as int] == t@);
            let u = bucket_from(t);
            let k = key_of(t.key[0].as_str());
            let ghost before = viewed_keyed(items@);
            items.push((k, u));
            assert(viewed_keyed(items@) =~= before.push((k@, u@)));
            assert(gv.take(i + 1) =~= gv.take(i as int).push(gv[i as int]));
            assert(bucket_entries(gv.take(i + 1)) =~= bucket_entries(gv.take(i as int)).push(
                (code_points(gv[i as int].key[0]), bucket_of(gv[i as int])),
            ));
            i += 1;
        }
        assert(gv.take(gv.len() as int) == gv);
        Some(sort_asc_viewed(items))
    }
}

pub struct ModelBucketModel {
    pub bucket: Seq<char>,
    pub model: Seq<char>,
    pub turns: int,
    pub tokens_in: int,
    pub tokens_out: int,
    pub cache_read: int,
    pub cache_write: int,
    pub cost: int,
}

impl View for ModelBucket {
    type V = ModelBucketModel;

    open spec fn view(&self) -> ModelBucketModel {
        ModelBucketModel {
            bucket: self.bucket@,
            model: self.model@,
            turns: self.turns as int,
            tokens_in: self.tokens_in as int,
            tokens_out: self.tokens_out as int,
            cache_read: self.cache_read as int,
            cache_write: self.cache_write as int,
            cost: self.cost as int,
        }
    }
}

pub open spec fn model_bucket_of(t: TotalsModel) -> ModelBucketModel {
    ModelBucketModel {
        bucket: t.key[0],
        model: t.key[1],
        turns: t.turns,
        tokens_in: t.tokens_in,
        tokens_out: t.tokens_out,
        cache_read: t.cache_read,
        cache_write: t.cache_write,
        cost: cost_of_spec(Some(t.key[1]), t.tokens_in, t.tokens_out, t.cache_read, t.cache_write),
    }
}

pub open spec fn model_bucket_entries(g: Seq<TotalsModel>) -> Seq<(Seq<u32>, ModelBucketModel)> {
    g.map_values(|t: TotalsModel| (code_points(t.key[0]), model_bucket_of(t)))
}

/// Counted turns grouped by bucket and model.
pub open spec fn model_series_groups(
    events: Seq<EventRow>,
    b: Bucket,
    local: Seq<Seq<char>>,
    since: Option<Seq<char>>,
) -> Seq<TotalsModel> {
    event_groups(events, bucket_model_keys(events, b, local), since)
}

/// Totals per (bucket, model), in bucket order.
pub open spec fn series_by_model_spec(
    events: Seq<EventRow>,
    b: Bucket,
    local: Seq<Seq<char>>,
    since: Option<Seq<char>>,
) -> Seq<ModelBucketModel> {
    sorted_payloads(model_bucket_entries(model_series_groups(events, b, local, since)))
}

fn model_bucket_from(t: &Totals) -> (r: ModelBucket)
    requires
        t@.key.len() == 2,
        totals_fit(t@),
    ensures
        r@ == model_bucket_of(t@),
{
    let model = t.key[1].clone();
    let cost = cost_of(Some(model.as_str()), t.tokens_in, t.tokens_out, t.cache_read, t.cache_write);
    ModelBucket {
        bucket: t.key[0].clone(),
        model,
        turns: t.turns as i64,
        tokens_in: t.tokens_in,
        tokens_out: t.tokens_out,
        cache_read: t.cache_read,
        cache_write: t.cache_write,
        cost,
    }
}

impl Store {
    /// Every chartable metric per (bucket, model) within the range, in
    /// bucket order; `local` as for `series`. `None` when a total
    /// overflows.
    pub fn series_by_model(&self, since: Option<&str>, bucket: Bucket, local: &Vec<String>) -> (r:
        Option<Vec<ModelBucket>>)
        requires
            local@.len() == self.events@.len(),
        ensures
            match r {
                Some(v) => groups_fit(
                    model_series_groups(self.events@, bucket, string_views(local@), opt_view_of(since)),
                ) && all_views(v@) == series_by_model_spec(
                    self.events@,
                    bucket,
                    string_views(local@),
                    opt_view_of(since),
                ),
                None => !groups_fit(
                    model_series_groups(self.events@, bucket, string_views(local@), opt_view_of(since)),
                ),
            },
    {
        let keys = self.bucket_model_key_list(bucket, local);
        assert(key_views(keys@).len() == keys@.len());
        let groups = self.group_events(&keys, since);
        if !all_fit(&groups) {
            return None;
        }
        let ghost gv = totals_views(groups@);
        proof {
            let ks = bucket_model_keys(self.events@, bucket, string_views(local@));
            assert forall|i: int| 0 <= i < ks.len() implies (#[trigger] ks[i]).len() == 2 by {}
            lemma_group_keys(self.events@, ks, opt_view_of(since), 2);
        }
        let mut items: Vec<(Vec<u32>, ModelBucket)> = Vec::new();
        let mut i: usize = 0;
        while i < groups.len()
            invariant
                i <= groups@.len(),
                gv == totals_views(groups@),
                groups_fit(gv),
                forall|j: int| 0 <= j < gv.len() ==> (#[trigger] gv[j]).key.len() == 2,
                viewed_keyed(items@) == model_bucket_entries(gv.take(i as int)),
            decreases groups.len() - i,
        {
            let t = &groups[i];
            assert(gv[i as int] == t@);
            let u = model_bucket_from(t);
            let k = key_of(t.key[0].as_str());
            let ghost before = viewed_keyed(items@);
            items.push((k, u));
            assert(viewed_keyed(items@) =~= before.push((k@, u@)));
            assert(gv.take(i + 1) =~= gv.take(i as int).push(gv[i as int]));
            assert(model_bucket_entries(gv.take(i + 1)) =~= model_bucket_entries(gv.take(i as int)).push(
                (code_points(gv[i as int].key[0]), model_bucket_of(gv[i as int])),
            ));
            i += 1;
        }
        assert(gv.take(gv.len() as int) == gv);
        Some(sort_asc_viewed(items))
    }
}

pub struct SessionBucketModel {
    pub bucket: Seq<char>,
    pub sessions: int,
}

impl View for SessionBucket {
    type V = SessionBucketModel;

    open spec fn view(&self) -> SessionBucketModel {
        SessionBucketModel { bucket: self.bucket@, sessions: self.sessions as int }
    }
}

pub open spec fn session_bucket_of(t: TotalsModel) -> SessionBucketModel {
    SessionBucketModel { bucket: t.key[0], sessions: t.sessions.len() as int }
}

pub open spec fn session_entries(g: Seq<TotalsModel>) -> Seq<(Seq<u32>, SessionBucketModel)> {
    g.map_values(|t: TotalsModel| (code_points(t.key[0]), session_bucket_of(t)))
}

/// Every distinct-session count fits in 64-bit integers.
pub open spec fn sessions_fit(g: Seq<TotalsModel>) -> bool {
    forall|i: int| 0 <= i < g.len() ==> fits_i64((#[trigger] g[i]).sessions.len() as int)
}

/// Distinct sessions per bucket, in bucket order.
pub open spec fn series_sessions_spec(
    events: Seq<EventRow>,
    b: Bucket,
    local: Seq<Seq<char>>,
    since: Option<Seq<char>>,
) -> Seq<SessionBucketModel> {
    sorted_payloads(session_entries(series_groups(events, b, local, since)))
}

fn sessions_fit_all(g: &Vec<Totals>) -> (r: bool)
    ensures
        r == sessions_fit(totals_views(g@)),
{
    let mut i: usize = 0;
    while i < g.len()
        invariant
            i <= g@.len(),
            forall|j: int| 0 <= j < i ==> fits_i64((#[trigger] totals_views(g@)[j]).sessions.len() as int),
        decreases g.len() - i,
    {
        if (g[i].sessions.len() as u64) > 0x7fff_ffff_ffff_ffffu64 {
            proof {
                assert(!fits_i64(totals_views(g@)[i as int].sessions.len() as int));
            }
            return false;
        }
        i += 1;
    }
    true
}

impl Store {
    /// Distinct sessions active per bucket within the range, in bucket
    /// order; `local` as for `series`. `None` when a count does not fit in
    /// 64-bit integers.
    pub fn series_sessions(&self, since: Option<&str>, bucket: Bucket, local: &Vec<String>) -> (r:
        Option<Vec<SessionBucket>>)
        requires
            local@.len() == self.events@.len(),
        ensures
            match r {
                Some(v) => sessions_fit(series_groups(self.events@, bucket, string_views(local@), opt_view_of(since)))
                    && all_views(v@) == series_sessions_spec(
                    self.events@,
                    bucket,
                    string_views(local@),
                    opt_view_of(since),
                ),
                None => !sessions_fit(series_groups(self.events@, bucket, string_views(local@), opt_view_of(since))),
            },
    {
        let keys = bucket_key_list(bucket, local);
        assert(key_views(keys@).len() == keys@.len());
        let groups = self.group_events(&keys, since);
        if !sessions_fit_all(&groups) {
            return None;
        }
        let ghost gv = totals_views(groups@);
        proof {
            lemma_group_keys(self.events@, bucket_keys(bucket, string_views(local@)), opt_view_of(since), 1);
        }
        let mut items: Vec<(Vec<u32>, SessionBucket)> = Vec::new();
        let mut i: usize = 0;
        while i < groups.len()
            invariant
                i <= groups@.len(),
                gv == totals_views(groups@),
                sessions_fit(gv),
                forall|j: int| 0 <= j < gv.len() ==> (#[trigger] gv[j]).key.len() == 1,
                viewed_keyed(items@) == session_entries(gv.take(i as int)),
            decreases groups.len() - i,
        {
            let t = &groups[i];
            assert(gv[i as int] == t@);
            assert(fits_i64(gv[i as int].sessions.len() as int));
            let u = SessionBucket { bucket: t.key[0].clone(), sessions: t.sessions.len() as i64 };
            let k = key_of(t.key[0].as_str());
            let ghost before = viewed_keyed(items@);
            items.push((k, u));
            assert(viewed_keyed(items@) =~= before.push((k@, u@)));
            assert(gv.take(i + 1) =~= gv.take(i as int).push(gv[i as int]));
            assert(session_entries(gv.take(i + 1)) =~= session_entries(gv.take(i as int)).push(
                (code_points(gv[i as int].key[0]), session_bucket_of(gv[i as int])),
            ));
            i += 1;
        }
        assert(gv.take(gv.len() as int) == gv);
        Some(sort_asc_viewed(items))
    }
}

// ---------------------------------------------------------------------------
// Overview
// ---------------------------------------------------------------------------

pub struct OverviewModel {
    pub sessions: int,
    pub turns: int,
    pub tokens_in: int,
    pub tokens_out: int,
    pub cache_read: int,
    pub cache_write: int,
    pub first_ts: Option<Seq<char>>,
    pub last_ts: Option<Seq<char>>,
    pub db_path: Option<Seq<char>>,
    pub cost: int,
}

impl View for Overview {
    type V = OverviewModel;

    open spec fn view(&self) -> OverviewModel {
        OverviewModel {
            sessions: self.sessions as int,
            turns: self.turns as int,
            tokens_in: self.tokens_in as int,
            tokens_out: self.tokens_out as int,
            cache_read: self.cache_read as int,
            cache_write: self.cache_write as int,
            first_ts: opt_string_view(self.first_ts),
            last_ts: opt_string_view(self.last_ts),
            db_path: opt_string_view(self.db_path),
            cost: self.cost as int,
        }
    }
}

/// All counted turns in one group (or none, when there are none).
pub open spec fn overview_groups(events: Seq<EventRow>, since: Option<Seq<char>>) -> Seq<TotalsModel> {
    event_groups(events, unit_keys(events.len()), since)
}

/// The sum of the per-model costs.
pub open spec fn cost_total(s: Seq<ModelUsageModel>) -> int
    decreases s.len(),
{
    if s.len() == 0 {
        0
    } else {
        cost_total(s.drop_last()) + s.last().cost
    }
}

pub open spec fn fits_i128(v: int) -> bool {
    i128::MIN <= v <= i128::MAX
}

/// Every running sum of the per-model costs fits in 128-bit integers.
pub open spec fn costs_fit(s: Seq<ModelUsageModel>) -> bool {
    forall|k: int| 0 <= k <= s.len() ==> fits_i128(#[trigger] cost_total(s.take(k)))
}

/// The overview can be computed: its totals and the per-model rollup fit.
pub open spec fn overview_ok(events: Seq<EventRow>, since: Option<Seq<char>>) -> bool {
    &&& groups_fit(overview_groups(events, since))
    &&& sessions_fit(overview_groups(events, since))
    &&& groups_fit(model_groups(events, since))
    &&& costs_fit(by_model_spec(events, since))
}

/// Totals over the range: turn count and token sums (0 when there are no
/// turns), first and last timestamp, distinct sessions, and the per-model
/// costs summed.
pub open spec fn overview_spec(events: Seq<EventRow>, since: Option<Seq<char>>) -> OverviewModel {
    let g = overview_groups(events, since);
    let cost = cost_total(by_model_spec(events, since));
    if g.len() == 0 {
        OverviewModel {
            sessions: 0,
            turns: 0,
            tokens_in: 0,
            tokens_out: 0,
            cache_read: 0,
            cache_write: 0,
            first_ts: None,
            last_ts: None,
            db_path: None,
            cost,
        }
    } else {
        let t = g[0];
        OverviewModel {
            sessions: t.sessions.len() as int,
            turns: t.turns,
            tokens_in: t.tokens_in,
            tokens_out: t.tokens_out,
            cache_read: t.cache_read,
            cache_write: t.cache_write,
            first_ts: Some(t.first_ts),
            last_ts: Some(t.last_ts),
            db_path: None,
            cost,
        }
    }
}

pub proof fn lemma_unit_groups(rows: Seq<EventRow>, n: nat, since: Option<Seq<char>>)
    requires
        n >= rows.len(),
    ensures
        event_groups(rows, unit_keys(n), since).len() <= 1,
    decreases rows.len(),
{
    if rows.len() > 0 {
        let keys = unit_keys(n);
        lemma_unit_groups(rows.drop_last(), n, since);
        lemma_group_keys(rows.drop_last(), keys, since, 0);
        let g = event_groups(rows.drop_last(), keys, since);
        if g.len() == 1 {
            assert(g[0].key =~= keys[rows.len() - 1]);
            lemma_group_index_first(g, keys[rows.len() - 1], 0);
        }
    }
}

fn sum_costs(v: &Vec<ModelUsage>) -> (r: Option<i128>)
    ensures
        match r {
            Some(c) => costs_fit(all_views(v@)) && c == cost_total(all_views(v@)),
            None => !costs_fit(all_views(v@)),
        },
{
    let ghost s = all_views(v@);
    let mut acc: i128 = 0;
    let mut i: usize = 0;
    assert(s.take(0) =~= Seq::<ModelUsageModel>::empty());
    while i < v.len()
        invariant
            i <= v@.len(),
            s == all_views(v@),
            acc == cost_total(s.take(i as int)),
            forall|k: int| 0 <= k <= i ==> fits_i128(#[trigger] cost_total(s.take(k))),
        decreases v.len() - i,
    {
        assert(s.take(i + 1).drop_last() =~= s.take(i as int));
        assert(s.take(i + 1).last() == s[i as int]);
        match acc.checked_add(v[i].cost) {
            Some(a) => {
                acc = a;
            },
            None => {
                proof {
                    assert(s[i as int].cost == v@[i as int].cost);
                    assert(!fits_i128(cost_total(s.take(i + 1))));
                }
                return None;
            },
        }
        i += 1;
    }
    assert(s.take(s.len() as int) == s);
    Some(acc)
}

impl Store {
    /// Totals over the range (turns from `since` on, or all time): turns,
    /// token sums, first and last timestamp, and the sessions active in
    /// the range (distinct among its turns). The cost sums the per-model
    /// rollup, each model priced at its own rates. `None` when a total
    /// overflows.
    pub fn overview(&self, since: Option<&str>) -> (r: Option<Overview>)
        ensures
            match r {
                Some(o) => overview_ok(self.events@, opt_view_of(since)) && o@ == overview_spec(
                    self.events@,
                    opt_view_of(since),
                ),
                None => !overview_ok(self.events@, opt_view_of(since)),
            },
    {
        let keys = unit_key_list(self.events.len());
        assert(key_views(keys@).len() == keys@.len());
        let groups = self.group_events(&keys, since);
        proof {
            lemma_unit_groups(self.events@, self.events@.len(), opt_view_of(since));
            lemma_group_keys(self.events@, unit_keys(self.events@.len()), opt_view_of(since), 0);
        }
        if !all_fit(&groups) || !sessions_fit_all(&groups) {
            return None;
        }
        let models = match self.by_model(since) {
            Some(m) => m,
            None => {
                return None;
            },
        };
        let cost = match sum_costs(&models) {
            Some(c) => c,
            None => {
                return None;
            },
        };
        if groups.len() == 0 {
            return Some(
                Overview {
                    sessions: 0,
                    turns: 0,
                    tokens_in: 0,
                    tokens_out: 0,
                    cache_read: 0,
                    cache_write: 0,
                    first_ts: None,
                    last_ts: None,
                    db_path: None,
                    cost,
                },
            );
        }
        let t = &groups[0];
        assert(totals_views(groups@)[0] == t@);
        Some(
            Overview {
                sessions: t.sessions.len() as i64,
                turns: t.turns as i64,
                tokens_in: t.tokens_in,
                tokens_out: t.tokens_out,
                cache_read: t.cache_read,
                cache_write: t.cache_write,
                first_ts: Some(t.first_ts.clone()),
                last_ts: Some(t.last_ts.clone()),
                db_path: None,
                cost,
            },
        )
    }
}

} // verus!
