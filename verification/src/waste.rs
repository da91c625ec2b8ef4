//! Tool-call waste rollups: the largest results, files read again within a
//! session, and the headline numbers.

use vstd::prelude::*;

use crate::text::str_eq;
use crate::sort::{
    all_views, desc_key, limited, sort_desc_viewed, sorted_payloads, truncate_to, viewed_desc,
};
use crate::store::{
    in_range, fits_i64, opt_view_of, since_key, ts_in_range, BigResult, DupRead, Store,
    ToolCallRow, WasteSummary,
};
use crate::sort::code_points;
use crate::collectors::claude_code::opt_string_view;

verus! {

pub struct BigResultModel {
    pub tool: Seq<char>,
    pub target: Option<Seq<char>>,
    pub chars: int,
    pub ts: Seq<char>,
}

impl View for BigResult {
    type V = BigResultModel;

    open spec fn view(&self) -> BigResultModel {
        BigResultModel {
            tool: self.tool@,
            target: opt_string_view(self.target),
            chars: self.chars as int,
            ts: self.ts@,
        }
    }
}

/// The tool calls within the range whose result size is known, keyed
/// largest first.
pub open spec fn big_entries(rows: Seq<ToolCallRow>, since: Option<Seq<char>>) -> Seq<(Seq<u32>, BigResultModel)>
    decreases rows.len(),
{
    if rows.len() == 0 {
        seq![]
    } else {
        let rest = big_entries(rows.drop_last(), since);
        let r = rows.last();
        match r.result_chars {
            Some(c) => if in_range(r.ts@, since) {
                rest.push(
                    (
                        desc_key(c),
                        BigResultModel {
                            tool: r.tool@,
                            target: opt_string_view(r.target),
                            chars: c as int,
                            ts: r.ts@,
                        },
                    ),
                )
            } else {
                rest
            },
            None => rest,
        }
    }
}

/// The largest single results, largest first, at most `limit` of them (a
/// negative limit means no limit).
pub open spec fn largest_spec(rows: Seq<ToolCallRow>, since: Option<Seq<char>>, limit: i64) -> Seq<
    BigResultModel,
> {
    limited(sorted_payloads(big_entries(rows, since)), limit)
}

proof fn lemma_limited_views<T: View>(s: Seq<T>, limit: i64)
    ensures
        all_views(limited(s, limit)) == limited(all_views(s), limit),
{
    if !(limit < 0 || s.len() <= limit) {
        assert(all_views(s.take(limit as int)) =~= all_views(s).take(limit as int));
    }
}

fn clone_opt(o: &Option<String>) -> (r: Option<String>)
    ensures
        opt_string_view(r) == opt_string_view(*o),
{
    match o {
        Some(s) => Some(s.clone()),
        None => None,
    }
}

impl Store {
    /// The largest single tool results within the range, largest first,
    /// at most `limit` of them (a negative limit means no limit).
    pub fn largest_results(&self, since: Option<&str>, limit: i64) -> (r: Vec<BigResult>)
        ensures
            all_views(r@) == largest_spec(self.tool_calls@, opt_view_of(since), limit),
    {
        let ghost sv = opt_view_of(since);
        let key = since_key(since);
        let rows = &self.tool_calls;
        let mut items: Vec<(i64, BigResult)> = Vec::new();
        let mut i: usize = 0;
        while i < rows.len()
            invariant
                i <= rows@.len(),
                rows@ == self.tool_calls@,
                sv == opt_view_of(since),
                viewed_desc(items@) == big_entries(rows@.take(i as int), sv),
                match key {
                    Some(k) => sv matches Some(t) && k@ == code_points(t),
                    None => sv is None,
                },
            decreases rows.len() - i,
        {
            assert(rows@.take(i + 1).drop_last() == rows@.take(i as int));
            assert(rows@.take(i + 1).last() == rows@[i as int]);
            let row = &rows[i];
            match row.result_chars {
                Some(c) => {
                    if ts_in_range(row.ts.as_str(), &key) {
                        let b = BigResult {
                            tool: row.tool.clone(),
                            target: clone_opt(&row.target),
                            chars: c,
                            ts: row.ts.clone(),
                        };
                        let ghost before = viewed_desc(items@);
                        items.push((c, b));
                        assert(viewed_desc(items@) =~= before.push((desc_key(c), b@)));
                    }
                },
                None => {},
            }
            i += 1;
        }
        assert(rows@.take(rows@.len() as int) == rows@);
        let sorted = sort_desc_viewed(items);
        proof {
            lemma_limited_views(sorted@, limit);
        }
        truncate_to(sorted, limit)
    }
}

// ---------------------------------------------------------------------------
// Files read again within a session
// ---------------------------------------------------------------------------

/// The reads of one file within one session: how many, and their total
/// result size.
#[derive(Debug)]
pub struct ReadGroup {
    pub session_id: String,
    pub target: String,
    pub reads: usize,
    pub chars: i128,
}

pub struct ReadGroupModel {
    pub session_id: Seq<char>,
    pub target: Seq<char>,
    pub reads: int,
    pub chars: int,
}

impl View for ReadGroup {
    type V = ReadGroupModel;

    open spec fn view(&self) -> ReadGroupModel {
        ReadGroupModel {
            session_id: self.session_id@,
            target: self.target@,
            reads: self.reads as int,
            chars: self.chars as int,
        }
    }
}

/// A file read within the range.
pub open spec fn is_read(r: ToolCallRow, since: Option<Seq<char>>) -> bool {
    r.tool@ == "Read"@ && r.target is Some && in_range(r.ts@, since)
}

pub open spec fn target_of(r: ToolCallRow) -> Seq<char> {
    match r.target {
        Some(t) => t@,
        None => Seq::empty(),
    }
}

pub open spec fn read_index(g: Seq<ReadGroupModel>, session: Seq<char>, target: Seq<char>) -> Option<int>
    decreases g.len(),
{
    if g.len() == 0 {
        None
    } else {
        match read_index(g.drop_last(), session, target) {
            Some(i) => Some(i),
            None => if g.last().session_id == session && g.last().target == target {
                Some(g.len() - 1)
            } else {
                None
            },
        }
    }
}

pub open spec fn add_read(g: Seq<ReadGroupModel>, r: ToolCallRow) -> Seq<ReadGroupModel> {
    match read_index(g, r.session_id@, target_of(r)) {
        Some(i) => g.update(
            i,
            ReadGroupModel {
                session_id: g[i].session_id,
                target: g[i].target,
                reads: g[i].reads + 1,
                chars: g[i].chars + crate::store::row_chars(r),
            },
        ),
        None => g.push(
            ReadGroupModel {
                session_id: r.session_id@,
                target: target_of(r),
                reads: 1,
                chars: crate::store::row_chars(r),
            },
        ),
    }
}

/// The reads within the range grouped by (session, file), in order of
/// first appearance.
pub open spec fn all_read_groups(rows: Seq<ToolCallRow>, since: Option<Seq<char>>) -> Seq<ReadGroupModel>
    decreases rows.len(),
{
    if rows.len() == 0 {
        seq![]
    } else {
        let g = all_read_groups(rows.drop_last(), since);
        if is_read(rows.last(), since) {
            add_read(g, rows.last())
        } else {
            g
        }
    }
}

/// The groups of more than one read.
pub open spec fn repeated(g: Seq<ReadGroupModel>) -> Seq<ReadGroupModel>
    decreases g.len(),
{
    if g.len() == 0 {
        seq![]
    } else if g.last().reads > 1 {
        repeated(g.drop_last()).push(g.last())
    } else {
        repeated(g.drop_last())
    }
}

proof fn lemma_read_index_bound(g: Seq<ReadGroupModel>, s: Seq<char>, t: Seq<char>)
    ensures
        read_index(g, s, t) matches Some(i) ==> 0 <= i < g.len() && g[i].session_id == s && g[i].target == t,
    decreases g.len(),
{
    if g.len() > 0 {
        lemma_read_index_bound(g.drop_last(), s, t);
    }
}

proof fn lemma_read_index_none(g: Seq<ReadGroupModel>, s: Seq<char>, t: Seq<char>)
    requires
        forall|j: int| 0 <= j < g.len() ==> !(g[j].session_id == s && g[j].target == t),
    ensures
        read_index(g, s, t) is None,
    decreases g.len(),
{
    if g.len() > 0 {
        lemma_read_index_none(g.drop_last(), s, t);
    }
}

proof fn lemma_read_index_first(g: Seq<ReadGroupModel>, s: Seq<char>, t: Seq<char>, i: int)
    requires
        0 <= i < g.len(),
        g[i].session_id == s && g[i].target == t,
        forall|j: int| 0 <= j < i ==> !(g[j].session_id == s && g[j].target == t),
    ensures
        read_index(g, s, t) == Some(i),
    decreases g.len(),
{
    if i < g.len() - 1 {
        lemma_read_index_first(g.drop_last(), s, t, i);
    } else {
        lemma_read_index_none(g.drop_last(), s, t);
    }
}

fn find_read(g: &Vec<ReadGroup>, session: &str, target: &str) -> (r: Option<usize>)
    ensures
        match r {
            Some(i) => read_index(all_views(g@), session@, target@) == Some(i as int),
            None => read_index(all_views(g@), session@, target@) is None,
        },
{
    let ghost gv = all_views(g@);
    let mut i: usize = 0;
    while i < g.len()
        invariant
            i <= g@.len(),
            gv == all_views(g@),
            forall|j: int| 0 <= j < i ==> !(gv[j].session_id == session@ && gv[j].target == target@),
        decreases g.len() - i,
    {
        if str_eq(g[i].session_id.as_str(), session) && str_eq(g[i].target.as_str(), target) {
            proof {
                lemma_read_index_first(gv, session@, target@, i as int);
            }
            return Some(i);
        }
        i += 1;
    }
    proof {
        lemma_read_index_none(gv, session@, target@);
    }
    None
}

fn keep_repeated(groups: Vec<ReadGroup>) -> (r: Vec<ReadGroup>)
    ensures
        all_views(r@) == repeated(all_views(groups@)),
{
    let ghost gv = all_views(groups@);
    let mut out: Vec<ReadGroup> = Vec::new();
    let n = groups.len();
    let mut rest = crate::sort::reversed(groups);
    let ghost all = rest@.reverse();
    let mut k: usize = 0;
    assert(all.take(0) =~= Seq::<ReadGroup>::empty());
    assert(all_views(all.take(0)) =~= Seq::<ReadGroupModel>::empty());
    while rest.len() > 0
        invariant
            k + rest@.len() == all.len(),
            n == all.len(),
            gv == all_views(all),
            rest@.reverse() == all.skip(k as int),
            all_views(out@) == repeated(all_views(all.take(k as int))),
        decreases rest.len(),
    {
        let ghost bv = rest@;
        let e = rest.pop().unwrap();
        assert(bv.reverse()[0] == bv.last());
        assert(all.skip(k as int)[0] == all[k as int]);
        assert(rest@.reverse() == all.skip(k + 1)) by {
            assert(bv.reverse().drop_first() == bv.drop_last().reverse());
            assert(all.skip(k as int).drop_first() == all.skip(k + 1));
        }
        assert(all_views(all.take(k + 1)).drop_last() =~= all_views(all.take(k as int)));
        assert(all_views(all.take(k + 1)).last() == e@);
        if e.reads > 1 {
            let ghost before = all_views(out@);
            out.push(e);
            assert(all_views(out@) =~= before.push(e@));
        }
        k += 1;
    }
    assert(all.take(all.len() as int) == all);
    out
}

impl Store {
    /// Files read more than once within a session, within the range: per
    /// (session, file) the number of reads and their total result size
    /// (an unknown size counts as 0), in order of first read.
    pub fn read_groups(&self, since: Option<&str>) -> (r: Vec<ReadGroup>)
        ensures
            all_views(r@) == repeated(all_read_groups(self.tool_calls@, opt_view_of(since))),
    {
        let ghost sv = opt_view_of(since);
        let key = since_key(since);
        let rows = &self.tool_calls;
        let mut groups: Vec<ReadGroup> = Vec::new();
        let mut i: usize = 0;
        while i < rows.len()
            invariant
                i <= rows@.len(),
                rows@ == self.tool_calls@,
                sv == opt_view_of(since),
                all_views(groups@) == all_read_groups(rows@.take(i as int), sv),
                forall|j: int|
                    0 <= j < groups@.len() ==> {
                        let g = #[trigger] groups@[j];
                        &&& g.reads <= i
                        &&& -(g.reads * 0x8000_0000_0000_0000) <= g.chars <= g.reads * 0x8000_0000_0000_0000
                    },
                match key {
                    Some(k) => sv matches Some(t) && k@ == code_points(t),
                    None => sv is None,
                },
            decreases rows.len() - i,
        {
            assert(rows@.take(i + 1).drop_last() == rows@.take(i as int));
            assert(rows@.take(i + 1).last() == rows@[i as int]);
            let row = &rows[i];
            let ghost gv = all_views(groups@);
            if str_eq(row.tool.as_str(), "Read") && ts_in_range(row.ts.as_str(), &key) {
                match &row.target {
                    Some(target) => {
                        let c: i64 = match row.result_chars {
                            Some(c) => c,
                            None => 0,
                        };
                        match find_read(&groups, row.session_id.as_str(), target.as_str()) {
                            Some(j) => {
                                proof {
                                    lemma_read_index_bound(gv, row.session_id@, target@);
                                }
                                let mut g = groups.remove(j);
                                assert(g.reads <= i);
                                g.reads = g.reads + 1;
                                g.chars = g.chars + c as i128;
                                groups.insert(j, g);
                                assert(all_views(groups@) =~= add_read(gv, rows@[i as int]));
                            },
                            None => {
                                let g = ReadGroup {
                                    session_id: row.session_id.clone(),
                                    target: target.clone(),
                                    reads: 1,
                                    chars: c as i128,
                                };
                                groups.push(g);
                                assert(all_views(groups@) =~= add_read(gv, rows@[i as int]));
                            },
                        }
                    },
                    None => {},
                }
            }
            i += 1;
        }
        assert(rows@.take(rows@.len() as int) == rows@);
        keep_repeated(groups)
    }
}

/// A file's repeated reads across sessions: reads, reads beyond the first
/// in each session, sessions, and the (reads, result size) of each
/// session's group, from which the wasted volume is estimated.
#[derive(Debug)]
pub struct DupTotals {
    pub target: String,
    pub reads: i64,
    pub extra: i64,
    pub sessions: i64,
    pub overflow: bool,
    pub parts: Vec<(usize, i128)>,
}

pub struct DupTotalsModel {
    pub target: Seq<char>,
    pub reads: int,
    pub extra: int,
    pub sessions: int,
    pub overflow: bool,
    pub parts: Seq<(int, int)>,
}

pub open spec fn parts_view(p: Seq<(usize, i128)>) -> Seq<(int, int)> {
    p.map_values(|x: (usize, i128)| (x.0 as int, x.1 as int))
}

impl View for DupTotals {
    type V = DupTotalsModel;

    open spec fn view(&self) -> DupTotalsModel {
        DupTotalsModel {
            target: self.target@,
            reads: self.reads as int,
            extra: self.extra as int,
            sessions: self.sessions as int,
            overflow: self.overflow,
            parts: parts_view(self.parts@),
        }
    }
}

pub open spec fn dup_index(d: Seq<DupTotalsModel>, target: Seq<char>) -> Option<int>
    decreases d.len(),
{
    if d.len() == 0 {
        None
    } else {
        match dup_index(d.drop_last(), target) {
            Some(i) => Some(i),
            None => if d.last().target == target {
                Some(d.len() - 1)
            } else {
                None
            },
        }
    }
}

/// One more session's group of reads of the file. The sums stop at the
/// first addition that would leave 64-bit integers (SQL `SUM` fails
/// there), and `overflow` says so.
pub open spec fn add_dup(d: Seq<DupTotalsModel>, g: ReadGroupModel) -> Seq<DupTotalsModel> {
    match dup_index(d, g.target) {
        Some(i) => {
            let t = d[i];
            let ok = !t.overflow && fits_i64(g.reads) && fits_i64(t.reads + g.reads) && fits_i64(t.extra + g.reads - 1)
                && fits_i64(t.sessions + 1);
            d.update(
                i,
                DupTotalsModel {
                    target: t.target,
                    reads: if ok { t.reads + g.reads } else { t.reads },
                    extra: if ok { t.extra + g.reads - 1 } else { t.extra },
                    sessions: if ok { t.sessions + 1 } else { t.sessions },
                    overflow: !ok,
                    parts: t.parts.push((g.reads, g.chars)),
                },
            )
        },
        None => d.push(
            DupTotalsModel {
                target: g.target,
                reads: if fits_i64(g.reads) { g.reads } else { 0 },
                extra: if fits_i64(g.reads) { g.reads - 1 } else { 0 },
                sessions: 1,
                overflow: !fits_i64(g.reads),
                parts: seq![(g.reads, g.chars)],
            },
        ),
    }
}

/// The groups aggregated per file, files in order of first appearance.
pub open spec fn dup_groups(g: Seq<ReadGroupModel>) -> Seq<DupTotalsModel>
    decreases g.len(),
{
    if g.len() == 0 {
        seq![]
    } else {
        add_dup(dup_groups(g.drop_last()), g.last())
    }
}

pub open spec fn dups_fit(d: Seq<DupTotalsModel>) -> bool {
    forall|i: int| 0 <= i < d.len() ==> !(#[trigger] d[i]).overflow
}

proof fn lemma_dup_index_bound(d: Seq<DupTotalsModel>, t: Seq<char>)
    ensures
        dup_index(d, t) matches Some(i) ==> 0 <= i < d.len() && d[i].target == t,
    decreases d.len(),
{
    if d.len() > 0 {
        lemma_dup_index_bound(d.drop_last(), t);
    }
}

proof fn lemma_dup_index_none(d: Seq<DupTotalsModel>, t: Seq<char>)
    requires
        forall|j: int| 0 <= j < d.len() ==> d[j].target != t,
    ensures
        dup_index(d, t) is None,
    decreases d.len(),
{
    if d.len() > 0 {
        lemma_dup_index_none(d.drop_last(), t);
    }
}

proof fn lemma_dup_index_first(d: Seq<DupTotalsModel>, t: Seq<char>, i: int)
    requires
        0 <= i < d.len(),
        d[i].target == t,
        forall|j: int| 0 <= j < i ==> d[j].target != t,
    ensures
        dup_index(d, t) == Some(i),
    decreases d.len(),
{
    if i < d.len() - 1 {
        lemma_dup_index_first(d.drop_last(), t, i);
    } else {
        lemma_dup_index_none(d.drop_last(), t);
    }
}

fn find_dup(d: &Vec<DupTotals>, target: &str) -> (r: Option<usize>)
    ensures
        match r {
            Some(i) => dup_index(all_views(d@), target@) == Some(i as int),
            None => dup_index(all_views(d@), target@) is None,
        },
{
    let ghost dv = all_views(d@);
    let mut i: usize = 0;
    while i < d.len()
        invariant
            i <= d@.len(),
            dv == all_views(d@),
            forall|j: int| 0 <= j < i ==> dv[j].target != target@,
        decreases d.len() - i,
    {
        if str_eq(d[i].target.as_str(), target) {
            proof {
                lemma_dup_index_first(dv, target@, i as int);
            }
            return Some(i);
        }
        i += 1;
    }
    proof {
        lemma_dup_index_none(dv, target@);
    }
    None
}

fn add_group(t: &mut DupTotals, g: &ReadGroup)
    ensures
        ({
            let o = old(t)@;
            let ok = !o.overflow && fits_i64(g@.reads) && fits_i64(o.reads + g@.reads) && fits_i64(o.extra + g@.reads - 1)
                && fits_i64(o.sessions + 1);
            final(t)@ == DupTotalsModel {
                target: o.target,
                reads: if ok { o.reads + g@.reads } else { o.reads },
                extra: if ok { o.extra + g@.reads - 1 } else { o.extra },
                sessions: if ok { o.sessions + 1 } else { o.sessions },
                overflow: !ok,
                parts: o.parts.push((g@.reads, g@.chars)),
            }
        }),
{
    let ghost before = parts_view(t.parts@);
    t.parts.push((g.reads, g.chars));
    assert(parts_view(t.parts@) =~= before.push((g.reads as int, g.chars as int)));
    if !t.overflow && (g.reads as u64) <= 0x7fff_ffff_ffff_ffffu64 {
        let n = g.reads as i64;
        let a = t.reads.checked_add(n);
        let b = t.extra.checked_add(n - 1);
        let c = t.sessions.checked_add(1);
        match (a, b, c) {
            (Some(a), Some(b), Some(c)) => {
                t.reads = a;
                t.extra = b;
                t.sessions = c;
            },
            _ => {
                t.overflow = true;
            },
        }
    } else {
        t.overflow = true;
    }
}

fn start_dup(g: &ReadGroup) -> (t: DupTotals)
    ensures
        t@ == (DupTotalsModel {
            target: g@.target,
            reads: if fits_i64(g@.reads) { g@.reads } else { 0 },
            extra: if fits_i64(g@.reads) { g@.reads - 1 } else { 0 },
            sessions: 1,
            overflow: !fits_i64(g@.reads),
            parts: seq![(g@.reads, g@.chars)],
        }),
{
    let mut parts: Vec<(usize, i128)> = Vec::new();
    parts.push((g.reads, g.chars));
    assert(parts_view(parts@) =~= seq![(g.reads as int, g.chars as int)]);
    if (g.reads as u64) <= 0x7fff_ffff_ffff_ffffu64 {
        let n = g.reads as i64;
        DupTotals { target: g.target.clone(), reads: n, extra: n - 1, sessions: 1, overflow: false, parts }
    } else {
        DupTotals { target: g.target.clone(), reads: 0, extra: 0, sessions: 1, overflow: true, parts }
    }
}

/// Repeated reads aggregated per file, files in order of first
/// appearance; `None` when a sum overflows.
pub fn dup_totals(groups: &Vec<ReadGroup>) -> (r: Option<Vec<DupTotals>>)
    ensures
        match r {
            Some(v) => dups_fit(dup_groups(all_views(groups@))) && all_views(v@) == dup_groups(all_views(groups@)),
            None => !dups_fit(dup_groups(all_views(groups@))),
        },
{
    let ghost gs = all_views(groups@);
    let mut d: Vec<DupTotals> = Vec::new();
    let mut i: usize = 0;
    while i < groups.len()
        invariant
            i <= groups@.len(),
            gs == all_views(groups@),
            all_views(d@) == dup_groups(gs.take(i as int)),
        decreases groups.len() - i,
    {
        assert(gs.take(i + 1).drop_last() =~= gs.take(i as int));
        assert(gs.take(i + 1).last() == groups@[i as int]@);
        let g = &groups[i];
        let ghost dv = all_views(d@);
        match find_dup(&d, g.target.as_str()) {
            Some(j) => {
                proof {
                    lemma_dup_index_bound(dv, g.target@);
                }
                let mut t = d.remove(j);
                add_group(&mut t, g);
                d.insert(j, t);
                assert(all_views(d@) =~= add_dup(dv, g@));
            },
            None => {
                let t = start_dup(g);
                d.push(t);
                assert(all_views(d@) =~= add_dup(dv, g@));
            },
        }
        i += 1;
    }
    assert(gs.take(gs.len() as int) == gs);
    let mut k: usize = 0;
    while k < d.len()
        invariant
            k <= d@.len(),
            all_views(d@) == dup_groups(gs),
            gs == all_views(groups@),
            forall|j: int| 0 <= j < k ==> !(#[trigger] all_views(d@)[j]).overflow,
        decreases d.len() - k,
    {
        if d[k].overflow {
            proof {
                assert(all_views(d@)[k as int].overflow);
            }
            return None;
        }
        k += 1;
    }
    Some(d)
}

pub struct DupReadModel {
    pub target: Seq<char>,
    pub reads: int,
    pub extra: int,
    pub wasted_chars: int,
    pub sessions: int,
}

impl View for DupRead {
    type V = DupReadModel;

    open spec fn view(&self) -> DupReadModel {
        DupReadModel {
            target: self.target@,
            reads: self.reads as int,
            extra: self.extra as int,
            wasted_chars: self.wasted_chars as int,
            sessions: self.sessions as int,
        }
    }
}

/// Each file's totals with its wasted-volume estimate, keyed largest
/// waste first.
pub open spec fn dup_entries(d: Seq<DupTotalsModel>, wasted: Seq<i64>) -> Seq<(Seq<u32>, DupReadModel)> {
    Seq::new(
        d.len(),
        |i: int|
            (
                desc_key(wasted[i]),
                DupReadModel {
                    target: d[i].target,
                    reads: d[i].reads,
                    extra: d[i].extra,
                    wasted_chars: wasted[i] as int,
                    sessions: d[i].sessions,
                },
            ),
    )
}

/// The files ranked by wasted volume, largest first (`wasted[i]` is the
/// estimate of `totals[i]`), at most `limit` of them (a negative limit
/// means no limit).
pub fn rank_dup_reads(totals: &Vec<DupTotals>, wasted: &Vec<i64>, limit: i64) -> (r: Vec<DupRead>)
    requires
        wasted@.len() == totals@.len(),
    ensures
        all_views(r@) == limited(sorted_payloads(dup_entries(all_views(totals@), wasted@)), limit),
{
    let ghost target = dup_entries(all_views(totals@), wasted@);
    let mut items: Vec<(i64, DupRead)> = Vec::new();
    let mut i: usize = 0;
    while i < totals.len()
        invariant
            i <= totals@.len(),
            wasted@.len() == totals@.len(),
            target == dup_entries(all_views(totals@), wasted@),
            viewed_desc(items@) == target.take(i as int),
        decreases totals.len() - i,
    {
        let t = &totals[i];
        let d = DupRead {
            target: t.target.clone(),
            reads: t.reads,
            extra: t.extra,
            wasted_chars: wasted[i],
            sessions: t.sessions,
        };
        let ghost before = viewed_desc(items@);
        items.push((wasted[i], d));
        assert(viewed_desc(items@) =~= before.push((desc_key(wasted@[i as int]), d@)));
        assert(target.take(i + 1) =~= target.take(i as int).push(target[i as int]));
        i += 1;
    }
    assert(target.take(target.len() as int) == target);
    let sorted = sort_desc_viewed(items);
    proof {
        lemma_limited_views(sorted@, limit);
    }
    truncate_to(sorted, limit)
}

// ---------------------------------------------------------------------------
// Headline numbers
// ---------------------------------------------------------------------------

pub struct WasteSummaryModel {
    pub tool_calls: int,
    pub extra_reads: int,
    pub wasted_chars: int,
    pub biggest_chars: int,
}

impl View for WasteSummary {
    type V = WasteSummaryModel;

    open spec fn view(&self) -> WasteSummaryModel {
        WasteSummaryModel {
            tool_calls: self.tool_calls as int,
            extra_reads: self.extra_reads as int,
            wasted_chars: self.wasted_chars as int,
            biggest_chars: self.biggest_chars as int,
        }
    }
}

/// The number of tool calls within the range.
pub open spec fn calls_in_range(rows: Seq<ToolCallRow>, since: Option<Seq<char>>) -> int
    decreases rows.len(),
{
    if rows.len() == 0 {
        0
    } else {
        calls_in_range(rows.drop_last(), since) + if in_range(rows.last().ts@, since) {
            1int
        } else {
            0int
        }
    }
}

/// The largest known result size within the range.
pub open spec fn biggest(rows: Seq<ToolCallRow>, since: Option<Seq<char>>) -> Option<int>
    decreases rows.len(),
{
    if rows.len() == 0 {
        None
    } else {
        let rest = biggest(rows.drop_last(), since);
        let r = rows.last();
        match r.result_chars {
            Some(c) => if in_range(r.ts@, since) {
                match rest {
                    Some(b) => Some(if c > b { c as int } else { b }),
                    None => Some(c as int),
                }
            } else {
                rest
            },
            None => rest,
        }
    }
}

/// Reads beyond the first, summed over the groups.
pub open spec fn extra_total(g: Seq<ReadGroupModel>) -> int
    decreases g.len(),
{
    if g.len() == 0 {
        0
    } else {
        extra_total(g.drop_last()) + g.last().reads - 1
    }
}

/// Every running sum of the extra reads fits in 64-bit integers.
pub open spec fn extras_fit(g: Seq<ReadGroupModel>) -> bool {
    forall|k: int| 0 <= k <= g.len() ==> fits_i64(#[trigger] extra_total(g.take(k)))
}

/// The headline numbers can be computed: the count and the sum fit.
pub open spec fn waste_ok(rows: Seq<ToolCallRow>, since: Option<Seq<char>>) -> bool {
    fits_i64(calls_in_range(rows, since)) && extras_fit(repeated(all_read_groups(rows, since)))
}

/// Tool calls in the range, reads repeated within a session, the given
/// wasted-volume estimate, and the largest result (0 when none is known).
pub open spec fn waste_spec(rows: Seq<ToolCallRow>, since: Option<Seq<char>>, wasted: i64) -> WasteSummaryModel {
    WasteSummaryModel {
        tool_calls: calls_in_range(rows, since),
        extra_reads: extra_total(repeated(all_read_groups(rows, since))),
        wasted_chars: wasted as int,
        biggest_chars: match biggest(rows, since) {
            Some(b) => b,
            None => 0,
        },
    }
}

fn sum_extra(g: &Vec<ReadGroup>) -> (r: Option<i64>)
    ensures
        match r {
            Some(e) => extras_fit(all_views(g@)) && e == extra_total(all_views(g@)),
            None => !extras_fit(all_views(g@)),
        },
{
    let ghost s = all_views(g@);
    let mut acc: i64 = 0;
    let mut i: usize = 0;
    assert(s.take(0) =~= Seq::<ReadGroupModel>::empty());
    while i < g.len()
        invariant
            i <= g@.len(),
            s == all_views(g@),
            acc == extra_total(s.take(i as int)),
            forall|k: int| 0 <= k <= i ==> fits_i64(#[trigger] extra_total(s.take(k))),
        decreases g.len() - i,
    {
        assert(s.take(i + 1).drop_last() =~= s.take(i as int));
        assert(s.take(i + 1).last() == s[i as int]);
        let t: i128 = acc as i128 + g[i].reads as i128 - 1;
        if t < -0x8000_0000_0000_0000i128 || t > 0x7fff_ffff_ffff_ffffi128 {
            proof {
                assert(!fits_i64(extra_total(s.take(i + 1))));
            }
            return None;
        }
        acc = t as i64;
        i += 1;
    }
    assert(s.take(s.len() as int) == s);
    Some(acc)
}

impl Store {
    /// Headline waste numbers within the range: tool calls, reads repeated
    /// within a session (beyond the first), the given wasted-volume
    /// estimate, and the largest known result (0 when none). `None` when
    /// a count or sum overflows.
    pub fn waste_summary(&self, since: Option<&str>, wasted_chars: i64) -> (r: Option<WasteSummary>)
        ensures
            match r {
                Some(w) => waste_ok(self.tool_calls@, opt_view_of(since)) && w@ == waste_spec(
                    self.tool_calls@,
                    opt_view_of(since),
                    wasted_chars,
                ),
                None => !waste_ok(self.tool_calls@, opt_view_of(since)),
            },
    {
        let ghost sv = opt_view_of(since);
        let key = since_key(since);
        let rows = &self.tool_calls;
        let mut calls: usize = 0;
        let mut big: Option<i64> = None;
        let mut i: usize = 0;
        while i < rows.len()
            invariant
                i <= rows@.len(),
                rows@ == self.tool_calls@,
                sv == opt_view_of(since),
                calls <= i,
                calls as int == calls_in_range(rows@.take(i as int), sv),
                match big {
                    Some(b) => biggest(rows@.take(i as int), sv) == Some(b as int),
                    None => biggest(rows@.take(i as int), sv) is None,
                },
                match key {
                    Some(k) => sv matches Some(t) && k@ == code_points(t),
                    None => sv is None,
                },
            decreases rows.len() - i,
        {
            assert(rows@.take(i + 1).drop_last() == rows@.take(i as int));
            assert(rows@.take(i + 1).last() == rows@[i as int]);
            let row = &rows[i];
            if ts_in_range(row.ts.as_str(), &key) {
                calls = calls + 1;
                match row.result_chars {
                    Some(c) => {
                        big = match big {
                            Some(b) => Some(if c > b { c } else { b }),
                            None => Some(c),
                        };
                    },
                    None => {},
                }
            }
            i += 1;
        }
        assert(rows@.take(rows@.len() as int) == rows@);
        if (calls as u64) > 0x7fff_ffff_ffff_ffffu64 {
            return None;
        }
        let groups = self.read_groups(since);
        let extra = match sum_extra(&groups) {
            Some(e) => e,
            None => {
                return None;
            },
        };
        Some(
            WasteSummary {
                tool_calls: calls as i64,
                extra_reads: extra,
                wasted_chars,
                biggest_chars: match big {
                    Some(b) => b,
                    None => 0,
                },
            },
        )
    }
}

} // verus!
