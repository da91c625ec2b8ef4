//! Stable sorting by lexicographic integer keys.
//!
//! The library's orderings are stable sorts (like `sort_by_key`); every key
//! is a tuple of a small integer and a string, a string, or an integer, and
//! compares like a sequence of `u32` parts: a string by its code points
//! (UTF-8 byte order is code point order), an integer by a two-part key.
//! Items are paired with such keys and sorted here.

use vstd::prelude::*;

verus! {

/// Strict lexicographic order on key sequences (a proper prefix is
/// smaller).
pub open spec fn lex_lt(a: Seq<u32>, b: Seq<u32>) -> bool
    decreases a.len(),
{
    if a.len() == 0 {
        b.len() > 0
    } else if b.len() == 0 {
        false
    } else if a[0] < b[0] {
        true
    } else if a[0] > b[0] {
        false
    } else {
        lex_lt(a.drop_first(), b.drop_first())
    }
}

pub fn lex_less(a: &Vec<u32>, b: &Vec<u32>) -> (r: bool)
    ensures
        r == lex_lt(a@, b@),
{
    let mut i: usize = 0;
    assert(a@.skip(0) == a@);
    assert(b@.skip(0) == b@);
    while i < a.len() && i < b.len() && a[i] == b[i]
        invariant
            i <= a@.len(),
            i <= b@.len(),
            lex_lt(a@, b@) == lex_lt(a@.skip(i as int), b@.skip(i as int)),
        decreases a.len() - i,
    {
        assert(a@.skip(i as int).drop_first() == a@.skip(i + 1));
        assert(b@.skip(i as int).drop_first() == b@.skip(i + 1));
        i += 1;
    }
    if i == a.len() {
        i < b.len()
    } else if i == b.len() {
        false
    } else {
        a[i] < b[i]
    }
}

/// Where a key goes into a sorted sequence: after every entry whose key is
/// not greater (so equal keys keep their arrival order).
pub open spec fn insert_pos<T>(s: Seq<(Seq<u32>, T)>, k: Seq<u32>) -> int
    decreases s.len(),
{
    if s.len() == 0 {
        0
    } else if lex_lt(k, s[0].0) {
        0
    } else {
        1 + insert_pos(s.drop_first(), k)
    }
}

/// Stable sort by key: entries in key order, equal keys in input order.
pub open spec fn stable_sort<T>(s: Seq<(Seq<u32>, T)>) -> Seq<(Seq<u32>, T)>
    decreases s.len(),
{
    if s.len() == 0 {
        s
    } else {
        let r = stable_sort(s.drop_last());
        r.insert(insert_pos(r, s.last().0), s.last())
    }
}

pub proof fn lemma_insert_pos_bound<T>(s: Seq<(Seq<u32>, T)>, k: Seq<u32>)
    ensures
        0 <= insert_pos(s, k) <= s.len(),
    decreases s.len(),
{
    if s.len() > 0 {
        lemma_insert_pos_bound(s.drop_first(), k);
    }
}

pub proof fn lemma_stable_sort_len<T>(s: Seq<(Seq<u32>, T)>)
    ensures
        stable_sort(s).len() == s.len(),
    decreases s.len(),
{
    if s.len() > 0 {
        lemma_stable_sort_len(s.drop_last());
        lemma_insert_pos_bound(stable_sort(s.drop_last()), s.last().0);
    }
}

pub open spec fn key_views<T>(s: Seq<(Vec<u32>, T)>) -> Seq<(Seq<u32>, T)> {
    s.map_values(|p: (Vec<u32>, T)| (p.0@, p.1))
}

/// Sorts keyed entries stably by key.
pub fn sort_keyed<T>(entries: Vec<(Vec<u32>, T)>) -> (r: Vec<(Vec<u32>, T)>)
    ensures
        key_views(r@) == stable_sort(key_views(entries@)),
{
    let mut sorted: Vec<(Vec<u32>, T)> = Vec::new();
    let mut rest = entries;
    let ghost all = key_views(rest@);
    // Consume from the front by reversing first.
    let mut rev: Vec<(Vec<u32>, T)> = Vec::new();
    while rest.len() > 0
        invariant
            key_views(rest@) + key_views(rev@).reverse() == all,
        decreases rest.len(),
    {
        let ghost before_rest = key_views(rest@);
        let ghost before_rev = key_views(rev@);
        let e = rest.pop().unwrap();
        rev.push(e);
        assert(key_views(rest@) == before_rest.drop_last());
        assert(key_views(rev@) == before_rev.push(before_rest.last()));
        assert(key_views(rev@).reverse() == seq![before_rest.last()] + before_rev.reverse());
        assert(before_rest == before_rest.drop_last().push(before_rest.last()));
    }
    assert(key_views(rest@) == Seq::<(Seq<u32>, T)>::empty());
    assert(key_views(rev@).reverse() == all);
    let n = rev.len();
    let mut i: usize = 0;
    while rev.len() > 0
        invariant
            i + rev@.len() == n,
            n == all.len(),
            key_views(rev@).reverse() == all.skip(i as int),
            key_views(sorted@) == stable_sort(all.take(i as int)),
        decreases rev.len(),
    {
        let ghost before_rev = key_views(rev@);
        let e = rev.pop().unwrap();
        assert(key_views(rev@) == before_rev.drop_last());
        assert(before_rev.reverse()[0] == before_rev.last());
        assert(all.skip(i as int)[0] == all[i as int]);
        assert((e.0@, e.1) == all[i as int]);
        assert(key_views(rev@).reverse() == all.skip(i + 1)) by {
            assert(before_rev.reverse().drop_first() == before_rev.drop_last().reverse());
            assert(all.skip(i as int).drop_first() == all.skip(i + 1));
        }
        assert(all.take(i + 1).drop_last() == all.take(i as int));
        assert(all.take(i + 1).last() == all[i as int]);
        // find the insertion point
        let ghost cur = key_views(sorted@);
        proof {
            lemma_insert_pos_bound(cur, e.0@);
        }
        let mut j: usize = 0;
        assert(cur.skip(0) == cur);
        while j < sorted.len() && !lex_less(&e.0, &sorted[j].0)
            invariant
                j <= sorted@.len(),
                cur == key_views(sorted@),
                insert_pos(cur, e.0@) == j + insert_pos(cur.skip(j as int), e.0@),
            decreases sorted.len() - j,
        {
            assert(cur.skip(j as int)[0] == cur[j as int]);
            assert(cur.skip(j as int).drop_first() == cur.skip(j + 1));
            j += 1;
        }
        if j < sorted.len() {
            assert(cur.skip(j as int)[0] == cur[j as int]);
        }
        assert(insert_pos(cur, e.0@) == j);
        let ghost ev = (e.0@, e.1);
        sorted.insert(j, e);
        assert(key_views(sorted@) == cur.insert(j as int, ev));
        i += 1;
    }
    assert(all.take(n as int) == all);
    sorted
}

/// The code points of a character sequence, as a sort key.
pub open spec fn code_points(s: Seq<char>) -> Seq<u32> {
    s.map_values(|c: char| c as u32)
}

/// Appends the code points of `s` to a key.
pub fn push_code_points(key: &mut Vec<u32>, s: &str)
    ensures
        final(key)@ == old(key)@ + code_points(s@),
{
    let cs = crate::text::chars_of(s);
    let mut i: usize = 0;
    while i < cs.len()
        invariant
            i <= cs@.len(),
            cs@ == s@,
            key@ == old(key)@ + code_points(cs@.take(i as int)),
        decreases cs.len() - i,
    {
        key.push(cs[i] as u32);
        i += 1;
        assert(code_points(cs@.take(i as int)) == code_points(cs@.take(i - 1)).push(cs@[i - 1] as u32));
    }
    assert(cs@.take(cs@.len() as int) == cs@);
}

/// Replaces the payload of each keyed entry, keeping the keys.
pub open spec fn map_payload<T, U>(s: Seq<(Seq<u32>, T)>, f: spec_fn(T) -> U) -> Seq<(Seq<u32>, U)> {
    s.map_values(|p: (Seq<u32>, T)| (p.0, f(p.1)))
}

proof fn lemma_insert_pos_map<T, U>(s: Seq<(Seq<u32>, T)>, f: spec_fn(T) -> U, k: Seq<u32>)
    ensures
        insert_pos(map_payload(s, f), k) == insert_pos(s, k),
    decreases s.len(),
{
    if s.len() > 0 {
        assert(map_payload(s, f).drop_first() == map_payload(s.drop_first(), f));
        lemma_insert_pos_map(s.drop_first(), f, k);
    }
}

/// Sorting only looks at keys: mapping the payloads commutes with it.
pub proof fn lemma_sort_map_payload<T, U>(s: Seq<(Seq<u32>, T)>, f: spec_fn(T) -> U)
    ensures
        stable_sort(map_payload(s, f)) == map_payload(stable_sort(s), f),
    decreases s.len(),
{
    if s.len() > 0 {
        let m = map_payload(s, f);
        assert(m.drop_last() == map_payload(s.drop_last(), f));
        lemma_sort_map_payload(s.drop_last(), f);
        let r = stable_sort(s.drop_last());
        lemma_insert_pos_map(r, f, s.last().0);
        lemma_insert_pos_bound(r, s.last().0);
        let pos = insert_pos(r, s.last().0);
        assert(map_payload(r.insert(pos, s.last()), f) =~= map_payload(r, f).insert(
            pos,
            (s.last().0, f(s.last().1)),
        ));
    }
}

/// The elements in reverse order (moved, not copied).
pub fn reversed<T>(v: Vec<T>) -> (r: Vec<T>)
    ensures
        r@ == v@.reverse(),
{
    let mut rest = v;
    let ghost all = rest@;
    let mut rev: Vec<T> = Vec::new();
    while rest.len() > 0
        invariant
            rest@ + rev@.reverse() == all,
        decreases rest.len(),
    {
        let ghost br = rest@;
        let ghost bv = rev@;
        let e = rest.pop().unwrap();
        rev.push(e);
        assert(rev@.reverse() == seq![br.last()] + bv.reverse());
        assert(br == br.drop_last().push(br.last()));
    }
    assert(rest@ == Seq::<T>::empty());
    assert(rev@.reverse() == all);
    assert(rev@ == all.reverse());
    rev
}

/// The payloads of keyed entries, in order.
pub fn payloads<T>(v: Vec<(Vec<u32>, T)>) -> (r: Vec<T>)
    ensures
        r@ == v@.map_values(|p: (Vec<u32>, T)| p.1),
{
    let ghost all = v@;
    let n = v.len();
    let mut rev = reversed(v);
    let mut out: Vec<T> = Vec::new();
    let mut m: usize = 0;
    while rev.len() > 0
        invariant
            m + rev@.len() == all.len(),
            n == all.len(),
            rev@.reverse() == all.skip(m as int),
            out@.len() == m,
            forall|j: int| 0 <= j < m ==> out@[j] == #[trigger] all[j].1,
        decreases rev.len(),
    {
        let ghost bv = rev@;
        let e = rev.pop().unwrap();
        assert(bv.reverse()[0] == bv.last());
        assert(all.skip(m as int)[0] == all[m as int]);
        assert(rev@.reverse() == all.skip(m + 1)) by {
            assert(bv.reverse().drop_first() == bv.drop_last().reverse());
            assert(all.skip(m as int).drop_first() == all.skip(m + 1));
        }
        out.push(e.1);
        m += 1;
    }
    assert(out@ == all.map_values(|p: (Vec<u32>, T)| p.1));
    out
}

/// `lex_lt` is irreflexive.
pub proof fn lemma_lex_irreflexive(a: Seq<u32>)
    ensures
        !lex_lt(a, a),
    decreases a.len(),
{
    if a.len() > 0 {
        lemma_lex_irreflexive(a.drop_first());
    }
}

/// `lex_lt` is transitive.
pub proof fn lemma_lex_transitive(a: Seq<u32>, b: Seq<u32>, c: Seq<u32>)
    requires
        lex_lt(a, b),
        lex_lt(b, c),
    ensures
        lex_lt(a, c),
    decreases a.len(),
{
    if a.len() > 0 && b.len() > 0 && c.len() > 0 && a[0] == b[0] && b[0] == c[0] {
        lemma_lex_transitive(a.drop_first(), b.drop_first(), c.drop_first());
    }
}

/// Any two keys are ordered one way or the other, or are equal.
pub proof fn lemma_lex_total(a: Seq<u32>, b: Seq<u32>)
    ensures
        lex_lt(a, b) || lex_lt(b, a) || a == b,
    decreases a.len(),
{
    if a.len() > 0 && b.len() > 0 && a[0] == b[0] {
        lemma_lex_total(a.drop_first(), b.drop_first());
        if a.drop_first() == b.drop_first() {
            assert(a == seq![a[0]] + a.drop_first());
            assert(b == seq![b[0]] + b.drop_first());
        }
    } else if a.len() == 0 && b.len() == 0 {
        assert(a == b);
    }
}

/// `lex_lt` is asymmetric.
pub proof fn lemma_lex_asymmetric(a: Seq<u32>, b: Seq<u32>)
    ensures
        !(lex_lt(a, b) && lex_lt(b, a)),
{
    if lex_lt(a, b) && lex_lt(b, a) {
        lemma_lex_transitive(a, b, a);
        lemma_lex_irreflexive(a);
    }
}

/// Order-reversing key of a 64-bit integer: larger values sort first.
pub open spec fn desc_key(v: i64) -> Seq<u32> {
    let d = 0xffff_ffff_ffff_ffffu64 - (v as int + 0x8000_0000_0000_0000) as u64;
    seq![(d / 0x1_0000_0000) as u32, (d % 0x1_0000_0000) as u32]
}

pub fn desc_key_of(v: i64) -> (r: Vec<u32>)
    ensures
        r@ == desc_key(v),
{
    let w: u64 = if v >= 0 {
        (v as u64) + 0x8000_0000_0000_0000u64
    } else {
        (v + 0x7fff_ffff_ffff_ffffi64 + 1) as u64
    };
    assert(w == (v as int + 0x8000_0000_0000_0000) as u64);
    let d: u64 = 0xffff_ffff_ffff_ffffu64 - w;
    let mut r: Vec<u32> = Vec::new();
    r.push((d / 0x1_0000_0000) as u32);
    r.push((d % 0x1_0000_0000) as u32);
    r
}

pub open spec fn keyed_desc<T>(s: Seq<(i64, T)>) -> Seq<(Seq<u32>, T)> {
    s.map_values(|p: (i64, T)| (desc_key(p.0), p.1))
}

/// Payloads ordered by their values, largest first (stable).
pub fn sort_desc<T>(items: Vec<(i64, T)>) -> (r: Vec<T>)
    ensures
        r@ == stable_sort(keyed_desc(items@)).map_values(|p: (Seq<u32>, T)| p.1),
{
    let ghost all = items@;
    let n = items.len();
    let mut rev = reversed(items);
    let mut keyed: Vec<(Vec<u32>, T)> = Vec::new();
    let mut k: usize = 0;
    while rev.len() > 0
        invariant
            k + rev@.len() == all.len(),
            n == all.len(),
            rev@.reverse() == all.skip(k as int),
            key_views(keyed@) == keyed_desc(all.take(k as int)),
        decreases rev.len(),
    {
        let ghost bv = rev@;
        let e = rev.pop().unwrap();
        assert(bv.reverse()[0] == bv.last());
        assert(all.skip(k as int)[0] == all[k as int]);
        assert(rev@.reverse() == all.skip(k + 1)) by {
            assert(bv.reverse().drop_first() == bv.drop_last().reverse());
            assert(all.skip(k as int).drop_first() == all.skip(k + 1));
        }
        let key = desc_key_of(e.0);
        let ghost ks = key_views(keyed@);
        keyed.push((key, e.1));
        assert(key_views(keyed@) == ks.push((desc_key(all[k as int].0), all[k as int].1)));
        assert(all.take(k + 1) == all.take(k as int).push(all[k as int]));
        assert(keyed_desc(all.take(k + 1)) == keyed_desc(all.take(k as int)).push((desc_key(all[k as int].0), all[k as int].1)));
        k += 1;
    }
    assert(all.take(all.len() as int) == all);
    let sorted = sort_keyed(keyed);
    let ghost sv = sorted@;
    proof {
        lemma_stable_sort_len(keyed_desc(all));
    }
    let r = payloads(sorted);
    assert forall|j: int| 0 <= j < r@.len() implies #[trigger] r@[j] == stable_sort(keyed_desc(all)).map_values(|p: (Seq<u32>, T)| p.1)[j] by {
        assert(key_views(sv)[j] == (sv[j].0@, sv[j].1));
    }
    assert(r@ =~= stable_sort(keyed_desc(all)).map_values(|p: (Seq<u32>, T)| p.1));
    r
}

/// The first `limit` entries; a negative limit means no limit (SQL
/// `LIMIT`).
pub open spec fn limited<T>(s: Seq<T>, limit: i64) -> Seq<T> {
    if limit < 0 || s.len() <= limit {
        s
    } else {
        s.take(limit as int)
    }
}

pub fn truncate_to<T>(v: Vec<T>, limit: i64) -> (r: Vec<T>)
    ensures
        r@ == limited(v@, limit),
{
    let ghost orig = v@;
    let mut v = v;
    if limit >= 0 && (v.len() as u64) > (limit as u64) {
        let keep = limit as usize;
        while v.len() > keep
            invariant
                keep <= v@.len(),
                v@.take(keep as int) == orig.take(keep as int),
            decreases v.len(),
        {
            let ghost before = v@;
            v.pop();
            assert(v@.take(keep as int) == before.take(keep as int));
        }
        assert(v@ == orig.take(keep as int));
    }
    v
}

/// The views of a sequence's items.
pub open spec fn all_views<T: View>(s: Seq<T>) -> Seq<T::V> {
    s.map_values(|t: T| t@)
}

/// Keyed by value, largest first, payloads by view.
pub open spec fn viewed_desc<T: View>(s: Seq<(i64, T)>) -> Seq<(Seq<u32>, T::V)> {
    s.map_values(|p: (i64, T)| (desc_key(p.0), p.1@))
}

/// Keyed by a sort key, payloads by view.
pub open spec fn viewed_keyed<T: View>(s: Seq<(Vec<u32>, T)>) -> Seq<(Seq<u32>, T::V)> {
    s.map_values(|p: (Vec<u32>, T)| (p.0@, p.1@))
}

/// The payloads of the stably sorted entries.
pub open spec fn sorted_payloads<V>(s: Seq<(Seq<u32>, V)>) -> Seq<V> {
    payloads_of(stable_sort(s))
}

/// The payloads of keyed entries, in order.
pub open spec fn payloads_of<V>(s: Seq<(Seq<u32>, V)>) -> Seq<V> {
    s.map_values(|p: (Seq<u32>, V)| p.1)
}

/// Payloads ordered by their values, largest first (stable), stated over
/// the payloads' views.
pub fn sort_desc_viewed<T: View>(items: Vec<(i64, T)>) -> (r: Vec<T>)
    ensures
        all_views(r@) == sorted_payloads(viewed_desc(items@)),
{
    let ghost all = items@;
    let ghost pre = keyed_desc(all);
    let r = sort_desc(items);
    let ghost f = |t: T| t@;
    proof {
        lemma_sort_map_payload(pre, f);
        assert(map_payload(pre, f) =~= viewed_desc(all));
        lemma_stable_sort_len(pre);
    }
    assert(all_views(r@) =~= sorted_payloads(viewed_desc(all)));
    r
}

/// Payloads ordered by their keys (stable), stated over the payloads'
/// views.
pub fn sort_asc_viewed<T: View>(items: Vec<(Vec<u32>, T)>) -> (r: Vec<T>)
    ensures
        all_views(r@) == sorted_payloads(viewed_keyed(items@)),
{
    let ghost all = items@;
    let ghost pre = key_views(all);
    let sorted = sort_keyed(items);
    let ghost sv = sorted@;
    let r = payloads(sorted);
    let ghost f = |t: T| t@;
    proof {
        lemma_sort_map_payload(pre, f);
        assert(map_payload(pre, f) =~= viewed_keyed(all));
        lemma_stable_sort_len(pre);
        assert(map_payload(key_views(sv), f) =~= viewed_keyed(sv));
    }
    assert forall|j: int| 0 <= j < r@.len() implies #[trigger] all_views(r@)[j] == sorted_payloads(viewed_keyed(all))[j] by {
        assert(key_views(sv)[j] == (sv[j].0@, sv[j].1));
    }
    assert(all_views(r@) =~= sorted_payloads(viewed_keyed(all)));
    r
}

/// Entries in key order: no later key is smaller than an earlier one.
pub open spec fn key_sorted<T>(s: Seq<(Seq<u32>, T)>) -> bool {
    forall|i: int, j: int| 0 <= i < j < s.len() ==> !lex_lt(#[trigger] s[j].0, #[trigger] s[i].0)
}

proof fn lemma_insert_pos_split<T>(s: Seq<(Seq<u32>, T)>, k: Seq<u32>)
    requires
        key_sorted(s),
    ensures
        0 <= insert_pos(s, k) <= s.len(),
        forall|i: int| 0 <= i < insert_pos(s, k) ==> !lex_lt(k, (#[trigger] s[i]).0),
        forall|i: int| insert_pos(s, k) <= i < s.len() ==> lex_lt(k, (#[trigger] s[i]).0),
    decreases s.len(),
{
    if s.len() > 0 {
        if lex_lt(k, s[0].0) {
            assert forall|i: int| 0 <= i < s.len() implies lex_lt(k, (#[trigger] s[i]).0) by {
                if i > 0 {
                    assert(!lex_lt(s[i].0, s[0].0));
                    lemma_lex_total(s[0].0, s[i].0);
                    if lex_lt(s[0].0, s[i].0) {
                        lemma_lex_transitive(k, s[0].0, s[i].0);
                    }
                }
            }
        } else {
            let t = s.drop_first();
            assert forall|i: int, j: int| 0 <= i < j < t.len() implies !lex_lt(#[trigger] t[j].0, #[trigger] t[i].0) by {
                assert(t[i] == s[i + 1] && t[j] == s[j + 1]);
            }
            lemma_insert_pos_split(t, k);
            assert forall|i: int| 0 <= i < insert_pos(s, k) implies !lex_lt(k, (#[trigger] s[i]).0) by {
                if i > 0 {
                    assert(s[i] == t[i - 1]);
                }
            }
            assert forall|i: int| insert_pos(s, k) <= i < s.len() implies lex_lt(k, (#[trigger] s[i]).0) by {
                assert(s[i] == t[i - 1]);
            }
        }
    }
}

/// The stable sort orders its entries by key.
pub proof fn lemma_stable_sort_sorted<T>(s: Seq<(Seq<u32>, T)>)
    ensures
        key_sorted(stable_sort(s)),
    decreases s.len(),
{
    if s.len() > 0 {
        let r = stable_sort(s.drop_last());
        let e = s.last();
        lemma_stable_sort_sorted(s.drop_last());
        lemma_insert_pos_split(r, e.0);
        let p = insert_pos(r, e.0);
        let out = r.insert(p, e);
        assert forall|i: int, j: int| 0 <= i < j < out.len() implies !lex_lt(#[trigger] out[j].0, #[trigger] out[i].0) by {
            if j < p {
                assert(out[i] == r[i] && out[j] == r[j]);
            } else if j == p {
                assert(out[i] == r[i]);
            } else if i < p {
                assert(out[i] == r[i] && out[j] == r[j - 1]);
            } else if i == p {
                assert(out[j] == r[j - 1]);
                lemma_lex_asymmetric(e.0, r[j - 1].0);
            } else {
                assert(out[i] == r[i - 1] && out[j] == r[j - 1]);
            }
        }
    }
}

/// The stable sort only reorders: it holds the same entries, as often.
pub proof fn lemma_stable_sort_permutes<T>(s: Seq<(Seq<u32>, T)>)
    ensures
        stable_sort(s).to_multiset() == s.to_multiset(),
    decreases s.len(),
{
    broadcast use vstd::seq_lib::group_to_multiset_ensures;
    if s.len() > 0 {
        let r = stable_sort(s.drop_last());
        let e = s.last();
        lemma_stable_sort_permutes(s.drop_last());
        lemma_insert_pos_bound(r, e.0);
        let p = insert_pos(r, e.0);
        let out = r.insert(p, e);
        assert(out.remove(p) =~= r);
        assert(out[p] == e);
        assert(out.to_multiset().count(e) > 0) by {
            assert(out.contains(e));
        }
        assert(out.to_multiset() =~= r.to_multiset().insert(e));
        assert(s.drop_last().push(e) == s);
    }
}

/// A larger value has a smaller descending key.
pub proof fn lemma_desc_key_order(a: i64, b: i64)
    requires
        a > b,
    ensures
        lex_lt(desc_key(a), desc_key(b)),
{
    let da = 0xffff_ffff_ffff_ffffu64 - (a as int + 0x8000_0000_0000_0000) as u64;
    let db = 0xffff_ffff_ffff_ffffu64 - (b as int + 0x8000_0000_0000_0000) as u64;
    assert(da < db);
    let ka = desc_key(a);
    let kb = desc_key(b);
    assert(ka[0] == (da / 0x1_0000_0000) as u32 && ka[1] == (da % 0x1_0000_0000) as u32);
    assert(kb[0] == (db / 0x1_0000_0000) as u32 && kb[1] == (db % 0x1_0000_0000) as u32);
    assert(da / 0x1_0000_0000 <= db / 0x1_0000_0000) by (nonlinear_arith)
        requires
            da < db,
    ;
    assert(da / 0x1_0000_0000 == db / 0x1_0000_0000 ==> da % 0x1_0000_0000 < db % 0x1_0000_0000) by (nonlinear_arith)
        requires
            da < db,
    ;
    assert(da / 0x1_0000_0000 < 0x1_0000_0000) by (nonlinear_arith)
        requires
            da <= 0xffff_ffff_ffff_ffffu64,
    ;
    assert(db / 0x1_0000_0000 < 0x1_0000_0000) by (nonlinear_arith)
        requires
            db <= 0xffff_ffff_ffff_ffffu64,
    ;
    if ka[0] == kb[0] {
        let a1 = ka.drop_first();
        let b1 = kb.drop_first();
        assert(a1[0] == ka[1] && b1[0] == kb[1]);
        assert(a1[0] < b1[0]);
        assert(lex_lt(a1, b1));
        assert(lex_lt(ka, kb));
    } else {
        assert(ka[0] < kb[0]);
        assert(lex_lt(ka, kb));
    }
}

/// Every entry of the sorted sequence is an entry of the input.
pub proof fn lemma_stable_sort_member<T>(s: Seq<(Seq<u32>, T)>, i: int)
    requires
        0 <= i < s.len(),
    ensures
        stable_sort(s).len() == s.len(),
        s.contains(stable_sort(s)[i]),
{
    broadcast use vstd::seq_lib::group_to_multiset_ensures;
    lemma_stable_sort_len(s);
    lemma_stable_sort_permutes(s);
    let x = stable_sort(s)[i];
    assert(stable_sort(s).contains(x));
    assert(stable_sort(s).to_multiset().count(x) > 0);
    assert(s.to_multiset().count(x) > 0);
}

/// Payloads sorted by descending keys of a value come out largest value
/// first.
pub proof fn lemma_sorted_desc<V>(s: Seq<(Seq<u32>, V)>, f: spec_fn(V) -> i64)
    requires
        forall|k: int| 0 <= k < s.len() ==> (#[trigger] s[k]).0 == desc_key(f(s[k].1)),
    ensures
        sorted_payloads(s).len() == s.len(),
        forall|i: int, j: int|
            0 <= i < j < s.len() ==> f(#[trigger] sorted_payloads(s)[i]) >= f(#[trigger] sorted_payloads(s)[j]),
{
    lemma_stable_sort_len(s);
    lemma_stable_sort_sorted(s);
    let r = stable_sort(s);
    assert forall|i: int, j: int| 0 <= i < j < s.len() implies f(#[trigger] sorted_payloads(s)[i]) >= f(
        #[trigger] sorted_payloads(s)[j],
    ) by {
        lemma_stable_sort_member(s, i);
        lemma_stable_sort_member(s, j);
        assert(r[i].0 == desc_key(f(r[i].1)));
        assert(r[j].0 == desc_key(f(r[j].1)));
        assert(!lex_lt(r[j].0, r[i].0));
        if f(r[i].1) < f(r[j].1) {
            lemma_desc_key_order(f(r[j].1), f(r[i].1));
        }
    }
}

/// Payloads sorted by a key derived from them come out in key order.
pub proof fn lemma_sorted_asc<V>(s: Seq<(Seq<u32>, V)>, f: spec_fn(V) -> Seq<u32>)
    requires
        forall|k: int| 0 <= k < s.len() ==> (#[trigger] s[k]).0 == f(s[k].1),
    ensures
        sorted_payloads(s).len() == s.len(),
        forall|i: int, j: int|
            0 <= i < j < s.len() ==> !lex_lt(f(#[trigger] sorted_payloads(s)[j]), f(#[trigger] sorted_payloads(s)[i])),
{
    lemma_stable_sort_len(s);
    lemma_stable_sort_sorted(s);
    let r = stable_sort(s);
    assert forall|i: int, j: int| 0 <= i < j < s.len() implies !lex_lt(
        f(#[trigger] sorted_payloads(s)[j]),
        f(#[trigger] sorted_payloads(s)[i]),
    ) by {
        lemma_stable_sort_member(s, i);
        lemma_stable_sort_member(s, j);
        assert(r[i].0 == f(r[i].1));
        assert(r[j].0 == f(r[j].1));
    }
}

/// The sum of `h` over a sequence.
pub open spec fn sum_of<V>(s: Seq<V>, h: spec_fn(V) -> int) -> int
    decreases s.len(),
{
    if s.len() == 0 {
        0
    } else {
        sum_of(s.drop_last(), h) + h(s.last())
    }
}

/// The sum of `h` over the payloads of keyed entries.
pub open spec fn pay_sum<V>(s: Seq<(Seq<u32>, V)>, h: spec_fn(V) -> int) -> int
    decreases s.len(),
{
    if s.len() == 0 {
        0
    } else {
        pay_sum(s.drop_last(), h) + h(s.last().1)
    }
}

proof fn lemma_pay_sum_remove<V>(s: Seq<(Seq<u32>, V)>, k: int, h: spec_fn(V) -> int)
    requires
        0 <= k < s.len(),
    ensures
        pay_sum(s, h) == pay_sum(s.remove(k), h) + h(s[k].1),
    decreases s.len(),
{
    if k == s.len() - 1 {
        assert(s.remove(k) =~= s.drop_last());
    } else {
        lemma_pay_sum_remove(s.drop_last(), k, h);
        assert(s.remove(k).drop_last() =~= s.drop_last().remove(k));
        assert(s.remove(k).last() == s.last());
    }
}

/// Sums do not depend on the order of the entries.
pub proof fn lemma_pay_sum_permutation<V>(a: Seq<(Seq<u32>, V)>, b: Seq<(Seq<u32>, V)>, h: spec_fn(V) -> int)
    requires
        a.to_multiset() == b.to_multiset(),
    ensures
        pay_sum(a, h) == pay_sum(b, h),
    decreases a.len(),
{
    broadcast use vstd::seq_lib::group_to_multiset_ensures;
    if a.len() == 0 {
        assert(b.to_multiset().len() == 0);
        assert(b.len() == 0);
    } else {
        let x = a.last();
        let d = a.drop_last();
        assert(d.push(x) == a);
        assert(a.to_multiset() =~= d.to_multiset().insert(x));
        assert(b.to_multiset().count(x) > 0);
        assert(b.contains(x));
        let k = choose|k: int| 0 <= k < b.len() && b[k] == x;
        assert(b.remove(k).to_multiset() =~= b.to_multiset().remove(x));
        assert(d.to_multiset() =~= a.to_multiset().remove(x));
        lemma_pay_sum_permutation(d, b.remove(k), h);
        lemma_pay_sum_remove(b, k, h);
    }
}

proof fn lemma_payloads_sum<V>(s: Seq<(Seq<u32>, V)>, h: spec_fn(V) -> int)
    ensures
        sum_of(payloads_of(s), h) == pay_sum(s, h),
    decreases s.len(),
{
    if s.len() > 0 {
        assert(payloads_of(s).drop_last() =~= payloads_of(s.drop_last()));
        lemma_payloads_sum(s.drop_last(), h);
    }
}

/// Sorting keeps sums: the sorted payloads sum to what the entries do.
pub proof fn lemma_sorted_payloads_sum<V>(s: Seq<(Seq<u32>, V)>, h: spec_fn(V) -> int)
    ensures
        sum_of(sorted_payloads(s), h) == pay_sum(s, h),
{
    lemma_stable_sort_permutes(s);
    lemma_pay_sum_permutation(stable_sort(s), s, h);
    lemma_payloads_sum(stable_sort(s), h);
}

/// Each item paired with its key, views taken.
pub open spec fn keyed_views<T: View>(keys: Seq<Vec<u32>>, items: Seq<T>) -> Seq<(Seq<u32>, T::V)> {
    Seq::new(items.len(), |i: int| (keys[i]@, items[i]@))
}

/// Pairs each item with its key, in order.
pub fn zip_keys<T>(keys: Vec<Vec<u32>>, items: Vec<T>) -> (r: Vec<(Vec<u32>, T)>)
    requires
        keys@.len() == items@.len(),
    ensures
        r@.len() == items@.len(),
        forall|i: int| 0 <= i < r@.len() ==> (#[trigger] r@[i]).0 == keys@[i] && r@[i].1 == items@[i],
{
    let ghost ks = keys@;
    let ghost its = items@;
    let n = items.len();
    let mut rk = reversed(keys);
    let mut ri = reversed(items);
    let mut out: Vec<(Vec<u32>, T)> = Vec::new();
    let mut k: usize = 0;
    while ri.len() > 0
        invariant
            k + ri@.len() == n,
            n == its.len(),
            ks.len() == its.len(),
            rk@.len() == ri@.len(),
            ri@.reverse() == its.skip(k as int),
            rk@.reverse() == ks.skip(k as int),
            out@.len() == k,
            forall|i: int| 0 <= i < k ==> (#[trigger] out@[i]).0 == ks[i] && out@[i].1 == its[i],
        decreases ri.len(),
    {
        let ghost bi = ri@;
        let ghost bk = rk@;
        let item = ri.pop().unwrap();
        let key = rk.pop().unwrap();
        assert(bi.reverse()[0] == bi.last());
        assert(bk.reverse()[0] == bk.last());
        assert(its.skip(k as int)[0] == its[k as int]);
        assert(ks.skip(k as int)[0] == ks[k as int]);
        assert(ri@.reverse() == its.skip(k + 1)) by {
            assert(bi.reverse().drop_first() == bi.drop_last().reverse());
            assert(its.skip(k as int).drop_first() == its.skip(k + 1));
        }
        assert(rk@.reverse() == ks.skip(k + 1)) by {
            assert(bk.reverse().drop_first() == bk.drop_last().reverse());
            assert(ks.skip(k as int).drop_first() == ks.skip(k + 1));
        }
        out.push((key, item));
        k += 1;
    }
    out
}

/// Items stably sorted by their keys, stated over views.
pub fn sort_by_keys<T: View>(keys: Vec<Vec<u32>>, items: Vec<T>) -> (r: Vec<T>)
    requires
        keys@.len() == items@.len(),
    ensures
        all_views(r@) == sorted_payloads(keyed_views(keys@, items@)),
{
    let ghost kv = keyed_views(keys@, items@);
    let zipped = zip_keys(keys, items);
    assert(viewed_keyed(zipped@) =~= kv);
    sort_asc_viewed(zipped)
}

} // verus!
