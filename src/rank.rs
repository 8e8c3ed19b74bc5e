//! Exact nearest-neighbour ranking. The caller supplies, for every record, the
//! bit pattern of the 32-bit float distance from the query to that record; the
//! store keeps the live records, orders them by distance and keeps the first `k`.
use vstd::prelude::*;
use crate::error::{ErrorKind, YAVSError};
use crate::store::{live, lemma_find, lemma_live_push, views, RecordView, StoreView, YAVS};

verus! {

/// Where a distance stands in the ranking order. `bits` is the bit pattern of
/// a 32-bit float; unsigned order on the result follows the float's total
/// order (negatives first, then zeros, finite positives, infinity, NaN).
pub open spec fn order_key(bits: u32) -> u32 {
    if bits >= 0x8000_0000 {
        (0xFFFF_FFFFu32 - bits) as u32
    } else {
        (bits + 0x8000_0000u32) as u32
    }
}

/// A ranked entry: a record's id and its distance's bit pattern.
pub open spec fn entry_views(v: Seq<([u8; 16], u32)>) -> Seq<(Seq<u8>, u32)> {
    v.map_values(|e: ([u8; 16], u32)| (e.0@, e.1))
}

/// The (id, distance) pairs of the live records, in record order; `d[i]` is
/// the distance of record `i`.
pub open spec fn candidates(rs: Seq<RecordView>, d: Seq<u32>) -> Seq<(Seq<u8>, u32)>
    decreases rs.len(),
{
    if rs.len() == 0 {
        Seq::empty()
    } else {
        let n = rs.len() - 1;
        let init = candidates(rs.drop_last(), d.take(n));
        if rs.last().deleted {
            init
        } else {
            init.push((rs.last().id, d[n]))
        }
    }
}

/// The first position at or after `j` whose key is above `k`, or the length.
pub open spec fn first_above(t: Seq<(Seq<u8>, u32)>, k: u32, j: int) -> int
    decreases t.len() - j,
{
    if j >= t.len() {
        t.len() as int
    } else if order_key(t[j].1) > k {
        j
    } else {
        first_above(t, k, j + 1)
    }
}

/// `e` placed after every entry whose key is not above its own.
pub open spec fn sorted_insert(t: Seq<(Seq<u8>, u32)>, e: (Seq<u8>, u32)) -> Seq<(Seq<u8>, u32)> {
    t.insert(first_above(t, order_key(e.1), 0), e)
}

/// All entries in ascending order of distance; entries of equal distance keep
/// their original order.
pub open spec fn ranked(s: Seq<(Seq<u8>, u32)>) -> Seq<(Seq<u8>, u32)>
    decreases s.len(),
{
    if s.len() == 0 {
        s
    } else {
        sorted_insert(ranked(s.drop_last()), s.last())
    }
}

/// At most the first `k` entries of `s`.
pub open spec fn top(s: Seq<(Seq<u8>, u32)>, k: nat) -> Seq<(Seq<u8>, u32)> {
    if k < s.len() {
        s.take(k as int)
    } else {
        s
    }
}

/// The answer to a query: the `k` live records nearest by distance, nearest
/// first.
pub open spec fn ranking(rs: Seq<RecordView>, d: Seq<u32>, k: nat) -> Seq<(Seq<u8>, u32)> {
    top(ranked(candidates(rs, d)), k)
}

/// The ranking key of a distance's bit pattern.
pub fn distance_key(bits: u32) -> (r: u32)
    ensures
        r == order_key(bits),
{
    if bits >= 0x8000_0000 {
        0xFFFF_FFFFu32 - bits
    } else {
        bits + 0x8000_0000u32
    }
}

impl YAVS {
    /// The `k` live records nearest to the query, nearest first, as (id,
    /// distance) pairs. `distances[i]` is the bit pattern of the distance from
    /// the query to record `i`. Fails with `DimMismatch` where the query's
    /// length is not the store's dimension.
    pub fn query(&self, query_embedding: &[u32], distances: &[u32], k: usize) -> (r: Result<
        Vec<([u8; 16], u32)>,
        YAVSError,
    >)
        requires
            distances@.len() == self@.records.len(),
        ensures
            query_embedding@.len() != self@.dim ==> (r matches Err(e) && e.kind()
                == ErrorKind::DimMismatch),
            query_embedding@.len() == self@.dim ==> (r matches Ok(v) && entry_views(v@) == ranking(
                self@.records,
                distances@,
                k as nat,
            )),
    {
        if query_embedding.len() as u64 != self.dimension() as u64 {
            return Err(YAVSError::DimMismatch);
        }
        let rs = self.records();
        let n = rs.len();
        let mut out: Vec<([u8; 16], u32)> = Vec::new();
        for i in 0..n
            invariant
                n == rs@.len(),
                n == distances@.len(),
                entry_views(out@) == ranked(candidates(views(rs@.take(i as int)), distances@.take(i as int))),
        {
            let ghost before = entry_views(out@);
            let ghost c = candidates(views(rs@.take(i as int)), distances@.take(i as int));
            assert(views(rs@.take(i + 1)).drop_last() =~= views(rs@.take(i as int)));
            assert(distances@.take(i + 1).take(i as int) =~= distances@.take(i as int));
            if !rs[i].deleted {
                let d = distances[i];
                let key = distance_key(d);
                let ghost e = (rs@[i as int].id@, d);
                let mut j: usize = 0;
                while j < out.len() && distance_key(out[j].1) <= key
                    invariant
                        j <= out@.len(),
                        before == entry_views(out@),
                        key == order_key(d),
                        first_above(before, key, 0) == first_above(before, key, j as int),
                    decreases out@.len() - j,
                {
                    j = j + 1;
                }
                out.insert(j, (rs[i].id, d));
                assert(c.push(e).drop_last() =~= c);
                assert(entry_views(out@) =~= before.insert(j as int, e));
            }
        }
        assert(rs@.take(n as int) =~= rs@);
        assert(distances@.take(n as int) =~= distances@);
        out.truncate(k);
        assert(entry_views(out@) =~= ranking(self@.records, distances@, k as nat));
        Ok(out)
    }
}

/// Entries in ascending order of key.
pub open spec fn is_ranked(t: Seq<(Seq<u8>, u32)>) -> bool {
    forall|i: int, j: int| 0 <= i < j < t.len() ==> order_key(#[trigger] t[i].1) <= order_key(#[trigger] t[j].1)
}

pub proof fn lemma_first_above(t: Seq<(Seq<u8>, u32)>, k: u32, j: int)
    requires
        0 <= j <= t.len(),
    ensures
        j <= first_above(t, k, j) <= t.len(),
        forall|m: int| j <= m < first_above(t, k, j) ==> order_key(#[trigger] t[m].1) <= k,
        first_above(t, k, j) < t.len() ==> order_key(t[first_above(t, k, j)].1) > k,
    decreases t.len() - j,
{
    if j < t.len() && order_key(t[j].1) <= k {
        lemma_first_above(t, k, j + 1);
    }
}

/// Ranking keeps every entry and no other, and puts them in ascending order
/// of distance.
pub proof fn lemma_ranked(s: Seq<(Seq<u8>, u32)>)
    ensures
        ranked(s).len() == s.len(),
        is_ranked(ranked(s)),
        forall|i: int| 0 <= i < ranked(s).len() ==> s.contains(#[trigger] ranked(s)[i]),
        forall|i: int| 0 <= i < s.len() ==> ranked(s).contains(#[trigger] s[i]),
    decreases s.len(),
{
    if s.len() > 0 {
        let init = s.drop_last();
        let e = s.last();
        lemma_ranked(init);
        let t = ranked(init);
        let k = order_key(e.1);
        lemma_first_above(t, k, 0);
        let p = first_above(t, k, 0);
        let r = t.insert(p, e);
        assert(r == ranked(s));
        assert forall|a: int, b: int| 0 <= a < b < r.len() implies order_key(#[trigger] r[a].1)
            <= order_key(#[trigger] r[b].1) by {
            if b < p {
            } else if b == p {
                assert(order_key(t[a].1) <= k);
            } else if a < p {
                assert(order_key(t[a].1) <= k);
                assert(order_key(t[p].1) > k);
                if p < b - 1 {
                    assert(order_key(t[p].1) <= order_key(t[b - 1].1));
                }
            } else if a == p {
                assert(order_key(t[p].1) > k);
                if p < b - 1 {
                    assert(order_key(t[p].1) <= order_key(t[b - 1].1));
                }
            } else {
                assert(order_key(t[a - 1].1) <= order_key(t[b - 1].1));
            }
        }
        assert forall|i: int| 0 <= i < r.len() implies s.contains(#[trigger] r[i]) by {
            if i < p {
                assert(init.contains(t[i]));
                let w = choose|w: int| 0 <= w < init.len() && init[w] == t[i];
                assert(s[w] == t[i]);
            } else if i == p {
                assert(s[s.len() - 1] == e);
            } else {
                assert(init.contains(t[i - 1]));
                let w = choose|w: int| 0 <= w < init.len() && init[w] == t[i - 1];
                assert(s[w] == t[i - 1]);
            }
        }
        assert forall|i: int| 0 <= i < s.len() implies r.contains(#[trigger] s[i]) by {
            if i == s.len() - 1 {
                assert(r[p] == e);
            } else {
                assert(init[i] == s[i]);
                assert(t.contains(init[i]));
                let w = choose|w: int| 0 <= w < t.len() && t[w] == init[i];
                if w < p {
                    assert(r[w] == s[i]);
                } else {
                    assert(r[w + 1] == s[i]);
                }
            }
        }
    }
}

/// There is one candidate for each live record.
pub proof fn lemma_candidates_len(rs: Seq<RecordView>, d: Seq<u32>)
    requires
        d.len() == rs.len(),
    ensures
        candidates(rs, d).len() == live(rs).len(),
    decreases rs.len(),
{
    if rs.len() > 0 {
        let n = rs.len() - 1;
        lemma_candidates_len(rs.drop_last(), d.take(n));
        assert(rs.drop_last().push(rs.last()) =~= rs);
        lemma_live_push(rs.drop_last(), rs.last());
    }
}

/// Every candidate carries the id of a live record.
pub proof fn lemma_candidate_from_live(rs: Seq<RecordView>, d: Seq<u32>, c: (Seq<u8>, u32))
    requires
        d.len() == rs.len(),
        candidates(rs, d).contains(c),
    ensures
        exists|j: int| 0 <= j < rs.len() && !rs[j].deleted && #[trigger] rs[j].id == c.0,
    decreases rs.len(),
{
    let n = rs.len() - 1;
    let init = candidates(rs.drop_last(), d.take(n));
    if !rs.last().deleted && c == (rs.last().id, d[n]) {
        assert(rs[n].id == c.0);
    } else {
        if !rs.last().deleted {
            let w = choose|w: int| 0 <= w < init.len() + 1 && init.push((rs.last().id, d[n]))[w] == c;
            assert(init[w] == c);
        }
        assert(init.contains(c));
        lemma_candidate_from_live(rs.drop_last(), d.take(n), c);
        let j = choose|j: int| 0 <= j < n && !rs.drop_last()[j].deleted && #[trigger] rs.drop_last()[j].id == c.0;
        assert(rs[j] == rs.drop_last()[j]);
    }
}

/// Truncation: a query answers with as many entries as the smaller of `k`
/// and the number of live records, in ascending order of distance; with `k`
/// at least that number it answers with every live record, and with `k = 0`
/// with nothing.
pub proof fn lemma_query_truncation(s: StoreView, d: Seq<u32>, k: nat)
    requires
        d.len() == s.records.len(),
    ensures
        is_ranked(ranking(s.records, d, k)),
        ranking(s.records, d, k).len() == if k < live(s.records).len() { k } else { live(s.records).len() },
        k >= live(s.records).len() ==> ranking(s.records, d, k) == ranked(candidates(s.records, d)),
        k == 0 ==> ranking(s.records, d, k).len() == 0,
{
    let c = candidates(s.records, d);
    lemma_candidates_len(s.records, d);
    lemma_ranked(c);
}

/// Soft delete: once `remove(id)` has marked a record, no query answers with
/// that id, provided no other live record bears it.
pub proof fn lemma_removed_never_ranked(s: StoreView, id: Seq<u8>, d: Seq<u32>, k: nat)
    requires
        d.len() == s.records.len(),
        s.find(id) is Some,
        forall|j: int|
            0 <= j < s.records.len() && !s.records[j].deleted && #[trigger] s.records[j].id == id
                ==> Some(j) == s.find(id),
    ensures
        forall|m: int| 0 <= m < ranking(s.removed(id).records, d, k).len() ==> (#[trigger] ranking(
            s.removed(id).records,
            d,
            k,
        )[m]).0 != id,
{
    let rs = s.removed(id).records;
    let c = candidates(rs, d);
    let q = ranking(rs, d, k);
    lemma_ranked(c);
    lemma_find(s, id);
    let f = s.find(id)->Some_0;
    assert(rs == s.records.update(f, RecordView { deleted: true, ..s.records[f] }));
    assert(rs.len() == s.records.len());
    assert forall|m: int| 0 <= m < q.len() implies (#[trigger] q[m]).0 != id by {
        assert(q[m] == ranked(c)[m]);
        assert(c.contains(q[m]));
        lemma_candidate_from_live(rs, d, q[m]);
        let j = choose|j: int| 0 <= j < rs.len() && !rs[j].deleted && #[trigger] rs[j].id == q[m].0;
        if q[m].0 == id {
            if j == f {
                assert(rs[j].deleted);
            } else {
                assert(rs[j] == s.records[j]);
            }
        }
    }
}

} // verus!
