//! Overlap components of the transcripts of one partition key.
//!
//! Every transcript contributes comparison intervals (its bounds, its exons,
//! or its exons clipped to the coding window). A sweep over all intervals in
//! order of start unites, in a disjoint-set structure, each interval that
//! starts before the furthest end seen so far with the transcript that opened
//! the current run; the classes that remain are the components.
use vstd::prelude::*;

use crate::disjoint::DisjointSets;
use crate::record::{copy_intervals, GenePred};

verus! {

broadcast use vstd::seq_lib::group_to_multiset_ensures;

/// Which parts of two transcripts are compared.
#[derive(Debug, Clone, Copy, PartialEq, Eq, Structural)]
pub enum OverlapType {
    /// The whole `[start, end)` window.
    Boundary,
    /// The exons.
    Exon,
    /// The exons clipped to `[cds_start, cds_end)`.
    Cds,
}

/// The intervals of `s` clipped to `[lo, hi)`; those left empty are dropped,
/// as they cover no position.
pub open spec fn clipped(s: Seq<(u64, u64)>, lo: u64, hi: u64) -> Seq<(u64, u64)>
    decreases s.len(),
{
    if s.len() == 0 {
        Seq::empty()
    } else {
        let r = clipped(s.drop_last(), lo, hi);
        let x = s.last();
        let a = if x.0 < lo { lo } else { x.0 };
        let b = if x.1 > hi { hi } else { x.1 };
        if a < b {
            r.push((a, b))
        } else {
            r
        }
    }
}

/// The intervals of `t` that are compared under policy `p`: the bounds or
/// the exons as they are, or the exons clipped to the coding window.
pub open spec fn intervals_of(t: GenePred, p: OverlapType) -> Seq<(u64, u64)> {
    match p {
        OverlapType::Boundary => seq![(t.start, t.end)],
        OverlapType::Exon => t.exons@,
        OverlapType::Cds => clipped(t.exons@, t.cds_start, t.cds_end),
    }
}

/// Half-open intervals that share a position.
pub open spec fn intersects(a: (u64, u64), b: (u64, u64)) -> bool {
    a.0 < b.1 && b.0 < a.1
}

/// Two transcripts overlap under `p`: some compared interval of one
/// intersects some compared interval of the other.
pub open spec fn overlaps(a: GenePred, b: GenePred, p: OverlapType) -> bool {
    exists|i: int, j: int|
        0 <= i < intervals_of(a, p).len() && 0 <= j < intervals_of(b, p).len() && intersects(
            #[trigger] intervals_of(a, p)[i],
            #[trigger] intervals_of(b, p)[j],
        )
}

/// The `k`-th step of `path` joins overlapping transcripts.
pub open spec fn link(ts: Seq<GenePred>, p: OverlapType, path: Seq<int>, k: int) -> bool {
    overlaps(ts[path[k]], ts[path[k + 1]], p)
}

/// `path` is a walk through `ts` along pairwise overlaps.
pub open spec fn is_chain(ts: Seq<GenePred>, p: OverlapType, path: Seq<int>) -> bool {
    &&& path.len() >= 1
    &&& forall|k: int| 0 <= k < path.len() ==> 0 <= #[trigger] path[k] < ts.len()
    &&& forall|k: int| 0 <= k < path.len() - 1 ==> #[trigger] link(ts, p, path, k)
}

/// Transcripts `a` and `b` of `ts` are joined by a chain of overlaps.
pub open spec fn connected(ts: Seq<GenePred>, p: OverlapType, a: int, b: int) -> bool {
    exists|path: Seq<int>| #[trigger] is_chain(ts, p, path) && path[0] == a && path.last() == b
}

/// Position `k` of component `c` exists.
pub open spec fn in_comps(comps: Seq<Seq<usize>>, c: int, k: int) -> bool {
    0 <= c < comps.len() && 0 <= k < comps[c].len()
}

/// Index `i` stands somewhere in `comps`.
pub open spec fn placed(comps: Seq<Seq<usize>>, i: int) -> bool {
    exists|c: int, k: int| #[trigger] in_comps(comps, c, k) && comps[c][k] == i
}

/// Every index below `n` stands in exactly one place of `comps`, and no
/// component is empty.
pub open spec fn is_partition(comps: Seq<Seq<usize>>, n: nat) -> bool {
    &&& forall|c: int| 0 <= c < comps.len() ==> #[trigger] comps[c].len() > 0
    &&& forall|c: int, k: int| #[trigger] in_comps(comps, c, k) ==> comps[c][k] < n
    &&& forall|i: int| 0 <= i < n ==> #[trigger] placed(comps, i)
    &&& forall|c1: int, k1: int, c2: int, k2: int|
        #[trigger] in_comps(comps, c1, k1) && #[trigger] in_comps(comps, c2, k2) && comps[c1][k1]
            == comps[c2][k2] ==> c1 == c2 && k1 == k2
}

/// Members of one component are joined by chains of overlaps; members of
/// different components do not overlap.
pub open spec fn is_closed(ts: Seq<GenePred>, p: OverlapType, comps: Seq<Seq<usize>>) -> bool {
    &&& forall|c: int, k1: int, k2: int|
        #[trigger] in_comps(comps, c, k1) && #[trigger] in_comps(comps, c, k2) ==> connected(
            ts,
            p,
            comps[c][k1] as int,
            comps[c][k2] as int,
        )
    &&& forall|c1: int, k1: int, c2: int, k2: int|
        #[trigger] in_comps(comps, c1, k1) && #[trigger] in_comps(comps, c2, k2) && c1 != c2
            ==> !overlaps(ts[comps[c1][k1] as int], ts[comps[c2][k2] as int], p)
}

/// `comps` are the overlap components of `ts` under `p`, as indices into `ts`.
pub open spec fn components_of(ts: Seq<GenePred>, p: OverlapType, comps: Seq<Seq<usize>>) -> bool {
    is_partition(comps, ts.len()) && is_closed(ts, p, comps)
}

/// The index lists held by a vector of vectors.
pub open spec fn index_lists(v: Seq<Vec<usize>>) -> Seq<Seq<usize>> {
    v.map_values(|x: Vec<usize>| x@)
}

proof fn lemma_clipped_nonempty(s: Seq<(u64, u64)>, lo: u64, hi: u64)
    ensures
        forall|k: int| 0 <= k < clipped(s, lo, hi).len() ==> (#[trigger] clipped(s, lo, hi)[k]).0 < clipped(
            s,
            lo,
            hi,
        )[k].1,
    decreases s.len(),
{
    if s.len() > 0 {
        lemma_clipped_nonempty(s.drop_last(), lo, hi);
        let r = clipped(s.drop_last(), lo, hi);
        let c = clipped(s, lo, hi);
        assert forall|k: int| 0 <= k < c.len() implies (#[trigger] c[k]).0 < c[k].1 by {
            if k < r.len() {
                assert(c[k] == r[k]);
            }
        }
    }
}

pub proof fn lemma_overlaps_symmetric(a: GenePred, b: GenePred, p: OverlapType)
    requires
        overlaps(a, b, p),
    ensures
        overlaps(b, a, p),
{
    let (i, j) = choose|i: int, j: int|
        0 <= i < intervals_of(a, p).len() && 0 <= j < intervals_of(b, p).len() && intersects(
            #[trigger] intervals_of(a, p)[i],
            #[trigger] intervals_of(b, p)[j],
        );
    assert(intersects(intervals_of(b, p)[j], intervals_of(a, p)[i]));
}

pub proof fn lemma_connected_refl(ts: Seq<GenePred>, p: OverlapType, a: int)
    requires
        0 <= a < ts.len(),
    ensures
        connected(ts, p, a, a),
{
    let path = seq![a];
    assert(is_chain(ts, p, path));
}

pub proof fn lemma_overlap_connected(ts: Seq<GenePred>, p: OverlapType, a: int, b: int)
    requires
        0 <= a < ts.len(),
        0 <= b < ts.len(),
        overlaps(ts[a], ts[b], p),
    ensures
        connected(ts, p, a, b),
{
    let path = seq![a, b];
    assert(link(ts, p, path, 0));
    assert(is_chain(ts, p, path));
}

pub proof fn lemma_connected_symmetric(ts: Seq<GenePred>, p: OverlapType, a: int, b: int)
    requires
        connected(ts, p, a, b),
    ensures
        connected(ts, p, b, a),
{
    let path = choose|path: Seq<int>| #[trigger] is_chain(ts, p, path) && path[0] == a && path.last() == b;
    let rev = Seq::new(path.len(), |k: int| path[path.len() - 1 - k]);
    assert forall|k: int| 0 <= k < rev.len() - 1 implies #[trigger] link(ts, p, rev, k) by {
        let j = path.len() - 2 - k;
        assert(link(ts, p, path, j));
        lemma_overlaps_symmetric(ts[path[j]], ts[path[j + 1]], p);
    }
    assert forall|k: int| 0 <= k < rev.len() implies 0 <= #[trigger] rev[k] < ts.len() by {
        assert(0 <= path[path.len() - 1 - k] < ts.len());
    }
    assert(is_chain(ts, p, rev));
}

pub proof fn lemma_connected_transitive(ts: Seq<GenePred>, p: OverlapType, a: int, b: int, c: int)
    requires
        connected(ts, p, a, b),
        connected(ts, p, b, c),
    ensures
        connected(ts, p, a, c),
{
    let first = choose|path: Seq<int>| #[trigger] is_chain(ts, p, path) && path[0] == a && path.last() == b;
    let second = choose|path: Seq<int>| #[trigger] is_chain(ts, p, path) && path[0] == b && path.last() == c;
    let q = first + second.drop_first();
    assert forall|k: int| 0 <= k < q.len() implies 0 <= #[trigger] q[k] < ts.len() by {
        if k < first.len() {
            assert(q[k] == first[k]);
        } else {
            assert(q[k] == second[k - first.len() + 1]);
        }
    }
    assert forall|k: int| 0 <= k < q.len() - 1 implies #[trigger] link(ts, p, q, k) by {
        if k < first.len() - 1 {
            assert(link(ts, p, first, k));
            assert(q[k] == first[k] && q[k + 1] == first[k + 1]);
        } else {
            let j = k - first.len() + 1;
            assert(link(ts, p, second, j));
            if k == first.len() - 1 {
                assert(q[k] == first.last());
                assert(q[k] == second[0]);
            } else {
                assert(q[k] == second[j]);
            }
            assert(q[k + 1] == second[j + 1]);
        }
    }
    assert(is_chain(ts, p, q));
    if second.len() == 1 {
        assert(q.last() == first.last());
    } else {
        assert(q.last() == second.last());
    }
}

/// After a union of the classes of `x` and `y`, with `x` and `y` connected,
/// every class is still made of connected transcripts.
proof fn lemma_union_keeps_connected(
    ts: Seq<GenePred>,
    p: OverlapType,
    before: DisjointSets,
    after: DisjointSets,
    x: int,
    y: int,
    w: int,
)
    requires
        before.size() == ts.len(),
        after.size() == ts.len(),
        0 <= x < ts.len(),
        0 <= y < ts.len(),
        connected(ts, p, x, y),
        forall|i: int|
            0 <= i < ts.len() ==> #[trigger] after.class_of(i) == if before.class_of(i) == before.class_of(
                x,
            ) || before.class_of(i) == before.class_of(y) {
                w
            } else {
                before.class_of(i)
            },
        w == before.class_of(x) || w == before.class_of(y),
        forall|a: int, b: int|
            0 <= a < ts.len() && 0 <= b < ts.len() && #[trigger] before.class_of(a)
                == #[trigger] before.class_of(b) ==> connected(ts, p, a, b),
    ensures
        forall|a: int, b: int|
            0 <= a < ts.len() && 0 <= b < ts.len() && #[trigger] after.class_of(a)
                == #[trigger] after.class_of(b) ==> connected(ts, p, a, b),
{
    assert forall|a: int, b: int|
        0 <= a < ts.len() && 0 <= b < ts.len() && #[trigger] after.class_of(a)
            == #[trigger] after.class_of(b) implies connected(ts, p, a, b) by {
        let cx = before.class_of(x);
        let cy = before.class_of(y);
        let ca = before.class_of(a);
        let cb = before.class_of(b);
        assert(before.class_of(x) == cx && before.class_of(y) == cy);
        if ca == cb {
        } else if ca == cx && cb == cy {
            assert(connected(ts, p, a, x));
            assert(connected(ts, p, y, b));
            lemma_connected_transitive(ts, p, a, x, y);
            lemma_connected_transitive(ts, p, a, y, b);
        } else if ca == cy && cb == cx {
            assert(connected(ts, p, a, y));
            assert(connected(ts, p, x, b));
            lemma_connected_symmetric(ts, p, x, y);
            lemma_connected_transitive(ts, p, a, y, x);
            lemma_connected_transitive(ts, p, a, x, b);
        } else {
            assert(after.class_of(a) == after.class_of(b));
        }
    }
}

/// Clips every interval of `s` to `[lo, hi)`, dropping those left empty.
fn clip_all(s: &Vec<(u64, u64)>, lo: u64, hi: u64) -> (r: Vec<(u64, u64)>)
    ensures
        r@ == clipped(s@, lo, hi),
{
    let mut r: Vec<(u64, u64)> = Vec::new();
    let mut i: usize = 0;
    while i < s.len()
        invariant
            i <= s.len(),
            r@ == clipped(s@.subrange(0, i as int), lo, hi),
        decreases s.len() - i,
    {
        let x = s[i];
        let a = if x.0 < lo { lo } else { x.0 };
        let b = if x.1 > hi { hi } else { x.1 };
        assert(s@.subrange(0, i + 1).drop_last() =~= s@.subrange(0, i as int));
        if a < b {
            r.push((a, b));
        }
        i = i + 1;
    }
    assert(s@.subrange(0, s@.len() as int) =~= s@);
    r
}

/// The intervals of `t` that are compared under `policy`.
pub fn comparison_intervals(t: &GenePred, policy: OverlapType) -> (r: Vec<(u64, u64)>)
    ensures
        r@ == intervals_of(*t, policy),
{
    match policy {
        OverlapType::Boundary => {
            let v = vec![(t.start, t.end)];
            assert(v@ =~= seq![(t.start, t.end)]);
            v
        },
        OverlapType::Exon => copy_intervals(&t.exons),
        OverlapType::Cds => clip_all(&t.exons, t.cds_start, t.cds_end),
    }
}

/// Relies on `slice::sort_unstable`: the elements are permuted into
/// ascending order; tuples compare by their first field, then their second.
#[verifier::external_body]
pub(crate) fn sort_events(v: &mut Vec<(u64, u64, usize)>)
    ensures
        final(v)@.to_multiset() == old(v)@.to_multiset(),
        forall|i: int, j: int|
            0 <= i < j < final(v)@.len() ==> (#[trigger] final(v)@[i]).0 < (#[trigger] final(v)@[j]).0 || (
            final(v)@[i].0 == final(v)@[j].0 && final(v)@[i].1 <= final(v)@[j].1),
{
    v.sort_unstable();
}

/// The interval of a sweep event.
pub open spec fn ev_iv(e: (u64, u64, usize)) -> (u64, u64) {
    (e.0, e.1)
}

/// The event of interval `j` of transcript `t`.
pub open spec fn event_of(ts: Seq<GenePred>, p: OverlapType, t: int, j: int) -> (u64, u64, usize) {
    (intervals_of(ts[t], p)[j].0, intervals_of(ts[t], p)[j].1, t as usize)
}

/// Every event names a transcript of `ts` and one of its compared
/// intervals, which is non-empty.
pub open spec fn events_sound(ts: Seq<GenePred>, p: OverlapType, ev: Seq<(u64, u64, usize)>) -> bool {
    forall|e: int|
        0 <= e < ev.len() ==> (#[trigger] ev[e]).2 < ts.len() && intervals_of(
            ts[ev[e].2 as int],
            p,
        ).contains(ev_iv(ev[e])) && ev[e].0 <= ev[e].1
}

/// Every compared interval of the first `upto` transcripts is an event.
pub open spec fn events_complete(
    ts: Seq<GenePred>,
    p: OverlapType,
    ev: Seq<(u64, u64, usize)>,
    upto: int,
) -> bool {
    forall|t: int, j: int|
        0 <= t < upto && 0 <= j < intervals_of(ts[t], p).len() ==> ev.contains(
            #[trigger] event_of(ts, p, t, j),
        )
}

/// Classes of `ds` hold connected transcripts only.
pub open spec fn classes_connected(ts: Seq<GenePred>, p: OverlapType, ds: DisjointSets) -> bool {
    forall|a: int, b: int|
        0 <= a < ts.len() && 0 <= b < ts.len() && #[trigger] ds.class_of(a) == #[trigger] ds.class_of(b)
            ==> connected(ts, p, a, b)
}

/// Intersecting events among the first `upto` belong to one class.
pub open spec fn events_joined(ds: DisjointSets, ev: Seq<(u64, u64, usize)>, upto: int) -> bool {
    forall|a: int, b: int|
        0 <= a < b < upto && intersects(ev_iv(#[trigger] ev[a]), ev_iv(#[trigger] ev[b]))
            ==> ds.class_of(ev[a].2 as int) == ds.class_of(ev[b].2 as int)
}

/// The comparison intervals of all transcripts, each tagged with the index
/// of its transcript.
fn collect_events(ts: &Vec<GenePred>, policy: OverlapType) -> (ev: Vec<(u64, u64, usize)>)
    requires
        forall|i: int| 0 <= i < ts@.len() ==> (#[trigger] ts@[i]).wf(),
    ensures
        events_sound(ts@, policy, ev@),
        events_complete(ts@, policy, ev@, ts@.len() as int),
{
    let n = ts.len();
    let mut ev: Vec<(u64, u64, usize)> = Vec::new();
    let mut i: usize = 0;
    while i < n
        invariant
            i <= n == ts@.len(),
            forall|t: int| 0 <= t < ts@.len() ==> (#[trigger] ts@[t]).wf(),
            events_sound(ts@, policy, ev@),
            events_complete(ts@, policy, ev@, i as int),
        decreases n - i,
    {
        let iv = comparison_intervals(&ts[i], policy);
        proof {
            lemma_intervals_ordered(ts@[i as int], policy);
        }
        let ghost before = ev@;
        let mut j: usize = 0;
        while j < iv.len()
            invariant
                i < n == ts@.len(),
                j <= iv@.len(),
                iv@ == intervals_of(ts@[i as int], policy),
                forall|k: int| 0 <= k < iv@.len() ==> (#[trigger] iv@[k]).0 <= iv@[k].1,
                events_sound(ts@, policy, ev@),
                forall|x: (u64, u64, usize)| before.contains(x) ==> ev@.contains(x),
                forall|jj: int| 0 <= jj < j ==> ev@.contains(#[trigger] event_of(ts@, policy, i as int, jj)),
            decreases iv.len() - j,
        {
            let ghost prev = ev@;
            ev.push((iv[j].0, iv[j].1, i));
            proof {
                assert(ev@[prev.len() as int] == event_of(ts@, policy, i as int, j as int));
                assert(iv@[j as int] == ev_iv(ev@[prev.len() as int]));
                assert forall|e: int| 0 <= e < ev@.len() implies (#[trigger] ev@[e]).2 < ts@.len()
                    && intervals_of(ts@[ev@[e].2 as int], policy).contains(ev_iv(ev@[e])) && ev@[e].0
                    <= ev@[e].1 by {
                    if e < prev.len() {
                        assert(ev@[e] == prev[e]);
                    }
                }
                assert forall|x: (u64, u64, usize)| prev.contains(x) implies ev@.contains(x) by {
                    let e = choose|e: int| 0 <= e < prev.len() && prev[e] == x;
                    assert(ev@[e] == x);
                }
            }
            j = j + 1;
        }
        proof {
            assert forall|t: int, jj: int|
                0 <= t < i + 1 && 0 <= jj < intervals_of(ts@[t], policy).len() implies ev@.contains(
                #[trigger] event_of(ts@, policy, t, jj),
            ) by {
                if t < i {
                    assert(before.contains(event_of(ts@, policy, t, jj)));
                }
            }
        }
        i = i + 1;
    }
    ev
}

proof fn lemma_intervals_ordered(t: GenePred, p: OverlapType)
    requires
        t.wf(),
    ensures
        forall|k: int|
            0 <= k < intervals_of(t, p).len() ==> (#[trigger] intervals_of(t, p)[k]).0 <= intervals_of(
                t,
                p,
            )[k].1,
{
    match p {
        OverlapType::Boundary => {},
        OverlapType::Exon => {
            assert forall|k: int| 0 <= k < t.exons@.len() implies (#[trigger] t.exons@[k]).0 <= t.exons@[k].1 by {
                assert(t.exons@.to_set().contains(t.exons@[k]));
            }
        },
        OverlapType::Cds => lemma_clipped_nonempty(t.exons@, t.cds_start, t.cds_end),
    }
}

/// Sweeps the events in order of start and unites the transcripts of
/// intersecting intervals.
fn sweep(ts: &Vec<GenePred>, policy: OverlapType, ev: &Vec<(u64, u64, usize)>) -> (ds: DisjointSets)
    requires
        events_sound(ts@, policy, ev@),
        forall|i: int, j: int|
            0 <= i < j < ev@.len() ==> (#[trigger] ev@[i]).0 < (#[trigger] ev@[j]).0 || (ev@[i].0 == ev@[j].0
                && ev@[i].1 <= ev@[j].1),
    ensures
        ds.wf(),
        ds.size() == ts@.len(),
        classes_connected(ts@, policy, ds),
        events_joined(ds, ev@, ev@.len() as int),
{
    let n = ts.len();
    let mut ds = DisjointSets::new(n);
    proof {
        assert forall|a: int, b: int|
            0 <= a < ts@.len() && 0 <= b < ts@.len() && #[trigger] ds.class_of(a) == #[trigger] ds.class_of(
                b,
            ) implies connected(ts@, policy, a, b) by {
            lemma_connected_refl(ts@, policy, a);
        }
    }
    let m = ev.len();
    if m == 0 {
        return ds;
    }
    let mut reach = ev[0].1;
    let mut owner = ev[0].2;
    let ghost mut run_start: int = 0;
    let ghost mut w: int = 0;
    let mut k: usize = 1;
    while k < m
        invariant
            1 <= k <= m == ev@.len(),
            n == ts@.len(),
            ds.wf(),
            ds.size() == n,
            events_sound(ts@, policy, ev@),
            forall|i: int, j: int|
                0 <= i < j < ev@.len() ==> (#[trigger] ev@[i]).0 < (#[trigger] ev@[j]).0 || (ev@[i].0
                    == ev@[j].0 && ev@[i].1 <= ev@[j].1),
            0 <= run_start <= w < k,
            owner == ev@[run_start].2,
            reach == ev@[w].1,
            forall|j: int| 0 <= j < k ==> (#[trigger] ev@[j]).1 <= reach,
            forall|j: int| 0 <= j < run_start ==> (#[trigger] ev@[j]).1 <= ev@[run_start].0,
            forall|j: int|
                run_start <= j < k ==> ds.class_of((#[trigger] ev@[j]).2 as int) == ds.class_of(
                    owner as int,
                ),
            events_joined(ds, ev@, k as int),
            classes_connected(ts@, policy, ds),
        decreases m - k,
    {
        let (s, e, idx) = ev[k];
        assert(ev@[k as int] == (s, e, idx));
        if s < reach {
            let ghost wt = ev@[w].2 as int;
            proof {
                let a = ev@[w];
                let b = ev@[k as int];
                assert(intersects(ev_iv(a), ev_iv(b)));
                let ia = intervals_of(ts@[wt], policy);
                let ib = intervals_of(ts@[idx as int], policy);
                let i1 = choose|i1: int| 0 <= i1 < ia.len() && ia[i1] == ev_iv(a);
                let j1 = choose|j1: int| 0 <= j1 < ib.len() && ib[j1] == ev_iv(b);
                assert(intersects(ia[i1], ib[j1]));
                assert(overlaps(ts@[wt], ts@[idx as int], policy));
                lemma_overlap_connected(ts@, policy, wt, idx as int);
                assert(ds.class_of(wt) == ds.class_of(owner as int));
                assert(connected(ts@, policy, owner as int, wt));
                lemma_connected_transitive(ts@, policy, owner as int, wt, idx as int);
            }
            let ghost before = ds;
            let lw = ds.union(owner, idx);
            proof {
                lemma_union_keeps_connected(ts@, policy, before, ds, owner as int, idx as int, lw as int);
                assert forall|j: int| run_start <= j < k + 1 implies ds.class_of(
                    (#[trigger] ev@[j]).2 as int,
                ) == ds.class_of(owner as int) by {
                    assert(ev@[j].2 < n);
                }
                assert forall|a: int, b: int|
                    0 <= a < b < k + 1 && intersects(ev_iv(#[trigger] ev@[a]), ev_iv(#[trigger] ev@[b]))
                        implies ds.class_of(ev@[a].2 as int) == ds.class_of(ev@[b].2 as int) by {
                    assert(ev@[a].2 < n && ev@[b].2 < n);
                    if b == k {
                        if a < run_start {
                            assert(ev@[a].1 <= ev@[run_start].0);
                            assert(ev@[run_start].0 <= ev@[b].0);
                        }
                    }
                }
            }
            if e > reach {
                reach = e;
                proof {
                    w = k as int;
                }
            }
        } else {
            reach = e;
            owner = idx;
            proof {
                assert forall|j: int| 0 <= j < k implies (#[trigger] ev@[j]).1 <= ev@[k as int].0 by {}
                run_start = k as int;
                w = k as int;
                assert forall|a: int, b: int|
                    0 <= a < b < k + 1 && intersects(ev_iv(#[trigger] ev@[a]), ev_iv(#[trigger] ev@[b]))
                        implies ds.class_of(ev@[a].2 as int) == ds.class_of(ev@[b].2 as int) by {
                    if b == k {
                        assert(ev@[a].1 <= s);
                    }
                }
            }
        }
        k = k + 1;
    }
    ds
}

/// The non-empty classes of `ds`, in order of label.
fn gather(ds: DisjointSets) -> (r: Vec<Vec<usize>>)
    requires
        ds.wf(),
    ensures
        is_partition(index_lists(r@), ds.size()),
        forall|c1: int, k1: int, c2: int, k2: int|
            #[trigger] in_comps(index_lists(r@), c1, k1) && #[trigger] in_comps(index_lists(r@), c2, k2)
                ==> (c1 == c2 <==> ds.class_of(index_lists(r@)[c1][k1] as int) == ds.class_of(
                index_lists(r@)[c2][k2] as int,
            )),
{
    let ghost fin = ds;
    let n = ds.label.len();
    let mut members = ds.members;
    let mut comps: Vec<Vec<usize>> = Vec::new();
    let ghost mut roots: Seq<int> = Seq::empty();
    let mut q: usize = 0;
    while q < n
        invariant
            fin.wf(),
            n == fin.size(),
            q <= n,
            members@.len() == n,
            forall|x: int| q <= x < n ==> #[trigger] members@[x] == fin.members@[x],
            comps@.len() == roots.len(),
            forall|c: int|
                0 <= c < roots.len() ==> 0 <= #[trigger] roots[c] < q && comps@[c]@ == fin.members_of(
                    roots[c],
                ) && comps@[c]@.len() > 0,
            forall|c1: int, c2: int| 0 <= c1 < c2 < roots.len() ==> #[trigger] roots[c1] < #[trigger] roots[c2],
            forall|x: int|
                0 <= x < q && #[trigger] fin.members_of(x).len() > 0 ==> exists|c: int|
                    0 <= c < roots.len() && #[trigger] roots[c] == x,
        decreases n - q,
    {
        let mut mv: Vec<usize> = Vec::new();
        members.set_and_swap(q, &mut mv);
        let ghost old_roots = roots;
        assert(mv@ == fin.members_of(q as int));
        if mv.len() > 0 {
            comps.push(mv);
            proof {
                roots = roots.push(q as int);
                assert(roots[roots.len() - 1] == q);
            }
        }
        proof {
            assert forall|x: int|
                0 <= x < q + 1 && #[trigger] fin.members_of(x).len() > 0 implies exists|c: int|
                    0 <= c < roots.len() && #[trigger] roots[c] == x by {
                if x < q {
                    let c = choose|c: int| 0 <= c < old_roots.len() && #[trigger] old_roots[c] == x;
                    assert(roots[c] == x);
                } else {
                    assert(roots[roots.len() - 1] == q);
                }
            }
        }
        q = q + 1;
    }
    proof {
        let l = index_lists(comps@);
        assert forall|c: int| 0 <= c < l.len() implies l[c] == fin.members_of(roots[c]) by {}
        assert forall|c: int, k: int| #[trigger] in_comps(l, c, k) implies l[c][k] < n && fin.class_of(
            l[c][k] as int,
        ) == roots[c] by {
            assert(fin.members_of(roots[c])[k] == l[c][k]);
        }
        assert forall|i: int| 0 <= i < n implies #[trigger] placed(l, i) by {
            let x = fin.class_of(i);
            assert(fin.members_of(x).contains(i as usize));
            let k = choose|k: int| 0 <= k < fin.members_of(x).len() && fin.members_of(x)[k] == i as usize;
            let c = choose|c: int| 0 <= c < roots.len() && #[trigger] roots[c] == x;
            assert(in_comps(l, c, k));
        }
        assert forall|c1: int, k1: int, c2: int, k2: int|
            #[trigger] in_comps(l, c1, k1) && #[trigger] in_comps(l, c2, k2) implies (c1 == c2
            <==> fin.class_of(l[c1][k1] as int) == fin.class_of(l[c2][k2] as int)) by {
            if c1 < c2 {
                assert(roots[c1] < roots[c2]);
            } else if c2 < c1 {
                assert(roots[c2] < roots[c1]);
            }
        }
        assert forall|c1: int, k1: int, c2: int, k2: int|
            #[trigger] in_comps(l, c1, k1) && #[trigger] in_comps(l, c2, k2) && l[c1][k1] == l[c2][k2]
                implies c1 == c2 && k1 == k2 by {
            if c1 < c2 {
                assert(roots[c1] < roots[c2]);
            } else if c2 < c1 {
                assert(roots[c2] < roots[c1]);
            } else {
                assert(fin.members_of(roots[c1]).no_duplicates());
            }
        }
    }
    comps
}

/// The overlap components of `ts` under `policy`, as lists of indices into `ts`.
pub fn cluster(ts: &Vec<GenePred>, policy: OverlapType) -> (r: Vec<Vec<usize>>)
    requires
        forall|i: int| 0 <= i < ts@.len() ==> (#[trigger] ts@[i]).wf(),
    ensures
        components_of(ts@, policy, index_lists(r@)),
{
    let mut ev = collect_events(ts, policy);
    let ghost unsorted = ev@;
    sort_events(&mut ev);
    proof {
        assert forall|x: (u64, u64, usize)| unsorted.contains(x) implies ev@.contains(x) by {
            assert(unsorted.to_multiset().count(x) > 0);
        }
        assert forall|e: int| 0 <= e < ev@.len() implies (#[trigger] ev@[e]).2 < ts@.len()
            && intervals_of(ts@[ev@[e].2 as int], policy).contains(ev_iv(ev@[e])) && ev@[e].0
            <= ev@[e].1 by {
            assert(ev@.contains(ev@[e]));
            assert(ev@.to_multiset().count(ev@[e]) > 0);
            assert(unsorted.contains(ev@[e]));
            let e2 = choose|e2: int| 0 <= e2 < unsorted.len() && unsorted[e2] == ev@[e];
            assert(unsorted[e2] == ev@[e]);
        }
    }
    let ds = sweep(ts, policy, &ev);
    let ghost fin = ds;
    let r = gather(ds);
    proof {
        let l = index_lists(r@);
        let t = ts@;
        assert forall|c: int, k1: int, k2: int|
            #[trigger] in_comps(l, c, k1) && #[trigger] in_comps(l, c, k2) implies connected(
            t,
            policy,
            l[c][k1] as int,
            l[c][k2] as int,
        ) by {
            assert(fin.class_of(l[c][k1] as int) == fin.class_of(l[c][k2] as int));
        }
        assert forall|c1: int, k1: int, c2: int, k2: int|
            #[trigger] in_comps(l, c1, k1) && #[trigger] in_comps(l, c2, k2) && c1 != c2 implies !overlaps(
            t[l[c1][k1] as int],
            t[l[c2][k2] as int],
            policy,
        ) by {
            let a = l[c1][k1] as int;
            let b = l[c2][k2] as int;
            assert(fin.class_of(a) != fin.class_of(b));
            if overlaps(t[a], t[b], policy) {
                let (i, j) = choose|i: int, j: int|
                    0 <= i < intervals_of(t[a], policy).len() && 0 <= j < intervals_of(t[b], policy).len()
                        && intersects(
                        #[trigger] intervals_of(t[a], policy)[i],
                        #[trigger] intervals_of(t[b], policy)[j],
                    );
                assert(unsorted.contains(event_of(t, policy, a, i)));
                assert(unsorted.contains(event_of(t, policy, b, j)));
                let pa = choose|pa: int| 0 <= pa < ev@.len() && ev@[pa] == event_of(t, policy, a, i);
                let pb = choose|pb: int| 0 <= pb < ev@.len() && ev@[pb] == event_of(t, policy, b, j);
                assert(ev@[pa].2 == a && ev@[pb].2 == b);
                if pa < pb {
                    assert(intersects(ev_iv(ev@[pa]), ev_iv(ev@[pb])));
                } else if pb < pa {
                    assert(intersects(ev_iv(ev@[pb]), ev_iv(ev@[pa])));
                }
            }
        }
    }
    r
}

/// Each interval ends before the next one starts: ascending and pairwise disjoint.
pub open spec fn ordered_disjoint(s: Seq<(u64, u64)>) -> bool {
    forall|i: int, j: int| 0 <= i < j < s.len() ==> (#[trigger] s[i]).1 <= (#[trigger] s[j]).0
}

/// Some interval of `a` intersects some interval of `b`.
pub open spec fn any_intersection(a: Seq<(u64, u64)>, b: Seq<(u64, u64)>) -> bool {
    exists|i: int, j: int|
        0 <= i < a.len() && 0 <= j < b.len() && intersects(#[trigger] a[i], #[trigger] b[j])
}

/// Whether two ascending lists of disjoint intervals share a position,
/// walking both lists once.
pub fn exonic_overlap(exons_a: &Vec<(u64, u64)>, exons_b: &Vec<(u64, u64)>) -> (r: bool)
    requires
        ordered_disjoint(exons_a@),
        ordered_disjoint(exons_b@),
    ensures
        r == any_intersection(exons_a@, exons_b@),
{
    let mut ia: usize = 0;
    let mut ib: usize = 0;
    while ia < exons_a.len() && ib < exons_b.len()
        invariant
            ia <= exons_a@.len(),
            ib <= exons_b@.len(),
            ordered_disjoint(exons_a@),
            ordered_disjoint(exons_b@),
            forall|i: int, j: int|
                0 <= i < exons_a@.len() && 0 <= j < exons_b@.len() && (i < ia || j < ib) ==> !intersects(
                    #[trigger] exons_a@[i],
                    #[trigger] exons_b@[j],
                ),
        decreases exons_a@.len() - ia + exons_b@.len() - ib,
    {
        let (start_a, end_a) = exons_a[ia];
        let (start_b, end_b) = exons_b[ib];
        if start_a < end_b && start_b < end_a {
            assert(intersects(exons_a@[ia as int], exons_b@[ib as int]));
            return true;
        }
        if end_a < end_b {
            proof {
                assert forall|j: int| 0 <= j < exons_b@.len() implies !intersects(
                    exons_a@[ia as int],
                    #[trigger] exons_b@[j],
                ) by {
                    if j > ib {
                        assert(exons_b@[ib as int].1 <= exons_b@[j].0);
                    }
                }
            }
            ia = ia + 1;
        } else {
            proof {
                assert forall|i: int| 0 <= i < exons_a@.len() implies !intersects(
                    #[trigger] exons_a@[i],
                    exons_b@[ib as int],
                ) by {
                    if i > ia {
                        assert(exons_a@[ia as int].1 <= exons_a@[i].0);
                    }
                }
            }
            ib = ib + 1;
        }
    }
    false
}

} // verus!
