//! Laws that relate several calls of the library.
use vstd::prelude::*;

use crate::cluster::{
    components_of, connected, in_comps, intervals_of, is_chain, link, overlaps, placed, OverlapType,
};
use crate::record::{gaps, mirror, normalized, same_tx, GenePred};
use crate::tracks::is_perm;

verus! {

/// Mirroring a coordinate twice gives it back, so normalising reverse-strand
/// bounds twice gives back the start and end it began with.
pub proof fn law_mirror_self_inverse(start: int, end: int, cds_start: int, cds_end: int)
    ensures
        mirror(mirror(start)) == start,
        ({
            let once = normalized(false, start, end, cds_start, cds_end);
            normalized(false, once.0, once.1, once.2, once.3) == (start, end, cds_start, cds_end)
        }),
{
}

/// Transcript `t` is a member of component `c`.
pub open spec fn member(ix: Seq<Seq<usize>>, c: int, t: int) -> bool {
    exists|k: int| #[trigger] in_comps(ix, c, k) && ix[c][k] == t
}

/// A chain of overlaps that starts in component `c` stays in it.
proof fn lemma_chain_stays(
    ts: Seq<GenePred>,
    p: OverlapType,
    ix: Seq<Seq<usize>>,
    path: Seq<int>,
    c: int,
    m: int,
)
    requires
        components_of(ts, p, ix),
        is_chain(ts, p, path),
        member(ix, c, path[0]),
        0 <= m < path.len(),
    ensures
        member(ix, c, path[m]),
    decreases m,
{
    if m > 0 {
        lemma_chain_stays(ts, p, ix, path, c, m - 1);
        assert(0 <= path[m] < ts.len());
        assert(placed(ix, path[m]));
        let (c2, k2) = choose|c2: int, k2: int| #[trigger] in_comps(ix, c2, k2) && ix[c2][k2] == path[m];
        let k1 = choose|k1: int| #[trigger] in_comps(ix, c, k1) && ix[c][k1] == path[m - 1];
        assert(link(ts, p, path, m - 1));
        if c2 != c {
            assert(!overlaps(ts[ix[c][k1] as int], ts[ix[c2][k2] as int], p));
        }
    }
}

/// Transcripts with the same fields overlap the same transcripts.
proof fn lemma_same_overlaps(a: GenePred, b: GenePred, a2: GenePred, b2: GenePred, p: OverlapType)
    requires
        same_tx(a, a2),
        same_tx(b, b2),
        overlaps(a, b, p),
    ensures
        overlaps(a2, b2, p),
{
    assert(intervals_of(a, p) == intervals_of(a2, p));
    assert(intervals_of(b, p) == intervals_of(b2, p));
}

/// Clustering the members of one component again, in any order (`sub[k]`
/// is member `perm[k]`), under the same policy, yields that component alone:
/// one component that holds every member.
pub proof fn law_recluster_component(
    ts: Seq<GenePred>,
    p: OverlapType,
    ix: Seq<Seq<usize>>,
    c: int,
    sub: Seq<GenePred>,
    perm: Seq<int>,
    inv: Seq<int>,
    ix2: Seq<Seq<usize>>,
)
    requires
        components_of(ts, p, ix),
        0 <= c < ix.len(),
        sub.len() == ix[c].len(),
        is_perm(perm, inv, sub.len() as int),
        forall|k: int| 0 <= k < sub.len() ==> same_tx(#[trigger] sub[k], ts[ix[c][perm[k]] as int]),
        components_of(sub, p, ix2),
    ensures
        ix2.len() == 1,
        forall|u: int| 0 <= u < sub.len() ==> member(ix2, 0, u),
{
    assert(ix[c].len() > 0);
    assert(placed(ix2, 0));
    let (c0, k0) = choose|c0: int, k0: int| #[trigger] in_comps(ix2, c0, k0) && ix2[c0][k0] == 0;
    assert(ix2.len() >= 1);
    assert forall|u: int| 0 <= u < sub.len() implies member(ix2, c0, u) by {
        lemma_joined_in_sub(ts, p, ix, c, sub, perm, inv, ix2, c0, 0, u);
    }
    if ix2.len() > 1 {
        let other = if c0 == 0 { 1int } else { 0int };
        assert(ix2[other].len() > 0);
        assert(in_comps(ix2, other, 0));
        let x = ix2[other][0] as int;
        assert(member(ix2, c0, x));
        let k = choose|k: int| #[trigger] in_comps(ix2, c0, k) && ix2[c0][k] == x;
        assert(false);
    }
    assert(c0 == 0);
}

/// Members `u` and `v` of component `c` of `ts`, fed back as `sub`, end in
/// one component of `ix2`.
proof fn lemma_joined_in_sub(
    ts: Seq<GenePred>,
    p: OverlapType,
    ix: Seq<Seq<usize>>,
    c: int,
    sub: Seq<GenePred>,
    perm: Seq<int>,
    inv: Seq<int>,
    ix2: Seq<Seq<usize>>,
    c0: int,
    u: int,
    v: int,
)
    requires
        components_of(ts, p, ix),
        0 <= c < ix.len(),
        sub.len() == ix[c].len(),
        is_perm(perm, inv, sub.len() as int),
        forall|k: int| 0 <= k < sub.len() ==> same_tx(#[trigger] sub[k], ts[ix[c][perm[k]] as int]),
        components_of(sub, p, ix2),
        0 <= u < sub.len(),
        0 <= v < sub.len(),
        member(ix2, c0, u),
    ensures
        member(ix2, c0, v),
{
    assert(0 <= perm[u] < sub.len() && 0 <= perm[v] < sub.len());
    assert(in_comps(ix, c, perm[u]) && in_comps(ix, c, perm[v]));
    let a = ix[c][perm[u]] as int;
    let b = ix[c][perm[v]] as int;
    assert(connected(ts, p, a, b));
    let path = choose|path: Seq<int>| #[trigger] is_chain(ts, p, path) && path[0] == a && path.last() == b;
    assert(member(ix, c, path[0]));
    assert forall|m: int| 0 <= m < path.len() implies member(ix, c, #[trigger] path[m]) by {
        lemma_chain_stays(ts, p, ix, path, c, m);
    }
    let pick = Seq::new(
        path.len(),
        |m: int| choose|k: int| #[trigger] in_comps(ix, c, k) && ix[c][k] == path[m],
    );
    assert forall|m: int| 0 <= m < path.len() implies in_comps(ix, c, #[trigger] pick[m]) && ix[c][pick[m]]
        == path[m] by {
        assert(member(ix, c, path[m]));
    }
    let back = Seq::new(path.len(), |m: int| inv[pick[m]]);
    assert forall|m: int| 0 <= m < back.len() implies 0 <= #[trigger] back[m] < sub.len() && same_tx(
        sub[back[m]],
        ts[path[m]],
    ) by {
        assert(in_comps(ix, c, pick[m]) && ix[c][pick[m]] == path[m]);
        assert(0 <= inv[pick[m]] < sub.len() && perm[inv[pick[m]]] == pick[m]);
        assert(same_tx(sub[back[m]], ts[ix[c][perm[back[m]]] as int]));
    }
    assert forall|m: int| 0 <= m < back.len() - 1 implies #[trigger] link(sub, p, back, m) by {
        assert(link(ts, p, path, m));
        assert(same_tx(sub[back[m]], ts[path[m]]));
        assert(same_tx(sub[back[m + 1]], ts[path[m + 1]]));
        lemma_same_overlaps(ts[path[m]], ts[path[m + 1]], sub[back[m]], sub[back[m + 1]], p);
    }
    assert(is_chain(sub, p, back));
    // the chain in `sub` runs from `u` to `v`, since indices of a component are unique
    assert(in_comps(ix, c, pick[0]) && ix[c][pick[0]] == a);
    assert(pick[0] == perm[u]);
    assert(back[0] == u);
    let last = back.len() - 1;
    assert(in_comps(ix, c, pick[last]) && ix[c][pick[last]] == b);
    assert(pick[last] == perm[v]);
    assert(back[last] == v);
    lemma_chain_stays(sub, p, ix2, back, c0, last);
}

/// Two members of one component are joined by a chain of overlaps that
/// runs through members of that component only.
pub proof fn law_chain_within_component(
    ts: Seq<GenePred>,
    p: OverlapType,
    ix: Seq<Seq<usize>>,
    c: int,
    k1: int,
    k2: int,
)
    requires
        components_of(ts, p, ix),
        in_comps(ix, c, k1),
        in_comps(ix, c, k2),
    ensures
        exists|path: Seq<int>|
            #[trigger] is_chain(ts, p, path) && path[0] == ix[c][k1] && path.last() == ix[c][k2] && forall|m: int|
                0 <= m < path.len() ==> member(ix, c, #[trigger] path[m]),
{
    assert(connected(ts, p, ix[c][k1] as int, ix[c][k2] as int));
    let path = choose|path: Seq<int>|
        #[trigger] is_chain(ts, p, path) && path[0] == ix[c][k1] && path.last() == ix[c][k2];
    assert(member(ix, c, path[0]));
    assert forall|m: int| 0 <= m < path.len() implies member(ix, c, #[trigger] path[m]) by {
        lemma_chain_stays(ts, p, ix, path, c, m);
    }
}

/// A key with transcripts has at least one component and no more
/// components than transcripts.
pub proof fn law_component_count(ts: Seq<GenePred>, p: OverlapType, ix: Seq<Seq<usize>>)
    requires
        components_of(ts, p, ix),
        ts.len() > 0,
    ensures
        1 <= ix.len() <= ts.len(),
{
    assert(placed(ix, 0));
    let heads = Seq::new(ix.len(), |c: int| ix[c][0] as int);
    assert forall|c: int| 0 <= c < ix.len() implies in_comps(ix, c, 0) && 0 <= #[trigger] heads[c] < ts.len() by {
        assert(ix[c].len() > 0);
        assert(in_comps(ix, c, 0));
        assert(ix[c][0] < ts.len());
    }
    assert forall|a: int, b: int| 0 <= a < heads.len() && 0 <= b < heads.len() && a != b implies heads[a]
        != heads[b] by {
        assert(in_comps(ix, a, 0) && in_comps(ix, b, 0));
    }
    assert(heads.no_duplicates());
    heads.unique_seq_to_set();
    vstd::set_lib::lemma_int_range(0, ts.len() as int);
    assert(heads.to_set().subset_of(vstd::set_lib::set_int_range(0, ts.len() as int)));
    vstd::set_lib::lemma_len_subset(heads.to_set(), vstd::set_lib::set_int_range(0, ts.len() as int));
}

/// Entry `k` of `gaps(e)` is the gap after exon `src[k]`; `src` is strictly
/// ascending and names every exon followed by a positive-length gap.
pub open spec fn gap_sources(e: Seq<(u64, u64)>, src: Seq<int>) -> bool {
    &&& src.len() == gaps(e).len()
    &&& forall|k: int|
        0 <= k < src.len() ==> 0 <= #[trigger] src[k] && src[k] + 1 < e.len() && e[src[k]].1 < e[src[k] + 1].0
            && gaps(e)[k] == (e[src[k]].1, e[src[k] + 1].0)
    &&& forall|k: int, l: int| 0 <= k < l < src.len() ==> #[trigger] src[k] < #[trigger] src[l]
    &&& forall|i: int|
        0 <= i && i + 1 < e.len() && (#[trigger] e[i]).1 < e[i + 1].0 ==> exists|k: int|
            0 <= k < src.len() && #[trigger] src[k] == i
}

proof fn lemma_gap_sources(e: Seq<(u64, u64)>) -> (src: Seq<int>)
    ensures
        gap_sources(e, src),
    decreases e.len(),
{
    if e.len() < 2 {
        Seq::empty()
    } else {
        let d = e.drop_last();
        let prev = lemma_gap_sources(d);
        let i0 = e.len() - 2;
        assert(forall|i: int| 0 <= i < d.len() ==> d[i] == e[i]);
        let src = if e[i0].1 < e[i0 + 1].0 {
            prev.push(i0)
        } else {
            prev
        };
        assert forall|k: int| 0 <= k < src.len() implies 0 <= #[trigger] src[k] && src[k] + 1 < e.len() && e[src[k]].1
            < e[src[k] + 1].0 && gaps(e)[k] == (e[src[k]].1, e[src[k] + 1].0) by {
            if k < prev.len() {
                assert(src[k] == prev[k]);
                assert(d[prev[k]] == e[prev[k]] && d[prev[k] + 1] == e[prev[k] + 1]);
            }
        }
        assert forall|k: int, l: int| 0 <= k < l < src.len() implies #[trigger] src[k] < #[trigger] src[l] by {
            if l < prev.len() {
                assert(src[k] == prev[k] && src[l] == prev[l]);
            } else {
                assert(src[k] == prev[k]);
            }
        }
        assert forall|i: int| 0 <= i && i + 1 < e.len() && (#[trigger] e[i]).1 < e[i + 1].0 implies exists|k: int|
            0 <= k < src.len() && #[trigger] src[k] == i by {
            if i < i0 {
                assert(d[i] == e[i] && d[i + 1] == e[i + 1]);
                let k = choose|k: int| 0 <= k < prev.len() && #[trigger] prev[k] == i;
                assert(src[k] == i);
            } else {
                assert(src[src.len() - 1] == i);
            }
        }
        src
    }
}

/// The introns of a transcript are its positive-length gaps between
/// consecutive exons, one for each such gap, in order.
pub proof fn law_introns_are_gaps(t: GenePred)
    requires
        t.wf(),
    ensures
        t.introns@ == gaps(t.exons@),
        exists|src: Seq<int>| #[trigger] gap_sources(t.exons@, src),
{
    lemma_gaps_have_sources(t.exons@);
}

proof fn lemma_gaps_have_sources(e: Seq<(u64, u64)>)
    ensures
        exists|src: Seq<int>| #[trigger] gap_sources(e, src),
{
    let src = lemma_gap_sources(e);
    assert(gap_sources(e, src));
}

} // verus!
