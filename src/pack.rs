//! Components of every partition key, and their colours.
use vstd::prelude::*;

use crate::cluster::{cluster, components_of, OverlapType};
use crate::record::{replace_field, same_tx, GenePred};
use crate::tracks::Tracks;

verus! {

/// `groups` holds, component by component, the transcripts of `ts` that `ix` names.
pub open spec fn drawn_from(groups: Seq<Vec<GenePred>>, ts: Seq<GenePred>, ix: Seq<Seq<usize>>) -> bool {
    &&& groups.len() == ix.len()
    &&& forall|c: int| 0 <= c < ix.len() ==> (#[trigger] groups[c])@.len() == ix[c].len()
    &&& forall|c: int, k: int|
        0 <= c < ix.len() && 0 <= k < ix[c].len() ==> same_tx(
            #[trigger] groups[c]@[k],
            ts[ix[c][k] as int],
        )
}

/// `groups` are the overlap components of `ts` under `policy`, transcript by transcript.
pub open spec fn packs(ts: Seq<GenePred>, groups: Seq<Vec<GenePred>>, policy: OverlapType) -> bool {
    exists|ix: Seq<Seq<usize>>| #[trigger] components_of(ts, policy, ix) && drawn_from(groups, ts, ix)
}

/// The overlap components of `ts` under `policy`.
pub fn components(ts: &Vec<GenePred>, policy: OverlapType) -> (r: Vec<Vec<GenePred>>)
    requires
        forall|i: int| 0 <= i < ts@.len() ==> (#[trigger] ts@[i]).wf(),
    ensures
        packs(ts@, r@, policy),
{
    let idx = cluster(ts, policy);
    let ghost ix = crate::cluster::index_lists(idx@);
    assert(ix.len() == idx@.len());
    let mut out: Vec<Vec<GenePred>> = Vec::new();
    let mut c: usize = 0;
    while c < idx.len()
        invariant
            c <= idx@.len(),
            ix == crate::cluster::index_lists(idx@),
            ix.len() == idx@.len(),
            components_of(ts@, policy, ix),
            out@.len() == c,
            forall|d: int| 0 <= d < c ==> (#[trigger] out@[d])@.len() == ix[d].len(),
            forall|d: int, k: int|
                0 <= d < c && 0 <= k < ix[d].len() ==> same_tx(#[trigger] out@[d]@[k], ts@[ix[d][k] as int]),
        decreases idx.len() - c,
    {
        let members = &idx[c];
        let mut group: Vec<GenePred> = Vec::new();
        let mut k: usize = 0;
        while k < members.len()
            invariant
                c < idx@.len(),
                ix.len() == idx@.len(),
                members@ == ix[c as int],
                components_of(ts@, policy, ix),
                k <= members@.len(),
                group@.len() == k,
                forall|j: int| 0 <= j < k ==> same_tx(#[trigger] group@[j], ts@[ix[c as int][j] as int]),
            decreases members.len() - k,
        {
            assert(crate::cluster::in_comps(ix, c as int, k as int));
            let t = ts[members[k]].duplicate();
            group.push(t);
            k = k + 1;
        }
        out.push(group);
        c = c + 1;
    }
    assert(drawn_from(out@, ts@, ix));
    out
}

/// Number of colours in the palette.
pub const RGB_SIZE: usize = 10;

/// The palette entry with index `i`.
pub open spec fn rgb_spec(i: int) -> Seq<char> {
    if i == 0 {
        "255,0,0"@
    } else if i == 1 {
        "0,255,0"@
    } else if i == 2 {
        "0,0,255"@
    } else if i == 3 {
        "58,134,47"@
    } else if i == 4 {
        "255,0,255"@
    } else if i == 5 {
        "0,255,255"@
    } else if i == 6 {
        "255,128,0"@
    } else if i == 7 {
        "51,153,255"@
    } else if i == 8 {
        "118,115,15"@
    } else {
        "172,126,0"@
    }
}

/// The colour with index `i`: red, green, blue, dark green, magenta, cyan,
/// orange, sky blue, dark yellow, brown.
pub fn rgb(i: usize) -> (r: &'static str)
    requires
        i < RGB_SIZE,
    ensures
        r@ == rgb_spec(i as int),
{
    if i == 0 {
        "255,0,0"
    } else if i == 1 {
        "0,255,0"
    } else if i == 2 {
        "0,0,255"
    } else if i == 3 {
        "58,134,47"
    } else if i == 4 {
        "255,0,255"
    } else if i == 5 {
        "0,255,255"
    } else if i == 6 {
        "255,128,0"
    } else if i == 7 {
        "51,153,255"
    } else if i == 8 {
        "118,115,15"
    } else {
        "172,126,0"
    }
}

/// `b` is `a` with the colour field of its line set to `color`.
pub open spec fn recolored(b: GenePred, a: GenePred, color: Seq<char>) -> bool {
    &&& b.line@ == replace_field(a.line@, 8, color)
    &&& b.name@ == a.name@
    &&& b.chrom@ == a.chrom@
    &&& b.strand == a.strand
    &&& b.start == a.start
    &&& b.end == a.end
    &&& b.cds_start == a.cds_start
    &&& b.cds_end == a.cds_end
    &&& b.exons@ == a.exons@
    &&& b.introns@ == a.introns@
    &&& b.exon_count == a.exon_count
}

/// Gives component `c` the palette colour `picks[c]`.
pub fn colorize(comps: &Vec<Vec<GenePred>>, picks: &Vec<usize>) -> (r: Vec<Vec<GenePred>>)
    requires
        picks@.len() >= comps@.len(),
        forall|i: int| 0 <= i < picks@.len() ==> #[trigger] picks@[i] < RGB_SIZE,
    ensures
        r@.len() == comps@.len(),
        forall|c: int| 0 <= c < comps@.len() ==> (#[trigger] r@[c])@.len() == comps@[c]@.len(),
        forall|c: int, k: int|
            0 <= c < comps@.len() && 0 <= k < comps@[c]@.len() ==> recolored(
                #[trigger] r@[c]@[k],
                comps@[c]@[k],
                rgb_spec(picks@[c] as int),
            ),
{
    let mut out: Vec<Vec<GenePred>> = Vec::new();
    let mut c: usize = 0;
    while c < comps.len()
        invariant
            c <= comps@.len(),
            picks@.len() >= comps@.len(),
            forall|i: int| 0 <= i < picks@.len() ==> #[trigger] picks@[i] < RGB_SIZE,
            out@.len() == c,
            forall|d: int| 0 <= d < c ==> (#[trigger] out@[d])@.len() == comps@[d]@.len(),
            forall|d: int, k: int|
                0 <= d < c && 0 <= k < comps@[d]@.len() ==> recolored(
                    #[trigger] out@[d]@[k],
                    comps@[d]@[k],
                    rgb_spec(picks@[d] as int),
                ),
        decreases comps.len() - c,
    {
        let color = rgb(picks[c]);
        let comp = &comps[c];
        let mut group: Vec<GenePred> = Vec::new();
        let mut k: usize = 0;
        while k < comp.len()
            invariant
                c < comps@.len(),
                comp@ == comps@[c as int]@,
                color@ == rgb_spec(picks@[c as int] as int),
                k <= comp@.len(),
                group@.len() == k,
                forall|j: int| 0 <= j < k ==> recolored(#[trigger] group@[j], comp@[j], color@),
            decreases comp.len() - k,
        {
            let t = comp[k].duplicate().colorline(color);
            group.push(t);
            k = k + 1;
        }
        out.push(group);
        c = c + 1;
    }
    out
}

/// The overlap components of every chromosome's group: `r[i]` belongs to
/// `tracks.chroms[i]`.
pub fn buckerize(tracks: &Tracks, policy: OverlapType) -> (r: Vec<Vec<Vec<GenePred>>>)
    requires
        tracks.wf(),
    ensures
        r@.len() == tracks.groups@.len(),
        forall|i: int| 0 <= i < r@.len() ==> packs(tracks.groups@[i]@, (#[trigger] r@[i])@, policy),
{
    let mut r: Vec<Vec<Vec<GenePred>>> = Vec::new();
    let mut i: usize = 0;
    while i < tracks.groups.len()
        invariant
            i <= tracks.groups@.len(),
            tracks.wf(),
            r@.len() == i,
            forall|a: int| 0 <= a < i ==> packs(tracks.groups@[a]@, (#[trigger] r@[a])@, policy),
        decreases tracks.groups.len() - i,
    {
        assert forall|q: int| 0 <= q < tracks.groups@[i as int]@.len() implies (
        #[trigger] tracks.groups@[i as int]@[q]).wf() by {}
        let comps = components(&tracks.groups[i], policy);
        r.push(comps);
        proof {
            assert forall|a: int| 0 <= a < i + 1 implies packs(tracks.groups@[a]@, (#[trigger] r@[a])@, policy) by {
                if a == i {
                    assert(r@[a] == comps);
                } else {
                    assert(r@[a] == r@.drop_last()[a]);
                }
            }
        }
        i = i + 1;
    }
    r
}

} // verus!
