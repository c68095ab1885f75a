//! Reading many records at once and grouping them by chromosome.
use vstd::prelude::*;

use crate::collections::{chrom_index_contents, ChromIndex};
use crate::cluster::sort_events;
use crate::record::{is_parse_of, parse_error, same_tx, Bed12, GenePred};
use crate::text::{chars_of, find_sep, line_body, lines, lines_from};

verus! {

broadcast use vstd::seq_lib::group_to_multiset_ensures;

/// Transcripts grouped by chromosome: `groups[i]` holds those on `chroms[i]`.
pub struct Tracks {
    pub chroms: Vec<String>,
    pub groups: Vec<Vec<GenePred>>,
    /// How many lines, comments aside, failed to parse.
    pub dropped: usize,
}

/// `a` comes no later than `b` in (start, end) order.
pub open spec fn bounds_le(a: GenePred, b: GenePred) -> bool {
    a.start < b.start || (a.start == b.start && a.end <= b.end)
}

/// A line that starts with `#`.
pub open spec fn is_comment(l: Seq<char>) -> bool {
    l.len() > 0 && l[0] == '#'
}

/// A line that holds a record.
pub open spec fn is_record(l: Seq<char>, cds: bool) -> bool {
    !is_comment(l) && parse_error(l, cds) is None
}

/// Number of lines among the first `n` that are neither comments nor records.
pub open spec fn failed_lines(ls: Seq<Seq<char>>, cds: bool, n: int) -> int
    decreases n,
{
    if n <= 0 {
        0
    } else {
        failed_lines(ls, cds, n - 1) + if !is_comment(ls[n - 1]) && !is_record(ls[n - 1], cds) {
            1int
        } else {
            0int
        }
    }
}


impl Tracks {
    /// Chromosome names are distinct; each group is non-empty, ascending in
    /// (start, end) order, and holds well-formed transcripts of its chromosome.
    pub open spec fn wf(&self) -> bool {
        &&& self.chroms@.len() == self.groups@.len()
        &&& forall|i: int, j: int|
            0 <= i < j < self.chroms@.len() ==> (#[trigger] self.chroms@[i])@ != (
            #[trigger] self.chroms@[j])@
        &&& forall|i: int| 0 <= i < self.groups@.len() ==> (#[trigger] self.groups@[i])@.len() > 0
        &&& forall|i: int, k: int|
            0 <= i < self.groups@.len() && 0 <= k < self.groups@[i]@.len() ==> (
            #[trigger] self.groups@[i]@[k]).chrom@ == self.chroms@[i]@ && self.groups@[i]@[k].wf()
        &&& forall|i: int, k: int, l: int|
            0 <= i < self.groups@.len() && 0 <= k < l < self.groups@[i]@.len() ==> bounds_le(
                #[trigger] self.groups@[i]@[k],
                #[trigger] self.groups@[i]@[l],
            )
    }

    /// The transcripts are the parses of the record lines of `ls`, one for
    /// each such line.
    pub open spec fn from_lines(&self, ls: Seq<Seq<char>>, cds: bool) -> bool {
        exists|pos: Seq<(int, int)>| #[trigger] line_map(self.groups@, ls, pos, cds)
    }
}

/// Record line `n` of `ls` was parsed into the transcript at `pos[n]`.
pub open spec fn placed_parse(
    groups: Seq<Vec<GenePred>>,
    ls: Seq<Seq<char>>,
    pos: Seq<(int, int)>,
    cds: bool,
    n: int,
) -> bool {
    &&& 0 <= pos[n].0 < groups.len()
    &&& 0 <= pos[n].1 < groups[pos[n].0]@.len()
    &&& is_parse_of(groups[pos[n].0]@[pos[n].1], ls[n], cds)
}

/// The transcript at `(i, k)` is the image of some record line.
pub open spec fn hit(ls: Seq<Seq<char>>, pos: Seq<(int, int)>, cds: bool, i: int, k: int) -> bool {
    exists|n: int| 0 <= n < ls.len() && is_record(ls[n], cds) && #[trigger] pos[n] == (i, k)
}

/// `pos` maps the record lines of `ls` one to one onto the positions of
/// `groups`, each line to its parse.
pub open spec fn line_map(groups: Seq<Vec<GenePred>>, ls: Seq<Seq<char>>, pos: Seq<(int, int)>, cds: bool) -> bool {
    &&& pos.len() == ls.len()
    &&& forall|n: int| 0 <= n < ls.len() && is_record(#[trigger] ls[n], cds) ==> placed_parse(groups, ls, pos, cds, n)
    &&& forall|n1: int, n2: int|
        0 <= n1 < ls.len() && 0 <= n2 < ls.len() && is_record(ls[n1], cds) && is_record(ls[n2], cds) && n1
            != n2 ==> #[trigger] pos[n1] != #[trigger] pos[n2]
    &&& forall|i: int, k: int| 0 <= i < groups.len() && 0 <= k < groups[i]@.len() ==> #[trigger] hit(ls, pos, cds, i, k)
}

/// `t` may stand in the group of chromosome `chrom`.
pub open spec fn fits(t: GenePred, chrom: Seq<char>) -> bool {
    t.chrom@ == chrom && t.wf()
}

/// `perm` and `inv` are inverse permutations of `0..n`.
pub open spec fn is_perm(perm: Seq<int>, inv: Seq<int>, n: int) -> bool {
    &&& perm.len() == n
    &&& inv.len() == n
    &&& forall|q: int| 0 <= q < n ==> 0 <= #[trigger] perm[q] < n && inv[perm[q]] == q
    &&& forall|j: int| 0 <= j < n ==> 0 <= #[trigger] inv[j] < n && perm[inv[j]] == j
}

/// `s` is `g` reordered by `perm`, ascending in (start, end) order.
pub open spec fn sorted_by(s: Seq<GenePred>, g: Seq<GenePred>, perm: Seq<int>, inv: Seq<int>) -> bool {
    &&& s.len() == g.len()
    &&& is_perm(perm, inv, g.len() as int)
    &&& forall|q: int| 0 <= q < s.len() ==> same_tx(#[trigger] s[q], g[perm[q]])
    &&& forall|k: int, l: int| 0 <= k < l < s.len() ==> bounds_le(#[trigger] s[k], #[trigger] s[l])
}

/// The transcripts of `g` in ascending (start, end) order, with the
/// permutation that takes them there.
fn sort_group(g: &Vec<GenePred>) -> (r: (Vec<GenePred>, Ghost<Seq<int>>, Ghost<Seq<int>>))
    ensures
        sorted_by(r.0@, g@, r.1@, r.2@),
{
    let mut keys: Vec<(u64, u64, usize)> = Vec::new();
    let mut i: usize = 0;
    while i < g.len()
        invariant
            i <= g@.len(),
            keys@.len() == i,
            forall|k: int| 0 <= k < i ==> #[trigger] keys@[k] == (g@[k].start, g@[k].end, k as usize),
        decreases g.len() - i,
    {
        keys.push((g[i].start, g[i].end, i));
        i = i + 1;
    }
    let ghost unsorted = keys@;
    let ghost n = g@.len() as int;
    proof {
        assert forall|a: int, b: int| 0 <= a < unsorted.len() && 0 <= b < unsorted.len() && a != b implies unsorted[a]
            != unsorted[b] by {
            assert(unsorted[a].2 == a && unsorted[b].2 == b);
        }
        assert(unsorted.no_duplicates());
        unsorted.lemma_multiset_has_no_duplicates();
    }
    sort_events(&mut keys);
    proof {
        assert(keys@.to_multiset().len() == unsorted.to_multiset().len());
        assert forall|x: (u64, u64, usize)| keys@.to_multiset().contains(x) implies keys@.to_multiset().count(x)
            == 1 by {
            assert(unsorted.to_multiset().contains(x));
        }
        keys@.lemma_multiset_has_no_duplicates_conv();
        assert forall|k: int| 0 <= k < keys@.len() implies (#[trigger] keys@[k]).2 < g@.len() && keys@[k]
            == unsorted[keys@[k].2 as int] by {
            assert(keys@.contains(keys@[k]));
            assert(keys@.to_multiset().count(keys@[k]) > 0);
            let j = choose|j: int| 0 <= j < unsorted.len() && unsorted[j] == keys@[k];
            assert(unsorted[j] == keys@[k]);
        }
    }
    let ghost perm = Seq::new(n as nat, |q: int| keys@[q].2 as int);
    let ghost inv = Seq::new(
        n as nat,
        |j: int| choose|q: int| 0 <= q < keys@.len() && keys@[q] == unsorted[j],
    );
    proof {
        assert forall|j: int| 0 <= j < n implies 0 <= #[trigger] inv[j] < n && perm[inv[j]] == j by {
            assert(unsorted.contains(unsorted[j]));
            assert(unsorted.to_multiset().count(unsorted[j]) > 0);
            assert(keys@.contains(unsorted[j]));
            assert(unsorted[j].2 == j);
        }
        assert forall|q: int| 0 <= q < n implies 0 <= #[trigger] perm[q] < n && inv[perm[q]] == q by {
            let j = perm[q];
            assert(keys@[q] == unsorted[j]);
            assert(unsorted.contains(unsorted[j]));
            assert(unsorted.to_multiset().count(unsorted[j]) > 0);
            assert(keys@.contains(unsorted[j]));
            let q2 = inv[j];
            assert(keys@[q2] == unsorted[j]);
        }
    }
    let mut r: Vec<GenePred> = Vec::new();
    let mut k: usize = 0;
    while k < keys.len()
        invariant
            k <= keys@.len(),
            keys@.len() == g@.len(),
            r@.len() == k,
            forall|q: int| 0 <= q < keys@.len() ==> (#[trigger] keys@[q]).2 < g@.len() && keys@[q].0
                == g@[keys@[q].2 as int].start && keys@[q].1 == g@[keys@[q].2 as int].end,
            forall|q: int| 0 <= q < k ==> same_tx(#[trigger] r@[q], g@[keys@[q].2 as int]),
        decreases keys.len() - k,
    {
        let t = g[keys[k].2].duplicate();
        r.push(t);
        k = k + 1;
    }
    proof {
        assert forall|a: int, b: int| 0 <= a < b < r@.len() implies bounds_le(#[trigger] r@[a], #[trigger] r@[b]) by {
            assert(same_tx(r@[a], g@[keys@[a].2 as int]));
            assert(same_tx(r@[b], g@[keys@[b].2 as int]));
            assert(keys@[a].0 < keys@[b].0 || (keys@[a].0 == keys@[b].0 && keys@[a].1 <= keys@[b].1));
        }
        assert forall|q: int| 0 <= q < r@.len() implies same_tx(#[trigger] r@[q], g@[perm[q]]) by {
            assert(same_tx(r@[q], g@[keys@[q].2 as int]));
        }
    }
    (r, Ghost(perm), Ghost(inv))
}


/// Groups in the making: names distinct and indexed, each group non-empty
/// and on its chromosome.
pub open spec fn grouping(index: Map<Seq<char>, usize>, chroms: Seq<String>, groups: Seq<Vec<GenePred>>) -> bool {
    &&& chroms.len() == groups.len()
    &&& forall|k: int|
        0 <= k < chroms.len() ==> index.contains_key((#[trigger] chroms[k])@) && index[chroms[k]@] == k
    &&& forall|key: Seq<char>|
        #[trigger] index.contains_key(key) ==> index[key] < chroms.len() && chroms[index[key] as int]@
            == key
    &&& forall|k: int| 0 <= k < groups.len() ==> (#[trigger] groups[k])@.len() > 0
    &&& forall|k: int, q: int|
        0 <= k < groups.len() && 0 <= q < groups[k]@.len() ==> fits(#[trigger] groups[k]@[q], chroms[k]@)
}


/// Where the lines read so far went: `pos[n]` is the position of the parse
/// of record line `n`, and `origin[k][q]` the line of position `(k, q)`.
pub open spec fn paired(
    groups: Seq<Vec<GenePred>>,
    done: Seq<Seq<char>>,
    pos: Seq<(int, int)>,
    origin: Seq<Seq<int>>,
    cds: bool,
) -> bool {
    &&& pos.len() == done.len()
    &&& origin.len() == groups.len()
    &&& forall|k: int| 0 <= k < groups.len() ==> (#[trigger] origin[k]).len() == groups[k]@.len()
    &&& forall|n: int|
        0 <= n < done.len() && is_record(#[trigger] done[n], cds) ==> placed_parse(groups, done, pos, cds, n)
            && origin[pos[n].0][pos[n].1] == n
    &&& forall|k: int, q: int|
        0 <= k < groups.len() && 0 <= q < groups[k]@.len() ==> #[trigger] back_ok(done, pos, origin, cds, k, q)
}

/// Position `(k, q)` came from record line `origin[k][q]`, which `pos` maps back to it.
pub open spec fn back_ok(done: Seq<Seq<char>>, pos: Seq<(int, int)>, origin: Seq<Seq<int>>, cds: bool, k: int, q: int) -> bool {
    &&& 0 <= origin[k][q] < done.len()
    &&& is_record(done[origin[k][q]], cds)
    &&& pos[origin[k][q]] == (k, q)
}

/// Reads every line of `contents`: comments are skipped, lines that fail to
/// parse are counted and left out, and the transcripts are grouped by
/// chromosome, each group in ascending (start, end) order.
pub fn parse_tracks(contents: &str, cds_overlap: bool) -> (r: Tracks)
    ensures
        r.wf(),
        r.from_lines(lines(contents@), cds_overlap),
        r.dropped == failed_lines(lines(contents@), cds_overlap, lines(contents@).len() as int),
{
    let cs = chars_of(contents);
    let mut index = ChromIndex::new();
    let mut chroms: Vec<String> = Vec::new();
    let mut groups: Vec<Vec<GenePred>> = Vec::new();
    let mut dropped: usize = 0;
    let ghost mut done: Seq<Seq<char>> = Seq::empty();
    let ghost mut pos: Seq<(int, int)> = Seq::empty();
    let ghost mut origin: Seq<Seq<int>> = Seq::empty();
    let mut i: usize = 0;
    while i < cs.len()
        invariant
            cs@ == contents@,
            i <= cs@.len(),
            lines(cs@) == done + lines_from(cs@, i as int),
            grouping(chrom_index_contents(index), chroms@, groups@),
            paired(groups@, done, pos, origin, cds_overlap),
            dropped == failed_lines(done, cds_overlap, done.len() as int),
            dropped <= i,
        decreases cs.len() - i,
    {
        let j = find_sep(&cs, i, '\n');
        let mut e = j;
        if j < cs.len() && j > i && cs[j - 1] == '\r' {
            e = j - 1;
        }
        let line = contents.substring_char(i, e);
        let ghost l = line@;
        assert(l == line_body(cs@, i as int, j as int));
        let ghost old_done = done;
        let comment = e > i && cs[i] == '#';
        assert(comment == is_comment(l));
        let mut added = false;
        if !comment {
            match Bed12::parse(line, cds_overlap) {
                Ok(g) => {
                    let ghost gv = g;
                    let ghost old_groups = groups@;
                    let at = add_record(&mut index, &mut chroms, &mut groups, g);
                    proof {
                        let n = done.len() as int;
                        let origin2 = if at.0 == old_groups.len() {
                            origin.push(seq![n])
                        } else {
                            origin.update(at.0 as int, origin[at.0 as int].push(n))
                        };
                        lemma_paired_add(
                            old_groups,
                            groups@,
                            done,
                            l,
                            pos,
                            origin,
                            origin2,
                            (at.0 as int, at.1 as int),
                            cds_overlap,
                        );
                        done = done.push(l);
                        pos = pos.push((at.0 as int, at.1 as int));
                        origin = origin2;
                    }
                    added = true;
                },
                Err(_) => {
                    dropped = dropped + 1;
                },
            }
        }
        proof {
            lemma_failed_prefix(old_done, l, cds_overlap, old_done.len() as int);
            if !added {
                lemma_paired_line(groups@, done, l, pos, origin, cds_overlap);
                done = done.push(l);
                pos = pos.push((0int, 0int));
            }
        }
        proof {
            if j >= cs@.len() {
                assert(lines_from(cs@, i as int) == seq![l]);
                assert(lines_from(cs@, cs@.len() as int) == Seq::<Seq<char>>::empty());
                assert(lines(cs@) =~= done + lines_from(cs@, cs@.len() as int));
            } else {
                assert(lines_from(cs@, i as int) == seq![l] + lines_from(cs@, j + 1));
                assert(lines(cs@) =~= done + lines_from(cs@, j + 1));
            }
        }
        if j >= cs.len() {
            i = cs.len();
        } else {
            i = j + 1;
        }
    }
    assert(lines_from(cs@, i as int) == Seq::<Seq<char>>::empty());
    assert(lines(cs@) =~= done);
    sort_groups(
        chroms,
        groups,
        dropped,
        Ghost(chrom_index_contents(index)),
        Ghost(done),
        Ghost(pos),
        Ghost(origin),
        Ghost(cds_overlap),
    )
}

/// A line that adds no transcript: the record lines and positions stay paired.
proof fn lemma_paired_line(
    groups: Seq<Vec<GenePred>>,
    done: Seq<Seq<char>>,
    l: Seq<char>,
    pos: Seq<(int, int)>,
    origin: Seq<Seq<int>>,
    cds: bool,
)
    requires
        paired(groups, done, pos, origin, cds),
        !is_record(l, cds),
    ensures
        paired(groups, done.push(l), pos.push((0int, 0int)), origin, cds),
{
    let d = done.push(l);
    let p = pos.push((0int, 0int));
    assert forall|n: int| 0 <= n < d.len() && is_record(#[trigger] d[n], cds) implies placed_parse(groups, d, p, cds, n)
        && origin[p[n].0][p[n].1] == n by {
        assert(d[n] == done[n] && p[n] == pos[n]);
        assert(placed_parse(groups, done, pos, cds, n));
    }
    assert forall|k: int, q: int| 0 <= k < groups.len() && 0 <= q < groups[k]@.len() implies #[trigger] back_ok(
        d,
        p,
        origin,
        cds,
        k,
        q,
    ) by {
        assert(back_ok(done, pos, origin, cds, k, q));
        assert(d[origin[k][q]] == done[origin[k][q]]);
        assert(p[origin[k][q]] == pos[origin[k][q]]);
    }
}

/// The parse of record line `l`, put at `at`: the lines and positions stay paired.
proof fn lemma_paired_add(
    before: Seq<Vec<GenePred>>,
    after: Seq<Vec<GenePred>>,
    done: Seq<Seq<char>>,
    l: Seq<char>,
    pos: Seq<(int, int)>,
    origin: Seq<Seq<int>>,
    origin2: Seq<Seq<int>>,
    at: (int, int),
    cds: bool,
)
    requires
        paired(before, done, pos, origin, cds),
        is_record(l, cds),
        0 <= at.0 <= before.len(),
        after.len() == if at.0 == before.len() { before.len() + 1int } else { before.len() as int },
        forall|a: int| 0 <= a < before.len() && a != at.0 ==> #[trigger] after[a] == before[a],
        at.0 < before.len() ==> after[at.0]@.len() == before[at.0]@.len() + 1 && at.1 == before[at.0]@.len()
            && forall|q: int| 0 <= q < before[at.0]@.len() ==> after[at.0]@[q] == before[at.0]@[q],
        at.0 == before.len() ==> after[at.0]@.len() == 1 && at.1 == 0,
        is_parse_of(after[at.0]@[at.1], l, cds),
        origin2 == if at.0 == before.len() {
            origin.push(seq![done.len() as int])
        } else {
            origin.update(at.0, origin[at.0].push(done.len() as int))
        },
    ensures
        paired(after, done.push(l), pos.push(at), origin2, cds),
{
    let d = done.push(l);
    let p = pos.push(at);
    let n0 = done.len() as int;
    assert forall|a: int| 0 <= a < after.len() implies (#[trigger] origin2[a]).len() == after[a]@.len() by {
        if a != at.0 {
            assert(after[a] == before[a]);
        }
    }
    assert forall|n: int| 0 <= n < d.len() && is_record(#[trigger] d[n], cds) implies placed_parse(after, d, p, cds, n)
        && origin2[p[n].0][p[n].1] == n by {
        if n < n0 {
            assert(d[n] == done[n] && p[n] == pos[n]);
            assert(placed_parse(before, done, pos, cds, n));
            let (k, q) = pos[n];
            if k != at.0 {
                assert(after[k] == before[k]);
                assert(origin2[k] == origin[k]);
            } else {
                assert(after[k]@[q] == before[k]@[q]);
                assert(origin2[k][q] == origin[k][q]);
            }
        } else {
            assert(d[n] == l && p[n] == at);
        }
    }
    assert forall|k: int, q: int| 0 <= k < after.len() && 0 <= q < after[k]@.len() implies #[trigger] back_ok(
        d,
        p,
        origin2,
        cds,
        k,
        q,
    ) by {
        if k != at.0 {
            assert(after[k] == before[k]);
            assert(origin2[k] == origin[k]);
            assert(back_ok(done, pos, origin, cds, k, q));
            assert(d[origin[k][q]] == done[origin[k][q]]);
            assert(p[origin[k][q]] == pos[origin[k][q]]);
        } else if q != at.1 {
            assert(k < before.len());
            assert(origin2[k][q] == origin[k][q]);
            assert(back_ok(done, pos, origin, cds, k, q));
            assert(d[origin[k][q]] == done[origin[k][q]]);
            assert(p[origin[k][q]] == pos[origin[k][q]]);
        } else {
            assert(origin2[k][q] == n0);
            assert(d[n0] == l && p[n0] == at);
        }
    }
}


/// Adds a transcript to the group of its chromosome; returns where it went.
fn add_record(index: &mut ChromIndex, chroms: &mut Vec<String>, groups: &mut Vec<Vec<GenePred>>, g: GenePred) -> (at: (usize, usize))
    requires
        grouping(chrom_index_contents(*old(index)), old(chroms)@, old(groups)@),
        g.wf(),
    ensures
        grouping(chrom_index_contents(*final(index)), final(chroms)@, final(groups)@),
        final(groups)@.len() >= old(groups)@.len(),
        forall|k: int| 0 <= k < old(groups)@.len() ==> (#[trigger] final(groups)@[k])@.len() >= old(groups)@[k]@.len()
            && forall|q: int| 0 <= q < old(groups)@[k]@.len() ==> final(groups)@[k]@[q] == old(groups)@[k]@[q],
        at.0 < final(groups)@.len(),
        at.1 < final(groups)@[at.0 as int]@.len(),
        final(groups)@[at.0 as int]@[at.1 as int] == g,
        at.0 <= old(groups)@.len(),
        final(groups)@.len() == if at.0 == old(groups)@.len() {
            old(groups)@.len() + 1int
        } else {
            old(groups)@.len() as int
        },
        forall|a: int| 0 <= a < old(groups)@.len() && a != at.0 ==> #[trigger] final(groups)@[a] == old(groups)@[a],
        at.1 + 1 == final(groups)@[at.0 as int]@.len(),
        at.0 < old(groups)@.len() ==> at.1 == old(groups)@[at.0 as int]@.len(),
        at.0 == old(groups)@.len() ==> at.1 == 0,
{
    let ghost gv = g;
    let ghost old_index = chrom_index_contents(*index);
    let ghost old_chroms = chroms@;
    let ghost old_groups = groups@;
    match index.get(g.chrom.as_str()) {
        Some(k) => {
            let mut grp: Vec<GenePred> = Vec::new();
            groups.set_and_swap(k, &mut grp);
            grp.push(g);
            let q = grp.len() - 1;
            groups.set_and_swap(k, &mut grp);
            proof {
                assert(groups@[k as int]@ == old_groups[k as int]@.push(gv));
                assert forall|a: int, b: int| 0 <= a < groups@.len() && 0 <= b < groups@[a]@.len() implies fits(
                    #[trigger] groups@[a]@[b],
                    chroms@[a]@,
                ) by {
                    if a != k {
                        assert(groups@[a] == old_groups[a]);
                    } else if b < old_groups[a]@.len() {
                        assert(groups@[a]@[b] == old_groups[a]@[b]);
                    }
                }
                assert forall|a: int| 0 <= a < groups@.len() implies (#[trigger] groups@[a])@.len() > 0 by {
                    if a != k {
                        assert(groups@[a] == old_groups[a]);
                    }
                }
                assert forall|a: int| 0 <= a < old_groups.len() implies (#[trigger] groups@[a])@.len() >= old_groups[a]@.len()
                    && forall|b: int| 0 <= b < old_groups[a]@.len() ==> groups@[a]@[b] == old_groups[a]@[b] by {
                    if a != k {
                        assert(groups@[a] == old_groups[a]);
                    }
                }
            }
            (k, q)
        },
        None => {
            let k = chroms.len();
            index.insert(g.chrom.clone(), k);
            chroms.push(g.chrom.clone());
            groups.push(vec![g]);
            proof {
                let ix = chrom_index_contents(*index);
                assert(groups@[k as int]@ == seq![gv]);
                assert forall|a: int| 0 <= a < chroms@.len() implies ix.contains_key((#[trigger] chroms@[a])@)
                    && ix[chroms@[a]@] == a by {
                    if a < old_chroms.len() {
                        assert(chroms@[a] == old_chroms[a]);
                    }
                }
                assert forall|key: Seq<char>| #[trigger] ix.contains_key(key) implies ix[key] < chroms@.len()
                    && chroms@[ix[key] as int]@ == key by {
                    if old_index.contains_key(key) {
                        assert(chroms@[old_index[key] as int] == old_chroms[old_index[key] as int]);
                    }
                }
                assert forall|a: int, b: int| 0 <= a < groups@.len() && 0 <= b < groups@[a]@.len() implies fits(
                    #[trigger] groups@[a]@[b],
                    chroms@[a]@,
                ) by {
                    if a < old_groups.len() {
                        assert(groups@[a] == old_groups[a]);
                        assert(chroms@[a] == old_chroms[a]);
                    }
                }
                assert forall|a: int| 0 <= a < groups@.len() implies (#[trigger] groups@[a])@.len() > 0 by {
                    if a < old_groups.len() {
                        assert(groups@[a] == old_groups[a]);
                    }
                }
                assert forall|a: int| 0 <= a < old_groups.len() implies (#[trigger] groups@[a])@.len() >= old_groups[a]@.len()
                    && forall|b: int| 0 <= b < old_groups[a]@.len() ==> groups@[a]@[b] == old_groups[a]@[b] by {
                    assert(groups@[a] == old_groups[a]);
                }
            }
            (k, 0)
        },
    }
}


/// Equal fields make equal parses.
proof fn lemma_same_parse(a: GenePred, b: GenePred, line: Seq<char>, cds: bool)
    requires
        same_tx(a, b),
        is_parse_of(a, line, cds),
    ensures
        is_parse_of(b, line, cds),
{
    assert(a.exons@.to_set() == b.exons@.to_set());
}

/// Puts every group in ascending (start, end) order.
fn sort_groups(
    chroms: Vec<String>,
    groups: Vec<Vec<GenePred>>,
    dropped: usize,
    fin_index: Ghost<Map<Seq<char>, usize>>,
    done: Ghost<Seq<Seq<char>>>,
    pos: Ghost<Seq<(int, int)>>,
    origin: Ghost<Seq<Seq<int>>>,
    cds_overlap: Ghost<bool>,
) -> (r: Tracks)
    requires
        grouping(fin_index@, chroms@, groups@),
        paired(groups@, done@, pos@, origin@, cds_overlap@),
    ensures
        r.wf(),
        r.from_lines(done@, cds_overlap@),
        r.dropped == dropped,
{
    let mut sorted: Vec<Vec<GenePred>> = Vec::new();
    let ghost mut perms: Seq<Seq<int>> = Seq::empty();
    let ghost mut invs: Seq<Seq<int>> = Seq::empty();
    let mut k: usize = 0;
    while k < groups.len()
        invariant
            k <= groups@.len(),
            sorted@.len() == k,
            perms.len() == k,
            invs.len() == k,
            forall|a: int| 0 <= a < k ==> sorted_by((#[trigger] sorted@[a])@, groups@[a]@, perms[a], invs[a]),
        decreases groups.len() - k,
    {
        let (g, perm, inv) = sort_group(&groups[k]);
        sorted.push(g);
        proof {
            perms = perms.push(perm@);
            invs = invs.push(inv@);
            assert forall|a: int| 0 <= a < k + 1 implies sorted_by((#[trigger] sorted@[a])@, groups@[a]@, perms[a], invs[a]) by {
                if a == k {
                    assert(sorted@[a] == g);
                }
            }
        }
        k = k + 1;
    }
    let r = Tracks { chroms, groups: sorted, dropped };
    proof {
        let ix = fin_index@;
        let gs = groups@;
        let ls = done@;
        let cds = cds_overlap@;
        let rg = r.groups@;
        assert forall|a: int, b: int| 0 <= a < b < r.chroms@.len() implies (#[trigger] r.chroms@[a])@ != (
        #[trigger] r.chroms@[b])@ by {
            assert(ix[r.chroms@[a]@] == a);
            assert(ix[r.chroms@[b]@] == b);
        }
        assert forall|a: int, q: int| 0 <= a < rg.len() && 0 <= q < rg[a]@.len() implies (
        #[trigger] rg[a]@[q]).chrom@ == r.chroms@[a]@ && rg[a]@[q].wf() by {
            assert(sorted_by(rg[a]@, gs[a]@, perms[a], invs[a]));
            assert(same_tx(rg[a]@[q], gs[a]@[perms[a][q]]));
            assert(fits(gs[a]@[perms[a][q]], chroms@[a]@));
        }
        assert forall|a: int| 0 <= a < rg.len() implies (#[trigger] rg[a])@.len() > 0 by {
            assert(sorted_by(rg[a]@, gs[a]@, perms[a], invs[a]));
            assert(gs[a]@.len() > 0);
        }
        assert forall|a: int, q: int, t: int| 0 <= a < rg.len() && 0 <= q < t < rg[a]@.len() implies bounds_le(
            #[trigger] rg[a]@[q],
            #[trigger] rg[a]@[t],
        ) by {
            assert(sorted_by(rg[a]@, gs[a]@, perms[a], invs[a]));
        }
        let pos2 = Seq::new(ls.len(), |n: int| (pos@[n].0, invs[pos@[n].0][pos@[n].1]));
        assert forall|n: int| 0 <= n < ls.len() && is_record(#[trigger] ls[n], cds) implies placed_parse(
            rg,
            ls,
            pos2,
            cds,
            n,
        ) by {
            assert(placed_parse(gs, ls, pos@, cds, n));
            let (a, q) = pos@[n];
            assert(sorted_by(rg[a]@, gs[a]@, perms[a], invs[a]));
            let q2 = invs[a][q];
            assert(0 <= q2 < rg[a]@.len() && perms[a][q2] == q);
            assert(same_tx(rg[a]@[q2], gs[a]@[q]));
            assert(same_tx(gs[a]@[q], rg[a]@[q2]));
            lemma_same_parse(gs[a]@[q], rg[a]@[q2], ls[n], cds);
        }
        assert forall|n1: int, n2: int|
            0 <= n1 < ls.len() && 0 <= n2 < ls.len() && is_record(ls[n1], cds) && is_record(ls[n2], cds) && n1
                != n2 implies #[trigger] pos2[n1] != #[trigger] pos2[n2] by {
            assert(placed_parse(gs, ls, pos@, cds, n1));
            assert(placed_parse(gs, ls, pos@, cds, n2));
            let (a1, q1) = pos@[n1];
            let (a2, q2) = pos@[n2];
            if pos2[n1] == pos2[n2] {
                assert(a1 == a2);
                assert(sorted_by(rg[a1]@, gs[a1]@, perms[a1], invs[a1]));
                assert(perms[a1][invs[a1][q1]] == q1);
                assert(perms[a1][invs[a1][q2]] == q2);
                assert(origin@[a1][q1] == n1);
                assert(origin@[a2][q2] == n2);
            }
        }
        assert forall|a: int, q2: int| 0 <= a < rg.len() && 0 <= q2 < rg[a]@.len() implies #[trigger] hit(
            ls,
            pos2,
            cds,
            a,
            q2,
        ) by {
            assert(sorted_by(rg[a]@, gs[a]@, perms[a], invs[a]));
            let q = perms[a][q2];
            assert(0 <= q < gs[a]@.len() && invs[a][q] == q2);
            assert(back_ok(ls, pos@, origin@, cds, a, q));
            let n = origin@[a][q];
            assert(pos2[n] == (a, q2));
        }
        assert(line_map(rg, ls, pos2, cds));
    }
    r
}


proof fn lemma_failed_prefix(done: Seq<Seq<char>>, l: Seq<char>, cds: bool, n: int)
    requires
        0 <= n <= done.len(),
    ensures
        failed_lines(done.push(l), cds, n) == failed_lines(done, cds, n),
    decreases n,
{
    if n > 0 {
        lemma_failed_prefix(done, l, cds, n - 1);
        assert(done.push(l)[n - 1] == done[n - 1]);
    }
}


} // verus!
