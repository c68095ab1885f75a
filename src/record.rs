//! One BED12 record: its text fields, the strand-normalised coordinates and
//! the exon and intron intervals derived from its blocks.
use vstd::prelude::*;

use crate::collections::{interval_set_contents, IntervalSet};
use crate::text::{
    chars_of, field, field_end, field_start, find_sep, has_field, is_u64_text, lemma_next_sep_bounds,
    number_list,
    parse_number_list, parse_u64_range, u64_value,
};

verus! {

broadcast use vstd::seq_lib::group_to_multiset_ensures;

/// Reverse-strand coordinates are mirrored around this point, so that both
/// strands are ordered by plain ascending position.
pub const SCALE: u64 = 100000000000;

/// Why a line is not a transcript.
#[derive(Debug, Clone, Copy, PartialEq, Eq, Structural)]
pub enum ParseError {
    EmptyLine,
    MissingField,
    InvalidStrand,
    InvalidNumber,
    CoordinateOutOfRange,
    UnorderedBounds,
    BlockCountMismatch,
    ExonOutsideCds,
    OverlappingExons,
}

/// The text that describes an error.
pub open spec fn error_text(e: ParseError) -> Seq<char> {
    match e {
        ParseError::EmptyLine => "Empty line"@,
        ParseError::MissingField => "Missing field"@,
        ParseError::InvalidStrand => "Strand is not + or -"@,
        ParseError::InvalidNumber => "Cannot parse field"@,
        ParseError::CoordinateOutOfRange => "Coordinate out of range"@,
        ParseError::UnorderedBounds => "Transcript and CDS bounds are out of order"@,
        ParseError::BlockCountMismatch => "Exon start and end vectors have different lengths"@,
        ParseError::ExonOutsideCds => "UTRs are not allowed in CDS exons"@,
        ParseError::OverlappingExons => "Exon blocks overlap"@,
    }
}

impl ParseError {
    pub fn message(&self) -> (r: &'static str)
        ensures
            r@ == error_text(*self),
    {
        match self {
            ParseError::EmptyLine => "Empty line",
            ParseError::MissingField => "Missing field",
            ParseError::InvalidStrand => "Strand is not + or -",
            ParseError::InvalidNumber => "Cannot parse field",
            ParseError::CoordinateOutOfRange => "Coordinate out of range",
            ParseError::UnorderedBounds => "Transcript and CDS bounds are out of order",
            ParseError::BlockCountMismatch => "Exon start and end vectors have different lengths",
            ParseError::ExonOutsideCds => "UTRs are not allowed in CDS exons",
            ParseError::OverlappingExons => "Exon blocks overlap",
        }
    }
}

/// The BED12 format.
#[derive(Debug, PartialEq, Clone, Copy)]
pub struct Bed12;

/// A transcript with strand-normalised coordinates.
#[derive(Debug, Clone)]
pub struct GenePred {
    pub name: String,
    pub chrom: String,
    pub strand: char,
    pub start: u64,
    pub end: u64,
    pub cds_start: u64,
    pub cds_end: u64,
    pub exons: Vec<(u64, u64)>,
    pub introns: Vec<(u64, u64)>,
    pub exon_count: usize,
    pub line: String,
}

/// `a` comes before `b` in (start, end) order.
pub open spec fn pair_lt(a: (u64, u64), b: (u64, u64)) -> bool {
    a.0 < b.0 || (a.0 == b.0 && a.1 < b.1)
}

/// Strictly ascending in (start, end) order, hence without repeats.
pub open spec fn strictly_sorted(s: Seq<(u64, u64)>) -> bool {
    forall|i: int, j: int| 0 <= i < j < s.len() ==> pair_lt(#[trigger] s[i], #[trigger] s[j])
}

/// No two distinct intervals of `s` share a position, and none is reversed.
pub open spec fn disjoint_intervals(s: Set<(u64, u64)>) -> bool {
    &&& forall|a: (u64, u64)| #[trigger] s.contains(a) ==> a.0 <= a.1
    &&& forall|a: (u64, u64), b: (u64, u64)|
        #[trigger] s.contains(a) && #[trigger] s.contains(b) && a != b ==> a.1 <= b.0 || b.1 <= a.0
}

/// The positive-length gaps between consecutive intervals of `e`.
pub open spec fn gaps(e: Seq<(u64, u64)>) -> Seq<(u64, u64)>
    decreases e.len(),
{
    if e.len() < 2 {
        Seq::empty()
    } else {
        let g = gaps(e.drop_last());
        let a = e[e.len() - 2];
        let b = e[e.len() - 1];
        if a.1 < b.0 {
            g.push((a.1, b.0))
        } else {
            g
        }
    }
}

/// A reverse-strand coordinate, mirrored around `SCALE`.
pub open spec fn mirror(x: int) -> int {
    SCALE - x
}

/// Strand-normalised (start, end, cds_start, cds_end) of the raw coordinates.
pub open spec fn normalized(forward: bool, s: int, e: int, cs: int, ce: int) -> (int, int, int, int) {
    if forward {
        (s, e, cs, ce)
    } else {
        (mirror(e), mirror(s), mirror(ce), mirror(cs))
    }
}

/// What `abs_pos` yields for four coordinate texts and a strand.
pub open spec fn spec_abs_pos(
    s: Seq<char>,
    e: Seq<char>,
    cs: Seq<char>,
    ce: Seq<char>,
    strand: char,
) -> Result<(u64, u64, u64, u64), ParseError> {
    if strand != '+' && strand != '-' {
        Err(ParseError::InvalidStrand)
    } else if !(is_u64_text(s) && is_u64_text(e) && is_u64_text(cs) && is_u64_text(ce)) {
        Err(ParseError::InvalidNumber)
    } else if strand == '-' && (u64_value(s) > SCALE || u64_value(e) > SCALE || u64_value(cs)
        > SCALE || u64_value(ce) > SCALE) {
        Err(ParseError::CoordinateOutOfRange)
    } else {
        let n = normalized(
            strand == '+',
            u64_value(s),
            u64_value(e),
            u64_value(cs),
            u64_value(ce),
        );
        Ok((n.0 as u64, n.1 as u64, n.2 as u64, n.3 as u64))
    }
}

/// The exon of one block: `s` is its start relative to the transcript,
/// `z` its size; forward blocks count from `tx_start`, reverse ones back
/// from the (normalised) `tx_end`. Under the CDS policy the exon is clipped
/// to `[cs, ce)`, and one with no position left inside it is an error.
pub open spec fn block_exon(
    forward: bool,
    tx_start: int,
    tx_end: int,
    s: int,
    z: int,
    cds: bool,
    cs: int,
    ce: int,
) -> Result<(u64, u64), ParseError> {
    let a = if forward { tx_start + s } else { tx_end - s - z };
    let b = if forward { tx_start + s + z } else { tx_end - s };
    if a < 0 || b > u64::MAX {
        Err(ParseError::CoordinateOutOfRange)
    } else if !cds {
        Ok((a as u64, b as u64))
    } else {
        let lo = if a < cs { cs } else { a };
        let hi = if b > ce { ce } else { b };
        if lo < hi {
            Ok((lo as u64, hi as u64))
        } else {
            Err(ParseError::ExonOutsideCds)
        }
    }
}

/// The exons of the first `n` blocks, or the error of the first block that has one.
pub open spec fn block_exons(
    forward: bool,
    tx_start: int,
    tx_end: int,
    starts: Seq<u64>,
    sizes: Seq<u64>,
    cds: bool,
    cs: int,
    ce: int,
    n: int,
) -> Result<Seq<(u64, u64)>, ParseError>
    decreases n,
{
    if n <= 0 {
        Ok(Seq::empty())
    } else {
        match block_exons(forward, tx_start, tx_end, starts, sizes, cds, cs, ce, n - 1) {
            Err(e) => Err(e),
            Ok(p) => match block_exon(
                forward,
                tx_start,
                tx_end,
                starts[n - 1] as int,
                sizes[n - 1] as int,
                cds,
                cs,
                ce,
            ) {
                Err(e) => Err(e),
                Ok(x) => Ok(p.push(x)),
            },
        }
    }
}

/// The set of exons that `get_coords` derives from block texts and
/// normalised coordinates.
pub open spec fn spec_exon_set(
    starts: Seq<char>,
    sizes: Seq<char>,
    tx_start: u64,
    tx_end: u64,
    cds_start: u64,
    cds_end: u64,
    strand: char,
    cds: bool,
) -> Result<Set<(u64, u64)>, ParseError> {
    match (number_list(starts), number_list(sizes)) {
        (Some(ss), Some(sz)) => {
            if ss.len() != sz.len() {
                Err(ParseError::BlockCountMismatch)
            } else if strand != '+' && strand != '-' {
                Err(ParseError::InvalidStrand)
            } else {
                match block_exons(
                    strand == '+',
                    tx_start as int,
                    tx_end as int,
                    ss,
                    sz,
                    cds,
                    cds_start as int,
                    cds_end as int,
                    ss.len() as int,
                ) {
                    Err(e) => Err(e),
                    Ok(x) => if disjoint_intervals(x.to_set()) {
                        Ok(x.to_set())
                    } else {
                        Err(ParseError::OverlappingExons)
                    },
                }
            }
        },
        _ => Err(ParseError::InvalidNumber),
    }
}

/// Number of tab-separated fields that a record has.
pub const FIELD_COUNT: usize = 12;

/// The strand character of a line: its sixth field, when that is one character.
pub open spec fn strand_of(line: Seq<char>) -> Option<char> {
    if field(line, 5).len() == 1 {
        Some(field(line, 5)[0])
    } else {
        None
    }
}

/// The normalised coordinates of a line with all its fields.
pub open spec fn coords_of(line: Seq<char>) -> Result<(u64, u64, u64, u64), ParseError> {
    spec_abs_pos(
        field(line, 1),
        field(line, 2),
        field(line, 6),
        field(line, 7),
        strand_of(line).unwrap(),
    )
}

/// The exon set of a line whose coordinates are in order.
pub open spec fn exon_set_of(line: Seq<char>, cds: bool) -> Result<Set<(u64, u64)>, ParseError> {
    let c = coords_of(line)->Ok_0;
    spec_exon_set(field(line, 11), field(line, 10), c.0, c.1, c.2, c.3, strand_of(line).unwrap(), cds)
}

/// The error that `Bed12::parse` reports for a line, if any.
pub open spec fn parse_error(line: Seq<char>, cds: bool) -> Option<ParseError> {
    if line.len() == 0 {
        Some(ParseError::EmptyLine)
    } else if !has_field(line, (FIELD_COUNT - 1) as nat) {
        Some(ParseError::MissingField)
    } else if strand_of(line) is None || (strand_of(line).unwrap() != '+' && strand_of(line).unwrap()
        != '-') {
        Some(ParseError::InvalidStrand)
    } else if coords_of(line) is Err {
        Some(coords_of(line)->Err_0)
    } else if !({
        let c = coords_of(line)->Ok_0;
        c.0 <= c.2 && c.2 <= c.3 && c.3 <= c.1
    }) {
        Some(ParseError::UnorderedBounds)
    } else if exon_set_of(line, cds) is Err {
        Some(exon_set_of(line, cds)->Err_0)
    } else {
        None
    }
}

/// `t` is what `Bed12::parse` makes of `line`: the line holds a record, and
/// every field of `t` is read from it.
pub open spec fn is_parse_of(t: GenePred, line: Seq<char>, cds: bool) -> bool {
    &&& parse_error(line, cds) is None
    &&& t.wf()
    &&& t.line@ == line
    &&& t.chrom@ == field(line, 0)
    &&& t.name@ == field(line, 3)
    &&& Some(t.strand) == strand_of(line)
    &&& coords_of(line) == Ok::<(u64, u64, u64, u64), ParseError>((t.start, t.end, t.cds_start, t.cds_end))
    &&& exon_set_of(line, cds) == Ok::<Set<(u64, u64)>, ParseError>(t.exons@.to_set())
}

impl GenePred {
    /// The invariant of every transcript: bounds in order, exons ascending
    /// and pairwise disjoint, introns the positive-length gaps between them.
    pub open spec fn wf(&self) -> bool {
        &&& self.start <= self.cds_start <= self.cds_end <= self.end
        &&& strictly_sorted(self.exons@)
        &&& disjoint_intervals(self.exons@.to_set())
        &&& self.introns@ == gaps(self.exons@)
        &&& self.exon_count == self.exons@.len()
    }

    pub fn line(&self) -> (r: &String)
        ensures
            r == &self.line,
    {
        &self.line
    }

    pub fn name(&self) -> (r: &String)
        ensures
            r == &self.name,
    {
        &self.name
    }
}

/// `s` with `v` in place of its `k`-th tab-separated field; `s` itself when
/// it has no such field.
pub open spec fn replace_field(s: Seq<char>, k: nat, v: Seq<char>) -> Seq<char> {
    if has_field(s, k) {
        s.subrange(0, field_start(s, k)) + v + s.subrange(field_end(s, k), s.len() as int)
    } else {
        s
    }
}

proof fn lemma_field_start_grows(s: Seq<char>, k: nat)
    ensures
        field_start(s, k) >= 0,
        field_start(s, k + 1) > field_start(s, k) || field_start(s, k) > s.len(),
        field_start(s, k) > s.len() ==> field_start(s, k + 1) > s.len(),
        has_field(s, k) ==> field_start(s, k) <= field_end(s, k) <= s.len(),
    decreases k,
{
    if k > 0 {
        lemma_field_start_grows(s, (k - 1) as nat);
    }
    lemma_next_sep_bounds(s, field_start(s, k), '\t');
}

/// A field that is missing at `k` is missing at every later index.
proof fn lemma_missing_field_stays(s: Seq<char>, k: nat, m: nat)
    requires
        k <= m,
        !has_field(s, k),
    ensures
        !has_field(s, m),
    decreases m - k,
{
    if k < m {
        lemma_field_start_grows(s, k);
        lemma_missing_field_stays(s, k + 1, m);
    }
}

/// Positions of the `k`-th tab-separated field of `s`, or `None` when `s`
/// has fewer fields.
fn field_bounds(s: &Vec<char>, k: usize) -> (r: Option<(usize, usize)>)
    ensures
        match r {
            Some(b) => has_field(s@, k as nat) && b.0 == field_start(s@, k as nat) && b.1
                == field_end(s@, k as nat) && b.0 <= b.1 <= s.len(),
            None => !has_field(s@, k as nat),
        },
{
    let mut pos: usize = 0;
    let mut j: usize = 0;
    while j < k
        invariant
            j <= k,
            pos == field_start(s@, j as nat),
            pos <= s.len(),
        decreases k - j,
    {
        proof {
            lemma_field_start_grows(s@, j as nat);
        }
        let e = find_sep(s, pos, '\t');
        if e == s.len() {
            proof {
                lemma_missing_field_stays(s@, (j + 1) as nat, k as nat);
            }
            return None;
        }
        pos = e + 1;
        j = j + 1;
    }
    proof {
        lemma_field_start_grows(s@, k as nat);
    }
    let e = find_sep(s, pos, '\t');
    Some((pos, e))
}

impl GenePred {
    /// The same transcript with its line's colour field (the ninth) set to `color`.
    pub fn colorline(self, color: &str) -> (r: Self)
        ensures
            r.line@ == replace_field(self.line@, 8, color@),
            r.name == self.name,
            r.chrom == self.chrom,
            r.strand == self.strand,
            r.start == self.start,
            r.end == self.end,
            r.cds_start == self.cds_start,
            r.cds_end == self.cds_end,
            r.exons == self.exons,
            r.introns == self.introns,
            r.exon_count == self.exon_count,
            self.wf() ==> r.wf(),
    {
        let cs = chars_of(self.line.as_str());
        let new_line = match field_bounds(&cs, 8) {
            Some((a, b)) => {
                let text = self.line.as_str();
                let head = text.substring_char(0, a).to_owned();
                let with_color = head.concat(color);
                with_color.concat(text.substring_char(b, cs.len()))
            },
            None => self.line.clone(),
        };
        GenePred {
            line: new_line,
            name: self.name,
            chrom: self.chrom,
            strand: self.strand,
            start: self.start,
            end: self.end,
            cds_start: self.cds_start,
            cds_end: self.cds_end,
            exons: self.exons,
            introns: self.introns,
            exon_count: self.exon_count,
        }
    }
}

/// Reads the transcript and CDS bounds and normalises them to the strand.
pub fn abs_pos(tx_start: &str, tx_end: &str, cds_start: &str, cds_end: &str, strand: char) -> (r:
    Result<(u64, u64, u64, u64), ParseError>)
    ensures
        r == spec_abs_pos(tx_start@, tx_end@, cds_start@, cds_end@, strand),
{
    if strand != '+' && strand != '-' {
        return Err(ParseError::InvalidStrand);
    }
    let a = chars_of(tx_start);
    let b = chars_of(tx_end);
    let c = chars_of(cds_start);
    let d = chars_of(cds_end);
    assert(a@.subrange(0, a@.len() as int) =~= a@);
    assert(b@.subrange(0, b@.len() as int) =~= b@);
    assert(c@.subrange(0, c@.len() as int) =~= c@);
    assert(d@.subrange(0, d@.len() as int) =~= d@);
    let s = parse_u64_range(&a, 0, a.len());
    let e = parse_u64_range(&b, 0, b.len());
    let cs = parse_u64_range(&c, 0, c.len());
    let ce = parse_u64_range(&d, 0, d.len());
    match (s, e, cs, ce) {
        (Some(s), Some(e), Some(cs), Some(ce)) => {
            if strand == '+' {
                Ok((s, e, cs, ce))
            } else if s > SCALE || e > SCALE || cs > SCALE || ce > SCALE {
                Err(ParseError::CoordinateOutOfRange)
            } else {
                Ok((SCALE - e, SCALE - s, SCALE - ce, SCALE - cs))
            }
        },
        _ => Err(ParseError::InvalidNumber),
    }
}

/// The exon of one block, as `block_exon` describes it.
fn exon_of_block(
    forward: bool,
    tx_start: u64,
    tx_end: u64,
    s: u64,
    z: u64,
    cds: bool,
    cs: u64,
    ce: u64,
) -> (r: Result<(u64, u64), ParseError>)
    ensures
        r == block_exon(forward, tx_start as int, tx_end as int, s as int, z as int, cds, cs as int, ce as int),
{
    let a: u64;
    let b: u64;
    if forward {
        if s > u64::MAX - tx_start || z > u64::MAX - tx_start - s {
            return Err(ParseError::CoordinateOutOfRange);
        }
        a = tx_start + s;
        b = tx_start + s + z;
    } else {
        if s > tx_end || z > tx_end - s {
            return Err(ParseError::CoordinateOutOfRange);
        }
        a = tx_end - s - z;
        b = tx_end - s;
    }
    if !cds {
        Ok((a, b))
    } else {
        let lo = if a < cs { cs } else { a };
        let hi = if b > ce { ce } else { b };
        if lo < hi {
            Ok((lo, hi))
        } else {
            Err(ParseError::ExonOutsideCds)
        }
    }
}

/// Once a prefix of the blocks fails, every longer prefix fails the same way.
proof fn lemma_block_error_stays(
    forward: bool,
    tx_start: int,
    tx_end: int,
    starts: Seq<u64>,
    sizes: Seq<u64>,
    cds: bool,
    cs: int,
    ce: int,
    n: int,
    m: int,
)
    requires
        0 <= n <= m,
        block_exons(forward, tx_start, tx_end, starts, sizes, cds, cs, ce, n) is Err,
    ensures
        block_exons(forward, tx_start, tx_end, starts, sizes, cds, cs, ce, m) == block_exons(
            forward,
            tx_start,
            tx_end,
            starts,
            sizes,
            cds,
            cs,
            ce,
            n,
        ),
    decreases m - n,
{
    if n < m {
        lemma_block_error_stays(forward, tx_start, tx_end, starts, sizes, cds, cs, ce, n, m - 1);
    }
}

/// Inserts `x` into a strictly ascending vector, unless it is there already.
fn insert_sorted(v: &mut Vec<(u64, u64)>, x: (u64, u64))
    requires
        strictly_sorted(old(v)@),
    ensures
        strictly_sorted(final(v)@),
        forall|y: (u64, u64)| final(v)@.contains(y) <==> (old(v)@.contains(y) || y == x),
{
    let mut p: usize = 0;
    while p < v.len() && pair_lt_exec(v[p], x)
        invariant
            p <= v.len(),
            v@ == old(v)@,
            forall|k: int| 0 <= k < p ==> pair_lt(#[trigger] v@[k], x),
        decreases v.len() - p,
    {
        p = p + 1;
    }
    if p < v.len() && v[p].0 == x.0 && v[p].1 == x.1 {
        assert(v@[p as int] == x);
        assert(v@.contains(x));
        return;
    }
    let ghost old_v = v@;
    assert(old_v == old(v)@);
    v.insert(p, x);
    assert(v@ == old_v.insert(p as int, x));
    proof {
        assert forall|i: int, j: int| 0 <= i < j < v@.len() implies pair_lt(
            #[trigger] v@[i],
            #[trigger] v@[j],
        ) by {
            if j < p {
                assert(pair_lt(old_v[i], old_v[j]));
            } else if j == p {
            } else if i < p {
                assert(pair_lt(old_v[i], x));
                if j - 1 > p {
                    assert(pair_lt(old_v[p as int], old_v[j - 1]));
                }
            } else if i == p {
                if j - 1 > p {
                    assert(pair_lt(old_v[p as int], old_v[j - 1]));
                }
            } else {
                assert(pair_lt(old_v[i - 1], old_v[j - 1]));
            }
        }
        assert forall|y: (u64, u64)| #[trigger] v@.contains(y) <==> (old_v.contains(y) || y == x) by {
            if v@.contains(y) {
                let k = choose|k: int| 0 <= k < v@.len() && v@[k] == y;
                if k < p {
                    assert(old_v[k] == y);
                } else if k > p {
                    assert(old_v[k - 1] == y);
                }
            }
            if old_v.contains(y) {
                let k = choose|k: int| 0 <= k < old_v.len() && old_v[k] == y;
                if k < p {
                    assert(v@[k] == y);
                } else {
                    assert(v@[k + 1] == y);
                }
            }
            if y == x {
                assert(v@[p as int] == y);
            }
        }
    }
}

fn pair_lt_exec(a: (u64, u64), b: (u64, u64)) -> (r: bool)
    ensures
        r == pair_lt(a, b),
{
    a.0 < b.0 || (a.0 == b.0 && a.1 < b.1)
}

/// The distinct intervals of `v`, ascending in (start, end) order.
fn sorted_unique(v: &Vec<(u64, u64)>) -> (r: Vec<(u64, u64)>)
    ensures
        strictly_sorted(r@),
        forall|y: (u64, u64)| r@.contains(y) <==> v@.contains(y),
{
    let mut r: Vec<(u64, u64)> = Vec::new();
    let mut i: usize = 0;
    while i < v.len()
        invariant
            i <= v.len(),
            strictly_sorted(r@),
            forall|y: (u64, u64)| r@.contains(y) <==> v@.subrange(0, i as int).contains(y),
        decreases v.len() - i,
    {
        insert_sorted(&mut r, v[i]);
        proof {
            let pre = v@.subrange(0, i as int);
            let ext = v@.subrange(0, i + 1);
            assert forall|y: (u64, u64)| r@.contains(y) <==> ext.contains(y) by {
                if pre.contains(y) {
                    let k = choose|k: int| 0 <= k < pre.len() && pre[k] == y;
                    assert(ext[k] == y);
                }
                if ext.contains(y) {
                    let k = choose|k: int| 0 <= k < ext.len() && ext[k] == y;
                    if k < i {
                        assert(pre[k] == y);
                    }
                }
                if y == v@[i as int] {
                    assert(ext[i as int] == y);
                }
            }
        }
        i = i + 1;
    }
    assert(v@.subrange(0, v@.len() as int) =~= v@);
    r
}

/// The positive-length gaps between consecutive exons: the introns.
pub fn gapper(exons: &Vec<(u64, u64)>) -> (r: Vec<(u64, u64)>)
    ensures
        r@ == gaps(exons@),
{
    let mut r: Vec<(u64, u64)> = Vec::new();
    if exons.len() < 2 {
        return r;
    }
    let mut i: usize = 1;
    while i < exons.len()
        invariant
            1 <= i <= exons.len(),
            r@ == gaps(exons@.subrange(0, i as int)),
        decreases exons.len() - i,
    {
        let a = exons[i - 1];
        let b = exons[i];
        assert(exons@.subrange(0, i + 1).drop_last() =~= exons@.subrange(0, i as int));
        if a.1 < b.0 {
            r.push((a.1, b.0));
        }
        i = i + 1;
    }
    assert(exons@.subrange(0, exons@.len() as int) =~= exons@);
    r
}

/// Whether sorted exons are pairwise disjoint, checked on neighbours.
fn neighbours_disjoint(e: &Vec<(u64, u64)>) -> (r: bool)
    requires
        strictly_sorted(e@),
        forall|k: int| 0 <= k < e@.len() ==> (#[trigger] e@[k]).0 <= e@[k].1,
    ensures
        r == disjoint_intervals(e@.to_set()),
{
    let mut i: usize = 0;
    while e.len() > 0 && i < e.len() - 1
        invariant
            i < e.len() || e.len() == 0,
            strictly_sorted(e@),
            forall|k: int| 0 <= k < e@.len() ==> (#[trigger] e@[k]).0 <= e@[k].1,
            forall|p: int, q: int| 0 <= p < q <= i && q < e@.len() ==> (#[trigger] e@[p]).1 <= (
            #[trigger] e@[q]).0,
        decreases e.len() - i,
    {
        if e[i].1 > e[i + 1].0 {
            proof {
                let a = e@[i as int];
                let b = e@[i + 1];
                assert(pair_lt(a, b));
                assert(e@.to_set().contains(a));
                assert(e@.to_set().contains(b));
            }
            return false;
        }
        proof {
            assert forall|p: int, q: int| 0 <= p < q <= i + 1 && q < e@.len() implies (
            #[trigger] e@[p]).1 <= (#[trigger] e@[q]).0 by {
                if q == i + 1 && p < i {
                    assert(e@[p].1 <= e@[i as int].0);
                    assert(e@[i as int].0 <= e@[i as int].1);
                }
            }
        }
        i = i + 1;
    }
    proof {
        let s = e@.to_set();
        assert forall|a: (u64, u64)| #[trigger] s.contains(a) implies a.0 <= a.1 by {
            let k = choose|k: int| 0 <= k < e@.len() && e@[k] == a;
        }
        assert forall|a: (u64, u64), b: (u64, u64)|
            #[trigger] s.contains(a) && #[trigger] s.contains(b) && a != b implies a.1 <= b.0 || b.1
            <= a.0 by {
            let p = choose|k: int| 0 <= k < e@.len() && e@[k] == a;
            let q = choose|k: int| 0 <= k < e@.len() && e@[k] == b;
            if p < q {
                assert(e@[p].1 <= e@[q].0);
            } else {
                assert(e@[q].1 <= e@[p].0);
            }
        }
    }
    true
}

/// Computes the exons of a record from its block starts and sizes, and the
/// introns between them. Identical blocks count once.
pub fn get_coords(
    starts: &str,
    sizes: &str,
    tx_start: u64,
    tx_end: u64,
    cds_start: u64,
    cds_end: u64,
    strand: char,
    cds_overlap: bool,
) -> (r: Result<(Vec<(u64, u64)>, Vec<(u64, u64)>), ParseError>)
    ensures
        match r {
            Ok(p) => spec_exon_set(
                starts@,
                sizes@,
                tx_start,
                tx_end,
                cds_start,
                cds_end,
                strand,
                cds_overlap,
            ) == Ok::<Set<(u64, u64)>, ParseError>(p.0@.to_set()) && strictly_sorted(p.0@) && p.1@ == gaps(p.0@),
            Err(e) => spec_exon_set(
                starts@,
                sizes@,
                tx_start,
                tx_end,
                cds_start,
                cds_end,
                strand,
                cds_overlap,
            ) == Err::<Set<(u64, u64)>, ParseError>(e),
        },
{
    let sv = chars_of(starts);
    let zv = chars_of(sizes);
    let ss = match parse_number_list(&sv) {
        Some(v) => v,
        None => {
            return Err(ParseError::InvalidNumber);
        },
    };
    let sz = match parse_number_list(&zv) {
        Some(v) => v,
        None => {
            return Err(ParseError::InvalidNumber);
        },
    };
    if ss.len() != sz.len() {
        return Err(ParseError::BlockCountMismatch);
    }
    if strand != '+' && strand != '-' {
        return Err(ParseError::InvalidStrand);
    }
    let forward = strand == '+';
    let ghost n = ss@.len() as int;
    let mut set = IntervalSet::new();
    let ghost mut raw: Seq<(u64, u64)> = Seq::empty();
    let mut i: usize = 0;
    while i < ss.len()
        invariant
            i <= ss.len() == sz.len(),
            n == ss@.len(),
            number_list(starts@) == Some(ss@),
            number_list(sizes@) == Some(sz@),
            strand == '+' || strand == '-',
            forward == (strand == '+'),
            block_exons(
                forward,
                tx_start as int,
                tx_end as int,
                ss@,
                sz@,
                cds_overlap,
                cds_start as int,
                cds_end as int,
                i as int,
            ) == Ok::<Seq<(u64, u64)>, ParseError>(raw),
            interval_set_contents(set) == raw.to_set(),
            forall|k: int| 0 <= k < raw.len() ==> (#[trigger] raw[k]).0 <= raw[k].1,
        decreases ss.len() - i,
    {
        match exon_of_block(forward, tx_start, tx_end, ss[i], sz[i], cds_overlap, cds_start, cds_end) {
            Ok(x) => {
                proof {
                    raw.lemma_push_to_set_commute(x);
                    raw = raw.push(x);
                }
                set.insert(x);
            },
            Err(e) => {
                proof {
                    lemma_block_error_stays(
                        forward,
                        tx_start as int,
                        tx_end as int,
                        ss@,
                        sz@,
                        cds_overlap,
                        cds_start as int,
                        cds_end as int,
                        i + 1,
                        n,
                    );
                }
                return Err(e);
            },
        }
        i = i + 1;
    }
    let v = set.to_vec();
    let exons = sorted_unique(&v);
    proof {
        assert(exons@.to_set() =~= raw.to_set());
        assert forall|k: int| 0 <= k < exons@.len() implies (#[trigger] exons@[k]).0 <= exons@[k].1 by {
            assert(raw.to_set().contains(exons@[k]));
        }
    }
    if !neighbours_disjoint(&exons) {
        return Err(ParseError::OverlappingExons);
    }
    let introns = gapper(&exons);
    Ok((exons, introns))
}

/// A field that is present at `m` is present at every earlier index.
proof fn lemma_field_present(s: Seq<char>, k: nat, m: nat)
    requires
        k <= m,
        has_field(s, m),
    ensures
        has_field(s, k),
{
    if !has_field(s, k) {
        lemma_missing_field_stays(s, k, m);
    }
}

/// The text of the `k`-th tab-separated field of `line`.
fn field_text<'a>(line: &'a str, cs: &Vec<char>, k: usize) -> (r: &'a str)
    requires
        cs@ == line@,
        k <= FIELD_COUNT - 1,
        has_field(line@, (FIELD_COUNT - 1) as nat),
    ensures
        r@ == field(line@, k as nat),
{
    proof {
        lemma_field_present(line@, k as nat, (FIELD_COUNT - 1) as nat);
    }
    match field_bounds(cs, k) {
        Some((a, b)) => line.substring_char(a, b),
        None => line.substring_char(0, 0),
    }
}

impl Bed12 {
    /// Reads one record line into a transcript. Under `cds_overlap` each exon
    /// is clipped to the coding window.
    pub fn parse(line: &str, cds_overlap: bool) -> (r: Result<GenePred, ParseError>)
        ensures
            match r {
                Ok(g) => is_parse_of(g, line@, cds_overlap),
                Err(e) => parse_error(line@, cds_overlap) == Some(e),
            },
    {
        let cs = chars_of(line);
        if cs.len() == 0 {
            return Err(ParseError::EmptyLine);
        }
        if field_bounds(&cs, FIELD_COUNT - 1).is_none() {
            return Err(ParseError::MissingField);
        }
        let chrom = field_text(line, &cs, 0);
        let tx_start = field_text(line, &cs, 1);
        let tx_end = field_text(line, &cs, 2);
        let name = field_text(line, &cs, 3);
        let strand_field = field_text(line, &cs, 5);
        let cds_start = field_text(line, &cs, 6);
        let cds_end = field_text(line, &cs, 7);
        let exon_sizes = field_text(line, &cs, 10);
        let exon_starts = field_text(line, &cs, 11);
        let sc = chars_of(strand_field);
        if sc.len() != 1 {
            return Err(ParseError::InvalidStrand);
        }
        let strand = sc[0];
        if strand != '+' && strand != '-' {
            return Err(ParseError::InvalidStrand);
        }
        let (start, end, cds_lo, cds_hi) = match abs_pos(tx_start, tx_end, cds_start, cds_end, strand) {
            Ok(c) => c,
            Err(e) => {
                return Err(e);
            },
        };
        if !(start <= cds_lo && cds_lo <= cds_hi && cds_hi <= end) {
            return Err(ParseError::UnorderedBounds);
        }
        let (exons, introns) = match get_coords(
            exon_starts,
            exon_sizes,
            start,
            end,
            cds_lo,
            cds_hi,
            strand,
            cds_overlap,
        ) {
            Ok(p) => p,
            Err(e) => {
                return Err(e);
            },
        };
        let exon_count = exons.len();
        Ok(GenePred {
            name: name.to_owned(),
            chrom: chrom.to_owned(),
            strand,
            start,
            end,
            cds_start: cds_lo,
            cds_end: cds_hi,
            exons,
            introns,
            exon_count,
            line: line.to_owned(),
        })
    }
}

/// `a` and `b` hold the same values in every field.
pub open spec fn same_tx(a: GenePred, b: GenePred) -> bool {
    &&& a.name@ == b.name@
    &&& a.chrom@ == b.chrom@
    &&& a.strand == b.strand
    &&& a.start == b.start
    &&& a.end == b.end
    &&& a.cds_start == b.cds_start
    &&& a.cds_end == b.cds_end
    &&& a.exons@ == b.exons@
    &&& a.introns@ == b.introns@
    &&& a.exon_count == b.exon_count
    &&& a.line@ == b.line@
}

pub(crate) fn copy_intervals(v: &Vec<(u64, u64)>) -> (r: Vec<(u64, u64)>)
    ensures
        r@ == v@,
{
    let mut r: Vec<(u64, u64)> = Vec::new();
    let mut i: usize = 0;
    while i < v.len()
        invariant
            i <= v.len(),
            r@ == v@.subrange(0, i as int),
        decreases v.len() - i,
    {
        r.push(v[i]);
        assert(v@.subrange(0, i + 1) =~= v@.subrange(0, i as int).push(v@[i as int]));
        i = i + 1;
    }
    assert(v@.subrange(0, v@.len() as int) =~= v@);
    r
}

impl GenePred {
    /// A copy of this transcript.
    pub fn duplicate(&self) -> (r: GenePred)
        ensures
            same_tx(r, *self),
    {
        GenePred {
            name: self.name.clone(),
            chrom: self.chrom.clone(),
            strand: self.strand,
            start: self.start,
            end: self.end,
            cds_start: self.cds_start,
            cds_end: self.cds_end,
            exons: copy_intervals(&self.exons),
            introns: copy_intervals(&self.introns),
            exon_count: self.exon_count,
            line: self.line.clone(),
        }
    }
}

} // verus!
