//! Character-level helpers: tab-separated fields, decimal numbers and
//! comma-separated number lists.
use vstd::prelude::*;

verus! {

/// Index of the first `sep` at or after `i`, or the length of `s` when none follows.
pub open spec fn next_sep(s: Seq<char>, i: int, sep: char) -> int
    decreases s.len() - i,
{
    if i < 0 || i >= s.len() {
        s.len() as int
    } else if s[i] == sep {
        i
    } else {
        next_sep(s, i + 1, sep)
    }
}

/// Start of the `k`-th tab-separated field of `s` (counting from 0).
pub open spec fn field_start(s: Seq<char>, k: nat) -> int
    decreases k,
{
    if k == 0 {
        0
    } else {
        next_sep(s, field_start(s, (k - 1) as nat), '\t') + 1
    }
}

/// End (exclusive) of the `k`-th tab-separated field of `s`.
pub open spec fn field_end(s: Seq<char>, k: nat) -> int {
    next_sep(s, field_start(s, k), '\t')
}

/// `s` has a `k`-th tab-separated field.
pub open spec fn has_field(s: Seq<char>, k: nat) -> bool {
    field_start(s, k) <= s.len()
}

/// The `k`-th tab-separated field of `s`.
pub open spec fn field(s: Seq<char>, k: nat) -> Seq<char> {
    s.subrange(field_start(s, k), field_end(s, k))
}

pub open spec fn is_digit(c: char) -> bool {
    '0' <= c && c <= '9'
}

/// Value of a string of decimal digits.
pub open spec fn digits_value(s: Seq<char>) -> int
    decreases s.len(),
{
    if s.len() == 0 {
        0
    } else {
        digits_value(s.drop_last()) * 10 + (s.last() as int - '0' as int)
    }
}

/// The digits of an unsigned number, after an optional leading `+`.
pub open spec fn unsigned_body(s: Seq<char>) -> Seq<char> {
    if s.len() > 0 && s[0] == '+' {
        s.drop_first()
    } else {
        s
    }
}

/// `s` is the decimal text of a `u64`: an optional `+`, then at least one
/// digit, and a value that fits.
pub open spec fn is_u64_text(s: Seq<char>) -> bool {
    let b = unsigned_body(s);
    &&& b.len() > 0
    &&& forall|i: int| 0 <= i < b.len() ==> is_digit(#[trigger] b[i])
    &&& digits_value(b) <= u64::MAX
}

/// The number that `s` reads as; meaningful where `is_u64_text(s)`.
pub open spec fn u64_value(s: Seq<char>) -> int {
    digits_value(unsigned_body(s))
}

/// A line without the `\r` of a `\r\n` ending.
pub open spec fn line_body(s: Seq<char>, i: int, j: int) -> Seq<char> {
    if j < s.len() && j > i && s[j - 1] == '\r' {
        s.subrange(i, j - 1)
    } else {
        s.subrange(i, j)
    }
}

/// The lines of `s` from position `i` on. Lines end at `\n` or `\r\n`; the
/// last line needs no ending.
pub open spec fn lines_from(s: Seq<char>, i: int) -> Seq<Seq<char>>
    decreases s.len() - i,
{
    if i < 0 || i >= s.len() {
        Seq::empty()
    } else {
        let j = next_sep(s, i, '\n');
        if j < i || j >= s.len() {
            seq![line_body(s, i, j)]
        } else {
            seq![line_body(s, i, j)] + lines_from(s, j + 1)
        }
    }
}

/// The lines of `s`.
pub open spec fn lines(s: Seq<char>) -> Seq<Seq<char>> {
    lines_from(s, 0)
}

/// The numbers of a comma-separated list, read from position `i` on;
/// empty pieces are skipped, and `None` stands for a piece that is no `u64`.
pub open spec fn number_list_from(s: Seq<char>, i: int) -> Option<Seq<u64>>
    decreases s.len() - i,
{
    if i < 0 || i >= s.len() {
        Some(Seq::empty())
    } else {
        let j = next_sep(s, i, ',');
        let piece = s.subrange(i, j);
        let rest = if j < i || j >= s.len() {
            Some(Seq::empty())
        } else {
            number_list_from(s, j + 1)
        };
        if piece.len() == 0 {
            rest
        } else if !is_u64_text(piece) {
            None
        } else {
            prepend(seq![u64_value(piece) as u64], rest)
        }
    }
}

/// The numbers of a comma-separated list.
pub open spec fn number_list(s: Seq<char>) -> Option<Seq<u64>> {
    number_list_from(s, 0)
}

pub open spec fn prepend(p: Seq<u64>, r: Option<Seq<u64>>) -> Option<Seq<u64>> {
    match r {
        Some(q) => Some(p + q),
        None => None,
    }
}

pub proof fn lemma_next_sep_bounds(s: Seq<char>, i: int, sep: char)
    requires
        0 <= i,
    ensures
        i <= next_sep(s, i, sep) <= s.len() || (i > s.len() && next_sep(s, i, sep) == s.len()),
        next_sep(s, i, sep) < s.len() ==> s[next_sep(s, i, sep)] == sep,
        forall|j: int| i <= j < next_sep(s, i, sep) ==> s[j] != sep,
    decreases s.len() - i,
{
    if i < s.len() && s[i] != sep {
        lemma_next_sep_bounds(s, i + 1, sep);
    }
}

proof fn lemma_digits_nonneg(s: Seq<char>)
    requires
        forall|k: int| 0 <= k < s.len() ==> is_digit(#[trigger] s[k]),
    ensures
        digits_value(s) >= 0,
    decreases s.len(),
{
    if s.len() > 0 {
        lemma_digits_nonneg(s.drop_last());
    }
}

proof fn lemma_digits_grow(s: Seq<char>, i: int, j: int)
    requires
        0 <= i <= j <= s.len(),
        forall|k: int| 0 <= k < s.len() ==> is_digit(#[trigger] s[k]),
    ensures
        digits_value(s.subrange(0, i)) <= digits_value(s.subrange(0, j)),
    decreases j,
{
    if j > i {
        lemma_digits_grow(s, i, j - 1);
        assert(s.subrange(0, j).drop_last() =~= s.subrange(0, j - 1));
        lemma_digits_nonneg(s.subrange(0, j - 1));
    }
}

/// The characters of `s`, in order.
pub fn chars_of(s: &str) -> (r: Vec<char>)
    ensures
        r@ == s@,
{
    let mut r: Vec<char> = Vec::new();
    for c in it: s.chars()
        invariant
            r@ == it.history(),
    {
        r.push(c);
    }
    r
}

/// Position of the first `sep` in `s` at or after `from`, or the length of `s`.
pub fn find_sep(s: &Vec<char>, from: usize, sep: char) -> (r: usize)
    requires
        from <= s.len(),
    ensures
        r == next_sep(s@, from as int, sep),
        from <= r <= s.len(),
{
    let mut i = from;
    while i < s.len()
        invariant
            from <= i <= s.len(),
            next_sep(s@, from as int, sep) == next_sep(s@, i as int, sep),
        decreases s.len() - i,
    {
        if s[i] == sep {
            return i;
        }
        i = i + 1;
    }
    i
}

/// Reads `s[lo..hi]` as a `u64`, or `None` when it is not the text of one.
pub fn parse_u64_range(s: &Vec<char>, lo: usize, hi: usize) -> (r: Option<u64>)
    requires
        lo <= hi <= s.len(),
    ensures
        is_u64_text(s@.subrange(lo as int, hi as int)) ==> r == Some(
            u64_value(s@.subrange(lo as int, hi as int)) as u64,
        ),
        !is_u64_text(s@.subrange(lo as int, hi as int)) ==> r is None,
        is_u64_text(s@.subrange(lo as int, hi as int)) ==> 0 <= u64_value(
            s@.subrange(lo as int, hi as int),
        ) <= u64::MAX,
{
    let ghost t = s@.subrange(lo as int, hi as int);
    let mut start = lo;
    if lo < hi && s[lo] == '+' {
        start = lo + 1;
    }
    let ghost b = s@.subrange(start as int, hi as int);
    assert(unsigned_body(t) =~= b);
    if start == hi {
        return None;
    }
    let mut acc: u64 = 0;
    let mut i = start;
    while i < hi
        invariant
            lo <= start <= i <= hi <= s.len(),
            b == s@.subrange(start as int, hi as int),
            b == unsigned_body(t),
            t == s@.subrange(lo as int, hi as int),
            forall|k: int| start <= k < i ==> is_digit(#[trigger] s@[k]),
            acc == digits_value(s@.subrange(start as int, i as int)),
        decreases hi - i,
    {
        let c = s[i];
        if !('0' <= c && c <= '9') {
            assert(b[i - start] == s@[i as int]);
            return None;
        }
        let d = (c as u32 - '0' as u32) as u64;
        assert(s@.subrange(start as int, i + 1).drop_last() =~= s@.subrange(start as int, i as int));
        if acc > (u64::MAX - d) / 10 {
            proof {
                let p = s@.subrange(start as int, i + 1);
                assert(digits_value(p) > u64::MAX) by (nonlinear_arith)
                    requires
                        digits_value(p) == acc * 10 + d,
                        acc > (u64::MAX - d) / 10,
                        0 <= d <= 9,
                ;
                if forall|k: int| 0 <= k < b.len() ==> is_digit(#[trigger] b[k]) {
                    lemma_digits_grow(b, i + 1 - start, b.len() as int);
                    assert(b.subrange(0, i + 1 - start) =~= p);
                    assert(b.subrange(0, b.len() as int) =~= b);
                }
            }
            return None;
        }
        acc = acc * 10 + d;
        i = i + 1;
    }
    assert(b =~= s@.subrange(start as int, i as int));
    proof {
        lemma_digits_nonneg(b);
    }
    Some(acc)
}

/// Reads the comma-separated numbers of `s`, skipping empty pieces;
/// `None` when a piece is not the text of a `u64`.
pub fn parse_number_list(s: &Vec<char>) -> (r: Option<Vec<u64>>)
    ensures
        match r {
            Some(v) => number_list(s@) == Some(v@),
            None => number_list(s@) is None,
        },
{
    let mut v: Vec<u64> = Vec::new();
    let mut i: usize = 0;
    while i < s.len()
        invariant
            i <= s.len(),
            number_list(s@) == prepend(v@, number_list_from(s@, i as int)),
        decreases s.len() - i,
    {
        let j = find_sep(s, i, ',');
        proof {
            lemma_next_sep_bounds(s@, i as int, ',');
        }
        if j > i {
            match parse_u64_range(s, i, j) {
                Some(x) => {
                    proof {
                        let rest = number_list_from(s@, j + 1);
                        match rest {
                            Some(q) => {
                                assert(v@ + (seq![x] + q) =~= v@.push(x) + q);
                            },
                            None => {},
                        }
                    }
                    v.push(x);
                },
                None => {
                    return None;
                },
            }
        }
        if j == s.len() {
            proof {
                assert(number_list_from(s@, j + 1) == Some(Seq::<u64>::empty()));
                assert(v@ + Seq::<u64>::empty() =~= v@);
            }
            return Some(v);
        }
        i = j + 1;
    }
    assert(v@ + Seq::<u64>::empty() =~= v@);
    Some(v)
}

} // verus!
