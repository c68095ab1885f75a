//! A disjoint-set structure over `0..n`: every element carries the label of
//! its class, and every class keeps the list of its members, so that a union
//! relabels the members of the smaller class only.
use vstd::prelude::*;

verus! {

pub struct DisjointSets {
    pub label: Vec<usize>,
    pub members: Vec<Vec<usize>>,
}

impl DisjointSets {
    /// The label of the class of `i`.
    pub open spec fn class_of(&self, i: int) -> int {
        self.label@[i] as int
    }

    /// The members of the class labelled `r`.
    pub open spec fn members_of(&self, r: int) -> Seq<usize> {
        self.members@[r]@
    }

    pub open spec fn size(&self) -> nat {
        self.label@.len()
    }

    pub open spec fn wf(&self) -> bool {
        let n = self.label@.len();
        &&& self.members@.len() == n
        &&& forall|i: int| 0 <= i < n ==> (#[trigger] self.label@[i]) < n
        &&& forall|i: int| 0 <= i < n ==> #[trigger] self.members_of(self.class_of(i)).contains(i as usize)
        &&& forall|r: int, k: int|
            0 <= r < n && 0 <= k < self.members_of(r).len() ==> (#[trigger] self.members_of(r)[k]) < n
                && self.class_of(self.members_of(r)[k] as int) == r
        &&& forall|r: int| 0 <= r < n ==> (#[trigger] self.members_of(r)).no_duplicates()
    }

    /// Every element alone in its class.
    pub fn new(n: usize) -> (r: Self)
        ensures
            r.wf(),
            r.size() == n,
            forall|i: int| 0 <= i < n ==> r.class_of(i) == i,
    {
        let mut label: Vec<usize> = Vec::new();
        let mut members: Vec<Vec<usize>> = Vec::new();
        let mut i: usize = 0;
        while i < n
            invariant
                i <= n,
                label@.len() == i,
                members@.len() == i,
                forall|j: int| 0 <= j < i ==> label@[j] == j,
                forall|j: int| 0 <= j < i ==> (#[trigger] members@[j])@ == seq![j as usize],
            decreases n - i,
        {
            label.push(i);
            members.push(vec![i]);
            i = i + 1;
        }
        let r = DisjointSets { label, members };
        proof {
            assert forall|j: int| 0 <= j < n implies #[trigger] r.members_of(r.class_of(j)).contains(
                j as usize,
            ) by {
                assert(r.members_of(j)[0] == j as usize);
            }
            assert forall|j: int| 0 <= j < n implies (#[trigger] r.members_of(j)).no_duplicates() by {
            }
        }
        r
    }

    /// Merges the classes of `x` and `y`; returns the label of the merged class.
    pub fn union(&mut self, x: usize, y: usize) -> (w: usize)
        requires
            old(self).wf(),
            x < old(self).size(),
            y < old(self).size(),
        ensures
            final(self).wf(),
            final(self).size() == old(self).size(),
            w == old(self).class_of(x as int) || w == old(self).class_of(y as int),
            forall|i: int|
                0 <= i < old(self).size() ==> #[trigger] final(self).class_of(i) == if old(self).class_of(i)
                    == old(self).class_of(x as int) || old(self).class_of(i) == old(self).class_of(
                    y as int,
                ) {
                    w as int
                } else {
                    old(self).class_of(i)
                },
    {
        let lx = self.label[x];
        let ly = self.label[y];
        if lx == ly {
            return lx;
        }
        let win: usize;
        let lose: usize;
        if self.members[lx].len() >= self.members[ly].len() {
            win = lx;
            lose = ly;
        } else {
            win = ly;
            lose = lx;
        }
        let ghost o = *self;
        let size = self.label.len();
        let ghost n = size as int;
        let mut moved: Vec<usize> = Vec::new();
        self.members.set_and_swap(lose, &mut moved);
        let mut target: Vec<usize> = Vec::new();
        self.members.set_and_swap(win, &mut target);
        proof {
            assert(moved@ == o.members_of(lose as int));
            assert(target@ == o.members_of(win as int));
            assert(o.members_of(lose as int).no_duplicates());
            assert forall|j: int| 0 <= j < moved@.len() implies (#[trigger] moved@[j]) < n
                && o.class_of(moved@[j] as int) == lose by {
                assert(o.members_of(lose as int)[j] == moved@[j]);
            }
        }
        let mut k: usize = 0;
        while k < moved.len()
            invariant
                o.wf(),
                n == size,
                n == o.size() == self.label@.len(),
                self.members@.len() == n,
                win < n,
                lose < n,
                win != lose,
                0 <= k <= moved@.len(),
                moved@ == o.members_of(lose as int),
                target@ == o.members_of(win as int) + moved@.subrange(0, k as int),
                forall|i: int|
                    0 <= i < n ==> #[trigger] self.label@[i] == if o.class_of(i) == lose
                        && moved@.subrange(0, k as int).contains(i as usize) {
                        win as int
                    } else {
                        o.class_of(i)
                    },
                forall|r: int|
                    0 <= r < n && r != win && r != lose ==> #[trigger] self.members@[r] == o.members@[r],
                self.members@[lose as int]@.len() == 0,
                forall|j: int|
                    0 <= j < moved@.len() ==> (#[trigger] moved@[j]) < n && o.class_of(moved@[j] as int)
                        == lose,
                moved@.no_duplicates(),
            decreases moved.len() - k,
        {
            let m = moved[k];
            let ghost prev = self.label@;
            self.label.set(m, win);
            target.push(m);
            proof {
                let pre = moved@.subrange(0, k as int);
                let ext = moved@.subrange(0, k + 1);
                assert(ext =~= pre.push(m));
                assert(ext[k as int] == m);
                assert(moved@[k as int] == m);
                assert forall|i: int| 0 <= i < n implies #[trigger] self.label@[i] == if o.class_of(i)
                    == lose && ext.contains(i as usize) {
                    win as int
                } else {
                    o.class_of(i)
                } by {
                    assert(self.label@[i] == if i == m as int {
                        win
                    } else {
                        prev[i]
                    });
                    assert(prev[i] == if o.class_of(i) == lose && pre.contains(i as usize) {
                        win as int
                    } else {
                        o.class_of(i)
                    });
                    if ext.contains(i as usize) && i != m {
                        let j = choose|j: int| 0 <= j < ext.len() && ext[j] == i as usize;
                        assert(pre[j] == i as usize);
                    }
                    if pre.contains(i as usize) {
                        let j = choose|j: int| 0 <= j < pre.len() && pre[j] == i as usize;
                        assert(ext[j] == i as usize);
                    }
                }
                assert(target@ =~= o.members_of(win as int) + ext);
            }
            k = k + 1;
        }
        assert(moved@.subrange(0, k as int) =~= moved@);
        self.members.set_and_swap(win, &mut target);
        proof {
            let a = o.members_of(win as int);
            let new_win = a + moved@;
            assert(self.members_of(win as int) == new_win);
            assert(self.members_of(lose as int) == Seq::<usize>::empty());
            assert forall|i: int| 0 <= i < n implies #[trigger] self.class_of(i) == if o.class_of(i)
                == lx || o.class_of(i) == ly {
                win as int
            } else {
                o.class_of(i)
            } by {
                assert(self.label@[i] == if o.class_of(i) == lose && moved@.contains(i as usize) {
                    win as int
                } else {
                    o.class_of(i)
                });
                if o.class_of(i) == lose {
                    assert(o.members_of(o.class_of(i)).contains(i as usize));
                }
            }
            assert forall|i: int| 0 <= i < n implies #[trigger] self.members_of(
                self.class_of(i),
            ).contains(i as usize) by {
                assert(o.members_of(o.class_of(i)).contains(i as usize));
                if o.class_of(i) == lose {
                    let j = choose|j: int| 0 <= j < moved@.len() && moved@[j] == i as usize;
                    assert(new_win[a.len() + j] == i as usize);
                } else if o.class_of(i) == win {
                    let j = choose|j: int| 0 <= j < a.len() && a[j] == i as usize;
                    assert(new_win[j] == i as usize);
                } else {
                    assert(self.members@[o.class_of(i)] == o.members@[o.class_of(i)]);
                }
            }
            assert forall|r: int, j: int|
                0 <= r < n && 0 <= j < self.members_of(r).len() implies (#[trigger] self.members_of(
                r,
            )[j]) < n && self.class_of(self.members_of(r)[j] as int) == r by {
                if r == win {
                    if j < a.len() {
                        assert(self.members_of(r)[j] == a[j]);
                        assert(o.members_of(r)[j] == a[j]);
                    } else {
                        let jj = j - a.len();
                        assert(self.members_of(r)[j] == moved@[jj]);
                    }
                } else if r != lose {
                    assert(self.members@[r] == o.members@[r]);
                    assert(o.members_of(r)[j] == self.members_of(r)[j]);
                }
            }
            assert forall|r: int| 0 <= r < n implies (#[trigger] self.members_of(r)).no_duplicates() by {
                if r == win {
                    assert(o.members_of(r).no_duplicates());
                    assert forall|p: int, q: int|
                        0 <= p < q < new_win.len() implies new_win[p] != new_win[q] by {
                        if p < a.len() && q >= a.len() {
                            assert(o.members_of(r)[p] == new_win[p]);
                            assert(new_win[q] == moved@[q - a.len()]);
                        } else if q < a.len() {
                            assert(new_win[p] == a[p]);
                            assert(new_win[q] == a[q]);
                        } else if p >= a.len() {
                            assert(new_win[p] == moved@[p - a.len()]);
                            assert(new_win[q] == moved@[q - a.len()]);
                        }
                    }
                    assert(self.members_of(r) == new_win);
                } else if r != lose {
                    assert(self.members@[r] == o.members@[r]);
                    assert(o.members_of(r).no_duplicates());
                    assert(self.members_of(r) == o.members_of(r));
                }
            }
        }
        win
    }
}

} // verus!
