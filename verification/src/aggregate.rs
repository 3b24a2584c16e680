//! Grouped aggregation: the per-batch aggregate map, the driver-side
//! merge of per-batch partials, and the laws they obey.

use vstd::prelude::*;

use crate::expr::wrap64;
use crate::query::{clone_row, row_view};
use crate::val::{raw_val_eq, RVal, RawVal};

verus! {

/// The mathematical values of a row of accumulators.
pub open spec fn ints_of_vec(v: Seq<i64>) -> Seq<int> {
    Seq::new(v.len(), |j: int| v[j] as int)
}

/// Wrapping addition of two accumulator values.
pub open spec fn wadd(a: int, b: int) -> int {
    wrap64(a + b)
}

/// Pointwise wrapping addition of two accumulator rows.
pub open spec fn addv(a: Seq<int>, b: Seq<int>) -> Seq<int> {
    Seq::new(a.len(), |j: int| wadd(a[j], b[j]))
}

/// The index of the entry with key `g`, or -1.
pub open spec fn find_key(m: Seq<(Seq<RVal>, Seq<int>)>, g: Seq<RVal>) -> int
    decreases m.len(),
{
    if m.len() == 0 {
        -1
    } else if m[0].0 == g {
        0
    } else {
        let r = find_key(m.subrange(1, m.len() as int), g);
        if r < 0 {
            -1
        } else {
            r + 1
        }
    }
}

/// The accumulator row of group `g`, if present.
pub open spec fn lookup(m: Seq<(Seq<RVal>, Seq<int>)>, g: Seq<RVal>) -> Option<Seq<int>> {
    let j = find_key(m, g);
    if j >= 0 {
        Some(m[j].1)
    } else {
        None
    }
}

/// Folds one row into the map: add into the group's row, or append a
/// new group in arrival order.
pub open spec fn upd_entry(m: Seq<(Seq<RVal>, Seq<int>)>, g: Seq<RVal>, ws: Seq<int>) -> Seq<
    (Seq<RVal>, Seq<int>),
> {
    let j = find_key(m, g);
    if j >= 0 {
        m.update(j, (m[j].0, addv(m[j].1, ws)))
    } else {
        m.push((g, ws))
    }
}

/// Folds a run of rows (or a partial's entries) into the map, first to
/// last.
pub open spec fn merge_entries(a: Seq<(Seq<RVal>, Seq<int>)>, b: Seq<(Seq<RVal>, Seq<int>)>) -> Seq<
    (Seq<RVal>, Seq<int>),
>
    decreases b.len(),
{
    if b.len() == 0 {
        a
    } else {
        merge_entries(upd_entry(a, b[0].0, b[0].1), b.subrange(1, b.len() as int))
    }
}

/// Keys are pairwise distinct.
pub open spec fn entries_wf(m: Seq<(Seq<RVal>, Seq<int>)>) -> bool {
    forall|i: int, j: int| 0 <= i < j < m.len() ==> m[i].0 != m[j].0
}

/// Every accumulator row has width `w`.
pub open spec fn entries_width(m: Seq<(Seq<RVal>, Seq<int>)>, w: nat) -> bool {
    forall|i: int| 0 <= i < m.len() ==> (#[trigger] m[i].1).len() == w
}

/// Basic shape of `find_key`.
pub proof fn lemma_find_key(m: Seq<(Seq<RVal>, Seq<int>)>, g: Seq<RVal>)
    ensures
        -1 <= find_key(m, g) < m.len(),
        find_key(m, g) >= 0 ==> m[find_key(m, g)].0 == g,
        find_key(m, g) == -1 ==> forall|j: int| 0 <= j < m.len() ==> m[j].0 != g,
        find_key(m, g) >= 0 ==> forall|j: int| 0 <= j < find_key(m, g) ==> m[j].0 != g,
    decreases m.len(),
{
    if m.len() > 0 {
        lemma_find_key(m.subrange(1, m.len() as int), g);
        let rest = m.subrange(1, m.len() as int);
        assert forall|j: int| 1 <= j < m.len() implies m[j] == rest[j - 1] by {}
    }
}

/// `find_key` ignores accumulator updates that keep every key.
pub proof fn lemma_find_key_same_keys(
    m1: Seq<(Seq<RVal>, Seq<int>)>,
    m2: Seq<(Seq<RVal>, Seq<int>)>,
    g: Seq<RVal>,
)
    requires
        m1.len() == m2.len(),
        forall|i: int| 0 <= i < m1.len() ==> m1[i].0 == m2[i].0,
    ensures
        find_key(m1, g) == find_key(m2, g),
    decreases m1.len(),
{
    if m1.len() > 0 {
        let r1 = m1.subrange(1, m1.len() as int);
        let r2 = m2.subrange(1, m2.len() as int);
        assert forall|i: int| 0 <= i < r1.len() implies r1[i].0 == r2[i].0 by {
            assert(r1[i] == m1[i + 1]);
            assert(r2[i] == m2[i + 1]);
        }
        lemma_find_key_same_keys(r1, r2, g);
    }
}

/// `find_key` after a push.
pub proof fn lemma_find_key_push(m: Seq<(Seq<RVal>, Seq<int>)>, x: (Seq<RVal>, Seq<int>), g: Seq<RVal>)
    ensures
        find_key(m.push(x), g) == if find_key(m, g) >= 0 {
            find_key(m, g)
        } else if x.0 == g {
            m.len() as int
        } else {
            -1
        },
    decreases m.len(),
{
    if m.len() == 0 {
        assert(m.push(x)[0] == x);
        assert(m.push(x).subrange(1, 1) =~= Seq::<(Seq<RVal>, Seq<int>)>::empty());
        assert(m.push(x).len() == 1);
        assert(find_key(m, g) == -1);
        assert(find_key(m.push(x).subrange(1, 1), g) == -1);
        if x.0 == g {
            assert(find_key(m.push(x), g) == 0);
        } else {
            assert(find_key(m.push(x), g) == -1);
        }
    } else {
        let tail = m.subrange(1, m.len() as int);
        assert(m.push(x).subrange(1, m.len() as int + 1) =~= tail.push(x));
        lemma_find_key_push(tail, x, g);
        if m[0].0 == g {
            assert(m.push(x)[0] == m[0]);
            assert(find_key(m.push(x), g) == 0);
        } else {
            assert(m.push(x)[0] == m[0]);
            assert(find_key(m.push(x), g) == (if find_key(tail.push(x), g) < 0 {
                -1
            } else {
                find_key(tail.push(x), g) + 1
            }));
            assert(find_key(m, g) == (if find_key(tail, g) < 0 {
                -1
            } else {
                find_key(tail, g) + 1
            }));
        }
    }
}

/// How one folded row changes each group's accumulator.
pub proof fn lemma_upd_lookup(m: Seq<(Seq<RVal>, Seq<int>)>, g: Seq<RVal>, ws: Seq<int>, h: Seq<RVal>)
    requires
        entries_wf(m),
    ensures
        entries_wf(upd_entry(m, g, ws)),
        lookup(upd_entry(m, g, ws), h) == if h == g {
            match lookup(m, h) {
                Some(a) => Some(addv(a, ws)),
                None => Some(ws),
            }
        } else {
            lookup(m, h)
        },
        upd_entry(m, g, ws).len() >= m.len(),
{
    lemma_find_key(m, g);
    lemma_find_key(m, h);
    let j = find_key(m, g);
    if j >= 0 {
        let m2 = m.update(j, (m[j].0, addv(m[j].1, ws)));
        lemma_find_key_same_keys(m, m2, g);
        lemma_find_key_same_keys(m, m2, h);
        lemma_find_key(m2, h);
    } else {
        let m2 = m.push((g, ws));
        lemma_find_key_push(m, (g, ws), g);
        lemma_find_key_push(m, (g, ws), h);
        lemma_find_key(m2, h);
        assert forall|a: int, b2: int| 0 <= a < b2 < m2.len() implies m2[a].0 != m2[b2].0 by {
            if b2 < m.len() {
            } else {
                assert(m2[b2] == (g, ws));
                assert(m2[a].0 == m[a].0);
            }
        }
    }
}

/// Widths are preserved by folding rows of the same width.
pub proof fn lemma_upd_width(m: Seq<(Seq<RVal>, Seq<int>)>, g: Seq<RVal>, ws: Seq<int>, w: nat)
    requires
        entries_width(m, w),
        ws.len() == w,
    ensures
        entries_width(upd_entry(m, g, ws), w),
{
    lemma_find_key(m, g);
}

/// How merging a partial changes each group's accumulator: the merged
/// value of every group combines the two sides' values.
pub proof fn lemma_merge_lookup(a: Seq<(Seq<RVal>, Seq<int>)>, b: Seq<(Seq<RVal>, Seq<int>)>, h: Seq<RVal>)
    requires
        entries_wf(a),
        entries_wf(b),
    ensures
        entries_wf(merge_entries(a, b)),
        lookup(merge_entries(a, b), h) == match (lookup(a, h), lookup(b, h)) {
            (x, Option::<Seq<int>>::None) => x,
            (Option::<Seq<int>>::None, y) => y,
            (Some(x), Some(y)) => Some(addv(x, y)),
        },
    decreases b.len(),
{
    lemma_find_key(b, h);
    if b.len() == 0 {
    } else {
        let b0 = b[0];
        let rest = b.subrange(1, b.len() as int);
        lemma_upd_lookup(a, b0.0, b0.1, h);
        assert(entries_wf(rest)) by {
            assert forall|i: int, j: int| 0 <= i < j < rest.len() implies rest[i].0
                != rest[j].0 by {
                assert(rest[i] == b[i + 1]);
                assert(rest[j] == b[j + 1]);
            }
        }
        lemma_merge_lookup(upd_entry(a, b0.0, b0.1), rest, h);
        lemma_find_key(rest, h);
        if h == b0.0 {
            // distinct keys: the head's group does not reappear in the rest
            assert forall|j: int| 0 <= j < rest.len() implies rest[j].0 != h by {
                assert(rest[j] == b[j + 1]);
            }
            assert(lookup(rest, h) is None);
        } else {
            assert(find_key(b, h) == if find_key(rest, h) >= 0 {
                find_key(rest, h) + 1
            } else {
                -1
            });
            if find_key(rest, h) >= 0 {
                assert(b[find_key(rest, h) + 1] == rest[find_key(rest, h)]);
            }
        }
    }
}

/// Per-batch partials combined in either order give every group the
/// same aggregate: merging is commutative up to group lookup.
pub proof fn lemma_merge_commutes(
    a: Seq<(Seq<RVal>, Seq<int>)>,
    b: Seq<(Seq<RVal>, Seq<int>)>,
    h: Seq<RVal>,
    w: nat,
)
    requires
        entries_wf(a),
        entries_wf(b),
        entries_width(a, w),
        entries_width(b, w),
    ensures
        lookup(merge_entries(a, b), h) == lookup(merge_entries(b, a), h),
{
    lemma_merge_lookup(a, b, h);
    lemma_merge_lookup(b, a, h);
    lemma_find_key(a, h);
    lemma_find_key(b, h);
    match (lookup(a, h), lookup(b, h)) {
        (Some(x), Some(y)) => {
            assert(x.len() == w);
            assert(y.len() == w);
            assert(addv(x, y) =~= addv(y, x));
        },
        _ => {},
    }
}

/// Folding one more row extends a left fold.
pub proof fn lemma_merge_push(
    a: Seq<(Seq<RVal>, Seq<int>)>,
    b: Seq<(Seq<RVal>, Seq<int>)>,
    x: (Seq<RVal>, Seq<int>),
)
    ensures
        merge_entries(a, b.push(x)) == upd_entry(merge_entries(a, b), x.0, x.1),
    decreases b.len(),
{
    if b.len() == 0 {
        assert(b.push(x)[0] == x);
        assert(b.push(x).subrange(1, 1) =~= Seq::<(Seq<RVal>, Seq<int>)>::empty());
        assert(merge_entries(
            upd_entry(a, x.0, x.1),
            Seq::<(Seq<RVal>, Seq<int>)>::empty(),
        ) == upd_entry(a, x.0, x.1));
    } else {
        let tail = b.subrange(1, b.len() as int);
        let a2 = upd_entry(a, b[0].0, b[0].1);
        assert(b.push(x)[0] == b[0]);
        assert(b.push(x).subrange(1, b.len() as int + 1) =~= tail.push(x));
        lemma_merge_push(a2, tail, x);
        assert(merge_entries(a, b.push(x)) == merge_entries(a2, tail.push(x)));
        assert(merge_entries(a, b) == merge_entries(a2, tail));
    }
}

/// Equality of two group tuples, decided over their models.
fn rows_eq(a: &Vec<RawVal>, b: &Vec<RawVal>) -> (r: bool)
    ensures
        r == (row_view(a@) == row_view(b@)),
{
    if a.len() != b.len() {
        proof {
            assert(row_view(a@).len() != row_view(b@).len());
        }
        return false;
    }
    let n = a.len();
    let mut i: usize = 0;
    while i < n
        invariant
            i <= n,
            n == a@.len(),
            n == b@.len(),
            forall|j: int| 0 <= j < i ==> a@[j]@ == b@[j]@,
        decreases n - i,
    {
        if !raw_val_eq(&a[i], &b[i]) {
            proof {
                assert(row_view(a@)[i as int] != row_view(b@)[i as int]);
            }
            return false;
        }
        i += 1;
    }
    proof {
        assert(row_view(a@) =~= row_view(b@));
    }
    true
}

/// The running aggregate map of a query: groups in arrival order, one
/// accumulator row per group.
pub struct GroupedAggs {
    pub keys: Vec<Vec<RawVal>>,
    pub accs: Vec<Vec<i64>>,
}

impl View for GroupedAggs {
    type V = Seq<(Seq<RVal>, Seq<int>)>;

    open spec fn view(&self) -> Seq<(Seq<RVal>, Seq<int>)> {
        Seq::new(
            self.keys@.len(),
            |i: int| (row_view(self.keys@[i]@), ints_of_vec(self.accs@[i]@)),
        )
    }
}

impl GroupedAggs {
    pub open spec fn wf(self, w: nat) -> bool {
        &&& self.keys@.len() == self.accs@.len()
        &&& entries_wf(self@)
        &&& entries_width(self@, w)
    }

    pub fn new() -> (r: GroupedAggs)
        ensures
            r@ =~= Seq::<(Seq<RVal>, Seq<int>)>::empty(),
            forall|w: nat| r.wf(w),
    {
        GroupedAggs { keys: Vec::new(), accs: Vec::new() }
    }

    /// Folds one row into the map, keyed by the whole group tuple.
    pub fn upd(&mut self, g: &Vec<RawVal>, ws: &Vec<i64>)
        requires
            old(self).wf(ws@.len()),
        ensures
            final(self).wf(ws@.len()),
            final(self)@ == upd_entry(old(self)@, row_view(g@), ints_of_vec(ws@)),
    {
        let ghost gm = row_view(g@);
        let ghost wsm = ints_of_vec(ws@);
        let n = self.keys.len();
        let mut i: usize = 0;
        while i < n
            invariant
                i <= n,
                n == self.keys@.len(),
                self.wf(ws@.len()),
                wsm == ints_of_vec(ws@),
                *self == *old(self),
                gm == row_view(g@),
                forall|j: int| 0 <= j < i ==> self@[j].0 != gm,
            decreases n - i,
        {
            if rows_eq(&self.keys[i], g) {
                proof {
                    assert(self@[i as int].1.len() == ws@.len());
                    assert(self@[i as int].1 == ints_of_vec(self.accs@[i as int]@));
                }
                let w = ws.len();
                let mut row: Vec<i64> = Vec::new();
                let mut j: usize = 0;
                while j < w
                    invariant
                        j <= w,
                        w == ws@.len(),
                        i < self.accs@.len(),
                        self.accs@[i as int]@.len() == w,
                        row@.len() == j,
                        forall|jj: int|
                            0 <= jj < j ==> row@[jj] as int == wadd(
                                self.accs@[i as int]@[jj] as int,
                                ws@[jj] as int,
                            ),
                    decreases w - j,
                {
                    row.push(self.accs[i][j].wrapping_add(ws[j]));
                    j += 1;
                }
                let ghost pre = *self;
                self.accs[i] = row;
                proof {
                    lemma_find_key(pre@, gm);
                    let fk = find_key(pre@, gm);
                    assert(pre@[i as int].0 == gm);
                    if fk < 0 {
                        assert(false);
                    } else if fk != i as int {
                        assert(pre@[fk].0 == gm);
                        assert(false);
                    }
                    assert(fk == i as int);
                    assert(upd_entry(pre@, gm, wsm) == pre@.update(
                        i as int,
                        (pre@[i as int].0, addv(pre@[i as int].1, wsm)),
                    ));
                    assert forall|k: int| 0 <= k < self@.len() implies self@[k] == upd_entry(
                        pre@,
                        gm,
                        wsm,
                    )[k] by {
                        if k == i as int {
                            assert(self@[k].0 == pre@[k].0);
                            assert forall|jj: int| 0 <= jj < self@[k].1.len() implies self@[k].1[jj]
                                == addv(pre@[k].1, wsm)[jj] by {
                                assert(row@[jj] as int == wadd(
                                    pre.accs@[k]@[jj] as int,
                                    ws@[jj] as int,
                                ));
                            }
                            assert(self@[k].1 =~= addv(pre@[k].1, wsm));
                        } else {
                            assert(self.keys@[k] == pre.keys@[k]);
                            assert(self.accs@[k] == pre.accs@[k]);
                        }
                    }
                    assert(self@ =~= upd_entry(pre@, gm, wsm));
                    lemma_upd_lookup(pre@, gm, wsm, gm);
                    lemma_upd_width(pre@, gm, wsm, ws@.len());
                }
                return ;
            }
            i += 1;
        }
        let ghost pre = *self;
        self.keys.push(clone_row(g));
        let mut row: Vec<i64> = Vec::new();
        let w = ws.len();
        let mut j: usize = 0;
        while j < w
            invariant
                j <= w,
                w == ws@.len(),
                wsm == ints_of_vec(ws@),
                gm == row_view(g@),
                pre.keys@ == self.keys@.drop_last(),
                pre.accs@ == self.accs@,
                self.keys@.len() > 0,
                row_view(self.keys@.last()@) == gm,
                pre.wf(ws@.len()),
                forall|jj: int| 0 <= jj < pre@.len() ==> pre@[jj].0 != gm,
                row@.len() == j,
                forall|jj: int| 0 <= jj < j ==> row@[jj] == ws@[jj],
            decreases w - j,
        {
            row.push(ws[j]);
            j += 1;
        }
        self.accs.push(row);
        proof {
            lemma_find_key(pre@, gm);
            let fk = find_key(pre@, gm);
            if fk >= 0 {
                assert(pre@[fk].0 == gm);
                assert(false);
            }
            assert forall|k: int| 0 <= k < self@.len() implies self@[k] == pre@.push(
                (gm, wsm),
            )[k] by {
                if k < pre@.len() {
                    assert(self.keys@[k] == pre.keys@[k]);
                    assert(self.accs@[k] == pre.accs@[k]);
                } else {
                    assert(self.keys@[k] == self.keys@.last());
                    assert(self@[k].1 =~= wsm);
                }
            }
            assert(self@ =~= pre@.push((gm, wsm)));
            lemma_upd_lookup(pre@, gm, wsm, gm);
            lemma_upd_width(pre@, gm, wsm, ws@.len());
        }
    }

    /// Merges a finished per-batch partial into this map.
    pub fn merge_into(&mut self, other: &GroupedAggs, w: usize)
        requires
            old(self).wf(w as nat),
            other.wf(w as nat),
        ensures
            final(self).wf(w as nat),
            final(self)@ == merge_entries(old(self)@, other@),
    {
        let n = other.keys.len();
        let mut i: usize = 0;
        while i < n
            invariant
                i <= n,
                n == other.keys@.len(),
                other.wf(w as nat),
                self.wf(w as nat),
                self@ == merge_entries(old(self)@, other@.take(i as int)),
            decreases n - i,
        {
            proof {
                assert(other@.take(i + 1) =~= other@.take(i as int).push(other@[i as int]));
                lemma_merge_push(old(self)@, other@.take(i as int), other@[i as int]);
                assert(other@[i as int].1.len() == w);
                assert(other@[i as int].1 =~= ints_of_vec(other.accs@[i as int]@));
            }
            self.upd(&other.keys[i], &other.accs[i]);
            i += 1;
        }
        proof {
            assert(other@.take(n as int) =~= other@);
        }
    }
}

} // verus!
