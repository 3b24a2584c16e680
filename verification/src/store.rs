//! The in-memory table registry: per-table, append-only lists of
//! immutable batches. A query runs over a snapshot of one table's
//! batches.

use vstd::prelude::*;

use crate::column::Batch;
use crate::strutil::str_eq;

verus! {

/// The batches of the named table, if it exists.
pub open spec fn table_lookup(tables: Seq<(String, Vec<Batch>)>, name: Seq<char>) -> Option<
    Vec<Batch>,
>
    decreases tables.len(),
{
    if tables.len() == 0 {
        None
    } else if tables[0].0@ == name {
        Some(tables[0].1)
    } else {
        table_lookup(tables.subrange(1, tables.len() as int), name)
    }
}

/// The set of tables, each a name and its batches in load order.
pub struct Store {
    pub tables: Vec<(String, Vec<Batch>)>,
}

impl Store {
    /// Table names are pairwise distinct.
    pub open spec fn wf(self) -> bool {
        forall|i: int, j: int|
            0 <= i < j < self.tables@.len() ==> (#[trigger] self.tables@[i]).0@ != (
            #[trigger] self.tables@[j]).0@
    }

    pub fn new() -> (r: Store)
        ensures
            r.wf(),
            r.tables@.len() == 0,
    {
        Store { tables: Vec::new() }
    }

    /// A read snapshot of one table's batches.
    pub fn snapshot(&self, table: &str) -> (r: Option<&Vec<Batch>>)
        requires
            self.wf(),
        ensures
            match r {
                Some(bs) => table_lookup(self.tables@, table@) == Some(*bs),
                None => table_lookup(self.tables@, table@) is None,
            },
    {
        let n = self.tables.len();
        let mut i: usize = 0;
        while i < n
            invariant
                i <= n,
                n == self.tables@.len(),
                forall|j: int| 0 <= j < i ==> (#[trigger] self.tables@[j]).0@ != table@,
            decreases n - i,
        {
            if str_eq(self.tables[i].0.as_str(), table) {
                proof {
                    lemma_lookup_at(self.tables@, table@, i as int);
                }
                return Some(&self.tables[i].1);
            }
            i += 1;
        }
        proof {
            lemma_lookup_none(self.tables@, table@);
        }
        None
    }

    /// Appends freshly ingested batches to a table, creating it on
    /// first load. Other tables keep their entries unchanged.
    pub fn load_batches(&mut self, table: &str, batches: Vec<Batch>)
        requires
            old(self).wf(),
        ensures
            final(self).wf(),
            ({
                let pre = old(self).tables@;
                let cur = final(self).tables@;
                let j = tbl_idx(pre, table@);
                if j >= 0 {
                    &&& cur.len() == pre.len()
                    &&& cur[j].0 == pre[j].0
                    &&& cur[j].1@ == pre[j].1@ + batches@
                    &&& forall|x: int| 0 <= x < pre.len() && x != j ==> cur[x] == pre[x]
                } else {
                    &&& cur.len() == pre.len() + 1
                    &&& forall|x: int| 0 <= x < pre.len() ==> cur[x] == pre[x]
                    &&& cur.last().0@ == table@
                    &&& cur.last().1 == batches
                }
            }),
    {
        let ghost pre = self.tables@;
        let n = self.tables.len();
        let mut i: usize = 0;
        while i < n
            invariant
                self.wf(),
                i <= n,
                n == self.tables@.len(),
                *self == *old(self),
                pre == old(self).tables@,
                forall|j: int| 0 <= j < i ==> (#[trigger] self.tables@[j]).0@ != table@,
            decreases n - i,
        {
            if str_eq(self.tables[i].0.as_str(), table) {
                proof {
                    lemma_tbl_idx_at(pre, table@, i as int);
                }
                let entry = self.tables.swap_remove(i);
                let (name0, mut bs0) = entry;
                let mut given = batches;
                let ghost obs = bs0@;
                let ghost gvn = given@;
                let m = given.len();
                let mut k: usize = 0;
                while k < m
                    invariant
                        k <= m,
                        m == gvn.len(),
                        given@ == gvn.skip(k as int),
                        bs0@ == obs + gvn.take(k as int),
                    decreases m - k,
                {
                    let b = given.remove(0);
                    proof {
                        assert(b == gvn[k as int]);
                        assert(given@ =~= gvn.skip(k as int + 1));
                    }
                    bs0.push(b);
                    proof {
                        assert(bs0@ =~= obs + gvn.take(k as int + 1));
                    }
                    k += 1;
                }
                proof {
                    assert(bs0@ =~= obs + gvn);
                }
                // restore the entry at its position
                self.tables.push((name0, bs0));
                if i < n - 1 {
                    let moved = self.tables.swap_remove(i);
                    self.tables.push(moved);
                }
                proof {
                    let cur = self.tables@;
                    assert forall|x: int| 0 <= x < cur.len() implies cur[x] == pre.update(
                        i as int,
                        (name0, bs0),
                    )[x] by {}
                    assert(cur =~= pre.update(i as int, (name0, bs0)));
                    assert forall|a: int, b2: int|
                        0 <= a < b2 < cur.len() implies (#[trigger] cur[a]).0@ != (
                    #[trigger] cur[b2]).0@ by {
                        assert(cur[a].0 == pre[a].0);
                        assert(cur[b2].0 == pre[b2].0);
                    }
                }
                return ;
            }
            i += 1;
        }
        proof {
            lemma_tbl_idx_none(pre, table@);
        }
        let name = String::from_str(table);
        self.tables.push((name, batches));
    }
}

/// The first index of the named table, or -1.
pub open spec fn tbl_idx(tables: Seq<(String, Vec<Batch>)>, name: Seq<char>) -> int
    decreases tables.len(),
{
    if tables.len() == 0 {
        -1
    } else if tables[0].0@ == name {
        0
    } else {
        let r = tbl_idx(tables.subrange(1, tables.len() as int), name);
        if r < 0 {
            -1
        } else {
            r + 1
        }
    }
}

/// The matching position is the index when earlier names differ.
proof fn lemma_tbl_idx_at(tables: Seq<(String, Vec<Batch>)>, name: Seq<char>, i: int)
    requires
        0 <= i < tables.len(),
        tables[i].0@ == name,
        forall|j: int| 0 <= j < i ==> (#[trigger] tables[j]).0@ != name,
    ensures
        tbl_idx(tables, name) == i,
    decreases tables.len(),
{
    if i > 0 {
        let rest = tables.subrange(1, tables.len() as int);
        assert forall|j: int| 0 <= j < i - 1 implies (#[trigger] rest[j]).0@ != name by {
            assert(rest[j] == tables[j + 1]);
        }
        assert(rest[i - 1] == tables[i]);
        lemma_tbl_idx_at(rest, name, i - 1);
    }
}

/// No matching name, no index.
proof fn lemma_tbl_idx_none(tables: Seq<(String, Vec<Batch>)>, name: Seq<char>)
    requires
        forall|j: int| 0 <= j < tables.len() ==> (#[trigger] tables[j]).0@ != name,
    ensures
        tbl_idx(tables, name) == -1,
    decreases tables.len(),
{
    if tables.len() > 0 {
        let rest = tables.subrange(1, tables.len() as int);
        assert forall|j: int| 0 <= j < rest.len() implies (#[trigger] rest[j]).0@ != name by {
            assert(rest[j] == tables[j + 1]);
        }
        lemma_tbl_idx_none(rest, name);
    }
}

/// Looking up the name at a matching position succeeds when earlier
/// names differ.
proof fn lemma_lookup_at(tables: Seq<(String, Vec<Batch>)>, name: Seq<char>, i: int)
    requires
        0 <= i < tables.len(),
        tables[i].0@ == name,
        forall|j: int| 0 <= j < i ==> (#[trigger] tables[j]).0@ != name,
    ensures
        table_lookup(tables, name) == Some(tables[i].1),
    decreases tables.len(),
{
    if i > 0 {
        let rest = tables.subrange(1, tables.len() as int);
        assert forall|j: int| 0 <= j < i - 1 implies (#[trigger] rest[j]).0@ != name by {
            assert(rest[j] == tables[j + 1]);
        }
        assert(rest[i - 1] == tables[i]);
        lemma_lookup_at(rest, name, i - 1);
    }
}

/// Lookup fails when no name matches.
proof fn lemma_lookup_none(tables: Seq<(String, Vec<Batch>)>, name: Seq<char>)
    requires
        forall|j: int| 0 <= j < tables.len() ==> (#[trigger] tables[j]).0@ != name,
    ensures
        table_lookup(tables, name) is None,
    decreases tables.len(),
{
    if tables.len() > 0 {
        let rest = tables.subrange(1, tables.len() as int);
        assert forall|j: int| 0 <= j < rest.len() implies (#[trigger] rest[j]).0@ != name by {
            assert(rest[j] == tables[j + 1]);
        }
        lemma_lookup_none(rest, name);
    }
}

} // verus!
