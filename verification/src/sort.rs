//! Stable sorting of materialized rows by one key column: ties keep
//! their original relative order.

use vstd::prelude::*;

use crate::query::{row_view, rows_view};
use crate::val::{RVal, RawVal};

verus! {

/// Ordering of key cells: empty sorts first, then integers by value,
/// then strings in lexicographic order.
pub open spec fn rv_le(a: RVal, b: RVal) -> bool {
    match (a, b) {
        (RVal::N, _) => true,
        (_, RVal::N) => false,
        (RVal::I(x), RVal::I(y)) => x <= y,
        (RVal::I(_), RVal::S(_)) => true,
        (RVal::S(_), RVal::I(_)) => false,
        (RVal::S(x), RVal::S(y)) => lex_le(x, y),
    }
}

/// Lexicographic order on character sequences.
pub open spec fn lex_le(a: Seq<char>, b: Seq<char>) -> bool
    decreases a.len(),
{
    if a.len() == 0 {
        true
    } else if b.len() == 0 {
        false
    } else if (a[0] as u32) < (b[0] as u32) {
        true
    } else if (a[0] as u32) > (b[0] as u32) {
        false
    } else {
        lex_le(a.skip(1), b.skip(1))
    }
}

/// Compares two string slices lexicographically.
pub fn str_le(a: &str, b: &str) -> (r: bool)
    ensures
        r == lex_le(a@, b@),
{
    let an = a.unicode_len();
    let bn = b.unicode_len();
    let mut i: usize = 0;
    proof {
        assert(a@.skip(0) =~= a@);
        assert(b@.skip(0) =~= b@);
    }
    while i < an && i < bn
        invariant
            i <= an,
            i <= bn,
            an == a@.len(),
            bn == b@.len(),
            forall|j: int| 0 <= j < i ==> (a@[j]) as u32 == (b@[j]) as u32,
            lex_le(a@, b@) == lex_le(a@.skip(i as int), b@.skip(i as int)),
        decreases an - i,
    {
        let ca = a.get_char(i);
        let cb = b.get_char(i);
        proof {
            assert(a@.skip(i as int)[0] == a@[i as int]);
            assert(b@.skip(i as int)[0] == b@[i as int]);
            assert(a@.skip(i as int).skip(1) =~= a@.skip(i as int + 1));
            assert(b@.skip(i as int).skip(1) =~= b@.skip(i as int + 1));
        }
        if (ca as u32) < (cb as u32) {
            return true;
        }
        if (ca as u32) > (cb as u32) {
            return false;
        }
        proof {
            assert(ca as u32 == cb as u32);
            assert(ca == cb) by {
                assert(a@[i as int] == ca && b@[i as int] == cb);
            }
        }
        i += 1;
    }
    proof {
        if i >= an {
            assert(a@.skip(i as int).len() == 0);
        } else {
            assert(b@.skip(i as int).len() == 0);
            assert(a@.skip(i as int).len() > 0);
        }
    }
    an <= bn
}

/// Compares two key cells.
pub fn rv_cmp_le(a: &RawVal, b: &RawVal) -> (r: bool)
    ensures
        r == rv_le(a@, b@),
{
    match (a, b) {
        (RawVal::Null, _) => true,
        (_, RawVal::Null) => false,
        (RawVal::Int(x), RawVal::Int(y)) => x <= y,
        (RawVal::Int(_), RawVal::Str(_)) => true,
        (RawVal::Str(_), RawVal::Int(_)) => false,
        (RawVal::Str(x), RawVal::Str(y)) => str_le(x.as_str(), y.as_str()),
    }
}

/// The key cell of a row (empty when the row is too short).
pub open spec fn key_of(row: Seq<RVal>, k: int) -> RVal {
    if 0 <= k < row.len() {
        row[k]
    } else {
        RVal::N
    }
}

/// Inserts a row into a sorted run, after every row whose key is not
/// greater: the stable position.
pub open spec fn ins_row(sorted: Seq<Seq<RVal>>, row: Seq<RVal>, k: int) -> Seq<Seq<RVal>>
    decreases sorted.len(),
{
    if sorted.len() == 0 {
        seq![row]
    } else if rv_le(key_of(sorted.last(), k), key_of(row, k)) {
        sorted.push(row)
    } else {
        ins_row(sorted.drop_last(), row, k).push(sorted.last())
    }
}

/// Stable sort by the key column: rows are inserted in order, each
/// after its equals.
pub open spec fn sort_rows_spec(rows: Seq<Seq<RVal>>, k: int) -> Seq<Seq<RVal>>
    decreases rows.len(),
{
    if rows.len() == 0 {
        Seq::empty()
    } else {
        ins_row(sort_rows_spec(rows.drop_last(), k), rows.last(), k)
    }
}

/// Sorts materialized rows stably by the key column `k`.
pub fn sort_rows(rows: Vec<Vec<RawVal>>, k: usize) -> (r: Vec<Vec<RawVal>>)
    ensures
        rows_view(r@) == sort_rows_spec(rows_view(rows@), k as int),
{
    let ghost all = rows_view(rows@);
    let mut rest = rows;
    let mut sorted: Vec<Vec<RawVal>> = Vec::new();
    let n = rest.len();
    let mut i: usize = 0;
    while i < n
        invariant
            i <= n,
            n == all.len(),
            rows_view(rest@) == all.skip(i as int),
            rest@.len() == n - i,
            rows_view(sorted@) == sort_rows_spec(all.take(i as int), k as int),
        decreases n - i,
    {
        let ghost rv_pre = rest@;
        let row = rest.remove(0);
        proof {
            assert(row == rv_pre[0]);
            assert(rows_view(rv_pre)[0] == all.skip(i as int)[0]);
            assert(row_view(row@) == all[i as int]);
            assert(rows_view(rest@) =~= all.skip(i as int + 1)) by {
                assert forall|j: int| 0 <= j < rest@.len() implies rows_view(rest@)[j]
                    == all.skip(i as int + 1)[j] by {
                    assert(rest@[j] == rv_pre[j + 1]);
                    assert(rows_view(rv_pre)[j + 1] == all.skip(i as int)[j + 1]);
                }
            }
            assert(all.take(i as int + 1).drop_last() =~= all.take(i as int));
            assert(all.take(i as int + 1).last() == all[i as int]);
        }
        // find the stable insertion position from the end
        let mut pos = sorted.len();
        let mut found = false;
        while pos > 0 && !found
            invariant
                pos <= sorted@.len(),
                found ==> pos > 0 && rv_le(
                    key_of(row_view(sorted@[pos - 1]@), k as int),
                    key_of(row_view(row@), k as int),
                ),
                forall|j: int|
                    pos <= j < sorted@.len() ==> !rv_le(
                        key_of(row_view((#[trigger] sorted@[j])@), k as int),
                        key_of(row_view(row@), k as int),
                    ),
            decreases pos + (if found {
                0int
            } else {
                1int
            }),
        {
            let prev = &sorted[pos - 1];
            let prev_key: &RawVal = if k < prev.len() {
                &prev[k]
            } else {
                &RawVal::Null
            };
            let row_key: &RawVal = if k < row.len() {
                &row[k]
            } else {
                &RawVal::Null
            };
            proof {
                assert(prev_key@ == key_of(row_view(prev@), k as int));
                assert(row_key@ == key_of(row_view(row@), k as int));
            }
            if rv_cmp_le(prev_key, row_key) {
                found = true;
            } else {
                pos -= 1;
            }
        }
        let ghost pre = rows_view(sorted@);
        sorted.insert(pos, row);
        proof {
            lemma_ins_at(pre, row_view(row@), k as int, pos as int);
            assert(rows_view(sorted@) =~= pre.insert(pos as int, row_view(row@)));
        }
        i += 1;
    }
    proof {
        assert(all.take(n as int) =~= all);
    }
    sorted
}

/// Inserting at the first position from the end whose predecessor's
/// key is not greater matches the specification's insertion.
proof fn lemma_ins_at(sorted: Seq<Seq<RVal>>, row: Seq<RVal>, k: int, pos: int)
    requires
        0 <= pos <= sorted.len(),
        pos > 0 ==> rv_le(key_of(sorted[pos - 1], k), key_of(row, k)),
        forall|j: int|
            pos <= j < sorted.len() ==> !rv_le(
                key_of(#[trigger] sorted[j], k),
                key_of(row, k),
            ),
    ensures
        ins_row(sorted, row, k) == sorted.insert(pos, row),
    decreases sorted.len(),
{
    if sorted.len() == 0 {
        assert(ins_row(sorted, row, k) =~= sorted.insert(0, row));
    } else if pos == sorted.len() {
        assert(rv_le(key_of(sorted.last(), k), key_of(row, k)));
        assert(sorted.insert(pos, row) =~= sorted.push(row));
    } else {
        assert(!rv_le(key_of(sorted[sorted.len() - 1], k), key_of(row, k)));
        lemma_ins_at(sorted.drop_last(), row, k, pos);
        assert(sorted.insert(pos, row) =~= sorted.drop_last().insert(pos, row).push(
            sorted.last(),
        ));
    }
}

/// The rows whose key cell equals `g`, kept in order.
pub open spec fn keyed_rows(rows: Seq<Seq<RVal>>, k: int, g: RVal) -> Seq<Seq<RVal>>
    decreases rows.len(),
{
    if rows.len() == 0 {
        Seq::empty()
    } else {
        let rest = keyed_rows(rows.drop_last(), k, g);
        if key_of(rows.last(), k) == g {
            rest.push(rows.last())
        } else {
            rest
        }
    }
}

/// Key order is reflexive.
pub proof fn lemma_rv_le_refl(a: RVal)
    ensures
        rv_le(a, a),
{
    if let RVal::S(x) = a {
        lemma_lex_refl(x);
    }
}

proof fn lemma_lex_refl(a: Seq<char>)
    ensures
        lex_le(a, a),
    decreases a.len(),
{
    if a.len() > 0 {
        lemma_lex_refl(a.skip(1));
    }
}

/// Inserting a row appends it to its own key class and leaves every
/// other class unchanged.
proof fn lemma_ins_keyed(sorted: Seq<Seq<RVal>>, row: Seq<RVal>, k: int, g: RVal)
    ensures
        keyed_rows(ins_row(sorted, row, k), k, g) == if key_of(row, k) == g {
            keyed_rows(sorted, k, g).push(row)
        } else {
            keyed_rows(sorted, k, g)
        },
    decreases sorted.len(),
{
    if sorted.len() == 0 {
        assert(seq![row].drop_last() =~= Seq::<Seq<RVal>>::empty());
        assert(seq![row].last() == row);
        assert(keyed_rows(Seq::<Seq<RVal>>::empty(), k, g) =~= Seq::<Seq<RVal>>::empty());
        if key_of(row, k) == g {
            assert(keyed_rows(seq![row], k, g) =~= keyed_rows(sorted, k, g).push(row));
        } else {
            assert(keyed_rows(seq![row], k, g) =~= keyed_rows(sorted, k, g));
        }
    } else if rv_le(key_of(sorted.last(), k), key_of(row, k)) {
        let out = sorted.push(row);
        assert(out.drop_last() =~= sorted);
        assert(out.last() == row);
    } else {
        let inner = ins_row(sorted.drop_last(), row, k);
        lemma_ins_keyed(sorted.drop_last(), row, k, g);
        let out = inner.push(sorted.last());
        assert(out.drop_last() =~= inner);
        assert(out.last() == sorted.last());
        if key_of(row, k) == g {
            if key_of(sorted.last(), k) == g {
                lemma_rv_le_refl(g);
                assert(false);
            }
            assert(keyed_rows(out, k, g) == keyed_rows(sorted.drop_last(), k, g).push(row));
            assert(keyed_rows(sorted, k, g) == keyed_rows(sorted.drop_last(), k, g));
        }
    }
}

/// Stability: sorting keeps the rows of every key class in their
/// original relative order, so ties keep their insertion order.
pub proof fn lemma_sort_rows_stable(rows: Seq<Seq<RVal>>, k: int, g: RVal)
    ensures
        keyed_rows(sort_rows_spec(rows, k), k, g) == keyed_rows(rows, k, g),
    decreases rows.len(),
{
    if rows.len() > 0 {
        lemma_sort_rows_stable(rows.drop_last(), k, g);
        lemma_ins_keyed(sort_rows_spec(rows.drop_last(), k), rows.last(), k, g);
    }
}

/// The sorted run is ordered by the key column.
pub proof fn lemma_sort_rows_sorted(rows: Seq<Seq<RVal>>, k: int)
    ensures
        forall|i: int, j: int|
            0 <= i < j < sort_rows_spec(rows, k).len() ==> rv_le(
                key_of(#[trigger] sort_rows_spec(rows, k)[i], k),
                key_of(#[trigger] sort_rows_spec(rows, k)[j], k),
            ),
        sort_rows_spec(rows, k).len() == rows.len(),
    decreases rows.len(),
{
    if rows.len() > 0 {
        lemma_sort_rows_sorted(rows.drop_last(), k);
        lemma_ins_sorted(sort_rows_spec(rows.drop_last(), k), rows.last(), k);
    }
}

/// Inserting into a sorted run keeps it sorted.
proof fn lemma_ins_sorted(sorted: Seq<Seq<RVal>>, row: Seq<RVal>, k: int)
    requires
        forall|i: int, j: int|
            0 <= i < j < sorted.len() ==> rv_le(
                key_of(#[trigger] sorted[i], k),
                key_of(#[trigger] sorted[j], k),
            ),
    ensures
        ins_row(sorted, row, k).len() == sorted.len() + 1,
        forall|i: int, j: int|
            0 <= i < j < ins_row(sorted, row, k).len() ==> rv_le(
                key_of(#[trigger] ins_row(sorted, row, k)[i], k),
                key_of(#[trigger] ins_row(sorted, row, k)[j], k),
            ),
    decreases sorted.len(),
{
    lemma_rv_le_total(key_of(row, k), key_of(row, k));
    if sorted.len() == 0 {
        assert(ins_row(sorted, row, k) =~= seq![row]);
    } else if rv_le(key_of(sorted.last(), k), key_of(row, k)) {
        let out = sorted.push(row);
        assert forall|i: int, j: int| 0 <= i < j < out.len() implies rv_le(
            key_of(#[trigger] out[i], k),
            key_of(#[trigger] out[j], k),
        ) by {
            if j == out.len() - 1 {
                if i < sorted.len() - 1 {
                    lemma_rv_le_trans(
                        key_of(sorted[i], k),
                        key_of(sorted.last(), k),
                        key_of(row, k),
                    );
                }
            }
        }
    } else {
        let pre = sorted.drop_last();
        assert forall|i: int, j: int| 0 <= i < j < pre.len() implies rv_le(
            key_of(#[trigger] pre[i], k),
            key_of(#[trigger] pre[j], k),
        ) by {
            assert(pre[i] == sorted[i]);
            assert(pre[j] == sorted[j]);
        }
        lemma_ins_sorted(pre, row, k);
        let inner = ins_row(pre, row, k);
        let out = inner.push(sorted.last());
        lemma_rv_le_total(key_of(row, k), key_of(sorted.last(), k));
        assert forall|i: int, j: int| 0 <= i < j < out.len() implies rv_le(
            key_of(#[trigger] out[i], k),
            key_of(#[trigger] out[j], k),
        ) by {
            if j == out.len() - 1 {
                lemma_ins_members(pre, row, k, i);
                let ki = key_of(out[i], k);
                let kl = key_of(sorted.last(), k);
                if exists|x: int| 0 <= x < pre.len() && out[i] == pre[x] {
                    let x = choose|x: int| 0 <= x < pre.len() && out[i] == pre[x];
                    assert(rv_le(key_of(sorted[x], k), kl));
                } else {
                    assert(out[i] == row);
                    assert(rv_le(ki, kl));
                }
            }
        }
    }
}

/// An insertion result has one more entry.
proof fn lemma_ins_len(sorted: Seq<Seq<RVal>>, row: Seq<RVal>, k: int)
    ensures
        ins_row(sorted, row, k).len() == sorted.len() + 1,
    decreases sorted.len(),
{
    if sorted.len() > 0 && !rv_le(key_of(sorted.last(), k), key_of(row, k)) {
        lemma_ins_len(sorted.drop_last(), row, k);
    }
}

/// Every entry of an insertion result is the new row or an original.
proof fn lemma_ins_members(sorted: Seq<Seq<RVal>>, row: Seq<RVal>, k: int, i: int)
    requires
        0 <= i < ins_row(sorted, row, k).len(),
    ensures
        ins_row(sorted, row, k).len() == sorted.len() + 1,
        ins_row(sorted, row, k)[i] == row || exists|x: int|
            0 <= x < sorted.len() && ins_row(sorted, row, k)[i] == sorted[x],
    decreases sorted.len(),
{
    lemma_ins_len(sorted, row, k);
    let out = ins_row(sorted, row, k);
    if sorted.len() == 0 {
        assert(out[0] == row);
    } else if rv_le(key_of(sorted.last(), k), key_of(row, k)) {
        if i < sorted.len() {
            assert(out[i] == sorted[i]);
            assert(exists|x: int| 0 <= x < sorted.len() && out[i] == sorted[x]) by {
                assert(out[i] == sorted[i]);
            }
        } else {
            assert(out[i] == row);
        }
    } else {
        let inner = ins_row(sorted.drop_last(), row, k);
        lemma_ins_len(sorted.drop_last(), row, k);
        if i < inner.len() {
            assert(out[i] == inner[i]);
            lemma_ins_members(sorted.drop_last(), row, k, i);
            if inner[i] != row {
                let x = choose|x: int|
                    0 <= x < sorted.drop_last().len() && inner[i] == sorted.drop_last()[x];
                assert(sorted.drop_last()[x] == sorted[x]);
                assert(exists|x2: int| 0 <= x2 < sorted.len() && out[i] == sorted[x2]) by {
                    assert(out[i] == sorted[x]);
                }
            }
        } else {
            assert(out[i] == sorted[sorted.len() - 1]);
            assert(exists|x: int| 0 <= x < sorted.len() && out[i] == sorted[x]) by {
                assert(out[i] == sorted[sorted.len() - 1]);
            }
        }
    }
}

/// Key order is total: two keys always compare one way or the other.
pub proof fn lemma_rv_le_total(a: RVal, b: RVal)
    ensures
        rv_le(a, b) || rv_le(b, a),
{
    match (a, b) {
        (RVal::S(x), RVal::S(y)) => {
            lemma_lex_total(x, y);
        },
        _ => {},
    }
}

proof fn lemma_lex_total(a: Seq<char>, b: Seq<char>)
    ensures
        lex_le(a, b) || lex_le(b, a),
    decreases a.len(),
{
    if a.len() > 0 && b.len() > 0 && a[0] as u32 == b[0] as u32 {
        lemma_lex_total(a.skip(1), b.skip(1));
    }
}

/// Key order is transitive.
pub proof fn lemma_rv_le_trans(a: RVal, b: RVal, c: RVal)
    requires
        rv_le(a, b),
        rv_le(b, c),
    ensures
        rv_le(a, c),
{
    match (a, b, c) {
        (RVal::S(x), RVal::S(y), RVal::S(z)) => {
            lemma_lex_trans(x, y, z);
        },
        _ => {},
    }
}

proof fn lemma_lex_trans(a: Seq<char>, b: Seq<char>, c: Seq<char>)
    requires
        lex_le(a, b),
        lex_le(b, c),
    ensures
        lex_le(a, c),
    decreases a.len(),
{
    if a.len() > 0 && b.len() > 0 && c.len() > 0 {
        if a[0] as u32 == b[0] as u32 && b[0] as u32 == c[0] as u32 {
            lemma_lex_trans(a.skip(1), b.skip(1), c.skip(1));
        }
    }
}

} // verus!
