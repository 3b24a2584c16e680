//! The query driver: per-batch planning and execution, accumulation of
//! partial results across batches, and the final limit/offset window.

use vstd::prelude::*;

use crate::bits::{bits_of, bv_count, count_true};
use crate::column::Batch;
use crate::expr::{Aggregator, ETy, Expr, LimitClause};
use crate::planner::{compile_expr, full_bools, full_ints, full_strs, plannable, PlanError};
use crate::scratchpad::Scratchpad;
use crate::sort::sort_rows_spec;
use crate::typed_vec::{
    filter_seq, lemma_filter_map_commute, lemma_filter_seq_len, lemma_filter_seq_subset, TypedVec,
    TVM,
};
use crate::val::{RVal, RawVal, ValueType};
use crate::vector_op::{bool_fill, denote_plan, execute_plan, mask_model, VecOp};

verus! {

/// A parsed query over one table.
#[derive(Debug)]
pub struct Query {
    pub select: Vec<Expr>,
    pub table: String,
    pub filter: Expr,
    pub aggregate: Vec<(Aggregator, Expr)>,
    pub order_by: Option<Expr>,
    pub limit: LimitClause,
}

/// Counters the driver fills while running a query. Wall-clock time is
/// measured by the embedding application and recorded in `runtime_ns`.
#[derive(Clone, Copy, PartialEq, Eq, Structural, Debug)]
pub struct QueryStats {
    pub runtime_ns: u64,
    pub ops: usize,
    pub rows_scanned: usize,
}

impl QueryStats {
    pub fn new() -> (r: QueryStats)
        ensures
            r.runtime_ns == 0,
            r.ops == 0,
            r.rows_scanned == 0,
    {
        QueryStats { runtime_ns: 0, ops: 0, rows_scanned: 0 }
    }

    /// Marks the start of a measured phase. Timing is the embedding
    /// application's concern, so this keeps the stats unchanged.
    pub fn start(&mut self)
        ensures
            *final(self) == *old(self),
    {
    }

    /// Attributes the phase since `start` to `label`. Without a clock
    /// there is nothing to attribute; the stats stay unchanged.
    pub fn record(&mut self, label: &'static str)
        ensures
            *final(self) == *old(self),
    {
        let _ = label;
    }
}

/// A materialized query result.
pub struct QueryResult {
    pub colnames: Vec<String>,
    pub rows: Vec<Vec<RawVal>>,
    pub stats: QueryStats,
}

/// The models of the cells of a result row.
pub open spec fn row_view(r: Seq<RawVal>) -> Seq<RVal> {
    Seq::new(r.len(), |j: int| r[j]@)
}

/// The character sequences of a list of names.
pub open spec fn names_view(ns: Seq<String>) -> Seq<Seq<char>> {
    Seq::new(ns.len(), |i: int| ns[i]@)
}

/// The models of all result rows.
pub open spec fn rows_view(rows: Seq<Vec<RawVal>>) -> Seq<Seq<RVal>> {
    Seq::new(rows.len(), |i: int| row_view(rows[i]@))
}

/// The filter mask of a query over one batch: the filter expression's
/// value at every row.
pub open spec fn sel_mask(q: Query, b: Batch) -> Seq<bool> {
    full_bools(q.filter, b)
}

/// Whether the filter is a constant boolean, which compiles to no mask
/// (true) or an empty result (false) without scanning.
pub open spec fn trivial_filter(q: Query) -> bool {
    q.filter matches Expr::Const(ValueType::Bool(_))
}

/// Whether the driver hands the scans a runtime mask: it does unless
/// the filter is the constant `true`.
pub open spec fn has_runtime_mask(q: Query) -> bool {
    !(q.filter matches Expr::Const(ValueType::Bool(true)))
}

/// The cells of one select expression at the mask-selected rows.
pub open spec fn sel_cells(e: Expr, b: Batch, mk: Seq<bool>) -> Seq<RVal> {
    filter_seq(Seq::new(b.len_spec(), |i: int| e.eval_cell(b, i)), mk)
}

/// The rows a batch contributes to a non-aggregated query.
pub open spec fn batch_rows(q: Query, b: Batch) -> Seq<Seq<RVal>> {
    let mk = sel_mask(q, b);
    Seq::new(
        count_true(mk),
        |k: int| Seq::new(q.select@.len(), |j: int| sel_cells(q.select@[j], b, mk)[k]),
    )
}

/// The rows of all batches, in batch order.
pub open spec fn all_rows(q: Query, bs: Seq<Batch>) -> Seq<Seq<RVal>>
    decreases bs.len(),
{
    if bs.len() == 0 {
        Seq::empty()
    } else {
        all_rows(q, bs.drop_last()) + batch_rows(q, bs.last())
    }
}

/// The limit/offset window: rows `[offset, offset+limit)`, clipped.
pub open spec fn window<A>(s: Seq<A>, off: int, lim: int) -> Seq<A> {
    let start = if off < s.len() {
        off
    } else {
        s.len() as int
    };
    let end = if off + lim < s.len() {
        off + lim
    } else {
        s.len() as int
    };
    if start <= end {
        s.subrange(start, end)
    } else {
        Seq::empty()
    }
}

/// The driver's row counter over a run of batches: batch lengths
/// accumulated with wrapping addition, as the counter is.
pub open spec fn scanned_rows(bs: Seq<Batch>) -> usize
    decreases bs.len(),
{
    if bs.len() == 0 {
        0
    } else {
        vstd::wrapping::usize_specs::wrapping_add(
            scanned_rows(bs.drop_last()),
            bs.last().len_spec() as usize,
        )
    }
}

/// How many batches the select pipeline reads: it stops as soon as
/// the window over the rows so far is full, else reads all.
pub open spec fn consumed_batches(q: Query, bs: Seq<Batch>, off: int, lim: int) -> int {
    consumed_from(q, bs, off, lim, 0)
}

pub open spec fn consumed_from(q: Query, bs: Seq<Batch>, off: int, lim: int, i: int) -> int
    decreases bs.len() - i,
{
    if i >= bs.len() {
        bs.len() as int
    } else if window(all_rows(q, bs.take(i)), off, lim).len() == lim {
        i
    } else {
        consumed_from(q, bs, off, lim, i + 1)
    }
}

/// Whether one batch of a non-aggregated query can be planned: the
/// filter is a constant boolean or a plannable boolean expression, and
/// every select expression is plannable and not itself boolean.
pub open spec fn query_plannable(q: Query, b: Batch) -> bool {
    &&& (trivial_filter(q) || (q.filter.etype(b) == Some(ETy::EBool) && plannable(
        q.filter,
        b,
        false,
    )))
    &&& forall|j: int|
        0 <= j < q.select@.len() ==> ((#[trigger] q.select@[j]).etype(b) != Some(ETy::EBool)
            && plannable(q.select@[j], b, has_runtime_mask(q)))
}

/// A mask of only set bits selects everything.
pub proof fn lemma_filter_true<A>(s: Seq<A>, m: Seq<bool>)
    requires
        s.len() == m.len(),
        forall|i: int| 0 <= i < m.len() ==> m[i],
    ensures
        filter_seq(s, m) == s,
    decreases s.len(),
{
    if s.len() > 0 {
        lemma_filter_true(s.drop_last(), m.drop_last());
        assert(filter_seq(s, m) =~= s);
    } else {
        assert(filter_seq(s, m) =~= s);
    }
}

/// Every set bit keeps its row: filtering a constant run yields a
/// constant run.
pub proof fn lemma_filter_const<A>(s: Seq<A>, m: Seq<bool>, x: A, k: int)
    requires
        s.len() == m.len(),
        forall|i: int| 0 <= i < s.len() ==> s[i] == x,
        0 <= k < filter_seq(s, m).len(),
    ensures
        filter_seq(s, m)[k] == x,
{
    lemma_filter_seq_subset(s, m, k);
}

/// Evaluates the filter of a query over one batch. `None` means every
/// row is selected without a runtime mask.
pub fn eval_filter(q: &Query, b: &Batch) -> (r: Result<Option<bit_vec::BitVec>, PlanError>)
    requires
        b.wf(),
    ensures
        r matches Ok(mo) ==> (mo is Some <==> has_runtime_mask(*q)) && match mo {
            Some(bv) => bits_of(bv) == sel_mask(*q, *b),
            None => forall|i: int| 0 <= i < b.len_spec() ==> sel_mask(*q, *b)[i],
        },
        r is Ok <==> (trivial_filter(*q) || (q.filter.etype(*b) == Some(ETy::EBool) && plannable(
            q.filter,
            *b,
            false,
        ))),
{
    if let Expr::Const(ValueType::Bool(v)) = &q.filter {
        if *v {
            proof {
                assert(forall|i: int|
                    0 <= i < b.len_spec() ==> (#[trigger] sel_mask(*q, *b)[i]) == true);
            }
            return Ok(None);
        } else {
            let n = b.row_count();
            let bv = bool_fill(n, false);
            proof {
                assert(bits_of(bv) =~= sel_mask(*q, *b));
            }
            return Ok(Some(bv));
        }
    }
    match q.filter.ety_of(b) {
        Some(ETy::EBool) => {},
        _ => {
            return Err(PlanError::TypeMismatch);
        },
    }
    let mut ops: Vec<VecOp> = Vec::new();
    let slot = match compile_expr(&q.filter, b, false, None, &mut ops) {
        Ok(s) => s,
        Err(er) => {
            return Err(er);
        },
    };
    let mut pad = Scratchpad::new();
    execute_plan(&ops, b, None, &mut pad);
    let ghost denv = denote_plan(ops@, *b, mask_model(None));
    let mut pad = pad;
    // the result is the last slot of the plan
    let tv = take_slot(&mut pad, slot.idx);
    proof {
        assert(Some(tv@) == denv[slot.idx as int]);
    }
    match tv {
        TypedVec::Boolean(bv) => {
            proof {
                assert(bits_of(bv) == full_bools(q.filter, *b));
            }
            Ok(Some(bv))
        },
        _ => {
            proof {
                assert(false);
            }
            unreached()
        },
    }
}

/// A compiled buffer holds exactly the expression's materialized cells
/// at the mask-selected rows.
pub proof fn lemma_cells_match(
    t: TVM,
    e: Expr,
    b: Batch,
    masked: bool,
    mk: Seq<bool>,
    mmod: Option<Seq<bool>>,
)
    requires
        crate::planner::compiled_matches(t, e, b, masked, mmod),
        e.etype(b) is Some,
        e.etype(b) != Some(ETy::EBool),
        mk.len() == b.len_spec(),
        masked ==> mmod == Some(mk),
        !masked ==> forall|i: int| 0 <= i < mk.len() ==> mk[i],
    ensures
        t matches TVM::ConstV(_) || t.len_spec() == count_true(mk),
        forall|k: int|
            0 <= k < count_true(mk) ==> #[trigger] t.cell(k) == sel_cells(e, b, mk)[k],
{
    let n = b.len_spec();
    let cells = Seq::new(n, |i: int| e.eval_cell(b, i));
    lemma_filter_seq_len(cells, mk);
    if let Expr::Const(v) = e {
        assert(t == TVM::ConstV(crate::planner::cv(v)));
        assert forall|k: int| 0 <= k < count_true(mk) implies #[trigger] t.cell(k) == sel_cells(
            e,
            b,
            mk,
        )[k] by {
            lemma_filter_const(cells, mk, e.eval_cell(b, 0), k);
            assert(e.eval_cell(b, 0) == crate::planner::cv(v));
        }
    } else {
        match e.etype(b) {
            Some(ETy::EInt) => {
                let fi = full_ints(e, b);
                let f = |x: int| RVal::I(x as i64);
                if masked {
                    assert(t.ints() == filter_seq(fi, mk));
                } else {
                    lemma_filter_true(fi, mk);
                    assert(t.ints() == filter_seq(fi, mk));
                }
                lemma_filter_map_commute(fi, mk, f);
                assert(cells =~= fi.map_values(f));
                lemma_filter_seq_len(fi, mk);
                match t {
                    TVM::Ints(s) => {
                        assert(t.len_spec() == count_true(mk));
                    },
                    TVM::Codes(s, o) => {
                        assert(t.ints().len() == s.len());
                        assert(t.len_spec() == count_true(mk));
                    },
                    _ => {},
                }
                assert forall|k: int|
                    0 <= k < count_true(mk) implies #[trigger] t.cell(k) == sel_cells(
                    e,
                    b,
                    mk,
                )[k] by {
                    assert(sel_cells(e, b, mk) == filter_seq(fi, mk).map_values(f));
                    assert(sel_cells(e, b, mk)[k] == f(t.ints()[k]));
                }
            },
            Some(ETy::EStr) => {
                let fs = full_strs(e, b);
                let f = |x: Seq<char>| RVal::S(x);
                if let TVM::Strs(ss) = t {
                    if masked {
                        assert(ss == filter_seq(fs, mk));
                    } else {
                        lemma_filter_true(fs, mk);
                        assert(ss == filter_seq(fs, mk));
                    }
                    lemma_filter_map_commute(fs, mk, f);
                    assert(cells =~= fs.map_values(f));
                    lemma_filter_seq_len(fs, mk);
                    assert(t.len_spec() == count_true(mk));
                    assert forall|k: int|
                        0 <= k < count_true(mk) implies #[trigger] t.cell(k) == sel_cells(
                        e,
                        b,
                        mk,
                    )[k] by {
                        assert(sel_cells(e, b, mk) == filter_seq(fs, mk).map_values(f));
                        assert(sel_cells(e, b, mk)[k] == f(ss[k]));
                    }
                }
            },
            Some(ETy::ENull) => {
                if let TVM::Nulls(kk) = t {
                    let zs = Seq::new(n, |i: int| 0int);
                    if masked {
                        lemma_filter_seq_len(zs, mk);
                        assert(kk == count_true(mk));
                    } else {
                        lemma_filter_true(zs, mk);
                        lemma_filter_seq_len(zs, mk);
                        assert(kk == count_true(mk));
                    }
                    assert forall|k: int|
                        0 <= k < count_true(mk) implies #[trigger] t.cell(k) == sel_cells(
                        e,
                        b,
                        mk,
                    )[k] by {
                        lemma_filter_const(cells, mk, RVal::N, k);
                        assert(e.eval_cell(b, 0) == RVal::N);
                        assert(forall|i: int| 0 <= i < n ==> cells[i] == RVal::N);
                    }
                }
            },
            _ => {},
        }
    }
}

/// Runs the filter and every select expression of a non-aggregated
/// query over one batch: each returned buffer holds one select
/// expression's cells at the selected rows, `cnt` of them.
pub fn run_batch_select(q: &Query, b: &Batch) -> (r: Result<
    (Vec<TypedVec>, usize, Option<bit_vec::BitVec>),
    PlanError,
>)
    requires
        b.wf(),
    ensures
        r matches Ok(p) ==> {
            let (tvs, cnt, mask) = p;
            &&& cnt == count_true(sel_mask(*q, *b))
            &&& tvs@.len() == q.select@.len()
            &&& forall|j: int| 0 <= j < tvs@.len() ==> (#[trigger] tvs@[j]).wf()
            &&& forall|j: int|
                0 <= j < tvs@.len() ==> ((#[trigger] tvs@[j])@ matches TVM::ConstV(_)
                    || tvs@[j]@.len_spec() == cnt)
            &&& forall|j: int, k: int|
                0 <= j < tvs@.len() && 0 <= k < cnt ==> (#[trigger] tvs@[j]@.cell(k))
                    == sel_cells(q.select@[j], *b, sel_mask(*q, *b))[k]
            &&& (mask is Some <==> has_runtime_mask(*q))
            &&& (mask matches Some(bv) ==> bits_of(bv) == sel_mask(*q, *b))
            &&& (mask is None ==> forall|i: int|
                0 <= i < b.len_spec() ==> sel_mask(*q, *b)[i])
        },
        r is Ok <==> query_plannable(*q, *b),
{
    let ghost mk = sel_mask(*q, *b);
    let mask = match eval_filter(q, b) {
        Ok(mo) => mo,
        Err(er) => {
            return Err(er);
        },
    };
    let cnt = match &mask {
        Some(bv) => bv_count(bv),
        None => {
            proof {
                let zs = Seq::new(b.len_spec(), |i: int| 0int);
                lemma_filter_true(zs, mk);
                lemma_filter_seq_len(zs, mk);
            }
            b.row_count()
        },
    };
    let masked = mask.is_some();
    let nsel = q.select.len();
    let mut tvs: Vec<TypedVec> = Vec::new();
    let mut j: usize = 0;
    while j < nsel
        invariant
            j <= nsel,
            b.wf(),
            nsel == q.select@.len(),
            cnt == count_true(mk),
            mk == sel_mask(*q, *b),
            mk.len() == b.len_spec(),
            masked == (mask is Some),
            mask matches Some(bv) ==> bits_of(bv) == mk,
            masked == has_runtime_mask(*q),
            !masked ==> forall|i: int| 0 <= i < mk.len() ==> mk[i],
            tvs@.len() == j,
            forall|jj: int| 0 <= jj < j ==> (#[trigger] tvs@[jj]).wf(),
            forall|jj: int|
                0 <= jj < j ==> ((#[trigger] tvs@[jj])@ matches TVM::ConstV(_)
                    || tvs@[jj]@.len_spec() == cnt),
            forall|jj: int, k: int|
                0 <= jj < j && 0 <= k < cnt ==> (#[trigger] tvs@[jj]@.cell(k)) == sel_cells(
                    q.select@[jj],
                    *b,
                    mk,
                )[k],
            forall|jj: int|
                0 <= jj < j ==> ((#[trigger] q.select@[jj]).etype(*b) != Some(ETy::EBool)
                    && plannable(q.select@[jj], *b, has_runtime_mask(*q))),
        decreases nsel - j,
    {
        let e = &q.select[j];
        match e.ety_of(b) {
            Some(ETy::EBool) => {
                return Err(PlanError::Unsupported);
            },
            None => {},
            _ => {},
        }
        let mut ops: Vec<VecOp> = Vec::new();
        let mref = mask.as_ref();
        let slot = match compile_expr(e, b, masked, mref, &mut ops) {
            Ok(s) => s,
            Err(er) => {
                return Err(er);
            },
        };
        let mut pad = Scratchpad::new();
        execute_plan(&ops, b, mref, &mut pad);
        let ghost denv = denote_plan(ops@, *b, mask_model(mref));
        let tv = take_slot(&mut pad, slot.idx);
        proof {
            assert(Some(tv@) == denv[slot.idx as int]);
            if !(e matches Expr::Const(_)) {
                assert(e.etype(*b) is Some);
            }
            lemma_cells_match(tv@, *e, *b, masked, mk, mask_model(mref));
        }
        tvs.push(tv);
        j += 1;
    }
    Ok((tvs, cnt, mask))
}

/// The grouping key of each selected row: the tuple of the select
/// expressions' cells — the batch's select rows themselves. Without
/// selected columns every row keys to the empty tuple.
pub open spec fn gkey_cells(q: Query, b: Batch) -> Seq<Seq<RVal>> {
    batch_rows(q, b)
}

/// The aggregation inputs of one aggregate at the selected rows: 1 per
/// row for Count, the expression's integer value for Sum.
pub open spec fn agg_vals(q: Query, b: Batch, j: int) -> Seq<int> {
    let mk = sel_mask(q, b);
    if q.aggregate@[j].0 == Aggregator::Count {
        Seq::new(count_true(mk), |_k: int| 1int)
    } else {
        filter_seq(full_ints(q.aggregate@[j].1, b), mk)
    }
}

/// One batch's selected rows as (group key, aggregation inputs) pairs.
pub open spec fn batch_zip(q: Query, b: Batch) -> Seq<(Seq<RVal>, Seq<int>)> {
    let mk = sel_mask(q, b);
    Seq::new(
        count_true(mk),
        |k: int|
            (
                gkey_cells(q, b)[k],
                Seq::new(q.aggregate@.len(), |j: int| agg_vals(q, b, j)[k]),
            ),
    )
}

/// The aggregate partial one batch emits.
pub open spec fn batch_partial(q: Query, b: Batch) -> Seq<(Seq<RVal>, Seq<int>)> {
    crate::aggregate::merge_entries(Seq::empty(), batch_zip(q, b))
}

/// The global aggregate map: per-batch partials merged in batch order.
pub open spec fn agg_fold(q: Query, bs: Seq<Batch>) -> Seq<(Seq<RVal>, Seq<int>)>
    decreases bs.len(),
{
    if bs.len() == 0 {
        Seq::empty()
    } else {
        crate::aggregate::merge_entries(agg_fold(q, bs.drop_last()), batch_partial(q, bs.last()))
    }
}

/// A row of aggregate accumulators as materialized cells.
pub open spec fn agg_acc_row(acc: Seq<int>, w: nat) -> Seq<RVal> {
    Seq::new(w, |j: int| RVal::I(acc[j] as i64))
}

/// The result row of one group: the group tuple, then its
/// accumulators.
pub open spec fn group_row(m: Seq<(Seq<RVal>, Seq<int>)>, i: int, w: nat) -> Seq<RVal> {
    m[i].0 + agg_acc_row(m[i].1, w)
}

/// The result rows of an aggregated query: one row per group in
/// arrival order, the group tuple first. A select-less aggregation
/// over no selected rows yields one all-identity (0) row: the
/// empty-set aggregation identities take precedence over an empty
/// result for this boundary.
pub open spec fn agg_rows(q: Query, bs: Seq<Batch>) -> Seq<Seq<RVal>> {
    let m = agg_fold(q, bs);
    let w = q.aggregate@.len();
    if q.select@.len() == 0 && m.len() == 0 {
        seq![agg_acc_row(Seq::new(w, |_j: int| 0int), w)]
    } else {
        Seq::new(m.len(), |i: int| group_row(m, i, w))
    }
}

/// Whether one batch of an aggregated query can be planned: the
/// select pipeline (filter and grouping expressions) plans, and each
/// aggregate's input does too.
pub open spec fn agg_plannable(q: Query, b: Batch) -> bool {
    &&& query_plannable(q, b)
    &&& forall|j: int|
        0 <= j < q.aggregate@.len() ==> {
            let e = (#[trigger] q.aggregate@[j]).1;
            &&& plannable(e, b, has_runtime_mask(q))
            &&& e.etype(b) != Some(ETy::EBool)
            &&& (q.aggregate@[j].0 == Aggregator::Sum ==> e.etype(b) == Some(ETy::EInt))
        }
}

/// Runs the whole select pipeline of a query over one batch — the
/// grouping tuple is the select row — computes each aggregate's input
/// column, and folds every selected row into a fresh aggregate map.
pub fn run_batch_aggregate(q: &Query, b: &Batch) -> (r: Result<
    crate::aggregate::GroupedAggs,
    PlanError,
>)
    requires
        b.wf(),
    ensures
        r matches Ok(p) ==> p.wf(q.aggregate@.len()) && p@ == batch_partial(*q, *b),
        r is Ok <==> agg_plannable(*q, *b),
{
    let ghost mk = sel_mask(*q, *b);
    // the grouping tuple of each selected row is its select row
    let (tvs, cnt, mask) = match run_batch_select(q, b) {
        Ok(p) => p,
        Err(er) => {
            return Err(er);
        },
    };
    let masked = mask.is_some();
    // one input column per aggregate
    let w = q.aggregate.len();
    let mut weights: Vec<Vec<i64>> = Vec::new();
    let mut j: usize = 0;
    while j < w
        invariant
            j <= w,
            b.wf(),
            w == q.aggregate@.len(),
            cnt == count_true(mk),
            mk == sel_mask(*q, *b),
            mk.len() == b.len_spec(),
            masked == (mask is Some),
            masked == has_runtime_mask(*q),
            mask matches Some(bv) ==> bits_of(bv) == mk,
            !masked ==> forall|i: int| 0 <= i < mk.len() ==> mk[i],
            weights@.len() == j,
            forall|jj: int| 0 <= jj < j ==> (#[trigger] weights@[jj])@.len() == cnt,
            forall|jj: int, k: int|
                0 <= jj < j && 0 <= k < cnt ==> (#[trigger] weights@[jj]@[k]) as int == agg_vals(
                    *q,
                    *b,
                    jj,
                )[k],
            forall|jj: int|
                0 <= jj < j ==> {
                    let e = (#[trigger] q.aggregate@[jj]).1;
                    &&& plannable(e, *b, has_runtime_mask(*q))
                    &&& e.etype(*b) != Some(ETy::EBool)
                    &&& (q.aggregate@[jj].0 == Aggregator::Sum ==> e.etype(*b) == Some(
                        ETy::EInt,
                    ))
                },
        decreases w - j,
    {
        let is_count = matches!(&q.aggregate[j].0, Aggregator::Count);
        let e = &q.aggregate[j].1;
        match e.ety_of(b) {
            Some(ETy::EBool) => {
                return Err(PlanError::Unsupported);
            },
            _ => {},
        }
        if !is_count {
            match e.ety_of(b) {
                Some(ETy::EInt) => {},
                _ => {
                    return Err(PlanError::TypeMismatch);
                },
            }
        }
        let mut ops: Vec<VecOp> = Vec::new();
        let mref = mask.as_ref();
        let slot = match compile_expr(e, b, masked, mref, &mut ops) {
            Ok(s) => s,
            Err(er) => {
                return Err(er);
            },
        };
        let col: Vec<i64> = if is_count {
            // Count ignores the input values; weigh each row once
            let mut ones: Vec<i64> = Vec::new();
            let mut k: usize = 0;
            while k < cnt
                invariant
                    k <= cnt,
                    ones@.len() == k,
                    forall|kk: int| 0 <= kk < k ==> ones@[kk] == 1i64,
                decreases cnt - k,
            {
                ones.push(1i64);
                k += 1;
            }
            ones
        } else {
            let mut pad = Scratchpad::new();
            execute_plan(&ops, b, mref, &mut pad);
            let ghost denv = denote_plan(ops@, *b, mask_model(mref));
            let tv = take_slot(&mut pad, slot.idx);
            proof {
                assert(Some(tv@) == denv[slot.idx as int]);
            }
            match tv {
                TypedVec::Constant(cval) => {
                    let c: i64 = match &cval {
                        RawVal::Int(c) => *c,
                        _ => {
                            proof {
                                assert(false);
                            }
                            unreached()
                        },
                    };
                    let ghost fi = full_ints(*e, *b);
                    proof {
                        assert(e matches Expr::Const(v) && crate::planner::cv(*v) == RVal::I(c));
                        assert(forall|i: int| 0 <= i < fi.len() ==> fi[i] == c);
                        lemma_filter_seq_len(fi, mk);
                    }
                    let mut vs: Vec<i64> = Vec::new();
                    let mut k: usize = 0;
                    while k < cnt
                        invariant
                            k <= cnt,
                            vs@.len() == k,
                            forall|kk: int| 0 <= kk < k ==> vs@[kk] == c,
                        decreases cnt - k,
                    {
                        vs.push(c);
                        k += 1;
                    }
                    proof {
                        assert forall|kk: int| 0 <= kk < cnt implies vs@[kk] as int == agg_vals(
                            *q,
                            *b,
                            j as int,
                        )[kk] by {
                            lemma_filter_const(fi, mk, c as int, kk);
                        }
                    }
                    vs
                },
                tv => {
                    proof {
                        if !masked {
                            lemma_filter_true(full_ints(*e, *b), mk);
                        }
                        lemma_filter_seq_len(full_ints(*e, *b), mk);
                    }
                    let d = tv.decoded();
                    match d {
                        TypedVec::Integer(vs) => {
                            proof {
                                assert forall|kk: int|
                                    0 <= kk < cnt implies vs@[kk] as int == agg_vals(
                                    *q,
                                    *b,
                                    j as int,
                                )[kk] by {
                                    assert(tv@.ints()[kk] == filter_seq(
                                        full_ints(*e, *b),
                                        mk,
                                    )[kk]);
                                    assert(vs@[kk] as int == tv@.ints()[kk]);
                                }
                            }
                            vs
                        },
                        _ => {
                            proof {
                                assert(false);
                            }
                            unreached()
                        },
                    }
                },
            }
        };
        weights.push(col);
        j += 1;
    }
    // fold every selected row into the aggregate map
    let nsel = tvs.len();
    let mut state = crate::aggregate::GroupedAggs::new();
    let mut k: usize = 0;
    while k < cnt
        invariant
            k <= cnt,
            b.wf(),
            w == q.aggregate@.len(),
            cnt == count_true(mk),
            mk == sel_mask(*q, *b),
            mk.len() == b.len_spec(),
            nsel == tvs@.len(),
            nsel == q.select@.len(),
            weights@.len() == w,
            forall|jj: int| 0 <= jj < w ==> (#[trigger] weights@[jj])@.len() == cnt,
            forall|jj: int, kk: int|
                0 <= jj < w && 0 <= kk < cnt ==> (#[trigger] weights@[jj]@[kk]) as int
                    == agg_vals(*q, *b, jj)[kk],
            forall|jj: int| 0 <= jj < tvs@.len() ==> (#[trigger] tvs@[jj]).wf(),
            forall|jj: int|
                0 <= jj < tvs@.len() ==> ((#[trigger] tvs@[jj])@ matches TVM::ConstV(_)
                    || tvs@[jj]@.len_spec() == cnt),
            forall|jj: int, kk: int|
                0 <= jj < tvs@.len() && 0 <= kk < cnt ==> (#[trigger] tvs@[jj]@.cell(kk))
                    == sel_cells(q.select@[jj], *b, mk)[kk],
            state.wf(w as nat),
            state@ == crate::aggregate::merge_entries(
                Seq::empty(),
                batch_zip(*q, *b).take(k as int),
            ),
        decreases cnt - k,
    {
        // materialize the group tuple: this row of the select pipeline
        let mut key: Vec<RawVal> = Vec::new();
        let mut j2: usize = 0;
        while j2 < nsel
            invariant
                j2 <= nsel,
                k < cnt,
                cnt == count_true(mk),
                mk == sel_mask(*q, *b),
                nsel == tvs@.len(),
                nsel == q.select@.len(),
                forall|jj: int| 0 <= jj < tvs@.len() ==> (#[trigger] tvs@[jj]).wf(),
                forall|jj: int|
                    0 <= jj < tvs@.len() ==> ((#[trigger] tvs@[jj])@ matches TVM::ConstV(_)
                        || tvs@[jj]@.len_spec() == cnt),
                forall|jj: int, kk: int|
                    0 <= jj < tvs@.len() && 0 <= kk < cnt ==> (#[trigger] tvs@[jj]@.cell(kk))
                        == sel_cells(q.select@[jj], *b, mk)[kk],
                key@.len() == j2,
                forall|jj: int|
                    0 <= jj < j2 ==> (#[trigger] key@[jj])@ == tvs@[jj]@.cell(k as int),
            decreases nsel - j2,
        {
            key.push(tvs[j2].get_raw(k));
            j2 += 1;
        }
        let mut ws: Vec<i64> = Vec::new();
        let mut j3: usize = 0;
        while j3 < w
            invariant
                j3 <= w,
                k < cnt,
                w == weights@.len(),
                forall|jj: int| 0 <= jj < w ==> (#[trigger] weights@[jj])@.len() == cnt,
                ws@.len() == j3,
                forall|jj: int| 0 <= jj < j3 ==> ws@[jj] == weights@[jj]@[k as int],
            decreases w - j3,
        {
            ws.push(weights[j3][k]);
            j3 += 1;
        }
        proof {
            assert(row_view(key@) =~= batch_rows(*q, *b)[k as int]);
            assert(row_view(key@) == gkey_cells(*q, *b)[k as int]);
            assert(crate::aggregate::ints_of_vec(ws@) =~= batch_zip(*q, *b)[k as int].1);
            assert(batch_zip(*q, *b).take(k as int + 1) =~= batch_zip(*q, *b).take(
                k as int,
            ).push(batch_zip(*q, *b)[k as int]));
            crate::aggregate::lemma_merge_push(
                Seq::empty(),
                batch_zip(*q, *b).take(k as int),
                batch_zip(*q, *b)[k as int],
            );
        }
        state.upd(&key, &ws);
        k += 1;
    }
    proof {
        assert(batch_zip(*q, *b).take(cnt as int) =~= batch_zip(*q, *b));
    }
    Ok(state)
}

/// Splitting a run in two splits its window: the second part's window
/// starts at whatever offset the first part did not consume and takes
/// whatever limit the first part's window left.
pub proof fn lemma_window_step<A>(s1: Seq<A>, s2: Seq<A>, off: int, lim: int)
    requires
        off >= 0,
        lim >= 0,
    ensures
        window(s1, off, lim).len() <= lim,
        window(s1 + s2, off, lim) == window(s1, off, lim) + window(
            s2,
            if off - s1.len() >= 0 {
                off - s1.len()
            } else {
                0
            },
            lim - window(s1, off, lim).len(),
        ),
{
    let off2 = if off - s1.len() >= 0 {
        off - s1.len()
    } else {
        0
    };
    let lim2 = lim - window(s1, off, lim).len();
    let w1 = window(s1, off, lim);
    let w2 = window(s2, off2, lim2);
    let w = window(s1 + s2, off, lim);
    assert((s1 + s2).len() == s1.len() + s2.len());
    assert(w.len() == w1.len() + w2.len());
    assert forall|i: int| 0 <= i < w.len() implies w[i] == (w1 + w2)[i] by {
        if i < w1.len() {
            assert(w[i] == (s1 + s2)[off + i]);
            assert(w1[i] == s1[off + i]);
            assert((s1 + s2)[off + i] == s1[off + i]);
        } else {
            assert(w[i] == (s1 + s2)[off + i]);
            assert(w2[i - w1.len()] == s2[off2 + i - w1.len()]);
            assert((s1 + s2)[off + i] == s2[off + i - s1.len()]);
        }
    }
    assert(w =~= w1 + w2);
}

/// Once the window is full, later batches contribute nothing.
pub proof fn lemma_window_saturated(q: Query, bs: Seq<Batch>, i: int, off: int, lim: int)
    requires
        0 <= i <= bs.len(),
        off >= 0,
        lim >= 0,
        window(all_rows(q, bs.take(i)), off, lim).len() == lim,
    ensures
        window(all_rows(q, bs), off, lim) == window(all_rows(q, bs.take(i)), off, lim),
    decreases bs.len() - i,
{
    if i == bs.len() {
        assert(bs.take(i) =~= bs);
    } else {
        let a = all_rows(q, bs.take(i));
        assert(bs.take(i + 1).drop_last() =~= bs.take(i));
        assert(bs.take(i + 1).last() == bs[i]);
        assert(all_rows(q, bs.take(i + 1)) == a + batch_rows(q, bs[i]));
        lemma_window_step(a, batch_rows(q, bs[i]), off, lim);
        assert(window(batch_rows(q, bs[i]), if off - a.len() >= 0 {
            off - a.len()
        } else {
            0
        }, 0) =~= Seq::<Seq<RVal>>::empty());
        assert(window(all_rows(q, bs.take(i + 1)), off, lim) =~= window(a, off, lim));
        lemma_window_saturated(q, bs, i + 1, off, lim);
    }
}

/// The decimal digit characters.
pub open spec fn digit_char(d: int) -> char {
    "0123456789"@[d]
}

/// The decimal rendering of a number.
pub open spec fn dec_digits(n: int) -> Seq<char>
    decreases n,
{
    if n < 10 {
        seq![digit_char(if 0 <= n {
            n % 10
        } else {
            0
        })]
    } else {
        dec_digits(n / 10).push(digit_char(n % 10))
    }
}

/// Renders a number in decimal.
pub fn u64_dec(n: u64) -> (r: String)
    ensures
        r@ == dec_digits(n as int),
    decreases n,
{
    let digits = "0123456789";
    proof {
        reveal_strlit("0123456789");
    }
    if n < 10 {
        let d = digits.substring_ascii(n as usize, n as usize + 1);
        let s = String::from_str(d);
        proof {
            assert(s@ =~= dec_digits(n as int));
        }
        s
    } else {
        let mut s = u64_dec(n / 10);
        let d = digits.substring_ascii((n % 10) as usize, (n % 10) as usize + 1);
        s.append(d);
        proof {
            assert(s@ =~= dec_digits(n as int));
        }
        s
    }
}

/// How many of the first `j` select expressions have no column name of
/// their own.
pub open spec fn anon_count(sel: Seq<Expr>, j: int) -> int
    decreases j,
{
    if j <= 0 {
        0
    } else {
        anon_count(sel, j - 1) + if sel[j - 1] matches Expr::ColName(_) {
            0int
        } else {
            1int
        }
    }
}

/// How many of the first `j` aggregates are of the given kind.
pub open spec fn kind_count(aggs: Seq<(Aggregator, Expr)>, a: Aggregator, j: int) -> int
    decreases j,
{
    if j <= 0 {
        0
    } else {
        kind_count(aggs, a, j - 1) + if aggs[j - 1].0 == a {
            1int
        } else {
            0int
        }
    }
}

/// The name of output column `j`: a selected column keeps its name,
/// other select expressions are numbered `col_<k>`, and aggregates are
/// numbered `count_<k>` / `sum_<k>` per kind.
pub open spec fn out_colname(q: Query, j: int) -> Seq<char> {
    if j < q.select@.len() {
        match q.select@[j] {
            Expr::ColName(n) => n@,
            _ => "col_"@ + dec_digits(anon_count(q.select@, j)),
        }
    } else {
        let ja = j - q.select@.len();
        match q.aggregate@[ja].0 {
            Aggregator::Count => "count_"@ + dec_digits(
                kind_count(q.aggregate@, Aggregator::Count, ja),
            ),
            Aggregator::Sum => "sum_"@ + dec_digits(kind_count(q.aggregate@, Aggregator::Sum, ja)),
        }
    }
}

/// The names of all output columns.
pub open spec fn out_colnames(q: Query) -> Seq<Seq<char>> {
    Seq::new(q.select@.len() + q.aggregate@.len(), |j: int| out_colname(q, j))
}

impl Query {
    /// The output column names: select columns first, then aggregates.
    pub fn result_column_names(&self) -> (r: Vec<String>)
        ensures
            r@.len() == q_width(*self),
            forall|j: int| 0 <= j < r@.len() ==> (#[trigger] r@[j])@ == out_colnames(*self)[j],
    {
        let mut r: Vec<String> = Vec::new();
        let mut anon: u64 = 0;
        let nsel = self.select.len();
        let mut j: usize = 0;
        while j < nsel
            invariant
                j <= nsel,
                nsel == self.select@.len(),
                nsel <= u64::MAX,
                r@.len() == j,
                anon == anon_count(self.select@, j as int),
                anon <= j,
                forall|jj: int| 0 <= jj < j ==> (#[trigger] r@[jj])@ == out_colname(*self, jj),
            decreases nsel - j,
        {
            match &self.select[j] {
                Expr::ColName(n) => {
                    r.push(n.clone());
                },
                _ => {
                    let mut s = String::from_str("col_");
                    proof {
                        reveal_strlit("col_");
                    }
                    let ds = u64_dec(anon);
                    s.append(ds.as_str());
                    r.push(s);
                    anon = anon + 1;
                },
            }
            j += 1;
        }
        let nagg = self.aggregate.len();
        let mut counts: u64 = 0;
        let mut sums: u64 = 0;
        let mut ja: usize = 0;
        while ja < nagg
            invariant
                ja <= nagg,
                nagg == self.aggregate@.len(),
                nagg <= u64::MAX,
                nsel == self.select@.len(),
                r@.len() == nsel + ja,
                counts == kind_count(self.aggregate@, Aggregator::Count, ja as int),
                sums == kind_count(self.aggregate@, Aggregator::Sum, ja as int),
                counts <= ja,
                sums <= ja,
                forall|jj: int| 0 <= jj < r@.len() ==> (#[trigger] r@[jj])@ == out_colname(
                    *self,
                    jj,
                ),
            decreases nagg - ja,
        {
            match &self.aggregate[ja].0 {
                Aggregator::Count => {
                    let mut s = String::from_str("count_");
                    proof {
                        reveal_strlit("count_");
                    }
                    let ds = u64_dec(counts);
                    s.append(ds.as_str());
                    r.push(s);
                    counts = counts + 1;
                },
                Aggregator::Sum => {
                    let mut s = String::from_str("sum_");
                    proof {
                        reveal_strlit("sum_");
                    }
                    let ds = u64_dec(sums);
                    s.append(ds.as_str());
                    r.push(s);
                    sums = sums + 1;
                },
            }
            ja += 1;
        }
        r
    }
}

/// The number of output columns of a query.
pub open spec fn q_width(q: Query) -> int {
    q.select@.len() + q.aggregate@.len() as int
}

/// A copy of a list of strings, equal at the model level.
fn clone_strings(v: &Vec<String>) -> (r: Vec<String>)
    ensures
        r@.len() == v@.len(),
        forall|i: int| 0 <= i < v@.len() ==> (#[trigger] r@[i])@ == v@[i]@,
{
    let mut r: Vec<String> = Vec::new();
    let n = v.len();
    let mut i: usize = 0;
    while i < n
        invariant
            i <= n,
            n == v@.len(),
            r@.len() == i,
            forall|j: int| 0 <= j < i ==> (#[trigger] r@[j])@ == v@[j]@,
        decreases n - i,
    {
        r.push(v[i].clone());
        i += 1;
    }
    r
}

/// A compiled query: the parsed query, the batches it runs over, and
/// the output column names.
pub struct CompiledQuery<'a> {
    pub query: &'a Query,
    pub batches: &'a Vec<Batch>,
    pub output_colnames: Vec<String>,
    pub aggregate: Vec<Aggregator>,
    pub stats: QueryStats,
}

impl Query {
    /// Runs the non-aggregated part of the query over one batch.
    pub fn run(&self, columns: &Batch) -> (r: Result<
        (Vec<TypedVec>, usize, Option<bit_vec::BitVec>),
        PlanError,
    >)
        requires
            columns.wf(),
        ensures
            r matches Ok(p) ==> {
                let (tvs, cnt, mask) = p;
                &&& cnt == count_true(sel_mask(*self, *columns))
                &&& tvs@.len() == self.select@.len()
                &&& forall|j: int| 0 <= j < tvs@.len() ==> (#[trigger] tvs@[j]).wf()
                &&& forall|j: int|
                    0 <= j < tvs@.len() ==> ((#[trigger] tvs@[j])@ matches TVM::ConstV(_)
                        || tvs@[j]@.len_spec() == cnt)
                &&& forall|j: int, k: int|
                    0 <= j < tvs@.len() && 0 <= k < cnt ==> (#[trigger] tvs@[j]@.cell(k))
                        == sel_cells(self.select@[j], *columns, sel_mask(*self, *columns))[k]
            },
            r is Ok <==> query_plannable(*self, *columns),
    {
        run_batch_select(self, columns)
    }

    /// Runs the aggregated part of the query over one batch.
    pub fn run_aggregate(&self, columns: &Batch) -> (r: Result<
        crate::aggregate::GroupedAggs,
        PlanError,
    >)
        requires
            columns.wf(),
        ensures
            r matches Ok(p) ==> p.wf(self.aggregate@.len()) && p@ == batch_partial(
                *self,
                *columns,
            ),
            r is Ok <==> agg_plannable(*self, *columns),
    {
        run_batch_aggregate(self, columns)
    }

    /// Prepares a query for execution over a snapshot of batches.
    pub fn compile<'a>(&'a self, source: &'a Vec<Batch>) -> (r: CompiledQuery<'a>)
        ensures
            r.query == self,
            r.batches == source,
            r.output_colnames@.len() == q_width(*self),
            forall|j: int|
                0 <= j < r.output_colnames@.len() ==> (#[trigger] r.output_colnames@[j])@
                    == out_colnames(*self)[j],
            r.aggregate@.len() == self.aggregate@.len(),
            forall|j: int|
                0 <= j < r.aggregate@.len() ==> r.aggregate@[j] == (
                #[trigger] self.aggregate@[j]).0,
            r.stats.rows_scanned == 0,
    {
        let output_colnames = self.result_column_names();
        let mut aggregate: Vec<Aggregator> = Vec::new();
        let n = self.aggregate.len();
        let mut i: usize = 0;
        while i < n
            invariant
                i <= n,
                n == self.aggregate@.len(),
                aggregate@.len() == i,
                forall|j: int|
                    0 <= j < i ==> aggregate@[j] == (#[trigger] self.aggregate@[j]).0,
            decreases n - i,
        {
            aggregate.push(self.aggregate[i].0);
            i += 1;
        }
        CompiledQuery {
            query: self,
            batches: source,
            output_colnames,
            aggregate,
            stats: QueryStats::new(),
        }
    }
}

/// Whether a name occurs in a list of names.
pub open spec fn has_name(ns: Seq<String>, n: Seq<char>) -> bool {
    exists|k: int| 0 <= k < ns.len() && (#[trigger] ns[k])@ == n
}

/// A name stays present when the list grows by appending.
proof fn lemma_has_name_extend(pre: Seq<String>, post: Seq<String>, n: Seq<char>)
    requires
        pre.len() <= post.len(),
        forall|j: int| 0 <= j < pre.len() ==> post[j] == pre[j],
        has_name(pre, n),
    ensures
        has_name(post, n),
{
    let k = choose|k: int| 0 <= k < pre.len() && (#[trigger] pre[k])@ == n;
    assert(post[k]@ == n);
}

/// Keeps each name once, in first-appearance order.
fn dedup_names(v: &Vec<String>) -> (r: Vec<String>)
    ensures
        forall|i: int, j: int|
            0 <= i < j < r@.len() ==> (#[trigger] r@[i])@ != (#[trigger] r@[j])@,
        forall|j: int| 0 <= j < v@.len() ==> has_name(r@, (#[trigger] v@[j])@),
        forall|k: int| 0 <= k < r@.len() ==> has_name(v@, (#[trigger] r@[k])@),
{
    let mut r: Vec<String> = Vec::new();
    let n = v.len();
    let mut i: usize = 0;
    while i < n
        invariant
            i <= n,
            n == v@.len(),
            forall|a: int, b: int|
                0 <= a < b < r@.len() ==> (#[trigger] r@[a])@ != (#[trigger] r@[b])@,
            forall|j: int| 0 <= j < i ==> has_name(r@, (#[trigger] v@[j])@),
            forall|k: int| 0 <= k < r@.len() ==> has_name(v@, (#[trigger] r@[k])@),
        decreases n - i,
    {
        let name = &v[i];
        let m = r.len();
        let mut found = false;
        let mut j: usize = 0;
        while j < m && !found
            invariant
                j <= m,
                m == r@.len(),
                found ==> exists|k: int| 0 <= k < m && (#[trigger] r@[k])@ == name@,
                !found ==> forall|k: int| 0 <= k < j ==> (#[trigger] r@[k])@ != name@,
            decreases m - j + (if found {
                0int
            } else {
                1int
            }),
        {
            if crate::strutil::str_eq(r[j].as_str(), name.as_str()) {
                found = true;
            } else {
                j += 1;
            }
        }
        let ghost pre = r@;
        if !found {
            r.push(name.clone());
        }
        proof {
            assert(has_name(r@, v@[i as int]@)) by {
                if found {
                    let k = choose|k: int| 0 <= k < pre.len() && (#[trigger] pre[k])@ == name@;
                    assert(r@[k]@ == name@);
                } else {
                    assert(r@[r@.len() - 1]@ == name@);
                }
            }
            assert forall|j2: int| 0 <= j2 < i + 1 implies has_name(
                r@,
                (#[trigger] v@[j2])@,
            ) by {
                if j2 < i {
                    lemma_has_name_extend(pre, r@, v@[j2]@);
                }
            }
            assert forall|k: int| 0 <= k < r@.len() implies has_name(
                v@,
                (#[trigger] r@[k])@,
            ) by {
                if k < pre.len() {
                    assert(r@[k] == pre[k]);
                } else {
                    assert(r@[k]@ == v@[i as int]@);
                    assert(v@[i as int]@ == v@[i as int]@);
                }
            }
        }
        i += 1;
    }
    r
}

/// The first position of a name in a list, or -1.
pub open spec fn name_idx(names: Seq<Seq<char>>, n: Seq<char>) -> int
    decreases names.len(),
{
    if names.len() == 0 {
        -1
    } else if names[0] == n {
        0
    } else {
        let r = name_idx(names.subrange(1, names.len() as int), n);
        if r < 0 {
            -1
        } else {
            r + 1
        }
    }
}

proof fn lemma_name_idx_at(names: Seq<Seq<char>>, n: Seq<char>, i: int)
    requires
        0 <= i < names.len(),
        names[i] == n,
        forall|j: int| 0 <= j < i ==> names[j] != n,
    ensures
        name_idx(names, n) == i,
    decreases names.len(),
{
    if i > 0 {
        let rest = names.subrange(1, names.len() as int);
        assert forall|j: int| 0 <= j < i - 1 implies rest[j] != n by {
            assert(rest[j] == names[j + 1]);
        }
        assert(rest[i - 1] == names[i]);
        lemma_name_idx_at(rest, n, i - 1);
    }
}

proof fn lemma_name_idx_none(names: Seq<Seq<char>>, n: Seq<char>)
    requires
        forall|j: int| 0 <= j < names.len() ==> names[j] != n,
    ensures
        name_idx(names, n) == -1,
    decreases names.len(),
{
    if names.len() > 0 {
        let rest = names.subrange(1, names.len() as int);
        assert forall|j: int| 0 <= j < rest.len() implies rest[j] != n by {
            assert(rest[j] == names[j + 1]);
        }
        lemma_name_idx_none(rest, n);
    }
}

/// Copies the limit/offset window of a list of rows.
fn window_rows(rows: &Vec<Vec<RawVal>>, off: u64, lim: u64) -> (out: Vec<Vec<RawVal>>)
    ensures
        rows_view(out@) == window(rows_view(rows@), off as int, lim as int),
{
    let total = rows.len();
    let start: usize = if off >= total as u64 {
        total
    } else {
        off as usize
    };
    let end: usize = match off.checked_add(lim) {
        Some(e) => if e >= total as u64 {
            total
        } else {
            e as usize
        },
        None => total,
    };
    let mut out: Vec<Vec<RawVal>> = Vec::new();
    let mut k: usize = start;
    while k < end
        invariant
            start <= k <= end,
            end <= total,
            total == rows@.len(),
            out@.len() == k - start,
            forall|i: int|
                0 <= i < out@.len() ==> row_view((#[trigger] out@[i])@) == row_view(
                    rows@[start + i]@,
                ),
        decreases end - k,
    {
        out.push(clone_row(&rows[k]));
        k += 1;
    }
    proof {
        assert(rows_view(out@) =~= window(rows_view(rows@), off as int, lim as int));
    }
    out
}

impl<'a> CompiledQuery<'a> {
    /// Executes the query: per batch either the select pipeline or the
    /// aggregation pipeline, then the global combine, the optional
    /// stable sort by an output column, and the final limit/offset
    /// window. Without ordering or aggregation, batch iteration stops
    /// as soon as the window is full.
    pub fn run(&mut self) -> (r: Result<QueryResult, PlanError>)
        requires
            forall|i: int|
                0 <= i < old(self).batches@.len() ==> (#[trigger] old(self).batches@[i]).wf(),
            old(self).query.limit.limit <= usize::MAX,
        ensures
            final(self).query == old(self).query,
            final(self).batches == old(self).batches,
            final(self).output_colnames == old(self).output_colnames,
            ({
                let q = *old(self).query;
                let bs = old(self).batches@;
                let off = q.limit.offset as int;
                let lim = q.limit.limit as int;
                &&& (q.order_by is Some && !(q.order_by matches Some(Expr::ColName(_)))
                    ==> r is Err)
                &&& (q.order_by matches Some(ob) ==> (ob matches Expr::ColName(n) ==> {
                    let j = name_idx(names_view(old(self).output_colnames@), n@);
                    &&& (j < 0 ==> r is Err)
                    &&& (j >= 0 && q.aggregate@.len() == 0 ==> (r matches Ok(res) ==> (all_rows(
                        q,
                        bs,
                    ).len() <= u64::MAX ==> rows_view(res.rows@) == window(
                        sort_rows_spec(all_rows(q, bs), j),
                        off,
                        lim,
                    )) && names_view(res.colnames@) == names_view(old(self).output_colnames@)))
                    &&& (j >= 0 && q.aggregate@.len() > 0 ==> (r matches Ok(res) ==> rows_view(
                        res.rows@,
                    ) == window(sort_rows_spec(agg_rows(q, bs), j), off, lim) && names_view(
                        res.colnames@,
                    ) == names_view(old(self).output_colnames@)))
                    &&& (j >= 0 && q.aggregate@.len() == 0 && (forall|i: int|
                        0 <= i < bs.len() ==> query_plannable(q, #[trigger] bs[i])) ==> r is Ok)
                    &&& (j >= 0 && q.aggregate@.len() > 0 && (forall|i: int|
                        0 <= i < bs.len() ==> agg_plannable(q, #[trigger] bs[i])) ==> r is Ok)
                }))
                &&& (r matches Ok(res) ==> res.stats.runtime_ns == old(self).stats.runtime_ns)
                &&& (q.aggregate@.len() == 0 && q.order_by is None ==> (r matches Ok(res) ==> ({
                    let cb = consumed_batches(q, bs, off, lim);
                    res.stats.ops == cb && res.stats.rows_scanned == scanned_rows(bs.take(cb))
                })))
                &&& (q.aggregate@.len() == 0 && q.order_by is Some ==> (r matches Ok(res) ==> ({
                    let cb = consumed_batches(q, bs, 0, u64::MAX as int);
                    res.stats.ops == cb && res.stats.rows_scanned == scanned_rows(bs.take(cb))
                })))
                &&& (q.aggregate@.len() > 0 ==> (r matches Ok(res) ==> res.stats.ops == bs.len()
                    && res.stats.rows_scanned == scanned_rows(bs)))
                &&& (q.order_by is None && q.aggregate@.len() == 0 ==> ((r matches Ok(res)
                    ==> rows_view(res.rows@) == window(all_rows(q, bs), off, lim)
                    && names_view(res.colnames@) == names_view(old(self).output_colnames@))
                    && ((forall|i: int| 0 <= i < bs.len() ==> query_plannable(
                        q,
                        #[trigger] bs[i],
                    )) ==> r is Ok) && (r is Err ==> exists|i: int|
                        0 <= i < bs.len() && !query_plannable(q, #[trigger] bs[i]))))
                &&& (q.order_by is None && q.aggregate@.len() > 0 ==> ((r matches Ok(res)
                    ==> rows_view(res.rows@) == window(agg_rows(q, bs), off, lim)
                    && names_view(res.colnames@) == names_view(old(self).output_colnames@))
                    && ((forall|i: int| 0 <= i < bs.len() ==> agg_plannable(
                        q,
                        #[trigger] bs[i],
                    )) ==> r is Ok) && (r is Err ==> exists|i: int|
                        0 <= i < bs.len() && !agg_plannable(q, #[trigger] bs[i]))))
            }),
    {
        let q = self.query;
        let batches = self.batches;
        let ghost bs = batches@;
        let lim: u64 = q.limit.limit;
        let off: u64 = q.limit.offset;
        // per-run counters start afresh; the clock is the app's
        self.stats.rows_scanned = 0;
        self.stats.ops = 0;
        // a query ordered by an output column sorts before windowing
        let ordered: Option<usize> = match &q.order_by {
            None => None,
            Some(Expr::ColName(n)) => {
                let names = &self.output_colnames;
                let m = names.len();
                let mut j: usize = 0;
                let mut found: Option<usize> = None;
                while j < m && found.is_none()
                    invariant
                        j <= m,
                        m == names@.len(),
                        names == &self.output_colnames,
                        match found {
                            Some(fj) => fj < m && names@[fj as int]@ == n@ && forall|x: int|
                                0 <= x < fj ==> (#[trigger] names@[x])@ != n@,
                            None => forall|x: int| 0 <= x < j ==> (#[trigger] names@[x])@ != n@,
                        },
                    decreases m - j + (if found is Some {
                        0int
                    } else {
                        1int
                    }),
                {
                    if crate::strutil::str_eq(names[j].as_str(), n.as_str()) {
                        found = Some(j);
                    } else {
                        j += 1;
                    }
                }
                match found {
                    Some(fj) => {
                        proof {
                            lemma_name_idx_at(
                                names_view(self.output_colnames@),
                                n@,
                                fj as int,
                            );
                        }
                        Some(fj)
                    },
                    None => {
                        proof {
                            lemma_name_idx_none(names_view(self.output_colnames@), n@);
                        }
                        return Err(PlanError::UnknownColumn(n.clone()));
                    },
                }
            },
            Some(_) => {
                return Err(PlanError::Unsupported);
            },
        };
        let ghost kidx = match ordered {
            Some(fj) => fj as int,
            None => -1,
        };
        let (coll_off, coll_lim): (u64, u64) = if ordered.is_some() {
            (0, u64::MAX)
        } else {
            (off, lim)
        };
        let ghost offi = coll_off as int;
        let ghost limi = coll_lim as int;
        let nb = batches.len();
        if q.aggregate.len() == 0 {
            let mut rows: Vec<Vec<RawVal>> = Vec::new();
            let mut skip: u64 = coll_off;
            let mut bi: usize = 0;
            while bi < nb && (rows.len() as u64) < coll_lim
                invariant
                    bi <= nb,
                    nb == bs.len(),
                    bs == self.batches@,
                    batches == self.batches,
                    nb == batches@.len(),
                    self.query == old(self).query,
                    self.batches == old(self).batches,
                    self.output_colnames == old(self).output_colnames,
                    q == self.query,
                    q.aggregate@.len() == 0,
                    limi == coll_lim,
                    offi == coll_off,
                    self.stats.ops == bi,
                    self.stats.rows_scanned == scanned_rows(bs.take(bi as int)),
                    self.stats.runtime_ns == old(self).stats.runtime_ns,
                    consumed_from(*q, bs, offi, limi, bi as int) == consumed_batches(
                        *q,
                        bs,
                        offi,
                        limi,
                    ),
                    forall|i: int| 0 <= i < bs.len() ==> (#[trigger] bs[i]).wf(),
                    forall|i: int| 0 <= i < bi ==> query_plannable(*q, #[trigger] bs[i]),
                    rows_view(rows@) == window(all_rows(*q, bs.take(bi as int)), offi, limi),
                    rows@.len() == window(all_rows(*q, bs.take(bi as int)), offi, limi).len(),
                    rows@.len() <= limi,
                    skip as int == if offi - all_rows(*q, bs.take(bi as int)).len() >= 0 {
                        offi - all_rows(*q, bs.take(bi as int)).len()
                    } else {
                        0
                    },
                decreases nb - bi,
            {
                let b = &batches[bi];
                proof {
                    assert(*b == bs[bi as int]);
                }
                let (tvs, cnt, _) = match run_batch_select(q, b) {
                    Ok(p) => p,
                    Err(er) => {
                        proof {
                            assert(!query_plannable(*q, bs[bi as int]));
                        }
                        return Err(er);
                    },
                };
                proof {
                    assert(bs.take(bi as int + 1).drop_last() =~= bs.take(bi as int));
                    assert(bs.take(bi as int + 1).last() == bs[bi as int]);
                }
                self.stats.rows_scanned = self.stats.rows_scanned.wrapping_add(b.row_count());
                self.stats.ops = self.stats.ops + 1;
                let ghost a = all_rows(*q, bs.take(bi as int));
                let ghost brows = batch_rows(*q, *b);
                proof {
                    assert(bs.take(bi as int + 1).drop_last() =~= bs.take(bi as int));
                    assert(bs.take(bi as int + 1).last() == bs[bi as int]);
                    assert(all_rows(*q, bs.take(bi as int + 1)) == a + brows);
                    lemma_window_step(a, brows, offi, limi);
                    assert(brows.len() == cnt);
                }
                let o: usize = if skip >= cnt as u64 {
                    cnt
                } else {
                    skip as usize
                };
                let taken = rows.len();
                let remaining: u64 = coll_lim - (taken as u64);
                let avail: usize = cnt - o;
                let count: usize = if (avail as u64) < remaining {
                    avail
                } else {
                    remaining as usize
                };
                proof {
                    let off2 = if offi - a.len() >= 0 {
                        offi - a.len()
                    } else {
                        0
                    };
                    let lim2 = limi - window(a, offi, limi).len();
                    assert(off2 == skip as int);
                    assert(lim2 == remaining as int);
                    assert(window(brows, off2, lim2) =~= brows.subrange(
                        o as int,
                        o as int + count as int,
                    ));
                }
                let mut k: usize = o;
                let ghost rows0 = rows@;
                while k < o + count
                    invariant
                        o <= k <= o + count,
                        o + count <= cnt,
                        tvs@.len() == q.select@.len(),
                        cnt == count_true(sel_mask(*q, *b)),
                        brows == batch_rows(*q, *b),
                        forall|j: int| 0 <= j < tvs@.len() ==> (#[trigger] tvs@[j]).wf(),
                        forall|j: int|
                            0 <= j < tvs@.len() ==> ((#[trigger] tvs@[j])@ matches TVM::ConstV(
                                _,
                            ) || tvs@[j]@.len_spec() == cnt),
                        forall|j: int, kk: int|
                            0 <= j < tvs@.len() && 0 <= kk < cnt ==> (#[trigger] tvs@[j]@.cell(
                                kk,
                            )) == sel_cells(q.select@[j], *b, sel_mask(*q, *b))[kk],
                        rows@.len() == rows0.len() + (k - o),
                        forall|i: int| 0 <= i < rows0.len() ==> rows@[i] == rows0[i],
                        forall|i: int|
                            rows0.len() <= i < rows@.len() ==> row_view(
                                (#[trigger] rows@[i])@,
                            ) == brows[o + i - rows0.len()],
                    decreases o + count - k,
                {
                    let mut record: Vec<RawVal> = Vec::new();
                    let w = tvs.len();
                    let mut j: usize = 0;
                    while j < w
                        invariant
                            j <= w,
                            k < cnt,
                            w == tvs@.len(),
                            cnt == count_true(sel_mask(*q, *b)),
                            forall|jj: int| 0 <= jj < w ==> (#[trigger] tvs@[jj]).wf(),
                            forall|jj: int|
                                0 <= jj < w ==> ((#[trigger] tvs@[jj])@ matches TVM::ConstV(_)
                                    || tvs@[jj]@.len_spec() == cnt),
                            forall|jj: int, kk: int|
                                0 <= jj < w && 0 <= kk < cnt ==> (#[trigger] tvs@[jj]@.cell(kk))
                                    == sel_cells(q.select@[jj], *b, sel_mask(*q, *b))[kk],
                            record@.len() == j,
                            forall|jj: int|
                                0 <= jj < j ==> (#[trigger] record@[jj])@ == tvs@[jj]@.cell(
                                    k as int,
                                ),
                        decreases w - j,
                    {
                        record.push(tvs[j].get_raw(k));
                        j += 1;
                    }
                    proof {
                        assert(row_view(record@) =~= brows[k as int]);
                    }
                    rows.push(record);
                    k += 1;
                }
                proof {
                    assert(rows_view(rows@) =~= window(
                        all_rows(*q, bs.take(bi as int + 1)),
                        offi,
                        limi,
                    ));
                }
                skip = skip - (o as u64);
                proof {
                    assert(consumed_from(*q, bs, offi, limi, bi as int) == consumed_from(
                        *q,
                        bs,
                        offi,
                        limi,
                        bi as int + 1,
                    ));
                }
                bi += 1;
            }
            proof {
                if bi == nb {
                    assert(bs.take(nb as int) =~= bs);
                } else {
                    assert(rows@.len() == limi);
                    lemma_window_saturated(*q, bs, bi as int, offi, limi);
                }
                assert(consumed_from(*q, bs, offi, limi, bi as int) == bi);
                assert(consumed_batches(*q, bs, offi, limi) == bi);
            }
            if let Some(k2) = ordered {
                proof {
                    if all_rows(*q, bs).len() <= u64::MAX {
                        assert(rows_view(rows@) =~= all_rows(*q, bs));
                    }
                }
                let sorted_rows = crate::sort::sort_rows(rows, k2);
                let out = window_rows(&sorted_rows, off, lim);
                let colnames = clone_strings(&self.output_colnames);
                proof {
                    assert(names_view(colnames@) =~= names_view(self.output_colnames@));
                }
                return Ok(QueryResult { colnames, rows: out, stats: self.stats });
            }
            let colnames = clone_strings(&self.output_colnames);
            proof {
                assert(names_view(colnames@) =~= names_view(self.output_colnames@));
            }
            Ok(QueryResult { colnames, rows, stats: self.stats })
        } else {
            let w = q.aggregate.len();
            let mut global = crate::aggregate::GroupedAggs::new();
            let mut bi: usize = 0;
            while bi < nb
                invariant
                    bi <= nb,
                    nb == bs.len(),
                    bs == self.batches@,
                    batches == self.batches,
                    nb == batches@.len(),
                    self.query == old(self).query,
                    self.batches == old(self).batches,
                    self.output_colnames == old(self).output_colnames,
                    q == self.query,
                    w == q.aggregate@.len(),
                    w > 0,
                    self.stats.ops == bi,
                    self.stats.rows_scanned == scanned_rows(bs.take(bi as int)),
                    self.stats.runtime_ns == old(self).stats.runtime_ns,
                    forall|i: int| 0 <= i < bs.len() ==> (#[trigger] bs[i]).wf(),
                    forall|i: int| 0 <= i < bi ==> agg_plannable(*q, #[trigger] bs[i]),
                    global.wf(w as nat),
                    global@ == agg_fold(*q, bs.take(bi as int)),
                decreases nb - bi,
            {
                let b = &batches[bi];
                proof {
                    assert(*b == bs[bi as int]);
                }
                let partial = match run_batch_aggregate(q, b) {
                    Ok(p) => p,
                    Err(er) => {
                        proof {
                            assert(!agg_plannable(*q, bs[bi as int]));
                        }
                        return Err(er);
                    },
                };
                proof {
                    assert(bs.take(bi as int + 1).drop_last() =~= bs.take(bi as int));
                    assert(bs.take(bi as int + 1).last() == bs[bi as int]);
                }
                self.stats.rows_scanned = self.stats.rows_scanned.wrapping_add(b.row_count());
                self.stats.ops = self.stats.ops + 1;
                global.merge_into(&partial, w);
                bi += 1;
            }
            proof {
                assert(bs.take(nb as int) =~= bs);
            }
            let mut rows: Vec<Vec<RawVal>> = Vec::new();
            let ghost m = agg_fold(*q, bs);
            if q.select.len() == 0 && global.keys.len() == 0 {
                // the empty-set aggregation identities: one row of zeros
                let mut record: Vec<RawVal> = Vec::new();
                let mut j: usize = 0;
                while j < w
                    invariant
                        j <= w,
                        record@.len() == j,
                        forall|jj: int| 0 <= jj < j ==> (#[trigger] record@[jj])@ == RVal::I(0),
                    decreases w - j,
                {
                    record.push(RawVal::Int(0));
                    j += 1;
                }
                rows.push(record);
                proof {
                    assert(global@ == m);
                    assert(m.len() == 0);
                    assert(row_view(record@) =~= agg_acc_row(
                        Seq::new(w as nat, |_j: int| 0int),
                        w as nat,
                    ));
                    assert(rows_view(rows@) =~~= agg_rows(*q, bs));
                }
            } else {
                let ng = global.keys.len();
                let mut i: usize = 0;
                while i < ng
                    invariant
                        i <= ng,
                        ng == global.keys@.len(),
                        w == q.aggregate@.len(),
                        global.wf(w as nat),
                        global@ == m,
                        m == agg_fold(*q, bs),
                        m.len() == ng,
                        !(q.select@.len() == 0 && m.len() == 0),
                        rows@.len() == i,
                        forall|ii: int|
                            0 <= ii < i ==> row_view((#[trigger] rows@[ii])@) == agg_rows(
                                *q,
                                bs,
                            )[ii],
                    decreases ng - i,
                {
                    let mut record: Vec<RawVal> = clone_row(&global.keys[i]);
                    let klen = record.len();
                    proof {
                        assert(row_view(record@) == row_view(global.keys@[i as int]@));
                        assert(row_view(record@) == m[i as int].0);
                        assert(klen as int == m[i as int].0.len());
                    }
                    let mut j: usize = 0;
                    while j < w
                        invariant
                            j <= w,
                            i < ng,
                            ng == global.keys@.len(),
                            w == q.aggregate@.len(),
                            global.wf(w as nat),
                            global@ == m,
                            klen as int == m[i as int].0.len(),
                            record@.len() == klen + j,
                            forall|jj: int|
                                0 <= jj < klen ==> (#[trigger] record@[jj])@ == m[i as int].0[jj],
                            forall|jj: int|
                                klen <= jj < record@.len() ==> (#[trigger] record@[jj])@
                                    == RVal::I(m[i as int].1[jj - klen] as i64),
                        decreases w - j,
                    {
                        proof {
                            assert(m[i as int].1.len() == w);
                        }
                        record.push(RawVal::Int(global.accs[i][j]));
                        j += 1;
                    }
                    proof {
                        let target = group_row(m, i as int, w as nat);
                        assert(target == m[i as int].0 + agg_acc_row(m[i as int].1, w as nat));
                        assert forall|jj: int|
                            0 <= jj < record@.len() implies row_view(record@)[jj]
                            == target[jj] by {
                            if jj < klen {
                                assert(target[jj] == m[i as int].0[jj]);
                            } else {
                                assert(target[jj] == agg_acc_row(m[i as int].1, w as nat)[jj
                                    - klen]);
                            }
                        }
                        assert(row_view(record@) =~= target);
                        assert(agg_rows(*q, bs)[i as int] =~= target);
                    }
                    rows.push(record);
                    i += 1;
                }
                proof {
                    assert(rows_view(rows@) =~~= agg_rows(*q, bs));
                }
            }
            // optional ordering, then the final limit/offset window
            let rows = match ordered {
                Some(k2) => crate::sort::sort_rows(rows, k2),
                None => rows,
            };
            let out = window_rows(&rows, off, lim);
            let colnames = clone_strings(&self.output_colnames);
            proof {
                assert(names_view(colnames@) =~= names_view(self.output_colnames@));
            }
            Ok(QueryResult { colnames, rows: out, stats: self.stats })
        }
    }
}

impl Query {
    /// Whether the query selects `*`, the whole-table shorthand.
    pub fn is_select_star(&self) -> (r: bool)
        ensures
            r == (self.select@.len() == 1 && (self.select@[0] matches Expr::ColName(n) && n@
                == "*"@)),
    {
        if self.select.len() == 1 {
            match &self.select[0] {
                Expr::ColName(colname) => crate::strutil::str_eq(colname.as_str(), "*"),
                _ => false,
            }
        } else {
            false
        }
    }

    /// The names of all columns the query mentions, in select, filter
    /// and aggregate expressions.
    pub fn find_referenced_cols(&self) -> (r: Vec<String>)
        ensures
            forall|n: Seq<char>| self.q_mentions(n) ==> has_name(r@, n),
            forall|j: int| 0 <= j < r@.len() ==> self.q_mentions((#[trigger] r@[j])@),
            forall|i: int, j: int|
                0 <= i < j < r@.len() ==> (#[trigger] r@[i])@ != (#[trigger] r@[j])@,
    {
        let mut colnames: Vec<String> = Vec::new();
        let nsel = self.select.len();
        let mut i: usize = 0;
        while i < nsel
            invariant
                i <= nsel,
                nsel == self.select@.len(),
                forall|k: int, n: Seq<char>|
                    0 <= k < i && #[trigger] self.select@[k].mentions(n) ==> exists|j: int|
                        0 <= j < colnames@.len() && (#[trigger] colnames@[j])@ == n,
                forall|j: int|
                    0 <= j < colnames@.len() ==> self.q_mentions((#[trigger] colnames@[j])@),
            decreases nsel - i,
        {
            let ghost pre = colnames@;
            self.select[i].add_colnames(&mut colnames);
            proof {
                assert forall|k: int, n: Seq<char>|
                    0 <= k < i + 1 && #[trigger] self.select@[k].mentions(n) implies exists|
                    j: int,
                |
                    0 <= j < colnames@.len() && (#[trigger] colnames@[j])@ == n by {
                    if k < i {
                        let j = choose|j: int| 0 <= j < pre.len() && (#[trigger] pre[j])@ == n;
                        assert(colnames@[j]@ == n);
                    }
                }
            }
            i += 1;
        }
        let ghost pre = colnames@;
        self.filter.add_colnames(&mut colnames);
        proof {
            assert forall|k: int, n: Seq<char>|
                0 <= k < nsel && #[trigger] self.select@[k].mentions(n) implies exists|j: int|
                0 <= j < colnames@.len() && (#[trigger] colnames@[j])@ == n by {
                let j = choose|j: int| 0 <= j < pre.len() && (#[trigger] pre[j])@ == n;
                assert(colnames@[j]@ == n);
            }
        }
        let nagg = self.aggregate.len();
        let mut a: usize = 0;
        while a < nagg
            invariant
                a <= nagg,
                nagg == self.aggregate@.len(),
                nsel == self.select@.len(),
                forall|k: int, n: Seq<char>|
                    0 <= k < nsel && #[trigger] self.select@[k].mentions(n) ==> exists|j: int|
                        0 <= j < colnames@.len() && (#[trigger] colnames@[j])@ == n,
                forall|n: Seq<char>| self.filter.mentions(n) ==> exists|j: int|
                    0 <= j < colnames@.len() && (#[trigger] colnames@[j])@ == n,
                forall|k: int, n: Seq<char>|
                    0 <= k < a && #[trigger] self.aggregate@[k].1.mentions(n) ==> exists|
                    j: int,
                |
                    0 <= j < colnames@.len() && (#[trigger] colnames@[j])@ == n,
                forall|j: int|
                    0 <= j < colnames@.len() ==> self.q_mentions((#[trigger] colnames@[j])@),
            decreases nagg - a,
        {
            let ghost pre = colnames@;
            self.aggregate[a].1.add_colnames(&mut colnames);
            proof {
                assert forall|k: int, n: Seq<char>|
                    (0 <= k < nsel && #[trigger] self.select@[k].mentions(n)) implies exists|
                    j: int,
                |
                    0 <= j < colnames@.len() && (#[trigger] colnames@[j])@ == n by {
                    let j = choose|j: int| 0 <= j < pre.len() && (#[trigger] pre[j])@ == n;
                    assert(colnames@[j]@ == n);
                }
                assert forall|n: Seq<char>| self.filter.mentions(n) implies exists|j: int|
                    0 <= j < colnames@.len() && (#[trigger] colnames@[j])@ == n by {
                    let j = choose|j: int| 0 <= j < pre.len() && (#[trigger] pre[j])@ == n;
                    assert(colnames@[j]@ == n);
                }
                assert forall|k: int, n: Seq<char>|
                    (0 <= k < a + 1 && #[trigger] self.aggregate@[k].1.mentions(
                        n,
                    )) implies exists|j: int|
                    0 <= j < colnames@.len() && (#[trigger] colnames@[j])@ == n by {
                    if k < a {
                        let j = choose|j: int| 0 <= j < pre.len() && (#[trigger] pre[j])@ == n;
                        assert(colnames@[j]@ == n);
                    }
                }
            }
            a += 1;
        }
        let deduped = dedup_names(&colnames);
        proof {
            assert forall|n: Seq<char>| self.q_mentions(n) implies has_name(deduped@, n) by {
                let j = choose|j: int|
                    0 <= j < colnames@.len() && (#[trigger] colnames@[j])@ == n;
                assert(has_name(deduped@, colnames@[j]@));
            }
            assert forall|j: int| 0 <= j < deduped@.len() implies self.q_mentions(
                (#[trigger] deduped@[j])@,
            ) by {
                assert(has_name(colnames@, deduped@[j]@));
                let k = choose|k: int|
                    0 <= k < colnames@.len() && (#[trigger] colnames@[k])@ == deduped@[j]@;
                assert(self.q_mentions(colnames@[k]@));
            }
        }
        deduped
    }

    /// Whether any expression of the query mentions a column name.
    pub open spec fn q_mentions(self, n: Seq<char>) -> bool {
        ||| exists|k: int| 0 <= k < self.select@.len() && #[trigger] self.select@[k].mentions(n)
        ||| self.filter.mentions(n)
        ||| exists|k: int|
            0 <= k < self.aggregate@.len() && #[trigger] self.aggregate@[k].1.mentions(n)
    }

    /// Restricts a batch to the columns a query references: the
    /// positions, in order, of the columns whose names are referenced.
    pub fn prepare_batch(&self, referenced_cols: &Vec<String>, source: &Batch) -> (r: Vec<
        usize,
    >)
        ensures
            forall|k: int| 0 <= k < r@.len() ==> (#[trigger] r@[k]) < source.cols@.len(),
            forall|k1: int, k2: int| 0 <= k1 < k2 < r@.len() ==> r@[k1] < r@[k2],
            forall|ci: int|
                0 <= ci < source.cols@.len() ==> ((exists|j: int|
                    0 <= j < referenced_cols@.len() && (#[trigger] referenced_cols@[j])@ == (
                    #[trigger] source.cols@[ci]).name@) <==> exists|k: int|
                    0 <= k < r@.len() && r@[k] == ci),
    {
        let mut r: Vec<usize> = Vec::new();
        let n = source.cols.len();
        let mut i: usize = 0;
        while i < n
            invariant
                i <= n,
                n == source.cols@.len(),
                forall|k: int| 0 <= k < r@.len() ==> (#[trigger] r@[k]) < i,
                forall|k1: int, k2: int| 0 <= k1 < k2 < r@.len() ==> r@[k1] < r@[k2],
                forall|ci: int|
                    0 <= ci < i ==> ((exists|j: int|
                        0 <= j < referenced_cols@.len() && (#[trigger] referenced_cols@[j])@ == (
                        #[trigger] source.cols@[ci]).name@) <==> exists|k: int|
                        0 <= k < r@.len() && r@[k] == ci),
            decreases n - i,
        {
            let c = &source.cols[i];
            let mut found = false;
            let m = referenced_cols.len();
            let mut j: usize = 0;
            while j < m && !found
                invariant
                    j <= m,
                    m == referenced_cols@.len(),
                    found ==> exists|k: int|
                        0 <= k < m && (#[trigger] referenced_cols@[k])@ == c.name@,
                    !found ==> forall|k: int|
                        0 <= k < j ==> (#[trigger] referenced_cols@[k])@ != c.name@,
                decreases m - j + (if found {
                    0int
                } else {
                    1int
                }),
            {
                if crate::strutil::str_eq(referenced_cols[j].as_str(), c.name.as_str()) {
                    found = true;
                } else {
                    j += 1;
                }
            }
            let ghost pre = r@;
            if found {
                r.push(i);
            }
            proof {
                assert forall|ci: int| 0 <= ci < i + 1 implies ((exists|jj: int|
                    0 <= jj < referenced_cols@.len() && (#[trigger] referenced_cols@[jj])@ == (
                    #[trigger] source.cols@[ci]).name@) <==> exists|k: int|
                    0 <= k < r@.len() && r@[k] == ci) by {
                    if ci < i {
                        if exists|k: int| 0 <= k < pre.len() && pre[k] == ci {
                            let k = choose|k: int| 0 <= k < pre.len() && pre[k] == ci;
                            assert(r@[k] == ci);
                        }
                        if exists|k: int| 0 <= k < r@.len() && r@[k] == ci {
                            let k = choose|k: int| 0 <= k < r@.len() && r@[k] == ci;
                            assert(k < pre.len() || r@[k] == i as usize);
                            if k < pre.len() {
                                assert(pre[k] == ci);
                            }
                        }
                    } else {
                        assert(source.cols@[ci] == *c);
                        if found {
                            assert(r@[r@.len() - 1] == i as usize);
                        } else {
                            assert(forall|kk: int|
                                0 <= kk < referenced_cols@.len() ==> (
                                #[trigger] referenced_cols@[kk])@ != c.name@);
                            assert(forall|k: int| 0 <= k < r@.len() ==> (#[trigger] r@[k]) < i);
                        }
                    }
                }
            }
            i += 1;
        }
        r
    }
}

/// Whether some batch has a column of the given name.
pub open spec fn batches_have_col(bs: Seq<Batch>, n: Seq<char>) -> bool {
    exists|b: int, c: int|
        0 <= b < bs.len() && 0 <= c < bs[b].cols@.len() && (#[trigger] bs[b].cols@[c]).name@ == n
}

/// The column names over a snapshot of batches: each name that occurs
/// in any batch, once, in first-appearance order.
pub fn find_all_cols(source: &Vec<Batch>) -> (r: Vec<String>)
    ensures
        forall|i: int, j: int|
            0 <= i < j < r@.len() ==> (#[trigger] r@[i])@ != (#[trigger] r@[j])@,
        forall|b: int, c: int|
            0 <= b < source@.len() && 0 <= c < source@[b].cols@.len() ==> has_name(
                r@,
                (#[trigger] source@[b].cols@[c]).name@,
            ),
        forall|k: int| 0 <= k < r@.len() ==> batches_have_col(source@, (#[trigger] r@[k])@),
{
    let mut r: Vec<String> = Vec::new();
    let nb = source.len();
    let mut bi: usize = 0;
    while bi < nb
        invariant
            bi <= nb,
            nb == source@.len(),
            forall|i: int, j: int|
                0 <= i < j < r@.len() ==> (#[trigger] r@[i])@ != (#[trigger] r@[j])@,
            forall|b: int, c: int|
                0 <= b < bi && 0 <= c < source@[b].cols@.len() ==> has_name(
                    r@,
                    (#[trigger] source@[b].cols@[c]).name@,
                ),
            forall|k: int| 0 <= k < r@.len() ==> batches_have_col(source@, (#[trigger] r@[k])@),
        decreases nb - bi,
    {
        let nc = source[bi].cols.len();
        let mut ci: usize = 0;
        while ci < nc
            invariant
                bi < nb,
                ci <= nc,
                nb == source@.len(),
                nc == source@[bi as int].cols@.len(),
                forall|i: int, j: int|
                    0 <= i < j < r@.len() ==> (#[trigger] r@[i])@ != (#[trigger] r@[j])@,
                forall|b: int, c: int|
                    0 <= b < bi && 0 <= c < source@[b].cols@.len() ==> has_name(
                        r@,
                        (#[trigger] source@[b].cols@[c]).name@,
                    ),
                forall|c: int|
                    0 <= c < ci ==> has_name(r@, (#[trigger] source@[bi as int].cols@[c]).name@),
                forall|k: int|
                    0 <= k < r@.len() ==> batches_have_col(source@, (#[trigger] r@[k])@),
            decreases nc - ci,
        {
            let name = &source[bi].cols[ci].name;
            let m = r.len();
            let mut found = false;
            let mut j: usize = 0;
            while j < m && !found
                invariant
                    j <= m,
                    m == r@.len(),
                    found ==> exists|k: int| 0 <= k < m && (#[trigger] r@[k])@ == name@,
                    !found ==> forall|k: int| 0 <= k < j ==> (#[trigger] r@[k])@ != name@,
                decreases m - j + (if found {
                    0int
                } else {
                    1int
                }),
            {
                if crate::strutil::str_eq(r[j].as_str(), name.as_str()) {
                    found = true;
                } else {
                    j += 1;
                }
            }
            let ghost pre = r@;
            if !found {
                r.push(name.clone());
            }
            proof {
                assert(has_name(r@, source@[bi as int].cols@[ci as int].name@)) by {
                    if found {
                        let k = choose|k: int|
                            0 <= k < pre.len() && (#[trigger] pre[k])@ == name@;
                        assert(r@[k]@ == name@);
                    } else {
                        assert(r@[r@.len() - 1]@ == name@);
                    }
                }
                assert forall|b: int, c: int|
                    0 <= b < bi && 0 <= c < source@[b].cols@.len() implies has_name(
                    r@,
                    (#[trigger] source@[b].cols@[c]).name@,
                ) by {
                    lemma_has_name_extend(pre, r@, source@[b].cols@[c].name@);
                }
                assert forall|c: int| 0 <= c < ci + 1 implies has_name(
                    r@,
                    (#[trigger] source@[bi as int].cols@[c]).name@,
                ) by {
                    if c < ci {
                        lemma_has_name_extend(pre, r@, source@[bi as int].cols@[c].name@);
                    }
                }
                assert forall|k: int| 0 <= k < r@.len() implies batches_have_col(
                    source@,
                    (#[trigger] r@[k])@,
                ) by {
                    if k < pre.len() {
                        assert(r@[k] == pre[k]);
                    } else {
                        assert(r@[k]@ == (#[trigger] source@[bi as int].cols@[ci as int]).name@);
                    }
                }
            }
            ci += 1;
        }
        bi += 1;
    }
    r
}

/// A copy of a row, equal at the model level.
pub(crate) fn clone_row(r: &Vec<RawVal>) -> (out: Vec<RawVal>)
    ensures
        row_view(out@) == row_view(r@),
{
    let mut out: Vec<RawVal> = Vec::new();
    let n = r.len();
    let mut i: usize = 0;
    while i < n
        invariant
            i <= n,
            n == r@.len(),
            out@.len() == i,
            forall|j: int| 0 <= j < i ==> (#[trigger] out@[j])@ == r@[j]@,
        decreases n - i,
    {
        out.push(crate::val::raw_clone(&r[i]));
        i += 1;
    }
    proof {
        assert(row_view(out@) =~= row_view(r@));
    }
    out
}

/// Removes and returns the buffer in slot `i`.
fn take_slot(pad: &mut Scratchpad, i: usize) -> (t: TypedVec)
    requires
        i < old(pad)@.len(),
        old(pad).wf(),
    ensures
        t@ == old(pad)@[i as int],
        t.wf(),
{
    let tv = pad.slots.swap_remove(i);
    proof {
        assert(old(pad).slots@[i as int].wf());
    }
    tv
}

} // verus!
