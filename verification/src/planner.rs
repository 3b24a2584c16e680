//! The query planner: lowers a parsed expression over a batch into a
//! list of vector operators.
//!
//! The contract ties the emitted plan's denotation to the row-at-a-time
//! meaning of the expression: the result slot holds exactly the
//! expression's value at every (mask-selected) row. Encoded columns are
//! compared in the encoded domain when the constant can be re-encoded;
//! arithmetic and ordering decode first.

use vstd::prelude::*;

use crate::column::{Batch, ColData};
use crate::expr::{wrap64, ETy, Expr, FuncType};
use crate::regexes::{regex_check, regex_valid};
use crate::scratchpad::BufferRef;
use crate::typed_vec::{
    filter_seq, lemma_filter_map2_commute, lemma_filter_map_commute, lemma_filter_seq_len,
    tvm_filtered, TVM,
};
use crate::val::{RVal, RawVal, ValueType};
use crate::regexes::regex_match_of;
use crate::typed_vec::{and_seq, or_seq};
use crate::vector_op::{
    denote_plan, lemma_denote_frame, lemma_denote_len, lemma_denote_take, mask_model, op_denote,
    plan_ok, plan_regex_ok, scan_tvm, slot, AdditionVS, VecConstBoolOperator, VecOp,
};

verus! {

/// Why a query could not be planned.
#[derive(Debug)]
pub enum PlanError {
    /// A column name does not exist in the batch.
    UnknownColumn(String),
    /// An operand has the wrong type.
    TypeMismatch,
    /// The expression shape is outside what the planner lowers.
    Unsupported,
    /// A regex literal does not compile.
    BadRegex,
}

/// The constant a parsed literal denotes.
pub open spec fn cv(v: ValueType) -> RVal {
    match v {
        ValueType::Integer(x) => RVal::I(x),
        ValueType::Str(s) => RVal::S(s@),
        ValueType::Null => RVal::N,
        ValueType::Bool(_) => RVal::N,
    }
}

/// The mask bits, or empty when none.
pub open spec fn mask_or_empty(m: Option<Seq<bool>>) -> Seq<bool> {
    match m {
        Some(s) => s,
        None => Seq::empty(),
    }
}

/// A run restricted to the mask-selected rows.
pub open spec fn sel<A>(s: Seq<A>, masked: bool, m: Option<Seq<bool>>) -> Seq<A> {
    if masked {
        filter_seq(s, mask_or_empty(m))
    } else {
        s
    }
}

/// The integer value of `e` at every row of the batch.
pub open spec fn full_ints(e: Expr, b: Batch) -> Seq<int> {
    Seq::new(b.len_spec(), |i: int| e.eval_int(b, i))
}

/// The string value of `e` at every row of the batch.
pub open spec fn full_strs(e: Expr, b: Batch) -> Seq<Seq<char>> {
    Seq::new(b.len_spec(), |i: int| e.eval_str(b, i))
}

/// The boolean value of `e` at every row of the batch.
pub open spec fn full_bools(e: Expr, b: Batch) -> Seq<bool> {
    Seq::new(b.len_spec(), |i: int| e.eval_bool(b, i))
}

/// What the buffer compiled for `e` must hold: a constant cell for a
/// literal; otherwise the run of `e`'s values at the selected rows.
pub open spec fn compiled_matches(t: TVM, e: Expr, b: Batch, masked: bool, m: Option<
    Seq<bool>,
>) -> bool {
    match e {
        Expr::Const(v) => t == TVM::ConstV(cv(v)),
        _ => match e.etype(b) {
            Some(ETy::EInt) => t.is_intish() && t.ints() == sel(full_ints(e, b), masked, m),
            Some(ETy::EStr) => t matches TVM::Strs(ss) && ss == sel(full_strs(e, b), masked, m),
            Some(ETy::EBool) => !masked && (t matches TVM::Bools(bs) && bs == full_bools(e, b)),
            Some(ETy::ENull) => t matches TVM::Nulls(k) && k == sel(
                Seq::new(b.len_spec(), |i: int| 0int),
                masked,
                m,
            ).len(),
            None => false,
        },
    }
}

/// Whether the planner can lower `e` over `b`: every mentioned column
/// exists, operand types agree, each vector/constant operator has one
/// constant side, and regex literals compile. A boolean expression
/// cannot be compiled under a mask.
pub open spec fn plannable(e: Expr, b: Batch, masked: bool) -> bool
    decreases e,
{
    match e {
        Expr::Const(v) => !(v matches ValueType::Bool(_)),
        Expr::ColName(n) => b.has_col(n@),
        Expr::Func(f, l, r) => {
            let lv_int = plannable(*l, b, masked) && l.etype(b) == Some(ETy::EInt) && !(
            *l matches Expr::Const(_));
            let rv_int = plannable(*r, b, masked) && r.etype(b) == Some(ETy::EInt) && !(
            *r matches Expr::Const(_));
            let lv_str = plannable(*l, b, masked) && l.etype(b) == Some(ETy::EStr) && !(
            *l matches Expr::Const(_));
            let rv_str = plannable(*r, b, masked) && r.etype(b) == Some(ETy::EStr) && !(
            *r matches Expr::Const(_));
            let lv_bool = plannable(*l, b, masked) && l.etype(b) == Some(ETy::EBool) && !(
            *l matches Expr::Const(_));
            let rv_bool = plannable(*r, b, masked) && r.etype(b) == Some(ETy::EBool) && !(
            *r matches Expr::Const(_));
            match f {
                FuncType::Add => (is_const_int(*r) && lv_int) || (is_const_int(*l) && rv_int) || (
                lv_int && rv_int),
                FuncType::Equals => !masked && ((is_const_int(*r) && lv_int) || (is_const_int(*l)
                    && rv_int) || (is_const_str(*r) && lv_str) || (is_const_str(*l) && rv_str)),
                FuncType::LT | FuncType::GT => !masked && ((is_const_int(*r) && lv_int) || (
                is_const_int(*l) && rv_int)),
                FuncType::And | FuncType::Or => !masked && ((lv_bool && rv_bool) || (is_const_bool(
                    *l,
                ) && rv_bool) || (is_const_bool(*r) && lv_bool)),
                FuncType::Negate => lv_int,
                FuncType::RegexMatch => !masked && (is_const_str(*r) && regex_valid(const_str(*r))
                    && lv_str),
            }
        },
    }
}

pub open spec fn is_const_int(e: Expr) -> bool {
    e matches Expr::Const(ValueType::Integer(_))
}

pub open spec fn const_int(e: Expr) -> i64 {
    match e {
        Expr::Const(ValueType::Integer(x)) => x,
        _ => 0,
    }
}

pub open spec fn is_const_str(e: Expr) -> bool {
    e matches Expr::Const(ValueType::Str(_))
}

pub open spec fn const_str(e: Expr) -> Seq<char> {
    match e {
        Expr::Const(ValueType::Str(s)) => s@,
        _ => Seq::empty(),
    }
}

pub open spec fn is_const_bool(e: Expr) -> bool {
    e matches Expr::Const(ValueType::Bool(_))
}

pub open spec fn const_bool(e: Expr) -> bool {
    match e {
        Expr::Const(ValueType::Bool(x)) => x,
        _ => false,
    }
}

/// Pushing one operator extends a plan's denotation by that operator's
/// denotation.
pub proof fn lemma_denote_push(ops: Seq<VecOp>, op: VecOp, b: Batch, m: Option<Seq<bool>>)
    ensures
        denote_plan(ops.push(op), b, m) == denote_plan(ops, b, m).push(
            op_denote(op, denote_plan(ops, b, m), b, m),
        ),
        denote_plan(ops, b, m).len() == ops.len(),
{
    assert(ops.push(op).drop_last() =~= ops);
    assert(ops.push(op).last() == op);
    lemma_denote_len(ops, b, m);
}

/// Pushing an operator that denotes keeps the plan well formed.
pub proof fn lemma_plan_ok_push(ops: Seq<VecOp>, op: VecOp, b: Batch, m: Option<Seq<bool>>)
    requires
        plan_ok(ops, b, m),
        op_denote(op, denote_plan(ops, b, m), b, m) is Some,
    ensures
        plan_ok(ops.push(op), b, m),
        plan_regex_ok(ops) && (op matches VecOp::RegexMatchVec { pattern, .. } ==> regex_valid(
            pattern@,
        )) ==> plan_regex_ok(ops.push(op)),
        denote_plan(ops.push(op), b, m).len() == ops.len() + 1,
        denote_plan(ops.push(op), b, m)[ops.len() as int] == op_denote(
            op,
            denote_plan(ops, b, m),
            b,
            m,
        ),
        denote_plan(ops.push(op), b, m).last() == op_denote(op, denote_plan(ops, b, m), b, m),
        forall|j: int|
            0 <= j < ops.len() ==> denote_plan(ops.push(op), b, m)[j] == denote_plan(
                ops,
                b,
                m,
            )[j],
{
    lemma_denote_push(ops, op, b, m);
    lemma_denote_len(ops.push(op), b, m);
    assert forall|k: int| 0 <= k < ops.push(op).len() implies (#[trigger] denote_plan(
        ops.push(op),
        b,
        m,
    )[k]) is Some by {
        if k < ops.len() {
            assert(denote_plan(ops, b, m)[k] is Some);
        }
    }
}

/// Scanning an integer column yields its decoded run.
pub proof fn lemma_scan_ints(c: ColData)
    requires
        c.is_int(),
    ensures
        scan_tvm(c).is_intish(),
        scan_tvm(c).ints() == Seq::new(c.len_spec(), |i: int| c.int_at(i)),
        scan_tvm(c).len_spec() == c.len_spec(),
{
    match c {
        ColData::Plain(ic) => {
            assert(scan_tvm(c).ints() =~= Seq::new(c.len_spec(), |i: int| c.int_at(i)));
        },
        ColData::Off8 { codes, offset } => {
            assert(scan_tvm(c).ints() =~= Seq::new(c.len_spec(), |i: int| c.int_at(i)));
        },
        ColData::Off16 { codes, offset } => {
            assert(scan_tvm(c).ints() =~= Seq::new(c.len_spec(), |i: int| c.int_at(i)));
        },
        ColData::Off32 { codes, offset } => {
            assert(scan_tvm(c).ints() =~= Seq::new(c.len_spec(), |i: int| c.int_at(i)));
        },
        _ => {},
    }
}

/// Compacting an integer-valued run commutes with decoding it.
pub proof fn lemma_tvm_filtered_ints(t: TVM, m: Seq<bool>)
    requires
        t.is_intish(),
        t.len_spec() == m.len(),
    ensures
        tvm_filtered(t, m).is_intish(),
        tvm_filtered(t, m).ints() == filter_seq(t.ints(), m),
{
    match t {
        TVM::Ints(s) => {},
        TVM::Codes(s, o) => {
            let f = |x: int| o + x;
            lemma_filter_map_commute(s, m, f);
            assert(t.ints() =~= s.map_values(f));
            assert(tvm_filtered(t, m).ints() =~= filter_seq(s, m).map_values(f));
        },
        _ => {},
    }
}

/// Lowers `e` to operators appended to `ops`; the returned slot holds
/// `e`'s run. With `masked`, leaf scans compact by the execution mask.
/// Succeeds exactly on plannable expressions.
pub fn compile_expr(
    e: &Expr,
    b: &Batch,
    masked: bool,
    m: Option<&bit_vec::BitVec>,
    ops: &mut Vec<VecOp>,
) -> (r: Result<BufferRef, PlanError>)
    requires
        b.wf(),
        plan_ok(old(ops)@, *b, mask_model(m)),
        plan_regex_ok(old(ops)@),
        masked ==> m is Some && mask_or_empty(mask_model(m)).len() == b.len_spec(),
    ensures
        final(ops)@.len() >= old(ops)@.len(),
        final(ops)@.take(old(ops)@.len() as int) =~= old(ops)@,
        plan_ok(final(ops)@, *b, mask_model(m)),
        plan_regex_ok(final(ops)@),
        r matches Ok(s) ==> s.idx < final(ops)@.len() && (denote_plan(
            final(ops)@,
            *b,
            mask_model(m),
        )[s.idx as int] matches Some(t) && compiled_matches(t, *e, *b, masked, mask_model(m))),
        r is Ok <==> plannable(*e, *b, masked),
    decreases e,
{
    let ghost mm = mask_model(m);
    match e {
        Expr::Const(v) => {
            let val = match v {
                ValueType::Integer(x) => RawVal::Int(*x),
                ValueType::Str(s) => RawVal::Str(s.clone()),
                ValueType::Null => RawVal::Null,
                ValueType::Bool(_) => {
                    return Err(PlanError::Unsupported);
                },
            };
            let op = VecOp::ConstLoad { val };
            proof {
                lemma_plan_ok_push(ops@, op, *b, mm);
            }
            let s = BufferRef { idx: ops.len() };
            ops.push(op);
            proof {
                assert(final(ops)@.take(old(ops)@.len() as int) =~= old(ops)@);
            }
            Ok(s)
        },
        Expr::ColName(n) => {
            match b.find_col_idx(n.as_str()) {
                Some(ci) => {
                    let op = VecOp::ColumnScan { col: ci, masked };
                    proof {
                        let env = denote_plan(ops@, *b, mm);
                        let c = b.cols@[ci as int].data;
                        let t0 = scan_tvm(c);
                        assert(b.cols@[ci as int].wf());
                        assert(c.len_spec() == b.len_spec());
                        assert(t0.len_spec() == b.len_spec()) by {
                            match c {
                                ColData::Plain(_) | ColData::Off8 { .. } | ColData::Off16 {
                                    ..
                                } | ColData::Off32 { .. } => {
                                    lemma_scan_ints(c);
                                },
                                _ => {},
                            }
                        }
                        assert(op_denote(op, env, *b, mm) is Some);
                        lemma_plan_ok_push(ops@, op, *b, mm);
                        // the scanned run matches the column's meaning
                        let t = match op_denote(op, env, *b, mm) {
                            Some(t) => t,
                            None => t0,
                        };
                        if c.is_int() {
                            lemma_scan_ints(c);
                            assert(t0.ints() =~= full_ints(*e, *b));
                            if masked {
                                lemma_tvm_filtered_ints(t0, mask_or_empty(mm));
                            }
                        } else if c.is_str() {
                            assert(scan_tvm(c) matches TVM::Strs(ss) && ss =~= full_strs(
                                *e,
                                *b,
                            ));
                            if masked {
                            }
                        } else {
                            if masked {
                                lemma_filter_seq_len(
                                    Seq::new(b.len_spec(), |i: int| 0int),
                                    mask_or_empty(mm),
                                );
                                lemma_filter_seq_len(
                                    Seq::new(t0.len_spec(), |i: int| false),
                                    mask_or_empty(mm),
                                );
                            }
                        }
                        assert(compiled_matches(t, *e, *b, masked, mm));
                    }
                    let s = BufferRef { idx: ops.len() };
                    ops.push(op);
                    proof {
                        assert(final(ops)@.take(old(ops)@.len() as int) =~= old(ops)@);
                    }
                    Ok(s)
                },
                None => Err(PlanError::UnknownColumn(n.clone())),
            }
        },
        Expr::Func(f, l, r) => {
            match f {
                FuncType::Add => compile_add(e, l, r, b, masked, m, ops),
                FuncType::Equals => compile_equals(e, l, r, b, masked, m, ops),
                FuncType::LT | FuncType::GT => compile_ordering(e, f, l, r, b, masked, m, ops),
                FuncType::And | FuncType::Or => compile_boolean(e, f, l, r, b, masked, m, ops),
                FuncType::Negate => compile_negate(e, l, r, b, masked, m, ops),
                FuncType::RegexMatch => compile_regex(e, l, r, b, masked, m, ops),
            }
        },
    }
}

/// Lowers an addition with one constant side: decode, then `AdditionVS`.
#[verifier::rlimit(30)]
fn compile_add(
    e: &Expr,
    l: &Box<Expr>,
    r: &Box<Expr>,
    b: &Batch,
    masked: bool,
    m: Option<&bit_vec::BitVec>,
    ops: &mut Vec<VecOp>,
) -> (res: Result<BufferRef, PlanError>)
    requires
        b.wf(),
        plan_ok(old(ops)@, *b, mask_model(m)),
        plan_regex_ok(old(ops)@),
        masked ==> m is Some && mask_or_empty(mask_model(m)).len() == b.len_spec(),
        *e matches Expr::Func(ff, ll, rr) && ff == FuncType::Add && ll == *l && rr == *r,
    ensures
        final(ops)@.len() >= old(ops)@.len(),
        final(ops)@.take(old(ops)@.len() as int) =~= old(ops)@,
        plan_ok(final(ops)@, *b, mask_model(m)),
        plan_regex_ok(final(ops)@),
        res matches Ok(s) ==> s.idx < final(ops)@.len() && (denote_plan(
            final(ops)@,
            *b,
            mask_model(m),
        )[s.idx as int] matches Some(t) && compiled_matches(t, *e, *b, masked, mask_model(m))),
        res is Ok <==> plannable(*e, *b, masked),
    decreases e, 1nat,
{
    let ghost mm = mask_model(m);
    let (vec_e, c): (&Expr, i64) = if let Expr::Const(ValueType::Integer(cc)) = &**r {
        (&**l, *cc)
    } else if let Expr::Const(ValueType::Integer(cc)) = &**l {
        (&**r, *cc)
    } else {
        return compile_add_vv(e, l, r, b, masked, m, ops);
    };
    if let Expr::Const(_) = vec_e {
        return Err(PlanError::Unsupported);
    }
    match vec_e.ety_of(b) {
        Some(ETy::EInt) => {},
        _ => {
            return Err(PlanError::TypeMismatch);
        },
    }
    let ghost len0 = ops@.len();
    let vslot = match compile_expr(vec_e, b, masked, m, ops) {
        Ok(s) => s,
        Err(er) => {
            return Err(er);
        },
    };
    let ghost env1 = denote_plan(ops@, *b, mm);
    let ghost tv = match env1[vslot.idx as int] {
        Some(t) => t,
        None => TVM::Nulls(0),
    };
    let dop = VecOp::Decode { input: vslot };
    proof {
        lemma_denote_len(ops@, *b, mm);
        assert(slot(env1, vslot) == Some(tv));
        lemma_plan_ok_push(ops@, dop, *b, mm);
    }
    let dslot = BufferRef { idx: ops.len() };
    ops.push(dop);
    let cop = VecOp::ConstLoad { val: RawVal::Int(c) };
    proof {
        lemma_plan_ok_push(ops@, cop, *b, mm);
    }
    let cslot = BufferRef { idx: ops.len() };
    ops.push(cop);
    let out = BufferRef { idx: ops.len() };
    let aop = VecOp::Addition(AdditionVS::new(dslot, cslot, out));
    proof {
        let env3 = denote_plan(ops@, *b, mm);
        lemma_denote_len(ops@, *b, mm);
        assert(slot(env3, dslot) == Some(TVM::Ints(tv.ints())));
        assert(slot(env3, cslot) == Some(TVM::ConstV(RVal::I(c))));
        lemma_plan_ok_push(ops@, aop, *b, mm);
    }
    ops.push(aop);
    proof {
        let envf = denote_plan(ops@, *b, mm);
        let s = tv.ints();
        let g = |x: int| wrap64(x + c);
        let fi = full_ints(*vec_e, *b);
        assert(envf[out.idx as int] == Some(
            TVM::Ints(Seq::new(s.len(), |i: int| wrap64(s[i] + c))),
        ));
        assert(Seq::new(s.len(), |i: int| wrap64(s[i] + c)) =~= s.map_values(g));
        assert forall|i: int| 0 <= i < fi.len() implies full_ints(*e, *b)[i] == fi.map_values(
            g,
        )[i] by {
            assert(e.eval_int(*b, i) == wrap64(l.eval_int(*b, i) + r.eval_int(*b, i)));
            assert(fi[i] == vec_e.eval_int(*b, i));
        }
        assert(full_ints(*e, *b) =~= fi.map_values(g));
        if masked {
            lemma_filter_map_commute(fi, mask_or_empty(mm), g);
            assert(sel(full_ints(*e, *b), masked, mm) =~= s.map_values(g));
        } else {
            assert(sel(full_ints(*e, *b), masked, mm) =~= s.map_values(g));
        }
        assert(compiled_matches(envf[out.idx as int].unwrap(), *e, *b, masked, mm));
        assert(ops@.take(len0 as int) =~= old(ops)@);
    }
    Ok(out)
}

/// The offset and width ceiling of an offset-encoded column.
pub open spec fn enc_params(c: ColData) -> Option<(i64, i64)> {
    match c {
        ColData::Off8 { offset, .. } => Some((offset, u8::MAX as i64)),
        ColData::Off16 { offset, .. } => Some((offset, u16::MAX as i64)),
        ColData::Off32 { offset, .. } => Some((offset, u32::MAX as i64)),
        _ => None,
    }
}

/// The raw code run of an offset-encoded column.
pub open spec fn codes_of(c: ColData) -> Seq<int> {
    match scan_tvm(c) {
        TVM::Codes(s, _) => s,
        _ => Seq::empty(),
    }
}

/// Equality of an offset-encoded column against an integer constant,
/// decided in the encoded domain: row value equals the constant exactly
/// when the raw code equals the re-encoded constant.
pub proof fn lemma_eq_encoded(e: Expr, ve: Expr, b: Batch, c: i64, offset: i64, wmax: i64)
    requires
        b.wf(),
        e matches Expr::Func(ff, ll, rr) && ff == FuncType::Equals && ((*ll == ve && is_const_int(
            *rr,
        ) && const_int(*rr) == c) || (*rr == ve && is_const_int(*ll) && const_int(*ll) == c)),
        ve matches Expr::ColName(n) && b.has_col(n@) && enc_params(b.col_named(n@)) == Some(
            (offset, wmax),
        ),
    ensures
        ve matches Expr::ColName(n) ==> {
            let col = b.col_named(n@);
            let s = codes_of(col);
            &&& s.len() == col.len_spec()
            &&& forall|i: int| 0 <= i < s.len() ==> 0 <= #[trigger] s[i] <= wmax
            &&& forall|i: int|
                0 <= i < s.len() ==> e.eval_bool(b, i) == (offset + #[trigger] s[i] == c)
        },
{
    if let Expr::ColName(n) = ve {
        let col = b.col_named(n@);
        let s = codes_of(col);
        match col {
            ColData::Off8 { codes, offset: o } => {
                assert(s =~= Seq::new(codes@.len(), |i: int| codes@[i] as int));
            },
            ColData::Off16 { codes, offset: o } => {
                assert(s =~= Seq::new(codes@.len(), |i: int| codes@[i] as int));
            },
            ColData::Off32 { codes, offset: o } => {
                assert(s =~= Seq::new(codes@.len(), |i: int| codes@[i] as int));
            },
            _ => {},
        }
        assert forall|i: int| 0 <= i < s.len() implies e.eval_bool(b, i) == (offset
            + #[trigger] s[i] == c) by {
            assert(col.int_at(i) == offset + s[i]);
            assert(ve.eval_int(b, i) == offset + s[i]);
            if let Expr::Func(ff, ll, rr) = e {
                assert(l_etype_int(e, b));
                assert(e.eval_bool(b, i) == (ll.eval_int(b, i) == rr.eval_int(b, i)));
            }
        }
    }
}

/// The left operand of an equality whose sides are an integer column
/// and an integer constant is integer-typed.
pub open spec fn l_etype_int(e: Expr, b: Batch) -> bool {
    match e {
        Expr::Func(_, ll, _) => ll.etype(b) == Some(ETy::EInt),
        _ => false,
    }
}

/// Lowers an addition of two runs: decode both, then add pointwise.
#[verifier::rlimit(30)]
fn compile_add_vv(
    e: &Expr,
    l: &Box<Expr>,
    r: &Box<Expr>,
    b: &Batch,
    masked: bool,
    m: Option<&bit_vec::BitVec>,
    ops: &mut Vec<VecOp>,
) -> (res: Result<BufferRef, PlanError>)
    requires
        b.wf(),
        plan_ok(old(ops)@, *b, mask_model(m)),
        plan_regex_ok(old(ops)@),
        masked ==> m is Some && mask_or_empty(mask_model(m)).len() == b.len_spec(),
        *e matches Expr::Func(ff, ll, rr) && ff == FuncType::Add && ll == *l && rr == *r,
        !is_const_int(**l),
        !is_const_int(**r),
    ensures
        final(ops)@.len() >= old(ops)@.len(),
        final(ops)@.take(old(ops)@.len() as int) =~= old(ops)@,
        plan_ok(final(ops)@, *b, mask_model(m)),
        plan_regex_ok(final(ops)@),
        res matches Ok(s) ==> s.idx < final(ops)@.len() && (denote_plan(
            final(ops)@,
            *b,
            mask_model(m),
        )[s.idx as int] matches Some(t) && compiled_matches(t, *e, *b, masked, mask_model(m))),
        res is Ok <==> plannable(*e, *b, masked),
    decreases e, 0nat,
{
    let ghost mm = mask_model(m);
    if let Expr::Const(_) = &**l {
        match l.ety_of(b) {
            Some(ETy::EInt) => {
                proof {
                    assert(is_const_int(**l));
                }
            },
            _ => {},
        }
        return Err(PlanError::TypeMismatch);
    }
    if let Expr::Const(_) = &**r {
        match r.ety_of(b) {
            Some(ETy::EInt) => {
                proof {
                    assert(is_const_int(**r));
                }
            },
            _ => {},
        }
        return Err(PlanError::TypeMismatch);
    }
    match l.ety_of(b) {
        Some(ETy::EInt) => {},
        _ => {
            return Err(PlanError::TypeMismatch);
        },
    }
    match r.ety_of(b) {
        Some(ETy::EInt) => {},
        _ => {
            return Err(PlanError::TypeMismatch);
        },
    }
    let ghost len0 = ops@.len();
    let sl = match compile_expr(l, b, masked, m, ops) {
        Ok(s) => s,
        Err(er) => {
            return Err(er);
        },
    };
    let ghost opsl = ops@;
    let sr = match compile_expr(r, b, masked, m, ops) {
        Ok(s) => s,
        Err(er) => {
            return Err(er);
        },
    };
    let ghost env2 = denote_plan(ops@, *b, mm);
    let ghost tl = match env2[sl.idx as int] {
        Some(t) => t,
        None => TVM::Nulls(0),
    };
    let ghost tr = match env2[sr.idx as int] {
        Some(t) => t,
        None => TVM::Nulls(0),
    };
    proof {
        lemma_denote_len(ops@, *b, mm);
        lemma_denote_len(opsl, *b, mm);
        lemma_denote_frame(opsl, ops@, *b, mm, sl.idx as int);
        assert(slot(env2, sl) == Some(tl));
        assert(slot(env2, sr) == Some(tr));
    }
    let dl_op = VecOp::Decode { input: sl };
    proof {
        lemma_plan_ok_push(ops@, dl_op, *b, mm);
    }
    let dl = BufferRef { idx: ops.len() };
    ops.push(dl_op);
    let dr_op = VecOp::Decode { input: sr };
    proof {
        let env3 = denote_plan(ops@, *b, mm);
        lemma_denote_len(ops@, *b, mm);
        assert(slot(env3, sr) == Some(tr));
        lemma_plan_ok_push(ops@, dr_op, *b, mm);
    }
    let dr = BufferRef { idx: ops.len() };
    ops.push(dr_op);
    let out = BufferRef { idx: ops.len() };
    let aop = VecOp::AdditionVV { lhs: dl, rhs: dr };
    proof {
        let env4 = denote_plan(ops@, *b, mm);
        lemma_denote_len(ops@, *b, mm);
        assert(slot(env4, dl) == Some(TVM::Ints(tl.ints())));
        assert(slot(env4, dr) == Some(TVM::Ints(tr.ints())));
        let fl = full_ints(**l, *b);
        let fr = full_ints(**r, *b);
        if masked {
            lemma_filter_seq_len(fl, mask_or_empty(mm));
            lemma_filter_seq_len(fr, mask_or_empty(mm));
        }
        assert(tl.ints().len() == tr.ints().len());
        lemma_plan_ok_push(ops@, aop, *b, mm);
    }
    ops.push(aop);
    proof {
        let envf = denote_plan(ops@, *b, mm);
        let fl = full_ints(**l, *b);
        let fr = full_ints(**r, *b);
        let f = |x: int, y: int| wrap64(x + y);
        let a1 = tl.ints();
        let a2 = tr.ints();
        assert(envf[out.idx as int] == Some(
            TVM::Ints(Seq::new(a1.len(), |i: int| wrap64(a1[i] + a2[i]))),
        ));
        assert forall|i: int| 0 <= i < fl.len() implies full_ints(*e, *b)[i] == f(
            fl[i],
            fr[i],
        ) by {
            assert(e.eval_int(*b, i) == wrap64(l.eval_int(*b, i) + r.eval_int(*b, i)));
        }
        assert(full_ints(*e, *b) =~= Seq::new(fl.len(), |i: int| f(fl[i], fr[i])));
        if masked {
            let mk = mask_or_empty(mm);
            lemma_filter_map2_commute(fl, fr, mk, f);
            assert(a1 == filter_seq(fl, mk));
            assert(a2 == filter_seq(fr, mk));
            assert(Seq::new(a1.len(), |i: int| wrap64(a1[i] + a2[i])) =~= Seq::new(
                a1.len(),
                |k: int| f(a1[k], a2[k]),
            ));
            assert(sel(full_ints(*e, *b), masked, mm) =~= Seq::new(
                a1.len(),
                |i: int| wrap64(a1[i] + a2[i]),
            ));
        } else {
            assert(sel(full_ints(*e, *b), masked, mm) =~= Seq::new(
                a1.len(),
                |i: int| wrap64(a1[i] + a2[i]),
            ));
        }
        assert(compiled_matches(envf[out.idx as int].unwrap(), *e, *b, masked, mm));
        assert(ops@.take(len0 as int) =~= old(ops)@);
    }
    Ok(out)
}

/// Lowers an equality against a constant. For an offset-encoded column
/// the constant is re-encoded and compared against raw codes without
/// decoding; a constant outside the code range becomes a constant-false
/// mask without comparing.
/// The integer-constant case of an equality.
#[verifier::rlimit(30)]
fn compile_equals_int(
    e: &Expr,
    l: &Box<Expr>,
    r: &Box<Expr>,
    b: &Batch,
    m: Option<&bit_vec::BitVec>,
    ops: &mut Vec<VecOp>,
) -> (res: Result<BufferRef, PlanError>)
    requires
        b.wf(),
        plan_ok(old(ops)@, *b, mask_model(m)),
        plan_regex_ok(old(ops)@),
        *e matches Expr::Func(ff, ll, rr) && ff == FuncType::Equals && ll == *l && rr == *r,
        is_const_int(**r) || is_const_int(**l),
    ensures
        final(ops)@.len() >= old(ops)@.len(),
        final(ops)@.take(old(ops)@.len() as int) =~= old(ops)@,
        plan_ok(final(ops)@, *b, mask_model(m)),
        plan_regex_ok(final(ops)@),
        res matches Ok(s) ==> s.idx < final(ops)@.len() && (denote_plan(
            final(ops)@,
            *b,
            mask_model(m),
        )[s.idx as int] matches Some(t) && compiled_matches(t, *e, *b, false, mask_model(m))),
        res is Ok <==> plannable(*e, *b, false),
    decreases e, 0nat,
{
    let ghost mm = mask_model(m);
    let int_side: Option<(&Expr, i64)> = if let Expr::Const(ValueType::Integer(cc)) = &**r {
        Some((&**l, *cc))
    } else if let Expr::Const(ValueType::Integer(cc)) = &**l {
        Some((&**r, *cc))
    } else {
        None
    };
    if let Some((vec_e, c)) = int_side {
        if let Expr::Const(_) = vec_e {
            return Err(PlanError::Unsupported);
        }
        match vec_e.ety_of(b) {
            Some(ETy::EInt) => {},
            _ => {
                return Err(PlanError::TypeMismatch);
            },
        }
        let ghost len0 = ops@.len();
        // encoded lowering for a direct scan of an offset column
        if let Expr::ColName(n) = vec_e {
            let ci = match b.find_col_idx(n.as_str()) {
                Some(ci) => ci,
                None => {
                    proof {
                        assert(false);
                    }
                    unreached()
                },
            };
            let enc: Option<(i64, i64)> = match &b.cols[ci].data {
                ColData::Off8 { offset, .. } => Some((*offset, u8::MAX as i64)),
                ColData::Off16 { offset, .. } => Some((*offset, u16::MAX as i64)),
                ColData::Off32 { offset, .. } => Some((*offset, u32::MAX as i64)),
                _ => None,
            };
            if let Some((offset, wmax)) = enc {
                let sop = VecOp::ColumnScan { col: ci, masked: false };
                proof {
                    let c0 = b.cols@[ci as int].data;
                    assert(b.cols@[ci as int].wf());
                    lemma_scan_ints(c0);
                    lemma_plan_ok_push(ops@, sop, *b, mm);
                }
                let sslot = BufferRef { idx: ops.len() };
                ops.push(sop);
                let diff: i128 = c as i128 - offset as i128;
                if 0 <= diff && diff <= wmax as i128 {
                    let code: i64 = diff as i64;
                    let cop = VecOp::ConstLoad { val: RawVal::Int(code) };
                    proof {
                        lemma_plan_ok_push(ops@, cop, *b, mm);
                    }
                    let cslot = BufferRef { idx: ops.len() };
                    ops.push(cop);
                    let out = BufferRef { idx: ops.len() };
                    let eop = VecOp::EqualsCodeVS(VecConstBoolOperator::new(sslot, cslot, out));
                    proof {
                        let env2 = denote_plan(ops@, *b, mm);
                        lemma_denote_len(ops@, *b, mm);
                        let c0 = b.cols@[ci as int].data;
                        assert(slot(env2, sslot) == Some(scan_tvm(c0)));
                        assert(scan_tvm(c0) matches TVM::Codes(_, _));
                        assert(slot(env2, cslot) == Some(TVM::ConstV(RVal::I(code))));
                        lemma_plan_ok_push(ops@, eop, *b, mm);
                    }
                    ops.push(eop);
                    proof {
                        let envf = denote_plan(ops@, *b, mm);
                        let c0 = b.cols@[ci as int].data;
                        lemma_eq_encoded(*e, *vec_e, *b, c, offset, wmax);
                        let cs = codes_of(c0);
                        assert(envf[out.idx as int] == Some(
                            TVM::Bools(Seq::new(cs.len(), |i: int| cs[i] == code)),
                        ));
                        assert(Seq::new(cs.len(), |i: int| cs[i] == code) =~= full_bools(*e, *b));
                        assert(compiled_matches(envf[out.idx as int].unwrap(), *e, *b, false, mm));
                        assert(ops@.take(len0 as int) =~= old(ops)@);
                        assert(plannable(*vec_e, *b, false));
                        assert(plannable(*e, *b, false));
                    }
                    return Ok(out);
                } else {
                    let out = BufferRef { idx: ops.len() };
                    let bop = VecOp::BoolBroadcast { input: sslot, value: false };
                    proof {
                        let env2 = denote_plan(ops@, *b, mm);
                        lemma_denote_len(ops@, *b, mm);
                        let c0 = b.cols@[ci as int].data;
                        assert(slot(env2, sslot) == Some(scan_tvm(c0)));
                        lemma_plan_ok_push(ops@, bop, *b, mm);
                    }
                    ops.push(bop);
                    proof {
                        let envf = denote_plan(ops@, *b, mm);
                        let c0 = b.cols@[ci as int].data;
                        lemma_eq_encoded(*e, *vec_e, *b, c, offset, wmax);
                        let cs = codes_of(c0);
                        let t0 = scan_tvm(c0);
                        assert(t0.len_spec() == cs.len());
                        assert(envf[out.idx as int] == Some(
                            TVM::Bools(Seq::new(t0.len_spec(), |_i: int| false)),
                        ));
                        assert forall|i: int| 0 <= i < cs.len() implies e.eval_bool(*b, i)
                            == false by {
                            assert(0 <= cs[i] <= wmax);
                            assert(e.eval_bool(*b, i) == (offset + cs[i] == c));
                        }
                        assert(Seq::new(t0.len_spec(), |_i: int| false) =~= full_bools(*e, *b));
                        assert(compiled_matches(envf[out.idx as int].unwrap(), *e, *b, false, mm));
                        assert(ops@.take(len0 as int) =~= old(ops)@);
                        assert(plannable(*vec_e, *b, false));
                        assert(plannable(*e, *b, false));
                    }
                    return Ok(out);
                }
            }
        }
        // general path: decode, then compare decoded values
        let vslot = match compile_expr(vec_e, b, false, m, ops) {
            Ok(s) => s,
            Err(er) => {
                return Err(er);
            },
        };
        let ghost env1 = denote_plan(ops@, *b, mm);
        let ghost tv = match env1[vslot.idx as int] {
            Some(t) => t,
            None => TVM::Nulls(0),
        };
        let dop = VecOp::Decode { input: vslot };
        proof {
            lemma_denote_len(ops@, *b, mm);
            assert(slot(env1, vslot) == Some(tv));
            lemma_plan_ok_push(ops@, dop, *b, mm);
        }
        let dslot = BufferRef { idx: ops.len() };
        ops.push(dop);
        let cop = VecOp::ConstLoad { val: RawVal::Int(c) };
        proof {
            lemma_plan_ok_push(ops@, cop, *b, mm);
        }
        let cslot = BufferRef { idx: ops.len() };
        ops.push(cop);
        let out = BufferRef { idx: ops.len() };
        let eop = VecOp::EqualsIntVS(VecConstBoolOperator::new(dslot, cslot, out));
        proof {
            let env3 = denote_plan(ops@, *b, mm);
            lemma_denote_len(ops@, *b, mm);
            assert(slot(env3, dslot) == Some(TVM::Ints(tv.ints())));
            assert(slot(env3, cslot) == Some(TVM::ConstV(RVal::I(c))));
            lemma_plan_ok_push(ops@, eop, *b, mm);
        }
        ops.push(eop);
        proof {
            let envf = denote_plan(ops@, *b, mm);
            let s = tv.ints();
            assert(envf[out.idx as int] == Some(TVM::Bools(Seq::new(s.len(), |i: int| s[i] == c))));
            assert(s == full_ints(*vec_e, *b));
            assert(Seq::new(s.len(), |i: int| s[i] == c) =~= full_bools(*e, *b));
            assert(compiled_matches(envf[out.idx as int].unwrap(), *e, *b, false, mm));
            assert(ops@.take(len0 as int) =~= old(ops)@);
        }
        return Ok(out);
    }
    proof {
        assert(false);
    }
    unreached()
}

/// The string-constant case of an equality.
#[verifier::rlimit(30)]
fn compile_equals_str(
    e: &Expr,
    l: &Box<Expr>,
    r: &Box<Expr>,
    b: &Batch,
    m: Option<&bit_vec::BitVec>,
    ops: &mut Vec<VecOp>,
) -> (res: Result<BufferRef, PlanError>)
    requires
        b.wf(),
        plan_ok(old(ops)@, *b, mask_model(m)),
        plan_regex_ok(old(ops)@),
        *e matches Expr::Func(ff, ll, rr) && ff == FuncType::Equals && ll == *l && rr == *r,
        !is_const_int(**r) && !is_const_int(**l),
        is_const_str(**r) || is_const_str(**l),
    ensures
        final(ops)@.len() >= old(ops)@.len(),
        final(ops)@.take(old(ops)@.len() as int) =~= old(ops)@,
        plan_ok(final(ops)@, *b, mask_model(m)),
        plan_regex_ok(final(ops)@),
        res matches Ok(s) ==> s.idx < final(ops)@.len() && (denote_plan(
            final(ops)@,
            *b,
            mask_model(m),
        )[s.idx as int] matches Some(t) && compiled_matches(t, *e, *b, false, mask_model(m))),
        res is Ok <==> plannable(*e, *b, false),
    decreases e, 0nat,
{
    let ghost mm = mask_model(m);
    let str_side: Option<(&Expr, &String)> = if let Expr::Const(ValueType::Str(cc)) = &**r {
        Some((&**l, cc))
    } else if let Expr::Const(ValueType::Str(cc)) = &**l {
        Some((&**r, cc))
    } else {
        None
    };
    if let Some((vec_e, cs)) = str_side {
        if let Expr::Const(_) = vec_e {
            return Err(PlanError::Unsupported);
        }
        match vec_e.ety_of(b) {
            Some(ETy::EStr) => {},
            _ => {
                return Err(PlanError::TypeMismatch);
            },
        }
        let ghost len0 = ops@.len();
        let vslot = match compile_expr(vec_e, b, false, m, ops) {
            Ok(s) => s,
            Err(er) => {
                return Err(er);
            },
        };
        let ghost env1 = denote_plan(ops@, *b, mm);
        let ghost tv = match env1[vslot.idx as int] {
            Some(t) => t,
            None => TVM::Nulls(0),
        };
        let cop = VecOp::ConstLoad { val: RawVal::Str(cs.clone()) };
        proof {
            lemma_denote_len(ops@, *b, mm);
            assert(slot(env1, vslot) == Some(tv));
            lemma_plan_ok_push(ops@, cop, *b, mm);
        }
        let cslot = BufferRef { idx: ops.len() };
        ops.push(cop);
        let out = BufferRef { idx: ops.len() };
        let eop = VecOp::EqualsStrVS(VecConstBoolOperator::new(vslot, cslot, out));
        proof {
            let env2 = denote_plan(ops@, *b, mm);
            lemma_denote_len(ops@, *b, mm);
            assert(slot(env2, vslot) == Some(tv));
            assert(slot(env2, cslot) == Some(TVM::ConstV(RVal::S(cs@))));
            lemma_plan_ok_push(ops@, eop, *b, mm);
        }
        ops.push(eop);
        proof {
            let envf = denote_plan(ops@, *b, mm);
            if let TVM::Strs(ss) = tv {
                assert(ss == full_strs(*vec_e, *b));
                assert(ss.len() == b.len_spec());
                if let Some(TVM::Bools(bs2)) = envf[out.idx as int] {
                    assert forall|i: int| 0 <= i < bs2.len() implies bs2[i] == e.eval_bool(
                        *b,
                        i,
                    ) by {
                        assert(bs2[i] == (ss[i] == cs@));
                        assert(ss[i] == vec_e.eval_str(*b, i));
                        if let Expr::Func(ff, ll, rr) = e {
                            assert(ll.etype(*b) != Some(ETy::EInt));
                            assert(e.eval_bool(*b, i) == (ll.eval_str(*b, i) == rr.eval_str(
                                *b,
                                i,
                            )));
                        }
                    }
                    assert(bs2 =~= full_bools(*e, *b));
                }
            }
            assert(compiled_matches(envf[out.idx as int].unwrap(), *e, *b, false, mm));
            assert(ops@.take(len0 as int) =~= old(ops)@);
        }
        return Ok(out);
    }
    proof {
        assert(false);
    }
    unreached()
}

/// Lowers an equality against a constant. For an offset-encoded column
/// the constant is re-encoded and compared against raw codes without
/// decoding; a constant outside the code range becomes a constant-false
/// mask without comparing.
fn compile_equals(
    e: &Expr,
    l: &Box<Expr>,
    r: &Box<Expr>,
    b: &Batch,
    masked: bool,
    m: Option<&bit_vec::BitVec>,
    ops: &mut Vec<VecOp>,
) -> (res: Result<BufferRef, PlanError>)
    requires
        b.wf(),
        plan_ok(old(ops)@, *b, mask_model(m)),
        plan_regex_ok(old(ops)@),
        masked ==> m is Some && mask_or_empty(mask_model(m)).len() == b.len_spec(),
        *e matches Expr::Func(ff, ll, rr) && ff == FuncType::Equals && ll == *l && rr == *r,
    ensures
        final(ops)@.len() >= old(ops)@.len(),
        final(ops)@.take(old(ops)@.len() as int) =~= old(ops)@,
        plan_ok(final(ops)@, *b, mask_model(m)),
        plan_regex_ok(final(ops)@),
        res matches Ok(s) ==> s.idx < final(ops)@.len() && (denote_plan(
            final(ops)@,
            *b,
            mask_model(m),
        )[s.idx as int] matches Some(t) && compiled_matches(t, *e, *b, masked, mask_model(m))),
        res is Ok <==> plannable(*e, *b, masked),
    decreases e, 1nat,
{
    if masked {
        return Err(PlanError::Unsupported);
    }
    let r_is_ci = matches!(&**r, Expr::Const(ValueType::Integer(_)));
    let l_is_ci = matches!(&**l, Expr::Const(ValueType::Integer(_)));
    if r_is_ci || l_is_ci {
        return compile_equals_int(e, l, r, b, m, ops);
    }
    let r_is_cs = matches!(&**r, Expr::Const(ValueType::Str(_)));
    let l_is_cs = matches!(&**l, Expr::Const(ValueType::Str(_)));
    if r_is_cs || l_is_cs {
        return compile_equals_str(e, l, r, b, m, ops);
    }
    Err(PlanError::Unsupported)
}

/// Lowers an ordering comparison against a constant: decode, then the
/// matching kernel (flipped when the constant is on the left).
#[verifier::rlimit(30)]
fn compile_ordering(
    e: &Expr,
    f: &FuncType,
    l: &Box<Expr>,
    r: &Box<Expr>,
    b: &Batch,
    masked: bool,
    m: Option<&bit_vec::BitVec>,
    ops: &mut Vec<VecOp>,
) -> (res: Result<BufferRef, PlanError>)
    requires
        b.wf(),
        plan_ok(old(ops)@, *b, mask_model(m)),
        plan_regex_ok(old(ops)@),
        masked ==> m is Some && mask_or_empty(mask_model(m)).len() == b.len_spec(),
        *e matches Expr::Func(ff, ll, rr) && ff == *f && ll == *l && rr == *r,
        *f == FuncType::LT || *f == FuncType::GT,
    ensures
        final(ops)@.len() >= old(ops)@.len(),
        final(ops)@.take(old(ops)@.len() as int) =~= old(ops)@,
        plan_ok(final(ops)@, *b, mask_model(m)),
        plan_regex_ok(final(ops)@),
        res matches Ok(s) ==> s.idx < final(ops)@.len() && (denote_plan(
            final(ops)@,
            *b,
            mask_model(m),
        )[s.idx as int] matches Some(t) && compiled_matches(t, *e, *b, masked, mask_model(m))),
        res is Ok <==> plannable(*e, *b, masked),
    decreases e, 0nat,
{
    let ghost mm = mask_model(m);
    if masked {
        return Err(PlanError::Unsupported);
    }
    let (vec_e, c, vec_left): (&Expr, i64, bool) = if let Expr::Const(ValueType::Integer(cc)) =
        &**r {
        (&**l, *cc, true)
    } else if let Expr::Const(ValueType::Integer(cc)) = &**l {
        (&**r, *cc, false)
    } else {
        return Err(PlanError::Unsupported);
    };
    if let Expr::Const(_) = vec_e {
        return Err(PlanError::Unsupported);
    }
    match vec_e.ety_of(b) {
        Some(ETy::EInt) => {},
        _ => {
            return Err(PlanError::TypeMismatch);
        },
    }
    let ghost len0 = ops@.len();
    let vslot = match compile_expr(vec_e, b, false, m, ops) {
        Ok(s) => s,
        Err(er) => {
            return Err(er);
        },
    };
    let ghost env1 = denote_plan(ops@, *b, mm);
    let ghost tv = match env1[vslot.idx as int] {
        Some(t) => t,
        None => TVM::Nulls(0),
    };
    let dop = VecOp::Decode { input: vslot };
    proof {
        lemma_denote_len(ops@, *b, mm);
        assert(slot(env1, vslot) == Some(tv));
        lemma_plan_ok_push(ops@, dop, *b, mm);
    }
    let dslot = BufferRef { idx: ops.len() };
    ops.push(dop);
    let cop = VecOp::ConstLoad { val: RawVal::Int(c) };
    proof {
        lemma_plan_ok_push(ops@, cop, *b, mm);
    }
    let cslot = BufferRef { idx: ops.len() };
    ops.push(cop);
    let out = BufferRef { idx: ops.len() };
    let is_lt = matches!(f, FuncType::LT);
    // `col < c` keeps the kernel; `c < col` flips to greater-than
    let use_less = (is_lt && vec_left) || (!is_lt && !vec_left);
    let kop = if use_less {
        VecOp::LessThanIntVS(VecConstBoolOperator::new(dslot, cslot, out))
    } else {
        VecOp::GreaterThanIntVS(VecConstBoolOperator::new(dslot, cslot, out))
    };
    proof {
        let env3 = denote_plan(ops@, *b, mm);
        lemma_denote_len(ops@, *b, mm);
        assert(slot(env3, dslot) == Some(TVM::Ints(tv.ints())));
        assert(slot(env3, cslot) == Some(TVM::ConstV(RVal::I(c))));
        lemma_plan_ok_push(ops@, kop, *b, mm);
    }
    ops.push(kop);
    proof {
        let envf = denote_plan(ops@, *b, mm);
        let s = tv.ints();
        assert(s == full_ints(*vec_e, *b));
        if use_less {
            assert(envf[out.idx as int] == Some(TVM::Bools(Seq::new(s.len(), |i: int| s[i] < c))));
            assert(Seq::new(s.len(), |i: int| s[i] < c) =~= full_bools(*e, *b));
        } else {
            assert(envf[out.idx as int] == Some(TVM::Bools(Seq::new(s.len(), |i: int| s[i] > c))));
            assert(Seq::new(s.len(), |i: int| s[i] > c) =~= full_bools(*e, *b));
        }
        assert(compiled_matches(envf[out.idx as int].unwrap(), *e, *b, masked, mm));
        assert(ops@.take(len0 as int) =~= old(ops)@);
    }
    Ok(out)
}

/// Lowers a conjunction or disjunction of two masks; a constant boolean
/// side becomes a broadcast mask.
#[verifier::rlimit(30)]
fn compile_boolean(
    e: &Expr,
    f: &FuncType,
    l: &Box<Expr>,
    r: &Box<Expr>,
    b: &Batch,
    masked: bool,
    m: Option<&bit_vec::BitVec>,
    ops: &mut Vec<VecOp>,
) -> (res: Result<BufferRef, PlanError>)
    requires
        b.wf(),
        plan_ok(old(ops)@, *b, mask_model(m)),
        plan_regex_ok(old(ops)@),
        masked ==> m is Some && mask_or_empty(mask_model(m)).len() == b.len_spec(),
        *e matches Expr::Func(ff, ll, rr) && ff == *f && ll == *l && rr == *r,
        *f == FuncType::And || *f == FuncType::Or,
    ensures
        final(ops)@.len() >= old(ops)@.len(),
        final(ops)@.take(old(ops)@.len() as int) =~= old(ops)@,
        plan_ok(final(ops)@, *b, mask_model(m)),
        plan_regex_ok(final(ops)@),
        res matches Ok(s) ==> s.idx < final(ops)@.len() && (denote_plan(
            final(ops)@,
            *b,
            mask_model(m),
        )[s.idx as int] matches Some(t) && compiled_matches(t, *e, *b, masked, mask_model(m))),
        res is Ok <==> plannable(*e, *b, masked),
    decreases e, 0nat,
{
    let ghost mm = mask_model(m);
    if masked {
        return Err(PlanError::Unsupported);
    }
    let is_and = matches!(f, FuncType::And);
    let ghost len0 = ops@.len();
    // a constant boolean side broadcasts over the other side's mask
    let const_side: Option<(bool, bool)> = if let Expr::Const(ValueType::Bool(bv)) = &**l {
        Some((*bv, true))
    } else if let Expr::Const(ValueType::Bool(bv)) = &**r {
        Some((*bv, false))
    } else {
        None
    };
    if let Some((bv, const_left)) = const_side {
        let vec_e: &Expr = if const_left {
            &**r
        } else {
            &**l
        };
        if let Expr::Const(_) = vec_e {
            return Err(PlanError::Unsupported);
        }
        match vec_e.ety_of(b) {
            Some(ETy::EBool) => {},
            _ => {
                return Err(PlanError::TypeMismatch);
            },
        }
        let vslot = match compile_expr(vec_e, b, false, m, ops) {
            Ok(s) => s,
            Err(er) => {
                return Err(er);
            },
        };
        let ghost env1 = denote_plan(ops@, *b, mm);
        let ghost tv = match env1[vslot.idx as int] {
            Some(t) => t,
            None => TVM::Nulls(0),
        };
        let bop = VecOp::BoolBroadcast { input: vslot, value: bv };
        proof {
            lemma_denote_len(ops@, *b, mm);
            assert(slot(env1, vslot) == Some(tv));
            lemma_plan_ok_push(ops@, bop, *b, mm);
        }
        let bslot = BufferRef { idx: ops.len() };
        ops.push(bop);
        let out = BufferRef { idx: ops.len() };
        let kop = if is_and {
            VecOp::AndBV { lhs: bslot, rhs: vslot }
        } else {
            VecOp::OrBV { lhs: bslot, rhs: vslot }
        };
        proof {
            let env2 = denote_plan(ops@, *b, mm);
            lemma_denote_len(ops@, *b, mm);
            assert(slot(env2, vslot) == Some(tv));
            assert(slot(env2, bslot) == Some(
                TVM::Bools(Seq::new(tv.len_spec(), |_i: int| bv)),
            ));
            lemma_plan_ok_push(ops@, kop, *b, mm);
        }
        ops.push(kop);
        proof {
            let envf = denote_plan(ops@, *b, mm);
            if let TVM::Bools(bs) = tv {
                let bc = Seq::new(bs.len(), |_i: int| bv);
                assert(compiled_matches(tv, *vec_e, *b, false, mm));
                assert(bs == full_bools(*vec_e, *b));
                assert(bs.len() == b.len_spec());
                if is_and {
                    assert(envf[out.idx as int] == Some(TVM::Bools(and_seq(bc, bs))));
                    assert forall|i: int| 0 <= i < bs.len() implies and_seq(bc, bs)[i]
                        == full_bools(*e, *b)[i] by {
                        assert(bs[i] == vec_e.eval_bool(*b, i));
                        if const_left {
                            assert(l.eval_bool(*b, i) == bv);
                            assert(r.eval_bool(*b, i) == bs[i]);
                        } else {
                            assert(r.eval_bool(*b, i) == bv);
                            assert(l.eval_bool(*b, i) == bs[i]);
                        }
                        assert(e.eval_bool(*b, i) == (l.eval_bool(*b, i) && r.eval_bool(*b, i)));
                        assert(and_seq(bc, bs)[i] == (bc[i] && bs[i]));
                        assert(bc[i] == bv);
                        assert(full_bools(*e, *b)[i] == e.eval_bool(*b, i));
                    }
                    assert(and_seq(bc, bs) =~= full_bools(*e, *b));
                } else {
                    assert(envf[out.idx as int] == Some(TVM::Bools(or_seq(bc, bs))));
                    assert forall|i: int| 0 <= i < bs.len() implies or_seq(bc, bs)[i]
                        == full_bools(*e, *b)[i] by {
                        assert(bs[i] == vec_e.eval_bool(*b, i));
                        if const_left {
                            assert(l.eval_bool(*b, i) == bv);
                            assert(r.eval_bool(*b, i) == bs[i]);
                        } else {
                            assert(r.eval_bool(*b, i) == bv);
                            assert(l.eval_bool(*b, i) == bs[i]);
                        }
                        assert(e.eval_bool(*b, i) == (l.eval_bool(*b, i) || r.eval_bool(*b, i)));
                        assert(or_seq(bc, bs)[i] == (bc[i] || bs[i]));
                        assert(bc[i] == bv);
                        assert(full_bools(*e, *b)[i] == e.eval_bool(*b, i));
                    }
                    assert(or_seq(bc, bs) =~= full_bools(*e, *b));
                }
            }
            assert(compiled_matches(envf[out.idx as int].unwrap(), *e, *b, masked, mm));
            assert(ops@.take(len0 as int) =~= old(ops)@);
        }
        return Ok(out);
    }
    match l.ety_of(b) {
        Some(ETy::EBool) => {},
        _ => {
            return Err(PlanError::TypeMismatch);
        },
    }
    match r.ety_of(b) {
        Some(ETy::EBool) => {},
        _ => {
            return Err(PlanError::TypeMismatch);
        },
    }
    let sl = match compile_expr(l, b, false, m, ops) {
        Ok(s) => s,
        Err(er) => {
            return Err(er);
        },
    };
    let ghost opsl = ops@;
    let sr = match compile_expr(r, b, false, m, ops) {
        Ok(s) => s,
        Err(er) => {
            return Err(er);
        },
    };
    let ghost env2 = denote_plan(ops@, *b, mm);
    let ghost tl = match env2[sl.idx as int] {
        Some(t) => t,
        None => TVM::Nulls(0),
    };
    let ghost tr = match env2[sr.idx as int] {
        Some(t) => t,
        None => TVM::Nulls(0),
    };
    let out = BufferRef { idx: ops.len() };
    let kop = if is_and {
        VecOp::AndBV { lhs: sl, rhs: sr }
    } else {
        VecOp::OrBV { lhs: sl, rhs: sr }
    };
    proof {
        lemma_denote_len(ops@, *b, mm);
        lemma_denote_len(opsl, *b, mm);
        lemma_denote_frame(opsl, ops@, *b, mm, sl.idx as int);
        assert(env2[sl.idx as int] == denote_plan(opsl, *b, mm)[sl.idx as int]);
        assert(slot(env2, sl) == Some(tl));
        assert(slot(env2, sr) == Some(tr));
        lemma_plan_ok_push(ops@, kop, *b, mm);
    }
    ops.push(kop);
    proof {
        let envf = denote_plan(ops@, *b, mm);
        if let TVM::Bools(bl) = tl {
            if let TVM::Bools(br) = tr {
                assert(bl == full_bools(**l, *b));
                assert(br == full_bools(**r, *b));
                assert(bl.len() == b.len_spec());
                if is_and {
                    assert(envf[out.idx as int] == Some(TVM::Bools(and_seq(bl, br))));
                    assert forall|i: int| 0 <= i < bl.len() implies and_seq(bl, br)[i]
                        == full_bools(*e, *b)[i] by {
                        assert(bl[i] == l.eval_bool(*b, i));
                        assert(br[i] == r.eval_bool(*b, i));
                        assert(e.eval_bool(*b, i) == (l.eval_bool(*b, i) && r.eval_bool(*b, i)));
                        assert(and_seq(bl, br)[i] == (bl[i] && br[i]));
                        assert(full_bools(*e, *b)[i] == e.eval_bool(*b, i));
                    }
                    assert(and_seq(bl, br) =~= full_bools(*e, *b));
                } else {
                    assert(envf[out.idx as int] == Some(TVM::Bools(or_seq(bl, br))));
                    assert forall|i: int| 0 <= i < bl.len() implies or_seq(bl, br)[i]
                        == full_bools(*e, *b)[i] by {
                        assert(bl[i] == l.eval_bool(*b, i));
                        assert(br[i] == r.eval_bool(*b, i));
                        assert(e.eval_bool(*b, i) == (l.eval_bool(*b, i) || r.eval_bool(*b, i)));
                        assert(or_seq(bl, br)[i] == (bl[i] || br[i]));
                        assert(full_bools(*e, *b)[i] == e.eval_bool(*b, i));
                    }
                    assert(or_seq(bl, br) =~= full_bools(*e, *b));
                }
            }
        }
        assert(compiled_matches(envf[out.idx as int].unwrap(), *e, *b, masked, mm));
        assert(ops@.take(len0 as int) =~= old(ops)@);
    }
    Ok(out)
}

/// Lowers a regex match of a string run against a constant pattern,
/// compiled once per plan; an invalid pattern is a plan error.
#[verifier::rlimit(30)]
fn compile_regex(
    e: &Expr,
    l: &Box<Expr>,
    r: &Box<Expr>,
    b: &Batch,
    masked: bool,
    m: Option<&bit_vec::BitVec>,
    ops: &mut Vec<VecOp>,
) -> (res: Result<BufferRef, PlanError>)
    requires
        b.wf(),
        plan_ok(old(ops)@, *b, mask_model(m)),
        plan_regex_ok(old(ops)@),
        masked ==> m is Some && mask_or_empty(mask_model(m)).len() == b.len_spec(),
        *e matches Expr::Func(ff, ll, rr) && ff == FuncType::RegexMatch && ll == *l && rr == *r,
    ensures
        final(ops)@.len() >= old(ops)@.len(),
        final(ops)@.take(old(ops)@.len() as int) =~= old(ops)@,
        plan_ok(final(ops)@, *b, mask_model(m)),
        plan_regex_ok(final(ops)@),
        res matches Ok(s) ==> s.idx < final(ops)@.len() && (denote_plan(
            final(ops)@,
            *b,
            mask_model(m),
        )[s.idx as int] matches Some(t) && compiled_matches(t, *e, *b, masked, mask_model(m))),
        res is Ok <==> plannable(*e, *b, masked),
    decreases e, 0nat,
{
    let ghost mm = mask_model(m);
    if masked {
        return Err(PlanError::Unsupported);
    }
    let pat: &String = if let Expr::Const(ValueType::Str(p)) = &**r {
        p
    } else {
        return Err(PlanError::Unsupported);
    };
    if !regex_check(pat.as_str()) {
        return Err(PlanError::BadRegex);
    }
    let vec_e: &Expr = &**l;
    if let Expr::Const(_) = vec_e {
        return Err(PlanError::Unsupported);
    }
    match vec_e.ety_of(b) {
        Some(ETy::EStr) => {},
        _ => {
            return Err(PlanError::TypeMismatch);
        },
    }
    let ghost len0 = ops@.len();
    let vslot = match compile_expr(vec_e, b, false, m, ops) {
        Ok(s) => s,
        Err(er) => {
            return Err(er);
        },
    };
    let ghost env1 = denote_plan(ops@, *b, mm);
    let ghost tv = match env1[vslot.idx as int] {
        Some(t) => t,
        None => TVM::Nulls(0),
    };
    let out = BufferRef { idx: ops.len() };
    let rop = VecOp::RegexMatchVec { input: vslot, pattern: pat.clone() };
    proof {
        lemma_denote_len(ops@, *b, mm);
        assert(slot(env1, vslot) == Some(tv));
        lemma_plan_ok_push(ops@, rop, *b, mm);
    }
    ops.push(rop);
    proof {
        let envf = denote_plan(ops@, *b, mm);
        if let TVM::Strs(ss) = tv {
            assert(envf[out.idx as int] == Some(
                TVM::Bools(Seq::new(ss.len(), |i: int| regex_match_of(pat@, ss[i]))),
            ));
            assert(ss == full_strs(*vec_e, *b));
            assert(Seq::new(ss.len(), |i: int| regex_match_of(pat@, ss[i])) =~= full_bools(
                *e,
                *b,
            ));
        }
        assert(compiled_matches(envf[out.idx as int].unwrap(), *e, *b, masked, mm));
        assert(ops@.take(len0 as int) =~= old(ops)@);
    }
    Ok(out)
}

/// Lowers a negation: decode, then wrapping negate.
#[verifier::rlimit(30)]
fn compile_negate(
    e: &Expr,
    l: &Box<Expr>,
    r: &Box<Expr>,
    b: &Batch,
    masked: bool,
    m: Option<&bit_vec::BitVec>,
    ops: &mut Vec<VecOp>,
) -> (res: Result<BufferRef, PlanError>)
    requires
        b.wf(),
        plan_ok(old(ops)@, *b, mask_model(m)),
        plan_regex_ok(old(ops)@),
        masked ==> m is Some && mask_or_empty(mask_model(m)).len() == b.len_spec(),
        *e matches Expr::Func(ff, ll, rr) && ff == FuncType::Negate && ll == *l && rr == *r,
    ensures
        final(ops)@.len() >= old(ops)@.len(),
        final(ops)@.take(old(ops)@.len() as int) =~= old(ops)@,
        plan_ok(final(ops)@, *b, mask_model(m)),
        plan_regex_ok(final(ops)@),
        res matches Ok(s) ==> s.idx < final(ops)@.len() && (denote_plan(
            final(ops)@,
            *b,
            mask_model(m),
        )[s.idx as int] matches Some(t) && compiled_matches(t, *e, *b, masked, mask_model(m))),
        res is Ok <==> plannable(*e, *b, masked),
    decreases e, 0nat,
{
    let ghost mm = mask_model(m);
    let vec_e: &Expr = &**l;
    if let Expr::Const(_) = vec_e {
        return Err(PlanError::Unsupported);
    }
    match vec_e.ety_of(b) {
        Some(ETy::EInt) => {},
        _ => {
            return Err(PlanError::TypeMismatch);
        },
    }
    let ghost len0 = ops@.len();
    let vslot = match compile_expr(vec_e, b, masked, m, ops) {
        Ok(s) => s,
        Err(er) => {
            return Err(er);
        },
    };
    let ghost env1 = denote_plan(ops@, *b, mm);
    let ghost tv = match env1[vslot.idx as int] {
        Some(t) => t,
        None => TVM::Nulls(0),
    };
    let dop = VecOp::Decode { input: vslot };
    proof {
        lemma_denote_len(ops@, *b, mm);
        assert(slot(env1, vslot) == Some(tv));
        lemma_plan_ok_push(ops@, dop, *b, mm);
    }
    let dslot = BufferRef { idx: ops.len() };
    ops.push(dop);
    let nop = VecOp::NegateVec { input: dslot };
    proof {
        let env2 = denote_plan(ops@, *b, mm);
        lemma_denote_len(ops@, *b, mm);
        assert(slot(env2, dslot) == Some(TVM::Ints(tv.ints())));
        lemma_plan_ok_push(ops@, nop, *b, mm);
    }
    let out = BufferRef { idx: ops.len() };
    ops.push(nop);
    proof {
        let envf = denote_plan(ops@, *b, mm);
        let s = tv.ints();
        let g = |x: int| wrap64(-x);
        let fi = full_ints(*vec_e, *b);
        assert(envf[out.idx as int] == Some(TVM::Ints(Seq::new(s.len(), |i: int| wrap64(-s[i])))));
        assert(Seq::new(s.len(), |i: int| wrap64(-s[i])) =~= s.map_values(g));
        assert forall|i: int| 0 <= i < fi.len() implies full_ints(*e, *b)[i] == fi.map_values(
            g,
        )[i] by {
            assert(e.eval_int(*b, i) == wrap64(-(l.eval_int(*b, i))));
            assert(fi[i] == vec_e.eval_int(*b, i));
        }
        assert(full_ints(*e, *b) =~= fi.map_values(g));
        if masked {
            lemma_filter_map_commute(fi, mask_or_empty(mm), g);
            assert(sel(full_ints(*e, *b), masked, mm) =~= s.map_values(g));
        } else {
            assert(sel(full_ints(*e, *b), masked, mm) =~= s.map_values(g));
        }
        assert(compiled_matches(envf[out.idx as int].unwrap(), *e, *b, masked, mm));
        assert(ops@.take(len0 as int) =~= old(ops)@);
    }
    Ok(out)
}

} // verus!
