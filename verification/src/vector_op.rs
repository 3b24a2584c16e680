//! The vector operators: the execution primitives a query plan is made
//! of, their exact denotational semantics over scratchpad models, and
//! the plan executor.
//!
//! A plan is a list of operators; operator `k` reads slots below `k`
//! and writes slot `k`. `denote_plan` gives the meaning of every slot;
//! `execute_plan` computes exactly that meaning.

use vstd::prelude::*;

use core::marker::PhantomData;

use crate::bits::{bits_of, bv_and, bv_get, bv_len, bv_new, bv_or, bv_push};
use crate::column::{Batch, ColData};
use crate::expr::wrap64;
use crate::regexes::{regex_match, regex_match_of, regex_valid};
use crate::scratchpad::{BufferRef, Scratchpad};
use crate::typed_vec::{and_seq, or_seq, tvm_filtered, TypedVec, TVM};
use crate::val::{RVal, RawVal};

verus! {

/// A scalar comparison kernel: one row value against one constant.
pub trait BoolOperation<T, U> {
    spec fn perform_spec(l: T, r: U) -> bool;

    fn perform(l: &T, r: &U) -> (b: bool)
        ensures
            b == Self::perform_spec(*l, *r),
    ;
}

/// `row < constant` over decoded integers.
pub struct LessThanInt;

impl BoolOperation<i64, i64> for LessThanInt {
    open spec fn perform_spec(l: i64, r: i64) -> bool {
        l < r
    }

    fn perform(l: &i64, r: &i64) -> bool {
        *l < *r
    }
}

/// `row > constant` over decoded integers.
pub struct GreaterThanInt;

impl BoolOperation<i64, i64> for GreaterThanInt {
    open spec fn perform_spec(l: i64, r: i64) -> bool {
        l > r
    }

    fn perform(l: &i64, r: &i64) -> bool {
        *l > *r
    }
}

/// `row == constant` over decoded integers.
pub struct EqualsInt;

impl BoolOperation<i64, i64> for EqualsInt {
    open spec fn perform_spec(l: i64, r: i64) -> bool {
        l == r
    }

    fn perform(l: &i64, r: &i64) -> bool {
        *l == *r
    }
}

/// `row == constant` in the encoded domain, one impl per code width.
pub struct Equals;

impl BoolOperation<u8, u8> for Equals {
    open spec fn perform_spec(l: u8, r: u8) -> bool {
        l == r
    }

    fn perform(l: &u8, r: &u8) -> bool {
        *l == *r
    }
}

impl BoolOperation<u16, u16> for Equals {
    open spec fn perform_spec(l: u16, r: u16) -> bool {
        l == r
    }

    fn perform(l: &u16, r: &u16) -> bool {
        *l == *r
    }
}

impl BoolOperation<u32, u32> for Equals {
    open spec fn perform_spec(l: u32, r: u32) -> bool {
        l == r
    }

    fn perform(l: &u32, r: &u32) -> bool {
        *l == *r
    }
}

/// `row == constant` over strings.
pub struct EqualsString;

impl BoolOperation<String, String> for EqualsString {
    open spec fn perform_spec(l: String, r: String) -> bool {
        l@ == r@
    }

    fn perform(l: &String, r: &String) -> bool {
        l.eq(r)
    }
}

/// Adds a constant to every row of a decoded integer run, wrapping.
#[derive(Clone, Copy, PartialEq, Eq, Structural, Debug)]
pub struct AdditionVS {
    pub lhs: BufferRef,
    pub rhs: BufferRef,
    pub output: BufferRef,
}

impl AdditionVS {
    pub fn new(lhs: BufferRef, rhs: BufferRef, output: BufferRef) -> (r: AdditionVS)
        ensures
            r == (AdditionVS { lhs, rhs, output }),
    {
        AdditionVS { lhs, rhs, output }
    }

    pub fn inputs(&self) -> (r: Vec<BufferRef>)
        ensures
            r@ == seq![self.lhs, self.rhs],
    {
        let mut r = Vec::new();
        r.push(self.lhs);
        r.push(self.rhs);
        proof {
            assert(r@ =~= seq![self.lhs, self.rhs]);
        }
        r
    }

    pub fn outputs(&self) -> (r: Vec<BufferRef>)
        ensures
            r@ == seq![self.output],
    {
        let mut r = Vec::new();
        r.push(self.output);
        proof {
            assert(r@ =~= seq![self.output]);
        }
        r
    }

    pub fn can_stream_input(&self) -> bool {
        true
    }

    pub fn can_stream_output(&self) -> bool {
        true
    }

    pub fn allocates(&self) -> bool {
        true
    }
}

/// Compares every row of a run against a constant with kernel `Op`,
/// producing a boolean mask.
pub struct VecConstBoolOperator<T, U, Op> {
    pub lhs: BufferRef,
    pub rhs: BufferRef,
    pub output: BufferRef,
    pub t: PhantomData<T>,
    pub u: PhantomData<U>,
    pub op: PhantomData<Op>,
}

impl<T, U, Op> VecConstBoolOperator<T, U, Op> {
    pub fn new(lhs: BufferRef, rhs: BufferRef, output: BufferRef) -> (r: VecConstBoolOperator<
        T,
        U,
        Op,
    >)
        ensures
            r.lhs == lhs,
            r.rhs == rhs,
            r.output == output,
    {
        VecConstBoolOperator { lhs, rhs, output, t: PhantomData, u: PhantomData, op: PhantomData }
    }

    pub fn inputs(&self) -> (r: Vec<BufferRef>)
        ensures
            r@ == seq![self.lhs, self.rhs],
    {
        let mut r = Vec::new();
        r.push(self.lhs);
        r.push(self.rhs);
        proof {
            assert(r@ =~= seq![self.lhs, self.rhs]);
        }
        r
    }

    pub fn outputs(&self) -> (r: Vec<BufferRef>)
        ensures
            r@ == seq![self.output],
    {
        let mut r = Vec::new();
        r.push(self.output);
        proof {
            assert(r@ =~= seq![self.output]);
        }
        r
    }

    pub fn can_stream_input(&self) -> bool {
        true
    }

    pub fn can_stream_output(&self) -> bool {
        true
    }

    pub fn allocates(&self) -> bool {
        true
    }
}

/// One vector operator of a plan. Each writes the slot whose index is
/// its position in the plan.
pub enum VecOp {
    /// Materializes a column, encoded; compacted by the execution mask
    /// when `masked`.
    ColumnScan { col: usize, masked: bool },
    /// Installs a row-independent constant.
    ConstLoad { val: RawVal },
    /// Decodes an integer-valued run to plain `i64`.
    Decode { input: BufferRef },
    /// Adds the constant in `rhs` to the decoded run in `lhs`.
    Addition(AdditionVS),
    /// Adds two decoded runs of equal length, wrapping.
    AdditionVV { lhs: BufferRef, rhs: BufferRef },
    LessThanIntVS(VecConstBoolOperator<i64, i64, LessThanInt>),
    GreaterThanIntVS(VecConstBoolOperator<i64, i64, GreaterThanInt>),
    EqualsIntVS(VecConstBoolOperator<i64, i64, EqualsInt>),
    /// Equality against a constant in the encoded domain, without
    /// decoding; a constant outside the code range matches nothing.
    EqualsCodeVS(VecConstBoolOperator<u32, u32, Equals>),
    EqualsStrVS(VecConstBoolOperator<String, String, EqualsString>),
    /// Pointwise conjunction of two masks.
    AndBV { lhs: BufferRef, rhs: BufferRef },
    /// Pointwise disjunction of two masks.
    OrBV { lhs: BufferRef, rhs: BufferRef },
    /// Wrapping negation of a decoded run.
    NegateVec { input: BufferRef },
    /// Matches a fixed pattern against every row of a string run.
    RegexMatchVec { input: BufferRef, pattern: String },
    /// A mask of constant value, as long as the run in `input`.
    BoolBroadcast { input: BufferRef, value: bool },
    /// Copies the rows of `data` selected by the mask in `mask`,
    /// preserving the encoding.
    Filter { data: BufferRef, mask: BufferRef },
}

/// The encoded contents of a column as a runtime buffer.
pub open spec fn scan_tvm(c: ColData) -> TVM {
    match c {
        ColData::Plain(ic) => TVM::Ints(
            Seq::new(ic.values@.len(), |i: int| ic.values@[i] as int),
        ),
        ColData::Off8 { codes, offset } => TVM::Codes(
            Seq::new(codes@.len(), |i: int| codes@[i] as int),
            offset as int,
        ),
        ColData::Off16 { codes, offset } => TVM::Codes(
            Seq::new(codes@.len(), |i: int| codes@[i] as int),
            offset as int,
        ),
        ColData::Off32 { codes, offset } => TVM::Codes(
            Seq::new(codes@.len(), |i: int| codes@[i] as int),
            offset as int,
        ),
        ColData::Str(sc) => TVM::Strs(Seq::new(sc.codes@.len(), |i: int| sc.str_at(i))),
        ColData::Null(n) => TVM::Nulls(n as nat),
    }
}

/// The slot an operator input refers to, if it is filled.
pub open spec fn slot(env: Seq<Option<TVM>>, r: BufferRef) -> Option<TVM> {
    if r.idx < env.len() {
        env[r.idx as int]
    } else {
        None
    }
}

/// What one operator writes, given the filled slots below it, the
/// batch, and the execution mask. `None` is an ill-formed operator; the
/// planner only emits operators that denote.
pub open spec fn op_denote(op: VecOp, env: Seq<Option<TVM>>, b: Batch, m: Option<Seq<bool>>) -> Option<
    TVM,
> {
    match op {
        VecOp::ColumnScan { col, masked } => if col < b.cols@.len() {
            let t = scan_tvm(b.cols@[col as int].data);
            if masked {
                match m {
                    Some(mm) => if mm.len() == t.len_spec() {
                        Some(tvm_filtered(t, mm))
                    } else {
                        None
                    },
                    None => None,
                }
            } else {
                Some(t)
            }
        } else {
            None
        },
        VecOp::ConstLoad { val } => Some(TVM::ConstV(val@)),
        VecOp::Decode { input } => match slot(env, input) {
            Some(t) => if t.is_intish() {
                Some(TVM::Ints(t.ints()))
            } else {
                None
            },
            None => None,
        },
        VecOp::Addition(a) => match (slot(env, a.lhs), slot(env, a.rhs)) {
            (Some(TVM::Ints(s)), Some(TVM::ConstV(RVal::I(c)))) => Some(
                TVM::Ints(Seq::new(s.len(), |i: int| wrap64(s[i] + c))),
            ),
            _ => None,
        },
        VecOp::AdditionVV { lhs, rhs } => match (slot(env, lhs), slot(env, rhs)) {
            (Some(TVM::Ints(a)), Some(TVM::Ints(bb))) => if a.len() == bb.len() {
                Some(TVM::Ints(Seq::new(a.len(), |i: int| wrap64(a[i] + bb[i]))))
            } else {
                None
            },
            _ => None,
        },
        VecOp::LessThanIntVS(o) => match (slot(env, o.lhs), slot(env, o.rhs)) {
            (Some(TVM::Ints(s)), Some(TVM::ConstV(RVal::I(c)))) => Some(
                TVM::Bools(Seq::new(s.len(), |i: int| s[i] < c)),
            ),
            _ => None,
        },
        VecOp::GreaterThanIntVS(o) => match (slot(env, o.lhs), slot(env, o.rhs)) {
            (Some(TVM::Ints(s)), Some(TVM::ConstV(RVal::I(c)))) => Some(
                TVM::Bools(Seq::new(s.len(), |i: int| s[i] > c)),
            ),
            _ => None,
        },
        VecOp::EqualsIntVS(o) => match (slot(env, o.lhs), slot(env, o.rhs)) {
            (Some(TVM::Ints(s)), Some(TVM::ConstV(RVal::I(c)))) => Some(
                TVM::Bools(Seq::new(s.len(), |i: int| s[i] == c)),
            ),
            _ => None,
        },
        VecOp::EqualsCodeVS(o) => match (slot(env, o.lhs), slot(env, o.rhs)) {
            (Some(TVM::Codes(s, _)), Some(TVM::ConstV(RVal::I(c)))) => Some(
                TVM::Bools(Seq::new(s.len(), |i: int| s[i] == c)),
            ),
            _ => None,
        },
        VecOp::EqualsStrVS(o) => match (slot(env, o.lhs), slot(env, o.rhs)) {
            (Some(TVM::Strs(ss)), Some(TVM::ConstV(RVal::S(t)))) => Some(
                TVM::Bools(Seq::new(ss.len(), |i: int| ss[i] == t)),
            ),
            _ => None,
        },
        VecOp::AndBV { lhs, rhs } => match (slot(env, lhs), slot(env, rhs)) {
            (Some(TVM::Bools(a)), Some(TVM::Bools(bb))) => if a.len() == bb.len() {
                Some(TVM::Bools(and_seq(a, bb)))
            } else {
                None
            },
            _ => None,
        },
        VecOp::OrBV { lhs, rhs } => match (slot(env, lhs), slot(env, rhs)) {
            (Some(TVM::Bools(a)), Some(TVM::Bools(bb))) => if a.len() == bb.len() {
                Some(TVM::Bools(or_seq(a, bb)))
            } else {
                None
            },
            _ => None,
        },
        VecOp::NegateVec { input } => match slot(env, input) {
            Some(TVM::Ints(s)) => Some(TVM::Ints(Seq::new(s.len(), |i: int| wrap64(-s[i])))),
            _ => None,
        },
        VecOp::RegexMatchVec { input, pattern } => match slot(env, input) {
            Some(TVM::Strs(ss)) => Some(
                TVM::Bools(Seq::new(ss.len(), |i: int| regex_match_of(pattern@, ss[i]))),
            ),
            _ => None,
        },
        VecOp::BoolBroadcast { input, value } => match slot(env, input) {
            Some(TVM::ConstV(_)) => None,
            Some(t) => Some(TVM::Bools(Seq::new(t.len_spec(), |_i: int| value))),
            None => None,
        },
        VecOp::Filter { data, mask } => match (slot(env, data), slot(env, mask)) {
            (Some(t), Some(TVM::Bools(mm))) => if t matches TVM::ConstV(_) || t.len_spec()
                == mm.len() {
                Some(tvm_filtered(t, mm))
            } else {
                None
            },
            _ => None,
        },
    }
}

/// The meaning of every slot of a plan.
pub open spec fn denote_plan(ops: Seq<VecOp>, b: Batch, m: Option<Seq<bool>>) -> Seq<
    Option<TVM>,
>
    decreases ops.len(),
{
    if ops.len() == 0 {
        Seq::empty()
    } else {
        let prev = denote_plan(ops.drop_last(), b, m);
        prev.push(op_denote(ops.last(), prev, b, m))
    }
}

/// A plan is well formed when every operator denotes.
pub open spec fn plan_ok(ops: Seq<VecOp>, b: Batch, m: Option<Seq<bool>>) -> bool {
    forall|k: int| 0 <= k < ops.len() ==> (#[trigger] denote_plan(ops, b, m)[k]) is Some
}

/// Every regex pattern in a plan is valid; execution relies on it.
pub open spec fn plan_regex_ok(ops: Seq<VecOp>) -> bool {
    forall|k: int|
        0 <= k < ops.len() ==> ((#[trigger] ops[k]) matches VecOp::RegexMatchVec {
            pattern,
            ..
        } ==> regex_valid(pattern@))
}

/// The model of the execution mask.
pub open spec fn mask_model(m: Option<&bit_vec::BitVec>) -> Option<Seq<bool>> {
    match m {
        Some(bv) => Some(bits_of(*bv)),
        None => None,
    }
}

/// Denoting a prefix of a plan gives the prefix of the denotation.
pub proof fn lemma_denote_take(ops: Seq<VecOp>, b: Batch, m: Option<Seq<bool>>, k: int)
    requires
        0 <= k <= ops.len(),
    ensures
        denote_plan(ops.take(k), b, m) == denote_plan(ops, b, m).take(k),
        denote_plan(ops, b, m).len() == ops.len(),
    decreases ops.len(),
{
    lemma_denote_len(ops, b, m);
    if ops.len() == 0 {
        assert(denote_plan(ops.take(k), b, m) =~= denote_plan(ops, b, m).take(k));
    } else if k == ops.len() {
        assert(ops.take(k) =~= ops);
        assert(denote_plan(ops, b, m).take(k) =~= denote_plan(ops, b, m));
    } else {
        lemma_denote_take(ops.drop_last(), b, m, k);
        assert(ops.take(k) =~= ops.drop_last().take(k));
        lemma_denote_len(ops.drop_last(), b, m);
        assert(denote_plan(ops, b, m).take(k) =~= denote_plan(ops.drop_last(), b, m).take(k));
    }
}

/// A plan's denotation has one entry per operator.
pub proof fn lemma_denote_len(ops: Seq<VecOp>, b: Batch, m: Option<Seq<bool>>)
    ensures
        denote_plan(ops, b, m).len() == ops.len(),
    decreases ops.len(),
{
    if ops.len() > 0 {
        lemma_denote_len(ops.drop_last(), b, m);
    }
}

/// The slots of a scratchpad, all filled.
pub open spec fn filled(s: Seq<TVM>) -> Seq<Option<TVM>> {
    Seq::new(s.len(), |i: int| Some(s[i]))
}

/// Materializes a column as a runtime buffer, encoded form preserved.
fn scan_column(c: &ColData) -> (tv: TypedVec)
    requires
        c.wf(),
    ensures
        tv@ == scan_tvm(*c),
        tv.wf(),
{
    match c {
        ColData::Plain(ic) => {
            let n = ic.values.len();
            let mut out: Vec<i64> = Vec::new();
            let mut i: usize = 0;
            while i < n
                invariant
                    i <= n,
                    n == ic.values@.len(),
                    out@ == ic.values@.take(i as int),
                decreases n - i,
            {
                out.push(ic.values[i]);
                proof {
                    assert(out@ =~= ic.values@.take(i + 1));
                }
                i += 1;
            }
            proof {
                assert(ic.values@.take(n as int) =~= ic.values@);
            }
            TypedVec::Integer(out)
        },
        ColData::Off8 { codes, offset } => {
            let n = codes.len();
            let mut out: Vec<u8> = Vec::new();
            let mut i: usize = 0;
            while i < n
                invariant
                    i <= n,
                    n == codes@.len(),
                    out@ == codes@.take(i as int),
                decreases n - i,
            {
                out.push(codes[i]);
                proof {
                    assert(out@ =~= codes@.take(i + 1));
                }
                i += 1;
            }
            proof {
                assert(codes@.take(n as int) =~= codes@);
                assert(Seq::new(out@.len(), |i: int| out@[i] as int) =~= Seq::new(
                    codes@.len(),
                    |i: int| codes@[i] as int,
                ));
            }
            TypedVec::EncodedU8(out, *offset)
        },
        ColData::Off16 { codes, offset } => {
            let n = codes.len();
            let mut out: Vec<u16> = Vec::new();
            let mut i: usize = 0;
            while i < n
                invariant
                    i <= n,
                    n == codes@.len(),
                    out@ == codes@.take(i as int),
                decreases n - i,
            {
                out.push(codes[i]);
                proof {
                    assert(out@ =~= codes@.take(i + 1));
                }
                i += 1;
            }
            proof {
                assert(codes@.take(n as int) =~= codes@);
                assert(Seq::new(out@.len(), |i: int| out@[i] as int) =~= Seq::new(
                    codes@.len(),
                    |i: int| codes@[i] as int,
                ));
            }
            TypedVec::EncodedU16(out, *offset)
        },
        ColData::Off32 { codes, offset } => {
            let n = codes.len();
            let mut out: Vec<u32> = Vec::new();
            let mut i: usize = 0;
            while i < n
                invariant
                    i <= n,
                    n == codes@.len(),
                    out@ == codes@.take(i as int),
                decreases n - i,
            {
                out.push(codes[i]);
                proof {
                    assert(out@ =~= codes@.take(i + 1));
                }
                i += 1;
            }
            proof {
                assert(codes@.take(n as int) =~= codes@);
                assert(Seq::new(out@.len(), |i: int| out@[i] as int) =~= Seq::new(
                    codes@.len(),
                    |i: int| codes@[i] as int,
                ));
            }
            TypedVec::EncodedU32(out, *offset)
        },
        ColData::Str(sc) => {
            let n = sc.codes.len();
            let mut out: Vec<String> = Vec::new();
            let mut i: usize = 0;
            while i < n
                invariant
                    i <= n,
                    n == sc.codes@.len(),
                    sc.wf(),
                    out@.len() == i,
                    forall|j: int| 0 <= j < i ==> (#[trigger] out@[j])@ == sc.str_at(j),
                decreases n - i,
            {
                let code = sc.codes[i] as usize;
                out.push(sc.dict[code].clone());
                i += 1;
            }
            proof {
                assert(Seq::new(out@.len(), |i: int| out@[i]@) =~= Seq::new(
                    sc.codes@.len(),
                    |i: int| sc.str_at(i),
                ));
            }
            TypedVec::Str(out)
        },
        ColData::Null(n) => TypedVec::Empty(*n),
    }
}

/// A copy of a mask.
fn bv_clone(v: &bit_vec::BitVec) -> (r: bit_vec::BitVec)
    ensures
        bits_of(r) == bits_of(*v),
{
    let n = bv_len(v);
    let mut r = bv_new();
    let mut i: usize = 0;
    while i < n
        invariant
            i <= n,
            n == bits_of(*v).len(),
            bits_of(r) == bits_of(*v).take(i as int),
        decreases n - i,
    {
        if let Some(b) = bv_get(v, i) {
            bv_push(&mut r, b);
            proof {
                assert(bits_of(r) =~= bits_of(*v).take(i + 1));
            }
        }
        i += 1;
    }
    proof {
        assert(bits_of(*v).take(n as int) =~= bits_of(*v));
    }
    r
}

/// A mask of `n` copies of one value.
pub(crate) fn bool_fill(n: usize, value: bool) -> (r: bit_vec::BitVec)
    ensures
        bits_of(r) == Seq::new(n as nat, |_i: int| value),
{
    let mut r = bv_new();
    let mut i: usize = 0;
    while i < n
        invariant
            i <= n,
            bits_of(r) == Seq::new(i as nat, |_i: int| value),
        decreases n - i,
    {
        bv_push(&mut r, value);
        proof {
            assert(bits_of(r) =~= Seq::new((i + 1) as nat, |_i: int| value));
        }
        i += 1;
    }
    r
}

/// Executes one operator: reads its input slots, writes the next slot.
fn exec_op(op: &VecOp, b: &Batch, m: Option<&bit_vec::BitVec>, pad: &mut Scratchpad)
    requires
        b.wf(),
        old(pad).wf(),
        op_denote(*op, filled(old(pad)@), *b, mask_model(m)) is Some,
        op matches VecOp::RegexMatchVec { pattern, .. } ==> regex_valid(pattern@),
    ensures
        final(pad).wf(),
        Some(final(pad)@.last()) == op_denote(*op, filled(old(pad)@), *b, mask_model(m)),
        final(pad)@ == old(pad)@.push(final(pad)@.last()),
{
    let ghost env = filled(old(pad)@);
    let ghost denoted = op_denote(*op, filled(old(pad)@), *b, mask_model(m));
    match op {
        VecOp::ColumnScan { col, masked } => {
            let tv = scan_column(&b.cols[*col].data);
            if *masked {
                let mm = match m {
                    Some(mm) => mm,
                    None => {
                        proof {
                            assert(false);
                        }
                        unreached()
                    },
                };
                let ftv = tv.filtered(mm);
                pad.set(ftv);
            } else {
                pad.set(tv);
            }
        },
        VecOp::ConstLoad { val } => {
            pad.set(TypedVec::Constant(crate::val::raw_clone(val)));
        },
        VecOp::Decode { input } => {
            let tv = pad.get(*input);
            let d = tv.decoded();
            pad.set(d);
        },
        VecOp::Addition(a) => {
            let c: i64 = match pad.get(a.rhs) {
                TypedVec::Constant(RawVal::Int(c)) => *c,
                _ => {
                    proof {
                        assert(false);
                    }
                    unreached()
                },
            };
            match pad.get(a.lhs) {
                TypedVec::Integer(v) => {
                    let ghost s = Seq::new(v@.len(), |i: int| v@[i] as int);
                    let n = v.len();
                    let mut out: Vec<i64> = Vec::new();
                    let mut i: usize = 0;
                    while i < n
                        invariant
                            i <= n,
                            n == v@.len(),
                            s == Seq::new(v@.len(), |i: int| v@[i] as int),
                            out@.len() == i,
                            forall|j: int| 0 <= j < i ==> out@[j] as int == wrap64(s[j] + c),
                        decreases n - i,
                    {
                        out.push(v[i].wrapping_add(c));
                        i += 1;
                    }
                    let r = TypedVec::Integer(out);
                    proof {
                        assert(r@ matches TVM::Ints(rs) && rs =~= Seq::new(
                            s.len(),
                            |i: int| wrap64(s[i] + c),
                        ));
                    }
                    pad.set(r);
                },
                _ => {
                    proof {
                        assert(false);
                    }
                    unreached()
                },
            }
        },
        VecOp::AdditionVV { lhs, rhs } => {
            let ghost env0 = filled(old(pad)@);
            match (pad.get(*lhs), pad.get(*rhs)) {
                (TypedVec::Integer(a), TypedVec::Integer(bb)) => {
                    let ghost sa = Seq::new(a@.len(), |i: int| a@[i] as int);
                    let ghost sb = Seq::new(bb@.len(), |i: int| bb@[i] as int);
                    let n = a.len();
                    let mut out: Vec<i64> = Vec::new();
                    let mut i: usize = 0;
                    while i < n
                        invariant
                            i <= n,
                            n == a@.len(),
                            n == bb@.len(),
                            sa == Seq::new(a@.len(), |i: int| a@[i] as int),
                            sb == Seq::new(bb@.len(), |i: int| bb@[i] as int),
                            out@.len() == i,
                            forall|j: int| 0 <= j < i ==> out@[j] as int == wrap64(sa[j] + sb[j]),
                        decreases n - i,
                    {
                        out.push(a[i].wrapping_add(bb[i]));
                        i += 1;
                    }
                    let r = TypedVec::Integer(out);
                    proof {
                        assert(r@ matches TVM::Ints(rs) && rs =~= Seq::new(
                            sa.len(),
                            |i: int| wrap64(sa[i] + sb[i]),
                        ));
                    }
                    pad.set(r);
                },
                _ => {
                    proof {
                        assert(false);
                    }
                    unreached()
                },
            }
        },
        VecOp::LessThanIntVS(o) => {
            let c: i64 = match pad.get(o.rhs) {
                TypedVec::Constant(RawVal::Int(c)) => *c,
                _ => {
                    proof {
                        assert(false);
                    }
                    unreached()
                },
            };
            match pad.get(o.lhs) {
                TypedVec::Integer(v) => {
                    let ghost s = Seq::new(v@.len(), |i: int| v@[i] as int);
                    let n = v.len();
                    let mut out = bv_new();
                    let mut i: usize = 0;
                    while i < n
                        invariant
                            i <= n,
                            n == v@.len(),
                            s == Seq::new(v@.len(), |i: int| v@[i] as int),
                            bits_of(out).len() == i,
                            bits_of(out) == Seq::new(i as nat, |j: int| s[j] < c),
                        decreases n - i,
                    {
                        bv_push(&mut out, LessThanInt::perform(&v[i], &c));
                        proof {
                            assert(bits_of(out) =~= Seq::new((i + 1) as nat, |j: int| s[j] < c));
                        }
                        i += 1;
                    }
                    let r = TypedVec::Boolean(out);
                    proof {
                        assert(r@ matches TVM::Bools(rs) && rs =~= Seq::new(
                            s.len(),
                            |i: int| s[i] < c,
                        ));
                    }
                    pad.set(r);
                },
                _ => {
                    proof {
                        assert(false);
                    }
                    unreached()
                },
            }
        },
        VecOp::GreaterThanIntVS(o) => {
            let c: i64 = match pad.get(o.rhs) {
                TypedVec::Constant(RawVal::Int(c)) => *c,
                _ => {
                    proof {
                        assert(false);
                    }
                    unreached()
                },
            };
            match pad.get(o.lhs) {
                TypedVec::Integer(v) => {
                    let ghost s = Seq::new(v@.len(), |i: int| v@[i] as int);
                    let n = v.len();
                    let mut out = bv_new();
                    let mut i: usize = 0;
                    while i < n
                        invariant
                            i <= n,
                            n == v@.len(),
                            s == Seq::new(v@.len(), |i: int| v@[i] as int),
                            bits_of(out).len() == i,
                            bits_of(out) == Seq::new(i as nat, |j: int| s[j] > c),
                        decreases n - i,
                    {
                        bv_push(&mut out, GreaterThanInt::perform(&v[i], &c));
                        proof {
                            assert(bits_of(out) =~= Seq::new((i + 1) as nat, |j: int| s[j] > c));
                        }
                        i += 1;
                    }
                    let r = TypedVec::Boolean(out);
                    proof {
                        assert(r@ matches TVM::Bools(rs) && rs =~= Seq::new(
                            s.len(),
                            |i: int| s[i] > c,
                        ));
                    }
                    pad.set(r);
                },
                _ => {
                    proof {
                        assert(false);
                    }
                    unreached()
                },
            }
        },
        VecOp::EqualsIntVS(o) => {
            let c: i64 = match pad.get(o.rhs) {
                TypedVec::Constant(RawVal::Int(c)) => *c,
                _ => {
                    proof {
                        assert(false);
                    }
                    unreached()
                },
            };
            match pad.get(o.lhs) {
                TypedVec::Integer(v) => {
                    let ghost s = Seq::new(v@.len(), |i: int| v@[i] as int);
                    let n = v.len();
                    let mut out = bv_new();
                    let mut i: usize = 0;
                    while i < n
                        invariant
                            i <= n,
                            n == v@.len(),
                            s == Seq::new(v@.len(), |i: int| v@[i] as int),
                            bits_of(out).len() == i,
                            bits_of(out) == Seq::new(i as nat, |j: int| s[j] == c),
                        decreases n - i,
                    {
                        bv_push(&mut out, EqualsInt::perform(&v[i], &c));
                        proof {
                            assert(bits_of(out) =~= Seq::new((i + 1) as nat, |j: int| s[j] == c));
                        }
                        i += 1;
                    }
                    let r = TypedVec::Boolean(out);
                    proof {
                        assert(r@ matches TVM::Bools(rs) && rs =~= Seq::new(
                            s.len(),
                            |i: int| s[i] == c,
                        ));
                    }
                    pad.set(r);
                },
                _ => {
                    proof {
                        assert(false);
                    }
                    unreached()
                },
            }
        },
        VecOp::EqualsCodeVS(o) => {
            let c: i64 = match pad.get(o.rhs) {
                TypedVec::Constant(RawVal::Int(c)) => *c,
                _ => {
                    proof {
                        assert(false);
                    }
                    unreached()
                },
            };
            match pad.get(o.lhs) {
                TypedVec::EncodedU8(v, _) => {
                    let ghost s = Seq::new(v@.len(), |i: int| v@[i] as int);
                    let n = v.len();
                    if 0 <= c && c <= u8::MAX as i64 {
                        let k: u8 = c as u8;
                        let mut out = bv_new();
                        let mut i: usize = 0;
                        while i < n
                            invariant
                                i <= n,
                                n == v@.len(),
                                k as int == c,
                                s == Seq::new(v@.len(), |i: int| v@[i] as int),
                                bits_of(out).len() == i,
                                bits_of(out) == Seq::new(i as nat, |j: int| s[j] == c),
                            decreases n - i,
                        {
                            bv_push(&mut out, Equals::perform(&v[i], &k));
                            proof {
                                assert(bits_of(out) =~= Seq::new(
                                    (i + 1) as nat,
                                    |j: int| s[j] == c,
                                ));
                            }
                            i += 1;
                        }
                        let r = TypedVec::Boolean(out);
                        proof {
                            assert(r@ matches TVM::Bools(rs) && rs =~= Seq::new(
                                s.len(),
                                |i: int| s[i] == c,
                            ));
                        }
                        pad.set(r);
                    } else {
                        let out = bool_fill(n, false);
                        let r = TypedVec::Boolean(out);
                        proof {
                            assert forall|j: int| 0 <= j < s.len() implies (s[j] == c) == false by {
                                assert(s[j] == v@[j] as int);
                            }
                            assert(r@ matches TVM::Bools(rs) && rs =~= Seq::new(
                                s.len(),
                                |i: int| s[i] == c,
                            ));
                        }
                        pad.set(r);
                    }
                },
                TypedVec::EncodedU16(v, _) => {
                    let ghost s = Seq::new(v@.len(), |i: int| v@[i] as int);
                    let n = v.len();
                    if 0 <= c && c <= u16::MAX as i64 {
                        let k: u16 = c as u16;
                        let mut out = bv_new();
                        let mut i: usize = 0;
                        while i < n
                            invariant
                                i <= n,
                                n == v@.len(),
                                k as int == c,
                                s == Seq::new(v@.len(), |i: int| v@[i] as int),
                                bits_of(out).len() == i,
                                bits_of(out) == Seq::new(i as nat, |j: int| s[j] == c),
                            decreases n - i,
                        {
                            bv_push(&mut out, Equals::perform(&v[i], &k));
                            proof {
                                assert(bits_of(out) =~= Seq::new(
                                    (i + 1) as nat,
                                    |j: int| s[j] == c,
                                ));
                            }
                            i += 1;
                        }
                        let r = TypedVec::Boolean(out);
                        proof {
                            assert(r@ matches TVM::Bools(rs) && rs =~= Seq::new(
                                s.len(),
                                |i: int| s[i] == c,
                            ));
                        }
                        pad.set(r);
                    } else {
                        let out = bool_fill(n, false);
                        let r = TypedVec::Boolean(out);
                        proof {
                            assert forall|j: int| 0 <= j < s.len() implies (s[j] == c) == false by {
                                assert(s[j] == v@[j] as int);
                            }
                            assert(r@ matches TVM::Bools(rs) && rs =~= Seq::new(
                                s.len(),
                                |i: int| s[i] == c,
                            ));
                        }
                        pad.set(r);
                    }
                },
                TypedVec::EncodedU32(v, _) => {
                    let ghost s = Seq::new(v@.len(), |i: int| v@[i] as int);
                    let n = v.len();
                    if 0 <= c && c <= u32::MAX as i64 {
                        let k: u32 = c as u32;
                        let mut out = bv_new();
                        let mut i: usize = 0;
                        while i < n
                            invariant
                                i <= n,
                                n == v@.len(),
                                k as int == c,
                                s == Seq::new(v@.len(), |i: int| v@[i] as int),
                                bits_of(out).len() == i,
                                bits_of(out) == Seq::new(i as nat, |j: int| s[j] == c),
                            decreases n - i,
                        {
                            bv_push(&mut out, Equals::perform(&v[i], &k));
                            proof {
                                assert(bits_of(out) =~= Seq::new(
                                    (i + 1) as nat,
                                    |j: int| s[j] == c,
                                ));
                            }
                            i += 1;
                        }
                        let r = TypedVec::Boolean(out);
                        proof {
                            assert(r@ matches TVM::Bools(rs) && rs =~= Seq::new(
                                s.len(),
                                |i: int| s[i] == c,
                            ));
                        }
                        pad.set(r);
                    } else {
                        let out = bool_fill(n, false);
                        let r = TypedVec::Boolean(out);
                        proof {
                            assert forall|j: int| 0 <= j < s.len() implies (s[j] == c) == false by {
                                assert(s[j] == v@[j] as int);
                            }
                            assert(r@ matches TVM::Bools(rs) && rs =~= Seq::new(
                                s.len(),
                                |i: int| s[i] == c,
                            ));
                        }
                        pad.set(r);
                    }
                },
                _ => {
                    proof {
                        assert(false);
                    }
                    unreached()
                },
            }
        },
        VecOp::EqualsStrVS(o) => {
            let ghost t = match slot(env, o.rhs) {
                Some(TVM::ConstV(RVal::S(t))) => t,
                _ => Seq::empty(),
            };
            let cs: String = match pad.get(o.rhs) {
                TypedVec::Constant(RawVal::Str(ss)) => ss.clone(),
                _ => {
                    proof {
                        assert(false);
                    }
                    unreached()
                },
            };
            match pad.get(o.lhs) {
                TypedVec::Str(v) => {
                    let ghost s = Seq::new(v@.len(), |i: int| v@[i]@);
                    let n = v.len();
                    let mut out = bv_new();
                    let mut i: usize = 0;
                    while i < n
                        invariant
                            i <= n,
                            n == v@.len(),
                            cs@ == t,
                            s == Seq::new(v@.len(), |i: int| v@[i]@),
                            bits_of(out).len() == i,
                            bits_of(out) == Seq::new(i as nat, |j: int| s[j] == t),
                        decreases n - i,
                    {
                        bv_push(&mut out, EqualsString::perform(&v[i], &cs));
                        proof {
                            assert(bits_of(out) =~= Seq::new((i + 1) as nat, |j: int| s[j] == t));
                        }
                        i += 1;
                    }
                    let r = TypedVec::Boolean(out);
                    proof {
                        assert(r@ matches TVM::Bools(rs) && rs =~= Seq::new(
                            s.len(),
                            |i: int| s[i] == t,
                        ));
                    }
                    pad.set(r);
                },
                _ => {
                    proof {
                        assert(false);
                    }
                    unreached()
                },
            }
        },
        VecOp::AndBV { lhs, rhs } => {
            let a = match pad.get(*lhs) {
                TypedVec::Boolean(a) => bv_clone(a),
                _ => {
                    proof {
                        assert(false);
                    }
                    unreached()
                },
            };
            match pad.get(*rhs) {
                TypedVec::Boolean(bb) => {
                    let mut a = a;
                    bv_and(&mut a, bb);
                    let r = TypedVec::Boolean(a);
                    proof {
                        assert(r@ matches TVM::Bools(rs) && rs =~= and_seq(
                            bits_of_slot(env, *lhs),
                            bits_of_slot(env, *rhs),
                        ));
                    }
                    pad.set(r);
                },
                _ => {
                    proof {
                        assert(false);
                    }
                    unreached()
                },
            }
        },
        VecOp::OrBV { lhs, rhs } => {
            let a = match pad.get(*lhs) {
                TypedVec::Boolean(a) => bv_clone(a),
                _ => {
                    proof {
                        assert(false);
                    }
                    unreached()
                },
            };
            match pad.get(*rhs) {
                TypedVec::Boolean(bb) => {
                    let mut a = a;
                    bv_or(&mut a, bb);
                    let r = TypedVec::Boolean(a);
                    proof {
                        assert(r@ matches TVM::Bools(rs) && rs =~= or_seq(
                            bits_of_slot(env, *lhs),
                            bits_of_slot(env, *rhs),
                        ));
                    }
                    pad.set(r);
                },
                _ => {
                    proof {
                        assert(false);
                    }
                    unreached()
                },
            }
        },
        VecOp::NegateVec { input } => {
            match pad.get(*input) {
                TypedVec::Integer(v) => {
                    let ghost s = Seq::new(v@.len(), |i: int| v@[i] as int);
                    let n = v.len();
                    let mut out: Vec<i64> = Vec::new();
                    let mut i: usize = 0;
                    while i < n
                        invariant
                            i <= n,
                            n == v@.len(),
                            s == Seq::new(v@.len(), |i: int| v@[i] as int),
                            out@.len() == i,
                            forall|j: int| 0 <= j < i ==> out@[j] as int == wrap64(-s[j]),
                        decreases n - i,
                    {
                        out.push((0i64).wrapping_sub(v[i]));
                        i += 1;
                    }
                    let r = TypedVec::Integer(out);
                    proof {
                        assert(r@ matches TVM::Ints(rs) && rs =~= Seq::new(
                            s.len(),
                            |i: int| wrap64(-s[i]),
                        ));
                    }
                    pad.set(r);
                },
                _ => {
                    proof {
                        assert(false);
                    }
                    unreached()
                },
            }
        },
        VecOp::RegexMatchVec { input, pattern } => {
            match pad.get(*input) {
                TypedVec::Str(v) => {
                    let ghost s = Seq::new(v@.len(), |i: int| v@[i]@);
                    let n = v.len();
                    let mut out = bv_new();
                    let mut i: usize = 0;
                    while i < n
                        invariant
                            i <= n,
                            n == v@.len(),
                            regex_valid(pattern@),
                            s == Seq::new(v@.len(), |i: int| v@[i]@),
                            bits_of(out).len() == i,
                            bits_of(out) == Seq::new(
                                i as nat,
                                |j: int| regex_match_of(pattern@, s[j]),
                            ),
                        decreases n - i,
                    {
                        let mb = regex_match(pattern.as_str(), v[i].as_str());
                        bv_push(&mut out, mb);
                        proof {
                            assert(bits_of(out) =~= Seq::new(
                                (i + 1) as nat,
                                |j: int| regex_match_of(pattern@, s[j]),
                            ));
                        }
                        i += 1;
                    }
                    let r = TypedVec::Boolean(out);
                    proof {
                        assert(r@ matches TVM::Bools(rs) && rs =~= Seq::new(
                            s.len(),
                            |i: int| regex_match_of(pattern@, s[i]),
                        ));
                    }
                    pad.set(r);
                },
                _ => {
                    proof {
                        assert(false);
                    }
                    unreached()
                },
            }
        },
        VecOp::BoolBroadcast { input, value } => {
            let n = pad.get(*input).len();
            let out = bool_fill(n, *value);
            pad.set(TypedVec::Boolean(out));
        },
        VecOp::Filter { data, mask } => {
            let mm = match pad.get(*mask) {
                TypedVec::Boolean(mm) => bv_clone(mm),
                _ => {
                    proof {
                        assert(false);
                    }
                    unreached()
                },
            };
            let ftv = pad.get(*data).filtered(&mm);
            pad.set(ftv);
        },
    }
}

/// The bits a slot holds, when it holds a mask.
pub open spec fn bits_of_slot(env: Seq<Option<TVM>>, r: BufferRef) -> Seq<bool> {
    match slot(env, r) {
        Some(TVM::Bools(s)) => s,
        _ => Seq::empty(),
    }
}

/// Runs a plan from an empty scratchpad: afterwards every slot holds
/// exactly what the plan denotes.
pub fn execute_plan(ops: &Vec<VecOp>, b: &Batch, m: Option<&bit_vec::BitVec>, pad: &mut Scratchpad)
    requires
        b.wf(),
        old(pad)@.len() == 0,
        old(pad).wf(),
        plan_ok(ops@, *b, mask_model(m)),
        plan_regex_ok(ops@),
    ensures
        final(pad).wf(),
        final(pad)@.len() == ops@.len(),
        forall|k: int|
            0 <= k < ops@.len() ==> Some(#[trigger] final(pad)@[k]) == denote_plan(
                ops@,
                *b,
                mask_model(m),
            )[k],
{
    let ghost mm = mask_model(m);
    let n = ops.len();
    let mut k: usize = 0;
    while k < n
        invariant
            k <= n,
            n == ops@.len(),
            b.wf(),
            pad.wf(),
            pad@.len() == k,
            plan_ok(ops@, *b, mm),
            plan_regex_ok(ops@),
            mm == mask_model(m),
            forall|j: int|
                0 <= j < k ==> Some(#[trigger] pad@[j]) == denote_plan(ops@, *b, mm)[j],
        decreases n - k,
    {
        proof {
            let d = denote_plan(ops@, *b, mm);
            let ki = k as int;
            lemma_denote_len(ops@, *b, mm);
            lemma_denote_take(ops@, *b, mm, ki);
            lemma_denote_take(ops@, *b, mm, ki + 1);
            let t1 = ops@.take(ki + 1);
            assert(t1.drop_last() =~= ops@.take(ki));
            assert(t1.last() == ops@[ki]);
            lemma_denote_len(t1, *b, mm);
            assert(denote_plan(t1, *b, mm) == denote_plan(ops@.take(ki), *b, mm).push(
                op_denote(ops@[ki], denote_plan(ops@.take(ki), *b, mm), *b, mm),
            ));
            assert(filled(pad@) =~= d.take(ki));
            assert(denote_plan(t1, *b, mm) == d.take(ki + 1));
            assert(d.take(ki + 1)[ki] == d[ki]);
            assert(d.take(ki + 1).len() == ki + 1);
            assert(d.take(ki + 1).last() == d[ki]);
            assert(d[ki] == op_denote(ops@[ki], filled(pad@), *b, mm));
            assert((d[ki]) is Some);
        }
        exec_op(&ops[k], b, m, pad);
        k += 1;
    }
}

/// Appending operators to a plan does not change what earlier slots
/// denote.
pub proof fn lemma_denote_frame(
    ops1: Seq<VecOp>,
    ops2: Seq<VecOp>,
    b: Batch,
    m: Option<Seq<bool>>,
    j: int,
)
    requires
        0 <= j < ops1.len(),
        ops1.len() <= ops2.len(),
        ops1 =~= ops2.take(ops1.len() as int),
    ensures
        denote_plan(ops2, b, m)[j] == denote_plan(ops1, b, m)[j],
{
    lemma_denote_take(ops2, b, m, ops1.len() as int);
    lemma_denote_len(ops1, b, m);
    lemma_denote_len(ops2, b, m);
    assert(denote_plan(ops2, b, m).take(ops1.len() as int)[j] == denote_plan(ops2, b, m)[j]);
}

} // verus!
