//! The tagged runtime buffer that vector operators read and write, its
//! mathematical model, and the compacting (filter) kernels.

use vstd::prelude::*;

use crate::bits::{bits_of, bv_count, bv_get, bv_len, bv_new, bv_push, count_true};
use crate::val::{raw_clone, RVal, RawVal};

verus! {

/// A run of values produced or consumed by an operator: decoded
/// integers, offset-encoded codes (carrying their offset), strings, a
/// boolean mask, a row-independent constant, or an all-empty run.
pub enum TypedVec {
    Integer(Vec<i64>),
    EncodedU8(Vec<u8>, i64),
    EncodedU16(Vec<u16>, i64),
    EncodedU32(Vec<u32>, i64),
    Str(Vec<String>),
    Boolean(bit_vec::BitVec),
    Constant(RawVal),
    Empty(usize),
}

/// Model of a `TypedVec`: code runs keep their codes and offset.
pub enum TVM {
    Ints(Seq<int>),
    Codes(Seq<int>, int),
    Strs(Seq<Seq<char>>),
    Bools(Seq<bool>),
    ConstV(RVal),
    Nulls(nat),
}

impl View for TypedVec {
    type V = TVM;

    open spec fn view(&self) -> TVM {
        match self {
            TypedVec::Integer(v) => TVM::Ints(Seq::new(v@.len(), |i: int| v@[i] as int)),
            TypedVec::EncodedU8(v, o) => TVM::Codes(
                Seq::new(v@.len(), |i: int| v@[i] as int),
                *o as int,
            ),
            TypedVec::EncodedU16(v, o) => TVM::Codes(
                Seq::new(v@.len(), |i: int| v@[i] as int),
                *o as int,
            ),
            TypedVec::EncodedU32(v, o) => TVM::Codes(
                Seq::new(v@.len(), |i: int| v@[i] as int),
                *o as int,
            ),
            TypedVec::Str(v) => TVM::Strs(Seq::new(v@.len(), |i: int| v@[i]@)),
            TypedVec::Boolean(b) => TVM::Bools(bits_of(*b)),
            TypedVec::Constant(v) => TVM::ConstV(v@),
            TypedVec::Empty(n) => TVM::Nulls(*n as nat),
        }
    }
}

impl TVM {
    /// Length of a run; a constant has none and counts as 0.
    pub open spec fn len_spec(self) -> nat {
        match self {
            TVM::Ints(s) => s.len(),
            TVM::Codes(s, _) => s.len(),
            TVM::Strs(s) => s.len(),
            TVM::Bools(s) => s.len(),
            TVM::ConstV(_) => 0,
            TVM::Nulls(n) => n,
        }
    }

    /// The decoded integers of an integer-valued run.
    pub open spec fn ints(self) -> Seq<int> {
        match self {
            TVM::Ints(s) => s,
            TVM::Codes(s, o) => Seq::new(s.len(), |i: int| o + s[i]),
            _ => Seq::empty(),
        }
    }

    pub open spec fn is_intish(self) -> bool {
        self matches TVM::Ints(_) || self matches TVM::Codes(_, _)
    }

    /// The materialized cell at row `i`.
    pub open spec fn cell(self, i: int) -> RVal {
        match self {
            TVM::Ints(_) | TVM::Codes(_, _) => RVal::I(self.ints()[i] as i64),
            TVM::Strs(s) => RVal::S(s[i]),
            TVM::Bools(_) => RVal::N,
            TVM::ConstV(v) => v,
            TVM::Nulls(_) => RVal::N,
        }
    }
}

impl TypedVec {
    /// Decoded values stay within `i64`.
    pub open spec fn wf(self) -> bool {
        match self@ {
            TVM::Codes(s, o) => forall|i: int| 0 <= i < s.len() ==> o + #[trigger] s[i] <= i64::MAX,
            _ => true,
        }
    }

    /// The number of rows of a (non-constant) run.
    pub fn len(&self) -> (n: usize)
        ensures
            n == self@.len_spec(),
    {
        match self {
            TypedVec::Integer(v) => v.len(),
            TypedVec::EncodedU8(v, _) => v.len(),
            TypedVec::EncodedU16(v, _) => v.len(),
            TypedVec::EncodedU32(v, _) => v.len(),
            TypedVec::Str(v) => v.len(),
            TypedVec::Boolean(b) => bv_len(b),
            TypedVec::Constant(_) => 0,
            TypedVec::Empty(n) => *n,
        }
    }
}

/// The entries of `s` selected by the set bits of `m`, in order.
pub open spec fn filter_seq<A>(s: Seq<A>, m: Seq<bool>) -> Seq<A>
    decreases m.len(),
{
    if m.len() == 0 || s.len() == 0 {
        Seq::empty()
    } else {
        let rest = filter_seq(s.drop_last(), m.drop_last());
        if m.last() {
            rest.push(s.last())
        } else {
            rest
        }
    }
}

/// Pointwise conjunction of two equal-length masks.
pub open spec fn and_seq(a: Seq<bool>, b: Seq<bool>) -> Seq<bool> {
    Seq::new(a.len(), |i: int| a[i] && b[i])
}

/// Pointwise disjunction of two equal-length masks.
pub open spec fn or_seq(a: Seq<bool>, b: Seq<bool>) -> Seq<bool> {
    Seq::new(a.len(), |i: int| a[i] || b[i])
}

/// Unfolds one step of `filter_seq` at the front of a growing prefix.
pub proof fn lemma_filter_seq_step<A>(s: Seq<A>, m: Seq<bool>, i: int)
    requires
        0 <= i < s.len(),
        s.len() == m.len(),
    ensures
        filter_seq(s.take(i + 1), m.take(i + 1)) == if m[i] {
            filter_seq(s.take(i), m.take(i)).push(s[i])
        } else {
            filter_seq(s.take(i), m.take(i))
        },
{
    assert(s.take(i + 1).drop_last() =~= s.take(i));
    assert(m.take(i + 1).drop_last() =~= m.take(i));
    assert(s.take(i + 1).last() == s[i]);
    assert(m.take(i + 1).last() == m[i]);
}

/// Filtering commutes with mapping a function over the entries.
pub proof fn lemma_filter_map_commute<A, B>(s: Seq<A>, m: Seq<bool>, f: spec_fn(A) -> B)
    requires
        s.len() == m.len(),
    ensures
        filter_seq(s.map_values(f), m) == filter_seq(s, m).map_values(f),
    decreases s.len(),
{
    if s.len() == 0 {
        assert(filter_seq(s.map_values(f), m) =~= filter_seq(s, m).map_values(f));
    } else {
        lemma_filter_map_commute(s.drop_last(), m.drop_last(), f);
        assert(s.map_values(f).drop_last() =~= s.drop_last().map_values(f));
        assert(s.map_values(f).last() == f(s.last()));
        if m.last() {
            assert(filter_seq(s, m).map_values(f) =~= filter_seq(
                s.drop_last(),
                m.drop_last(),
            ).map_values(f).push(f(s.last())));
        }
    }
}

/// Filtering commutes with mapping a binary function over two
/// equal-length runs.
pub proof fn lemma_filter_map2_commute<A, B, C>(
    s1: Seq<A>,
    s2: Seq<B>,
    m: Seq<bool>,
    f: spec_fn(A, B) -> C,
)
    requires
        s1.len() == m.len(),
        s2.len() == m.len(),
    ensures
        filter_seq(Seq::new(s1.len(), |i: int| f(s1[i], s2[i])), m) == Seq::new(
            filter_seq(s1, m).len(),
            |k: int| f(filter_seq(s1, m)[k], filter_seq(s2, m)[k]),
        ),
    decreases m.len(),
{
    let z = Seq::new(s1.len(), |i: int| f(s1[i], s2[i]));
    let g1 = filter_seq(s1, m);
    let g2 = filter_seq(s2, m);
    let rhs = Seq::new(g1.len(), |k: int| f(g1[k], g2[k]));
    if m.len() == 0 {
        assert(filter_seq(z, m) =~= rhs);
    } else {
        lemma_filter_map2_commute(s1.drop_last(), s2.drop_last(), m.drop_last(), f);
        lemma_filter_seq_len(s1, m);
        lemma_filter_seq_len(s2, m);
        lemma_filter_seq_len(s1.drop_last(), m.drop_last());
        lemma_filter_seq_len(s2.drop_last(), m.drop_last());
        let z0 = Seq::new(
            s1.drop_last().len(),
            |i: int| f(s1.drop_last()[i], s2.drop_last()[i]),
        );
        assert(z.drop_last() =~= z0);
        assert(z.last() == f(s1.last(), s2.last()));
        let h1 = filter_seq(s1.drop_last(), m.drop_last());
        let h2 = filter_seq(s2.drop_last(), m.drop_last());
        let rhs0 = Seq::new(h1.len(), |k: int| f(h1[k], h2[k]));
        if m.last() {
            assert(g1 == h1.push(s1.last()));
            assert(g2 == h2.push(s2.last()));
            assert(filter_seq(z, m) == filter_seq(z0, m.drop_last()).push(z.last()));
            assert(rhs =~= rhs0.push(f(s1.last(), s2.last())));
        } else {
            assert(g1 == h1);
            assert(g2 == h2);
            assert(filter_seq(z, m) == filter_seq(z0, m.drop_last()));
            assert(rhs =~= rhs0);
        }
    }
}

/// The length of a filtered run is the number of set mask bits.
pub proof fn lemma_filter_seq_len<A>(s: Seq<A>, m: Seq<bool>)
    requires
        s.len() == m.len(),
    ensures
        filter_seq(s, m).len() == count_true(m),
    decreases m.len(),
{
    if m.len() > 0 {
        lemma_filter_seq_len(s.drop_last(), m.drop_last());
    }
}

/// Filtering with the conjunction of two masks is the same as filtering
/// with the first mask and then filtering the result with the second
/// mask compacted by the first — however the two steps are fused.
pub proof fn lemma_filter_and_composes<A>(x: Seq<A>, m1: Seq<bool>, m2: Seq<bool>)
    requires
        x.len() == m1.len(),
        m1.len() == m2.len(),
    ensures
        filter_seq(x, and_seq(m1, m2)) == filter_seq(filter_seq(x, m1), filter_seq(m2, m1)),
    decreases x.len(),
{
    if x.len() == 0 {
        assert(filter_seq(x, and_seq(m1, m2)) =~= filter_seq(
            filter_seq(x, m1),
            filter_seq(m2, m1),
        ));
    } else {
        let xs = x.drop_last();
        let n1 = m1.drop_last();
        let n2 = m2.drop_last();
        lemma_filter_and_composes(xs, n1, n2);
        assert(and_seq(m1, m2).drop_last() =~= and_seq(n1, n2));
        assert(and_seq(m1, m2).last() == (m1.last() && m2.last()));
        if m1.last() {
            assert(filter_seq(x, m1) == filter_seq(xs, n1).push(x.last()));
            assert(filter_seq(m2, m1) == filter_seq(n2, n1).push(m2.last()));
            assert(filter_seq(x, m1).drop_last() =~= filter_seq(xs, n1));
            assert(filter_seq(m2, m1).drop_last() =~= filter_seq(n2, n1));
            lemma_filter_seq_len(xs, n1);
            lemma_filter_seq_len(n2, n1);
        } else {
            assert(filter_seq(x, m1) == filter_seq(xs, n1));
            assert(filter_seq(m2, m1) == filter_seq(n2, n1));
        }
    }
}

/// Conjunction and selection count the same rows: the set bits of
/// `m1 && m2` are the set bits of `m2` at `m1`-selected positions.
pub proof fn lemma_count_and_filter(m1: Seq<bool>, m2: Seq<bool>)
    requires
        m1.len() == m2.len(),
    ensures
        count_true(and_seq(m1, m2)) == count_true(filter_seq(m2, m1)),
    decreases m1.len(),
{
    if m1.len() == 0 {
        assert(and_seq(m1, m2) =~= Seq::<bool>::empty());
    } else {
        lemma_count_and_filter(m1.drop_last(), m2.drop_last());
        assert(and_seq(m1, m2).drop_last() =~= and_seq(m1.drop_last(), m2.drop_last()));
        assert(and_seq(m1, m2).last() == (m1.last() && m2.last()));
        lemma_filter_seq_len(m2.drop_last(), m1.drop_last());
        if m1.last() {
            let fs = filter_seq(m2.drop_last(), m1.drop_last()).push(m2.last());
            assert(filter_seq(m2, m1) == fs);
            assert(fs.drop_last() =~= filter_seq(m2.drop_last(), m1.drop_last()));
            assert(fs.last() == m2.last());
            assert(count_true(fs) == count_true(
                filter_seq(m2.drop_last(), m1.drop_last()),
            ) + if m2.last() {
                1int
            } else {
                0int
            });
        } else {
            assert(filter_seq(m2, m1) == filter_seq(m2.drop_last(), m1.drop_last()));
        }
    }
}

/// The filter-compose law over runtime buffers, whatever the variant:
/// compacting by the conjunction of two masks equals compacting by the
/// first mask and then by the second restricted to the first's
/// selected positions — however the two steps are fused.
pub proof fn lemma_tvm_filter_compose(t: TVM, m1: Seq<bool>, m2: Seq<bool>)
    requires
        !(t matches TVM::ConstV(_)) ==> t.len_spec() == m1.len(),
        m1.len() == m2.len(),
    ensures
        tvm_filtered(t, and_seq(m1, m2)) == tvm_filtered(
            tvm_filtered(t, m1),
            filter_seq(m2, m1),
        ),
{
    match t {
        TVM::Ints(s) => {
            lemma_filter_and_composes(s, m1, m2);
        },
        TVM::Codes(s, _) => {
            lemma_filter_and_composes(s, m1, m2);
        },
        TVM::Strs(s) => {
            lemma_filter_and_composes(s, m1, m2);
        },
        TVM::Bools(s) => {
            lemma_filter_and_composes(s, m1, m2);
        },
        TVM::ConstV(_) => {},
        TVM::Nulls(_) => {
            lemma_count_and_filter(m1, m2);
        },
    }
}

/// Compacts a run of integers by a mask.
fn filter_vec_i64(v: &Vec<i64>, m: &bit_vec::BitVec) -> (r: Vec<i64>)
    requires
        v@.len() == bits_of(*m).len(),
    ensures
        r@ == filter_seq(v@, bits_of(*m)),
{
    let n = v.len();
    let mut r: Vec<i64> = Vec::new();
    let mut i: usize = 0;
    while i < n
        invariant
            i <= n,
            n == v@.len(),
            n == bits_of(*m).len(),
            r@ == filter_seq(v@.take(i as int), bits_of(*m).take(i as int)),
        decreases n - i,
    {
        proof {
            lemma_filter_seq_step(v@, bits_of(*m), i as int);
        }
        if let Some(b) = bv_get(m, i) {
            if b {
                r.push(v[i]);
            }
        }
        i += 1;
    }
    proof {
        assert(v@.take(n as int) =~= v@);
        assert(bits_of(*m).take(n as int) =~= bits_of(*m));
    }
    r
}

/// Compacts a run of u8 codes by a mask.
fn filter_vec_u8(v: &Vec<u8>, m: &bit_vec::BitVec) -> (r: Vec<u8>)
    requires
        v@.len() == bits_of(*m).len(),
    ensures
        r@ == filter_seq(v@, bits_of(*m)),
{
    let n = v.len();
    let mut r: Vec<u8> = Vec::new();
    let mut i: usize = 0;
    while i < n
        invariant
            i <= n,
            n == v@.len(),
            n == bits_of(*m).len(),
            r@ == filter_seq(v@.take(i as int), bits_of(*m).take(i as int)),
        decreases n - i,
    {
        proof {
            lemma_filter_seq_step(v@, bits_of(*m), i as int);
        }
        if let Some(b) = bv_get(m, i) {
            if b {
                r.push(v[i]);
            }
        }
        i += 1;
    }
    proof {
        assert(v@.take(n as int) =~= v@);
        assert(bits_of(*m).take(n as int) =~= bits_of(*m));
    }
    r
}

/// Compacts a run of u16 codes by a mask.
fn filter_vec_u16(v: &Vec<u16>, m: &bit_vec::BitVec) -> (r: Vec<u16>)
    requires
        v@.len() == bits_of(*m).len(),
    ensures
        r@ == filter_seq(v@, bits_of(*m)),
{
    let n = v.len();
    let mut r: Vec<u16> = Vec::new();
    let mut i: usize = 0;
    while i < n
        invariant
            i <= n,
            n == v@.len(),
            n == bits_of(*m).len(),
            r@ == filter_seq(v@.take(i as int), bits_of(*m).take(i as int)),
        decreases n - i,
    {
        proof {
            lemma_filter_seq_step(v@, bits_of(*m), i as int);
        }
        if let Some(b) = bv_get(m, i) {
            if b {
                r.push(v[i]);
            }
        }
        i += 1;
    }
    proof {
        assert(v@.take(n as int) =~= v@);
        assert(bits_of(*m).take(n as int) =~= bits_of(*m));
    }
    r
}

/// Compacts a run of u32 codes by a mask.
fn filter_vec_u32(v: &Vec<u32>, m: &bit_vec::BitVec) -> (r: Vec<u32>)
    requires
        v@.len() == bits_of(*m).len(),
    ensures
        r@ == filter_seq(v@, bits_of(*m)),
{
    let n = v.len();
    let mut r: Vec<u32> = Vec::new();
    let mut i: usize = 0;
    while i < n
        invariant
            i <= n,
            n == v@.len(),
            n == bits_of(*m).len(),
            r@ == filter_seq(v@.take(i as int), bits_of(*m).take(i as int)),
        decreases n - i,
    {
        proof {
            lemma_filter_seq_step(v@, bits_of(*m), i as int);
        }
        if let Some(b) = bv_get(m, i) {
            if b {
                r.push(v[i]);
            }
        }
        i += 1;
    }
    proof {
        assert(v@.take(n as int) =~= v@);
        assert(bits_of(*m).take(n as int) =~= bits_of(*m));
    }
    r
}

/// Compacts a run of strings by a mask.
fn filter_vec_str(v: &Vec<String>, m: &bit_vec::BitVec) -> (r: Vec<String>)
    requires
        v@.len() == bits_of(*m).len(),
    ensures
        r@.map_values(|s: String| s@) == filter_seq(v@, bits_of(*m)).map_values(
            |s: String| s@,
        ),
        r@.len() == filter_seq(v@, bits_of(*m)).len(),
{
    let n = v.len();
    let mut r: Vec<String> = Vec::new();
    let mut i: usize = 0;
    while i < n
        invariant
            i <= n,
            n == v@.len(),
            n == bits_of(*m).len(),
            r@.len() == filter_seq(v@.take(i as int), bits_of(*m).take(i as int)).len(),
            r@.map_values(|s: String| s@) == filter_seq(
                v@.take(i as int),
                bits_of(*m).take(i as int),
            ).map_values(|s: String| s@),
        decreases n - i,
    {
        proof {
            lemma_filter_seq_step(v@, bits_of(*m), i as int);
        }
        if let Some(b) = bv_get(m, i) {
            if b {
                let ghost pre = r@;
                r.push(v[i].clone());
                proof {
                    let f = |s: String| s@;
                    let fs = filter_seq(v@.take(i as int), bits_of(*m).take(i as int));
                    assert(r@.map_values(f) =~= pre.map_values(f).push(v@[i as int]@));
                    assert(fs.push(v@[i as int]).map_values(f) =~= fs.map_values(f).push(
                        v@[i as int]@,
                    ));
                }
            }
        }
        i += 1;
    }
    proof {
        assert(v@.take(n as int) =~= v@);
        assert(bits_of(*m).take(n as int) =~= bits_of(*m));
    }
    r
}

/// Compacts a mask by a mask.
fn filter_bv(v: &bit_vec::BitVec, m: &bit_vec::BitVec) -> (r: bit_vec::BitVec)
    requires
        bits_of(*v).len() == bits_of(*m).len(),
    ensures
        bits_of(r) == filter_seq(bits_of(*v), bits_of(*m)),
{
    let n = bv_len(v);
    let mut r = bv_new();
    let mut i: usize = 0;
    while i < n
        invariant
            i <= n,
            n == bits_of(*v).len(),
            n == bits_of(*m).len(),
            bits_of(r).len() <= i,
            bits_of(r) == filter_seq(bits_of(*v).take(i as int), bits_of(*m).take(i as int)),
        decreases n - i,
    {
        proof {
            lemma_filter_seq_step(bits_of(*v), bits_of(*m), i as int);
        }
        let sel = bv_get(m, i);
        let val = bv_get(v, i);
        if let (Some(b), Some(x)) = (sel, val) {
            if b {
                bv_push(&mut r, x);
            }
        }
        i += 1;
    }
    proof {
        assert(bits_of(*v).take(n as int) =~= bits_of(*v));
        assert(bits_of(*m).take(n as int) =~= bits_of(*m));
    }
    r
}

/// The model of a run compacted by a mask: an encoded run stays encoded.
pub open spec fn tvm_filtered(t: TVM, m: Seq<bool>) -> TVM {
    match t {
        TVM::Ints(s) => TVM::Ints(filter_seq(s, m)),
        TVM::Codes(s, o) => TVM::Codes(filter_seq(s, m), o),
        TVM::Strs(s) => TVM::Strs(filter_seq(s, m)),
        TVM::Bools(s) => TVM::Bools(filter_seq(s, m)),
        TVM::ConstV(v) => TVM::ConstV(v),
        TVM::Nulls(_) => TVM::Nulls(count_true(m)),
    }
}

impl TypedVec {
    /// Copies the rows selected by the mask, preserving the encoding.
    pub fn filtered(&self, m: &bit_vec::BitVec) -> (r: TypedVec)
        requires
            self.wf(),
            !(self matches TypedVec::Constant(_)) ==> self@.len_spec() == bits_of(*m).len(),
        ensures
            r@ == tvm_filtered(self@, bits_of(*m)),
            r.wf(),
    {
        let ghost mbits = bits_of(*m);
        match self {
            TypedVec::Integer(v) => {
                let fv = filter_vec_i64(v, m);
                let r = TypedVec::Integer(fv);
                proof {
                    let f = |x: i64| x as int;
                    lemma_filter_map_commute(v@, mbits, f);
                    assert(Seq::new(v@.len(), |i: int| v@[i] as int) =~= v@.map_values(f));
                    assert(Seq::new(fv@.len(), |i: int| fv@[i] as int) =~= fv@.map_values(f));
                }
                r
            },
            TypedVec::EncodedU8(v, o) => {
                let fv = filter_vec_u8(v, m);
                let r = TypedVec::EncodedU8(fv, *o);
                proof {
                    let f = |x: u8| x as int;
                    lemma_filter_map_commute(v@, mbits, f);
                    assert(Seq::new(v@.len(), |i: int| v@[i] as int) =~= v@.map_values(f));
                    assert(Seq::new(fv@.len(), |i: int| fv@[i] as int) =~= fv@.map_values(f));
                    assert forall|i: int|
                        0 <= i < fv@.len() implies *o as int + #[trigger] fv@.map_values(f)[i]
                        <= i64::MAX by {
                        let s = v@.map_values(f);
                        lemma_filter_seq_subset(s, mbits, i);
                    }
                }
                r
            },
            TypedVec::EncodedU16(v, o) => {
                let fv = filter_vec_u16(v, m);
                let r = TypedVec::EncodedU16(fv, *o);
                proof {
                    let f = |x: u16| x as int;
                    lemma_filter_map_commute(v@, mbits, f);
                    assert(Seq::new(v@.len(), |i: int| v@[i] as int) =~= v@.map_values(f));
                    assert(Seq::new(fv@.len(), |i: int| fv@[i] as int) =~= fv@.map_values(f));
                    assert forall|i: int|
                        0 <= i < fv@.len() implies *o as int + #[trigger] fv@.map_values(f)[i]
                        <= i64::MAX by {
                        let s = v@.map_values(f);
                        lemma_filter_seq_subset(s, mbits, i);
                    }
                }
                r
            },
            TypedVec::EncodedU32(v, o) => {
                let fv = filter_vec_u32(v, m);
                let r = TypedVec::EncodedU32(fv, *o);
                proof {
                    let f = |x: u32| x as int;
                    lemma_filter_map_commute(v@, mbits, f);
                    assert(Seq::new(v@.len(), |i: int| v@[i] as int) =~= v@.map_values(f));
                    assert(Seq::new(fv@.len(), |i: int| fv@[i] as int) =~= fv@.map_values(f));
                    assert forall|i: int|
                        0 <= i < fv@.len() implies *o as int + #[trigger] fv@.map_values(f)[i]
                        <= i64::MAX by {
                        let s = v@.map_values(f);
                        lemma_filter_seq_subset(s, mbits, i);
                    }
                }
                r
            },
            TypedVec::Str(v) => {
                let fv = filter_vec_str(v, m);
                let r = TypedVec::Str(fv);
                proof {
                    let f = |s: String| s@;
                    lemma_filter_map_commute(v@, mbits, f);
                    assert(Seq::new(v@.len(), |i: int| v@[i]@) =~= v@.map_values(f));
                    assert(Seq::new(fv@.len(), |i: int| fv@[i]@) =~= fv@.map_values(f));
                }
                r
            },
            TypedVec::Boolean(b) => TypedVec::Boolean(filter_bv(b, m)),
            TypedVec::Constant(v) => TypedVec::Constant(raw_clone(v)),
            TypedVec::Empty(_) => TypedVec::Empty(bv_count(m)),
        }
    }

    /// Decodes an integer-valued run into plain `i64` values.
    pub fn decoded(&self) -> (r: TypedVec)
        requires
            self.wf(),
            self@.is_intish(),
        ensures
            r@ == TVM::Ints(self@.ints()),
    {
        match self {
            TypedVec::Integer(v) => {
                let mut out: Vec<i64> = Vec::new();
                let n = v.len();
                let mut i: usize = 0;
                while i < n
                    invariant
                        i <= n,
                        n == v@.len(),
                        out@ == v@.take(i as int),
                    decreases n - i,
                {
                    out.push(v[i]);
                    proof {
                        assert(out@ =~= v@.take(i + 1));
                    }
                    i += 1;
                }
                proof {
                    assert(v@.take(n as int) =~= v@);
                    assert(Seq::new(out@.len(), |i: int| out@[i] as int) =~= self@.ints());
                }
                TypedVec::Integer(out)
            },
            TypedVec::EncodedU8(v, o) => {
                let mut out: Vec<i64> = Vec::new();
                let n = v.len();
                let mut i: usize = 0;
                while i < n
                    invariant
                        i <= n,
                        n == v@.len(),
                        self.wf(),
                        self matches TypedVec::EncodedU8(v2, o2) && v2@ == v@ && o2 == o,
                        out@.len() == i,
                        forall|j: int| 0 <= j < i ==> out@[j] == *o + v@[j],
                    decreases n - i,
                {
                    proof {
                        if let TVM::Codes(s, o2) = self@ {
                            assert(o2 + s[i as int] <= i64::MAX);
                            assert(s[i as int] == v@[i as int] as int);
                        }
                    }
                    let d: i64 = *o + v[i] as i64;
                    out.push(d);
                    i += 1;
                }
                proof {
                    assert(Seq::new(out@.len(), |i: int| out@[i] as int) =~= self@.ints());
                }
                TypedVec::Integer(out)
            },
            TypedVec::EncodedU16(v, o) => {
                let mut out: Vec<i64> = Vec::new();
                let n = v.len();
                let mut i: usize = 0;
                while i < n
                    invariant
                        i <= n,
                        n == v@.len(),
                        self.wf(),
                        self matches TypedVec::EncodedU16(v2, o2) && v2@ == v@ && o2 == o,
                        out@.len() == i,
                        forall|j: int| 0 <= j < i ==> out@[j] == *o + v@[j],
                    decreases n - i,
                {
                    proof {
                        if let TVM::Codes(s, o2) = self@ {
                            assert(o2 + s[i as int] <= i64::MAX);
                            assert(s[i as int] == v@[i as int] as int);
                        }
                    }
                    let d: i64 = *o + v[i] as i64;
                    out.push(d);
                    i += 1;
                }
                proof {
                    assert(Seq::new(out@.len(), |i: int| out@[i] as int) =~= self@.ints());
                }
                TypedVec::Integer(out)
            },
            TypedVec::EncodedU32(v, o) => {
                let mut out: Vec<i64> = Vec::new();
                let n = v.len();
                let mut i: usize = 0;
                while i < n
                    invariant
                        i <= n,
                        n == v@.len(),
                        self.wf(),
                        self matches TypedVec::EncodedU32(v2, o2) && v2@ == v@ && o2 == o,
                        out@.len() == i,
                        forall|j: int| 0 <= j < i ==> out@[j] == *o + v@[j],
                    decreases n - i,
                {
                    proof {
                        if let TVM::Codes(s, o2) = self@ {
                            assert(o2 + s[i as int] <= i64::MAX);
                            assert(s[i as int] == v@[i as int] as int);
                        }
                    }
                    let d: i64 = *o + v[i] as i64;
                    out.push(d);
                    i += 1;
                }
                proof {
                    assert(Seq::new(out@.len(), |i: int| out@[i] as int) =~= self@.ints());
                }
                TypedVec::Integer(out)
            },
            _ => {
                proof {
                    assert(false);
                }
                TypedVec::Empty(0)
            },
        }
    }

    /// Materializes the cell at row `i` as a boundary value.
    pub fn get_raw(&self, i: usize) -> (r: RawVal)
        requires
            self.wf(),
            self matches TypedVec::Constant(_) || i < self@.len_spec(),
        ensures
            r@ == self@.cell(i as int),
    {
        match self {
            TypedVec::Integer(v) => RawVal::Int(v[i]),
            TypedVec::EncodedU8(v, o) => RawVal::Int(*o + v[i] as i64),
            TypedVec::EncodedU16(v, o) => RawVal::Int(*o + v[i] as i64),
            TypedVec::EncodedU32(v, o) => RawVal::Int(*o + v[i] as i64),
            TypedVec::Str(v) => RawVal::Str(v[i].clone()),
            TypedVec::Boolean(_) => RawVal::Null,
            TypedVec::Constant(v) => raw_clone(v),
            TypedVec::Empty(_) => RawVal::Null,
        }
    }
}

/// A filtered entry comes from the original run, so bounds on all
/// entries carry over.
pub proof fn lemma_filter_seq_subset<A>(s: Seq<A>, m: Seq<bool>, i: int)
    requires
        s.len() == m.len(),
        0 <= i < filter_seq(s, m).len(),
    ensures
        exists|j: int| 0 <= j < s.len() && filter_seq(s, m)[i] == s[j],
    decreases s.len(),
{
    if s.len() == 0 {
    } else {
        let rest = filter_seq(s.drop_last(), m.drop_last());
        if m.last() && i == rest.len() {
            assert(filter_seq(s, m)[i] == s[s.len() - 1]);
        } else {
            lemma_filter_seq_subset(s.drop_last(), m.drop_last(), i);
            let j = choose|j: int|
                0 <= j < s.drop_last().len() && rest[i] == s.drop_last()[j];
            assert(filter_seq(s, m)[i] == s[j]);
        }
    }
}

} // verus!
