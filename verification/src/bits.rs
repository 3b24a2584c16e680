//! Boolean masks, stored in `bit_vec::BitVec`.
//!
//! The bit vector type comes from the `bit-vec` crate; each call the
//! engine makes into that crate goes through one trusted wrapper here,
//! whose contract speaks of the abstract bit sequence `bits_of`.

use vstd::prelude::*;

verus! {

#[verifier::external_type_specification]
#[verifier::external_body]
#[verifier::reject_recursive_types(B)]
pub struct ExBitVec<B>(bit_vec::BitVec<B>);

/// The sequence of bits a `BitVec` holds.
pub uninterp spec fn bits_of(v: bit_vec::BitVec) -> Seq<bool>;

/// Relies on `BitVec::new`: creates an empty bit vector.
#[verifier::external_body]
pub fn bv_new() -> (r: bit_vec::BitVec)
    ensures
        bits_of(r) == Seq::<bool>::empty(),
{
    bit_vec::BitVec::new()
}

/// Relies on `BitVec::push`: appends one bit at the end.
#[verifier::external_body]
pub fn bv_push(v: &mut bit_vec::BitVec, b: bool)
    requires
        bits_of(*old(v)).len() < usize::MAX,
    ensures
        bits_of(*final(v)) == bits_of(*old(v)).push(b),
{
    v.push(b)
}

/// Relies on `BitVec::get`: the bit at `i`, or `None` past the end.
#[verifier::external_body]
pub fn bv_get(v: &bit_vec::BitVec, i: usize) -> (r: Option<bool>)
    ensures
        r == if i < bits_of(*v).len() {
            Some(bits_of(*v)[i as int])
        } else {
            None::<bool>
        },
{
    v.get(i)
}

/// Relies on `BitVec::len`: the number of bits held.
#[verifier::external_body]
pub fn bv_len(v: &bit_vec::BitVec) -> (n: usize)
    ensures
        n == bits_of(*v).len(),
{
    v.len()
}

/// Relies on `BitVec::and`: pointwise conjunction of two equal-length
/// bit vectors, stored into the left one.
#[verifier::external_body]
pub fn bv_and(v: &mut bit_vec::BitVec, other: &bit_vec::BitVec)
    requires
        bits_of(*old(v)).len() == bits_of(*other).len(),
    ensures
        bits_of(*final(v)) == Seq::<bool>::new(
            bits_of(*old(v)).len(),
            |i: int| bits_of(*old(v))[i] && bits_of(*other)[i],
        ),
{
    v.and(other);
}

/// Relies on `BitVec::or`: pointwise disjunction of two equal-length
/// bit vectors, stored into the left one.
#[verifier::external_body]
pub fn bv_or(v: &mut bit_vec::BitVec, other: &bit_vec::BitVec)
    requires
        bits_of(*old(v)).len() == bits_of(*other).len(),
    ensures
        bits_of(*final(v)) == Seq::<bool>::new(
            bits_of(*old(v)).len(),
            |i: int| bits_of(*old(v))[i] || bits_of(*other)[i],
        ),
{
    v.or(other);
}

/// How many entries of a bit sequence are set.
pub open spec fn count_true(s: Seq<bool>) -> nat
    decreases s.len(),
{
    if s.len() == 0 {
        0
    } else {
        count_true(s.drop_last()) + if s.last() {
            1nat
        } else {
            0nat
        }
    }
}

/// Counts the set bits of a mask.
pub fn bv_count(v: &bit_vec::BitVec) -> (n: usize)
    ensures
        n == count_true(bits_of(*v)),
{
    let len = bv_len(v);
    let mut n: usize = 0;
    let mut i: usize = 0;
    while i < len
        invariant
            i <= len,
            len == bits_of(*v).len(),
            n == count_true(bits_of(*v).take(i as int)),
            n <= i,
        decreases len - i,
    {
        match bv_get(v, i) {
            Some(b) => {
                proof {
                    let s = bits_of(*v);
                    assert(s.take(i + 1).drop_last() =~= s.take(i as int));
                    assert(s.take(i + 1).last() == s[i as int]);
                }
                if b {
                    n += 1;
                }
            }
            None => {
                proof {
                    assert(false);
                }
            }
        }
        i += 1;
    }
    proof {
        assert(bits_of(*v).take(len as int) =~= bits_of(*v));
    }
    n
}

} // verus!
