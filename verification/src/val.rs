//! Boundary values: the tagged value type that query results are
//! materialized into, and the constant type that expressions carry.

use vstd::prelude::*;

verus! {

/// A materialized cell of a query result: empty, integer, or string.
#[derive(Clone, Debug, PartialEq, Eq)]
pub enum RawVal {
    Null,
    Int(i64),
    Str(String),
}

/// Mathematical model of a `RawVal`: strings are sequences of characters.
pub enum RVal {
    N,
    I(i64),
    S(Seq<char>),
}

impl View for RawVal {
    type V = RVal;

    open spec fn view(&self) -> RVal {
        match self {
            RawVal::Null => RVal::N,
            RawVal::Int(i) => RVal::I(*i),
            RawVal::Str(s) => RVal::S(s@),
        }
    }
}

/// A constant in a parsed expression. Unlike `RawVal` it can carry a
/// boolean, which the default (always-true) filter uses.
#[derive(Clone, Debug)]
pub enum ValueType {
    Null,
    Bool(bool),
    Integer(i64),
    Str(String),
}

/// A copy of a materialized value, equal at the model level.
pub fn raw_clone(v: &RawVal) -> (r: RawVal)
    ensures
        r@ == v@,
{
    match v {
        RawVal::Null => RawVal::Null,
        RawVal::Int(i) => RawVal::Int(*i),
        RawVal::Str(s) => RawVal::Str(s.clone()),
    }
}

/// Equality of two materialized values, decided over their models.
pub fn raw_val_eq(a: &RawVal, b: &RawVal) -> (r: bool)
    ensures
        r == (a@ == b@),
{
    match (a, b) {
        (RawVal::Null, RawVal::Null) => true,
        (RawVal::Int(x), RawVal::Int(y)) => x == y,
        (RawVal::Str(x), RawVal::Str(y)) => x.eq(y),
        _ => {
            proof {
                assert(a@ != b@);
            }
            false
        }
    }
}

} // verus!
