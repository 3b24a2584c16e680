//! Parsed expressions, their static types over a batch, and their
//! row-at-a-time meaning. The vectorized pipeline is proved against the
//! row-at-a-time meaning given here.

use vstd::prelude::*;

use crate::column::{Batch, ColData};
use crate::regexes::regex_match_of;
use crate::val::{RVal, ValueType};

verus! {

/// The functions an expression tree can apply.
#[derive(Clone, Copy, PartialEq, Eq, Structural, Debug)]
pub enum FuncType {
    Equals,
    LT,
    GT,
    And,
    Or,
    Negate,
    Add,
    RegexMatch,
}

/// The aggregations a query can request.
#[derive(Clone, Copy, PartialEq, Eq, Structural, Debug)]
pub enum Aggregator {
    Count,
    Sum,
}

/// Row window of a query: skip `offset` matching rows, then keep at most
/// `limit`.
#[derive(Clone, Copy, PartialEq, Eq, Structural, Debug)]
pub struct LimitClause {
    pub limit: u64,
    pub offset: u64,
}

/// A parsed expression over the columns of a batch.
#[derive(Debug)]
pub enum Expr {
    Const(ValueType),
    ColName(String),
    Func(FuncType, Box<Expr>, Box<Expr>),
}

/// The static type of an expression.
#[derive(Clone, Copy, PartialEq, Eq, Structural, Debug)]
pub enum ETy {
    EInt,
    EStr,
    EBool,
    ENull,
}

/// Wraps an integer into the `i64` range, the overflow policy of all
/// engine arithmetic.
pub open spec fn wrap64(x: int) -> int {
    if x > i64::MAX {
        x - 0x1_0000_0000_0000_0000
    } else if x < i64::MIN {
        x + 0x1_0000_0000_0000_0000
    } else {
        x
    }
}

impl Expr {
    /// The static type of `self` over batch `b`; `None` is a type error.
    pub open spec fn etype(self, b: Batch) -> Option<ETy>
        decreases self,
    {
        match self {
            Expr::Const(v) => match v {
                ValueType::Null => Some(ETy::ENull),
                ValueType::Bool(_) => Some(ETy::EBool),
                ValueType::Integer(_) => Some(ETy::EInt),
                ValueType::Str(_) => Some(ETy::EStr),
            },
            Expr::ColName(n) => if b.has_col(n@) {
                let c = b.col_named(n@);
                if c.is_int() {
                    Some(ETy::EInt)
                } else if c.is_str() {
                    Some(ETy::EStr)
                } else {
                    Some(ETy::ENull)
                }
            } else {
                None
            },
            Expr::Func(f, l, r) => {
                let lt = l.etype(b);
                let rt = r.etype(b);
                match f {
                    FuncType::Add => if lt == Some(ETy::EInt) && rt == Some(ETy::EInt) {
                        Some(ETy::EInt)
                    } else {
                        None
                    },
                    FuncType::Equals => if lt == Some(ETy::EInt) && rt == Some(ETy::EInt) {
                        Some(ETy::EBool)
                    } else if lt == Some(ETy::EStr) && rt == Some(ETy::EStr) {
                        Some(ETy::EBool)
                    } else {
                        None
                    },
                    FuncType::LT | FuncType::GT => if lt == Some(ETy::EInt) && rt == Some(
                        ETy::EInt,
                    ) {
                        Some(ETy::EBool)
                    } else {
                        None
                    },
                    FuncType::And | FuncType::Or => if lt == Some(ETy::EBool) && rt == Some(
                        ETy::EBool,
                    ) {
                        Some(ETy::EBool)
                    } else {
                        None
                    },
                    FuncType::Negate => if lt == Some(ETy::EInt) {
                        Some(ETy::EInt)
                    } else {
                        None
                    },
                    FuncType::RegexMatch => if lt == Some(ETy::EStr) && rt == Some(ETy::EStr) {
                        Some(ETy::EBool)
                    } else {
                        None
                    },
                }
            },
        }
    }

    /// The integer value of an integer-typed expression at row `i`.
    /// Always within the `i64` range.
    pub open spec fn eval_int(self, b: Batch, i: int) -> int
        decreases self,
    {
        match self {
            Expr::Const(v) => match v {
                ValueType::Integer(x) => x as int,
                _ => 0,
            },
            Expr::ColName(n) => b.col_named(n@).int_at(i),
            Expr::Func(f, l, r) => match f {
                FuncType::Add => wrap64(l.eval_int(b, i) + r.eval_int(b, i)),
                FuncType::Negate => wrap64(-l.eval_int(b, i)),
                _ => 0,
            },
        }
    }

    /// The string value of a string-typed expression at row `i`.
    pub open spec fn eval_str(self, b: Batch, i: int) -> Seq<char> {
        match self {
            Expr::Const(v) => match v {
                ValueType::Str(s) => s@,
                _ => Seq::empty(),
            },
            Expr::ColName(n) => b.col_named(n@).str_at(i),
            _ => Seq::empty(),
        }
    }

    /// The boolean value of a boolean-typed expression at row `i`.
    pub open spec fn eval_bool(self, b: Batch, i: int) -> bool
        decreases self,
    {
        match self {
            Expr::Const(v) => match v {
                ValueType::Bool(x) => x,
                _ => false,
            },
            Expr::Func(f, l, r) => match f {
                FuncType::Equals => if l.etype(b) == Some(ETy::EInt) {
                    l.eval_int(b, i) == r.eval_int(b, i)
                } else {
                    l.eval_str(b, i) == r.eval_str(b, i)
                },
                FuncType::LT => l.eval_int(b, i) < r.eval_int(b, i),
                FuncType::GT => l.eval_int(b, i) > r.eval_int(b, i),
                FuncType::And => l.eval_bool(b, i) && r.eval_bool(b, i),
                FuncType::Or => l.eval_bool(b, i) || r.eval_bool(b, i),
                FuncType::RegexMatch => regex_match_of(r.eval_str(b, i), l.eval_str(b, i)),
                _ => false,
            },
            _ => false,
        }
    }

    /// The materialized cell of an expression at row `i`, by its type.
    pub open spec fn eval_cell(self, b: Batch, i: int) -> RVal {
        match self.etype(b) {
            Some(ETy::EInt) => RVal::I(self.eval_int(b, i) as i64),
            Some(ETy::EStr) => RVal::S(self.eval_str(b, i)),
            _ => RVal::N,
        }
    }

    /// Computes the static type of `self` over batch `b`.
    pub fn ety_of(&self, b: &Batch) -> (r: Option<ETy>)
        requires
            b.wf(),
        ensures
            r == self.etype(*b),
        decreases self,
    {
        match self {
            Expr::Const(v) => match v {
                ValueType::Null => Some(ETy::ENull),
                ValueType::Bool(_) => Some(ETy::EBool),
                ValueType::Integer(_) => Some(ETy::EInt),
                ValueType::Str(_) => Some(ETy::EStr),
            },
            Expr::ColName(n) => match b.find_col(n.as_str()) {
                Some(c) => match &c.data {
                    ColData::Plain(_) | ColData::Off8 { .. } | ColData::Off16 { .. }
                        | ColData::Off32 { .. } => Some(ETy::EInt),
                    ColData::Str(_) => Some(ETy::EStr),
                    ColData::Null(_) => Some(ETy::ENull),
                },
                None => None,
            },
            Expr::Func(f, l, r) => {
                let lt = l.ety_of(b);
                let rt = r.ety_of(b);
                match f {
                    FuncType::Add => if lt == Some(ETy::EInt) && rt == Some(ETy::EInt) {
                        Some(ETy::EInt)
                    } else {
                        None
                    },
                    FuncType::Equals => if lt == Some(ETy::EInt) && rt == Some(ETy::EInt) {
                        Some(ETy::EBool)
                    } else if lt == Some(ETy::EStr) && rt == Some(ETy::EStr) {
                        Some(ETy::EBool)
                    } else {
                        None
                    },
                    FuncType::LT | FuncType::GT => if lt == Some(ETy::EInt) && rt == Some(
                        ETy::EInt,
                    ) {
                        Some(ETy::EBool)
                    } else {
                        None
                    },
                    FuncType::And | FuncType::Or => if lt == Some(ETy::EBool) && rt == Some(
                        ETy::EBool,
                    ) {
                        Some(ETy::EBool)
                    } else {
                        None
                    },
                    FuncType::Negate => if lt == Some(ETy::EInt) {
                        Some(ETy::EInt)
                    } else {
                        None
                    },
                    FuncType::RegexMatch => if lt == Some(ETy::EStr) && rt == Some(ETy::EStr) {
                        Some(ETy::EBool)
                    } else {
                        None
                    },
                }
            },
        }
    }

    /// Appends the names of all columns `self` mentions to `out`.
    pub fn add_colnames(&self, out: &mut Vec<String>)
        ensures
            final(out)@.len() >= old(out)@.len(),
            forall|j: int| 0 <= j < old(out)@.len() ==> final(out)@[j] == old(out)@[j],
            forall|n: Seq<char>| self.mentions(n) ==> exists|j: int|
                0 <= j < final(out)@.len() && (#[trigger] final(out)@[j])@ == n,
            forall|j: int|
                old(out)@.len() <= j < final(out)@.len() ==> self.mentions(
                    (#[trigger] final(out)@[j])@,
                ),
        decreases self,
    {
        match self {
            Expr::Const(_) => {},
            Expr::ColName(n) => {
                out.push(n.clone());
                proof {
                    assert forall|m: Seq<char>| self.mentions(m) implies exists|j: int|
                        0 <= j < out@.len() && (#[trigger] out@[j])@ == m by {
                        assert((out@[out@.len() - 1])@ == m);
                    }
                }
            },
            Expr::Func(_, l, r) => {
                l.add_colnames(out);
                let ghost mid = out@;
                r.add_colnames(out);
                proof {
                    assert forall|m: Seq<char>| self.mentions(m) implies exists|j: int|
                        0 <= j < out@.len() && (#[trigger] out@[j])@ == m by {
                        if l.mentions(m) {
                            let j = choose|j: int|
                                0 <= j < mid.len() && (#[trigger] mid[j])@ == m;
                            assert(out@[j]@ == m);
                        } else {
                            assert(r.mentions(m));
                        }
                    }
                }
            },
        }
    }

    /// Whether `self` mentions a column of the given name.
    pub open spec fn mentions(self, name: Seq<char>) -> bool
        decreases self,
    {
        match self {
            Expr::Const(_) => false,
            Expr::ColName(n) => n@ == name,
            Expr::Func(_, l, r) => l.mentions(name) || r.mentions(name),
        }
    }
}

} // verus!
