//! Helpers between the SQL front end and the engine: splitting parsed
//! select clauses into plain selections and aggregations, and checking
//! identifiers. The grammar itself lives in the embedding application;
//! the engine consumes the parsed `Query` tree.

use vstd::prelude::*;

use crate::expr::{Aggregator, Expr, LimitClause};
use crate::query::Query;

verus! {

/// One parsed select clause: a plain expression or an aggregation.
pub enum AggregateOrSelect {
    Aggregate((Aggregator, Expr)),
    Select(Expr),
}

/// The plain selections of a clause list, in order.
pub open spec fn selects_of(s: Seq<AggregateOrSelect>) -> Seq<Expr>
    decreases s.len(),
{
    if s.len() == 0 {
        Seq::empty()
    } else {
        let rest = selects_of(s.drop_last());
        match s.last() {
            AggregateOrSelect::Select(e) => rest.push(e),
            _ => rest,
        }
    }
}

/// The aggregations of a clause list, in order.
pub open spec fn aggs_of(s: Seq<AggregateOrSelect>) -> Seq<(Aggregator, Expr)>
    decreases s.len(),
{
    if s.len() == 0 {
        Seq::empty()
    } else {
        let rest = aggs_of(s.drop_last());
        match s.last() {
            AggregateOrSelect::Aggregate(a) => rest.push(a),
            _ => rest,
        }
    }
}

/// Splits parsed select clauses into the plain selections and the
/// aggregations, each in clause order.
pub fn partition(select_or_aggregates: Vec<AggregateOrSelect>) -> (r: (
    Vec<Expr>,
    Vec<(Aggregator, Expr)>,
))
    ensures
        r.0@ == selects_of(select_or_aggregates@),
        r.1@ == aggs_of(select_or_aggregates@),
{
    let mut selects: Vec<Expr> = Vec::new();
    let mut aggregates: Vec<(Aggregator, Expr)> = Vec::new();
    let mut rest = select_or_aggregates;
    let n = rest.len();
    let ghost all = rest@;
    let mut i: usize = 0;
    while i < n
        invariant
            i <= n,
            n == all.len(),
            rest@ == all.skip(i as int),
            selects@ == selects_of(all.take(i as int)),
            aggregates@ == aggs_of(all.take(i as int)),
        decreases n - i,
    {
        let item = rest.remove(0);
        proof {
            assert(item == all[i as int]);
            assert(rest@ =~= all.skip(i as int + 1));
            assert(all.take(i as int + 1).drop_last() =~= all.take(i as int));
            assert(all.take(i as int + 1).last() == all[i as int]);
        }
        match item {
            AggregateOrSelect::Select(e) => {
                selects.push(e);
            },
            AggregateOrSelect::Aggregate(a) => {
                aggregates.push(a);
            },
        }
        i += 1;
    }
    proof {
        assert(all.take(n as int) =~= all);
    }
    (selects, aggregates)
}

/// Assembles a query from parsed clauses; a missing limit clause means
/// an unbounded window.
pub fn construct_query(
    select_clauses: Vec<AggregateOrSelect>,
    table: String,
    filter: Expr,
    order_by: Option<Expr>,
    limit: Option<LimitClause>,
) -> (q: Query)
    ensures
        q.select@ == selects_of(select_clauses@),
        q.aggregate@ == aggs_of(select_clauses@),
        q.table == table,
        q.filter == filter,
        q.order_by == order_by,
        q.limit == match limit {
            Some(l) => l,
            None => LimitClause { limit: u64::MAX, offset: 0 },
        },
{
    let (select, aggregate) = partition(select_clauses);
    let limit_clause = match limit {
        Some(l) => l,
        None => LimitClause { limit: u64::MAX, offset: 0 },
    };
    Query { select, table, filter, aggregate, order_by, limit: limit_clause }
}

/// Whether a byte can start an identifier: an ASCII letter or `_`.
pub fn is_ident_start_char(chr: u8) -> (r: bool)
    ensures
        r == ident_start(chr),
{
    (65 <= chr && chr <= 90) || (97 <= chr && chr <= 122) || chr == 95
}

/// Whether a byte can continue an identifier: also digits.
pub fn is_ident_char(chr: u8) -> (r: bool)
    ensures
        r == ident_char(chr),
{
    is_ident_start_char(chr) || (48 <= chr && chr <= 57)
}

pub open spec fn ident_start(chr: u8) -> bool {
    (65 <= chr <= 90) || (97 <= chr <= 122) || chr == 95
}

pub open spec fn ident_char(chr: u8) -> bool {
    ident_start(chr) || (48 <= chr <= 57)
}

/// Turns a scanned identifier into its text: rejected when its first
/// byte cannot start an identifier or the bytes are not UTF-8.
pub fn create_sql_identifier(bytes: &Vec<u8>) -> (r: Result<String, String>)
    requires
        bytes@.len() > 0,
    ensures
        r is Ok <==> ident_start(bytes@[0]) && vstd::utf8::valid_utf8(bytes@),
        r matches Ok(s) ==> vstd::utf8::encode_utf8(s@) == bytes@,
{
    if !is_ident_start_char(bytes[0]) {
        return Err(String::from_str("Identifier must not start with number."));
    }
    match crate::strutil::utf8_to_string(bytes) {
        Some(s) => Ok(s),
        None => Err(String::from_str("UTF8Error")),
    }
}

} // verus!
