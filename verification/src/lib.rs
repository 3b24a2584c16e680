//! An in-memory columnar query engine: batches of encoded columns,
//! a vectorized operator runtime, a small query planner, and a driver
//! that merges per-batch results under limit/offset, ordering and
//! aggregation.

pub mod aggregate;
pub mod bits;
pub mod column;
pub mod expr;
pub mod ingest;
pub mod parser;
pub mod planner;
pub mod query;
pub mod regexes;
pub mod scratchpad;
pub mod sort;
pub mod store;
pub mod strutil;
pub mod typed_vec;
pub mod val;
pub mod vector_op;
