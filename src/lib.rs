//! Boundary searches over sorted sequences, for range queries.
//!
//! Each search takes the sequence, a target and a three-way comparator, and
//! halves an interval of positions until one boundary is found:
//! `bsearch_ge` the first element not less than the target, `bsearch_le` the
//! last element not greater than it, `bsearch_eq` an element equal to it.
//!
//! What a search assumes is stated once, in `model`: the comparator may be
//! called on any two elements (`comparator_ok`), and the orderings it gives
//! for the elements against the target never step back from `Greater` to
//! `Equal` or from `Equal` to `Less` (`sorted_against`). A comparator that is
//! a total order by which the sequence is sorted meets both for every target.
//! `laws` proves what follows for several calls: repeated calls agree, and a
//! lower and an upper bound delimit a range query.
pub mod laws;
pub mod model;
pub mod search;

pub use search::{bsearch_eq, bsearch_ge, bsearch_le};
