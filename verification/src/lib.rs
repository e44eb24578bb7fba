//! A disjoint-set (union-find) store over dense integer ids, with path
//! compression on lookup and union by rank on merge.
//!
//! [`forest::Forest`] is the mathematical model: parent links and ranks as
//! sequences, the root of every element, and the effect of each operation as a
//! function on models. [`UnionFind`] is the executable store; the contract of
//! each of its operations says which model it leaves behind and what it
//! returns. [`laws`] states what holds of any sequence of operations.

pub mod forest;
pub mod laws;
pub mod store;

pub use crate::forest::Forest;
pub use crate::store::UnionFind;
