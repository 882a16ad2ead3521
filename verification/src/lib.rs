//! An in-memory ordered associative container: a balanced multiway search
//! tree supporting ordered insertion, point lookup, deletion with
//! rebalancing, and ordered range queries over a dynamic key set.
//!
//! The tree is viewed abstractly as a `Map<i64, V>`; every public operation
//! carries a contract stated over that view.

pub mod bounds;
pub mod node;
mod balance;
mod ops;
mod range;
pub mod laws;

pub use bounds::Bound;
pub use node::SimpleTree;
