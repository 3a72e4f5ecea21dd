//! A conflict-driven clause-learning SAT solver together with the sparse
//! bitset, pooling and slot-reuse utilities it is built from.

pub mod analysis;
pub mod avl_tree;
pub mod bitset;
pub mod cdcl;
pub mod engine;
pub mod exhaustive;
pub mod fixed_bitset;
pub mod luby;
pub mod order;
pub mod pool;
pub mod random;
pub mod ranked;
pub mod sat;
pub mod settle;
pub mod tombstone;
pub mod trace;
pub mod trail;
