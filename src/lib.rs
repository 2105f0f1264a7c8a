//! A transactional, incrementally maintained relational fact store.
//!
//! Base relations are edited one tuple at a time; derived relations are
//! defined by rules built from filter, projection, equi-join, antijoin and
//! union, possibly reading themselves (bounded fixpoint). After every edit
//! each derived relation whose inputs changed is brought up to date, and the
//! proofs show that the result always equals a from-scratch recomputation.
//! Each relation carries a signed accumulator of its net changes since the
//! last `start`; `commit` emits the accumulated delta of the synchronized
//! relations and `rollback` undoes the pending base changes.
//!
//! - `value`: field values and tuples.
//! - `store`: a relation's content, a duplicate-free set of tuples.
//! - `plan`: relational operator trees and their meaning.
//! - `graph`: derived-relation definitions and their from-scratch semantics.
//! - `delta`: the signed, coalescing accumulator.
//! - `engine`: the fact store, evaluator, delta tracker and transactions.
//! - `laws`: properties relating the engine's operations.
//! - `schema`: a representative network schema and its rules.
//! - `processor`: the request/response command processor.
//! - `uint`: wide unsigned integers read from numerals.
pub mod value;
pub mod store;
pub mod plan;
pub mod graph;
pub mod delta;
pub mod engine;
pub mod laws;
pub mod schema;
pub mod processor;
pub mod uint;

use vstd::prelude::*;

verus! {

} // verus!
