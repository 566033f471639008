//! Ranks the functions of a disassembled program by how likely they are to
//! hold logic gated on comparisons against string literals.
//!
//! - `segment`: the loaded address space and typed reads from it.
//! - `arm`: the instruction model and the evaluator that recovers the
//!   arguments of a call whose result decides a zero-conditional branch.
//! - `comparisons`: the filter for string-literal comparisons and the
//!   per-callee scores.
//! - `function`: control-flow graphs, reachability and dominators.
//! - `metric`: the score of each block from its dominator subtree.
//! - `heap`: a bounded heap that keeps the greatest items.

pub mod analysis;
pub mod arch;
pub mod arm;
pub mod comparisons;
pub mod function;
pub mod heap;
pub mod image;
pub mod metric;
pub mod segment;
