//! Arithmetic expression trees with a simulated parallel schedule.
//!
//! An expression is a parenthesized prefix tree of `+`, `-` and `*` operators
//! over signed integer literals.  The library parses such expressions,
//! evaluates them, computes their cost metrics (critical path, total work,
//! per-node depth priority), and greedily schedules every operator node onto
//! a fixed pool of identical workers, producing a full assignment and its
//! makespan.

pub mod parse;
pub mod sched;
pub mod tree;
