//! The incremental-dataflow backend.
//!
//! The laws on it are in modules of their own: [`body_laws`] and [`mode_laws`] on what a plan matches,
//! [`head_laws`], [`write_laws`] and [`round_laws`] on what a round does with the matches, and
//! [`rebuild_laws`] and [`circuit_laws`] on rebuilds.
pub mod body_laws;
pub mod circuit_laws;
pub mod circuit_rebuild;
pub mod compile;
pub mod converged;
pub mod egraph;
pub mod expr;
pub mod external_func;
pub mod finish;
pub mod head;
pub mod head_laws;
pub mod interpret;
pub mod join;
pub mod matches;
pub mod mode_laws;
pub mod plan;
pub mod rebuild;
pub mod rebuild_circuit;
pub mod rebuild_laws;
pub mod rev_index;
pub mod round;
pub mod round_laws;
pub mod row;
pub mod rule_builder;
pub mod settle;
pub mod table;
pub mod uf;
pub mod write_laws;
