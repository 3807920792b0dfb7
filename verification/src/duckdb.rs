//! The relational backend: rules and tables rendered as SQL for a DuckDB connection.
//!
//! [`egraph`] keeps the tables, rules and union-finds; [`drive`] says which statement of an
//! iteration comes next, with [`runner`] for a single rule, [`iterate`] for the choice of rules and
//! the sync of the union-finds, and [`passes`] and [`term_build`] for what follows the rules.
//! [`rules`] rewrites rules, [`sql`] and [`names`] write statements, [`schema`] describes tables,
//! and [`perf`] accounts for time. The primitives on interned values are in [`udf`] and [`fold`],
//! over [`pool`], [`integer`], [`rational`] and [`ops`].
//!
//! What all this comes to is stated beside it: [`meaning`] says what statements mean on rows, and
//! [`pass_laws`], [`plan_laws`], [`build_laws`] and [`statement_laws`] what the statements do; [`named`]
//! and [`primitive_laws`] say what the primitives give, [`rule_laws`], [`run_laws`] and [`name_laws`]
//! what becomes of rules, iterations and names.
pub mod base_value;
pub mod build_laws;
pub mod changed;
pub mod drive;
pub mod egraph;
pub mod fold;
pub mod integer;
pub mod iterate;
pub mod meaning;
pub mod name_laws;
pub mod named;
pub mod names;
pub mod ops;
pub mod pass_laws;
pub mod passes;
pub mod plan_laws;
pub mod perf;
pub mod pool;
pub mod primitive_laws;
pub mod rational;
pub mod rule_laws;
pub mod rules;
pub mod run_laws;
pub mod runner;
pub mod schema;
pub mod sql;
pub mod statement_laws;
pub mod strmap;
pub mod term_build;
pub mod udf;
