//! Verified cores of two egglog execution backends.
//!
//! * [`backend`] holds the identifiers, schemas and merge functions that both
//!   backends share.
//! * [`feldera`] is the incremental-dataflow backend: rule IR, join planning,
//!   the per-iteration driver, the in-core union-find and the rebuild logic.
//! * [`duckdb`] is the relational backend: rules rewritten for the in-core
//!   union-find, the SQL statements, the iteration driver, the passes between
//!   iterations and the primitives that run outside SQL.
//! * [`collections`] holds the hash tables, and [`text`] the helpers for strings, with
//!   [`text_laws`] on how texts are put together.
//!
//! Everything here computes on plain values. Driving a dataflow circuit or a
//! database connection is left to the application around the library: the
//! library says what is to be run next and takes what came of it.
pub mod backend;
pub mod collections;
pub mod duckdb;
pub mod feldera;
pub mod text;
pub mod text_laws;
