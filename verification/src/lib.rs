//! A technology-mapping logic synthesizer for combinational netlists.
//!
//! Boolean expressions over AND, OR, NOT, wires and `let` bindings are
//! rewritten by equality saturation and mapped onto standard cells from a
//! characterized library, minimizing a chosen physical metric.

pub mod construct;
pub mod egraph;
pub mod explain;
pub mod expr;
pub mod extract;
pub mod matcher;
pub mod pattern;
pub mod query;
pub mod rules;
pub mod runner;
pub mod sexp;
pub mod synth;
