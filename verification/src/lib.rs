//! Specification mutation testing: first-order signatures and formulas,
//! finite models, the specification lattice, mutation generation,
//! tightness evaluation, and the Lean IR front end.
use vstd::prelude::*;

pub mod names;
pub mod bignum;
pub mod signature;
pub mod formula;
pub mod model;
pub mod serial;
pub mod lattice;
pub mod metric;
pub mod tightness;
pub mod mutation;
pub mod cegis;
pub mod ir_types;
pub mod translator;
pub mod translation;
pub mod passes;
pub mod slicer;
pub mod model_file;
pub mod witness;
pub mod lean_pipeline;
pub mod output;
pub mod pipeline;
pub mod config;
pub mod analysis;
pub mod compare;
pub mod runner;
pub mod laws;

verus! {
} // verus!
