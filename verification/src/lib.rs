//! A policy evaluation engine: parsers for two policy dialects, a threshold
//! policy tree, a satisfaction evaluator over attribute sets, and a
//! fixed-width commitment encoder for the journal of a deterministic run.

pub mod scan;
pub mod tree;
pub mod human;
pub mod json;
pub mod parser;
pub mod attrs;
pub mod commit;
pub mod hash;
pub mod harness;
pub mod serial;
pub mod laws;
