//! A table-driven LL(1) parser library: grammar registration, FIRST- and
//! FOLLOW-set computation by fixed-point iteration, prediction-table
//! construction, and a stack-based parse driver that emits a derivation trace.

pub mod model;
pub mod parser;
pub mod rule;
pub mod sets;
