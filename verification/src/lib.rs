//! Core of a property-based testing engine: a byte-oriented data source that
//! records every draw a test makes, a total order on recorded executions, and
//! a generate-then-shrink loop that reduces interesting executions to minimal
//! counterexamples.

pub mod codec;
pub mod data;
pub mod database;
pub mod engine;
pub mod intminimize;
pub mod random;
pub mod shrinker;
