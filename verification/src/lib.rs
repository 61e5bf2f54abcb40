//! A cycle-accurate functional simulator of an out-of-order execution core
//! with explicit register renaming: a reorder buffer, a physical-register
//! free list and map table, reservation stations, and five pipeline-stage
//! procedures (retire, complete, execute, issue, dispatch) that advance
//! simulated time by one cycle.

pub mod engine;
pub mod inst;
pub mod laws;
pub mod reg;
pub mod rob;
