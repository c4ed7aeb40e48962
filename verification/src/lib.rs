//! A cycle-accurate model of an out-of-order, four-wide integer pipeline with
//! register renaming, a unified issue queue and precise exceptions.

pub mod alu;
pub mod consistency;
pub mod entries;
pub mod input;
pub mod instruction;
pub mod laws;
pub mod model;
pub mod search;
pub mod simulator;
pub mod state;
pub mod text;
