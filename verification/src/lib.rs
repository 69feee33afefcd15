//! Satz: the estate tooling's decisions — shapes of the day-0 parameters, the
//! adopt table, the import delta, the compliance triage — as verified functions.

pub mod text;
pub mod day_zero;
pub mod delta;
pub mod discovery;
pub mod order;
pub mod compliance;
pub mod bootstrap;
pub mod actions;
pub mod adopt;
pub mod config;
pub mod emit_shared;
pub mod align;
pub mod dossier;
pub mod yaml;
pub mod grants;
pub mod report;
pub mod consumer;
