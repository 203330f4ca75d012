//! Group consolidation: domain types and the pure consolidation algorithms.
pub mod types;
pub mod engine;
pub mod aggregate;
pub mod worksheet;
pub mod translate;
pub mod cash_flow;
pub mod run;
pub mod consolidate;
pub mod statements;
pub mod close;
pub mod scope;
pub mod recon;
pub mod ownership;
pub mod notes;
pub mod plan;
