//! Incremental loader for a single training run's append-only event files.
//!
//! The loader reconciles a changing set of event files, translates decoded
//! records into typed time-series samples, keeps a bounded reservoir of
//! staged samples per series, and publishes stable snapshots into a shared
//! per-run commit.

pub mod commit;
pub mod laws;
pub mod record;
pub mod reservoir;
pub mod run;
pub mod types;
