//! Loom runtime logic: the rules by which a feature graph is scheduled,
//! its workers' results are judged, and a run's outcome is recorded.

pub mod artifact;
pub mod atomic_write;
pub mod calendar;
pub mod cli;
pub mod config;
pub mod decimal;
pub mod delivery;
pub mod discovery;
pub mod dispatch;
pub mod exit;
pub mod feature_id;
pub mod iteration;
pub mod journal;
pub mod json_reader;
pub mod moment;
pub mod names;
pub mod order;
pub mod paths;
pub mod readback;
pub mod recovery;
pub mod spawn_env;
pub mod state;
pub mod status;
pub mod text;
pub mod verdict;
pub mod worker_claude_code;
