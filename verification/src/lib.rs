//! Engine of the IC3 model-checking algorithm.

pub mod blank;
pub mod block;
pub mod block_laws;
pub mod collections;
pub mod cube_laws;
pub mod effort;
pub mod effort_laws;
pub mod engine;
pub mod fault;
pub mod heuristic;
pub mod keeping;
pub mod laws;
pub mod lit;
pub mod lucid;
pub mod meaning;
pub mod mic;
pub mod mic_laws;
pub mod move_laws;
pub mod multi;
pub mod obligation;
pub mod options;
pub mod order_laws;
pub mod param;
pub mod propagate;
pub mod propagate_laws;
pub mod push_laws;
pub mod queue_laws;
pub mod report;
pub mod report_laws;
pub mod session;
pub mod shrink;
pub mod shrink_laws;
pub mod start_laws;
pub mod state;
pub mod steady_laws;
pub mod trial_laws;
pub mod turn_laws;
pub mod verdict_laws;
pub mod words;
