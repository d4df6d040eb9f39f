//! Object-centric inductive miner: data model, auxiliary relations and cut checks.

pub mod model;
pub mod common_data;
pub mod auxiliary_methods;
pub mod cut_helpers;
pub mod components;
pub mod concurrent_cut;
pub mod concurrent_cut_detection;
pub mod exclusive_cut;
pub mod exclusive_cut_detection;
pub mod sequence_cut;
pub mod sequence_cut_detection;
pub mod loop_cut;
pub mod loop_cut_detection;
pub mod fallthrough_definition;
pub mod fallthrough_detection;
pub mod follows_relations;
pub mod fallthrough_evaluation;
pub mod basecase;
pub mod algorithm;
pub mod tau_cases;
pub mod log_splitting;
