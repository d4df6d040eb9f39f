//! Verified core of the SCOPE object-centric process mining backend.
#![verifier::loop_isolation(false)]

pub mod case_notion;
pub mod clustering;
pub mod df2_miner;
pub mod event_object_frequencies;
pub mod identity_relations;
pub mod ocgraphconf_case_compare;
pub mod ocgraphconf_model_case_conformance;
pub mod ocim;
pub mod ocpn_conversion;
pub mod ocpn_merge;
pub mod ocpt;
pub mod permutation;
pub mod petri_net;
pub mod process_tree;
pub mod process_tree_reduction;
pub mod text;
