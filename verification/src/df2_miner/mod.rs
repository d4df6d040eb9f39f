//! Output of the directly-follows based miner: its process forest as the
//! hierarchy that the frontend draws.

pub mod convert_to_json_tree;
pub mod ocpt_generator;
