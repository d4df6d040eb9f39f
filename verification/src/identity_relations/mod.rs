//! Identity relations between object types: how the objects of two type sets
//! share events, and the extension of a process tree with such relations.

pub mod check_relation;
pub mod ocpt_extender;
