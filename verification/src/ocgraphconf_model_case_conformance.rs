//! The kinds of process model that a case can be checked against.
use vstd::prelude::*;

verus! {

/// An object-centric Petri net or an object-centric process tree.
#[derive(Debug, Clone, Copy, PartialEq, Eq, Structural)]
pub enum ModelKind {
    Ocpn,
    Ocpt,
}

impl ModelKind {
    /// The name of the model kind.
    pub fn as_str(self) -> (r: &'static str)
        ensures
            r@ == (match self {
                ModelKind::Ocpn => "ocpn"@,
                ModelKind::Ocpt => "ocpt"@,
            }),
    {
        match self {
            Self::Ocpn => "ocpn",
            Self::Ocpt => "ocpt",
        }
    }
}

} // verus!
