//! Output records of case notions: cases as event/object sets with arcs.
use vstd::prelude::*;

pub mod advanced;
pub mod connected_component;
pub mod log_graphs;
pub mod traditional;

verus! {

/// An arc between two nodes of a case.
#[derive(Clone)]
pub struct CaseNotionArch {
    pub source: String,
    pub target: String,
}

/// One case: its events, its objects and the arcs between them.
#[derive(Clone)]
pub struct CaseNotionCase {
    pub events: Vec<String>,
    pub objects: Vec<String>,
    pub arches: Vec<CaseNotionArch>,
}

/// The cases that a case notion yields on an event log.
pub struct CaseNotionGraphOutput {
    pub case_notion: String,
    pub name_of_event_log: String,
    pub object_type: String,
    pub cases: Vec<CaseNotionCase>,
}

impl CaseNotionGraphOutput {
    pub fn new(case_notion: String, name_of_event_log: String, object_type: String, cases: Vec<CaseNotionCase>) -> (r: Self)
        ensures
            r.case_notion == case_notion,
            r.name_of_event_log == name_of_event_log,
            r.object_type == object_type,
            r.cases == cases,
    {
        Self { case_notion, name_of_event_log, object_type, cases }
    }
}

} // verus!
