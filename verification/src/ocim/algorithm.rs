//! The order in which the miner tries the cuts.
use vstd::prelude::*;
use crate::ocim::common_data::{GlobalData, LocalData};
use crate::ocim::components::is_component_grouping;
use crate::ocim::concurrent_cut_detection::{conc_edges, concurrent_outcome, find_cut_concurrent, parts_listing};
use crate::ocim::exclusive_cut_detection::{excl_edges, exclusive_outcome, find_cut_exclusive};
use crate::ocim::loop_cut_detection::{closures_symmetric, find_cut_loop, loop_edges, loop_outcome};
use crate::ocim::sequence_cut_detection::{find_cut_sequence, sequence_outcome};
use crate::ocpt::OCPTOperatorType;
use crate::ocim::model::strings_unique;
use crate::ocim::tau_cases::{detect_tau_cases, tau_outcome};

verus! {

/// `r` is what the exclusive-choice cut detection answers.
pub open spec fn exclusive_detected(l: LocalData, g: GlobalData, r: Option<(Vec<Vec<String>>, OCPTOperatorType)>) -> bool {
    exists|groups: Seq<Vec<usize>>, p: Seq<Vec<String>>|
        #[trigger] is_component_grouping(groups, excl_edges(l, g), l.alphabet@.len() as int)
        && #[trigger] parts_listing(p, groups, l.alphabet@)
        && exclusive_outcome(l, g, p, r)
}

/// `r` is what the concurrent cut detection answers.
pub open spec fn concurrent_detected(l: LocalData, g: GlobalData, r: Option<(Vec<Vec<String>>, OCPTOperatorType)>) -> bool {
    exists|groups: Seq<Vec<usize>>, p: Seq<Vec<String>>|
        #[trigger] is_component_grouping(groups, conc_edges(l, g), l.alphabet@.len() as int)
        && #[trigger] parts_listing(p, groups, l.alphabet@)
        && concurrent_outcome(l, g, p, r)
}

/// `r` is what the loop cut detection answers.
pub open spec fn loop_detected(l: LocalData, g: GlobalData, r: Option<(Vec<Vec<String>>, OCPTOperatorType)>) -> bool {
    &&& !closures_symmetric(l, g) ==> r is None
    &&& closures_symmetric(l, g) ==> exists|groups: Seq<Vec<usize>>, p: Seq<Vec<String>>|
        #[trigger] is_component_grouping(groups, loop_edges(l, g), l.alphabet@.len() as int)
        && #[trigger] parts_listing(p, groups, l.alphabet@)
        && loop_outcome(l, g, p, r)
}

/// The first cut that the detections find, trying the sequence, the
/// exclusive-choice, the concurrent and the loop cut in this order; none where
/// none is found. The sequence cut comes with the sequence operator.
pub fn find_strict_cut(local_data: &LocalData, global_data: &GlobalData) -> (r: Option<(Vec<Vec<String>>, OCPTOperatorType)>)
    requires
        local_data.wf(),
        global_data.wf(),
    ensures
        strict_cut_outcome(*local_data, *global_data, r),
{
    let r1 = find_cut_sequence(local_data, global_data);
    assert(sequence_outcome(*local_data, *global_data, r1));
    if let Some(q) = r1 {
        return Some((q, OCPTOperatorType::Sequence));
    }
    let r2 = find_cut_exclusive(local_data, global_data);
    assert(exclusive_detected(*local_data, *global_data, r2));
    if r2.is_some() {
        return r2;
    }
    let r3 = find_cut_concurrent(local_data, global_data);
    assert(concurrent_detected(*local_data, *global_data, r3));
    if r3.is_some() {
        return r3;
    }
    let r4 = find_cut_loop(local_data, global_data);
    assert(loop_detected(*local_data, *global_data, r4));
    r4
}

/// `r` is the first cut that the detections find, trying the sequence, the
/// exclusive-choice, the concurrent and the loop cut in this order.
pub open spec fn strict_cut_outcome(l: LocalData, g: GlobalData, r: Option<(Vec<Vec<String>>, OCPTOperatorType)>) -> bool {
    exists|r1: Option<Vec<Vec<String>>>| #[trigger] sequence_outcome(l, g, r1) && match r1 {
        Some(q) => r == Some((q, OCPTOperatorType::Sequence)),
        None => exists|r2: Option<(Vec<Vec<String>>, OCPTOperatorType)>| #[trigger] exclusive_detected(l, g, r2) && match r2 {
            Some(x) => r == Some(x),
            None => exists|r3: Option<(Vec<Vec<String>>, OCPTOperatorType)>| #[trigger] concurrent_detected(l, g, r3) && match r3 {
                Some(x) => r == Some(x),
                None => loop_detected(l, g, r),
            },
        },
    }
}

/// What the miner does with a sublog, in order of precedence.
pub enum MinerStep {
    /// A tau case: the parts and the operator (the second branch is silent).
    Tau(Vec<Vec<String>>, OCPTOperatorType),
    /// The alphabet has one activity: the base case.
    Base,
    /// A strict cut: the parts and the operator.
    Cut(Vec<Vec<String>>, OCPTOperatorType),
    /// No tau case, no base case and no strict cut: the fall-through selection decides.
    FallThrough,
}

/// The decision of one step of the miner on a sublog: a tau case first, then
/// the base case where the alphabet has a single activity, then a strict cut,
/// and otherwise the fall-through. The tau-case detection may replace the
/// expected objects (see `detect_tau_cases`), and the later checks see that.
pub fn ocim_step(local_data: &mut LocalData, global_data: &GlobalData, object_types_of: &Vec<(String, String)>, present_types: &Vec<String>) -> (r: MinerStep)
    requires
        old(local_data).wf(),
        global_data.wf(),
        strings_unique(old(local_data).expected_objects@),
        strings_unique(old(local_data).object_set@),
    ensures
        final(local_data).alphabet == old(local_data).alphabet,
        final(local_data).object_types == old(local_data).object_types,
        final(local_data).object_set == old(local_data).object_set,
        final(local_data).dfgs == old(local_data).dfgs,
        final(local_data).clos == old(local_data).clos,
        final(local_data).expected_objects@ == if old(local_data).expected_objects@.len() > old(local_data).object_set@.len() {
            old(local_data).object_set@
        } else {
            old(local_data).expected_objects@
        },
        match r {
            MinerStep::Tau(p, op) => tau_outcome(*old(local_data), *global_data, object_types_of@, present_types@, Some((p, op))),
            MinerStep::Base => tau_outcome(*old(local_data), *global_data, object_types_of@, present_types@, None)
                && old(local_data).alphabet@.len() == 1,
            MinerStep::Cut(p, op) => tau_outcome(*old(local_data), *global_data, object_types_of@, present_types@, None)
                && old(local_data).alphabet@.len() != 1
                && strict_cut_outcome(*final(local_data), *global_data, Some((p, op))),
            MinerStep::FallThrough => tau_outcome(*old(local_data), *global_data, object_types_of@, present_types@, None)
                && old(local_data).alphabet@.len() != 1
                && strict_cut_outcome(*final(local_data), *global_data, None),
        },
{
    match detect_tau_cases(local_data, global_data, object_types_of, present_types) {
        Some((p, op)) => MinerStep::Tau(p, op),
        None => {
            if local_data.alphabet.len() == 1 {
                MinerStep::Base
            } else {
                match find_strict_cut(local_data, global_data) {
                    Some((p, op)) => MinerStep::Cut(p, op),
                    None => MinerStep::FallThrough,
                }
            }
        },
    }
}

} // verus!
