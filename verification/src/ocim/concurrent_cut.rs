//! The concurrent cut (Section 3.1, Eq. 17-19).
use vstd::prelude::*;
use crate::ocim::auxiliary_methods::{covers_alphabet, partitions_cover_alphabet};
use crate::ocim::common_data::{GlobalData, LocalData};
use crate::ocim::cut_helpers::{
    check_parts_bidirectional, check_parts_preserve_boundaries, parts_bidirectional,
    parts_preserve_boundaries,
};

verus! {

/// Eq. 17: activities of different parts are bi-directionally connected for
/// every object type that they share.
pub open spec fn all_parts_bidirectional(l: LocalData, g: GlobalData, p: Seq<Vec<String>>) -> bool {
    forall|i: int, j: int| 0 <= i < j < p.len() ==> #[trigger] parts_bidirectional(l, g, p[i]@, p[j]@)
}

/// The concurrent cut definition: the parts cover the alphabet (Eq. 17's premise),
/// Eq. 17, and projected starts (Eq. 18) and ends (Eq. 19) already are starts and
/// ends in the sublog.
pub open spec fn concurrent_cut_valid(l: LocalData, g: GlobalData, p: Seq<Vec<String>>) -> bool {
    &&& covers_alphabet(p, l.alphabet@)
    &&& all_parts_bidirectional(l, g, p)
    &&& parts_preserve_boundaries(l, g, p, false)
    &&& parts_preserve_boundaries(l, g, p, true)
}

/// Checks the concurrent cut definition (Section 3.1, Eq. 17-19).
pub fn is_concurrent_cut_valid(local_data: &LocalData, global_data: &GlobalData, partition_list: &[Vec<String>]) -> (r: bool)
    requires
        local_data.wf(),
        global_data.wf(),
    ensures
        r == concurrent_cut_valid(*local_data, *global_data, partition_list@),
{
    if !partitions_cover_alphabet(partition_list, local_data.alphabet.as_slice()) {
        return false;
    }
    let p = partition_list;
    let mut i: usize = 0;
    while i < p.len()
        invariant
            0 <= i <= p.len(),
            forall|a: int, b: int| 0 <= a < i && a < b < p@.len() ==> #[trigger] parts_bidirectional(*local_data, *global_data, p@[a]@, p@[b]@),
        decreases p.len() - i,
    {
        let mut j: usize = i + 1;
        while j < p.len()
            invariant
                i < p.len(),
                i + 1 <= j <= p.len(),
                forall|a: int, b: int| 0 <= a < i && a < b < p@.len() ==> #[trigger] parts_bidirectional(*local_data, *global_data, p@[a]@, p@[b]@),
                forall|b: int| i < b < j ==> #[trigger] parts_bidirectional(*local_data, *global_data, p@[i as int]@, p@[b]@),
            decreases p.len() - j,
        {
            if !check_parts_bidirectional(local_data, global_data, &p[i], &p[j]) {
                return false;
            }
            j += 1;
        }
        i += 1;
    }
    if !check_parts_preserve_boundaries(local_data, global_data, p, false) {
        return false;
    }
    check_parts_preserve_boundaries(local_data, global_data, p, true)
}

} // verus!
