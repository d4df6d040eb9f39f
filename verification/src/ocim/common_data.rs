//! The data that the miner carries through its recursion.
use vstd::prelude::*;
use crate::ocim::model::{
    ObjectTypeDfg, clos_keys_unique, count_of, dfg_keys_unique, dfg_of, edge_count, has_clos, has_dfg,
    has_edge_key, has_set_key, in_clos, in_set_of, lemma_dfg_of_at, lookup_count, lookup_dfg,
    lookup_edge, lookup_set, contains_string, set_keys_unique, strings_unique,
};

verus! {

/// Data of the current sublog.
pub struct LocalData {
    /// Activities of the sublog (Σ).
    pub alphabet: Vec<String>,
    /// Object types of the sublog.
    pub object_types: Vec<String>,
    /// Objects of the sublog.
    pub object_set: Vec<String>,
    /// Objects that the sublog is expected to hold.
    pub expected_objects: Vec<String>,
    /// Directly-follows graph per object type.
    pub dfgs: Vec<(String, ObjectTypeDfg)>,
    /// Transitive closure of the directly-follows relation per object type.
    pub clos: Vec<(String, Vec<(String, String)>)>,
}

/// Interaction patterns of the whole log: for each activity, a set of object types.
pub struct GlobalData {
    pub divergence: Vec<(String, Vec<String>)>,
    pub convergence: Vec<(String, Vec<String>)>,
    pub related: Vec<(String, Vec<String>)>,
    pub deficiency: Vec<(String, Vec<String>)>,
}

impl LocalData {
    /// Every map holds each key once, and every graph is well formed.
    pub open spec fn wf(&self) -> bool {
        &&& strings_unique(self.object_types@)
        &&& dfg_keys_unique(self.dfgs@)
        &&& forall|i: int| 0 <= i < self.dfgs@.len() ==> (#[trigger] self.dfgs@[i]).1.wf()
        &&& clos_keys_unique(self.clos@)
    }

    /// Count of the directly-follows edge `(a, b)` for `ot` (0 where there is none).
    pub open spec fn df(&self, ot: Seq<char>, a: Seq<char>, b: Seq<char>) -> u32 {
        if has_dfg(self.dfgs@, ot) {
            edge_count(dfg_of(self.dfgs@, ot).edges@, a, b)
        } else {
            0
        }
    }

    /// The edge `(a, b)` is a key of the graph of `ot`, whatever its count.
    pub open spec fn df_key(&self, ot: Seq<char>, a: Seq<char>, b: Seq<char>) -> bool {
        has_dfg(self.dfgs@, ot) && has_edge_key(dfg_of(self.dfgs@, ot).edges@, a, b)
    }

    /// Start count of `a` for `ot` (0 where there is none).
    pub open spec fn start_count(&self, ot: Seq<char>, a: Seq<char>) -> u32 {
        if has_dfg(self.dfgs@, ot) {
            count_of(dfg_of(self.dfgs@, ot).starts@, a)
        } else {
            0
        }
    }

    /// End count of `a` for `ot` (0 where there is none).
    pub open spec fn end_count(&self, ot: Seq<char>, a: Seq<char>) -> u32 {
        if has_dfg(self.dfgs@, ot) {
            count_of(dfg_of(self.dfgs@, ot).ends@, a)
        } else {
            0
        }
    }

    pub open spec fn has_dfg(&self, ot: Seq<char>) -> bool {
        has_dfg(self.dfgs@, ot)
    }

    pub open spec fn has_clos(&self, ot: Seq<char>) -> bool {
        has_clos(self.clos@, ot)
    }

    /// `b` is reachable from `a` in the closure of `ot`.
    pub open spec fn reaches(&self, ot: Seq<char>, a: Seq<char>, b: Seq<char>) -> bool {
        in_clos(self.clos@, ot, a, b)
    }
}

impl GlobalData {
    pub open spec fn wf(&self) -> bool {
        &&& set_keys_unique(self.divergence@)
        &&& set_keys_unique(self.convergence@)
        &&& set_keys_unique(self.related@)
        &&& set_keys_unique(self.deficiency@)
    }

    /// Object type `t` is related to activity `a`.
    pub open spec fn rel(&self, a: Seq<char>, t: Seq<char>) -> bool {
        in_set_of(self.related@, a, t)
    }

    /// Activity `a` has an entry in the related map.
    pub open spec fn has_rel(&self, a: Seq<char>) -> bool {
        has_set_key(self.related@, a)
    }

    /// Object type `t` is divergent for activity `a`.
    pub open spec fn div(&self, a: Seq<char>, t: Seq<char>) -> bool {
        in_set_of(self.divergence@, a, t)
    }
}

/// Whether `t` is in the set stored for `key`.
pub fn set_contains(m: &Vec<(String, Vec<String>)>, key: &String, t: &String) -> (r: bool)
    requires
        set_keys_unique(m@),
    ensures
        r == in_set_of(m@, key@, t@),
{
    match lookup_set(m, key) {
        Some(v) => contains_string(v, t),
        None => false,
    }
}

/// Count of the edge `(a, b)` in the graph of `ot` (0 where there is none).
pub fn df_count(local: &LocalData, ot: &String, a: &String, b: &String) -> (r: u32)
    requires
        local.wf(),
    ensures
        r == local.df(ot@, a@, b@),
{
    match lookup_dfg(&local.dfgs, ot) {
        Some(g) => {
            proof {
                let i = choose|i: int| 0 <= i < local.dfgs@.len() && (#[trigger] local.dfgs@[i]).0@ == ot@;
                lemma_dfg_of_at(local.dfgs@, i);
            }
            lookup_edge(&g.edges, a, b)
        },
        None => 0,
    }
}

/// Start count of `a` for `ot` (0 where there is none).
pub fn start_count(local: &LocalData, ot: &String, a: &String) -> (r: u32)
    requires
        local.wf(),
    ensures
        r == local.start_count(ot@, a@),
{
    match lookup_dfg(&local.dfgs, ot) {
        Some(g) => {
            proof {
                let i = choose|i: int| 0 <= i < local.dfgs@.len() && (#[trigger] local.dfgs@[i]).0@ == ot@;
                lemma_dfg_of_at(local.dfgs@, i);
            }
            lookup_count(&g.starts, a)
        },
        None => 0,
    }
}

/// End count of `a` for `ot` (0 where there is none).
pub fn end_count(local: &LocalData, ot: &String, a: &String) -> (r: u32)
    requires
        local.wf(),
    ensures
        r == local.end_count(ot@, a@),
{
    match lookup_dfg(&local.dfgs, ot) {
        Some(g) => {
            proof {
                let i = choose|i: int| 0 <= i < local.dfgs@.len() && (#[trigger] local.dfgs@[i]).0@ == ot@;
                lemma_dfg_of_at(local.dfgs@, i);
            }
            lookup_count(&g.ends, a)
        },
        None => 0,
    }
}

/// No two entries share their first component.
pub open spec fn first_keys_distinct<T>(v: Seq<(String, T)>) -> bool {
    forall|i: int, j: int| 0 <= i < v.len() && 0 <= j < v.len() && (#[trigger] v[i]).0@ == (#[trigger] v[j]).0@ ==> i == j
}

/// Whether no two entries share their first component.
fn check_first_keys_distinct<T>(v: &Vec<(String, T)>) -> (r: bool)
    ensures
        r == first_keys_distinct(v@),
{
    let mut i: usize = 0;
    while i < v.len()
        invariant
            0 <= i <= v@.len(),
            forall|a: int, b: int| 0 <= a < i && 0 <= b < v@.len() && (#[trigger] v@[a]).0@ == (#[trigger] v@[b]).0@ ==> a == b,
        decreases v@.len() - i,
    {
        let mut j: usize = 0;
        while j < v.len()
            invariant
                0 <= i < v@.len(),
                0 <= j <= v@.len(),
                forall|a: int, b: int| 0 <= a < i && 0 <= b < v@.len() && (#[trigger] v@[a]).0@ == (#[trigger] v@[b]).0@ ==> a == b,
                forall|b: int| 0 <= b < j && v@[i as int].0@ == (#[trigger] v@[b]).0@ ==> i == b,
            decreases v@.len() - j,
        {
            if i != j && v[i].0 == v[j].0 {
                return false;
            }
            j += 1;
        }
        i += 1;
    }
    true
}

/// Whether no string occurs twice.
fn check_strings_distinct(v: &Vec<String>) -> (r: bool)
    ensures
        r == strings_unique(v@),
{
    let mut i: usize = 0;
    while i < v.len()
        invariant
            0 <= i <= v@.len(),
            forall|a: int, b: int| 0 <= a < i && 0 <= b < v@.len() && (#[trigger] v@[a])@ == (#[trigger] v@[b])@ ==> a == b,
        decreases v@.len() - i,
    {
        let mut j: usize = 0;
        while j < v.len()
            invariant
                0 <= i < v@.len(),
                0 <= j <= v@.len(),
                forall|a: int, b: int| 0 <= a < i && 0 <= b < v@.len() && (#[trigger] v@[a])@ == (#[trigger] v@[b])@ ==> a == b,
                forall|b: int| 0 <= b < j && v@[i as int]@ == (#[trigger] v@[b])@ ==> i == b,
            decreases v@.len() - j,
        {
            if i != j && v[i] == v[j] {
                return false;
            }
            j += 1;
        }
        i += 1;
    }
    true
}

/// Whether no edge key occurs twice.
fn check_edge_keys_distinct(e: &Vec<(String, String, u32)>) -> (r: bool)
    ensures
        r == crate::ocim::model::edge_keys_unique(e@),
{
    let mut i: usize = 0;
    while i < e.len()
        invariant
            0 <= i <= e@.len(),
            forall|a: int, b: int| 0 <= a < i && 0 <= b < e@.len() && (#[trigger] e@[a]).0@ == (#[trigger] e@[b]).0@ && e@[a].1@ == e@[b].1@ ==> a == b,
        decreases e@.len() - i,
    {
        let mut j: usize = 0;
        while j < e.len()
            invariant
                0 <= i < e@.len(),
                0 <= j <= e@.len(),
                forall|a: int, b: int| 0 <= a < i && 0 <= b < e@.len() && (#[trigger] e@[a]).0@ == (#[trigger] e@[b]).0@ && e@[a].1@ == e@[b].1@ ==> a == b,
                forall|b: int| 0 <= b < j && e@[i as int].0@ == (#[trigger] e@[b]).0@ && e@[i as int].1@ == e@[b].1@ ==> i == b,
            decreases e@.len() - j,
        {
            if i != j && e[i].0 == e[j].0 && e[i].1 == e[j].1 {
                return false;
            }
            j += 1;
        }
        i += 1;
    }
    true
}

impl LocalData {
    /// Whether the data is well formed (see `wf`).
    pub fn is_well_formed(&self) -> (r: bool)
        ensures
            r == self.wf(),
    {
        if !check_strings_distinct(&self.object_types) || !check_first_keys_distinct(&self.dfgs)
            || !check_first_keys_distinct(&self.clos) {
            return false;
        }
        let mut k: usize = 0;
        while k < self.dfgs.len()
            invariant
                0 <= k <= self.dfgs@.len(),
                forall|i: int| 0 <= i < k ==> (#[trigger] self.dfgs@[i]).1.wf(),
            decreases self.dfgs@.len() - k,
        {
            let d = &self.dfgs[k].1;
            if !check_edge_keys_distinct(&d.edges) || !check_first_keys_distinct(&d.starts) || !check_first_keys_distinct(&d.ends) {
                return false;
            }
            k += 1;
        }
        true
    }
}

impl GlobalData {
    /// Whether the data is well formed (see `wf`).
    pub fn is_well_formed(&self) -> (r: bool)
        ensures
            r == self.wf(),
    {
        check_first_keys_distinct(&self.divergence) && check_first_keys_distinct(&self.convergence)
            && check_first_keys_distinct(&self.related) && check_first_keys_distinct(&self.deficiency)
    }
}

} // verus!
