//! Preparation of the mined graph before the process forest is built: edges and
//! activities named in a removal list are left out.
use vstd::prelude::*;
use crate::ocim::auxiliary_methods::push_unique;
use crate::ocim::model::{contains_string, seq_has, strings_unique};

verus! {

/// The edges with neither end in `removed`.
pub open spec fn kept_edge(removed: Seq<String>) -> spec_fn(((String, String), usize)) -> bool {
    |x: ((String, String), usize)| !seq_has(removed, x.0.0@) && !seq_has(removed, x.0.1@)
}

/// The directly-follows graph without the edges that touch a removed activity,
/// in the order of the graph.
pub fn filter_dfg(dfg: &Vec<((String, String), usize)>, remove_list: &Vec<String>) -> (r: Vec<((String, String), usize)>)
    ensures
        r@.len() == dfg@.filter(kept_edge(remove_list@)).len(),
        forall|k: int| 0 <= k < r@.len() ==> {
            let x = #[trigger] r@[k];
            let y = dfg@.filter(kept_edge(remove_list@))[k];
            x.0.0@ == y.0.0@ && x.0.1@ == y.0.1@ && x.1 == y.1
        },
{
    let ghost p = kept_edge(remove_list@);
    let mut out: Vec<((String, String), usize)> = Vec::new();
    let mut i: usize = 0;
    while i < dfg.len()
        invariant
            0 <= i <= dfg@.len(),
            p == kept_edge(remove_list@),
            out@.len() == dfg@.take(i as int).filter(p).len(),
            forall|k: int| 0 <= k < out@.len() ==> {
                let x = #[trigger] out@[k];
                let y = dfg@.take(i as int).filter(p)[k];
                x.0.0@ == y.0.0@ && x.0.1@ == y.0.1@ && x.1 == y.1
            },
        decreases dfg@.len() - i,
    {
        proof {
            crate::case_notion::log_graphs::lemma_filter_step(dfg@, i as int, p);
        }
        let e = &dfg[i];
        if !contains_string(remove_list, &e.0.0) && !contains_string(remove_list, &e.0.1) {
            let ghost before = out@;
            out.push(((e.0.0.clone(), e.0.1.clone()), e.1));
            proof {
                assert forall|k: int| 0 <= k < out@.len() implies {
                    let x = #[trigger] out@[k];
                    let y = dfg@.take(i + 1).filter(p)[k];
                    x.0.0@ == y.0.0@ && x.0.1@ == y.0.1@ && x.1 == y.1
                } by {
                    if k < before.len() {
                        assert(out@[k] == before[k]);
                    }
                }
            }
        }
        i += 1;
    }
    assert(dfg@.take(dfg@.len() as int) =~= dfg@);
    out
}

/// The activities not in `remove_list`, each once, in the order of their first occurrence.
pub fn filter_activities(all_activities: &Vec<String>, remove_list: &Vec<String>) -> (r: Vec<String>)
    ensures
        strings_unique(r@),
        forall|a: Seq<char>| #[trigger] seq_has(r@, a) <==> (seq_has(all_activities@, a) && !seq_has(remove_list@, a)),
{
    let mut out: Vec<String> = Vec::new();
    let mut i: usize = 0;
    while i < all_activities.len()
        invariant
            0 <= i <= all_activities@.len(),
            strings_unique(out@),
            forall|a: Seq<char>| #[trigger] seq_has(out@, a) <==> (!seq_has(remove_list@, a)
                && exists|q: int| 0 <= q < i && (#[trigger] all_activities@[q])@ == a),
        decreases all_activities@.len() - i,
    {
        let ghost before = out@;
        if !contains_string(remove_list, &all_activities[i]) {
            push_unique(&mut out, &all_activities[i]);
        }
        proof {
            assert forall|a: Seq<char>| #[trigger] seq_has(out@, a) <==> (!seq_has(remove_list@, a)
                && exists|q: int| 0 <= q < i + 1 && (#[trigger] all_activities@[q])@ == a) by {
                if exists|q: int| 0 <= q < i + 1 && (#[trigger] all_activities@[q])@ == a {
                    let q = choose|q: int| 0 <= q < i + 1 && (#[trigger] all_activities@[q])@ == a;
                    if q < i && !seq_has(remove_list@, a) {
                        assert(seq_has(before, a));
                    }
                }
                if seq_has(before, a) {
                    let q = choose|q: int| 0 <= q < i && (#[trigger] all_activities@[q])@ == a;
                    assert(0 <= q < i + 1);
                }
            }
        }
        i += 1;
    }
    assert forall|a: Seq<char>| #[trigger] seq_has(out@, a) <==> (seq_has(all_activities@, a) && !seq_has(remove_list@, a)) by {
        if seq_has(all_activities@, a) {
            let q = choose|q: int| 0 <= q < all_activities@.len() && (#[trigger] all_activities@[q])@ == a;
        }
    }
    out
}

} // verus!
