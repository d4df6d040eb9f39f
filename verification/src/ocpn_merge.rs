//! Object-centric Petri nets, and merging the Petri net of one object type into one.
use vstd::prelude::*;
use crate::petri_net::{label_view, ArcType, PetriNet, Transition};
use crate::ocgraphconf_case_compare::{key_views, lemma_sorted_positions_onto, sort_positions, sorted_positions};
use crate::ocim::model::{contains_string, seq_has};
use crate::text::{decimal, decimal_string, digit_char, join3, str_eq};
use crate::ocim::basecase::new_uuid;
use crate::ocpn_conversion::{collect_convergent_activities, converges_at, project, project_ocpt_for_object_type, ConvertOcptToOcpnError, LeafMetadataIndex};
use crate::ocpt::{leaves, OCPT};
use crate::petri_net::{petri_net_of, process_tree_to_petri_net};
use crate::process_tree::PTree;

verus! {

/// A node of an object-centric Petri net, by identifier.
#[derive(Debug, Clone)]
pub enum OcpnNodeRef {
    Place(String),
    Transition(String),
}

/// A place of one object type.
#[derive(Debug, Clone)]
pub struct OcpnPlace {
    pub id: String,
    pub name: String,
    pub object_type: String,
    pub initial: bool,
    pub final_place: bool,
}

/// A transition: visible with a label, silent without.
#[derive(Debug, Clone)]
pub struct OcpnTransition {
    pub id: String,
    pub name: String,
    pub label: Option<String>,
    pub silent: bool,
}

/// An arc; `variable` where the transition's activity is convergent for the object type.
#[derive(Debug, Clone)]
pub struct OcpnArc {
    pub id: String,
    pub source: OcpnNodeRef,
    pub target: OcpnNodeRef,
    pub variable: bool,
}

/// An object-centric Petri net.
#[derive(Debug, Clone)]
pub struct Ocpn {
    pub places: Vec<OcpnPlace>,
    pub transitions: Vec<OcpnTransition>,
    pub arcs: Vec<OcpnArc>,
}

/// The positions below `n` whose flag is set, in order.
pub open spec fn present_positions(s: Seq<bool>, n: int) -> Seq<usize>
    decreases n,
{
    if n <= 0 {
        Seq::empty()
    } else {
        let prev = present_positions(s, n - 1);
        if s[n - 1] { prev.push((n - 1) as usize) } else { prev }
    }
}

/// The present places of the net, in order.
pub open spec fn net_places(net: PetriNet) -> Seq<usize> {
    present_positions(net.places@, net.places@.len() as int)
}

/// The present transitions of the net, in order.
pub open spec fn net_transitions(net: PetriNet) -> Seq<usize> {
    present_positions(net.transitions@.map_values(|t: Transition| t.present), net.transitions@.len() as int)
}

/// The `k`-th present place of the net as a place of object type `ot` with identifier `id`.
pub open spec fn merged_place(net: PetriNet, ot: Seq<char>, id: Seq<char>, k: int, pl: OcpnPlace) -> bool {
    let p = net_places(net)[k];
    &&& pl.id@ == id
    &&& pl.name@ == ot + decimal((k + 1) as nat)
    &&& pl.object_type@ == ot
    &&& pl.initial == (net.initial_place == Some(p))
    &&& pl.final_place == (net.final_place == Some(p))
}

proof fn lemma_present_positions(s: Seq<bool>, n: int)
    requires
        0 <= n <= s.len(),
        s.len() <= usize::MAX,
    ensures
        forall|k: int| 0 <= k < present_positions(s, n).len() ==> (#[trigger] present_positions(s, n)[k]) < n && s[present_positions(s, n)[k] as int],
        forall|p: int| 0 <= p < n && #[trigger] s[p] ==> exists|k: int| 0 <= k < present_positions(s, n).len() && present_positions(s, n)[k] == p,
        present_positions(s, n).len() <= n,
        forall|a: int, b: int| 0 <= a < b < present_positions(s, n).len() ==> #[trigger] present_positions(s, n)[a] < #[trigger] present_positions(s, n)[b],
    decreases n,
{
    if n > 0 {
        lemma_present_positions(s, n - 1);
        let prev = present_positions(s, n - 1);
        let now = present_positions(s, n);
        assert forall|a: int, b: int| 0 <= a < b < now.len() implies #[trigger] now[a] < #[trigger] now[b] by {
            if b < prev.len() {
                assert(now[a] == prev[a] && now[b] == prev[b]);
            } else {
                assert(now[a] == prev[a]);
            }
        }
        assert forall|k: int| 0 <= k < now.len() implies (#[trigger] now[k]) < n && s[now[k] as int] by {
            if k < prev.len() {
                assert(now[k] == prev[k]);
            }
        }
        assert forall|p: int| 0 <= p < n && #[trigger] s[p] implies exists|k: int| 0 <= k < now.len() && now[k] == p by {
            if p < n - 1 {
                let k = choose|k: int| 0 <= k < prev.len() && prev[k] == p;
                assert(now[k] == prev[k]);
            } else {
                assert(now[prev.len() as int] == p);
            }
        }
    }
}

/// The present positions of the flags.
fn positions_of(s: &Vec<bool>) -> (r: Vec<usize>)
    ensures
        r@ == present_positions(s@, s@.len() as int),
{
    let mut out: Vec<usize> = Vec::new();
    let mut i: usize = 0;
    while i < s.len()
        invariant
            0 <= i <= s@.len(),
            out@ == present_positions(s@, i as int),
        decreases s@.len() - i,
    {
        if s[i] {
            out.push(i);
        }
        i += 1;
    }
    out
}

/// Adds the present places of the net as places of object type `ot`, the
/// `k`-th with identifier `ids[k]` and name `ot` followed by `k + 1`; returns
/// the net's place numbers with their identifiers.
fn merge_places(ocpn: &mut Ocpn, ot: &String, net: &PetriNet, ids: &Vec<String>) -> (r: Vec<(usize, String)>)
    requires
        net_places(*net).len() <= ids@.len(),
    ensures
        final(ocpn).places@.len() == old(ocpn).places@.len() + net_places(*net).len(),
        forall|q: int| 0 <= q < old(ocpn).places@.len() ==> #[trigger] final(ocpn).places@[q] == old(ocpn).places@[q],
        forall|k: int| 0 <= k < net_places(*net).len() ==>
            merged_place(*net, ot@, ids@[k]@, k, #[trigger] final(ocpn).places@[old(ocpn).places@.len() + k]),
        final(ocpn).transitions == old(ocpn).transitions,
        final(ocpn).arcs == old(ocpn).arcs,
        r@.len() == net_places(*net).len(),
        forall|k: int| 0 <= k < r@.len() ==> (#[trigger] r@[k]).0 == net_places(*net)[k] && r@[k].1@ == ids@[k]@,
{
    let pp = positions_of(&net.places);
    let ghost base = ocpn.places@;
    let mut out: Vec<(usize, String)> = Vec::new();
    let mut k: usize = 0;
    while k < pp.len()
        invariant
            0 <= k <= pp@.len(),
            pp@ == net_places(*net),
            pp@.len() <= ids@.len(),
            ocpn.places@.len() == base.len() + k,
            forall|q: int| 0 <= q < base.len() ==> #[trigger] ocpn.places@[q] == base[q],
            forall|j: int| 0 <= j < k ==> merged_place(*net, ot@, ids@[j]@, j, #[trigger] ocpn.places@[base.len() + j]),
            ocpn.transitions == old(ocpn).transitions,
            ocpn.arcs == old(ocpn).arcs,
            out@.len() == k,
            forall|j: int| 0 <= j < k ==> (#[trigger] out@[j]).0 == pp@[j] && out@[j].1@ == ids@[j]@,
        decreases pp@.len() - k,
    {
        let p = pp[k];
        proof {
            assert(k + 1 <= pp@.len());
        }
        let name = join3(ot.as_str(), decimal_string(k + 1).as_str(), "");
        let initial = match net.initial_place {
            Some(x) => x == p,
            None => false,
        };
        let final_place = match net.final_place {
            Some(x) => x == p,
            None => false,
        };
        let ghost before = ocpn.places@;
        ocpn.places.push(OcpnPlace { id: ids[k].clone(), name, object_type: ot.clone(), initial, final_place });
        proof {
            reveal_strlit("");
            assert(""@ =~= Seq::<char>::empty());
            assert(ot@ + decimal((k + 1) as nat) + ""@ =~= ot@ + decimal((k + 1) as nat));
            assert forall|q: int| 0 <= q < base.len() implies #[trigger] ocpn.places@[q] == base[q] by {
                assert(ocpn.places@[q] == before[q]);
            }
            assert forall|j: int| 0 <= j < k + 1 implies merged_place(*net, ot@, ids@[j]@, j, #[trigger] ocpn.places@[base.len() + j]) by {
                if j < k {
                    assert(ocpn.places@[base.len() + j] == before[base.len() + j]);
                }
            }
        }
        out.push((p, ids[k].clone()));
        k += 1;
    }
    out
}

/// The key a transition is ordered by: its label, or `~` for a silent one.
pub open spec fn label_key(t: Transition) -> Seq<char> {
    match label_view(t) {
        Some(l) => l,
        None => "~"@,
    }
}

/// The present transitions of the net, as ordering keys.
pub open spec fn transition_keys(net: PetriNet) -> Seq<(i64, Seq<char>)> {
    net_transitions(net).map_values(|t: usize| (0i64, label_key(net.transitions@[t as int])))
}

/// The identifier listed for `key`, if any.
pub open spec fn listed_id(m: Seq<(Seq<char>, Seq<char>)>, key: Seq<char>) -> Option<Seq<char>> {
    if exists|i: int| 0 <= i < m.len() && (#[trigger] m[i]).0 == key {
        Some(m[choose|i: int| 0 <= i < m.len() && (#[trigger] m[i]).0 == key].1)
    } else {
        None
    }
}

/// The state of the merge of the transitions: the identifiers of the visible
/// activities, the next fresh identifier, the identifier of each merged
/// transition, and the transitions added to the object-centric net.
pub ghost struct TransState {
    pub vis: Seq<(Seq<char>, Seq<char>)>,
    pub next: int,
    pub tids: Seq<Seq<char>>,
    pub added: Seq<(Seq<char>, Option<Seq<char>>)>,
}

/// Whether identifier `id` is among `existing` or the added transitions.
pub open spec fn id_known(existing: Seq<Seq<char>>, added: Seq<(Seq<char>, Option<Seq<char>>)>, id: Seq<char>) -> bool {
    existing.contains(id) || exists|i: int| 0 <= i < added.len() && (#[trigger] added[i]).0 == id
}

/// After the first `k` transitions of `order`: a visible transition takes the
/// identifier of its activity (a fresh one the first time), a silent one a
/// fresh one; a transition whose identifier the net lacks is added.
pub open spec fn merge_transitions(net: PetriNet, order: Seq<usize>, ids: Seq<Seq<char>>, start: TransState, existing: Seq<Seq<char>>, k: int) -> TransState
    decreases k,
{
    if k <= 0 {
        start
    } else {
        let st = merge_transitions(net, order, ids, start, existing, k - 1);
        let l = label_view(net.transitions@[order[k - 1] as int]);
        let (id, vis, next) = match l {
            Some(a) => match listed_id(st.vis, a) {
                Some(x) => (x, st.vis, st.next),
                None => (ids[st.next], st.vis.push((a, ids[st.next])), st.next + 1),
            },
            None => (ids[st.next], st.vis, st.next + 1),
        };
        let added = if id_known(existing, st.added, id) { st.added } else { st.added.push((id, l)) };
        TransState { vis, next, tids: st.tids.push(id), added }
    }
}

/// The identifiers of the transitions of the net.
pub open spec fn transition_ids(ts: Seq<OcpnTransition>) -> Seq<Seq<char>> {
    ts.map_values(|t: OcpnTransition| t.id@)
}

/// The transition that an added `(id, label)` entry stands for.
pub open spec fn added_transition(e: (Seq<char>, Option<Seq<char>>), t: OcpnTransition) -> bool {
    &&& t.id@ == e.0
    &&& match e.1 {
        Some(l) => t.name@ == l && (t.label matches Some(x) && x@ == l) && !t.silent,
        None => t.name@ == e.0 && t.label is None && t.silent,
    }
}

/// The entries of a list of identifiers by key, as views.
pub open spec fn vis_view(m: Seq<(String, String)>) -> Seq<(Seq<char>, Seq<char>)> {
    m.map_values(|p: (String, String)| (p.0@, p.1@))
}

/// The identifier listed for `key`, if any.
fn find_listed(m: &Vec<(String, String)>, key: &String) -> (r: Option<usize>)
    requires
        forall|i: int, j: int| 0 <= i < j < m@.len() ==> (#[trigger] m@[i]).0@ != (#[trigger] m@[j]).0@,
    ensures
        match r {
            Some(i) => i < m@.len() && listed_id(vis_view(m@), key@) == Some(m@[i as int].1@),
            None => listed_id(vis_view(m@), key@) is None,
        },
{
    let ghost v = vis_view(m@);
    let mut i: usize = 0;
    while i < m.len()
        invariant
            0 <= i <= m@.len(),
            v == vis_view(m@),
            forall|j: int| 0 <= j < i ==> (#[trigger] m@[j]).0@ != key@,
        decreases m@.len() - i,
    {
        if str_eq(m[i].0.as_str(), key.as_str()) {
            proof {
                assert(v[i as int].0 == key@);
                let c = choose|c: int| 0 <= c < v.len() && (#[trigger] v[c]).0 == key@;
                if c != i {
                    if c < i {
                        assert(m@[c].0@ == key@);
                    } else {
                        assert(m@[i as int].0@ == m@[c].0@);
                    }
                }
            }
            return Some(i);
        }
        i += 1;
    }
    proof {
        if exists|c: int| 0 <= c < v.len() && (#[trigger] v[c]).0 == key@ {
            let c = choose|c: int| 0 <= c < v.len() && (#[trigger] v[c]).0 == key@;
            assert(m@[c].0@ == key@);
        }
    }
    None
}

/// Whether the net has a transition with identifier `id`.
fn has_transition_id(ts: &Vec<OcpnTransition>, id: &String) -> (r: bool)
    ensures
        r == transition_ids(ts@).contains(id@),
{
    let mut i: usize = 0;
    while i < ts.len()
        invariant
            0 <= i <= ts@.len(),
            forall|j: int| 0 <= j < i ==> (#[trigger] ts@[j]).id@ != id@,
        decreases ts@.len() - i,
    {
        if str_eq(ts[i].id.as_str(), id.as_str()) {
            assert(transition_ids(ts@)[i as int] == id@);
            return true;
        }
        i += 1;
    }
    proof {
        if transition_ids(ts@).contains(id@) {
            let j = choose|j: int| 0 <= j < transition_ids(ts@).len() && transition_ids(ts@)[j] == id@;
            assert(ts@[j].id@ == id@);
        }
    }
    false
}

/// Merges the transitions of the net in the given order (see `merge_transitions`);
/// returns the identifier of each and the next fresh identifier.
fn merge_transition_list(
    ocpn: &mut Ocpn,
    net: &PetriNet,
    order: &Vec<usize>,
    ids: &Vec<String>,
    vis: &mut Vec<(String, String)>,
    next0: usize,
) -> (r: (Vec<String>, usize))
    requires
        forall|k: int| 0 <= k < order@.len() ==> (#[trigger] order@[k]) < net.transitions@.len(),
        forall|i: int, j: int| 0 <= i < j < old(vis)@.len() ==> (#[trigger] old(vis)@[i]).0@ != (#[trigger] old(vis)@[j]).0@,
        next0 + order@.len() <= ids@.len(),
    ensures
        ({
            let st = merge_transitions(*net, order@, ids@.map_values(|s: String| s@),
                TransState { vis: vis_view(old(vis)@), next: next0 as int, tids: Seq::empty(), added: Seq::empty() },
                transition_ids(old(ocpn).transitions@), order@.len() as int);
            &&& vis_view(final(vis)@) == st.vis
            &&& r.1 as int == st.next
            &&& r.0@.map_values(|s: String| s@) == st.tids
            &&& final(ocpn).transitions@.len() == old(ocpn).transitions@.len() + st.added.len()
            &&& forall|q: int| 0 <= q < old(ocpn).transitions@.len() ==> #[trigger] final(ocpn).transitions@[q] == old(ocpn).transitions@[q]
            &&& forall|q: int| 0 <= q < st.added.len() ==> added_transition(st.added[q], #[trigger] final(ocpn).transitions@[old(ocpn).transitions@.len() + q])
        }),
        forall|i: int, j: int| 0 <= i < j < final(vis)@.len() ==> (#[trigger] final(vis)@[i]).0@ != (#[trigger] final(vis)@[j]).0@,
        final(ocpn).places == old(ocpn).places,
        final(ocpn).arcs == old(ocpn).arcs,
        next0 <= r.1 <= next0 + order@.len(),
{
    let ghost idv = ids@.map_values(|s: String| s@);
    let ghost start = TransState { vis: vis_view(vis@), next: next0 as int, tids: Seq::empty(), added: Seq::empty() };
    let ghost existing = transition_ids(ocpn.transitions@);
    let ghost base = ocpn.transitions@;
    let mut tids: Vec<String> = Vec::new();
    let mut next = next0;
    let id_count = ids.len();
    let mut k: usize = 0;
    while k < order.len()
        invariant
            0 <= k <= order@.len(),
            id_count == ids@.len(),
            forall|q: int| 0 <= q < order@.len() ==> (#[trigger] order@[q]) < net.transitions@.len(),
            next0 + order@.len() <= ids@.len(),
            idv == ids@.map_values(|s: String| s@),
            existing == transition_ids(base),
            ({
                let st = merge_transitions(*net, order@, idv, start, existing, k as int);
                &&& vis_view(vis@) == st.vis
                &&& next as int == st.next
                &&& tids@.map_values(|s: String| s@) == st.tids
                &&& ocpn.transitions@.len() == base.len() + st.added.len()
                &&& forall|q: int| 0 <= q < base.len() ==> #[trigger] ocpn.transitions@[q] == base[q]
                &&& forall|q: int| 0 <= q < st.added.len() ==> added_transition(st.added[q], #[trigger] ocpn.transitions@[base.len() + q])
            }),
            forall|i: int, j: int| 0 <= i < j < vis@.len() ==> (#[trigger] vis@[i]).0@ != (#[trigger] vis@[j]).0@,
            ocpn.places == old(ocpn).places,
            ocpn.arcs == old(ocpn).arcs,
            next0 <= next <= next0 + k,
        decreases order@.len() - k,
    {
        let ghost st = merge_transitions(*net, order@, idv, start, existing, k as int);
        let ghost before = ocpn.transitions@;
        let ghost vis0 = vis@;
        let t = &net.transitions[order[k]];
        let id: String = match &t.label {
            Some(a) => match find_listed(vis, a) {
                Some(i) => vis[i].1.clone(),
                None => {
                    let fresh = ids[next].clone();
                    vis.push((a.clone(), fresh.clone()));
                    next += 1;
                    proof {
                        assert(vis_view(vis@) =~= vis_view(vis0).push((a@, idv[next - 1])));
                        assert forall|i: int, j: int| 0 <= i < j < vis@.len() implies (#[trigger] vis@[i]).0@ != (#[trigger] vis@[j]).0@ by {
                            if j == vis0.len() {
                                assert(vis_view(vis0)[i].0 == vis0[i].0@);
                            }
                        }
                    }
                    fresh
                },
            },
            None => {
                let fresh = ids[next].clone();
                next += 1;
                fresh
            },
        };
        proof {
            assert(transition_ids(before) =~= existing + st.added.map_values(|e: (Seq<char>, Option<Seq<char>>)| e.0)) by {
                assert forall|q: int| 0 <= q < before.len() implies transition_ids(before)[q]
                    == (existing + st.added.map_values(|e: (Seq<char>, Option<Seq<char>>)| e.0))[q] by {
                    if q >= base.len() {
                        let q2 = q - base.len();
                        assert(ocpn.transitions@ == before);
                        assert(added_transition(st.added[q2], ocpn.transitions@[base.len() + q2]));
                        assert(before[base.len() + q2] == before[q]);
                    }
                }
            }
        }
        let known = has_transition_id(&ocpn.transitions, &id);
        proof {
            let ad = st.added.map_values(|e: (Seq<char>, Option<Seq<char>>)| e.0);
            assert(known == id_known(existing, st.added, id@)) by {
                if transition_ids(before).contains(id@) {
                    let j = choose|j: int| 0 <= j < transition_ids(before).len() && transition_ids(before)[j] == id@;
                    if j >= existing.len() {
                        assert(st.added[j - existing.len()].0 == id@);
                    } else {
                        assert(existing[j] == id@);
                    }
                }
                if id_known(existing, st.added, id@) {
                    if existing.contains(id@) {
                        let j = choose|j: int| 0 <= j < existing.len() && existing[j] == id@;
                        assert(transition_ids(before)[j] == id@);
                    } else {
                        let i = choose|i: int| 0 <= i < st.added.len() && (#[trigger] st.added[i]).0 == id@;
                        assert(transition_ids(before)[existing.len() + i] == id@);
                    }
                }
            }
        }
        if !known {
            let (name, label, silent) = match &t.label {
                Some(l) => (l.clone(), Some(l.clone()), false),
                None => (id.clone(), None, true),
            };
            ocpn.transitions.push(OcpnTransition { id: id.clone(), name, label, silent });
        }
        tids.push(id);
        proof {
            let now = merge_transitions(*net, order@, idv, start, existing, k + 1);
            assert(tids@.map_values(|s: String| s@) =~= now.tids);
            assert forall|q: int| 0 <= q < base.len() implies #[trigger] ocpn.transitions@[q] == base[q] by {
                assert(ocpn.transitions@[q] == before[q]);
            }
            assert forall|q: int| 0 <= q < now.added.len() implies added_transition(now.added[q], #[trigger] ocpn.transitions@[base.len() + q]) by {
                if q < st.added.len() {
                    assert(ocpn.transitions@[base.len() + q] == before[base.len() + q]);
                }
            }
        }
        k += 1;
    }
    (tids, next)
}

/// The position of `v` in `s`.
pub open spec fn index_of(s: Seq<usize>, v: usize) -> int {
    choose|k: int| 0 <= k < s.len() && s[k] == v
}

/// The node is place `id`.
pub open spec fn is_place_ref(r: OcpnNodeRef, id: Seq<char>) -> bool {
    r matches OcpnNodeRef::Place(s) && s@ == id
}

/// The node is transition `id`.
pub open spec fn is_transition_ref(r: OcpnNodeRef, id: Seq<char>) -> bool {
    r matches OcpnNodeRef::Transition(s) && s@ == id
}

/// The place and the transition of an arc, and whether it leads from the place.
pub open spec fn arc_ends(a: ArcType) -> (usize, usize, bool) {
    match a {
        ArcType::PlaceTransition(p, t) => (p, t, true),
        ArcType::TransitionPlace(t, p) => (p, t, false),
    }
}

/// `oa` is arc `x` of the net with identifier `aids[x]`, between the merged
/// place (identifier from `pids`) and transition (identifier from `tids`),
/// variable where the transition's activity is convergent.
pub open spec fn merged_arc(net: PetriNet, pids: Seq<Seq<char>>, aids: Seq<Seq<char>>, order: Seq<usize>, tids: Seq<Seq<char>>, conv: Seq<String>, x: int, oa: OcpnArc) -> bool {
    let (p, t, from_place) = arc_ends(net.arcs@[x]);
    let pid = pids[index_of(net_places(net), p)];
    let tid = tids[index_of(order, t)];
    let variable = match label_view(net.transitions@[t as int]) {
        Some(l) => seq_has(conv, l),
        None => false,
    };
    &&& oa.id@ == aids[x]
    &&& oa.variable == variable
    &&& if from_place { is_place_ref(oa.source, pid) && is_transition_ref(oa.target, tid) } else { is_transition_ref(oa.source, tid) && is_place_ref(oa.target, pid) }
}

/// `order` lists the present transitions by their label (`~` for silent ones),
/// transitions of the same label in increasing number.
pub open spec fn transition_order(net: PetriNet, order: Seq<usize>) -> bool {
    exists|ord: Seq<usize>| #[trigger] sorted_positions(transition_keys(net), ord)
        && order == Seq::new(ord.len(), |k: int| net_transitions(net)[ord[k] as int])
}

/// The present transitions, ordered by label.
fn transitions_in_order(net: &PetriNet) -> (r: Vec<usize>)
    requires
        net.transitions@.len() <= usize::MAX,
    ensures
        transition_order(*net, r@),
        forall|k: int| 0 <= k < r@.len() ==> (#[trigger] r@[k]) < net.transitions@.len(),
        forall|a: int, b: int| 0 <= a < r@.len() && 0 <= b < r@.len() && a != b ==> #[trigger] r@[a] != #[trigger] r@[b],
        forall|t: int| 0 <= t < net.transitions@.len() && net.transitions@[t].present ==> exists|k: int| 0 <= k < r@.len() && r@[k] == t,
        r@.len() <= net.transitions@.len(),
{
    let mut flags: Vec<bool> = Vec::new();
    let mut i: usize = 0;
    while i < net.transitions.len()
        invariant
            0 <= i <= net.transitions@.len(),
            flags@ == net.transitions@.map_values(|t: Transition| t.present).take(i as int),
        decreases net.transitions@.len() - i,
    {
        flags.push(net.transitions[i].present);
        i += 1;
        assert(flags@ =~= net.transitions@.map_values(|t: Transition| t.present).take(i as int));
    }
    assert(flags@ =~= net.transitions@.map_values(|t: Transition| t.present));
    let tp = positions_of(&flags);
    proof {
        lemma_present_positions(flags@, flags@.len() as int);
    }
    let mut keys: Vec<(i64, String)> = Vec::new();
    let tilde = String::from_str("~");
    proof { reveal_strlit("~"); }
    let mut k: usize = 0;
    while k < tp.len()
        invariant
            0 <= k <= tp@.len(),
            tp@ == net_transitions(*net),
            forall|q: int| 0 <= q < tp@.len() ==> (#[trigger] tp@[q]) < net.transitions@.len(),
            tilde@ == "~"@,
            key_views(keys@) =~= transition_keys(*net).take(k as int),
        decreases tp@.len() - k,
    {
        let t = &net.transitions[tp[k]];
        let key = match &t.label {
            Some(l) => l.clone(),
            None => tilde.clone(),
        };
        keys.push((0, key));
        k += 1;
        assert(key_views(keys@) =~= transition_keys(*net).take(k as int));
    }
    assert(key_views(keys@) =~= transition_keys(*net));
    let ord = sort_positions(&keys);
    let mut out: Vec<usize> = Vec::new();
    let mut k: usize = 0;
    while k < ord.len()
        invariant
            0 <= k <= ord@.len(),
            sorted_positions(transition_keys(*net), ord@),
            tp@ == net_transitions(*net),
            transition_keys(*net).len() == tp@.len(),
            out@ == Seq::new(k as nat, |q: int| net_transitions(*net)[ord@[q] as int]),
        decreases ord@.len() - k,
    {
        out.push(tp[ord[k]]);
        k += 1;
        assert(out@ =~= Seq::new(k as nat, |q: int| net_transitions(*net)[ord@[q] as int]));
    }
    proof {
        let nt = net_transitions(*net);
        assert forall|a: int, b: int| 0 <= a < out@.len() && 0 <= b < out@.len() && a != b implies #[trigger] out@[a] != #[trigger] out@[b] by {
            let x = ord@[a] as int;
            let y = ord@[b] as int;
            assert(x != y);
            if x < y { assert(nt[x] < nt[y]); } else { assert(nt[y] < nt[x]); }
        }
        assert forall|t: int| 0 <= t < net.transitions@.len() && net.transitions@[t].present implies exists|k: int| 0 <= k < out@.len() && out@[k] == t by {
            assert(flags@[t]);
            let j = choose|j: int| 0 <= j < nt.len() && nt[j] == t;
            lemma_sorted_positions_onto(transition_keys(*net), ord@, j);
            let k = choose|k: int| 0 <= k < ord@.len() && ord@[k] == j;
            assert(out@[k] == t);
        }
    }
    out
}

proof fn lemma_merge_tids_len(net: PetriNet, order: Seq<usize>, ids: Seq<Seq<char>>, start: TransState, existing: Seq<Seq<char>>, k: int)
    requires
        0 <= k,
    ensures
        merge_transitions(net, order, ids, start, existing, k).tids.len() == start.tids.len() + k,
    decreases k,
{
    if k > 0 {
        lemma_merge_tids_len(net, order, ids, start, existing, k - 1);
    }
}

/// The position of `v` in `s`, whose entries occur once.
fn position_in(s: &Vec<usize>, v: usize) -> (r: Option<usize>)
    requires
        forall|a: int, b: int| 0 <= a < s@.len() && 0 <= b < s@.len() && a != b ==> #[trigger] s@[a] != #[trigger] s@[b],
    ensures
        match r {
            Some(k) => k < s@.len() && s@[k as int] == v && k as int == index_of(s@, v),
            None => !s@.contains(v),
        },
{
    let mut k: usize = 0;
    while k < s.len()
        invariant
            0 <= k <= s@.len(),
            forall|j: int| 0 <= j < k ==> s@[j] != v,
        decreases s@.len() - k,
    {
        if s[k] == v {
            proof {
                let c = index_of(s@, v);
                assert(0 <= c < s@.len() && s@[c] == v);
            }
            return Some(k);
        }
        k += 1;
    }
    None
}

/// `new` (with the activity identifiers `new_vis`) is `old` (with `old_vis`)
/// after merging the Petri net of object type `ot` (see `merge_bundle_into_ocpn`).
pub open spec fn merged_into(
    old: Ocpn,
    old_vis: Seq<(String, String)>,
    ot: Seq<char>,
    net: PetriNet,
    conv: Seq<String>,
    place_ids: Seq<String>,
    fresh_transition_ids: Seq<String>,
    arc_ids: Seq<String>,
    new: Ocpn,
    new_vis: Seq<(String, String)>,
) -> bool {
    exists|order: Seq<usize>| #[trigger] transition_order(net, order) && ({
        let pidv = place_ids.map_values(|s: String| s@);
        let tidv = fresh_transition_ids.map_values(|s: String| s@);
        let aidv = arc_ids.map_values(|s: String| s@);
        let np = net_places(net).len();
        let st = merge_transitions(net, order, tidv,
            TransState { vis: vis_view(old_vis), next: 0, tids: Seq::empty(), added: Seq::empty() },
            transition_ids(old.transitions@), order.len() as int);
        &&& new.places@.len() == old.places@.len() + np
        &&& forall|q: int| 0 <= q < old.places@.len() ==> #[trigger] new.places@[q] == old.places@[q]
        &&& forall|k: int| 0 <= k < np ==> merged_place(net, ot, pidv[k], k, #[trigger] new.places@[old.places@.len() + k])
        &&& new.transitions@.len() == old.transitions@.len() + st.added.len()
        &&& forall|q: int| 0 <= q < old.transitions@.len() ==> #[trigger] new.transitions@[q] == old.transitions@[q]
        &&& forall|q: int| 0 <= q < st.added.len() ==> added_transition(st.added[q], #[trigger] new.transitions@[old.transitions@.len() + q])
        &&& vis_view(new_vis) == st.vis
        &&& new.arcs@.len() == old.arcs@.len() + net.arcs@.len()
        &&& forall|q: int| 0 <= q < old.arcs@.len() ==> #[trigger] new.arcs@[q] == old.arcs@[q]
        &&& forall|x: int| 0 <= x < net.arcs@.len() ==> merged_arc(net, pidv, aidv, order, st.tids, conv, x, #[trigger] new.arcs@[old.arcs@.len() + x])
    })
}

/// Merges the Petri net of object type `object_type` into `ocpn`: its present
/// places become places of the type (named by the type and their rank), its
/// transitions, ordered by label, become transitions (a visible transition
/// takes the identifier already given to its activity, so one activity is one
/// transition across types), and its arcs become arcs, variable where the
/// transition's activity is convergent for the type. The `k`-th place gets
/// `place_ids[k]`, each new transition identifier is the next of
/// `fresh_transition_ids`, and arc `x` gets `arc_ids[x]`.
pub fn merge_bundle_into_ocpn(
    ocpn: &mut Ocpn,
    object_type: &String,
    net: &PetriNet,
    convergent: &Vec<String>,
    visible_transition_ids: &mut Vec<(String, String)>,
    place_ids: &Vec<String>,
    fresh_transition_ids: &Vec<String>,
    arc_ids: &Vec<String>,
)
    requires
        net.wf(),
        forall|i: int, j: int| 0 <= i < j < old(visible_transition_ids)@.len() ==>
            (#[trigger] old(visible_transition_ids)@[i]).0@ != (#[trigger] old(visible_transition_ids)@[j]).0@,
        net.places@.len() <= place_ids@.len(),
        net.transitions@.len() <= fresh_transition_ids@.len(),
        net.arcs@.len() <= arc_ids@.len(),
    ensures
        forall|i: int, j: int| 0 <= i < j < final(visible_transition_ids)@.len() ==>
            (#[trigger] final(visible_transition_ids)@[i]).0@ != (#[trigger] final(visible_transition_ids)@[j]).0@,
        merged_into(*old(ocpn), old(visible_transition_ids)@, object_type@, *net, convergent@, place_ids@, fresh_transition_ids@, arc_ids@,
            *final(ocpn), final(visible_transition_ids)@),
{
    let ghost pidv = place_ids@.map_values(|s: String| s@);
    let ghost tidv = fresh_transition_ids@.map_values(|s: String| s@);
    let ghost aidv = arc_ids@.map_values(|s: String| s@);
    let ghost o0 = *ocpn;
    let place_count = net.places.len();
    let transition_count = net.transitions.len();
    proof {
        lemma_present_positions(net.places@, net.places@.len() as int);
    }
    let placed = merge_places(ocpn, object_type, net, place_ids);
    let np = placed.len();
    let order = transitions_in_order(net);
    let ghost o1 = *ocpn;
    let (tids, _next) = merge_transition_list(ocpn, net, &order, fresh_transition_ids, visible_transition_ids, 0);
    let ghost st = merge_transitions(*net, order@, tidv,
        TransState { vis: vis_view(old(visible_transition_ids)@), next: 0, tids: Seq::empty(), added: Seq::empty() },
        transition_ids(o0.transitions@), order@.len() as int);
    proof {
        lemma_merge_tids_len(*net, order@, tidv,
            TransState { vis: vis_view(old(visible_transition_ids)@), next: 0, tids: Seq::empty(), added: Seq::empty() },
            transition_ids(o0.transitions@), order@.len() as int);
    }
    let mut places_only: Vec<usize> = Vec::new();
    let mut i: usize = 0;
    while i < placed.len()
        invariant
            0 <= i <= placed@.len(),
            places_only@.len() == i,
            forall|j: int| 0 <= j < i ==> (#[trigger] places_only@[j]) == placed@[j].0,
        decreases placed@.len() - i,
    {
        places_only.push(placed[i].0);
        i += 1;
    }
    proof {
        assert(places_only@ =~= net_places(*net));
    }
    let ghost o2 = *ocpn;
    let mut x: usize = 0;
    while x < net.arcs.len()
        invariant
            0 <= x <= net.arcs@.len(),
            net.wf(),
            places_only@ == net_places(*net),
            forall|a: int, b: int| 0 <= a < b < places_only@.len() ==> #[trigger] places_only@[a] < #[trigger] places_only@[b],
            forall|p: int| 0 <= p < net.places@.len() && #[trigger] net.places@[p] ==> exists|k: int| 0 <= k < places_only@.len() && places_only@[k] == p,
            placed@.len() == places_only@.len(),
            forall|k: int| 0 <= k < placed@.len() ==> (#[trigger] placed@[k]).1@ == place_ids@[k]@,
            forall|a: int, b: int| 0 <= a < order@.len() && 0 <= b < order@.len() && a != b ==> #[trigger] order@[a] != #[trigger] order@[b],
            forall|t: int| 0 <= t < net.transitions@.len() && net.transitions@[t].present ==> exists|k: int| 0 <= k < order@.len() && order@[k] == t,
            tids@.map_values(|s: String| s@) == st.tids,
            st.tids.len() == order@.len(),
            np <= net.places@.len(),
            net.arcs@.len() <= arc_ids@.len(),
            pidv == place_ids@.map_values(|s: String| s@),
            aidv == arc_ids@.map_values(|s: String| s@),
            ocpn.places == o2.places,
            ocpn.transitions == o2.transitions,
            ocpn.arcs@.len() == o2.arcs@.len() + x,
            forall|q: int| 0 <= q < o2.arcs@.len() ==> #[trigger] ocpn.arcs@[q] == o2.arcs@[q],
            forall|y: int| 0 <= y < x ==> merged_arc(*net, pidv, aidv, order@, st.tids, convergent@, y, #[trigger] ocpn.arcs@[o2.arcs@.len() + y]),
        decreases net.arcs@.len() - x,
    {
        let arc = net.arcs[x];
        proof {
            assert(net.arc_in_net(net.arcs@[x as int]));
        }
        let (p, t, from_place) = match arc {
            ArcType::PlaceTransition(p, t) => (p, t, true),
            ArcType::TransitionPlace(t, p) => (p, t, false),
        };
        let pk = position_in(&places_only, p);
        let tk = position_in(&order, t);
        match (pk, tk) {
            (Some(pk), Some(tk)) => {
                let pid = placed[pk].1.clone();
                let tid = tids[tk].clone();
                let variable = match &net.transitions[t].label {
                    Some(l) => contains_string(convergent, l),
                    None => false,
                };
                let id = arc_ids[x].clone();
                let (source, target) = if from_place {
                    (OcpnNodeRef::Place(pid), OcpnNodeRef::Transition(tid))
                } else {
                    (OcpnNodeRef::Transition(tid), OcpnNodeRef::Place(pid))
                };
                let ghost before = ocpn.arcs@;
                ocpn.arcs.push(OcpnArc { id, source, target, variable });
                proof {
                    assert(st.tids[tk as int] == tids@[tk as int]@);
                    assert(pidv[pk as int] == place_ids@[pk as int]@);
                    assert(aidv[x as int] == arc_ids@[x as int]@);
                    assert forall|q: int| 0 <= q < o2.arcs@.len() implies #[trigger] ocpn.arcs@[q] == o2.arcs@[q] by {
                        assert(ocpn.arcs@[q] == before[q]);
                    }
                    assert forall|y: int| 0 <= y < x + 1 implies merged_arc(*net, pidv, aidv, order@, st.tids, convergent@, y, #[trigger] ocpn.arcs@[o2.arcs@.len() + y]) by {
                        if y < x {
                            assert(ocpn.arcs@[o2.arcs@.len() + y] == before[o2.arcs@.len() + y]);
                        }
                    }
                }
            },
            _ => {
                proof {
                    assert(net.places@[p as int]);
                    assert(net.transitions@[t as int].present);
                    let k1 = choose|k: int| 0 <= k < places_only@.len() && places_only@[k] == p;
                    let k2 = choose|k: int| 0 <= k < order@.len() && order@[k] == t;
                    assert(places_only@.contains(p));
                    assert(order@.contains(t));
                }
            },
        }
        x += 1;
    }
    proof {
        assert(transition_order(*net, order@));
    }
}

/// The character of a hexadecimal digit (lower case).
pub open spec fn hex_char(d: nat) -> char {
    if d < 10 { digit_char(d) } else if d == 10 { 'a' } else if d == 11 { 'b' } else if d == 12 { 'c' }
    else if d == 13 { 'd' } else if d == 14 { 'e' } else { 'f' }
}

/// The last `k` hexadecimal digits of `x`, most significant first.
pub open spec fn hex_digits(x: nat, k: nat) -> Seq<char>
    decreases k,
{
    if k == 0 {
        Seq::empty()
    } else {
        hex_digits(x / 16, (k - 1) as nat) + seq![hex_char(x % 16)]
    }
}

fn hex_str(d: u128) -> (r: &'static str)
    requires
        d < 16,
    ensures
        r@ == seq![hex_char(d as nat)],
{
    proof {
        reveal_strlit("0"); reveal_strlit("1"); reveal_strlit("2"); reveal_strlit("3");
        reveal_strlit("4"); reveal_strlit("5"); reveal_strlit("6"); reveal_strlit("7");
        reveal_strlit("8"); reveal_strlit("9"); reveal_strlit("a"); reveal_strlit("b");
        reveal_strlit("c"); reveal_strlit("d"); reveal_strlit("e"); reveal_strlit("f");
    }
    if d == 0 { "0" } else if d == 1 { "1" } else if d == 2 { "2" } else if d == 3 { "3" }
    else if d == 4 { "4" } else if d == 5 { "5" } else if d == 6 { "6" } else if d == 7 { "7" }
    else if d == 8 { "8" } else if d == 9 { "9" } else if d == 10 { "a" } else if d == 11 { "b" }
    else if d == 12 { "c" } else if d == 13 { "d" } else if d == 14 { "e" } else { "f" }
}

/// `prefix` followed by the last `k` hexadecimal digits of `x`.
fn hex_string(prefix: &str, x: u128, k: u32) -> (r: String)
    ensures
        r@ == prefix@ + hex_digits(x as nat, k as nat),
    decreases k,
{
    if k == 0 {
        let s = String::from_str(prefix);
        assert(s@ =~= prefix@ + hex_digits(x as nat, 0));
        s
    } else {
        let mut s = hex_string(prefix, x / 16, k - 1);
        s.append(hex_str(x % 16));
        assert(s@ =~= prefix@ + hex_digits(x as nat, k as nat));
        s
    }
}

/// `s` is `prefix` followed by 32 hexadecimal digits.
pub open spec fn is_fresh_id(s: Seq<char>, prefix: Seq<char>) -> bool {
    exists|x: nat| s == prefix + hex_digits(x, 32)
}

/// `count` fresh identifiers: `prefix` followed by the 32 hexadecimal digits
/// of a random identifier.
fn fresh_ids(prefix: &str, count: usize) -> (r: Vec<String>)
    ensures
        r@.len() == count,
        forall|i: int| 0 <= i < count ==> is_fresh_id((#[trigger] r@[i])@, prefix@),
{
    let mut out: Vec<String> = Vec::new();
    let mut i: usize = 0;
    while i < count
        invariant
            0 <= i <= count,
            out@.len() == i,
            forall|j: int| 0 <= j < i ==> is_fresh_id((#[trigger] out@[j])@, prefix@),
        decreases count - i,
    {
        let u = new_uuid();
        let ghost before = out@;
        out.push(hex_string(prefix, u, 32));
        proof {
            assert forall|j: int| 0 <= j < i + 1 implies is_fresh_id((#[trigger] out@[j])@, prefix@) by {
                if j < i {
                    assert(out@[j] == before[j]);
                } else {
                    assert(out@[j]@ == prefix@ + hex_digits(u as nat, 32));
                }
            }
        }
        i += 1;
    }
    out
}

/// An object-centric Petri net without nodes.
pub open spec fn empty_ocpn(n: Ocpn) -> bool {
    n.places@.len() == 0 && n.transitions@.len() == 0 && n.arcs@.len() == 0
}

/// `conv` lists the activities that converge for object type `ot`.
pub open spec fn convergent_list(ocpt: OCPT, ot: Seq<char>, conv: Seq<String>) -> bool {
    forall|a: Seq<char>| #[trigger] seq_has(conv, a) <==> converges_at(ocpt, ot, a)
}

/// The first `k` merge steps of `merge_chain`.
pub open spec fn chain_upto(ocpt: OCPT, meta: LeafMetadataIndex, steps: Seq<Ocpn>, viss: Seq<Seq<(String, String)>>, nets: Seq<PetriNet>,
    convs: Seq<Seq<String>>, pids: Seq<Seq<String>>, tids: Seq<Seq<String>>, aids: Seq<Seq<String>>, k: int) -> bool {
    let ts = meta.all_object_types@;
    forall|q: int| 0 <= q < k ==> {
        &&& project(ocpt.root, ts[q]@, meta) matches Ok(t) && petri_net_of(t, #[trigger] nets[q])
        &&& convergent_list(ocpt, ts[q]@, convs[q])
        &&& merged_into(steps[q], viss[q], ts[q]@, nets[q], convs[q], pids[q], tids[q], aids[q], steps[q + 1], viss[q + 1])
    }
}

/// `steps` are the object-centric nets after merging the first `k` object types
/// of `meta`, for each `k`: each type's Petri net (`nets`) is that of its
/// projection, and each step merges it with the convergent activities `convs`
/// and the fresh identifiers `pids`, `tids`, `aids`.
pub open spec fn merge_chain(ocpt: OCPT, meta: LeafMetadataIndex, steps: Seq<Ocpn>, viss: Seq<Seq<(String, String)>>, nets: Seq<PetriNet>,
    convs: Seq<Seq<String>>, pids: Seq<Seq<String>>, tids: Seq<Seq<String>>, aids: Seq<Seq<String>>) -> bool {
    let ts = meta.all_object_types@;
    &&& steps.len() == ts.len() + 1 && viss.len() == ts.len() + 1 && nets.len() == ts.len()
    &&& convs.len() == ts.len() && pids.len() == ts.len() && tids.len() == ts.len() && aids.len() == ts.len()
    &&& empty_ocpn(steps[0]) && viss[0].len() == 0
    &&& chain_upto(ocpt, meta, steps, viss, nets, convs, pids, tids, aids, ts.len() as int)
}

/// The object-centric Petri net of an OCPT, one object type after the other in
/// increasing order of type: the first projection that fails gives its error;
/// otherwise the net merges, type after type, the Petri net of each type's
/// projection (see `merge_bundle_into_ocpn`), with fresh random identifiers.
/// The OCPT's validity is not checked here, and the result is not normalized.
pub fn convert_ocpt_to_ocpn(ocpt: &OCPT) -> (r: Result<Ocpn, ConvertOcptToOcpnError>)
    ensures
        exists|meta: LeafMetadataIndex| #[trigger] meta.indexes(leaves(ocpt.root)) && meta.wf() && ({
            let ts = meta.all_object_types@;
            match r {
                Err(e) => exists|k: int| 0 <= k < ts.len() && #[trigger] project(ocpt.root, ts[k]@, meta) == Err::<PTree, ConvertOcptToOcpnError>(e)
                    && forall|k2: int| 0 <= k2 < k ==> (#[trigger] project(ocpt.root, ts[k2]@, meta)) is Ok,
                Ok(net) => exists|steps: Seq<Ocpn>, viss: Seq<Seq<(String, String)>>, nets: Seq<PetriNet>, convs: Seq<Seq<String>>,
                    pids: Seq<Seq<String>>, tids: Seq<Seq<String>>, aids: Seq<Seq<String>>|
                    #[trigger] merge_chain(*ocpt, meta, steps, viss, nets, convs, pids, tids, aids) && steps[ts.len() as int] == net,
            }
        }),
{
    let metadata = LeafMetadataIndex::from_ocpt(ocpt);
    let ghost meta = metadata;
    let ghost ts = metadata.all_object_types@;
    let mut merged = Ocpn { places: Vec::new(), transitions: Vec::new(), arcs: Vec::new() };
    let mut visible: Vec<(String, String)> = Vec::new();
    let ghost mut steps: Seq<Ocpn> = seq![merged];
    let ghost mut viss: Seq<Seq<(String, String)>> = seq![visible@];
    let ghost mut nets: Seq<PetriNet> = Seq::empty();
    let ghost mut convs: Seq<Seq<String>> = Seq::empty();
    let ghost mut pids: Seq<Seq<String>> = Seq::empty();
    let ghost mut tidss: Seq<Seq<String>> = Seq::empty();
    let ghost mut aids: Seq<Seq<String>> = Seq::empty();
    let mut k: usize = 0;
    while k < metadata.all_object_types.len()
        invariant
            0 <= k <= ts.len(),
            meta == metadata,
            ts == metadata.all_object_types@,
            meta.indexes(leaves(ocpt.root)),
            meta.wf(),
            steps.len() == k + 1,
            viss.len() == k + 1,
            nets.len() == k,
            convs.len() == k,
            pids.len() == k,
            tidss.len() == k,
            aids.len() == k,
            empty_ocpn(steps[0]),
            viss[0].len() == 0,
            steps[k as int] == merged,
            viss[k as int] == visible@,
            forall|i: int, j: int| 0 <= i < j < visible@.len() ==> (#[trigger] visible@[i]).0@ != (#[trigger] visible@[j]).0@,
            chain_upto(*ocpt, meta, steps, viss, nets, convs, pids, tidss, aids, k as int),
        decreases ts.len() - k,
    {
        let object_type = &metadata.all_object_types[k];
        let projected = match project_ocpt_for_object_type(&ocpt.root, object_type, &metadata) {
            Ok(t) => t,
            Err(e) => {
                proof {
                    assert forall|k2: int| 0 <= k2 < k implies (#[trigger] project(ocpt.root, ts[k2]@, meta)) is Ok by {
                        assert(chain_upto(*ocpt, meta, steps, viss, nets, convs, pids, tidss, aids, k as int));
                        let n2 = nets[k2];
                        assert(project(ocpt.root, ts[k2]@, meta) is Ok);
                    }
                    assert(project(ocpt.root, ts[k as int]@, meta) == Err::<PTree, ConvertOcptToOcpnError>(e));
                }
                return Err(e);
            },
        };
        let petri_net = process_tree_to_petri_net(&projected);
        let convergent = collect_convergent_activities(ocpt, object_type);
        let place_ids = fresh_ids("p_", petri_net.places.len());
        let transition_ids = fresh_ids("t_", petri_net.transitions.len());
        let arc_ids = fresh_ids("a_", petri_net.arcs.len());
        let ghost before = merged;
        let ghost vis_before = visible@;
        merge_bundle_into_ocpn(&mut merged, object_type, &petri_net, &convergent, &mut visible, &place_ids, &transition_ids, &arc_ids);
        proof {
            assert(petri_net_of(projected@, petri_net));
            assert(convergent_list(*ocpt, ts[k as int]@, convergent@));
            assert(merged_into(before, vis_before, ts[k as int]@, petri_net, convergent@, place_ids@, transition_ids@, arc_ids@, merged, visible@));
            let s0 = steps;
            let v0 = viss;
            let n0 = nets;
            let c0 = convs;
            let p0 = pids;
            let t0 = tidss;
            let a0 = aids;
            steps = steps.push(merged);
            viss = viss.push(visible@);
            nets = nets.push(petri_net);
            convs = convs.push(convergent@);
            pids = pids.push(place_ids@);
            tidss = tidss.push(transition_ids@);
            aids = aids.push(arc_ids@);
            assert forall|q: int| 0 <= q < k + 1 implies {
                &&& project(ocpt.root, ts[q]@, meta) matches Ok(t) && petri_net_of(t, #[trigger] nets[q])
                &&& convergent_list(*ocpt, ts[q]@, convs[q])
                &&& merged_into(steps[q], viss[q], ts[q]@, nets[q], convs[q], pids[q], tidss[q], aids[q], steps[q + 1], viss[q + 1])
            } by {
                if q == k {
                    assert(steps[q] == before);
                    assert(viss[q] == vis_before);
                    assert(nets[q] == petri_net);
                    assert(project(ocpt.root, ts[q]@, meta) == Ok::<PTree, ConvertOcptToOcpnError>(projected@));
                } else {
                    assert(steps[q] == s0[q] && steps[q + 1] == s0[q + 1]);
                    assert(viss[q] == v0[q] && viss[q + 1] == v0[q + 1]);
                    assert(nets[q] == n0[q] && convs[q] == c0[q] && pids[q] == p0[q] && tidss[q] == t0[q] && aids[q] == a0[q]);
                    assert(chain_upto(*ocpt, meta, s0, v0, n0, c0, p0, t0, a0, k as int));
                    let nq = n0[q];
                }
            }
            assert(chain_upto(*ocpt, meta, steps, viss, nets, convs, pids, tidss, aids, k + 1));
        }
        k += 1;
    }
    proof {
        assert(merge_chain(*ocpt, meta, steps, viss, nets, convs, pids, tidss, aids));
    }
    Ok(merged)
}

} // verus!
