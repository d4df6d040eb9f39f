//! Cases as graphs of event and object nodes, for case-to-case comparison.
use vstd::prelude::*;
use std::collections::{BTreeMap, BTreeSet};
use crate::ocim::model::seq_has;
use crate::permutation::{is_permutation, lemma_permutation_onto};
use crate::text::{
    insert_sorted, str_eq, lemma_lex_irreflexive, lemma_lex_total, lemma_lex_transitive, lemma_sorted_of, lex_lt, sorted_of,
    sorted_strict, str_lt, views, lex_sorted,
};

verus! {

/// What a node of a case graph stands for.
#[derive(Debug, Clone, PartialEq, Eq)]
pub enum CaseNodeKind {
    Event { event_type: String, source_event_id: String },
    Object { object_type: String, source_object_id: String },
}

/// A node of a case graph.
#[derive(Debug, Clone, PartialEq, Eq)]
pub struct CaseNode {
    pub id: usize,
    pub kind: CaseNodeKind,
}

/// Directly-follows edges between events, event-to-object edges.
#[derive(Debug, Clone, Copy, PartialEq, Eq, PartialOrd, Ord, Structural)]
pub enum CaseEdgeType {
    DF,
    E2O,
}

/// An edge of a case graph.
#[derive(Debug, Clone, PartialEq, Eq)]
pub struct CaseEdge {
    pub id: usize,
    pub from: usize,
    pub to: usize,
    pub edge_type: CaseEdgeType,
}

/// A case as a graph: events in time order, objects, directly-follows and
/// event-to-object edges.
#[derive(Debug, Clone)]
pub struct CaseGraph {
    pub nodes: BTreeMap<usize, CaseNode>,
    pub edges: BTreeMap<usize, CaseEdge>,
    pub ordered_event_ids: Vec<usize>,
    /// object type -> ids of its object nodes
    pub object_ids_by_type: Vec<(String, Vec<usize>)>,
    pub incident_events_by_object: BTreeMap<usize, BTreeSet<usize>>,
    pub df_edge_ids: BTreeMap<(usize, usize), usize>,
    pub e2o_edge_ids: BTreeMap<(usize, usize), usize>,
}

impl CaseGraph {
    /// The event type of node `node_id` where that node is an event node.
    pub fn event_label(&self, node_id: usize) -> (r: Option<&str>)
        ensures
            match r {
                Some(label) => self.nodes@.contains_key(node_id)
                    && (self.nodes@[node_id].kind matches CaseNodeKind::Event { event_type, .. } && label@ == event_type@),
                None => !self.nodes@.contains_key(node_id) || self.nodes@[node_id].kind is Object,
            },
    {
        broadcast use vstd::std_specs::btree::group_btree_axioms;
        match self.nodes.get(&node_id) {
            Some(node) => match &node.kind {
                CaseNodeKind::Event { event_type, .. } => Some(event_type.as_str()),
                _ => None,
            },
            None => None,
        }
    }
}

/// An object of a case log.
#[derive(Debug, Clone)]
pub struct CaseLogObject {
    pub id: String,
    pub object_type: String,
}

/// An event of a case log: `time` is a number that orders the instants (such as
/// nanoseconds since the epoch), `object_ids` the objects it relates to.
#[derive(Debug, Clone)]
pub struct CaseLogEvent {
    pub id: String,
    pub event_type: String,
    pub time: i64,
    pub object_ids: Vec<String>,
}

/// The events and objects of one case.
#[derive(Debug, Clone)]
pub struct CaseLog {
    pub events: Vec<CaseLogEvent>,
    pub objects: Vec<CaseLogObject>,
}

/// Why a case log gives no case graph.
#[derive(Debug, Clone, PartialEq, Eq)]
pub enum CaseGraphError {
    /// The case has no event.
    NoEvents,
    /// The case has no object.
    NoObjects,
    /// An event relates to an object that the case does not hold.
    UnknownObject(String),
}

/// A key by its views.
pub open spec fn key_view(x: (i64, String)) -> (i64, Seq<char>) {
    (x.0, x.1@)
}

pub open spec fn key_views(k: Seq<(i64, String)>) -> Seq<(i64, Seq<char>)> {
    k.map_values(|x: (i64, String)| key_view(x))
}

/// `x` comes before `y`: an earlier time, or the same time and a smaller identifier.
pub open spec fn key_before(x: (i64, Seq<char>), y: (i64, Seq<char>)) -> bool {
    x.0 < y.0 || (x.0 == y.0 && lex_lt(x.1, y.1))
}

/// The keys are the same.
pub open spec fn same_key(x: (i64, Seq<char>), y: (i64, Seq<char>)) -> bool {
    x == y
}

/// `ord` lists every position of `keys` once, in the order of the keys, and
/// positions with the same key in increasing order.
pub open spec fn sorted_positions(keys: Seq<(i64, Seq<char>)>, ord: Seq<usize>) -> bool {
    &&& ord.len() == keys.len()
    &&& forall|k: int| 0 <= k < ord.len() ==> (#[trigger] ord[k]) < keys.len()
    &&& forall|a: int, b: int| 0 <= a < ord.len() && 0 <= b < ord.len() && a != b ==> #[trigger] ord[a] != #[trigger] ord[b]
    &&& forall|a: int, b: int| 0 <= a < b < ord.len() ==> !key_before(keys[#[trigger] ord[b] as int], keys[#[trigger] ord[a] as int])
    &&& forall|a: int, b: int| 0 <= a < b < ord.len() && same_key(keys[#[trigger] ord[a] as int], keys[#[trigger] ord[b] as int])
        ==> ord[a] < ord[b]
}

proof fn lemma_key_before_transitive(x: (i64, Seq<char>), y: (i64, Seq<char>), z: (i64, Seq<char>))
    requires
        key_before(x, y),
        key_before(y, z),
    ensures
        key_before(x, z),
{
    if x.0 == y.0 && y.0 == z.0 {
        lemma_lex_transitive(x.1, y.1, z.1);
    }
}

/// Where neither comes before the other, the keys are the same.
proof fn lemma_key_total(x: (i64, Seq<char>), y: (i64, Seq<char>))
    ensures
        key_before(x, y) || key_before(y, x) || same_key(x, y),
{
    if x.1 != y.1 {
        lemma_lex_total(x.1, y.1);
    }
}

fn key_precedes(x: &(i64, String), y: &(i64, String)) -> (r: bool)
    ensures
        r == key_before(key_view(*x), key_view(*y)),
{
    x.0 < y.0 || (x.0 == y.0 && str_lt(x.1.as_str(), y.1.as_str()))
}

/// The positions of the keys in their order; equal keys keep their order.
pub(crate) fn sort_positions(keys: &Vec<(i64, String)>) -> (r: Vec<usize>)
    ensures
        sorted_positions(key_views(keys@), r@),
{
    let mut out: Vec<usize> = Vec::new();
    let mut i: usize = 0;
    while i < keys.len()
        invariant
            0 <= i <= keys@.len(),
            out@.len() == i,
            forall|k: int| 0 <= k < i ==> (#[trigger] out@[k]) < i,
            forall|a: int, b: int| 0 <= a < i && 0 <= b < i && a != b ==> #[trigger] out@[a] != #[trigger] out@[b],
            forall|a: int, b: int| 0 <= a < b < i ==> !key_before(key_views(keys@)[#[trigger] out@[b] as int], key_views(keys@)[#[trigger] out@[a] as int]),
            forall|a: int, b: int| 0 <= a < b < i && same_key(key_views(keys@)[#[trigger] out@[a] as int], key_views(keys@)[#[trigger] out@[b] as int])
                ==> out@[a] < out@[b],
        decreases keys@.len() - i,
    {
        let e = &keys[i];
        let mut p: usize = 0;
        while p < out.len()
            invariant
                0 <= p <= out@.len(),
                out@.len() == i,
                key_view(*e) == key_views(keys@)[i as int],
                forall|k: int| 0 <= k < i ==> (#[trigger] out@[k]) < i,
                forall|k: int| 0 <= k < p ==> !key_before(key_view(*e), key_views(keys@)[#[trigger] out@[k] as int]),
            decreases out@.len() - p,
        {
            if key_precedes(e, &keys[out[p]]) {
                break;
            }
            p += 1;
        }
        let ghost old_out = out@;
        out.insert(p, i);
        proof {
            let ks = key_views(keys@);
            let ki = ks[i as int];
            assert(out@[p as int] == i);
            assert forall|k: int| 0 <= k < i + 1 implies (#[trigger] out@[k]) < i + 1 by {
                if k < p { assert(out@[k] == old_out[k]); } else if k > p { assert(out@[k] == old_out[k - 1]); }
            }
            assert forall|a: int, b: int| 0 <= a < i + 1 && 0 <= b < i + 1 && a != b implies #[trigger] out@[a] != #[trigger] out@[b] by {
                let oa = if a < p { a } else { a - 1 };
                let ob = if b < p { b } else { b - 1 };
                if a != p && b != p {
                    assert(out@[a] == old_out[oa] && out@[b] == old_out[ob]);
                } else if a == p {
                    assert(out@[b] == old_out[ob]);
                } else {
                    assert(out@[a] == old_out[oa]);
                }
            }
            // every key after position p is preceded by `ki`
            if p < old_out.len() {
                assert(key_before(ki, ks[old_out[p as int] as int]));
                assert forall|b: int| p <= b < old_out.len() implies key_before(ki, ks[#[trigger] old_out[b] as int]) by {
                    if b > p {
                        let y = ks[old_out[p as int] as int];
                        let z = ks[old_out[b] as int];
                        assert(!key_before(z, y));
                        lemma_key_total(y, z);
                        if key_before(y, z) {
                            lemma_key_before_transitive(ki, y, z);
                        } else {
                            assert(same_key(y, z));
                        }
                    }
                }
            }
            assert forall|a: int, b: int| 0 <= a < b < i + 1 implies !key_before(ks[#[trigger] out@[b] as int], ks[#[trigger] out@[a] as int]) by {
                if b == p {
                    assert(out@[a] == old_out[a]);
                } else if a == p {
                    assert(out@[b] == old_out[b - 1]);
                    let z = ks[old_out[b - 1] as int];
                    assert(key_before(ki, z));
                    if key_before(z, ki) {
                        lemma_key_before_transitive(z, ki, z);
                        lemma_lex_irreflexive(z.1);
                    }
                } else if a < p && b > p {
                    assert(out@[a] == old_out[a] && out@[b] == old_out[b - 1]);
                } else if a > p {
                    assert(out@[a] == old_out[a - 1] && out@[b] == old_out[b - 1]);
                } else {
                    assert(out@[a] == old_out[a] && out@[b] == old_out[b]);
                }
            }
            assert forall|a: int, b: int| 0 <= a < b < i + 1 && same_key(ks[#[trigger] out@[a] as int], ks[#[trigger] out@[b] as int])
                implies out@[a] < out@[b] by {
                if b == p {
                    assert(out@[a] == old_out[a]);
                } else if a == p {
                    assert(out@[b] == old_out[b - 1]);
                    let z = ks[old_out[b - 1] as int];
                    assert(key_before(ki, z));
                    if ki.0 == z.0 {
                        assert(lex_lt(ki.1, z.1));
                        lemma_lex_irreflexive(z.1);
                    }
                } else if a < p && b > p {
                    assert(out@[a] == old_out[a] && out@[b] == old_out[b - 1]);
                } else if a > p {
                    assert(out@[a] == old_out[a - 1] && out@[b] == old_out[b - 1]);
                } else {
                    assert(out@[a] == old_out[a] && out@[b] == old_out[b]);
                }
            }
        }
        i += 1;
    }
    out
}

/// The objects an event relates to, each once, in increasing order.
pub open spec fn event_objects(e: CaseLogEvent) -> Seq<Seq<char>> {
    sorted_of(Set::new(|x: Seq<char>| seq_has(e.object_ids@, x)))
}

/// The identifiers, each once, in increasing order; no more of them than in `v`.
fn distinct_sorted(v: &Vec<String>) -> (r: Vec<String>)
    ensures
        sorted_strict(r@),
        views(r@) == sorted_of(Set::new(|x: Seq<char>| seq_has(v@, x))),
        r@.len() <= v@.len(),
        forall|x: Seq<char>| #[trigger] seq_has(r@, x) <==> seq_has(v@, x),
{
    let mut out: Vec<String> = Vec::new();
    let mut i: usize = 0;
    while i < v.len()
        invariant
            0 <= i <= v@.len(),
            sorted_strict(out@),
            out@.len() <= i,
            forall|x: Seq<char>| #[trigger] seq_has(out@, x) <==> seq_has(v@.take(i as int), x),
        decreases v@.len() - i,
    {
        let ghost before = out@;
        insert_sorted(&mut out, &v[i]);
        proof {
            let t = v@.take(i + 1);
            assert forall|x: Seq<char>| #[trigger] seq_has(out@, x) <==> seq_has(t, x) by {
                if seq_has(t, x) {
                    let k = choose|k: int| 0 <= k < t.len() && (#[trigger] t[k])@ == x;
                    if k < i {
                        assert(v@.take(i as int)[k] == t[k]);
                    }
                }
                if seq_has(v@.take(i as int), x) {
                    let k = choose|k: int| 0 <= k < i && (#[trigger] v@.take(i as int)[k])@ == x;
                    assert(t[k] == v@.take(i as int)[k]);
                }
                if x == v@[i as int]@ {
                    assert(t[i as int] == v@[i as int]);
                }
            }
        }
        i += 1;
    }
    assert(v@.take(i as int) =~= v@);
    proof {
        lemma_sorted_of(out@, Set::new(|x: Seq<char>| seq_has(v@, x)));
    }
    out
}

/// Objects are ordered by identifier.
pub open spec fn object_keys(log: CaseLog) -> Seq<(i64, Seq<char>)> {
    log.objects@.map_values(|o: CaseLogObject| (0i64, o.id@))
}

/// Events are ordered by time, then by identifier.
pub open spec fn event_keys(log: CaseLog) -> Seq<(i64, Seq<char>)> {
    log.events@.map_values(|e: CaseLogEvent| (e.time, e.id@))
}

/// The object of node `k + 1`, for the object order `oo`.
pub open spec fn obj_at(log: CaseLog, oo: Seq<usize>, k: int) -> CaseLogObject {
    log.objects@[oo[k] as int]
}

/// The event of the `k`-th event node, for the event order `eo`.
pub open spec fn ev_at(log: CaseLog, eo: Seq<usize>, k: int) -> CaseLogEvent {
    log.events@[eo[k] as int]
}

/// The objects of the `k`-th event in order.
pub open spec fn rel(log: CaseLog, eo: Seq<usize>, k: int) -> Seq<Seq<char>> {
    event_objects(ev_at(log, eo, k))
}

/// The number of event-to-object relations of the events before the `k`-th.
pub open spec fn offset(log: CaseLog, eo: Seq<usize>, k: int) -> int
    decreases k,
{
    if k <= 0 {
        0
    } else {
        offset(log, eo, k - 1) + rel(log, eo, k - 1).len()
    }
}

/// The last of the first `k` objects in order whose identifier is `x`, or -1.
pub open spec fn last_index(log: CaseLog, oo: Seq<usize>, x: Seq<char>, k: int) -> int
    decreases k,
{
    if k <= 0 {
        -1
    } else if obj_at(log, oo, k - 1).id@ == x {
        k - 1
    } else {
        last_index(log, oo, x, k - 1)
    }
}

/// The node of the object with identifier `x` (the last such object in order),
/// or 0 where the case holds none.
pub open spec fn object_node(log: CaseLog, oo: Seq<usize>, x: Seq<char>) -> int {
    last_index(log, oo, x, log.objects@.len() as int) + 1
}

proof fn lemma_last_index(log: CaseLog, oo: Seq<usize>, x: Seq<char>, k: int)
    ensures
        -1 <= last_index(log, oo, x, k) < k || (k <= 0 && last_index(log, oo, x, k) == -1),
        last_index(log, oo, x, k) >= 0 ==> obj_at(log, oo, last_index(log, oo, x, k)).id@ == x,
        last_index(log, oo, x, k) == -1 ==> forall|j: int| 0 <= j < k ==> (#[trigger] obj_at(log, oo, j)).id@ != x,
    decreases k,
{
    if k > 0 {
        lemma_last_index(log, oo, x, k - 1);
    }
}

/// The sum of the numbers of object identifiers of the events at positions `s`.
pub open spec fn idx_sum(log: CaseLog, s: Seq<usize>) -> int
    decreases s.len(),
{
    if s.len() == 0 {
        0
    } else {
        idx_sum(log, s.drop_last()) + log.events@[s.last() as int].object_ids@.len()
    }
}

/// The number of object identifiers over the first `n` events.
pub open spec fn relation_total(log: CaseLog, n: int) -> int
    decreases n,
{
    if n <= 0 {
        0
    } else {
        relation_total(log, n - 1) + log.events@[n - 1].object_ids@.len()
    }
}

proof fn lemma_idx_sum_remove(log: CaseLog, s: Seq<usize>, p: int)
    requires
        0 <= p < s.len(),
    ensures
        idx_sum(log, s) == idx_sum(log, s.remove(p)) + log.events@[s[p] as int].object_ids@.len(),
    decreases s.len(),
{
    if p == s.len() - 1 {
        assert(s.remove(p) =~= s.drop_last());
    } else {
        lemma_idx_sum_remove(log, s.drop_last(), p);
        assert(s.drop_last().remove(p) =~= s.remove(p).drop_last());
    }
}

/// Positions that occur once each, all below `n`, add up to no more than the first `n` events.
proof fn lemma_idx_sum_bound(log: CaseLog, s: Seq<usize>, n: int)
    requires
        forall|k: int| 0 <= k < s.len() ==> (#[trigger] s[k]) < n,
        forall|a: int, b: int| 0 <= a < s.len() && 0 <= b < s.len() && a != b ==> #[trigger] s[a] != #[trigger] s[b],
    ensures
        idx_sum(log, s) <= relation_total(log, n),
    decreases n,
{
    if n <= 0 {
        if s.len() > 0 {
            assert(s[0] < n);
        }
    } else if exists|p: int| 0 <= p < s.len() && s[p] == n - 1 {
        let p = choose|p: int| 0 <= p < s.len() && s[p] == n - 1;
        lemma_idx_sum_remove(log, s, p);
        let t = s.remove(p);
        assert forall|k: int| 0 <= k < t.len() implies (#[trigger] t[k]) < n - 1 by {
            if k < p {
                assert(t[k] == s[k]);
            } else {
                assert(t[k] == s[k + 1]);
            }
        }
        assert forall|a: int, b: int| 0 <= a < t.len() && 0 <= b < t.len() && a != b implies #[trigger] t[a] != #[trigger] t[b] by {
            let sa = if a < p { a } else { a + 1 };
            let sb = if b < p { b } else { b + 1 };
            assert(t[a] == s[sa] && t[b] == s[sb]);
        }
        lemma_idx_sum_bound(log, t, n - 1);
    } else {
        assert forall|k: int| 0 <= k < s.len() implies (#[trigger] s[k]) < n - 1 by {
            assert(s[k] != n - 1);
        }
        lemma_idx_sum_bound(log, s, n - 1);
    }
}

/// Object node `id` is the object `o`.
pub open spec fn object_node_is(node: CaseNode, id: int, o: CaseLogObject) -> bool {
    &&& node.id == id
    &&& node.kind matches CaseNodeKind::Object { object_type, source_object_id }
        && object_type@ == o.object_type@ && source_object_id@ == o.id@
}

/// Event node `id` is the event `e`.
pub open spec fn event_node_is(node: CaseNode, id: int, e: CaseLogEvent) -> bool {
    &&& node.id == id
    &&& node.kind matches CaseNodeKind::Event { event_type, source_event_id }
        && event_type@ == e.event_type@ && source_event_id@ == e.id@
}

/// `j` names one of the objects of the `k`-th event in order.
pub open spec fn is_relation(log: CaseLog, eo: Seq<usize>, k: int, j: int) -> bool {
    0 <= k < log.events@.len() && 0 <= j < rel(log, eo, k).len()
}

/// Relation `(k2, j2)` is handled before relation `(k, j)`.
pub open spec fn handled_before(k2: int, j2: int, k: int, j: int) -> bool {
    k2 < k || (k2 == k && j2 < j)
}

/// The object of relation `(k, j)` is not in the case.
pub open spec fn unknown_at(log: CaseLog, oo: Seq<usize>, eo: Seq<usize>, k: int, j: int) -> bool {
    object_node(log, oo, rel(log, eo, k)[j]) == 0
}

/// Relation `(k, j)` is the first whose object is not in the case.
pub open spec fn first_unknown(log: CaseLog, oo: Seq<usize>, eo: Seq<usize>, k: int, j: int) -> bool {
    &&& is_relation(log, eo, k, j)
    &&& unknown_at(log, oo, eo, k, j)
    &&& forall|k2: int, j2: int| is_relation(log, eo, k2, j2) && handled_before(k2, j2, k, j)
        ==> !unknown_at(log, oo, eo, k2, j2)
}

/// The edge of relation `(k, j)`.
pub open spec fn e2o_edge(log: CaseLog, oo: Seq<usize>, eo: Seq<usize>, k: int, j: int) -> CaseEdge {
    let m = log.objects@.len() as int;
    let n = log.events@.len() as int;
    CaseEdge {
        id: (n + offset(log, eo, k) + j) as usize,
        from: (m + 1 + k) as usize,
        to: object_node(log, oo, rel(log, eo, k)[j]) as usize,
        edge_type: CaseEdgeType::E2O,
    }
}

/// The directly-follows edge from the `k`-th event node to the next.
pub open spec fn df_edge(log: CaseLog, k: int) -> CaseEdge {
    let m = log.objects@.len() as int;
    CaseEdge {
        id: (k + 1) as usize,
        from: (m + 1 + k) as usize,
        to: (m + 2 + k) as usize,
        edge_type: CaseEdgeType::DF,
    }
}

/// The groups list each object type once, in increasing order, each with the
/// nodes of its objects among the first `k` in increasing order.
pub open spec fn groups_upto(log: CaseLog, oo: Seq<usize>, gs: Seq<(String, Vec<usize>)>, k: int) -> bool {
    &&& forall|a: int, b: int| 0 <= a < b < gs.len() ==> lex_lt((#[trigger] gs[a]).0@, (#[trigger] gs[b]).0@)
    &&& forall|i: int| 0 <= i < k ==> exists|a: int| 0 <= a < gs.len() && (#[trigger] gs[a]).0@ == (#[trigger] obj_at(log, oo, i)).object_type@
    &&& forall|a: int| 0 <= a < gs.len() ==> {
        &&& (#[trigger] gs[a]).1@.len() > 0
        &&& forall|x: int, y: int| 0 <= x < y < gs[a].1@.len() ==> gs[a].1@[x] < gs[a].1@[y]
        &&& forall|id: usize| #[trigger] gs[a].1@.contains(id)
            <==> (1 <= id <= k && obj_at(log, oo, id - 1).object_type@ == gs[a].0@)
    }
}

/// The node of the object with identifier `x`, searched from the last object in order.
fn find_object_node(log: &CaseLog, oo: &Vec<usize>, x: &String) -> (r: Option<usize>)
    requires
        oo@.len() == log.objects@.len(),
        forall|k: int| 0 <= k < oo@.len() ==> (#[trigger] oo@[k]) < log.objects@.len(),
    ensures
        match r {
            Some(nd) => nd as int == object_node(*log, oo@, x@) && 1 <= nd <= log.objects@.len(),
            None => object_node(*log, oo@, x@) == 0,
        },
{
    let mut k: usize = oo.len();
    while k > 0
        invariant
            0 <= k <= oo@.len(),
            oo@.len() == log.objects@.len(),
            forall|i: int| 0 <= i < oo@.len() ==> (#[trigger] oo@[i]) < log.objects@.len(),
            last_index(*log, oo@, x@, oo@.len() as int) == last_index(*log, oo@, x@, k as int),
        decreases k,
    {
        if str_eq(log.objects[oo[k - 1]].id.as_str(), x.as_str()) {
            proof {
                lemma_last_index(*log, oo@, x@, k as int);
            }
            return Some(k);
        }
        k -= 1;
    }
    None
}

/// Adds object node `k + 1`, of type `ty`, to the groups of the first `k` objects.
fn add_to_group(gs: &mut Vec<(String, Vec<usize>)>, ty: &String, k: usize, Ghost(log): Ghost<CaseLog>, Ghost(oo): Ghost<Seq<usize>>)
    requires
        groups_upto(log, oo, old(gs)@, k as int),
        0 <= k < log.objects@.len(),
        k + 1 < usize::MAX,
        ty@ == obj_at(log, oo, k as int).object_type@,
    ensures
        groups_upto(log, oo, final(gs)@, k + 1),
{
    let ghost g0 = gs@;
    let id: usize = k + 1;
    let mut p: usize = 0;
    while p < gs.len()
        invariant
            0 <= p <= gs@.len(),
            gs@ == g0,
            forall|a: int| 0 <= a < p ==> lex_lt((#[trigger] gs@[a]).0@, ty@),
        decreases gs@.len() - p,
    {
        if !str_lt(gs[p].0.as_str(), ty.as_str()) {
            break;
        }
        p += 1;
    }
    if p < gs.len() && str_eq(gs[p].0.as_str(), ty.as_str()) {
        let mut entry = gs.remove(p);
        let ghost old_ids = entry.1@;
        entry.1.push(id);
        gs.insert(p, entry);
        proof {
            assert forall|a: int| 0 <= a < gs@.len() && a != p implies #[trigger] gs@[a] == g0[a] by {}
            assert forall|i: int| 0 <= i < k + 1 implies exists|a: int| 0 <= a < gs@.len() && (#[trigger] gs@[a]).0@ == (#[trigger] obj_at(log, oo, i)).object_type@ by {
                if i < k {
                    let a = choose|a: int| 0 <= a < g0.len() && (#[trigger] g0[a]).0@ == obj_at(log, oo, i).object_type@;
                    assert(gs@[a].0@ == g0[a].0@);
                } else {
                    assert(gs@[p as int].0@ == obj_at(log, oo, i).object_type@);
                }
            }
            assert forall|a: int| 0 <= a < gs@.len() implies {
                &&& (#[trigger] gs@[a]).1@.len() > 0
                &&& forall|x: int, y: int| 0 <= x < y < gs@[a].1@.len() ==> gs@[a].1@[x] < gs@[a].1@[y]
                &&& forall|nd: usize| #[trigger] gs@[a].1@.contains(nd)
                    <==> (1 <= nd <= k + 1 && obj_at(log, oo, nd - 1).object_type@ == gs@[a].0@)
            } by {
                if a == p {
                    assert forall|x: int, y: int| 0 <= x < y < gs@[a].1@.len() implies gs@[a].1@[x] < gs@[a].1@[y] by {
                        if y == old_ids.len() {
                            assert(old_ids.contains(old_ids[x]));
                        }
                    }
                    assert forall|nd: usize| #[trigger] gs@[a].1@.contains(nd)
                        <==> (1 <= nd <= k + 1 && obj_at(log, oo, nd - 1).object_type@ == gs@[a].0@) by {
                        if gs@[a].1@.contains(nd) && nd != id {
                            let x = choose|x: int| 0 <= x < gs@[a].1@.len() && gs@[a].1@[x] == nd;
                            assert(old_ids[x] == nd);
                            assert(old_ids.contains(nd));
                        }
                        if 1 <= nd <= k && obj_at(log, oo, nd - 1).object_type@ == gs@[a].0@ {
                            assert(old_ids.contains(nd));
                            let x = choose|x: int| 0 <= x < old_ids.len() && old_ids[x] == nd;
                            assert(gs@[a].1@[x] == nd);
                        }
                        if nd == id {
                            assert(gs@[a].1@[old_ids.len() as int] == id);
                        }
                    }
                } else {
                    assert(gs@[a] == g0[a]);
                    assert forall|nd: usize| #[trigger] gs@[a].1@.contains(nd)
                        <==> (1 <= nd <= k + 1 && obj_at(log, oo, nd - 1).object_type@ == gs@[a].0@) by {
                        if nd == id && obj_at(log, oo, nd - 1).object_type@ == gs@[a].0@ {
                            lemma_lex_irreflexive(ty@);
                            if a < p {
                                assert(gs@[a].0@ == g0[a].0@);
                                assert(gs@[p as int].0@ == ty@);
                            } else {
                                assert(gs@[p as int].0@ == ty@);
                            }
                        }
                    }
                }
            }
        }
    } else {
        let ghost q = p as int;
        proof {
            if p < gs.len() {
                lemma_lex_total(gs@[q].0@, ty@);
                assert(lex_lt(ty@, gs@[q].0@));
                assert forall|b: int| q <= b < gs@.len() implies lex_lt(ty@, (#[trigger] gs@[b]).0@) by {
                    if b > q {
                        lemma_lex_transitive(ty@, gs@[q].0@, gs@[b].0@);
                    }
                }
            }
        }
        let mut ids: Vec<usize> = Vec::new();
        ids.push(id);
        gs.insert(p, (ty.clone(), ids));
        proof {
            assert forall|a: int, b: int| 0 <= a < b < gs@.len() implies lex_lt((#[trigger] gs@[a]).0@, (#[trigger] gs@[b]).0@) by {
                if a < q && b < q {
                    assert(gs@[a] == g0[a] && gs@[b] == g0[b]);
                } else if a < q && b == q {
                    assert(gs@[a] == g0[a]);
                } else if a < q {
                    assert(gs@[a] == g0[a] && gs@[b] == g0[b - 1]);
                    lemma_lex_transitive(gs@[a].0@, ty@, gs@[b].0@);
                } else if a == q {
                    assert(gs@[b] == g0[b - 1]);
                } else {
                    assert(gs@[a] == g0[a - 1] && gs@[b] == g0[b - 1]);
                }
            }
            assert forall|i: int| 0 <= i < k + 1 implies exists|a: int| 0 <= a < gs@.len() && (#[trigger] gs@[a]).0@ == (#[trigger] obj_at(log, oo, i)).object_type@ by {
                if i < k {
                    let a = choose|a: int| 0 <= a < g0.len() && (#[trigger] g0[a]).0@ == obj_at(log, oo, i).object_type@;
                    if a < q {
                        assert(gs@[a] == g0[a]);
                    } else {
                        assert(gs@[a + 1] == g0[a]);
                    }
                } else {
                    assert(gs@[q].0@ == obj_at(log, oo, i).object_type@);
                }
            }
            assert forall|a: int| 0 <= a < gs@.len() implies {
                &&& (#[trigger] gs@[a]).1@.len() > 0
                &&& forall|x: int, y: int| 0 <= x < y < gs@[a].1@.len() ==> gs@[a].1@[x] < gs@[a].1@[y]
                &&& forall|nd: usize| #[trigger] gs@[a].1@.contains(nd)
                    <==> (1 <= nd <= k + 1 && obj_at(log, oo, nd - 1).object_type@ == gs@[a].0@)
            } by {
                if a == q {
                    assert forall|nd: usize| #[trigger] gs@[a].1@.contains(nd)
                        <==> (1 <= nd <= k + 1 && obj_at(log, oo, nd - 1).object_type@ == gs@[a].0@) by {
                        if 1 <= nd <= k && obj_at(log, oo, nd - 1).object_type@ == ty@ {
                            let i = nd - 1;
                            let b = choose|b: int| 0 <= b < g0.len() && (#[trigger] g0[b]).0@ == obj_at(log, oo, i).object_type@;
                            if b < q {
                                assert(lex_lt(g0[b].0@, ty@));
                            } else {
                                assert(gs@[b + 1] == g0[b]);
                                assert(lex_lt(ty@, g0[b].0@));
                            }
                            lemma_lex_irreflexive(ty@);
                        }
                        assert(gs@[a].1@ =~= seq![id]);
                        if nd == id {
                            assert(gs@[a].1@[0] == nd);
                        }
                    }
                } else {
                    let b = if a < q { a } else { a - 1 };
                    assert(gs@[a] == g0[b]);
                    assert forall|nd: usize| #[trigger] gs@[a].1@.contains(nd)
                        <==> (1 <= nd <= k + 1 && obj_at(log, oo, nd - 1).object_type@ == gs@[a].0@) by {
                        if nd == id && obj_at(log, oo, nd - 1).object_type@ == gs@[a].0@ {
                            lemma_lex_irreflexive(ty@);
                            if b < q {
                                assert(lex_lt(g0[b].0@, ty@));
                            } else {
                                assert(lex_lt(ty@, g0[b].0@));
                            }
                        }
                    }
                }
            }
        }
    }
}

/// The events of nodes whose relations handled before `(k, j)` reach object node `id`.
pub open spec fn incident_set(log: CaseLog, oo: Seq<usize>, eo: Seq<usize>, k: int, j: int, id: int) -> Set<usize> {
    Set::new(|e: usize| exists|k2: int, j2: int|
        is_relation(log, eo, k2, j2) && handled_before(k2, j2, k, j)
        && e == (#[trigger] e2o_edge(log, oo, eo, k2, j2)).from && object_node(log, oo, rel(log, eo, k2)[j2]) == id)
}

/// The edges and edge indexes of `g` hold the directly-follows edges and the
/// event-to-object edges of the relations handled before `(k, j)`, each of whose
/// objects the case holds.
pub open spec fn e2o_upto(log: CaseLog, oo: Seq<usize>, eo: Seq<usize>, g: CaseGraph, k: int, j: int) -> bool {
    let m = log.objects@.len() as int;
    let n = log.events@.len() as int;
    &&& g.edges@.dom() == Set::new(|id: usize| 1 <= id < n + offset(log, eo, k) + j)
    &&& forall|i: int| 0 <= i < n - 1 ==> g.edges@[(i + 1) as usize] == #[trigger] df_edge(log, i)
    &&& forall|k2: int, j2: int| is_relation(log, eo, k2, j2) && handled_before(k2, j2, k, j) ==> {
        let e = #[trigger] e2o_edge(log, oo, eo, k2, j2);
        &&& !unknown_at(log, oo, eo, k2, j2)
        &&& g.edges@[e.id] == e
        &&& g.e2o_edge_ids@.contains_key((e.from, e.to))
        &&& g.e2o_edge_ids@[(e.from, e.to)] == e.id
    }
    &&& forall|p: (usize, usize)| #[trigger] g.e2o_edge_ids@.contains_key(p) ==> exists|k2: int, j2: int|
        is_relation(log, eo, k2, j2) && handled_before(k2, j2, k, j)
        && p == ((#[trigger] e2o_edge(log, oo, eo, k2, j2)).from, e2o_edge(log, oo, eo, k2, j2).to)
    &&& g.incident_events_by_object@.dom() == Set::new(|id: usize| 1 <= id <= m)
    &&& forall|id: usize| 1 <= id <= m ==> (#[trigger] g.incident_events_by_object@[id])@ == incident_set(log, oo, eo, k, j, id as int)
}

/// The nodes, the event order, the directly-follows index and the object groups of `g`.
pub open spec fn nodes_done(log: CaseLog, oo: Seq<usize>, eo: Seq<usize>, g: CaseGraph) -> bool {
    let m = log.objects@.len() as int;
    let n = log.events@.len() as int;
    &&& g.nodes@.dom() == Set::new(|id: usize| 1 <= id <= m + n)
    &&& forall|k: int| 0 <= k < m ==> object_node_is(g.nodes@[(k + 1) as usize], k + 1, #[trigger] obj_at(log, oo, k))
    &&& forall|k: int| 0 <= k < n ==> event_node_is(g.nodes@[(m + 1 + k) as usize], m + 1 + k, #[trigger] ev_at(log, eo, k))
    &&& g.ordered_event_ids@ == Seq::new(n as nat, |k: int| (m + 1 + k) as usize)
    &&& g.df_edge_ids@ == Map::new(|p: (usize, usize)| m + 1 <= p.0 < m + n && p.1 == p.0 + 1, |p: (usize, usize)| (p.0 - m) as usize)
    &&& groups_upto(log, oo, g.object_ids_by_type@, m)
}

/// `g` is the case graph of `log` for the object order `oo` and the event order `eo`:
/// object nodes `1..=m` in order, event nodes `m+1..=m+n` in order,
/// directly-follows edges `1..n` between consecutive events, then one
/// event-to-object edge per event and distinct object, events in order and
/// objects by increasing identifier.
pub open spec fn is_case_graph(log: CaseLog, oo: Seq<usize>, eo: Seq<usize>, g: CaseGraph) -> bool {
    &&& nodes_done(log, oo, eo, g)
    &&& e2o_upto(log, oo, eo, g, log.events@.len() as int, 0)
}

/// What converting `log` gives.
pub open spec fn case_graph_result(log: CaseLog, r: Result<CaseGraph, CaseGraphError>) -> bool {
    let m = log.objects@.len() as int;
    let n = log.events@.len() as int;
    match r {
        Err(CaseGraphError::NoEvents) => n == 0,
        Err(CaseGraphError::NoObjects) => n > 0 && m == 0,
        Err(CaseGraphError::UnknownObject(x)) => n > 0 && m > 0 && exists|oo: Seq<usize>, eo: Seq<usize>, k: int, j: int|
            #[trigger] sorted_positions(object_keys(log), oo) && #[trigger] sorted_positions(event_keys(log), eo)
            && #[trigger] first_unknown(log, oo, eo, k, j) && x@ == rel(log, eo, k)[j],
        Ok(g) => n > 0 && m > 0 && exists|oo: Seq<usize>, eo: Seq<usize>|
            #[trigger] sorted_positions(object_keys(log), oo) && #[trigger] sorted_positions(event_keys(log), eo)
            && is_case_graph(log, oo, eo, g),
    }
}

proof fn lemma_offset_mono(log: CaseLog, eo: Seq<usize>, k2: int, k: int)
    requires
        0 <= k2 < k,
    ensures
        0 <= offset(log, eo, k2),
        offset(log, eo, k2) + rel(log, eo, k2).len() <= offset(log, eo, k),
    decreases k,
{
    if k2 < k - 1 {
        lemma_offset_mono(log, eo, k2, k - 1);
    } else {
        lemma_offset_nonneg(log, eo, k2);
    }
}

proof fn lemma_offset_nonneg(log: CaseLog, eo: Seq<usize>, k: int)
    ensures
        0 <= offset(log, eo, k),
    decreases k,
{
    if k > 0 {
        lemma_offset_nonneg(log, eo, k - 1);
    }
}

/// Node numbers and pairs of them are ordered as the map and set specifications ask.
proof fn lemma_index_keys_ordered()
    ensures
        vstd::laws_cmp::obeys_cmp::<usize>(),
        vstd::laws_cmp::obeys_cmp::<(usize, usize)>(),
{
    broadcast use vstd::laws_cmp::group_laws_cmp;
}

/// Adds the edge of relation `(k, j)`, from event node `ev` to object node `nd`, as edge `eid`.
fn add_relation_edge(
    g: &mut CaseGraph,
    ev: usize,
    nd: usize,
    eid: usize,
    Ghost(log): Ghost<CaseLog>,
    Ghost(oo): Ghost<Seq<usize>>,
    Ghost(eo): Ghost<Seq<usize>>,
    Ghost(k): Ghost<int>,
    Ghost(j): Ghost<int>,
)
    requires
        nodes_done(log, oo, eo, *old(g)),
        e2o_upto(log, oo, eo, *old(g), k, j),
        is_relation(log, eo, k, j),
        lex_sorted(rel(log, eo, k)),
        nd as int == object_node(log, oo, rel(log, eo, k)[j]),
        1 <= nd <= log.objects@.len(),
        ev as int == log.objects@.len() + 1 + k,
        eid as int == log.events@.len() + offset(log, eo, k) + j,
        log.objects@.len() + log.events@.len() < usize::MAX,
    ensures
        nodes_done(log, oo, eo, *final(g)),
        e2o_upto(log, oo, eo, *final(g), k, j + 1),
{
    broadcast use vstd::std_specs::btree::group_btree_axioms;
    proof {
        lemma_index_keys_ordered();
    }
    let ghost g0 = *g;
    let ghost m = log.objects@.len() as int;
    let ghost n = log.events@.len() as int;
    let mut set = match g.incident_events_by_object.get(&nd) {
        Some(s) => s.clone(),
        None => BTreeSet::new(),
    };
    set.insert(ev);
    g.incident_events_by_object.insert(nd, set);
    g.e2o_edge_ids.insert((ev, nd), eid);
    g.edges.insert(eid, CaseEdge { id: eid, from: ev, to: nd, edge_type: CaseEdgeType::E2O });
    proof {
        let e = e2o_edge(log, oo, eo, k, j);
        assert(e.id == eid && e.from == ev && e.to == nd);
        assert(!unknown_at(log, oo, eo, k, j));
        lemma_last_index(log, oo, rel(log, eo, k)[j], m);
        lemma_offset_nonneg(log, eo, k);
        // earlier relations have smaller edge numbers and other index keys
        assert forall|k2: int, j2: int| is_relation(log, eo, k2, j2) && handled_before(k2, j2, k, j) implies
            (#[trigger] e2o_edge(log, oo, eo, k2, j2)).id < eid
            && (e2o_edge(log, oo, eo, k2, j2).from, e2o_edge(log, oo, eo, k2, j2).to) != (ev, nd) by {
            lemma_offset_nonneg(log, eo, k2);
            if k2 < k {
                lemma_offset_mono(log, eo, k2, k);
            } else {
                let x2 = rel(log, eo, k)[j2];
                let x = rel(log, eo, k)[j];
                assert(lex_lt(x2, x));
                lemma_lex_irreflexive(x);
                lemma_last_index(log, oo, x2, m);
                assert(!unknown_at(log, oo, eo, k2, j2));
            }
        }
        assert(g.edges@.dom() =~= Set::new(|id: usize| 1 <= id < n + offset(log, eo, k) + j + 1));
        assert forall|i: int| 0 <= i < n - 1 implies g.edges@[(i + 1) as usize] == #[trigger] df_edge(log, i) by {
            assert(g0.edges@[(i + 1) as usize] == df_edge(log, i));
        }
        assert forall|k2: int, j2: int| is_relation(log, eo, k2, j2) && handled_before(k2, j2, k, j + 1) implies {
            let e2 = #[trigger] e2o_edge(log, oo, eo, k2, j2);
            &&& !unknown_at(log, oo, eo, k2, j2)
            &&& g.edges@[e2.id] == e2
            &&& g.e2o_edge_ids@.contains_key((e2.from, e2.to))
            &&& g.e2o_edge_ids@[(e2.from, e2.to)] == e2.id
        } by {
            if handled_before(k2, j2, k, j) {
                let e2 = e2o_edge(log, oo, eo, k2, j2);
                assert(g0.edges@[e2.id] == e2);
            }
        }
        assert forall|p: (usize, usize)| #[trigger] g.e2o_edge_ids@.contains_key(p) implies exists|k2: int, j2: int|
            is_relation(log, eo, k2, j2) && handled_before(k2, j2, k, j + 1)
            && p == ((#[trigger] e2o_edge(log, oo, eo, k2, j2)).from, e2o_edge(log, oo, eo, k2, j2).to) by {
            if p == (ev, nd) {
                assert(handled_before(k, j, k, j + 1));
                assert(p == (e2o_edge(log, oo, eo, k, j).from, e2o_edge(log, oo, eo, k, j).to));
            } else {
                assert(g0.e2o_edge_ids@.contains_key(p));
                let (k2, j2) = choose|k2: int, j2: int| is_relation(log, eo, k2, j2) && handled_before(k2, j2, k, j)
                    && p == ((#[trigger] e2o_edge(log, oo, eo, k2, j2)).from, e2o_edge(log, oo, eo, k2, j2).to);
                assert(handled_before(k2, j2, k, j + 1));
            }
        }
        assert(g.incident_events_by_object@.dom() =~= Set::new(|id: usize| 1 <= id <= m));
        assert forall|id: usize| 1 <= id <= m implies (#[trigger] g.incident_events_by_object@[id])@
            == incident_set(log, oo, eo, k, j + 1, id as int) by {
            let s_new = incident_set(log, oo, eo, k, j + 1, id as int);
            let s_old = incident_set(log, oo, eo, k, j, id as int);
            assert(g0.incident_events_by_object@[id]@ == s_old);
            if id == nd {
                assert forall|x: usize| s_new.contains(x) <==> s_old.insert(ev).contains(x) by {
                    if x == ev {
                        assert(handled_before(k, j, k, j + 1));
                        assert(x == e2o_edge(log, oo, eo, k, j).from);
                    }
                    if s_new.contains(x) && x != ev {
                        let (k2, j2) = choose|k2: int, j2: int|
                            is_relation(log, eo, k2, j2) && handled_before(k2, j2, k, j + 1)
                            && x == (#[trigger] e2o_edge(log, oo, eo, k2, j2)).from
                            && object_node(log, oo, rel(log, eo, k2)[j2]) == id as int;
                        assert(handled_before(k2, j2, k, j));
                    }
                    if s_old.contains(x) {
                        let (k2, j2) = choose|k2: int, j2: int|
                            is_relation(log, eo, k2, j2) && handled_before(k2, j2, k, j)
                            && x == (#[trigger] e2o_edge(log, oo, eo, k2, j2)).from
                            && object_node(log, oo, rel(log, eo, k2)[j2]) == id as int;
                        assert(handled_before(k2, j2, k, j + 1));
                    }
                }
                assert(s_new =~= s_old.insert(ev));
            } else {
                assert(g.incident_events_by_object@[id] == g0.incident_events_by_object@[id]);
                assert forall|x: usize| s_new.contains(x) <==> s_old.contains(x) by {
                    if s_new.contains(x) {
                        let (k2, j2) = choose|k2: int, j2: int|
                            is_relation(log, eo, k2, j2) && handled_before(k2, j2, k, j + 1)
                            && x == (#[trigger] e2o_edge(log, oo, eo, k2, j2)).from
                            && object_node(log, oo, rel(log, eo, k2)[j2]) == id as int;
                        if !handled_before(k2, j2, k, j) {
                            assert(k2 == k && j2 == j);
                        }
                    }
                    if s_old.contains(x) {
                        let (k2, j2) = choose|k2: int, j2: int|
                            is_relation(log, eo, k2, j2) && handled_before(k2, j2, k, j)
                            && x == (#[trigger] e2o_edge(log, oo, eo, k2, j2)).from
                            && object_node(log, oo, rel(log, eo, k2)[j2]) == id as int;
                        assert(handled_before(k2, j2, k, j + 1));
                    }
                }
                assert(s_new =~= s_old);
            }
        }
    }
}

proof fn lemma_relation_total_nonneg(log: CaseLog, n: int)
    ensures
        0 <= relation_total(log, n),
    decreases n,
{
    if n > 0 {
        lemma_relation_total_nonneg(log, n - 1);
    }
}

/// Once every relation of the `k`-th event is handled, the state is that before the next event.
proof fn lemma_e2o_next_event(log: CaseLog, oo: Seq<usize>, eo: Seq<usize>, g: CaseGraph, k: int)
    requires
        0 <= k < log.events@.len(),
        e2o_upto(log, oo, eo, g, k, rel(log, eo, k).len() as int),
    ensures
        e2o_upto(log, oo, eo, g, k + 1, 0),
{
    let len = rel(log, eo, k).len() as int;
    let m = log.objects@.len() as int;
    assert forall|k2: int, j2: int| is_relation(log, eo, k2, j2) implies
        (handled_before(k2, j2, k, len) <==> handled_before(k2, j2, k + 1, 0)) by {}
    assert(g.edges@.dom() =~= Set::new(|id: usize| 1 <= id < log.events@.len() + offset(log, eo, k + 1) + 0));
    assert forall|p: (usize, usize)| #[trigger] g.e2o_edge_ids@.contains_key(p) implies exists|k2: int, j2: int|
        is_relation(log, eo, k2, j2) && handled_before(k2, j2, k + 1, 0)
        && p == ((#[trigger] e2o_edge(log, oo, eo, k2, j2)).from, e2o_edge(log, oo, eo, k2, j2).to) by {
        let (k2, j2) = choose|k2: int, j2: int| is_relation(log, eo, k2, j2) && handled_before(k2, j2, k, len)
            && p == ((#[trigger] e2o_edge(log, oo, eo, k2, j2)).from, e2o_edge(log, oo, eo, k2, j2).to);
        assert(handled_before(k2, j2, k + 1, 0));
    }
    assert forall|id: usize| 1 <= id <= m implies (#[trigger] g.incident_events_by_object@[id])@
        == incident_set(log, oo, eo, k + 1, 0, id as int) by {
        let a = incident_set(log, oo, eo, k, len, id as int);
        let b = incident_set(log, oo, eo, k + 1, 0, id as int);
        assert forall|x: usize| a.contains(x) <==> b.contains(x) by {
            if a.contains(x) {
                let (k2, j2) = choose|k2: int, j2: int|
                    is_relation(log, eo, k2, j2) && handled_before(k2, j2, k, len)
                    && x == (#[trigger] e2o_edge(log, oo, eo, k2, j2)).from
                    && object_node(log, oo, rel(log, eo, k2)[j2]) == id as int;
                assert(handled_before(k2, j2, k + 1, 0));
            }
            if b.contains(x) {
                let (k2, j2) = choose|k2: int, j2: int|
                    is_relation(log, eo, k2, j2) && handled_before(k2, j2, k + 1, 0)
                    && x == (#[trigger] e2o_edge(log, oo, eo, k2, j2)).from
                    && object_node(log, oo, rel(log, eo, k2)[j2]) == id as int;
                assert(handled_before(k2, j2, k, len));
            }
        }
        assert(a =~= b);
    }
}

/// Builds the case graph of a case log: object nodes by increasing identifier,
/// then event nodes by time and identifier, directly-follows edges between
/// consecutive events, then one event-to-object edge per event and distinct
/// object it relates to.
pub fn case_ocel_to_case_graph(case: &CaseLog) -> (r: Result<CaseGraph, CaseGraphError>)
    requires
        case.objects@.len() + case.events@.len() + relation_total(*case, case.events@.len() as int) < usize::MAX,
    ensures
        case_graph_result(*case, r),
        r is Err <==> (case.events@.len() == 0 || case.objects@.len() == 0 || has_unknown_object(*case)),
        r matches Err(CaseGraphError::UnknownObject(x)) ==> exists|i: int| 0 <= i < case.events@.len()
            && seq_has((#[trigger] case.events@[i]).object_ids@, x@) && !object_known(*case, x@),
{
    broadcast use vstd::std_specs::btree::group_btree_axioms;
    proof {
        lemma_index_keys_ordered();
    }
    if case.events.len() == 0 {
        return Err(CaseGraphError::NoEvents);
    }
    if case.objects.len() == 0 {
        return Err(CaseGraphError::NoObjects);
    }
    let m = case.objects.len();
    let n = case.events.len();
    let ghost log = *case;
    proof {
        lemma_relation_total_nonneg(log, n as int);
    }
    let mut okeys: Vec<(i64, String)> = Vec::new();
    let mut i: usize = 0;
    while i < m
        invariant
            0 <= i <= m,
            m == case.objects@.len(),
            key_views(okeys@) =~= object_keys(*case).take(i as int),
        decreases m - i,
    {
        okeys.push((0, case.objects[i].id.clone()));
        i += 1;
        assert(key_views(okeys@) =~= object_keys(*case).take(i as int));
    }
    assert(key_views(okeys@) =~= object_keys(*case));
    let oo = sort_positions(&okeys);
    let mut ekeys: Vec<(i64, String)> = Vec::new();
    let mut i: usize = 0;
    while i < n
        invariant
            0 <= i <= n,
            n == case.events@.len(),
            key_views(ekeys@) =~= event_keys(*case).take(i as int),
        decreases n - i,
    {
        ekeys.push((case.events[i].time, case.events[i].id.clone()));
        i += 1;
        assert(key_views(ekeys@) =~= event_keys(*case).take(i as int));
    }
    assert(key_views(ekeys@) =~= event_keys(*case));
    let eo = sort_positions(&ekeys);

    let mut g = CaseGraph {
        nodes: BTreeMap::new(),
        edges: BTreeMap::new(),
        ordered_event_ids: Vec::new(),
        object_ids_by_type: Vec::new(),
        incident_events_by_object: BTreeMap::new(),
        df_edge_ids: BTreeMap::new(),
        e2o_edge_ids: BTreeMap::new(),
    };
    // object nodes
    let mut k: usize = 0;
    while k < m
        invariant
            0 <= k <= m,
            m == log.objects@.len(),
            n == log.events@.len(),
            log == *case,
            m + n < usize::MAX,
            sorted_positions(object_keys(log), oo@),
            g.nodes@.dom() == Set::new(|id: usize| 1 <= id <= k),
            forall|i: int| 0 <= i < k ==> object_node_is(g.nodes@[(i + 1) as usize], i + 1, #[trigger] obj_at(log, oo@, i)),
            g.incident_events_by_object@.dom() == Set::new(|id: usize| 1 <= id <= k),
            forall|id: usize| 1 <= id <= k ==> (#[trigger] g.incident_events_by_object@[id])@ == Set::<usize>::empty(),
            groups_upto(log, oo@, g.object_ids_by_type@, k as int),
            g.edges@ == Map::<usize, CaseEdge>::empty(),
            g.e2o_edge_ids@ == Map::<(usize, usize), usize>::empty(),
            g.df_edge_ids@ == Map::<(usize, usize), usize>::empty(),
            g.ordered_event_ids@ == Seq::<usize>::empty(),
        decreases m - k,
    {
        let o = &case.objects[oo[k]];
        add_to_group(&mut g.object_ids_by_type, &o.object_type, k, Ghost(log), Ghost(oo@));
        g.incident_events_by_object.insert(k + 1, BTreeSet::new());
        g.nodes.insert(k + 1, CaseNode {
            id: k + 1,
            kind: CaseNodeKind::Object { object_type: o.object_type.clone(), source_object_id: o.id.clone() },
        });
        proof {
            assert(g.nodes@.dom() =~= Set::new(|id: usize| 1 <= id <= k + 1));
            assert(g.incident_events_by_object@.dom() =~= Set::new(|id: usize| 1 <= id <= k + 1));
        }
        k += 1;
    }
    // event nodes
    let mut k: usize = 0;
    while k < n
        invariant
            0 <= k <= n,
            m == log.objects@.len(),
            n == log.events@.len(),
            log == *case,
            m + n < usize::MAX,
            sorted_positions(object_keys(log), oo@),
            sorted_positions(event_keys(log), eo@),
            g.nodes@.dom() == Set::new(|id: usize| 1 <= id <= m + k),
            forall|i: int| 0 <= i < m ==> object_node_is(g.nodes@[(i + 1) as usize], i + 1, #[trigger] obj_at(log, oo@, i)),
            forall|i: int| 0 <= i < k ==> event_node_is(g.nodes@[(m + 1 + i) as usize], m + 1 + i, #[trigger] ev_at(log, eo@, i)),
            g.ordered_event_ids@ == Seq::new(k as nat, |i: int| (m + 1 + i) as usize),
            g.incident_events_by_object@.dom() == Set::new(|id: usize| 1 <= id <= m),
            forall|id: usize| 1 <= id <= m ==> (#[trigger] g.incident_events_by_object@[id])@ == Set::<usize>::empty(),
            groups_upto(log, oo@, g.object_ids_by_type@, m as int),
            g.edges@ == Map::<usize, CaseEdge>::empty(),
            g.e2o_edge_ids@ == Map::<(usize, usize), usize>::empty(),
            g.df_edge_ids@ == Map::<(usize, usize), usize>::empty(),
        decreases n - k,
    {
        let e = &case.events[eo[k]];
        g.ordered_event_ids.push(m + 1 + k);
        g.nodes.insert(m + 1 + k, CaseNode {
            id: m + 1 + k,
            kind: CaseNodeKind::Event { event_type: e.event_type.clone(), source_event_id: e.id.clone() },
        });
        proof {
            assert(g.nodes@.dom() =~= Set::new(|id: usize| 1 <= id <= m + k + 1));
            assert(g.ordered_event_ids@ =~= Seq::new((k + 1) as nat, |i: int| (m + 1 + i) as usize));
        }
        k += 1;
    }
    // directly-follows edges
    let mut k: usize = 0;
    while k + 1 < n
        invariant
            0 <= k <= n - 1,
            m == log.objects@.len(),
            n == log.events@.len(),
            log == *case,
            m + n < usize::MAX,
            sorted_positions(object_keys(log), oo@),
            sorted_positions(event_keys(log), eo@),
            g.nodes@.dom() == Set::new(|id: usize| 1 <= id <= m + n),
            forall|i: int| 0 <= i < m ==> object_node_is(g.nodes@[(i + 1) as usize], i + 1, #[trigger] obj_at(log, oo@, i)),
            forall|i: int| 0 <= i < n ==> event_node_is(g.nodes@[(m + 1 + i) as usize], m + 1 + i, #[trigger] ev_at(log, eo@, i)),
            g.ordered_event_ids@ == Seq::new(n as nat, |i: int| (m + 1 + i) as usize),
            g.incident_events_by_object@.dom() == Set::new(|id: usize| 1 <= id <= m),
            forall|id: usize| 1 <= id <= m ==> (#[trigger] g.incident_events_by_object@[id])@ == Set::<usize>::empty(),
            groups_upto(log, oo@, g.object_ids_by_type@, m as int),
            g.edges@.dom() == Set::new(|id: usize| 1 <= id < k + 1),
            forall|i: int| 0 <= i < k ==> g.edges@[(i + 1) as usize] == #[trigger] df_edge(log, i),
            g.e2o_edge_ids@ == Map::<(usize, usize), usize>::empty(),
            g.df_edge_ids@ == Map::new(|p: (usize, usize)| m + 1 <= p.0 < m + 1 + k && p.1 == p.0 + 1, |p: (usize, usize)| (p.0 - m) as usize),
        decreases n - k,
    {
        g.df_edge_ids.insert((m + 1 + k, m + 2 + k), k + 1);
        g.edges.insert(k + 1, CaseEdge { id: k + 1, from: m + 1 + k, to: m + 2 + k, edge_type: CaseEdgeType::DF });
        proof {
            assert(g.df_edge_ids@ =~= Map::new(|p: (usize, usize)| m + 1 <= p.0 < m + 1 + k + 1 && p.1 == p.0 + 1, |p: (usize, usize)| (p.0 - m) as usize));
            assert(g.edges@.dom() =~= Set::new(|id: usize| 1 <= id < k + 2));
        }
        k += 1;
    }
    proof {
        assert(g.edges@.dom() =~= Set::new(|id: usize| 1 <= id < n + offset(log, eo@, 0) + 0));
        assert forall|id: usize| 1 <= id <= m implies (#[trigger] g.incident_events_by_object@[id])@
            == incident_set(log, oo@, eo@, 0, 0, id as int) by {
            assert(incident_set(log, oo@, eo@, 0, 0, id as int) =~= Set::<usize>::empty());
        }
        assert(e2o_upto(log, oo@, eo@, g, 0, 0));
        assert(nodes_done(log, oo@, eo@, g));
        assert(eo@.take(0) =~= Seq::<usize>::empty());
    }
    // event-to-object edges
    let mut eid: usize = n;
    let mut k: usize = 0;
    while k < n
        invariant
            0 <= k <= n,
            m == log.objects@.len(),
            n == log.events@.len(),
            log == *case,
            m + n + relation_total(log, n as int) < usize::MAX,
            sorted_positions(object_keys(log), oo@),
            sorted_positions(event_keys(log), eo@),
            nodes_done(log, oo@, eo@, g),
            e2o_upto(log, oo@, eo@, g, k as int, 0),
            eid as int == n + offset(log, eo@, k as int),
            offset(log, eo@, k as int) <= idx_sum(log, eo@.take(k as int)),
            forall|k2: int, x: Seq<char>| 0 <= k2 < k && #[trigger] seq_has(log.events@[eo@[k2] as int].object_ids@, x)
                ==> object_known(log, x),
        decreases n - k,
    {
        let rv = distinct_sorted(&case.events[eo[k]].object_ids);
        proof {
            let ev = log.events@[eo@[k as int] as int];
            assert(Set::new(|x: Seq<char>| seq_has(ev.object_ids@, x)) =~= Set::new(|x: Seq<char>| seq_has(case.events@[eo@[k as int] as int].object_ids@, x)));
            assert(views(rv@) == rel(log, eo@, k as int));
            assert forall|a: int, b: int| 0 <= a < b < views(rv@).len() implies lex_lt(#[trigger] views(rv@)[a], #[trigger] views(rv@)[b]) by {
                assert(lex_lt(rv@[a]@, rv@[b]@));
            }
            let t = eo@.take(k + 1);
            assert(t.drop_last() =~= eo@.take(k as int));
            assert(idx_sum(log, t) == idx_sum(log, eo@.take(k as int)) + ev.object_ids@.len());
            lemma_idx_sum_bound(log, t, n as int);
        }
        let mut j: usize = 0;
        while j < rv.len()
            invariant
                0 <= k < n,
                0 <= j <= rv@.len(),
                m == log.objects@.len(),
                n == log.events@.len(),
                log == *case,
                m + n + relation_total(log, n as int) < usize::MAX,
                sorted_positions(object_keys(log), oo@),
                sorted_positions(event_keys(log), eo@),
                nodes_done(log, oo@, eo@, g),
                e2o_upto(log, oo@, eo@, g, k as int, j as int),
                eid as int == n + offset(log, eo@, k as int) + j,
                views(rv@) == rel(log, eo@, k as int),
                lex_sorted(rel(log, eo@, k as int)),
                offset(log, eo@, k as int) + rv@.len() <= relation_total(log, n as int),
                forall|k2: int, x: Seq<char>| 0 <= k2 < k && #[trigger] seq_has(log.events@[eo@[k2] as int].object_ids@, x)
                    ==> object_known(log, x),
                forall|x: Seq<char>| #[trigger] seq_has(rv@, x) <==> seq_has(log.events@[eo@[k as int] as int].object_ids@, x),
                forall|j2: int| 0 <= j2 < j ==> object_known(log, (#[trigger] rv@[j2])@),
            decreases rv@.len() - j,
        {
            assert(rv@[j as int]@ == rel(log, eo@, k as int)[j as int]);
            match find_object_node(case, &oo, &rv[j]) {
                None => {
                    proof {
                        assert forall|k2: int, j2: int| is_relation(log, eo@, k2, j2) && handled_before(k2, j2, k as int, j as int)
                            implies !unknown_at(log, oo@, eo@, k2, j2) by {
                            let e = e2o_edge(log, oo@, eo@, k2, j2);
                        }
                        assert(first_unknown(log, oo@, eo@, k as int, j as int));
                        let x = rv@[j as int]@;
                        lemma_last_index(log, oo@, x, m as int);
                        assert(!object_known(log, x)) by {
                            if object_known(log, x) {
                                let p = choose|p: int| 0 <= p < log.objects@.len() && (#[trigger] log.objects@[p]).id@ == x;
                                lemma_sorted_positions_onto(object_keys(log), oo@, p);
                                let q = choose|q: int| 0 <= q < oo@.len() && oo@[q] == p;
                                assert(obj_at(log, oo@, q).id@ != x);
                            }
                        }
                        assert(seq_has(rv@, x));
                        assert(seq_has(log.events@[eo@[k as int] as int].object_ids@, x));
                        assert(has_unknown_object(log));
                    }
                    return Err(CaseGraphError::UnknownObject(rv[j].clone()));
                },
                Some(nd) => {
                    proof {
                        let x = rv@[j as int]@;
                        lemma_last_index(log, oo@, x, m as int);
                        let p = oo@[nd - 1] as int;
                        assert(log.objects@[p].id@ == x);
                        assert(object_known(log, x));
                    }
                    add_relation_edge(&mut g, m + 1 + k, nd, eid, Ghost(log), Ghost(oo@), Ghost(eo@), Ghost(k as int), Ghost(j as int));
                    eid += 1;
                },
            }
            j += 1;
        }
        proof {
            lemma_e2o_next_event(log, oo@, eo@, g, k as int);
            assert forall|k2: int, x: Seq<char>| 0 <= k2 < k + 1 && #[trigger] seq_has(log.events@[eo@[k2] as int].object_ids@, x)
                implies object_known(log, x) by {
                if k2 == k {
                    assert(seq_has(rv@, x));
                    let j2 = choose|j2: int| 0 <= j2 < rv@.len() && (#[trigger] rv@[j2])@ == x;
                }
            }
        }
        k += 1;
    }
    proof {
        assert(is_case_graph(log, oo@, eo@, g));
        assert(!has_unknown_object(log)) by {
            if has_unknown_object(log) {
                let (i, x) = choose|i: int, x: Seq<char>| 0 <= i < log.events@.len()
                    && #[trigger] seq_has(log.events@[i].object_ids@, x) && !object_known(log, x);
                lemma_sorted_positions_onto(event_keys(log), eo@, i);
                let q = choose|q: int| 0 <= q < eo@.len() && eo@[q] == i;
                assert(seq_has(log.events@[eo@[q] as int].object_ids@, x));
            }
        }
    }
    Ok(g)
}

/// Position `x` comes before position `y`: a smaller key, or the same key and a smaller position.
pub open spec fn position_before(keys: Seq<(i64, Seq<char>)>, x: int, y: int) -> bool {
    key_before(keys[x], keys[y]) || (same_key(keys[x], keys[y]) && x < y)
}

proof fn lemma_position_before_asymmetric(keys: Seq<(i64, Seq<char>)>, x: int, y: int)
    requires
        position_before(keys, x, y),
    ensures
        !position_before(keys, y, x),
{
    if key_before(keys[x], keys[y]) && key_before(keys[y], keys[x]) {
        lemma_key_before_transitive(keys[x], keys[y], keys[x]);
        lemma_lex_irreflexive(keys[x].1);
    }
    if same_key(keys[x], keys[y]) {
        lemma_lex_irreflexive(keys[x].1);
    }
    if key_before(keys[x], keys[y]) && same_key(keys[y], keys[x]) {
        lemma_lex_irreflexive(keys[x].1);
    }
}

proof fn lemma_sorted_positions_before(keys: Seq<(i64, Seq<char>)>, ord: Seq<usize>, a: int, b: int)
    requires
        sorted_positions(keys, ord),
        0 <= a < b < ord.len(),
    ensures
        position_before(keys, ord[a] as int, ord[b] as int),
{
    lemma_key_total(keys[ord[a] as int], keys[ord[b] as int]);
}

pub(crate) proof fn lemma_sorted_positions_onto(keys: Seq<(i64, Seq<char>)>, ord: Seq<usize>, q: int)
    requires
        sorted_positions(keys, ord),
        0 <= q < keys.len(),
    ensures
        exists|p: int| 0 <= p < ord.len() && ord[p] == q,
{
    let perm = ord.map_values(|v: usize| v as int);
    assert(is_permutation(perm, keys.len() as int)) by {
        assert forall|k1: int, k2: int| 0 <= k1 < keys.len() && 0 <= k2 < keys.len() && k1 != k2
            implies #[trigger] perm[k1] != #[trigger] perm[k2] by {
            assert(ord[k1] != ord[k2]);
        }
    }
    lemma_permutation_onto(perm, keys.len() as int, q);
    let p = choose|p: int| 0 <= p < keys.len() && perm[p] == q;
    assert(ord[p] == q);
}

proof fn lemma_sorted_positions_agree(keys: Seq<(i64, Seq<char>)>, o1: Seq<usize>, o2: Seq<usize>, i: int)
    requires
        sorted_positions(keys, o1),
        sorted_positions(keys, o2),
        0 <= i <= keys.len(),
    ensures
        forall|k: int| 0 <= k < i ==> o1[k] == o2[k],
    decreases i,
{
    if i > 0 {
        lemma_sorted_positions_agree(keys, o1, o2, i - 1);
        let j = i - 1;
        let x = o1[j] as int;
        let y = o2[j] as int;
        if x != y {
            lemma_sorted_positions_onto(keys, o1, y);
            let p = choose|p: int| 0 <= p < o1.len() && o1[p] == y;
            if p < j {
                assert(o2[p] == y);
            }
            lemma_sorted_positions_before(keys, o1, j, p);
            lemma_sorted_positions_onto(keys, o2, x);
            let q = choose|q: int| 0 <= q < o2.len() && o2[q] == x;
            if q < j {
                assert(o1[q] == x);
            }
            lemma_sorted_positions_before(keys, o2, j, q);
            lemma_position_before_asymmetric(keys, x, y);
        }
    }
}

/// Only one order lists the positions of `keys` as `sorted_positions` asks.
pub proof fn lemma_sorted_positions_unique(keys: Seq<(i64, Seq<char>)>, o1: Seq<usize>, o2: Seq<usize>)
    requires
        sorted_positions(keys, o1),
        sorted_positions(keys, o2),
    ensures
        o1 == o2,
{
    lemma_sorted_positions_agree(keys, o1, o2, keys.len() as int);
    assert(o1 =~= o2);
}

/// Every number below `offset(k)` is the place of one relation of an event before the `k`-th.
proof fn lemma_offset_covers(log: CaseLog, eo: Seq<usize>, k: int, t: int)
    requires
        0 <= k <= log.events@.len(),
        0 <= t < offset(log, eo, k),
    ensures
        exists|k2: int, j2: int| #[trigger] is_relation(log, eo, k2, j2) && k2 < k && offset(log, eo, k2) + j2 == t,
    decreases k,
{
    if k > 0 {
        if t < offset(log, eo, k - 1) {
            lemma_offset_covers(log, eo, k - 1, t);
        } else {
            let j2 = t - offset(log, eo, k - 1);
            assert(is_relation(log, eo, k - 1, j2));
        }
    }
}

/// Converting a case log twice numbers its nodes and edges the same way: the
/// same nodes, event order, edges, edge indexes and incident events.
pub proof fn lemma_case_graph_deterministic(log: CaseLog, g1: CaseGraph, g2: CaseGraph)
    requires
        case_graph_result(log, Ok(g1)),
        case_graph_result(log, Ok(g2)),
    ensures
        g1.nodes@.dom() == g2.nodes@.dom(),
        forall|id: usize| #[trigger] g1.nodes@.contains_key(id) ==> g1.nodes@[id].id == g2.nodes@[id].id
            && node_kind_view(g1.nodes@[id].kind) == node_kind_view(g2.nodes@[id].kind),
        g1.ordered_event_ids@ == g2.ordered_event_ids@,
        g1.edges@ == g2.edges@,
        g1.df_edge_ids@ == g2.df_edge_ids@,
        g1.e2o_edge_ids@ == g2.e2o_edge_ids@,
        g1.incident_events_by_object@.dom() == g2.incident_events_by_object@.dom(),
        forall|id: usize| #[trigger] g1.incident_events_by_object@.contains_key(id)
            ==> g1.incident_events_by_object@[id]@ == g2.incident_events_by_object@[id]@,
{
    let (oo, eo) = choose|oo: Seq<usize>, eo: Seq<usize>|
        #[trigger] sorted_positions(object_keys(log), oo) && #[trigger] sorted_positions(event_keys(log), eo)
        && is_case_graph(log, oo, eo, g1);
    let (oo2, eo2) = choose|oo: Seq<usize>, eo: Seq<usize>|
        #[trigger] sorted_positions(object_keys(log), oo) && #[trigger] sorted_positions(event_keys(log), eo)
        && is_case_graph(log, oo, eo, g2);
    lemma_sorted_positions_unique(object_keys(log), oo, oo2);
    lemma_sorted_positions_unique(event_keys(log), eo, eo2);
    let m = log.objects@.len() as int;
    let n = log.events@.len() as int;
    assert forall|id: usize| #[trigger] g1.nodes@.contains_key(id) implies g1.nodes@[id].id == g2.nodes@[id].id
        && node_kind_view(g1.nodes@[id].kind) == node_kind_view(g2.nodes@[id].kind) by {
        if id <= m {
            let o = obj_at(log, oo, id - 1);
        } else {
            let e = ev_at(log, eo, id - m - 1);
        }
    }
    assert forall|id: usize| g1.edges@.contains_key(id) implies g2.edges@.contains_key(id) && g1.edges@[id] == g2.edges@[id] by {
        if id < n {
            let e = df_edge(log, id - 1);
        } else {
            lemma_offset_covers(log, eo, n, id - n);
            let (k2, j2) = choose|k2: int, j2: int| #[trigger] is_relation(log, eo, k2, j2) && k2 < n && offset(log, eo, k2) + j2 == id - n;
            let e = e2o_edge(log, oo, eo, k2, j2);
        }
    }
    assert(g1.edges@ =~= g2.edges@);
    assert forall|p: (usize, usize)| g1.e2o_edge_ids@.contains_key(p) implies g2.e2o_edge_ids@.contains_key(p) && g1.e2o_edge_ids@[p] == g2.e2o_edge_ids@[p] by {
        let (k2, j2) = choose|k2: int, j2: int| is_relation(log, eo, k2, j2) && handled_before(k2, j2, n, 0)
            && p == ((#[trigger] e2o_edge(log, oo, eo, k2, j2)).from, e2o_edge(log, oo, eo, k2, j2).to);
    }
    assert forall|p: (usize, usize)| g2.e2o_edge_ids@.contains_key(p) implies g1.e2o_edge_ids@.contains_key(p) by {
        let (k2, j2) = choose|k2: int, j2: int| is_relation(log, eo, k2, j2) && handled_before(k2, j2, n, 0)
            && p == ((#[trigger] e2o_edge(log, oo, eo, k2, j2)).from, e2o_edge(log, oo, eo, k2, j2).to);
    }
    assert(g1.e2o_edge_ids@ =~= g2.e2o_edge_ids@);
    assert(g1.ordered_event_ids@ =~= g2.ordered_event_ids@);
}

/// What a node kind says, by the views of its strings.
pub open spec fn node_kind_view(kind: CaseNodeKind) -> (bool, Seq<char>, Seq<char>) {
    match kind {
        CaseNodeKind::Event { event_type, source_event_id } => (true, event_type@, source_event_id@),
        CaseNodeKind::Object { object_type, source_object_id } => (false, object_type@, source_object_id@),
    }
}

/// Some object of the case has identifier `x`.
pub open spec fn object_known(log: CaseLog, x: Seq<char>) -> bool {
    exists|p: int| 0 <= p < log.objects@.len() && (#[trigger] log.objects@[p]).id@ == x
}

/// Some event relates to an object that the case does not hold.
pub open spec fn has_unknown_object(log: CaseLog) -> bool {
    exists|i: int, x: Seq<char>| 0 <= i < log.events@.len() && #[trigger] seq_has(log.events@[i].object_ids@, x)
        && !object_known(log, x)
}

} // verus!
