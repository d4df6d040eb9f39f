//! The traditional case notion: one case per object of a chosen type, holding the
//! object and its events.
use vstd::prelude::*;
use crate::case_notion::log_graphs::{
    ArcEntry, LogGraphTypeLevel, TypeGraph, arc_views, concat_arcs, concat_names, lemma_filter_split_len, lemma_filter_step,
    name_views, sections_partition,
};
use crate::ocim::model::{contains_pair, pair_in, seq_has};
use crate::text::str_eq;

verus! {

/// An object entry: `(object id, (object type, related event ids))`.
pub type ObjectEntry = (String, (String, Vec<String>));

/// The entries of objects of type `ot`.
pub open spec fn of_object_type(ot: Seq<char>) -> spec_fn(ObjectEntry) -> bool {
    |o: ObjectEntry| o.1.0@ == ot
}

/// `c` is the case of object `o`: its events as listed, the object alone, and an
/// arc `(event, object)` for each of its events, each arc once.
pub open spec fn case_of_object(o: ObjectEntry, c: (Vec<String>, Vec<String>, Vec<(String, String)>)) -> bool {
    &&& c.0@ == o.1.1@
    &&& c.1@ == seq![o.0]
    &&& forall|m1: int, m2: int| 0 <= m1 < c.2@.len() && 0 <= m2 < c.2@.len() && m1 != m2 ==>
        (#[trigger] c.2@[m1]).0@ != (#[trigger] c.2@[m2]).0@ || c.2@[m1].1@ != c.2@[m2].1@
    &&& forall|e: Seq<char>, x: Seq<char>| #[trigger] pair_in(c.2@, e, x) <==> (x == o.0@ && seq_has(o.1.1@, e))
}

/// A copy of the strings.
fn copy_strings(v: &Vec<String>) -> (r: Vec<String>)
    ensures
        r@ == v@,
{
    let mut out: Vec<String> = Vec::new();
    let mut i: usize = 0;
    while i < v.len()
        invariant
            0 <= i <= v@.len(),
            out@ == v@.subrange(0, i as int),
        decreases v@.len() - i,
    {
        out.push(v[i].clone());
        i += 1;
        assert(out@ =~= v@.subrange(0, i as int));
    }
    assert(v@.subrange(0, v@.len() as int) =~= v@);
    out
}

/// The case of one object.
fn object_case(o: &ObjectEntry) -> (c: (Vec<String>, Vec<String>, Vec<(String, String)>))
    ensures
        case_of_object(*o, c),
{
    let events = copy_strings(&o.1.1);
    let mut objects: Vec<String> = Vec::new();
    objects.push(o.0.clone());
    assert(objects@ =~= seq![o.0]);
    let mut arches: Vec<(String, String)> = Vec::new();
    let mut i: usize = 0;
    while i < events.len()
        invariant
            0 <= i <= events@.len(),
            events@ == o.1.1@,
            forall|m1: int, m2: int| 0 <= m1 < arches@.len() && 0 <= m2 < arches@.len() && m1 != m2 ==>
                (#[trigger] arches@[m1]).0@ != (#[trigger] arches@[m2]).0@ || arches@[m1].1@ != arches@[m2].1@,
            forall|e: Seq<char>, x: Seq<char>| #[trigger] pair_in(arches@, e, x) <==>
                (x == o.0@ && exists|k: int| 0 <= k < i && (#[trigger] events@[k])@ == e),
        decreases events@.len() - i,
    {
        let e = &events[i];
        let ghost before = arches@;
        if !contains_pair(&arches, e, &o.0) {
            arches.push((e.clone(), o.0.clone()));
        }
        proof {
            assert forall|ev: Seq<char>, x: Seq<char>| #[trigger] pair_in(arches@, ev, x) <==>
                (x == o.0@ && exists|k: int| 0 <= k < i + 1 && (#[trigger] events@[k])@ == ev) by {
                if pair_in(arches@, ev, x) {
                    let q = choose|q: int| 0 <= q < arches@.len() && (#[trigger] arches@[q]).0@ == ev && arches@[q].1@ == x;
                    if q < before.len() {
                        assert(before[q] == arches@[q]);
                        assert(pair_in(before, ev, x));
                        let k = choose|k: int| 0 <= k < i && (#[trigger] events@[k])@ == ev;
                        assert(0 <= k < i + 1);
                    } else {
                        assert(events@[i as int]@ == ev);
                    }
                }
                if x == o.0@ && exists|k: int| 0 <= k < i + 1 && (#[trigger] events@[k])@ == ev {
                    let k = choose|k: int| 0 <= k < i + 1 && (#[trigger] events@[k])@ == ev;
                    if k < i {
                        assert(pair_in(before, ev, x));
                        let q = choose|q: int| 0 <= q < before.len() && (#[trigger] before[q]).0@ == ev && before[q].1@ == x;
                        assert(arches@[q] == before[q]);
                    } else if !pair_in(before, ev, x) {
                        assert(arches@[before.len() as int].0@ == ev);
                    } else {
                        let q = choose|q: int| 0 <= q < before.len() && (#[trigger] before[q]).0@ == ev && before[q].1@ == x;
                        assert(arches@[q] == before[q]);
                    }
                }
            }
        }
        i += 1;
    }
    proof {
        assert forall|e: Seq<char>, x: Seq<char>| #[trigger] pair_in(arches@, e, x) <==> (x == o.0@ && seq_has(o.1.1@, e)) by {
            if seq_has(o.1.1@, e) {
                let k = choose|k: int| 0 <= k < o.1.1@.len() && (#[trigger] o.1.1@[k])@ == e;
                assert(events@[k]@ == e);
            }
        }
    }
    (events, objects, arches)
}

/// One case per object of type `given_object_type`, in the order of the objects.
pub fn traditional_case_notion_for_ot(objects: &Vec<ObjectEntry>, given_object_type: String) -> (r: Vec<(Vec<String>, Vec<String>, Vec<(String, String)>)>)
    ensures
        r@.len() == objects@.filter(of_object_type(given_object_type@)).len(),
        forall|k: int| 0 <= k < r@.len() ==> #[trigger] case_of_object(objects@.filter(of_object_type(given_object_type@))[k], r@[k]),
{
    let ghost p = of_object_type(given_object_type@);
    let mut out: Vec<(Vec<String>, Vec<String>, Vec<(String, String)>)> = Vec::new();
    let mut i: usize = 0;
    while i < objects.len()
        invariant
            0 <= i <= objects@.len(),
            p == of_object_type(given_object_type@),
            out@.len() == objects@.take(i as int).filter(p).len(),
            forall|k: int| 0 <= k < out@.len() ==> #[trigger] case_of_object(objects@.take(i as int).filter(p)[k], out@[k]),
        decreases objects@.len() - i,
    {
        let ghost before = objects@.take(i as int).filter(p);
        proof {
            reveal(Seq::filter);
        }
        assert(objects@.take(i + 1).drop_last() =~= objects@.take(i as int));
        assert(objects@.take(i + 1).last() == objects@[i as int]);
        let o = &objects[i];
        if o.1.0 == given_object_type {
            let c = object_case(o);
            out.push(c);
            assert(objects@.take(i + 1).filter(p) == before.push(*o));
        } else {
            assert(objects@.take(i + 1).filter(p) == before);
        }
        i += 1;
    }
    assert(objects@.take(objects@.len() as int) =~= objects@);
    out
}

/// The names equal to `x`.
pub open spec fn is_name(x: Seq<char>) -> spec_fn(Seq<char>) -> bool {
    |y: Seq<char>| y == x
}

/// The names other than `x`.
pub open spec fn other_name(x: Seq<char>) -> spec_fn(Seq<char>) -> bool {
    |y: Seq<char>| y != x
}

/// The arcs that end in `x`.
pub open spec fn arc_into(x: Seq<char>) -> spec_fn((Seq<char>, Seq<char>)) -> bool {
    |a: (Seq<char>, Seq<char>)| a.1 == x
}

/// The arcs that do not end in `x`.
pub open spec fn arc_not_into(x: Seq<char>) -> spec_fn((Seq<char>, Seq<char>)) -> bool {
    |a: (Seq<char>, Seq<char>)| a.1 != x
}

/// The types from which an arc of `arcs` leads into `x`.
pub open spec fn source_into(arcs: Seq<(Seq<char>, Seq<char>)>, x: Seq<char>) -> spec_fn(Seq<char>) -> bool {
    |e: Seq<char>| exists|k: int| 0 <= k < arcs.len() && (#[trigger] arcs[k]).1 == x && arcs[k].0 == e
}

/// The types from which no arc of `arcs` leads into `x`.
pub open spec fn no_source_into(arcs: Seq<(Seq<char>, Seq<char>)>, x: Seq<char>) -> spec_fn(Seq<char>) -> bool {
    |e: Seq<char>| !source_into(arcs, x)(e)
}

/// An arc into `x` turned around to start at `x`.
pub open spec fn from_start(x: Seq<char>) -> spec_fn((Seq<char>, Seq<char>)) -> (Seq<char>, Seq<char>) {
    |a: (Seq<char>, Seq<char>)| (x, a.0)
}

/// The traditional case notion on a type-level graph: both sections are merged;
/// without the starting object type everything is deselected; otherwise the
/// starting object type, the event types with an arc into it, and those arcs
/// (turned to start at the object type) are selected, all else deselected, each
/// list in its merged order.
pub open spec fn traditional_type_graph(g: TypeGraph, start: Seq<char>) -> TypeGraph {
    let es = g.event_types + g.deselected_event_types;
    let os = g.object_types + g.deselected_object_types;
    let arcs = g.arcs + g.deselected_arcs;
    if !os.contains(start) {
        TypeGraph {
            event_types: Seq::empty(),
            object_types: Seq::empty(),
            arcs: Seq::empty(),
            deselected_event_types: es,
            deselected_object_types: os,
            deselected_arcs: arcs,
        }
    } else {
        TypeGraph {
            event_types: es.filter(source_into(arcs, start)),
            object_types: os.filter(is_name(start)),
            arcs: arcs.filter(arc_into(start)).map_values(from_start(start)),
            deselected_event_types: es.filter(no_source_into(arcs, start)),
            deselected_object_types: os.filter(other_name(start)),
            deselected_arcs: arcs.filter(arc_not_into(start)),
        }
    }
}

/// Partitions the type-level graph by the traditional case notion for the
/// starting object type (see `traditional_type_graph`).
pub fn traditional_case_notion_type_level(graph: &LogGraphTypeLevel, starting_object_type: &str) -> (r: LogGraphTypeLevel)
    ensures
        r@ == traditional_type_graph(graph@, starting_object_type@),
{
    let ghost start = starting_object_type@;
    let events = concat_names(&graph.event_types, &graph.deselected_event_types);
    let objects = concat_names(&graph.object_types, &graph.deselected_object_types);
    let arcs = concat_arcs(&graph.arcs, &graph.deselected_arcs);
    let ghost es = name_views(events@);
    let ghost os = name_views(objects@);
    let ghost av = arc_views(arcs@);
    // is the starting object type there?
    let mut present = false;
    let mut k: usize = 0;
    while k < objects.len()
        invariant
            0 <= k <= objects@.len(),
            os == name_views(objects@),
            present == exists|q: int| 0 <= q < k && os[q] == start,
        decreases objects@.len() - k,
    {
        assert(os[k as int] == objects@[k as int]@);
        if str_eq(objects[k].as_str(), starting_object_type) {
            present = true;
        }
        proof {
            if exists|q: int| 0 <= q < k + 1 && os[q] == start {
                let q = choose|q: int| 0 <= q < k + 1 && os[q] == start;
                if q < k {
                    assert(exists|q2: int| 0 <= q2 < k && os[q2] == start);
                }
            }
        }
        k += 1;
    }
    if !present {
        let r = LogGraphTypeLevel {
            event_types: Vec::new(),
            object_types: Vec::new(),
            arcs: Vec::new(),
            deselected_event_types: events,
            deselected_object_types: objects,
            deselected_arcs: arcs,
        };
        assert(!os.contains(start));
        assert(r@ =~= traditional_type_graph(graph@, start));
        return r;
    }
    // the arcs into the starting object type, turned around, and the others
    let mut selected_arcs: Vec<ArcEntry> = Vec::new();
    let mut other_arcs: Vec<ArcEntry> = Vec::new();
    let mut i: usize = 0;
    while i < arcs.len()
        invariant
            0 <= i <= arcs@.len(),
            av == arc_views(arcs@),
            arc_views(selected_arcs@) == av.take(i as int).filter(arc_into(start)).map_values(from_start(start)),
            arc_views(other_arcs@) == av.take(i as int).filter(arc_not_into(start)),
        decreases arcs@.len() - i,
    {
        proof {
            lemma_filter_step(av, i as int, arc_into(start));
            lemma_filter_step(av, i as int, arc_not_into(start));
        }
        let a = &arcs[i];
        assert(av[i as int] == a@);
        let ghost sel_before = selected_arcs@;
        let ghost oth_before = other_arcs@;
        if str_eq(a.target_type.as_str(), starting_object_type) {
            selected_arcs.push(ArcEntry { source_type: String::from_str(starting_object_type), target_type: a.source_type.clone() });
            assert(arc_views(selected_arcs@) =~= arc_views(sel_before).push((start, a.source_type@)));
            assert(av.take(i + 1).filter(arc_into(start)).map_values(from_start(start))
                =~= av.take(i as int).filter(arc_into(start)).map_values(from_start(start)).push((start, a.source_type@)));
        } else {
            other_arcs.push(ArcEntry { source_type: a.source_type.clone(), target_type: a.target_type.clone() });
            assert(arc_views(other_arcs@) =~= arc_views(oth_before).push(a@));
        }
        i += 1;
    }
    assert(av.take(av.len() as int) =~= av);
    // the event types with an arc into the starting object type
    let mut selected_events: Vec<String> = Vec::new();
    let mut other_events: Vec<String> = Vec::new();
    let mut j: usize = 0;
    while j < events.len()
        invariant
            0 <= j <= events@.len(),
            es == name_views(events@),
            av == arc_views(arcs@),
            name_views(selected_events@) == es.take(j as int).filter(source_into(av, start)),
            name_views(other_events@) == es.take(j as int).filter(no_source_into(av, start)),
        decreases events@.len() - j,
    {
        proof {
            lemma_filter_step(es, j as int, source_into(av, start));
            lemma_filter_step(es, j as int, no_source_into(av, start));
        }
        let e = &events[j];
        assert(es[j as int] == e@);
        // is there an arc from `e` into the starting object type?
        let mut found = false;
        let mut q: usize = 0;
        while q < arcs.len()
            invariant
                0 <= q <= arcs@.len(),
                av == arc_views(arcs@),
                found == exists|m: int| 0 <= m < q && (#[trigger] av[m]).1 == start && av[m].0 == e@,
            decreases arcs@.len() - q,
        {
            assert(av[q as int] == arcs@[q as int]@);
            if str_eq(arcs[q].target_type.as_str(), starting_object_type) && arcs[q].source_type == *e {
                found = true;
            }
            q += 1;
        }
        let ghost sel_before = selected_events@;
        let ghost oth_before = other_events@;
        if found {
            selected_events.push(e.clone());
            assert(name_views(selected_events@) =~= name_views(sel_before).push(e@));
        } else {
            other_events.push(e.clone());
            assert(name_views(other_events@) =~= name_views(oth_before).push(e@));
        }
        j += 1;
    }
    assert(es.take(es.len() as int) =~= es);
    // the starting object type and the others
    let mut selected_objects: Vec<String> = Vec::new();
    let mut other_objects: Vec<String> = Vec::new();
    let mut m: usize = 0;
    while m < objects.len()
        invariant
            0 <= m <= objects@.len(),
            os == name_views(objects@),
            name_views(selected_objects@) == os.take(m as int).filter(is_name(start)),
            name_views(other_objects@) == os.take(m as int).filter(other_name(start)),
        decreases objects@.len() - m,
    {
        proof {
            lemma_filter_step(os, m as int, is_name(start));
            lemma_filter_step(os, m as int, other_name(start));
        }
        let o = &objects[m];
        assert(os[m as int] == o@);
        let ghost sel_before = selected_objects@;
        let ghost oth_before = other_objects@;
        if str_eq(o.as_str(), starting_object_type) {
            selected_objects.push(o.clone());
            assert(name_views(selected_objects@) =~= name_views(sel_before).push(o@));
        } else {
            other_objects.push(o.clone());
            assert(name_views(other_objects@) =~= name_views(oth_before).push(o@));
        }
        m += 1;
    }
    assert(os.take(os.len() as int) =~= os);
    let r = LogGraphTypeLevel {
        event_types: selected_events,
        object_types: selected_objects,
        arcs: selected_arcs,
        deselected_event_types: other_events,
        deselected_object_types: other_objects,
        deselected_arcs: other_arcs,
    };
    proof {
        let q = choose|q: int| 0 <= q < objects@.len() && os[q] == start;
        assert(os.contains(start));
    }
    assert(r@ =~= traditional_type_graph(graph@, start));
    r
}

/// The traditional case notion on a type-level graph only moves nodes and arcs
/// between the sections: every node and arc of the graph ends up in exactly one
/// of them, and every selected arc leaves the starting object type.
pub proof fn lemma_traditional_type_level_partitions(g: TypeGraph, start: Seq<char>)
    ensures
        sections_partition(g, traditional_type_graph(g, start)),
        forall|k: int| 0 <= k < traditional_type_graph(g, start).arcs.len() ==> (#[trigger] traditional_type_graph(g, start).arcs[k]).0 == start,
{
    let es = g.event_types + g.deselected_event_types;
    let os = g.object_types + g.deselected_object_types;
    let arcs = g.arcs + g.deselected_arcs;
    if os.contains(start) {
        lemma_filter_split_len(es, source_into(arcs, start), no_source_into(arcs, start));
        lemma_filter_split_len(os, is_name(start), other_name(start));
        lemma_filter_split_len(arcs, arc_into(start), arc_not_into(start));
    }
}

} // verus!
