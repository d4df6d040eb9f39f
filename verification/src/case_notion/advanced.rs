//! The advanced case notion on a type-level graph: starting from an object type,
//! event types and object types are reached in layers; an object type reached
//! only through event types on which it diverges ends its path.
use vstd::prelude::*;
use crate::case_notion::log_graphs::{
    ArcEntry, LogGraphTypeLevel, TypeGraph, arc_views, concat_arcs, concat_names, lemma_filter_split_len, lemma_filter_step,
    name_views, sections_partition,
};
use crate::ocim::auxiliary_methods::push_unique;
use crate::ocim::common_data::set_contains;
use crate::ocim::model::{contains_pair, contains_string, in_set_of, pair_in, seq_has, set_keys_unique, strings_unique};
use crate::text::str_eq;
use crate::case_notion::traditional::{ObjectEntry, of_object_type};

verus! {

/// `(a, b)` is one of the arcs.
pub open spec fn has_arc(av: Seq<(Seq<char>, Seq<char>)>, a: Seq<char>, b: Seq<char>) -> bool {
    exists|k: int| 0 <= k < av.len() && av[k] == (a, b)
}

/// The state of the layered search: the object types reached, those reached
/// without divergence, the last layer of those, and the event types reached.
#[verifier::ext_equal]
pub ghost struct Reach {
    pub visited: Set<Seq<char>>,
    pub plain: Set<Seq<char>>,
    pub frontier: Set<Seq<char>>,
    pub events: Set<Seq<char>>,
}

/// The search starts at the starting object type alone.
pub open spec fn reach_start(start: Seq<char>) -> Reach {
    Reach { visited: set![start], plain: set![start], frontier: set![start], events: Set::empty() }
}

/// The event types not reached yet with an arc into the last layer.
pub open spec fn layer_events(av: Seq<(Seq<char>, Seq<char>)>, r: Reach) -> Set<Seq<char>> {
    Set::new(|e: Seq<char>| !r.events.contains(e) && exists|o: Seq<char>| #[trigger] r.frontier.contains(o) && has_arc(av, e, o))
}

/// The object types not reached yet with an arc from the new event types.
pub open spec fn layer_objects(av: Seq<(Seq<char>, Seq<char>)>, r: Reach, ne: Set<Seq<char>>) -> Set<Seq<char>> {
    Set::new(|o: Seq<char>| !r.visited.contains(o) && exists|e: Seq<char>| #[trigger] ne.contains(e) && has_arc(av, e, o))
}

/// Those of them with an arc from a new event type on which they do not diverge.
pub open spec fn layer_plain(av: Seq<(Seq<char>, Seq<char>)>, dm: Seq<(String, Vec<String>)>, r: Reach, ne: Set<Seq<char>>) -> Set<Seq<char>> {
    Set::new(|o: Seq<char>| !r.visited.contains(o)
        && exists|e: Seq<char>| #[trigger] ne.contains(e) && has_arc(av, e, o) && !in_set_of(dm, e, o))
}

/// One layer of the search.
pub open spec fn reach_step(av: Seq<(Seq<char>, Seq<char>)>, dm: Seq<(String, Vec<String>)>, r: Reach) -> Reach {
    let ne = layer_events(av, r);
    let p = layer_plain(av, dm, r, ne);
    Reach {
        visited: r.visited.union(layer_objects(av, r, ne)),
        plain: r.plain.union(p),
        frontier: p,
        events: r.events.union(ne),
    }
}

/// The state after `k` layers.
pub open spec fn reach_after(av: Seq<(Seq<char>, Seq<char>)>, dm: Seq<(String, Vec<String>)>, start: Seq<char>, k: nat) -> Reach
    decreases k,
{
    if k == 0 {
        reach_start(start)
    } else {
        reach_step(av, dm, reach_after(av, dm, start, (k - 1) as nat))
    }
}

/// The state once a layer adds no object type.
pub open spec fn reach_done(av: Seq<(Seq<char>, Seq<char>)>, dm: Seq<(String, Vec<String>)>, start: Seq<char>) -> Reach {
    reach_after(av, dm, start, choose|k: nat| reach_after(av, dm, start, k).frontier == Set::<Seq<char>>::empty())
}

/// Without a last layer, a layer changes nothing.
proof fn lemma_step_idle(av: Seq<(Seq<char>, Seq<char>)>, dm: Seq<(String, Vec<String>)>, r: Reach)
    requires
        r.frontier == Set::<Seq<char>>::empty(),
    ensures
        reach_step(av, dm, r) == r,
{
    let ne = layer_events(av, r);
    assert(ne =~= Set::<Seq<char>>::empty());
    assert(layer_objects(av, r, ne) =~= Set::<Seq<char>>::empty());
    assert(layer_plain(av, dm, r, ne) =~= Set::<Seq<char>>::empty());
    assert(reach_step(av, dm, r) =~= r);
}

/// Once the last layer is empty the state stays.
proof fn lemma_after_idle(av: Seq<(Seq<char>, Seq<char>)>, dm: Seq<(String, Vec<String>)>, start: Seq<char>, k: nat, m: nat)
    requires
        reach_after(av, dm, start, k).frontier == Set::<Seq<char>>::empty(),
        k <= m,
    ensures
        reach_after(av, dm, start, m) == reach_after(av, dm, start, k),
    decreases m - k,
{
    if k < m {
        lemma_after_idle(av, dm, start, k, (m - 1) as nat);
        lemma_step_idle(av, dm, reach_after(av, dm, start, (m - 1) as nat));
    }
}

/// The search ends in the state of any layer count with an empty last layer.
proof fn lemma_done(av: Seq<(Seq<char>, Seq<char>)>, dm: Seq<(String, Vec<String>)>, start: Seq<char>, k: nat)
    requires
        reach_after(av, dm, start, k).frontier == Set::<Seq<char>>::empty(),
    ensures
        reach_done(av, dm, start) == reach_after(av, dm, start, k),
{
    let c = choose|c: nat| reach_after(av, dm, start, c).frontier == Set::<Seq<char>>::empty();
    if c <= k {
        lemma_after_idle(av, dm, start, c, k);
    } else {
        lemma_after_idle(av, dm, start, k, c);
    }
}

/// The number of arcs whose target is outside `vis`.
pub open spec fn unvisited_arcs(av: Seq<(Seq<char>, Seq<char>)>, vis: Set<Seq<char>>) -> nat
    decreases av.len(),
{
    if av.len() == 0 {
        0
    } else {
        unvisited_arcs(av.drop_last(), vis) + if vis.contains(av.last().1) { 0nat } else { 1nat }
    }
}

proof fn lemma_unvisited_mono(av: Seq<(Seq<char>, Seq<char>)>, a: Set<Seq<char>>, b: Set<Seq<char>>)
    requires
        a.subset_of(b),
    ensures
        unvisited_arcs(av, b) <= unvisited_arcs(av, a),
    decreases av.len(),
{
    if av.len() > 0 {
        lemma_unvisited_mono(av.drop_last(), a, b);
    }
}

proof fn lemma_unvisited_strict(av: Seq<(Seq<char>, Seq<char>)>, a: Set<Seq<char>>, b: Set<Seq<char>>, k: int)
    requires
        a.subset_of(b),
        0 <= k < av.len(),
        !a.contains(av[k].1),
        b.contains(av[k].1),
    ensures
        unvisited_arcs(av, b) < unvisited_arcs(av, a),
    decreases av.len(),
{
    if k == av.len() - 1 {
        lemma_unvisited_mono(av.drop_last(), a, b);
    } else {
        lemma_unvisited_strict(av.drop_last(), a, b, k);
    }
}

/// The names in `v`, as a set.
pub open spec fn name_set(v: Seq<String>) -> Set<Seq<char>> {
    Set::new(|x: Seq<char>| seq_has(v, x))
}

/// One layer of the search on the exec state.
fn reach_layer(
    arcs: &Vec<ArcEntry>,
    dm: &Vec<(String, Vec<String>)>,
    visited: &Vec<String>,
    plain: &Vec<String>,
    frontier: &Vec<String>,
    events: &Vec<String>,
    r: Ghost<Reach>,
) -> (out: (Vec<String>, Vec<String>, Vec<String>, Vec<String>))
    requires
        set_keys_unique(dm@),
        name_set(visited@) == r@.visited,
        name_set(plain@) == r@.plain,
        name_set(frontier@) == r@.frontier,
        name_set(events@) == r@.events,
    ensures
        name_set(out.0@) == reach_step(arc_views(arcs@), dm@, r@).visited,
        name_set(out.1@) == reach_step(arc_views(arcs@), dm@, r@).plain,
        name_set(out.2@) == reach_step(arc_views(arcs@), dm@, r@).frontier,
        name_set(out.3@) == reach_step(arc_views(arcs@), dm@, r@).events,
{
    let ghost av = arc_views(arcs@);
    let ghost ne_set = layer_events(av, r@);
    // the new event types: sources of arcs into the last layer, not reached yet
    let mut ne: Vec<String> = Vec::new();
    let mut k: usize = 0;
    while k < arcs.len()
        invariant
            0 <= k <= arcs@.len(),
            av == arc_views(arcs@),
            name_set(frontier@) == r@.frontier,
            name_set(events@) == r@.events,
            strings_unique(ne@),
            forall|e: Seq<char>| #[trigger] seq_has(ne@, e) <==> (!r@.events.contains(e)
                && exists|q: int| 0 <= q < k && av[q].0 == e && r@.frontier.contains(av[q].1)),
        decreases arcs@.len() - k,
    {
        assert(av[k as int] == arcs@[k as int]@);
        let a = &arcs[k];
        let ghost before = ne@;
        if contains_string(frontier, &a.target_type) && !contains_string(events, &a.source_type) {
            push_unique(&mut ne, &a.source_type);
            assert(name_set(frontier@).contains(a.target_type@));
        }
        proof {
            assert forall|e: Seq<char>| #[trigger] seq_has(ne@, e) <==> (!r@.events.contains(e)
                && exists|q: int| 0 <= q < k + 1 && av[q].0 == e && r@.frontier.contains(av[q].1)) by {
                if exists|q: int| 0 <= q < k + 1 && av[q].0 == e && r@.frontier.contains(av[q].1) {
                    let q = choose|q: int| 0 <= q < k + 1 && av[q].0 == e && r@.frontier.contains(av[q].1);
                    if q == k {
                        assert(seq_has(frontier@, a.target_type@));
                        if r@.events.contains(e) {
                        } else {
                            assert(!seq_has(events@, a.source_type@));
                        }
                    }
                }
                if seq_has(before, e) {
                    let q = choose|q: int| 0 <= q < k && av[q].0 == e && r@.frontier.contains(av[q].1);
                    assert(0 <= q < k + 1);
                }
                if seq_has(ne@, e) && !seq_has(before, e) {
                    assert(e == a.source_type@);
                    assert(name_set(frontier@).contains(a.target_type@));
                }
            }
        }
        k += 1;
    }
    proof {
        assert forall|e: Seq<char>| #[trigger] seq_has(ne@, e) <==> ne_set.contains(e) by {
            if ne_set.contains(e) {
                let o = choose|o: Seq<char>| #[trigger] r@.frontier.contains(o) && has_arc(av, e, o);
                let q = choose|q: int| 0 <= q < av.len() && av[q] == (e, o);
            }
        }
    }
    // the object types reached from them, and those reached without divergence
    let ghost objs = layer_objects(av, r@, ne_set);
    let ghost p = layer_plain(av, dm@, r@, ne_set);
    let mut reached: Vec<String> = Vec::new();
    let mut fresh: Vec<String> = Vec::new();
    let mut k: usize = 0;
    while k < arcs.len()
        invariant
            0 <= k <= arcs@.len(),
            av == arc_views(arcs@),
            set_keys_unique(dm@),
            name_set(visited@) == r@.visited,
            forall|e: Seq<char>| #[trigger] seq_has(ne@, e) <==> ne_set.contains(e),
            strings_unique(reached@),
            strings_unique(fresh@),
            forall|o: Seq<char>| #[trigger] seq_has(reached@, o) <==> (!r@.visited.contains(o)
                && exists|q: int| 0 <= q < k && av[q].1 == o && ne_set.contains(av[q].0)),
            forall|o: Seq<char>| #[trigger] seq_has(fresh@, o) <==> (!r@.visited.contains(o)
                && exists|q: int| 0 <= q < k && av[q].1 == o && ne_set.contains(av[q].0) && !in_set_of(dm@, av[q].0, o)),
        decreases arcs@.len() - k,
    {
        assert(av[k as int] == arcs@[k as int]@);
        let a = &arcs[k];
        let ghost rb = reached@;
        let ghost fb = fresh@;
        let mut div = false;
        if contains_string(&ne, &a.source_type) && !contains_string(visited, &a.target_type) {
            push_unique(&mut reached, &a.target_type);
            div = set_contains(dm, &a.source_type, &a.target_type);
            if !div {
                push_unique(&mut fresh, &a.target_type);
            }
        }
        proof {
            assert forall|o: Seq<char>| #[trigger] seq_has(reached@, o) <==> (!r@.visited.contains(o)
                && exists|q: int| 0 <= q < k + 1 && av[q].1 == o && ne_set.contains(av[q].0)) by {
                if exists|q: int| 0 <= q < k + 1 && av[q].1 == o && ne_set.contains(av[q].0) {
                    let q = choose|q: int| 0 <= q < k + 1 && av[q].1 == o && ne_set.contains(av[q].0);
                    if q < k && !r@.visited.contains(o) {
                        assert(seq_has(rb, o));
                    }
                    if q == k && !r@.visited.contains(o) {
                        assert(seq_has(ne@, a.source_type@));
                        assert(!seq_has(visited@, a.target_type@));
                    }
                }
                if seq_has(rb, o) {
                    let q = choose|q: int| 0 <= q < k && av[q].1 == o && ne_set.contains(av[q].0);
                    assert(0 <= q < k + 1);
                }
                if seq_has(reached@, o) && !seq_has(rb, o) {
                    assert(o == a.target_type@);
                    assert(!name_set(visited@).contains(o));
                }
            }
            assert forall|o: Seq<char>| #[trigger] seq_has(fresh@, o) <==> (!r@.visited.contains(o)
                && exists|q: int| 0 <= q < k + 1 && av[q].1 == o && ne_set.contains(av[q].0) && !in_set_of(dm@, av[q].0, o)) by {
                if exists|q: int| 0 <= q < k + 1 && av[q].1 == o && ne_set.contains(av[q].0) && !in_set_of(dm@, av[q].0, o) {
                    let q = choose|q: int| 0 <= q < k + 1 && av[q].1 == o && ne_set.contains(av[q].0) && !in_set_of(dm@, av[q].0, o);
                    if q < k && !r@.visited.contains(o) {
                        assert(seq_has(fb, o));
                    }
                    if q == k && !r@.visited.contains(o) {
                        assert(seq_has(ne@, a.source_type@));
                        assert(!seq_has(visited@, a.target_type@));
                    }
                }
                if seq_has(fb, o) {
                    let q = choose|q: int| 0 <= q < k && av[q].1 == o && ne_set.contains(av[q].0) && !in_set_of(dm@, av[q].0, o);
                    assert(0 <= q < k + 1);
                }
                if seq_has(fresh@, o) && !seq_has(fb, o) {
                    assert(o == a.target_type@);
                    assert(!name_set(visited@).contains(o));
                }
            }
        }
        k += 1;
    }
    proof {
        assert forall|o: Seq<char>| #[trigger] seq_has(reached@, o) <==> objs.contains(o) by {
            if objs.contains(o) {
                let e = choose|e: Seq<char>| #[trigger] ne_set.contains(e) && has_arc(av, e, o);
                let q = choose|q: int| 0 <= q < av.len() && av[q] == (e, o);
            }
        }
        assert forall|o: Seq<char>| #[trigger] seq_has(fresh@, o) <==> p.contains(o) by {
            if p.contains(o) {
                let e = choose|e: Seq<char>| #[trigger] ne_set.contains(e) && has_arc(av, e, o) && !in_set_of(dm@, e, o);
                let q = choose|q: int| 0 <= q < av.len() && av[q] == (e, o);
            }
        }
    }
    // the new state
    let mut new_visited = copy_names(visited);
    let mut new_plain = copy_names(plain);
    let mut new_events = copy_names(events);
    append_names(&mut new_visited, &reached);
    append_names(&mut new_plain, &fresh);
    append_names(&mut new_events, &ne);
    let ghost step = reach_step(av, dm@, r@);
    assert(name_set(new_visited@) =~= step.visited);
    assert(name_set(new_plain@) =~= step.plain);
    assert(name_set(fresh@) =~= step.frontier);
    assert(name_set(new_events@) =~= step.events);
    (new_visited, new_plain, fresh, new_events)
}

/// A copy of the names.
fn copy_names(v: &Vec<String>) -> (r: Vec<String>)
    ensures
        r@ == v@,
{
    let mut out: Vec<String> = Vec::new();
    let mut i: usize = 0;
    while i < v.len()
        invariant
            0 <= i <= v@.len(),
            out@ == v@.subrange(0, i as int),
        decreases v@.len() - i,
    {
        out.push(v[i].clone());
        i += 1;
        assert(out@ =~= v@.subrange(0, i as int));
    }
    assert(v@.subrange(0, v@.len() as int) =~= v@);
    out
}

/// Appends copies of the names of `src`.
fn append_names(dst: &mut Vec<String>, src: &Vec<String>)
    ensures
        forall|x: Seq<char>| #[trigger] seq_has(final(dst)@, x) <==> (seq_has(old(dst)@, x) || seq_has(src@, x)),
{
    let ghost start = dst@;
    let mut i: usize = 0;
    while i < src.len()
        invariant
            0 <= i <= src@.len(),
            dst@ == start + src@.subrange(0, i as int),
        decreases src@.len() - i,
    {
        dst.push(src[i].clone());
        i += 1;
        assert(dst@ =~= start + src@.subrange(0, i as int));
    }
    assert(src@.subrange(0, src@.len() as int) =~= src@);
    assert forall|x: Seq<char>| #[trigger] seq_has(dst@, x) <==> (seq_has(start, x) || seq_has(src@, x)) by {
        if seq_has(dst@, x) {
            let q = choose|q: int| 0 <= q < dst@.len() && (#[trigger] dst@[q])@ == x;
            if q >= start.len() {
                assert(src@[q - start.len()] == dst@[q]);
            } else {
                assert(start[q] == dst@[q]);
            }
        }
        if seq_has(start, x) {
            let q = choose|q: int| 0 <= q < start.len() && (#[trigger] start[q])@ == x;
            assert(dst@[q] == start[q]);
        }
        if seq_has(src@, x) {
            let q = choose|q: int| 0 <= q < src@.len() && (#[trigger] src@[q])@ == x;
            assert(dst@[start.len() + q] == src@[q]);
        }
    }
}

/// The layered search from `start` until a layer adds no object type: the object
/// types reached without divergence and the event types reached.
fn reach_search(arcs: &Vec<ArcEntry>, dm: &Vec<(String, Vec<String>)>, start: &String) -> (out: (Vec<String>, Vec<String>))
    requires
        set_keys_unique(dm@),
    ensures
        name_set(out.0@) == reach_done(arc_views(arcs@), dm@, start@).plain,
        name_set(out.1@) == reach_done(arc_views(arcs@), dm@, start@).events,
{
    let ghost av = arc_views(arcs@);
    let mut visited: Vec<String> = Vec::new();
    visited.push(start.clone());
    let mut plain: Vec<String> = Vec::new();
    plain.push(start.clone());
    let mut frontier: Vec<String> = Vec::new();
    frontier.push(start.clone());
    let mut events: Vec<String> = Vec::new();
    let ghost mut k: nat = 0;
    proof {
        let r0 = reach_after(av, dm@, start@, 0);
        assert(name_set(visited@) =~= r0.visited) by {
            assert(visited@[0]@ == start@);
        }
        assert(name_set(plain@) =~= r0.plain) by {
            assert(plain@[0]@ == start@);
        }
        assert(name_set(frontier@) =~= r0.frontier) by {
            assert(frontier@[0]@ == start@);
        }
        assert(name_set(events@) =~= r0.events);
    }
    while frontier.len() > 0
        invariant
            set_keys_unique(dm@),
            av == arc_views(arcs@),
            name_set(visited@) == reach_after(av, dm@, start@, k).visited,
            name_set(plain@) == reach_after(av, dm@, start@, k).plain,
            name_set(frontier@) == reach_after(av, dm@, start@, k).frontier,
            name_set(events@) == reach_after(av, dm@, start@, k).events,
        decreases unvisited_arcs(av, name_set(visited@)) + if frontier@.len() > 0 { 1nat } else { 0nat },
    {
        let ghost r = reach_after(av, dm@, start@, k);
        let ghost before = unvisited_arcs(av, name_set(visited@));
        let (v, p, f, e) = reach_layer(arcs, dm, &visited, &plain, &frontier, &events, Ghost(r));
        proof {
            k = k + 1;
            let ne = layer_events(av, r);
            assert(r.visited.subset_of(name_set(v@)));
            lemma_unvisited_mono(av, r.visited, name_set(v@));
            if f@.len() > 0 {
                let o = f@[0]@;
                assert(name_set(f@).contains(o));
                assert(layer_plain(av, dm@, r, ne).contains(o));
                let e = choose|e: Seq<char>| #[trigger] ne.contains(e) && has_arc(av, e, o) && !in_set_of(dm@, e, o);
                let q = choose|q: int| 0 <= q < av.len() && av[q] == (e, o);
                assert(layer_objects(av, r, ne).contains(o));
                lemma_unvisited_strict(av, r.visited, name_set(v@), q);
            }
        }
        visited = v;
        plain = p;
        frontier = f;
        events = e;
    }
    proof {
        assert(name_set(frontier@) =~= Set::<Seq<char>>::empty());
        lemma_done(av, dm@, start@, k);
    }
    (plain, events)
}

/// The names in `s`.
pub open spec fn member_of(s: Set<Seq<char>>) -> spec_fn(Seq<char>) -> bool {
    |x: Seq<char>| s.contains(x)
}

/// The names outside `s`.
pub open spec fn outside_of(s: Set<Seq<char>>) -> spec_fn(Seq<char>) -> bool {
    |x: Seq<char>| !s.contains(x)
}

/// The arcs from an event type of `ev` to an object type of `ob`.
pub open spec fn arc_within(ev: Set<Seq<char>>, ob: Set<Seq<char>>) -> spec_fn((Seq<char>, Seq<char>)) -> bool {
    |a: (Seq<char>, Seq<char>)| ev.contains(a.0) && ob.contains(a.1)
}

/// The other arcs.
pub open spec fn arc_outside(ev: Set<Seq<char>>, ob: Set<Seq<char>>) -> spec_fn((Seq<char>, Seq<char>)) -> bool {
    |a: (Seq<char>, Seq<char>)| !(ev.contains(a.0) && ob.contains(a.1))
}

/// The advanced case notion on a type-level graph: both sections are merged;
/// without the starting object type everything is deselected; otherwise the
/// layered search (`reach_done`) selects the event types it reaches, the object
/// types it reaches without divergence, and the arcs from the former to the
/// latter; all else is deselected, each list in its merged order.
pub open spec fn advanced_type_graph(g: TypeGraph, start: Seq<char>, dm: Seq<(String, Vec<String>)>) -> TypeGraph {
    let es = g.event_types + g.deselected_event_types;
    let os = g.object_types + g.deselected_object_types;
    let arcs = g.arcs + g.deselected_arcs;
    if !os.contains(start) {
        TypeGraph {
            event_types: Seq::empty(),
            object_types: Seq::empty(),
            arcs: Seq::empty(),
            deselected_event_types: es,
            deselected_object_types: os,
            deselected_arcs: arcs,
        }
    } else {
        let s = reach_done(arcs, dm, start);
        TypeGraph {
            event_types: es.filter(member_of(s.events)),
            object_types: os.filter(member_of(s.plain)),
            arcs: arcs.filter(arc_within(s.events, s.plain)),
            deselected_event_types: es.filter(outside_of(s.events)),
            deselected_object_types: os.filter(outside_of(s.plain)),
            deselected_arcs: arcs.filter(arc_outside(s.events, s.plain)),
        }
    }
}

/// Splits names into those in `s` and the others, each in order.
fn split_names(v: &Vec<String>, inside: &Vec<String>, s: Ghost<Set<Seq<char>>>) -> (out: (Vec<String>, Vec<String>))
    requires
        name_set(inside@) == s@,
    ensures
        name_views(out.0@) == name_views(v@).filter(member_of(s@)),
        name_views(out.1@) == name_views(v@).filter(outside_of(s@)),
{
    let ghost nv = name_views(v@);
    let mut yes: Vec<String> = Vec::new();
    let mut no: Vec<String> = Vec::new();
    let mut i: usize = 0;
    while i < v.len()
        invariant
            0 <= i <= v@.len(),
            nv == name_views(v@),
            name_set(inside@) == s@,
            name_views(yes@) == nv.take(i as int).filter(member_of(s@)),
            name_views(no@) == nv.take(i as int).filter(outside_of(s@)),
        decreases v@.len() - i,
    {
        proof {
            lemma_filter_step(nv, i as int, member_of(s@));
            lemma_filter_step(nv, i as int, outside_of(s@));
        }
        let x = &v[i];
        assert(nv[i as int] == x@);
        let ghost yb = yes@;
        let ghost nb = no@;
        if contains_string(inside, x) {
            assert(name_set(inside@).contains(x@));
            yes.push(x.clone());
            assert(name_views(yes@) =~= name_views(yb).push(x@));
        } else {
            assert(!name_set(inside@).contains(x@));
            no.push(x.clone());
            assert(name_views(no@) =~= name_views(nb).push(x@));
        }
        i += 1;
    }
    assert(nv.take(nv.len() as int) =~= nv);
    (yes, no)
}

/// Partitions the type-level graph by the advanced case notion for the starting
/// object type and the divergence map (see `advanced_type_graph`).
pub fn advanced_case_notion_type_level(
    graph: &LogGraphTypeLevel,
    starting_object_type: &str,
    divergence_map: &Vec<(String, Vec<String>)>,
) -> (r: LogGraphTypeLevel)
    requires
        set_keys_unique(divergence_map@),
    ensures
        r@ == advanced_type_graph(graph@, starting_object_type@, divergence_map@),
{
    let ghost start = starting_object_type@;
    let events = concat_names(&graph.event_types, &graph.deselected_event_types);
    let objects = concat_names(&graph.object_types, &graph.deselected_object_types);
    let arcs = concat_arcs(&graph.arcs, &graph.deselected_arcs);
    let ghost es = name_views(events@);
    let ghost os = name_views(objects@);
    let ghost av = arc_views(arcs@);
    let mut present = false;
    let mut k: usize = 0;
    while k < objects.len()
        invariant
            0 <= k <= objects@.len(),
            os == name_views(objects@),
            present == exists|q: int| 0 <= q < k && os[q] == start,
        decreases objects@.len() - k,
    {
        assert(os[k as int] == objects@[k as int]@);
        if str_eq(objects[k].as_str(), starting_object_type) {
            present = true;
        }
        proof {
            if exists|q: int| 0 <= q < k + 1 && os[q] == start {
                let q = choose|q: int| 0 <= q < k + 1 && os[q] == start;
                if q < k {
                    assert(exists|q2: int| 0 <= q2 < k && os[q2] == start);
                }
            }
        }
        k += 1;
    }
    if !present {
        let r = LogGraphTypeLevel {
            event_types: Vec::new(),
            object_types: Vec::new(),
            arcs: Vec::new(),
            deselected_event_types: events,
            deselected_object_types: objects,
            deselected_arcs: arcs,
        };
        assert(!os.contains(start));
        assert(r@ =~= advanced_type_graph(graph@, start, divergence_map@));
        return r;
    }
    let start_name = String::from_str(starting_object_type);
    let (plain, reached_events) = reach_search(&arcs, divergence_map, &start_name);
    let ghost s = reach_done(av, divergence_map@, start);
    let (selected_events, other_events) = split_names(&events, &reached_events, Ghost(s.events));
    let (selected_objects, other_objects) = split_names(&objects, &plain, Ghost(s.plain));
    let mut selected_arcs: Vec<ArcEntry> = Vec::new();
    let mut other_arcs: Vec<ArcEntry> = Vec::new();
    let mut i: usize = 0;
    while i < arcs.len()
        invariant
            0 <= i <= arcs@.len(),
            av == arc_views(arcs@),
            name_set(plain@) == s.plain,
            name_set(reached_events@) == s.events,
            arc_views(selected_arcs@) == av.take(i as int).filter(arc_within(s.events, s.plain)),
            arc_views(other_arcs@) == av.take(i as int).filter(arc_outside(s.events, s.plain)),
        decreases arcs@.len() - i,
    {
        proof {
            lemma_filter_step(av, i as int, arc_within(s.events, s.plain));
            lemma_filter_step(av, i as int, arc_outside(s.events, s.plain));
        }
        let a = &arcs[i];
        assert(av[i as int] == a@);
        let ghost sb = selected_arcs@;
        let ghost ob = other_arcs@;
        let copy = ArcEntry { source_type: a.source_type.clone(), target_type: a.target_type.clone() };
        let within = contains_string(&reached_events, &a.source_type) && contains_string(&plain, &a.target_type);
        proof {
            assert(within == (name_set(reached_events@).contains(a.source_type@) && name_set(plain@).contains(a.target_type@)));
        }
        if within {
            selected_arcs.push(copy);
            assert(arc_views(selected_arcs@) =~= arc_views(sb).push(a@));
        } else {
            other_arcs.push(copy);
            assert(arc_views(other_arcs@) =~= arc_views(ob).push(a@));
        }
        i += 1;
    }
    assert(av.take(av.len() as int) =~= av);
    let r = LogGraphTypeLevel {
        event_types: selected_events,
        object_types: selected_objects,
        arcs: selected_arcs,
        deselected_event_types: other_events,
        deselected_object_types: other_objects,
        deselected_arcs: other_arcs,
    };
    proof {
        let q = choose|q: int| 0 <= q < objects@.len() && os[q] == start;
        assert(os.contains(start));
    }
    assert(r@ =~= advanced_type_graph(graph@, start, divergence_map@));
    r
}

// ---------------------------------------------------------------------------
// The advanced case notion on the instance level.

/// Each key of the map once.
pub open spec fn entry_keys_unique(m: Seq<ObjectEntry>) -> bool {
    forall|i: int, j: int| 0 <= i < m.len() && 0 <= j < m.len() && (#[trigger] m[i]).0@ == (#[trigger] m[j]).0@ ==> i == j
}

/// The entry of `x` lists `y`.
pub open spec fn linked(m: Seq<ObjectEntry>, x: Seq<char>, y: Seq<char>) -> bool {
    exists|k: int| 0 <= k < m.len() && (#[trigger] m[k]).0@ == x && seq_has(m[k].1.1@, y)
}

/// The entry of `x` has the label (activity or object type) `l`.
pub open spec fn labelled(m: Seq<ObjectEntry>, x: Seq<char>, l: Seq<char>) -> bool {
    exists|k: int| 0 <= k < m.len() && (#[trigger] m[k]).0@ == x && m[k].1.0@ == l
}

/// The state of the search from one object: events and objects of the case, the
/// objects added last without divergence, and the events added last.
#[verifier::ext_equal]
pub ghost struct CaseReach {
    pub events: Set<Seq<char>>,
    pub objects: Set<Seq<char>>,
    pub last_objects: Set<Seq<char>>,
    pub last_events: Set<Seq<char>>,
}

pub open spec fn case_start(id: Seq<char>) -> CaseReach {
    CaseReach { events: Set::empty(), objects: set![id], last_objects: set![id], last_events: Set::empty() }
}

/// The events of the last objects not in the case yet.
pub open spec fn case_new_events(objects: Seq<ObjectEntry>, s: CaseReach) -> Set<Seq<char>> {
    Set::new(|e: Seq<char>| !s.events.contains(e) && exists|o: Seq<char>| #[trigger] s.last_objects.contains(o) && linked(objects, o, e))
}

/// The objects not in the case yet, of a type other than `given`, that a new event
/// lists: those whose type diverges on the event's activity (`diverging`) or not.
pub open spec fn case_new_objects(
    events: Seq<ObjectEntry>,
    objects: Seq<ObjectEntry>,
    dm: Seq<(String, Vec<String>)>,
    given: Seq<char>,
    s: CaseReach,
    ne: Set<Seq<char>>,
    diverging: bool,
) -> Set<Seq<char>> {
    Set::new(|o: Seq<char>| !s.objects.contains(o) && exists|e: Seq<char>, a: Seq<char>, t: Seq<char>|
        #[trigger] ne.contains(e) && #[trigger] labelled(events, e, a) && linked(events, e, o)
        && #[trigger] labelled(objects, o, t) && t != given && in_set_of(dm, a, t) == diverging)
}

/// One round of the search.
pub open spec fn case_step(events: Seq<ObjectEntry>, objects: Seq<ObjectEntry>, dm: Seq<(String, Vec<String>)>, given: Seq<char>, s: CaseReach) -> CaseReach {
    let ne = case_new_events(objects, s);
    let plain = case_new_objects(events, objects, dm, given, s, ne, false);
    let div = case_new_objects(events, objects, dm, given, s, ne, true);
    CaseReach {
        events: s.events.union(ne),
        objects: s.objects.union(plain).union(div),
        last_objects: plain,
        last_events: ne,
    }
}

/// The search still goes on.
pub open spec fn case_active(s: CaseReach) -> bool {
    s.last_objects != Set::<Seq<char>>::empty() || s.last_events != Set::<Seq<char>>::empty()
}

pub open spec fn case_after(events: Seq<ObjectEntry>, objects: Seq<ObjectEntry>, dm: Seq<(String, Vec<String>)>, given: Seq<char>, id: Seq<char>, k: nat) -> CaseReach
    decreases k,
{
    if k == 0 {
        case_start(id)
    } else {
        case_step(events, objects, dm, given, case_after(events, objects, dm, given, id, (k - 1) as nat))
    }
}

/// The state once the search stops.
pub open spec fn case_done(events: Seq<ObjectEntry>, objects: Seq<ObjectEntry>, dm: Seq<(String, Vec<String>)>, given: Seq<char>, id: Seq<char>) -> CaseReach {
    case_after(events, objects, dm, given, id, choose|k: nat| !case_active(case_after(events, objects, dm, given, id, k)))
}

proof fn lemma_case_idle(events: Seq<ObjectEntry>, objects: Seq<ObjectEntry>, dm: Seq<(String, Vec<String>)>, given: Seq<char>, s: CaseReach)
    requires
        !case_active(s),
    ensures
        case_step(events, objects, dm, given, s) == s,
{
    let ne = case_new_events(objects, s);
    assert(ne =~= Set::<Seq<char>>::empty());
    assert(case_new_objects(events, objects, dm, given, s, ne, false) =~= Set::<Seq<char>>::empty());
    assert(case_new_objects(events, objects, dm, given, s, ne, true) =~= Set::<Seq<char>>::empty());
    assert(case_step(events, objects, dm, given, s) =~= s);
}

proof fn lemma_case_after_idle(events: Seq<ObjectEntry>, objects: Seq<ObjectEntry>, dm: Seq<(String, Vec<String>)>, given: Seq<char>, id: Seq<char>, k: nat, m: nat)
    requires
        !case_active(case_after(events, objects, dm, given, id, k)),
        k <= m,
    ensures
        case_after(events, objects, dm, given, id, m) == case_after(events, objects, dm, given, id, k),
    decreases m - k,
{
    if k < m {
        lemma_case_after_idle(events, objects, dm, given, id, k, (m - 1) as nat);
        lemma_case_idle(events, objects, dm, given, case_after(events, objects, dm, given, id, (m - 1) as nat));
    }
}

proof fn lemma_case_done(events: Seq<ObjectEntry>, objects: Seq<ObjectEntry>, dm: Seq<(String, Vec<String>)>, given: Seq<char>, id: Seq<char>, k: nat)
    requires
        !case_active(case_after(events, objects, dm, given, id, k)),
    ensures
        case_done(events, objects, dm, given, id) == case_after(events, objects, dm, given, id, k),
{
    let c = choose|c: nat| !case_active(case_after(events, objects, dm, given, id, c));
    if c <= k {
        lemma_case_after_idle(events, objects, dm, given, id, c, k);
    } else {
        lemma_case_after_idle(events, objects, dm, given, id, k, c);
    }
}

/// The position of the entry with key `x`, if any.
fn find_entry(m: &Vec<ObjectEntry>, x: &String) -> (r: Option<usize>)
    ensures
        r matches Some(q) ==> q < m@.len() && m@[q as int].0@ == x@,
        r is None ==> forall|q: int| 0 <= q < m@.len() ==> (#[trigger] m@[q]).0@ != x@,
{
    let mut q: usize = 0;
    while q < m.len()
        invariant
            0 <= q <= m@.len(),
            forall|i: int| 0 <= i < q ==> (#[trigger] m@[i]).0@ != x@,
        decreases m@.len() - q,
    {
        if m[q].0 == *x {
            return Some(q);
        }
        q += 1;
    }
    None
}

/// The events, not in `seen`, listed by the entries of the objects in `last`.
pub fn gather_events(objects: &Vec<ObjectEntry>, last: &Vec<String>, seen: &Vec<String>) -> (r: Vec<String>)
    ensures
        forall|e: Seq<char>| #[trigger] seq_has(r@, e) <==> (!name_set(seen@).contains(e)
            && exists|o: Seq<char>| #[trigger] name_set(last@).contains(o) && linked(objects@, o, e)),
{
    let mut out: Vec<String> = Vec::new();
    let mut k: usize = 0;
    while k < objects.len()
        invariant
            0 <= k <= objects@.len(),
            strings_unique(out@),
            forall|e: Seq<char>| #[trigger] seq_has(out@, e) <==> (!seq_has(seen@, e)
                && exists|q: int| 0 <= q < k && seq_has(last@, (#[trigger] objects@[q]).0@) && seq_has(objects@[q].1.1@, e)),
        decreases objects@.len() - k,
    {
        let entry = &objects[k];
        if contains_string(last, &entry.0) {
            let list = &entry.1.1;
            let ghost before = out@;
            let mut j: usize = 0;
            while j < list.len()
                invariant
                    0 <= j <= list@.len(),
                    list@ == objects@[k as int].1.1@,
                    seq_has(last@, objects@[k as int].0@),
                    strings_unique(out@),
                    forall|e: Seq<char>| #[trigger] seq_has(out@, e) <==> (seq_has(before, e)
                        || (!seq_has(seen@, e) && exists|r: int| 0 <= r < j && (#[trigger] list@[r])@ == e)),
                decreases list@.len() - j,
            {
                let ghost mid = out@;
                if !contains_string(seen, &list[j]) {
                    push_unique(&mut out, &list[j]);
                }
                proof {
                    assert forall|e: Seq<char>| #[trigger] seq_has(out@, e) <==> (seq_has(before, e)
                        || (!seq_has(seen@, e) && exists|r: int| 0 <= r < j + 1 && (#[trigger] list@[r])@ == e)) by {
                        if exists|r: int| 0 <= r < j + 1 && (#[trigger] list@[r])@ == e {
                            let r = choose|r: int| 0 <= r < j + 1 && (#[trigger] list@[r])@ == e;
                            if r < j && !seq_has(seen@, e) {
                                assert(seq_has(mid, e));
                            }
                        }
                        if seq_has(mid, e) && !seq_has(before, e) {
                            let r = choose|r: int| 0 <= r < j && (#[trigger] list@[r])@ == e;
                            assert(0 <= r < j + 1);
                        }
                    }
                }
                j += 1;
            }
            proof {
                assert forall|e: Seq<char>| #[trigger] seq_has(out@, e) <==> (!seq_has(seen@, e)
                    && exists|q: int| 0 <= q < k + 1 && seq_has(last@, (#[trigger] objects@[q]).0@) && seq_has(objects@[q].1.1@, e)) by {
                    if exists|q: int| 0 <= q < k + 1 && seq_has(last@, (#[trigger] objects@[q]).0@) && seq_has(objects@[q].1.1@, e) {
                        let q = choose|q: int| 0 <= q < k + 1 && seq_has(last@, (#[trigger] objects@[q]).0@) && seq_has(objects@[q].1.1@, e);
                        if q == k && !seq_has(seen@, e) {
                            let r = choose|r: int| 0 <= r < list@.len() && (#[trigger] list@[r])@ == e;
                        }
                    }
                    if seq_has(out@, e) && !seq_has(before, e) {
                        let r = choose|r: int| 0 <= r < list@.len() && (#[trigger] list@[r])@ == e;
                        assert(seq_has(objects@[k as int].1.1@, e));
                    }
                }
            }
        } else {
            proof {
                assert forall|e: Seq<char>| #[trigger] seq_has(out@, e) <==> (!seq_has(seen@, e)
                    && exists|q: int| 0 <= q < k + 1 && seq_has(last@, (#[trigger] objects@[q]).0@) && seq_has(objects@[q].1.1@, e)) by {
                    if exists|q: int| 0 <= q < k + 1 && seq_has(last@, (#[trigger] objects@[q]).0@) && seq_has(objects@[q].1.1@, e) {
                        let q = choose|q: int| 0 <= q < k + 1 && seq_has(last@, (#[trigger] objects@[q]).0@) && seq_has(objects@[q].1.1@, e);
                        assert(q != k);
                    }
                }
            }
        }
        k += 1;
    }
    proof {
        assert forall|e: Seq<char>| #[trigger] seq_has(out@, e) <==> (!name_set(seen@).contains(e)
            && exists|o: Seq<char>| #[trigger] name_set(last@).contains(o) && linked(objects@, o, e)) by {
            if !name_set(seen@).contains(e) && exists|o: Seq<char>| #[trigger] name_set(last@).contains(o) && linked(objects@, o, e) {
                let o = choose|o: Seq<char>| #[trigger] name_set(last@).contains(o) && linked(objects@, o, e);
                let q = choose|q: int| 0 <= q < objects@.len() && (#[trigger] objects@[q]).0@ == o && seq_has(objects@[q].1.1@, e);
            }
            if seq_has(out@, e) {
                let q = choose|q: int| 0 <= q < objects@.len() && seq_has(last@, (#[trigger] objects@[q]).0@) && seq_has(objects@[q].1.1@, e);
                assert(name_set(last@).contains(objects@[q].0@));
            }
        }
    }
    out
}

/// The type of object `o` in the map, if it has an entry.
spec fn object_type_ok(objects: Seq<ObjectEntry>, dm: Seq<(String, Vec<String>)>, given: Seq<char>, a: Seq<char>, o: Seq<char>, diverging: bool) -> bool {
    exists|t: Seq<char>| #[trigger] labelled(objects, o, t) && t != given && in_set_of(dm, a, t) == diverging
}

/// The objects, not in `seen`, that the entries of the events in `ne` list and
/// whose type (other than `given`) diverges (`diverging`) or not on the event's activity.
fn gather_objects(
    events: &Vec<ObjectEntry>,
    objects: &Vec<ObjectEntry>,
    dm: &Vec<(String, Vec<String>)>,
    given: &String,
    ne: &Vec<String>,
    seen: &Vec<String>,
    diverging: bool,
) -> (r: Vec<String>)
    requires
        entry_keys_unique(events@),
        entry_keys_unique(objects@),
        set_keys_unique(dm@),
    ensures
        forall|o: Seq<char>| #[trigger] seq_has(r@, o) <==> (!name_set(seen@).contains(o)
            && exists|e: Seq<char>, a: Seq<char>, t: Seq<char>|
                #[trigger] name_set(ne@).contains(e) && #[trigger] labelled(events@, e, a) && linked(events@, e, o)
                && #[trigger] labelled(objects@, o, t) && t != given@ && in_set_of(dm@, a, t) == diverging),
{
    let mut out: Vec<String> = Vec::new();
    let mut k: usize = 0;
    while k < events.len()
        invariant
            0 <= k <= events@.len(),
            entry_keys_unique(events@),
            entry_keys_unique(objects@),
            set_keys_unique(dm@),
            strings_unique(out@),
            forall|o: Seq<char>| #[trigger] seq_has(out@, o) <==> (!seq_has(seen@, o)
                && exists|q: int| 0 <= q < k && seq_has(ne@, (#[trigger] events@[q]).0@) && seq_has(events@[q].1.1@, o)
                    && object_type_ok(objects@, dm@, given@, events@[q].1.0@, o, diverging)),
        decreases events@.len() - k,
    {
        let entry = &events[k];
        let ghost before = out@;
        if contains_string(ne, &entry.0) {
            let a = &entry.1.0;
            let list = &entry.1.1;
            let mut j: usize = 0;
            while j < list.len()
                invariant
                    0 <= j <= list@.len(),
                    list@ == events@[k as int].1.1@,
                    a@ == events@[k as int].1.0@,
                    entry_keys_unique(objects@),
                    set_keys_unique(dm@),
                    strings_unique(out@),
                    forall|o: Seq<char>| #[trigger] seq_has(out@, o) <==> (seq_has(before, o)
                        || (!seq_has(seen@, o) && exists|r: int| 0 <= r < j && (#[trigger] list@[r])@ == o
                            && object_type_ok(objects@, dm@, given@, a@, o, diverging))),
                decreases list@.len() - j,
            {
                let o = &list[j];
                let ghost mid = out@;
                let mut ok = false;
                if !contains_string(seen, o) {
                    match find_entry(objects, o) {
                        Some(q) => {
                            let t = &objects[q].1.0;
                            if !(*t == *given) && set_contains(dm, a, t) == diverging {
                                ok = true;
                                assert(labelled(objects@, o@, t@));
                            } else {
                                proof {
                                    assert forall|t2: Seq<char>| #[trigger] labelled(objects@, o@, t2) implies
                                        !(t2 != given@ && in_set_of(dm@, a@, t2) == diverging) by {
                                        let q2 = choose|q2: int| 0 <= q2 < objects@.len() && (#[trigger] objects@[q2]).0@ == o@ && objects@[q2].1.0@ == t2;
                                        assert(q2 == q);
                                    }
                                }
                            }
                        },
                        None => {},
                    }
                }
                if ok {
                    push_unique(&mut out, o);
                }
                proof {
                    assert(ok == (!seq_has(seen@, o@) && object_type_ok(objects@, dm@, given@, a@, o@, diverging)));
                    assert forall|x: Seq<char>| #[trigger] seq_has(out@, x) <==> (seq_has(before, x)
                        || (!seq_has(seen@, x) && exists|r: int| 0 <= r < j + 1 && (#[trigger] list@[r])@ == x
                            && object_type_ok(objects@, dm@, given@, a@, x, diverging))) by {
                        if exists|r: int| 0 <= r < j + 1 && (#[trigger] list@[r])@ == x {
                            let r = choose|r: int| 0 <= r < j + 1 && (#[trigger] list@[r])@ == x;
                            if r < j && !seq_has(seen@, x) && object_type_ok(objects@, dm@, given@, a@, x, diverging) {
                                assert(seq_has(mid, x));
                            }
                        }
                        if seq_has(mid, x) && !seq_has(before, x) {
                            let r = choose|r: int| 0 <= r < j && (#[trigger] list@[r])@ == x;
                            assert(0 <= r < j + 1);
                        }
                    }
                }
                j += 1;
            }
            proof {
                assert forall|o: Seq<char>| #[trigger] seq_has(out@, o) <==> (!seq_has(seen@, o)
                    && exists|q: int| 0 <= q < k + 1 && seq_has(ne@, (#[trigger] events@[q]).0@) && seq_has(events@[q].1.1@, o)
                        && object_type_ok(objects@, dm@, given@, events@[q].1.0@, o, diverging)) by {
                    if exists|q: int| 0 <= q < k + 1 && seq_has(ne@, (#[trigger] events@[q]).0@) && seq_has(events@[q].1.1@, o)
                        && object_type_ok(objects@, dm@, given@, events@[q].1.0@, o, diverging) {
                        let q = choose|q: int| 0 <= q < k + 1 && seq_has(ne@, (#[trigger] events@[q]).0@) && seq_has(events@[q].1.1@, o)
                            && object_type_ok(objects@, dm@, given@, events@[q].1.0@, o, diverging);
                        if q == k && !seq_has(seen@, o) {
                            let r = choose|r: int| 0 <= r < list@.len() && (#[trigger] list@[r])@ == o;
                        }
                    }
                    if seq_has(out@, o) && !seq_has(before, o) {
                        let r = choose|r: int| 0 <= r < list@.len() && (#[trigger] list@[r])@ == o;
                        assert(seq_has(events@[k as int].1.1@, o));
                    }
                }
            }
        } else {
            proof {
                assert forall|o: Seq<char>| #[trigger] seq_has(out@, o) <==> (!seq_has(seen@, o)
                    && exists|q: int| 0 <= q < k + 1 && seq_has(ne@, (#[trigger] events@[q]).0@) && seq_has(events@[q].1.1@, o)
                        && object_type_ok(objects@, dm@, given@, events@[q].1.0@, o, diverging)) by {
                    if exists|q: int| 0 <= q < k + 1 && seq_has(ne@, (#[trigger] events@[q]).0@) && seq_has(events@[q].1.1@, o)
                        && object_type_ok(objects@, dm@, given@, events@[q].1.0@, o, diverging) {
                        let q = choose|q: int| 0 <= q < k + 1 && seq_has(ne@, (#[trigger] events@[q]).0@) && seq_has(events@[q].1.1@, o)
                            && object_type_ok(objects@, dm@, given@, events@[q].1.0@, o, diverging);
                        assert(q != k);
                    }
                }
            }
        }
        k += 1;
    }
    proof {
        assert forall|o: Seq<char>| #[trigger] seq_has(out@, o) <==> (!name_set(seen@).contains(o)
            && exists|e: Seq<char>, a: Seq<char>, t: Seq<char>|
                #[trigger] name_set(ne@).contains(e) && #[trigger] labelled(events@, e, a) && linked(events@, e, o)
                && #[trigger] labelled(objects@, o, t) && t != given@ && in_set_of(dm@, a, t) == diverging) by {
            if seq_has(out@, o) {
                let q = choose|q: int| 0 <= q < events@.len() && seq_has(ne@, (#[trigger] events@[q]).0@) && seq_has(events@[q].1.1@, o)
                    && object_type_ok(objects@, dm@, given@, events@[q].1.0@, o, diverging);
                let e = events@[q].0@;
                let a = events@[q].1.0@;
                let t = choose|t: Seq<char>| #[trigger] labelled(objects@, o, t) && t != given@ && in_set_of(dm@, a, t) == diverging;
                assert(name_set(ne@).contains(e));
                assert(labelled(events@, e, a));
                assert(linked(events@, e, o));
            }
            if !name_set(seen@).contains(o) && exists|e: Seq<char>, a: Seq<char>, t: Seq<char>|
                #[trigger] name_set(ne@).contains(e) && #[trigger] labelled(events@, e, a) && linked(events@, e, o)
                && #[trigger] labelled(objects@, o, t) && t != given@ && in_set_of(dm@, a, t) == diverging {
                let (e, a, t) = choose|e: Seq<char>, a: Seq<char>, t: Seq<char>|
                    #[trigger] name_set(ne@).contains(e) && #[trigger] labelled(events@, e, a) && linked(events@, e, o)
                    && #[trigger] labelled(objects@, o, t) && t != given@ && in_set_of(dm@, a, t) == diverging;
                let q1 = choose|q1: int| 0 <= q1 < events@.len() && (#[trigger] events@[q1]).0@ == e && events@[q1].1.0@ == a;
                let q2 = choose|q2: int| 0 <= q2 < events@.len() && (#[trigger] events@[q2]).0@ == e && seq_has(events@[q2].1.1@, o);
                assert(q1 == q2);
                assert(object_type_ok(objects@, dm@, given@, a, o, diverging));
            }
        }
    }
    out
}

/// The entries of `list` outside `s`.
pub open spec fn unseen_in(list: Seq<String>, s: Set<Seq<char>>) -> nat
    decreases list.len(),
{
    if list.len() == 0 {
        0
    } else {
        unseen_in(list.drop_last(), s) + if s.contains(list.last()@) { 0nat } else { 1nat }
    }
}

/// The event references of the object entries outside `s`.
pub open spec fn unseen_refs(objects: Seq<ObjectEntry>, s: Set<Seq<char>>) -> nat
    decreases objects.len(),
{
    if objects.len() == 0 {
        0
    } else {
        unseen_refs(objects.drop_last(), s) + unseen_in(objects.last().1.1@, s)
    }
}

/// The object entries whose key is outside `s`.
pub open spec fn unseen_keys(objects: Seq<ObjectEntry>, s: Set<Seq<char>>) -> nat
    decreases objects.len(),
{
    if objects.len() == 0 {
        0
    } else {
        unseen_keys(objects.drop_last(), s) + if s.contains(objects.last().0@) { 0nat } else { 1nat }
    }
}

proof fn lemma_unseen_in(list: Seq<String>, a: Set<Seq<char>>, b: Set<Seq<char>>, m: int)
    requires
        a.subset_of(b),
    ensures
        unseen_in(list, b) <= unseen_in(list, a),
        0 <= m < list.len() && !a.contains(list[m]@) && b.contains(list[m]@) ==> unseen_in(list, b) < unseen_in(list, a),
    decreases list.len(),
{
    if list.len() > 0 {
        lemma_unseen_in(list.drop_last(), a, b, m);
    }
}

pub proof fn lemma_unseen_refs(objects: Seq<ObjectEntry>, a: Set<Seq<char>>, b: Set<Seq<char>>, k: int, m: int)
    requires
        a.subset_of(b),
    ensures
        unseen_refs(objects, b) <= unseen_refs(objects, a),
        0 <= k < objects.len() && 0 <= m < objects[k].1.1@.len() && !a.contains(objects[k].1.1@[m]@)
            && b.contains(objects[k].1.1@[m]@) ==> unseen_refs(objects, b) < unseen_refs(objects, a),
    decreases objects.len(),
{
    if objects.len() > 0 {
        lemma_unseen_refs(objects.drop_last(), a, b, k, m);
        lemma_unseen_in(objects.last().1.1@, a, b, m);
    }
}

proof fn lemma_unseen_keys(objects: Seq<ObjectEntry>, a: Set<Seq<char>>, b: Set<Seq<char>>, k: int)
    requires
        a.subset_of(b),
    ensures
        unseen_keys(objects, b) <= unseen_keys(objects, a),
        0 <= k < objects.len() && !a.contains(objects[k].0@) && b.contains(objects[k].0@) ==> unseen_keys(objects, b) < unseen_keys(objects, a),
    decreases objects.len(),
{
    if objects.len() > 0 {
        lemma_unseen_keys(objects.drop_last(), a, b, k);
    }
}

/// Adds the names of `src` that `dst` lacks.
pub fn add_names(dst: &mut Vec<String>, src: &Vec<String>)
    requires
        strings_unique(old(dst)@),
    ensures
        strings_unique(final(dst)@),
        name_set(final(dst)@) == name_set(old(dst)@).union(name_set(src@)),
{
    let ghost start = dst@;
    let mut i: usize = 0;
    while i < src.len()
        invariant
            0 <= i <= src@.len(),
            strings_unique(dst@),
            forall|x: Seq<char>| #[trigger] seq_has(dst@, x) <==> (seq_has(start, x) || exists|r: int| 0 <= r < i && (#[trigger] src@[r])@ == x),
        decreases src@.len() - i,
    {
        let ghost before = dst@;
        push_unique(dst, &src[i]);
        proof {
            assert forall|x: Seq<char>| #[trigger] seq_has(dst@, x) <==> (seq_has(start, x) || exists|r: int| 0 <= r < i + 1 && (#[trigger] src@[r])@ == x) by {
                if exists|r: int| 0 <= r < i + 1 && (#[trigger] src@[r])@ == x {
                    let r = choose|r: int| 0 <= r < i + 1 && (#[trigger] src@[r])@ == x;
                    if r < i {
                        assert(seq_has(before, x));
                    }
                }
                if seq_has(before, x) && !seq_has(start, x) {
                    let r = choose|r: int| 0 <= r < i && (#[trigger] src@[r])@ == x;
                    assert(0 <= r < i + 1);
                }
            }
        }
        i += 1;
    }
    assert forall|x: Seq<char>| name_set(dst@).contains(x) <==> name_set(start).union(name_set(src@)).contains(x) by {
        if seq_has(src@, x) {
            let r = choose|r: int| 0 <= r < src@.len() && (#[trigger] src@[r])@ == x;
        }
        if exists|r: int| 0 <= r < src@.len() && (#[trigger] src@[r])@ == x {
            let r = choose|r: int| 0 <= r < src@.len() && (#[trigger] src@[r])@ == x;
            assert(seq_has(src@, x));
        }
    }
    assert(name_set(dst@) =~= name_set(start).union(name_set(src@)));
}

/// The search from object `id` until it stops: the events and the objects of the case.
fn case_search(
    events: &Vec<ObjectEntry>,
    objects: &Vec<ObjectEntry>,
    dm: &Vec<(String, Vec<String>)>,
    given: &String,
    id: &String,
) -> (out: (Vec<String>, Vec<String>))
    requires
        entry_keys_unique(events@),
        entry_keys_unique(objects@),
        set_keys_unique(dm@),
    ensures
        strings_unique(out.0@),
        strings_unique(out.1@),
        name_set(out.0@) == case_done(events@, objects@, dm@, given@, id@).events,
        name_set(out.1@) == case_done(events@, objects@, dm@, given@, id@).objects,
{
    let mut ev: Vec<String> = Vec::new();
    let mut ob: Vec<String> = Vec::new();
    ob.push(id.clone());
    let mut lo: Vec<String> = Vec::new();
    lo.push(id.clone());
    let mut le: Vec<String> = Vec::new();
    let ghost mut k: nat = 0;
    proof {
        let s0 = case_after(events@, objects@, dm@, given@, id@, 0);
        assert(name_set(ev@) =~= s0.events);
        assert(name_set(ob@) =~= s0.objects) by {
            assert(ob@[0]@ == id@);
        }
        assert(name_set(lo@) =~= s0.last_objects) by {
            assert(lo@[0]@ == id@);
        }
        assert(name_set(le@) =~= s0.last_events);
        assert(strings_unique(ob@));
    }
    while lo.len() > 0 || le.len() > 0
        invariant
            entry_keys_unique(events@),
            entry_keys_unique(objects@),
            set_keys_unique(dm@),
            strings_unique(ev@),
            strings_unique(ob@),
            name_set(ev@) == case_after(events@, objects@, dm@, given@, id@, k).events,
            name_set(ob@) == case_after(events@, objects@, dm@, given@, id@, k).objects,
            name_set(lo@) == case_after(events@, objects@, dm@, given@, id@, k).last_objects,
            name_set(le@) == case_after(events@, objects@, dm@, given@, id@, k).last_events,
        decreases unseen_refs(objects@, name_set(ev@)) + unseen_keys(objects@, name_set(ob@))
            + (if lo@.len() > 0 { 1nat } else { 0nat }) + (if le@.len() > 0 { 1nat } else { 0nat }),
    {
        let ghost s = case_after(events@, objects@, dm@, given@, id@, k);
        let ghost ne_set = case_new_events(objects@, s);
        let ne = gather_events(objects, &lo, &ev);
        assert(name_set(ne@) =~= ne_set);
        let plain = gather_objects(events, objects, dm, given, &ne, &ob, false);
        let div = gather_objects(events, objects, dm, given, &ne, &ob, true);
        assert(name_set(plain@) =~= case_new_objects(events@, objects@, dm@, given@, s, ne_set, false));
        assert(name_set(div@) =~= case_new_objects(events@, objects@, dm@, given@, s, ne_set, true));
        let ghost old_ev = name_set(ev@);
        let ghost old_ob = name_set(ob@);
        add_names(&mut ev, &ne);
        add_names(&mut ob, &plain);
        add_names(&mut ob, &div);
        proof {
            k = k + 1;
            let s2 = case_after(events@, objects@, dm@, given@, id@, k);
            assert(name_set(ev@) =~= s2.events);
            assert(name_set(ob@) =~= s2.objects);
            lemma_unseen_refs(objects@, old_ev, name_set(ev@), 0, 0);
            lemma_unseen_keys(objects@, old_ob, name_set(ob@), 0);
            if ne@.len() > 0 {
                let e = ne@[0]@;
                assert(name_set(ne@).contains(e));
                let o = choose|o: Seq<char>| #[trigger] s.last_objects.contains(o) && linked(objects@, o, e);
                let q = choose|q: int| 0 <= q < objects@.len() && (#[trigger] objects@[q]).0@ == o && seq_has(objects@[q].1.1@, e);
                let m = choose|m: int| 0 <= m < objects@[q].1.1@.len() && (#[trigger] objects@[q].1.1@[m])@ == e;
                lemma_unseen_refs(objects@, old_ev, name_set(ev@), q, m);
            }
            if plain@.len() > 0 {
                let o = plain@[0]@;
                assert(name_set(plain@).contains(o));
                let (e, a, t) = choose|e: Seq<char>, a: Seq<char>, t: Seq<char>|
                    #[trigger] ne_set.contains(e) && #[trigger] labelled(events@, e, a) && linked(events@, e, o)
                    && #[trigger] labelled(objects@, o, t) && t != given@ && in_set_of(dm@, a, t) == false;
                let q = choose|q: int| 0 <= q < objects@.len() && (#[trigger] objects@[q]).0@ == o && objects@[q].1.0@ == t;
                lemma_unseen_keys(objects@, old_ob, name_set(ob@), q);
                assert(name_set(ne@).contains(e));
            }
        }
        lo = plain;
        le = ne;
    }
    proof {
        let s = case_after(events@, objects@, dm@, given@, id@, k);
        assert(name_set(lo@) =~= Set::<Seq<char>>::empty());
        assert(name_set(le@) =~= Set::<Seq<char>>::empty());
        assert(!case_active(s));
        lemma_case_done(events@, objects@, dm@, given@, id@, k);
    }
    (ev, ob)
}

/// The arcs of a case lists each pair once.
pub open spec fn pairs_distinct(v: Seq<(String, String)>) -> bool {
    forall|m1: int, m2: int| 0 <= m1 < v.len() && 0 <= m2 < v.len() && m1 != m2 ==>
        (#[trigger] v[m1]).0@ != (#[trigger] v[m2]).0@ || v[m1].1@ != v[m2].1@
}

/// Adds the pairs `(fixed, y)` (or `(y, fixed)` where `!fixed_first`) for the `y`
/// of `list` that lie in `filter`, each pair once.
fn add_pairs(arches: &mut Vec<(String, String)>, fixed: &String, fixed_first: bool, list: &Vec<String>, filter: &Vec<String>)
    requires
        pairs_distinct(old(arches)@),
    ensures
        pairs_distinct(final(arches)@),
        forall|x: Seq<char>, y: Seq<char>| #[trigger] pair_in(final(arches)@, x, y) <==> (pair_in(old(arches)@, x, y) || (
            if fixed_first { x == fixed@ && seq_has(list@, y) && seq_has(filter@, y) } else { y == fixed@ && seq_has(list@, x) && seq_has(filter@, x) })),
{
    let ghost start = arches@;
    let mut i: usize = 0;
    while i < list.len()
        invariant
            0 <= i <= list@.len(),
            pairs_distinct(arches@),
            forall|x: Seq<char>, y: Seq<char>| #[trigger] pair_in(arches@, x, y) <==> (pair_in(start, x, y) || (
                if fixed_first {
                    x == fixed@ && seq_has(filter@, y) && exists|r: int| 0 <= r < i && (#[trigger] list@[r])@ == y
                } else {
                    y == fixed@ && seq_has(filter@, x) && exists|r: int| 0 <= r < i && (#[trigger] list@[r])@ == x
                })),
        decreases list@.len() - i,
    {
        let z = &list[i];
        let ghost before = arches@;
        if contains_string(filter, z) {
            let (a, b) = if fixed_first { (fixed, z) } else { (z, fixed) };
            if !contains_pair(arches, a, b) {
                arches.push((a.clone(), b.clone()));
                proof {
                    assert forall|m1: int, m2: int| 0 <= m1 < arches@.len() && 0 <= m2 < arches@.len() && m1 != m2 implies
                        (#[trigger] arches@[m1]).0@ != (#[trigger] arches@[m2]).0@ || arches@[m1].1@ != arches@[m2].1@ by {
                        if m1 < before.len() && m2 < before.len() {
                            assert(arches@[m1] == before[m1] && arches@[m2] == before[m2]);
                        } else if m1 < before.len() {
                            assert(arches@[m1] == before[m1]);
                        } else {
                            assert(arches@[m2] == before[m2]);
                        }
                    }
                }
            }
        }
        proof {
            assert forall|x: Seq<char>, y: Seq<char>| #[trigger] pair_in(arches@, x, y) <==> (pair_in(start, x, y) || (
                if fixed_first {
                    x == fixed@ && seq_has(filter@, y) && exists|r: int| 0 <= r < i + 1 && (#[trigger] list@[r])@ == y
                } else {
                    y == fixed@ && seq_has(filter@, x) && exists|r: int| 0 <= r < i + 1 && (#[trigger] list@[r])@ == x
                })) by {
                if pair_in(arches@, x, y) && !pair_in(before, x, y) {
                    let q = choose|q: int| 0 <= q < arches@.len() && (#[trigger] arches@[q]).0@ == x && arches@[q].1@ == y;
                    if q < before.len() {
                        assert(arches@[q] == before[q]);
                    }
                }
                if pair_in(before, x, y) {
                    let q = choose|q: int| 0 <= q < before.len() && (#[trigger] before[q]).0@ == x && before[q].1@ == y;
                    assert(arches@[q] == before[q]);
                    if !pair_in(start, x, y) {
                        if fixed_first {
                            let r = choose|r: int| 0 <= r < i && (#[trigger] list@[r])@ == y;
                            assert(0 <= r < i + 1);
                        } else {
                            let r = choose|r: int| 0 <= r < i && (#[trigger] list@[r])@ == x;
                            assert(0 <= r < i + 1);
                        }
                    }
                }
                if fixed_first && x == fixed@ && seq_has(filter@, y) && exists|r: int| 0 <= r < i + 1 && (#[trigger] list@[r])@ == y {
                    let r = choose|r: int| 0 <= r < i + 1 && (#[trigger] list@[r])@ == y;
                    if r < i {
                        assert(pair_in(before, x, y));
                    } else if !pair_in(before, x, y) {
                        assert(arches@[before.len() as int].0@ == x);
                    }
                }
                if !fixed_first && y == fixed@ && seq_has(filter@, x) && exists|r: int| 0 <= r < i + 1 && (#[trigger] list@[r])@ == x {
                    let r = choose|r: int| 0 <= r < i + 1 && (#[trigger] list@[r])@ == x;
                    if r < i {
                        assert(pair_in(before, x, y));
                    } else if !pair_in(before, x, y) {
                        assert(arches@[before.len() as int].0@ == x);
                    }
                }
            }
        }
        i += 1;
    }
    proof {
        assert forall|x: Seq<char>, y: Seq<char>| #[trigger] pair_in(arches@, x, y) <==> (pair_in(start, x, y) || (
            if fixed_first { x == fixed@ && seq_has(list@, y) && seq_has(filter@, y) } else { y == fixed@ && seq_has(list@, x) && seq_has(filter@, x) })) by {
            if fixed_first && seq_has(list@, y) {
                let r = choose|r: int| 0 <= r < list@.len() && (#[trigger] list@[r])@ == y;
            }
            if !fixed_first && seq_has(list@, x) {
                let r = choose|r: int| 0 <= r < list@.len() && (#[trigger] list@[r])@ == x;
            }
        }
    }
}

/// The arcs `(e, o)` between the events `ep` and the objects `op` of a case that
/// the event's or the object's entry lists.
pub fn case_arcs(events: &Vec<ObjectEntry>, objects: &Vec<ObjectEntry>, ep: &Vec<String>, op: &Vec<String>) -> (r: Vec<(String, String)>)
    requires
        entry_keys_unique(events@),
        entry_keys_unique(objects@),
    ensures
        pairs_distinct(r@),
        forall|e: Seq<char>, o: Seq<char>| #[trigger] pair_in(r@, e, o) <==> (seq_has(ep@, e) && seq_has(op@, o)
            && (linked(events@, e, o) || linked(objects@, o, e))),
{
    let mut arches: Vec<(String, String)> = Vec::new();
    let mut i: usize = 0;
    while i < ep.len()
        invariant
            0 <= i <= ep@.len(),
            entry_keys_unique(events@),
            pairs_distinct(arches@),
            forall|e: Seq<char>, o: Seq<char>| #[trigger] pair_in(arches@, e, o) <==> (seq_has(op@, o) && linked(events@, e, o)
                && exists|r: int| 0 <= r < i && (#[trigger] ep@[r])@ == e),
        decreases ep@.len() - i,
    {
        let e = &ep[i];
        let ghost before = arches@;
        match find_entry(events, e) {
            Some(q) => {
                add_pairs(&mut arches, e, true, &events[q].1.1, op);
                proof {
                    assert forall|x: Seq<char>, o: Seq<char>| #[trigger] pair_in(arches@, x, o) <==> (seq_has(op@, o) && linked(events@, x, o)
                        && exists|r: int| 0 <= r < i + 1 && (#[trigger] ep@[r])@ == x) by {
                        if linked(events@, x, o) && x == e@ {
                            let q2 = choose|q2: int| 0 <= q2 < events@.len() && (#[trigger] events@[q2]).0@ == x && seq_has(events@[q2].1.1@, o);
                            assert(q2 == q);
                        }
                        if exists|r: int| 0 <= r < i + 1 && (#[trigger] ep@[r])@ == x {
                            let r = choose|r: int| 0 <= r < i + 1 && (#[trigger] ep@[r])@ == x;
                            if r < i {
                                assert(exists|r2: int| 0 <= r2 < i && (#[trigger] ep@[r2])@ == x);
                            }
                        }
                        if pair_in(before, x, o) {
                            let r = choose|r: int| 0 <= r < i && (#[trigger] ep@[r])@ == x;
                            assert(0 <= r < i + 1);
                        }
                    }
                }
            },
            None => {
                proof {
                    assert forall|x: Seq<char>, o: Seq<char>| #[trigger] pair_in(arches@, x, o) <==> (seq_has(op@, o) && linked(events@, x, o)
                        && exists|r: int| 0 <= r < i + 1 && (#[trigger] ep@[r])@ == x) by {
                        if exists|r: int| 0 <= r < i + 1 && (#[trigger] ep@[r])@ == x {
                            let r = choose|r: int| 0 <= r < i + 1 && (#[trigger] ep@[r])@ == x;
                            if r < i {
                                assert(exists|r2: int| 0 <= r2 < i && (#[trigger] ep@[r2])@ == x);
                            } else if linked(events@, x, o) {
                                let q2 = choose|q2: int| 0 <= q2 < events@.len() && (#[trigger] events@[q2]).0@ == x && seq_has(events@[q2].1.1@, o);
                            }
                        }
                        if pair_in(before, x, o) {
                            let r = choose|r: int| 0 <= r < i && (#[trigger] ep@[r])@ == x;
                            assert(0 <= r < i + 1);
                        }
                    }
                }
            },
        }
        i += 1;
    }
    let ghost first = arches@;
    let mut j: usize = 0;
    while j < op.len()
        invariant
            0 <= j <= op@.len(),
            entry_keys_unique(objects@),
            pairs_distinct(arches@),
            forall|e: Seq<char>, o: Seq<char>| #[trigger] pair_in(arches@, e, o) <==> (pair_in(first, e, o) || (seq_has(ep@, e) && linked(objects@, o, e)
                && exists|r: int| 0 <= r < j && (#[trigger] op@[r])@ == o)),
        decreases op@.len() - j,
    {
        let o = &op[j];
        let ghost before = arches@;
        match find_entry(objects, o) {
            Some(q) => {
                add_pairs(&mut arches, o, false, &objects[q].1.1, ep);
                proof {
                    assert forall|e: Seq<char>, x: Seq<char>| #[trigger] pair_in(arches@, e, x) <==> (pair_in(first, e, x) || (seq_has(ep@, e) && linked(objects@, x, e)
                        && exists|r: int| 0 <= r < j + 1 && (#[trigger] op@[r])@ == x)) by {
                        if linked(objects@, x, e) && x == o@ {
                            let q2 = choose|q2: int| 0 <= q2 < objects@.len() && (#[trigger] objects@[q2]).0@ == x && seq_has(objects@[q2].1.1@, e);
                            assert(q2 == q);
                        }
                        if exists|r: int| 0 <= r < j + 1 && (#[trigger] op@[r])@ == x {
                            let r = choose|r: int| 0 <= r < j + 1 && (#[trigger] op@[r])@ == x;
                            if r < j {
                                assert(exists|r2: int| 0 <= r2 < j && (#[trigger] op@[r2])@ == x);
                            }
                        }
                        if pair_in(before, e, x) && !pair_in(first, e, x) {
                            let r = choose|r: int| 0 <= r < j && (#[trigger] op@[r])@ == x;
                            assert(0 <= r < j + 1);
                        }
                    }
                }
            },
            None => {
                proof {
                    assert forall|e: Seq<char>, x: Seq<char>| #[trigger] pair_in(arches@, e, x) <==> (pair_in(first, e, x) || (seq_has(ep@, e) && linked(objects@, x, e)
                        && exists|r: int| 0 <= r < j + 1 && (#[trigger] op@[r])@ == x)) by {
                        if exists|r: int| 0 <= r < j + 1 && (#[trigger] op@[r])@ == x {
                            let r = choose|r: int| 0 <= r < j + 1 && (#[trigger] op@[r])@ == x;
                            if r < j {
                                assert(exists|r2: int| 0 <= r2 < j && (#[trigger] op@[r2])@ == x);
                            } else if linked(objects@, x, e) {
                                let q2 = choose|q2: int| 0 <= q2 < objects@.len() && (#[trigger] objects@[q2]).0@ == x && seq_has(objects@[q2].1.1@, e);
                            }
                        }
                        if pair_in(before, e, x) && !pair_in(first, e, x) {
                            let r = choose|r: int| 0 <= r < j && (#[trigger] op@[r])@ == x;
                            assert(0 <= r < j + 1);
                        }
                    }
                }
            },
        }
        j += 1;
    }
    proof {
        assert forall|e: Seq<char>, o: Seq<char>| #[trigger] pair_in(arches@, e, o) <==> (seq_has(ep@, e) && seq_has(op@, o)
            && (linked(events@, e, o) || linked(objects@, o, e))) by {
            if seq_has(ep@, e) {
                let r = choose|r: int| 0 <= r < ep@.len() && (#[trigger] ep@[r])@ == e;
            }
            if seq_has(op@, o) {
                let r = choose|r: int| 0 <= r < op@.len() && (#[trigger] op@[r])@ == o;
            }
            if pair_in(first, e, o) {
                let r = choose|r: int| 0 <= r < ep@.len() && (#[trigger] ep@[r])@ == e;
                assert(seq_has(ep@, e));
            }
            if exists|r: int| 0 <= r < op@.len() && (#[trigger] op@[r])@ == o {
                let r = choose|r: int| 0 <= r < op@.len() && (#[trigger] op@[r])@ == o;
                assert(seq_has(op@, o));
            }
        }
    }
    arches
}

/// `c` is the case that the search from object `id` yields: its events, its
/// objects (each once) and the arcs between them that an entry lists, each once.
pub open spec fn advanced_case(
    events: Seq<ObjectEntry>,
    objects: Seq<ObjectEntry>,
    dm: Seq<(String, Vec<String>)>,
    given: Seq<char>,
    id: Seq<char>,
    c: (Vec<String>, Vec<String>, Vec<(String, String)>),
) -> bool {
    let s = case_done(events, objects, dm, given, id);
    &&& strings_unique(c.0@) && name_set(c.0@) == s.events
    &&& strings_unique(c.1@) && name_set(c.1@) == s.objects
    &&& pairs_distinct(c.2@)
    &&& forall|e: Seq<char>, o: Seq<char>| #[trigger] pair_in(c.2@, e, o) <==> (s.events.contains(e) && s.objects.contains(o)
        && (linked(events, e, o) || linked(objects, o, e)))
}

/// The advanced case notion: for each object of type `given_object_type`, in the
/// order of the objects, the case of the search from it (see `case_done`).
pub fn advanced_case_notion_for_ot(
    events: &Vec<ObjectEntry>,
    objects: &Vec<ObjectEntry>,
    given_object_type: String,
    divergence_map: &Vec<(String, Vec<String>)>,
) -> (r: Vec<(Vec<String>, Vec<String>, Vec<(String, String)>)>)
    requires
        entry_keys_unique(events@),
        entry_keys_unique(objects@),
        set_keys_unique(divergence_map@),
    ensures
        r@.len() == objects@.filter(of_object_type(given_object_type@)).len(),
        forall|k: int| 0 <= k < r@.len() ==> #[trigger] advanced_case(events@, objects@, divergence_map@, given_object_type@,
            objects@.filter(of_object_type(given_object_type@))[k].0@, r@[k]),
{
    let ghost p = of_object_type(given_object_type@);
    let mut out: Vec<(Vec<String>, Vec<String>, Vec<(String, String)>)> = Vec::new();
    let mut i: usize = 0;
    while i < objects.len()
        invariant
            0 <= i <= objects@.len(),
            entry_keys_unique(events@),
            entry_keys_unique(objects@),
            set_keys_unique(divergence_map@),
            p == of_object_type(given_object_type@),
            out@.len() == objects@.take(i as int).filter(p).len(),
            forall|k: int| 0 <= k < out@.len() ==> #[trigger] advanced_case(events@, objects@, divergence_map@, given_object_type@,
                objects@.take(i as int).filter(p)[k].0@, out@[k]),
        decreases objects@.len() - i,
    {
        proof {
            crate::case_notion::log_graphs::lemma_filter_step(objects@, i as int, p);
        }
        let o = &objects[i];
        if o.1.0 == given_object_type {
            let (ep, op) = case_search(events, objects, divergence_map, &given_object_type, &o.0);
            let arches = case_arcs(events, objects, &ep, &op);
            let ghost s = case_done(events@, objects@, divergence_map@, given_object_type@, o.0@);
            proof {
                assert forall|e: Seq<char>, x: Seq<char>| #[trigger] pair_in(arches@, e, x) <==> (s.events.contains(e) && s.objects.contains(x)
                    && (linked(events@, e, x) || linked(objects@, x, e))) by {
                    assert(name_set(ep@).contains(e) == seq_has(ep@, e));
                    assert(name_set(op@).contains(x) == seq_has(op@, x));
                }
            }
            out.push((ep, op, arches));
        }
        i += 1;
    }
    assert(objects@.take(objects@.len() as int) =~= objects@);
    out
}

/// The advanced case notion on a type-level graph only moves nodes and arcs
/// between the sections: every node and arc of the graph ends up in exactly one
/// of them.
pub proof fn lemma_advanced_type_level_partitions(g: TypeGraph, start: Seq<char>, dm: Seq<(String, Vec<String>)>)
    ensures
        sections_partition(g, advanced_type_graph(g, start, dm)),
{
    let es = g.event_types + g.deselected_event_types;
    let os = g.object_types + g.deselected_object_types;
    let arcs = g.arcs + g.deselected_arcs;
    if os.contains(start) {
        let s = reach_done(arcs, dm, start);
        lemma_filter_split_len(es, member_of(s.events), outside_of(s.events));
        lemma_filter_split_len(os, member_of(s.plain), outside_of(s.plain));
        lemma_filter_split_len(arcs, arc_within(s.events, s.plain), arc_outside(s.events, s.plain));
    }
}

} // verus!
