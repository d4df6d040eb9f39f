//! The connected-components case notion: the event and object nodes are split
//! into cases, each grown from a first remaining node along the relations of the
//! nodes not yet taken by an earlier case.
use vstd::prelude::*;
use crate::case_notion::advanced::{
    add_names, case_arcs, entry_keys_unique, gather_events, linked, name_set, pairs_distinct, unseen_refs,
    lemma_unseen_refs,
};
use crate::case_notion::traditional::ObjectEntry;
use crate::ocim::model::{contains_string, pair_in, seq_has, strings_unique};

verus! {

/// The event and object nodes of a case.
#[verifier::ext_equal]
pub ghost struct Comp {
    pub ev: Set<Seq<char>>,
    pub ob: Set<Seq<char>>,
}

/// One round of growth: the events of the case's objects that are not taken
/// (`ro`), then the objects of the case's events that are not taken (`re`).
pub open spec fn grow(events: Seq<ObjectEntry>, objects: Seq<ObjectEntry>, re: Set<Seq<char>>, ro: Set<Seq<char>>, c: Comp) -> Comp {
    let ev2 = c.ev.union(Set::new(|e: Seq<char>| exists|o: Seq<char>| #[trigger] c.ob.contains(o) && !ro.contains(o) && linked(objects, o, e)));
    let ob2 = c.ob.union(Set::new(|o: Seq<char>| exists|e: Seq<char>| #[trigger] ev2.contains(e) && !re.contains(e) && linked(events, e, o)));
    Comp { ev: ev2, ob: ob2 }
}

pub open spec fn grow_after(events: Seq<ObjectEntry>, objects: Seq<ObjectEntry>, re: Set<Seq<char>>, ro: Set<Seq<char>>, seed: Comp, k: nat) -> Comp
    decreases k,
{
    if k == 0 {
        seed
    } else {
        grow(events, objects, re, ro, grow_after(events, objects, re, ro, seed, (k - 1) as nat))
    }
}

/// The case grown from `seed` until a round adds nothing.
pub open spec fn grown(events: Seq<ObjectEntry>, objects: Seq<ObjectEntry>, re: Set<Seq<char>>, ro: Set<Seq<char>>, seed: Comp) -> Comp {
    grow_after(events, objects, re, ro, seed, choose|k: nat| #[trigger] grow(events, objects, re, ro, grow_after(events, objects, re, ro, seed, k))
        == grow_after(events, objects, re, ro, seed, k))
}

proof fn lemma_grow_stable(events: Seq<ObjectEntry>, objects: Seq<ObjectEntry>, re: Set<Seq<char>>, ro: Set<Seq<char>>, seed: Comp, k: nat, m: nat)
    requires
        grow(events, objects, re, ro, grow_after(events, objects, re, ro, seed, k)) == grow_after(events, objects, re, ro, seed, k),
        k <= m,
    ensures
        grow_after(events, objects, re, ro, seed, m) == grow_after(events, objects, re, ro, seed, k),
    decreases m - k,
{
    if k < m {
        lemma_grow_stable(events, objects, re, ro, seed, k, (m - 1) as nat);
    }
}

proof fn lemma_grown(events: Seq<ObjectEntry>, objects: Seq<ObjectEntry>, re: Set<Seq<char>>, ro: Set<Seq<char>>, seed: Comp, k: nat)
    requires
        grow(events, objects, re, ro, grow_after(events, objects, re, ro, seed, k)) == grow_after(events, objects, re, ro, seed, k),
    ensures
        grown(events, objects, re, ro, seed) == grow_after(events, objects, re, ro, seed, k),
{
    let c = choose|c: nat| #[trigger] grow(events, objects, re, ro, grow_after(events, objects, re, ro, seed, c))
        == grow_after(events, objects, re, ro, seed, c);
    if c <= k {
        lemma_grow_stable(events, objects, re, ro, seed, c, k);
    } else {
        lemma_grow_stable(events, objects, re, ro, seed, k, c);
    }
}

/// Position `k` holds the first entry of `m` whose key is not taken.
pub open spec fn first_free(m: Seq<ObjectEntry>, taken: Set<Seq<char>>, k: int) -> bool {
    0 <= k < m.len() && !taken.contains(m[k].0@) && forall|j: int| 0 <= j < k ==> taken.contains((#[trigger] m[j]).0@)
}

/// Some entry of `m` has a key that is not taken.
pub open spec fn has_free(m: Seq<ObjectEntry>, taken: Set<Seq<char>>) -> bool {
    exists|k: int| 0 <= k < m.len() && !taken.contains((#[trigger] m[k]).0@)
}

/// The seed of the next case: the first event not taken, else the first object
/// not taken.
pub open spec fn next_seed(events: Seq<ObjectEntry>, objects: Seq<ObjectEntry>, re: Set<Seq<char>>, ro: Set<Seq<char>>) -> Comp {
    if has_free(events, re) {
        Comp { ev: set![events[choose|k: int| first_free(events, re, k)].0@], ob: Set::empty() }
    } else {
        Comp { ev: Set::empty(), ob: set![objects[choose|k: int| first_free(objects, ro, k)].0@] }
    }
}

/// The cases, in the order in which they are grown, with `f` as an upper bound
/// on their number.
pub open spec fn cases_from(events: Seq<ObjectEntry>, objects: Seq<ObjectEntry>, re: Set<Seq<char>>, ro: Set<Seq<char>>, f: nat) -> Seq<Comp>
    decreases f,
{
    if f == 0 || (!has_free(events, re) && !has_free(objects, ro)) {
        Seq::empty()
    } else {
        let c = grown(events, objects, re, ro, next_seed(events, objects, re, ro));
        seq![c] + cases_from(events, objects, re.union(c.ev), ro.union(c.ob), (f - 1) as nat)
    }
}

/// All cases of the log: at most one per entry.
pub open spec fn all_cases(events: Seq<ObjectEntry>, objects: Seq<ObjectEntry>) -> Seq<Comp> {
    cases_from(events, objects, Set::empty(), Set::empty(), (events.len() + objects.len()) as nat)
}

/// The entries whose key is not taken.
pub open spec fn free_count(m: Seq<ObjectEntry>, taken: Set<Seq<char>>) -> nat
    decreases m.len(),
{
    if m.len() == 0 {
        0
    } else {
        free_count(m.drop_last(), taken) + if taken.contains(m.last().0@) { 0nat } else { 1nat }
    }
}

proof fn lemma_free_count(m: Seq<ObjectEntry>, a: Set<Seq<char>>, b: Set<Seq<char>>, k: int)
    requires
        a.subset_of(b),
    ensures
        free_count(m, b) <= free_count(m, a),
        free_count(m, a) <= m.len(),
        0 <= k < m.len() && !a.contains(m[k].0@) && b.contains(m[k].0@) ==> free_count(m, b) < free_count(m, a),
    decreases m.len(),
{
    if m.len() > 0 {
        lemma_free_count(m.drop_last(), a, b, k);
    }
}

/// The names of `v` not in `removed`.
fn names_without(v: &Vec<String>, removed: &Vec<String>) -> (r: Vec<String>)
    ensures
        name_set(r@) == name_set(v@).difference(name_set(removed@)),
{
    let mut out: Vec<String> = Vec::new();
    let mut i: usize = 0;
    while i < v.len()
        invariant
            0 <= i <= v@.len(),
            forall|x: Seq<char>| #[trigger] seq_has(out@, x) <==> (!seq_has(removed@, x) && exists|r: int| 0 <= r < i && (#[trigger] v@[r])@ == x),
        decreases v@.len() - i,
    {
        let ghost before = out@;
        if !contains_string(removed, &v[i]) {
            out.push(v[i].clone());
        }
        proof {
            assert forall|x: Seq<char>| #[trigger] seq_has(out@, x) <==> (!seq_has(removed@, x) && exists|r: int| 0 <= r < i + 1 && (#[trigger] v@[r])@ == x) by {
                if seq_has(out@, x) {
                    let q = choose|q: int| 0 <= q < out@.len() && (#[trigger] out@[q])@ == x;
                    if q < before.len() {
                        assert(before[q] == out@[q]);
                        assert(seq_has(before, x));
                        let r = choose|r: int| 0 <= r < i && (#[trigger] v@[r])@ == x;
                        assert(0 <= r < i + 1);
                    } else {
                        assert(v@[i as int]@ == x);
                    }
                }
                if !seq_has(removed@, x) && exists|r: int| 0 <= r < i + 1 && (#[trigger] v@[r])@ == x {
                    let r = choose|r: int| 0 <= r < i + 1 && (#[trigger] v@[r])@ == x;
                    if r < i {
                        assert(seq_has(before, x));
                        let q = choose|q: int| 0 <= q < before.len() && (#[trigger] before[q])@ == x;
                        assert(out@[q] == before[q]);
                    } else {
                        assert(out@[before.len() as int]@ == x);
                    }
                }
            }
        }
        i += 1;
    }
    assert forall|x: Seq<char>| name_set(out@).contains(x) <==> name_set(v@).difference(name_set(removed@)).contains(x) by {
        if seq_has(v@, x) {
            let r = choose|r: int| 0 <= r < v@.len() && (#[trigger] v@[r])@ == x;
        }
        if exists|r: int| 0 <= r < v@.len() && (#[trigger] v@[r])@ == x {
            let r = choose|r: int| 0 <= r < v@.len() && (#[trigger] v@[r])@ == x;
            assert(seq_has(v@, x));
        }
    }
    assert(name_set(out@) =~= name_set(v@).difference(name_set(removed@)));
    out
}

/// Grows the case `(ev, ob)` until a round adds nothing.
fn grow_case(
    events: &Vec<ObjectEntry>,
    objects: &Vec<ObjectEntry>,
    re: &Vec<String>,
    ro: &Vec<String>,
    ev: Vec<String>,
    ob: Vec<String>,
) -> (out: (Vec<String>, Vec<String>))
    requires
        strings_unique(ev@),
        strings_unique(ob@),
    ensures
        strings_unique(out.0@),
        strings_unique(out.1@),
        name_set(out.0@) == grown(events@, objects@, name_set(re@), name_set(ro@), Comp { ev: name_set(ev@), ob: name_set(ob@) }).ev,
        name_set(out.1@) == grown(events@, objects@, name_set(re@), name_set(ro@), Comp { ev: name_set(ev@), ob: name_set(ob@) }).ob,
        name_set(ev@).subset_of(name_set(out.0@)),
        name_set(ob@).subset_of(name_set(out.1@)),
{
    let ghost seed = Comp { ev: name_set(ev@), ob: name_set(ob@) };
    let ghost tre = name_set(re@);
    let ghost tro = name_set(ro@);
    let mut ev = ev;
    let mut ob = ob;
    let mut growing = true;
    let ghost mut k: nat = 0;
    while growing
        invariant
            strings_unique(ev@),
            strings_unique(ob@),
            tre == name_set(re@),
            tro == name_set(ro@),
            seed.ev.subset_of(name_set(ev@)),
            seed.ob.subset_of(name_set(ob@)),
            name_set(ev@) == grow_after(events@, objects@, tre, tro, seed, k).ev,
            name_set(ob@) == grow_after(events@, objects@, tre, tro, seed, k).ob,
            !growing ==> grow(events@, objects@, tre, tro, grow_after(events@, objects@, tre, tro, seed, k))
                == grow_after(events@, objects@, tre, tro, seed, k),
        decreases unseen_refs(objects@, name_set(ev@)) + unseen_refs(events@, name_set(ob@)) + if growing { 1nat } else { 0nat },
    {
        let ghost c = grow_after(events@, objects@, tre, tro, seed, k);
        let ghost old_ev = name_set(ev@);
        let ghost old_ob = name_set(ob@);
        let active_objects = names_without(&ob, ro);
        let new_events = gather_events(objects, &active_objects, &ev);
        add_names(&mut ev, &new_events);
        let ghost g = grow(events@, objects@, tre, tro, c);
        assert(name_set(ev@) =~= g.ev) by {
            assert forall|x: Seq<char>| name_set(ev@).contains(x) <==> g.ev.contains(x) by {
                if g.ev.contains(x) && !old_ev.contains(x) {
                    let o = choose|o: Seq<char>| #[trigger] c.ob.contains(o) && !tro.contains(o) && linked(objects@, o, x);
                    assert(name_set(active_objects@).contains(o));
                    assert(seq_has(new_events@, x));
                }
                if seq_has(new_events@, x) {
                    let o = choose|o: Seq<char>| #[trigger] name_set(active_objects@).contains(o) && linked(objects@, o, x);
                    assert(c.ob.contains(o) && !tro.contains(o));
                }
            }
        }
        let active_events = names_without(&ev, re);
        let new_objects = gather_events(events, &active_events, &ob);
        add_names(&mut ob, &new_objects);
        assert(name_set(ob@) =~= g.ob) by {
            assert forall|x: Seq<char>| name_set(ob@).contains(x) <==> g.ob.contains(x) by {
                if g.ob.contains(x) && !old_ob.contains(x) {
                    let e = choose|e: Seq<char>| #[trigger] g.ev.contains(e) && !tre.contains(e) && linked(events@, e, x);
                    assert(name_set(active_events@).contains(e));
                    assert(seq_has(new_objects@, x));
                }
                if seq_has(new_objects@, x) {
                    let e = choose|e: Seq<char>| #[trigger] name_set(active_events@).contains(e) && linked(events@, e, x);
                    assert(g.ev.contains(e) && !tre.contains(e));
                }
            }
        }
        proof {
            k = k + 1;
            lemma_unseen_refs(objects@, old_ev, name_set(ev@), 0, 0);
            lemma_unseen_refs(events@, old_ob, name_set(ob@), 0, 0);
            if new_events@.len() > 0 {
                let e = new_events@[0]@;
                assert(seq_has(new_events@, e));
                let o = choose|o: Seq<char>| #[trigger] name_set(active_objects@).contains(o) && linked(objects@, o, e);
                let q = choose|q: int| 0 <= q < objects@.len() && (#[trigger] objects@[q]).0@ == o && seq_has(objects@[q].1.1@, e);
                let m = choose|m: int| 0 <= m < objects@[q].1.1@.len() && (#[trigger] objects@[q].1.1@[m])@ == e;
                lemma_unseen_refs(objects@, old_ev, name_set(ev@), q, m);
            }
            if new_objects@.len() > 0 {
                let o = new_objects@[0]@;
                assert(seq_has(new_objects@, o));
                let e = choose|e: Seq<char>| #[trigger] name_set(active_events@).contains(e) && linked(events@, e, o);
                let q = choose|q: int| 0 <= q < events@.len() && (#[trigger] events@[q]).0@ == e && seq_has(events@[q].1.1@, o);
                let m = choose|m: int| 0 <= m < events@[q].1.1@.len() && (#[trigger] events@[q].1.1@[m])@ == o;
                lemma_unseen_refs(events@, old_ob, name_set(ob@), q, m);
            }
        }
        if new_events.len() == 0 && new_objects.len() == 0 {
            growing = false;
            proof {
                assert(g.ev =~= c.ev) by {
                    assert forall|x: Seq<char>| g.ev.contains(x) implies c.ev.contains(x) by {
                        if !c.ev.contains(x) {
                            assert(seq_has(new_events@, x));
                        }
                    }
                }
                assert(g.ob =~= c.ob) by {
                    assert forall|x: Seq<char>| g.ob.contains(x) implies c.ob.contains(x) by {
                        if !c.ob.contains(x) {
                            assert(seq_has(new_objects@, x));
                        }
                    }
                }
                assert(g =~= c);
            }
        }
    }
    proof {
        lemma_grown(events@, objects@, tre, tro, seed, k);
    }
    (ev, ob)
}

/// The first position of `m` whose key is not in `taken`, if any.
fn first_free_entry(m: &Vec<ObjectEntry>, taken: &Vec<String>) -> (r: Option<usize>)
    ensures
        r matches Some(k) ==> first_free(m@, name_set(taken@), k as int),
        r is None ==> !has_free(m@, name_set(taken@)),
{
    let mut k: usize = 0;
    while k < m.len()
        invariant
            0 <= k <= m@.len(),
            forall|j: int| 0 <= j < k ==> name_set(taken@).contains((#[trigger] m@[j]).0@),
        decreases m@.len() - k,
    {
        if !contains_string(taken, &m[k].0) {
            return Some(k);
        }
        assert(name_set(taken@).contains(m@[k as int].0@));
        k += 1;
    }
    None
}

proof fn lemma_first_free_unique(m: Seq<ObjectEntry>, taken: Set<Seq<char>>, k: int)
    requires
        first_free(m, taken, k),
    ensures
        (choose|c: int| first_free(m, taken, c)) == k,
{
    let c = choose|c: int| first_free(m, taken, c);
    assert(first_free(m, taken, c));
    if c < k {
        assert(taken.contains(m[c].0@));
    } else if k < c {
        assert(taken.contains(m[k].0@));
    }
}

/// The case `c` as lists: its events and objects (each once) and the arcs between
/// them that an entry lists, each once.
pub open spec fn case_lists(events: Seq<ObjectEntry>, objects: Seq<ObjectEntry>, c: Comp, out: (Vec<String>, Vec<String>, Vec<(String, String)>)) -> bool {
    &&& strings_unique(out.0@) && name_set(out.0@) == c.ev
    &&& strings_unique(out.1@) && name_set(out.1@) == c.ob
    &&& pairs_distinct(out.2@)
    &&& forall|e: Seq<char>, o: Seq<char>| #[trigger] pair_in(out.2@, e, o) <==> (c.ev.contains(e) && c.ob.contains(o)
        && (linked(events, e, o) || linked(objects, o, e)))
}

/// The connected-components case notion: cases grown in turn from the first
/// event (else object) that no earlier case took (see `all_cases`).
pub fn connected_components_notion(events: &Vec<ObjectEntry>, objects: &Vec<ObjectEntry>) -> (r: Vec<(Vec<String>, Vec<String>, Vec<(String, String)>)>)
    requires
        entry_keys_unique(events@),
        entry_keys_unique(objects@),
    ensures
        r@.len() == all_cases(events@, objects@).len(),
        forall|k: int| 0 <= k < r@.len() ==> #[trigger] case_lists(events@, objects@, all_cases(events@, objects@)[k], r@[k]),
{
    let mut out: Vec<(Vec<String>, Vec<String>, Vec<(String, String)>)> = Vec::new();
    let mut taken_events: Vec<String> = Vec::new();
    let mut taken_objects: Vec<String> = Vec::new();
    let ghost mut f: nat = (events@.len() + objects@.len()) as nat;
    let ghost mut done: Seq<Comp> = Seq::empty();
    let ghost total = all_cases(events@, objects@);
    proof {
        lemma_free_count(events@, Set::empty(), Set::empty(), 0);
        lemma_free_count(objects@, Set::empty(), Set::empty(), 0);
        assert(name_set(taken_events@) =~= Set::<Seq<char>>::empty());
        assert(name_set(taken_objects@) =~= Set::<Seq<char>>::empty());
        assert(done + cases_from(events@, objects@, Set::empty(), Set::empty(), f) =~= total);
    }
    let mut more = true;
    while more
        invariant
            entry_keys_unique(events@),
            entry_keys_unique(objects@),
            strings_unique(taken_events@),
            strings_unique(taken_objects@),
            total == all_cases(events@, objects@),
            done + cases_from(events@, objects@, name_set(taken_events@), name_set(taken_objects@), f) == total,
            free_count(events@, name_set(taken_events@)) + free_count(objects@, name_set(taken_objects@)) <= f,
            !more ==> cases_from(events@, objects@, name_set(taken_events@), name_set(taken_objects@), f) == Seq::<Comp>::empty(),
            out@.len() == done.len(),
            forall|k: int| 0 <= k < out@.len() ==> #[trigger] case_lists(events@, objects@, done[k], out@[k]),
        decreases f + if more { 1nat } else { 0nat },
    {
        let ghost re = name_set(taken_events@);
        let ghost ro = name_set(taken_objects@);
        let mut ev: Vec<String> = Vec::new();
        let mut ob: Vec<String> = Vec::new();
        let ghost mut seed_index: int = 0;
        let ghost mut seed_is_event = true;
        match first_free_entry(events, &taken_events) {
            Some(k) => {
                ev.push(events[k].0.clone());
                proof {
                    lemma_first_free_unique(events@, re, k as int);
                    seed_index = k as int;
                    assert(has_free(events@, re));
                }
            },
            None => match first_free_entry(objects, &taken_objects) {
                Some(k) => {
                    ob.push(objects[k].0.clone());
                    proof {
                        lemma_first_free_unique(objects@, ro, k as int);
                        seed_index = k as int;
                        seed_is_event = false;
                        assert(has_free(objects@, ro));
                    }
                },
                None => {
                    more = false;
                },
            },
        }
        if more {
            let ghost seed = next_seed(events@, objects@, re, ro);
            proof {
                if seed_is_event {
                    assert(name_set(ev@) =~= seed.ev) by {
                        assert(ev@[0]@ == events@[seed_index].0@);
                    }
                    assert(name_set(ob@) =~= seed.ob);
                } else {
                    assert(name_set(ev@) =~= seed.ev);
                    assert(name_set(ob@) =~= seed.ob) by {
                        assert(ob@[0]@ == objects@[seed_index].0@);
                    }
                }
                // the seed is free, so there is room for a case
                if seed_is_event {
                    lemma_free_count(events@, re, re.insert(events@[seed_index].0@), seed_index);
                } else {
                    lemma_free_count(objects@, ro, ro.insert(objects@[seed_index].0@), seed_index);
                }
                lemma_free_count(events@, re, re, 0);
                lemma_free_count(objects@, ro, ro, 0);
            }
            let (cev, cob) = grow_case(events, objects, &taken_events, &taken_objects, ev, ob);
            let ghost c = grown(events@, objects@, re, ro, seed);
            let arches = case_arcs(events, objects, &cev, &cob);
            proof {
                assert forall|e: Seq<char>, o: Seq<char>| #[trigger] pair_in(arches@, e, o) <==> (c.ev.contains(e) && c.ob.contains(o)
                    && (linked(events@, e, o) || linked(objects@, o, e))) by {
                    assert(name_set(cev@).contains(e) == seq_has(cev@, e));
                    assert(name_set(cob@).contains(o) == seq_has(cob@, o));
                }
            }
            add_names(&mut taken_events, &cev);
            add_names(&mut taken_objects, &cob);
            out.push((cev, cob, arches));
            proof {
                assert(name_set(taken_events@) == re.union(c.ev));
                assert(name_set(taken_objects@) == ro.union(c.ob));
                assert(cases_from(events@, objects@, re, ro, f) == seq![c] + cases_from(events@, objects@, re.union(c.ev), ro.union(c.ob), (f - 1) as nat));
                assert(done.push(c) + cases_from(events@, objects@, re.union(c.ev), ro.union(c.ob), (f - 1) as nat) =~= total);
                if seed_is_event {
                    lemma_free_count(events@, re, re.union(c.ev), seed_index);
                    lemma_free_count(objects@, ro, ro.union(c.ob), 0);
                } else {
                    lemma_free_count(objects@, ro, ro.union(c.ob), seed_index);
                    lemma_free_count(events@, re, re.union(c.ev), 0);
                }
                assert forall|k: int| 0 <= k < out@.len() implies #[trigger] case_lists(events@, objects@, done.push(c)[k], out@[k]) by {
                    if k < done.len() {
                        assert(done.push(c)[k] == done[k]);
                    }
                }
                done = done.push(c);
                f = (f - 1) as nat;
            }
        } else {
            proof {
                assert(cases_from(events@, objects@, re, ro, f) =~= Seq::<Comp>::empty());
            }
        }
    }
    proof {
        assert(done =~= total);
    }
    out
}

} // verus!
