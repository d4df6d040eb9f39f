//! Classification of the identity relation between object types from the
//! event-to-object relations of a log.
use vstd::prelude::*;
use crate::ocim::model::{seq_has, set_keys_unique, has_set_key, in_set_of, lemma_in_set_of_at, contains_string};
use crate::ocpt::IdentityRelationKind;
use crate::text::{sorted_strict, insert_sorted, str_lt, lex_lt, lemma_lex_irreflexive, views, lemma_sorted_of};

verus! {

/// One event-to-object relation: `(event id, activity, timestamp, object id, object type)`.
pub type Relation = (String, String, String, String, String);

/// The objects that event `e` relates to.
pub open spec fn event_objs(rs: Seq<Relation>, e: Seq<char>) -> Set<Seq<char>> {
    Set::new(|o: Seq<char>| exists|i: int| 0 <= i < rs.len() && (#[trigger] rs[i]).0@ == e && rs[i].3@ == o)
}

/// The objects that event `e` relates to through a relation whose object type is in `ts`.
pub open spec fn event_objs_of_types(rs: Seq<Relation>, e: Seq<char>, ts: Seq<String>) -> Set<Seq<char>> {
    Set::new(|o: Seq<char>| exists|i: int| 0 <= i < rs.len() && (#[trigger] rs[i]).0@ == e && rs[i].3@ == o
        && seq_has(ts, rs[i].4@))
}

/// Some relation has event id `e` (and, when `filtered`, an object type in `ts`).
pub open spec fn has_event_in(rs: Seq<Relation>, e: Seq<char>, ts: Seq<String>, filtered: bool) -> bool {
    exists|i: int| 0 <= i < rs.len() && (#[trigger] rs[i]).0@ == e && (filtered ==> seq_has(ts, rs[i].4@))
}

/// Every object meets the same set of objects in each of its events.
pub open spec fn objects_keep_event_sets(rs: Seq<Relation>) -> bool {
    forall|i: int, j: int| 0 <= i < rs.len() && 0 <= j < rs.len() && (#[trigger] rs[i]).3@ == (#[trigger] rs[j]).3@
        ==> event_objs(rs, rs[i].0@) == event_objs(rs, rs[j].0@)
}

/// Some object of a type in `ot1` meets different sets of objects in two of its events.
pub open spec fn typed_objects_change_event_sets(rs: Seq<Relation>, ot1: Seq<String>) -> bool {
    exists|i: int, j: int| 0 <= i < rs.len() && 0 <= j < rs.len() && (#[trigger] rs[i]).3@ == (#[trigger] rs[j]).3@
        && seq_has(ot1, rs[i].4@) && seq_has(ot1, rs[j].4@)
        && event_objs(rs, rs[i].0@) != event_objs(rs, rs[j].0@)
}

/// Two events share their objects of the types in `ot1` but not all their objects.
pub open spec fn shared_typed_part_with_different_sets(rs: Seq<Relation>, ot1: Seq<String>) -> bool {
    exists|i: int, j: int| 0 <= i < rs.len() && 0 <= j < rs.len()
        && event_objs_of_types(rs, (#[trigger] rs[i]).0@, ot1) == event_objs_of_types(rs, (#[trigger] rs[j]).0@, ot1)
        && event_objs(rs, rs[i].0@) != event_objs(rs, rs[j].0@)
}

/// The identity relation that the relations show for the object types `ot1`.
pub open spec fn relation_kind(rs: Seq<Relation>, ot1: Seq<String>) -> Option<IdentityRelationKind> {
    if rs.len() > 0 && objects_keep_event_sets(rs) {
        Some(IdentityRelationKind::Sync)
    } else if typed_objects_change_event_sets(rs, ot1) {
        None
    } else if shared_typed_part_with_different_sets(rs, ot1) {
        Some(IdentityRelationKind::ImpConcurrent)
    } else {
        Some(IdentityRelationKind::ImpOrdered)
    }
}

/// The set of objects that the map holds for each event id, in increasing order.
pub open spec fn event_map_of(m: Seq<(String, Vec<String>)>, rs: Seq<Relation>, ts: Seq<String>, filtered: bool) -> bool {
    &&& set_keys_unique(m)
    &&& forall|k: int| 0 <= k < m.len() ==> sorted_strict((#[trigger] m[k]).1@)
    &&& forall|e: Seq<char>| #[trigger] has_set_key(m, e) <==> has_event_in(rs, e, ts, filtered)
    &&& forall|e: Seq<char>, o: Seq<char>| #[trigger] in_set_of(m, e, o) <==>
        if filtered { event_objs_of_types(rs, e, ts).contains(o) } else { event_objs(rs, e).contains(o) }
}

/// Position of key `a` in the map, if present.
fn key_index(m: &Vec<(String, Vec<String>)>, a: &String) -> (r: Option<usize>)
    ensures
        r matches Some(i) ==> i < m@.len() && m@[i as int].0@ == a@,
        r is None ==> !has_set_key(m@, a@),
{
    let mut i: usize = 0;
    while i < m.len()
        invariant
            0 <= i <= m.len(),
            forall|k: int| 0 <= k < i ==> (#[trigger] m@[k]).0@ != a@,
        decreases m.len() - i,
    {
        if m[i].0 == *a {
            return Some(i);
        }
        i += 1;
    }
    None
}

/// The objects of event `eid` (through a relation whose type is in `types`
/// when `filtered`), in increasing order.
fn objects_of_event(relations: &Vec<Relation>, eid: &String, types: &Vec<String>, filtered: bool) -> (r: Vec<String>)
    ensures
        sorted_strict(r@),
        forall|o: Seq<char>| #[trigger] seq_has(r@, o) <==>
            if filtered { event_objs_of_types(relations@, eid@, types@).contains(o) } else { event_objs(relations@, eid@).contains(o) },
{
    let ghost rs = relations@;
    let mut objs: Vec<String> = Vec::new();
    let mut n: usize = 0;
    while n < relations.len()
        invariant
            0 <= n <= rs.len(),
            rs == relations@,
            sorted_strict(objs@),
            forall|o: Seq<char>| #[trigger] seq_has(objs@, o) <==> exists|i: int| 0 <= i < n && (#[trigger] rs[i]).0@ == eid@
                && rs[i].3@ == o && (filtered ==> seq_has(types@, rs[i].4@)),
        decreases rs.len() - n,
    {
        let rel = &relations[n];
        if rel.0 == *eid && (!filtered || contains_string(types, &rel.4)) {
            insert_sorted(&mut objs, &rel.3);
        }
        proof {
            assert forall|o: Seq<char>| #[trigger] seq_has(objs@, o) <==> exists|i: int| 0 <= i < n + 1 && (#[trigger] rs[i]).0@ == eid@
                && rs[i].3@ == o && (filtered ==> seq_has(types@, rs[i].4@)) by {
                if exists|i: int| 0 <= i < n + 1 && (#[trigger] rs[i]).0@ == eid@ && rs[i].3@ == o && (filtered ==> seq_has(types@, rs[i].4@)) {
                    let i = choose|i: int| 0 <= i < n + 1 && (#[trigger] rs[i]).0@ == eid@ && rs[i].3@ == o && (filtered ==> seq_has(types@, rs[i].4@));
                    if i < n {
                        assert(exists|i2: int| 0 <= i2 < n && (#[trigger] rs[i2]).0@ == eid@ && rs[i2].3@ == o && (filtered ==> seq_has(types@, rs[i2].4@)));
                    }
                }
            }
        }
        n += 1;
    }
    proof {
        assert forall|o: Seq<char>| #[trigger] seq_has(objs@, o) <==>
            if filtered { event_objs_of_types(rs, eid@, types@).contains(o) } else { event_objs(rs, eid@).contains(o) } by {
            if seq_has(objs@, o) {
                let i = choose|i: int| 0 <= i < n && (#[trigger] rs[i]).0@ == eid@ && rs[i].3@ == o && (filtered ==> seq_has(types@, rs[i].4@));
            }
        }
    }
    objs
}

/// The event ids of the relations (of those whose object type is in `types`
/// when `filtered`), each once, in order of first appearance.
fn event_ids(relations: &Vec<Relation>, types: &Vec<String>, filtered: bool) -> (r: Vec<String>)
    ensures
        crate::ocim::model::strings_unique(r@),
        forall|e: Seq<char>| #[trigger] seq_has(r@, e) <==> has_event_in(relations@, e, types@, filtered),
{
    let ghost rs = relations@;
    let mut ids: Vec<String> = Vec::new();
    let mut n: usize = 0;
    while n < relations.len()
        invariant
            0 <= n <= rs.len(),
            rs == relations@,
            crate::ocim::model::strings_unique(ids@),
            forall|e: Seq<char>| #[trigger] seq_has(ids@, e) <==> exists|i: int| 0 <= i < n && (#[trigger] rs[i]).0@ == e
                && (filtered ==> seq_has(types@, rs[i].4@)),
        decreases rs.len() - n,
    {
        let ghost before = ids@;
        let keep = !filtered || contains_string(types, &relations[n].4);
        if keep && !contains_string(&ids, &relations[n].0) {
            ids.push(relations[n].0.clone());
            proof {
                assert forall|i: int, j: int| 0 <= i < ids@.len() && 0 <= j < ids@.len() && (#[trigger] ids@[i])@ == (#[trigger] ids@[j])@ implies i == j by {
                    if i < before.len() && j < before.len() {
                        assert(ids@[i] == before[i] && ids@[j] == before[j]);
                    } else if i < before.len() {
                        assert(ids@[i] == before[i]);
                    } else if j < before.len() {
                        assert(ids@[j] == before[j]);
                    }
                }
            }
        }
        proof {
            assert forall|e: Seq<char>| #[trigger] seq_has(ids@, e) <==> exists|i: int| 0 <= i < n + 1 && (#[trigger] rs[i]).0@ == e
                && (filtered ==> seq_has(types@, rs[i].4@)) by {
                if seq_has(ids@, e) {
                    let k = choose|k: int| 0 <= k < ids@.len() && (#[trigger] ids@[k])@ == e;
                    if k < before.len() {
                        assert(ids@[k] == before[k]);
                        assert(seq_has(before, e));
                        let i = choose|i: int| 0 <= i < n && (#[trigger] rs[i]).0@ == e && (filtered ==> seq_has(types@, rs[i].4@));
                        assert(exists|i2: int| 0 <= i2 < n + 1 && (#[trigger] rs[i2]).0@ == e && (filtered ==> seq_has(types@, rs[i2].4@)));
                    } else {
                        assert(rs[n as int].0@ == e);
                    }
                }
                if exists|i: int| 0 <= i < n + 1 && (#[trigger] rs[i]).0@ == e && (filtered ==> seq_has(types@, rs[i].4@)) {
                    let i = choose|i: int| 0 <= i < n + 1 && (#[trigger] rs[i]).0@ == e && (filtered ==> seq_has(types@, rs[i].4@));
                    if i < n {
                        assert(seq_has(before, e));
                        let k = choose|k: int| 0 <= k < before.len() && (#[trigger] before[k])@ == e;
                        assert(ids@[k] == before[k]);
                    } else if seq_has(before, e) {
                        let k = choose|k: int| 0 <= k < before.len() && (#[trigger] before[k])@ == e;
                        assert(ids@[k] == before[k]);
                    } else {
                        assert(ids@[ids@.len() - 1]@ == e);
                    }
                }
            }
        }
        n += 1;
    }
    ids
}

/// Map from event id to its objects (through a relation whose type is in
/// `types` when `filtered`), each set sorted and without repetitions.
fn build_event_map(relations: &Vec<Relation>, types: &Vec<String>, filtered: bool) -> (r: Vec<(String, Vec<String>)>)
    ensures
        event_map_of(r@, relations@, types@, filtered),
{
    let ids = event_ids(relations, types, filtered);
    let mut m: Vec<(String, Vec<String>)> = Vec::new();
    let mut k: usize = 0;
    while k < ids.len()
        invariant
            0 <= k <= ids@.len(),
            m@.len() == k,
            crate::ocim::model::strings_unique(ids@),
            forall|i: int| 0 <= i < k ==> (#[trigger] m@[i]).0@ == ids@[i]@,
            forall|i: int| 0 <= i < k ==> sorted_strict((#[trigger] m@[i]).1@),
            forall|i: int, o: Seq<char>| 0 <= i < k ==> (#[trigger] seq_has(m@[i].1@, o) <==>
                if filtered { event_objs_of_types(relations@, ids@[i]@, types@).contains(o) } else { event_objs(relations@, ids@[i]@).contains(o) }),
        decreases ids@.len() - k,
    {
        let objs = objects_of_event(relations, &ids[k], types, filtered);
        m.push((ids[k].clone(), objs));
        k += 1;
    }
    proof {
        assert forall|i: int, j: int| 0 <= i < m@.len() && 0 <= j < m@.len() && (#[trigger] m@[i]).0@ == (#[trigger] m@[j]).0@ implies i == j by {
            assert(ids@[i]@ == ids@[j]@);
        }
        assert forall|e: Seq<char>| #[trigger] has_set_key(m@, e) <==> has_event_in(relations@, e, types@, filtered) by {
            if has_set_key(m@, e) {
                let i = choose|i: int| 0 <= i < m@.len() && (#[trigger] m@[i]).0@ == e;
                assert(seq_has(ids@, e));
            }
            if has_event_in(relations@, e, types@, filtered) {
                assert(seq_has(ids@, e));
                let i = choose|i: int| 0 <= i < ids@.len() && (#[trigger] ids@[i])@ == e;
                assert(m@[i].0@ == e);
            }
        }
        assert forall|e: Seq<char>, o: Seq<char>| #[trigger] in_set_of(m@, e, o) <==>
            if filtered { event_objs_of_types(relations@, e, types@).contains(o) } else { event_objs(relations@, e).contains(o) } by {
            if in_set_of(m@, e, o) {
                let i = choose|i: int| 0 <= i < m@.len() && (#[trigger] m@[i]).0@ == e && seq_has(m@[i].1@, o);
            }
            let c = if filtered { event_objs_of_types(relations@, e, types@).contains(o) } else { event_objs(relations@, e).contains(o) };
            if c {
                let q = choose|q: int| 0 <= q < relations@.len() && (#[trigger] relations@[q]).0@ == e && relations@[q].3@ == o
                    && (filtered ==> seq_has(types@, relations@[q].4@));
                assert(has_event_in(relations@, e, types@, filtered));
                assert(seq_has(ids@, e));
                let i = choose|i: int| 0 <= i < ids@.len() && (#[trigger] ids@[i])@ == e;
                assert(m@[i].0@ == e);
                assert(seq_has(m@[i].1@, o));
            }
        }
    }
    m
}

/// Map from each event id to the objects it relates to, sorted and without repetitions.
pub fn build_event_object_sets(relations: &Vec<Relation>) -> (r: Vec<(String, Vec<String>)>)
    ensures
        event_map_of(r@, relations@, Seq::empty(), false),
{
    let none: Vec<String> = Vec::new();
    build_event_map(relations, &none, false)
}

/// Map from each event id to the objects of a type in `object_types` that it
/// relates to, sorted and without repetitions.
pub fn build_event_object_sets_for_types(relations: &Vec<Relation>, object_types: &Vec<String>) -> (r: Vec<(String, Vec<String>)>)
    ensures
        event_map_of(r@, relations@, object_types@, true),
{
    build_event_map(relations, object_types, true)
}

/// The set that an event map holds for event `e`.
pub open spec fn mapped_set(rs: Seq<Relation>, e: Seq<char>, ts: Seq<String>, filtered: bool) -> Set<Seq<char>> {
    if filtered { event_objs_of_types(rs, e, ts) } else { event_objs(rs, e) }
}

proof fn lemma_entry_set(m: Seq<(String, Vec<String>)>, rs: Seq<Relation>, ts: Seq<String>, filtered: bool, k: int)
    requires
        event_map_of(m, rs, ts, filtered),
        0 <= k < m.len(),
    ensures
        sorted_strict(m[k].1@),
        forall|o: Seq<char>| #[trigger] seq_has(m[k].1@, o) <==> mapped_set(rs, m[k].0@, ts, filtered).contains(o),
{
    assert forall|o: Seq<char>| #[trigger] seq_has(m[k].1@, o) <==> mapped_set(rs, m[k].0@, ts, filtered).contains(o) by {
        lemma_in_set_of_at(m, k, o);
        assert(in_set_of(m, m[k].0@, o) <==> mapped_set(rs, m[k].0@, ts, filtered).contains(o));
    }
}

/// Two entries of an event map list the same strings exactly when their sets are equal.
proof fn lemma_same_entries(m: Seq<(String, Vec<String>)>, rs: Seq<Relation>, ts: Seq<String>, filtered: bool, k1: int, k2: int)
    requires
        event_map_of(m, rs, ts, filtered),
        0 <= k1 < m.len(),
        0 <= k2 < m.len(),
    ensures
        (views(m[k1].1@) == views(m[k2].1@)) == (mapped_set(rs, m[k1].0@, ts, filtered) == mapped_set(rs, m[k2].0@, ts, filtered)),
{
    lemma_entry_set(m, rs, ts, filtered, k1);
    lemma_entry_set(m, rs, ts, filtered, k2);
    let s1 = mapped_set(rs, m[k1].0@, ts, filtered);
    let s2 = mapped_set(rs, m[k2].0@, ts, filtered);
    lemma_sorted_of(m[k1].1@, s1);
    lemma_sorted_of(m[k2].1@, s2);
    if views(m[k1].1@) == views(m[k2].1@) {
        assert forall|o: Seq<char>| s1.contains(o) <==> s2.contains(o) by {
            if s1.contains(o) {
                assert(seq_has(m[k1].1@, o));
                let q = choose|q: int| 0 <= q < m[k1].1@.len() && (#[trigger] m[k1].1@[q])@ == o;
                assert(views(m[k1].1@)[q] == o);
                assert(views(m[k1].1@).len() == m[k1].1@.len() && views(m[k2].1@).len() == m[k2].1@.len());
                assert(m[k2].1@[q]@ == views(m[k2].1@)[q]);
                assert(seq_has(m[k2].1@, o));
            }
            if s2.contains(o) {
                assert(seq_has(m[k2].1@, o));
                let q = choose|q: int| 0 <= q < m[k2].1@.len() && (#[trigger] m[k2].1@[q])@ == o;
                assert(views(m[k2].1@)[q] == o);
                assert(views(m[k1].1@).len() == m[k1].1@.len() && views(m[k2].1@).len() == m[k2].1@.len());
                assert(m[k1].1@[q]@ == views(m[k1].1@)[q]);
                assert(seq_has(m[k1].1@, o));
            }
        }
        assert(s1 =~= s2);
    }
}

/// Whether the two vectors hold the same strings in the same order.
fn same_strings(a: &Vec<String>, b: &Vec<String>) -> (r: bool)
    ensures
        r == (views(a@) == views(b@)),
{
    if a.len() != b.len() {
        proof {
            if views(a@) == views(b@) {
                assert(views(a@).len() == views(b@).len());
            }
        }
        return false;
    }
    let mut i: usize = 0;
    while i < a.len()
        invariant
            0 <= i <= a@.len(),
            a@.len() == b@.len(),
            forall|k: int| 0 <= k < i ==> (#[trigger] a@[k])@ == b@[k]@,
        decreases a@.len() - i,
    {
        if a[i] != b[i] {
            proof {
                if views(a@) == views(b@) {
                    assert(views(a@)[i as int] == views(b@)[i as int]);
                }
            }
            return false;
        }
        i += 1;
    }
    assert(views(a@) =~= views(b@));
    true
}

/// For each relation, the position of its event in the event map.
pub open spec fn indexes_events(m: Seq<(String, Vec<String>)>, rs: Seq<Relation>, idx: Seq<usize>) -> bool {
    &&& idx.len() == rs.len()
    &&& forall|i: int| 0 <= i < rs.len() ==> (#[trigger] idx[i]) < m.len() && m[idx[i] as int].0@ == rs[i].0@
}

fn index_events(m: &Vec<(String, Vec<String>)>, relations: &Vec<Relation>) -> (r: Vec<usize>)
    requires
        event_map_of(m@, relations@, Seq::empty(), false),
    ensures
        indexes_events(m@, relations@, r@),
{
    let mut idx: Vec<usize> = Vec::new();
    let mut i: usize = 0;
    while i < relations.len()
        invariant
            0 <= i <= relations@.len(),
            idx@.len() == i,
            forall|q: int| 0 <= q < i ==> (#[trigger] idx@[q]) < m@.len() && m@[idx@[q] as int].0@ == relations@[q].0@,
        decreases relations@.len() - i,
    {
        assert(has_event_in(relations@, relations@[i as int].0@, Seq::empty(), false));
        assert(has_set_key(m@, relations@[i as int].0@));
        match key_index(m, &relations[i].0) {
            Some(k) => idx.push(k),
            None => {
                assert(false);
                idx.push(0);
            },
        }
        i += 1;
    }
    idx
}

/// Whether every object meets the same objects in each of its events.
fn all_objects_keep(relations: &Vec<Relation>, eh: &Vec<(String, Vec<String>)>, fi: &Vec<usize>) -> (r: bool)
    requires
        event_map_of(eh@, relations@, Seq::empty(), false),
        indexes_events(eh@, relations@, fi@),
    ensures
        r == objects_keep_event_sets(relations@),
{
    let ghost rs = relations@;
    let n = relations.len();
    let mut i: usize = 0;
    while i < n
        invariant
            0 <= i <= n,
            n == rs.len(),
            forall|a: int, b: int| 0 <= a < i && 0 <= b < n && (#[trigger] rs[a]).3@ == (#[trigger] rs[b]).3@
                ==> event_objs(rs, rs[a].0@) == event_objs(rs, rs[b].0@),
        decreases n - i,
    {
        let mut j: usize = 0;
        while j < n
            invariant
                0 <= i < n,
                0 <= j <= n,
                n == rs.len(),
                forall|b: int| 0 <= b < j && rs[i as int].3@ == (#[trigger] rs[b]).3@
                    ==> event_objs(rs, rs[i as int].0@) == event_objs(rs, rs[b].0@),
            decreases n - j,
        {
            if relations[i].3 == relations[j].3 {
                proof {
                    lemma_same_entries(eh@, rs, Seq::empty(), false, fi@[i as int] as int, fi@[j as int] as int);
                }
                if !same_strings(&eh[fi[i]].1, &eh[fi[j]].1) {
                    assert(rs[i as int].3@ == rs[j as int].3@);
                    return false;
                }
            }
            j += 1;
        }
        i += 1;
    }
    true
}

/// Whether some object of a type in `ot1` meets different objects in two of its events.
fn typed_objects_change(relations: &Vec<Relation>, ot1: &Vec<String>, eh: &Vec<(String, Vec<String>)>, fi: &Vec<usize>) -> (r: bool)
    requires
        event_map_of(eh@, relations@, Seq::empty(), false),
        indexes_events(eh@, relations@, fi@),
    ensures
        r == typed_objects_change_event_sets(relations@, ot1@),
{
    let ghost rs = relations@;
    let n = relations.len();
    let mut i: usize = 0;
    while i < n
        invariant
            0 <= i <= n,
            n == rs.len(),
            forall|a: int, b: int| 0 <= a < i && 0 <= b < n && (#[trigger] rs[a]).3@ == (#[trigger] rs[b]).3@
                && seq_has(ot1@, rs[a].4@) && seq_has(ot1@, rs[b].4@)
                ==> event_objs(rs, rs[a].0@) == event_objs(rs, rs[b].0@),
        decreases n - i,
    {
        if contains_string(ot1, &relations[i].4) {
            let mut j: usize = 0;
            while j < n
                invariant
                    0 <= i < n,
                    0 <= j <= n,
                    n == rs.len(),
                    seq_has(ot1@, rs[i as int].4@),
                    forall|b: int| 0 <= b < j && rs[i as int].3@ == (#[trigger] rs[b]).3@ && seq_has(ot1@, rs[b].4@)
                        ==> event_objs(rs, rs[i as int].0@) == event_objs(rs, rs[b].0@),
                decreases n - j,
            {
                if relations[i].3 == relations[j].3 && contains_string(ot1, &relations[j].4) {
                    proof {
                        lemma_same_entries(eh@, rs, Seq::empty(), false, fi@[i as int] as int, fi@[j as int] as int);
                    }
                    if !same_strings(&eh[fi[i]].1, &eh[fi[j]].1) {
                        assert(rs[i as int].3@ == rs[j as int].3@);
                        return true;
                    }
                }
                j += 1;
            }
        }
        i += 1;
    }
    false
}

/// For each relation, the position of its event in the typed map, where it has one.
pub open spec fn indexes_typed(m: Seq<(String, Vec<String>)>, rs: Seq<Relation>, idx: Seq<Option<usize>>) -> bool {
    &&& idx.len() == rs.len()
    &&& forall|i: int| 0 <= i < rs.len() ==> match #[trigger] idx[i] {
        Some(k) => k < m.len() && m[k as int].0@ == rs[i].0@,
        None => !has_set_key(m, rs[i].0@),
    }
}

fn index_typed(m: &Vec<(String, Vec<String>)>, relations: &Vec<Relation>) -> (r: Vec<Option<usize>>)
    ensures
        indexes_typed(m@, relations@, r@),
{
    let mut idx: Vec<Option<usize>> = Vec::new();
    let mut i: usize = 0;
    while i < relations.len()
        invariant
            0 <= i <= relations@.len(),
            idx@.len() == i,
            forall|q: int| 0 <= q < i ==> match #[trigger] idx@[q] {
                Some(k) => k < m@.len() && m@[k as int].0@ == relations@[q].0@,
                None => !has_set_key(m@, relations@[q].0@),
            },
        decreases relations@.len() - i,
    {
        idx.push(key_index(m, &relations[i].0));
        i += 1;
    }
    idx
}

/// Without an entry in the typed map, an event has no objects of the types.
proof fn lemma_typed_absent(m: Seq<(String, Vec<String>)>, rs: Seq<Relation>, ts: Seq<String>, e: Seq<char>)
    requires
        event_map_of(m, rs, ts, true),
        !has_set_key(m, e),
    ensures
        event_objs_of_types(rs, e, ts) == Set::<Seq<char>>::empty(),
{
    assert forall|o: Seq<char>| !event_objs_of_types(rs, e, ts).contains(o) by {
        if event_objs_of_types(rs, e, ts).contains(o) {
            let i = choose|i: int| 0 <= i < rs.len() && (#[trigger] rs[i]).0@ == e && rs[i].3@ == o && seq_has(ts, rs[i].4@);
            assert(has_event_in(rs, e, ts, true));
        }
    }
    assert(event_objs_of_types(rs, e, ts) =~= Set::<Seq<char>>::empty());
}

/// Whether the events of relations `i` and `j` have the same objects of the types.
fn typed_same(th: &Vec<(String, Vec<String>)>, ti: &Vec<Option<usize>>, i: usize, j: usize, rs: Ghost<Seq<Relation>>, ts: Ghost<Seq<String>>) -> (r: bool)
    requires
        event_map_of(th@, rs@, ts@, true),
        indexes_typed(th@, rs@, ti@),
        i < rs@.len(),
        j < rs@.len(),
    ensures
        r == (event_objs_of_types(rs@, rs@[i as int].0@, ts@) == event_objs_of_types(rs@, rs@[j as int].0@, ts@)),
{
    let ghost si = event_objs_of_types(rs@, rs@[i as int].0@, ts@);
    let ghost sj = event_objs_of_types(rs@, rs@[j as int].0@, ts@);
    match (ti[i], ti[j]) {
        (Some(ki), Some(kj)) => {
            proof {
                lemma_same_entries(th@, rs@, ts@, true, ki as int, kj as int);
            }
            same_strings(&th[ki].1, &th[kj].1)
        },
        (Some(k), None) => {
            proof {
                lemma_typed_absent(th@, rs@, ts@, rs@[j as int].0@);
                lemma_entry_set(th@, rs@, ts@, true, k as int);
                if th@[k as int].1@.len() > 0 {
                    assert(seq_has(th@[k as int].1@, th@[k as int].1@[0]@));
                    assert(si.contains(th@[k as int].1@[0]@));
                } else if si != sj {
                    let o = choose|o: Seq<char>| si.contains(o) != sj.contains(o);
                    assert(!seq_has(th@[k as int].1@, o));
                    assert(si =~= sj);
                }
            }
            th[k].1.len() == 0
        },
        (None, Some(k)) => {
            proof {
                lemma_typed_absent(th@, rs@, ts@, rs@[i as int].0@);
                lemma_entry_set(th@, rs@, ts@, true, k as int);
                if th@[k as int].1@.len() > 0 {
                    assert(seq_has(th@[k as int].1@, th@[k as int].1@[0]@));
                    assert(sj.contains(th@[k as int].1@[0]@));
                } else if si != sj {
                    let o = choose|o: Seq<char>| si.contains(o) != sj.contains(o);
                    assert(!seq_has(th@[k as int].1@, o));
                    assert(si =~= sj);
                }
            }
            th[k].1.len() == 0
        },
        (None, None) => {
            proof {
                lemma_typed_absent(th@, rs@, ts@, rs@[i as int].0@);
                lemma_typed_absent(th@, rs@, ts@, rs@[j as int].0@);
            }
            true
        },
    }
}

/// A relation whose event shares its objects of the types in `ot1` with another
/// event that relates to other objects, if there is one.
fn find_shared_typed_part(
    relations: &Vec<Relation>,
    ot1: &Vec<String>,
    eh: &Vec<(String, Vec<String>)>,
    fi: &Vec<usize>,
    th: &Vec<(String, Vec<String>)>,
    ti: &Vec<Option<usize>>,
) -> (r: Option<usize>)
    requires
        event_map_of(eh@, relations@, Seq::empty(), false),
        indexes_events(eh@, relations@, fi@),
        event_map_of(th@, relations@, ot1@, true),
        indexes_typed(th@, relations@, ti@),
    ensures
        r is Some <==> shared_typed_part_with_different_sets(relations@, ot1@),
        r matches Some(g) ==> g < relations@.len(),
{
    let ghost rs = relations@;
    let n = relations.len();
    let mut i: usize = 0;
    while i < n
        invariant
            0 <= i <= n,
            n == rs.len(),
            forall|a: int, b: int| 0 <= a < i && 0 <= b < n
                && event_objs_of_types(rs, (#[trigger] rs[a]).0@, ot1@) == event_objs_of_types(rs, (#[trigger] rs[b]).0@, ot1@)
                ==> event_objs(rs, rs[a].0@) == event_objs(rs, rs[b].0@),
        decreases n - i,
    {
        let mut j: usize = 0;
        while j < n
            invariant
                0 <= i < n,
                0 <= j <= n,
                n == rs.len(),
                forall|b: int| 0 <= b < j
                    && event_objs_of_types(rs, rs[i as int].0@, ot1@) == event_objs_of_types(rs, (#[trigger] rs[b]).0@, ot1@)
                    ==> event_objs(rs, rs[i as int].0@) == event_objs(rs, rs[b].0@),
            decreases n - j,
        {
            proof {
                lemma_same_entries(eh@, rs, Seq::empty(), false, fi@[i as int] as int, fi@[j as int] as int);
            }
            if typed_same(th, ti, i, j, Ghost(rs), Ghost(ot1@)) && !same_strings(&eh[fi[i]].1, &eh[fi[j]].1) {
                assert(event_objs_of_types(rs, rs[i as int].0@, ot1@) == event_objs_of_types(rs, rs[j as int].0@, ot1@));
                return Some(i);
            }
            j += 1;
        }
        i += 1;
    }
    None
}

/// Two time frames `(start, end)` overlap: neither lies wholly before the other.
pub open spec fn frames_overlap(f1: (usize, String, String), f2: (usize, String, String)) -> bool {
    &&& !(lex_lt(f1.1@, f2.1@) && lex_lt(f1.2@, f2.1@))
    &&& !(lex_lt(f2.2@, f1.1@) && lex_lt(f2.2@, f1.2@))
}

/// Whether two of the time frames (each frame with itself included) overlap.
fn time_frames_overlap(frames: &Vec<(usize, String, String)>) -> (r: bool)
    ensures
        r == exists|a: int, b: int| 0 <= a < frames@.len() && 0 <= b < frames@.len()
            && frames_overlap(#[trigger] frames@[a], #[trigger] frames@[b]),
        frames@.len() > 0 ==> r,
{
    proof {
        if frames@.len() > 0 {
            lemma_lex_irreflexive(frames@[0].1@);
            lemma_lex_irreflexive(frames@[0].2@);
            assert(frames_overlap(frames@[0], frames@[0]));
        }
    }
    let mut a: usize = 0;
    while a < frames.len()
        invariant
            0 <= a <= frames@.len(),
            forall|x: int, y: int| 0 <= x < a && 0 <= y < frames@.len() ==> !frames_overlap(#[trigger] frames@[x], #[trigger] frames@[y]),
        decreases frames@.len() - a,
    {
        let mut b: usize = 0;
        while b < frames.len()
            invariant
                0 <= a < frames@.len(),
                0 <= b <= frames@.len(),
                forall|y: int| 0 <= y < b ==> !frames_overlap(frames@[a as int], #[trigger] frames@[y]),
            decreases frames@.len() - b,
        {
            let f1 = &frames[a];
            let f2 = &frames[b];
            let before = str_lt(f1.1.as_str(), f2.1.as_str()) && str_lt(f1.2.as_str(), f2.1.as_str());
            let after = str_lt(f2.2.as_str(), f1.1.as_str()) && str_lt(f2.2.as_str(), f1.2.as_str());
            if !before && !after {
                return true;
            }
            b += 1;
        }
        a += 1;
    }
    false
}

/// Whether the event of relation `r` relates to the same objects as the event of
/// some relation whose typed objects equal those of relation `g`.
fn in_group(
    eh: &Vec<(String, Vec<String>)>,
    fi: &Vec<usize>,
    th: &Vec<(String, Vec<String>)>,
    ti: &Vec<Option<usize>>,
    g: usize,
    r: usize,
    rs: Ghost<Seq<Relation>>,
    ts: Ghost<Seq<String>>,
) -> (res: bool)
    requires
        indexes_events(eh@, rs@, fi@),
        event_map_of(th@, rs@, ts@, true),
        indexes_typed(th@, rs@, ti@),
        g < rs@.len(),
        r < rs@.len(),
    ensures
        res == exists|j: int| 0 <= j < rs@.len()
            && event_objs_of_types(rs@, (#[trigger] rs@[j]).0@, ts@) == event_objs_of_types(rs@, rs@[g as int].0@, ts@)
            && views(eh@[fi@[j] as int].1@) == views(eh@[fi@[r as int] as int].1@),
        r == g ==> res,
{
    let mut j: usize = 0;
    while j < fi.len()
        invariant
            0 <= j <= fi@.len(),
            indexes_events(eh@, rs@, fi@),
            event_map_of(th@, rs@, ts@, true),
            indexes_typed(th@, rs@, ti@),
            g < rs@.len(),
            r < rs@.len(),
            r == g ==> j <= g,
            forall|k: int| 0 <= k < j ==> !(event_objs_of_types(rs@, (#[trigger] rs@[k]).0@, ts@) == event_objs_of_types(rs@, rs@[g as int].0@, ts@)
                && views(eh@[fi@[k] as int].1@) == views(eh@[fi@[r as int] as int].1@)),
        decreases fi@.len() - j,
    {
        assert(fi@[j as int] < eh@.len() && fi@[r as int] < eh@.len());
        if typed_same(th, ti, j, g, rs, ts) && same_strings(&eh[fi[j]].1, &eh[fi[r]].1) {
            return true;
        }
        j += 1;
    }
    false
}

/// The time frame (first and last timestamp, in the order of the relations) of
/// each event object set of the group of relation `g`.
fn group_time_frames(
    relations: &Vec<Relation>,
    eh: &Vec<(String, Vec<String>)>,
    fi: &Vec<usize>,
    th: &Vec<(String, Vec<String>)>,
    ti: &Vec<Option<usize>>,
    g: usize,
    ts: Ghost<Seq<String>>,
) -> (frames: Vec<(usize, String, String)>)
    requires
        indexes_events(eh@, relations@, fi@),
        event_map_of(th@, relations@, ts@, true),
        indexes_typed(th@, relations@, ti@),
        g < relations@.len(),
    ensures
        frames@.len() > 0,
{
    let n = relations.len();
    let mut frames: Vec<(usize, String, String)> = Vec::new();
    let mut r: usize = 0;
    while r < n
        invariant
            0 <= r <= n,
            n == relations@.len(),
            indexes_events(eh@, relations@, fi@),
            event_map_of(th@, relations@, ts@, true),
            indexes_typed(th@, relations@, ti@),
            g < n,
            forall|q: int| 0 <= q < frames@.len() ==> (#[trigger] frames@[q]).0 < n,
            r > g ==> frames@.len() > 0,
        decreases n - r,
    {
        if in_group(eh, fi, th, ti, g, r, Ghost(relations@), ts) {
            let ts_r = &relations[r].2;
            let mut k: usize = 0;
            let mut found = false;
            while k < frames.len()
                invariant
                    0 <= k <= frames@.len(),
                    forall|q: int| 0 <= q < frames@.len() ==> (#[trigger] frames@[q]).0 < n,
                    indexes_events(eh@, relations@, fi@),
                    n == relations@.len(),
                    r < n,
                    !found,
                decreases frames@.len() - k,
            {
                let rep = frames[k].0;
                assert(frames@[k as int].0 < n);
                assert(fi@[rep as int] < eh@.len() && fi@[r as int] < eh@.len());
                if same_strings(&eh[fi[rep]].1, &eh[fi[r]].1) {
                    found = true;
                    break;
                }
                k += 1;
            }
            if found && k < frames.len() {
                let rep = frames[k].0;
                let start = frames[k].1.clone();
                frames.set(k, (rep, start, ts_r.clone()));
            } else {
                frames.push((r, ts_r.clone(), ts_r.clone()));
            }
        }
        r += 1;
    }
    frames
}

/// The identity relation between the object types `ot1` and the others, from the
/// event-to-object relations: `Sync` where every object meets the same objects in
/// all its events; none where an object of `ot1` meets different objects in two
/// of its events; otherwise `ImpConcurrent` where two events agree on their
/// objects of `ot1` but not on all their objects (their groups' time frames always
/// overlap, at the least each frame with itself), else `ImpOrdered`.
pub fn check_relation(ot1: &Vec<String>, ot2: &Vec<String>, relations: &Vec<Relation>) -> (r: Option<IdentityRelationKind>)
    ensures
        r == relation_kind(relations@, ot1@),
{
    let event_hashes = build_event_object_sets(relations);
    let fi = index_events(&event_hashes, relations);
    if relations.len() > 0 && all_objects_keep(relations, &event_hashes, &fi) {
        return Some(IdentityRelationKind::Sync);
    }
    if typed_objects_change(relations, ot1, &event_hashes, &fi) {
        return None;
    }
    let typed_hashes = build_event_object_sets_for_types(relations, ot1);
    let ti = index_typed(&typed_hashes, relations);
    match find_shared_typed_part(relations, ot1, &event_hashes, &fi, &typed_hashes, &ti) {
        Some(g) => {
            let frames = group_time_frames(relations, &event_hashes, &fi, &typed_hashes, &ti, g, Ghost(ot1@));
            if time_frames_overlap(&frames) {
                return Some(IdentityRelationKind::ImpConcurrent);
            }
        },
        None => {},
    }
    Some(IdentityRelationKind::ImpOrdered)
}

/// The relations agree on everything but activities and timestamps.
pub open spec fn same_but_times(a: Seq<Relation>, b: Seq<Relation>) -> bool {
    &&& a.len() == b.len()
    &&& forall|i: int| 0 <= i < a.len() ==> (#[trigger] a[i]).0@ == b[i].0@ && a[i].3@ == b[i].3@ && a[i].4@ == b[i].4@
}

proof fn lemma_same_event_objs(a: Seq<Relation>, b: Seq<Relation>, ts: Seq<String>)
    requires
        same_but_times(a, b),
    ensures
        forall|e: Seq<char>| #[trigger] event_objs(a, e) == event_objs(b, e),
        forall|e: Seq<char>| #[trigger] event_objs_of_types(a, e, ts) == event_objs_of_types(b, e, ts),
{
    assert forall|e: Seq<char>| #[trigger] event_objs(a, e) == event_objs(b, e) by {
        assert forall|o: Seq<char>| event_objs(a, e).contains(o) <==> event_objs(b, e).contains(o) by {
            if event_objs(a, e).contains(o) {
                let i = choose|i: int| 0 <= i < a.len() && (#[trigger] a[i]).0@ == e && a[i].3@ == o;
                assert(b[i].0@ == e && b[i].3@ == o);
            }
            if event_objs(b, e).contains(o) {
                let i = choose|i: int| 0 <= i < b.len() && (#[trigger] b[i]).0@ == e && b[i].3@ == o;
                assert(a[i].0@ == e && a[i].3@ == o);
            }
        }
        assert(event_objs(a, e) =~= event_objs(b, e));
    }
    assert forall|e: Seq<char>| #[trigger] event_objs_of_types(a, e, ts) == event_objs_of_types(b, e, ts) by {
        assert forall|o: Seq<char>| event_objs_of_types(a, e, ts).contains(o) <==> event_objs_of_types(b, e, ts).contains(o) by {
            if event_objs_of_types(a, e, ts).contains(o) {
                let i = choose|i: int| 0 <= i < a.len() && (#[trigger] a[i]).0@ == e && a[i].3@ == o && seq_has(ts, a[i].4@);
                assert(b[i].0@ == e && b[i].3@ == o && seq_has(ts, b[i].4@));
            }
            if event_objs_of_types(b, e, ts).contains(o) {
                let i = choose|i: int| 0 <= i < b.len() && (#[trigger] b[i]).0@ == e && b[i].3@ == o && seq_has(ts, b[i].4@);
                assert(a[i].0@ == e && a[i].3@ == o && seq_has(ts, a[i].4@));
            }
        }
        assert(event_objs_of_types(a, e, ts) =~= event_objs_of_types(b, e, ts));
    }
}

/// The identity relation depends neither on the activities nor on the
/// timestamps of the relations (and `check_relation` not on its second object
/// types at all).
pub proof fn lemma_relation_kind_ignores_times(a: Seq<Relation>, b: Seq<Relation>, ot1: Seq<String>)
    requires
        same_but_times(a, b),
    ensures
        relation_kind(a, ot1) == relation_kind(b, ot1),
{
    lemma_same_event_objs(a, b, ot1);
    assert(objects_keep_event_sets(a) == objects_keep_event_sets(b)) by {
        if objects_keep_event_sets(a) {
            assert forall|i: int, j: int| 0 <= i < b.len() && 0 <= j < b.len() && (#[trigger] b[i]).3@ == (#[trigger] b[j]).3@
                implies event_objs(b, b[i].0@) == event_objs(b, b[j].0@) by {
                assert(a[i].3@ == a[j].3@);
                assert(event_objs(a, a[i].0@) == event_objs(a, a[j].0@));
            }
        }
        if objects_keep_event_sets(b) {
            assert forall|i: int, j: int| 0 <= i < a.len() && 0 <= j < a.len() && (#[trigger] a[i]).3@ == (#[trigger] a[j]).3@
                implies event_objs(a, a[i].0@) == event_objs(a, a[j].0@) by {
                assert(b[i].3@ == b[j].3@);
                assert(event_objs(b, b[i].0@) == event_objs(b, b[j].0@));
            }
        }
    }
    assert(typed_objects_change_event_sets(a, ot1) == typed_objects_change_event_sets(b, ot1)) by {
        if typed_objects_change_event_sets(a, ot1) {
            let (i, j) = choose|i: int, j: int| 0 <= i < a.len() && 0 <= j < a.len() && (#[trigger] a[i]).3@ == (#[trigger] a[j]).3@
                && seq_has(ot1, a[i].4@) && seq_has(ot1, a[j].4@) && event_objs(a, a[i].0@) != event_objs(a, a[j].0@);
            assert(b[i].3@ == b[j].3@ && seq_has(ot1, b[i].4@) && seq_has(ot1, b[j].4@));
            assert(event_objs(b, b[i].0@) != event_objs(b, b[j].0@));
        }
        if typed_objects_change_event_sets(b, ot1) {
            let (i, j) = choose|i: int, j: int| 0 <= i < b.len() && 0 <= j < b.len() && (#[trigger] b[i]).3@ == (#[trigger] b[j]).3@
                && seq_has(ot1, b[i].4@) && seq_has(ot1, b[j].4@) && event_objs(b, b[i].0@) != event_objs(b, b[j].0@);
            assert(a[i].3@ == a[j].3@ && seq_has(ot1, a[i].4@) && seq_has(ot1, a[j].4@));
            assert(event_objs(a, a[i].0@) != event_objs(a, a[j].0@));
        }
    }
    assert(shared_typed_part_with_different_sets(a, ot1) == shared_typed_part_with_different_sets(b, ot1)) by {
        if shared_typed_part_with_different_sets(a, ot1) {
            let (i, j) = choose|i: int, j: int| 0 <= i < a.len() && 0 <= j < a.len()
                && event_objs_of_types(a, (#[trigger] a[i]).0@, ot1) == event_objs_of_types(a, (#[trigger] a[j]).0@, ot1)
                && event_objs(a, a[i].0@) != event_objs(a, a[j].0@);
            assert(event_objs_of_types(b, b[i].0@, ot1) == event_objs_of_types(b, b[j].0@, ot1));
            assert(event_objs(b, b[i].0@) != event_objs(b, b[j].0@));
        }
        if shared_typed_part_with_different_sets(b, ot1) {
            let (i, j) = choose|i: int, j: int| 0 <= i < b.len() && 0 <= j < b.len()
                && event_objs_of_types(b, (#[trigger] b[i]).0@, ot1) == event_objs_of_types(b, (#[trigger] b[j]).0@, ot1)
                && event_objs(b, b[i].0@) != event_objs(b, b[j].0@);
            assert(event_objs_of_types(a, a[i].0@, ot1) == event_objs_of_types(a, a[j].0@, ot1));
            assert(event_objs(a, a[i].0@) != event_objs(a, a[j].0@));
        }
    }
}

} // verus!
