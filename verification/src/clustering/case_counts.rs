//! What the count-based case distances read of cases: object types, views,
//! event type numbers and event counts per cluster.
use vstd::prelude::*;
use crate::clustering::k_medoids::{count_at, e2o_view, has_key, keys_distinct, lemma_count_at_index, E2OCounts, EdgeCounts, add_share, cost_sorted, has_name, lemma_listed_at, listed_value, names_distinct, sort_costs};
use crate::ocim::model::{contains_string, seq_has, strings_unique};
use crate::permutation::{is_permutation, lemma_permutation_onto};
use crate::ocgraphconf_case_compare::{key_views, lemma_sorted_positions_unique, sort_positions, sorted_positions};
use crate::text::{insert_sorted, sorted_strict, str_eq};

verus! {

/// An object of a case as read from its log: identifier and type, where present.
#[derive(Debug, Clone)]
pub struct CaseObjectRecord {
    pub id: Option<String>,
    pub object_type: Option<String>,
}

/// An event of a case as read from its log: its time (RFC 3339), its type and
/// the identifiers of the objects it relates to, where present.
#[derive(Debug, Clone)]
pub struct CaseEventRecord {
    pub time: Option<String>,
    pub event_type: Option<String>,
    pub object_ids: Vec<Option<String>>,
}

/// A case as read from its log.
#[derive(Debug, Clone)]
pub struct CaseRecord {
    /// The names listed among the case's object types.
    pub object_type_names: Vec<Option<String>>,
    pub events: Vec<CaseEventRecord>,
    pub objects: Vec<CaseObjectRecord>,
}

/// The seconds since the epoch of an RFC 3339 date and time, where `s` is one.
pub uninterp spec fn rfc3339_seconds(s: Seq<char>) -> Option<i64>;

/// Calls `chrono::DateTime::parse_from_rfc3339` and, where it succeeds, the
/// result's `timestamp`. The result is named: it depends on `s` alone.
#[verifier::external_body]
fn parse_rfc3339_seconds(s: &str) -> (r: Option<i64>)
    ensures
        r == rfc3339_seconds(s@),
{
    match chrono::DateTime::parse_from_rfc3339(s) {
        Ok(dt) => Some(dt.timestamp()),
        Err(_) => None,
    }
}

/// The type of the object `oid`: that of the last object with this identifier,
/// among those that have both an identifier and a type.
pub open spec fn type_of_object(objs: Seq<CaseObjectRecord>, oid: Seq<char>) -> Option<Seq<char>>
    decreases objs.len(),
{
    if objs.len() == 0 {
        None
    } else {
        let o = objs.last();
        if o.id is Some && o.object_type is Some && o.id->0@ == oid {
            Some(o.object_type->0@)
        } else {
            type_of_object(objs.drop_last(), oid)
        }
    }
}

/// Keys listed at most once, by their characters.
pub open spec fn names_unique<V>(m: Seq<(String, V)>) -> bool {
    forall|i: int, j: int| 0 <= i < m.len() && 0 <= j < m.len() && (#[trigger] m[i]).0@ == (#[trigger] m[j]).0@ ==> i == j
}

/// The value listed for `k`, if any.
pub open spec fn lookup_name<V>(m: Seq<(String, V)>, k: Seq<char>) -> Option<V> {
    if exists|i: int| 0 <= i < m.len() && (#[trigger] m[i]).0@ == k {
        Some(m[choose|i: int| 0 <= i < m.len() && (#[trigger] m[i]).0@ == k].1)
    } else {
        None
    }
}

proof fn lemma_lookup_at<V>(m: Seq<(String, V)>, i: int)
    requires
        names_unique(m),
        0 <= i < m.len(),
    ensures
        lookup_name(m, m[i].0@) == Some(m[i].1),
{
    let j = choose|j: int| 0 <= j < m.len() && (#[trigger] m[j]).0@ == m[i].0@;
}

/// The characters of the string listed for `k`, if any.
pub open spec fn lookup_view(m: Seq<(String, String)>, k: Seq<char>) -> Option<Seq<char>> {
    match lookup_name(m, k) {
        Some(s) => Some(s@),
        None => None,
    }
}

/// The position of key `k`, if listed.
fn position_of_key<V>(m: &Vec<(String, V)>, k: &str) -> (r: Option<usize>)
    requires
        names_unique(m@),
    ensures
        match r {
            Some(i) => i < m@.len() && m@[i as int].0@ == k@ && lookup_name(m@, k@) == Some(m@[i as int].1),
            None => lookup_name(m@, k@) is None,
        },
{
    let mut i: usize = 0;
    while i < m.len()
        invariant
            0 <= i <= m@.len(),
            names_unique(m@),
            forall|j: int| 0 <= j < i ==> (#[trigger] m@[j]).0@ != k@,
        decreases m@.len() - i,
    {
        if str_eq(m[i].0.as_str(), k) {
            proof {
                lemma_lookup_at(m@, i as int);
            }
            return Some(i);
        }
        i += 1;
    }
    None
}

/// The type of each object identifier: that of the last object with both an
/// identifier and a type.
pub fn build_object_type_map(case: &CaseRecord) -> (r: Vec<(String, String)>)
    ensures
        names_unique(r@),
        forall|oid: Seq<char>| #[trigger] lookup_view(r@, oid) == type_of_object(case.objects@, oid),
{
    let mut out: Vec<(String, String)> = Vec::new();
    let mut i: usize = 0;
    while i < case.objects.len()
        invariant
            0 <= i <= case.objects@.len(),
            names_unique(out@),
            forall|oid: Seq<char>| #[trigger] lookup_view(out@, oid) == type_of_object(case.objects@.take(i as int), oid),
        decreases case.objects@.len() - i,
    {
        let o = &case.objects[i];
        let ghost before = out@;
        proof {
            assert(case.objects@.take(i + 1).drop_last() =~= case.objects@.take(i as int));
            assert(case.objects@.take(i + 1).last() == case.objects@[i as int]);
        }
        if let (Some(id), Some(ty)) = (&o.id, &o.object_type) {
            let pos = position_of_key(&out, id.as_str());
            match pos {
                Some(p) => {
                    out.set(p, (id.clone(), ty.clone()));
                },
                None => {
                    out.push((id.clone(), ty.clone()));
                },
            }
            proof {
                let n = before.len() as int;
                let p: int = match pos { Some(p) => p as int, None => n };
                assert(out@[p].0@ == id@ && out@[p].1@ == ty@);
                assert(forall|j: int| 0 <= j < n && j != p ==> #[trigger] out@[j] == before[j]);
                assert forall|a: int, b: int| 0 <= a < out@.len() && 0 <= b < out@.len() && (#[trigger] out@[a]).0@ == (#[trigger] out@[b]).0@ implies a == b by {
                    if a != p && b != p {
                        assert(out@[a] == before[a] && out@[b] == before[b]);
                    } else if a == p && b != p {
                        assert(out@[b] == before[b]);
                        lemma_lookup_at(before, b);
                    } else if b == p && a != p {
                        assert(out@[a] == before[a]);
                        lemma_lookup_at(before, a);
                    }
                }
                assert forall|oid: Seq<char>| #[trigger] lookup_view(out@, oid) == type_of_object(case.objects@.take(i + 1), oid) by {
                    assert(lookup_view(before, oid) == type_of_object(case.objects@.take(i as int), oid));
                    if oid == id@ {
                        lemma_lookup_at(out@, p);
                    } else if exists|j: int| 0 <= j < before.len() && (#[trigger] before[j]).0@ == oid {
                        let j = choose|j: int| 0 <= j < before.len() && (#[trigger] before[j]).0@ == oid;
                        lemma_lookup_at(before, j);
                        assert(out@[j] == before[j]);
                        lemma_lookup_at(out@, j);
                    } else {
                        assert forall|j: int| 0 <= j < out@.len() implies (#[trigger] out@[j]).0@ != oid by {
                            if j != p {
                                assert(out@[j] == before[j]);
                            }
                        }
                    }
                }
            }
        } else {
            proof {
                assert forall|oid: Seq<char>| #[trigger] lookup_view(out@, oid) == type_of_object(case.objects@.take(i + 1), oid) by {
                    assert(lookup_view(before, oid) == type_of_object(case.objects@.take(i as int), oid));
                }
            }
        }
        i += 1;
    }
    proof {
        assert(case.objects@.take(i as int) =~= case.objects@);
    }
    out
}

/// The names present among `names`, in order.
pub open spec fn present_names(names: Seq<Option<String>>) -> Seq<Seq<char>>
    decreases names.len(),
{
    if names.len() == 0 {
        Seq::empty()
    } else {
        let rest = present_names(names.drop_last());
        match names.last() {
            Some(n) => rest.push(n@),
            None => rest,
        }
    }
}

/// The object type names of a case, in order, skipping entries without a name.
pub fn get_all_views_from_case(case: &CaseRecord) -> (r: Vec<String>)
    ensures
        r@.map_values(|s: String| s@) == present_names(case.object_type_names@),
{
    let mut out: Vec<String> = Vec::new();
    let mut i: usize = 0;
    while i < case.object_type_names.len()
        invariant
            0 <= i <= case.object_type_names@.len(),
            out@.map_values(|s: String| s@) == present_names(case.object_type_names@.take(i as int)),
        decreases case.object_type_names@.len() - i,
    {
        proof {
            assert(case.object_type_names@.take(i + 1).drop_last() =~= case.object_type_names@.take(i as int));
        }
        if let Some(name) = &case.object_type_names[i] {
            out.push(name.clone());
        }
        i += 1;
        assert(out@.map_values(|s: String| s@) =~= present_names(case.object_type_names@.take(i as int)));
    }
    assert(case.object_type_names@.take(i as int) =~= case.object_type_names@);
    out
}

/// `x` is an object type name of one of the cases.
pub open spec fn is_view_of(cases: Seq<CaseRecord>, x: Seq<char>) -> bool {
    exists|c: int, i: int| 0 <= c < cases.len() && 0 <= i < cases[c].object_type_names@.len()
        && (#[trigger] cases[c].object_type_names@[i]) is Some && cases[c].object_type_names@[i]->0@ == x
}

/// The object type names of all cases, each once, in increasing order.
pub fn get_all_views_global(cases: &Vec<CaseRecord>) -> (r: Vec<String>)
    ensures
        sorted_strict(r@),
        forall|x: Seq<char>| #[trigger] seq_has(r@, x) <==> is_view_of(cases@, x),
{
    let mut out: Vec<String> = Vec::new();
    let mut c: usize = 0;
    while c < cases.len()
        invariant
            0 <= c <= cases@.len(),
            sorted_strict(out@),
            forall|x: Seq<char>| #[trigger] seq_has(out@, x) <==> is_view_of(cases@.take(c as int), x),
        decreases cases@.len() - c,
    {
        let names = &cases[c].object_type_names;
        let mut i: usize = 0;
        while i < names.len()
            invariant
                0 <= c < cases@.len(),
                *names == cases@[c as int].object_type_names,
                0 <= i <= names@.len(),
                sorted_strict(out@),
                forall|x: Seq<char>| #[trigger] seq_has(out@, x) <==> (is_view_of(cases@.take(c as int), x)
                    || exists|j: int| 0 <= j < i && (#[trigger] names@[j]) is Some && names@[j]->0@ == x),
            decreases names@.len() - i,
        {
            if let Some(name) = &names[i] {
                insert_sorted(&mut out, name);
            }
            proof {
                assert forall|x: Seq<char>| #[trigger] seq_has(out@, x) <==> (is_view_of(cases@.take(c as int), x)
                    || exists|j: int| 0 <= j < i + 1 && (#[trigger] names@[j]) is Some && names@[j]->0@ == x) by {
                    if exists|j: int| 0 <= j < i + 1 && (#[trigger] names@[j]) is Some && names@[j]->0@ == x {
                        let j = choose|j: int| 0 <= j < i + 1 && (#[trigger] names@[j]) is Some && names@[j]->0@ == x;
                        if j < i {
                            assert(exists|j: int| 0 <= j < i && (#[trigger] names@[j]) is Some && names@[j]->0@ == x);
                        }
                    }
                }
            }
            i += 1;
        }
        proof {
            assert forall|x: Seq<char>| #[trigger] seq_has(out@, x) <==> is_view_of(cases@.take(c + 1), x) by {
                let t = cases@.take(c + 1);
                if is_view_of(cases@.take(c as int), x) {
                    let (c2, i2) = choose|c2: int, i2: int| 0 <= c2 < c && 0 <= i2 < cases@.take(c as int)[c2].object_type_names@.len()
                        && (#[trigger] cases@.take(c as int)[c2].object_type_names@[i2]) is Some
                        && cases@.take(c as int)[c2].object_type_names@[i2]->0@ == x;
                    assert(t[c2] == cases@[c2]);
                    assert(t[c2].object_type_names@[i2] is Some);
                }
                if exists|j: int| 0 <= j < names@.len() && (#[trigger] names@[j]) is Some && names@[j]->0@ == x {
                    let j = choose|j: int| 0 <= j < names@.len() && (#[trigger] names@[j]) is Some && names@[j]->0@ == x;
                    assert(t[c as int] == cases@[c as int]);
                    assert(t[c as int].object_type_names@[j] is Some);
                }
                if is_view_of(t, x) {
                    let (c2, i2) = choose|c2: int, i2: int| 0 <= c2 < t.len() && 0 <= i2 < t[c2].object_type_names@.len()
                        && (#[trigger] t[c2].object_type_names@[i2]) is Some && t[c2].object_type_names@[i2]->0@ == x;
                    if c2 < c {
                        assert(cases@.take(c as int)[c2] == t[c2]);
                        assert(cases@.take(c as int)[c2].object_type_names@[i2] is Some);
                    } else {
                        assert(t[c2] == cases@[c as int]);
                        assert(names@[i2] is Some);
                    }
                }
            }
        }
        c += 1;
    }
    assert(cases@.take(c as int) =~= cases@);
    out
}

/// The event types present among the first `n` events, in order.
pub open spec fn event_types_upto(evs: Seq<CaseEventRecord>, n: int) -> Seq<Seq<char>>
    decreases n,
{
    if n <= 0 {
        Seq::empty()
    } else {
        let rest = event_types_upto(evs, n - 1);
        match evs[n - 1].event_type {
            Some(t) => rest.push(t@),
            None => rest,
        }
    }
}

/// The event types present among the events of the first `c` cases, in order.
pub open spec fn all_event_types(cases: Seq<CaseRecord>, c: int) -> Seq<Seq<char>>
    decreases c,
{
    if c <= 0 {
        Seq::empty()
    } else {
        all_event_types(cases, c - 1) + event_types_upto(cases[c - 1].events@, cases[c - 1].events@.len() as int)
    }
}

/// Each name of `s` once, in the order of its first occurrence.
pub open spec fn first_occurrences(s: Seq<Seq<char>>) -> Seq<Seq<char>>
    decreases s.len(),
{
    if s.len() == 0 {
        Seq::empty()
    } else {
        let d = first_occurrences(s.drop_last());
        if d.contains(s.last()) {
            d
        } else {
            d.push(s.last())
        }
    }
}

/// The names listed by a name list.
pub open spec fn listed_names(r: Seq<(String, usize)>) -> Seq<Seq<char>> {
    r.map_values(|p: (String, usize)| p.0@)
}

/// Numbers the event types of all cases from 0, in the order of their first occurrence.
pub fn extract_event_type_ids(cases: &Vec<CaseRecord>) -> (r: Vec<(String, usize)>)
    ensures
        names_unique(r@),
        listed_names(r@) == first_occurrences(all_event_types(cases@, cases@.len() as int)),
        forall|i: int| 0 <= i < r@.len() ==> (#[trigger] r@[i]).1 == i,
{
    let mut out: Vec<(String, usize)> = Vec::new();
    let mut c: usize = 0;
    while c < cases.len()
        invariant
            0 <= c <= cases@.len(),
            names_unique(out@),
            listed_names(out@) == first_occurrences(all_event_types(cases@, c as int)),
            forall|i: int| 0 <= i < out@.len() ==> (#[trigger] out@[i]).1 == i,
        decreases cases@.len() - c,
    {
        let evs = &cases[c].events;
        let mut e: usize = 0;
        while e < evs.len()
            invariant
                0 <= c < cases@.len(),
                *evs == cases@[c as int].events,
                0 <= e <= evs@.len(),
                names_unique(out@),
                listed_names(out@) == first_occurrences(all_event_types(cases@, c as int) + event_types_upto(evs@, e as int)),
                forall|i: int| 0 <= i < out@.len() ==> (#[trigger] out@[i]).1 == i,
            decreases evs@.len() - e,
        {
            let ghost s0 = all_event_types(cases@, c as int) + event_types_upto(evs@, e as int);
            let ghost before = out@;
            if let Some(t) = &evs[e].event_type {
                let ghost s1 = s0.push(t@);
                proof {
                    assert(all_event_types(cases@, c as int) + event_types_upto(evs@, e + 1) =~= s1);
                    assert(s1.drop_last() =~= s0);
                }
                match position_of_key(&out, t.as_str()) {
                    Some(p) => {
                        proof {
                            assert(listed_names(before)[p as int] == t@);
                            assert(first_occurrences(s0).contains(t@));
                        }
                    },
                    None => {
                        let id = out.len();
                        out.push((t.clone(), id));
                        proof {
                            let n = before.len() as int;
                            assert(!first_occurrences(s0).contains(t@)) by {
                                if first_occurrences(s0).contains(t@) {
                                    let j = choose|j: int| 0 <= j < listed_names(before).len() && listed_names(before)[j] == t@;
                                    assert(before[j].0@ == t@);
                                }
                            }
                            assert(listed_names(out@) =~= listed_names(before).push(t@));
                            assert forall|a: int, b: int| 0 <= a < out@.len() && 0 <= b < out@.len() && (#[trigger] out@[a]).0@ == (#[trigger] out@[b]).0@ implies a == b by {
                                if a < n && b == n {
                                    assert(listed_names(before)[a] == t@);
                                } else if a == n && b < n {
                                    assert(listed_names(before)[b] == t@);
                                }
                            }
                        }
                    },
                }
            } else {
                proof {
                    assert(all_event_types(cases@, c as int) + event_types_upto(evs@, e + 1) =~= s0);
                }
            }
            e += 1;
        }
        proof {
            assert(all_event_types(cases@, c + 1) == all_event_types(cases@, c as int) + event_types_upto(evs@, evs@.len() as int));
        }
        c += 1;
    }
    out
}

/// The number of the first `n` events whose type is `t`.
pub open spec fn type_count(evs: Seq<CaseEventRecord>, n: int, t: Seq<char>) -> nat
    decreases n,
{
    if n <= 0 {
        0
    } else {
        type_count(evs, n - 1, t) + if evs[n - 1].event_type is Some && evs[n - 1].event_type->0@ == t { 1nat } else { 0nat }
    }
}

/// The number of events among the first `m` cases.
pub open spec fn event_total(cases: Seq<CaseRecord>, m: int) -> nat
    decreases m,
{
    if m <= 0 {
        0
    } else {
        event_total(cases, m - 1) + cases[m - 1].events@.len()
    }
}

/// Case `i` is assigned to cluster `c`, one of the first `k`.
pub open spec fn in_cluster(assignments: Seq<usize>, k: int, i: int, c: int) -> bool {
    i < assignments.len() && assignments[i] < k && assignments[i] == c
}

/// The number of events of type `t` in those of the first `m` cases that are in cluster `c`.
pub open spec fn cluster_type_count(cases: Seq<CaseRecord>, assignments: Seq<usize>, k: int, c: int, t: Seq<char>, m: int) -> nat
    decreases m,
{
    if m <= 0 {
        0
    } else {
        cluster_type_count(cases, assignments, k, c, t, m - 1)
            + if in_cluster(assignments, k, m - 1, c) { type_count(cases[m - 1].events@, cases[m - 1].events@.len() as int, t) } else { 0nat }
    }
}

proof fn lemma_type_count_le(evs: Seq<CaseEventRecord>, n: int, t: Seq<char>)
    requires
        0 <= n,
    ensures
        type_count(evs, n, t) <= n,
    decreases n,
{
    if n > 0 {
        lemma_type_count_le(evs, n - 1, t);
    }
}

proof fn lemma_cluster_count_le(cases: Seq<CaseRecord>, assignments: Seq<usize>, k: int, c: int, t: Seq<char>, m: int)
    requires
        0 <= m <= cases.len(),
    ensures
        cluster_type_count(cases, assignments, k, c, t, m) <= event_total(cases, m),
    decreases m,
{
    if m > 0 {
        lemma_cluster_count_le(cases, assignments, k, c, t, m - 1);
        lemma_type_count_le(cases[m - 1].events@, cases[m - 1].events@.len() as int, t);
    }
}

/// Reordering a name list keeps what it lists.
proof fn lemma_reordered_names(v: Seq<(String, usize)>, r: Seq<(String, usize)>, perm: Seq<int>)
    requires
        names_distinct(v),
        is_permutation(perm, v.len() as int),
        r.len() == v.len(),
        forall|q: int| 0 <= q < v.len() ==> r[q] == v[#[trigger] perm[q]],
    ensures
        names_distinct(r),
        forall|t: Seq<char>| #[trigger] listed_value(r, t) == listed_value(v, t),
        forall|t: Seq<char>| #[trigger] has_name(r, t) <==> has_name(v, t),
{
    assert forall|a: int, b: int| 0 <= a < r.len() && 0 <= b < r.len() && (#[trigger] r[a]).0@ == (#[trigger] r[b]).0@ implies a == b by {
        assert(r[a] == v[perm[a]] && r[b] == v[perm[b]]);
    }
    assert forall|t: Seq<char>| #[trigger] has_name(r, t) <==> has_name(v, t) by {
        if has_name(r, t) {
            let q = choose|q: int| 0 <= q < r.len() && (#[trigger] r[q]).0@ == t;
            assert(v[perm[q]] == r[q]);
        }
        if has_name(v, t) {
            let q = choose|q: int| 0 <= q < v.len() && (#[trigger] v[q]).0@ == t;
            lemma_permutation_onto(perm, v.len() as int, q);
            let m = choose|m: int| 0 <= m < v.len() && perm[m] == q;
            assert(r[m] == v[q]);
        }
    }
    assert forall|t: Seq<char>| #[trigger] listed_value(r, t) == listed_value(v, t) by {
        if has_name(r, t) {
            let q = choose|q: int| 0 <= q < r.len() && (#[trigger] r[q]).0@ == t;
            lemma_listed_at(r, q);
            assert(v[perm[q]] == r[q]);
            lemma_listed_at(v, perm[q]);
        }
    }
}

/// For each of `k` clusters, the number of events of each type over the cases
/// assigned to it (cases with no assignment, or one outside `0..k`, count
/// nowhere), listed by decreasing number and then by type.
pub fn compute_event_counts_per_cluster(cases: &Vec<CaseRecord>, assignments: &Vec<usize>, k: usize) -> (r: Vec<Vec<(String, usize)>>)
    requires
        event_total(cases@, cases@.len() as int) < usize::MAX,
    ensures
        r@.len() == k,
        forall|c: int| 0 <= c < k ==> {
            &&& names_distinct(#[trigger] r@[c]@)
            &&& cost_sorted(r@[c]@)
            &&& forall|t: Seq<char>| #[trigger] listed_value(r@[c]@, t) == cluster_type_count(cases@, assignments@, k as int, c, t, cases@.len() as int)
            &&& forall|t: Seq<char>| #[trigger] has_name(r@[c]@, t) <==> cluster_type_count(cases@, assignments@, k as int, c, t, cases@.len() as int) > 0
        },
{
    let mut per: Vec<Vec<(String, usize)>> = Vec::new();
    let mut c: usize = 0;
    while c < k
        invariant
            0 <= c <= k,
            per@.len() == c,
            forall|q: int| 0 <= q < c ==> (#[trigger] per@[q])@.len() == 0,
        decreases k - c,
    {
        per.push(Vec::new());
        c += 1;
    }
    let mut i: usize = 0;
    while i < cases.len()
        invariant
            0 <= i <= cases@.len(),
            per@.len() == k,
            event_total(cases@, cases@.len() as int) < usize::MAX,
            forall|q: int| 0 <= q < k ==> {
                &&& names_distinct(#[trigger] per@[q]@)
                &&& forall|t: Seq<char>| #[trigger] listed_value(per@[q]@, t) == cluster_type_count(cases@, assignments@, k as int, q, t, i as int)
                &&& forall|t: Seq<char>| #[trigger] has_name(per@[q]@, t) <==> cluster_type_count(cases@, assignments@, k as int, q, t, i as int) > 0
            },
        decreases cases@.len() - i,
    {
        if i < assignments.len() && assignments[i] < k {
            let cid = assignments[i];
            let evs = &cases[i].events;
            let mut acc = per.remove(cid);
            let mut e: usize = 0;
            while e < evs.len()
                invariant
                    0 <= i < cases@.len(),
                    *evs == cases@[i as int].events,
                    in_cluster(assignments@, k as int, i as int, cid as int),
                    0 <= e <= evs@.len(),
                    event_total(cases@, cases@.len() as int) < usize::MAX,
                    names_distinct(acc@),
                    forall|t: Seq<char>| #[trigger] listed_value(acc@, t) == cluster_type_count(cases@, assignments@, k as int, cid as int, t, i as int)
                        + type_count(evs@, e as int, t),
                    forall|t: Seq<char>| #[trigger] has_name(acc@, t) <==> cluster_type_count(cases@, assignments@, k as int, cid as int, t, i as int)
                        + type_count(evs@, e as int, t) > 0,
                decreases evs@.len() - e,
            {
                if let Some(t) = &evs[e].event_type {
                    proof {
                        lemma_cluster_count_le(cases@, assignments@, k as int, cid as int, t@, i + 1);
                        lemma_type_count_le(evs@, e as int, t@);
                        lemma_event_total_mono(cases@, i + 1, cases@.len() as int);
                        assert(cluster_type_count(cases@, assignments@, k as int, cid as int, t@, i + 1)
                            == cluster_type_count(cases@, assignments@, k as int, cid as int, t@, i as int) + type_count(evs@, evs@.len() as int, t@));
                        lemma_type_count_mono(evs@, e as int, evs@.len() as int, t@);
                    }
                    add_share(&mut acc, t, 1);
                }
                e += 1;
            }
            per.insert(cid, acc);
            proof {
                assert forall|q: int| 0 <= q < k implies {
                    &&& names_distinct(#[trigger] per@[q]@)
                    &&& forall|t: Seq<char>| #[trigger] listed_value(per@[q]@, t) == cluster_type_count(cases@, assignments@, k as int, q, t, i + 1)
                    &&& forall|t: Seq<char>| #[trigger] has_name(per@[q]@, t) <==> cluster_type_count(cases@, assignments@, k as int, q, t, i + 1) > 0
                } by {
                    assert forall|t: Seq<char>| #[trigger] listed_value(per@[q]@, t) == cluster_type_count(cases@, assignments@, k as int, q, t, i + 1) by {
                        assert(cluster_type_count(cases@, assignments@, k as int, q, t, i + 1) == cluster_type_count(cases@, assignments@, k as int, q, t, i as int)
                            + if in_cluster(assignments@, k as int, i as int, q) { type_count(evs@, evs@.len() as int, t) } else { 0nat });
                    }
                    assert forall|t: Seq<char>| #[trigger] has_name(per@[q]@, t) <==> cluster_type_count(cases@, assignments@, k as int, q, t, i + 1) > 0 by {
                        assert(cluster_type_count(cases@, assignments@, k as int, q, t, i + 1) == cluster_type_count(cases@, assignments@, k as int, q, t, i as int)
                            + if in_cluster(assignments@, k as int, i as int, q) { type_count(evs@, evs@.len() as int, t) } else { 0nat });
                    }
                }
            }
        } else {
            proof {
                assert forall|q: int, t: Seq<char>| #![trigger cluster_type_count(cases@, assignments@, k as int, q, t, i + 1)]
                    cluster_type_count(cases@, assignments@, k as int, q, t, i + 1) == cluster_type_count(cases@, assignments@, k as int, q, t, i as int) by {}
            }
        }
        i += 1;
    }
    let ghost all = per@;
    let mut rest = per;
    let mut out: Vec<Vec<(String, usize)>> = Vec::new();
    let mut c: usize = 0;
    while c < k
        invariant
            0 <= c <= k,
            all.len() == k,
            rest@ == all.skip(c as int),
            out@.len() == c,
            forall|q: int| 0 <= q < k ==> {
                &&& names_distinct(#[trigger] all[q]@)
                &&& forall|t: Seq<char>| #[trigger] listed_value(all[q]@, t) == cluster_type_count(cases@, assignments@, k as int, q, t, cases@.len() as int)
                &&& forall|t: Seq<char>| #[trigger] has_name(all[q]@, t) <==> cluster_type_count(cases@, assignments@, k as int, q, t, cases@.len() as int) > 0
            },
            forall|q: int| 0 <= q < c ==> {
                &&& names_distinct(#[trigger] out@[q]@)
                &&& cost_sorted(out@[q]@)
                &&& forall|t: Seq<char>| #[trigger] listed_value(out@[q]@, t) == cluster_type_count(cases@, assignments@, k as int, q, t, cases@.len() as int)
                &&& forall|t: Seq<char>| #[trigger] has_name(out@[q]@, t) <==> cluster_type_count(cases@, assignments@, k as int, q, t, cases@.len() as int) > 0
            },
        decreases k - c,
    {
        let v = rest.remove(0);
        proof {
            assert(v == all[c as int]);
            assert(rest@ =~= all.skip(c + 1));
        }
        let ghost vv = v@;
        let sorted = sort_costs(v);
        proof {
            let perm = choose|perm: Seq<int>| #[trigger] is_permutation(perm, vv.len() as int)
                && forall|q: int| 0 <= q < vv.len() ==> sorted@[q] == vv[#[trigger] perm[q]];
            lemma_reordered_names(vv, sorted@, perm);
        }
        out.push(sorted);
        c += 1;
    }
    out
}

proof fn lemma_type_count_mono(evs: Seq<CaseEventRecord>, a: int, b: int, t: Seq<char>)
    requires
        0 <= a <= b,
    ensures
        type_count(evs, a, t) <= type_count(evs, b, t),
    decreases b - a,
{
    if a < b {
        lemma_type_count_mono(evs, a, b - 1, t);
    }
}

proof fn lemma_event_total_mono(cases: Seq<CaseRecord>, a: int, b: int)
    requires
        0 <= a <= b,
    ensures
        event_total(cases, a) <= event_total(cases, b),
    decreases b - a,
{
    if a < b {
        lemma_event_total_mono(cases, a, b - 1);
    }
}

/// Setting the count of the entry at `i` changes only the count of its key.
proof fn lemma_count_after_set<K>(c: Seq<(K, usize)>, i: int, v: usize)
    requires
        keys_distinct(c),
        0 <= i < c.len(),
    ensures
        keys_distinct(c.update(i, (c[i].0, v))),
        forall|k: K| #[trigger] count_at(c.update(i, (c[i].0, v)), k) == if k == c[i].0 { v as nat } else { count_at(c, k) },
{
    let d = c.update(i, (c[i].0, v));
    assert forall|a: int, b: int| 0 <= a < d.len() && 0 <= b < d.len() && (#[trigger] d[a]).0 == (#[trigger] d[b]).0 implies a == b by {
        assert(d[a].0 == c[a].0 && d[b].0 == c[b].0);
    }
    assert forall|k: K| #[trigger] count_at(d, k) == if k == c[i].0 { v as nat } else { count_at(c, k) } by {
        if k == c[i].0 {
            lemma_count_at_index(d, i);
        } else if has_key(c, k) {
            let j = choose|j: int| 0 <= j < c.len() && (#[trigger] c[j]).0 == k;
            lemma_count_at_index(c, j);
            lemma_count_at_index(d, j);
        } else {
            if has_key(d, k) {
                let j = choose|j: int| 0 <= j < d.len() && (#[trigger] d[j]).0 == k;
                assert(c[j].0 == k);
            }
        }
    }
}

/// A new key added with count `v`.
proof fn lemma_count_after_push<K>(c: Seq<(K, usize)>, k0: K, v: usize)
    requires
        keys_distinct(c),
        !has_key(c, k0),
    ensures
        keys_distinct(c.push((k0, v))),
        forall|k: K| #[trigger] count_at(c.push((k0, v)), k) == if k == k0 { v as nat } else { count_at(c, k) },
{
    let d = c.push((k0, v));
    let n = c.len() as int;
    assert forall|a: int, b: int| 0 <= a < d.len() && 0 <= b < d.len() && (#[trigger] d[a]).0 == (#[trigger] d[b]).0 implies a == b by {
        if a < n && b == n {
            assert(c[a].0 == k0);
        } else if a == n && b < n {
            assert(c[b].0 == k0);
        }
    }
    assert forall|k: K| #[trigger] count_at(d, k) == if k == k0 { v as nat } else { count_at(c, k) } by {
        if k == k0 {
            lemma_count_at_index(d, n);
        } else if has_key(c, k) {
            let j = choose|j: int| 0 <= j < c.len() && (#[trigger] c[j]).0 == k;
            lemma_count_at_index(c, j);
            assert(d[j] == c[j]);
            lemma_count_at_index(d, j);
        } else {
            if has_key(d, k) {
                let j = choose|j: int| 0 <= j < d.len() && (#[trigger] d[j]).0 == k;
                assert(j < n);
                assert(c[j].0 == k);
            }
        }
    }
}

/// Adds `d` to the count of directly-follows edge `k`.
fn add_edge(c: &mut EdgeCounts, k: (usize, usize), d: usize)
    requires
        keys_distinct(old(c)@),
        count_at(old(c)@, k) + d <= usize::MAX,
    ensures
        keys_distinct(final(c)@),
        forall|k2: (usize, usize)| #[trigger] count_at(final(c)@, k2) == count_at(old(c)@, k2) + if k2 == k { d as nat } else { 0nat },
{
    let ghost c0 = c@;
    let mut i: usize = 0;
    while i < c.len()
        invariant
            0 <= i <= c@.len(),
            c@ == c0,
            forall|j: int| 0 <= j < i ==> (#[trigger] c@[j]).0 != k,
        decreases c@.len() - i,
    {
        if c[i].0.0 == k.0 && c[i].0.1 == k.1 {
            proof {
                lemma_count_at_index(c0, i as int);
                lemma_count_after_set(c0, i as int, (c0[i as int].1 + d) as usize);
            }
            let v = c[i].1 + d;
            c.set(i, (k, v));
            proof {
                assert(c@ == c0.update(i as int, (c0[i as int].0, v)));
            }
            return;
        }
        i += 1;
    }
    proof {
        lemma_count_after_push(c0, k, d);
    }
    c.push((k, d));
}

/// Counts one more event-to-object relation of event type `et` and object type `t`.
fn add_e2o(c: &mut E2OCounts, et: usize, t: &String)
    requires
        keys_distinct(e2o_view(old(c)@)),
        count_at(e2o_view(old(c)@), (et, t@)) < usize::MAX,
    ensures
        keys_distinct(e2o_view(final(c)@)),
        forall|k2: (usize, Seq<char>)| #[trigger] count_at(e2o_view(final(c)@), k2) == count_at(e2o_view(old(c)@), k2) + if k2 == (et, t@) { 1nat } else { 0nat },
{
    let ghost c0 = c@;
    let ghost v0 = e2o_view(c0);
    let mut i: usize = 0;
    while i < c.len()
        invariant
            0 <= i <= c@.len(),
            c@ == c0,
            v0 == e2o_view(c0),
            forall|j: int| 0 <= j < i ==> (#[trigger] v0[j]).0 != (et, t@),
        decreases c@.len() - i,
    {
        if c[i].0.0 == et && str_eq(c[i].0.1.as_str(), t.as_str()) {
            proof {
                assert(v0[i as int].0 == (et, t@));
                lemma_count_at_index(v0, i as int);
                lemma_count_after_set(v0, i as int, (v0[i as int].1 + 1) as usize);
            }
            let v = c[i].1 + 1;
            c.set(i, ((et, t.clone()), v));
            proof {
                assert(e2o_view(c@) =~= v0.update(i as int, (v0[i as int].0, v)));
            }
            return;
        }
        i += 1;
    }
    proof {
        lemma_count_after_push(v0, (et, t@), 1);
    }
    c.push(((et, t.clone()), 1));
    proof {
        assert(e2o_view(c@) =~= v0.push(((et, t@), 1usize)));
    }
}

/// The number of consecutive pairs of `s` equal to `k`.
pub open spec fn window_count(s: Seq<usize>, k: (usize, usize)) -> nat
    decreases s.len(),
{
    if s.len() < 2 {
        0
    } else {
        window_count(s.drop_last(), k) + if (s[s.len() - 2], s[s.len() - 1]) == k { 1nat } else { 0nat }
    }
}

proof fn lemma_window_count_le(s: Seq<usize>, k: (usize, usize))
    ensures
        window_count(s, k) <= s.len(),
    decreases s.len(),
{
    if s.len() >= 2 {
        lemma_window_count_le(s.drop_last(), k);
    }
}

/// The times of timed labels as ordering keys, with no tie-breaking name.
pub open spec fn time_keys(s: Seq<(i64, usize)>) -> Seq<(i64, Seq<char>)> {
    s.map_values(|x: (i64, usize)| (x.0, Seq::<char>::empty()))
}

/// The labels of `s` in the order `ord`.
pub open spec fn labels_in(s: Seq<(i64, usize)>, ord: Seq<usize>) -> Seq<usize> {
    Seq::new(ord.len(), |i: int| s[ord[i] as int].1)
}

/// `c` counts the consecutive label pairs of `s` ordered by time, labels of
/// equal time keeping their order.
pub open spec fn counts_windows(c: Seq<((usize, usize), usize)>, s: Seq<(i64, usize)>) -> bool {
    &&& keys_distinct(c)
    &&& exists|ord: Seq<usize>| #[trigger] sorted_positions(time_keys(s), ord)
        && forall|k: (usize, usize)| #[trigger] count_at(c, k) == window_count(labels_in(s, ord), k)
}

/// Orders timed labels by time (stably) and counts their consecutive pairs.
fn count_windows(s: &Vec<(i64, usize)>) -> (r: EdgeCounts)
    ensures
        counts_windows(r@, s@),
{
    let mut keys: Vec<(i64, String)> = Vec::new();
    let mut i: usize = 0;
    while i < s.len()
        invariant
            0 <= i <= s@.len(),
            key_views(keys@) =~= time_keys(s@).take(i as int),
        decreases s@.len() - i,
    {
        keys.push((s[i].0, String::new()));
        i += 1;
        assert(key_views(keys@) =~= time_keys(s@).take(i as int));
    }
    assert(key_views(keys@) =~= time_keys(s@));
    let ord = sort_positions(&keys);
    let ghost lab = labels_in(s@, ord@);
    let mut c: EdgeCounts = Vec::new();
    if s.len() < 2 {
        proof {
            assert forall|k: (usize, usize)| #[trigger] count_at(c@, k) == window_count(lab, k) by {}
        }
        return c;
    }
    let mut i: usize = 1;
    proof {
        assert forall|k: (usize, usize)| #[trigger] count_at(c@, k) == window_count(lab.take(1), k) by {}
    }
    while i < s.len()
        invariant
            1 <= i <= s@.len(),
            ord@.len() == s@.len(),
            forall|q: int| 0 <= q < ord@.len() ==> (#[trigger] ord@[q]) < s@.len(),
            lab == labels_in(s@, ord@),
            keys_distinct(c@),
            forall|k: (usize, usize)| #[trigger] count_at(c@, k) == window_count(lab.take(i as int), k),
        decreases s@.len() - i,
    {
        let a = s[ord[i - 1]].1;
        let b = s[ord[i]].1;
        proof {
            lemma_window_count_le(lab.take(i as int), (a, b));
            assert(lab.take(i + 1).drop_last() =~= lab.take(i as int));
        }
        add_edge(&mut c, (a, b), 1);
        i += 1;
    }
    assert(lab.take(i as int) =~= lab);
    c
}

/// The time and event type number of an event, where its time parses and its
/// type is numbered.
pub open spec fn event_key(e: CaseEventRecord, ids: Seq<(String, usize)>) -> Option<(i64, usize)> {
    match e.time {
        Some(tm) => match rfc3339_seconds(tm@) {
            Some(ts) => match e.event_type {
                Some(et) => match lookup_name(ids, et@) {
                    Some(id) => Some((ts, id)),
                    None => None,
                },
                None => None,
            },
            None => None,
        },
        None => None,
    }
}

/// Event `e` relates to an object of type `t`.
pub open spec fn event_has_type(e: CaseEventRecord, objs: Seq<CaseObjectRecord>, t: Seq<char>) -> bool {
    exists|j: int| 0 <= j < e.object_ids@.len() && (#[trigger] e.object_ids@[j]) is Some
        && type_of_object(objs, e.object_ids@[j]->0@) == Some(t)
}

fn event_key_of(e: &CaseEventRecord, ids: &Vec<(String, usize)>) -> (r: Option<(i64, usize)>)
    requires
        names_unique(ids@),
    ensures
        r == event_key(*e, ids@),
{
    match &e.time {
        None => None,
        Some(tm) => match parse_rfc3339_seconds(tm.as_str()) {
            None => None,
            Some(ts) => match &e.event_type {
                None => None,
                Some(et) => match position_of_key(ids, et.as_str()) {
                    None => None,
                    Some(p) => Some((ts, ids[p].1)),
                },
            },
        },
    }
}

/// The object types an event relates to, each once.
fn event_object_types(e: &CaseEventRecord, tmap: &Vec<(String, String)>, Ghost(objs): Ghost<Seq<CaseObjectRecord>>) -> (r: Vec<String>)
    requires
        names_unique(tmap@),
        forall|oid: Seq<char>| #[trigger] lookup_view(tmap@, oid) == type_of_object(objs, oid),
    ensures
        strings_unique(r@),
        forall|t: Seq<char>| #[trigger] seq_has(r@, t) <==> event_has_type(*e, objs, t),
{
    let mut out: Vec<String> = Vec::new();
    let mut j: usize = 0;
    while j < e.object_ids.len()
        invariant
            0 <= j <= e.object_ids@.len(),
            names_unique(tmap@),
            forall|oid: Seq<char>| #[trigger] lookup_view(tmap@, oid) == type_of_object(objs, oid),
            strings_unique(out@),
            forall|t: Seq<char>| #[trigger] seq_has(out@, t) <==> exists|j2: int| 0 <= j2 < j && (#[trigger] e.object_ids@[j2]) is Some
                && type_of_object(objs, e.object_ids@[j2]->0@) == Some(t),
        decreases e.object_ids@.len() - j,
    {
        let ghost before = out@;
        let mut found: Option<usize> = None;
        if let Some(oid) = &e.object_ids[j] {
            found = position_of_key(tmap, oid.as_str());
            proof {
                assert(lookup_view(tmap@, oid@) == type_of_object(objs, oid@));
            }
            if let Some(p) = found {
                if !contains_string(&out, &tmap[p].1) {
                    out.push(tmap[p].1.clone());
                    proof {
                        let n = before.len() as int;
                        assert forall|a: int, b: int| 0 <= a < out@.len() && 0 <= b < out@.len() && (#[trigger] out@[a])@ == (#[trigger] out@[b])@ implies a == b by {
                            if a < n && b == n {
                                assert(before[a]@ == tmap@[p as int].1@);
                            } else if a == n && b < n {
                                assert(before[b]@ == tmap@[p as int].1@);
                            }
                        }
                    }
                }
            }
        }
        proof {
            assert forall|t: Seq<char>| #[trigger] seq_has(out@, t) <==> exists|j2: int| 0 <= j2 < j + 1 && (#[trigger] e.object_ids@[j2]) is Some
                && type_of_object(objs, e.object_ids@[j2]->0@) == Some(t) by {
                let here = e.object_ids@[j as int] is Some && type_of_object(objs, e.object_ids@[j as int]->0@) == Some(t);
                if exists|j2: int| 0 <= j2 < j + 1 && (#[trigger] e.object_ids@[j2]) is Some && type_of_object(objs, e.object_ids@[j2]->0@) == Some(t) {
                    let j2 = choose|j2: int| 0 <= j2 < j + 1 && (#[trigger] e.object_ids@[j2]) is Some && type_of_object(objs, e.object_ids@[j2]->0@) == Some(t);
                    if j2 < j {
                        assert(seq_has(before, t));
                        let q = choose|q: int| 0 <= q < before.len() && (#[trigger] before[q])@ == t;
                        assert(out@[q] == before[q]);
                    } else if seq_has(before, t) {
                        let q = choose|q: int| 0 <= q < before.len() && (#[trigger] before[q])@ == t;
                        assert(out@[q] == before[q]);
                    } else {
                        assert(out@[before.len() as int]@ == t);
                    }
                }
                if seq_has(out@, t) {
                    let q = choose|q: int| 0 <= q < out@.len() && (#[trigger] out@[q])@ == t;
                    if q < before.len() {
                        assert(before[q] == out@[q]);
                        assert(seq_has(before, t));
                    } else {
                        assert(here);
                    }
                }
            }
        }
        j += 1;
    }
    out
}

/// The last position of `t` among the views, or -1.
pub open spec fn last_view(views: Seq<String>, t: Seq<char>) -> int
    decreases views.len(),
{
    if views.len() == 0 {
        -1
    } else if views.last()@ == t {
        views.len() - 1
    } else {
        last_view(views.drop_last(), t)
    }
}

proof fn lemma_last_view(views: Seq<String>, t: Seq<char>)
    ensures
        -1 <= last_view(views, t) < views.len(),
        last_view(views, t) >= 0 ==> views[last_view(views, t)]@ == t,
    decreases views.len(),
{
    if views.len() > 0 {
        lemma_last_view(views.drop_last(), t);
    }
}

fn last_view_of(views: &Vec<String>, t: &String) -> (r: Option<usize>)
    ensures
        match r {
            Some(v) => v as int == last_view(views@, t@),
            None => last_view(views@, t@) == -1,
        },
{
    let mut k: usize = views.len();
    proof {
        assert(views@.take(k as int) =~= views@);
    }
    while k > 0
        invariant
            0 <= k <= views@.len(),
            last_view(views@, t@) == last_view(views@.take(k as int), t@),
        decreases k,
    {
        proof {
            assert(views@.take(k as int).drop_last() =~= views@.take(k - 1));
            assert(views@.take(k as int).last() == views@[k - 1]);
        }
        if str_eq(views[k - 1].as_str(), t.as_str()) {
            return Some(k - 1);
        }
        k -= 1;
    }
    None
}

/// Event `e` relates to an object whose type's last view position is `v`.
pub open spec fn in_view(e: CaseEventRecord, objs: Seq<CaseObjectRecord>, views: Seq<String>, v: int) -> bool {
    exists|t: Seq<char>| #[trigger] event_has_type(e, objs, t) && last_view(views, t) == v
}

/// The times and type numbers of those of the first `n` events that have both
/// and relate to an object of the type of view `v`, in order.
pub open spec fn view_events(case: CaseRecord, ids: Seq<(String, usize)>, views: Seq<String>, v: int, n: int) -> Seq<(i64, usize)>
    decreases n,
{
    if n <= 0 {
        Seq::empty()
    } else {
        let prev = view_events(case, ids, views, v, n - 1);
        let e = case.events@[n - 1];
        match event_key(e, ids) {
            Some(p) => if in_view(e, case.objects@, views, v) { prev.push(p) } else { prev },
            None => prev,
        }
    }
}

/// The number of those of the first `n` events with a time and a type number,
/// that number being `k.0`, that relate to an object of type `k.1`.
pub open spec fn e2o_count(case: CaseRecord, ids: Seq<(String, usize)>, k: (usize, Seq<char>), n: int) -> nat
    decreases n,
{
    if n <= 0 {
        0
    } else {
        let e = case.events@[n - 1];
        e2o_count(case, ids, k, n - 1) + match event_key(e, ids) {
            Some(p) => if p.1 == k.0 && event_has_type(e, case.objects@, k.1) { 1nat } else { 0nat },
            None => 0nat,
        }
    }
}

proof fn lemma_e2o_count_le(case: CaseRecord, ids: Seq<(String, usize)>, k: (usize, Seq<char>), n: int)
    requires
        0 <= n,
    ensures
        e2o_count(case, ids, k, n) <= n,
    decreases n,
{
    if n > 0 {
        lemma_e2o_count_le(case, ids, k, n - 1);
    }
}

/// Directly-follows counts per view and event-to-object counts of a case, by
/// object type: each view orders (by time, stably) the events with a time and a
/// numbered type that relate to an object of its type, and counts their
/// consecutive type pairs; each such event counts once per object type it
/// relates to.
pub fn extract_df_and_e2o_counts_type_only(case: &CaseRecord, views: &Vec<String>, event_type_to_id: &Vec<(String, usize)>) -> (r: (Vec<EdgeCounts>, E2OCounts))
    requires
        names_unique(event_type_to_id@),
        case.events@.len() < usize::MAX,
    ensures
        r.0@.len() == views@.len(),
        forall|v: int| 0 <= v < views@.len() ==> counts_windows(#[trigger] r.0@[v]@, view_events(*case, event_type_to_id@, views@, v, case.events@.len() as int)),
        keys_distinct(e2o_view(r.1@)),
        forall|k: (usize, Seq<char>)| #[trigger] count_at(e2o_view(r.1@), k) == e2o_count(*case, event_type_to_id@, k, case.events@.len() as int),
{
    let ghost ids = event_type_to_id@;
    let ghost objs = case.objects@;
    let tmap = build_object_type_map(case);
    let mut per: Vec<Vec<(i64, usize)>> = Vec::new();
    let mut v: usize = 0;
    while v < views.len()
        invariant
            0 <= v <= views@.len(),
            per@.len() == v,
            forall|q: int| 0 <= q < v ==> (#[trigger] per@[q])@ == Seq::<(i64, usize)>::empty(),
        decreases views@.len() - v,
    {
        per.push(Vec::new());
        v += 1;
    }
    let e2o = e2o_counts_by_type(case, event_type_to_id, &tmap);
    let mut i: usize = 0;
    while i < case.events.len()
        invariant
            0 <= i <= case.events@.len(),
            case.events@.len() < usize::MAX,
            ids == event_type_to_id@,
            objs == case.objects@,
            names_unique(ids),
            names_unique(tmap@),
            forall|oid: Seq<char>| #[trigger] lookup_view(tmap@, oid) == type_of_object(objs, oid),
            per@.len() == views@.len(),
            forall|q: int| 0 <= q < views@.len() ==> (#[trigger] per@[q])@ == view_events(*case, ids, views@, q, i as int),
        decreases case.events@.len() - i,
    {
        let e = &case.events[i];
        match event_key_of(e, event_type_to_id) {
            None => {
                proof {
                    assert forall|q: int| 0 <= q < views@.len() implies (#[trigger] per@[q])@ == view_events(*case, ids, views@, q, i + 1) by {}
                }
            },
            Some(key) => {
                let types = event_object_types(e, &tmap, Ghost(objs));
                let mut q: usize = 0;
                while q < types.len()
                    invariant
                        0 <= i < case.events@.len(),
                        0 <= q <= types@.len(),
                        strings_unique(types@),
                        per@.len() == views@.len(),
                        forall|w: int| 0 <= w < views@.len() ==> (#[trigger] per@[w])@ == view_events(*case, ids, views@, w, i as int)
                            + if exists|j: int| 0 <= j < q && last_view(views@, (#[trigger] types@[j])@) == w { seq![key] } else { Seq::empty() },
                    decreases types@.len() - q,
                {
                    match last_view_of(views, &types[q]) {
                        Some(w) => {
                            proof {
                                lemma_last_view(views@, types@[q as int]@);
                                assert(!exists|j: int| 0 <= j < q && last_view(views@, (#[trigger] types@[j])@) == w) by {
                                    if exists|j: int| 0 <= j < q && last_view(views@, (#[trigger] types@[j])@) == w {
                                        let j = choose|j: int| 0 <= j < q && last_view(views@, (#[trigger] types@[j])@) == w;
                                        lemma_last_view(views@, types@[j]@);
                                    }
                                }
                            }
                            let ghost per0 = per@;
                            let mut inner = per.remove(w);
                            inner.push(key);
                            per.insert(w, inner);
                            proof {
                                assert forall|x: int| 0 <= x < views@.len() implies (#[trigger] per@[x])@ == view_events(*case, ids, views@, x, i as int)
                                    + if exists|j: int| 0 <= j < q + 1 && last_view(views@, (#[trigger] types@[j])@) == x { seq![key] } else { Seq::empty() } by {
                                    if x == w {
                                        assert(per@[x]@ =~= per0[x]@.push(key));
                                        assert(per0[x]@ =~= view_events(*case, ids, views@, x, i as int));
                                    } else {
                                        assert(per@[x] == per0[x]);
                                        if exists|j: int| 0 <= j < q + 1 && last_view(views@, (#[trigger] types@[j])@) == x {
                                            let j = choose|j: int| 0 <= j < q + 1 && last_view(views@, (#[trigger] types@[j])@) == x;
                                            assert(j != q);
                                        }
                                    }
                                }
                            }
                        },
                        None => {
                            proof {
                                assert forall|x: int| 0 <= x < views@.len() implies (#[trigger] per@[x])@ == view_events(*case, ids, views@, x, i as int)
                                    + if exists|j: int| 0 <= j < q + 1 && last_view(views@, (#[trigger] types@[j])@) == x { seq![key] } else { Seq::empty() } by {
                                    if exists|j: int| 0 <= j < q + 1 && last_view(views@, (#[trigger] types@[j])@) == x {
                                        let j = choose|j: int| 0 <= j < q + 1 && last_view(views@, (#[trigger] types@[j])@) == x;
                                        assert(j != q);
                                    }
                                }
                            }
                        },
                    }
                    q += 1;
                }
                proof {
                    assert forall|w: int| 0 <= w < views@.len() implies (#[trigger] per@[w])@ == view_events(*case, ids, views@, w, i + 1) by {
                        let ev = case.events@[i as int];
                        if in_view(ev, objs, views@, w) {
                            let t = choose|t: Seq<char>| #[trigger] event_has_type(ev, objs, t) && last_view(views@, t) == w;
                            assert(seq_has(types@, t));
                            let j = choose|j: int| 0 <= j < types@.len() && (#[trigger] types@[j])@ == t;
                            assert(last_view(views@, types@[j]@) == w);
                        } else {
                            if exists|j: int| 0 <= j < types@.len() && last_view(views@, (#[trigger] types@[j])@) == w {
                                let j = choose|j: int| 0 <= j < types@.len() && last_view(views@, (#[trigger] types@[j])@) == w;
                                assert(seq_has(types@, types@[j]@));
                                assert(event_has_type(ev, objs, types@[j]@));
                            }
                            assert(per@[w]@ =~= view_events(*case, ids, views@, w, i as int));
                        }
                    }
                }
            },
        }
        i += 1;
    }
    let mut df: Vec<EdgeCounts> = Vec::new();
    let mut v: usize = 0;
    while v < views.len()
        invariant
            0 <= v <= views@.len(),
            per@.len() == views@.len(),
            forall|q: int| 0 <= q < views@.len() ==> (#[trigger] per@[q])@ == view_events(*case, ids, views@, q, case.events@.len() as int),
            df@.len() == v,
            forall|q: int| 0 <= q < v ==> counts_windows(#[trigger] df@[q]@, view_events(*case, ids, views@, q, case.events@.len() as int)),
        decreases views@.len() - v,
    {
        let c = count_windows(&per[v]);
        df.push(c);
        v += 1;
    }
    (df, e2o)
}

/// `x` names an object whose type is known.
pub open spec fn known_id(objs: Seq<CaseObjectRecord>, x: Option<String>) -> bool {
    x is Some && type_of_object(objs, x->0@) is Some
}

/// The objects of known type among the first `j` that event `e` names, in order, repeats kept.
pub open spec fn known_oids_upto(e: CaseEventRecord, objs: Seq<CaseObjectRecord>, j: int) -> Seq<Seq<char>>
    decreases j,
{
    if j <= 0 {
        Seq::empty()
    } else {
        let prev = known_oids_upto(e, objs, j - 1);
        if known_id(objs, e.object_ids@[j - 1]) {
            prev.push(e.object_ids@[j - 1]->0@)
        } else {
            prev
        }
    }
}

/// The objects of known type named by those of the first `n` events that have a
/// time and a type number, in order, repeats kept.
pub open spec fn all_known_oids(case: CaseRecord, ids: Seq<(String, usize)>, n: int) -> Seq<Seq<char>>
    decreases n,
{
    if n <= 0 {
        Seq::empty()
    } else {
        let e = case.events@[n - 1];
        all_known_oids(case, ids, n - 1) + if event_key(e, ids) is Some {
            known_oids_upto(e, case.objects@, e.object_ids@.len() as int)
        } else {
            Seq::empty()
        }
    }
}

/// How often event `e` names object `o` among its first `j` identifiers, where `o`'s type is known.
pub open spec fn hits_upto(e: CaseEventRecord, objs: Seq<CaseObjectRecord>, o: Seq<char>, j: int) -> nat
    decreases j,
{
    if j <= 0 {
        0
    } else {
        hits_upto(e, objs, o, j - 1) + if known_id(objs, e.object_ids@[j - 1]) && e.object_ids@[j - 1]->0@ == o { 1nat } else { 0nat }
    }
}

/// The time and type number of each of the first `n` events, once per time it
/// names object `o` (of known type), in order.
pub open spec fn object_events(case: CaseRecord, ids: Seq<(String, usize)>, o: Seq<char>, n: int) -> Seq<(i64, usize)>
    decreases n,
{
    if n <= 0 {
        Seq::empty()
    } else {
        let e = case.events@[n - 1];
        object_events(case, ids, o, n - 1) + match event_key(e, ids) {
            Some(p) => Seq::new(hits_upto(e, case.objects@, o, e.object_ids@.len() as int), |q: int| p),
            None => Seq::empty(),
        }
    }
}

/// The names of a list of named entries.
pub open spec fn entry_names<V>(m: Seq<(String, V)>) -> Seq<Seq<char>> {
    m.map_values(|p: (String, V)| p.0@)
}

proof fn lemma_first_occurrences_has(s: Seq<Seq<char>>, x: Seq<char>)
    ensures
        first_occurrences(s).contains(x) <==> s.contains(x),
    decreases s.len(),
{
    if s.len() > 0 {
        let dl = s.drop_last();
        let d = first_occurrences(dl);
        let l = s.last();
        lemma_first_occurrences_has(dl, x);
        lemma_first_occurrences_has(dl, l);
        assert(s =~= dl.push(l));
        assert(s.contains(x) <==> (dl.contains(x) || x == l)) by {
            if s.contains(x) && x != l {
                let i = choose|i: int| 0 <= i < s.len() && s[i] == x;
                assert(dl[i] == x);
            }
            if dl.contains(x) {
                let i = choose|i: int| 0 <= i < dl.len() && dl[i] == x;
                assert(s[i] == x);
            }
            if x == l {
                assert(s[s.len() - 1] == x);
            }
        }
        if !d.contains(l) {
            let f = d.push(l);
            assert(f.contains(x) <==> (d.contains(x) || x == l)) by {
                if f.contains(x) && x != l {
                    let i = choose|i: int| 0 <= i < f.len() && f[i] == x;
                    assert(d[i] == x);
                }
                if d.contains(x) {
                    let i = choose|i: int| 0 <= i < d.len() && d[i] == x;
                    assert(f[i] == x);
                }
                if x == l {
                    assert(f[f.len() - 1] == x);
                }
            }
        }
    }
}

proof fn lemma_hits_zero(e: CaseEventRecord, objs: Seq<CaseObjectRecord>, o: Seq<char>, j: int)
    requires
        !known_oids_upto(e, objs, j).contains(o),
    ensures
        hits_upto(e, objs, o, j) == 0,
    decreases j,
{
    if j > 0 {
        let prev = known_oids_upto(e, objs, j - 1);
        if prev.contains(o) {
            let i = choose|i: int| 0 <= i < prev.len() && prev[i] == o;
            if known_id(objs, e.object_ids@[j - 1]) {
                assert(known_oids_upto(e, objs, j)[i] == o);
            }
        }
        lemma_hits_zero(e, objs, o, j - 1);
        if known_id(objs, e.object_ids@[j - 1]) && e.object_ids@[j - 1]->0@ == o {
            assert(known_oids_upto(e, objs, j)[prev.len() as int] == o);
        }
    }
}

proof fn lemma_object_events_empty(case: CaseRecord, ids: Seq<(String, usize)>, o: Seq<char>, n: int)
    requires
        !all_known_oids(case, ids, n).contains(o),
    ensures
        object_events(case, ids, o, n) == Seq::<(i64, usize)>::empty(),
    decreases n,
{
    if n > 0 {
        let e = case.events@[n - 1];
        let prev = all_known_oids(case, ids, n - 1);
        let all = all_known_oids(case, ids, n);
        if prev.contains(o) {
            let i = choose|i: int| 0 <= i < prev.len() && prev[i] == o;
            assert(all[i] == o);
        }
        lemma_object_events_empty(case, ids, o, n - 1);
        if event_key(e, ids) is Some {
            let k = known_oids_upto(e, case.objects@, e.object_ids@.len() as int);
            if k.contains(o) {
                let i = choose|i: int| 0 <= i < k.len() && k[i] == o;
                assert(all[prev.len() + i] == o);
            }
            lemma_hits_zero(e, case.objects@, o, e.object_ids@.len() as int);
            assert(object_events(case, ids, o, n) =~= Seq::<(i64, usize)>::empty());
        }
    }
}

/// For each object of known type named by an event with a time and a type
/// number, in the order of first naming: the times and type numbers of the
/// events naming it.
fn events_per_object(case: &CaseRecord, ids: &Vec<(String, usize)>, tmap: &Vec<(String, String)>) -> (r: Vec<(String, Vec<(i64, usize)>)>)
    requires
        names_unique(ids@),
        names_unique(tmap@),
        forall|oid: Seq<char>| #[trigger] lookup_view(tmap@, oid) == type_of_object(case.objects@, oid),
    ensures
        names_unique(r@),
        lens_sum(r@) == all_known_oids(*case, ids@, case.events@.len() as int).len(),
        entry_names(r@) == first_occurrences(all_known_oids(*case, ids@, case.events@.len() as int)),
        forall|a: int| 0 <= a < r@.len() ==> (#[trigger] r@[a]).1@ == object_events(*case, ids@, r@[a].0@, case.events@.len() as int),
{
    let ghost objs = case.objects@;
    let mut out: Vec<(String, Vec<(i64, usize)>)> = Vec::new();
    let mut i: usize = 0;
    while i < case.events.len()
        invariant
            0 <= i <= case.events@.len(),
            objs == case.objects@,
            names_unique(ids@),
            names_unique(tmap@),
            forall|oid: Seq<char>| #[trigger] lookup_view(tmap@, oid) == type_of_object(objs, oid),
            names_unique(out@),
            lens_sum(out@) == all_known_oids(*case, ids@, i as int).len(),
            entry_names(out@) == first_occurrences(all_known_oids(*case, ids@, i as int)),
            forall|a: int| 0 <= a < out@.len() ==> (#[trigger] out@[a]).1@ == object_events(*case, ids@, out@[a].0@, i as int),
        decreases case.events@.len() - i,
    {
        let e = &case.events[i];
        match event_key_of(e, ids) {
            None => {
                proof {
                    assert(all_known_oids(*case, ids@, i + 1) =~= all_known_oids(*case, ids@, i as int));
                    assert forall|a: int| 0 <= a < out@.len() implies (#[trigger] out@[a]).1@ == object_events(*case, ids@, out@[a].0@, i + 1) by {
                        assert(object_events(*case, ids@, out@[a].0@, i + 1) =~= object_events(*case, ids@, out@[a].0@, i as int));
                    }
                }
            },
            Some(key) => {
                let ghost base = all_known_oids(*case, ids@, i as int);
                let mut j: usize = 0;
                while j < e.object_ids.len()
                    invariant
                        0 <= i < case.events@.len(),
                        *e == case.events@[i as int],
                        event_key(*e, ids@) == Some(key),
                        0 <= j <= e.object_ids@.len(),
                        objs == case.objects@,
                        names_unique(tmap@),
                        forall|oid: Seq<char>| #[trigger] lookup_view(tmap@, oid) == type_of_object(objs, oid),
                        base == all_known_oids(*case, ids@, i as int),
                        names_unique(out@),
                        lens_sum(out@) == base.len() + known_oids_upto(*e, objs, j as int).len(),
                        entry_names(out@) == first_occurrences(base + known_oids_upto(*e, objs, j as int)),
                        forall|a: int| 0 <= a < out@.len() ==> (#[trigger] out@[a]).1@ == object_events(*case, ids@, out@[a].0@, i as int)
                            + Seq::new(hits_upto(*e, objs, out@[a].0@, j as int), |q: int| key),
                    decreases e.object_ids@.len() - j,
                {
                    let ghost before = out@;
                    let ghost s0 = base + known_oids_upto(*e, objs, j as int);
                    if let Some(oid) = &e.object_ids[j] {
                        let known = position_of_key(tmap, oid.as_str());
                        proof {
                            assert(lookup_view(tmap@, oid@) == type_of_object(objs, oid@));
                        }
                        if known.is_some() {
                            proof {
                                assert(known_id(objs, e.object_ids@[j as int]));
                                assert(base + known_oids_upto(*e, objs, j + 1) =~= s0.push(oid@));
                                assert(s0.push(oid@).drop_last() =~= s0);
                            }
                            match position_of_key(&out, oid.as_str()) {
                                Some(a) => {
                                    let mut entry = out.remove(a);
                                    entry.1.push(key);
                                    out.insert(a, entry);
                                    proof {
                                        assert(out@ == before.update(a as int, out@[a as int]));
                                        lemma_lens_sum_update(before, a as int, out@[a as int]);
                                        assert(entry_names(before)[a as int] == oid@);
                                        assert(first_occurrences(s0).contains(oid@));
                                        assert(entry_names(out@) =~= entry_names(before));
                                        assert(forall|b: int| 0 <= b < out@.len() && b != a ==> #[trigger] out@[b] == before[b]);
                                        assert forall|x: int, y: int| 0 <= x < out@.len() && 0 <= y < out@.len() && (#[trigger] out@[x]).0@ == (#[trigger] out@[y]).0@ implies x == y by {
                                            assert(out@[x].0@ == before[x].0@ && out@[y].0@ == before[y].0@);
                                        }
                                        assert forall|b: int| 0 <= b < out@.len() implies (#[trigger] out@[b]).1@ == object_events(*case, ids@, out@[b].0@, i as int)
                                            + Seq::new(hits_upto(*e, objs, out@[b].0@, j + 1), |q: int| key) by {
                                            if b == a {
                                                assert(out@[b].1@ =~= before[b].1@.push(key));
                                                assert(object_events(*case, ids@, out@[b].0@, i as int)
                                                    + Seq::new(hits_upto(*e, objs, out@[b].0@, j + 1), |q: int| key)
                                                    =~= (object_events(*case, ids@, out@[b].0@, i as int)
                                                    + Seq::new(hits_upto(*e, objs, out@[b].0@, j as int), |q: int| key)).push(key));
                                            } else {
                                                assert(before[b].0@ != oid@) by {
                                                    if before[b].0@ == oid@ {
                                                        lemma_lookup_at(before, b);
                                                        lemma_lookup_at(before, a as int);
                                                    }
                                                }
                                            }
                                        }
                                    }
                                },
                                None => {
                                    let mut evs: Vec<(i64, usize)> = Vec::new();
                                    evs.push(key);
                                    out.push((oid.clone(), evs));
                                    proof {
                                        assert(out@.drop_last() =~= before);
                                        let n = before.len() as int;
                                        assert(!first_occurrences(s0).contains(oid@)) by {
                                            if first_occurrences(s0).contains(oid@) {
                                                let x = choose|x: int| 0 <= x < entry_names(before).len() && entry_names(before)[x] == oid@;
                                                assert(before[x].0@ == oid@);
                                            }
                                        }
                                        lemma_first_occurrences_has(s0, oid@);
                                        assert(!base.contains(oid@)) by {
                                            if base.contains(oid@) {
                                                let x = choose|x: int| 0 <= x < base.len() && base[x] == oid@;
                                                assert(s0[x] == oid@);
                                            }
                                        }
                                        assert(!known_oids_upto(*e, objs, j as int).contains(oid@)) by {
                                            if known_oids_upto(*e, objs, j as int).contains(oid@) {
                                                let x = choose|x: int| 0 <= x < known_oids_upto(*e, objs, j as int).len() && known_oids_upto(*e, objs, j as int)[x] == oid@;
                                                assert(s0[base.len() + x] == oid@);
                                            }
                                        }
                                        lemma_object_events_empty(*case, ids@, oid@, i as int);
                                        lemma_hits_zero(*e, objs, oid@, j as int);
                                        assert(entry_names(out@) =~= entry_names(before).push(oid@));
                                        assert forall|x: int, y: int| 0 <= x < out@.len() && 0 <= y < out@.len() && (#[trigger] out@[x]).0@ == (#[trigger] out@[y]).0@ implies x == y by {
                                            if x < n && y == n {
                                                assert(entry_names(before)[x] == oid@);
                                            } else if x == n && y < n {
                                                assert(entry_names(before)[y] == oid@);
                                            }
                                        }
                                        assert forall|b: int| 0 <= b < out@.len() implies (#[trigger] out@[b]).1@ == object_events(*case, ids@, out@[b].0@, i as int)
                                            + Seq::new(hits_upto(*e, objs, out@[b].0@, j + 1), |q: int| key) by {
                                            if b == n {
                                                assert(out@[b].1@ =~= object_events(*case, ids@, out@[b].0@, i as int)
                                                    + Seq::new(hits_upto(*e, objs, out@[b].0@, j + 1), |q: int| key));
                                            } else {
                                                assert(out@[b] == before[b]);
                                                assert(before[b].0@ != oid@) by {
                                                    if before[b].0@ == oid@ {
                                                        assert(entry_names(before)[b] == oid@);
                                                    }
                                                }
                                            }
                                        }
                                    }
                                },
                            }
                        } else {
                            proof {
                                assert(!known_id(objs, e.object_ids@[j as int]));
                                assert(base + known_oids_upto(*e, objs, j + 1) =~= s0);
                                assert forall|b: int| 0 <= b < out@.len() implies (#[trigger] out@[b]).1@ == object_events(*case, ids@, out@[b].0@, i as int)
                                    + Seq::new(hits_upto(*e, objs, out@[b].0@, j + 1), |q: int| key) by {}
                            }
                        }
                    } else {
                        proof {
                            assert(base + known_oids_upto(*e, objs, j + 1) =~= s0);
                            assert forall|b: int| 0 <= b < out@.len() implies (#[trigger] out@[b]).1@ == object_events(*case, ids@, out@[b].0@, i as int)
                                + Seq::new(hits_upto(*e, objs, out@[b].0@, j + 1), |q: int| key) by {}
                        }
                    }
                    j += 1;
                }
                proof {
                    assert(all_known_oids(*case, ids@, i + 1) =~= base + known_oids_upto(*e, objs, e.object_ids@.len() as int));
                }
            },
        }
        i += 1;
    }
    out
}

/// The total length of the entries' lists.
pub open spec fn lens_sum(m: Seq<(String, Vec<(i64, usize)>)>) -> nat
    decreases m.len(),
{
    if m.len() == 0 {
        0
    } else {
        lens_sum(m.drop_last()) + m.last().1@.len()
    }
}

proof fn lemma_lens_sum_update(m: Seq<(String, Vec<(i64, usize)>)>, a: int, x: (String, Vec<(i64, usize)>))
    requires
        0 <= a < m.len(),
    ensures
        lens_sum(m.update(a, x)) + m[a].1@.len() == lens_sum(m) + x.1@.len(),
    decreases m.len(),
{
    if a < m.len() - 1 {
        lemma_lens_sum_update(m.drop_last(), a, x);
        assert(m.update(a, x).drop_last() =~= m.drop_last().update(a, x));
    } else {
        assert(m.update(a, x).drop_last() =~= m.drop_last());
    }
}

/// The number of object identifiers of the first `n` events.
pub open spec fn relation_count(case: CaseRecord, n: int) -> nat
    decreases n,
{
    if n <= 0 {
        0
    } else {
        relation_count(case, n - 1) + case.events@[n - 1].object_ids@.len()
    }
}

proof fn lemma_known_upto_le(e: CaseEventRecord, objs: Seq<CaseObjectRecord>, j: int)
    requires
        0 <= j,
    ensures
        known_oids_upto(e, objs, j).len() <= j,
    decreases j,
{
    if j > 0 {
        lemma_known_upto_le(e, objs, j - 1);
    }
}

proof fn lemma_all_known_le(case: CaseRecord, ids: Seq<(String, usize)>, n: int)
    requires
        0 <= n <= case.events@.len(),
    ensures
        all_known_oids(case, ids, n).len() <= relation_count(case, n),
    decreases n,
{
    if n > 0 {
        lemma_all_known_le(case, ids, n - 1);
        let e = case.events@[n - 1];
        lemma_known_upto_le(e, case.objects@, e.object_ids@.len() as int);
    }
}

proof fn lemma_lens_sum_prefix(m: Seq<(String, Vec<(i64, usize)>)>, i: int)
    requires
        0 <= i <= m.len(),
    ensures
        lens_sum(m.take(i)) <= lens_sum(m),
    decreases m.len(),
{
    if i < m.len() {
        lemma_lens_sum_prefix(m.drop_last(), i);
        assert(m.drop_last().take(i) =~= m.take(i));
    } else {
        assert(m.take(i) =~= m);
    }
}

/// The time order of timed labels: by time, labels of equal time keeping their order.
pub open spec fn time_order(s: Seq<(i64, usize)>) -> Seq<usize> {
    choose|ord: Seq<usize>| sorted_positions(time_keys(s), ord)
}

/// The number of consecutive label pairs of `s`, in time order, equal to `k`.
pub open spec fn ordered_window_count(s: Seq<(i64, usize)>, k: (usize, usize)) -> nat {
    window_count(labels_in(s, time_order(s)), k)
}

proof fn lemma_counts_windows_exact(c: Seq<((usize, usize), usize)>, s: Seq<(i64, usize)>)
    requires
        counts_windows(c, s),
    ensures
        forall|k: (usize, usize)| #[trigger] count_at(c, k) == ordered_window_count(s, k),
        forall|k: (usize, usize)| #[trigger] count_at(c, k) <= s.len(),
{
    let ord = choose|ord: Seq<usize>| #[trigger] sorted_positions(time_keys(s), ord)
        && forall|k: (usize, usize)| #[trigger] count_at(c, k) == window_count(labels_in(s, ord), k);
    lemma_sorted_positions_unique(time_keys(s), ord, time_order(s));
    assert forall|k: (usize, usize)| #[trigger] count_at(c, k) <= s.len() by {
        lemma_window_count_le(labels_in(s, ord), k);
    }
}

/// Adds the counts of `src` to those of `dst`.
fn add_counts(dst: &mut EdgeCounts, src: &EdgeCounts)
    requires
        keys_distinct(old(dst)@),
        keys_distinct(src@),
        forall|k: (usize, usize)| #[trigger] count_at(old(dst)@, k) + count_at(src@, k) <= usize::MAX,
    ensures
        keys_distinct(final(dst)@),
        forall|k: (usize, usize)| #[trigger] count_at(final(dst)@, k) == count_at(old(dst)@, k) + count_at(src@, k),
{
    let ghost d0 = dst@;
    let mut i: usize = 0;
    proof {
        assert forall|k: (usize, usize)| #[trigger] count_at(dst@, k) == count_at(d0, k) + count_at(src@.take(0), k) by {}
    }
    while i < src.len()
        invariant
            0 <= i <= src@.len(),
            keys_distinct(src@),
            keys_distinct(dst@),
            forall|k: (usize, usize)| #[trigger] count_at(d0, k) + count_at(src@, k) <= usize::MAX,
            forall|k: (usize, usize)| #[trigger] count_at(dst@, k) == count_at(d0, k) + count_at(src@.take(i as int), k),
        decreases src@.len() - i,
    {
        let ghost t = src@.take(i as int);
        let k0 = src[i].0;
        proof {
            assert(src@.take(i + 1) =~= t.push(src@[i as int]));
            assert(keys_distinct(t));
            assert(!has_key(t, k0)) by {
                if has_key(t, k0) {
                    let j = choose|j: int| 0 <= j < t.len() && (#[trigger] t[j]).0 == k0;
                    assert(src@[j].0 == src@[i as int].0);
                }
            }
            lemma_count_after_push(t, k0, src@[i as int].1);
            lemma_count_at_index(src@, i as int);
        }
        add_edge(dst, k0, src[i].1);
        i += 1;
    }
    assert(src@.take(i as int) =~= src@);
}

/// The directly-follows counts of the first `m` objects of `os` whose type's
/// view is `w`, each over its own events in time order.
pub open spec fn object_df_sum(case: CaseRecord, ids: Seq<(String, usize)>, views: Seq<String>, os: Seq<Seq<char>>, w: int, k: (usize, usize), m: int) -> nat
    decreases m,
{
    if m <= 0 {
        0
    } else {
        object_df_sum(case, ids, views, os, w, k, m - 1) + match type_of_object(case.objects@, os[m - 1]) {
            Some(t) => if last_view(views, t) == w {
                ordered_window_count(object_events(case, ids, os[m - 1], case.events@.len() as int), k)
            } else {
                0nat
            },
            None => 0nat,
        }
    }
}

/// Directly-follows counts per view and event-to-object counts of a case, by
/// object: each object of known type orders (by time, stably) the events with a
/// time and a numbered type that name it, once per naming, and its consecutive
/// type pairs count in the view of its type; event-to-object counts as for the
/// counts by object type.
pub fn extract_df_and_e2o_counts_object_instance(case: &CaseRecord, views: &Vec<String>, event_type_to_id: &Vec<(String, usize)>) -> (r: (Vec<EdgeCounts>, E2OCounts))
    requires
        names_unique(event_type_to_id@),
        case.events@.len() < usize::MAX,
        relation_count(*case, case.events@.len() as int) < usize::MAX,
    ensures
        r.0@.len() == views@.len(),
        forall|w: int| 0 <= w < views@.len() ==> {
            &&& keys_distinct(#[trigger] r.0@[w]@)
            &&& forall|k: (usize, usize)| #[trigger] count_at(r.0@[w]@, k) == object_df_sum(*case, event_type_to_id@, views@,
                first_occurrences(all_known_oids(*case, event_type_to_id@, case.events@.len() as int)), w, k,
                first_occurrences(all_known_oids(*case, event_type_to_id@, case.events@.len() as int)).len() as int)
        },
        keys_distinct(e2o_view(r.1@)),
        forall|k: (usize, Seq<char>)| #[trigger] count_at(e2o_view(r.1@), k) == e2o_count(*case, event_type_to_id@, k, case.events@.len() as int),
{
    let ghost ids = event_type_to_id@;
    let ghost n = case.events@.len() as int;
    let tmap = build_object_type_map(case);
    let e2o = e2o_counts_by_type(case, event_type_to_id, &tmap);
    let list = events_per_object(case, event_type_to_id, &tmap);
    let ghost os = first_occurrences(all_known_oids(*case, ids, n));
    proof {
        lemma_all_known_le(*case, ids, n);
    }
    let mut df: Vec<EdgeCounts> = Vec::new();
    let mut v: usize = 0;
    while v < views.len()
        invariant
            0 <= v <= views@.len(),
            df@.len() == v,
            forall|q: int| 0 <= q < v ==> (#[trigger] df@[q])@ == Seq::<((usize, usize), usize)>::empty(),
        decreases views@.len() - v,
    {
        df.push(Vec::new());
        v += 1;
    }
    proof {
        assert forall|w: int| 0 <= w < views@.len() implies {
            &&& keys_distinct(#[trigger] df@[w]@)
            &&& forall|k: (usize, usize)| #[trigger] count_at(df@[w]@, k) == object_df_sum(*case, ids, views@, os, w, k, 0)
            &&& forall|k: (usize, usize)| #[trigger] count_at(df@[w]@, k) <= lens_sum(list@.take(0))
        } by {
            assert(list@.take(0) =~= Seq::<(String, Vec<(i64, usize)>)>::empty());
        }
    }
    let mut m: usize = 0;
    while m < list.len()
        invariant
            0 <= m <= list@.len(),
            n == case.events@.len(),
            names_unique(tmap@),
            forall|oid: Seq<char>| #[trigger] lookup_view(tmap@, oid) == type_of_object(case.objects@, oid),
            entry_names(list@) == os,
            forall|a: int| 0 <= a < list@.len() ==> (#[trigger] list@[a]).1@ == object_events(*case, ids, list@[a].0@, n),
            lens_sum(list@) <= relation_count(*case, n),
            relation_count(*case, n) < usize::MAX,
            df@.len() == views@.len(),
            forall|w: int| 0 <= w < views@.len() ==> {
                &&& keys_distinct(#[trigger] df@[w]@)
                &&& forall|k: (usize, usize)| #[trigger] count_at(df@[w]@, k) == object_df_sum(*case, ids, views@, os, w, k, m as int)
                &&& forall|k: (usize, usize)| #[trigger] count_at(df@[w]@, k) <= lens_sum(list@.take(m as int))
            },
        decreases list@.len() - m,
    {
        let ghost o = list@[m as int].0@;
        let ghost s = list@[m as int].1@;
        proof {
            assert(os[m as int] == o);
            assert(list@.take(m + 1).drop_last() =~= list@.take(m as int));
            lemma_lens_sum_prefix(list@, m + 1);
        }
        let mut target: Option<usize> = None;
        match position_of_key(&tmap, list[m].0.as_str()) {
            Some(p) => {
                proof {
                    assert(lookup_view(tmap@, o) == type_of_object(case.objects@, o));
                }
                target = last_view_of(views, &tmap[p].1);
                proof {
                    lemma_last_view(views@, tmap@[p as int].1@);
                }
            },
            None => {
                proof {
                    assert(lookup_view(tmap@, o) == type_of_object(case.objects@, o));
                }
            },
        }
        match target {
            Some(w) => {
                let c = count_windows(&list[m].1);
                proof {
                    lemma_counts_windows_exact(c@, s);
                }
                let ghost df0 = df@;
                let mut dst = df.remove(w);
                add_counts(&mut dst, &c);
                df.insert(w, dst);
                proof {
                    assert forall|x: int| 0 <= x < views@.len() implies {
                        &&& keys_distinct(#[trigger] df@[x]@)
                        &&& forall|k: (usize, usize)| #[trigger] count_at(df@[x]@, k) == object_df_sum(*case, ids, views@, os, x, k, m + 1)
                        &&& forall|k: (usize, usize)| #[trigger] count_at(df@[x]@, k) <= lens_sum(list@.take(m + 1))
                    } by {
                        if x != w {
                            assert(df@[x] == df0[x]);
                        }
                    }
                }
            },
            None => {
                proof {
                    assert forall|x: int| 0 <= x < views@.len() implies {
                        &&& keys_distinct(#[trigger] df@[x]@)
                        &&& forall|k: (usize, usize)| #[trigger] count_at(df@[x]@, k) == object_df_sum(*case, ids, views@, os, x, k, m + 1)
                        &&& forall|k: (usize, usize)| #[trigger] count_at(df@[x]@, k) <= lens_sum(list@.take(m + 1))
                    } by {}
                }
            },
        }
        m += 1;
    }
    (df, e2o)
}

/// Event-to-object counts by object type: each event with a time and a
/// numbered type counts once per object type it relates to.
fn e2o_counts_by_type(case: &CaseRecord, event_type_to_id: &Vec<(String, usize)>, tmap: &Vec<(String, String)>) -> (r: E2OCounts)
    requires
        names_unique(event_type_to_id@),
        names_unique(tmap@),
        forall|oid: Seq<char>| #[trigger] lookup_view(tmap@, oid) == type_of_object(case.objects@, oid),
        case.events@.len() < usize::MAX,
    ensures
        keys_distinct(e2o_view(r@)),
        forall|k: (usize, Seq<char>)| #[trigger] count_at(e2o_view(r@), k) == e2o_count(*case, event_type_to_id@, k, case.events@.len() as int),
{
    let ghost ids = event_type_to_id@;
    let ghost objs = case.objects@;
    let mut e2o: E2OCounts = Vec::new();
    let mut i: usize = 0;
    while i < case.events.len()
        invariant
            0 <= i <= case.events@.len(),
            case.events@.len() < usize::MAX,
            ids == event_type_to_id@,
            objs == case.objects@,
            names_unique(ids),
            names_unique(tmap@),
            forall|oid: Seq<char>| #[trigger] lookup_view(tmap@, oid) == type_of_object(objs, oid),
            keys_distinct(e2o_view(e2o@)),
            forall|k: (usize, Seq<char>)| #[trigger] count_at(e2o_view(e2o@), k) == e2o_count(*case, ids, k, i as int),
        decreases case.events@.len() - i,
    {
        let e = &case.events[i];
        match event_key_of(e, event_type_to_id) {
            None => {
                proof {
                    assert forall|k: (usize, Seq<char>)| #[trigger] count_at(e2o_view(e2o@), k) == e2o_count(*case, ids, k, i + 1) by {}
                }
            },
            Some(key) => {
                let etid = key.1;
                let types = event_object_types(e, tmap, Ghost(objs));
                let mut q: usize = 0;
                while q < types.len()
                    invariant
                        0 <= i < case.events@.len(),
                        case.events@.len() < usize::MAX,
                        0 <= q <= types@.len(),
                        strings_unique(types@),
                        keys_distinct(e2o_view(e2o@)),
                        forall|k: (usize, Seq<char>)| #[trigger] count_at(e2o_view(e2o@), k) == e2o_count(*case, ids, k, i as int)
                            + if k.0 == etid && exists|j: int| 0 <= j < q && (#[trigger] types@[j])@ == k.1 { 1nat } else { 0nat },
                    decreases types@.len() - q,
                {
                    proof {
                        lemma_e2o_count_le(*case, ids, (etid, types@[q as int]@), i as int);
                        assert(!exists|j: int| 0 <= j < q && (#[trigger] types@[j])@ == types@[q as int]@);
                    }
                    add_e2o(&mut e2o, etid, &types[q]);
                    proof {
                        assert forall|k: (usize, Seq<char>)| #[trigger] count_at(e2o_view(e2o@), k) == e2o_count(*case, ids, k, i as int)
                            + if k.0 == etid && exists|j: int| 0 <= j < q + 1 && (#[trigger] types@[j])@ == k.1 { 1nat } else { 0nat } by {
                            if k.0 == etid && exists|j: int| 0 <= j < q + 1 && (#[trigger] types@[j])@ == k.1 {
                                let j = choose|j: int| 0 <= j < q + 1 && (#[trigger] types@[j])@ == k.1;
                                if j < q {
                                    assert(exists|j: int| 0 <= j < q && (#[trigger] types@[j])@ == k.1);
                                }
                            }
                        }
                    }
                    q += 1;
                }
                proof {
                    assert forall|k: (usize, Seq<char>)| #[trigger] count_at(e2o_view(e2o@), k) == e2o_count(*case, ids, k, i + 1) by {
                        assert((exists|j: int| 0 <= j < types@.len() && (#[trigger] types@[j])@ == k.1) <==> seq_has(types@, k.1));
                    }
                }
            },
        }
        i += 1;
    }
    e2o
}

} // verus!
