//! Splitting the logs of the miner along a cut: each part of the partition gets
//! the events of its activities, with the types and objects that they still use.
use vstd::prelude::*;
use crate::clustering::case_counts::{labels_in, time_keys, time_order};
use crate::ocgraphconf_case_compare::{key_views, lemma_sorted_positions_unique, sort_positions, sorted_positions};
use crate::ocim::auxiliary_methods::{get_divergent_types, is_divergent_type};
use crate::ocim::common_data::{GlobalData, LocalData};
use crate::ocim::components::{group_indices, is_component_grouping, marked_edges, square, union_components};
use crate::ocim::model::{contains_string, dfg_of, has_count_key, has_dfg, lookup_dfg, seq_has, strings_unique};
use crate::ocpt::OCPTOperatorType;
use crate::text::{str_eq, views};

verus! {

/// An event of a log: identifier, activity, time (a number that orders the
/// instants) and the objects of its relationships in order.
#[derive(Debug, Clone)]
pub struct OcEvent {
    pub id: String,
    pub activity: String,
    pub time: i64,
    pub object_ids: Vec<String>,
}

/// An object of a log.
#[derive(Debug, Clone)]
pub struct OcObject {
    pub id: String,
    pub object_type: String,
}

/// An object-centric log: the names of its event and object types, its events and its objects.
#[derive(Debug, Clone)]
pub struct OcLog {
    pub event_types: Vec<String>,
    pub object_types: Vec<String>,
    pub events: Vec<OcEvent>,
    pub objects: Vec<OcObject>,
}

/// Two events agree in every field.
pub open spec fn same_event(a: OcEvent, b: OcEvent) -> bool {
    a.id@ == b.id@ && a.activity@ == b.activity@ && a.time == b.time && views(a.object_ids@) == views(b.object_ids@)
}

/// Two objects agree in every field.
pub open spec fn same_object(a: OcObject, b: OcObject) -> bool {
    a.id@ == b.id@ && a.object_type@ == b.object_type@
}

/// The first `n` events whose flag is set, in order.
pub open spec fn kept_events(evs: Seq<OcEvent>, flags: Seq<bool>, n: int) -> Seq<OcEvent>
    decreases n,
{
    if n <= 0 {
        Seq::empty()
    } else {
        let prev = kept_events(evs, flags, n - 1);
        if flags[n - 1] { prev.push(evs[n - 1]) } else { prev }
    }
}

/// Some of the events has activity `a`.
pub open spec fn uses_activity(evs: Seq<OcEvent>, a: Seq<char>) -> bool {
    exists|k: int| 0 <= k < evs.len() && (#[trigger] evs[k]).activity@ == a
}

/// Some of the events relates to object `o`.
pub open spec fn references(evs: Seq<OcEvent>, o: Seq<char>) -> bool {
    exists|k: int| 0 <= k < evs.len() && seq_has((#[trigger] evs[k]).object_ids@, o)
}

/// The first `n` objects that one of the events relates to, in order.
pub open spec fn kept_objects(objs: Seq<OcObject>, evs: Seq<OcEvent>, n: int) -> Seq<OcObject>
    decreases n,
{
    if n <= 0 {
        Seq::empty()
    } else {
        let prev = kept_objects(objs, evs, n - 1);
        if references(evs, objs[n - 1].id@) { prev.push(objs[n - 1]) } else { prev }
    }
}

/// The first `n` event type names that one of the events uses, in order.
pub open spec fn kept_event_types(names: Seq<String>, evs: Seq<OcEvent>, n: int) -> Seq<String>
    decreases n,
{
    if n <= 0 {
        Seq::empty()
    } else {
        let prev = kept_event_types(names, evs, n - 1);
        if uses_activity(evs, names[n - 1]@) { prev.push(names[n - 1]) } else { prev }
    }
}

/// Some of the objects has type `t`.
pub open spec fn uses_type(objs: Seq<OcObject>, t: Seq<char>) -> bool {
    exists|k: int| 0 <= k < objs.len() && (#[trigger] objs[k]).object_type@ == t
}

/// The first `n` object type names that one of the objects uses, in order.
pub open spec fn kept_object_types(names: Seq<String>, objs: Seq<OcObject>, n: int) -> Seq<String>
    decreases n,
{
    if n <= 0 {
        Seq::empty()
    } else {
        let prev = kept_object_types(names, objs, n - 1);
        if uses_type(objs, names[n - 1]@) { prev.push(names[n - 1]) } else { prev }
    }
}

/// `out` is `src` cut down to the events whose flag is set, the event types
/// they use, the objects they relate to and those objects' types, all in the
/// order of `src`.
pub open spec fn is_cleaned(src: OcLog, flags: Seq<bool>, out: OcLog) -> bool {
    let ev = kept_events(src.events@, flags, src.events@.len() as int);
    let ob = kept_objects(src.objects@, ev, src.objects@.len() as int);
    &&& out.events@.len() == ev.len()
    &&& forall|k: int| 0 <= k < ev.len() ==> same_event(#[trigger] out.events@[k], ev[k])
    &&& out.objects@.len() == ob.len()
    &&& forall|k: int| 0 <= k < ob.len() ==> same_object(#[trigger] out.objects@[k], ob[k])
    &&& views(out.event_types@) == views(kept_event_types(src.event_types@, ev, src.event_types@.len() as int))
    &&& views(out.object_types@) == views(kept_object_types(src.object_types@, ob, src.object_types@.len() as int))
}

fn copy_strings(v: &Vec<String>) -> (r: Vec<String>)
    ensures
        r@ == v@,
{
    let mut out: Vec<String> = Vec::new();
    let mut i: usize = 0;
    while i < v.len()
        invariant
            0 <= i <= v@.len(),
            out@ == v@.take(i as int),
        decreases v@.len() - i,
    {
        out.push(v[i].clone());
        i += 1;
        assert(out@ =~= v@.take(i as int));
    }
    assert(v@.take(i as int) =~= v@);
    out
}

fn copy_event(e: &OcEvent) -> (r: OcEvent)
    ensures
        same_event(r, *e),
{
    OcEvent { id: e.id.clone(), activity: e.activity.clone(), time: e.time, object_ids: copy_strings(&e.object_ids) }
}

/// Whether some of the events relates to object `o`.
fn any_references(evs: &Vec<OcEvent>, o: &String) -> (r: bool)
    ensures
        r == references(evs@, o@),
{
    let mut k: usize = 0;
    while k < evs.len()
        invariant
            0 <= k <= evs@.len(),
            forall|j: int| 0 <= j < k ==> !seq_has((#[trigger] evs@[j]).object_ids@, o@),
        decreases evs@.len() - k,
    {
        if contains_string(&evs[k].object_ids, o) {
            return true;
        }
        k += 1;
    }
    false
}

/// The log cut down to the events whose flag is set.
pub fn clean_log(src: &OcLog, flags: &Vec<bool>) -> (r: OcLog)
    requires
        flags@.len() == src.events@.len(),
    ensures
        is_cleaned(*src, flags@, r),
{
    let ghost ev = kept_events(src.events@, flags@, src.events@.len() as int);
    let mut events: Vec<OcEvent> = Vec::new();
    let mut i: usize = 0;
    while i < src.events.len()
        invariant
            0 <= i <= src.events@.len(),
            flags@.len() == src.events@.len(),
            events@.len() == kept_events(src.events@, flags@, i as int).len(),
            forall|k: int| 0 <= k < events@.len() ==> same_event(#[trigger] events@[k], kept_events(src.events@, flags@, i as int)[k]),
        decreases src.events@.len() - i,
    {
        if flags[i] {
            events.push(copy_event(&src.events[i]));
        }
        i += 1;
    }
    // the kept events seen through their copies
    proof {
        assert forall|o: Seq<char>| references(events@, o) <==> references(ev, o) by {
            if references(events@, o) {
                let k = choose|k: int| 0 <= k < events@.len() && seq_has((#[trigger] events@[k]).object_ids@, o);
                let j = choose|j: int| 0 <= j < events@[k].object_ids@.len() && (#[trigger] events@[k].object_ids@[j])@ == o;
                assert(same_event(events@[k], ev[k]));
                assert(views(events@[k].object_ids@)[j] == o);
                assert(views(ev[k].object_ids@).len() == ev[k].object_ids@.len());
                assert(views(ev[k].object_ids@)[j] == ev[k].object_ids@[j]@);
                assert(ev[k].object_ids@[j]@ == o);
                assert(seq_has(ev[k].object_ids@, o));
            }
            if references(ev, o) {
                let k = choose|k: int| 0 <= k < ev.len() && seq_has((#[trigger] ev[k]).object_ids@, o);
                let j = choose|j: int| 0 <= j < ev[k].object_ids@.len() && (#[trigger] ev[k].object_ids@[j])@ == o;
                assert(same_event(events@[k], ev[k]));
                assert(views(ev[k].object_ids@)[j] == o);
                assert(views(events@[k].object_ids@).len() == events@[k].object_ids@.len());
                assert(views(events@[k].object_ids@)[j] == events@[k].object_ids@[j]@);
                assert(events@[k].object_ids@[j]@ == o);
                assert(seq_has(events@[k].object_ids@, o));
            }
        }
        assert forall|a: Seq<char>| uses_activity(events@, a) <==> uses_activity(ev, a) by {
            if uses_activity(events@, a) {
                let k = choose|k: int| 0 <= k < events@.len() && (#[trigger] events@[k]).activity@ == a;
                assert(same_event(events@[k], ev[k]));
            }
            if uses_activity(ev, a) {
                let k = choose|k: int| 0 <= k < ev.len() && (#[trigger] ev[k]).activity@ == a;
                assert(same_event(events@[k], ev[k]));
            }
        }
    }
    let mut objects: Vec<OcObject> = Vec::new();
    let mut i: usize = 0;
    while i < src.objects.len()
        invariant
            0 <= i <= src.objects@.len(),
            forall|o: Seq<char>| references(events@, o) <==> references(ev, o),
            objects@.len() == kept_objects(src.objects@, ev, i as int).len(),
            forall|k: int| 0 <= k < objects@.len() ==> same_object(#[trigger] objects@[k], kept_objects(src.objects@, ev, i as int)[k]),
        decreases src.objects@.len() - i,
    {
        if any_references(&events, &src.objects[i].id) {
            objects.push(OcObject { id: src.objects[i].id.clone(), object_type: src.objects[i].object_type.clone() });
        }
        i += 1;
    }
    let ghost ob = kept_objects(src.objects@, ev, src.objects@.len() as int);
    let mut event_types: Vec<String> = Vec::new();
    let mut i: usize = 0;
    while i < src.event_types.len()
        invariant
            0 <= i <= src.event_types@.len(),
            forall|a: Seq<char>| uses_activity(events@, a) <==> uses_activity(ev, a),
            event_types@ == kept_event_types(src.event_types@, ev, i as int),
        decreases src.event_types@.len() - i,
    {
        let name = &src.event_types[i];
        let mut used = false;
        let mut k: usize = 0;
        while k < events.len()
            invariant
                0 <= k <= events@.len(),
                !used,
                forall|j: int| 0 <= j < k ==> (#[trigger] events@[j]).activity@ != name@,
            decreases events@.len() - k,
        {
            if str_eq(events[k].activity.as_str(), name.as_str()) {
                used = true;
                break;
            }
            k += 1;
        }
        if used {
            event_types.push(name.clone());
        }
        i += 1;
    }
    let mut object_types: Vec<String> = Vec::new();
    let mut i: usize = 0;
    while i < src.object_types.len()
        invariant
            0 <= i <= src.object_types@.len(),
            objects@.len() == ob.len(),
            forall|k: int| 0 <= k < ob.len() ==> same_object(#[trigger] objects@[k], ob[k]),
            object_types@ == kept_object_types(src.object_types@, ob, i as int),
        decreases src.object_types@.len() - i,
    {
        let name = &src.object_types[i];
        let mut used = false;
        let mut k: usize = 0;
        while k < objects.len()
            invariant
                0 <= k <= objects@.len(),
                objects@.len() == ob.len(),
                forall|j: int| 0 <= j < ob.len() ==> same_object(#[trigger] objects@[j], ob[j]),
                !used,
                forall|j: int| 0 <= j < k ==> (#[trigger] ob[j]).object_type@ != name@,
            decreases objects@.len() - k,
        {
            if str_eq(objects[k].object_type.as_str(), name.as_str()) {
                assert(same_object(objects@[k as int], ob[k as int]));
                used = true;
                break;
            }
            assert(same_object(objects@[k as int], ob[k as int]));
            k += 1;
        }
        if used {
            object_types.push(name.clone());
        }
        i += 1;
    }
    OcLog { event_types, object_types, events, objects }
}

proof fn lemma_same_event_refs(a: OcEvent, b: OcEvent, x: Seq<char>)
    requires
        same_event(a, b),
    ensures
        seq_has(a.object_ids@, x) <==> seq_has(b.object_ids@, x),
{
    assert(views(a.object_ids@).len() == a.object_ids@.len());
    assert(views(b.object_ids@).len() == b.object_ids@.len());
    if seq_has(a.object_ids@, x) {
        let i = choose|i: int| 0 <= i < a.object_ids@.len() && (#[trigger] a.object_ids@[i])@ == x;
        assert(views(a.object_ids@)[i] == x);
        assert(views(b.object_ids@)[i] == b.object_ids@[i]@);
    }
    if seq_has(b.object_ids@, x) {
        let i = choose|i: int| 0 <= i < b.object_ids@.len() && (#[trigger] b.object_ids@[i])@ == x;
        assert(views(b.object_ids@)[i] == x);
        assert(views(a.object_ids@)[i] == a.object_ids@[i]@);
    }
}

/// The flags of the events of `log` whose activity is in `part`.
pub open spec fn part_flags(log: OcLog, part: Seq<String>) -> Seq<bool> {
    Seq::new(log.events@.len(), |i: int| seq_has(part, log.events@[i].activity@))
}

/// The positions of the nonempty parts among the first `n`, in order.
pub open spec fn nonempty_parts(partition: Seq<Vec<String>>, n: int) -> Seq<int>
    decreases n,
{
    if n <= 0 {
        Seq::empty()
    } else {
        let prev = nonempty_parts(partition, n - 1);
        if partition[n - 1]@.len() > 0 { prev.push(n - 1) } else { prev }
    }
}

/// `out` holds each log cut down to the events of the part's activities.
pub open spec fn part_logs(logs: Seq<OcLog>, part: Seq<String>, out: Seq<OcLog>) -> bool {
    &&& out.len() == logs.len()
    &&& forall|j: int| 0 <= j < logs.len() ==> is_cleaned(#[trigger] logs[j], part_flags(logs[j], part), out[j])
}

/// An event of the part's activities in one of the logs relates to object `x`.
pub open spec fn part_references(logs: Seq<OcLog>, part: Seq<String>, x: Seq<char>) -> bool {
    exists|j: int| 0 <= j < logs.len()
        && references(kept_events((#[trigger] logs[j]).events@, part_flags(logs[j], part), logs[j].events@.len() as int), x)
}

/// Two logs agree in every field.
pub open spec fn same_log(a: OcLog, b: OcLog) -> bool {
    &&& views(a.event_types@) == views(b.event_types@)
    &&& views(a.object_types@) == views(b.object_types@)
    &&& a.events@.len() == b.events@.len()
    &&& forall|k: int| 0 <= k < a.events@.len() ==> same_event(#[trigger] a.events@[k], b.events@[k])
    &&& a.objects@.len() == b.objects@.len()
    &&& forall|k: int| 0 <= k < a.objects@.len() ==> same_object(#[trigger] a.objects@[k], b.objects@[k])
}

fn copy_log(l: &OcLog) -> (r: OcLog)
    ensures
        same_log(r, *l),
{
    let mut events: Vec<OcEvent> = Vec::new();
    let mut i: usize = 0;
    while i < l.events.len()
        invariant
            0 <= i <= l.events@.len(),
            events@.len() == i,
            forall|k: int| 0 <= k < i ==> same_event(#[trigger] events@[k], l.events@[k]),
        decreases l.events@.len() - i,
    {
        events.push(copy_event(&l.events[i]));
        i += 1;
    }
    let mut objects: Vec<OcObject> = Vec::new();
    let mut i: usize = 0;
    while i < l.objects.len()
        invariant
            0 <= i <= l.objects@.len(),
            objects@.len() == i,
            forall|k: int| 0 <= k < i ==> same_object(#[trigger] objects@[k], l.objects@[k]),
        decreases l.objects@.len() - i,
    {
        objects.push(OcObject { id: l.objects[i].id.clone(), object_type: l.objects[i].object_type.clone() });
        i += 1;
    }
    OcLog { event_types: copy_strings(&l.event_types), object_types: copy_strings(&l.object_types), events, objects }
}

/// The part's flags for one log.
fn flags_for_part(log: &OcLog, part: &Vec<String>) -> (r: Vec<bool>)
    ensures
        r@ == part_flags(*log, part@),
{
    let mut flags: Vec<bool> = Vec::new();
    let mut i: usize = 0;
    while i < log.events.len()
        invariant
            0 <= i <= log.events@.len(),
            flags@ == part_flags(*log, part@).take(i as int),
        decreases log.events@.len() - i,
    {
        flags.push(contains_string(part, &log.events[i].activity));
        i += 1;
        assert(flags@ =~= part_flags(*log, part@).take(i as int));
    }
    assert(part_flags(*log, part@).take(i as int) =~= part_flags(*log, part@));
    flags
}

/// Adds the objects that the events relate to and that `out` lacks.
fn add_referenced(out: &mut Vec<String>, evs: &Vec<OcEvent>)
    requires
        strings_unique(old(out)@),
    ensures
        strings_unique(final(out)@),
        forall|x: Seq<char>| #[trigger] seq_has(final(out)@, x) <==> seq_has(old(out)@, x) || references(evs@, x),
{
    let ghost o0 = out@;
    let mut k: usize = 0;
    while k < evs.len()
        invariant
            0 <= k <= evs@.len(),
            strings_unique(out@),
            forall|x: Seq<char>| #[trigger] seq_has(out@, x) <==> seq_has(o0, x) || references(evs@.take(k as int), x),
        decreases evs@.len() - k,
    {
        let ids = &evs[k].object_ids;
        let ghost before = out@;
        let mut j: usize = 0;
        while j < ids.len()
            invariant
                0 <= j <= ids@.len(),
                *ids == evs@[k as int].object_ids,
                strings_unique(out@),
                forall|x: Seq<char>| #[trigger] seq_has(out@, x) <==> seq_has(before, x) || seq_has(ids@.take(j as int), x),
            decreases ids@.len() - j,
        {
            let ghost b2 = out@;
            if !contains_string(out, &ids[j]) {
                out.push(ids[j].clone());
                proof {
                    let n = b2.len() as int;
                    assert forall|a: int, b: int| 0 <= a < out@.len() && 0 <= b < out@.len() && (#[trigger] out@[a])@ == (#[trigger] out@[b])@ implies a == b by {
                        if a < n && b == n {
                            assert(seq_has(b2, ids@[j as int]@));
                        } else if a == n && b < n {
                            assert(seq_has(b2, ids@[j as int]@));
                        }
                    }
                }
            }
            proof {
                assert forall|x: Seq<char>| #[trigger] seq_has(out@, x) <==> seq_has(before, x) || seq_has(ids@.take(j + 1), x) by {
                    let t = ids@.take(j + 1);
                    if seq_has(t, x) {
                        let q = choose|q: int| 0 <= q < t.len() && (#[trigger] t[q])@ == x;
                        if q < j {
                            assert(ids@.take(j as int)[q] == t[q]);
                            assert(seq_has(ids@.take(j as int), x));
                        } else {
                            assert(t[q] == ids@[j as int]);
                            if !seq_has(b2, x) {
                                assert(out@[b2.len() as int]@ == x);
                            }
                        }
                    }
                    if seq_has(ids@.take(j as int), x) {
                        let q = choose|q: int| 0 <= q < j && (#[trigger] ids@.take(j as int)[q])@ == x;
                        assert(t[q] == ids@.take(j as int)[q]);
                    }
                    if seq_has(out@, x) && !seq_has(b2, x) {
                        let q = choose|q: int| 0 <= q < out@.len() && (#[trigger] out@[q])@ == x;
                        if q < b2.len() {
                            assert(b2[q] == out@[q]);
                        }
                        assert(t[j as int] == ids@[j as int]);
                    }
                    if seq_has(b2, x) {
                        let q = choose|q: int| 0 <= q < b2.len() && (#[trigger] b2[q])@ == x;
                        assert(out@[q] == b2[q]);
                    }
                }
            }
            j += 1;
        }
        proof {
            assert(ids@.take(ids@.len() as int) =~= ids@);
            assert forall|x: Seq<char>| #[trigger] seq_has(out@, x) <==> seq_has(o0, x) || references(evs@.take(k + 1), x) by {
                let t = evs@.take(k + 1);
                if references(t, x) {
                    let q = choose|q: int| 0 <= q < t.len() && seq_has((#[trigger] t[q]).object_ids@, x);
                    if q < k {
                        assert(evs@.take(k as int)[q] == t[q]);
                        assert(references(evs@.take(k as int), x));
                    }
                }
                if references(evs@.take(k as int), x) {
                    let q = choose|q: int| 0 <= q < k && seq_has((#[trigger] evs@.take(k as int)[q]).object_ids@, x);
                    assert(t[q] == evs@.take(k as int)[q]);
                }
                if seq_has(ids@, x) {
                    assert(t[k as int] == evs@[k as int]);
                }
            }
        }
        k += 1;
    }
    assert(evs@.take(k as int) =~= evs@);
}

/// One entry per nonempty part: each log cut down to the part's activities,
/// and the objects the sublog is expected to hold: those its events relate to
/// for a choice (`exclusive`), those of `local` otherwise.
fn split_by_parts(logs: &Vec<OcLog>, partition: &Vec<Vec<String>>, exclusive: bool, local: &LocalData) -> (r: Vec<(Vec<OcLog>, Vec<String>)>)
    ensures
        parts_split(logs@, partition@, exclusive, *local, r@),
{
    let mut out: Vec<(Vec<OcLog>, Vec<String>)> = Vec::new();
    let mut p: usize = 0;
    while p < partition.len()
        invariant
            0 <= p <= partition@.len(),
            out@.len() == nonempty_parts(partition@, p as int).len(),
            forall|q: int| 0 <= q < out@.len() ==> {
                let part = partition@[nonempty_parts(partition@, p as int)[q]]@;
                &&& part_logs(logs@, part, (#[trigger] out@[q]).0@)
                &&& exclusive ==> strings_unique(out@[q].1@)
                    && forall|x: Seq<char>| #[trigger] seq_has(out@[q].1@, x) <==> part_references(logs@, part, x)
                &&& !exclusive ==> out@[q].1@ == local.expected_objects@
            },
        decreases partition@.len() - p,
    {
        let ghost prev = nonempty_parts(partition@, p as int);
        if partition[p].len() > 0 {
            let part = &partition[p];
            let mut sub: Vec<OcLog> = Vec::new();
            let mut expected: Vec<String> = Vec::new();
            let mut j: usize = 0;
            while j < logs.len()
                invariant
                    0 <= j <= logs@.len(),
                    sub@.len() == j,
                    forall|i: int| 0 <= i < j ==> is_cleaned(logs@[i], part_flags(logs@[i], part@), #[trigger] sub@[i]),
                    strings_unique(expected@),
                    exclusive ==> forall|x: Seq<char>| #[trigger] seq_has(expected@, x) <==> part_references(logs@.take(j as int), part@, x),
                decreases logs@.len() - j,
            {
                let flags = flags_for_part(&logs[j], part);
                let cleaned = clean_log(&logs[j], &flags);
                let ghost exp0 = expected@;
                if exclusive {
                    add_referenced(&mut expected, &cleaned.events);
                }
                proof {
                    let ev = kept_events(logs@[j as int].events@, flags@, logs@[j as int].events@.len() as int);
                    assert forall|x: Seq<char>| references(cleaned.events@, x) <==> references(ev, x) by {
                        if references(cleaned.events@, x) {
                            let k = choose|k: int| 0 <= k < cleaned.events@.len() && seq_has((#[trigger] cleaned.events@[k]).object_ids@, x);
                            lemma_same_event_refs(cleaned.events@[k], ev[k], x);
                        }
                        if references(ev, x) {
                            let k = choose|k: int| 0 <= k < ev.len() && seq_has((#[trigger] ev[k]).object_ids@, x);
                            lemma_same_event_refs(cleaned.events@[k], ev[k], x);
                        }
                    }
                    let lt = logs@.take(j + 1);
                    assert forall|x: Seq<char>| part_references(lt, part@, x) <==> part_references(logs@.take(j as int), part@, x) || references(ev, x) by {
                        if part_references(lt, part@, x) {
                            let i = choose|i: int| 0 <= i < lt.len()
                                && references(kept_events((#[trigger] lt[i]).events@, part_flags(lt[i], part@), lt[i].events@.len() as int), x);
                            if i < j {
                                assert(logs@.take(j as int)[i] == lt[i]);
                            }
                        }
                        if part_references(logs@.take(j as int), part@, x) {
                            let i = choose|i: int| 0 <= i < j
                                && references(kept_events((#[trigger] logs@.take(j as int)[i]).events@, part_flags(logs@.take(j as int)[i], part@), logs@.take(j as int)[i].events@.len() as int), x);
                            assert(lt[i] == logs@.take(j as int)[i]);
                        }
                        if references(ev, x) {
                            assert(lt[j as int] == logs@[j as int]);
                        }
                    }
                    if exclusive {
                        assert forall|x: Seq<char>| #[trigger] seq_has(expected@, x) <==> part_references(lt, part@, x) by {
                            assert(seq_has(exp0, x) <==> part_references(logs@.take(j as int), part@, x));
                            assert(seq_has(expected@, x) <==> seq_has(exp0, x) || references(cleaned.events@, x));
                            assert(references(cleaned.events@, x) <==> references(ev, x));
                            assert(part_references(lt, part@, x) <==> part_references(logs@.take(j as int), part@, x) || references(ev, x));
                        }
                    }
                }
                sub.push(cleaned);
                j += 1;
            }
            proof {
                assert(logs@.take(j as int) =~= logs@);
            }
            let entry_expected = if exclusive { expected } else { copy_strings(&local.expected_objects) };
            out.push((sub, entry_expected));
            proof {
                let now = nonempty_parts(partition@, p + 1);
                assert(now == prev.push(p as int));
                assert forall|q: int| 0 <= q < out@.len() implies {
                    let part = partition@[now[q]]@;
                    &&& part_logs(logs@, part, (#[trigger] out@[q]).0@)
                    &&& exclusive ==> strings_unique(out@[q].1@)
                        && forall|x: Seq<char>| #[trigger] seq_has(out@[q].1@, x) <==> part_references(logs@, part, x)
                    &&& !exclusive ==> out@[q].1@ == local.expected_objects@
                } by {
                    if q < prev.len() {
                        assert(now[q] == prev[q]);
                    } else {
                        assert(now[q] == p);
                    }
                }
            }
        }
        p += 1;
    }
    out
}

/// The type of the last of the first `n` objects with identifier `o`.
pub open spec fn otype_upto(objs: Seq<OcObject>, o: Seq<char>, n: int) -> Option<Seq<char>>
    decreases n,
{
    if n <= 0 {
        None
    } else if objs[n - 1].id@ == o {
        Some(objs[n - 1].object_type@)
    } else {
        otype_upto(objs, o, n - 1)
    }
}

/// The position of the last of the first `n` events with identifier `id`, or -1.
pub open spec fn eindex_upto(evs: Seq<OcEvent>, id: Seq<char>, n: int) -> int
    decreases n,
{
    if n <= 0 {
        -1
    } else if evs[n - 1].id@ == id {
        n - 1
    } else {
        eindex_upto(evs, id, n - 1)
    }
}

/// The position of the event with identifier `id` (the last such event).
pub open spec fn event_index(log: OcLog, id: Seq<char>) -> int {
    eindex_upto(log.events@, id, log.events@.len() as int)
}

proof fn lemma_eindex(evs: Seq<OcEvent>, id: Seq<char>, n: int, i: int)
    requires
        0 <= i < n <= evs.len(),
        evs[i].id@ == id,
    ensures
        i <= eindex_upto(evs, id, n) < n,
        evs[eindex_upto(evs, id, n)].id@ == id,
    decreases n,
{
    if n - 1 != i && evs[n - 1].id@ != id {
        lemma_eindex(evs, id, n - 1, i);
    }
}

/// How many of the first `j` identifiers are `o`.
pub open spec fn rel_count(ids: Seq<String>, o: Seq<char>, j: int) -> nat
    decreases j,
{
    if j <= 0 {
        0
    } else {
        rel_count(ids, o, j - 1) + if ids[j - 1]@ == o { 1nat } else { 0nat }
    }
}

/// Time and position of the first `n` events, once for each relationship to object `o`.
pub open spec fn occurrences(log: OcLog, o: Seq<char>, n: int) -> Seq<(i64, usize)>
    decreases n,
{
    if n <= 0 {
        Seq::empty()
    } else {
        let e = log.events@[n - 1];
        occurrences(log, o, n - 1) + Seq::new(rel_count(e.object_ids@, o, e.object_ids@.len() as int), |q: int| (e.time, (n - 1) as usize))
    }
}

/// The positions of the events of object `o` in time order (equal times in log order).
pub open spec fn object_timeline(log: OcLog, o: Seq<char>) -> Seq<usize> {
    let s = occurrences(log, o, log.events@.len() as int);
    labels_in(s, time_order(s))
}

/// Two time-consecutive events `e1`, `e2` of an object of type `t` stay
/// together: both or neither lie in the body part `p0`, they are not an end
/// and a start of the type's graph, and `t` is not divergent for them.
pub open spec fn joinable(l: LocalData, g: GlobalData, p0: Seq<String>, e1: OcEvent, e2: OcEvent, t: Seq<char>) -> bool {
    &&& seq_has(p0, e1.activity@) == seq_has(p0, e2.activity@)
    &&& !(has_dfg(l.dfgs@, t) && has_count_key(dfg_of(l.dfgs@, t).starts@, e2.activity@)
        && has_count_key(dfg_of(l.dfgs@, t).ends@, e1.activity@))
    &&& !is_divergent_type(g, e1.activity@, e2.activity@, l.alphabet@, t)
}

/// Step `k` of the timeline of object `oi` joins the events at positions `a` and `b`.
pub open spec fn loop_edge(l: LocalData, g: GlobalData, log: OcLog, p0: Seq<String>, oi: int, k: int, a: int, b: int) -> bool {
    let o = log.objects@[oi].id@;
    let tl = object_timeline(log, o);
    let e1 = log.events@[tl[k] as int];
    let e2 = log.events@[tl[k + 1] as int];
    let x = event_index(log, e1.id@);
    let y = event_index(log, e2.id@);
    &&& 0 <= oi < log.objects@.len()
    &&& 0 <= k < tl.len() - 1
    &&& otype_of(log, o) is Some
    &&& joinable(l, g, p0, e1, e2, otype_of(log, o)->0)
    &&& ((a == x && b == y) || (a == y && b == x))
}

/// The type of object `o` (that of the last object with this identifier).
pub open spec fn otype_of(log: OcLog, o: Seq<char>) -> Option<Seq<char>> {
    otype_upto(log.objects@, o, log.objects@.len() as int)
}

/// The pairs of positions `a < b` that some object's timeline joins.
pub open spec fn loop_links(l: LocalData, g: GlobalData, log: OcLog, p0: Seq<String>) -> spec_fn(int, int) -> bool {
    |a: int, b: int| 0 <= a < b < log.events@.len() && exists|oi: int, k: int| #[trigger] loop_edge(l, g, log, p0, oi, k, a, b)
}

/// The position of the last object with identifier `o`, if any.
fn otype_lookup(log: &OcLog, o: &String) -> (r: Option<usize>)
    ensures
        match r {
            Some(i) => i < log.objects@.len() && otype_of(*log, o@) == Some(log.objects@[i as int].object_type@),
            None => otype_of(*log, o@) is None,
        },
{
    let mut k: usize = log.objects.len();
    while k > 0
        invariant
            0 <= k <= log.objects@.len(),
            otype_of(*log, o@) == otype_upto(log.objects@, o@, k as int),
        decreases k,
    {
        if str_eq(log.objects[k - 1].id.as_str(), o.as_str()) {
            return Some(k - 1);
        }
        k -= 1;
    }
    None
}

/// The position of the last event with the identifier of event `i`.
fn event_index_of(log: &OcLog, i: usize) -> (r: usize)
    requires
        i < log.events@.len(),
    ensures
        r as int == event_index(*log, log.events@[i as int].id@),
        r < log.events@.len(),
{
    let id = &log.events[i].id;
    proof {
        lemma_eindex(log.events@, id@, log.events@.len() as int, i as int);
    }
    let mut k: usize = log.events.len();
    while k > 0
        invariant
            0 <= k <= log.events@.len(),
            i < log.events@.len(),
            *id == log.events@[i as int].id,
            event_index(*log, id@) == eindex_upto(log.events@, id@, k as int),
            i < k,
        decreases k,
    {
        if str_eq(log.events[k - 1].id.as_str(), id.as_str()) {
            return k - 1;
        }
        proof {
            if k - 1 == i {
                assert(log.events@[i as int].id@ == id@);
            }
        }
        k -= 1;
    }
    0
}

/// Time and position of each event, once for each relationship to object `o`.
fn occurrences_of(log: &OcLog, o: &String) -> (r: Vec<(i64, usize)>)
    ensures
        r@ == occurrences(*log, o@, log.events@.len() as int),
{
    let mut out: Vec<(i64, usize)> = Vec::new();
    let mut i: usize = 0;
    while i < log.events.len()
        invariant
            0 <= i <= log.events@.len(),
            out@ == occurrences(*log, o@, i as int),
        decreases log.events@.len() - i,
    {
        let e = &log.events[i];
        let ghost base = out@;
        let mut j: usize = 0;
        while j < e.object_ids.len()
            invariant
                0 <= j <= e.object_ids@.len(),
                *e == log.events@[i as int],
                i < log.events@.len(),
                out@ == base + Seq::new(rel_count(e.object_ids@, o@, j as int), |q: int| (e.time, i)),
            decreases e.object_ids@.len() - j,
        {
            if str_eq(e.object_ids[j].as_str(), o.as_str()) {
                out.push((e.time, i));
            }
            j += 1;
            assert(out@ =~= base + Seq::new(rel_count(e.object_ids@, o@, j as int), |q: int| (e.time, i)));
        }
        i += 1;
    }
    out
}

/// Whether `a` is a key of the counts.
fn count_key_present(c: &Vec<(String, u32)>, a: &String) -> (r: bool)
    ensures
        r == has_count_key(c@, a@),
{
    let mut i: usize = 0;
    while i < c.len()
        invariant
            0 <= i <= c@.len(),
            forall|j: int| 0 <= j < i ==> (#[trigger] c@[j]).0@ != a@,
        decreases c@.len() - i,
    {
        if str_eq(c[i].0.as_str(), a.as_str()) {
            return true;
        }
        i += 1;
    }
    false
}

/// Whether the two events stay together for an object of type `t`.
fn check_joinable(l: &LocalData, g: &GlobalData, p0: &Vec<String>, e1: &OcEvent, e2: &OcEvent, t: &String) -> (r: bool)
    requires
        l.wf(),
        g.wf(),
    ensures
        r == joinable(*l, *g, p0@, *e1, *e2, t@),
{
    if contains_string(p0, &e1.activity) != contains_string(p0, &e2.activity) {
        return false;
    }
    match lookup_dfg(&l.dfgs, t) {
        Some(d) => {
            if count_key_present(&d.starts, &e2.activity) && count_key_present(&d.ends, &e1.activity) {
                return false;
            }
        },
        None => {},
    }
    let divergent = get_divergent_types(&e1.activity, &e2.activity, l.alphabet.as_slice(), g);
    !contains_string(&divergent, t)
}

/// The timeline of object `o`: positions of its events in time order.
fn timeline_of(log: &OcLog, o: &String) -> (r: Vec<usize>)
    ensures
        r@ == object_timeline(*log, o@),
        forall|k: int| 0 <= k < r@.len() ==> (#[trigger] r@[k]) < log.events@.len(),
{
    let occ = occurrences_of(log, o);
    let ghost s = occ@;
    proof {
        lemma_occurrences_below(*log, o@, log.events@.len() as int);
    }
    let mut keys: Vec<(i64, String)> = Vec::new();
    let mut i: usize = 0;
    while i < occ.len()
        invariant
            0 <= i <= occ@.len(),
            key_views(keys@) =~= time_keys(occ@).take(i as int),
        decreases occ@.len() - i,
    {
        keys.push((occ[i].0, String::new()));
        i += 1;
        assert(key_views(keys@) =~= time_keys(occ@).take(i as int));
    }
    assert(key_views(keys@) =~= time_keys(occ@));
    let ord = sort_positions(&keys);
    proof {
        lemma_sorted_positions_unique(time_keys(s), ord@, time_order(s));
    }
    let mut tl: Vec<usize> = Vec::new();
    let mut k: usize = 0;
    while k < ord.len()
        invariant
            0 <= k <= ord@.len(),
            ord@ == time_order(s),
            sorted_positions(time_keys(s), ord@),
            s == occ@,
            time_keys(s).len() == s.len(),
            forall|q: int| 0 <= q < s.len() ==> (#[trigger] s[q]).1 < log.events@.len(),
            tl@ == labels_in(s, ord@).take(k as int),
            forall|q: int| 0 <= q < k ==> (#[trigger] tl@[q]) < log.events@.len(),
        decreases ord@.len() - k,
    {
        tl.push(occ[ord[k]].1);
        k += 1;
        assert(tl@ =~= labels_in(s, ord@).take(k as int));
    }
    assert(labels_in(s, ord@).take(k as int) =~= labels_in(s, ord@));
    tl
}

proof fn lemma_occurrences_below(log: OcLog, o: Seq<char>, n: int)
    requires
        n <= log.events@.len(),
    ensures
        forall|q: int| 0 <= q < occurrences(log, o, n).len() ==> (#[trigger] occurrences(log, o, n)[q]).1 < log.events@.len(),
    decreases n,
{
    if n > 0 {
        lemma_occurrences_below(log, o, n - 1);
        let prev = occurrences(log, o, n - 1);
        let e = log.events@[n - 1];
        let add = Seq::new(rel_count(e.object_ids@, o, e.object_ids@.len() as int), |q: int| (e.time, (n - 1) as usize));
        assert forall|q: int| 0 <= q < occurrences(log, o, n).len() implies (#[trigger] occurrences(log, o, n)[q]).1 < log.events@.len() by {
            if q < prev.len() {
                assert(occurrences(log, o, n)[q] == prev[q]);
            } else {
                assert(occurrences(log, o, n)[q] == add[q - prev.len()]);
            }
        }
    }
}

/// The matrix of the pairs `a < b` of event positions that the timelines join.
fn loop_adjacency(l: &LocalData, g: &GlobalData, log: &OcLog, p0: &Vec<String>) -> (adj: Vec<Vec<bool>>)
    requires
        l.wf(),
        g.wf(),
    ensures
        adj@.len() == log.events@.len(),
        square(adj@),
        forall|a: int, b: int| 0 <= a < b < log.events@.len() ==>
            (adj@[a]@[b] <==> exists|oi: int, k: int| #[trigger] loop_edge(*l, *g, *log, p0@, oi, k, a, b)),
{
    let n = log.events.len();
    let mut adj: Vec<Vec<bool>> = Vec::new();
    let mut i: usize = 0;
    while i < n
        invariant
            0 <= i <= n,
            adj@.len() == i,
            forall|q: int| 0 <= q < i ==> (#[trigger] adj@[q])@ == Seq::new(n as nat, |c: int| false),
        decreases n - i,
    {
        let mut row: Vec<bool> = Vec::new();
        let mut c: usize = 0;
        while c < n
            invariant
                0 <= c <= n,
                row@ == Seq::new(c as nat, |x: int| false),
            decreases n - c,
        {
            row.push(false);
            c += 1;
            assert(row@ =~= Seq::new(c as nat, |x: int| false));
        }
        adj.push(row);
        i += 1;
    }
    let mut oi: usize = 0;
    while oi < log.objects.len()
        invariant
            0 <= oi <= log.objects@.len(),
            n == log.events@.len(),
            l.wf(),
            g.wf(),
            adj@.len() == n,
            square(adj@),
            forall|a: int, b: int| 0 <= a < b < n ==>
                (adj@[a]@[b] <==> exists|oi2: int, k2: int| oi2 < oi && #[trigger] loop_edge(*l, *g, *log, p0@, oi2, k2, a, b)),
        decreases log.objects@.len() - oi,
    {
        let o = &log.objects[oi].id;
        let tl = timeline_of(log, o);
        match otype_lookup(log, o) {
            None => {
                proof {
                    assert forall|a: int, b: int| 0 <= a < b < n implies
                        (adj@[a]@[b] <==> exists|oi2: int, k2: int| oi2 < oi + 1 && #[trigger] loop_edge(*l, *g, *log, p0@, oi2, k2, a, b)) by {
                        if exists|oi2: int, k2: int| oi2 < oi + 1 && #[trigger] loop_edge(*l, *g, *log, p0@, oi2, k2, a, b) {
                            let (oi2, k2) = choose|oi2: int, k2: int| oi2 < oi + 1 && #[trigger] loop_edge(*l, *g, *log, p0@, oi2, k2, a, b);
                            assert(oi2 != oi);
                        }
                    }
                }
            },
            Some(ti) => {
                let t = &log.objects[ti].object_type;
                let mut k: usize = 0;
                while k < tl.len() && k + 1 < tl.len()
                    invariant
                        0 <= k <= tl@.len(),
                        oi < log.objects@.len(),
                        *o == log.objects@[oi as int].id,
                        tl@ == object_timeline(*log, o@),
                        forall|q: int| 0 <= q < tl@.len() ==> (#[trigger] tl@[q]) < log.events@.len(),
                        otype_of(*log, o@) == Some(t@),
                        n == log.events@.len(),
                        l.wf(),
                        g.wf(),
                        adj@.len() == n,
                        square(adj@),
                        forall|a: int, b: int| 0 <= a < b < n ==>
                            (adj@[a]@[b] <==> exists|oi2: int, k2: int| (oi2 < oi || (oi2 == oi && k2 < k)) && #[trigger] loop_edge(*l, *g, *log, p0@, oi2, k2, a, b)),
                    decreases tl@.len() - k,
                {
                    let e1 = &log.events[tl[k]];
                    let e2 = &log.events[tl[k + 1]];
                    let ghost before = adj@;
                    if check_joinable(l, g, p0, e1, e2, t) {
                        let x = event_index_of(log, tl[k]);
                        let y = event_index_of(log, tl[k + 1]);
                        if x != y {
                            let lo = if x < y { x } else { y };
                            let hi = if x < y { y } else { x };
                            let mut row = adj.remove(lo);
                            row.set(hi, true);
                            adj.insert(lo, row);
                            proof {
                                assert forall|a: int, b: int| 0 <= a < b < n implies
                                    (adj@[a]@[b] <==> exists|oi2: int, k2: int| (oi2 < oi || (oi2 == oi && k2 < k + 1)) && #[trigger] loop_edge(*l, *g, *log, p0@, oi2, k2, a, b)) by {
                                    if a == lo && b == hi {
                                        assert(loop_edge(*l, *g, *log, p0@, oi as int, k as int, a, b));
                                    } else {
                                        assert(adj@[a]@[b] == before[a]@[b]);
                                        if exists|oi2: int, k2: int| (oi2 < oi || (oi2 == oi && k2 < k + 1)) && #[trigger] loop_edge(*l, *g, *log, p0@, oi2, k2, a, b) {
                                            let (oi2, k2) = choose|oi2: int, k2: int| (oi2 < oi || (oi2 == oi && k2 < k + 1)) && #[trigger] loop_edge(*l, *g, *log, p0@, oi2, k2, a, b);
                                            if oi2 == oi && k2 == k {
                                                assert(false);
                                            }
                                        }
                                    }
                                }
                                assert forall|q: int| 0 <= q < adj@.len() implies (#[trigger] adj@[q])@.len() == adj@.len() by {
                                    if q != lo {
                                        assert(adj@[q] == before[q]);
                                    }
                                }
                            }
                        } else {
                            proof {
                                assert forall|a: int, b: int| 0 <= a < b < n implies
                                    (adj@[a]@[b] <==> exists|oi2: int, k2: int| (oi2 < oi || (oi2 == oi && k2 < k + 1)) && #[trigger] loop_edge(*l, *g, *log, p0@, oi2, k2, a, b)) by {
                                    if exists|oi2: int, k2: int| (oi2 < oi || (oi2 == oi && k2 < k + 1)) && #[trigger] loop_edge(*l, *g, *log, p0@, oi2, k2, a, b) {
                                        let (oi2, k2) = choose|oi2: int, k2: int| (oi2 < oi || (oi2 == oi && k2 < k + 1)) && #[trigger] loop_edge(*l, *g, *log, p0@, oi2, k2, a, b);
                                        if oi2 == oi && k2 == k {
                                            assert(false);
                                        }
                                    }
                                }
                            }
                        }
                    } else {
                        proof {
                            assert forall|a: int, b: int| 0 <= a < b < n implies
                                (adj@[a]@[b] <==> exists|oi2: int, k2: int| (oi2 < oi || (oi2 == oi && k2 < k + 1)) && #[trigger] loop_edge(*l, *g, *log, p0@, oi2, k2, a, b)) by {
                                if exists|oi2: int, k2: int| (oi2 < oi || (oi2 == oi && k2 < k + 1)) && #[trigger] loop_edge(*l, *g, *log, p0@, oi2, k2, a, b) {
                                    let (oi2, k2) = choose|oi2: int, k2: int| (oi2 < oi || (oi2 == oi && k2 < k + 1)) && #[trigger] loop_edge(*l, *g, *log, p0@, oi2, k2, a, b);
                                    if oi2 == oi && k2 == k {
                                        assert(false);
                                    }
                                }
                            }
                        }
                    }
                    k += 1;
                }
                proof {
                    assert forall|a: int, b: int| 0 <= a < b < n implies
                        (adj@[a]@[b] <==> exists|oi2: int, k2: int| oi2 < oi + 1 && #[trigger] loop_edge(*l, *g, *log, p0@, oi2, k2, a, b)) by {
                        if exists|oi2: int, k2: int| oi2 < oi + 1 && #[trigger] loop_edge(*l, *g, *log, p0@, oi2, k2, a, b) {
                            let (oi2, k2) = choose|oi2: int, k2: int| oi2 < oi + 1 && #[trigger] loop_edge(*l, *g, *log, p0@, oi2, k2, a, b);
                            if oi2 == oi {
                                assert(k2 < tl@.len() - 1);
                                assert(k2 < k);
                            }
                        }
                    }
                }
            },
        }
        oi += 1;
    }
    adj
}

/// The flags of the events whose identifier is that of an event of the group.
pub open spec fn group_flags(log: OcLog, group: Seq<usize>) -> Seq<bool> {
    Seq::new(log.events@.len(), |i: int| exists|k: int| 0 <= k < group.len()
        && log.events@[#[trigger] group[k] as int].id@ == log.events@[i].id@)
}

/// Part `i` has an activity among the names.
pub open spec fn part_hits(partition: Seq<Vec<String>>, names: Seq<Seq<char>>, i: int) -> bool {
    exists|q: int| 0 <= q < partition[i]@.len() && names.contains((#[trigger] partition[i]@[q])@)
}

/// The first of the first `m` parts that has an activity among the names, or -1.
pub open spec fn first_hit(partition: Seq<Vec<String>>, names: Seq<Seq<char>>, m: int) -> int
    decreases m,
{
    if m <= 0 {
        -1
    } else {
        let f = first_hit(partition, names, m - 1);
        if f >= 0 { f } else if part_hits(partition, names, m - 1) { m - 1 } else { -1 }
    }
}

/// For the first `c` components of a log: the part each nonempty sublog goes
/// to (the first part holding one of its activities) and the flags of its
/// events; sublogs that no part takes are dropped.
pub open spec fn loop_pieces(log: OcLog, partition: Seq<Vec<String>>, groups: Seq<Vec<usize>>, c: int) -> Seq<(int, Seq<bool>)>
    decreases c,
{
    if c <= 0 {
        Seq::empty()
    } else {
        let prev = loop_pieces(log, partition, groups, c - 1);
        let fl = group_flags(log, groups[c - 1]@);
        let ev = kept_events(log.events@, fl, log.events@.len() as int);
        let names = views(kept_event_types(log.event_types@, ev, log.event_types@.len() as int));
        let h = first_hit(partition, names, partition.len() as int);
        if ev.len() > 0 && h >= 0 { prev.push((h, fl)) } else { prev }
    }
}

proof fn lemma_first_hit_stays(partition: Seq<Vec<String>>, names: Seq<Seq<char>>, i: int, m: int)
    requires
        0 <= i < m,
        first_hit(partition, names, i + 1) == i,
    ensures
        first_hit(partition, names, m) == i,
    decreases m,
{
    if m > i + 1 {
        lemma_first_hit_stays(partition, names, i, m - 1);
    }
}

/// The first part that has an activity among the names.
fn find_first_hit(partition: &Vec<Vec<String>>, names: &Vec<String>) -> (r: Option<usize>)
    ensures
        match r {
            Some(i) => i as int == first_hit(partition@, views(names@), partition@.len() as int) && i < partition@.len(),
            None => first_hit(partition@, views(names@), partition@.len() as int) == -1,
        },
{
    let ghost nv = views(names@);
    let mut i: usize = 0;
    while i < partition.len()
        invariant
            0 <= i <= partition@.len(),
            nv == views(names@),
            first_hit(partition@, nv, i as int) == -1,
        decreases partition@.len() - i,
    {
        let part = &partition[i];
        let mut q: usize = 0;
        let mut hit = false;
        while q < part.len()
            invariant
                0 <= q <= part@.len(),
                *part == partition@[i as int],
                nv == views(names@),
                !hit,
                forall|x: int| 0 <= x < q ==> !nv.contains((#[trigger] part@[x])@),
            decreases part@.len() - q,
        {
            if contains_string(names, &part[q]) {
                proof {
                    let k = choose|k: int| 0 <= k < names@.len() && (#[trigger] names@[k])@ == part@[q as int]@;
                    assert(nv[k] == part@[q as int]@);
                }
                hit = true;
                break;
            }
            proof {
                if nv.contains(part@[q as int]@) {
                    let k = choose|k: int| 0 <= k < nv.len() && nv[k] == part@[q as int]@;
                    assert(names@[k]@ == nv[k]);
                }
            }
            q += 1;
        }
        if hit {
            assert(part_hits(partition@, nv, i as int));
            proof {
                lemma_first_hit_stays(partition@, nv, i as int, partition@.len() as int);
            }
            return Some(i);
        }
        i += 1;
    }
    None
}

/// The components of one log, each cut to a sublog and given to the first
/// part that holds one of its activities.
fn split_loop_log(l: &LocalData, g: &GlobalData, log: &OcLog, partition: &Vec<Vec<String>>) -> (r: Vec<(usize, OcLog)>)
    requires
        l.wf(),
        g.wf(),
        partition@.len() > 0,
    ensures
        exists|groups: Seq<Vec<usize>>|
            #[trigger] is_component_grouping(groups, loop_links(*l, *g, *log, partition@[0]@), log.events@.len() as int)
            && r@.len() == loop_pieces(*log, partition@, groups, groups.len() as int).len()
            && forall|q: int| 0 <= q < r@.len() ==> (#[trigger] r@[q]).0 as int == loop_pieces(*log, partition@, groups, groups.len() as int)[q].0
                && is_cleaned(*log, loop_pieces(*log, partition@, groups, groups.len() as int)[q].1, r@[q].1),
{
    let n = log.events.len();
    let adj = loop_adjacency(l, g, log, &partition[0]);
    let ghost e = loop_links(*l, *g, *log, partition@[0]@);
    proof {
        assert(marked_edges(adj@) =~= e);
    }
    let uf = union_components(&adj);
    let groups = group_indices(&uf, n, Ghost(e));
    let ghost gs = groups@;
    let mut out: Vec<(usize, OcLog)> = Vec::new();
    let mut c: usize = 0;
    while c < groups.len()
        invariant
            0 <= c <= groups@.len(),
            gs == groups@,
            n == log.events@.len(),
            out@.len() == loop_pieces(*log, partition@, gs, c as int).len(),
            forall|q: int| 0 <= q < out@.len() ==> (#[trigger] out@[q]).0 as int == loop_pieces(*log, partition@, gs, c as int)[q].0
                && is_cleaned(*log, loop_pieces(*log, partition@, gs, c as int)[q].1, out@[q].1),
        decreases groups@.len() - c,
    {
        let group = &groups[c];
        let mut flags: Vec<bool> = Vec::new();
        let mut i: usize = 0;
        while i < n
            invariant
                0 <= i <= n,
                n == log.events@.len(),
                *group == gs[c as int],
                flags@ == group_flags(*log, group@).take(i as int),
            decreases n - i,
        {
            let mut hit = false;
            let mut k: usize = 0;
            while k < group.len()
                invariant
                    0 <= k <= group@.len(),
                    i < n,
                    n == log.events@.len(),
                    !hit,
                    forall|x: int| 0 <= x < k ==> log.events@[#[trigger] group@[x] as int].id@ != log.events@[i as int].id@,
                decreases group@.len() - k,
            {
                if group[k] < n && str_eq(log.events[group[k]].id.as_str(), log.events[i].id.as_str()) {
                    hit = true;
                    break;
                }
                proof {
                    if group@[k as int] >= n {
                        assert(false) by {
                            assert(groups@[c as int]@[k as int] < n);
                        }
                    }
                }
                k += 1;
            }
            flags.push(hit);
            i += 1;
            assert(flags@ =~= group_flags(*log, group@).take(i as int));
        }
        assert(group_flags(*log, group@).take(n as int) =~= group_flags(*log, group@));
        let cleaned = clean_log(log, &flags);
        let ghost prev = loop_pieces(*log, partition@, gs, c as int);
        if cleaned.events.len() > 0 {
            match find_first_hit(partition, &cleaned.event_types) {
                Some(h) => {
                    out.push((h, cleaned));
                },
                None => {},
            }
        }
        proof {
            let now = loop_pieces(*log, partition@, gs, c + 1);
            assert forall|q: int| 0 <= q < out@.len() implies (#[trigger] out@[q]).0 as int == now[q].0
                && is_cleaned(*log, now[q].1, out@[q].1) by {
                if q < prev.len() {
                    assert(now[q] == prev[q]);
                }
            }
        }
        c += 1;
    }
    out
}

/// The pieces of the first `c` components of log `j` that go to part `i`, with the log's position.
pub open spec fn pieces_for_part(pcs: Seq<(int, Seq<bool>)>, j: int, i: int, c: int) -> Seq<(int, Seq<bool>)>
    decreases c,
{
    if c <= 0 {
        Seq::empty()
    } else {
        let prev = pieces_for_part(pcs, j, i, c - 1);
        if pcs[c - 1].0 == i { prev.push((j, pcs[c - 1].1)) } else { prev }
    }
}

/// The sublogs that part `i` gets from the first `m` logs, in order.
pub open spec fn loop_part_list(all: Seq<Seq<(int, Seq<bool>)>>, i: int, m: int) -> Seq<(int, Seq<bool>)>
    decreases m,
{
    if m <= 0 {
        Seq::empty()
    } else {
        loop_part_list(all, i, m - 1) + pieces_for_part(all[m - 1], m - 1, i, all[m - 1].len() as int)
    }
}

/// `pcs` is what the loop split makes of one log: nothing for a log without
/// events, else the pieces of its components.
pub open spec fn loop_pieces_of(l: LocalData, g: GlobalData, log: OcLog, partition: Seq<Vec<String>>, pcs: Seq<(int, Seq<bool>)>) -> bool {
    if log.events@.len() == 0 {
        pcs == Seq::<(int, Seq<bool>)>::empty()
    } else {
        exists|groups: Seq<Vec<usize>>|
            #[trigger] is_component_grouping(groups, loop_links(l, g, log, partition[0]@), log.events@.len() as int)
            && pcs == loop_pieces(log, partition, groups, groups.len() as int)
    }
}

/// The parts among the first `m` whose list is nonempty.
pub open spec fn filled_parts(all: Seq<Seq<(int, Seq<bool>)>>, logs_len: int, m: int) -> Seq<int>
    decreases m,
{
    if m <= 0 {
        Seq::empty()
    } else {
        let prev = filled_parts(all, logs_len, m - 1);
        if loop_part_list(all, m - 1, logs_len).len() > 0 { prev.push(m - 1) } else { prev }
    }
}

/// `list` holds the sublogs that `spec_list` describes.
pub open spec fn sublogs_match(logs: Seq<OcLog>, spec_list: Seq<(int, Seq<bool>)>, list: Seq<OcLog>) -> bool {
    &&& list.len() == spec_list.len()
    &&& forall|x: int| 0 <= x < list.len() ==> 0 <= (#[trigger] spec_list[x]).0 < logs.len()
        && is_cleaned(logs[spec_list[x].0], spec_list[x].1, list[x])
}

/// The loop split of all logs: per part, the sublogs it gets, log after log;
/// parts that get none are dropped.
fn split_loop(logs: &Vec<OcLog>, partition: &Vec<Vec<String>>, l: &LocalData, g: &GlobalData) -> (r: Vec<(Vec<OcLog>, Vec<String>)>)
    requires
        l.wf(),
        g.wf(),
        partition@.len() > 0,
    ensures
        loop_split(*l, *g, logs@, partition@, r@),
{
    let np = partition.len();
    let mut lists: Vec<Vec<OcLog>> = Vec::new();
    let mut i: usize = 0;
    while i < np
        invariant
            0 <= i <= np,
            lists@.len() == i,
            forall|x: int| 0 <= x < i ==> (#[trigger] lists@[x])@.len() == 0,
        decreases np - i,
    {
        lists.push(Vec::new());
        i += 1;
    }
    let ghost mut all: Seq<Seq<(int, Seq<bool>)>> = Seq::empty();
    let mut j: usize = 0;
    while j < logs.len()
        invariant
            0 <= j <= logs@.len(),
            l.wf(),
            g.wf(),
            np == partition@.len(),
            np > 0,
            all.len() == j,
            forall|x: int| 0 <= x < j ==> loop_pieces_of(*l, *g, logs@[x], partition@, #[trigger] all[x]),
            lists@.len() == np,
            forall|i2: int| 0 <= i2 < np ==> sublogs_match(logs@, loop_part_list(all, i2, j as int), #[trigger] lists@[i2]@),
        decreases logs@.len() - j,
    {
        let ghost all0 = all;
        if logs[j].events.len() == 0 {
            proof {
                all = all.push(Seq::empty());
                assert forall|i2: int| 0 <= i2 < np implies sublogs_match(logs@, loop_part_list(all, i2, j + 1), #[trigger] lists@[i2]@) by {
                    assert(loop_part_list(all, i2, j as int) == loop_part_list(all0, i2, j as int)) by {
                        lemma_part_list_prefix(all0, all, i2, j as int);
                    }
                    assert(loop_part_list(all, i2, j + 1) =~= loop_part_list(all, i2, j as int));
                }
            }
        } else {
            let pieces = split_loop_log(l, g, &logs[j], partition);
            let ghost groups = choose|groups: Seq<Vec<usize>>|
                #[trigger] is_component_grouping(groups, loop_links(*l, *g, logs@[j as int], partition@[0]@), logs@[j as int].events@.len() as int)
                && pieces@.len() == loop_pieces(logs@[j as int], partition@, groups, groups.len() as int).len()
                && forall|q: int| 0 <= q < pieces@.len() ==> (#[trigger] pieces@[q]).0 as int == loop_pieces(logs@[j as int], partition@, groups, groups.len() as int)[q].0
                    && is_cleaned(logs@[j as int], loop_pieces(logs@[j as int], partition@, groups, groups.len() as int)[q].1, pieces@[q].1);
            let ghost pcs = loop_pieces(logs@[j as int], partition@, groups, groups.len() as int);
            proof {
                all = all.push(pcs);
                assert forall|i2: int| 0 <= i2 < np implies loop_part_list(all, i2, j as int) == loop_part_list(all0, i2, j as int) by {
                    lemma_part_list_prefix(all0, all, i2, j as int);
                }
            }
            let mut pieces = pieces;
            let ghost pv = pieces@;
            let total = pieces.len();
            let mut q: usize = 0;
            while q < total
                invariant
                    0 <= q <= pv.len(),
                    total == pv.len(),
                    j < logs@.len(),
                    pieces@ == pv.skip(q as int),
                    all.len() == j + 1,
                    all[j as int] == pcs,
                    pv.len() == pcs.len(),
                    forall|x: int| 0 <= x < pv.len() ==> (#[trigger] pv[x]).0 as int == pcs[x].0 && is_cleaned(logs@[j as int], pcs[x].1, pv[x].1),
                    lists@.len() == np,
                    forall|i2: int| 0 <= i2 < np ==> sublogs_match(logs@,
                        loop_part_list(all, i2, j as int) + pieces_for_part(pcs, j as int, i2, q as int), #[trigger] lists@[i2]@),
                decreases pv.len() - q,
            {
                let (h, sub) = pieces.remove(0);
                proof {
                    assert(pv[q as int] == (h, sub));
                }
                if h < np {
                    let ghost before = lists@;
                    let mut lst = lists.remove(h);
                    lst.push(sub);
                    lists.insert(h, lst);
                    proof {
                        assert forall|i2: int| 0 <= i2 < np implies sublogs_match(logs@,
                            loop_part_list(all, i2, j as int) + pieces_for_part(pcs, j as int, i2, q + 1), #[trigger] lists@[i2]@) by {
                            let base = loop_part_list(all, i2, j as int);
                            if i2 == h {
                                assert(base + pieces_for_part(pcs, j as int, i2, q + 1) =~= (base + pieces_for_part(pcs, j as int, i2, q as int)).push((j as int, pcs[q as int].1)));
                                assert(lists@[i2]@ =~= before[i2]@.push(sub));
                            } else {
                                assert(lists@[i2] == before[i2]);
                            }
                        }
                    }
                } else {
                    proof {
                        assert forall|i2: int| 0 <= i2 < np implies sublogs_match(logs@,
                            loop_part_list(all, i2, j as int) + pieces_for_part(pcs, j as int, i2, q + 1), #[trigger] lists@[i2]@) by {
                        }
                    }
                }
                q += 1;
                proof {
                    assert(pieces@ =~= pv.skip(q as int));
                }
            }
            proof {
                assert forall|i2: int| 0 <= i2 < np implies sublogs_match(logs@, loop_part_list(all, i2, j + 1), #[trigger] lists@[i2]@) by {
                    assert(loop_part_list(all, i2, j + 1) == loop_part_list(all, i2, j as int) + pieces_for_part(pcs, j as int, i2, pcs.len() as int));
                }
                assert(loop_pieces_of(*l, *g, logs@[j as int], partition@, all[j as int]));
            }
        }
        j += 1;
    }
    let ghost lv = lists@;
    let mut rest = lists;
    let mut out: Vec<(Vec<OcLog>, Vec<String>)> = Vec::new();
    let mut i: usize = 0;
    while i < np
        invariant
            0 <= i <= np,
            np == lv.len(),
            rest@ == lv.skip(i as int),
            all.len() == logs@.len(),
            forall|i2: int| 0 <= i2 < np ==> sublogs_match(logs@, loop_part_list(all, i2, logs@.len() as int), #[trigger] lv[i2]@),
            out@.len() == filled_parts(all, logs@.len() as int, i as int).len(),
            forall|q: int| 0 <= q < out@.len() ==> {
                let i2 = filled_parts(all, logs@.len() as int, i as int)[q];
                &&& sublogs_match(logs@, loop_part_list(all, i2, logs@.len() as int), (#[trigger] out@[q]).0@)
                &&& out@[q].1@ == l.expected_objects@
            },
        decreases np - i,
    {
        let lst = rest.remove(0);
        proof {
            assert(lst == lv[i as int]);
        }
        let ghost prevf = filled_parts(all, logs@.len() as int, i as int);
        if lst.len() > 0 {
            out.push((lst, copy_strings(&l.expected_objects)));
        }
        proof {
            assert(rest@ =~= lv.skip(i + 1));
            let now = filled_parts(all, logs@.len() as int, i + 1);
            assert forall|q: int| 0 <= q < out@.len() implies {
                let i2 = now[q];
                &&& sublogs_match(logs@, loop_part_list(all, i2, logs@.len() as int), (#[trigger] out@[q]).0@)
                &&& out@[q].1@ == l.expected_objects@
            } by {
                if q < prevf.len() {
                    assert(now[q] == prevf[q]);
                } else {
                    assert(now[q] == i);
                }
            }
        }
        i += 1;
    }
    out
}

proof fn lemma_part_list_prefix(a: Seq<Seq<(int, Seq<bool>)>>, b: Seq<Seq<(int, Seq<bool>)>>, i: int, m: int)
    requires
        0 <= m <= a.len(),
        m <= b.len(),
        forall|x: int| 0 <= x < m ==> a[x] == b[x],
    ensures
        loop_part_list(a, i, m) == loop_part_list(b, i, m),
    decreases m,
{
    if m > 0 {
        lemma_part_list_prefix(a, b, i, m - 1);
    }
}

/// `r` holds one entry per nonempty part: each log cut down to the part's
/// activities, and the objects the sublog is expected to hold: those its events
/// relate to for a choice (`exclusive`), those of `local` otherwise.
pub open spec fn parts_split(logs: Seq<OcLog>, partition: Seq<Vec<String>>, exclusive: bool, local: LocalData, r: Seq<(Vec<OcLog>, Vec<String>)>) -> bool {
    &&& r.len() == nonempty_parts(partition, partition.len() as int).len()
    &&& forall|q: int| 0 <= q < r.len() ==> {
        let part = partition[nonempty_parts(partition, partition.len() as int)[q]]@;
        &&& part_logs(logs, part, (#[trigger] r[q]).0@)
        &&& exclusive ==> strings_unique(r[q].1@)
            && forall|x: Seq<char>| #[trigger] seq_has(r[q].1@, x) <==> part_references(logs, part, x)
        &&& !exclusive ==> r[q].1@ == local.expected_objects@
    }
}

/// `r` is the loop split: per log, its events are grouped into the components
/// that time-consecutive events of an object form where they stay together
/// (`joinable`); each component's sublog goes to the first part that holds one
/// of its activities; parts get their sublogs log after log, and parts that get
/// none are dropped.
pub open spec fn loop_split(l: LocalData, g: GlobalData, logs: Seq<OcLog>, partition: Seq<Vec<String>>, r: Seq<(Vec<OcLog>, Vec<String>)>) -> bool {
    exists|all: Seq<Seq<(int, Seq<bool>)>>| all.len() == logs.len()
        && (forall|j: int| 0 <= j < logs.len() ==> loop_pieces_of(l, g, logs[j], partition, #[trigger] all[j]))
        && r.len() == filled_parts(all, logs.len() as int, partition.len() as int).len()
        && forall|q: int| 0 <= q < r.len() ==> {
            let i = filled_parts(all, logs.len() as int, partition.len() as int)[q];
            &&& sublogs_match(logs, loop_part_list(all, i, logs.len() as int), (#[trigger] r[q]).0@)
            &&& r[q].1@ == l.expected_objects@
        }
}

/// Splits the logs along a cut. Sequence and concurrency: one entry per
/// nonempty part, each log cut down to the part's activities, expecting the
/// objects that `local` expects. Choice: the same, expecting the objects that
/// the part's events relate to. Loop: the components of each log (see
/// `loop_split`). Identity relation: the logs as they are.
pub fn split_log(logs: &Vec<OcLog>, partition: &Vec<Vec<String>>, operator: &OCPTOperatorType, local: &LocalData, global: &GlobalData) -> (r: Vec<(Vec<OcLog>, Vec<String>)>)
    requires
        local.wf(),
        global.wf(),
        operator is Loop ==> partition@.len() > 0,
    ensures
        match operator {
            OCPTOperatorType::Sequence => parts_split(logs@, partition@, false, *local, r@),
            OCPTOperatorType::Concurrency => parts_split(logs@, partition@, false, *local, r@),
            OCPTOperatorType::ExclusiveChoice => parts_split(logs@, partition@, true, *local, r@),
            OCPTOperatorType::Loop(_) => loop_split(*local, *global, logs@, partition@, r@),
            OCPTOperatorType::IdentityRelation(_) => r@.len() == 1 && r@[0].0@.len() == logs@.len()
                && (forall|j: int| 0 <= j < logs@.len() ==> same_log(#[trigger] r@[0].0@[j], logs@[j]))
                && r@[0].1@ == local.expected_objects@,
        },
{
    match operator {
        OCPTOperatorType::Sequence => split_by_parts(logs, partition, false, local),
        OCPTOperatorType::Concurrency => split_by_parts(logs, partition, false, local),
        OCPTOperatorType::ExclusiveChoice => split_by_parts(logs, partition, true, local),
        OCPTOperatorType::Loop(_) => split_loop(logs, partition, local, global),
        OCPTOperatorType::IdentityRelation(_) => {
            let mut copies: Vec<OcLog> = Vec::new();
            let mut j: usize = 0;
            while j < logs.len()
                invariant
                    0 <= j <= logs@.len(),
                    copies@.len() == j,
                    forall|x: int| 0 <= x < j ==> same_log(#[trigger] copies@[x], logs@[x]),
                decreases logs@.len() - j,
            {
                copies.push(copy_log(&logs[j]));
                j += 1;
            }
            let mut out: Vec<(Vec<OcLog>, Vec<String>)> = Vec::new();
            out.push((copies, copy_strings(&local.expected_objects)));
            out
        },
    }
}

/// `a` is an end activity of object type `t` in the graphs of `l`.
pub open spec fn ends_type(l: LocalData, t: Seq<char>, a: Seq<char>) -> bool {
    has_dfg(l.dfgs@, t) && has_count_key(dfg_of(l.dfgs@, t).ends@, a)
}

/// `a` is a start activity of object type `t` in the graphs of `l`.
pub open spec fn starts_type(l: LocalData, t: Seq<char>, a: Seq<char>) -> bool {
    has_dfg(l.dfgs@, t) && has_count_key(dfg_of(l.dfgs@, t).starts@, a)
}

/// An object's end activity followed by one of its start activities closes one
/// iteration of a loop and opens the next: the two events never stay together.
pub proof fn lemma_end_then_start_splits(l: LocalData, g: GlobalData, p0: Seq<String>, e1: OcEvent, e2: OcEvent, t: Seq<char>)
    requires
        ends_type(l, t, e1.activity@),
        starts_type(l, t, e2.activity@),
    ensures
        !joinable(l, g, p0, e1, e2, t),
{
}

/// Two time-consecutive events on the same side of the cut stay together where
/// the first is not an end activity or the second not a start activity of the
/// type, and the type is not divergent for them, whatever else they are (a
/// start followed by an end included).
pub proof fn lemma_within_iteration_joins(l: LocalData, g: GlobalData, p0: Seq<String>, e1: OcEvent, e2: OcEvent, t: Seq<char>)
    requires
        seq_has(p0, e1.activity@) == seq_has(p0, e2.activity@),
        !(ends_type(l, t, e1.activity@) && starts_type(l, t, e2.activity@)),
        !is_divergent_type(g, e1.activity@, e2.activity@, l.alphabet@, t),
    ensures
        joinable(l, g, p0, e1, e2, t),
{
}

/// Events on different sides of the cut (one in the body part, one not) never stay together.
pub proof fn lemma_body_and_redo_events_split(l: LocalData, g: GlobalData, p0: Seq<String>, e1: OcEvent, e2: OcEvent, t: Seq<char>)
    requires
        seq_has(p0, e1.activity@) != seq_has(p0, e2.activity@),
    ensures
        !joinable(l, g, p0, e1, e2, t),
{
}

/// Events whose shared object type diverges for them never stay together through that type.
pub proof fn lemma_divergent_type_splits(l: LocalData, g: GlobalData, p0: Seq<String>, e1: OcEvent, e2: OcEvent, t: Seq<char>)
    requires
        is_divergent_type(g, e1.activity@, e2.activity@, l.alphabet@, t),
    ensures
        !joinable(l, g, p0, e1, e2, t),
{
}

} // verus!
