//! Event/object frequency histograms: their perspectives, and masks over them
//! that cut a log down to the events and objects whose frequencies fall in
//! chosen ranges.
use vstd::prelude::*;
use crate::clustering::case_counts::first_occurrences;
use crate::ocim::model::{contains_string, seq_has};
use crate::text::{str_eq, views};

verus! {

/// Histograms per event (objects per event) or per object (events per object).
#[derive(Clone, Copy, PartialEq, Eq, Structural)]
pub enum HistogramPerspective {
    Event,
    Object,
}

/// An event of a log: identifier, type, and the objects of its relationships in order.
#[derive(Debug, Clone)]
pub struct FilterEvent {
    pub id: String,
    pub event_type: String,
    pub object_ids: Vec<String>,
}

/// An object of a log.
#[derive(Debug, Clone)]
pub struct FilterObject {
    pub id: String,
    pub object_type: String,
}

/// What the masks read of a log: the names of its event and object types, its
/// events and its objects.
#[derive(Debug, Clone)]
pub struct FilterLog {
    pub event_types: Vec<String>,
    pub object_types: Vec<String>,
    pub events: Vec<FilterEvent>,
    pub objects: Vec<FilterObject>,
}

/// A mask on one histogram: for the given event and object type, the
/// frequencies (inclusive ranges) that pass.
#[derive(Debug, Clone)]
pub struct HistogramFilter {
    pub event_type: String,
    pub object_type: String,
    pub ranges: Vec<(usize, usize)>,
}

/// One selection: masks on the event perspective, the object perspective, or both.
#[derive(Debug, Clone)]
pub struct Selection {
    pub event_perspective_filters: Option<Vec<HistogramFilter>>,
    pub object_perspective_filters: Option<Vec<HistogramFilter>>,
}

/// What a selection keeps of a log, by position: the event types and object
/// types still used, each kept event with the positions of its kept
/// relationships, and the kept objects.
#[derive(Debug, Clone)]
pub struct FilteredLog {
    pub event_types: Vec<usize>,
    pub object_types: Vec<usize>,
    pub events: Vec<(usize, Vec<usize>)>,
    pub objects: Vec<usize>,
}

/// The type of the last of the first `n` objects with identifier `oid`.
pub open spec fn object_type_upto(objs: Seq<FilterObject>, oid: Seq<char>, n: int) -> Option<Seq<char>>
    decreases n,
{
    if n <= 0 {
        None
    } else if objs[n - 1].id@ == oid {
        Some(objs[n - 1].object_type@)
    } else {
        object_type_upto(objs, oid, n - 1)
    }
}

/// The type of the object `oid` (that of the last object with this identifier).
pub open spec fn object_type_of(log: FilterLog, oid: Seq<char>) -> Option<Seq<char>> {
    object_type_upto(log.objects@, oid, log.objects@.len() as int)
}

/// The type of the last of the first `n` events with identifier `eid`.
pub open spec fn event_type_upto(evs: Seq<FilterEvent>, eid: Seq<char>, n: int) -> Option<Seq<char>>
    decreases n,
{
    if n <= 0 {
        None
    } else if evs[n - 1].id@ == eid {
        Some(evs[n - 1].event_type@)
    } else {
        event_type_upto(evs, eid, n - 1)
    }
}

/// The type of the event `eid` (that of the last event with this identifier).
pub open spec fn event_type_of(log: FilterLog, eid: Seq<char>) -> Option<Seq<char>> {
    event_type_upto(log.events@, eid, log.events@.len() as int)
}

/// How many of the first `n` relationships name an object of type `ot`.
pub open spec fn typed_count(log: FilterLog, ids: Seq<String>, ot: Seq<char>, n: int) -> nat
    decreases n,
{
    if n <= 0 {
        0
    } else {
        typed_count(log, ids, ot, n - 1) + if object_type_of(log, ids[n - 1]@) == Some(ot) { 1nat } else { 0nat }
    }
}

/// `c` lies in one of the ranges.
pub open spec fn in_ranges(ranges: Seq<(usize, usize)>, c: nat) -> bool {
    exists|k: int| 0 <= k < ranges.len() && (#[trigger] ranges[k]).0 <= c && c <= ranges[k].1
}

/// Event `i` passes every mask on its event type: its number of objects of the
/// mask's object type lies in one of the mask's ranges.
pub open spec fn event_passes(log: FilterLog, i: int, fs: Seq<HistogramFilter>) -> bool {
    let e = log.events@[i];
    forall|k: int| 0 <= k < fs.len() && (#[trigger] fs[k]).event_type@ == e.event_type@
        ==> in_ranges(fs[k].ranges@, typed_count(log, e.object_ids@, fs[k].object_type@, e.object_ids@.len() as int))
}

/// The identifiers of the first `n` events, once per event that relates to `oid`.
pub open spec fn relating_events(log: FilterLog, oid: Seq<char>, n: int) -> Seq<Seq<char>>
    decreases n,
{
    if n <= 0 {
        Seq::empty()
    } else {
        let prev = relating_events(log, oid, n - 1);
        if seq_has(log.events@[n - 1].object_ids@, oid) { prev.push(log.events@[n - 1].id@) } else { prev }
    }
}

/// How many of the first `n` identifiers belong to events of type `et`.
pub open spec fn typed_ids(log: FilterLog, ids: Seq<Seq<char>>, et: Seq<char>, n: int) -> nat
    decreases n,
{
    if n <= 0 {
        0
    } else {
        typed_ids(log, ids, et, n - 1) + if event_type_of(log, ids[n - 1]) == Some(et) { 1nat } else { 0nat }
    }
}

/// The number of distinct events of type `et` that relate to object `oid`.
pub open spec fn typed_event_count(log: FilterLog, oid: Seq<char>, et: Seq<char>) -> nat {
    let ids = first_occurrences(relating_events(log, oid, log.events@.len() as int));
    typed_ids(log, ids, et, ids.len() as int)
}

/// Object `i` passes every mask on its object type: its number of related
/// events of the mask's event type lies in one of the mask's ranges.
pub open spec fn object_passes(log: FilterLog, i: int, fs: Seq<HistogramFilter>) -> bool {
    let o = log.objects@[i];
    forall|k: int| 0 <= k < fs.len() && (#[trigger] fs[k]).object_type@ == o.object_type@
        ==> in_ranges(fs[k].ranges@, typed_event_count(log, o.id@, fs[k].event_type@))
}

/// Event `i` passes the selection's event masks (all events pass where it has none).
pub open spec fn event_selected(log: FilterLog, sel: Selection, i: int) -> bool {
    match sel.event_perspective_filters {
        Some(fs) => event_passes(log, i, fs@),
        None => true,
    }
}

/// Object `i` passes the selection's object masks (all objects pass where it has none).
pub open spec fn object_selected(log: FilterLog, sel: Selection, i: int) -> bool {
    match sel.object_perspective_filters {
        Some(fs) => object_passes(log, i, fs@),
        None => true,
    }
}

/// Some event that passes the event masks relates to object `oid`.
pub open spec fn used_by_selected(log: FilterLog, sel: Selection, oid: Seq<char>) -> bool {
    exists|i: int| 0 <= i < log.events@.len() && event_selected(log, sel, i) && seq_has((#[trigger] log.events@[i]).object_ids@, oid)
}

/// Object `i` stays: it passes the object masks and a selected event relates to it.
pub open spec fn object_kept(log: FilterLog, sel: Selection, i: int) -> bool {
    object_selected(log, sel, i) && used_by_selected(log, sel, log.objects@[i].id@)
}

/// Some kept object has identifier `oid`.
pub open spec fn kept_id(log: FilterLog, sel: Selection, oid: Seq<char>) -> bool {
    exists|i: int| 0 <= i < log.objects@.len() && object_kept(log, sel, i) && (#[trigger] log.objects@[i]).id@ == oid
}

/// The positions below `n` of the identifiers that `kept_id` keeps.
pub open spec fn kept_relations(log: FilterLog, sel: Selection, ids: Seq<String>, n: int) -> Seq<usize>
    decreases n,
{
    if n <= 0 {
        Seq::empty()
    } else {
        let prev = kept_relations(log, sel, ids, n - 1);
        if kept_id(log, sel, ids[n - 1]@) { prev.push((n - 1) as usize) } else { prev }
    }
}

/// The relationships that event `i` keeps.
pub open spec fn event_relations(log: FilterLog, sel: Selection, i: int) -> Seq<usize> {
    let ids = log.events@[i].object_ids@;
    kept_relations(log, sel, ids, ids.len() as int)
}

/// Among the first `n` events, those that pass the event masks and keep a
/// relationship, each with the relationships it keeps.
pub open spec fn kept_events(log: FilterLog, sel: Selection, n: int) -> Seq<(usize, Seq<usize>)>
    decreases n,
{
    if n <= 0 {
        Seq::empty()
    } else {
        let prev = kept_events(log, sel, n - 1);
        if event_selected(log, sel, n - 1) && event_relations(log, sel, n - 1).len() > 0 {
            prev.push(((n - 1) as usize, event_relations(log, sel, n - 1)))
        } else {
            prev
        }
    }
}

/// The positions below `n` of the objects that stay.
pub open spec fn kept_objects(log: FilterLog, sel: Selection, n: int) -> Seq<usize>
    decreases n,
{
    if n <= 0 {
        Seq::empty()
    } else {
        let prev = kept_objects(log, sel, n - 1);
        if object_kept(log, sel, n - 1) { prev.push((n - 1) as usize) } else { prev }
    }
}

/// Some kept event has type `et`.
pub open spec fn event_type_used(log: FilterLog, sel: Selection, et: Seq<char>) -> bool {
    exists|i: int| 0 <= i < log.events@.len() && event_selected(log, sel, i) && event_relations(log, sel, i).len() > 0
        && (#[trigger] log.events@[i]).event_type@ == et
}

/// Some kept object has type `ot`.
pub open spec fn object_type_used(log: FilterLog, sel: Selection, ot: Seq<char>) -> bool {
    exists|i: int| 0 <= i < log.objects@.len() && object_kept(log, sel, i) && (#[trigger] log.objects@[i]).object_type@ == ot
}

/// The positions below `n` of the event type names that a kept event uses.
pub open spec fn kept_event_types(log: FilterLog, sel: Selection, n: int) -> Seq<usize>
    decreases n,
{
    if n <= 0 {
        Seq::empty()
    } else {
        let prev = kept_event_types(log, sel, n - 1);
        if event_type_used(log, sel, log.event_types@[n - 1]@) { prev.push((n - 1) as usize) } else { prev }
    }
}

/// The positions below `n` of the object type names that a kept object uses.
pub open spec fn kept_object_types(log: FilterLog, sel: Selection, n: int) -> Seq<usize>
    decreases n,
{
    if n <= 0 {
        Seq::empty()
    } else {
        let prev = kept_object_types(log, sel, n - 1);
        if object_type_used(log, sel, log.object_types@[n - 1]@) { prev.push((n - 1) as usize) } else { prev }
    }
}

/// `out` is what selection `sel` keeps of `log`.
pub open spec fn selection_result(log: FilterLog, sel: Selection, out: FilteredLog) -> bool {
    let ke = kept_events(log, sel, log.events@.len() as int);
    &&& out.event_types@ == kept_event_types(log, sel, log.event_types@.len() as int)
    &&& out.object_types@ == kept_object_types(log, sel, log.object_types@.len() as int)
    &&& out.objects@ == kept_objects(log, sel, log.objects@.len() as int)
    &&& out.events@.len() == ke.len()
    &&& forall|q: int| 0 <= q < ke.len() ==> (#[trigger] out.events@[q]).0 == ke[q].0 && out.events@[q].1@ == ke[q].1
}

/// The type of the object `oid`.
fn object_type_lookup(log: &FilterLog, oid: &String) -> (r: Option<usize>)
    ensures
        match r {
            Some(i) => i < log.objects@.len() && object_type_of(*log, oid@) == Some(log.objects@[i as int].object_type@),
            None => object_type_of(*log, oid@) is None,
        },
{
    let mut k: usize = log.objects.len();
    while k > 0
        invariant
            0 <= k <= log.objects@.len(),
            object_type_of(*log, oid@) == object_type_upto(log.objects@, oid@, k as int),
        decreases k,
    {
        if str_eq(log.objects[k - 1].id.as_str(), oid.as_str()) {
            return Some(k - 1);
        }
        k -= 1;
    }
    None
}

/// The type of the event `eid`.
fn event_type_lookup(log: &FilterLog, eid: &String) -> (r: Option<usize>)
    ensures
        match r {
            Some(i) => i < log.events@.len() && event_type_of(*log, eid@) == Some(log.events@[i as int].event_type@),
            None => event_type_of(*log, eid@) is None,
        },
{
    let mut k: usize = log.events.len();
    while k > 0
        invariant
            0 <= k <= log.events@.len(),
            event_type_of(*log, eid@) == event_type_upto(log.events@, eid@, k as int),
        decreases k,
    {
        if str_eq(log.events[k - 1].id.as_str(), eid.as_str()) {
            return Some(k - 1);
        }
        k -= 1;
    }
    None
}

/// Whether `c` lies in one of the ranges.
fn within_ranges(ranges: &Vec<(usize, usize)>, c: usize) -> (r: bool)
    ensures
        r == in_ranges(ranges@, c as nat),
{
    let mut k: usize = 0;
    while k < ranges.len()
        invariant
            0 <= k <= ranges@.len(),
            forall|j: int| 0 <= j < k ==> !((#[trigger] ranges@[j]).0 <= c && c <= ranges@[j].1),
        decreases ranges@.len() - k,
    {
        if ranges[k].0 <= c && c <= ranges[k].1 {
            return true;
        }
        k += 1;
    }
    false
}

/// How many of the identifiers name an object of type `ot`.
fn count_typed_objects(log: &FilterLog, ids: &Vec<String>, ot: &String) -> (r: usize)
    ensures
        r as nat == typed_count(*log, ids@, ot@, ids@.len() as int),
{
    let mut c: usize = 0;
    let mut j: usize = 0;
    while j < ids.len()
        invariant
            0 <= j <= ids@.len(),
            c as nat == typed_count(*log, ids@, ot@, j as int),
            c <= j,
        decreases ids@.len() - j,
    {
        match object_type_lookup(log, &ids[j]) {
            Some(p) => {
                if str_eq(log.objects[p].object_type.as_str(), ot.as_str()) {
                    c += 1;
                }
            },
            None => {},
        }
        j += 1;
    }
    c
}

/// Whether event `i` passes the masks.
fn check_event(log: &FilterLog, i: usize, fs: &Vec<HistogramFilter>) -> (r: bool)
    requires
        i < log.events@.len(),
    ensures
        r == event_passes(*log, i as int, fs@),
{
    let e = &log.events[i];
    let mut k: usize = 0;
    while k < fs.len()
        invariant
            0 <= k <= fs@.len(),
            i < log.events@.len(),
            *e == log.events@[i as int],
            forall|q: int| 0 <= q < k && (#[trigger] fs@[q]).event_type@ == e.event_type@
                ==> in_ranges(fs@[q].ranges@, typed_count(*log, e.object_ids@, fs@[q].object_type@, e.object_ids@.len() as int)),
        decreases fs@.len() - k,
    {
        let f = &fs[k];
        if str_eq(f.event_type.as_str(), e.event_type.as_str()) {
            let c = count_typed_objects(log, &e.object_ids, &f.object_type);
            if !within_ranges(&f.ranges, c) {
                return false;
            }
        }
        k += 1;
    }
    true
}

proof fn lemma_seq_has_views(v: Seq<String>, x: Seq<char>)
    ensures
        seq_has(v, x) <==> views(v).contains(x),
{
    if seq_has(v, x) {
        let k = choose|k: int| 0 <= k < v.len() && (#[trigger] v[k])@ == x;
        assert(views(v)[k] == x);
    }
    if views(v).contains(x) {
        let k = choose|k: int| 0 <= k < views(v).len() && views(v)[k] == x;
        assert(v[k]@ == x);
    }
}

/// The identifiers of the events that relate to object `oid`, each once, in order.
fn relating_ids(log: &FilterLog, oid: &String) -> (r: Vec<String>)
    ensures
        views(r@) == first_occurrences(relating_events(*log, oid@, log.events@.len() as int)),
{
    let mut out: Vec<String> = Vec::new();
    let mut i: usize = 0;
    proof {
        assert(views(out@) =~= Seq::<Seq<char>>::empty());
    }
    while i < log.events.len()
        invariant
            0 <= i <= log.events@.len(),
            views(out@) == first_occurrences(relating_events(*log, oid@, i as int)),
        decreases log.events@.len() - i,
    {
        let ghost prev = relating_events(*log, oid@, i as int);
        if contains_string(&log.events[i].object_ids, oid) {
            let x = &log.events[i].id;
            proof {
                assert(prev.push(x@).drop_last() =~= prev);
                lemma_seq_has_views(out@, x@);
            }
            if !contains_string(&out, x) {
                out.push(x.clone());
                assert(views(out@) =~= first_occurrences(prev).push(x@));
            }
        }
        i += 1;
    }
    out
}

/// Whether object `i` passes the masks.
fn check_object(log: &FilterLog, i: usize, fs: &Vec<HistogramFilter>) -> (r: bool)
    requires
        i < log.objects@.len(),
    ensures
        r == object_passes(*log, i as int, fs@),
{
    let o = &log.objects[i];
    let ids = relating_ids(log, &o.id);
    let ghost idv = views(ids@);
    let mut k: usize = 0;
    while k < fs.len()
        invariant
            0 <= k <= fs@.len(),
            i < log.objects@.len(),
            *o == log.objects@[i as int],
            idv == views(ids@),
            idv == first_occurrences(relating_events(*log, o.id@, log.events@.len() as int)),
            forall|q: int| 0 <= q < k && (#[trigger] fs@[q]).object_type@ == o.object_type@
                ==> in_ranges(fs@[q].ranges@, typed_event_count(*log, o.id@, fs@[q].event_type@)),
        decreases fs@.len() - k,
    {
        let f = &fs[k];
        if str_eq(f.object_type.as_str(), o.object_type.as_str()) {
            let mut c: usize = 0;
            let mut j: usize = 0;
            while j < ids.len()
                invariant
                    0 <= j <= ids@.len(),
                    idv == views(ids@),
                    c as nat == typed_ids(*log, idv, f.event_type@, j as int),
                    c <= j,
                decreases ids@.len() - j,
            {
                assert(idv[j as int] == ids@[j as int]@);
                match event_type_lookup(log, &ids[j]) {
                    Some(p) => {
                        if str_eq(log.events[p].event_type.as_str(), f.event_type.as_str()) {
                            c += 1;
                        }
                    },
                    None => {},
                }
                j += 1;
            }
            if !within_ranges(&f.ranges, c) {
                return false;
            }
        }
        k += 1;
    }
    true
}

/// Whether some kept object has identifier `x`; `kept` marks the kept objects.
fn is_kept_id(log: &FilterLog, sel: &Selection, kept: &Vec<bool>, x: &String) -> (r: bool)
    requires
        kept@.len() == log.objects@.len(),
        forall|q: int| 0 <= q < kept@.len() ==> kept@[q] == object_kept(*log, *sel, q),
    ensures
        r == kept_id(*log, *sel, x@),
{
    let mut i: usize = 0;
    while i < log.objects.len()
        invariant
            0 <= i <= log.objects@.len(),
            kept@.len() == log.objects@.len(),
            forall|q: int| 0 <= q < kept@.len() ==> kept@[q] == object_kept(*log, *sel, q),
            forall|q: int| 0 <= q < i ==> !(object_kept(*log, *sel, q) && (#[trigger] log.objects@[q]).id@ == x@),
        decreases log.objects@.len() - i,
    {
        if kept[i] && str_eq(log.objects[i].id.as_str(), x.as_str()) {
            return true;
        }
        i += 1;
    }
    false
}

/// What one selection keeps of the log: the events that pass the event masks
/// and the objects that pass the object masks (all of them where the selection
/// has no masks of that perspective); then the objects that no kept event
/// relates to go, the relationships to objects that went go, the events left
/// without a relationship go, and the types that no remaining event or object
/// uses go.
pub fn apply_selection(log: &FilterLog, sel: &Selection) -> (r: FilteredLog)
    ensures
        selection_result(*log, *sel, r),
{
    let ghost lg = *log;
    let ghost sl = *sel;
    let mut ev_sel: Vec<bool> = Vec::new();
    let mut i: usize = 0;
    while i < log.events.len()
        invariant
            0 <= i <= log.events@.len(),
            ev_sel@.len() == i,
            forall|q: int| 0 <= q < i ==> ev_sel@[q] == event_selected(lg, sl, q),
        decreases log.events@.len() - i,
    {
        let passes = match &sel.event_perspective_filters {
            Some(fs) => check_event(log, i, fs),
            None => true,
        };
        ev_sel.push(passes);
        i += 1;
    }
    let mut obj_kept: Vec<bool> = Vec::new();
    let mut i: usize = 0;
    while i < log.objects.len()
        invariant
            0 <= i <= log.objects@.len(),
            ev_sel@.len() == log.events@.len(),
            forall|q: int| 0 <= q < ev_sel@.len() ==> ev_sel@[q] == event_selected(lg, sl, q),
            obj_kept@.len() == i,
            forall|q: int| 0 <= q < i ==> obj_kept@[q] == object_kept(lg, sl, q),
        decreases log.objects@.len() - i,
    {
        let selected = match &sel.object_perspective_filters {
            Some(fs) => check_object(log, i, fs),
            None => true,
        };
        let oid = &log.objects[i].id;
        let mut used = false;
        let mut q: usize = 0;
        while q < log.events.len()
            invariant
                0 <= q <= log.events@.len(),
                ev_sel@.len() == log.events@.len(),
                forall|x: int| 0 <= x < ev_sel@.len() ==> ev_sel@[x] == event_selected(lg, sl, x),
                !used,
                forall|x: int| 0 <= x < q ==> !(event_selected(lg, sl, x) && seq_has((#[trigger] log.events@[x]).object_ids@, oid@)),
            decreases log.events@.len() - q,
        {
            if ev_sel[q] && contains_string(&log.events[q].object_ids, oid) {
                used = true;
                break;
            }
            q += 1;
        }
        obj_kept.push(selected && used);
        i += 1;
    }
    let mut events_out: Vec<(usize, Vec<usize>)> = Vec::new();
    let mut ev_kept: Vec<bool> = Vec::new();
    let mut i: usize = 0;
    while i < log.events.len()
        invariant
            0 <= i <= log.events@.len(),
            ev_sel@.len() == log.events@.len(),
            forall|q: int| 0 <= q < ev_sel@.len() ==> ev_sel@[q] == event_selected(lg, sl, q),
            obj_kept@.len() == log.objects@.len(),
            forall|q: int| 0 <= q < obj_kept@.len() ==> obj_kept@[q] == object_kept(lg, sl, q),
            ev_kept@.len() == i,
            forall|q: int| 0 <= q < i ==> ev_kept@[q] == (event_selected(lg, sl, q) && event_relations(lg, sl, q).len() > 0),
            events_out@.len() == kept_events(lg, sl, i as int).len(),
            forall|q: int| 0 <= q < events_out@.len() ==> (#[trigger] events_out@[q]).0 == kept_events(lg, sl, i as int)[q].0
                && events_out@[q].1@ == kept_events(lg, sl, i as int)[q].1,
        decreases log.events@.len() - i,
    {
        let ghost prev = kept_events(lg, sl, i as int);
        let mut keep = false;
        if ev_sel[i] {
            let ids = &log.events[i].object_ids;
            let mut rels: Vec<usize> = Vec::new();
            let mut j: usize = 0;
            while j < ids.len()
                invariant
                    0 <= j <= ids@.len(),
                    *ids == log.events@[i as int].object_ids,
                    obj_kept@.len() == log.objects@.len(),
                    forall|q: int| 0 <= q < obj_kept@.len() ==> obj_kept@[q] == object_kept(lg, sl, q),
                    rels@ == kept_relations(lg, sl, ids@, j as int),
                decreases ids@.len() - j,
            {
                if is_kept_id(log, sel, &obj_kept, &ids[j]) {
                    rels.push(j);
                }
                j += 1;
            }
            if rels.len() > 0 {
                keep = true;
                events_out.push((i, rels));
            }
        }
        ev_kept.push(keep);
        proof {
            let now = kept_events(lg, sl, i + 1);
            assert forall|q: int| 0 <= q < events_out@.len() implies (#[trigger] events_out@[q]).0 == now[q].0
                && events_out@[q].1@ == now[q].1 by {
                if q < prev.len() {
                    assert(now[q] == prev[q]);
                }
            }
        }
        i += 1;
    }
    let mut objects_out: Vec<usize> = Vec::new();
    let mut i: usize = 0;
    while i < log.objects.len()
        invariant
            0 <= i <= log.objects@.len(),
            obj_kept@.len() == log.objects@.len(),
            forall|q: int| 0 <= q < obj_kept@.len() ==> obj_kept@[q] == object_kept(lg, sl, q),
            objects_out@ == kept_objects(lg, sl, i as int),
        decreases log.objects@.len() - i,
    {
        if obj_kept[i] {
            objects_out.push(i);
        }
        i += 1;
    }
    let mut event_types_out: Vec<usize> = Vec::new();
    let mut k: usize = 0;
    while k < log.event_types.len()
        invariant
            0 <= k <= log.event_types@.len(),
            ev_kept@.len() == log.events@.len(),
            forall|q: int| 0 <= q < ev_kept@.len() ==> ev_kept@[q] == (event_selected(lg, sl, q) && event_relations(lg, sl, q).len() > 0),
            event_types_out@ == kept_event_types(lg, sl, k as int),
        decreases log.event_types@.len() - k,
    {
        let name = &log.event_types[k];
        let mut used = false;
        let mut q: usize = 0;
        while q < log.events.len()
            invariant
                0 <= q <= log.events@.len(),
                ev_kept@.len() == log.events@.len(),
                forall|x: int| 0 <= x < ev_kept@.len() ==> ev_kept@[x] == (event_selected(lg, sl, x) && event_relations(lg, sl, x).len() > 0),
                !used,
                forall|x: int| 0 <= x < q ==> !(event_selected(lg, sl, x) && event_relations(lg, sl, x).len() > 0
                    && (#[trigger] log.events@[x]).event_type@ == name@),
            decreases log.events@.len() - q,
        {
            if ev_kept[q] && str_eq(log.events[q].event_type.as_str(), name.as_str()) {
                used = true;
                break;
            }
            q += 1;
        }
        if used {
            event_types_out.push(k);
        }
        k += 1;
    }
    let mut object_types_out: Vec<usize> = Vec::new();
    let mut k: usize = 0;
    while k < log.object_types.len()
        invariant
            0 <= k <= log.object_types@.len(),
            obj_kept@.len() == log.objects@.len(),
            forall|q: int| 0 <= q < obj_kept@.len() ==> obj_kept@[q] == object_kept(lg, sl, q),
            object_types_out@ == kept_object_types(lg, sl, k as int),
        decreases log.object_types@.len() - k,
    {
        let name = &log.object_types[k];
        let mut used = false;
        let mut q: usize = 0;
        while q < log.objects.len()
            invariant
                0 <= q <= log.objects@.len(),
                obj_kept@.len() == log.objects@.len(),
                forall|x: int| 0 <= x < obj_kept@.len() ==> obj_kept@[x] == object_kept(lg, sl, x),
                !used,
                forall|x: int| 0 <= x < q ==> !(object_kept(lg, sl, x) && (#[trigger] log.objects@[x]).object_type@ == name@),
            decreases log.objects@.len() - q,
        {
            if obj_kept[q] && str_eq(log.objects[q].object_type.as_str(), name.as_str()) {
                used = true;
                break;
            }
            q += 1;
        }
        if used {
            object_types_out.push(k);
        }
        k += 1;
    }
    FilteredLog { event_types: event_types_out, object_types: object_types_out, events: events_out, objects: objects_out }
}

/// Every selection has a mask on at least one perspective.
pub open spec fn selections_have_filters(sels: Seq<Selection>) -> bool {
    forall|k: int| 0 <= k < sels.len() ==> (#[trigger] sels[k]).event_perspective_filters is Some
        || sels[k].object_perspective_filters is Some
}

/// Applies each selection to the log: one result per selection, in order. An
/// empty list of selections, or a selection without any mask, is refused.
pub fn filter_ocel_histograms(log: &FilterLog, selections: &Vec<Selection>) -> (r: Result<Vec<FilteredLog>, String>)
    ensures
        match r {
            Ok(out) => selections@.len() > 0 && selections_have_filters(selections@) && out@.len() == selections@.len()
                && forall|k: int| 0 <= k < out@.len() ==> selection_result(*log, selections@[k], #[trigger] out@[k]),
            Err(msg) => (selections@.len() == 0 && msg@ == "No selections provided"@)
                || (selections@.len() > 0 && !selections_have_filters(selections@)
                    && msg@ == "Each selection must contain at least one filter"@),
        },
{
    if selections.len() == 0 {
        return Err("No selections provided".to_string());
    }
    let mut k: usize = 0;
    while k < selections.len()
        invariant
            0 <= k <= selections@.len(),
            forall|q: int| 0 <= q < k ==> (#[trigger] selections@[q]).event_perspective_filters is Some
                || selections@[q].object_perspective_filters is Some,
        decreases selections@.len() - k,
    {
        if selections[k].event_perspective_filters.is_none() && selections[k].object_perspective_filters.is_none() {
            return Err("Each selection must contain at least one filter".to_string());
        }
        k += 1;
    }
    let mut out: Vec<FilteredLog> = Vec::new();
    let mut k: usize = 0;
    while k < selections.len()
        invariant
            0 <= k <= selections@.len(),
            out@.len() == k,
            forall|q: int| 0 <= q < k ==> selection_result(*log, selections@[q], #[trigger] out@[q]),
        decreases selections@.len() - k,
    {
        let r = apply_selection(log, &selections[k]);
        out.push(r);
        k += 1;
    }
    Ok(out)
}

proof fn lemma_kept_relations(log: FilterLog, sel: Selection, ids: Seq<String>, n: int)
    requires
        0 <= n <= ids.len(),
        ids.len() <= usize::MAX,
    ensures
        forall|x: int| 0 <= x < kept_relations(log, sel, ids, n).len() ==>
            (#[trigger] kept_relations(log, sel, ids, n)[x]) < n && kept_id(log, sel, ids[kept_relations(log, sel, ids, n)[x] as int]@),
        forall|x: int, y: int| 0 <= x < y < kept_relations(log, sel, ids, n).len() ==>
            #[trigger] kept_relations(log, sel, ids, n)[x] < #[trigger] kept_relations(log, sel, ids, n)[y],
        forall|j: int| 0 <= j < n && kept_id(log, sel, (#[trigger] ids[j])@) ==>
            exists|x: int| 0 <= x < kept_relations(log, sel, ids, n).len() && kept_relations(log, sel, ids, n)[x] == j,
    decreases n,
{
    if n > 0 {
        lemma_kept_relations(log, sel, ids, n - 1);
        let prev = kept_relations(log, sel, ids, n - 1);
        let now = kept_relations(log, sel, ids, n);
        assert forall|j: int| 0 <= j < n && kept_id(log, sel, (#[trigger] ids[j])@) implies
            exists|x: int| 0 <= x < now.len() && now[x] == j by {
            if j < n - 1 {
                let x = choose|x: int| 0 <= x < prev.len() && prev[x] == j;
                assert(now[x] == prev[x]);
            } else {
                assert(now[prev.len() as int] == j);
            }
        }
        assert forall|x: int, y: int| 0 <= x < y < now.len() implies #[trigger] now[x] < #[trigger] now[y] by {
            if y < prev.len() {
                assert(now[x] == prev[x] && now[y] == prev[y]);
            } else {
                assert(now[x] == prev[x]);
            }
        }
        assert forall|x: int| 0 <= x < now.len() implies (#[trigger] now[x]) < n && kept_id(log, sel, ids[now[x] as int]@) by {
            if x < prev.len() {
                assert(now[x] == prev[x]);
            }
        }
    }
}

proof fn lemma_kept_events(log: FilterLog, sel: Selection, n: int)
    requires
        0 <= n <= log.events@.len(),
        log.events@.len() <= usize::MAX,
    ensures
        forall|q: int| 0 <= q < kept_events(log, sel, n).len() ==> {
            let i = (#[trigger] kept_events(log, sel, n)[q]).0 as int;
            &&& i < n
            &&& event_selected(log, sel, i)
            &&& kept_events(log, sel, n)[q].1 == event_relations(log, sel, i)
            &&& event_relations(log, sel, i).len() > 0
        },
        forall|q1: int, q2: int| 0 <= q1 < q2 < kept_events(log, sel, n).len() ==>
            (#[trigger] kept_events(log, sel, n)[q1]).0 < (#[trigger] kept_events(log, sel, n)[q2]).0,
        forall|i: int| 0 <= i < n && event_selected(log, sel, i) && (#[trigger] event_relations(log, sel, i)).len() > 0 ==>
            exists|q: int| 0 <= q < kept_events(log, sel, n).len() && kept_events(log, sel, n)[q].0 == i,
    decreases n,
{
    if n > 0 {
        lemma_kept_events(log, sel, n - 1);
        let prev = kept_events(log, sel, n - 1);
        let now = kept_events(log, sel, n);
        assert forall|q: int| 0 <= q < now.len() implies {
            let i = (#[trigger] now[q]).0 as int;
            &&& i < n
            &&& event_selected(log, sel, i)
            &&& now[q].1 == event_relations(log, sel, i)
            &&& event_relations(log, sel, i).len() > 0
        } by {
            if q < prev.len() {
                assert(now[q] == prev[q]);
            }
        }
        assert forall|q1: int, q2: int| 0 <= q1 < q2 < now.len() implies (#[trigger] now[q1]).0 < (#[trigger] now[q2]).0 by {
            if q2 < prev.len() {
                assert(now[q1] == prev[q1] && now[q2] == prev[q2]);
            } else {
                assert(now[q1] == prev[q1]);
            }
        }
        assert forall|i: int| 0 <= i < n && event_selected(log, sel, i) && (#[trigger] event_relations(log, sel, i)).len() > 0 implies
            exists|q: int| 0 <= q < now.len() && now[q].0 == i by {
            if i < n - 1 {
                let q = choose|q: int| 0 <= q < prev.len() && prev[q].0 == i;
                assert(now[q] == prev[q]);
            } else {
                assert(now[prev.len() as int].0 == i);
            }
        }
    }
}

proof fn lemma_kept_objects(log: FilterLog, sel: Selection, n: int)
    requires
        0 <= n <= log.objects@.len(),
        log.objects@.len() <= usize::MAX,
    ensures
        forall|q: int| 0 <= q < kept_objects(log, sel, n).len() ==>
            (#[trigger] kept_objects(log, sel, n)[q]) < n && object_kept(log, sel, kept_objects(log, sel, n)[q] as int),
        forall|q1: int, q2: int| 0 <= q1 < q2 < kept_objects(log, sel, n).len() ==>
            #[trigger] kept_objects(log, sel, n)[q1] < #[trigger] kept_objects(log, sel, n)[q2],
    decreases n,
{
    if n > 0 {
        lemma_kept_objects(log, sel, n - 1);
        let prev = kept_objects(log, sel, n - 1);
        let now = kept_objects(log, sel, n);
        assert forall|q: int| 0 <= q < now.len() implies (#[trigger] now[q]) < n && object_kept(log, sel, now[q] as int) by {
            if q < prev.len() {
                assert(now[q] == prev[q]);
            }
        }
        assert forall|q1: int, q2: int| 0 <= q1 < q2 < now.len() implies #[trigger] now[q1] < #[trigger] now[q2] by {
            if q2 < prev.len() {
                assert(now[q1] == prev[q1] && now[q2] == prev[q2]);
            } else {
                assert(now[q1] == prev[q1]);
            }
        }
    }
}

/// What a selection keeps is a narrowed sublog: the kept events and objects
/// are sublists of the log's, each kept event keeps a nonempty sublist of its
/// relationships, each to a kept object, and each kept object is related to by
/// a kept relationship of a kept event.
pub proof fn lemma_selection_narrows(log: FilterLog, sel: Selection, out: FilteredLog)
    requires
        selection_result(log, sel, out),
        log.events@.len() <= usize::MAX,
        log.objects@.len() <= usize::MAX,
        forall|i: int| 0 <= i < log.events@.len() ==> (#[trigger] log.events@[i]).object_ids@.len() <= usize::MAX,
    ensures
        forall|q1: int, q2: int| 0 <= q1 < q2 < out.events@.len() ==> (#[trigger] out.events@[q1]).0 < (#[trigger] out.events@[q2]).0,
        forall|q: int| 0 <= q < out.events@.len() ==> {
            let i = (#[trigger] out.events@[q]).0 as int;
            let ids = log.events@[i].object_ids@;
            &&& i < log.events@.len()
            &&& out.events@[q].1@.len() > 0
            &&& forall|x: int| 0 <= x < out.events@[q].1@.len() ==> (#[trigger] out.events@[q].1@[x]) < ids.len()
                && kept_id(log, sel, ids[out.events@[q].1@[x] as int]@)
            &&& forall|x: int, y: int| 0 <= x < y < out.events@[q].1@.len() ==> #[trigger] out.events@[q].1@[x] < #[trigger] out.events@[q].1@[y]
        },
        forall|q1: int, q2: int| 0 <= q1 < q2 < out.objects@.len() ==> #[trigger] out.objects@[q1] < #[trigger] out.objects@[q2],
        forall|q: int| 0 <= q < out.objects@.len() ==> {
            let o = (#[trigger] out.objects@[q]) as int;
            &&& o < log.objects@.len()
            &&& exists|q2: int, x: int| 0 <= q2 < out.events@.len() && 0 <= x < out.events@[q2].1@.len()
                && log.events@[out.events@[q2].0 as int].object_ids@[#[trigger] out.events@[q2].1@[x] as int]@ == log.objects@[o].id@
        },
{
    let ne = log.events@.len() as int;
    let ke = kept_events(log, sel, ne);
    lemma_kept_events(log, sel, ne);
    lemma_kept_objects(log, sel, log.objects@.len() as int);
    assert forall|q: int| 0 <= q < out.events@.len() implies {
        let i = (#[trigger] out.events@[q]).0 as int;
        let ids = log.events@[i].object_ids@;
        &&& i < log.events@.len()
        &&& out.events@[q].1@.len() > 0
        &&& forall|x: int| 0 <= x < out.events@[q].1@.len() ==> (#[trigger] out.events@[q].1@[x]) < ids.len()
            && kept_id(log, sel, ids[out.events@[q].1@[x] as int]@)
        &&& forall|x: int, y: int| 0 <= x < y < out.events@[q].1@.len() ==> #[trigger] out.events@[q].1@[x] < #[trigger] out.events@[q].1@[y]
    } by {
        let i = ke[q].0 as int;
        assert(out.events@[q].0 == ke[q].0);
        let ids = log.events@[i].object_ids@;
        lemma_kept_relations(log, sel, ids, ids.len() as int);
    }
    assert forall|q1: int, q2: int| 0 <= q1 < q2 < out.events@.len() implies (#[trigger] out.events@[q1]).0 < (#[trigger] out.events@[q2]).0 by {
        assert(out.events@[q1].0 == ke[q1].0 && out.events@[q2].0 == ke[q2].0);
    }
    assert forall|q: int| 0 <= q < out.objects@.len() implies {
        let o = (#[trigger] out.objects@[q]) as int;
        &&& o < log.objects@.len()
        &&& exists|q2: int, x: int| 0 <= q2 < out.events@.len() && 0 <= x < out.events@[q2].1@.len()
            && log.events@[out.events@[q2].0 as int].object_ids@[#[trigger] out.events@[q2].1@[x] as int]@ == log.objects@[o].id@
    } by {
        let o = out.objects@[q] as int;
        let oid = log.objects@[o].id@;
        assert(object_kept(log, sel, o));
        let i = choose|i: int| 0 <= i < log.events@.len() && event_selected(log, sel, i) && seq_has((#[trigger] log.events@[i]).object_ids@, oid);
        let ids = log.events@[i].object_ids@;
        let j = choose|j: int| 0 <= j < ids.len() && (#[trigger] ids[j])@ == oid;
        assert(kept_id(log, sel, ids[j]@));
        lemma_kept_relations(log, sel, ids, ids.len() as int);
        let x = choose|x: int| 0 <= x < kept_relations(log, sel, ids, ids.len() as int).len() && kept_relations(log, sel, ids, ids.len() as int)[x] == j;
        assert(event_relations(log, sel, i).len() > 0);
        let q2 = choose|q2: int| 0 <= q2 < ke.len() && ke[q2].0 == i;
        assert(out.events@[q2].0 == ke[q2].0);
        assert(out.events@[q2].1@ == ke[q2].1);
        assert(out.events@[q2].1@[x] == j);
    }
}

/// A frequency passes a mask's ranges exactly when it lies in one of them, any
/// one of them: every range of the list counts, not only the first.
pub proof fn lemma_any_range_admits(ranges: Seq<(usize, usize)>, c: nat, k: int)
    requires
        0 <= k < ranges.len(),
        ranges[k].0 <= c <= ranges[k].1,
    ensures
        in_ranges(ranges, c),
{
    assert(ranges[k].0 <= c && c <= ranges[k].1);
}

/// A frequency outside every range of the list does not pass.
pub proof fn lemma_outside_all_ranges_rejected(ranges: Seq<(usize, usize)>, c: nat)
    requires
        forall|k: int| 0 <= k < ranges.len() ==> !(#[trigger] ranges[k].0 <= c && c <= ranges[k].1),
    ensures
        !in_ranges(ranges, c),
{
}

/// An event passes the event masks where, for each mask on its event type, its
/// number of objects of the mask's object type lies in some range of that mask.
pub proof fn lemma_event_in_some_range_passes(log: FilterLog, i: int, fs: Seq<HistogramFilter>)
    requires
        0 <= i < log.events@.len(),
        forall|q: int| 0 <= q < fs.len() && (#[trigger] fs[q]).event_type@ == log.events@[i].event_type@ ==> exists|k: int|
            0 <= k < fs[q].ranges@.len() && fs[q].ranges@[k].0 <= typed_count(log, log.events@[i].object_ids@, fs[q].object_type@, log.events@[i].object_ids@.len() as int)
            && typed_count(log, log.events@[i].object_ids@, fs[q].object_type@, log.events@[i].object_ids@.len() as int) <= fs[q].ranges@[k].1,
    ensures
        event_passes(log, i, fs),
{
    let e = log.events@[i];
    assert forall|q: int| 0 <= q < fs.len() && (#[trigger] fs[q]).event_type@ == e.event_type@
        implies in_ranges(fs[q].ranges@, typed_count(log, e.object_ids@, fs[q].object_type@, e.object_ids@.len() as int)) by {
        let c = typed_count(log, e.object_ids@, fs[q].object_type@, e.object_ids@.len() as int);
        let k = choose|k: int| 0 <= k < fs[q].ranges@.len() && fs[q].ranges@[k].0 <= c && c <= fs[q].ranges@[k].1;
        lemma_any_range_admits(fs[q].ranges@, c, k);
    }
}

} // verus!
