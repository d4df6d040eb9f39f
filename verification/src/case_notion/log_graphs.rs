//! The type-level log graph: event types and object types as nodes, arcs between
//! them, each split into a selected and a deselected section.
use vstd::prelude::*;

verus! {

/// An arc from one type to another.
pub struct ArcEntry {
    pub source_type: String,
    pub target_type: String,
}

impl ArcEntry {
    pub open spec fn view(&self) -> (Seq<char>, Seq<char>) {
        (self.source_type@, self.target_type@)
    }
}

/// A type-level log graph with its selected and deselected sections.
pub struct LogGraphTypeLevel {
    pub event_types: Vec<String>,
    pub object_types: Vec<String>,
    pub arcs: Vec<ArcEntry>,
    pub deselected_event_types: Vec<String>,
    pub deselected_object_types: Vec<String>,
    pub deselected_arcs: Vec<ArcEntry>,
}

/// A type-level log graph as a value.
#[verifier::ext_equal]
pub ghost struct TypeGraph {
    pub event_types: Seq<Seq<char>>,
    pub object_types: Seq<Seq<char>>,
    pub arcs: Seq<(Seq<char>, Seq<char>)>,
    pub deselected_event_types: Seq<Seq<char>>,
    pub deselected_object_types: Seq<Seq<char>>,
    pub deselected_arcs: Seq<(Seq<char>, Seq<char>)>,
}

/// The characters of each name.
pub open spec fn name_views(v: Seq<String>) -> Seq<Seq<char>> {
    Seq::new(v.len(), |i: int| v[i]@)
}

/// Each arc as a pair of names.
pub open spec fn arc_views(v: Seq<ArcEntry>) -> Seq<(Seq<char>, Seq<char>)> {
    Seq::new(v.len(), |i: int| v[i]@)
}

impl LogGraphTypeLevel {
    pub open spec fn view(&self) -> TypeGraph {
        TypeGraph {
            event_types: name_views(self.event_types@),
            object_types: name_views(self.object_types@),
            arcs: arc_views(self.arcs@),
            deselected_event_types: name_views(self.deselected_event_types@),
            deselected_object_types: name_views(self.deselected_object_types@),
            deselected_arcs: arc_views(self.deselected_arcs@),
        }
    }
}

/// Copies of the arcs of both lists.
pub fn concat_arcs(a: &Vec<ArcEntry>, b: &Vec<ArcEntry>) -> (r: Vec<ArcEntry>)
    ensures
        arc_views(r@) == arc_views(a@) + arc_views(b@),
{
    let mut out: Vec<ArcEntry> = Vec::new();
    let mut i: usize = 0;
    while i < a.len()
        invariant
            0 <= i <= a@.len(),
            arc_views(out@) == arc_views(a@).take(i as int),
        decreases a@.len() - i,
    {
        out.push(ArcEntry { source_type: a[i].source_type.clone(), target_type: a[i].target_type.clone() });
        i += 1;
        assert(arc_views(out@) =~= arc_views(a@).take(i as int));
    }
    let mut j: usize = 0;
    while j < b.len()
        invariant
            0 <= j <= b@.len(),
            arc_views(out@) == arc_views(a@) + arc_views(b@).take(j as int),
        decreases b@.len() - j,
    {
        let ghost before = out@;
        out.push(ArcEntry { source_type: b[j].source_type.clone(), target_type: b[j].target_type.clone() });
        assert(arc_views(out@) =~= arc_views(before).push(b@[j as int]@));
        assert(arc_views(b@).take(j + 1) =~= arc_views(b@).take(j as int).push(b@[j as int]@));
        j += 1;
        assert(arc_views(out@) =~= arc_views(a@) + arc_views(b@).take(j as int));
    }
    assert(arc_views(out@) =~= arc_views(a@) + arc_views(b@));
    out
}

/// Copies of the names of both lists.
pub fn concat_names(a: &Vec<String>, b: &Vec<String>) -> (r: Vec<String>)
    ensures
        name_views(r@) == name_views(a@) + name_views(b@),
{
    let mut out: Vec<String> = Vec::new();
    let mut i: usize = 0;
    while i < a.len()
        invariant
            0 <= i <= a@.len(),
            name_views(out@) == name_views(a@).take(i as int),
        decreases a@.len() - i,
    {
        out.push(a[i].clone());
        i += 1;
        assert(name_views(out@) =~= name_views(a@).take(i as int));
    }
    let mut j: usize = 0;
    while j < b.len()
        invariant
            0 <= j <= b@.len(),
            name_views(out@) == name_views(a@) + name_views(b@).take(j as int),
        decreases b@.len() - j,
    {
        let ghost before = out@;
        out.push(b[j].clone());
        assert(name_views(out@) =~= name_views(before).push(b@[j as int]@));
        assert(name_views(b@).take(j + 1) =~= name_views(b@).take(j as int).push(b@[j as int]@));
        j += 1;
        assert(name_views(out@) =~= name_views(a@) + name_views(b@).take(j as int));
    }
    assert(name_views(out@) =~= name_views(a@) + name_views(b@));
    out
}

/// Filtering a prefix one element longer.
pub proof fn lemma_filter_step<A>(s: Seq<A>, i: int, p: spec_fn(A) -> bool)
    requires
        0 <= i < s.len(),
    ensures
        s.take(i + 1).filter(p) == if p(s[i]) { s.take(i).filter(p).push(s[i]) } else { s.take(i).filter(p) },
{
    reveal(Seq::filter);
    assert(s.take(i + 1).drop_last() =~= s.take(i));
    assert(s.take(i + 1).last() == s[i]);
}

/// Splitting a sequence by a predicate and by its negation keeps every element once.
pub proof fn lemma_filter_split_len<A>(s: Seq<A>, p: spec_fn(A) -> bool, q: spec_fn(A) -> bool)
    requires
        forall|x: A| #[trigger] q(x) == !p(x),
    ensures
        s.filter(p).len() + s.filter(q).len() == s.len(),
    decreases s.len(),
{
    reveal(Seq::filter);
    if s.len() > 0 {
        lemma_filter_split_len(s.drop_last(), p, q);
        assert(q(s.last()) == !p(s.last()));
    }
}

/// The graph's sections hold each node and arc of `g` once between them.
pub open spec fn sections_partition(g: TypeGraph, r: TypeGraph) -> bool {
    &&& r.event_types.len() + r.deselected_event_types.len() == g.event_types.len() + g.deselected_event_types.len()
    &&& r.object_types.len() + r.deselected_object_types.len() == g.object_types.len() + g.deselected_object_types.len()
    &&& r.arcs.len() + r.deselected_arcs.len() == g.arcs.len() + g.deselected_arcs.len()
}

} // verus!
