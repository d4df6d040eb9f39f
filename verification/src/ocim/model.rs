//! Data that the object-centric inductive miner reads: per-object-type
//! directly-follows graphs, their transitive closures and the interaction
//! patterns (related / divergent / convergent / deficient object types).
use vstd::prelude::*;

verus! {

/// Membership of a string (by its characters) in a sequence of strings.
pub open spec fn seq_has(v: Seq<String>, t: Seq<char>) -> bool {
    exists|k: int| 0 <= k < v.len() && (#[trigger] v[k])@ == t
}

/// A sequence of strings without two equal entries.
pub open spec fn strings_unique(v: Seq<String>) -> bool {
    forall|i: int, j: int| 0 <= i < v.len() && 0 <= j < v.len() && (#[trigger] v[i])@ == (#[trigger] v[j])@ ==> i == j
}

/// Edge list of a directly-follows graph: keys `(from, to)` occur at most once.
pub open spec fn edge_keys_unique(e: Seq<(String, String, u32)>) -> bool {
    forall|i: int, j: int|
        0 <= i < e.len() && 0 <= j < e.len() && (#[trigger] e[i]).0@ == (#[trigger] e[j]).0@ && e[i].1@ == e[j].1@
            ==> i == j
}

pub open spec fn has_edge_key(e: Seq<(String, String, u32)>, a: Seq<char>, b: Seq<char>) -> bool {
    exists|i: int| 0 <= i < e.len() && (#[trigger] e[i]).0@ == a && e[i].1@ == b
}

/// The count stored for edge `(a, b)`, or 0 where the edge is absent.
pub open spec fn edge_count(e: Seq<(String, String, u32)>, a: Seq<char>, b: Seq<char>) -> u32 {
    if has_edge_key(e, a, b) {
        e[choose|i: int| 0 <= i < e.len() && (#[trigger] e[i]).0@ == a && e[i].1@ == b].2
    } else {
        0
    }
}

/// Count list (activity -> count): keys occur at most once.
pub open spec fn count_keys_unique(c: Seq<(String, u32)>) -> bool {
    forall|i: int, j: int| 0 <= i < c.len() && 0 <= j < c.len() && (#[trigger] c[i]).0@ == (#[trigger] c[j]).0@ ==> i == j
}

pub open spec fn has_count_key(c: Seq<(String, u32)>, a: Seq<char>) -> bool {
    exists|i: int| 0 <= i < c.len() && (#[trigger] c[i]).0@ == a
}

/// The count stored for `a`, or 0 where `a` is absent.
pub open spec fn count_of(c: Seq<(String, u32)>, a: Seq<char>) -> u32 {
    if has_count_key(c, a) {
        c[choose|i: int| 0 <= i < c.len() && (#[trigger] c[i]).0@ == a].1
    } else {
        0
    }
}

/// Map from a name to a set of names: keys occur at most once.
pub open spec fn set_keys_unique(m: Seq<(String, Vec<String>)>) -> bool {
    forall|i: int, j: int| 0 <= i < m.len() && 0 <= j < m.len() && (#[trigger] m[i]).0@ == (#[trigger] m[j]).0@ ==> i == j
}

pub open spec fn has_set_key(m: Seq<(String, Vec<String>)>, a: Seq<char>) -> bool {
    exists|i: int| 0 <= i < m.len() && (#[trigger] m[i]).0@ == a
}

/// `t` is in the set stored for key `a` (false where `a` is absent).
pub open spec fn in_set_of(m: Seq<(String, Vec<String>)>, a: Seq<char>, t: Seq<char>) -> bool {
    exists|i: int| 0 <= i < m.len() && (#[trigger] m[i]).0@ == a && seq_has(m[i].1@, t)
}

/// The directly-follows graph of one object type.
pub struct ObjectTypeDfg {
    /// `(from, to, count)`
    pub edges: Vec<(String, String, u32)>,
    /// `(activity, count)` of start activities
    pub starts: Vec<(String, u32)>,
    /// `(activity, count)` of end activities
    pub ends: Vec<(String, u32)>,
}

impl ObjectTypeDfg {
    pub open spec fn wf(&self) -> bool {
        &&& edge_keys_unique(self.edges@)
        &&& count_keys_unique(self.starts@)
        &&& count_keys_unique(self.ends@)
    }
}


/// Map from an object type to its directly-follows graph: keys occur at most once.
pub open spec fn dfg_keys_unique(d: Seq<(String, ObjectTypeDfg)>) -> bool {
    forall|i: int, j: int| 0 <= i < d.len() && 0 <= j < d.len() && (#[trigger] d[i]).0@ == (#[trigger] d[j]).0@ ==> i == j
}

pub open spec fn has_dfg(d: Seq<(String, ObjectTypeDfg)>, ot: Seq<char>) -> bool {
    exists|i: int| 0 <= i < d.len() && (#[trigger] d[i]).0@ == ot
}

pub open spec fn dfg_of(d: Seq<(String, ObjectTypeDfg)>, ot: Seq<char>) -> ObjectTypeDfg {
    d[choose|i: int| 0 <= i < d.len() && (#[trigger] d[i]).0@ == ot].1
}

/// Map from an object type to the pairs of its transitive closure: keys occur at most once.
pub open spec fn clos_keys_unique(c: Seq<(String, Vec<(String, String)>)>) -> bool {
    forall|i: int, j: int| 0 <= i < c.len() && 0 <= j < c.len() && (#[trigger] c[i]).0@ == (#[trigger] c[j]).0@ ==> i == j
}

pub open spec fn has_clos(c: Seq<(String, Vec<(String, String)>)>, ot: Seq<char>) -> bool {
    exists|i: int| 0 <= i < c.len() && (#[trigger] c[i]).0@ == ot
}

pub open spec fn pair_in(v: Seq<(String, String)>, a: Seq<char>, b: Seq<char>) -> bool {
    exists|k: int| 0 <= k < v.len() && (#[trigger] v[k]).0@ == a && v[k].1@ == b
}

/// `(a, b)` is in the closure stored for `ot` (false where `ot` is absent).
pub open spec fn in_clos(c: Seq<(String, Vec<(String, String)>)>, ot: Seq<char>, a: Seq<char>, b: Seq<char>) -> bool {
    exists|i: int| 0 <= i < c.len() && (#[trigger] c[i]).0@ == ot && pair_in(c[i].1@, a, b)
}

pub proof fn lemma_edge_count_at(e: Seq<(String, String, u32)>, i: int)
    requires
        edge_keys_unique(e),
        0 <= i < e.len(),
    ensures
        edge_count(e, e[i].0@, e[i].1@) == e[i].2,
{
    let a = e[i].0@;
    let b = e[i].1@;
    assert(has_edge_key(e, a, b));
    let j = choose|j: int| 0 <= j < e.len() && (#[trigger] e[j]).0@ == a && e[j].1@ == b;
    assert(j == i);
}

pub proof fn lemma_count_of_at(c: Seq<(String, u32)>, i: int)
    requires
        count_keys_unique(c),
        0 <= i < c.len(),
    ensures
        count_of(c, c[i].0@) == c[i].1,
{
    let a = c[i].0@;
    assert(has_count_key(c, a));
    let j = choose|j: int| 0 <= j < c.len() && (#[trigger] c[j]).0@ == a;
    assert(j == i);
}

pub proof fn lemma_dfg_of_at(d: Seq<(String, ObjectTypeDfg)>, i: int)
    requires
        dfg_keys_unique(d),
        0 <= i < d.len(),
    ensures
        has_dfg(d, d[i].0@),
        dfg_of(d, d[i].0@) == d[i].1,
{
    let a = d[i].0@;
    assert(has_dfg(d, a));
    let j = choose|j: int| 0 <= j < d.len() && (#[trigger] d[j]).0@ == a;
    assert(j == i);
}

pub proof fn lemma_in_set_of_at(m: Seq<(String, Vec<String>)>, i: int, t: Seq<char>)
    requires
        set_keys_unique(m),
        0 <= i < m.len(),
    ensures
        in_set_of(m, m[i].0@, t) <==> seq_has(m[i].1@, t),
{
    if in_set_of(m, m[i].0@, t) {
        let j = choose|j: int| 0 <= j < m.len() && (#[trigger] m[j]).0@ == m[i].0@ && seq_has(m[j].1@, t);
        assert(j == i);
    }
}

pub proof fn lemma_in_clos_at(c: Seq<(String, Vec<(String, String)>)>, i: int, a: Seq<char>, b: Seq<char>)
    requires
        clos_keys_unique(c),
        0 <= i < c.len(),
    ensures
        in_clos(c, c[i].0@, a, b) <==> pair_in(c[i].1@, a, b),
{
    if in_clos(c, c[i].0@, a, b) {
        let j = choose|j: int| 0 <= j < c.len() && (#[trigger] c[j]).0@ == c[i].0@ && pair_in(c[j].1@, a, b);
        assert(j == i);
    }
}

/// Whether `t` occurs in `v`.
pub fn contains_string(v: &Vec<String>, t: &String) -> (r: bool)
    ensures
        r == seq_has(v@, t@),
{
    let mut i: usize = 0;
    while i < v.len()
        invariant
            0 <= i <= v.len(),
            forall|k: int| 0 <= k < i ==> (#[trigger] v@[k])@ != t@,
        decreases v.len() - i,
    {
        if v[i] == *t {
            return true;
        }
        i += 1;
    }
    false
}

/// Whether `(a, b)` occurs in `v`.
pub fn contains_pair(v: &Vec<(String, String)>, a: &String, b: &String) -> (r: bool)
    ensures
        r == pair_in(v@, a@, b@),
{
    let mut i: usize = 0;
    while i < v.len()
        invariant
            0 <= i <= v.len(),
            forall|k: int| 0 <= k < i ==> !((#[trigger] v@[k]).0@ == a@ && v@[k].1@ == b@),
        decreases v.len() - i,
    {
        if v[i].0 == *a && v[i].1 == *b {
            return true;
        }
        i += 1;
    }
    false
}

/// The set stored for key `a`, if any.
pub fn lookup_set<'a>(m: &'a Vec<(String, Vec<String>)>, a: &String) -> (r: Option<&'a Vec<String>>)
    requires
        set_keys_unique(m@),
    ensures
        r is Some <==> has_set_key(m@, a@),
        r matches Some(v) ==> forall|t: Seq<char>| #![trigger seq_has(v@, t)] seq_has(v@, t) <==> in_set_of(m@, a@, t),
{
    let mut i: usize = 0;
    while i < m.len()
        invariant
            0 <= i <= m.len(),
            forall|k: int| 0 <= k < i ==> (#[trigger] m@[k]).0@ != a@,
        decreases m.len() - i,
    {
        if m[i].0 == *a {
            let v = &m[i].1;
            assert forall|t: Seq<char>| #![trigger seq_has(v@, t)] seq_has(v@, t) <==> in_set_of(m@, a@, t) by {
                lemma_in_set_of_at(m@, i as int, t);
            }
            return Some(v);
        }
        i += 1;
    }
    None
}

/// The count stored for `a`, or 0 where `a` is absent.
pub fn lookup_count(c: &Vec<(String, u32)>, a: &String) -> (r: u32)
    requires
        count_keys_unique(c@),
    ensures
        r == count_of(c@, a@),
{
    let mut i: usize = 0;
    while i < c.len()
        invariant
            0 <= i <= c.len(),
            forall|k: int| 0 <= k < i ==> (#[trigger] c@[k]).0@ != a@,
        decreases c.len() - i,
    {
        if c[i].0 == *a {
            assert(has_count_key(c@, a@));
            proof {
                lemma_count_of_at(c@, i as int);
            }
            return c[i].1;
        }
        i += 1;
    }
    0
}

/// The count stored for edge `(a, b)`, or 0 where the edge is absent.
pub fn lookup_edge(e: &Vec<(String, String, u32)>, a: &String, b: &String) -> (r: u32)
    requires
        edge_keys_unique(e@),
    ensures
        r == edge_count(e@, a@, b@),
{
    let mut i: usize = 0;
    while i < e.len()
        invariant
            0 <= i <= e.len(),
            forall|k: int| 0 <= k < i ==> !((#[trigger] e@[k]).0@ == a@ && e@[k].1@ == b@),
        decreases e.len() - i,
    {
        if e[i].0 == *a && e[i].1 == *b {
            assert(has_edge_key(e@, a@, b@));
            proof {
                lemma_edge_count_at(e@, i as int);
            }
            return e[i].2;
        }
        i += 1;
    }
    0
}

/// Whether `(a, b)` is a key of the edge list, whatever its count.
pub fn has_edge(e: &Vec<(String, String, u32)>, a: &String, b: &String) -> (r: bool)
    ensures
        r == has_edge_key(e@, a@, b@),
{
    let mut i: usize = 0;
    while i < e.len()
        invariant
            0 <= i <= e.len(),
            forall|k: int| 0 <= k < i ==> !((#[trigger] e@[k]).0@ == a@ && e@[k].1@ == b@),
        decreases e.len() - i,
    {
        if e[i].0 == *a && e[i].1 == *b {
            return true;
        }
        i += 1;
    }
    false
}

/// The directly-follows graph stored for `ot`, if any.
pub fn lookup_dfg<'a>(d: &'a Vec<(String, ObjectTypeDfg)>, ot: &String) -> (r: Option<&'a ObjectTypeDfg>)
    requires
        dfg_keys_unique(d@),
    ensures
        r is Some <==> has_dfg(d@, ot@),
        r matches Some(g) ==> *g == dfg_of(d@, ot@),
{
    let mut i: usize = 0;
    while i < d.len()
        invariant
            0 <= i <= d.len(),
            forall|k: int| 0 <= k < i ==> (#[trigger] d@[k]).0@ != ot@,
        decreases d.len() - i,
    {
        if d[i].0 == *ot {
            assert(has_dfg(d@, ot@));
            proof {
                lemma_dfg_of_at(d@, i as int);
            }
            return Some(&d[i].1);
        }
        i += 1;
    }
    None
}

/// The closure pairs stored for `ot`, if any.
pub fn lookup_clos<'a>(c: &'a Vec<(String, Vec<(String, String)>)>, ot: &String) -> (r: Option<&'a Vec<(String, String)>>)
    requires
        clos_keys_unique(c@),
    ensures
        r is Some <==> has_clos(c@, ot@),
        r matches Some(v) ==> forall|a: Seq<char>, b: Seq<char>| #![trigger pair_in(v@, a, b)] pair_in(v@, a, b) <==> in_clos(c@, ot@, a, b),
{
    let mut i: usize = 0;
    while i < c.len()
        invariant
            0 <= i <= c.len(),
            forall|k: int| 0 <= k < i ==> (#[trigger] c@[k]).0@ != ot@,
        decreases c.len() - i,
    {
        if c[i].0 == *ot {
            let v = &c[i].1;
            assert forall|a: Seq<char>, b: Seq<char>| #![trigger pair_in(v@, a, b)] pair_in(v@, a, b) <==> in_clos(c@, ot@, a, b) by {
                lemma_in_clos_at(c@, i as int, a, b);
            }
            return Some(v);
        }
        i += 1;
    }
    None
}

} // verus!
