//! Count-based distances between cases: the L1 distance over directly-follows
//! counts (per view) and over event-to-object counts, and their breakdown per
//! view and per object type.
use vstd::prelude::*;
use crate::permutation::{is_permutation, lemma_permutation_onto};
use crate::text::{lex_lt, str_lt, lemma_lex_irreflexive, lemma_lex_transitive};

verus! {

/// How the counts of a case are derived from its events.
#[allow(non_camel_case_types)]
#[derive(Debug, Clone, Copy, PartialEq, Eq, Structural)]
pub enum DistanceMetric {
    /// Directly-follows counts per view over all events that touch an object of the view's type.
    OCDFGE2O_TypeOnly,
    /// Directly-follows counts per object, aggregated per view by the object's type.
    OCDFGE2O_ObjectInstance,
}

/// The label of a metric.
pub open spec fn metric_label(m: DistanceMetric) -> Seq<char> {
    match m {
        DistanceMetric::OCDFGE2O_TypeOnly => "dfg-typ"@,
        DistanceMetric::OCDFGE2O_ObjectInstance => "dfg-obj"@,
    }
}

/// The label of a metric.
pub fn metric_name(metric: DistanceMetric) -> (r: &'static str)
    ensures
        r@ == metric_label(metric),
{
    match metric {
        DistanceMetric::OCDFGE2O_TypeOnly => "dfg-typ",
        DistanceMetric::OCDFGE2O_ObjectInstance => "dfg-obj",
    }
}

/// The directly-follows cost of one view.
#[derive(Debug, Clone)]
pub struct PerViewDistanceCost {
    pub view: String,
    pub df_cost: usize,
}

/// The event-to-object cost of one object type.
#[derive(Debug, Clone)]
pub struct E2ODistanceCost {
    pub object_type: String,
    pub cost: usize,
}

// ---------------------------------------------------------------------------
// Counts keyed by an edge or by an (event type, object type) pair, as lists of
// `(key, count)` in which each key occurs once.

/// Each key occurs at most once.
pub open spec fn keys_distinct<K>(c: Seq<(K, usize)>) -> bool {
    forall|i: int, j: int| 0 <= i < c.len() && 0 <= j < c.len() && (#[trigger] c[i]).0 == (#[trigger] c[j]).0 ==> i == j
}

pub open spec fn has_key<K>(c: Seq<(K, usize)>, k: K) -> bool {
    exists|i: int| 0 <= i < c.len() && (#[trigger] c[i]).0 == k
}

/// The count stored for `k`, 0 where `k` is absent.
pub open spec fn count_at<K>(c: Seq<(K, usize)>, k: K) -> nat {
    if has_key(c, k) {
        c[choose|i: int| 0 <= i < c.len() && (#[trigger] c[i]).0 == k].1 as nat
    } else {
        0
    }
}

pub open spec fn absdiff(x: nat, y: nat) -> nat {
    if x >= y { (x - y) as nat } else { (y - x) as nat }
}

/// The sum of `g(key)` over the entries of `c` whose key satisfies `p`.
pub open spec fn sum_where<K>(c: Seq<(K, usize)>, p: spec_fn(K) -> bool, g: spec_fn(K) -> nat) -> nat
    decreases c.len(),
{
    if c.len() == 0 {
        0
    } else {
        sum_where(c.drop_last(), p, g) + if p(c.last().0) { g(c.last().0) } else { 0 }
    }
}

/// Every key.
pub open spec fn any_key<K>() -> spec_fn(K) -> bool {
    |k: K| true
}

/// The keys absent from `c`.
pub open spec fn not_in<K>(c: Seq<(K, usize)>) -> spec_fn(K) -> bool {
    |k: K| !has_key(c, k)
}

/// The keys present in `c`.
pub open spec fn is_in<K>(c: Seq<(K, usize)>) -> spec_fn(K) -> bool {
    |k: K| has_key(c, k)
}

/// The count of each key in `c`.
pub open spec fn counts_of<K>(c: Seq<(K, usize)>) -> spec_fn(K) -> nat {
    |k: K| count_at(c, k)
}

/// The difference of the counts of each key.
pub open spec fn count_gap<K>(a: Seq<(K, usize)>, b: Seq<(K, usize)>) -> spec_fn(K) -> nat {
    |k: K| absdiff(count_at(a, k), count_at(b, k))
}

/// The L1 distance of two count lists: the difference of the counts summed over
/// the keys of `a`, plus the counts of the keys that only `b` has.
pub open spec fn l1_distance<K>(a: Seq<(K, usize)>, b: Seq<(K, usize)>) -> nat {
    sum_where(a, any_key(), count_gap(a, b)) + sum_where(b, not_in(a), counts_of(b))
}

pub proof fn lemma_count_at_index<K>(c: Seq<(K, usize)>, i: int)
    requires
        keys_distinct(c),
        0 <= i < c.len(),
    ensures
        has_key(c, c[i].0),
        count_at(c, c[i].0) == c[i].1 as nat,
{
    let k = c[i].0;
    assert(has_key(c, k));
    let j = choose|j: int| 0 <= j < c.len() && (#[trigger] c[j]).0 == k;
    assert(j == i);
}

/// Dropping the last entry keeps the keys distinct; the other keys keep their counts.
proof fn lemma_drop_last_keys<K>(c: Seq<(K, usize)>)
    requires
        keys_distinct(c),
        c.len() > 0,
    ensures
        keys_distinct(c.drop_last()),
        !has_key(c.drop_last(), c.last().0),
        forall|k: K| #[trigger] has_key(c.drop_last(), k) <==> (has_key(c, k) && k != c.last().0),
{
    let d = c.drop_last();
    assert forall|i: int, j: int| 0 <= i < d.len() && 0 <= j < d.len() && (#[trigger] d[i]).0 == (#[trigger] d[j]).0 implies i == j by {
        assert(d[i] == c[i] && d[j] == c[j]);
    }
    if has_key(d, c.last().0) {
        let i = choose|i: int| 0 <= i < d.len() && (#[trigger] d[i]).0 == c.last().0;
        assert(c[i].0 == c[c.len() - 1].0);
    }
    assert forall|k: K| #[trigger] has_key(d, k) <==> (has_key(c, k) && k != c.last().0) by {
        if has_key(d, k) {
            let i = choose|i: int| 0 <= i < d.len() && (#[trigger] d[i]).0 == k;
            assert(c[i].0 == k);
        }
        if has_key(c, k) && k != c.last().0 {
            let i = choose|i: int| 0 <= i < c.len() && (#[trigger] c[i]).0 == k;
            assert(i != c.len() - 1);
            assert(d[i].0 == k);
        }
    }
}

/// A sum over a predicate that is the disjoint union of two predicates splits.
pub proof fn lemma_sum_split<K>(c: Seq<(K, usize)>, p: spec_fn(K) -> bool, p1: spec_fn(K) -> bool, p2: spec_fn(K) -> bool, g: spec_fn(K) -> nat)
    requires
        forall|k: K| #[trigger] p(k) <==> (p1(k) || p2(k)),
        forall|k: K| !(#[trigger] p1(k) && p2(k)),
    ensures
        sum_where(c, p, g) == sum_where(c, p1, g) + sum_where(c, p2, g),
    decreases c.len(),
{
    if c.len() > 0 {
        lemma_sum_split(c.drop_last(), p, p1, p2, g);
        let k = c.last().0;
        assert(p(k) <==> (p1(k) || p2(k)));
        assert(!(p1(k) && p2(k)));
    }
}

/// Sums with predicates and terms that agree on the keys of `c` are equal.
pub proof fn lemma_sum_congruent<K>(c: Seq<(K, usize)>, p: spec_fn(K) -> bool, g: spec_fn(K) -> nat, q: spec_fn(K) -> bool, h: spec_fn(K) -> nat)
    requires
        forall|i: int| 0 <= i < c.len() ==> (p((#[trigger] c[i]).0) <==> q(c[i].0)),
        forall|i: int| 0 <= i < c.len() && p((#[trigger] c[i]).0) ==> g(c[i].0) == h(c[i].0),
    ensures
        sum_where(c, p, g) == sum_where(c, q, h),
    decreases c.len(),
{
    if c.len() > 0 {
        let d = c.drop_last();
        assert forall|i: int| 0 <= i < d.len() implies (p((#[trigger] d[i]).0) <==> q(d[i].0)) by {
            assert(d[i] == c[i]);
        }
        assert forall|i: int| 0 <= i < d.len() && p((#[trigger] d[i]).0) implies g(d[i].0) == h(d[i].0) by {
            assert(d[i] == c[i]);
        }
        lemma_sum_congruent(d, p, g, q, h);
        assert(c.last() == c[c.len() - 1]);
    }
}

/// A sum whose terms vanish on the selected keys of `c` is 0.
pub proof fn lemma_sum_zero<K>(c: Seq<(K, usize)>, p: spec_fn(K) -> bool, g: spec_fn(K) -> nat)
    requires
        forall|i: int| 0 <= i < c.len() && p((#[trigger] c[i]).0) ==> g(c[i].0) == 0,
    ensures
        sum_where(c, p, g) == 0,
    decreases c.len(),
{
    if c.len() > 0 {
        let d = c.drop_last();
        assert forall|i: int| 0 <= i < d.len() && p((#[trigger] d[i]).0) implies g(d[i].0) == 0 by {
            assert(d[i] == c[i]);
        }
        lemma_sum_zero(d, p, g);
        assert(c.last() == c[c.len() - 1]);
    }
}

/// Over distinct keys, the sum selecting the single key `x` is its term, where present.
proof fn lemma_sum_single<K>(c: Seq<(K, usize)>, p: spec_fn(K) -> bool, x: K, g: spec_fn(K) -> nat)
    requires
        keys_distinct(c),
        forall|k: K| #[trigger] p(k) <==> k == x,
    ensures
        sum_where(c, p, g) == if has_key(c, x) { g(x) } else { 0 },
    decreases c.len(),
{
    if c.len() > 0 {
        let d = c.drop_last();
        lemma_drop_last_keys(c);
        lemma_sum_single(d, p, x, g);
        if c.last().0 == x {
            assert(has_key(c, x)) by {
                assert(c[c.len() - 1].0 == x);
            }
        } else {
            assert(has_key(d, x) <==> has_key(c, x));
        }
    }
}

/// Over distinct keys, summing a key function over the keys that both lists
/// share gives the same, whichever list the sum runs over.
pub proof fn lemma_sum_shared_swap<K>(a: Seq<(K, usize)>, b: Seq<(K, usize)>, g: spec_fn(K) -> nat)
    requires
        keys_distinct(a),
        keys_distinct(b),
    ensures
        sum_where(a, is_in(b), g) == sum_where(b, is_in(a), g),
    decreases a.len(),
{
    if a.len() == 0 {
        lemma_sum_zero(b, is_in(a), g);
    } else {
        let d = a.drop_last();
        let x = a.last().0;
        lemma_drop_last_keys(a);
        lemma_sum_shared_swap(d, b, g);
        let px = |k: K| k == x;
        lemma_sum_split(b, is_in(a), is_in(d), px, g);
        lemma_sum_single(b, px, x, g);
    }
}

/// The L1 distance of count lists is symmetric.
pub proof fn lemma_l1_symmetric<K>(a: Seq<(K, usize)>, b: Seq<(K, usize)>)
    requires
        keys_distinct(a),
        keys_distinct(b),
    ensures
        l1_distance(a, b) == l1_distance(b, a),
{
    let gab = count_gap(a, b);
    let gba = count_gap(b, a);
    assert(gab =~= gba);
    // split the sum over the keys of `a` into shared keys and keys only `a` has
    lemma_sum_split(a, any_key(), is_in(b), not_in(b), gab);
    lemma_sum_split(b, any_key(), is_in(a), not_in(a), gba);
    // where the other list lacks a key, the gap is the count itself
    assert forall|i: int| 0 <= i < a.len() && not_in(b)((#[trigger] a[i]).0) implies gab(a[i].0) == counts_of(a)(a[i].0) by {}
    lemma_sum_congruent(a, not_in(b), gab, not_in(b), counts_of(a));
    assert forall|i: int| 0 <= i < b.len() && not_in(a)((#[trigger] b[i]).0) implies gba(b[i].0) == counts_of(b)(b[i].0) by {}
    lemma_sum_congruent(b, not_in(a), gba, not_in(a), counts_of(b));
    lemma_sum_shared_swap(a, b, gab);
}

/// The L1 distance of a count list to itself is 0.
pub proof fn lemma_l1_self_zero<K>(a: Seq<(K, usize)>)
    ensures
        l1_distance(a, a) == 0,
{
    lemma_sum_zero(a, any_key(), count_gap(a, a));
    assert forall|i: int| 0 <= i < a.len() && not_in(a)((#[trigger] a[i]).0) implies counts_of(a)(a[i].0) == 0 by {
        assert(has_key(a, a[i].0));
    }
    lemma_sum_zero(a, not_in(a), counts_of(a));
}

/// A sum over a prefix is at most the sum over the whole list.
pub proof fn lemma_sum_prefix_le<K>(c: Seq<(K, usize)>, i: int, p: spec_fn(K) -> bool, g: spec_fn(K) -> nat)
    requires
        0 <= i <= c.len(),
    ensures
        sum_where(c.take(i), p, g) <= sum_where(c, p, g),
    decreases c.len(),
{
    if i == c.len() {
        assert(c.take(i) =~= c);
    } else {
        lemma_sum_prefix_le(c.drop_last(), i, p, g);
        assert(c.drop_last().take(i) =~= c.take(i));
    }
}

/// One more entry of the prefix adds its term.
pub proof fn lemma_sum_take_step<K>(c: Seq<(K, usize)>, i: int, p: spec_fn(K) -> bool, g: spec_fn(K) -> nat)
    requires
        0 <= i < c.len(),
    ensures
        sum_where(c.take(i + 1), p, g) == sum_where(c.take(i), p, g) + if p(c[i].0) { g(c[i].0) } else { 0 },
{
    assert(c.take(i + 1).drop_last() =~= c.take(i));
    assert(c.take(i + 1).last() == c[i]);
}

/// Directly-follows counts: `((from, to), count)`, each edge once.
pub type EdgeCounts = Vec<((usize, usize), usize)>;

/// Event-to-object counts: `((event type, object type), count)`, each key once.
pub type E2OCounts = Vec<((usize, String), usize)>;

/// Event-to-object counts with the object types as characters.
pub open spec fn e2o_view(c: Seq<((usize, String), usize)>) -> Seq<((usize, Seq<char>), usize)> {
    c.map_values(|e: ((usize, String), usize)| ((e.0.0, e.0.1@), e.1))
}

/// The count stored for edge `k`, if any.
fn edge_count_of(c: &EdgeCounts, k: (usize, usize)) -> (r: Option<usize>)
    requires
        keys_distinct(c@),
    ensures
        r is Some <==> has_key(c@, k),
        r matches Some(v) ==> v as nat == count_at(c@, k),
{
    let mut i: usize = 0;
    while i < c.len()
        invariant
            0 <= i <= c.len(),
            keys_distinct(c@),
            forall|j: int| 0 <= j < i ==> (#[trigger] c@[j]).0 != k,
        decreases c.len() - i,
    {
        if c[i].0.0 == k.0 && c[i].0.1 == k.1 {
            proof {
                lemma_count_at_index(c@, i as int);
            }
            return Some(c[i].1);
        }
        i += 1;
    }
    None
}

/// The L1 distance between two directly-follows count lists: the difference of
/// the counts of each edge, where an absent edge counts 0.
pub fn df_edge_edit_distance_fast(a: &EdgeCounts, b: &EdgeCounts) -> (r: usize)
    requires
        keys_distinct(a@),
        keys_distinct(b@),
        l1_distance(a@, b@) <= usize::MAX,
    ensures
        r as nat == l1_distance(a@, b@),
{
    let ghost ga = count_gap(a@, b@);
    let ghost gb = counts_of(b@);
    let ghost na = not_in(a@);
    let mut ops: usize = 0;
    let mut i: usize = 0;
    while i < a.len()
        invariant
            0 <= i <= a.len(),
            keys_distinct(a@),
            keys_distinct(b@),
            l1_distance(a@, b@) <= usize::MAX,
            ga == count_gap(a@, b@),
            ops as nat == sum_where(a@.take(i as int), any_key(), ga),
        decreases a.len() - i,
    {
        let ca = a[i].1;
        let cb = match edge_count_of(b, a[i].0) {
            Some(v) => v,
            None => 0,
        };
        let d = if ca >= cb { ca - cb } else { cb - ca };
        proof {
            lemma_count_at_index(a@, i as int);
            lemma_sum_take_step(a@, i as int, any_key(), ga);
            lemma_sum_prefix_le(a@, i + 1, any_key(), ga);
        }
        ops = ops + d;
        i += 1;
    }
    proof {
        assert(a@.take(a@.len() as int) =~= a@);
    }
    let ghost first = ops as nat;
    let mut j: usize = 0;
    while j < b.len()
        invariant
            0 <= j <= b.len(),
            keys_distinct(a@),
            keys_distinct(b@),
            l1_distance(a@, b@) <= usize::MAX,
            gb == counts_of(b@),
            na == not_in(a@),
            first == sum_where(a@, any_key(), count_gap(a@, b@)),
            ops as nat == first + sum_where(b@.take(j as int), na, gb),
        decreases b.len() - j,
    {
        let present = edge_count_of(a, b[j].0);
        proof {
            lemma_count_at_index(b@, j as int);
            lemma_sum_take_step(b@, j as int, na, gb);
            lemma_sum_prefix_le(b@, j + 1, na, gb);
        }
        if present.is_none() {
            ops = ops + b[j].1;
        }
        j += 1;
    }
    proof {
        assert(b@.take(b@.len() as int) =~= b@);
    }
    ops
}

/// The count stored for the event-to-object key `(et, ot)`, if any.
fn e2o_count_of(c: &E2OCounts, et: usize, ot: &String) -> (r: Option<usize>)
    requires
        keys_distinct(e2o_view(c@)),
    ensures
        r is Some <==> has_key(e2o_view(c@), (et, ot@)),
        r matches Some(v) ==> v as nat == count_at(e2o_view(c@), (et, ot@)),
{
    let ghost cv = e2o_view(c@);
    let mut i: usize = 0;
    while i < c.len()
        invariant
            0 <= i <= c.len(),
            cv == e2o_view(c@),
            cv.len() == c@.len(),
            keys_distinct(cv),
            forall|j: int| 0 <= j < i ==> (#[trigger] cv[j]).0 != (et, ot@),
        decreases c.len() - i,
    {
        assert(cv[i as int] == ((c@[i as int].0.0, c@[i as int].0.1@), c@[i as int].1));
        if c[i].0.0 == et && c[i].0.1 == *ot {
            proof {
                lemma_count_at_index(cv, i as int);
            }
            return Some(c[i].1);
        }
        i += 1;
    }
    proof {
        if has_key(cv, (et, ot@)) {
            let j = choose|j: int| 0 <= j < cv.len() && (#[trigger] cv[j]).0 == (et, ot@);
        }
    }
    None
}

/// The L1 distance between two event-to-object count lists.
pub fn e2o_edge_edit_distance_fast(a: &E2OCounts, b: &E2OCounts) -> (r: usize)
    requires
        keys_distinct(e2o_view(a@)),
        keys_distinct(e2o_view(b@)),
        l1_distance(e2o_view(a@), e2o_view(b@)) <= usize::MAX,
    ensures
        r as nat == l1_distance(e2o_view(a@), e2o_view(b@)),
{
    let ghost av = e2o_view(a@);
    let ghost bv = e2o_view(b@);
    let ghost ga = count_gap(av, bv);
    let ghost gb = counts_of(bv);
    let ghost na = not_in(av);
    let mut ops: usize = 0;
    let mut i: usize = 0;
    while i < a.len()
        invariant
            0 <= i <= a.len(),
            av == e2o_view(a@),
            bv == e2o_view(b@),
            av.len() == a@.len(),
            keys_distinct(av),
            keys_distinct(bv),
            l1_distance(av, bv) <= usize::MAX,
            ga == count_gap(av, bv),
            ops as nat == sum_where(av.take(i as int), any_key(), ga),
        decreases a.len() - i,
    {
        assert(av[i as int] == ((a@[i as int].0.0, a@[i as int].0.1@), a@[i as int].1));
        let ca = a[i].1;
        let cb = match e2o_count_of(b, a[i].0.0, &a[i].0.1) {
            Some(v) => v,
            None => 0,
        };
        let d = if ca >= cb { ca - cb } else { cb - ca };
        proof {
            lemma_count_at_index(av, i as int);
            lemma_sum_take_step(av, i as int, any_key(), ga);
            lemma_sum_prefix_le(av, i + 1, any_key(), ga);
        }
        ops = ops + d;
        i += 1;
    }
    proof {
        assert(av.take(av.len() as int) =~= av);
    }
    let ghost first = ops as nat;
    let mut j: usize = 0;
    while j < b.len()
        invariant
            0 <= j <= b.len(),
            av == e2o_view(a@),
            bv == e2o_view(b@),
            bv.len() == b@.len(),
            keys_distinct(av),
            keys_distinct(bv),
            l1_distance(av, bv) <= usize::MAX,
            gb == counts_of(bv),
            na == not_in(av),
            first == sum_where(av, any_key(), count_gap(av, bv)),
            ops as nat == first + sum_where(bv.take(j as int), na, gb),
        decreases b.len() - j,
    {
        assert(bv[j as int] == ((b@[j as int].0.0, b@[j as int].0.1@), b@[j as int].1));
        let present = e2o_count_of(a, b[j].0.0, &b[j].0.1);
        proof {
            lemma_count_at_index(bv, j as int);
            lemma_sum_take_step(bv, j as int, na, gb);
            lemma_sum_prefix_le(bv, j + 1, na, gb);
        }
        if present.is_none() {
            ops = ops + b[j].1;
        }
        j += 1;
    }
    proof {
        assert(bv.take(bv.len() as int) =~= bv);
    }
    ops
}

/// `x` comes before `y` in a cost breakdown: the larger cost first, equal costs
/// by name in increasing order.
pub open spec fn cost_before(x: (String, usize), y: (String, usize)) -> bool {
    x.1 > y.1 || (x.1 == y.1 && lex_lt(x.0@, y.0@))
}

/// No entry comes before an entry that precedes it.
pub open spec fn cost_sorted(v: Seq<(String, usize)>) -> bool {
    forall|i: int, j: int| 0 <= i < j < v.len() ==> !cost_before(#[trigger] v[j], #[trigger] v[i])
}

proof fn lemma_cost_before_transitive(x: (String, usize), y: (String, usize), z: (String, usize))
    requires
        cost_before(x, y),
        cost_before(y, z),
    ensures
        cost_before(x, z),
{
    if x.1 == y.1 && y.1 == z.1 {
        lemma_lex_transitive(x.0@, y.0@, z.0@);
    }
}

fn cost_precedes(x: &(String, usize), y: &(String, usize)) -> (r: bool)
    ensures
        r == cost_before(*x, *y),
{
    x.1 > y.1 || (x.1 == y.1 && str_lt(x.0.as_str(), y.0.as_str()))
}

/// The entries ordered by cost (largest first) and then by name; entries that
/// tie on both keep their order.
pub fn sort_costs(v: Vec<(String, usize)>) -> (r: Vec<(String, usize)>)
    ensures
        r@.len() == v@.len(),
        cost_sorted(r@),
        exists|perm: Seq<int>| #[trigger] is_permutation(perm, v@.len() as int)
            && forall|k: int| 0 <= k < v@.len() ==> r@[k] == v@[#[trigger] perm[k]],
{
    let mut out: Vec<(String, usize)> = Vec::new();
    let ghost mut perm: Seq<int> = Seq::empty();
    let mut i: usize = 0;
    while i < v.len()
        invariant
            0 <= i <= v.len(),
            out@.len() == i,
            cost_sorted(out@),
            perm.len() == i,
            forall|k: int| 0 <= k < i ==> 0 <= #[trigger] perm[k] < i,
            forall|k1: int, k2: int| 0 <= k1 < i && 0 <= k2 < i && k1 != k2 ==> #[trigger] perm[k1] != #[trigger] perm[k2],
            forall|k: int| 0 <= k < i ==> out@[k] == v@[#[trigger] perm[k]],
        decreases v.len() - i,
    {
        let e = (v[i].0.clone(), v[i].1);
        assert(e == v@[i as int]);
        let mut p: usize = 0;
        while p < out.len()
            invariant
                0 <= p <= out@.len(),
                forall|k: int| 0 <= k < p ==> !cost_before(e, #[trigger] out@[k]),
            decreases out@.len() - p,
        {
            if cost_precedes(&e, &out[p]) {
                break;
            }
            p += 1;
        }
        let ghost old_out = out@;
        let ghost old_perm = perm;
        out.insert(p, e);
        proof {
            perm = old_perm.insert(p as int, i as int);
            assert forall|a: int, b: int| 0 <= a < b < out@.len() implies !cost_before(#[trigger] out@[b], #[trigger] out@[a]) by {
                if a < p && b == p {
                } else if a == p {
                    // `e` comes before `old_out[p]`, which nothing later precedes
                    let y = old_out[p as int];
                    assert(cost_before(e, y));
                    assert(out@[b] == old_out[b - 1]);
                    if b - 1 > p {
                        assert(!cost_before(old_out[b - 1], old_out[p as int]));
                    }
                    if cost_before(out@[b], e) {
                        lemma_cost_before_transitive(out@[b], e, y);
                        if b - 1 == p {
                            lemma_lex_irreflexive(y.0@);
                        }
                    }
                } else if a < p && b > p {
                    assert(out@[b] == old_out[b - 1]);
                    assert(out@[a] == old_out[a]);
                } else if a > p {
                    assert(out@[a] == old_out[a - 1]);
                    assert(out@[b] == old_out[b - 1]);
                } else {
                    assert(out@[a] == old_out[a]);
                    assert(out@[b] == old_out[b]);
                }
            }
            assert forall|k: int| 0 <= k < i + 1 implies out@[k] == v@[#[trigger] perm[k]] by {
                if k < p {
                    assert(perm[k] == old_perm[k]);
                } else if k > p {
                    assert(perm[k] == old_perm[k - 1]);
                }
            }
            assert forall|k: int| 0 <= k < i + 1 implies 0 <= #[trigger] perm[k] < i + 1 by {
                if k < p {
                    assert(perm[k] == old_perm[k]);
                } else if k > p {
                    assert(perm[k] == old_perm[k - 1]);
                }
            }
            assert forall|k1: int, k2: int| 0 <= k1 < i + 1 && 0 <= k2 < i + 1 && k1 != k2 implies #[trigger] perm[k1] != #[trigger] perm[k2] by {
                let o1 = if k1 < p { k1 } else { k1 - 1 };
                let o2 = if k2 < p { k2 } else { k2 - 1 };
                if k1 != p && k2 != p {
                    assert(perm[k1] == old_perm[o1]);
                    assert(perm[k2] == old_perm[o2]);
                } else if k1 == p {
                    assert(perm[k2] == old_perm[o2]);
                } else {
                    assert(perm[k1] == old_perm[o1]);
                }
            }
        }
        i += 1;
    }
    proof {
        assert(is_permutation(perm, v@.len() as int));
    }
    out
}

/// The directly-follows cost of each view, largest first, equal costs by view
/// name: the L1 distance of the counts of the two cases in that view.
pub fn df_costs_per_view(a: &[EdgeCounts], b: &[EdgeCounts], views: &[String]) -> (r: Vec<PerViewDistanceCost>)
    requires
        views@.len() <= a@.len(),
        views@.len() <= b@.len(),
        forall|v: int| 0 <= v < views@.len() ==> keys_distinct((#[trigger] a@[v])@) && keys_distinct(b@[v]@)
            && l1_distance(a@[v]@, b@[v]@) <= usize::MAX,
    ensures
        r@.len() == views@.len(),
        forall|i: int, j: int| 0 <= i < j < r@.len() ==>
            !cost_before((#[trigger] r@[j]).view_cost(), (#[trigger] r@[i]).view_cost()),
        exists|perm: Seq<int>| #[trigger] is_permutation(perm, views@.len() as int)
            && forall|k: int| 0 <= k < views@.len() ==> r@[k].view@ == views@[#[trigger] perm[k]]@
                && r@[k].df_cost as nat == l1_distance(a@[perm[k]]@, b@[perm[k]]@),
{
    let mut entries: Vec<(String, usize)> = Vec::new();
    let mut v: usize = 0;
    while v < views.len()
        invariant
            0 <= v <= views@.len(),
            views@.len() <= a@.len(),
            views@.len() <= b@.len(),
            entries@.len() == v,
            forall|w: int| 0 <= w < v ==> (#[trigger] entries@[w]).0 == views@[w]
                && entries@[w].1 as nat == l1_distance(a@[w]@, b@[w]@),
        decreases views@.len() - v,
    {
        let cost = df_edge_edit_distance_fast(&a[v], &b[v]);
        entries.push((views[v].clone(), cost));
        v += 1;
    }
    let sorted = sort_costs(entries);
    let ghost perm = choose|perm: Seq<int>| #[trigger] is_permutation(perm, entries@.len() as int)
        && forall|k: int| 0 <= k < entries@.len() ==> sorted@[k] == entries@[#[trigger] perm[k]];
    let mut out: Vec<PerViewDistanceCost> = Vec::new();
    let mut k: usize = 0;
    while k < sorted.len()
        invariant
            0 <= k <= sorted@.len(),
            sorted@.len() == views@.len(),
            out@.len() == k,
            forall|m: int| 0 <= m < k ==> (#[trigger] out@[m]).view_cost() == sorted@[m],
        decreases sorted@.len() - k,
    {
        out.push(PerViewDistanceCost { view: sorted[k].0.clone(), df_cost: sorted[k].1 });
        k += 1;
    }
    proof {
        assert forall|i: int, j: int| 0 <= i < j < out@.len() implies
            !cost_before((#[trigger] out@[j]).view_cost(), (#[trigger] out@[i]).view_cost()) by {
            assert(!cost_before(sorted@[j], sorted@[i]));
        }
        assert forall|m: int| 0 <= m < views@.len() implies out@[m].view@ == views@[#[trigger] perm[m]]@
            && out@[m].df_cost as nat == l1_distance(a@[perm[m]]@, b@[perm[m]]@) by {
            assert(out@[m].view_cost() == sorted@[m]);
            assert(sorted@[m] == entries@[perm[m]]);
        }
    }
    out
}

impl PerViewDistanceCost {
    /// The entry as `(view, cost)`.
    pub open spec fn view_cost(self) -> (String, usize) {
        (self.view, self.df_cost)
    }
}

impl E2ODistanceCost {
    /// The entry as `(object type, cost)`.
    pub open spec fn type_cost(self) -> (String, usize) {
        (self.object_type, self.cost)
    }
}

/// The event-to-object keys of object type `ot`.
pub open spec fn of_type(ot: Seq<char>) -> spec_fn((usize, Seq<char>)) -> bool {
    |k: (usize, Seq<char>)| k.1 == ot
}

/// The keys of object type `ot` that `a` lacks.
pub open spec fn of_type_not_in(ot: Seq<char>, a: Seq<((usize, Seq<char>), usize)>) -> spec_fn((usize, Seq<char>)) -> bool {
    |k: (usize, Seq<char>)| k.1 == ot && !has_key(a, k)
}

/// The share of object type `ot` in the L1 distance of two event-to-object count lists.
pub open spec fn type_share(a: Seq<((usize, Seq<char>), usize)>, b: Seq<((usize, Seq<char>), usize)>, ot: Seq<char>) -> nat {
    sum_where(a, of_type(ot), count_gap(a, b)) + sum_where(b, of_type_not_in(ot, a), counts_of(b))
}

/// The share of `ot` after the first `i` entries of `a` and the first `j` of `b`.
pub open spec fn share_upto(a: Seq<((usize, Seq<char>), usize)>, b: Seq<((usize, Seq<char>), usize)>, i: int, j: int, ot: Seq<char>) -> nat {
    sum_where(a.take(i), of_type(ot), count_gap(a, b)) + sum_where(b.take(j), of_type_not_in(ot, a), counts_of(b))
}

/// Each name occurs once.
pub open spec fn names_distinct(acc: Seq<(String, usize)>) -> bool {
    forall|m1: int, m2: int| 0 <= m1 < acc.len() && 0 <= m2 < acc.len() && (#[trigger] acc[m1]).0@ == (#[trigger] acc[m2]).0@ ==> m1 == m2
}

pub open spec fn has_name(acc: Seq<(String, usize)>, ot: Seq<char>) -> bool {
    exists|q: int| 0 <= q < acc.len() && (#[trigger] acc[q]).0@ == ot
}

/// The value listed for `ot`, 0 where `ot` is not listed.
pub open spec fn listed_value(acc: Seq<(String, usize)>, ot: Seq<char>) -> nat {
    if has_name(acc, ot) {
        acc[choose|q: int| 0 <= q < acc.len() && (#[trigger] acc[q]).0@ == ot].1 as nat
    } else {
        0
    }
}

pub(crate) proof fn lemma_listed_at(acc: Seq<(String, usize)>, q: int)
    requires
        names_distinct(acc),
        0 <= q < acc.len(),
    ensures
        has_name(acc, acc[q].0@),
        listed_value(acc, acc[q].0@) == acc[q].1 as nat,
{
    assert(has_name(acc, acc[q].0@));
    let c = choose|c: int| 0 <= c < acc.len() && (#[trigger] acc[c]).0@ == acc[q].0@;
    assert(c == q);
}

/// `acc` lists each object type with a positive share so far once, with that share.
pub open spec fn shares_listed(acc: Seq<(String, usize)>, a: Seq<((usize, Seq<char>), usize)>, b: Seq<((usize, Seq<char>), usize)>, i: int, j: int) -> bool {
    &&& names_distinct(acc)
    &&& forall|ot: Seq<char>| #[trigger] listed_value(acc, ot) == share_upto(a, b, i, j, ot)
    &&& forall|ot: Seq<char>| #[trigger] has_name(acc, ot) <==> share_upto(a, b, i, j, ot) > 0
}

/// The position of the entry named `ot`, if any.
fn position_of_name(acc: &Vec<(String, usize)>, ot: &String) -> (r: Option<usize>)
    ensures
        r matches Some(m) ==> m < acc@.len() && acc@[m as int].0@ == ot@,
        r is None ==> !has_name(acc@, ot@),
{
    let mut m: usize = 0;
    while m < acc.len()
        invariant
            0 <= m <= acc@.len(),
            forall|q: int| 0 <= q < m ==> (#[trigger] acc@[q]).0@ != ot@,
        decreases acc@.len() - m,
    {
        if acc[m].0 == *ot {
            return Some(m);
        }
        m += 1;
    }
    None
}

/// Adds `d` to the value listed for `ot`, listing `ot` where it is not yet.
pub(crate) fn add_share(acc: &mut Vec<(String, usize)>, ot: &String, d: usize)
    requires
        names_distinct(old(acc)@),
        listed_value(old(acc)@, ot@) + d <= usize::MAX,
    ensures
        names_distinct(final(acc)@),
        forall|t: Seq<char>| #[trigger] listed_value(final(acc)@, t) == listed_value(old(acc)@, t) + if t == ot@ { d as nat } else { 0 },
        forall|t: Seq<char>| #[trigger] has_name(final(acc)@, t) <==> (has_name(old(acc)@, t) || t == ot@),
{
    let ghost old_acc = acc@;
    match position_of_name(acc, ot) {
        Some(m) => {
            proof {
                lemma_listed_at(old_acc, m as int);
            }
            let v = acc[m].1 + d;
            let name = acc[m].0.clone();
            acc.set(m, (name, v));
            proof {
                assert forall|q: int| 0 <= q < acc@.len() implies (#[trigger] acc@[q]).0@ == old_acc[q].0@ by {}
                assert forall|t: Seq<char>| #[trigger] has_name(acc@, t) <==> (has_name(old_acc, t) || t == ot@) by {
                    if has_name(acc@, t) {
                        let q = choose|q: int| 0 <= q < acc@.len() && (#[trigger] acc@[q]).0@ == t;
                        assert(old_acc[q].0@ == t);
                    }
                    if has_name(old_acc, t) {
                        let q = choose|q: int| 0 <= q < old_acc.len() && (#[trigger] old_acc[q]).0@ == t;
                        assert(acc@[q].0@ == t);
                    }
                    if t == ot@ {
                        assert(acc@[m as int].0@ == t);
                    }
                }
                assert forall|t: Seq<char>| #[trigger] listed_value(acc@, t) == listed_value(old_acc, t) + if t == ot@ { d as nat } else { 0 } by {
                    if has_name(acc@, t) {
                        let q = choose|q: int| 0 <= q < acc@.len() && (#[trigger] acc@[q]).0@ == t;
                        lemma_listed_at(acc@, q);
                        lemma_listed_at(old_acc, q);
                    }
                }
            }
        },
        None => {
            acc.push((ot.clone(), d));
            proof {
                let n = old_acc.len() as int;
                assert(acc@[n].0@ == ot@);
                assert forall|t: Seq<char>| #[trigger] has_name(acc@, t) <==> (has_name(old_acc, t) || t == ot@) by {
                    if has_name(acc@, t) {
                        let q = choose|q: int| 0 <= q < acc@.len() && (#[trigger] acc@[q]).0@ == t;
                        if q < n {
                            assert(old_acc[q] == acc@[q]);
                        }
                    }
                    if has_name(old_acc, t) {
                        let q = choose|q: int| 0 <= q < old_acc.len() && (#[trigger] old_acc[q]).0@ == t;
                        assert(acc@[q] == old_acc[q]);
                    }
                }
                assert forall|t: Seq<char>| #[trigger] listed_value(acc@, t) == listed_value(old_acc, t) + if t == ot@ { d as nat } else { 0 } by {
                    if has_name(acc@, t) {
                        let q = choose|q: int| 0 <= q < acc@.len() && (#[trigger] acc@[q]).0@ == t;
                        lemma_listed_at(acc@, q);
                        if q < n {
                            assert(old_acc[q] == acc@[q]);
                            lemma_listed_at(old_acc, q);
                        }
                    }
                }
            }
        },
    }
}

/// Prefix shares are at most the whole share.
proof fn lemma_share_upto_le(a: Seq<((usize, Seq<char>), usize)>, b: Seq<((usize, Seq<char>), usize)>, i: int, j: int, ot: Seq<char>)
    requires
        0 <= i <= a.len(),
        0 <= j <= b.len(),
    ensures
        share_upto(a, b, i, j, ot) <= type_share(a, b, ot),
{
    lemma_sum_prefix_le(a, i, of_type(ot), count_gap(a, b));
    lemma_sum_prefix_le(b, j, of_type_not_in(ot, a), counts_of(b));
}

/// The event-to-object cost of each object type with a positive share in the L1
/// distance, largest first, equal costs by object type.
pub fn e2o_costs_per_object_type(a: &E2OCounts, b: &E2OCounts) -> (r: Vec<E2ODistanceCost>)
    requires
        keys_distinct(e2o_view(a@)),
        keys_distinct(e2o_view(b@)),
        forall|ot: Seq<char>| #[trigger] type_share(e2o_view(a@), e2o_view(b@), ot) <= usize::MAX,
    ensures
        forall|m1: int, m2: int| 0 <= m1 < r@.len() && 0 <= m2 < r@.len() && m1 != m2 ==>
            (#[trigger] r@[m1]).object_type@ != (#[trigger] r@[m2]).object_type@,
        forall|m: int| 0 <= m < r@.len() ==>
            (#[trigger] r@[m]).cost as nat == type_share(e2o_view(a@), e2o_view(b@), r@[m].object_type@) && r@[m].cost > 0,
        forall|ot: Seq<char>| #[trigger] type_share(e2o_view(a@), e2o_view(b@), ot) > 0 ==>
            exists|m: int| 0 <= m < r@.len() && (#[trigger] r@[m]).object_type@ == ot,
        forall|i: int, j: int| 0 <= i < j < r@.len() ==>
            !cost_before((#[trigger] r@[j]).type_cost(), (#[trigger] r@[i]).type_cost()),
{
    let ghost av = e2o_view(a@);
    let ghost bv = e2o_view(b@);
    let mut acc: Vec<(String, usize)> = Vec::new();
    proof {
        assert forall|t: Seq<char>| #[trigger] listed_value(acc@, t) == share_upto(av, bv, 0, 0, t) by {
            assert(av.take(0) =~= Seq::<((usize, Seq<char>), usize)>::empty());
            assert(bv.take(0) =~= Seq::<((usize, Seq<char>), usize)>::empty());
        }
    }
    let mut i: usize = 0;
    while i < a.len()
        invariant
            0 <= i <= a@.len(),
            av == e2o_view(a@),
            bv == e2o_view(b@),
            av.len() == a@.len(),
            bv.len() == b@.len(),
            keys_distinct(av),
            keys_distinct(bv),
            forall|ot: Seq<char>| #[trigger] type_share(av, bv, ot) <= usize::MAX,
            shares_listed(acc@, av, bv, i as int, 0),
        decreases a@.len() - i,
    {
        assert(av[i as int] == ((a@[i as int].0.0, a@[i as int].0.1@), a@[i as int].1));
        let ca = a[i].1;
        let cb = match e2o_count_of(b, a[i].0.0, &a[i].0.1) {
            Some(v) => v,
            None => 0,
        };
        let d = if ca >= cb { ca - cb } else { cb - ca };
        let ghost k = av[i as int].0;
        proof {
            lemma_count_at_index(av, i as int);
            assert(d as nat == count_gap(av, bv)(k));
            assert forall|t: Seq<char>| #[trigger] share_upto(av, bv, i + 1, 0, t) == share_upto(av, bv, i as int, 0, t) + if t == k.1 { d as nat } else { 0 } by {
                lemma_sum_take_step(av, i as int, of_type(t), count_gap(av, bv));
            }
            lemma_share_upto_le(av, bv, i + 1, 0, k.1);
        }
        if d > 0 {
            add_share(&mut acc, &a[i].0.1, d);
        }
        i += 1;
    }
    proof {
        assert(av.take(av.len() as int) =~= av);
    }
    let mut j: usize = 0;
    while j < b.len()
        invariant
            0 <= j <= b@.len(),
            av == e2o_view(a@),
            bv == e2o_view(b@),
            av.len() == a@.len(),
            bv.len() == b@.len(),
            keys_distinct(av),
            keys_distinct(bv),
            forall|ot: Seq<char>| #[trigger] type_share(av, bv, ot) <= usize::MAX,
            shares_listed(acc@, av, bv, av.len() as int, j as int),
        decreases b@.len() - j,
    {
        assert(bv[j as int] == ((b@[j as int].0.0, b@[j as int].0.1@), b@[j as int].1));
        let present = e2o_count_of(a, b[j].0.0, &b[j].0.1);
        let cb = b[j].1;
        let ghost k = bv[j as int].0;
        proof {
            lemma_count_at_index(bv, j as int);
            assert forall|t: Seq<char>| #[trigger] share_upto(av, bv, av.len() as int, j + 1, t)
                == share_upto(av, bv, av.len() as int, j as int, t) + if t == k.1 && !has_key(av, k) { cb as nat } else { 0 } by {
                lemma_sum_take_step(bv, j as int, of_type_not_in(t, av), counts_of(bv));
            }
            lemma_share_upto_le(av, bv, av.len() as int, j + 1, k.1);
        }
        if present.is_none() && cb > 0 {
            add_share(&mut acc, &b[j].0.1, cb);
        }
        j += 1;
    }
    proof {
        assert(bv.take(bv.len() as int) =~= bv);
        assert(av.take(av.len() as int) =~= av);
        assert forall|t: Seq<char>| share_upto(av, bv, av.len() as int, bv.len() as int, t) == #[trigger] type_share(av, bv, t) by {}
    }
    let sorted = sort_costs(acc);
    let ghost perm = choose|perm: Seq<int>| #[trigger] is_permutation(perm, acc@.len() as int)
        && forall|k: int| 0 <= k < acc@.len() ==> sorted@[k] == acc@[#[trigger] perm[k]];
    let mut out: Vec<E2ODistanceCost> = Vec::new();
    let mut k: usize = 0;
    while k < sorted.len()
        invariant
            0 <= k <= sorted@.len(),
            out@.len() == k,
            forall|m: int| 0 <= m < k ==> (#[trigger] out@[m]).type_cost() == sorted@[m],
        decreases sorted@.len() - k,
    {
        out.push(E2ODistanceCost { object_type: sorted[k].0.clone(), cost: sorted[k].1 });
        k += 1;
    }
    proof {
        let n = acc@.len() as int;
        assert forall|m: int| 0 <= m < n implies #[trigger] out@[m].type_cost() == acc@[perm[m]] by {
            assert(out@[m].type_cost() == sorted@[m]);
        }
        assert forall|m1: int, m2: int| 0 <= m1 < out@.len() && 0 <= m2 < out@.len() && m1 != m2 implies
            (#[trigger] out@[m1]).object_type@ != (#[trigger] out@[m2]).object_type@ by {
            assert(out@[m1].type_cost() == acc@[perm[m1]]);
            assert(out@[m2].type_cost() == acc@[perm[m2]]);
        }
        assert forall|m: int| 0 <= m < out@.len() implies
            (#[trigger] out@[m]).cost as nat == type_share(av, bv, out@[m].object_type@) && out@[m].cost > 0 by {
            assert(out@[m].type_cost() == acc@[perm[m]]);
            lemma_listed_at(acc@, perm[m]);
            assert(has_name(acc@, acc@[perm[m]].0@));
        }
        assert forall|ot: Seq<char>| #[trigger] type_share(av, bv, ot) > 0 implies
            exists|m: int| 0 <= m < out@.len() && (#[trigger] out@[m]).object_type@ == ot by {
            assert(share_upto(av, bv, av.len() as int, bv.len() as int, ot) == type_share(av, bv, ot));
            assert(has_name(acc@, ot));
            let q = choose|q: int| 0 <= q < acc@.len() && (#[trigger] acc@[q]).0@ == ot;
            // `perm` is onto: some position holds `q`
            lemma_permutation_onto(perm, n, q);
            let m = choose|m: int| 0 <= m < n && perm[m] == q;
            assert(out@[m].type_cost() == acc@[perm[m]]);
        }
        assert forall|x: int, y: int| 0 <= x < y < out@.len() implies
            !cost_before((#[trigger] out@[y]).type_cost(), (#[trigger] out@[x]).type_cost()) by {
            assert(!cost_before(sorted@[y], sorted@[x]));
        }
    }
    out
}


} // verus!
