//! The evidence behind the fitness of a fall-through candidate: over the pairs of
//! activities across its two parts, how many of the checks that the object
//! types call for are met, and how many checks there are. The fitness is the
//! share of checks met (1 where there is none).
use vstd::prelude::*;
use crate::ocim::auxiliary_methods::{
    get_divergent_types, get_non_divergent_types, is_divergent_type, is_non_divergent_type, push_unique,
};
use crate::ocim::common_data::{GlobalData, LocalData, df_count};
use crate::ocim::cut_helpers::concat_strings;
use crate::ocim::model::{contains_pair, contains_string, in_set_of, lookup_clos, lookup_set, seq_has, strings_unique};

verus! {

/// `x`, or the largest `u64` where `x` is larger.
pub open spec fn sat(x: nat) -> u64 {
    if x > u64::MAX { u64::MAX } else { x as u64 }
}

proof fn lemma_sat_add(x: nat, y: nat)
    ensures
        sat((sat(x) + sat(y)) as nat) == sat(x + y),
{
}

/// The object types related to both activities.
pub open spec fn shared_set(g: GlobalData, a: Seq<char>, b: Seq<char>) -> Set<Seq<char>> {
    Set::new(|t: Seq<char>| g.rel(a, t) && g.rel(b, t))
}

/// The divergent types of the pair within the context.
pub open spec fn divergent_set(g: GlobalData, a: Seq<char>, b: Seq<char>, ctx: Seq<String>) -> Set<Seq<char>> {
    Set::new(|t: Seq<char>| is_divergent_type(g, a, b, ctx, t))
}

/// The non-divergent types of the pair within the context.
pub open spec fn non_divergent_set(g: GlobalData, a: Seq<char>, b: Seq<char>, ctx: Seq<String>) -> Set<Seq<char>> {
    Set::new(|t: Seq<char>| is_non_divergent_type(g, a, b, ctx, t))
}

/// What is counted for a pair of activities.
#[derive(Debug, Clone, Copy, PartialEq, Eq, Structural)]
pub enum PairCheck {
    /// For each shared type, the edges `a -> b` and `b -> a` in its graph.
    SharedEdges,
    /// For each divergent type, the edges `a -> b` and `b -> a` in its graph.
    DivergentEdges,
    /// For each non-divergent type, `b` reachable from `a` in its closure.
    NonDivergentReach,
    /// For each shared type, `b` reachable from `a` in its closure.
    SharedReach,
}

/// The object types that a check concerns.
pub open spec fn pair_types(g: GlobalData, kind: PairCheck, ctx: Seq<String>, a: Seq<char>, b: Seq<char>) -> Set<Seq<char>> {
    match kind {
        PairCheck::SharedEdges => shared_set(g, a, b),
        PairCheck::SharedReach => shared_set(g, a, b),
        PairCheck::DivergentEdges => divergent_set(g, a, b, ctx),
        PairCheck::NonDivergentReach => non_divergent_set(g, a, b, ctx),
    }
}

/// The checks met for a pair: edges found (each type twice, once per direction),
/// or closures in which `b` is reachable from `a`.
pub open spec fn pair_met(l: LocalData, g: GlobalData, kind: PairCheck, ctx: Seq<String>, a: Seq<char>, b: Seq<char>) -> nat {
    let s = pair_types(g, kind, ctx, a, b);
    match kind {
        PairCheck::SharedEdges | PairCheck::DivergentEdges =>
            s.filter(|t: Seq<char>| l.df(t, a, b) > 0).len() + s.filter(|t: Seq<char>| l.df(t, b, a) > 0).len(),
        PairCheck::NonDivergentReach | PairCheck::SharedReach => s.filter(|t: Seq<char>| l.reaches(t, a, b)).len(),
    }
}

/// The checks made for a pair: two per type for edges, one per type for closures.
pub open spec fn pair_made(g: GlobalData, kind: PairCheck, ctx: Seq<String>, a: Seq<char>, b: Seq<char>) -> nat {
    let n = pair_types(g, kind, ctx, a, b).len();
    match kind {
        PairCheck::SharedEdges | PairCheck::DivergentEdges => 2 * n,
        PairCheck::NonDivergentReach | PairCheck::SharedReach => n,
    }
}

/// `f` summed over `a` and every activity of `p2`.
pub open spec fn row_sum(a: Seq<char>, p2: Seq<String>, f: spec_fn(Seq<char>, Seq<char>) -> nat) -> nat
    decreases p2.len(),
{
    if p2.len() == 0 { 0 } else { row_sum(a, p2.drop_last(), f) + f(a, p2.last()@) }
}

/// `f` summed over every activity of `p1` and every activity of `p2`.
pub open spec fn pair_sum(p1: Seq<String>, p2: Seq<String>, f: spec_fn(Seq<char>, Seq<char>) -> nat) -> nat
    decreases p1.len(),
{
    if p1.len() == 0 { 0 } else { pair_sum(p1.drop_last(), p2, f) + row_sum(p1.last()@, p2, f) }
}

/// The number of strings of `v` whose view satisfies `p`.
pub open spec fn count_where(v: Seq<String>, p: spec_fn(Seq<char>) -> bool) -> nat
    decreases v.len(),
{
    if v.len() == 0 { 0 } else { count_where(v.drop_last(), p) + if p(v.last()@) { 1nat } else { 0nat } }
}

/// A list of distinct strings counts, for any predicate, what the set of their
/// views holds.
proof fn lemma_count_is_set_len(v: Seq<String>, s: Set<Seq<char>>, p: spec_fn(Seq<char>) -> bool)
    requires
        strings_unique(v),
        forall|t: Seq<char>| #[trigger] seq_has(v, t) <==> s.contains(t),
    ensures
        s.finite(),
        s.len() == v.len(),
        count_where(v, p) == s.filter(p).len(),
    decreases v.len(),
{
    if v.len() == 0 {
        assert(s =~= Set::<Seq<char>>::empty()) by {
            assert forall|t: Seq<char>| !s.contains(t) by {
                assert(!seq_has(v, t));
            }
        }
        assert(s.filter(p) =~= Set::<Seq<char>>::empty());
    } else {
        let x = v.last()@;
        let w = v.drop_last();
        let s2 = s.remove(x);
        assert(strings_unique(w)) by {
            assert forall|i: int, j: int| 0 <= i < w.len() && 0 <= j < w.len() && (#[trigger] w[i])@ == (#[trigger] w[j])@ implies i == j by {
                assert(v[i] == w[i] && v[j] == w[j]);
            }
        }
        assert forall|t: Seq<char>| #[trigger] seq_has(w, t) <==> s2.contains(t) by {
            if seq_has(w, t) {
                let k = choose|k: int| 0 <= k < w.len() && (#[trigger] w[k])@ == t;
                assert(v[k] == w[k]);
                assert(seq_has(v, t));
                if t == x {
                    assert(v[k]@ == v[v.len() - 1]@);
                }
            }
            if s2.contains(t) {
                assert(seq_has(v, t));
                let k = choose|k: int| 0 <= k < v.len() && (#[trigger] v[k])@ == t;
                assert(k != v.len() - 1);
                assert(w[k] == v[k]);
            }
        }
        lemma_count_is_set_len(w, s2, p);
        assert(seq_has(v, x)) by {
            assert(v[v.len() - 1]@ == x);
        }
        assert(s =~= s2.insert(x));
        vstd::set::axiom_set_insert_len(s2, x);
        if p(x) {
            assert(s.filter(p) =~= s2.filter(p).insert(x));
            vstd::set::axiom_set_insert_len(s2.filter(p), x);
        } else {
            assert(s.filter(p) =~= s2.filter(p));
        }
    }
}

proof fn lemma_take_step_strings(v: Seq<String>, k: int)
    requires
        0 <= k < v.len(),
    ensures
        v.take(k + 1).drop_last() == v.take(k),
        v.take(k + 1).last() == v[k],
{
    assert(v.take(k + 1).drop_last() =~= v.take(k));
}

/// The object types related to both activities, each once.
fn shared_types(g: &GlobalData, a: &String, b: &String) -> (r: Vec<String>)
    requires
        g.wf(),
    ensures
        strings_unique(r@),
        forall|t: Seq<char>| #[trigger] seq_has(r@, t) <==> (g.rel(a@, t) && g.rel(b@, t)),
{
    let mut out: Vec<String> = Vec::new();
    let ra = match lookup_set(&g.related, a) {
        Some(r) => r,
        None => {
            proof {
                assert forall|t: Seq<char>| !g.rel(a@, t) by {}
            }
            return out;
        },
    };
    let rb = match lookup_set(&g.related, b) {
        Some(r) => r,
        None => {
            proof {
                assert forall|t: Seq<char>| !g.rel(b@, t) by {}
            }
            return out;
        },
    };
    let mut i: usize = 0;
    while i < ra.len()
        invariant
            0 <= i <= ra.len(),
            strings_unique(out@),
            forall|t: Seq<char>| #![trigger seq_has(ra@, t)] seq_has(ra@, t) <==> g.rel(a@, t),
            forall|t: Seq<char>| #![trigger seq_has(rb@, t)] seq_has(rb@, t) <==> g.rel(b@, t),
            forall|t: Seq<char>| #[trigger] seq_has(out@, t) <==> (seq_has(ra@.take(i as int), t) && g.rel(b@, t)),
        decreases ra.len() - i,
    {
        let t = &ra[i];
        proof {
            lemma_take_step_strings(ra@, i as int);
        }
        if contains_string(rb, t) {
            push_unique(&mut out, t);
        }
        proof {
            assert forall|u: Seq<char>| #[trigger] seq_has(out@, u) <==> (seq_has(ra@.take(i + 1), u) && g.rel(b@, u)) by {
                let tk = ra@.take(i + 1);
                if seq_has(tk, u) {
                    let k = choose|k: int| 0 <= k < tk.len() && (#[trigger] tk[k])@ == u;
                    if k < i {
                        assert(ra@.take(i as int)[k] == tk[k]);
                    }
                }
                if seq_has(ra@.take(i as int), u) {
                    let k = choose|k: int| 0 <= k < i && (#[trigger] ra@.take(i as int)[k])@ == u;
                    assert(tk[k] == ra@.take(i as int)[k]);
                }
                if u == t@ {
                    assert(tk[i as int] == ra@[i as int]);
                }
            }
        }
        i += 1;
    }
    proof {
        assert(ra@.take(i as int) =~= ra@);
        assert forall|t: Seq<char>| #[trigger] seq_has(out@, t) <==> (g.rel(a@, t) && g.rel(b@, t)) by {
            if g.rel(a@, t) {
                assert(seq_has(ra@, t));
            }
        }
    }
    out
}

/// The object types that a check concerns, each once.
fn types_of_pair(g: &GlobalData, kind: PairCheck, ctx: &Vec<String>, a: &String, b: &String) -> (r: Vec<String>)
    requires
        g.wf(),
    ensures
        strings_unique(r@),
        forall|t: Seq<char>| #[trigger] seq_has(r@, t) <==> pair_types(*g, kind, ctx@, a@, b@).contains(t),
{
    match kind {
        PairCheck::SharedEdges | PairCheck::SharedReach => shared_types(g, a, b),
        PairCheck::DivergentEdges => get_divergent_types(a, b, ctx.as_slice(), g),
        PairCheck::NonDivergentReach => get_non_divergent_types(a, b, ctx.as_slice(), g),
    }
}

/// Whether `b` is reachable from `a` in the closure of `t`.
fn reaches_in(l: &LocalData, t: &String, a: &String, b: &String) -> (r: bool)
    requires
        l.wf(),
    ensures
        r == l.reaches(t@, a@, b@),
{
    match lookup_clos(&l.clos, t) {
        Some(pairs) => contains_pair(pairs, a, b),
        None => false,
    }
}

/// The checks met and made for one pair, saturated at the largest `u64`.
fn count_pair(l: &LocalData, g: &GlobalData, kind: PairCheck, ctx: &Vec<String>, a: &String, b: &String) -> (r: (u64, u64))
    requires
        l.wf(),
        g.wf(),
    ensures
        r.0 == sat(pair_met(*l, *g, kind, ctx@, a@, b@)),
        r.1 == sat(pair_made(*g, kind, ctx@, a@, b@)),
{
    let types = types_of_pair(g, kind, ctx, a, b);
    let edges = kind == PairCheck::SharedEdges || kind == PairCheck::DivergentEdges;
    let ghost p_ab = |t: Seq<char>| l.df(t, a@, b@) > 0;
    let ghost p_ba = |t: Seq<char>| l.df(t, b@, a@) > 0;
    let ghost p_r = |t: Seq<char>| l.reaches(t, a@, b@);
    let mut met: u64 = 0;
    let mut made: u64 = 0;
    let mut k: usize = 0;
    while k < types.len()
        invariant
            0 <= k <= types@.len(),
            l.wf(),
            edges == (kind == PairCheck::SharedEdges || kind == PairCheck::DivergentEdges),
            edges ==> met == sat(count_where(types@.take(k as int), p_ab) + count_where(types@.take(k as int), p_ba)),
            edges ==> made == sat((2 * k) as nat),
            !edges ==> met == sat(count_where(types@.take(k as int), p_r)),
            !edges ==> made == sat(k as nat),
        decreases types@.len() - k,
    {
        let t = &types[k];
        proof {
            lemma_take_step_strings(types@, k as int);
        }
        if edges {
            let ab = df_count(l, t, a, b);
            let ba = df_count(l, t, b, a);
            let inc: u64 = (if ab > 0 { 1u64 } else { 0u64 }) + (if ba > 0 { 1u64 } else { 0u64 });
            proof {
                lemma_sat_add(count_where(types@.take(k as int), p_ab) + count_where(types@.take(k as int), p_ba), inc as nat);
                lemma_sat_add((2 * k) as nat, 2);
            }
            met = met.saturating_add(inc);
            made = made.saturating_add(2);
        } else {
            let inc: u64 = if reaches_in(l, t, a, b) { 1 } else { 0 };
            proof {
                lemma_sat_add(count_where(types@.take(k as int), p_r), inc as nat);
                lemma_sat_add(k as nat, 1);
            }
            met = met.saturating_add(inc);
            made = made.saturating_add(1);
        }
        k += 1;
    }
    proof {
        assert(types@.take(k as int) =~= types@);
        let s = pair_types(*g, kind, ctx@, a@, b@);
        lemma_count_is_set_len(types@, s, p_ab);
        lemma_count_is_set_len(types@, s, p_ba);
        lemma_count_is_set_len(types@, s, p_r);
        assert(s.filter(p_ab) == s.filter(|t: Seq<char>| l.df(t, a@, b@) > 0));
    }
    (met, made)
}

/// The checks met and made over every pair of an activity of `p1` and one of `p2`.
pub fn sum_over_pairs(l: &LocalData, g: &GlobalData, kind: PairCheck, ctx: &Vec<String>, p1: &Vec<String>, p2: &Vec<String>) -> (r: (u64, u64))
    requires
        l.wf(),
        g.wf(),
    ensures
        r.0 == sat(pair_sum(p1@, p2@, |a: Seq<char>, b: Seq<char>| pair_met(*l, *g, kind, ctx@, a, b))),
        r.1 == sat(pair_sum(p1@, p2@, |a: Seq<char>, b: Seq<char>| pair_made(*g, kind, ctx@, a, b))),
{
    let ghost fm = |a: Seq<char>, b: Seq<char>| pair_met(*l, *g, kind, ctx@, a, b);
    let ghost fc = |a: Seq<char>, b: Seq<char>| pair_made(*g, kind, ctx@, a, b);
    let mut met: u64 = 0;
    let mut made: u64 = 0;
    let mut i: usize = 0;
    while i < p1.len()
        invariant
            0 <= i <= p1@.len(),
            l.wf(),
            g.wf(),
            met == sat(pair_sum(p1@.take(i as int), p2@, fm)),
            made == sat(pair_sum(p1@.take(i as int), p2@, fc)),
        decreases p1@.len() - i,
    {
        let a = &p1[i];
        let ghost before_m = pair_sum(p1@.take(i as int), p2@, fm);
        let ghost before_c = pair_sum(p1@.take(i as int), p2@, fc);
        let mut j: usize = 0;
        while j < p2.len()
            invariant
                0 <= i < p1@.len(),
                0 <= j <= p2@.len(),
                *a == p1@[i as int],
                l.wf(),
                g.wf(),
                met == sat(before_m + row_sum(a@, p2@.take(j as int), fm)),
                made == sat(before_c + row_sum(a@, p2@.take(j as int), fc)),
            decreases p2@.len() - j,
        {
            let b = &p2[j];
            proof {
                lemma_take_step_strings(p2@, j as int);
            }
            let (m, c) = count_pair(l, g, kind, ctx, a, b);
            proof {
                lemma_sat_add(before_m + row_sum(a@, p2@.take(j as int), fm), fm(a@, b@));
                lemma_sat_add(before_c + row_sum(a@, p2@.take(j as int), fc), fc(a@, b@));
            }
            met = met.saturating_add(m);
            made = made.saturating_add(c);
            j += 1;
        }
        proof {
            assert(p2@.take(j as int) =~= p2@);
            lemma_take_step_strings(p1@, i as int);
        }
        i += 1;
    }
    assert(p1@.take(i as int) =~= p1@);
    (met, made)
}

/// The checks met and made for a concurrent fall-through: over the pairs across
/// the parts, both edges for each shared object type.
pub fn concurrent_fallthrough_counts(local_data: &LocalData, global_data: &GlobalData, part_one: &Vec<String>, part_two: &Vec<String>) -> (r: (u64, u64))
    requires
        local_data.wf(),
        global_data.wf(),
    ensures
        r == sum_spec(*local_data, *global_data, PairCheck::SharedEdges, part_one@ + part_two@, part_one@, part_two@),
{
    let ctx = concat_strings(part_one.as_slice(), part_two.as_slice());
    sum_over_pairs(local_data, global_data, PairCheck::SharedEdges, &ctx, part_one, part_two)
}

/// The saturated sums of `sum_over_pairs`.
pub open spec fn sum_spec(l: LocalData, g: GlobalData, kind: PairCheck, ctx: Seq<String>, p1: Seq<String>, p2: Seq<String>) -> (u64, u64) {
    (sat(pair_sum(p1, p2, |a: Seq<char>, b: Seq<char>| pair_met(l, g, kind, ctx, a, b))),
     sat(pair_sum(p1, p2, |a: Seq<char>, b: Seq<char>| pair_made(g, kind, ctx, a, b))))
}

/// Two saturated counts added, saturated.
pub open spec fn sat_pair_add(x: (u64, u64), y: (u64, u64)) -> (u64, u64) {
    (sat((x.0 + y.0) as nat), sat((x.1 + y.1) as nat))
}

/// The checks met and made for an exclusive-choice fall-through: over the pairs
/// across the parts, both edges for each divergent type.
pub fn xor_fallthrough_counts(local_data: &LocalData, global_data: &GlobalData, part_one: &Vec<String>, part_two: &Vec<String>) -> (r: (u64, u64))
    requires
        local_data.wf(),
        global_data.wf(),
    ensures
        r == sum_spec(*local_data, *global_data, PairCheck::DivergentEdges, part_one@ + part_two@, part_one@, part_two@),
{
    let ctx = concat_strings(part_one.as_slice(), part_two.as_slice());
    sum_over_pairs(local_data, global_data, PairCheck::DivergentEdges, &ctx, part_one, part_two)
}

/// The checks met and made for a sequence fall-through: over the pairs across
/// the parts, both edges for each divergent type, and reachability from the
/// first part to the second for each non-divergent type.
pub fn sequence_fallthrough_counts(local_data: &LocalData, global_data: &GlobalData, part_one: &Vec<String>, part_two: &Vec<String>) -> (r: (u64, u64))
    requires
        local_data.wf(),
        global_data.wf(),
    ensures
        r == sat_pair_add(
            sum_spec(*local_data, *global_data, PairCheck::DivergentEdges, part_one@ + part_two@, part_one@, part_two@),
            sum_spec(*local_data, *global_data, PairCheck::NonDivergentReach, part_one@ + part_two@, part_one@, part_two@)),
{
    let ctx = concat_strings(part_one.as_slice(), part_two.as_slice());
    let (m1, c1) = sum_over_pairs(local_data, global_data, PairCheck::DivergentEdges, &ctx, part_one, part_two);
    let (m2, c2) = sum_over_pairs(local_data, global_data, PairCheck::NonDivergentReach, &ctx, part_one, part_two);
    (m1.saturating_add(m2), c1.saturating_add(c2))
}

/// The checks met and made for a loop fall-through: over the pairs across the
/// parts, both edges for each divergent type; and over every ordered pair of
/// activities of both parts, reachability for each shared type.
pub fn loop_fallthrough_counts(local_data: &LocalData, global_data: &GlobalData, part_one: &Vec<String>, part_two: &Vec<String>) -> (r: (u64, u64))
    requires
        local_data.wf(),
        global_data.wf(),
    ensures
        r == sat_pair_add(
            sum_spec(*local_data, *global_data, PairCheck::DivergentEdges, part_one@ + part_two@, part_one@, part_two@),
            sum_spec(*local_data, *global_data, PairCheck::SharedReach, part_one@ + part_two@, part_one@ + part_two@, part_one@ + part_two@)),
{
    let ctx = concat_strings(part_one.as_slice(), part_two.as_slice());
    let (m1, c1) = sum_over_pairs(local_data, global_data, PairCheck::DivergentEdges, &ctx, part_one, part_two);
    let (m2, c2) = sum_over_pairs(local_data, global_data, PairCheck::SharedReach, &ctx, &ctx, &ctx);
    (m1.saturating_add(m2), c1.saturating_add(c2))
}

/// Every object type named in the lists of the set map.
pub open spec fn all_types(m: Seq<(String, Vec<String>)>) -> Set<Seq<char>>
    decreases m.len(),
{
    if m.len() == 0 {
        Set::empty()
    } else {
        all_types(m.drop_last()).union(m.last().1@.map_values(|x: String| x@).to_set())
    }
}

proof fn lemma_all_types_finite(m: Seq<(String, Vec<String>)>)
    ensures
        all_types(m).finite(),
    decreases m.len(),
{
    if m.len() > 0 {
        lemma_all_types_finite(m.drop_last());
        vstd::seq_lib::seq_to_set_is_finite(m.last().1@.map_values(|x: String| x@));
        vstd::set::axiom_set_union_finite(all_types(m.drop_last()), m.last().1@.map_values(|x: String| x@).to_set());
    }
}

proof fn lemma_in_all_types(m: Seq<(String, Vec<String>)>, a: Seq<char>, t: Seq<char>)
    requires
        in_set_of(m, a, t),
    ensures
        all_types(m).contains(t),
    decreases m.len(),
{
    let i = choose|i: int| 0 <= i < m.len() && (#[trigger] m[i]).0@ == a && seq_has(m[i].1@, t);
    if i < m.len() - 1 {
        assert(m.drop_last()[i] == m[i]);
        lemma_in_all_types(m.drop_last(), a, t);
    } else {
        let v = m.last().1@;
        let k = choose|k: int| 0 <= k < v.len() && (#[trigger] v[k])@ == t;
        assert(v.map_values(|x: String| x@)[k] == t);
        assert(v.map_values(|x: String| x@).to_set().contains(t));
    }
}

/// The object types of a check form a finite set.
proof fn lemma_pair_types_finite(g: GlobalData, kind: PairCheck, ctx: Seq<String>, a: Seq<char>, b: Seq<char>)
    ensures
        pair_types(g, kind, ctx, a, b).finite(),
{
    let s = pair_types(g, kind, ctx, a, b);
    lemma_all_types_finite(g.related@);
    assert forall|t: Seq<char>| s.contains(t) implies all_types(g.related@).contains(t) by {
        lemma_in_all_types(g.related@, a, t);
    }
    vstd::set_lib::lemma_len_subset(s, all_types(g.related@));
}

proof fn lemma_pair_met_le_made(l: LocalData, g: GlobalData, kind: PairCheck, ctx: Seq<String>, a: Seq<char>, b: Seq<char>)
    ensures
        pair_met(l, g, kind, ctx, a, b) <= pair_made(g, kind, ctx, a, b),
{
    let s = pair_types(g, kind, ctx, a, b);
    lemma_pair_types_finite(g, kind, ctx, a, b);
    s.lemma_len_filter(|t: Seq<char>| l.df(t, a, b) > 0);
    s.lemma_len_filter(|t: Seq<char>| l.df(t, b, a) > 0);
    s.lemma_len_filter(|t: Seq<char>| l.reaches(t, a, b));
}

proof fn lemma_row_sum_mono(a: Seq<char>, p2: Seq<String>, f: spec_fn(Seq<char>, Seq<char>) -> nat, h: spec_fn(Seq<char>, Seq<char>) -> nat)
    requires
        forall|x: Seq<char>, y: Seq<char>| #[trigger] f(x, y) <= h(x, y),
    ensures
        row_sum(a, p2, f) <= row_sum(a, p2, h),
    decreases p2.len(),
{
    if p2.len() > 0 {
        lemma_row_sum_mono(a, p2.drop_last(), f, h);
        assert(f(a, p2.last()@) <= h(a, p2.last()@));
    }
}

proof fn lemma_pair_sum_mono(p1: Seq<String>, p2: Seq<String>, f: spec_fn(Seq<char>, Seq<char>) -> nat, h: spec_fn(Seq<char>, Seq<char>) -> nat)
    requires
        forall|x: Seq<char>, y: Seq<char>| #[trigger] f(x, y) <= h(x, y),
    ensures
        pair_sum(p1, p2, f) <= pair_sum(p1, p2, h),
    decreases p1.len(),
{
    if p1.len() > 0 {
        lemma_pair_sum_mono(p1.drop_last(), p2, f, h);
        lemma_row_sum_mono(p1.last()@, p2, f, h);
    }
}

/// The checks met never exceed the checks made, for any kind of check and any
/// two parts: the fitness, their share, lies between 0 and 1.
pub proof fn lemma_checks_met_within_made(l: LocalData, g: GlobalData, kind: PairCheck, ctx: Seq<String>, p1: Seq<String>, p2: Seq<String>)
    ensures
        pair_sum(p1, p2, |a: Seq<char>, b: Seq<char>| pair_met(l, g, kind, ctx, a, b))
            <= pair_sum(p1, p2, |a: Seq<char>, b: Seq<char>| pair_made(g, kind, ctx, a, b)),
        sum_spec(l, g, kind, ctx, p1, p2).0 <= sum_spec(l, g, kind, ctx, p1, p2).1,
{
    let f = |a: Seq<char>, b: Seq<char>| pair_met(l, g, kind, ctx, a, b);
    let h = |a: Seq<char>, b: Seq<char>| pair_made(g, kind, ctx, a, b);
    assert forall|x: Seq<char>, y: Seq<char>| #[trigger] f(x, y) <= h(x, y) by {
        lemma_pair_met_le_made(l, g, kind, ctx, x, y);
    }
    lemma_pair_sum_mono(p1, p2, f, h);
}

} // verus!
