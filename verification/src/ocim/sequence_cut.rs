//! The sequence cut (Section 3.1, Eq. 23-25).
use vstd::prelude::*;
use crate::ocim::auxiliary_methods::{
    covers_alphabet, get_divergent_types, get_non_divergent_types, is_divergent_type,
    is_non_divergent_type, partitions_cover_alphabet,
};
use crate::ocim::common_data::{GlobalData, LocalData};
use crate::ocim::cut_helpers::{
    check_shares_non_divergent, check_types_edge_keys, check_types_reach, flatten_range, segment,
    sequence_ordered, shares_non_divergent,
};
use crate::ocim::model::seq_has;

verus! {

/// Every activity of `pi` is ordered before every activity of `pj` in `ctx`.
pub open spec fn parts_ordered(l: LocalData, g: GlobalData, pi: Seq<String>, pj: Seq<String>, ctx: Seq<String>) -> bool {
    forall|ka: int, kb: int| 0 <= ka < pi.len() && 0 <= kb < pj.len() ==>
        sequence_ordered(l, g, (#[trigger] pi[ka])@, (#[trigger] pj[kb])@, ctx)
}

/// The sequence cut definition: the parts cover the alphabet, for `i < j` every
/// activity of part `i` is ordered before every activity of part `j` (with the
/// parts `i..=j` as context), and adjacent parts share a non-divergent type.
pub open spec fn sequence_cut_valid(l: LocalData, g: GlobalData, p: Seq<Vec<String>>) -> bool {
    &&& covers_alphabet(p, l.alphabet@)
    &&& forall|i: int, j: int| 0 <= i < j < p.len() ==> #[trigger] parts_ordered(l, g, p[i]@, p[j]@, segment(p, i, j))
    &&& forall|i: int| 0 <= i < p.len() - 1 ==> #[trigger] shares_non_divergent(g, p[i]@, p[i + 1]@)
}

/// Whether `sequence_ordered` holds for `a` and `b` in `ctx`.
fn check_sequence_ordered(l: &LocalData, g: &GlobalData, a: &String, b: &String, ctx: &Vec<String>) -> (r: bool)
    requires
        l.wf(),
        g.wf(),
    ensures
        r == sequence_ordered(*l, *g, a@, b@, ctx@),
{
    let dv = get_divergent_types(a, b, ctx.as_slice(), g);
    let c1 = check_types_edge_keys(l, &dv, a, b);
    if !c1 {
        proof {
            let t = choose|t: Seq<char>| #[trigger] seq_has(dv@, t) && !(l.df_key(t, a@, b@) && l.df_key(t, b@, a@));
            assert(is_divergent_type(*g, a@, b@, ctx@, t));
        }
        return false;
    }
    let nd = get_non_divergent_types(a, b, ctx.as_slice(), g);
    let c2 = check_types_reach(l, &nd, a, b, true);
    proof {
        assert forall|t: Seq<char>| #[trigger] is_divergent_type(*g, a@, b@, ctx@, t) implies l.df_key(t, a@, b@) && l.df_key(t, b@, a@) by {
            assert(seq_has(dv@, t));
        }
        if c2 {
            assert forall|t: Seq<char>| #[trigger] is_non_divergent_type(*g, a@, b@, ctx@, t) implies
                l.has_clos(t) && l.reaches(t, a@, b@) && !l.reaches(t, b@, a@) by {
                assert(seq_has(nd@, t));
            }
        } else {
            let t = choose|t: Seq<char>| #[trigger] seq_has(nd@, t) && !(l.has_clos(t) && l.reaches(t, a@, b@) && (l.reaches(t, b@, a@) != true));
            assert(is_non_divergent_type(*g, a@, b@, ctx@, t));
        }
    }
    c2
}

/// Whether `parts_ordered` holds for `pi` and `pj` in `ctx`.
fn check_parts_ordered(l: &LocalData, g: &GlobalData, pi: &Vec<String>, pj: &Vec<String>, ctx: &Vec<String>) -> (r: bool)
    requires
        l.wf(),
        g.wf(),
    ensures
        r == parts_ordered(*l, *g, pi@, pj@, ctx@),
{
    let mut ka: usize = 0;
    while ka < pi.len()
        invariant
            0 <= ka <= pi.len(),
            forall|m: int, n: int| 0 <= m < ka && 0 <= n < pj@.len() ==>
                sequence_ordered(*l, *g, (#[trigger] pi@[m])@, (#[trigger] pj@[n])@, ctx@),
        decreases pi.len() - ka,
    {
        let mut kb: usize = 0;
        while kb < pj.len()
            invariant
                0 <= kb <= pj.len(),
                forall|m: int, n: int| 0 <= m < ka && 0 <= n < pj@.len() ==>
                    sequence_ordered(*l, *g, (#[trigger] pi@[m])@, (#[trigger] pj@[n])@, ctx@),
                forall|n: int| 0 <= n < kb ==> sequence_ordered(*l, *g, pi@[ka as int]@, (#[trigger] pj@[n])@, ctx@),
            decreases pj.len() - kb,
        {
            if !check_sequence_ordered(l, g, &pi[ka], &pj[kb], ctx) {
                return false;
            }
            kb += 1;
        }
        ka += 1;
    }
    true
}

/// Checks the sequence cut definition (Section 3.1, Eq. 23-25).
pub fn is_sequence_cut_valid(local_data: &LocalData, global_data: &GlobalData, partition_list: &[Vec<String>]) -> (r: bool)
    requires
        local_data.wf(),
        global_data.wf(),
    ensures
        r == sequence_cut_valid(*local_data, *global_data, partition_list@),
{
    if !partitions_cover_alphabet(partition_list, local_data.alphabet.as_slice()) {
        return false;
    }
    let p = partition_list;
    let mut i: usize = 0;
    while i < p.len()
        invariant
            0 <= i <= p.len(),
            forall|a: int, b: int| 0 <= a < i && a < b < p@.len() ==>
                #[trigger] parts_ordered(*local_data, *global_data, p@[a]@, p@[b]@, segment(p@, a, b)),
        decreases p.len() - i,
    {
        let mut j: usize = i + 1;
        while j < p.len()
            invariant
                i < p.len(),
                i + 1 <= j <= p.len(),
                forall|a: int, b: int| 0 <= a < i && a < b < p@.len() ==>
                    #[trigger] parts_ordered(*local_data, *global_data, p@[a]@, p@[b]@, segment(p@, a, b)),
                forall|b: int| i < b < j ==> #[trigger] parts_ordered(*local_data, *global_data, p@[i as int]@, p@[b]@, segment(p@, i as int, b)),
            decreases p.len() - j,
        {
            let seg = flatten_range(p, i, j);
            if !check_parts_ordered(local_data, global_data, &p[i], &p[j], &seg) {
                return false;
            }
            j += 1;
        }
        i += 1;
    }
    let mut k: usize = 0;
    let adjacent_pairs: usize = if p.len() > 0 { p.len() - 1 } else { 0 };
    while k < adjacent_pairs
        invariant
            k <= adjacent_pairs,
            adjacent_pairs == if p@.len() > 0 { p@.len() - 1 } else { 0 },
            forall|a: int| 0 <= a < k ==> #[trigger] shares_non_divergent(*global_data, p@[a]@, p@[a + 1]@),
        decreases adjacent_pairs - k,
    {
        if !check_shares_non_divergent(global_data, &p[k], &p[k + 1]) {
            return false;
        }
        k += 1;
    }
    true
}

} // verus!
