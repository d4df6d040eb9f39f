//! Agglomerative clustering: linkage methods and cutting a merge hierarchy.
use vstd::prelude::*;
use crate::text::{join3, str_eq, decimal, decimal_string};

verus! {

/// How the distance between two merged clusters is derived.
#[derive(Debug, Clone, Copy, PartialEq, Eq, Structural)]
pub enum LinkageMethod {
    Average,
    Complete,
    Single,
}

/// The text that names a linkage method.
pub open spec fn linkage_name(m: LinkageMethod) -> Seq<char> {
    match m {
        LinkageMethod::Average => "average"@,
        LinkageMethod::Complete => "complete"@,
        LinkageMethod::Single => "single"@,
    }
}

/// The message for an unknown linkage name.
pub open spec fn invalid_linkage_message(other: Seq<char>) -> Seq<char> {
    "Invalid linkage '"@ + other + "'. Allowed values are 'average', 'complete', and 'single'."@
}

/// Different linkage methods have different names, so parsing the name of a
/// method gives that method back.
pub proof fn lemma_linkage_names_distinct(m1: LinkageMethod, m2: LinkageMethod)
    requires
        linkage_name(m1) == linkage_name(m2),
    ensures
        m1 == m2,
{
    reveal_strlit("average");
    reveal_strlit("complete");
    reveal_strlit("single");
    assert("average"@.len() == 7);
    assert("complete"@.len() == 8);
    assert("single"@.len() == 6);
    assert(linkage_name(m1).len() == linkage_name(m2).len());
}

impl LinkageMethod {
    /// Parses a linkage name; no name means average linkage.
    pub fn parse(value: Option<&str>) -> (r: Result<Self, String>)
        ensures
            value is None ==> r == Ok::<Self, String>(LinkageMethod::Average),
            value matches Some(s) ==> match r {
                Ok(m) => s@ == linkage_name(m),
                Err(e) => e@ == invalid_linkage_message(s@) && s@ != "average"@ && s@ != "complete"@ && s@ != "single"@,
            },
    {
        match value {
            None => Ok(Self::Average),
            Some(s) => {
                if str_eq(s, "average") {
                    Ok(Self::Average)
                } else if str_eq(s, "complete") {
                    Ok(Self::Complete)
                } else if str_eq(s, "single") {
                    Ok(Self::Single)
                } else {
                    Err(join3("Invalid linkage '", s, "'. Allowed values are 'average', 'complete', and 'single'."))
                }
            },
        }
    }

    /// The name of the linkage method.
    pub fn as_str(self) -> (r: &'static str)
        ensures
            r@ == linkage_name(self),
    {
        match self {
            Self::Average => "average",
            Self::Complete => "complete",
            Self::Single => "single",
        }
    }
}

/// `a * b`, or `usize::MAX` where the product does not fit.
pub open spec fn saturating_product(a: usize, b: usize) -> usize {
    if a * b <= usize::MAX { (a * b) as usize } else { usize::MAX }
}

/// Number of entries of a condensed (upper-triangle) distance matrix for `n` cases.
pub fn condensed_distance_len(n: usize) -> (r: usize)
    ensures
        r == saturating_product(n, if n > 0 { (n - 1) as usize } else { 0 }) / 2,
{
    let m = n.saturating_sub(1);
    let product = match n.checked_mul(m) {
        Some(p) => p,
        None => usize::MAX,
    };
    product / 2
}

/// The pair with the smaller element first.
pub fn ordered_pair(left: usize, right: usize) -> (r: (usize, usize))
    ensures
        r.0 <= r.1,
        (r.0 == left && r.1 == right) || (r.0 == right && r.1 == left),
{
    if left < right {
        (left, right)
    } else {
        (right, left)
    }
}

/// One merge of a hierarchy: clusters `left` and `right` become cluster
/// `cluster_id` of `size` cases. (The merge distance stays with the caller.)
#[derive(Debug, Clone, Copy, PartialEq, Eq, Structural)]
pub struct LinkageRow {
    pub cluster_id: usize,
    pub left: usize,
    pub right: usize,
    pub size: usize,
}

/// Before any merge: cluster `c` holds case `c` alone, for each case below `n`.
pub open spec fn initial_clusters(n: nat) -> Map<usize, Set<usize>> {
    Map::new(|c: usize| c < n, |c: usize| set![c])
}

/// The message for a merge row whose left (or right) cluster `id` does not exist.
pub open spec fn missing_cluster_message(row: LinkageRow, left: bool, id: usize) -> Seq<char> {
    if left {
        "Invalid linkage row for cluster "@ + decimal(row.cluster_id as nat) + ": missing left cluster "@ + decimal(id as nat) + "."@
    } else {
        "Invalid linkage row for cluster "@ + decimal(row.cluster_id as nat) + ": missing right cluster "@ + decimal(id as nat) + "."@
    }
}

/// One merge applied to the clusters: the two are removed and their union is
/// stored under the new id (replacing a cluster of that id, if any).
pub open spec fn merge_step(m: Map<usize, Set<usize>>, row: LinkageRow) -> Result<Map<usize, Set<usize>>, Seq<char>> {
    if !m.contains_key(row.left) {
        Err(missing_cluster_message(row, true, row.left))
    } else if !m.remove(row.left).contains_key(row.right) {
        Err(missing_cluster_message(row, false, row.right))
    } else {
        Ok(m.remove(row.left).remove(row.right).insert(row.cluster_id, m[row.left] + m[row.right]))
    }
}

/// The clusters after the merges of `rows`, in order, or the first failure.
pub open spec fn apply_merges(n: nat, rows: Seq<LinkageRow>) -> Result<Map<usize, Set<usize>>, Seq<char>>
    decreases rows.len(),
{
    if rows.len() == 0 {
        Ok(initial_clusters(n))
    } else {
        match apply_merges(n, rows.drop_last()) {
            Err(e) => Err(e),
            Ok(m) => merge_step(m, rows.last()),
        }
    }
}

/// The position of cluster `key` among the clusters ordered by id.
pub open spec fn cluster_rank(m: Map<usize, Set<usize>>, key: usize) -> nat {
    m.dom().filter(|k: usize| k < key).len()
}

/// Case `c` is numbered by the rank of the cluster that holds it, or 0 if none does.
pub open spec fn numbered(m: Map<usize, Set<usize>>, a: Seq<usize>, c: usize) -> bool {
    if exists|key: usize| m.contains_key(key) && #[trigger] m[key].contains(c) {
        exists|key: usize| m.contains_key(key) && #[trigger] m[key].contains(c) && a[c as int] == cluster_rank(m, key)
    } else {
        a[c as int] == 0
    }
}

/// The clusters are finitely many, disjoint, and hold only cases below `n`.
pub open spec fn clusters_partition(m: Map<usize, Set<usize>>, n: nat) -> bool {
    &&& m.dom().finite()
    &&& forall|k: usize, c: usize| #[trigger] m.contains_key(k) && #[trigger] m[k].contains(c) ==> c < n
    &&& forall|k1: usize, k2: usize, c: usize| m.contains_key(k1) && m.contains_key(k2)
        && #[trigger] m[k1].contains(c) && #[trigger] m[k2].contains(c) ==> k1 == k2
}

pub open spec fn k_range_message(n: usize) -> Seq<char> {
    "k must be between 1 and the number of cases ("@ + decimal(n as nat) + ")."@
}

pub open spec fn too_few_rows_message(k: usize, rows: nat) -> Seq<char> {
    "Cannot cut hierarchy to k="@ + decimal(k as nat) + "; linkage has only "@ + decimal(rows) + " merge rows."@
}

/// Finitely many `usize` values lie below `n`.
pub proof fn lemma_below_finite(n: nat)
    ensures
        Set::new(|c: usize| c < n).finite(),
    decreases n,
{
    if n == 0 {
        assert(Set::new(|c: usize| c < n) =~= Set::<usize>::empty());
    } else if n > usize::MAX + 1 {
        lemma_below_finite((usize::MAX + 1) as nat);
        assert(Set::new(|c: usize| c < n) =~= Set::new(|c: usize| c < (usize::MAX + 1) as nat));
    } else {
        lemma_below_finite((n - 1) as nat);
        assert(Set::new(|c: usize| c < n) =~= Set::new(|c: usize| c < (n - 1) as nat).insert((n - 1) as usize));
    }
}

/// Merging keeps the clusters a partition of part of the cases.
pub proof fn lemma_merges_partition(n: nat, rows: Seq<LinkageRow>)
    ensures
        apply_merges(n, rows) matches Ok(m) ==> clusters_partition(m, n),
    decreases rows.len(),
{
    if rows.len() == 0 {
        let m = initial_clusters(n);
        assert(m.dom() =~= Set::new(|c: usize| c < n));
        lemma_below_finite(n);
    } else {
        lemma_merges_partition(n, rows.drop_last());
        match apply_merges(n, rows.drop_last()) {
            Err(_) => {},
            Ok(m) => {
                let row = rows.last();
                if m.contains_key(row.left) && m.remove(row.left).contains_key(row.right) {
                    let m2 = m.remove(row.left).remove(row.right).insert(row.cluster_id, m[row.left] + m[row.right]);
                    assert(m2.dom() =~= m.dom().remove(row.left).remove(row.right).insert(row.cluster_id));
                    assert forall|k1: usize, k2: usize, c: usize| m2.contains_key(k1) && m2.contains_key(k2)
                        && #[trigger] m2[k1].contains(c) && #[trigger] m2[k2].contains(c) implies k1 == k2 by {
                        if k1 == row.cluster_id && k2 != row.cluster_id {
                            assert(m[k2].contains(c));
                            if m[row.left].contains(c) {} else { assert(m[row.right].contains(c)); }
                        } else if k2 == row.cluster_id && k1 != row.cluster_id {
                            assert(m[k1].contains(c));
                            if m[row.left].contains(c) {} else { assert(m[row.right].contains(c)); }
                        }
                    }
                    assert forall|k: usize, c: usize| #[trigger] m2.contains_key(k) && #[trigger] m2[k].contains(c) implies c < n by {
                        if k == row.cluster_id {
                            if m[row.left].contains(c) {} else { assert(m[row.right].contains(c)); }
                        } else {
                            assert(m[k].contains(c));
                        }
                    }
                }
            },
        }
    }
}

/// Cluster ids occur at most once.
pub open spec fn cluster_ids_unique(cs: Seq<(usize, Vec<usize>)>) -> bool {
    forall|i: int, j: int| 0 <= i < cs.len() && 0 <= j < cs.len() && (#[trigger] cs[i]).0 == (#[trigger] cs[j]).0 ==> i == j
}

pub open spec fn has_cluster(cs: Seq<(usize, Vec<usize>)>, k: usize) -> bool {
    exists|i: int| 0 <= i < cs.len() && (#[trigger] cs[i]).0 == k
}

/// The clusters of a list of `(id, members)` as a map from id to member set.
pub open spec fn clusters_view(cs: Seq<(usize, Vec<usize>)>) -> Map<usize, Set<usize>> {
    Map::new(
        |k: usize| has_cluster(cs, k),
        |k: usize| cs[choose|i: int| 0 <= i < cs.len() && (#[trigger] cs[i]).0 == k].1@.to_set(),
    )
}

proof fn lemma_view_at(cs: Seq<(usize, Vec<usize>)>, i: int)
    requires
        cluster_ids_unique(cs),
        0 <= i < cs.len(),
    ensures
        clusters_view(cs).contains_key(cs[i].0),
        clusters_view(cs)[cs[i].0] == cs[i].1@.to_set(),
{
    assert(has_cluster(cs, cs[i].0));
    let j = choose|j: int| 0 <= j < cs.len() && (#[trigger] cs[j]).0 == cs[i].0;
    assert(j == i);
}

proof fn lemma_remove_cluster(cs: Seq<(usize, Vec<usize>)>, i: int)
    requires
        cluster_ids_unique(cs),
        0 <= i < cs.len(),
    ensures
        cluster_ids_unique(cs.remove(i)),
        clusters_view(cs.remove(i)) == clusters_view(cs).remove(cs[i].0),
{
    let r = cs.remove(i);
    assert forall|a: int, b: int| 0 <= a < r.len() && 0 <= b < r.len() && (#[trigger] r[a]).0 == (#[trigger] r[b]).0 implies a == b by {
        let a2 = if a < i { a } else { a + 1 };
        let b2 = if b < i { b } else { b + 1 };
        assert(r[a] == cs[a2] && r[b] == cs[b2]);
    }
    let v = clusters_view(cs);
    let w = clusters_view(r);
    assert forall|k: usize| w.contains_key(k) <==> v.remove(cs[i].0).contains_key(k) by {
        if w.contains_key(k) {
            let a = choose|a: int| 0 <= a < r.len() && (#[trigger] r[a]).0 == k;
            let a2 = if a < i { a } else { a + 1 };
            assert(r[a] == cs[a2]);
            assert(has_cluster(cs, k));
        }
        if v.remove(cs[i].0).contains_key(k) {
            let a = choose|a: int| 0 <= a < cs.len() && (#[trigger] cs[a]).0 == k;
            assert(a != i);
            let a2 = if a < i { a } else { a - 1 };
            assert(r[a2] == cs[a]);
            assert(has_cluster(r, k));
        }
    }
    assert forall|k: usize| #[trigger] w.contains_key(k) implies w[k] == v[k] by {
        let a = choose|a: int| 0 <= a < r.len() && (#[trigger] r[a]).0 == k;
        let a2 = if a < i { a } else { a + 1 };
        assert(r[a] == cs[a2]);
        lemma_view_at(r, a);
        lemma_view_at(cs, a2);
    }
    assert(w =~= v.remove(cs[i].0));
}

/// Position of cluster `k`, if present.
fn find_cluster(cs: &Vec<(usize, Vec<usize>)>, k: usize) -> (r: Option<usize>)
    ensures
        r matches Some(i) ==> i < cs@.len() && cs@[i as int].0 == k,
        r is None ==> !has_cluster(cs@, k),
{
    let mut i: usize = 0;
    while i < cs.len()
        invariant
            0 <= i <= cs@.len(),
            forall|q: int| 0 <= q < i ==> (#[trigger] cs@[q]).0 != k,
        decreases cs@.len() - i,
    {
        if cs[i].0 == k {
            return Some(i);
        }
        i += 1;
    }
    None
}

/// Stores `members` as cluster `k`, replacing a cluster of that id.
fn put_cluster(cs: &mut Vec<(usize, Vec<usize>)>, k: usize, members: Vec<usize>)
    requires
        cluster_ids_unique(old(cs)@),
    ensures
        cluster_ids_unique(final(cs)@),
        clusters_view(final(cs)@) == clusters_view(old(cs)@).insert(k, members@.to_set()),
{
    let ghost before = cs@;
    let ghost mset = members@.to_set();
    match find_cluster(cs, k) {
        Some(i) => {
            cs.set(i, (k, members));
            proof {
                assert forall|a: int, b: int| 0 <= a < cs@.len() && 0 <= b < cs@.len() && (#[trigger] cs@[a]).0 == (#[trigger] cs@[b]).0 implies a == b by {
                    assert(cs@[a].0 == before[a].0 && cs@[b].0 == before[b].0);
                }
                let v = clusters_view(before);
                let w = clusters_view(cs@);
                assert forall|x: usize| w.contains_key(x) <==> v.insert(k, mset).contains_key(x) by {
                    if w.contains_key(x) {
                        let a = choose|a: int| 0 <= a < cs@.len() && (#[trigger] cs@[a]).0 == x;
                        assert(before[a].0 == x);
                    }
                    if v.contains_key(x) {
                        let a = choose|a: int| 0 <= a < before.len() && (#[trigger] before[a]).0 == x;
                        assert(cs@[a].0 == x);
                    }
                    if x == k {
                        assert(cs@[i as int].0 == k);
                    }
                }
                assert forall|x: usize| #[trigger] w.contains_key(x) implies w[x] == v.insert(k, mset)[x] by {
                    let a = choose|a: int| 0 <= a < cs@.len() && (#[trigger] cs@[a]).0 == x;
                    lemma_view_at(cs@, a);
                    if a != i {
                        assert(cs@[a] == before[a]);
                        lemma_view_at(before, a);
                    }
                }
                assert(w =~= v.insert(k, mset));
            }
        },
        None => {
            cs.push((k, members));
            proof {
                assert forall|a: int, b: int| 0 <= a < cs@.len() && 0 <= b < cs@.len() && (#[trigger] cs@[a]).0 == (#[trigger] cs@[b]).0 implies a == b by {
                    if a < before.len() && b < before.len() {
                        assert(cs@[a] == before[a] && cs@[b] == before[b]);
                    } else if a < before.len() {
                        assert(cs@[a] == before[a]);
                        assert(has_cluster(before, k));
                    } else if b < before.len() {
                        assert(cs@[b] == before[b]);
                        assert(has_cluster(before, k));
                    }
                }
                let v = clusters_view(before);
                let w = clusters_view(cs@);
                assert forall|x: usize| w.contains_key(x) <==> v.insert(k, mset).contains_key(x) by {
                    if w.contains_key(x) {
                        let a = choose|a: int| 0 <= a < cs@.len() && (#[trigger] cs@[a]).0 == x;
                        if a < before.len() {
                            assert(cs@[a] == before[a]);
                        }
                    }
                    if v.contains_key(x) {
                        let a = choose|a: int| 0 <= a < before.len() && (#[trigger] before[a]).0 == x;
                        assert(cs@[a] == before[a]);
                    }
                    if x == k {
                        assert(cs@[before.len() as int].0 == k);
                    }
                }
                assert forall|x: usize| #[trigger] w.contains_key(x) implies w[x] == v.insert(k, mset)[x] by {
                    let a = choose|a: int| 0 <= a < cs@.len() && (#[trigger] cs@[a]).0 == x;
                    lemma_view_at(cs@, a);
                    if a < before.len() {
                        assert(cs@[a] == before[a]);
                        lemma_view_at(before, a);
                    }
                }
                assert(w =~= v.insert(k, mset));
            }
        },
    }
}

/// The number of clusters whose id is below `key`.
fn count_ids_below(cs: &Vec<(usize, Vec<usize>)>, key: usize) -> (r: usize)
    requires
        cluster_ids_unique(cs@),
    ensures
        r == cluster_rank(clusters_view(cs@), key),
{
    let ghost v = clusters_view(cs@);
    let mut count: usize = 0;
    let mut i: usize = 0;
    assert(Set::new(|k: usize| exists|q: int| 0 <= q < 0 && (#[trigger] cs@[q]).0 == k && k < key) =~= Set::<usize>::empty());
    while i < cs.len()
        invariant
            0 <= i <= cs@.len(),
            cluster_ids_unique(cs@),
            Set::new(|k: usize| exists|q: int| 0 <= q < i && (#[trigger] cs@[q]).0 == k && k < key).finite(),
            count == Set::new(|k: usize| exists|q: int| 0 <= q < i && (#[trigger] cs@[q]).0 == k && k < key).len(),
            count <= i,
        decreases cs@.len() - i,
    {
        let ghost s0 = Set::new(|k: usize| exists|q: int| 0 <= q < i && (#[trigger] cs@[q]).0 == k && k < key);
        let ghost s1 = Set::new(|k: usize| exists|q: int| 0 <= q < i + 1 && (#[trigger] cs@[q]).0 == k && k < key);
        if cs[i].0 < key {
            proof {
                assert(s1 =~= s0.insert(cs@[i as int].0)) by {
                    assert forall|k: usize| s1.contains(k) implies s0.insert(cs@[i as int].0).contains(k) by {
                        let q = choose|q: int| 0 <= q < i + 1 && (#[trigger] cs@[q]).0 == k && k < key;
                        if q < i {
                            assert(s0.contains(k));
                        }
                    }
                    assert forall|k: usize| s0.insert(cs@[i as int].0).contains(k) implies s1.contains(k) by {
                        if k != cs@[i as int].0 {
                            let q = choose|q: int| 0 <= q < i && (#[trigger] cs@[q]).0 == k && k < key;
                            assert(0 <= q < i + 1);
                        }
                    }
                }
                assert(!s0.contains(cs@[i as int].0)) by {
                    if s0.contains(cs@[i as int].0) {
                        let q = choose|q: int| 0 <= q < i && (#[trigger] cs@[q]).0 == cs@[i as int].0 && cs@[i as int].0 < key;
                    }
                }
            }
            count += 1;
        } else {
            proof {
                assert(s1 =~= s0) by {
                    assert forall|k: usize| s1.contains(k) implies s0.contains(k) by {
                        let q = choose|q: int| 0 <= q < i + 1 && (#[trigger] cs@[q]).0 == k && k < key;
                        assert(q < i);
                    }
                }
            }
        }
        i += 1;
    }
    proof {
        assert(Set::new(|k: usize| exists|q: int| 0 <= q < i && (#[trigger] cs@[q]).0 == k && k < key) =~= v.dom().filter(|k: usize| k < key));
    }
    count
}

proof fn lemma_merge_err_stays(n: nat, rows: Seq<LinkageRow>, a: int, b: int)
    requires
        0 <= a <= b <= rows.len(),
        apply_merges(n, rows.take(a)) is Err,
    ensures
        apply_merges(n, rows.take(b)) == apply_merges(n, rows.take(a)),
    decreases b - a,
{
    if b > a {
        lemma_merge_err_stays(n, rows, a, b - 1);
        assert(rows.take(b).drop_last() =~= rows.take(b - 1));
    }
}

/// Cuts the merge hierarchy of `n` cases into `k` clusters by applying its first
/// `n - k` merges, and numbers each case by the position of its cluster among the
/// remaining clusters ordered by id.
pub fn cut_linkage_assignments(n: usize, linkage: &Vec<LinkageRow>, k: usize) -> (r: Result<Vec<usize>, String>)
    ensures
        (k == 0 || k > n) ==> (r matches Err(e) && e@ == k_range_message(n)),
        !(k == 0 || k > n) && n - k > linkage@.len() ==> (r matches Err(e) && e@ == too_few_rows_message(k, linkage@.len())),
        !(k == 0 || k > n) && n - k <= linkage@.len() ==> match apply_merges(n as nat, linkage@.take(n - k)) {
            Err(msg) => r matches Err(e) && e@ == msg,
            Ok(m) => r matches Ok(a) && a@.len() == n && forall|c: usize| c < n ==> numbered(m, a@, c),
        },
{
    if k == 0 || k > n {
        return Err(join3("k must be between 1 and the number of cases (", decimal_string(n).as_str(), ")."));
    }
    let merges_to_apply = n - k;
    if merges_to_apply > linkage.len() {
        let head = join3("Cannot cut hierarchy to k=", decimal_string(k).as_str(), "; linkage has only ");
        return Err(join3(head.as_str(), decimal_string(linkage.len()).as_str(), " merge rows."));
    }
    let ghost rows = linkage@;
    // each case starts in a cluster of its own
    let mut clusters: Vec<(usize, Vec<usize>)> = Vec::new();
    let mut c: usize = 0;
    while c < n
        invariant
            0 <= c <= n,
            clusters@.len() == c,
            forall|q: int| 0 <= q < c ==> (#[trigger] clusters@[q]).0 == q && clusters@[q].1@ == seq![q as usize],
        decreases n - c,
    {
        let mut members: Vec<usize> = Vec::new();
        members.push(c);
        clusters.push((c, members));
        c += 1;
    }
    proof {
        assert forall|a: int, b: int| 0 <= a < clusters@.len() && 0 <= b < clusters@.len() && (#[trigger] clusters@[a]).0 == (#[trigger] clusters@[b]).0 implies a == b by {}
        let v = clusters_view(clusters@);
        assert forall|x: usize| #[trigger] v.contains_key(x) <==> initial_clusters(n as nat).contains_key(x) by {
            if x < n {
                assert(clusters@[x as int].0 == x);
            }
        }
        assert forall|x: usize| #[trigger] v.contains_key(x) implies v[x] == initial_clusters(n as nat)[x] by {
            lemma_view_at(clusters@, x as int);
            assert(seq![x].to_set() =~= set![x]) by {
                assert(seq![x][0] == x);
            }
        }
        assert(v =~= initial_clusters(n as nat));
        assert(rows.take(0) =~= Seq::<LinkageRow>::empty());
    }
    let mut r: usize = 0;
    while r < merges_to_apply
        invariant
            0 <= r <= merges_to_apply,
            merges_to_apply <= rows.len(),
            rows == linkage@,
            cluster_ids_unique(clusters@),
            apply_merges(n as nat, rows.take(r as int)) == Ok::<Map<usize, Set<usize>>, Seq<char>>(clusters_view(clusters@)),
        decreases merges_to_apply - r,
    {
        let row = linkage[r];
        let ghost v = clusters_view(clusters@);
        proof {
            assert(rows.take(r + 1).drop_last() =~= rows.take(r as int));
            assert(rows.take(r + 1).last() == row);
        }
        let li = match find_cluster(&clusters, row.left) {
            Some(i) => i,
            None => {
                let head = join3("Invalid linkage row for cluster ", decimal_string(row.cluster_id).as_str(), ": missing left cluster ");
                proof {
                    lemma_merge_err_stays(n as nat, rows, r + 1, merges_to_apply as int);
                }
                return Err(join3(head.as_str(), decimal_string(row.left).as_str(), "."));
            },
        };
        let ghost before_left = clusters@;
        proof {
            lemma_view_at(before_left, li as int);
            lemma_remove_cluster(before_left, li as int);
        }
        let (_left_id, mut left_members) = clusters.remove(li);
        proof {
            assert(clusters@ == before_left.remove(li as int));
        }
        let ri = match find_cluster(&clusters, row.right) {
            Some(i) => i,
            None => {
                let head = join3("Invalid linkage row for cluster ", decimal_string(row.cluster_id).as_str(), ": missing right cluster ");
                proof {
                    lemma_merge_err_stays(n as nat, rows, r + 1, merges_to_apply as int);
                }
                return Err(join3(head.as_str(), decimal_string(row.right).as_str(), "."));
            },
        };
        let ghost before_right = clusters@;
        proof {
            lemma_view_at(before_right, ri as int);
            lemma_remove_cluster(before_right, ri as int);
        }
        let (_right_id, mut right_members) = clusters.remove(ri);
        let ghost lm = left_members@;
        let ghost rm = right_members@;
        left_members.append(&mut right_members);
        proof {
            assert(clusters@ == before_right.remove(ri as int));
            assert(left_members@.to_set() =~= lm.to_set() + rm.to_set()) by {
                assert(left_members@ =~= lm + rm);
                assert forall|x: usize| left_members@.to_set().contains(x) implies (lm.to_set() + rm.to_set()).contains(x) by {
                    let q = choose|q: int| 0 <= q < left_members@.len() && left_members@[q] == x;
                    if q < lm.len() {
                        assert(lm[q] == x);
                    } else {
                        assert(rm[q - lm.len()] == x);
                    }
                }
                assert forall|x: usize| (lm.to_set() + rm.to_set()).contains(x) implies left_members@.to_set().contains(x) by {
                    if lm.to_set().contains(x) {
                        let q = choose|q: int| 0 <= q < lm.len() && lm[q] == x;
                        assert(left_members@[q] == x);
                    } else {
                        let q = choose|q: int| 0 <= q < rm.len() && rm[q] == x;
                        assert(left_members@[q + lm.len()] == x);
                    }
                }
            }
        }
        put_cluster(&mut clusters, row.cluster_id, left_members);
        r += 1;
    }
    let ghost m = clusters_view(clusters@);
    proof {
        lemma_merges_partition(n as nat, rows.take(merges_to_apply as int));
    }
    // number each case by the rank of its cluster
    let mut assignments: Vec<usize> = Vec::new();
    let mut c: usize = 0;
    while c < n
        invariant
            0 <= c <= n,
            assignments@.len() == c,
            forall|q: int| 0 <= q < c ==> assignments@[q] == 0,
        decreases n - c,
    {
        assignments.push(0);
        c += 1;
    }
    let mut idx: usize = 0;
    while idx < clusters.len()
        invariant
            0 <= idx <= clusters@.len(),
            assignments@.len() == n,
            cluster_ids_unique(clusters@),
            m == clusters_view(clusters@),
            clusters_partition(m, n as nat),
            forall|q: int, x: usize| 0 <= q < idx && #[trigger] clusters@[q].1@.contains(x)
                ==> x < n && assignments@[x as int] == cluster_rank(m, clusters@[q].0),
            forall|x: usize| x < n && !(exists|q: int| 0 <= q < idx && #[trigger] clusters@[q].1@.contains(x))
                ==> assignments@[x as int] == 0,
        decreases clusters@.len() - idx,
    {
        let rank = count_ids_below(&clusters, clusters[idx].0);
        proof {
            lemma_view_at(clusters@, idx as int);
        }
        let members = &clusters[idx].1;
        let mut j: usize = 0;
        while j < members.len()
            invariant
                0 <= idx < clusters@.len(),
                0 <= j <= members@.len(),
                members@ == clusters@[idx as int].1@,
                assignments@.len() == n,
                cluster_ids_unique(clusters@),
                m == clusters_view(clusters@),
                clusters_partition(m, n as nat),
                m[clusters@[idx as int].0] == members@.to_set(),
                m.contains_key(clusters@[idx as int].0),
                rank == cluster_rank(m, clusters@[idx as int].0),
                forall|q: int, x: usize| 0 <= q < idx && #[trigger] clusters@[q].1@.contains(x)
                    ==> x < n && assignments@[x as int] == cluster_rank(m, clusters@[q].0),
                forall|jj: int| 0 <= jj < j ==> (#[trigger] members@[jj]) < n && assignments@[members@[jj] as int] == rank,
                forall|x: usize| x < n && !(exists|q: int| 0 <= q < idx && #[trigger] clusters@[q].1@.contains(x))
                    && !(exists|jj: int| 0 <= jj < j && (#[trigger] members@[jj]) == x)
                    ==> assignments@[x as int] == 0,
            decreases members@.len() - j,
        {
            let case_idx = members[j];
            proof {
                assert(members@.to_set().contains(case_idx));
            }
            if case_idx >= n {
                let head = join3("Invalid linkage contains case index ", decimal_string(case_idx).as_str(), ", but there are only ");
                return Err(join3(head.as_str(), decimal_string(n).as_str(), " cases."));
            }
            proof {
                // no earlier cluster holds this case
                assert forall|q: int| 0 <= q < idx implies !#[trigger] clusters@[q].1@.contains(case_idx) by {
                    if clusters@[q].1@.contains(case_idx) {
                        lemma_view_at(clusters@, q);
                        assert(m[clusters@[q].0].contains(case_idx));
                    }
                }
            }
            assignments.set(case_idx, rank);
            proof {
                assert forall|q: int, x: usize| 0 <= q < idx && #[trigger] clusters@[q].1@.contains(x)
                    implies x < n && assignments@[x as int] == cluster_rank(m, clusters@[q].0) by {
                    assert(x != case_idx);
                }
                assert forall|x: usize| x < n && !(exists|q: int| 0 <= q < idx && #[trigger] clusters@[q].1@.contains(x))
                    && !(exists|jj: int| 0 <= jj < j + 1 && (#[trigger] members@[jj]) == x)
                    implies assignments@[x as int] == 0 by {
                    assert(x != members@[j as int]);
                }
            }
            j += 1;
        }
        proof {
            assert forall|q: int, x: usize| 0 <= q < idx + 1 && #[trigger] clusters@[q].1@.contains(x)
                implies x < n && assignments@[x as int] == cluster_rank(m, clusters@[q].0) by {
                if q == idx {
                    let jj = choose|jj: int| 0 <= jj < members@.len() && members@[jj] == x;
                }
            }
            assert forall|x: usize| x < n && !(exists|q: int| 0 <= q < idx + 1 && #[trigger] clusters@[q].1@.contains(x))
                implies assignments@[x as int] == 0 by {
                if exists|jj: int| 0 <= jj < j && (#[trigger] members@[jj]) == x {
                    let jj = choose|jj: int| 0 <= jj < j && (#[trigger] members@[jj]) == x;
                    assert(clusters@[idx as int].1@.contains(x));
                }
            }
        }
        idx += 1;
    }
    proof {
        assert forall|x: usize| x < n implies numbered(m, assignments@, x) by {
            if exists|key: usize| m.contains_key(key) && #[trigger] m[key].contains(x) {
                let key = choose|key: usize| m.contains_key(key) && #[trigger] m[key].contains(x);
                let q = choose|q: int| 0 <= q < clusters@.len() && (#[trigger] clusters@[q]).0 == key;
                lemma_view_at(clusters@, q);
                assert(clusters@[q].1@.contains(x));
            } else {
                if exists|q: int| 0 <= q < idx && #[trigger] clusters@[q].1@.contains(x) {
                    let q = choose|q: int| 0 <= q < idx && #[trigger] clusters@[q].1@.contains(x);
                    lemma_view_at(clusters@, q);
                    assert(m[clusters@[q].0].contains(x));
                }
            }
        }
    }
    Ok(assignments)
}

/// A cluster of a smaller id comes before one of a larger id.
proof fn lemma_rank_increases(m: Map<usize, Set<usize>>, k1: usize, k2: usize)
    requires
        m.dom().finite(),
        m.contains_key(k1),
        k1 < k2,
    ensures
        cluster_rank(m, k1) < cluster_rank(m, k2),
        cluster_rank(m, k2) <= m.dom().len(),
{
    let f1 = m.dom().filter(|k: usize| k < k1);
    let f2 = m.dom().filter(|k: usize| k < k2);
    assert(f1.insert(k1).subset_of(f2));
    assert(!f1.contains(k1));
    vstd::set_lib::lemma_len_subset(f1.insert(k1), f2);
    vstd::set_lib::lemma_len_subset(f2, m.dom());
}

/// Cluster ranks are below the number of clusters.
proof fn lemma_rank_below(m: Map<usize, Set<usize>>, k: usize)
    requires
        m.dom().finite(),
        m.contains_key(k),
    ensures
        cluster_rank(m, k) < m.dom().len(),
{
    let f = m.dom().filter(|x: usize| x < k);
    assert(f.subset_of(m.dom().remove(k)));
    vstd::set_lib::lemma_len_subset(f, m.dom().remove(k));
}

/// Where the clusters partition the cases and every case is numbered, two cases
/// held by clusters get the same number exactly when one cluster holds both, and
/// every such number is below the number of clusters.
pub proof fn lemma_cut_numbers_separate(m: Map<usize, Set<usize>>, n: nat, a: Seq<usize>, c1: usize, c2: usize)
    requires
        clusters_partition(m, n),
        a.len() == n,
        forall|c: usize| c < n ==> numbered(m, a, c),
        c1 < n,
        c2 < n,
        exists|key: usize| m.contains_key(key) && #[trigger] m[key].contains(c1),
        exists|key: usize| m.contains_key(key) && #[trigger] m[key].contains(c2),
    ensures
        a[c1 as int] == a[c2 as int] <==> exists|key: usize| m.contains_key(key) && #[trigger] m[key].contains(c1) && m[key].contains(c2),
        (a[c1 as int] as int) < m.dom().len(),
{
    assert(numbered(m, a, c1));
    assert(numbered(m, a, c2));
    let k1 = choose|key: usize| m.contains_key(key) && #[trigger] m[key].contains(c1) && a[c1 as int] == cluster_rank(m, key);
    let k2 = choose|key: usize| m.contains_key(key) && #[trigger] m[key].contains(c2) && a[c2 as int] == cluster_rank(m, key);
    lemma_rank_below(m, k1);
    if k1 < k2 {
        lemma_rank_increases(m, k1, k2);
    } else if k2 < k1 {
        lemma_rank_increases(m, k2, k1);
    }
    if exists|key: usize| m.contains_key(key) && #[trigger] m[key].contains(c1) && m[key].contains(c2) {
        let key = choose|key: usize| m.contains_key(key) && #[trigger] m[key].contains(c1) && m[key].contains(c2);
        assert(m[k1].contains(c1) && m[key].contains(c1));
        assert(m[k2].contains(c2) && m[key].contains(c2));
    }
    if k1 == k2 {
        assert(m[k1].contains(c1) && m[k1].contains(c2));
    }
}

/// Each row merges two different clusters that exist at that point into a
/// cluster whose id is not in use.
pub open spec fn fresh_merges(n: nat, rows: Seq<LinkageRow>) -> bool {
    forall|i: int| 0 <= i < rows.len() ==> ((#[trigger] apply_merges(n, rows.take(i))) matches Ok(m)
        && m.contains_key(rows[i].left) && m.contains_key(rows[i].right) && rows[i].left != rows[i].right
        && !m.contains_key(rows[i].cluster_id))
}

/// Some cluster holds case `c`.
pub open spec fn in_some_cluster(m: Map<usize, Set<usize>>, c: usize) -> bool {
    exists|key: usize| m.contains_key(key) && #[trigger] m[key].contains(c)
}

/// Every case below `n` lies in some cluster.
pub open spec fn covers_cases(m: Map<usize, Set<usize>>, n: nat) -> bool {
    forall|c: usize| c < n ==> #[trigger] in_some_cluster(m, c)
}

/// Merges of fresh clusters succeed, each one leaving one cluster fewer, and
/// every case stays in a cluster.
pub proof fn lemma_fresh_merges(n: nat, rows: Seq<LinkageRow>)
    requires
        fresh_merges(n, rows),
        n <= usize::MAX + 1,
    ensures
        (apply_merges(n, rows) matches Ok(m) && m.dom().len() + rows.len() == n && covers_cases(m, n)),
    decreases rows.len(),
{
    if rows.len() == 0 {
        let m = initial_clusters(n);
        assert(m.dom() =~= Set::new(|c: usize| c < n));
        lemma_below_count(n);
        assert forall|c: usize| c < n implies #[trigger] in_some_cluster(m, c) by {
            assert(m[c].contains(c));
        }
    } else {
        let d = rows.drop_last();
        assert forall|i: int| 0 <= i < d.len() implies ((#[trigger] apply_merges(n, d.take(i))) matches Ok(m)
            && m.contains_key(d[i].left) && m.contains_key(d[i].right) && d[i].left != d[i].right
            && !m.contains_key(d[i].cluster_id)) by {
            assert(d.take(i) =~= rows.take(i));
            assert(apply_merges(n, rows.take(i)) is Ok);
        }
        lemma_fresh_merges(n, d);
        lemma_merges_partition(n, d);
        let i = rows.len() - 1;
        assert(rows.take(i) =~= d);
        assert(apply_merges(n, rows.take(i)) is Ok);
        let m = apply_merges(n, d)->Ok_0;
        let row = rows.last();
        assert(m.contains_key(row.left) && m.contains_key(row.right) && row.left != row.right && !m.contains_key(row.cluster_id));
        let m2 = m.remove(row.left).remove(row.right).insert(row.cluster_id, m[row.left] + m[row.right]);
        assert(apply_merges(n, rows) == merge_step(m, row));
        assert(m2.dom() =~= m.dom().remove(row.left).remove(row.right).insert(row.cluster_id));
        assert(m.dom().finite());
        assert(m.dom().remove(row.left).len() == m.dom().len() - 1);
        assert(m.dom().remove(row.left).remove(row.right).len() == m.dom().len() - 2);
        assert(!m.dom().remove(row.left).remove(row.right).contains(row.cluster_id));
        assert forall|c: usize| c < n implies #[trigger] in_some_cluster(m2, c) by {
            assert(in_some_cluster(m, c));
            let key = choose|key: usize| m.contains_key(key) && #[trigger] m[key].contains(c);
            if key == row.left || key == row.right {
                assert(m2[row.cluster_id].contains(c));
            } else {
                assert(m2[key] == m[key]);
                assert(m2[key].contains(c));
            }
        }
    }
}

/// There are `n` values of `usize` below `n`.
proof fn lemma_below_count(n: nat)
    requires
        n <= usize::MAX + 1,
    ensures
        Set::new(|c: usize| c < n).len() == n,
    decreases n,
{
    if n == 0 {
        assert(Set::new(|c: usize| c < n) =~= Set::<usize>::empty());
    } else {
        lemma_below_count((n - 1) as nat);
        lemma_below_finite((n - 1) as nat);
        assert(Set::new(|c: usize| c < n) =~= Set::new(|c: usize| c < (n - 1) as nat).insert((n - 1) as usize));
    }
}

/// Cutting with fresh merges leaves exactly `k` clusters that hold every case,
/// and the numbers the cut gives are below `k`, equal exactly for cases of one cluster.
pub proof fn lemma_cut_gives_k_clusters(n: nat, rows: Seq<LinkageRow>, k: nat, a: Seq<usize>, c1: usize, c2: usize)
    requires
        1 <= k <= n,
        n <= usize::MAX,
        n - k <= rows.len(),
        fresh_merges(n, rows.take(n - k)),
        (apply_merges(n, rows.take(n - k)) matches Ok(m) && a.len() == n && forall|c: usize| c < n ==> numbered(m, a, c)),
        c1 < n,
        c2 < n,
    ensures
        (apply_merges(n, rows.take(n - k)) matches Ok(m) && m.dom().len() == k
            && (a[c1 as int] as int) < k
            && (a[c1 as int] == a[c2 as int] <==> exists|key: usize| m.contains_key(key) && #[trigger] m[key].contains(c1) && m[key].contains(c2))),
{
    let t = rows.take(n - k);
    lemma_fresh_merges(n, t);
    lemma_merges_partition(n, t);
    let m = apply_merges(n, t)->Ok_0;
    assert(in_some_cluster(m, c1));
    assert(in_some_cluster(m, c2));
    lemma_cut_numbers_separate(m, n, a, c1, c2);
}

/// Row `i` cannot be applied to the clusters `m` left by the rows before it:
/// its left cluster is not alive, or its right cluster is the left one or not alive.
pub open spec fn row_fails(m: Map<usize, Set<usize>>, row: LinkageRow) -> bool {
    !m.contains_key(row.left) || !m.remove(row.left).contains_key(row.right)
}

/// The merges fail exactly when some row, applied after the rows before it
/// succeeded, names a left cluster that is not alive, or a right cluster that
/// is the left one or not alive.
pub proof fn lemma_merges_fail_exactly(n: nat, rows: Seq<LinkageRow>)
    ensures
        apply_merges(n, rows) is Err <==> exists|i: int| 0 <= i < rows.len()
            && (#[trigger] apply_merges(n, rows.take(i))) is Ok && row_fails(apply_merges(n, rows.take(i))->Ok_0, rows[i]),
    decreases rows.len(),
{
    if rows.len() > 0 {
        let d = rows.drop_last();
        lemma_merges_fail_exactly(n, d);
        let last = rows.len() - 1;
        assert(rows.take(last) =~= d);
        assert forall|i: int| 0 <= i < d.len() implies #[trigger] rows.take(i) == d.take(i) by {
            assert(rows.take(i) =~= d.take(i));
        }
        if apply_merges(n, d) is Err {
            let i = choose|i: int| 0 <= i < d.len()
                && (#[trigger] apply_merges(n, d.take(i))) is Ok && row_fails(apply_merges(n, d.take(i))->Ok_0, d[i]);
            assert(rows.take(i) == d.take(i));
            assert(apply_merges(n, rows.take(i)) is Ok && row_fails(apply_merges(n, rows.take(i))->Ok_0, rows[i]));
        } else {
            if exists|i: int| 0 <= i < rows.len()
                && (#[trigger] apply_merges(n, rows.take(i))) is Ok && row_fails(apply_merges(n, rows.take(i))->Ok_0, rows[i]) {
                let i = choose|i: int| 0 <= i < rows.len()
                    && (#[trigger] apply_merges(n, rows.take(i))) is Ok && row_fails(apply_merges(n, rows.take(i))->Ok_0, rows[i]);
                if i < last {
                    assert(rows.take(i) == d.take(i));
                    assert(apply_merges(n, d.take(i)) is Ok && row_fails(apply_merges(n, d.take(i))->Ok_0, d[i]));
                }
            }
            if apply_merges(n, rows) is Err {
                assert(apply_merges(n, rows.take(last)) is Ok && row_fails(apply_merges(n, rows.take(last))->Ok_0, rows[last]));
            }
        }
    }
}

} // verus!
