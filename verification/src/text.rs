//! Comparing and building text.
use vstd::prelude::*;
use crate::ocim::model::{seq_has, strings_unique};

verus! {

/// Whether the two strings hold the same characters.
pub fn str_eq(a: &str, b: &str) -> (r: bool)
    ensures
        r == (a@ == b@),
{
    let n = a.unicode_len();
    if n != b.unicode_len() {
        return false;
    }
    let mut i: usize = 0;
    while i < n
        invariant
            0 <= i <= n,
            n == a@.len(),
            n == b@.len(),
            forall|k: int| 0 <= k < i ==> a@[k] == b@[k],
        decreases n - i,
    {
        if a.get_char(i) != b.get_char(i) {
            return false;
        }
        i += 1;
    }
    assert(a@ =~= b@);
    true
}

/// A new string holding `a`, `b` and `c` in order.
pub fn join3(a: &str, b: &str, c: &str) -> (r: String)
    ensures
        r@ == a@ + b@ + c@,
{
    let mut s = String::from_str(a);
    s.append(b);
    s.append(c);
    s
}


/// The order of Rust strings: lexicographic on characters (by code point), a
/// proper prefix first.
pub open spec fn lex_lt(a: Seq<char>, b: Seq<char>) -> bool
    decreases a.len(),
{
    if a.len() == 0 {
        b.len() > 0
    } else if b.len() == 0 {
        false
    } else if a[0] != b[0] {
        (a[0] as int) < (b[0] as int)
    } else {
        lex_lt(a.drop_first(), b.drop_first())
    }
}

pub proof fn lemma_lex_irreflexive(a: Seq<char>)
    ensures
        !lex_lt(a, a),
    decreases a.len(),
{
    if a.len() > 0 {
        lemma_lex_irreflexive(a.drop_first());
    }
}

pub proof fn lemma_lex_asymmetric(a: Seq<char>, b: Seq<char>)
    ensures
        !(lex_lt(a, b) && lex_lt(b, a)),
    decreases a.len(),
{
    if a.len() > 0 && b.len() > 0 && a[0] == b[0] {
        lemma_lex_asymmetric(a.drop_first(), b.drop_first());
    }
}

pub proof fn lemma_lex_transitive(a: Seq<char>, b: Seq<char>, c: Seq<char>)
    requires
        lex_lt(a, b),
        lex_lt(b, c),
    ensures
        lex_lt(a, c),
    decreases a.len(),
{
    if a.len() > 0 && b.len() > 0 && c.len() > 0 {
        if a[0] == b[0] && b[0] == c[0] {
            lemma_lex_transitive(a.drop_first(), b.drop_first(), c.drop_first());
        }
    }
}

pub proof fn lemma_lex_total(a: Seq<char>, b: Seq<char>)
    requires
        a != b,
    ensures
        lex_lt(a, b) || lex_lt(b, a),
    decreases a.len(),
{
    if a.len() == 0 {
        assert(b.len() > 0) by {
            if b.len() == 0 {
                assert(a =~= b);
            }
        }
    } else if b.len() > 0 && a[0] == b[0] {
        if a.drop_first() == b.drop_first() {
            assert(a =~= seq![a[0]] + a.drop_first());
            assert(b =~= seq![b[0]] + b.drop_first());
        }
        lemma_lex_total(a.drop_first(), b.drop_first());
    } else if b.len() > 0 {
        let x = a[0];
        let y = b[0];
        assert((x as int) != (y as int));
    }
}

proof fn lemma_lex_skip(a: Seq<char>, b: Seq<char>, i: int)
    requires
        0 <= i <= a.len(),
        i <= b.len(),
        a.subrange(0, i) == b.subrange(0, i),
    ensures
        lex_lt(a, b) == lex_lt(a.skip(i), b.skip(i)),
    decreases i,
{
    if i > 0 {
        assert(a[0] == a.subrange(0, i)[0]);
        assert(b[0] == b.subrange(0, i)[0]);
        assert(a.drop_first().subrange(0, i - 1) =~= a.subrange(0, i).drop_first());
        assert(b.drop_first().subrange(0, i - 1) =~= b.subrange(0, i).drop_first());
        lemma_lex_skip(a.drop_first(), b.drop_first(), i - 1);
        assert(a.drop_first().skip(i - 1) =~= a.skip(i));
        assert(b.drop_first().skip(i - 1) =~= b.skip(i));
    } else {
        assert(a.skip(0) =~= a);
        assert(b.skip(0) =~= b);
    }
}

/// Whether `a` comes before `b` in the order of Rust strings.
pub fn str_lt(a: &str, b: &str) -> (r: bool)
    ensures
        r == lex_lt(a@, b@),
{
    let n = a.unicode_len();
    let m = b.unicode_len();
    let mut i: usize = 0;
    while i < n && i < m
        invariant
            0 <= i <= n,
            i <= m,
            n == a@.len(),
            m == b@.len(),
            a@.subrange(0, i as int) == b@.subrange(0, i as int),
        decreases n - i,
    {
        let x = a.get_char(i);
        let y = b.get_char(i);
        if x != y {
            proof {
                lemma_lex_skip(a@, b@, i as int);
                assert(a@.skip(i as int)[0] == x);
                assert(b@.skip(i as int)[0] == y);
            }
            return (x as u32) < (y as u32);
        }
        assert(a@.subrange(0, i + 1) =~= a@.subrange(0, i as int).push(x));
        assert(b@.subrange(0, i + 1) =~= b@.subrange(0, i as int).push(y));
        i += 1;
    }
    proof {
        lemma_lex_skip(a@, b@, i as int);
    }
    i == n && i < m
}

/// The strings are in strictly increasing order.
pub open spec fn sorted_strict(v: Seq<String>) -> bool {
    forall|i: int, j: int| 0 <= i < j < v.len() ==> lex_lt((#[trigger] v[i])@, (#[trigger] v[j])@)
}

pub proof fn lemma_sorted_strict_unique(v: Seq<String>)
    requires
        sorted_strict(v),
    ensures
        strings_unique(v),
{
    assert forall|i: int, j: int| 0 <= i < v.len() && 0 <= j < v.len() && (#[trigger] v[i])@ == (#[trigger] v[j])@ implies i == j by {
        if i < j {
            lemma_lex_irreflexive(v[i]@);
        } else if j < i {
            lemma_lex_irreflexive(v[i]@);
        }
    }
}

/// Adds `x` to the strictly increasing `v` unless it is there already
/// (an ordered set of strings).
pub fn insert_sorted(v: &mut Vec<String>, x: &String)
    requires
        sorted_strict(old(v)@),
    ensures
        sorted_strict(final(v)@),
        forall|y: Seq<char>| #[trigger] seq_has(final(v)@, y) <==> (seq_has(old(v)@, y) || y == x@),
        final(v)@.len() <= old(v)@.len() + 1,
{
    let ghost old_v = v@;
    let mut i: usize = 0;
    while i < v.len()
        invariant
            0 <= i <= v.len(),
            v@ == old_v,
            sorted_strict(v@),
            forall|k: int| 0 <= k < i ==> lex_lt((#[trigger] v@[k])@, x@),
        decreases v.len() - i,
    {
        if v[i] == *x {
            return;
        }
        if str_lt(x.as_str(), v[i].as_str()) {
            break;
        }
        proof {
            lemma_lex_total(x@, v@[i as int]@);
        }
        i += 1;
    }
    // every element before `i` is smaller, every element from `i` on is larger
    proof {
        if i < v@.len() {
            assert forall|k: int| i <= k < v@.len() implies lex_lt(x@, (#[trigger] v@[k])@) by {
                if k > i {
                    lemma_lex_transitive(x@, v@[i as int]@, v@[k]@);
                }
            }
        }
    }
    v.insert(i, x.clone());
    proof {
        assert forall|a: int, b: int| 0 <= a < b < v@.len() implies lex_lt((#[trigger] v@[a])@, (#[trigger] v@[b])@) by {
            if a < i && b == i {
            } else if a < i && b > i {
                assert(v@[b] == old_v[b - 1]);
            } else if a == i {
                assert(v@[b] == old_v[b - 1]);
            } else if a > i {
                assert(v@[a] == old_v[a - 1]);
                assert(v@[b] == old_v[b - 1]);
            } else {
                assert(v@[a] == old_v[a]);
                assert(v@[b] == old_v[b]);
            }
        }
        assert forall|y: Seq<char>| #[trigger] seq_has(v@, y) <==> (seq_has(old_v, y) || y == x@) by {
            if seq_has(v@, y) {
                let k = choose|k: int| 0 <= k < v@.len() && (#[trigger] v@[k])@ == y;
                if k < i {
                    assert(old_v[k] == v@[k]);
                } else if k > i {
                    assert(old_v[k - 1] == v@[k]);
                }
            }
            if seq_has(old_v, y) {
                let k = choose|k: int| 0 <= k < old_v.len() && (#[trigger] old_v[k])@ == y;
                if k < i {
                    assert(old_v[k] == v@[k]);
                } else {
                    assert(old_v[k] == v@[k + 1]);
                }
            }
            if y == x@ {
                assert(v@[i as int]@ == x@);
            }
        }
    }
}


/// The characters of each string.
pub open spec fn views(v: Seq<String>) -> Seq<Seq<char>> {
    v.map_values(|s: String| s@)
}

/// Strictly increasing in the order of strings.
pub open spec fn lex_sorted(q: Seq<Seq<char>>) -> bool {
    forall|i: int, j: int| 0 <= i < j < q.len() ==> lex_lt(#[trigger] q[i], #[trigger] q[j])
}

/// The elements of a finite set of strings in increasing order.
pub open spec fn sorted_of(s: Set<Seq<char>>) -> Seq<Seq<char>> {
    choose|q: Seq<Seq<char>>| lex_sorted(q) && q.to_set() == s
}

proof fn lemma_lex_sorted_unique(q1: Seq<Seq<char>>, q2: Seq<Seq<char>>)
    requires
        lex_sorted(q1),
        lex_sorted(q2),
        q1.to_set() == q2.to_set(),
    ensures
        q1 == q2,
    decreases q1.len() + q2.len(),
{
    if q1.len() == 0 {
        if q2.len() > 0 {
            assert(q2.to_set().contains(q2[0]));
        }
        assert(q1 =~= q2);
    } else if q2.len() == 0 {
        assert(q1.to_set().contains(q1[0]));
    } else {
        let a = q1[0];
        let b = q2[0];
        assert(q1.to_set().contains(a));
        assert(q2.to_set().contains(b));
        let k = choose|k: int| 0 <= k < q2.len() && q2[k] == a;
        let m = choose|m: int| 0 <= m < q1.len() && q1[m] == b;
        if a != b {
            assert(k > 0 && m > 0);
            assert(lex_lt(b, a));
            assert(lex_lt(a, b));
            lemma_lex_asymmetric(a, b);
        }
        let r1 = q1.drop_first();
        let r2 = q2.drop_first();
        assert forall|i: int, j: int| 0 <= i < j < r1.len() implies lex_lt(#[trigger] r1[i], #[trigger] r1[j]) by {
            assert(r1[i] == q1[i + 1] && r1[j] == q1[j + 1]);
        }
        assert forall|i: int, j: int| 0 <= i < j < r2.len() implies lex_lt(#[trigger] r2[i], #[trigger] r2[j]) by {
            assert(r2[i] == q2[i + 1] && r2[j] == q2[j + 1]);
        }
        assert forall|x: Seq<char>| r1.to_set().contains(x) <==> r2.to_set().contains(x) by {
            if r1.to_set().contains(x) {
                let i = choose|i: int| 0 <= i < r1.len() && r1[i] == x;
                assert(q1[i + 1] == x);
                assert(lex_lt(a, x));
                assert(q1.to_set().contains(x));
                assert(q2.to_set().contains(x));
                let j = choose|j: int| 0 <= j < q2.len() && q2[j] == x;
                if j == 0 {
                    lemma_lex_irreflexive(a);
                }
                assert(r2[j - 1] == x);
            }
            if r2.to_set().contains(x) {
                let i = choose|i: int| 0 <= i < r2.len() && r2[i] == x;
                assert(q2[i + 1] == x);
                assert(lex_lt(b, x));
                assert(q2.to_set().contains(x));
                assert(q1.to_set().contains(x));
                let j = choose|j: int| 0 <= j < q1.len() && q1[j] == x;
                if j == 0 {
                    lemma_lex_irreflexive(b);
                }
                assert(r1[j - 1] == x);
            }
        }
        assert(r1.to_set() =~= r2.to_set());
        lemma_lex_sorted_unique(r1, r2);
        assert(q1 =~= seq![a] + r1);
        assert(q2 =~= seq![b] + r2);
    }
}

/// A strictly increasing vector of strings lists its set in increasing order.
pub proof fn lemma_sorted_of(v: Seq<String>, s: Set<Seq<char>>)
    requires
        sorted_strict(v),
        forall|x: Seq<char>| #[trigger] s.contains(x) <==> seq_has(v, x),
    ensures
        sorted_of(s) == views(v),
{
    let q = views(v);
    assert forall|i: int, j: int| 0 <= i < j < q.len() implies lex_lt(#[trigger] q[i], #[trigger] q[j]) by {
        assert(q[i] == v[i]@ && q[j] == v[j]@);
    }
    assert forall|x: Seq<char>| q.to_set().contains(x) <==> s.contains(x) by {
        if q.to_set().contains(x) {
            let i = choose|i: int| 0 <= i < q.len() && q[i] == x;
            assert(v[i]@ == x);
            assert(seq_has(v, x));
        }
        if s.contains(x) {
            let i = choose|i: int| 0 <= i < v.len() && (#[trigger] v[i])@ == x;
            assert(q[i] == x);
        }
    }
    assert(q.to_set() =~= s);
    let c = sorted_of(s);
    assert(lex_sorted(c) && c.to_set() == s);
    lemma_lex_sorted_unique(c, q);
}

/// The character of a decimal digit.
pub open spec fn digit_char(d: nat) -> char {
    if d == 0 { '0' } else if d == 1 { '1' } else if d == 2 { '2' } else if d == 3 { '3' } else if d == 4 { '4' }
    else if d == 5 { '5' } else if d == 6 { '6' } else if d == 7 { '7' } else if d == 8 { '8' } else { '9' }
}

/// The decimal notation of `n`, without leading zeros.
pub open spec fn decimal(n: nat) -> Seq<char>
    decreases n,
{
    if n < 10 {
        seq![digit_char(n)]
    } else {
        decimal(n / 10) + seq![digit_char(n % 10)]
    }
}

fn digit_str(d: usize) -> (r: &'static str)
    requires
        d < 10,
    ensures
        r@ == seq![digit_char(d as nat)],
{
    proof {
        reveal_strlit("0");
        reveal_strlit("1");
        reveal_strlit("2");
        reveal_strlit("3");
        reveal_strlit("4");
        reveal_strlit("5");
        reveal_strlit("6");
        reveal_strlit("7");
        reveal_strlit("8");
        reveal_strlit("9");
    }
    if d == 0 { "0" } else if d == 1 { "1" } else if d == 2 { "2" } else if d == 3 { "3" } else if d == 4 { "4" }
    else if d == 5 { "5" } else if d == 6 { "6" } else if d == 7 { "7" } else if d == 8 { "8" } else { "9" }
}

/// The decimal notation of `n` (as `format!("{n}")` writes it).
pub fn decimal_string(n: usize) -> (r: String)
    ensures
        r@ == decimal(n as nat),
    decreases n,
{
    if n < 10 {
        String::from_str(digit_str(n))
    } else {
        let mut s = decimal_string(n / 10);
        s.append(digit_str(n % 10));
        s
    }
}

/// Adds every string of `src` to the ordered set `dst`.
pub fn union_into(dst: &mut Vec<String>, src: &Vec<String>)
    requires
        sorted_strict(old(dst)@),
    ensures
        sorted_strict(final(dst)@),
        forall|a: Seq<char>| #[trigger] seq_has(final(dst)@, a) <==> (seq_has(old(dst)@, a) || seq_has(src@, a)),
{
    let ghost before = dst@;
    let mut j: usize = 0;
    while j < src.len()
        invariant
            0 <= j <= src@.len(),
            sorted_strict(dst@),
            forall|a: Seq<char>| #[trigger] seq_has(dst@, a) <==> (seq_has(before, a)
                || exists|q: int| 0 <= q < j && (#[trigger] src@[q])@ == a),
        decreases src@.len() - j,
    {
        insert_sorted(dst, &src[j]);
        proof {
            assert forall|a: Seq<char>| #[trigger] seq_has(dst@, a) <==> (seq_has(before, a)
                || exists|q: int| 0 <= q < j + 1 && (#[trigger] src@[q])@ == a) by {
                if exists|q: int| 0 <= q < j + 1 && (#[trigger] src@[q])@ == a {
                    let q = choose|q: int| 0 <= q < j + 1 && (#[trigger] src@[q])@ == a;
                    if q < j {
                        assert(exists|q2: int| 0 <= q2 < j && (#[trigger] src@[q2])@ == a);
                    }
                }
                if exists|q: int| 0 <= q < j && (#[trigger] src@[q])@ == a {
                    let q = choose|q: int| 0 <= q < j && (#[trigger] src@[q])@ == a;
                    assert(exists|q2: int| 0 <= q2 < j + 1 && (#[trigger] src@[q2])@ == a);
                }
                if a == src@[j as int]@ {
                    assert(exists|q2: int| 0 <= q2 < j + 1 && (#[trigger] src@[q2])@ == a);
                }
            }
        }
        j += 1;
    }
    proof {
        assert forall|a: Seq<char>| #[trigger] seq_has(dst@, a) <==> (seq_has(before, a) || seq_has(src@, a)) by {
            if seq_has(src@, a) {
                let q = choose|q: int| 0 <= q < src@.len() && (#[trigger] src@[q])@ == a;
            }
            if exists|q: int| 0 <= q < j && (#[trigger] src@[q])@ == a {
                assert(seq_has(src@, a));
            }
        }
    }
}


} // verus!
