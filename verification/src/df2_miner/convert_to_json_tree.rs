//! Conversion of a mined process forest into the frontend's hierarchy: operators
//! by name, activities with the object types that they converge, are deficient or
//! diverge for.
use vstd::prelude::*;
use crate::ocim::model::{in_set_of, lookup_set, seq_has, set_keys_unique, strings_unique};
use crate::text::{insert_sorted, lex_lt, lemma_sorted_of, sorted_of, sorted_strict, str_eq, views};

verus! {

/// A node of a mined process tree: an operator label (`excl`, `seq`, `para`,
/// `redo`) with children, or an activity label (`tau` for a silent step).
pub struct TreeNode {
    pub label: String,
    pub children: Vec<TreeNode>,
}

/// An object type of an activity with the patterns it exhibits there.
pub struct ObjectType {
    pub ot: String,
    pub exhibits: Option<Vec<String>>,
}

/// The value of an activity node.
pub struct ActivityValue {
    pub is_silent: Option<bool>,
    pub activity: String,
    pub ots: Vec<ObjectType>,
}

/// A node of the hierarchy.
pub enum HierarchyNode {
    Operator { value: String, children: Vec<HierarchyNode> },
    Activity { value: ActivityValue },
}

/// The hierarchy with every object type that any activity exhibits a pattern for.
pub struct OutputJson {
    pub ots: Vec<String>,
    pub hierarchy: HierarchyNode,
}

/// A hierarchy node as a value.
#[verifier::ext_equal]
pub ghost enum HNode {
    Operator(Seq<char>, Seq<HNode>),
    Activity(Option<bool>, Seq<char>, Seq<(Seq<char>, Option<Seq<Seq<char>>>)>),
}

impl ObjectType {
    pub open spec fn view(&self) -> (Seq<char>, Option<Seq<Seq<char>>>) {
        (self.ot@, match self.exhibits {
            Some(v) => Some(views(v@)),
            None => None,
        })
    }
}

impl HierarchyNode {
    pub open spec fn view(&self) -> HNode
        decreases self,
    {
        match self {
            HierarchyNode::Operator { value, children } => HNode::Operator(
                value@,
                Seq::new(children@.len(), |i: int| if 0 <= i < children@.len() { children@[i].view() } else { HNode::Operator(Seq::empty(), Seq::empty()) }),
            ),
            HierarchyNode::Activity { value } => HNode::Activity(
                value.is_silent,
                value.activity@,
                Seq::new(value.ots@.len(), |i: int| value.ots@[i].view()),
            ),
        }
    }
}

/// The frontend name of an operator label, if the label names an operator.
pub open spec fn operator_name(label: Seq<char>) -> Option<Seq<char>> {
    if label == "excl"@ {
        Some("xor"@)
    } else if label == "seq"@ {
        Some("sequence"@)
    } else if label == "para"@ {
        Some("parallel"@)
    } else if label == "redo"@ {
        Some("redo"@)
    } else {
        None
    }
}

/// The object types that activity `a` has a pattern for.
pub open spec fn patterns_of(
    con: Seq<(String, Vec<String>)>,
    defi: Seq<(String, Vec<String>)>,
    div: Seq<(String, Vec<String>)>,
    a: Seq<char>,
) -> Set<Seq<char>> {
    Set::new(|t: Seq<char>| in_set_of(con, a, t) || in_set_of(defi, a, t) || in_set_of(div, a, t))
}

/// The patterns (`con`, `def`, `div`, in this order) that `t` exhibits for `a`.
pub open spec fn exhibits_of(
    con: Seq<(String, Vec<String>)>,
    defi: Seq<(String, Vec<String>)>,
    div: Seq<(String, Vec<String>)>,
    a: Seq<char>,
    t: Seq<char>,
) -> Seq<Seq<char>> {
    (if in_set_of(con, a, t) { seq!["con"@] } else { Seq::empty() })
        + (if in_set_of(defi, a, t) { seq!["def"@] } else { Seq::empty() })
        + (if in_set_of(div, a, t) { seq!["div"@] } else { Seq::empty() })
}

/// The hierarchy node for a tree node.
pub open spec fn converted(
    node: TreeNode,
    con: Seq<(String, Vec<String>)>,
    defi: Seq<(String, Vec<String>)>,
    div: Seq<(String, Vec<String>)>,
) -> HNode
    decreases node,
{
    match operator_name(node.label@) {
        Some(name) => HNode::Operator(
            name,
            Seq::new(node.children@.len(), |i: int| if 0 <= i < node.children@.len() { converted(node.children@[i], con, defi, div) } else { HNode::Operator(Seq::empty(), Seq::empty()) }),
        ),
        None => if node.label@ == "tau"@ {
            HNode::Activity(Some(true), node.label@, Seq::empty())
        } else {
            let ts = sorted_of(patterns_of(con, defi, div, node.label@));
            HNode::Activity(
                None,
                node.label@,
                Seq::new(ts.len(), |i: int| (ts[i], Some(exhibits_of(con, defi, div, node.label@, ts[i])))),
            )
        },
    }
}

/// Every pattern map holds each activity once.
pub open spec fn maps_wf(con: Seq<(String, Vec<String>)>, defi: Seq<(String, Vec<String>)>, div: Seq<(String, Vec<String>)>) -> bool {
    set_keys_unique(con) && set_keys_unique(defi) && set_keys_unique(div)
}

/// Adds the strings of the set stored for `a` (if any) to the ordered set `out`.
fn add_all(out: &mut Vec<String>, m: &Vec<(String, Vec<String>)>, a: &String)
    requires
        set_keys_unique(m@),
        sorted_strict(old(out)@),
    ensures
        sorted_strict(final(out)@),
        forall|t: Seq<char>| #[trigger] seq_has(final(out)@, t) <==> (seq_has(old(out)@, t) || in_set_of(m@, a@, t)),
{
    let ghost before = out@;
    match lookup_set(m, a) {
        None => {
            proof {
                assert forall|t: Seq<char>| !in_set_of(m@, a@, t) by {
                    if in_set_of(m@, a@, t) {
                        let i = choose|i: int| 0 <= i < m@.len() && (#[trigger] m@[i]).0@ == a@ && seq_has(m@[i].1@, t);
                        assert(crate::ocim::model::has_set_key(m@, a@));
                    }
                }
            }
        },
        Some(v) => {
            let mut k: usize = 0;
            while k < v.len()
                invariant
                    0 <= k <= v@.len(),
                    sorted_strict(out@),
                    forall|t: Seq<char>| #[trigger] seq_has(out@, t) <==> (seq_has(before, t) || exists|q: int| 0 <= q < k && (#[trigger] v@[q])@ == t),
                decreases v@.len() - k,
            {
                insert_sorted(out, &v[k]);
                proof {
                    assert forall|t: Seq<char>| #[trigger] seq_has(out@, t) <==> (seq_has(before, t) || exists|q: int| 0 <= q < k + 1 && (#[trigger] v@[q])@ == t) by {
                        if exists|q: int| 0 <= q < k + 1 && (#[trigger] v@[q])@ == t {
                            let q = choose|q: int| 0 <= q < k + 1 && (#[trigger] v@[q])@ == t;
                            if q < k {
                                assert(exists|q2: int| 0 <= q2 < k && (#[trigger] v@[q2])@ == t);
                            }
                        }
                        if exists|q: int| 0 <= q < k && (#[trigger] v@[q])@ == t {
                            let q = choose|q: int| 0 <= q < k && (#[trigger] v@[q])@ == t;
                            assert(exists|q2: int| 0 <= q2 < k + 1 && (#[trigger] v@[q2])@ == t);
                        }
                        if t == v@[k as int]@ {
                            assert(exists|q2: int| 0 <= q2 < k + 1 && (#[trigger] v@[q2])@ == t);
                        }
                    }
                }
                k += 1;
            }
            proof {
                assert forall|t: Seq<char>| #[trigger] seq_has(out@, t) <==> (seq_has(before, t) || in_set_of(m@, a@, t)) by {
                    if exists|q: int| 0 <= q < v@.len() && (#[trigger] v@[q])@ == t {
                        assert(seq_has(v@, t));
                    }
                    if in_set_of(m@, a@, t) {
                        assert(seq_has(v@, t));
                        let q = choose|q: int| 0 <= q < v@.len() && (#[trigger] v@[q])@ == t;
                    }
                }
            }
        },
    }
}

/// Whether `t` is in the set stored for `a`.
fn in_map(m: &Vec<(String, Vec<String>)>, a: &String, t: &String) -> (r: bool)
    requires
        set_keys_unique(m@),
    ensures
        r == in_set_of(m@, a@, t@),
{
    crate::ocim::common_data::set_contains(m, a, t)
}

/// The frontend name of the operator label, if it names one.
fn operator_label(label: &String) -> (r: Option<String>)
    ensures
        match r {
            Some(name) => operator_name(label@) == Some(name@),
            None => operator_name(label@) is None,
        },
{
    if str_eq(label.as_str(), "excl") {
        Some(String::from_str("xor"))
    } else if str_eq(label.as_str(), "seq") {
        Some(String::from_str("sequence"))
    } else if str_eq(label.as_str(), "para") {
        Some(String::from_str("parallel"))
    } else if str_eq(label.as_str(), "redo") {
        Some(String::from_str("redo"))
    } else {
        None
    }
}

/// The patterns that `t` exhibits for `a`, as names.
fn exhibits(
    con: &Vec<(String, Vec<String>)>,
    defi: &Vec<(String, Vec<String>)>,
    div: &Vec<(String, Vec<String>)>,
    a: &String,
    t: &String,
) -> (r: Vec<String>)
    requires
        maps_wf(con@, defi@, div@),
    ensures
        views(r@) == exhibits_of(con@, defi@, div@, a@, t@),
{
    let mut ex: Vec<String> = Vec::new();
    let c = in_map(con, a, t);
    let d = in_map(defi, a, t);
    let v = in_map(div, a, t);
    if c {
        ex.push(String::from_str("con"));
    }
    let ghost after_c = views(ex@);
    if d {
        ex.push(String::from_str("def"));
    }
    let ghost after_d = views(ex@);
    if v {
        ex.push(String::from_str("div"));
    }
    proof {
        let pc = if c { seq!["con"@] } else { Seq::<Seq<char>>::empty() };
        let pd = if d { seq!["def"@] } else { Seq::<Seq<char>>::empty() };
        let pv = if v { seq!["div"@] } else { Seq::<Seq<char>>::empty() };
        assert(after_c =~= pc);
        assert(after_d =~= pc + pd);
        assert(views(ex@) =~= pc + pd + pv);
    }
    ex
}

/// Converts a tree node into the frontend's hierarchy: operator labels become
/// operator names with converted children; `tau` becomes a silent activity;
/// any other label an activity with its object types in increasing order, each
/// with the patterns (`con`, `def`, `div`) it exhibits for the activity.
pub fn convert_tree(
    node: &TreeNode,
    con: &Vec<(String, Vec<String>)>,
    defi: &Vec<(String, Vec<String>)>,
    div: &Vec<(String, Vec<String>)>,
) -> (r: HierarchyNode)
    requires
        maps_wf(con@, defi@, div@),
    ensures
        r@ == converted(*node, con@, defi@, div@),
        operator_name(node.label@) is None && node.label@ != "tau"@ ==> (r@ matches HNode::Activity(s, a, ots)
            && s is None && a == node.label@
            && (forall|i: int, j: int| 0 <= i < j < ots.len() ==> lex_lt(#[trigger] ots[i].0, #[trigger] ots[j].0))
            && (forall|t: Seq<char>| patterns_of(con@, defi@, div@, node.label@).contains(t)
                <==> exists|i: int| 0 <= i < ots.len() && (#[trigger] ots[i]).0 == t)
            && (forall|i: int| 0 <= i < ots.len() ==> ((#[trigger] ots[i]).1 matches Some(ex) && ex.len() > 0))),
    decreases node,
{
    match operator_label(&node.label) {
        Some(name) => {
            let mut children: Vec<HierarchyNode> = Vec::new();
            let mut k: usize = 0;
            while k < node.children.len()
                invariant
                    0 <= k <= node.children@.len(),
                    maps_wf(con@, defi@, div@),
                    children@.len() == k,
                    forall|q: int| 0 <= q < k ==> (#[trigger] children@[q])@ == converted(node.children@[q], con@, defi@, div@),
                decreases node.children@.len() - k,
            {
                let c = convert_tree(&node.children[k], con, defi, div);
                children.push(c);
                k += 1;
            }
            let ghost name_v = name@;
            let ghost cs = children@;
            let r = HierarchyNode::Operator { value: name, children };
            proof {
                let s1 = Seq::new(cs.len(), |i: int| if 0 <= i < cs.len() { cs[i].view() } else { HNode::Operator(Seq::empty(), Seq::empty()) });
                let s2 = Seq::new(node.children@.len(), |i: int| if 0 <= i < node.children@.len() { converted(node.children@[i], con@, defi@, div@) } else { HNode::Operator(Seq::empty(), Seq::empty()) });
                assert(s1 =~= s2);
                assert(operator_name(node.label@) == Some(name_v));
                assert(r@ is Operator);
                assert(r@->Operator_0 == name_v);
                assert(r@->Operator_1 =~= s1);
                let c = converted(*node, con@, defi@, div@);
                assert(c is Operator);
                assert(c->Operator_0 == name_v);
                assert(c->Operator_1 =~= s2);
                assert(r@ =~= c);
            }
            r
        },
        None => {
            if str_eq(node.label.as_str(), "tau") {
                let no_ots: Vec<ObjectType> = Vec::new();
                let r = HierarchyNode::Activity {
                    value: ActivityValue { is_silent: Some(true), activity: node.label.clone(), ots: no_ots },
                };
                proof {
                    assert(r@ == converted(*node, con@, defi@, div@)) by {
                        assert(Seq::new(0, |i: int| no_ots@[i].view()) =~= Seq::<(Seq<char>, Option<Seq<Seq<char>>>)>::empty());
                    }
                }
                return r;
            }
            let a = &node.label;
            let mut names: Vec<String> = Vec::new();
            add_all(&mut names, con, a);
            add_all(&mut names, defi, a);
            add_all(&mut names, div, a);
            let ghost pats = patterns_of(con@, defi@, div@, a@);
            proof {
                assert forall|t: Seq<char>| #[trigger] pats.contains(t) <==> seq_has(names@, t) by {}
                lemma_sorted_of(names@, pats);
            }
            let mut ots: Vec<ObjectType> = Vec::new();
            let mut k: usize = 0;
            while k < names.len()
                invariant
                    0 <= k <= names@.len(),
                    maps_wf(con@, defi@, div@),
                    *a == node.label,
                    pats == patterns_of(con@, defi@, div@, a@),
                    forall|t: Seq<char>| #[trigger] seq_has(names@, t) <==> pats.contains(t),
                    ots@.len() == k,
                    forall|q: int| 0 <= q < k ==> (#[trigger] ots@[q])@ == (names@[q]@, Some(exhibits_of(con@, defi@, div@, a@, names@[q]@))),
                decreases names@.len() - k,
            {
                let t = &names[k];
                let ex = exhibits(con, defi, div, a, t);
                proof {
                    assert(seq_has(names@, t@));
                    assert(pats.contains(t@));
                    if ex@.len() == 0 {
                        assert(views(ex@).len() == 0);
                    }
                }
                let entry = if ex.len() == 0 {
                    ObjectType { ot: t.clone(), exhibits: None }
                } else {
                    ObjectType { ot: t.clone(), exhibits: Some(ex) }
                };
                ots.push(entry);
                k += 1;
            }
            let r = HierarchyNode::Activity { value: ActivityValue { is_silent: None, activity: node.label.clone(), ots } };
            proof {
                assert(r@ == converted(*node, con@, defi@, div@)) by {
                    let ts = sorted_of(pats);
                    assert(ts == views(names@));
                    let s1 = Seq::new(ots@.len(), |i: int| ots@[i].view());
                    let s2 = Seq::new(ts.len(), |i: int| (ts[i], Some(exhibits_of(con@, defi@, div@, node.label@, ts[i]))));
                    assert(s1 =~= s2);
                }
                let ts = sorted_of(pats);
                let o = r@->Activity_2;
                assert(ts == views(names@));
                assert(o.len() == ts.len());
                assert forall|i: int, j: int| 0 <= i < j < o.len() implies lex_lt(#[trigger] o[i].0, #[trigger] o[j].0) by {
                    assert(o[i].0 == names@[i]@ && o[j].0 == names@[j]@);
                }
                assert forall|t: Seq<char>| pats.contains(t) <==> exists|i: int| 0 <= i < o.len() && (#[trigger] o[i]).0 == t by {
                    if pats.contains(t) {
                        assert(seq_has(names@, t));
                        let q = choose|q: int| 0 <= q < names@.len() && (#[trigger] names@[q])@ == t;
                        assert(o[q].0 == t);
                    }
                    if exists|i: int| 0 <= i < o.len() && (#[trigger] o[i]).0 == t {
                        let i = choose|i: int| 0 <= i < o.len() && (#[trigger] o[i]).0 == t;
                        assert(names@[i]@ == t);
                        assert(seq_has(names@, t));
                    }
                }
                assert forall|i: int| 0 <= i < o.len() implies ((#[trigger] o[i]).1 matches Some(ex) && ex.len() > 0) by {
                    let t = names@[i]@;
                    assert(seq_has(names@, t));
                    assert(pats.contains(t));
                    assert(o[i].1 == Some(exhibits_of(con@, defi@, div@, node.label@, t)));
                }
            }
            r
        },
    }
}

/// Some set stored in the map holds `t`.
pub open spec fn values_have(m: Seq<(String, Vec<String>)>, t: Seq<char>) -> bool {
    exists|k: int| 0 <= k < m.len() && seq_has((#[trigger] m[k]).1@, t)
}

/// Every object type that some activity has a pattern for.
pub open spec fn all_pattern_types(
    con: Seq<(String, Vec<String>)>,
    defi: Seq<(String, Vec<String>)>,
    div: Seq<(String, Vec<String>)>,
) -> Set<Seq<char>> {
    Set::new(|t: Seq<char>| values_have(con, t) || values_have(defi, t) || values_have(div, t))
}

/// Adds every string stored in the map to the ordered set `out`.
fn add_values(out: &mut Vec<String>, m: &Vec<(String, Vec<String>)>)
    requires
        set_keys_unique(m@),
        sorted_strict(old(out)@),
    ensures
        sorted_strict(final(out)@),
        forall|t: Seq<char>| #[trigger] seq_has(final(out)@, t) <==> (seq_has(old(out)@, t)
            || exists|k: int| 0 <= k < m@.len() && seq_has((#[trigger] m@[k]).1@, t)),
{
    let ghost before = out@;
    let mut k: usize = 0;
    while k < m.len()
        invariant
            0 <= k <= m@.len(),
            set_keys_unique(m@),
            sorted_strict(out@),
            forall|t: Seq<char>| #[trigger] seq_has(out@, t) <==> (seq_has(before, t)
                || exists|q: int| 0 <= q < k && seq_has((#[trigger] m@[q]).1@, t)),
        decreases m@.len() - k,
    {
        let ghost mid = out@;
        add_all(out, m, &m[k].0);
        proof {
            crate::ocim::model::lemma_in_set_of_at(m@, k as int, Seq::empty());
            assert forall|t: Seq<char>| #[trigger] seq_has(out@, t) <==> (seq_has(before, t)
                || exists|q: int| 0 <= q < k + 1 && seq_has((#[trigger] m@[q]).1@, t)) by {
                crate::ocim::model::lemma_in_set_of_at(m@, k as int, t);
                if exists|q: int| 0 <= q < k + 1 && seq_has((#[trigger] m@[q]).1@, t) {
                    let q = choose|q: int| 0 <= q < k + 1 && seq_has((#[trigger] m@[q]).1@, t);
                    if q < k {
                        assert(exists|q2: int| 0 <= q2 < k && seq_has((#[trigger] m@[q2]).1@, t));
                    }
                }
                if exists|q: int| 0 <= q < k && seq_has((#[trigger] m@[q]).1@, t) {
                    let q = choose|q: int| 0 <= q < k && seq_has((#[trigger] m@[q]).1@, t);
                    assert(exists|q2: int| 0 <= q2 < k + 1 && seq_has((#[trigger] m@[q2]).1@, t));
                }
            }
        }
        k += 1;
    }
}

/// The hierarchy of a forest (a single tree as it is, several under a sequence)
/// with every object type that some activity has a pattern for, in increasing order.
pub fn build_output(
    forest: &Vec<TreeNode>,
    con: &Vec<(String, Vec<String>)>,
    defi: &Vec<(String, Vec<String>)>,
    div: &Vec<(String, Vec<String>)>,
) -> (r: OutputJson)
    requires
        maps_wf(con@, defi@, div@),
    ensures
        views(r.ots@) == sorted_of(all_pattern_types(con@, defi@, div@)),
        strings_unique(r.ots@),
        forall|t: Seq<char>| #[trigger] seq_has(r.ots@, t) <==> all_pattern_types(con@, defi@, div@).contains(t),
        forest@.len() == 1 ==> r.hierarchy@ == converted(forest@[0], con@, defi@, div@),
        forest@.len() != 1 ==> r.hierarchy@ == HNode::Operator(
            "sequence"@,
            Seq::new(forest@.len(), |i: int| converted(forest@[i], con@, defi@, div@)),
        ),
{
    let mut ots: Vec<String> = Vec::new();
    add_values(&mut ots, con);
    add_values(&mut ots, defi);
    add_values(&mut ots, div);
    proof {
        let s = all_pattern_types(con@, defi@, div@);
        assert forall|t: Seq<char>| #[trigger] s.contains(t) <==> seq_has(ots@, t) by {}
        lemma_sorted_of(ots@, s);
        crate::text::lemma_sorted_strict_unique(ots@);
    }
    let hierarchy = if forest.len() == 1 {
        convert_tree(&forest[0], con, defi, div)
    } else {
        let mut children: Vec<HierarchyNode> = Vec::new();
        let mut k: usize = 0;
        while k < forest.len()
            invariant
                0 <= k <= forest@.len(),
                maps_wf(con@, defi@, div@),
                children@.len() == k,
                forall|q: int| 0 <= q < k ==> (#[trigger] children@[q])@ == converted(forest@[q], con@, defi@, div@),
            decreases forest@.len() - k,
        {
            children.push(convert_tree(&forest[k], con, defi, div));
            k += 1;
        }
        let ghost cs = children@;
        let value = String::from_str("sequence");
        proof {
            reveal_strlit("sequence");
        }
        let h = HierarchyNode::Operator { value, children };
        proof {
            let s1 = Seq::new(cs.len(), |i: int| if 0 <= i < cs.len() { cs[i].view() } else { HNode::Operator(Seq::empty(), Seq::empty()) });
            let s2 = Seq::new(forest@.len(), |i: int| converted(forest@[i], con@, defi@, div@));
            assert(s1 =~= s2);
            assert(h@ is Operator);
            assert(h@->Operator_0 == "sequence"@);
            assert(h@->Operator_1 =~= s1);
            assert(h@ =~= HNode::Operator("sequence"@, s2));
        }
        h
    };
    OutputJson { ots, hierarchy }
}

} // verus!
