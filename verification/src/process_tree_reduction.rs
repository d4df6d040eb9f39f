//! Simplification of process trees before their translation into Petri nets,
//! and the conditions under which the translation needs a silent transition at
//! the initial or the final marking.
use vstd::prelude::*;
use crate::process_tree::{Leaf, LeafLabel, Node, Operator, OperatorType, PTree, ProcessTree};

verus! {

/// A tau leaf.
pub open spec fn is_tau(t: PTree) -> bool {
    t == PTree::Leaf(None)
}

/// The trees of the nodes.
pub open spec fn trees(v: Seq<Node>) -> Seq<PTree> {
    Seq::new(v.len(), |i: int| v[i]@)
}

/// The children of an operator node as trees.
pub open spec fn children_trees(t: PTree) -> Seq<PTree> {
    match t {
        PTree::Op(_, cs) => cs,
        PTree::Leaf(_) => Seq::empty(),
    }
}

/// The number of tau leaves among `cs`.
pub open spec fn tau_count(cs: Seq<PTree>) -> nat
    decreases cs.len(),
{
    if cs.len() == 0 {
        0
    } else {
        tau_count(cs.drop_last()) + if is_tau(cs.last()) { 1nat } else { 0nat }
    }
}

/// `cs` without its tau leaves.
pub open spec fn without_taus(cs: Seq<PTree>) -> Seq<PTree>
    decreases cs.len(),
{
    if cs.len() == 0 {
        Seq::empty()
    } else {
        without_taus(cs.drop_last()) + if is_tau(cs.last()) { Seq::empty() } else { seq![cs.last()] }
    }
}

/// `cs` without its tau leaves after the first.
pub open spec fn first_tau_only(cs: Seq<PTree>) -> Seq<PTree>
    decreases cs.len(),
{
    if cs.len() == 0 {
        Seq::empty()
    } else {
        first_tau_only(cs.drop_last()) + if is_tau(cs.last()) && tau_count(cs.drop_last()) > 0 { Seq::empty() } else { seq![cs.last()] }
    }
}

/// The children of an operator after the tau leaves among them are reduced:
/// where all are tau, a sequence, choice or parallel keeps the first, a loop of two
/// keeps none; otherwise a sequence or parallel drops them, a choice keeps the
/// first of them, and a loop keeps them all.
pub open spec fn tau_reduced(op: OperatorType, cs: Seq<PTree>) -> Seq<PTree> {
    let n = tau_count(cs);
    if n == 0 {
        cs
    } else if n == cs.len() {
        match op {
            OperatorType::Loop => if cs.len() == 2 { without_taus(cs) } else { cs },
            _ => cs.take(1),
        }
    } else {
        match op {
            OperatorType::Sequence => without_taus(cs),
            OperatorType::Concurrency => without_taus(cs),
            OperatorType::ExclusiveChoice => first_tau_only(cs),
            OperatorType::Loop => cs,
        }
    }
}

/// The results that are present, in order.
pub open spec fn somes(s: Seq<Option<PTree>>) -> Seq<PTree>
    decreases s.len(),
{
    if s.len() == 0 {
        Seq::empty()
    } else {
        somes(s.drop_last()) + match s.last() {
            Some(t) => seq![t],
            None => Seq::empty(),
        }
    }
}

/// Children of operator `op` that are themselves `op` operators are replaced by
/// their children.
pub open spec fn flattened(op: OperatorType, cs: Seq<PTree>) -> Seq<PTree>
    decreases cs.len(),
{
    if cs.len() == 0 {
        Seq::empty()
    } else {
        flattened(op, cs.drop_last()) + match cs.last() {
            PTree::Op(o2, gcs) => if o2 == op { gcs } else { seq![cs.last()] },
            PTree::Leaf(_) => seq![cs.last()],
        }
    }
}

/// The simplified tree, or nothing where nothing is left: a leaf stays; an
/// operator simplifies its children (dropping those that vanish), reduces its
/// tau children, vanishes without children, is replaced by a single child, and
/// otherwise (but for a loop) absorbs children of its own kind.
pub open spec fn simplified(t: PTree) -> Option<PTree>
    decreases t, 1nat,
{
    match t {
        PTree::Leaf(_) => Some(t),
        PTree::Op(op, cs) => {
            let red = tau_reduced(op, somes(simplified_each(cs)));
            if red.len() == 0 {
                None
            } else if red.len() == 1 {
                Some(red[0])
            } else {
                let flat = if op == OperatorType::Loop { red } else { flattened(op, red) };
                if flat.len() == 0 {
                    None
                } else if flat.len() == 1 {
                    Some(flat[0])
                } else {
                    Some(PTree::Op(op, flat))
                }
            }
        },
    }
}

/// Each tree simplified.
pub open spec fn simplified_each(cs: Seq<PTree>) -> Seq<Option<PTree>>
    decreases cs, 0nat,
{
    Seq::new(cs.len(), |i: int| if 0 <= i < cs.len() { simplified(cs[i]) } else { None })
}

/// The leaf count at the start of the tree: 1 for a leaf, that of the first
/// child for an operator, 0 for an operator without children.
pub open spec fn first_leaf_count(t: PTree) -> nat
    decreases t,
{
    match t {
        PTree::Leaf(_) => 1,
        PTree::Op(_, cs) => if cs.len() > 0 { first_leaf_count(cs[0]) } else { 0 },
    }
}

/// The leaf count at the end of the tree.
pub open spec fn last_leaf_count(t: PTree) -> nat
    decreases t,
{
    match t {
        PTree::Leaf(_) => 1,
        PTree::Op(_, cs) => if cs.len() > 0 { last_leaf_count(cs[cs.len() - 1]) } else { 0 },
    }
}

/// A loop operator lies on the path of first children.
pub open spec fn loop_on_first_path(t: PTree) -> bool
    decreases t,
{
    match t {
        PTree::Leaf(_) => false,
        PTree::Op(op, cs) => op == OperatorType::Loop || (cs.len() > 0 && loop_on_first_path(cs[0])),
    }
}

/// A loop operator lies on the path of last children.
pub open spec fn loop_on_last_path(t: PTree) -> bool
    decreases t,
{
    match t {
        PTree::Leaf(_) => false,
        PTree::Op(op, cs) => op == OperatorType::Loop || (cs.len() > 0 && loop_on_last_path(cs[cs.len() - 1])),
    }
}

/// The last child is a loop, or an operator whose own last child path ends in one.
pub open spec fn terminal_loop(t: PTree) -> bool
    decreases t,
{
    match t {
        PTree::Leaf(_) => false,
        PTree::Op(_, cs) => cs.len() > 0 && match cs[cs.len() - 1] {
            PTree::Op(o2, _) => o2 == OperatorType::Loop || terminal_loop(cs[cs.len() - 1]),
            PTree::Leaf(_) => false,
        },
    }
}

/// The first child is a loop, or an operator with a terminal loop.
pub open spec fn initial_loop(t: PTree) -> bool {
    match t {
        PTree::Leaf(_) => false,
        PTree::Op(_, cs) => cs.len() > 0 && match cs[0] {
            PTree::Op(o2, _) => o2 == OperatorType::Loop || terminal_loop(cs[0]),
            PTree::Leaf(_) => false,
        },
    }
}

/// The tree is a choice or a parallel operator.
pub open spec fn is_choice_or_parallel(t: PTree) -> bool {
    match t {
        PTree::Op(op, _) => op == OperatorType::ExclusiveChoice || op == OperatorType::Concurrency,
        PTree::Leaf(_) => false,
    }
}

/// The translation starts with a silent transition.
pub open spec fn tau_at_start(t: PTree) -> bool {
    initial_loop(t) || first_leaf_count(t) > 1 || loop_on_first_path(t) || is_choice_or_parallel(t)
}

/// The translation ends with a silent transition.
pub open spec fn tau_at_end(t: PTree) -> bool {
    terminal_loop(t) || last_leaf_count(t) > 1 || loop_on_last_path(t) || is_choice_or_parallel(t)
}

/// Whether the two operator types are the same.
pub fn same_operator_type(left: &OperatorType, right: &OperatorType) -> (r: bool)
    ensures
        r == (*left == *right),
{
    match (left, right) {
        (OperatorType::Sequence, OperatorType::Sequence) => true,
        (OperatorType::ExclusiveChoice, OperatorType::ExclusiveChoice) => true,
        (OperatorType::Concurrency, OperatorType::Concurrency) => true,
        (OperatorType::Loop, OperatorType::Loop) => true,
        _ => false,
    }
}

/// Whether the node is a tau leaf.
pub fn is_tau_leaf_node(node: &Node) -> (r: bool)
    ensures
        r == is_tau(node@),
{
    match node {
        Node::Leaf(leaf) => match &leaf.activity_label {
            LeafLabel::Tau => true,
            LeafLabel::Activity(_) => false,
        },
        Node::Operator(_) => false,
    }
}

/// A tau leaf.
pub fn tau_node() -> (r: Node)
    ensures
        r@ == PTree::Leaf(None),
{
    Node::Leaf(Leaf { activity_label: LeafLabel::Tau })
}

/// A copy of the node.
pub fn copy_node(node: &Node) -> (r: Node)
    ensures
        r@ == node@,
    decreases node,
{
    match node {
        Node::Leaf(leaf) => match &leaf.activity_label {
            LeafLabel::Activity(label) => Node::Leaf(Leaf { activity_label: LeafLabel::Activity(label.clone()) }),
            LeafLabel::Tau => Node::Leaf(Leaf { activity_label: LeafLabel::Tau }),
        },
        Node::Operator(op) => {
            let mut children: Vec<Node> = Vec::new();
            let mut k: usize = 0;
            while k < op.children.len()
                invariant
                    0 <= k <= op.children@.len(),
                    *node == Node::Operator(*op),
                    children@.len() == k,
                    forall|i: int| 0 <= i < k ==> (#[trigger] children@[i])@ == op.children@[i]@,
                decreases op.children@.len() - k,
            {
                children.push(copy_node(&op.children[k]));
                k += 1;
            }
            let r = Node::Operator(Operator { operator_type: op.operator_type, children });
            assert(r@ =~= node@) by {
                assert(children_trees(r@) =~= children_trees(node@));
            }
            r
        },
    }
}

/// The leaf count at the start of the tree.
pub fn first_terminal_child_transition_count(node: &Node) -> (r: usize)
    ensures
        r as nat == first_leaf_count(node@),
    decreases node,
{
    match node {
        Node::Leaf(_) => 1,
        Node::Operator(op) => if op.children.len() > 0 {
            first_terminal_child_transition_count(&op.children[0])
        } else {
            0
        },
    }
}

/// The leaf count at the end of the tree.
pub fn last_terminal_child_transition_count(node: &Node) -> (r: usize)
    ensures
        r as nat == last_leaf_count(node@),
    decreases node,
{
    match node {
        Node::Leaf(_) => 1,
        Node::Operator(op) => if op.children.len() > 0 {
            last_terminal_child_transition_count(&op.children[op.children.len() - 1])
        } else {
            0
        },
    }
}

/// Whether a loop lies on the path of first children.
pub fn check_loop_to_first_operator(node: &Node) -> (r: bool)
    ensures
        r == loop_on_first_path(node@),
    decreases node,
{
    match node {
        Node::Operator(op) => {
            if op.operator_type == OperatorType::Loop {
                true
            } else if op.children.len() > 0 {
                check_loop_to_first_operator(&op.children[0])
            } else {
                false
            }
        },
        Node::Leaf(_) => false,
    }
}

/// Whether a loop lies on the path of last children.
pub fn check_loop_to_last_operator(node: &Node) -> (r: bool)
    ensures
        r == loop_on_last_path(node@),
    decreases node,
{
    match node {
        Node::Operator(op) => {
            if op.operator_type == OperatorType::Loop {
                true
            } else if op.children.len() > 0 {
                check_loop_to_last_operator(&op.children[op.children.len() - 1])
            } else {
                false
            }
        },
        Node::Leaf(_) => false,
    }
}

/// Whether the last child is a loop, or an operator with a terminal loop.
pub fn check_terminal_loop(node: &Node) -> (r: bool)
    ensures
        r == terminal_loop(node@),
    decreases node,
{
    match node {
        Node::Operator(op) => {
            if op.children.len() == 0 {
                return false;
            }
            let child = &op.children[op.children.len() - 1];
            match child {
                Node::Operator(child_op) => if child_op.operator_type == OperatorType::Loop {
                    true
                } else {
                    check_terminal_loop(child)
                },
                Node::Leaf(_) => false,
            }
        },
        Node::Leaf(_) => false,
    }
}

/// Whether the first child is a loop, or an operator with a terminal loop.
pub fn check_initial_loop(node: &Node) -> (r: bool)
    ensures
        r == initial_loop(node@),
{
    match node {
        Node::Operator(op) => {
            if op.children.len() == 0 {
                return false;
            }
            let child = &op.children[0];
            match child {
                Node::Operator(child_op) => if child_op.operator_type == OperatorType::Loop {
                    true
                } else {
                    check_terminal_loop(child)
                },
                Node::Leaf(_) => false,
            }
        },
        Node::Leaf(_) => false,
    }
}

/// Whether the translation of the tree starts with a silent transition.
pub fn check_tau_mandatory_at_initial_marking(node: &Node) -> (r: bool)
    ensures
        r == tau_at_start(node@),
{
    let condition1 = check_initial_loop(node);
    let condition2 = first_terminal_child_transition_count(node) > 1;
    let condition3 = check_loop_to_first_operator(node);
    let condition4 = match node {
        Node::Operator(op) => op.operator_type == OperatorType::ExclusiveChoice || op.operator_type == OperatorType::Concurrency,
        Node::Leaf(_) => false,
    };
    condition1 || condition2 || condition3 || condition4
}

/// Whether the translation of the tree ends with a silent transition.
pub fn check_tau_mandatory_at_final_marking(node: &Node) -> (r: bool)
    ensures
        r == tau_at_end(node@),
{
    let condition1 = check_terminal_loop(node);
    let condition2 = last_terminal_child_transition_count(node) > 1;
    let condition3 = check_loop_to_last_operator(node);
    let condition4 = match node {
        Node::Operator(op) => op.operator_type == OperatorType::ExclusiveChoice || op.operator_type == OperatorType::Concurrency,
        Node::Leaf(_) => false,
    };
    condition1 || condition2 || condition3 || condition4
}

proof fn lemma_tau_count_le(cs: Seq<PTree>)
    ensures
        tau_count(cs) <= cs.len(),
    decreases cs.len(),
{
    if cs.len() > 0 {
        lemma_tau_count_le(cs.drop_last());
    }
}

/// Where every child is tau, none is left without the taus.
proof fn lemma_all_tau(cs: Seq<PTree>)
    requires
        tau_count(cs) == cs.len(),
    ensures
        without_taus(cs) == Seq::<PTree>::empty(),
    decreases cs.len(),
{
    if cs.len() > 0 {
        lemma_tau_count_le(cs.drop_last());
        lemma_all_tau(cs.drop_last());
    }
}

proof fn lemma_take_step(cs: Seq<PTree>, k: int)
    requires
        0 <= k < cs.len(),
    ensures
        cs.take(k + 1).drop_last() == cs.take(k),
        cs.take(k + 1).last() == cs[k],
{
    assert(cs.take(k + 1).drop_last() =~= cs.take(k));
}

/// Reduces the tau children of an operator of type `operator_type` (see `tau_reduced`).
pub fn reduce_tau_children(operator_type: &OperatorType, children: &mut Vec<Node>)
    ensures
        trees(final(children)@) == tau_reduced(*operator_type, trees(old(children)@)),
{
    let ghost orig = trees(children@);
    let n = children.len();
    let mut count: usize = 0;
    let mut i: usize = 0;
    while i < n
        invariant
            0 <= i <= n,
            n == children@.len(),
            orig == trees(children@),
            count as nat == tau_count(orig.take(i as int)),
            count <= i,
        decreases n - i,
    {
        proof {
            lemma_take_step(orig, i as int);
        }
        if is_tau_leaf_node(&children[i]) {
            count += 1;
        }
        i += 1;
    }
    assert(orig.take(n as int) =~= orig);
    if count == 0 {
        return;
    }
    if count == n {
        match operator_type {
            OperatorType::Loop => {
                if n == 2 {
                    children.clear();
                    proof {
                        lemma_all_tau(orig);
                        assert(trees(children@) =~= Seq::<PTree>::empty());
                    }
                }
            },
            _ => {
                children.truncate(1);
                assert(trees(children@) =~= orig.take(1));
            },
        }
        return;
    }
    let keep_all_taus = match operator_type {
        OperatorType::Loop => true,
        _ => false,
    };
    if keep_all_taus {
        return;
    }
    let keep_first = match operator_type {
        OperatorType::ExclusiveChoice => true,
        _ => false,
    };
    let mut rest: Vec<Node> = Vec::new();
    std::mem::swap(&mut rest, children);
    let ghost nodes = rest@;
    let mut seen = false;
    let mut k: usize = 0;
    while k < n
        invariant
            0 <= k <= n,
            n == nodes.len(),
            orig == trees(nodes),
            rest@ == nodes.subrange(k as int, n as int),
            seen == (tau_count(orig.take(k as int)) > 0),
            keep_first ==> trees(children@) == first_tau_only(orig.take(k as int)),
            !keep_first ==> trees(children@) == without_taus(orig.take(k as int)),
        decreases n - k,
    {
        let c = rest.remove(0);
        assert(c == nodes[k as int]);
        proof {
            lemma_take_step(orig, k as int);
            assert(orig[k as int] == c@);
        }
        let tau = is_tau_leaf_node(&c);
        let ghost before = children@;
        if !tau || (keep_first && !seen) {
            children.push(c);
            assert(trees(children@) =~= trees(before).push(c@));
        }
        if tau {
            seen = true;
        }
        proof {
            assert(rest@ =~= nodes.subrange(k + 1, n as int));
            if keep_first {
                assert(trees(children@) =~= first_tau_only(orig.take(k + 1)));
            } else {
                assert(trees(children@) =~= without_taus(orig.take(k + 1)));
            }
        }
        k += 1;
    }
    assert(orig.take(n as int) =~= orig);
}

/// The simplified node (see `simplified`), or nothing where nothing is left.
pub fn simplify_node(node: Node) -> (r: Option<Node>)
    ensures
        match r {
            Some(n) => simplified(node@) == Some(n@),
            None => simplified(node@) is None,
        },
    decreases node,
{
    let ghost t = node@;
    match node {
        Node::Leaf(leaf) => Some(Node::Leaf(leaf)),
        Node::Operator(op) => {
            let operator_type = op.operator_type;
            let ghost cs = op.children@;
            let ghost ct = children_trees(t);
            let ghost opts = simplified_each(ct);
            assert(ct =~= trees(cs));
            let mut rest = op.children;
            let n = rest.len();
            let mut children: Vec<Node> = Vec::new();
            let mut k: usize = 0;
            while k < n
                invariant
                    0 <= k <= n,
                    n == cs.len(),
                    ct == trees(cs),
                    opts.len() == n,
                    forall|i: int| 0 <= i < n ==> #[trigger] opts[i] == simplified(ct[i]),
                    rest@ == cs.subrange(k as int, n as int),
                    trees(children@) == somes(opts.take(k as int)),
                    t == PTree::Op(operator_type, ct),
                decreases n - k,
            {
                let c = rest.remove(0);
                assert(c == cs[k as int]);
                assert(c@ == ct[k as int]);
                let ghost before = children@;
                let sc = simplify_node(c);
                proof {
                    assert(opts.take(k + 1).drop_last() =~= opts.take(k as int));
                    assert(opts.take(k + 1).last() == opts[k as int]);
                }
                match sc {
                    Some(x) => {
                        children.push(x);
                        assert(trees(children@) =~= trees(before).push(x@));
                    },
                    None => {},
                }
                assert(rest@ =~= cs.subrange(k + 1, n as int));
                assert(trees(children@) =~= somes(opts.take(k + 1)));
                k += 1;
            }
            assert(opts.take(n as int) =~= opts);
            let ghost kept = trees(children@);
            reduce_tau_children(&operator_type, &mut children);
            let ghost red = trees(children@);
            assert(kept == somes(opts));
            if children.len() == 0 {
                return None;
            }
            if children.len() == 1 {
                let only = children.remove(0);
                assert(only@ == red[0]);
                return Some(only);
            }
            if operator_type != OperatorType::Loop {
                let mut rest2: Vec<Node> = Vec::new();
                std::mem::swap(&mut rest2, &mut children);
                let ghost nodes = rest2@;
                let m = rest2.len();
                let mut j: usize = 0;
                while j < m
                    invariant
                        0 <= j <= m,
                        m == nodes.len(),
                        red == trees(nodes),
                        rest2@ == nodes.subrange(j as int, m as int),
                        trees(children@) == flattened(operator_type, red.take(j as int)),
                    decreases m - j,
                {
                    let c = rest2.remove(0);
                    assert(c == nodes[j as int]);
                    proof {
                        assert(red.take(j + 1).drop_last() =~= red.take(j as int));
                        assert(red.take(j + 1).last() == c@);
                    }
                    let ghost before = children@;
                    match c {
                        Node::Operator(child_op) => {
                            if same_operator_type(&child_op.operator_type, &operator_type) {
                                let mut grand = child_op.children;
                                let ghost g = grand@;
                                children.append(&mut grand);
                                assert(trees(children@) =~= trees(before) + trees(g));
                                assert(children_trees(nodes[j as int]@) =~= trees(g));
                            } else {
                                children.push(Node::Operator(child_op));
                                assert(trees(children@) =~= trees(before).push(nodes[j as int]@));
                            }
                        },
                        other => {
                            children.push(other);
                            assert(trees(children@) =~= trees(before).push(nodes[j as int]@));
                        },
                    }
                    assert(rest2@ =~= nodes.subrange(j + 1, m as int));
                    assert(trees(children@) =~= flattened(operator_type, red.take(j + 1)));
                    j += 1;
                }
                assert(red.take(m as int) =~= red);
            }
            if children.len() == 0 {
                None
            } else if children.len() == 1 {
                let only = children.remove(0);
                Some(only)
            } else {
                let r = Node::Operator(Operator { operator_type, children });
                assert(children_trees(r@) =~= trees(children@));
                Some(r)
            }
        },
    }
}

/// The simplified tree; a tau leaf where nothing is left.
pub fn simplify_process_tree(tree: &ProcessTree) -> (r: ProcessTree)
    ensures
        r@ == match simplified(tree@) {
            Some(t) => t,
            None => PTree::Leaf(None),
        },
{
    let copy = copy_node(&tree.root);
    match simplify_node(copy) {
        Some(n) => ProcessTree { root: n },
        None => ProcessTree { root: tau_node() },
    }
}

/// Every loop of the tree has at least one child.
pub open spec fn loops_have_children(t: PTree) -> bool
    decreases t,
{
    match t {
        PTree::Leaf(_) => true,
        PTree::Op(op, cs) => (op == OperatorType::Loop ==> cs.len() > 0)
            && forall|i: int| 0 <= i < cs.len() ==> loops_have_children(#[trigger] cs[i]),
    }
}

/// Every tree of the sequence has loops with children only.
pub open spec fn all_loops_have_children(cs: Seq<PTree>) -> bool {
    forall|i: int| 0 <= i < cs.len() ==> loops_have_children(#[trigger] cs[i])
}

proof fn lemma_somes_shaped(s: Seq<Option<PTree>>)
    requires
        forall|i: int| 0 <= i < s.len() && (#[trigger] s[i]) is Some ==> loops_have_children(s[i]->0),
    ensures
        all_loops_have_children(somes(s)),
    decreases s.len(),
{
    if s.len() > 0 {
        lemma_somes_shaped(s.drop_last());
        assert(s.last() == s[s.len() - 1]);
        let rest = somes(s.drop_last());
        let tail: Seq<PTree> = match s.last() {
            Some(t) => seq![t],
            None => Seq::empty(),
        };
        assert forall|i: int| 0 <= i < (rest + tail).len() implies loops_have_children(#[trigger] (rest + tail)[i]) by {
            if i >= rest.len() {
                assert((rest + tail)[i] == tail[i - rest.len()]);
            } else {
                assert((rest + tail)[i] == rest[i]);
            }
        }
    }
}

proof fn lemma_without_taus_shaped(cs: Seq<PTree>)
    requires
        all_loops_have_children(cs),
    ensures
        all_loops_have_children(without_taus(cs)),
    decreases cs.len(),
{
    if cs.len() > 0 {
        assert(all_loops_have_children(cs.drop_last())) by {
            assert forall|i: int| 0 <= i < cs.drop_last().len() implies loops_have_children(#[trigger] cs.drop_last()[i]) by {
                assert(cs.drop_last()[i] == cs[i]);
            }
        }
        lemma_without_taus_shaped(cs.drop_last());
        assert(loops_have_children(cs[cs.len() - 1]));
        let rest = without_taus(cs.drop_last());
        let tail: Seq<PTree> = if is_tau(cs.last()) { Seq::empty() } else { seq![cs.last()] };
        assert forall|i: int| 0 <= i < (rest + tail).len() implies loops_have_children(#[trigger] (rest + tail)[i]) by {
            if i >= rest.len() {
                assert((rest + tail)[i] == tail[i - rest.len()]);
            } else {
                assert((rest + tail)[i] == rest[i]);
            }
        }
    }
}

proof fn lemma_first_tau_only_shaped(cs: Seq<PTree>)
    requires
        all_loops_have_children(cs),
    ensures
        all_loops_have_children(first_tau_only(cs)),
    decreases cs.len(),
{
    if cs.len() > 0 {
        assert(all_loops_have_children(cs.drop_last())) by {
            assert forall|i: int| 0 <= i < cs.drop_last().len() implies loops_have_children(#[trigger] cs.drop_last()[i]) by {
                assert(cs.drop_last()[i] == cs[i]);
            }
        }
        lemma_first_tau_only_shaped(cs.drop_last());
        assert(loops_have_children(cs[cs.len() - 1]));
        let rest = first_tau_only(cs.drop_last());
        let tail: Seq<PTree> = if is_tau(cs.last()) && tau_count(cs.drop_last()) > 0 { Seq::empty() } else { seq![cs.last()] };
        assert forall|i: int| 0 <= i < (rest + tail).len() implies loops_have_children(#[trigger] (rest + tail)[i]) by {
            if i >= rest.len() {
                assert((rest + tail)[i] == tail[i - rest.len()]);
            } else {
                assert((rest + tail)[i] == rest[i]);
            }
        }
    }
}

proof fn lemma_flattened_shaped(op: OperatorType, cs: Seq<PTree>)
    requires
        all_loops_have_children(cs),
    ensures
        all_loops_have_children(flattened(op, cs)),
    decreases cs.len(),
{
    if cs.len() > 0 {
        assert(all_loops_have_children(cs.drop_last())) by {
            assert forall|i: int| 0 <= i < cs.drop_last().len() implies loops_have_children(#[trigger] cs.drop_last()[i]) by {
                assert(cs.drop_last()[i] == cs[i]);
            }
        }
        lemma_flattened_shaped(op, cs.drop_last());
        assert(loops_have_children(cs[cs.len() - 1]));
        let rest = flattened(op, cs.drop_last());
        let tail: Seq<PTree> = match cs.last() {
            PTree::Op(o2, gcs) => if o2 == op { gcs } else { seq![cs.last()] },
            PTree::Leaf(_) => seq![cs.last()],
        };
        assert forall|i: int| 0 <= i < (rest + tail).len() implies loops_have_children(#[trigger] (rest + tail)[i]) by {
            if i >= rest.len() {
                assert((rest + tail)[i] == tail[i - rest.len()]);
            } else {
                assert((rest + tail)[i] == rest[i]);
            }
        }
    }
}

/// In a simplified tree every loop has at least one child.
pub proof fn lemma_simplified_loops_have_children(t: PTree)
    ensures
        simplified(t) matches Some(s) ==> loops_have_children(s),
    decreases t,
{
    match t {
        PTree::Leaf(_) => {},
        PTree::Op(op, cs) => {
            let each = simplified_each(cs);
            assert forall|i: int| 0 <= i < each.len() && (#[trigger] each[i]) is Some implies loops_have_children(each[i]->0) by {
                lemma_simplified_loops_have_children(cs[i]);
            }
            lemma_somes_shaped(each);
            let kept = somes(each);
            let red = tau_reduced(op, kept);
            assert(all_loops_have_children(red)) by {
                let n = tau_count(kept);
                if n == 0 {
                } else if n == kept.len() {
                    if op == OperatorType::Loop {
                        if kept.len() == 2 {
                            lemma_without_taus_shaped(kept);
                        }
                    } else {
                        assert forall|i: int| 0 <= i < kept.take(1).len() implies loops_have_children(#[trigger] kept.take(1)[i]) by {
                            assert(kept.take(1)[i] == kept[i]);
                        }
                    }
                } else {
                    lemma_without_taus_shaped(kept);
                    lemma_first_tau_only_shaped(kept);
                }
            }
            if red.len() > 1 {
                let flat = if op == OperatorType::Loop { red } else { flattened(op, red) };
                if op != OperatorType::Loop {
                    lemma_flattened_shaped(op, red);
                }
                if flat.len() > 1 {
                    assert(loops_have_children(PTree::Op(op, flat)));
                } else if flat.len() == 1 {
                    assert(loops_have_children(flat[0]));
                }
            } else if red.len() == 1 {
                assert(loops_have_children(red[0]));
            }
        },
    }
}

} // verus!
