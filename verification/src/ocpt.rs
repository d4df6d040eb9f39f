//! Object-centric process trees: leaves annotated with the object types that
//! they relate to, diverge, converge or are deficient for.
use vstd::prelude::*;

verus! {

#[derive(Debug, Clone)]
pub enum OCPTLeafLabel {
    Activity(String),
    Tau,
}

/// A leaf of an object-centric process tree.
#[derive(Debug, Clone)]
pub struct OCPTLeaf {
    pub uuid: u128,
    pub activity_label: OCPTLeafLabel,
    pub related_ob_types: Vec<String>,
    pub divergent_ob_types: Vec<String>,
    pub convergent_ob_types: Vec<String>,
    pub deficient_ob_types: Vec<String>,
}

/// How the object types of the two sides of an identity relation behave.
#[derive(Debug, Clone, Copy, PartialEq, Eq, Structural)]
pub enum IdentityRelationKind {
    Sync,
    ImpConcurrent,
    ImpOrdered,
    SubsetSyncPartition,
    SubsetSyncOverlap,
    ObjectSplit,
    ObjectMerge,
}

/// An identity relation between two sets of object types.
#[derive(Debug, Clone)]
pub struct IdentityRelation {
    pub left: Vec<String>,
    pub right: Vec<String>,
    pub kind: IdentityRelationKind,
}

#[derive(Debug, Clone)]
pub enum OCPTOperatorType {
    Sequence,
    ExclusiveChoice,
    Concurrency,
    /// A loop, with an optional bound on its repetitions.
    Loop(Option<u64>),
    IdentityRelation(IdentityRelation),
}

pub struct OCPTOperator {
    pub operator_type: OCPTOperatorType,
    pub children: Vec<OCPTNode>,
}

pub enum OCPTNode {
    Leaf(OCPTLeaf),
    Operator(OCPTOperator),
}

/// An object-centric process tree.
pub struct OCPT {
    pub root: OCPTNode,
}

impl OCPTOperator {
    pub fn new(operator_type: OCPTOperatorType) -> (r: Self)
        ensures
            r.operator_type == operator_type,
            r.children@.len() == 0,
    {
        OCPTOperator { operator_type, children: Vec::new() }
    }

    /// An identity-relation operator wrapping `child`.
    pub fn new_identity(relation: IdentityRelation, child: OCPTNode) -> (r: Self)
        ensures
            r.operator_type == OCPTOperatorType::IdentityRelation(relation),
            r.children@ == seq![child],
    {
        let mut children = Vec::new();
        children.push(child);
        OCPTOperator { operator_type: OCPTOperatorType::IdentityRelation(relation), children }
    }
}

impl OCPT {
    pub fn new(root: OCPTNode) -> (r: Self)
        ensures
            r.root == root,
    {
        OCPT { root }
    }
}

/// Number of children of an operator node (0 for a leaf).
pub open spec fn child_count(node: OCPTNode) -> nat {
    match node {
        OCPTNode::Leaf(_) => 0,
        OCPTNode::Operator(op) => op.children@.len(),
    }
}

/// The leaves of a tree, left to right.
pub open spec fn leaves(node: OCPTNode) -> Seq<OCPTLeaf>
    decreases node, child_count(node) + 1,
{
    match node {
        OCPTNode::Leaf(leaf) => seq![leaf],
        OCPTNode::Operator(op) => leaves_of_children(node, op.children@.len() as int),
    }
}

/// The leaves of the first `k` children of `node`, left to right.
pub open spec fn leaves_of_children(node: OCPTNode, k: int) -> Seq<OCPTLeaf>
    decreases node, (if k > 0 { k as nat } else { 0nat }),
{
    match node {
        OCPTNode::Leaf(_) => Seq::empty(),
        OCPTNode::Operator(op) => if k <= 0 || k > op.children@.len() {
            Seq::empty()
        } else {
            leaves_of_children(node, k - 1) + leaves(op.children@[k - 1])
        },
    }
}

/// The leaves of the tree, left to right.
pub fn find_all_leaves(node: &OCPTNode) -> (r: Vec<&OCPTLeaf>)
    ensures
        r@.len() == leaves(*node).len(),
        forall|i: int| 0 <= i < r@.len() ==> *(#[trigger] r@[i]) == leaves(*node)[i],
    decreases node,
{
    let mut out: Vec<&OCPTLeaf> = Vec::new();
    match node {
        OCPTNode::Leaf(leaf) => {
            out.push(leaf);
        },
        OCPTNode::Operator(op) => {
            let mut k: usize = 0;
            while k < op.children.len()
                invariant
                    0 <= k <= op.children@.len(),
                    *node == OCPTNode::Operator(*op),
                    out@.len() == leaves_of_children(*node, k as int).len(),
                    forall|i: int| 0 <= i < out@.len() ==> *(#[trigger] out@[i]) == leaves_of_children(*node, k as int)[i],
                decreases op.children@.len() - k,
            {
                let sub = find_all_leaves(&op.children[k]);
                let ghost before = out@;
                let mut j: usize = 0;
                while j < sub.len()
                    invariant
                        0 <= j <= sub@.len(),
                        out@.len() == before.len() + j,
                        forall|i: int| 0 <= i < before.len() ==> out@[i] == before[i],
                        forall|i: int| 0 <= i < j ==> out@[before.len() + i] == sub@[i],
                    decreases sub@.len() - j,
                {
                    out.push(sub[j]);
                    j += 1;
                }
                proof {
                    let lk = leaves_of_children(*node, k + 1);
                    assert(lk == leaves_of_children(*node, k as int) + leaves(op.children@[k as int]));
                    assert forall|i: int| 0 <= i < out@.len() implies *(#[trigger] out@[i]) == lk[i] by {
                        if i < before.len() {
                            assert(out@[i] == before[i]);
                        } else {
                            assert(out@[i] == sub@[i - before.len()]);
                        }
                    }
                }
                k += 1;
            }
            assert(leaves(*node) == leaves_of_children(*node, op.children@.len() as int));
        },
    }
    out
}

/// The kind of an operator as a value.
#[verifier::ext_equal]
pub ghost enum OpKind {
    Sequence,
    ExclusiveChoice,
    Concurrency,
    Loop(Option<u64>),
    Identity(Seq<Seq<char>>, Seq<Seq<char>>, IdentityRelationKind),
}

/// An object-centric process tree as a value.
#[verifier::ext_equal]
pub ghost enum OTree {
    Leaf(OCPTLeaf),
    Op(OpKind, Seq<OTree>),
}

impl OCPTOperatorType {
    pub open spec fn view(&self) -> OpKind {
        match self {
            OCPTOperatorType::Sequence => OpKind::Sequence,
            OCPTOperatorType::ExclusiveChoice => OpKind::ExclusiveChoice,
            OCPTOperatorType::Concurrency => OpKind::Concurrency,
            OCPTOperatorType::Loop(bound) => OpKind::Loop(*bound),
            OCPTOperatorType::IdentityRelation(rel) => OpKind::Identity(
                rel.left@.map_values(|s: String| s@),
                rel.right@.map_values(|s: String| s@),
                rel.kind,
            ),
        }
    }
}

impl OCPTNode {
    pub open spec fn view(&self) -> OTree
        decreases self,
    {
        match self {
            OCPTNode::Leaf(leaf) => OTree::Leaf(*leaf),
            OCPTNode::Operator(op) => OTree::Op(
                op.operator_type@,
                Seq::new(op.children@.len(), |i: int| if 0 <= i < op.children@.len() { op.children@[i].view() } else { OTree::Op(OpKind::Sequence, Seq::empty()) }),
            ),
        }
    }
}

} // verus!
