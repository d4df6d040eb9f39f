//! Case-centric process trees: leaves labelled by an activity or tau,
//! operators of four kinds.
use vstd::prelude::*;

verus! {

#[derive(Debug, Clone, Copy, PartialEq, Eq, Structural)]
pub enum OperatorType {
    Sequence,
    ExclusiveChoice,
    Concurrency,
    Loop,
}

#[derive(Debug, Clone)]
pub enum LeafLabel {
    Activity(String),
    Tau,
}

#[derive(Debug, Clone)]
pub struct Leaf {
    pub activity_label: LeafLabel,
}

pub struct Operator {
    pub operator_type: OperatorType,
    pub children: Vec<Node>,
}

pub enum Node {
    Leaf(Leaf),
    Operator(Operator),
}

pub struct ProcessTree {
    pub root: Node,
}

/// A process tree as a mathematical value: a leaf with an activity (or `None`
/// for tau), or an operator with its children.
pub ghost enum PTree {
    Leaf(Option<Seq<char>>),
    Op(OperatorType, Seq<PTree>),
}

impl Node {
    pub open spec fn view(&self) -> PTree
        decreases self,
    {
        match self {
            Node::Leaf(leaf) => match leaf.activity_label {
                LeafLabel::Activity(a) => PTree::Leaf(Some(a@)),
                LeafLabel::Tau => PTree::Leaf(None),
            },
            Node::Operator(op) => PTree::Op(
                op.operator_type,
                Seq::new(op.children@.len(), |i: int| if 0 <= i < op.children@.len() { op.children@[i].view() } else { PTree::Leaf(None) }),
            ),
        }
    }
}

impl ProcessTree {
    pub open spec fn view(&self) -> PTree {
        self.root@
    }

    /// A tree of one leaf with the given label (`None` for tau).
    pub fn new_leaf(label: Option<String>) -> (r: Self)
        ensures
            r@ == PTree::Leaf(match label { Some(a) => Some(a@), None => None }),
    {
        match label {
            Some(a) => ProcessTree { root: Node::Leaf(Leaf { activity_label: LeafLabel::Activity(a) }) },
            None => ProcessTree { root: Node::Leaf(Leaf { activity_label: LeafLabel::Tau }) },
        }
    }
}

} // verus!
