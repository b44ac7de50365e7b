//! The abstract syntax of tree definitions, between parse and resolution.

use vstd::prelude::*;
use crate::value::{Value, ValueV, value_view};

verus! {

/// A node of the abstract tree.
#[derive(Debug)]
pub enum Node {
    Sequence(Vec<Node>),
    Selector(Vec<Node>),
    Priority(Vec<Node>),
    Leaf(String, Option<Value>),
    Inverter(Box<Node>),
}

/// A named abstract tree.
#[derive(Debug)]
pub struct Tree {
    pub name: String,
    pub root: Node,
}

/// The mathematical value of an abstract node.
pub enum NodeV {
    Sequence(Seq<NodeV>),
    Selector(Seq<NodeV>),
    Priority(Seq<NodeV>),
    Leaf(Seq<char>, Option<ValueV>),
    Inverter(Box<NodeV>),
}

/// The mathematical value of a named abstract tree.
pub struct TreeV {
    pub name: Seq<char>,
    pub root: NodeV,
}

/// The mathematical value of an abstract node.
pub open spec fn node_view(n: Node) -> NodeV
    decreases n,
{
    match n {
        Node::Sequence(cs) => NodeV::Sequence(node_views(cs@)),
        Node::Selector(cs) => NodeV::Selector(node_views(cs@)),
        Node::Priority(cs) => NodeV::Priority(node_views(cs@)),
        Node::Leaf(name, opt) => NodeV::Leaf(
            name@,
            match opt {
                Some(v) => Some(value_view(v)),
                None => None,
            },
        ),
        Node::Inverter(c) => NodeV::Inverter(Box::new(node_view(*c))),
    }
}

/// The mathematical values of a list of abstract nodes, in order.
pub open spec fn node_views(ns: Seq<Node>) -> Seq<NodeV>
    decreases ns,
{
    if ns.len() == 0 {
        Seq::empty()
    } else {
        seq![node_view(ns[0])] + node_views(ns.drop_first())
    }
}

pub proof fn lemma_node_views(ns: Seq<Node>)
    ensures
        node_views(ns).len() == ns.len(),
        forall|i: int| 0 <= i < ns.len() ==> node_views(ns)[i] == node_view(ns[i]),
    decreases ns,
{
    if ns.len() > 0 {
        lemma_node_views(ns.drop_first());
    }
}

/// The recursive node views coincide with the element-wise deep view.
pub proof fn lemma_node_views_deep(cs: &Vec<Node>)
    ensures
        node_views(cs@) == cs.deep_view(),
{
    lemma_node_views(cs@);
    assert(node_views(cs@) =~= cs.deep_view());
}

impl View for Node {
    type V = NodeV;

    open spec fn view(&self) -> NodeV {
        node_view(*self)
    }
}

impl DeepView for Node {
    type V = NodeV;

    open spec fn deep_view(&self) -> NodeV {
        self.view()
    }
}

impl View for Tree {
    type V = TreeV;

    open spec fn view(&self) -> TreeV {
        TreeV { name: self.name@, root: node_view(self.root) }
    }
}

impl DeepView for Tree {
    type V = TreeV;

    open spec fn deep_view(&self) -> TreeV {
        self.view()
    }
}

} // verus!
