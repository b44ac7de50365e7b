//! The factory tree: the reusable blueprint built by resolution, from
//! which runtime instances are minted.

use vstd::prelude::*;
use vstd::string::*;
use crate::tree::{LeafFactory, LeafS, NodeS};
use crate::non_optimized::{
    Node, Tree, SequenceNode, SelectorNode, PriorityNode, InverterNode, rt_views, lemma_rt_views,
};

verus! {

/// The mathematical value of a factory node.
pub enum FacS {
    Leaf(LeafS),
    Sequence(Seq<FacS>),
    Selector(Seq<FacS>),
    Priority(Seq<FacS>),
    Inverter(Box<FacS>),
    Subtree(Seq<char>),
}

/// The mathematical value of a named tree factory.
pub struct TreeFacV {
    pub name: Seq<char>,
    pub root: FacS,
}

/// The blueprint of a named tree; immutable after resolution, it can
/// be instantiated any number of times.
#[derive(Debug)]
pub struct TreeFactory {
    name: String,
    root: NodeFactory,
}

/// The blueprint of a sequence node.
#[derive(Debug)]
pub struct SequenceNodeFactory {
    pub children: Vec<NodeFactory>,
}

/// The blueprint of a selector node.
#[derive(Debug)]
pub struct SelectorNodeFactory {
    pub children: Vec<NodeFactory>,
}

/// The blueprint of a priority node.
#[derive(Debug)]
pub struct PriorityNodeFactory {
    pub children: Vec<NodeFactory>,
}

/// The blueprint of an inverter node.
#[derive(Debug)]
pub struct InverterNodeFactory {
    pub child: Box<NodeFactory>,
}

/// The blueprint of one node of a tree.
#[derive(Debug)]
pub enum NodeFactory {
    Leaf(LeafFactory),
    Sequence(SequenceNodeFactory),
    Priority(PriorityNodeFactory),
    Selector(SelectorNodeFactory),
    Inverter(InverterNodeFactory),
    Subtree(String),
}

/// The mathematical value of a factory node.
pub open spec fn fac_view(f: NodeFactory) -> FacS
    decreases f,
{
    match f {
        NodeFactory::Leaf(l) => FacS::Leaf(l@),
        NodeFactory::Sequence(s) => FacS::Sequence(fac_views(s.children@)),
        NodeFactory::Priority(p) => FacS::Priority(fac_views(p.children@)),
        NodeFactory::Selector(s) => FacS::Selector(fac_views(s.children@)),
        NodeFactory::Inverter(i) => FacS::Inverter(Box::new(fac_view(*i.child))),
        NodeFactory::Subtree(name) => FacS::Subtree(name@),
    }
}

/// The mathematical values of a list of factory nodes, in order.
pub open spec fn fac_views(fs: Seq<NodeFactory>) -> Seq<FacS>
    decreases fs,
{
    if fs.len() == 0 {
        Seq::empty()
    } else {
        seq![fac_view(fs[0])] + fac_views(fs.drop_first())
    }
}

pub proof fn lemma_fac_views(fs: Seq<NodeFactory>)
    ensures
        fac_views(fs).len() == fs.len(),
        forall|i: int| 0 <= i < fs.len() ==> fac_views(fs)[i] == fac_view(fs[i]),
    decreases fs,
{
    if fs.len() > 0 {
        lemma_fac_views(fs.drop_first());
    }
}

impl View for NodeFactory {
    type V = FacS;

    open spec fn view(&self) -> FacS {
        fac_view(*self)
    }
}

impl View for TreeFactory {
    type V = TreeFacV;

    closed spec fn view(&self) -> TreeFacV {
        TreeFacV { name: self.name@, root: fac_view(self.root) }
    }
}

/// Whether an unlinked `subtree` reference stands anywhere in the
/// blueprint; instantiating or flattening such a blueprint is a
/// build-time error.
pub open spec fn has_subtree(f: FacS) -> bool
    decreases f,
{
    match f {
        FacS::Leaf(_) => false,
        FacS::Sequence(cs) => has_subtree_list(cs),
        FacS::Selector(cs) => has_subtree_list(cs),
        FacS::Priority(cs) => has_subtree_list(cs),
        FacS::Inverter(c) => has_subtree(*c),
        FacS::Subtree(_) => true,
    }
}

/// Whether any node of a list holds a `subtree` reference.
pub open spec fn has_subtree_list(cs: Seq<FacS>) -> bool
    decreases cs,
{
    if cs.len() == 0 {
        false
    } else {
        has_subtree(cs[0]) || has_subtree_list(cs.drop_first())
    }
}

pub proof fn lemma_has_subtree_list(cs: Seq<FacS>)
    ensures
        has_subtree_list(cs) <==> exists|i: int| 0 <= i < cs.len() && has_subtree(cs[i]),
    decreases cs,
{
    if cs.len() > 0 {
        lemma_has_subtree_list(cs.drop_first());
        if has_subtree(cs[0]) {
        } else if has_subtree_list(cs.drop_first()) {
            let i = choose|i: int|
                0 <= i < cs.drop_first().len() && has_subtree(cs.drop_first()[i]);
            assert(cs[i + 1] == cs.drop_first()[i]);
        } else {
            assert forall|i: int| 0 <= i < cs.len() implies !has_subtree(cs[i]) by {
                if i > 0 {
                    assert(cs.drop_first()[i - 1] == cs[i]);
                }
            }
        }
    }
}

/// The fresh runtime state minted from a blueprint: every composite
/// starts with no resumption state and every leaf gets a fresh
/// behaviour.
pub open spec fn instantiate_spec(f: FacS) -> NodeS
    decreases f,
{
    match f {
        FacS::Leaf(l) => NodeS::Leaf(l),
        FacS::Sequence(cs) => NodeS::Sequence(None, instantiate_list(cs)),
        FacS::Selector(cs) => NodeS::Selector(None, instantiate_list(cs)),
        FacS::Priority(cs) => NodeS::Priority(instantiate_list(cs)),
        FacS::Inverter(c) => NodeS::Inverter(Box::new(instantiate_spec(*c))),
        // Never reached: instantiation demands a blueprint without
        // subtree references.
        FacS::Subtree(_) => NodeS::Priority(Seq::empty()),
    }
}

/// The fresh runtime states of a list of blueprints, in order.
pub open spec fn instantiate_list(cs: Seq<FacS>) -> Seq<NodeS>
    decreases cs,
{
    if cs.len() == 0 {
        Seq::empty()
    } else {
        seq![instantiate_spec(cs[0])] + instantiate_list(cs.drop_first())
    }
}

pub proof fn lemma_instantiate_list(cs: Seq<FacS>)
    ensures
        instantiate_list(cs).len() == cs.len(),
        forall|i: int| 0 <= i < cs.len() ==> instantiate_list(cs)[i] == instantiate_spec(cs[i]),
    decreases cs,
{
    if cs.len() > 0 {
        lemma_instantiate_list(cs.drop_first());
    }
}

/// Instantiates every blueprint of a list, in order.
fn instanciate_children(children: &Vec<NodeFactory>) -> (r: Vec<Node>)
    requires
        !has_subtree_list(fac_views(children@)),
    ensures
        rt_views(r@) == instantiate_list(fac_views(children@)),
    decreases children@, 1int,
{
    let ghost fvs = fac_views(children@);
    proof {
        lemma_fac_views(children@);
        lemma_has_subtree_list(fvs);
        lemma_instantiate_list(fvs);
    }
    let mut out: Vec<Node> = Vec::new();
    let mut i: usize = 0;
    while i < children.len()
        invariant
            0 <= i <= children@.len(),
            fvs == fac_views(children@),
            fvs.len() == children@.len(),
            forall|j: int| 0 <= j < children@.len() ==> fvs[j] == fac_view(children@[j]),
            forall|j: int| 0 <= j < children@.len() ==> !has_subtree(fvs[j]),
            out@.len() == i,
            forall|j: int|
                0 <= j < i ==> crate::non_optimized::rt_view(out@[j]) == instantiate_spec(fvs[j]),
        decreases children@.len() - i,
    {
        proof {
            assert(fac_view(children@[i as int]) == fvs[i as int]);
        }
        let child = children[i].instanciate();
        out.push(child);
        i += 1;
    }
    proof {
        lemma_rt_views(out@);
        lemma_instantiate_list(fvs);
        assert(rt_views(out@) =~= instantiate_list(fvs));
    }
    out
}

impl NodeFactory {
    /// Mints a fresh runtime node from the blueprint.
    pub fn instanciate(&self) -> (r: Node)
        requires
            !has_subtree(self@),
        ensures
            r@ == instantiate_spec(self@),
        decreases *self, 0int,
    {
        match self {
            NodeFactory::Leaf(f) => Node::Leaf(f.instanciate()),
            NodeFactory::Sequence(s) => Node::Sequence(s.instanciate()),
            NodeFactory::Priority(p) => Node::Priority(p.instanciate()),
            NodeFactory::Selector(s) => Node::Selector(s.instanciate()),
            NodeFactory::Inverter(i) => Node::Inverter(i.instanciate()),
            NodeFactory::Subtree(_) => {
                proof {
                    assert(false);
                }
                Node::Priority(PriorityNode::new(Vec::new()))
            }
        }
    }

    /// Whether an unlinked `subtree` reference stands anywhere below.
    pub fn contains_subtree(&self) -> (r: bool)
        ensures
            r == has_subtree(self@),
        decreases *self, 0int,
    {
        match self {
            NodeFactory::Leaf(_) => false,
            NodeFactory::Sequence(s) => children_contain_subtree(&s.children),
            NodeFactory::Priority(p) => children_contain_subtree(&p.children),
            NodeFactory::Selector(s) => children_contain_subtree(&s.children),
            NodeFactory::Inverter(i) => (&*i.child).contains_subtree(),
            NodeFactory::Subtree(_) => true,
        }
    }

    pub fn new_leaf(factory: LeafFactory) -> (r: NodeFactory)
        ensures
            r@ == FacS::Leaf(factory@),
    {
        NodeFactory::Leaf(factory)
    }

    pub fn new_sequence(children: Vec<NodeFactory>) -> (r: NodeFactory)
        ensures
            r@ == FacS::Sequence(fac_views(children@)),
    {
        NodeFactory::Sequence(SequenceNodeFactory::new(children))
    }

    pub fn new_selector(children: Vec<NodeFactory>) -> (r: NodeFactory)
        ensures
            r@ == FacS::Selector(fac_views(children@)),
    {
        NodeFactory::Selector(SelectorNodeFactory::new(children))
    }

    pub fn new_priority(children: Vec<NodeFactory>) -> (r: NodeFactory)
        ensures
            r@ == FacS::Priority(fac_views(children@)),
    {
        NodeFactory::Priority(PriorityNodeFactory::new(children))
    }

    pub fn new_inverter(child: Box<NodeFactory>) -> (r: NodeFactory)
        ensures
            r@ == FacS::Inverter(Box::new(fac_view(*child))),
    {
        NodeFactory::Inverter(InverterNodeFactory::new(child))
    }

    pub fn new_subtree(name: String) -> (r: NodeFactory)
        ensures
            r@ == FacS::Subtree(name@),
    {
        NodeFactory::Subtree(name)
    }
}

/// Whether any blueprint of a list holds a `subtree` reference.
fn children_contain_subtree(children: &Vec<NodeFactory>) -> (r: bool)
    ensures
        r == has_subtree_list(fac_views(children@)),
    decreases children@, 1int,
{
    let ghost fvs = fac_views(children@);
    proof {
        lemma_fac_views(children@);
        lemma_has_subtree_list(fvs);
    }
    let mut i: usize = 0;
    while i < children.len()
        invariant
            0 <= i <= children@.len(),
            fvs == fac_views(children@),
            fvs.len() == children@.len(),
            forall|j: int| 0 <= j < children@.len() ==> fvs[j] == fac_view(children@[j]),
            forall|j: int| 0 <= j < i ==> !has_subtree(fvs[j]),
        decreases children@.len() - i,
    {
        if children[i].contains_subtree() {
            proof {
                assert(has_subtree(fvs[i as int]));
                lemma_has_subtree_list(fvs);
            }
            return true;
        }
        i += 1;
    }
    proof {
        lemma_has_subtree_list(fvs);
    }
    false
}

impl SequenceNodeFactory {
    pub fn new(children: Vec<NodeFactory>) -> (r: SequenceNodeFactory)
        ensures
            fac_views(r.children@) == fac_views(children@),
    {
        SequenceNodeFactory { children }
    }

    pub fn push(&mut self, node: NodeFactory)
        ensures
            final(self).children@ == old(self).children@.push(node),
    {
        self.children.push(node);
    }

    /// A fresh sequence instance with no resumption state.
    pub fn instanciate(&self) -> (r: SequenceNode)
        requires
            !has_subtree_list(fac_views(self.children@)),
        ensures
            r@ == NodeS::Sequence(None::<int>, instantiate_list(fac_views(self.children@))),
        decreases *self, 1int,
    {
        SequenceNode::new(instanciate_children(&self.children))
    }
}

impl SelectorNodeFactory {
    pub fn new(children: Vec<NodeFactory>) -> (r: SelectorNodeFactory)
        ensures
            fac_views(r.children@) == fac_views(children@),
    {
        SelectorNodeFactory { children }
    }

    pub fn push(&mut self, node: NodeFactory)
        ensures
            final(self).children@ == old(self).children@.push(node),
    {
        self.children.push(node);
    }

    /// A fresh selector instance with no resumption state.
    pub fn instanciate(&self) -> (r: SelectorNode)
        requires
            !has_subtree_list(fac_views(self.children@)),
        ensures
            r@ == NodeS::Selector(None::<int>, instantiate_list(fac_views(self.children@))),
        decreases *self, 1int,
    {
        SelectorNode::new(instanciate_children(&self.children))
    }
}

impl PriorityNodeFactory {
    pub fn new(children: Vec<NodeFactory>) -> (r: PriorityNodeFactory)
        ensures
            fac_views(r.children@) == fac_views(children@),
    {
        PriorityNodeFactory { children }
    }

    pub fn push(&mut self, node: NodeFactory)
        ensures
            final(self).children@ == old(self).children@.push(node),
    {
        self.children.push(node);
    }

    /// A fresh priority instance.
    pub fn instanciate(&self) -> (r: PriorityNode)
        requires
            !has_subtree_list(fac_views(self.children@)),
        ensures
            r@ == NodeS::Priority(instantiate_list(fac_views(self.children@))),
        decreases *self, 1int,
    {
        PriorityNode::new(instanciate_children(&self.children))
    }
}

impl InverterNodeFactory {
    pub fn new(child: Box<NodeFactory>) -> (r: InverterNodeFactory)
        ensures
            fac_view(*r.child) == fac_view(*child),
    {
        InverterNodeFactory { child }
    }

    /// A fresh inverter instance.
    pub fn instanciate(&self) -> (r: InverterNode)
        requires
            !has_subtree(fac_view(*self.child)),
        ensures
            r@ == NodeS::Inverter(Box::new(instantiate_spec(fac_view(*self.child)))),
        decreases *self, 1int,
    {
        InverterNode::new(Box::new((&*self.child).instanciate()))
    }
}

impl TreeFactory {
    pub fn new(root: NodeFactory, name: String) -> (r: TreeFactory)
        ensures
            r@ == (TreeFacV { name: name@, root: root@ }),
    {
        TreeFactory { name, root }
    }

    /// Whether an unlinked `subtree` reference stands anywhere in the
    /// blueprint.
    pub fn contains_subtree(&self) -> (r: bool)
        ensures
            r == has_subtree(self@.root),
    {
        self.root.contains_subtree()
    }

    /// Mints a fresh runtime tree from the blueprint.
    pub fn instanciate(&self) -> (r: Tree)
        requires
            !has_subtree(self@.root),
        ensures
            r@ == instantiate_spec(self@.root),
    {
        Tree::new(self.root.instanciate())
    }

    /// The tree's name in the source text.
    pub fn get_name(&self) -> (r: &str)
        ensures
            r@ == self@.name,
    {
        self.name.as_str()
    }

    /// The blueprint of the root node.
    pub fn root_factory(&self) -> (r: &NodeFactory)
        ensures
            r@ == self@.root,
    {
        &self.root
    }
}

} // verus!
