//! The recursive runtime tree: a fresh instance produced by a factory
//! tree, visited in place by the tick engine.

use vstd::prelude::*;
use crate::standard::Context;
use crate::expressions::EvalErr;
use crate::tree::{
    VisitResult, LeafNode, NodeS, TickOut, tick_node, tick_seq_rest, tick_sel_rest,
    start_index, shift_idx,
};

verus! {

/// A runtime tree instance.
#[derive(Debug)]
pub struct Tree {
    root: Node,
}

/// Visits all its children in order.  If one fails, the sequence fails
/// immediately; if all succeed, it succeeds.  A child that returned
/// `Running` is remembered and visited first on the next tick.
#[derive(Debug)]
pub struct SequenceNode {
    pub running: Option<usize>,
    pub children: Vec<Node>,
}

/// The counterpart of a sequence: the first child to succeed makes the
/// selector succeed, and it fails only when every child failed.
#[derive(Debug)]
pub struct SelectorNode {
    pub running: Option<usize>,
    pub children: Vec<Node>,
}

/// A sequence without memory: every tick starts again from the first
/// child.
#[derive(Debug)]
pub struct PriorityNode {
    pub children: Vec<Node>,
}

/// Inverts the output of its single child.
#[derive(Debug)]
pub struct InverterNode {
    pub child: Box<Node>,
}

/// A node of a runtime tree instance.
#[derive(Debug)]
pub enum Node {
    Leaf(LeafNode),
    Sequence(SequenceNode),
    Priority(PriorityNode),
    Selector(SelectorNode),
    Inverter(InverterNode),
}

/// The stored resumption index of a composite, as a mathematical value.
pub open spec fn run_view(r: Option<usize>) -> Option<int> {
    match r {
        Some(k) => Some(k as int),
        None => None,
    }
}

/// The mathematical value of a runtime node.
pub open spec fn rt_view(n: Node) -> NodeS
    decreases n,
{
    match n {
        Node::Leaf(l) => NodeS::Leaf(l@),
        Node::Sequence(s) => NodeS::Sequence(run_view(s.running), rt_views(s.children@)),
        Node::Selector(s) => NodeS::Selector(run_view(s.running), rt_views(s.children@)),
        Node::Priority(p) => NodeS::Priority(rt_views(p.children@)),
        Node::Inverter(i) => NodeS::Inverter(Box::new(rt_view(*i.child))),
    }
}

/// The mathematical values of a list of runtime nodes, in order.
pub open spec fn rt_views(ns: Seq<Node>) -> Seq<NodeS>
    decreases ns,
{
    if ns.len() == 0 {
        Seq::empty()
    } else {
        seq![rt_view(ns[0])] + rt_views(ns.drop_first())
    }
}

pub proof fn lemma_rt_views(ns: Seq<Node>)
    ensures
        rt_views(ns).len() == ns.len(),
        forall|i: int| 0 <= i < ns.len() ==> rt_views(ns)[i] == rt_view(ns[i]),
    decreases ns,
{
    if ns.len() > 0 {
        lemma_rt_views(ns.drop_first());
    }
}

impl View for Node {
    type V = NodeS;

    open spec fn view(&self) -> NodeS {
        rt_view(*self)
    }
}

impl View for SequenceNode {
    type V = NodeS;

    open spec fn view(&self) -> NodeS {
        NodeS::Sequence(run_view(self.running), rt_views(self.children@))
    }
}

impl View for SelectorNode {
    type V = NodeS;

    open spec fn view(&self) -> NodeS {
        NodeS::Selector(run_view(self.running), rt_views(self.children@))
    }
}

impl View for PriorityNode {
    type V = NodeS;

    open spec fn view(&self) -> NodeS {
        NodeS::Priority(rt_views(self.children@))
    }
}

impl View for InverterNode {
    type V = NodeS;

    open spec fn view(&self) -> NodeS {
        NodeS::Inverter(Box::new(rt_view(*self.child)))
    }
}

impl View for Tree {
    type V = NodeS;

    closed spec fn view(&self) -> NodeS {
        rt_view(self.root)
    }
}

/// The agreement between one tick's outcome and what the model says.
pub open spec fn matches_tick(
    t: TickOut,
    r: Result<VisitResult, EvalErr>,
    n: NodeS,
    c: crate::standard::CtxV,
) -> bool {
    &&& (match t.r {
        Ok(v) => r matches Ok(rv) && rv == v,
        Err(e) => r matches Err(x) && x@ == e,
    })
    &&& n == t.n
    &&& c == t.c
}

/// Walks a sequence's (or priority's) children from position `i`: the
/// walk's result and, for a child that kept running, its absolute
/// index.
fn seq_walk(children: &mut Vec<Node>, i: usize, context: &mut Context) -> (r: (
    Result<VisitResult, EvalErr>,
    Option<usize>,
))
    requires
        i <= old(children)@.len(),
    ensures
        ({
            let o = tick_seq_rest(rt_views(old(children)@).skip(i as int), old(context)@);
            &&& final(children)@.len() == old(children)@.len()
            &&& (forall|j: int| 0 <= j < i ==> final(children)@[j] == old(children)@[j])
            &&& rt_views(final(children)@).skip(i as int) == o.cs
            &&& (match o.r {
                Ok(v) => r.0 matches Ok(rv) && rv == v,
                Err(e) => r.0 matches Err(x) && x@ == e,
            })
            &&& final(context)@ == o.c
            &&& (match o.idx {
                Some(d) => r.1 == Some((i + d) as usize),
                None => r.1 is None,
            })
        }),
    decreases old(children)@.skip(i as int), 2int,
{
    let ghost cs0 = old(children)@;
    let ghost vs0 = rt_views(cs0);
    proof {
        lemma_rt_views(cs0);
    }
    if i >= children.len() {
        proof {
            assert(vs0.skip(i as int) =~= Seq::<NodeS>::empty());
            assert(rt_views(children@).skip(i as int) =~= Seq::<NodeS>::empty());
        }
        return (Ok(VisitResult::Success), None);
    }
    let ghost rest = cs0.skip(i as int);
    let ghost vrest = vs0.skip(i as int);
    proof {
        assert(rest[0] == cs0[i as int]);
        assert(vrest.len() > 0);
        assert(vrest[0] == vs0[i as int]);
        assert(vs0[i as int] == rt_view(cs0[i as int]));
    }
    let r0 = children[i].visit(context);
    let ghost mid = children@;
    let ghost t = tick_node(vrest[0], old(context)@);
    proof {
        assert(mid =~= cs0.update(i as int, mid[i as int]));
        assert(rt_view(mid[i as int]) == t.n);
    }
    match r0 {
        Ok(VisitResult::Success) => {
            proof {
                assert(mid.skip(i as int + 1) =~= rest.subrange(1, rest.len() as int));
                assert(decreases_to!(rest => rest.subrange(1, rest.len() as int)));
            }
            let (r1, idx1) = seq_walk(children, i + 1, context);
            proof {
                lemma_rt_views(mid);
                let o1 = tick_seq_rest(rt_views(mid).skip(i as int + 1), t.c);
                assert(rt_views(mid).skip(i as int + 1) =~= vrest.drop_first()) by {
                    lemma_rt_views(children@);
                    assert(forall|j: int|
                        i + 1 <= j < mid.len() ==> mid[j] == cs0[j]);
                }
                let o = tick_seq_rest(vrest, old(context)@);
                assert(o.r == o1.r && o.c == o1.c && o.idx == shift_idx(o1.idx, 1)
                    && o.cs == seq![t.n] + o1.cs);
                lemma_rt_views(children@);
                assert(rt_views(children@).skip(i as int) =~= seq![t.n] + o1.cs) by {
                    assert(children@[i as int] == mid[i as int]);
                    assert(rt_views(children@).skip(i as int + 1) == o1.cs);
                }
            }
            (r1, idx1)
        }
        Ok(VisitResult::Running) => {
            proof {
                lemma_rt_views(children@);
                assert(rt_views(children@).skip(i as int) =~= seq![t.n] + vrest.drop_first()) by {
                    assert(forall|j: int|
                        i + 1 <= j < mid.len() ==> mid[j] == cs0[j]);
                }
            }
            (Ok(VisitResult::Running), Some(i))
        }
        Ok(VisitResult::Failure) => {
            proof {
                lemma_rt_views(children@);
                assert(rt_views(children@).skip(i as int) =~= seq![t.n] + vrest.drop_first()) by {
                    assert(forall|j: int|
                        i + 1 <= j < mid.len() ==> mid[j] == cs0[j]);
                }
            }
            (Ok(VisitResult::Failure), None)
        }
        Err(e) => {
            proof {
                lemma_rt_views(children@);
                assert(rt_views(children@).skip(i as int) =~= seq![t.n] + vrest.drop_first()) by {
                    assert(forall|j: int|
                        i + 1 <= j < mid.len() ==> mid[j] == cs0[j]);
                }
            }
            (Err(e), None)
        }
    }
}

/// Walks a selector's children from position `i`.
fn sel_walk(children: &mut Vec<Node>, i: usize, context: &mut Context) -> (r: (
    Result<VisitResult, EvalErr>,
    Option<usize>,
))
    requires
        i <= old(children)@.len(),
    ensures
        ({
            let o = tick_sel_rest(rt_views(old(children)@).skip(i as int), old(context)@);
            &&& final(children)@.len() == old(children)@.len()
            &&& (forall|j: int| 0 <= j < i ==> final(children)@[j] == old(children)@[j])
            &&& rt_views(final(children)@).skip(i as int) == o.cs
            &&& (match o.r {
                Ok(v) => r.0 matches Ok(rv) && rv == v,
                Err(e) => r.0 matches Err(x) && x@ == e,
            })
            &&& final(context)@ == o.c
            &&& (match o.idx {
                Some(d) => r.1 == Some((i + d) as usize),
                None => r.1 is None,
            })
        }),
    decreases old(children)@.skip(i as int), 2int,
{
    let ghost cs0 = old(children)@;
    let ghost vs0 = rt_views(cs0);
    proof {
        lemma_rt_views(cs0);
    }
    if i >= children.len() {
        proof {
            assert(vs0.skip(i as int) =~= Seq::<NodeS>::empty());
            assert(rt_views(children@).skip(i as int) =~= Seq::<NodeS>::empty());
        }
        return (Ok(VisitResult::Failure), None);
    }
    let ghost rest = cs0.skip(i as int);
    let ghost vrest = vs0.skip(i as int);
    proof {
        assert(rest[0] == cs0[i as int]);
        assert(vrest.len() > 0);
        assert(vrest[0] == vs0[i as int]);
        assert(vs0[i as int] == rt_view(cs0[i as int]));
    }
    let r0 = children[i].visit(context);
    let ghost mid = children@;
    let ghost t = tick_node(vrest[0], old(context)@);
    proof {
        assert(mid =~= cs0.update(i as int, mid[i as int]));
        assert(rt_view(mid[i as int]) == t.n);
    }
    match r0 {
        Ok(VisitResult::Failure) => {
            proof {
                assert(mid.skip(i as int + 1) =~= rest.subrange(1, rest.len() as int));
                assert(decreases_to!(rest => rest.subrange(1, rest.len() as int)));
            }
            let (r1, idx1) = sel_walk(children, i + 1, context);
            proof {
                lemma_rt_views(mid);
                let o1 = tick_sel_rest(rt_views(mid).skip(i as int + 1), t.c);
                assert(rt_views(mid).skip(i as int + 1) =~= vrest.drop_first()) by {
                    lemma_rt_views(children@);
                    assert(forall|j: int|
                        i + 1 <= j < mid.len() ==> mid[j] == cs0[j]);
                }
                let o = tick_sel_rest(vrest, old(context)@);
                assert(o.r == o1.r && o.c == o1.c && o.idx == shift_idx(o1.idx, 1)
                    && o.cs == seq![t.n] + o1.cs);
                lemma_rt_views(children@);
                assert(rt_views(children@).skip(i as int) =~= seq![t.n] + o1.cs) by {
                    assert(children@[i as int] == mid[i as int]);
                    assert(rt_views(children@).skip(i as int + 1) == o1.cs);
                }
            }
            (r1, idx1)
        }
        Ok(VisitResult::Running) => {
            proof {
                lemma_rt_views(children@);
                assert(rt_views(children@).skip(i as int) =~= seq![t.n] + vrest.drop_first()) by {
                    assert(forall|j: int|
                        i + 1 <= j < mid.len() ==> mid[j] == cs0[j]);
                }
            }
            (Ok(VisitResult::Running), Some(i))
        }
        Ok(VisitResult::Success) => {
            proof {
                lemma_rt_views(children@);
                assert(rt_views(children@).skip(i as int) =~= seq![t.n] + vrest.drop_first()) by {
                    assert(forall|j: int|
                        i + 1 <= j < mid.len() ==> mid[j] == cs0[j]);
                }
            }
            (Ok(VisitResult::Success), None)
        }
        Err(e) => {
            proof {
                lemma_rt_views(children@);
                assert(rt_views(children@).skip(i as int) =~= seq![t.n] + vrest.drop_first()) by {
                    assert(forall|j: int|
                        i + 1 <= j < mid.len() ==> mid[j] == cs0[j]);
                }
            }
            (Err(e), None)
        }
    }
}

impl SequenceNode {
    pub fn new(children: Vec<Node>) -> (n: SequenceNode)
        ensures
            n@ == NodeS::Sequence(None::<int>, rt_views(children@)),
    {
        SequenceNode { running: None, children }
    }

    pub fn push(&mut self, node: Node)
        ensures
            final(self)@ == NodeS::Sequence(
                run_view(old(self).running),
                rt_views(old(self).children@.push(node)),
            ),
    {
        self.children.push(node);
    }

    pub fn visit(&mut self, context: &mut Context) -> (r: Result<VisitResult, EvalErr>)
        ensures
            matches_tick(tick_node(old(self)@, old(context)@), r, final(self)@, final(context)@),
        decreases *old(self), 1int,
    {
        let ghost cs0 = old(self).children@;
        let ghost vs0 = rt_views(cs0);
        proof {
            lemma_rt_views(cs0);
        }
        let len = self.children.len();
        let start: usize = match self.running {
            Some(k) => if k <= len {
                k
            } else {
                0
            },
            None => 0,
        };
        proof {
            assert(start as int == start_index(run_view(old(self).running), vs0.len() as int));
            assert(cs0.skip(start as int) =~= cs0.subrange(start as int, cs0.len() as int));
            if start == 0 {
                assert(cs0.skip(0) =~= cs0);
            }
        }
        self.running = None;
        let (res, idx) = seq_walk(&mut self.children, start, context);
        let ghost o = tick_seq_rest(vs0.skip(start as int), old(context)@);
        proof {
            crate::tree::lemma_seq_walk_bounds(vs0.skip(start as int), old(context)@);
            assert(rt_views(cs0).skip(start as int) =~= vs0.skip(start as int));
            lemma_rt_views(self.children@);
            assert(rt_views(self.children@) =~= vs0.take(start as int) + o.cs) by {
                assert(forall|j: int| 0 <= j < start ==> self.children@[j] == cs0[j]);
                assert(rt_views(self.children@).skip(start as int) == o.cs);
            }
        }
        if matches!(res, Ok(VisitResult::Running)) {
            self.running = idx;
        } else {
            self.running = None;
        }
        res
    }
}

impl SelectorNode {
    pub fn new(children: Vec<Node>) -> (n: SelectorNode)
        ensures
            n@ == NodeS::Selector(None::<int>, rt_views(children@)),
    {
        SelectorNode { running: None, children }
    }

    pub fn push(&mut self, node: Node)
        ensures
            final(self)@ == NodeS::Selector(
                run_view(old(self).running),
                rt_views(old(self).children@.push(node)),
            ),
    {
        self.children.push(node);
    }

    pub fn visit(&mut self, context: &mut Context) -> (r: Result<VisitResult, EvalErr>)
        ensures
            matches_tick(tick_node(old(self)@, old(context)@), r, final(self)@, final(context)@),
        decreases *old(self), 1int,
    {
        let ghost cs0 = old(self).children@;
        let ghost vs0 = rt_views(cs0);
        proof {
            lemma_rt_views(cs0);
        }
        let len = self.children.len();
        let start: usize = match self.running {
            Some(k) => if k <= len {
                k
            } else {
                0
            },
            None => 0,
        };
        proof {
            assert(start as int == start_index(run_view(old(self).running), vs0.len() as int));
            assert(cs0.skip(start as int) =~= cs0.subrange(start as int, cs0.len() as int));
            if start == 0 {
                assert(cs0.skip(0) =~= cs0);
            }
        }
        self.running = None;
        let (res, idx) = sel_walk(&mut self.children, start, context);
        let ghost o = tick_sel_rest(vs0.skip(start as int), old(context)@);
        proof {
            crate::tree::lemma_sel_walk_bounds(vs0.skip(start as int), old(context)@);
            assert(rt_views(cs0).skip(start as int) =~= vs0.skip(start as int));
            lemma_rt_views(self.children@);
            assert(rt_views(self.children@) =~= vs0.take(start as int) + o.cs) by {
                assert(forall|j: int| 0 <= j < start ==> self.children@[j] == cs0[j]);
                assert(rt_views(self.children@).skip(start as int) == o.cs);
            }
        }
        if matches!(res, Ok(VisitResult::Running)) {
            self.running = idx;
        } else {
            self.running = None;
        }
        res
    }
}

impl PriorityNode {
    pub fn new(children: Vec<Node>) -> (n: PriorityNode)
        ensures
            n@ == NodeS::Priority(rt_views(children@)),
    {
        PriorityNode { children }
    }

    pub fn push(&mut self, node: Node)
        ensures
            final(self)@ == NodeS::Priority(rt_views(old(self).children@.push(node))),
    {
        self.children.push(node);
    }

    pub fn visit(&mut self, context: &mut Context) -> (r: Result<VisitResult, EvalErr>)
        ensures
            matches_tick(tick_node(old(self)@, old(context)@), r, final(self)@, final(context)@),
        decreases *old(self), 1int,
    {
        let ghost cs0 = old(self).children@;
        let ghost vs0 = rt_views(cs0);
        proof {
            lemma_rt_views(cs0);
            assert(cs0.skip(0) =~= cs0);
            assert(vs0.skip(0) =~= vs0);
        }
        let (res, _idx) = seq_walk(&mut self.children, 0, context);
        proof {
            let o = tick_seq_rest(vs0, old(context)@);
            assert(rt_views(self.children@).skip(0) =~= rt_views(self.children@));
        }
        res
    }
}

impl InverterNode {
    pub fn new(child: Box<Node>) -> (n: InverterNode)
        ensures
            n@ == NodeS::Inverter(Box::new(rt_view(*child))),
    {
        InverterNode { child }
    }

    pub fn visit(&mut self, context: &mut Context) -> (r: Result<VisitResult, EvalErr>)
        ensures
            matches_tick(tick_node(old(self)@, old(context)@), r, final(self)@, final(context)@),
        decreases *old(self), 1int,
    {
        let r = (&mut *self.child).visit(context);
        match r {
            Ok(VisitResult::Success) => Ok(VisitResult::Failure),
            Ok(VisitResult::Failure) => Ok(VisitResult::Success),
            other => other,
        }
    }
}

impl Node {
    /// One tick of this node against the context.
    pub fn visit(&mut self, context: &mut Context) -> (r: Result<VisitResult, EvalErr>)
        ensures
            matches_tick(tick_node(old(self)@, old(context)@), r, final(self)@, final(context)@),
        decreases *old(self), 0int,
    {
        match self {
            Node::Leaf(leaf) => leaf.visit(context),
            Node::Sequence(s) => s.visit(context),
            Node::Priority(p) => p.visit(context),
            Node::Selector(s) => s.visit(context),
            Node::Inverter(i) => i.visit(context),
        }
    }
}

impl Tree {
    pub fn new(root: Node) -> (t: Tree)
        ensures
            t@ == root@,
    {
        Tree { root }
    }

    /// One tick of the whole tree against the context.
    pub fn visit(&mut self, context: &mut Context) -> (r: Result<VisitResult, EvalErr>)
        ensures
            matches_tick(tick_node(old(self)@, old(context)@), r, final(self)@, final(context)@),
    {
        self.root.visit(context)
    }
}

} // verus!
