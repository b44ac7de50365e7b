//! The tick engine's vocabulary: visit results, leaf behaviours and
//! leaf factories, and the mathematical model of one tick.
//!
//! A tick evaluates a tree's root against a context.  Sequences visit
//! children in order until one fails or keeps running, and remember a
//! running child for the next tick; selectors are their mirror image;
//! priorities are sequences without memory; inverters swap `Success`
//! and `Failure`.

use vstd::prelude::*;
use crate::standard::{Context, CtxV, StoreV, PrintText, Increment, inc_views, inc_items};
use crate::expressions::{
    ExpressionEvaluator, MemberV, EvalErr, EvalErrV, spec_eval,
    clone_members,
};
use crate::conditions::{ConditionChecker, CondOp, condition_result};

verus! {

/// The outcome of visiting a node: done well, done badly, or not done
/// yet.
#[derive(Debug, Copy, Eq, PartialEq, Clone, Structural)]
pub enum VisitResult {
    Success,
    Failure,
    Running,
}

/// The behaviour of one leaf of the standard library.
#[derive(Debug)]
pub enum LeafBehaviour {
    Print(PrintText),
    AlwaysRunning,
    Evaluator(ExpressionEvaluator),
    Condition(ConditionChecker),
    Increment(Increment),
}

/// The mathematical value of a leaf behaviour or leaf factory.
pub enum LeafS {
    Print(Seq<char>),
    AlwaysRunning,
    Evaluator(Seq<MemberV>, Seq<char>),
    Condition(Seq<MemberV>, Seq<MemberV>, CondOp),
    Increment(Seq<(Seq<char>, i64)>),
}

impl View for LeafBehaviour {
    type V = LeafS;

    open spec fn view(&self) -> LeafS {
        match self {
            LeafBehaviour::Print(p) => LeafS::Print(p.text@),
            LeafBehaviour::AlwaysRunning => LeafS::AlwaysRunning,
            LeafBehaviour::Evaluator(e) => LeafS::Evaluator(
                e.expression.deep_view(),
                e.variable@,
            ),
            LeafBehaviour::Condition(c) => LeafS::Condition(
                c.exp1.deep_view(),
                c.exp2.deep_view(),
                c.operator,
            ),
            LeafBehaviour::Increment(i) => LeafS::Increment(inc_views(i.items@)),
        }
    }
}

/// Carries an action or checks a condition: leaves are the only nodes
/// that actually do something against the context.
#[derive(Debug)]
pub struct LeafNode {
    inner: LeafBehaviour,
}

impl View for LeafNode {
    type V = LeafS;

    closed spec fn view(&self) -> LeafS {
        self.inner@
    }
}

/// What one leaf tick leaves behind: its result and the new context.
pub struct LeafOut {
    pub r: Result<VisitResult, EvalErrV>,
    pub c: CtxV,
}

/// One tick of a leaf behaviour against a context.
pub open spec fn leaf_tick(l: LeafS, c: CtxV) -> LeafOut {
    match l {
        LeafS::Print(text) => LeafOut {
            r: Ok(VisitResult::Success),
            c: CtxV { vars: c.vars, log: c.log.push(text) },
        },
        LeafS::AlwaysRunning => LeafOut { r: Ok(VisitResult::Running), c },
        LeafS::Evaluator(ms, var) => match spec_eval(ms, c.vars) {
            Err(e) => LeafOut { r: Err(e), c },
            Ok(v) => LeafOut {
                r: Ok(VisitResult::Success),
                c: CtxV {
                    vars: c.vars.insert(var, StoreV::I64(v)),
                    log: if c.vars.dom().contains(var) {
                        c.log.push(crate::expressions::replaced_warning(var))
                    } else {
                        c.log
                    },
                },
            },
        },
        LeafS::Condition(e1, e2, op) => LeafOut { r: condition_result(e1, e2, op, c.vars), c },
        LeafS::Increment(items) => {
            let (vr, vars2) = inc_items(items, c.vars);
            LeafOut { r: Ok(vr), c: CtxV { vars: vars2, log: c.log } }
        },
    }
}

impl LeafNode {
    pub fn new(inner: LeafBehaviour) -> (n: LeafNode)
        ensures
            n@ == inner@,
    {
        LeafNode { inner }
    }

    /// Invokes the leaf behaviour and returns its result verbatim.
    pub fn visit(&self, context: &mut Context) -> (r: Result<VisitResult, EvalErr>)
        ensures
            ({
                let o = leaf_tick(self@, old(context)@);
                &&& (match o.r {
                    Ok(v) => r matches Ok(rv) && rv == v,
                    Err(e) => r matches Err(x) && x@ == e,
                })
                &&& final(context)@ == o.c
            }),
    {
        match &self.inner {
            LeafBehaviour::Print(p) => {
                p.visit(context);
                Ok(VisitResult::Success)
            }
            LeafBehaviour::AlwaysRunning => Ok(VisitResult::Running),
            LeafBehaviour::Evaluator(e) => e.visit(context),
            LeafBehaviour::Condition(c) => match c.visit(context) {
                Ok(v) => Ok(v),
                Err(e) => Err(e),
            },
            LeafBehaviour::Increment(i) => Ok(i.visit(context)),
        }
    }
}

/// The blueprint of a leaf: each instantiation mints a fresh leaf
/// behaviour.
#[derive(Debug)]
pub enum LeafFactory {
    Print(PrintText),
    AlwaysRunning,
    Evaluator(ExpressionEvaluator),
    Condition(ConditionChecker),
    Increment(Increment),
}

impl View for LeafFactory {
    type V = LeafS;

    open spec fn view(&self) -> LeafS {
        match self {
            LeafFactory::Print(p) => LeafS::Print(p.text@),
            LeafFactory::AlwaysRunning => LeafS::AlwaysRunning,
            LeafFactory::Evaluator(e) => LeafS::Evaluator(e.expression.deep_view(), e.variable@),
            LeafFactory::Condition(c) => LeafS::Condition(
                c.exp1.deep_view(),
                c.exp2.deep_view(),
                c.operator,
            ),
            LeafFactory::Increment(i) => LeafS::Increment(inc_views(i.items@)),
        }
    }
}

impl LeafFactory {
    /// Mints a fresh leaf behaviour with the blueprint's data.
    pub fn instanciate(&self) -> (n: LeafNode)
        ensures
            n@ == self@,
    {
        match self {
            LeafFactory::Print(p) => LeafNode::new(
                LeafBehaviour::Print(PrintText { text: p.text.clone() }),
            ),
            LeafFactory::AlwaysRunning => LeafNode::new(LeafBehaviour::AlwaysRunning),
            LeafFactory::Evaluator(e) => LeafNode::new(
                LeafBehaviour::Evaluator(
                    ExpressionEvaluator {
                        expression: clone_members(&e.expression),
                        variable: e.variable.clone(),
                    },
                ),
            ),
            LeafFactory::Condition(c) => LeafNode::new(
                LeafBehaviour::Condition(
                    ConditionChecker {
                        exp1: clone_members(&c.exp1),
                        exp2: clone_members(&c.exp2),
                        operator: c.operator,
                    },
                ),
            ),
            LeafFactory::Increment(i) => LeafNode::new(
                LeafBehaviour::Increment(Increment { items: crate::standard::clone_items(&i.items) }),
            ),
        }
    }
}

/// The mathematical value of a runtime tree node: its shape, its leaf
/// data, and the resumption state of every composite.
pub enum NodeS {
    Leaf(LeafS),
    Sequence(Option<int>, Seq<NodeS>),
    Selector(Option<int>, Seq<NodeS>),
    Priority(Seq<NodeS>),
    Inverter(Box<NodeS>),
}

/// What one tick leaves behind: the result, the node's new state, and
/// the new context.
pub struct TickOut {
    pub r: Result<VisitResult, EvalErrV>,
    pub n: NodeS,
    pub c: CtxV,
}

/// What walking a child list leaves behind: the result, the children's
/// new states, the new context, and the position of the child that
/// kept running, relative to the start of the walk.
pub struct WalkOut {
    pub r: Result<VisitResult, EvalErrV>,
    pub cs: Seq<NodeS>,
    pub c: CtxV,
    pub idx: Option<int>,
}

/// The index a composite resumes from: a stored index if it is in
/// range, else the first child.
pub open spec fn start_index(run: Option<int>, len: int) -> int {
    match run {
        Some(k) => if 0 <= k <= len {
            k
        } else {
            0
        },
        None => 0,
    }
}

/// Shifts a relative running index by the position the walk started at.
pub open spec fn shift_idx(idx: Option<int>, start: int) -> Option<int> {
    match idx {
        Some(d) => Some(start + d),
        None => None,
    }
}

/// One tick of a node against a context.
pub open spec fn tick_node(n: NodeS, c: CtxV) -> TickOut
    decreases n, 0int,
    via tick_node_dec
{
    match n {
        NodeS::Leaf(l) => {
            let lo = leaf_tick(l, c);
            TickOut { r: lo.r, n: NodeS::Leaf(l), c: lo.c }
        },
        NodeS::Sequence(run, cs) => {
            let start = start_index(run, cs.len() as int);
            let o = tick_seq_rest(cs.skip(start), c);
            let stored = if o.r == Ok::<VisitResult, EvalErrV>(VisitResult::Running) {
                shift_idx(o.idx, start)
            } else {
                None
            };
            TickOut { r: o.r, n: NodeS::Sequence(stored, cs.take(start) + o.cs), c: o.c }
        },
        NodeS::Selector(run, cs) => {
            let start = start_index(run, cs.len() as int);
            let o = tick_sel_rest(cs.skip(start), c);
            let stored = if o.r == Ok::<VisitResult, EvalErrV>(VisitResult::Running) {
                shift_idx(o.idx, start)
            } else {
                None
            };
            TickOut { r: o.r, n: NodeS::Selector(stored, cs.take(start) + o.cs), c: o.c }
        },
        NodeS::Priority(cs) => {
            let o = tick_seq_rest(cs, c);
            TickOut { r: o.r, n: NodeS::Priority(o.cs), c: o.c }
        },
        NodeS::Inverter(b) => {
            let t = tick_node(*b, c);
            let r2 = match t.r {
                Ok(VisitResult::Success) => Ok(VisitResult::Failure),
                Ok(VisitResult::Failure) => Ok(VisitResult::Success),
                other => other,
            };
            TickOut { r: r2, n: NodeS::Inverter(Box::new(t.n)), c: t.c }
        },
    }
}

/// Walks the rest of a sequence's children: `Success` continues,
/// `Failure` stops with `Failure`, `Running` stops and remembers the
/// child, and exhaustion is `Success`.  Priorities walk the same way,
/// with nothing remembered.
pub open spec fn tick_seq_rest(rest: Seq<NodeS>, c: CtxV) -> WalkOut
    decreases rest, 1int,
{
    if rest.len() == 0 {
        WalkOut { r: Ok(VisitResult::Success), cs: rest, c, idx: None }
    } else {
        let t = tick_node(rest[0], c);
        match t.r {
            Ok(VisitResult::Success) => {
                let o = tick_seq_rest(rest.drop_first(), t.c);
                WalkOut { r: o.r, cs: seq![t.n] + o.cs, c: o.c, idx: shift_idx(o.idx, 1) }
            },
            Ok(VisitResult::Running) => WalkOut {
                r: Ok(VisitResult::Running),
                cs: seq![t.n] + rest.drop_first(),
                c: t.c,
                idx: Some(0),
            },
            other => WalkOut {
                r: other,
                cs: seq![t.n] + rest.drop_first(),
                c: t.c,
                idx: None,
            },
        }
    }
}

/// Walks the rest of a selector's children: `Failure` continues,
/// `Success` stops with `Success`, `Running` stops and remembers the
/// child, and exhaustion is `Failure`.
pub open spec fn tick_sel_rest(rest: Seq<NodeS>, c: CtxV) -> WalkOut
    decreases rest, 1int,
{
    if rest.len() == 0 {
        WalkOut { r: Ok(VisitResult::Failure), cs: rest, c, idx: None }
    } else {
        let t = tick_node(rest[0], c);
        match t.r {
            Ok(VisitResult::Failure) => {
                let o = tick_sel_rest(rest.drop_first(), t.c);
                WalkOut { r: o.r, cs: seq![t.n] + o.cs, c: o.c, idx: shift_idx(o.idx, 1) }
            },
            Ok(VisitResult::Running) => WalkOut {
                r: Ok(VisitResult::Running),
                cs: seq![t.n] + rest.drop_first(),
                c: t.c,
                idx: Some(0),
            },
            other => WalkOut {
                r: other,
                cs: seq![t.n] + rest.drop_first(),
                c: t.c,
                idx: None,
            },
        }
    }
}

#[via_fn]
proof fn tick_node_dec(n: NodeS, c: CtxV) {
    match n {
        NodeS::Sequence(run, cs) => {
            let start = start_index(run, cs.len() as int);
            if start == 0 {
                assert(cs.skip(0) =~= cs);
            }
        },
        NodeS::Selector(run, cs) => {
            let start = start_index(run, cs.len() as int);
            if start == 0 {
                assert(cs.skip(0) =~= cs);
            }
        },
        _ => {},
    }
}

/// A walk returns as many children as it was given; a remembered index
/// points at one of them, and one is remembered exactly when the walk
/// kept running.
pub proof fn lemma_seq_walk_bounds(rest: Seq<NodeS>, c: CtxV)
    ensures
        tick_seq_rest(rest, c).cs.len() == rest.len(),
        tick_seq_rest(rest, c).idx matches Some(d) ==> 0 <= d < rest.len(),
        tick_seq_rest(rest, c).r == Ok::<VisitResult, crate::expressions::EvalErrV>(
            VisitResult::Running,
        ) <==> tick_seq_rest(rest, c).idx is Some,
    decreases rest,
{
    if rest.len() > 0 {
        let t = tick_node(rest[0], c);
        match t.r {
            Ok(VisitResult::Success) => {
                lemma_seq_walk_bounds(rest.drop_first(), t.c);
            }
            _ => {}
        }
    }
}

/// The same bounds for a selector's walk.
pub proof fn lemma_sel_walk_bounds(rest: Seq<NodeS>, c: CtxV)
    ensures
        tick_sel_rest(rest, c).cs.len() == rest.len(),
        tick_sel_rest(rest, c).idx matches Some(d) ==> 0 <= d < rest.len(),
        tick_sel_rest(rest, c).r == Ok::<VisitResult, crate::expressions::EvalErrV>(
            VisitResult::Running,
        ) <==> tick_sel_rest(rest, c).idx is Some,
    decreases rest,
{
    if rest.len() > 0 {
        let t = tick_node(rest[0], c);
        match t.r {
            Ok(VisitResult::Failure) => {
                lemma_sel_walk_bounds(rest.drop_first(), t.c);
            }
            _ => {}
        }
    }
}

} // verus!
