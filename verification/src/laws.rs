//! General properties of the tick engine, stated over the tick model
//! and proved once and for all.

use vstd::prelude::*;
use crate::standard::CtxV;
use crate::expressions::EvalErrV;
use crate::tree::{
    VisitResult, NodeS, WalkOut, tick_node, tick_seq_rest, tick_sel_rest, start_index, shift_idx,
    lemma_seq_walk_bounds,
};

verus! {

/// Sequence memory: once a sequence's tick has kept running at its
/// `n`-th child, the stored index makes the next tick resume at that
/// child.  Resuming behaves exactly as ticking a fresh sequence over
/// the children from `n` on: the children before `n` are neither
/// ticked nor changed, whatever they would now return.
pub proof fn lemma_sequence_memory(n: int, cs: Seq<NodeS>, c: CtxV)
    requires
        0 <= n <= cs.len(),
    ensures
        ({
            let resumed = tick_node(NodeS::Sequence(Some(n), cs), c);
            let fresh = tick_node(NodeS::Sequence(None, cs.skip(n)), c);
            &&& resumed.r == fresh.r
            &&& resumed.c == fresh.c
            &&& (fresh.n matches NodeS::Sequence(stored, cs2)
                ==> resumed.n == NodeS::Sequence(shift_idx(stored, n), cs.take(n) + cs2))
        }),
{
    let o = tick_seq_rest(cs.skip(n), c);
    assert(start_index(Some(n), cs.len() as int) == n);
    assert(cs.skip(n).skip(0) =~= cs.skip(n));
    assert(cs.skip(n).take(0) =~= Seq::<NodeS>::empty());
    assert(Seq::<NodeS>::empty() + o.cs =~= o.cs);
}

/// A sequence that keeps running stores the index of the child that
/// kept running, and that index is in range.
pub proof fn lemma_sequence_running_stores(run: Option<int>, cs: Seq<NodeS>, c: CtxV)
    ensures
        ({
            let t = tick_node(NodeS::Sequence(run, cs), c);
            &&& (t.n matches NodeS::Sequence(stored, cs2) && cs2.len() == cs.len()
                && (t.r == Ok::<VisitResult, EvalErrV>(VisitResult::Running) <==> stored is Some)
                && (stored matches Some(k) ==> 0 <= k < cs.len()))
        }),
{
    let start = start_index(run, cs.len() as int);
    lemma_seq_walk_bounds(cs.skip(start), c);
    let o = tick_seq_rest(cs.skip(start), c);
    assert((cs.take(start) + o.cs).len() == cs.len());
}

/// Priority amnesia: a priority's tick always starts at child 0, and
/// leaves no resumption state behind.  If child 0 keeps running or
/// fails, the whole priority does, with only child 0 ticked.
pub proof fn lemma_priority_starts_at_zero(cs: Seq<NodeS>, c: CtxV)
    requires
        cs.len() > 0,
    ensures
        ({
            let t0 = tick_node(cs[0], c);
            let t = tick_node(NodeS::Priority(cs), c);
            &&& (t0.r == Ok::<VisitResult, EvalErrV>(VisitResult::Running) ==> t.r == t0.r
                && t.c == t0.c && t.n == NodeS::Priority(seq![t0.n] + cs.drop_first()))
            &&& (t0.r == Ok::<VisitResult, EvalErrV>(VisitResult::Failure) ==> t.r == t0.r
                && t.c == t0.c && t.n == NodeS::Priority(seq![t0.n] + cs.drop_first()))
            &&& (t.n matches NodeS::Priority(cs2))
        }),
{
    reveal_with_fuel(tick_seq_rest, 2);
    let t0 = tick_node(cs[0], c);
    let o = tick_seq_rest(cs, c);
    assert(o == (match t0.r {
        Ok(VisitResult::Success) => {
            let o1 = tick_seq_rest(cs.drop_first(), t0.c);
            WalkOut { r: o1.r, cs: seq![t0.n] + o1.cs, c: o1.c, idx: shift_idx(o1.idx, 1) }
        },
        Ok(VisitResult::Running) => WalkOut {
            r: Ok(VisitResult::Running),
            cs: seq![t0.n] + cs.drop_first(),
            c: t0.c,
            idx: Some(0int),
        },
        other => WalkOut { r: other, cs: seq![t0.n] + cs.drop_first(), c: t0.c, idx: None },
    }));
}

/// A priority node never stores a resumption index: its new state is
/// again a bare priority over its children's new states, so the next
/// tick starts from child 0 whatever happened before.
pub proof fn lemma_priority_amnesia(cs: Seq<NodeS>, c: CtxV)
    ensures
        tick_node(NodeS::Priority(cs), c).n matches NodeS::Priority(_),
{
}

/// Inverter involution: inverting an inverter of any child gives the
/// same result, the same context and the same child state as ticking
/// the child alone; in particular `Running` and expression errors pass
/// through unchanged.
pub proof fn lemma_inverter_involution(n: NodeS, c: CtxV)
    ensures
        ({
            let direct = tick_node(n, c);
            let wrapped = tick_node(
                NodeS::Inverter(Box::new(NodeS::Inverter(Box::new(n)))),
                c,
            );
            &&& wrapped.r == direct.r
            &&& wrapped.c == direct.c
            &&& wrapped.n == NodeS::Inverter(
                Box::new(NodeS::Inverter(Box::new(direct.n))),
            )
        }),
{
    reveal_with_fuel(tick_node, 3);
}

/// Any tower of inverters passes `Running` through: the wrapped node
/// keeps running exactly when the bare node does.
pub open spec fn wrap_inverters(k: nat, n: NodeS) -> NodeS
    decreases k,
{
    if k == 0 {
        n
    } else {
        NodeS::Inverter(Box::new(wrap_inverters((k - 1) as nat, n)))
    }
}

pub proof fn lemma_inverters_preserve_running(k: nat, n: NodeS, c: CtxV)
    ensures
        tick_node(wrap_inverters(k, n), c).r == Ok::<VisitResult, EvalErrV>(VisitResult::Running)
            <==> tick_node(n, c).r == Ok::<VisitResult, EvalErrV>(VisitResult::Running),
        tick_node(wrap_inverters(k, n), c).c == tick_node(n, c).c,
    decreases k,
{
    if k > 0 {
        lemma_inverters_preserve_running((k - 1) as nat, n, c);
    }
}

/// Wraps every child in an inverter.
pub open spec fn invert_all(cs: Seq<NodeS>) -> Seq<NodeS> {
    Seq::new(cs.len(), |i: int| NodeS::Inverter(Box::new(cs[i])))
}

/// Flips `Success` and `Failure`; `Running` and errors stay.
pub open spec fn flip(r: Result<VisitResult, EvalErrV>) -> Result<VisitResult, EvalErrV> {
    match r {
        Ok(VisitResult::Success) => Ok(VisitResult::Failure),
        Ok(VisitResult::Failure) => Ok(VisitResult::Success),
        other => other,
    }
}

/// Walking inverted children with sequence rules mirrors walking the
/// bare children with selector rules: the result flips, and the
/// context, the remembered index and the children's states (behind
/// their inverters) coincide.
proof fn lemma_walk_duality(rest: Seq<NodeS>, c: CtxV)
    ensures
        ({
            let o_sel = tick_sel_rest(rest, c);
            let o_seq = tick_seq_rest(invert_all(rest), c);
            &&& o_seq.r == flip(o_sel.r)
            &&& o_seq.c == o_sel.c
            &&& o_seq.idx == o_sel.idx
            &&& o_seq.cs == invert_all(o_sel.cs)
        }),
    decreases rest,
{
    let inv = invert_all(rest);
    if rest.len() == 0 {
        assert(inv.len() == 0);
        assert(invert_all(tick_sel_rest(rest, c).cs) =~= inv);
    } else {
        let t = tick_node(rest[0], c);
        assert(inv[0] == NodeS::Inverter(Box::new(rest[0])));
        let ti = tick_node(inv[0], c);
        assert(ti.r == flip(t.r) && ti.c == t.c && ti.n == NodeS::Inverter(Box::new(t.n)));
        assert(inv.drop_first() =~= invert_all(rest.drop_first()));
        match t.r {
            Ok(VisitResult::Failure) => {
                lemma_walk_duality(rest.drop_first(), t.c);
                let o1_sel = tick_sel_rest(rest.drop_first(), t.c);
                assert(seq![ti.n] + invert_all(o1_sel.cs) =~= invert_all(seq![t.n] + o1_sel.cs));
            }
            Ok(VisitResult::Running) => {
                assert(seq![ti.n] + inv.drop_first() =~= invert_all(
                    seq![t.n] + rest.drop_first(),
                ));
            }
            _ => {
                assert(seq![ti.n] + inv.drop_first() =~= invert_all(
                    seq![t.n] + rest.drop_first(),
                ));
            }
        }
    }
}

/// Selector/sequence duality: wrapping every child of a sequence in an
/// inverter, and the sequence itself in an inverter, ticks exactly
/// like a selector over the original children — same result, same
/// context, same resumption index, and child states that correspond
/// behind their inverters.
pub proof fn lemma_selector_sequence_duality(run: Option<int>, cs: Seq<NodeS>, c: CtxV)
    ensures
        ({
            let sel = tick_node(NodeS::Selector(run, cs), c);
            let dual = tick_node(
                NodeS::Inverter(Box::new(NodeS::Sequence(run, invert_all(cs)))),
                c,
            );
            &&& dual.r == sel.r
            &&& dual.c == sel.c
            &&& (sel.n matches NodeS::Selector(stored, cs2)
                ==> dual.n == NodeS::Inverter(
                    Box::new(NodeS::Sequence(stored, invert_all(cs2))),
                ))
        }),
{
    reveal_with_fuel(tick_node, 3);
    let inv = invert_all(cs);
    assert(inv.len() == cs.len());
    let start = start_index(run, cs.len() as int);
    assert(start_index(run, inv.len() as int) == start);
    assert(inv.skip(start) =~= invert_all(cs.skip(start)));
    lemma_walk_duality(cs.skip(start), c);
    let o_sel = tick_sel_rest(cs.skip(start), c);
    let o_seq = tick_seq_rest(inv.skip(start), c);
    assert(inv.take(start) =~= invert_all(cs.take(start)));
    assert(invert_all(cs.take(start)) + invert_all(o_sel.cs)
        =~= invert_all(cs.take(start) + o_sel.cs));
}

/// Two log states, the later one carrying the earlier one as a prefix.
pub open spec fn log_extends(before: Seq<Seq<char>>, after: Seq<Seq<char>>) -> bool {
    after.len() >= before.len() && after.take(before.len() as int) == before
}

proof fn lemma_log_extends_trans(a: Seq<Seq<char>>, b: Seq<Seq<char>>, d: Seq<Seq<char>>)
    requires
        log_extends(a, b),
        log_extends(b, d),
    ensures
        log_extends(a, d),
{
    assert(d.take(a.len() as int) =~= d.take(b.len() as int).take(a.len() as int));
}

/// A tick only appends to the log.
pub proof fn lemma_tick_log_monotone(n: NodeS, c: CtxV)
    ensures
        log_extends(c.log, tick_node(n, c).c.log),
    decreases n, 0int,
{
    match n {
        NodeS::Leaf(l) => {
            let lg = tick_node(n, c).c.log;
            assert(lg.len() >= c.log.len() && lg.take(c.log.len() as int) =~= c.log) by {
                match l {
                    crate::tree::LeafS::Print(text) => {
                        assert(lg == c.log.push(text));
                        assert(c.log.push(text).take(c.log.len() as int) =~= c.log);
                    }
                    crate::tree::LeafS::Evaluator(ms, var) => {
                        if lg != c.log {
                            assert(lg == c.log.push(crate::expressions::replaced_warning(var)));
                            assert(lg.take(c.log.len() as int) =~= c.log);
                        } else {
                            assert(lg.take(c.log.len() as int) =~= c.log);
                        }
                    }
                    _ => {
                        assert(lg == c.log);
                        assert(lg.take(c.log.len() as int) =~= c.log);
                    }
                }
            }
        }
        NodeS::Sequence(run, cs) => {
            let start = start_index(run, cs.len() as int);
            if start == 0 {
                assert(cs.skip(0) =~= cs);
            }
            lemma_seq_walk_log_monotone(cs.skip(start), c);
        }
        NodeS::Selector(run, cs) => {
            let start = start_index(run, cs.len() as int);
            if start == 0 {
                assert(cs.skip(0) =~= cs);
            }
            lemma_sel_walk_log_monotone(cs.skip(start), c);
        }
        NodeS::Priority(cs) => {
            lemma_seq_walk_log_monotone(cs, c);
        }
        NodeS::Inverter(b) => {
            lemma_tick_log_monotone(*b, c);
        }
    }
}

proof fn lemma_seq_walk_log_monotone(rest: Seq<NodeS>, c: CtxV)
    ensures
        log_extends(c.log, tick_seq_rest(rest, c).c.log),
    decreases rest, 1int,
{
    if rest.len() == 0 {
        assert(c.log.take(c.log.len() as int) =~= c.log);
    } else {
        let t = tick_node(rest[0], c);
        lemma_tick_log_monotone(rest[0], c);
        match t.r {
            Ok(VisitResult::Success) => {
                lemma_seq_walk_log_monotone(rest.drop_first(), t.c);
                lemma_log_extends_trans(c.log, t.c.log, tick_seq_rest(rest, c).c.log);
            }
            _ => {}
        }
    }
}

proof fn lemma_sel_walk_log_monotone(rest: Seq<NodeS>, c: CtxV)
    ensures
        log_extends(c.log, tick_sel_rest(rest, c).c.log),
    decreases rest, 1int,
{
    if rest.len() == 0 {
        assert(c.log.take(c.log.len() as int) =~= c.log);
    } else {
        let t = tick_node(rest[0], c);
        lemma_tick_log_monotone(rest[0], c);
        match t.r {
            Ok(VisitResult::Failure) => {
                lemma_sel_walk_log_monotone(rest.drop_first(), t.c);
                lemma_log_extends_trans(c.log, t.c.log, tick_sel_rest(rest, c).c.log);
            }
            _ => {}
        }
    }
}

/// Child ordering: during the walk of a composite's children, the log
/// passes through the first child's log state on the way to the final
/// one — everything the first child logged stands before everything
/// its later siblings logged, and so on down the list.
pub proof fn lemma_child_ordering(rest: Seq<NodeS>, c: CtxV)
    requires
        rest.len() > 0,
    ensures
        ({
            let t0 = tick_node(rest[0], c);
            &&& log_extends(c.log, t0.c.log)
            &&& log_extends(t0.c.log, tick_seq_rest(rest, c).c.log)
        }),
{
    let t0 = tick_node(rest[0], c);
    lemma_tick_log_monotone(rest[0], c);
    match t0.r {
        Ok(VisitResult::Success) => {
            lemma_seq_walk_log_monotone(rest.drop_first(), t0.c);
        }
        _ => {
            assert(t0.c.log.take(t0.c.log.len() as int) =~= t0.c.log);
        }
    }
}

} // verus!
