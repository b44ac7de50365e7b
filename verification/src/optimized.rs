//! The optimized tree: a factory tree flattened into one contiguous
//! array of node records in pre-order, each carrying the size of its
//! subtree, so that a tick walks the array in place with no pointers
//! between records.
//!
//! Invariants of the layout: every node's subtree is the contiguous
//! range starting at the node; an inverter has exactly one child; a
//! leaf has none; a stored resumption index always names an existing
//! child.

use vstd::prelude::*;
use vstd::string::*;
use crate::standard::Context;
use crate::expressions::EvalErr;
use crate::tree::{
    VisitResult, LeafNode, LeafS, NodeS, tick_node, tick_seq_rest, tick_sel_rest, start_index,
    shift_idx, lemma_seq_walk_bounds, lemma_sel_walk_bounds,
};
use crate::non_optimized::matches_tick;
use crate::factory::{
    NodeFactory, TreeFactory, FacS, fac_views, lemma_fac_views, has_subtree, has_subtree_list,
    instantiate_spec, instantiate_list, lemma_instantiate_list, lemma_has_subtree_list,
};

verus! {

/// The kind of one flat node record, with its kind-specific mutable
/// state.
#[derive(Debug)]
pub enum FlatKind {
    Leaf(LeafNode),
    Sequence(Option<usize>),
    Selector(Option<usize>),
    Priority,
    Inverter,
}

/// One record of the flat array: its kind and the number of records in
/// its subtree, itself included.
#[derive(Debug)]
pub struct FlatNode {
    pub kind: FlatKind,
    pub extent: usize,
}

/// The mathematical value of a flat node's kind.
pub enum FKS {
    Leaf(LeafS),
    Sequence(Option<int>),
    Selector(Option<int>),
    Priority,
    Inverter,
}

/// The mathematical value of one flat record.
pub struct FlatS {
    pub kind: FKS,
    pub extent: int,
}

impl View for FlatNode {
    type V = FlatS;

    open spec fn view(&self) -> FlatS {
        FlatS {
            kind: match &self.kind {
                FlatKind::Leaf(l) => FKS::Leaf(l@),
                FlatKind::Sequence(r) => FKS::Sequence(crate::non_optimized::run_view(*r)),
                FlatKind::Selector(r) => FKS::Selector(crate::non_optimized::run_view(*r)),
                FlatKind::Priority => FKS::Priority,
                FlatKind::Inverter => FKS::Inverter,
            },
            extent: self.extent as int,
        }
    }
}

/// The mathematical values of the flat array.
pub open spec fn flat_views(ns: Seq<FlatNode>) -> Seq<FlatS> {
    Seq::new(ns.len(), |i: int| ns[i]@)
}

/// Decodes the subtree rooted at record `i` back into a runtime node
/// state; `None` when the layout is malformed there.
pub open spec fn decode_at(s: Seq<FlatS>, i: int) -> Option<NodeS>
    decreases (if 0 <= i < s.len() && s[i].extent >= 1 { s[i].extent } else { 1int }), 0int,
    via decode_at_dec
{
    if !(0 <= i && i < s.len() && 1 <= s[i].extent && i + s[i].extent <= s.len()) {
        None
    } else {
        let e = s[i].extent;
        match s[i].kind {
            FKS::Leaf(l) => if e == 1 {
                Some(NodeS::Leaf(l))
            } else {
                None
            },
            FKS::Sequence(run) => match decode_children(s, i + 1, e - 1) {
                Some(cs) => if (match run {
                    Some(k) => 0 <= k < cs.len(),
                    None => true,
                }) {
                    Some(NodeS::Sequence(run, cs))
                } else {
                    None
                },
                None => None,
            },
            FKS::Selector(run) => match decode_children(s, i + 1, e - 1) {
                Some(cs) => if (match run {
                    Some(k) => 0 <= k < cs.len(),
                    None => true,
                }) {
                    Some(NodeS::Selector(run, cs))
                } else {
                    None
                },
                None => None,
            },
            FKS::Priority => match decode_children(s, i + 1, e - 1) {
                Some(cs) => Some(NodeS::Priority(cs)),
                None => None,
            },
            FKS::Inverter => match decode_children(s, i + 1, e - 1) {
                Some(cs) => if cs.len() == 1 {
                    Some(NodeS::Inverter(Box::new(cs[0])))
                } else {
                    None
                },
                None => None,
            },
        }
    }
}

/// Decodes the run of sibling subtrees filling exactly `budget`
/// records from position `j`.
pub open spec fn decode_children(s: Seq<FlatS>, j: int, budget: int) -> Option<Seq<NodeS>>
    decreases (if budget >= 0 { budget } else { 0int }), 1int,
    via decode_children_dec
{
    if budget == 0 {
        Some(Seq::empty())
    } else if !(budget > 0 && 0 <= j && j < s.len()) {
        None
    } else {
        let e = s[j].extent;
        if !(1 <= e && e <= budget) {
            None
        } else {
            match decode_at(s, j) {
                None => None,
                Some(n) => match decode_children(s, j + e, budget - e) {
                    None => None,
                    Some(rest) => Some(seq![n] + rest),
                },
            }
        }
    }
}

#[via_fn]
proof fn decode_at_dec(s: Seq<FlatS>, i: int) {
}

#[via_fn]
proof fn decode_children_dec(s: Seq<FlatS>, j: int, budget: int) {
}

/// How many records a decoded child list holds: at most the budget,
/// and each child's extent is at least one record.
pub proof fn lemma_decode_children_len(s: Seq<FlatS>, j: int, budget: int)
    ensures
        decode_children(s, j, budget) matches Some(cs) ==> cs.len() <= budget,
    decreases (if budget >= 0 { budget } else { 0int }),
{
    if budget > 0 && 0 <= j && j < s.len() {
        let e = s[j].extent;
        if 1 <= e && e <= budget {
            lemma_decode_children_len(s, j + e, budget - e);
        }
    }
}

/// Decoding reads only the records of its own range: two arrays of one
/// length that agree there decode alike.
pub proof fn lemma_decode_frame(s1: Seq<FlatS>, s2: Seq<FlatS>, i: int)
    requires
        s1.len() == s2.len(),
        decode_at(s1, i) is Some,
        forall|k: int| i <= k < i + s1[i].extent ==> s2[k] == s1[k],
    ensures
        decode_at(s2, i) == decode_at(s1, i),
    decreases s1[i].extent, 0int,
{
    let e = s1[i].extent;
    match s1[i].kind {
        FKS::Leaf(_) => {},
        _ => {
            lemma_decode_frame_children(s1, s2, i + 1, e - 1);
        },
    }
}

/// The same frame property for a run of siblings.
pub proof fn lemma_decode_frame_children(s1: Seq<FlatS>, s2: Seq<FlatS>, j: int, budget: int)
    requires
        s1.len() == s2.len(),
        decode_children(s1, j, budget) is Some,
        forall|k: int| j <= k < j + budget ==> s2[k] == s1[k],
    ensures
        decode_children(s2, j, budget) == decode_children(s1, j, budget),
    decreases (if budget >= 0 { budget } else { 0int }), 1int,
{
    if budget > 0 {
        let e = s1[j].extent;
        lemma_decode_frame(s1, s2, j);
        lemma_decode_frame_children(s1, s2, j + e, budget - e);
    }
}

/// The number of records the flattening of a blueprint takes.
pub open spec fn flat_count(f: FacS) -> int
    decreases f, 0int,
{
    match f {
        FacS::Leaf(_) => 1,
        FacS::Sequence(cs) => 1 + flat_count_list(cs),
        FacS::Selector(cs) => 1 + flat_count_list(cs),
        FacS::Priority(cs) => 1 + flat_count_list(cs),
        FacS::Inverter(c) => 1 + flat_count(*c),
        FacS::Subtree(_) => 1,
    }
}

/// The number of records a list of blueprints takes.
pub open spec fn flat_count_list(cs: Seq<FacS>) -> int
    decreases cs, 1int,
{
    if cs.len() == 0 {
        0
    } else {
        flat_count(cs[0]) + flat_count_list(cs.drop_first())
    }
}

pub proof fn lemma_flat_count_pos(f: FacS)
    ensures
        flat_count(f) >= 1,
    decreases f, 0int,
{
    match f {
        FacS::Sequence(cs) => lemma_flat_count_list_nonneg(cs),
        FacS::Selector(cs) => lemma_flat_count_list_nonneg(cs),
        FacS::Priority(cs) => lemma_flat_count_list_nonneg(cs),
        FacS::Inverter(c) => lemma_flat_count_pos(*c),
        _ => {},
    }
}

pub proof fn lemma_flat_count_list_nonneg(cs: Seq<FacS>)
    ensures
        flat_count_list(cs) >= 0,
        cs.len() > 0 ==> flat_count_list(cs) >= flat_count(cs[0]) >= 1,
    decreases cs, 1int,
{
    if cs.len() > 0 {
        lemma_flat_count_pos(cs[0]);
        lemma_flat_count_list_nonneg(cs.drop_first());
    }
}

/// The production runtime: the flat array, visited in place.
#[derive(Debug)]
pub struct OptimizedTree {
    nodes: Vec<FlatNode>,
}

impl OptimizedTree {
    /// A well-formed flat tree decodes to a runtime state.
    pub closed spec fn wf(&self) -> bool {
        decode_at(flat_views(self.nodes@), 0) is Some
    }

    /// The runtime state the flat array stands for.
    pub closed spec fn view_state(&self) -> NodeS {
        decode_at(flat_views(self.nodes@), 0)->0
    }
}

impl View for OptimizedTree {
    type V = NodeS;

    open spec fn view(&self) -> NodeS {
        self.view_state()
    }
}

/// Decoding is stable under appending records after the subtree.
pub proof fn lemma_decode_append(s: Seq<FlatS>, tail: Seq<FlatS>, i: int)
    requires
        decode_at(s, i) is Some,
    ensures
        decode_at(s + tail, i) == decode_at(s, i),
    decreases s[i].extent, 0int,
{
    assert(forall|k: int| 0 <= k < s.len() ==> (s + tail)[k] == s[k]);
    let e = s[i].extent;
    match s[i].kind {
        FKS::Leaf(_) => {},
        _ => {
            lemma_decode_append_children(s, tail, i + 1, e - 1);
        },
    }
}

/// The same stability for a run of siblings.
pub proof fn lemma_decode_append_children(s: Seq<FlatS>, tail: Seq<FlatS>, j: int, budget: int)
    requires
        decode_children(s, j, budget) is Some,
    ensures
        decode_children(s + tail, j, budget) == decode_children(s, j, budget),
    decreases (if budget >= 0 { budget } else { 0int }), 1int,
{
    assert(forall|k: int| 0 <= k < s.len() ==> (s + tail)[k] == s[k]);
    if budget > 0 {
        let e = s[j].extent;
        lemma_decode_append(s, tail, j);
        lemma_decode_append_children(s, tail, j + e, budget - e);
    }
}

/// Two adjacent runs of siblings decode as the concatenation of their
/// child lists.
pub proof fn lemma_decode_children_concat(s: Seq<FlatS>, j: int, b1: int, b2: int)
    requires
        decode_children(s, j, b1) is Some,
        decode_children(s, j + b1, b2) is Some,
        b1 >= 0,
        b2 >= 0,
    ensures
        decode_children(s, j, b1 + b2) == Some(
            decode_children(s, j, b1)->0 + decode_children(s, j + b1, b2)->0,
        ),
    decreases b1, 0int,
{
    if b1 == 0 {
        assert(decode_children(s, j, b1)->0 =~= Seq::<NodeS>::empty());
        assert(Seq::<NodeS>::empty() + decode_children(s, j, b2)->0
            =~= decode_children(s, j, b2)->0);
    } else {
        let e = s[j].extent;
        lemma_decode_children_concat(s, j + e, b1 - e, b2);
        let head = decode_at(s, j)->0;
        let r1 = decode_children(s, j + e, b1 - e)->0;
        let r2 = decode_children(s, j + b1, b2)->0;
        if b1 + b2 > 0 && 1 <= e <= b1 + b2 {
            assert(seq![head] + (r1 + r2) =~= (seq![head] + r1) + r2);
        }
    }
}

/// Counts the records the flattening of a blueprint will take; `None`
/// when the count does not fit the machine's word.
fn count_nodes(f: &NodeFactory) -> (r: Option<usize>)
    ensures
        match r {
            Some(c) => c as int == flat_count(f@),
            None => flat_count(f@) > usize::MAX,
        },
    decreases *f, 0int,
{
    match f {
        NodeFactory::Leaf(_) => Some(1),
        NodeFactory::Sequence(sf) => count_composite(&sf.children),
        NodeFactory::Priority(pf) => count_composite(&pf.children),
        NodeFactory::Selector(sf) => count_composite(&sf.children),
        NodeFactory::Inverter(inv) => {
            proof {
                crate::optimized::lemma_flat_count_pos(crate::factory::fac_view(*inv.child));
            }
            match count_nodes(&*inv.child) {
                Some(c) => c.checked_add(1),
                None => None,
            }
        }
        NodeFactory::Subtree(_) => Some(1),
    }
}

/// Counts a composite's own record plus those of its children.
fn count_composite(children: &Vec<NodeFactory>) -> (r: Option<usize>)
    ensures
        match r {
            Some(c) => c as int == 1 + flat_count_list(fac_views(children@)),
            None => 1 + flat_count_list(fac_views(children@)) > usize::MAX,
        },
    decreases children@, 1int,
{
    let ghost fvs = fac_views(children@);
    proof {
        lemma_fac_views(children@);
        lemma_flat_count_list_nonneg(fvs);
    }
    let mut total: usize = 1;
    let mut i: usize = 0;
    proof {
        assert(fvs.skip(0) =~= fvs);
        assert(flat_count_list(fvs.skip(0)) == flat_count_list(fvs));
    }
    while i < children.len()
        invariant
            0 <= i <= children@.len(),
            fvs == fac_views(children@),
            fvs.len() == children@.len(),
            forall|j: int| 0 <= j < children@.len() ==> fvs[j] == crate::factory::fac_view(
                children@[j],
            ),
            total as int == 1 + flat_count_list(fvs) - flat_count_list(fvs.skip(i as int)),
            total >= 1,
        decreases children@.len() - i,
    {
        let ghost rem = fvs.skip(i as int);
        proof {
            assert(rem.len() > 0);
            assert(rem[0] == fvs[i as int]);
            assert(rem.drop_first() =~= fvs.skip(i as int + 1));
            assert(flat_count_list(rem)
                == flat_count(rem[0]) + flat_count_list(fvs.skip(i as int + 1)));
            lemma_flat_count_pos(rem[0]);
            lemma_flat_count_list_nonneg(fvs.skip(i as int + 1));
        }
        let c = match count_nodes(&children[i]) {
            Some(c) => c,
            None => {
                proof {
                    lemma_count_suffix_bound(fvs, i as int);
                }
                return None;
            }
        };
        total = match total.checked_add(c) {
            Some(t) => t,
            None => {
                proof {
                    lemma_count_suffix_bound(fvs, i as int + 1);
                }
                return None;
            }
        };
        i += 1;
    }
    proof {
        assert(fvs.skip(i as int).len() == 0);
        assert(flat_count_list(fvs.skip(i as int)) == 0);
    }
    Some(total)
}

/// The whole list counts at least as much as any suffix.
proof fn lemma_count_suffix_bound(fvs: Seq<FacS>, i: int)
    requires
        0 <= i <= fvs.len(),
    ensures
        flat_count_list(fvs) >= flat_count_list(fvs.skip(i)) + i,
        flat_count_list(fvs.skip(i)) >= 0,
    decreases i,
{
    lemma_flat_count_list_nonneg(fvs.skip(i));
    if i > 0 {
        lemma_count_suffix_bound(fvs, i - 1);
        let r = fvs.skip(i - 1);
        assert(r.len() > 0);
        assert(r[0] == fvs[i - 1]);
        assert(r.drop_first() =~= fvs.skip(i));
        lemma_flat_count_pos(r[0]);
        assert(flat_count_list(r) == flat_count(r[0]) + flat_count_list(fvs.skip(i)));
    } else {
        assert(fvs.skip(0) =~= fvs);
    }
}

/// Appends the flattening of a blueprint to the array.
fn flatten_into(f: &NodeFactory, out: &mut Vec<FlatNode>) -> (r: Result<(), String>)
    requires
        !has_subtree(f@),
    ensures
        match r {
            Ok(_) => final(out)@.len() == old(out)@.len() + flat_count(f@)
                && final(out)@.take(old(out)@.len() as int) == old(out)@
                && decode_at(flat_views(final(out)@), old(out)@.len() as int) == Some(
                instantiate_spec(f@),
            ) && flat_views(final(out)@)[old(out)@.len() as int].extent == flat_count(f@),
            Err(_) => final(out)@.len() >= old(out)@.len() && final(out)@.take(
                old(out)@.len() as int,
            ) == old(out)@,
        },
        old(out)@.len() + flat_count(f@) <= usize::MAX ==> r is Ok,
        r matches Err(m) ==> m@ == "The tree is too large to flatten"@,
    decreases *f, 0int,
{
    let ghost base = out@.len() as int;
    proof {
        lemma_flat_count_pos(f@);
    }
    let total = match count_nodes(f) {
        Some(c) => c,
        None => {
            proof {
                assert(out@.take(base) =~= out@);
            }
            return Err(String::from_str("The tree is too large to flatten"));
        }
    };
    if usize::MAX - total < out.len() {
        proof {
            assert(out@.take(base) =~= out@);
        }
        return Err(String::from_str("The tree is too large to flatten"));
    }
    match f {
        NodeFactory::Leaf(lf) => {
            let leaf = lf.instanciate();
            out.push(FlatNode { kind: FlatKind::Leaf(leaf), extent: 1 });
            proof {
                let s = flat_views(out@);
                assert(out@.take(base) =~= old(out)@);
                assert(s[base].extent == 1);
                assert(s[base].kind == FKS::Leaf(lf@));
                assert(decode_at(s, base) == Some(NodeS::Leaf(lf@)));
            }
            Ok(())
        }
        NodeFactory::Sequence(sf) => {
            out.push(FlatNode { kind: FlatKind::Sequence(None), extent: total });
            let ghost mid2 = out@;
            match flatten_children(&sf.children, out) {
                Ok(_) => {
                    proof {
                        assert(out@.take(base + 1) == mid2);
                        assert(out@[base] == mid2[base]);
                        assert(out@.take(base) =~= mid2.take(base));
                        assert(mid2.take(base) =~= old(out)@);
                        assert(flat_views(out@)[base] == out@[base]@);
                        finish_composite(old(out)@, out@, base, f@, fac_views(sf.children@));
                    }
                    Ok(())
                }
                Err(m) => {
                    proof {
                        assert(out@.take(base + 1) == mid2);
                        assert(out@.take(base) =~= mid2.take(base));
                        assert(mid2.take(base) =~= old(out)@);
                    }
                    Err(m)
                }
            }
        }
        NodeFactory::Selector(sf) => {
            out.push(FlatNode { kind: FlatKind::Selector(None), extent: total });
            let ghost mid2 = out@;
            match flatten_children(&sf.children, out) {
                Ok(_) => {
                    proof {
                        assert(out@.take(base + 1) == mid2);
                        assert(out@[base] == mid2[base]);
                        assert(out@.take(base) =~= mid2.take(base));
                        assert(mid2.take(base) =~= old(out)@);
                        assert(flat_views(out@)[base] == out@[base]@);
                        finish_composite(old(out)@, out@, base, f@, fac_views(sf.children@));
                    }
                    Ok(())
                }
                Err(m) => {
                    proof {
                        assert(out@.take(base + 1) == mid2);
                        assert(out@.take(base) =~= mid2.take(base));
                        assert(mid2.take(base) =~= old(out)@);
                    }
                    Err(m)
                }
            }
        }
        NodeFactory::Priority(pf) => {
            out.push(FlatNode { kind: FlatKind::Priority, extent: total });
            let ghost mid2 = out@;
            match flatten_children(&pf.children, out) {
                Ok(_) => {
                    proof {
                        assert(out@.take(base + 1) == mid2);
                        assert(out@[base] == mid2[base]);
                        assert(out@.take(base) =~= mid2.take(base));
                        assert(mid2.take(base) =~= old(out)@);
                        assert(flat_views(out@)[base] == out@[base]@);
                        finish_composite(old(out)@, out@, base, f@, fac_views(pf.children@));
                    }
                    Ok(())
                }
                Err(m) => {
                    proof {
                        assert(out@.take(base + 1) == mid2);
                        assert(out@.take(base) =~= mid2.take(base));
                        assert(mid2.take(base) =~= old(out)@);
                    }
                    Err(m)
                }
            }
        }
        NodeFactory::Inverter(inv) => {
            out.push(FlatNode { kind: FlatKind::Inverter, extent: total });
            let ghost mid = out@;
            match flatten_into(&*inv.child, out) {
                Ok(_) => {
                    proof {
                        let s = flat_views(out@);
                        let cf = crate::factory::fac_view(*inv.child);
                        assert(out@.take(base + 1) == mid);
                        assert(out@[base] == mid[base]);
                        assert(s[base] == out@[base]@);
                        assert(mid.take(base) =~= old(out)@);
                        assert(out@.take(base) =~= old(out)@);
                        assert(s[base].extent == total as int);
                        assert(s[base].kind == FKS::Inverter);
                        assert(s[base + 1].extent == flat_count(cf));
                        assert(decode_at(s, base + 1) == Some(instantiate_spec(cf)));
                        lemma_flat_count_pos(cf);
                        assert(decode_children(s, base + 1 + flat_count(cf), 0)
                            == Some(Seq::<NodeS>::empty()));
                        assert(decode_children(s, base + 1, total as int - 1)
                            == Some(seq![instantiate_spec(cf)]));
                        assert(seq![instantiate_spec(cf)].len() == 1);
                        assert(decode_at(s, base) == Some(
                            NodeS::Inverter(Box::new(instantiate_spec(cf))),
                        ));
                    }
                    Ok(())
                }
                Err(m) => {
                    proof {
                        assert(out@.take(base) =~= mid.take(base));
                        assert(mid.take(base) =~= old(out)@);
                    }
                    Err(m)
                }
            }
        }
        NodeFactory::Subtree(_) => {
            proof {
                assert(false);
            }
            Err(String::new())
        }
    }
}

/// Closes a composite's decode once its children stand after it.
proof fn finish_composite(
    before: Seq<FlatNode>,
    after: Seq<FlatNode>,
    base: int,
    f: FacS,
    cfs: Seq<FacS>,
)
    requires
        after.len() == base + 1 + flat_count_list(cfs),
        after.take(base) == before,
        before.len() == base,
        flat_views(after)[base].extent == flat_count(f),
        flat_count(f) == 1 + flat_count_list(cfs),
        (match f {
            FacS::Sequence(cs) => cs == cfs && flat_views(after)[base].kind == FKS::Sequence(
                None,
            ),
            FacS::Selector(cs) => cs == cfs && flat_views(after)[base].kind == FKS::Selector(
                None,
            ),
            FacS::Priority(cs) => cs == cfs && flat_views(after)[base].kind == FKS::Priority,
            _ => false,
        }),
        decode_children(flat_views(after), base + 1, flat_count_list(cfs)) == Some(
            instantiate_list(cfs),
        ),
    ensures
        decode_at(flat_views(after), base) == Some(instantiate_spec(f)),
{
    let s = flat_views(after);
    lemma_instantiate_list(cfs);
    lemma_flat_count_list_nonneg(cfs);
    match f {
        FacS::Sequence(cs) => {
            assert(decode_at(s, base) == Some(NodeS::Sequence(None, instantiate_list(cs))));
        }
        FacS::Selector(cs) => {
            assert(decode_at(s, base) == Some(NodeS::Selector(None, instantiate_list(cs))));
        }
        FacS::Priority(cs) => {
            assert(decode_at(s, base) == Some(NodeS::Priority(instantiate_list(cs))));
        }
        _ => {}
    }
}

/// Appends the flattenings of a list of blueprints, in order.
fn flatten_children(children: &Vec<NodeFactory>, out: &mut Vec<FlatNode>) -> (r: Result<
    (),
    String,
>)
    requires
        !has_subtree_list(fac_views(children@)),
    ensures
        match r {
            Ok(_) => final(out)@.len() == old(out)@.len() + flat_count_list(
                fac_views(children@),
            ) && final(out)@.take(old(out)@.len() as int) == old(out)@ && decode_children(
                flat_views(final(out)@),
                old(out)@.len() as int,
                flat_count_list(fac_views(children@)),
            ) == Some(instantiate_list(fac_views(children@))),
            Err(_) => final(out)@.len() >= old(out)@.len() && final(out)@.take(
                old(out)@.len() as int,
            ) == old(out)@,
        },
        old(out)@.len() + flat_count_list(fac_views(children@)) <= usize::MAX ==> r is Ok,
        r matches Err(m) ==> m@ == "The tree is too large to flatten"@,
    decreases children@, 1int,
{
    let ghost fvs = fac_views(children@);
    let ghost base = out@.len() as int;
    proof {
        lemma_fac_views(children@);
        lemma_has_subtree_list(fvs);
        lemma_instantiate_list(fvs);
        lemma_flat_count_list_nonneg(fvs);
    }
    let mut i: usize = 0;
    proof {
        assert(fvs.take(0) =~= Seq::<FacS>::empty());
        assert(out@.take(base) =~= out@);
        assert(decode_children(flat_views(out@), base, 0) == Some(Seq::<NodeS>::empty()));
        assert(instantiate_list(fvs.take(0)) =~= Seq::<NodeS>::empty());
    }
    while i < children.len()
        invariant
            0 <= i <= children@.len(),
            fvs == fac_views(children@),
            fvs.len() == children@.len(),
            forall|j: int| 0 <= j < children@.len() ==> fvs[j] == crate::factory::fac_view(
                children@[j],
            ),
            forall|j: int| 0 <= j < children@.len() ==> !has_subtree(fvs[j]),
            out@.len() as int == base + flat_count_list(fvs.take(i as int)),
            out@.take(base) == old(out)@,
            base >= 0,
            old(out)@.len() == base,
            decode_children(flat_views(out@), base, flat_count_list(fvs.take(i as int)))
                == Some(instantiate_list(fvs.take(i as int))),
        decreases children@.len() - i,
    {
        let ghost done = fvs.take(i as int);
        let ghost cur = out@;
        proof {
            lemma_flat_count_list_nonneg(done);
            lemma_count_list_take(fvs, i as int);
        }
        match flatten_into(&children[i], out) {
            Err(m) => {
                proof {
                    assert(out@.take(base) =~= out@.take(cur.len() as int).take(base));
                    assert(out@.take(cur.len() as int).take(base) =~= cur.take(base));
                    lemma_count_list_split(fvs, i as int);
                    lemma_flat_count_list_nonneg(fvs.skip(i as int));
                    assert(fvs.skip(i as int).len() > 0);
                    assert(fvs.skip(i as int)[0] == fvs[i as int]);
                }
                return Err(m);
            }
            Ok(_) => {
                proof {
                    let done2 = fvs.take(i as int + 1);
                    let fc = flat_count(fvs[i as int]);
                    let s2 = flat_views(out@);
                    let scur = flat_views(cur);
                    assert(out@.take(cur.len() as int) == cur);
                    assert(out@.take(base) =~= cur.take(base));
                    // the earlier children decode unchanged under the append
                    let tail = out@.skip(cur.len() as int);
                    assert(cur + tail =~= out@);
                    assert(flat_views(cur + tail) =~= scur + flat_views(out@).skip(
                        cur.len() as int,
                    ));
                    lemma_decode_append_children(
                        scur,
                        s2.skip(cur.len() as int),
                        base,
                        flat_count_list(done),
                    );
                    assert(scur + s2.skip(cur.len() as int) =~= s2);
                    assert(decode_children(s2, base, flat_count_list(done))
                        == Some(instantiate_list(done)));
                    // the new child decodes at its position
                    assert(decode_at(s2, cur.len() as int) == Some(
                        instantiate_spec(fvs[i as int]),
                    ));
                    assert(decode_children(s2, cur.len() as int + fc, 0)
                        == Some(Seq::<NodeS>::empty()));
                    lemma_flat_count_pos(fvs[i as int]);
                    assert(decode_children(s2, cur.len() as int, fc)
                        == Some(seq![instantiate_spec(fvs[i as int])]));
                    // concatenate
                    lemma_decode_children_concat(
                        s2,
                        base,
                        flat_count_list(done),
                        fc,
                    );
                    lemma_count_list_take(fvs, i as int + 1);
                    assert(flat_count_list(done2) == flat_count_list(done) + fc);
                    lemma_instantiate_list(fvs);
                    lemma_instantiate_list(done2);
                    lemma_instantiate_list(done);
                    assert(instantiate_list(done) + seq![instantiate_spec(fvs[i as int])]
                        =~= instantiate_list(done2));
                }
            }
        }
        i += 1;
    }
    proof {
        assert(fvs.take(i as int) =~= fvs);
    }
    Ok(())
}

/// A list's count splits at any position.
proof fn lemma_count_list_split(fvs: Seq<FacS>, i: int)
    requires
        0 <= i <= fvs.len(),
    ensures
        flat_count_list(fvs) == flat_count_list(fvs.take(i)) + flat_count_list(fvs.skip(i)),
    decreases i,
{
    if i == 0 {
        assert(fvs.take(0) =~= Seq::<FacS>::empty());
        assert(fvs.skip(0) =~= fvs);
    } else {
        lemma_count_list_split(fvs, i - 1);
        lemma_count_list_take(fvs, i - 1);
        let r = fvs.skip(i - 1);
        assert(r.len() > 0);
        assert(r[0] == fvs[i - 1]);
        assert(r.drop_first() =~= fvs.skip(i));
        assert(flat_count_list(r) == flat_count(fvs[i - 1]) + flat_count_list(fvs.skip(i)));
    }
}

/// The count of a prefix grows by the next blueprint's count.
proof fn lemma_count_list_take(fvs: Seq<FacS>, i: int)
    requires
        0 <= i <= fvs.len(),
    ensures
        i < fvs.len() ==> flat_count_list(fvs.take(i + 1)) == flat_count_list(fvs.take(i))
            + flat_count(fvs[i]),
    decreases i,
{
    if i < fvs.len() {
        lemma_count_take_step(fvs.take(i + 1));
        assert(fvs.take(i + 1).drop_last() =~= fvs.take(i));
        assert(fvs.take(i + 1).last() == fvs[i]);
    }
}

/// Splitting the last element off a nonempty list splits its count.
proof fn lemma_count_take_step(cs: Seq<FacS>)
    requires
        cs.len() > 0,
    ensures
        flat_count_list(cs) == flat_count_list(cs.drop_last()) + flat_count(cs.last()),
    decreases cs.len(),
{
    if cs.len() == 1 {
        assert(cs.drop_first() =~= Seq::<FacS>::empty());
        assert(cs.drop_last() =~= Seq::<FacS>::empty());
        assert(cs[0] == cs.last());
    } else {
        lemma_count_take_step(cs.drop_first());
        assert(cs.drop_first().drop_last() =~= cs.drop_last().drop_first());
        assert(cs.drop_first().last() == cs.last());
        assert(cs.drop_last()[0] == cs[0]);
        assert(flat_count_list(cs.drop_last())
            == flat_count(cs[0]) + flat_count_list(cs.drop_last().drop_first()));
    }
}

/// Walks a flat sequence's (or priority's) children standing in
/// `budget` records from `j`, skipping the first `skip` children: the
/// walk's result and, for a child that kept running, its index in the
/// full child list.
fn flat_seq_children(
    nodes: &mut Vec<FlatNode>,
    j: usize,
    budget: usize,
    skip: usize,
    context: &mut Context,
) -> (r: (Result<VisitResult, EvalErr>, Option<usize>))
    requires
        decode_children(flat_views(old(nodes)@), j as int, budget as int) is Some,
        skip <= decode_children(flat_views(old(nodes)@), j as int, budget as int)->0.len(),
        j + budget <= old(nodes)@.len(),
    ensures
        ({
            let cs = decode_children(flat_views(old(nodes)@), j as int, budget as int)->0;
            let o = tick_seq_rest(cs.skip(skip as int), old(context)@);
            &&& final(nodes)@.len() == old(nodes)@.len()
            &&& (forall|k: int|
                0 <= k < old(nodes)@.len() && !(j <= k < j + budget) ==> final(nodes)@[k]
                    == old(nodes)@[k])
            &&& (forall|k: int|
                0 <= k < old(nodes)@.len() ==> final(nodes)@[k].extent
                    == old(nodes)@[k].extent)
            &&& decode_children(flat_views(final(nodes)@), j as int, budget as int) == Some(
                cs.take(skip as int) + o.cs,
            )
            &&& (match o.r {
                Ok(v) => r.0 matches Ok(rv) && rv == v,
                Err(e) => r.0 matches Err(x) && x@ == e,
            })
            &&& final(context)@ == o.c
            &&& (match o.idx {
                Some(d) => r.1 == Some((skip + d) as usize),
                None => r.1 is None,
            })
        }),
    decreases budget, 1int,
{
    let total_len = nodes.len();
    let ghost s0 = flat_views(old(nodes)@);
    let ghost cs = decode_children(s0, j as int, budget as int)->0;
    proof {
        assert(old(nodes)@.len() == total_len);
        lemma_decode_children_len(s0, j as int, budget as int);
    }
    if budget == 0 {
        proof {
            assert(cs =~= Seq::<NodeS>::empty());
            assert(cs.skip(0) =~= cs);
            assert(cs.take(0) =~= cs);
            assert(cs + Seq::<NodeS>::empty() =~= cs);
            assert(flat_views(nodes@) =~= s0);
        }
        return (Ok(VisitResult::Success), None);
    }
    let e = nodes[j].extent;
    let ghost crest = decode_children(s0, j as int + e as int, budget as int - e as int)->0;
    proof {
        assert(s0[j as int].extent == e as int);
        assert(1 <= e <= budget);
        assert(decode_at(s0, j as int) is Some);
        assert(cs == seq![decode_at(s0, j as int)->0] + crest);
        assert(cs[0] == decode_at(s0, j as int)->0);
        assert(cs.drop_first() =~= crest);
        lemma_decode_children_len(s0, j as int + e as int, budget as int - e as int);
    }
    if skip > 0 {
        let (r1, idx1) = flat_seq_children(nodes, j + e, budget - e, skip - 1, context);
        let ghost o1 = tick_seq_rest(crest.skip(skip as int - 1), old(context)@);
        proof {
            let s2 = flat_views(nodes@);
            assert(cs.skip(skip as int) =~= crest.skip(skip as int - 1));
            assert(forall|k: int| j <= k < j + e ==> s2[k] == s0[k]);
            lemma_decode_frame(s0, s2, j as int);
            assert(decode_children(s2, j as int, budget as int) == Some(
                cs.take(skip as int) + o1.cs,
            )) by {
                assert(decode_at(s2, j as int) == decode_at(s0, j as int));
                assert(s2[j as int].extent == e as int);
                assert(decode_children(s2, j as int + e as int, budget as int - e as int)
                    == Some(crest.take(skip as int - 1) + o1.cs));
                assert(seq![cs[0]] + (crest.take(skip as int - 1) + o1.cs)
                    =~= cs.take(skip as int) + o1.cs);
            }
        }
        let idx = match idx1 {
            Some(x) => {
                proof {
                    crate::tree::lemma_seq_walk_bounds(
                        crest.skip(skip as int - 1),
                        old(context)@,
                    );
                }
                Some(x + 1)
            }
            None => None,
        };
        return (r1, idx);
    }
    // visit child j, then walk on
    proof {
        assert(cs.skip(0) =~= cs);
    }
    let r0 = flat_visit(nodes, j, context);
    let ghost t = tick_node(cs[0], old(context)@);
    let ghost mid = nodes@;
    proof {
        assert(forall|k: int|
            0 <= k < mid.len() && !(j <= k < j + e) ==> mid[k] == old(nodes)@[k]);
        assert(flat_views(mid)[j as int].extent == e as int);
    }
    match r0 {
        Ok(VisitResult::Success) => {
            proof {
                let sm = flat_views(mid);
                assert(forall|k: int|
                    j + e <= k < j + budget ==> sm[k] == s0[k]);
                lemma_decode_frame_children(s0, sm, j as int + e as int,
                    budget as int - e as int);
            }
            let (r1, idx1) = flat_seq_children(nodes, j + e, budget - e, 0, context);
            let ghost o1 = tick_seq_rest(crest.skip(0), t.c);
            proof {
                let s2 = flat_views(nodes@);
                assert(crest.skip(0) =~= crest);
                assert(forall|k: int| j <= k < j + e ==> s2[k] == flat_views(mid)[k]);
                lemma_decode_frame(flat_views(mid), s2, j as int);
                assert(decode_at(s2, j as int) == Some(t.n));
                assert(decode_children(s2, j as int + e as int, budget as int - e as int)
                    == Some(crest.take(0) + o1.cs));
                assert(crest.take(0) + o1.cs =~= o1.cs);
                assert(s2[j as int].extent == e as int);
                assert(decode_children(s2, j as int, budget as int) == Some(
                    seq![t.n] + o1.cs,
                ));
                let o = tick_seq_rest(cs, old(context)@);
                assert(o.r == o1.r && o.c == o1.c && o.cs == seq![t.n] + o1.cs
                    && o.idx == shift_idx(o1.idx, 1));
                assert(cs.take(0) + (seq![t.n] + o1.cs) =~= seq![t.n] + o1.cs);
            }
            let idx = match idx1 {
                Some(x) => {
                    proof {
                        crate::tree::lemma_seq_walk_bounds(crest.skip(0), t.c);
                    }
                    Some(x + 1)
                }
                None => None,
            };
            (r1, idx)
        }
        Ok(VisitResult::Running) => {
            proof {
                close_after_head(s0, flat_views(mid), cs, crest, t, j as int, e as int,
                    budget as int);
            }
            (Ok(VisitResult::Running), Some(0))
        }
        Ok(VisitResult::Failure) => {
            proof {
                close_after_head(s0, flat_views(mid), cs, crest, t, j as int, e as int,
                    budget as int);
            }
            (Ok(VisitResult::Failure), None)
        }
        Err(err) => {
            proof {
                close_after_head(s0, flat_views(mid), cs, crest, t, j as int, e as int,
                    budget as int);
            }
            (Err(err), None)
        }
    }
}

/// After the head child's tick ends the walk, the decoded child list
/// is the new head followed by the untouched rest.
proof fn close_after_head(
    s0: Seq<FlatS>,
    sm: Seq<FlatS>,
    cs: Seq<NodeS>,
    crest: Seq<NodeS>,
    t: crate::tree::TickOut,
    j: int,
    e: int,
    budget: int,
)
    requires
        s0.len() == sm.len(),
        decode_children(s0, j, budget) == Some(cs),
        0 <= j,
        j + budget <= s0.len(),
        1 <= e <= budget,
        s0[j].extent == e,
        sm[j].extent == e,
        decode_children(s0, j + e, budget - e) == Some(crest),
        cs == seq![decode_at(s0, j)->0] + crest,
        decode_at(sm, j) == Some(t.n),
        forall|k: int| j + e <= k < j + budget ==> sm[k] == s0[k],
    ensures
        decode_children(sm, j, budget) == Some(seq![t.n] + crest),
        cs.take(0) + (seq![t.n] + crest) == seq![t.n] + crest,
        cs.take(0) + (seq![t.n] + cs.drop_first()) == seq![t.n] + cs.drop_first(),
        cs.drop_first() == crest,
{
    lemma_decode_frame_children(s0, sm, j + e, budget - e);
    assert(decode_children(sm, j, budget) == Some(seq![t.n] + crest));
    assert(cs.take(0) + (seq![t.n] + crest) =~= seq![t.n] + crest);
    assert(cs.drop_first() =~= crest);
    assert(cs.take(0) + (seq![t.n] + cs.drop_first()) =~= seq![t.n] + cs.drop_first());
}

/// Walks a flat selector's children standing in `budget` records from
/// `j`, skipping the first `skip` children.
fn flat_sel_children(
    nodes: &mut Vec<FlatNode>,
    j: usize,
    budget: usize,
    skip: usize,
    context: &mut Context,
) -> (r: (Result<VisitResult, EvalErr>, Option<usize>))
    requires
        decode_children(flat_views(old(nodes)@), j as int, budget as int) is Some,
        skip <= decode_children(flat_views(old(nodes)@), j as int, budget as int)->0.len(),
        j + budget <= old(nodes)@.len(),
    ensures
        ({
            let cs = decode_children(flat_views(old(nodes)@), j as int, budget as int)->0;
            let o = tick_sel_rest(cs.skip(skip as int), old(context)@);
            &&& final(nodes)@.len() == old(nodes)@.len()
            &&& (forall|k: int|
                0 <= k < old(nodes)@.len() && !(j <= k < j + budget) ==> final(nodes)@[k]
                    == old(nodes)@[k])
            &&& (forall|k: int|
                0 <= k < old(nodes)@.len() ==> final(nodes)@[k].extent
                    == old(nodes)@[k].extent)
            &&& decode_children(flat_views(final(nodes)@), j as int, budget as int) == Some(
                cs.take(skip as int) + o.cs,
            )
            &&& (match o.r {
                Ok(v) => r.0 matches Ok(rv) && rv == v,
                Err(e) => r.0 matches Err(x) && x@ == e,
            })
            &&& final(context)@ == o.c
            &&& (match o.idx {
                Some(d) => r.1 == Some((skip + d) as usize),
                None => r.1 is None,
            })
        }),
    decreases budget, 1int,
{
    let total_len = nodes.len();
    let ghost s0 = flat_views(old(nodes)@);
    let ghost cs = decode_children(s0, j as int, budget as int)->0;
    proof {
        assert(old(nodes)@.len() == total_len);
        lemma_decode_children_len(s0, j as int, budget as int);
    }
    if budget == 0 {
        proof {
            assert(cs =~= Seq::<NodeS>::empty());
            assert(cs.skip(0) =~= cs);
            assert(cs.take(0) =~= cs);
            assert(cs + Seq::<NodeS>::empty() =~= cs);
            assert(flat_views(nodes@) =~= s0);
        }
        return (Ok(VisitResult::Failure), None);
    }
    let e = nodes[j].extent;
    let ghost crest = decode_children(s0, j as int + e as int, budget as int - e as int)->0;
    proof {
        assert(s0[j as int].extent == e as int);
        assert(1 <= e <= budget);
        assert(decode_at(s0, j as int) is Some);
        assert(cs == seq![decode_at(s0, j as int)->0] + crest);
        assert(cs[0] == decode_at(s0, j as int)->0);
        assert(cs.drop_first() =~= crest);
        lemma_decode_children_len(s0, j as int + e as int, budget as int - e as int);
    }
    if skip > 0 {
        let (r1, idx1) = flat_sel_children(nodes, j + e, budget - e, skip - 1, context);
        let ghost o1 = tick_sel_rest(crest.skip(skip as int - 1), old(context)@);
        proof {
            let s2 = flat_views(nodes@);
            assert(cs.skip(skip as int) =~= crest.skip(skip as int - 1));
            assert(forall|k: int| j <= k < j + e ==> s2[k] == s0[k]);
            lemma_decode_frame(s0, s2, j as int);
            assert(decode_children(s2, j as int, budget as int) == Some(
                cs.take(skip as int) + o1.cs,
            )) by {
                assert(decode_at(s2, j as int) == decode_at(s0, j as int));
                assert(s2[j as int].extent == e as int);
                assert(decode_children(s2, j as int + e as int, budget as int - e as int)
                    == Some(crest.take(skip as int - 1) + o1.cs));
                assert(seq![cs[0]] + (crest.take(skip as int - 1) + o1.cs)
                    =~= cs.take(skip as int) + o1.cs);
            }
        }
        let idx = match idx1 {
            Some(x) => {
                proof {
                    crate::tree::lemma_sel_walk_bounds(
                        crest.skip(skip as int - 1),
                        old(context)@,
                    );
                }
                Some(x + 1)
            }
            None => None,
        };
        return (r1, idx);
    }
    // visit child j, then walk on
    proof {
        assert(cs.skip(0) =~= cs);
    }
    let r0 = flat_visit(nodes, j, context);
    let ghost t = tick_node(cs[0], old(context)@);
    let ghost mid = nodes@;
    proof {
        assert(forall|k: int|
            0 <= k < mid.len() && !(j <= k < j + e) ==> mid[k] == old(nodes)@[k]);
        assert(flat_views(mid)[j as int].extent == e as int);
    }
    match r0 {
        Ok(VisitResult::Failure) => {
            proof {
                let sm = flat_views(mid);
                assert(forall|k: int|
                    j + e <= k < j + budget ==> sm[k] == s0[k]);
                lemma_decode_frame_children(s0, sm, j as int + e as int,
                    budget as int - e as int);
            }
            let (r1, idx1) = flat_sel_children(nodes, j + e, budget - e, 0, context);
            let ghost o1 = tick_sel_rest(crest.skip(0), t.c);
            proof {
                let s2 = flat_views(nodes@);
                assert(crest.skip(0) =~= crest);
                assert(forall|k: int| j <= k < j + e ==> s2[k] == flat_views(mid)[k]);
                lemma_decode_frame(flat_views(mid), s2, j as int);
                assert(decode_at(s2, j as int) == Some(t.n));
                assert(decode_children(s2, j as int + e as int, budget as int - e as int)
                    == Some(crest.take(0) + o1.cs));
                assert(crest.take(0) + o1.cs =~= o1.cs);
                assert(s2[j as int].extent == e as int);
                assert(decode_children(s2, j as int, budget as int) == Some(
                    seq![t.n] + o1.cs,
                ));
                let o = tick_sel_rest(cs, old(context)@);
                assert(o.r == o1.r && o.c == o1.c && o.cs == seq![t.n] + o1.cs
                    && o.idx == shift_idx(o1.idx, 1));
                assert(cs.take(0) + (seq![t.n] + o1.cs) =~= seq![t.n] + o1.cs);
            }
            let idx = match idx1 {
                Some(x) => {
                    proof {
                        crate::tree::lemma_sel_walk_bounds(crest.skip(0), t.c);
                    }
                    Some(x + 1)
                }
                None => None,
            };
            (r1, idx)
        }
        Ok(VisitResult::Running) => {
            proof {
                close_after_head(s0, flat_views(mid), cs, crest, t, j as int, e as int,
                    budget as int);
            }
            (Ok(VisitResult::Running), Some(0))
        }
        Ok(VisitResult::Success) => {
            proof {
                close_after_head(s0, flat_views(mid), cs, crest, t, j as int, e as int,
                    budget as int);
            }
            (Ok(VisitResult::Success), None)
        }
        Err(err) => {
            proof {
                close_after_head(s0, flat_views(mid), cs, crest, t, j as int, e as int,
                    budget as int);
            }
            (Err(err), None)
        }
    }
}

/// Visits the subtree rooted at record `i` in place: the records of
/// that subtree change only in their stored resumption state, and the
/// decoded state changes exactly as the tick model says.
fn flat_visit(nodes: &mut Vec<FlatNode>, i: usize, context: &mut Context) -> (r: Result<
    VisitResult,
    EvalErr,
>)
    requires
        decode_at(flat_views(old(nodes)@), i as int) is Some,
    ensures
        ({
            let t = tick_node(decode_at(flat_views(old(nodes)@), i as int)->0, old(context)@);
            &&& final(nodes)@.len() == old(nodes)@.len()
            &&& (forall|k: int|
                0 <= k < old(nodes)@.len() && !(i <= k < i + old(nodes)@[i as int].extent)
                    ==> final(nodes)@[k] == old(nodes)@[k])
            &&& (forall|k: int|
                0 <= k < old(nodes)@.len() ==> final(nodes)@[k].extent
                    == old(nodes)@[k].extent)
            &&& decode_at(flat_views(final(nodes)@), i as int) == Some(t.n)
            &&& (match t.r {
                Ok(v) => r matches Ok(rv) && rv == v,
                Err(e) => r matches Err(x) && x@ == e,
            })
            &&& final(context)@ == t.c
        }),
    decreases old(nodes)@[i as int].extent, 0int,
{
    let total_len = nodes.len();
    let ghost s0 = flat_views(old(nodes)@);
    let ghost dn = decode_at(s0, i as int)->0;
    let e = nodes[i].extent;
    proof {
        assert(old(nodes)@.len() == total_len);
        assert(s0[i as int].extent == e as int);
        assert(0 <= i as int && i as int + e as int <= total_len);
    }
    let is_leaf = matches!(&nodes[i].kind, FlatKind::Leaf(_));
    if is_leaf {
        let r = match &nodes[i].kind {
            FlatKind::Leaf(l) => l.visit(context),
            _ => {
                proof {
                    assert(false);
                }
                Ok(VisitResult::Success)
            }
        };
        proof {
            assert(flat_views(nodes@) =~= s0);
        }
        return r;
    }
    let is_inverter = matches!(&nodes[i].kind, FlatKind::Inverter);
    if is_inverter {
        let ghost cs = decode_children(s0, i as int + 1, e as int - 1)->0;
        proof {
            assert(cs.len() == 1);
            let e1 = s0[i as int + 1].extent;
            assert(1 <= e1 <= e - 1);
            assert(decode_children(s0, i as int + 1 + e1, e as int - 1 - e1) is Some);
            if e as int - 1 - e1 > 0 {
                lemma_decode_children_pos(s0, i as int + 1 + e1, e as int - 1 - e1);
                assert(cs.len() >= 2);
            }
            assert(e1 == e as int - 1);
            assert(decode_at(s0, i as int + 1) == Some(cs[0]));
        }
        let r0 = flat_visit(nodes, i + 1, context);
        let ghost tc = tick_node(cs[0], old(context)@);
        proof {
            let s2 = flat_views(nodes@);
            assert(s2[i as int] == s0[i as int]);
            assert(decode_at(s2, i as int + 1) == Some(tc.n));
            assert(s2[i as int + 1].extent == e as int - 1);
            assert(decode_children(s2, i as int + e as int, 0) == Some(Seq::<NodeS>::empty()));
            assert(decode_children(s2, i as int + 1, e as int - 1) == Some(seq![tc.n]));
            assert((seq![tc.n]).len() == 1);
            assert(decode_at(s2, i as int) == Some(NodeS::Inverter(Box::new(tc.n))));
        }
        return match r0 {
            Ok(VisitResult::Success) => Ok(VisitResult::Failure),
            Ok(VisitResult::Failure) => Ok(VisitResult::Success),
            other => other,
        };
    }
    // a composite with children filling the rest of the subtree
    let ghost cs = decode_children(s0, i as int + 1, e as int - 1)->0;
    let run: Option<usize> = match &nodes[i].kind {
        FlatKind::Sequence(r0) => *r0,
        FlatKind::Selector(r0) => *r0,
        _ => None,
    };
    let start: usize = match run {
        Some(k) => k,
        None => 0,
    };
    let ghost run0: Option<int> = crate::non_optimized::run_view(run);
    proof {
        lemma_decode_children_len(s0, i as int + 1, e as int - 1);
        assert(start as int == start_index(run0, cs.len() as int));
    }
    let is_selector = matches!(&nodes[i].kind, FlatKind::Selector(_));
    let is_priority = matches!(&nodes[i].kind, FlatKind::Priority);
    if is_selector {
        let (r1, idx1) = flat_sel_children(nodes, i + 1, e - 1, start, context);
        let ghost o = tick_sel_rest(cs.skip(start as int), old(context)@);
        proof {
            crate::tree::lemma_sel_walk_bounds(cs.skip(start as int), old(context)@);
        }
        let stored: Option<usize> = if matches!(r1, Ok(VisitResult::Running)) {
            idx1
        } else {
            None
        };
        let ghost mid = nodes@;
        nodes[i] = FlatNode { kind: FlatKind::Selector(stored), extent: e };
        proof {
            let sm = flat_views(mid);
            let s2 = flat_views(nodes@);
            assert(forall|k: int|
                i as int + 1 <= k < i as int + e as int ==> s2[k] == sm[k]);
            lemma_decode_frame_children(sm, s2, i as int + 1, e as int - 1);
            assert(decode_children(s2, i as int + 1, e as int - 1)
                == Some(cs.take(start as int) + o.cs));
            assert((cs.take(start as int) + o.cs).len() == cs.len());
            assert(s2[i as int].extent == e as int);
            assert(s2[i as int].kind == FKS::Selector(crate::non_optimized::run_view(stored)));
            assert(decode_at(s2, i as int) == Some(NodeS::Selector(
                crate::non_optimized::run_view(stored),
                cs.take(start as int) + o.cs,
            )));
        }
        return r1;
    }
    if is_priority {
        proof {
            assert(run0 is None);
            assert(start == 0);
            assert(cs.skip(0) =~= cs);
        }
        let (r1, _idx1) = flat_seq_children(nodes, i + 1, e - 1, 0, context);
        let ghost o = tick_seq_rest(cs, old(context)@);
        proof {
            let s2 = flat_views(nodes@);
            assert(s2[i as int] == s0[i as int]);
            assert(cs.take(0) + o.cs =~= o.cs);
            assert(decode_at(s2, i as int) == Some(NodeS::Priority(o.cs)));
        }
        return r1;
    }
    let (r1, idx1) = flat_seq_children(nodes, i + 1, e - 1, start, context);
    let ghost o = tick_seq_rest(cs.skip(start as int), old(context)@);
    proof {
        crate::tree::lemma_seq_walk_bounds(cs.skip(start as int), old(context)@);
    }
    let stored: Option<usize> = if matches!(r1, Ok(VisitResult::Running)) {
        idx1
    } else {
        None
    };
    let ghost mid = nodes@;
    nodes[i] = FlatNode { kind: FlatKind::Sequence(stored), extent: e };
    proof {
        let sm = flat_views(mid);
        let s2 = flat_views(nodes@);
        assert(forall|k: int|
            i as int + 1 <= k < i as int + e as int ==> s2[k] == sm[k]);
        lemma_decode_frame_children(sm, s2, i as int + 1, e as int - 1);
        assert(decode_children(s2, i as int + 1, e as int - 1)
            == Some(cs.take(start as int) + o.cs));
        assert((cs.take(start as int) + o.cs).len() == cs.len());
        assert(s2[i as int].extent == e as int);
        assert(s2[i as int].kind == FKS::Sequence(crate::non_optimized::run_view(stored)));
        assert(decode_at(s2, i as int) == Some(NodeS::Sequence(
            crate::non_optimized::run_view(stored),
            cs.take(start as int) + o.cs,
        )));
    }
    r1
}

/// A nonempty budget decodes to at least one child.
proof fn lemma_decode_children_pos(s: Seq<FlatS>, j: int, budget: int)
    requires
        budget > 0,
        decode_children(s, j, budget) is Some,
    ensures
        decode_children(s, j, budget)->0.len() > 0,
{
}

impl OptimizedTree {
    /// One tick of the flattened tree against the context; the walk
    /// follows the child-range metadata alone.
    pub fn visit(&mut self, context: &mut Context) -> (r: Result<VisitResult, EvalErr>)
        requires
            old(self).wf(),
        ensures
            final(self).wf(),
            matches_tick(
                tick_node(old(self)@, old(context)@),
                r,
                final(self)@,
                final(context)@,
            ),
    {
        flat_visit(&mut self.nodes, 0, context)
    }
}

impl TreeFactory {
    /// Flattens the blueprint into the array-backed production
    /// runtime: one record per node, in pre-order, each carrying its
    /// subtree's size.  The flattened instance starts in exactly the
    /// state a fresh recursive instance has.
    pub fn optimize(&self) -> (r: Result<OptimizedTree, String>)
        requires
            !has_subtree(self@.root),
        ensures
            r is Ok <==> flat_count(self@.root) <= usize::MAX,
            r matches Ok(t) ==> t.wf() && t@ == instantiate_spec(self@.root),
            r matches Err(m) ==> m@ == "The tree is too large to flatten"@,
    {
        let mut nodes: Vec<FlatNode> = Vec::new();
        match flatten_into(self.root_factory(), &mut nodes) {
            Ok(_) => {
                let fits = nodes.len();
                proof {
                    assert(fits as int == flat_count(self@.root));
                }
                Ok(OptimizedTree { nodes })
            }
            Err(m) => Err(m),
        }
    }
}

/// The results of `k` successive ticks, each tick starting from the
/// node state and the context the previous one left behind.
pub open spec fn tick_results(
    n: NodeS,
    c: crate::standard::CtxV,
    k: nat,
) -> Seq<Result<VisitResult, crate::expressions::EvalErrV>>
    decreases k,
{
    if k == 0 {
        Seq::empty()
    } else {
        let t = tick_node(n, c);
        seq![t.r] + tick_results(t.n, t.c, (k - 1) as nat)
    }
}

/// Optimize preserves semantics: a flattened instance and a recursive
/// instance minted from one factory start in the same runtime state —
/// `optimize` ensures its array decodes to `instantiate_spec` of the
/// blueprint, exactly what `instanciate` builds — and both `visit`s
/// conform to the one tick model, so for any number of ticks against
/// any context the two instances return the same result sequence.
pub proof fn lemma_optimize_preserves_semantics(
    f: FacS,
    flat_state: NodeS,
    rec_state: NodeS,
    c: crate::standard::CtxV,
    k: nat,
)
    requires
        flat_state == instantiate_spec(f),
        rec_state == instantiate_spec(f),
    ensures
        tick_results(flat_state, c, k) == tick_results(rec_state, c, k),
{
}

} // verus!
