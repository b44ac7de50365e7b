//! The front door: source text to tree factories.
//!
//! `parse` tokenizes the text, parses the token stream into abstract
//! trees, and resolves every leaf name against the given registry,
//! producing one reusable tree factory per `tree` definition.

use vstd::prelude::*;
use vstd::string::*;
use crate::value::{Value, ValueV};
use crate::ast::{Node, NodeV, TreeV, node_views, lemma_node_views};
use crate::lexer::{tokenize, spec_tokenize, lex_err_msg};
use crate::grammar::{spec_parse_collection, parse_collection, PRes, parse_err_msg};
use crate::tree::{LeafFactory, LeafS};
use crate::factory::{
    NodeFactory, TreeFactory, TreeFacV, FacS, fac_views, lemma_fac_views, has_subtree,
    has_subtree_list,
};
use crate::conditions::opt_view;

verus! {

/// A source of leaf factories: resolution consults it for every leaf
/// name in the parsed text.  What `generate_leaf` returns is fixed by
/// the implementation's own `leaf_spec`.
pub trait FactoryProducer {
    /// What the producer makes of a leaf name and its options: a leaf
    /// blueprint, or an error message.
    spec fn leaf_spec(&self, name: Seq<char>, opt: Option<ValueV>) -> Result<LeafS, Seq<char>>;

    /// Builds the leaf factory registered under `name` from the given
    /// options.
    fn generate_leaf(&self, name: &str, option: &Option<Value>) -> (r: Result<
        LeafFactory,
        String,
    >)
        ensures
            ({
                match self.leaf_spec(name@, opt_view(*option)) {
                    Ok(ls) => r matches Ok(f) && f@ == ls,
                    Err(m) => r matches Err(s) && s@ == m,
                }
            }),
    ;
}

impl FactoryProducer for crate::standard::LeavesCollection {
    open spec fn leaf_spec(&self, name: Seq<char>, opt: Option<ValueV>) -> Result<
        LeafS,
        Seq<char>,
    > {
        crate::standard::spec_generate_leaf(self@, name, opt)
    }

    fn generate_leaf(&self, name: &str, option: &Option<Value>) -> (r: Result<
        LeafFactory,
        String,
    >) {
        crate::standard::LeavesCollection::generate_leaf(self, name, option)
    }
}

/// What resolution makes of an abstract node: the factory tree of the
/// same shape, or the first error, with an unknown leaf reported as
/// `Could not find leaf node ...`.
pub open spec fn spec_resolve<T: FactoryProducer + ?Sized>(n: NodeV, leaves: &T) -> Result<
    FacS,
    Seq<char>,
>
    decreases n, 0int,
{
    match n {
        NodeV::Sequence(cs) => match spec_resolve_list(cs, leaves) {
            Ok(fs) => Ok(FacS::Sequence(fs)),
            Err(e) => Err(e),
        },
        NodeV::Selector(cs) => match spec_resolve_list(cs, leaves) {
            Ok(fs) => Ok(FacS::Selector(fs)),
            Err(e) => Err(e),
        },
        NodeV::Priority(cs) => match spec_resolve_list(cs, leaves) {
            Ok(fs) => Ok(FacS::Priority(fs)),
            Err(e) => Err(e),
        },
        NodeV::Inverter(c) => match spec_resolve(*c, leaves) {
            Ok(f) => Ok(FacS::Inverter(Box::new(f))),
            Err(e) => Err(e),
        },
        NodeV::Leaf(name, opt) => match leaves.leaf_spec(name, opt) {
            Ok(ls) => Ok(FacS::Leaf(ls)),
            Err(e) => Err("Could not find leaf node "@ + name + ": "@ + e),
        },
    }
}

/// Resolves a list of abstract nodes, stopping at the first error.
pub open spec fn spec_resolve_list<T: FactoryProducer + ?Sized>(
    cs: Seq<NodeV>,
    leaves: &T,
) -> Result<Seq<FacS>, Seq<char>>
    decreases cs, 1int,
{
    if cs.len() == 0 {
        Ok(Seq::empty())
    } else {
        match spec_resolve(cs[0], leaves) {
            Ok(f) => match spec_resolve_list(cs.drop_first(), leaves) {
                Ok(rest) => Ok(seq![f] + rest),
                Err(e) => Err(e),
            },
            Err(e) => Err(e),
        }
    }
}

/// Resolution never leaves a `subtree` reference in the blueprint.
pub proof fn lemma_resolve_no_subtree<T: FactoryProducer + ?Sized>(n: NodeV, leaves: &T)
    ensures
        spec_resolve(n, leaves) matches Ok(f) ==> !has_subtree(f),
    decreases n, 0int,
{
    match n {
        NodeV::Sequence(cs) => lemma_resolve_list_no_subtree(cs, leaves),
        NodeV::Selector(cs) => lemma_resolve_list_no_subtree(cs, leaves),
        NodeV::Priority(cs) => lemma_resolve_list_no_subtree(cs, leaves),
        NodeV::Inverter(c) => lemma_resolve_no_subtree(*c, leaves),
        NodeV::Leaf(_, _) => {},
    }
}

proof fn lemma_resolve_list_no_subtree<T: FactoryProducer + ?Sized>(cs: Seq<NodeV>, leaves: &T)
    ensures
        spec_resolve_list(cs, leaves) matches Ok(fs) ==> !has_subtree_list(fs),
    decreases cs, 1int,
{
    if cs.len() > 0 {
        lemma_resolve_no_subtree(cs[0], leaves);
        lemma_resolve_list_no_subtree(cs.drop_first(), leaves);
        match spec_resolve(cs[0], leaves) {
            Ok(f) => match spec_resolve_list(cs.drop_first(), leaves) {
                Ok(rest) => {
                    assert((seq![f] + rest)[0] == f);
                    assert((seq![f] + rest).drop_first() =~= rest);
                }
                Err(_) => {}
            },
            Err(_) => {}
        }
    }
}

/// Resolves one abstract node against the registry.
pub fn resolve_dependencies<T: FactoryProducer + ?Sized>(node: &Node, leaves: &T) -> (r: Result<
    NodeFactory,
    String,
>)
    ensures
        ({
            match spec_resolve(node@, leaves) {
                Ok(f) => r matches Ok(nf) && nf@ == f,
                Err(m) => r matches Err(s) && s@ == m,
            }
        }),
    decreases *node, 0int,
{
    match node {
        Node::Sequence(children) => match resolve_dependencies_vec(children, leaves) {
            Ok(fs) => Ok(NodeFactory::new_sequence(fs)),
            Err(m) => Err(m),
        },
        Node::Selector(children) => match resolve_dependencies_vec(children, leaves) {
            Ok(fs) => Ok(NodeFactory::new_selector(fs)),
            Err(m) => Err(m),
        },
        Node::Priority(children) => match resolve_dependencies_vec(children, leaves) {
            Ok(fs) => Ok(NodeFactory::new_priority(fs)),
            Err(m) => Err(m),
        },
        Node::Inverter(child) => match resolve_dependencies(&*child, leaves) {
            Ok(f) => Ok(NodeFactory::new_inverter(Box::new(f))),
            Err(m) => Err(m),
        },
        Node::Leaf(name, options) => match leaves.generate_leaf(name.as_str(), options) {
            Ok(f) => Ok(NodeFactory::new_leaf(f)),
            Err(e) => {
                let mut m = String::from_str("Could not find leaf node ");
                m.append(name.as_str());
                m.append(": ");
                m.append(e.as_str());
                Err(m)
            }
        },
    }
}

/// Resolves a list of abstract nodes, in order.
fn resolve_dependencies_vec<T: FactoryProducer + ?Sized>(nodes: &Vec<Node>, leaves: &T) -> (r:
    Result<Vec<NodeFactory>, String>)
    ensures
        ({
            match spec_resolve_list(node_views(nodes@), leaves) {
                Ok(fs) => r matches Ok(v) && fac_views(v@) == fs,
                Err(m) => r matches Err(s) && s@ == m,
            }
        }),
    decreases nodes@, 1int,
{
    let ghost nvs = node_views(nodes@);
    proof {
        lemma_node_views(nodes@);
    }
    let mut out: Vec<NodeFactory> = Vec::new();
    let mut i: usize = 0;
    proof {
        assert(nvs.skip(0) =~= nvs);
        assert(fac_views(out@) =~= Seq::<FacS>::empty());
    }
    while i < nodes.len()
        invariant
            0 <= i <= nodes@.len(),
            nvs == node_views(nodes@),
            nvs.len() == nodes@.len(),
            forall|j: int| 0 <= j < nodes@.len() ==> nvs[j] == crate::ast::node_view(nodes@[j]),
            out@.len() == i,
            ({
                match spec_resolve_list(nvs.skip(i as int), leaves) {
                    Ok(rest) => spec_resolve_list(nvs, leaves) == Ok::<Seq<FacS>, Seq<char>>(
                        fac_views(out@) + rest,
                    ),
                    Err(e) => spec_resolve_list(nvs, leaves) == Err::<Seq<FacS>, Seq<char>>(e),
                }
            }),
        decreases nodes@.len() - i,
    {
        let ghost rem = nvs.skip(i as int);
        let ghost prev = fac_views(out@);
        proof {
            lemma_fac_views(out@);
            assert(rem.len() > 0);
            assert(rem[0] == nvs[i as int]);
            assert(rem.drop_first() =~= nvs.skip(i as int + 1));
        }
        match resolve_dependencies(&nodes[i], leaves) {
            Err(m) => {
                return Err(m);
            }
            Ok(f) => {
                let ghost fv = f@;
                out.push(f);
                proof {
                    lemma_fac_views(out@);
                    assert(fac_views(out@) =~= prev.push(fv)) by {
                        lemma_fac_views(out@);
                    }
                    match spec_resolve_list(nvs.skip(i as int + 1), leaves) {
                        Ok(rest) => {
                            assert(spec_resolve_list(rem, leaves)
                                == Ok::<Seq<FacS>, Seq<char>>(seq![fv] + rest));
                            assert(prev + (seq![fv] + rest) =~= fac_views(out@) + rest);
                        }
                        Err(_) => {
                            assert(spec_resolve_list(rem, leaves)
                                == spec_resolve_list(nvs.skip(i as int + 1), leaves));
                        }
                    }
                }
            }
        }
        i += 1;
    }
    proof {
        assert(nvs.skip(i as int).len() == 0);
        assert(spec_resolve_list(nvs.skip(i as int), leaves)
            == Ok::<Seq<FacS>, Seq<char>>(Seq::empty()));
        assert(fac_views(out@) + Seq::<FacS>::empty() =~= fac_views(out@));
    }
    Ok(out)
}

/// The mathematical values of a list of tree factories, in order.
pub open spec fn tf_views(ts: Seq<TreeFactory>) -> Seq<TreeFacV> {
    Seq::new(ts.len(), |i: int| ts[i]@)
}

/// Resolves a list of parsed trees into tree factories, stopping at
/// the first error.
pub open spec fn spec_resolve_trees<T: FactoryProducer + ?Sized>(
    trees: Seq<TreeV>,
    leaves: &T,
) -> Result<Seq<TreeFacV>, Seq<char>>
    decreases trees.len(),
{
    if trees.len() == 0 {
        Ok(Seq::empty())
    } else {
        match spec_resolve(trees[0].root, leaves) {
            Ok(f) => match spec_resolve_trees(trees.drop_first(), leaves) {
                Ok(rest) => Ok(seq![TreeFacV { name: trees[0].name, root: f }] + rest),
                Err(e) => Err(e),
            },
            Err(e) => Err(e),
        }
    }
}

/// What `parse` makes of the source text: tokenizing, parsing and
/// resolution in turn, each stopping at its first error.
pub open spec fn spec_parse<T: FactoryProducer + ?Sized>(input: Seq<char>, leaves: &T) -> Result<
    Seq<TreeFacV>,
    Seq<char>,
> {
    match spec_tokenize(input, 0) {
        Err(e) => Err(lex_err_msg(e)),
        Ok(ts) => match spec_parse_collection(ts, 0) {
            PRes::Bad(e) => Err(parse_err_msg(e)),
            PRes::Good(trees, _) => spec_resolve_trees(trees, leaves),
        },
    }
}

/// Every blueprint `parse` hands back is free of `subtree` references.
pub proof fn lemma_parse_no_subtree<T: FactoryProducer + ?Sized>(trees: Seq<TreeV>, leaves: &T)
    ensures
        spec_resolve_trees(trees, leaves) matches Ok(tfs) ==> forall|i: int|
            0 <= i < tfs.len() ==> !has_subtree(#[trigger] tfs[i].root),
    decreases trees.len(),
{
    if trees.len() > 0 {
        lemma_resolve_no_subtree(trees[0].root, leaves);
        lemma_parse_no_subtree(trees.drop_first(), leaves);
        match spec_resolve(trees[0].root, leaves) {
            Ok(f) => match spec_resolve_trees(trees.drop_first(), leaves) {
                Ok(rest) => {
                    let all = seq![TreeFacV { name: trees[0].name, root: f }] + rest;
                    assert forall|i: int| 0 <= i < all.len() implies !has_subtree(
                        #[trigger] all[i].root,
                    ) by {
                        if i > 0 {
                            assert(all[i] == rest[i - 1]);
                        }
                    }
                }
                Err(_) => {}
            },
            Err(_) => {}
        }
    }
}

/// Parses the source text and resolves its leaves: one tree factory
/// per `tree` definition, or the message of the first lexical,
/// syntactic or resolution error.
pub fn parse<T: FactoryProducer + ?Sized>(input: &str, leaves: &T) -> (r: Result<
    Vec<TreeFactory>,
    String,
>)
    ensures
        ({
            match spec_parse(input@, leaves) {
                Ok(tfs) => r matches Ok(v) && tf_views(v@) == tfs && (forall|i: int|
                    0 <= i < v@.len() ==> !has_subtree(#[trigger] v@[i]@.root)),
                Err(m) => r matches Err(s) && s@ == m,
            }
        }),
{
    let tokens = match tokenize(input) {
        Ok(ts) => ts,
        Err(m) => {
            return Err(m);
        }
    };
    let trees = match parse_collection(&tokens) {
        Ok(ts) => ts,
        Err(m) => {
            return Err(m);
        }
    };
    let ghost tvs = trees.deep_view();
    proof {
        lemma_parse_no_subtree(tvs, leaves);
    }
    let mut out: Vec<TreeFactory> = Vec::new();
    let mut i: usize = 0;
    proof {
        assert(tvs.skip(0) =~= tvs);
        assert(tf_views(out@) =~= Seq::<TreeFacV>::empty());
    }
    while i < trees.len()
        invariant
            0 <= i <= trees@.len(),
            tvs == trees.deep_view(),
            spec_parse(input@, leaves) == spec_resolve_trees(tvs, leaves),
            tvs.len() == trees@.len(),
            forall|j: int| 0 <= j < trees@.len() ==> tvs[j] == trees@[j]@,
            out@.len() == i,
            forall|j: int| 0 <= j < i ==> !has_subtree(#[trigger] out@[j]@.root),
            ({
                match spec_resolve_trees(tvs.skip(i as int), leaves) {
                    Ok(rest) => spec_resolve_trees(tvs, leaves) == Ok::<Seq<TreeFacV>, Seq<char>>(
                        tf_views(out@) + rest,
                    ),
                    Err(e) => spec_resolve_trees(tvs, leaves) == Err::<Seq<TreeFacV>, Seq<char>>(
                        e,
                    ),
                }
            }),
        decreases trees@.len() - i,
    {
        let ghost rem = tvs.skip(i as int);
        let ghost prev = tf_views(out@);
        proof {
            assert(rem.len() > 0);
            assert(rem[0] == tvs[i as int]);
            assert(rem.drop_first() =~= tvs.skip(i as int + 1));
            lemma_resolve_no_subtree(rem[0].root, leaves);
        }
        match resolve_dependencies(&trees[i].root, leaves) {
            Err(m) => {
                return Err(m);
            }
            Ok(root) => {
                let name = trees[i].name.clone();
                let tf = TreeFactory::new(root, name);
                let ghost tfv = tf@;
                out.push(tf);
                proof {
                    assert(tf_views(out@) =~= prev.push(tfv));
                    match spec_resolve_trees(tvs.skip(i as int + 1), leaves) {
                        Ok(rest) => {
                            assert(spec_resolve_trees(rem, leaves)
                                == Ok::<Seq<TreeFacV>, Seq<char>>(seq![tfv] + rest));
                            assert(prev + (seq![tfv] + rest) =~= tf_views(out@) + rest);
                        }
                        Err(_) => {
                            assert(spec_resolve_trees(rem, leaves)
                                == spec_resolve_trees(tvs.skip(i as int + 1), leaves));
                        }
                    }
                }
            }
        }
        i += 1;
    }
    proof {
        assert(tvs.skip(i as int).len() == 0);
        assert(spec_resolve_trees(tvs.skip(i as int), leaves)
            == Ok::<Seq<TreeFacV>, Seq<char>>(Seq::empty()));
        assert(tf_views(out@) + Seq::<TreeFacV>::empty() =~= tf_views(out@));
    }
    Ok(out)
}

} // verus!
