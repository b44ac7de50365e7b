//! The printer: an abstract tree back to tokens and text.
//!
//! Printing an abstract tree and parsing the result gives the tree
//! back — the round trip is proved below over the token stream, for
//! every tree the grammar can produce.

use vstd::prelude::*;
use vstd::string::*;
use crate::lexer::{Token, TokenV};
use crate::value::{Value, ValueV, Operator};
use crate::ast::{Node, NodeV, Tree, TreeV};
use crate::grammar::{
    PRes, spec_parse_node, spec_parse_composite_body, spec_parse_children, spec_parse_value,
    spec_parse_dict_entries, spec_parse_array_elem, spec_parse_array_elems, spec_parse_tree,
    spec_parse_collection,
};

verus! {

/// A word the tokenizer reads back as an identifier: it starts with a
/// letter, continues with identifier characters, and is no reserved
/// word.
pub open spec fn wf_ident(s: Seq<char>) -> bool {
    &&& s.len() >= 1
    &&& crate::chars::is_alpha_char(s[0])
    &&& (forall|k: int| 0 <= k < s.len() ==> crate::chars::is_id_char(#[trigger] s[k]))
    &&& crate::lexer::keyword_of(s) is None
}

/// A value as the grammar can produce it at a `leaf(value)` position:
/// maps and arrays are nonempty, keys are identifiers, integers are
/// the ones the tokenizer can read, and `Unknown` values stand only
/// for the three leftover one-character tokens, and only inside
/// arrays.
pub open spec fn wf_value(v: ValueV) -> bool
    decreases v, 0int,
{
    match v {
        ValueV::Str(_) => true,
        ValueV::Int(n) => i64::MIN < n <= i64::MAX,
        ValueV::Op(_) => true,
        ValueV::Unk(_) => false,
        ValueV::Dict(entries) => entries.len() >= 1 && wf_entries(entries),
        ValueV::List(items) => items.len() >= 1 && wf_elems(items),
    }
}

pub open spec fn wf_entries(entries: Seq<(Seq<char>, ValueV)>) -> bool
    decreases entries, 1int,
{
    if entries.len() == 0 {
        true
    } else {
        wf_ident(entries[0].0) && wf_value(entries[0].1) && wf_entries(entries.drop_first())
    }
}

/// An array element: a value, or one of the three leftover characters.
pub open spec fn wf_elem(v: ValueV) -> bool
    decreases v, 1int,
{
    match v {
        ValueV::Unk(c) => c == ':' || c == '(' || c == ')',
        other => wf_value(other),
    }
}

pub open spec fn wf_elems(items: Seq<ValueV>) -> bool
    decreases items, 2int,
{
    if items.len() == 0 {
        true
    } else {
        wf_elem(items[0]) && wf_elems(items.drop_first())
    }
}

/// A node as the grammar can produce it: composites have at least one
/// child and every leaf argument is a producible value.
pub open spec fn wf_node(n: NodeV) -> bool
    decreases n, 0int,
{
    match n {
        NodeV::Leaf(name, opt) => wf_ident(name) && match opt {
            Some(v) => wf_value(v),
            None => true,
        },
        NodeV::Sequence(cs) => cs.len() >= 1 && wf_children(cs),
        NodeV::Selector(cs) => cs.len() >= 1 && wf_children(cs),
        NodeV::Priority(cs) => cs.len() >= 1 && wf_children(cs),
        NodeV::Inverter(c) => wf_node(*c),
    }
}

pub open spec fn wf_children(cs: Seq<NodeV>) -> bool
    decreases cs, 1int,
{
    if cs.len() == 0 {
        true
    } else {
        wf_node(cs[0]) && wf_children(cs.drop_first())
    }
}

pub open spec fn wf_tree(t: TreeV) -> bool {
    wf_ident(t.name) && wf_node(t.root)
}

pub open spec fn wf_trees(ts: Seq<TreeV>) -> bool
    decreases ts.len(),
{
    if ts.len() == 0 {
        true
    } else {
        wf_tree(ts[0]) && wf_trees(ts.drop_first())
    }
}

/// The token an operator prints as.
pub open spec fn op_token(op: Operator) -> TokenV {
    match op {
        Operator::Plus => TokenV::Plus,
        Operator::Minus => TokenV::Minus,
        Operator::Multiply => TokenV::Multiply,
        Operator::Divide => TokenV::Divide,
    }
}

/// The tokens a value prints as.
pub open spec fn print_value(v: ValueV) -> Seq<TokenV>
    decreases v, 0int,
{
    match v {
        ValueV::Str(s) => seq![TokenV::QuotedString(s)],
        ValueV::Int(n) => seq![TokenV::Integer(n)],
        ValueV::Op(op) => seq![op_token(op)],
        ValueV::Unk(c) => if c == ':' {
            seq![TokenV::Colon]
        } else if c == '(' {
            seq![TokenV::LeftParenthesis]
        } else {
            seq![TokenV::RightParenthesis]
        },
        ValueV::Dict(entries) => seq![TokenV::LeftBracket] + print_entries(entries) + seq![
            TokenV::RightBracket,
        ],
        ValueV::List(items) => seq![TokenV::LeftArray] + print_elems(items) + seq![
            TokenV::RightArray,
        ],
    }
}

/// The tokens a map's entries print as, comma-separated.
pub open spec fn print_entries(entries: Seq<(Seq<char>, ValueV)>) -> Seq<TokenV>
    decreases entries, 1int,
{
    if entries.len() == 0 {
        Seq::empty()
    } else if entries.len() == 1 {
        seq![TokenV::Ident(entries[0].0), TokenV::Colon] + print_value(entries[0].1)
    } else {
        seq![TokenV::Ident(entries[0].0), TokenV::Colon] + print_value(entries[0].1) + seq![
            TokenV::Comma,
        ] + print_entries(entries.drop_first())
    }
}

/// The tokens an array's elements print as, comma-separated.
pub open spec fn print_elems(items: Seq<ValueV>) -> Seq<TokenV>
    decreases items, 2int,
{
    if items.len() == 0 {
        Seq::empty()
    } else if items.len() == 1 {
        print_value(items[0])
    } else {
        print_value(items[0]) + seq![TokenV::Comma] + print_elems(items.drop_first())
    }
}

/// The tokens a node prints as.
pub open spec fn print_node(n: NodeV) -> Seq<TokenV>
    decreases n, 0int,
{
    match n {
        NodeV::Leaf(name, opt) => match opt {
            None => seq![TokenV::Ident(name)],
            Some(v) => seq![TokenV::Ident(name), TokenV::LeftParenthesis] + print_value(v) + seq![
                TokenV::RightParenthesis,
            ],
        },
        NodeV::Sequence(cs) => seq![TokenV::Sequence, TokenV::LeftBracket] + print_children(cs)
            + seq![TokenV::RightBracket],
        NodeV::Selector(cs) => seq![TokenV::Selector, TokenV::LeftBracket] + print_children(cs)
            + seq![TokenV::RightBracket],
        NodeV::Priority(cs) => seq![TokenV::Priority, TokenV::LeftBracket] + print_children(cs)
            + seq![TokenV::RightBracket],
        NodeV::Inverter(c) => seq![TokenV::Inverter, TokenV::LeftBracket] + print_node(*c) + seq![
            TokenV::RightBracket,
        ],
    }
}

/// The tokens a composite's children print as, comma-separated.
pub open spec fn print_children(cs: Seq<NodeV>) -> Seq<TokenV>
    decreases cs, 1int,
{
    if cs.len() == 0 {
        Seq::empty()
    } else if cs.len() == 1 {
        print_node(cs[0])
    } else {
        print_node(cs[0]) + seq![TokenV::Comma] + print_children(cs.drop_first())
    }
}

/// The tokens a tree definition prints as.
pub open spec fn print_tree(t: TreeV) -> Seq<TokenV> {
    seq![TokenV::Root, TokenV::Ident(t.name), TokenV::LeftBracket] + print_node(t.root) + seq![
        TokenV::RightBracket,
    ]
}

/// The tokens a collection prints as.
pub open spec fn print_trees(ts: Seq<TreeV>) -> Seq<TokenV>
    decreases ts.len(),
{
    if ts.len() == 0 {
        Seq::empty()
    } else {
        print_tree(ts[0]) + print_trees(ts.drop_first())
    }
}

/// Printing a value always yields at least one token, and its first
/// token opens no leaf argument and closes nothing.
pub proof fn lemma_print_value_first(v: ValueV)
    ensures
        print_value(v).len() >= 1,
    decreases v,
{
}

/// Printing a node always yields at least one token, and that token is
/// a composite keyword or an identifier.
pub proof fn lemma_print_node_first(n: NodeV)
    ensures
        print_node(n).len() >= 1,
        (print_node(n)[0] matches TokenV::Ident(_)) || print_node(n)[0] == TokenV::Sequence
            || print_node(n)[0] == TokenV::Selector || print_node(n)[0] == TokenV::Priority
            || print_node(n)[0] == TokenV::Inverter,
{
    match n {
        NodeV::Leaf(name, opt) => {
            match opt {
                None => {}
                Some(_) => {}
            }
        }
        _ => {}
    }
}

/// One token of a window, read in place.
proof fn window_index(ts: Seq<TokenV>, i: int, p: Seq<TokenV>, k: int)
    requires
        0 <= i,
        i + p.len() <= ts.len(),
        ts.subrange(i, i + p.len()) == p,
        0 <= k < p.len(),
    ensures
        ts[i + k] == p[k],
{
    assert(p[k] == ts.subrange(i, i + p.len())[k]);
}

/// A window over a part of a window.
proof fn window_sub(ts: Seq<TokenV>, i: int, p: Seq<TokenV>, d: int, q: Seq<TokenV>)
    requires
        0 <= i,
        i + p.len() <= ts.len(),
        ts.subrange(i, i + p.len()) == p,
        0 <= d,
        d + q.len() <= p.len(),
        forall|k: int| 0 <= k < q.len() ==> #[trigger] q[k] == p[d + k],
    ensures
        ts.subrange(i + d, i + d + q.len()) == q,
{
    assert forall|k: int| 0 <= k < q.len() implies ts.subrange(i + d, i + d + q.len())[k]
        == q[k] by {
        assert(ts.subrange(i + d, i + d + q.len())[k] == ts[i + d + k]);
        assert(ts.subrange(i, i + p.len())[d + k] == ts[i + d + k]);
        assert(q[k] == p[d + k]);
    }
    assert(ts.subrange(i + d, i + d + q.len()) =~= q);
}

/// The element of a three-way concatenation at an offset inside its
/// middle part.
proof fn concat3_mid(a: Seq<TokenV>, q: Seq<TokenV>, b: Seq<TokenV>, p: Seq<TokenV>)
    requires
        p == a + q + b,
    ensures
        forall|k: int| 0 <= k < q.len() ==> #[trigger] q[k] == p[a.len() + k],
        forall|k: int| 0 <= k < a.len() ==> #[trigger] a[k] == p[k],
        forall|k: int| 0 <= k < b.len() ==> #[trigger] b[k] == p[a.len() + q.len() + k],
{
    assert forall|k: int| 0 <= k < q.len() implies #[trigger] q[k] == p[a.len() + k] by {
        assert(p[a.len() + k] == (a + q + b)[a.len() + k]);
    }
    assert forall|k: int| 0 <= k < a.len() implies #[trigger] a[k] == p[k] by {
        assert(p[k] == (a + q + b)[k]);
    }
    assert forall|k: int| 0 <= k < b.len() implies #[trigger] b[k]
        == p[a.len() + q.len() + k] by {
        assert(p[a.len() + q.len() + k] == (a + q + b)[a.len() + q.len() + k]);
    }
}

/// The parts of a four-way concatenation, read at their offsets.
proof fn concat4_parts(a: Seq<TokenV>, q: Seq<TokenV>, c: Seq<TokenV>, r: Seq<TokenV>, p: Seq<TokenV>)
    requires
        p == a + q + c + r,
    ensures
        forall|k: int| 0 <= k < a.len() ==> #[trigger] a[k] == p[k],
        forall|k: int| 0 <= k < q.len() ==> #[trigger] q[k] == p[a.len() + k],
        forall|k: int| 0 <= k < c.len() ==> #[trigger] c[k] == p[a.len() + q.len() + k],
        forall|k: int| 0 <= k < r.len() ==> #[trigger] r[k] == p[a.len() + q.len() + c.len() + k],
{
    assert forall|k: int| 0 <= k < a.len() implies #[trigger] a[k] == p[k] by {
        assert(p[k] == (a + q + c + r)[k]);
    }
    assert forall|k: int| 0 <= k < q.len() implies #[trigger] q[k] == p[a.len() + k] by {
        assert(p[a.len() + k] == (a + q + c + r)[a.len() + k]);
    }
    assert forall|k: int| 0 <= k < c.len() implies #[trigger] c[k]
        == p[a.len() + q.len() + k] by {
        assert(p[a.len() + q.len() + k] == (a + q + c + r)[a.len() + q.len() + k]);
    }
    assert forall|k: int| 0 <= k < r.len() implies #[trigger] r[k]
        == p[a.len() + q.len() + c.len() + k] by {
        assert(p[a.len() + q.len() + c.len() + k]
            == (a + q + c + r)[a.len() + q.len() + c.len() + k]);
    }
}

/// The first printed token of a nonempty entry list is its first key.
proof fn lemma_print_entries_first(entries: Seq<(Seq<char>, ValueV)>)
    requires
        entries.len() >= 1,
    ensures
        print_entries(entries).len() >= 3,
        print_entries(entries)[0] == TokenV::Ident(entries[0].0),
{
    lemma_print_value_first(entries[0].1);
}

/// The first printed token of a nonempty child list is its first
/// node's first token.
proof fn lemma_print_children_first(cs: Seq<NodeV>)
    requires
        cs.len() >= 1,
    ensures
        print_children(cs).len() >= 1,
        print_children(cs)[0] == print_node(cs[0])[0],
{
    lemma_print_node_first(cs[0]);
}

/// The first printed token of a nonempty element list is its first
/// element's first token.
proof fn lemma_print_elems_first(items: Seq<ValueV>)
    requires
        items.len() >= 1,
    ensures
        print_elems(items).len() >= 1,
        print_elems(items)[0] == print_value(items[0])[0],
{
    lemma_print_value_first(items[0]);
}

/// Parsing the printed form of a producible value, embedded anywhere in
/// a token stream, gives the value back.
pub proof fn lemma_rt_value(v: ValueV, ts: Seq<TokenV>, i: int)
    requires
        wf_value(v),
        0 <= i,
        i + print_value(v).len() <= ts.len(),
        ts.subrange(i, i + print_value(v).len()) == print_value(v),
    ensures
        spec_parse_value(ts, i) == PRes::<ValueV>::Good(v, i + print_value(v).len()),
    decreases v, 0int,
{
    let p = print_value(v);
    match v {
        ValueV::Str(s) => {
            window_index(ts, i, p, 0);
        },
        ValueV::Int(_) => {
            window_index(ts, i, p, 0);
        },
        ValueV::Op(op) => {
            window_index(ts, i, p, 0);
            match op {
                Operator::Plus => {},
                Operator::Minus => {},
                Operator::Multiply => {},
                Operator::Divide => {},
            }
        },
        ValueV::Unk(_) => {},
        ValueV::Dict(entries) => {
            let pe = print_entries(entries);
            let a = seq![TokenV::LeftBracket];
            let b = seq![TokenV::RightBracket];
            assert(p =~= a + pe + b);
            concat3_mid(a, pe, b, a + pe + b);
            assert(forall|k: int| 0 <= k < pe.len() ==> #[trigger] pe[k] == p[1 + k]);
            window_index(ts, i, p, 0);
            assert(ts[i] == TokenV::LeftBracket);
            window_index(ts, i, p, 1 + pe.len() as int);
            assert(ts[i + 1 + pe.len()] == TokenV::RightBracket);
            window_sub(ts, i, p, 1, pe);
            lemma_rt_entries(entries, ts, i + 1);
        },
        ValueV::List(items) => {
            let pe = print_elems(items);
            let a = seq![TokenV::LeftArray];
            let b = seq![TokenV::RightArray];
            assert(p =~= a + pe + b);
            concat3_mid(a, pe, b, a + pe + b);
            assert(forall|k: int| 0 <= k < pe.len() ==> #[trigger] pe[k] == p[1 + k]);
            window_index(ts, i, p, 0);
            assert(ts[i] == TokenV::LeftArray);
            window_index(ts, i, p, 1 + pe.len() as int);
            assert(ts[i + 1 + pe.len()] == TokenV::RightArray);
            window_sub(ts, i, p, 1, pe);
            lemma_rt_elems(items, ts, i + 1);
        },
    }
}

/// Parsing the printed entries of a nonempty producible map, with the
/// closing brace standing just after them, gives the entries back.
proof fn lemma_rt_entries(entries: Seq<(Seq<char>, ValueV)>, ts: Seq<TokenV>, i: int)
    requires
        entries.len() >= 1,
        wf_entries(entries),
        0 <= i,
        i + print_entries(entries).len() < ts.len(),
        ts.subrange(i, i + print_entries(entries).len()) == print_entries(entries),
        ts[i + print_entries(entries).len()] == TokenV::RightBracket,
    ensures
        spec_parse_dict_entries(ts, i) == PRes::<Seq<(Seq<char>, ValueV)>>::Good(
            entries,
            i + print_entries(entries).len(),
        ),
    decreases entries, 1int,
{
    let p = print_entries(entries);
    let pv = print_value(entries[0].1);
    let a = seq![TokenV::Ident(entries[0].0), TokenV::Colon];
    if entries.len() == 1 {
        assert(p =~= a + pv + Seq::<TokenV>::empty());
        concat3_mid(a, pv, Seq::empty(), a + pv + Seq::<TokenV>::empty());
        assert(forall|k: int| 0 <= k < pv.len() ==> #[trigger] pv[k] == p[2 + k]);
        window_index(ts, i, p, 0);
        window_index(ts, i, p, 1);
        assert(ts[i] == TokenV::Ident(entries[0].0));
        assert(ts[i + 1] == TokenV::Colon);
        window_sub(ts, i, p, 2, pv);
        lemma_rt_value(entries[0].1, ts, i + 2);
        let j = i + 2 + pv.len();
        assert(ts[j] == TokenV::RightBracket);
        assert(seq![(entries[0].0, entries[0].1)] =~= entries);
    } else {
        let rest = entries.drop_first();
        let pr = print_entries(rest);
        let c = seq![TokenV::Comma];
        assert(p =~= a + pv + c + pr);
        concat4_parts(a, pv, c, pr, a + pv + c + pr);
        assert(forall|k: int| 0 <= k < pv.len() ==> #[trigger] pv[k] == p[2 + k]);
        assert(forall|k: int| 0 <= k < pr.len() ==> #[trigger] pr[k] == p[3 + pv.len() + k]);
        window_index(ts, i, p, 0);
        window_index(ts, i, p, 1);
        assert(ts[i] == TokenV::Ident(entries[0].0));
        assert(ts[i + 1] == TokenV::Colon);
        window_sub(ts, i, p, 2, pv);
        lemma_rt_value(entries[0].1, ts, i + 2);
        let j = i + 2 + pv.len();
        window_index(ts, i, p, 2 + pv.len() as int);
        assert(ts[j] == TokenV::Comma);
        window_sub(ts, i, p, 3 + pv.len() as int, pr);
        assert(i + p.len() == j + 1 + pr.len());
        lemma_rt_entries(rest, ts, j + 1);
        window_index(ts, i, p, 3 + pv.len() as int);
        lemma_print_entries_first(rest);
        assert(ts[j + 1] == pr[0]);
        assert(ts[j + 1] == TokenV::Ident(rest[0].0));
        assert(seq![(entries[0].0, entries[0].1)] + rest =~= entries);
    }
}

/// A producible array element parses back to itself.
proof fn lemma_rt_elem(v: ValueV, ts: Seq<TokenV>, i: int)
    requires
        wf_elem(v),
        0 <= i,
        i + print_value(v).len() <= ts.len(),
        ts.subrange(i, i + print_value(v).len()) == print_value(v),
    ensures
        spec_parse_array_elem(ts, i) == PRes::<ValueV>::Good(v, i + print_value(v).len()),
    decreases v, 1int,
{
    let p = print_value(v);
    window_index(ts, i, p, 0);
    match v {
        ValueV::Unk(_) => {},
        other => {
            lemma_rt_value(other, ts, i);
            match other {
                ValueV::Op(op) => {
                    match op {
                        Operator::Plus => {},
                        Operator::Minus => {},
                        Operator::Multiply => {},
                        Operator::Divide => {},
                    }
                },
                _ => {},
            }
        },
    }
}

/// Parsing the printed elements of a nonempty producible array, with
/// the closing bracket standing just after them, gives them back.
proof fn lemma_rt_elems(items: Seq<ValueV>, ts: Seq<TokenV>, i: int)
    requires
        items.len() >= 1,
        wf_elems(items),
        0 <= i,
        i + print_elems(items).len() < ts.len(),
        ts.subrange(i, i + print_elems(items).len()) == print_elems(items),
        ts[i + print_elems(items).len()] == TokenV::RightArray,
    ensures
        spec_parse_array_elems(ts, i) == PRes::<Seq<ValueV>>::Good(
            items,
            i + print_elems(items).len(),
        ),
    decreases items, 2int,
{
    let p = print_elems(items);
    let pv = print_value(items[0]);
    if items.len() == 1 {
        assert(p =~= pv);
        lemma_rt_elem(items[0], ts, i);
        let j = i + pv.len();
        assert(ts[j] == TokenV::RightArray);
        assert(seq![items[0]] =~= items);
    } else {
        let rest = items.drop_first();
        let pr = print_elems(rest);
        let c = seq![TokenV::Comma];
        assert(p =~= Seq::<TokenV>::empty() + pv + c + pr);
        concat4_parts(Seq::empty(), pv, c, pr, Seq::<TokenV>::empty() + pv + c + pr);
        assert(forall|k: int| 0 <= k < pv.len() ==> #[trigger] pv[k] == p[k]);
        assert(forall|k: int| 0 <= k < pr.len() ==> #[trigger] pr[k] == p[1 + pv.len() + k]);
        window_sub(ts, i, p, 0, pv);
        lemma_rt_elem(items[0], ts, i);
        let j = i + pv.len();
        window_index(ts, i, p, pv.len() as int);
        assert(ts[j] == TokenV::Comma);
        window_sub(ts, i, p, 1 + pv.len() as int, pr);
        assert(i + p.len() == j + 1 + pr.len());
        lemma_rt_elems(rest, ts, j + 1);
        lemma_print_elems_first(rest);
        lemma_print_elem_first_not_closing(rest[0]);
        window_index(ts, i, p, 1 + pv.len() as int);
        assert(ts[j + 1] == pr[0]);
        assert(ts[j + 1] != TokenV::RightArray);
        assert(seq![items[0]] + rest =~= items);
    }
}

/// The first printed token of an array element never closes an array
/// or a map.
proof fn lemma_print_elem_first_not_closing(v: ValueV)
    ensures
        print_value(v).len() >= 1,
        print_value(v)[0] != TokenV::RightArray,
        print_value(v)[0] != TokenV::RightBracket,
{
    match v {
        ValueV::Op(op) => {
            match op {
                Operator::Plus => {},
                Operator::Minus => {},
                Operator::Multiply => {},
                Operator::Divide => {},
            }
        },
        _ => {},
    }
}

/// Parsing the printed form of a producible node, embedded anywhere in
/// a token stream whose next token opens no leaf argument, gives the
/// node back.
pub proof fn lemma_rt_node(n: NodeV, ts: Seq<TokenV>, i: int)
    requires
        wf_node(n),
        0 <= i,
        i + print_node(n).len() <= ts.len(),
        ts.subrange(i, i + print_node(n).len()) == print_node(n),
        i + print_node(n).len() == ts.len() || ts[i + print_node(n).len()]
            != TokenV::LeftParenthesis,
    ensures
        spec_parse_node(ts, i) == PRes::<NodeV>::Good(n, i + print_node(n).len()),
    decreases n, 1int,
{
    let p = print_node(n);
    match n {
        NodeV::Leaf(name, opt) => {
            match opt {
                None => {
                    window_index(ts, i, p, 0);
                    assert(ts[i] == TokenV::Ident(name));
                }
                Some(v) => {
                    let pv = print_value(v);
                    let a = seq![TokenV::Ident(name), TokenV::LeftParenthesis];
                    let b = seq![TokenV::RightParenthesis];
                    assert(p =~= a + pv + b);
                    concat3_mid(a, pv, b, a + pv + b);
                    assert(forall|k: int| 0 <= k < pv.len() ==> #[trigger] pv[k] == p[2 + k]);
                    window_index(ts, i, p, 0);
                    window_index(ts, i, p, 1);
                    assert(ts[i] == TokenV::Ident(name));
                    assert(ts[i + 1] == TokenV::LeftParenthesis);
                    window_sub(ts, i, p, 2, pv);
                    lemma_rt_value(v, ts, i + 2);
                    window_index(ts, i, p, 2 + pv.len() as int);
                    assert(ts[i + 2 + pv.len()] == TokenV::RightParenthesis);
                }
            }
        }
        NodeV::Sequence(cs) => {
            lemma_rt_composite(cs, ts, i, p, TokenV::Sequence);
            window_index(ts, i, p, 0);
        }
        NodeV::Selector(cs) => {
            lemma_rt_composite(cs, ts, i, p, TokenV::Selector);
            window_index(ts, i, p, 0);
        }
        NodeV::Priority(cs) => {
            lemma_rt_composite(cs, ts, i, p, TokenV::Priority);
            window_index(ts, i, p, 0);
        }
        NodeV::Inverter(c) => {
            let pc = print_node(*c);
            let a = seq![TokenV::Inverter, TokenV::LeftBracket];
            let b = seq![TokenV::RightBracket];
            assert(p =~= a + pc + b);
            concat3_mid(a, pc, b, a + pc + b);
            assert(forall|k: int| 0 <= k < pc.len() ==> #[trigger] pc[k] == p[2 + k]);
            window_index(ts, i, p, 0);
            window_index(ts, i, p, 1);
            assert(ts[i] == TokenV::Inverter);
            assert(ts[i + 1] == TokenV::LeftBracket);
            window_sub(ts, i, p, 2, pc);
            window_index(ts, i, p, 2 + pc.len() as int);
            assert(ts[i + 2 + pc.len()] == TokenV::RightBracket);
            lemma_rt_node(*c, ts, i + 2);
        }
    }
}

/// The shared argument for the three composite kinds: the keyword, the
/// brace, the children and the closing brace parse back as one
/// composite body.
proof fn lemma_rt_composite(cs: Seq<NodeV>, ts: Seq<TokenV>, i: int, p: Seq<TokenV>, kw: TokenV)
    requires
        cs.len() >= 1,
        wf_children(cs),
        0 <= i,
        i + p.len() <= ts.len(),
        ts.subrange(i, i + p.len()) == p,
        p == seq![kw, TokenV::LeftBracket] + print_children(cs) + seq![TokenV::RightBracket],
    ensures
        ts[i] == kw,
        spec_parse_composite_body(ts, i + 1) == PRes::<Seq<NodeV>>::Good(cs, i + p.len()),
    decreases cs, 2int,
{
    let pc = print_children(cs);
    let a = seq![kw, TokenV::LeftBracket];
    let b = seq![TokenV::RightBracket];
    concat3_mid(a, pc, b, a + pc + b);
    assert(forall|k: int| 0 <= k < pc.len() ==> #[trigger] pc[k] == p[2 + k]);
    window_index(ts, i, p, 0);
    window_index(ts, i, p, 1);
    assert(ts[i] == kw);
    assert(ts[i + 1] == TokenV::LeftBracket);
    window_sub(ts, i, p, 2, pc);
    window_index(ts, i, p, 2 + pc.len() as int);
    assert(ts[i + 2 + pc.len()] == TokenV::RightBracket);
    lemma_rt_children(cs, ts, i + 2);
}

/// Parsing the printed children of a composite, with the closing brace
/// standing just after them, gives the children back.
proof fn lemma_rt_children(cs: Seq<NodeV>, ts: Seq<TokenV>, i: int)
    requires
        cs.len() >= 1,
        wf_children(cs),
        0 <= i,
        i + print_children(cs).len() < ts.len(),
        ts.subrange(i, i + print_children(cs).len()) == print_children(cs),
        ts[i + print_children(cs).len()] == TokenV::RightBracket,
    ensures
        spec_parse_children(ts, i) == PRes::<Seq<NodeV>>::Good(
            cs,
            i + print_children(cs).len(),
        ),
    decreases cs, 0int,
{
    let p = print_children(cs);
    let pn = print_node(cs[0]);
    if cs.len() == 1 {
        assert(p =~= pn);
        let j = i + pn.len();
        assert(ts[j] == TokenV::RightBracket);
        lemma_rt_node(cs[0], ts, i);
        assert(seq![cs[0]] =~= cs);
    } else {
        let rest = cs.drop_first();
        let pr = print_children(rest);
        let c = seq![TokenV::Comma];
        assert(p =~= Seq::<TokenV>::empty() + pn + c + pr);
        concat4_parts(Seq::empty(), pn, c, pr, Seq::<TokenV>::empty() + pn + c + pr);
        assert(forall|k: int| 0 <= k < pn.len() ==> #[trigger] pn[k] == p[k]);
        assert(forall|k: int| 0 <= k < pr.len() ==> #[trigger] pr[k] == p[1 + pn.len() + k]);
        window_sub(ts, i, p, 0, pn);
        let j = i + pn.len();
        window_index(ts, i, p, pn.len() as int);
        assert(ts[j] == TokenV::Comma);
        lemma_rt_node(cs[0], ts, i);
        window_sub(ts, i, p, 1 + pn.len() as int, pr);
        assert(i + p.len() == j + 1 + pr.len());
        lemma_rt_children(rest, ts, j + 1);
        lemma_print_children_first(rest);
        lemma_print_node_first(rest[0]);
        window_index(ts, i, p, 1 + pn.len() as int);
        assert(ts[j + 1] == pr[0]);
        assert(ts[j + 1] != TokenV::RightBracket);
        assert(seq![cs[0]] + rest =~= cs);
    }
}

/// Parsing the printed form of a producible tree definition gives the
/// tree back.
pub proof fn lemma_rt_tree(t: TreeV, ts: Seq<TokenV>, i: int)
    requires
        wf_tree(t),
        0 <= i,
        i + print_tree(t).len() <= ts.len(),
        ts.subrange(i, i + print_tree(t).len()) == print_tree(t),
    ensures
        spec_parse_tree(ts, i) == PRes::<TreeV>::Good(t, i + print_tree(t).len()),
{
    let p = print_tree(t);
    let pn = print_node(t.root);
    let a = seq![TokenV::Root, TokenV::Ident(t.name), TokenV::LeftBracket];
    let b = seq![TokenV::RightBracket];
    assert(p =~= a + pn + b);
    concat3_mid(a, pn, b, a + pn + b);
    assert(forall|k: int| 0 <= k < pn.len() ==> #[trigger] pn[k] == p[3 + k]);
    window_index(ts, i, p, 0);
    window_index(ts, i, p, 1);
    window_index(ts, i, p, 2);
    assert(ts[i] == TokenV::Root);
    assert(ts[i + 1] == TokenV::Ident(t.name));
    assert(ts[i + 2] == TokenV::LeftBracket);
    window_sub(ts, i, p, 3, pn);
    window_index(ts, i, p, 3 + pn.len() as int);
    assert(ts[i + 3 + pn.len()] == TokenV::RightBracket);
    lemma_rt_node(t.root, ts, i + 3);
    assert(TreeV { name: t.name, root: t.root } == t);
}

/// Parser round trip: parsing the printed form of any collection of
/// trees the grammar can produce yields a structurally equal
/// collection.
pub proof fn lemma_parse_print_round_trip(trees: Seq<TreeV>)
    requires
        wf_trees(trees),
    ensures
        spec_parse_collection(print_trees(trees), 0) == PRes::<Seq<TreeV>>::Good(
            trees,
            print_trees(trees).len() as int,
        ),
{
    assert(print_trees(trees).subrange(0, print_trees(trees).len() as int)
        =~= print_trees(trees));
    lemma_rt_trees(trees, print_trees(trees), 0);
}

/// The collection round trip, embedded at the tail of a token stream.
proof fn lemma_rt_trees(trees: Seq<TreeV>, ts: Seq<TokenV>, i: int)
    requires
        wf_trees(trees),
        0 <= i,
        i + print_trees(trees).len() == ts.len(),
        ts.subrange(i, i + print_trees(trees).len()) == print_trees(trees),
    ensures
        spec_parse_collection(ts, i) == PRes::<Seq<TreeV>>::Good(trees, ts.len() as int),
    decreases trees.len(),
{
    let p = print_trees(trees);
    if trees.len() == 0 {
        assert(trees =~= Seq::<TreeV>::empty());
    } else {
        let pt = print_tree(trees[0]);
        let pr = print_trees(trees.drop_first());
        assert(p =~= Seq::<TokenV>::empty() + pt + Seq::<TokenV>::empty() + pr);
        concat4_parts(Seq::empty(), pt, Seq::empty(), pr,
            Seq::<TokenV>::empty() + pt + Seq::<TokenV>::empty() + pr);
        assert(forall|k: int| 0 <= k < pt.len() ==> #[trigger] pt[k] == p[k]);
        assert(forall|k: int| 0 <= k < pr.len() ==> #[trigger] pr[k] == p[pt.len() + k]);
        window_sub(ts, i, p, 0, pt);
        lemma_rt_tree(trees[0], ts, i);
        let j = i + pt.len();
        window_sub(ts, i, p, pt.len() as int, pr);
        lemma_rt_trees(trees.drop_first(), ts, j);
        assert(j > i);
        assert(seq![trees[0]] + trees.drop_first() =~= trees);
    }
}

/// Prints a value as tokens.
pub fn print_value_tokens(v: &Value, out: &mut Vec<Token>)
    ensures
        final(out).deep_view() == old(out).deep_view() + print_value(v@),
    decreases *v, 0int,
{
    let ghost before = out.deep_view();
    match v {
        Value::String(s) => {
            out.push(Token::QuotedString(s.clone()));
            proof {
                assert(out.deep_view() =~= before + print_value(v@));
            }
        }
        Value::Integer(n) => {
            out.push(Token::Integer(*n));
            proof {
                assert(out.deep_view() =~= before + print_value(v@));
            }
        }
        Value::Operator(op) => {
            let t = match op {
                Operator::Plus => Token::Plus,
                Operator::Minus => Token::Minus,
                Operator::Multiply => Token::Multiply,
                Operator::Divide => Token::Divide,
            };
            out.push(t);
            proof {
                assert(out.deep_view() =~= before + print_value(v@));
            }
        }
        Value::Unknown(c) => {
            let t = if *c == ':' {
                Token::Colon
            } else if *c == '(' {
                Token::LeftParenthesis
            } else {
                Token::RightParenthesis
            };
            out.push(t);
            proof {
                assert(out.deep_view() =~= before + print_value(v@));
            }
        }
        Value::Dict(entries) => {
            out.push(Token::LeftBracket);
            let ghost evs = crate::value::entry_views(entries@);
            proof {
                crate::value::lemma_entry_views(entries@);
                assert(out.deep_view() =~= before + seq![TokenV::LeftBracket]);
                assert(evs.take(0) =~= Seq::<(Seq<char>, ValueV)>::empty());
            }
            let mut i: usize = 0;
            while i < entries.len()
                invariant
                    *v == Value::Dict(*entries),
                    0 <= i <= entries@.len(),
                    evs == crate::value::entry_views(entries@),
                    evs.len() == entries@.len(),
                    forall|j: int| 0 <= j < entries@.len() ==> evs[j] == (
                        entries@[j].0@,
                        crate::value::value_view(entries@[j].1),
                    ),
                    out.deep_view() =~= before + seq![TokenV::LeftBracket] + print_taken_entries(
                        evs,
                        i as int,
                    ),
                decreases entries@.len() - i,
            {
                let ghost mid = out.deep_view();
                if i > 0 {
                    out.push(Token::Comma);
                    proof {
                        assert(out.deep_view() =~= mid.push(TokenV::Comma));
                    }
                }
                let ghost mid2 = out.deep_view();
                out.push(Token::Ident(entries[i].0.clone()));
                out.push(Token::Colon);
                let ghost mid3 = out.deep_view();
                proof {
                    assert(mid3 =~= mid2 + seq![
                        TokenV::Ident(entries@[i as int].0@),
                        TokenV::Colon,
                    ]);
                }
                proof {
                    assert(decreases_to!(*v => (*v)->Dict_0));
                    assert((*v)->Dict_0 == *entries);
                    assert(decreases_to!(*entries => entries@));
                    assert(decreases_to!(entries@ => entries@[i as int]));
                    assert(decreases_to!(entries@[i as int] => entries@[i as int].1));
                }
                print_value_tokens(&entries[i].1, out);
                proof {
                    lemma_print_taken_entries_step(evs, i as int);
                    assert(out.deep_view() =~= before + seq![TokenV::LeftBracket]
                        + print_taken_entries(evs, i as int + 1));
                }
                i += 1;
            }
            let ghost closing = out.deep_view();
            out.push(Token::RightBracket);
            proof {
                assert(out.deep_view() =~= closing.push(TokenV::RightBracket));
                lemma_print_taken_entries_all(evs);
                assert(out.deep_view() =~= before + print_value(v@));
            }
        }
        Value::Array(items) => {
            out.push(Token::LeftArray);
            let ghost ivs = crate::value::value_views(items@);
            proof {
                crate::value::lemma_value_views(items@);
                assert(out.deep_view() =~= before + seq![TokenV::LeftArray]);
                assert(ivs.take(0) =~= Seq::<ValueV>::empty());
            }
            let mut i: usize = 0;
            while i < items.len()
                invariant
                    *v == Value::Array(*items),
                    0 <= i <= items@.len(),
                    ivs == crate::value::value_views(items@),
                    ivs.len() == items@.len(),
                    forall|j: int| 0 <= j < items@.len() ==> ivs[j] == crate::value::value_view(
                        items@[j],
                    ),
                    out.deep_view() =~= before + seq![TokenV::LeftArray] + print_taken_elems(
                        ivs,
                        i as int,
                    ),
                decreases items@.len() - i,
            {
                let ghost mid = out.deep_view();
                if i > 0 {
                    out.push(Token::Comma);
                    proof {
                        assert(out.deep_view() =~= mid.push(TokenV::Comma));
                    }
                }
                proof {
                    assert(decreases_to!(*v => (*v)->Array_0));
                    assert((*v)->Array_0 == *items);
                    assert(decreases_to!(*items => items@));
                    assert(decreases_to!(items@ => items@[i as int]));
                }
                print_value_tokens(&items[i], out);
                proof {
                    lemma_print_taken_elems_step(ivs, i as int);
                    assert(out.deep_view() =~= before + seq![TokenV::LeftArray]
                        + print_taken_elems(ivs, i as int + 1));
                }
                i += 1;
            }
            let ghost closing = out.deep_view();
            out.push(Token::RightArray);
            proof {
                assert(out.deep_view() =~= closing.push(TokenV::RightArray));
                lemma_print_taken_elems_all(ivs);
                assert(out.deep_view() =~= before + print_value(v@));
            }
        }
    }
}

/// The tokens of the first `i` entries, comma-separated as the whole
/// list prints them.
pub open spec fn print_taken_entries(evs: Seq<(Seq<char>, ValueV)>, i: int) -> Seq<TokenV>
    decreases i,
{
    if i <= 0 {
        Seq::empty()
    } else if i == 1 {
        seq![TokenV::Ident(evs[0].0), TokenV::Colon] + print_value(evs[0].1)
    } else {
        print_taken_entries(evs, i - 1) + seq![TokenV::Comma] + seq![
            TokenV::Ident(evs[i - 1].0),
            TokenV::Colon,
        ] + print_value(evs[i - 1].1)
    }
}

proof fn lemma_print_taken_entries_step(evs: Seq<(Seq<char>, ValueV)>, i: int)
    requires
        0 <= i < evs.len(),
    ensures
        i == 0 ==> print_taken_entries(evs, 1) == seq![TokenV::Ident(evs[0].0), TokenV::Colon]
            + print_value(evs[0].1),
        i > 0 ==> print_taken_entries(evs, i + 1) == print_taken_entries(evs, i) + seq![
            TokenV::Comma,
        ] + seq![TokenV::Ident(evs[i].0), TokenV::Colon] + print_value(evs[i].1),
{
}

/// The prefix print of all entries is the print of the whole list.
proof fn lemma_print_taken_entries_all(evs: Seq<(Seq<char>, ValueV)>)
    ensures
        print_taken_entries(evs, evs.len() as int) == print_entries(evs),
    decreases evs.len(),
{
    lemma_print_taken_entries_shift(evs, evs.len() as int);
    assert(evs.take(evs.len() as int) =~= evs);
}

/// Prefix printing agrees with the recursive print that drops the
/// first entry.
proof fn lemma_print_taken_entries_shift(evs: Seq<(Seq<char>, ValueV)>, i: int)
    requires
        0 <= i <= evs.len(),
    ensures
        print_taken_entries(evs, i) == print_entries(evs.take(i)),
    decreases i,
{
    if i > 0 {
        lemma_print_taken_entries_shift(evs, i - 1);
        let t = evs.take(i);
        lemma_print_entries_snoc(t);
        assert(t.drop_last() =~= evs.take(i - 1));
        assert(t.last() == evs[i - 1]);
    } else {
        assert(evs.take(0) =~= Seq::<(Seq<char>, ValueV)>::empty());
    }
}

/// Printing entries with the last one split off.
proof fn lemma_print_entries_snoc(evs: Seq<(Seq<char>, ValueV)>)
    requires
        evs.len() >= 1,
    ensures
        evs.len() == 1 ==> print_entries(evs) == seq![TokenV::Ident(evs[0].0), TokenV::Colon]
            + print_value(evs[0].1),
        evs.len() > 1 ==> print_entries(evs) == print_entries(evs.drop_last()) + seq![
            TokenV::Comma,
        ] + seq![TokenV::Ident(evs.last().0), TokenV::Colon] + print_value(evs.last().1),
    decreases evs.len(),
{
    if evs.len() > 1 {
        lemma_print_entries_snoc(evs.drop_first());
        assert(evs.drop_first().drop_last() =~= evs.drop_last().drop_first());
        assert(evs.drop_first().last() == evs.last());
        assert(evs.drop_last()[0] == evs[0]);
        if evs.len() == 2 {
            assert(evs.drop_last().len() == 1);
            assert(print_entries(evs)
                == seq![TokenV::Ident(evs[0].0), TokenV::Colon] + print_value(evs[0].1) + seq![
                TokenV::Comma,
            ] + print_entries(evs.drop_first()));
            assert(print_entries(evs) =~= print_entries(evs.drop_last()) + seq![TokenV::Comma]
                + seq![TokenV::Ident(evs.last().0), TokenV::Colon] + print_value(evs.last().1));
        } else {
            assert(print_entries(evs) =~= print_entries(evs.drop_last()) + seq![TokenV::Comma]
                + seq![TokenV::Ident(evs.last().0), TokenV::Colon] + print_value(evs.last().1));
        }
    }
}

/// The tokens of the first `i` elements, comma-separated.
pub open spec fn print_taken_elems(ivs: Seq<ValueV>, i: int) -> Seq<TokenV>
    decreases i,
{
    if i <= 0 {
        Seq::empty()
    } else if i == 1 {
        print_value(ivs[0])
    } else {
        print_taken_elems(ivs, i - 1) + seq![TokenV::Comma] + print_value(ivs[i - 1])
    }
}

proof fn lemma_print_taken_elems_step(ivs: Seq<ValueV>, i: int)
    requires
        0 <= i < ivs.len(),
    ensures
        i == 0 ==> print_taken_elems(ivs, 1) == print_value(ivs[0]),
        i > 0 ==> print_taken_elems(ivs, i + 1) == print_taken_elems(ivs, i) + seq![
            TokenV::Comma,
        ] + print_value(ivs[i]),
{
}

proof fn lemma_print_taken_elems_all(ivs: Seq<ValueV>)
    ensures
        print_taken_elems(ivs, ivs.len() as int) == print_elems(ivs),
    decreases ivs.len(),
{
    lemma_print_taken_elems_shift(ivs, ivs.len() as int);
    assert(ivs.take(ivs.len() as int) =~= ivs);
}

proof fn lemma_print_taken_elems_shift(ivs: Seq<ValueV>, i: int)
    requires
        0 <= i <= ivs.len(),
    ensures
        print_taken_elems(ivs, i) == print_elems(ivs.take(i)),
    decreases i,
{
    if i > 0 {
        lemma_print_taken_elems_shift(ivs, i - 1);
        let t = ivs.take(i);
        lemma_print_elems_snoc(t);
        assert(t.drop_last() =~= ivs.take(i - 1));
        assert(t.last() == ivs[i - 1]);
    } else {
        assert(ivs.take(0) =~= Seq::<ValueV>::empty());
    }
}

proof fn lemma_print_elems_snoc(ivs: Seq<ValueV>)
    requires
        ivs.len() >= 1,
    ensures
        ivs.len() == 1 ==> print_elems(ivs) == print_value(ivs[0]),
        ivs.len() > 1 ==> print_elems(ivs) == print_elems(ivs.drop_last()) + seq![TokenV::Comma]
            + print_value(ivs.last()),
    decreases ivs.len(),
{
    if ivs.len() > 1 {
        lemma_print_elems_snoc(ivs.drop_first());
        assert(ivs.drop_first().drop_last() =~= ivs.drop_last().drop_first());
        assert(ivs.drop_first().last() == ivs.last());
        assert(ivs.drop_last()[0] == ivs[0]);
        if ivs.len() == 2 {
            assert(print_elems(ivs) =~= print_elems(ivs.drop_last()) + seq![TokenV::Comma]
                + print_value(ivs.last()));
        } else {
            assert(print_elems(ivs) =~= print_elems(ivs.drop_last()) + seq![TokenV::Comma]
                + print_value(ivs.last()));
        }
    }
}

/// The tokens of the first `i` children, comma-separated.
pub open spec fn print_taken_children(nvs: Seq<NodeV>, i: int) -> Seq<TokenV>
    decreases i,
{
    if i <= 0 {
        Seq::empty()
    } else if i == 1 {
        print_node(nvs[0])
    } else {
        print_taken_children(nvs, i - 1) + seq![TokenV::Comma] + print_node(nvs[i - 1])
    }
}

proof fn lemma_print_taken_children_step(nvs: Seq<NodeV>, i: int)
    requires
        0 <= i < nvs.len(),
    ensures
        i == 0 ==> print_taken_children(nvs, 1) == print_node(nvs[0]),
        i > 0 ==> print_taken_children(nvs, i + 1) == print_taken_children(nvs, i) + seq![
            TokenV::Comma,
        ] + print_node(nvs[i]),
{
}

proof fn lemma_print_taken_children_all(nvs: Seq<NodeV>)
    ensures
        print_taken_children(nvs, nvs.len() as int) == print_children(nvs),
    decreases nvs.len(),
{
    lemma_print_taken_children_shift(nvs, nvs.len() as int);
    assert(nvs.take(nvs.len() as int) =~= nvs);
}

proof fn lemma_print_taken_children_shift(nvs: Seq<NodeV>, i: int)
    requires
        0 <= i <= nvs.len(),
    ensures
        print_taken_children(nvs, i) == print_children(nvs.take(i)),
    decreases i,
{
    if i > 0 {
        lemma_print_taken_children_shift(nvs, i - 1);
        let t = nvs.take(i);
        lemma_print_children_snoc(t);
        assert(t.drop_last() =~= nvs.take(i - 1));
        assert(t.last() == nvs[i - 1]);
    } else {
        assert(nvs.take(0) =~= Seq::<NodeV>::empty());
    }
}

proof fn lemma_print_children_snoc(nvs: Seq<NodeV>)
    requires
        nvs.len() >= 1,
    ensures
        nvs.len() == 1 ==> print_children(nvs) == print_node(nvs[0]),
        nvs.len() > 1 ==> print_children(nvs) == print_children(nvs.drop_last()) + seq![
            TokenV::Comma,
        ] + print_node(nvs.last()),
    decreases nvs.len(),
{
    if nvs.len() > 1 {
        lemma_print_children_snoc(nvs.drop_first());
        assert(nvs.drop_first().drop_last() =~= nvs.drop_last().drop_first());
        assert(nvs.drop_first().last() == nvs.last());
        assert(nvs.drop_last()[0] == nvs[0]);
        assert(print_children(nvs) =~= print_children(nvs.drop_last()) + seq![TokenV::Comma]
            + print_node(nvs.last()));
    }
}

/// Prints a child list between braces, after the keyword has been
/// emitted.
fn print_children_tokens(children: &Vec<Node>, out: &mut Vec<Token>)
    ensures
        final(out).deep_view() == old(out).deep_view() + seq![TokenV::LeftBracket]
            + print_children(crate::ast::node_views(children@)) + seq![TokenV::RightBracket],
    decreases children@, 1int,
{
    let ghost before = out.deep_view();
    let ghost nvs = crate::ast::node_views(children@);
    proof {
        crate::ast::lemma_node_views(children@);
    }
    out.push(Token::LeftBracket);
    proof {
        assert(out.deep_view() =~= before + seq![TokenV::LeftBracket]);
    }
    let mut i: usize = 0;
    while i < children.len()
        invariant
            0 <= i <= children@.len(),
            nvs == crate::ast::node_views(children@),
            nvs.len() == children@.len(),
            forall|j: int| 0 <= j < children@.len() ==> nvs[j] == crate::ast::node_view(
                children@[j],
            ),
            out.deep_view() =~= before + seq![TokenV::LeftBracket] + print_taken_children(
                nvs,
                i as int,
            ),
        decreases children@.len() - i,
    {
        let ghost mid = out.deep_view();
        if i > 0 {
            out.push(Token::Comma);
            proof {
                assert(out.deep_view() =~= mid.push(TokenV::Comma));
            }
        }
        proof {
            assert(decreases_to!(children@ => children@[i as int]));
        }
        print_node_tokens(&children[i], out);
        proof {
            lemma_print_taken_children_step(nvs, i as int);
            assert(out.deep_view() =~= before + seq![TokenV::LeftBracket]
                + print_taken_children(nvs, i as int + 1));
        }
        i += 1;
    }
    let ghost closing = out.deep_view();
    out.push(Token::RightBracket);
    proof {
        assert(out.deep_view() =~= closing.push(TokenV::RightBracket));
        lemma_print_taken_children_all(nvs);
        assert(out.deep_view() =~= before + seq![TokenV::LeftBracket] + print_children(nvs)
            + seq![TokenV::RightBracket]);
    }
}

/// Prints a node as tokens.
pub fn print_node_tokens(n: &Node, out: &mut Vec<Token>)
    ensures
        final(out).deep_view() == old(out).deep_view() + print_node(n@),
    decreases *n, 2int,
{
    let ghost before = out.deep_view();
    match n {
        Node::Leaf(name, opt) => {
            out.push(Token::Ident(name.clone()));
            let ghost mid = out.deep_view();
            proof {
                assert(mid =~= before.push(TokenV::Ident(name@)));
            }
            match opt {
                None => {
                    proof {
                        assert(out.deep_view() =~= before + print_node(n@));
                    }
                }
                Some(v) => {
                    out.push(Token::LeftParenthesis);
                    let ghost mid2 = out.deep_view();
                    proof {
                        assert(mid2 =~= mid.push(TokenV::LeftParenthesis));
                    }
                    print_value_tokens(v, out);
                    let ghost mid3 = out.deep_view();
                    out.push(Token::RightParenthesis);
                    proof {
                        assert(out.deep_view() =~= mid3.push(TokenV::RightParenthesis));
                        assert(out.deep_view() =~= before + print_node(n@));
                    }
                }
            }
        }
        Node::Sequence(children) => {
            out.push(Token::Sequence);
            let ghost mid = out.deep_view();
            proof {
                assert(mid =~= before.push(TokenV::Sequence));
            }
            print_children_tokens(children, out);
            proof {
                crate::ast::lemma_node_views_deep(children);
                assert(out.deep_view() =~= before + print_node(n@));
            }
        }
        Node::Selector(children) => {
            out.push(Token::Selector);
            let ghost mid = out.deep_view();
            proof {
                assert(mid =~= before.push(TokenV::Selector));
            }
            print_children_tokens(children, out);
            proof {
                assert(out.deep_view() =~= before + print_node(n@));
            }
        }
        Node::Priority(children) => {
            out.push(Token::Priority);
            let ghost mid = out.deep_view();
            proof {
                assert(mid =~= before.push(TokenV::Priority));
            }
            print_children_tokens(children, out);
            proof {
                assert(out.deep_view() =~= before + print_node(n@));
            }
        }
        Node::Inverter(child) => {
            out.push(Token::Inverter);
            out.push(Token::LeftBracket);
            let ghost mid = out.deep_view();
            proof {
                assert(mid =~= before.push(TokenV::Inverter).push(TokenV::LeftBracket));
            }
            print_node_tokens(&*child, out);
            let ghost mid2 = out.deep_view();
            out.push(Token::RightBracket);
            proof {
                assert(out.deep_view() =~= mid2.push(TokenV::RightBracket));
                assert(out.deep_view() =~= before + print_node(n@));
            }
        }
    }
}

/// Prints a tree definition as tokens.
pub fn print_tree_tokens(t: &Tree, out: &mut Vec<Token>)
    ensures
        final(out).deep_view() == old(out).deep_view() + print_tree(t@),
{
    let ghost before = out.deep_view();
    out.push(Token::Root);
    out.push(Token::Ident(t.name.clone()));
    out.push(Token::LeftBracket);
    let ghost mid = out.deep_view();
    proof {
        assert(mid =~= before.push(TokenV::Root).push(TokenV::Ident(t.name@)).push(
            TokenV::LeftBracket,
        ));
    }
    print_node_tokens(&t.root, out);
    let ghost mid2 = out.deep_view();
    out.push(Token::RightBracket);
    proof {
        assert(out.deep_view() =~= mid2.push(TokenV::RightBracket));
        assert(out.deep_view() =~= before + print_tree(t@));
    }
}

/// Prints a whole collection of trees as tokens; parsing them back
/// yields a structurally equal collection.
pub fn print_collection_tokens(trees: &Vec<Tree>) -> (r: Vec<Token>)
    ensures
        r.deep_view() == print_trees(trees.deep_view()),
{
    let ghost tvs = trees.deep_view();
    let mut out: Vec<Token> = Vec::new();
    let mut i: usize = 0;
    proof {
        assert(out.deep_view() =~= Seq::<TokenV>::empty());
        assert(tvs.skip(0) =~= tvs);
        assert(out.deep_view() + print_trees(tvs) =~= print_trees(tvs));
    }
    while i < trees.len()
        invariant
            0 <= i <= trees@.len(),
            tvs == trees.deep_view(),
            tvs.len() == trees@.len(),
            forall|j: int| 0 <= j < trees@.len() ==> tvs[j] == trees@[j]@,
            out.deep_view() + print_trees(tvs.skip(i as int)) == print_trees(tvs),
        decreases trees@.len() - i,
    {
        let ghost rem = tvs.skip(i as int);
        let ghost prev = out.deep_view();
        proof {
            assert(rem.len() > 0);
            assert(rem[0] == tvs[i as int]);
            assert(rem.drop_first() =~= tvs.skip(i as int + 1));
        }
        print_tree_tokens(&trees[i], &mut out);
        proof {
            assert(print_trees(rem) == print_tree(rem[0]) + print_trees(rem.drop_first()));
            assert(prev + (print_tree(rem[0]) + print_trees(rem.drop_first()))
                =~= out.deep_view() + print_trees(tvs.skip(i as int + 1)));
        }
        i += 1;
    }
    proof {
        assert(tvs.skip(i as int).len() == 0);
        assert(print_trees(tvs.skip(i as int)) =~= Seq::<TokenV>::empty());
        assert(out.deep_view() + Seq::<TokenV>::empty() =~= out.deep_view());
    }
    out
}

} // verus!
