//! The grammar: token stream to abstract tree.
//!
//! A collection is zero or more trees, `tree IDENT { node }` each.  A
//! node is a composite (`sequence`, `selector`, `priority`) with one or
//! more comma-separated children, an `inverter` with exactly one child,
//! or a leaf invocation `IDENT` with an optional parenthesised value.
//! Values are quoted strings, integers, maps, arrays and bare operator
//! characters; inside arrays, the leftover one-character tokens `:`,
//! `(` and `)` become `Unknown` values for the expression compiler to
//! report precisely later.

use vstd::prelude::*;
use vstd::string::*;
use crate::lexer::{Token, TokenV};
use crate::value::{Value, ValueV, Operator};
use crate::ast::{Node, NodeV, Tree, TreeV};

verus! {

/// A parse error: the offending token (`None` at the end of the input)
/// and a short description of what was expected.
pub struct ParseErr {
    pub found: Option<TokenV>,
    pub expected: Seq<char>,
}

/// The outcome of a parse step: a result with the position just after
/// it, or a parse error.
pub enum PRes<T> {
    Good(T, int),
    Bad(ParseErr),
}

/// The node starting at position `i`.
pub open spec fn spec_parse_node(ts: Seq<TokenV>, i: int) -> PRes<NodeV>
    decreases ts.len() - i, 1int,
{
    if i < 0 || i >= ts.len() {
        PRes::Bad(ParseErr { found: None, expected: "a node"@ })
    } else {
        match ts[i] {
            TokenV::Sequence => match spec_parse_composite_body(ts, i + 1) {
                PRes::Good(cs, j) => PRes::Good(NodeV::Sequence(cs), j),
                PRes::Bad(e) => PRes::Bad(e),
            },
            TokenV::Selector => match spec_parse_composite_body(ts, i + 1) {
                PRes::Good(cs, j) => PRes::Good(NodeV::Selector(cs), j),
                PRes::Bad(e) => PRes::Bad(e),
            },
            TokenV::Priority => match spec_parse_composite_body(ts, i + 1) {
                PRes::Good(cs, j) => PRes::Good(NodeV::Priority(cs), j),
                PRes::Bad(e) => PRes::Bad(e),
            },
            TokenV::Inverter => {
                if !(i + 1 < ts.len() && ts[i + 1] == TokenV::LeftBracket) {
                    PRes::Bad(ParseErr {
                        found: if i + 1 < ts.len() { Some(ts[i + 1]) } else { None },
                        expected: "'{' after inverter"@,
                    })
                } else {
                    match spec_parse_node(ts, i + 2) {
                        PRes::Good(child, j) => {
                            if j < ts.len() && ts[j] == TokenV::RightBracket {
                                PRes::Good(NodeV::Inverter(Box::new(child)), j + 1)
                            } else {
                                PRes::Bad(ParseErr {
                                    found: if j < ts.len() { Some(ts[j]) } else { None },
                                    expected: "'}' after the inverter child"@,
                                })
                            }
                        }
                        PRes::Bad(e) => PRes::Bad(e),
                    }
                }
            },
            TokenV::Ident(name) => {
                if i + 1 < ts.len() && ts[i + 1] == TokenV::LeftParenthesis {
                    match spec_parse_value(ts, i + 2) {
                        PRes::Good(v, j) => {
                            if j < ts.len() && ts[j] == TokenV::RightParenthesis {
                                PRes::Good(NodeV::Leaf(name, Some(v)), j + 1)
                            } else {
                                PRes::Bad(ParseErr {
                                    found: if j < ts.len() { Some(ts[j]) } else { None },
                                    expected: "')' after the leaf value"@,
                                })
                            }
                        }
                        PRes::Bad(e) => PRes::Bad(e),
                    }
                } else {
                    PRes::Good(NodeV::Leaf(name, None), i + 1)
                }
            },
            t => PRes::Bad(ParseErr { found: Some(t), expected: "a node"@ }),
        }
    }
}

/// The body of a composite node: `{` children `}`, starting at the
/// position of the expected `{`.
pub open spec fn spec_parse_composite_body(ts: Seq<TokenV>, i: int) -> PRes<Seq<NodeV>>
    decreases ts.len() - i, 0int,
{
    if !(0 <= i && i < ts.len() && ts[i] == TokenV::LeftBracket) {
        PRes::Bad(ParseErr {
            found: if 0 <= i && i < ts.len() { Some(ts[i]) } else { None },
            expected: "'{' after the composite keyword"@,
        })
    } else {
        match spec_parse_children(ts, i + 1) {
            PRes::Good(cs, j) => {
                if j < ts.len() && ts[j] == TokenV::RightBracket {
                    PRes::Good(cs, j + 1)
                } else {
                    PRes::Bad(ParseErr {
                        found: if j < ts.len() { Some(ts[j]) } else { None },
                        expected: "'}' after the children"@,
                    })
                }
            }
            PRes::Bad(e) => PRes::Bad(e),
        }
    }
}

/// One or more comma-separated children, a trailing comma permitted.
pub open spec fn spec_parse_children(ts: Seq<TokenV>, i: int) -> PRes<Seq<NodeV>>
    decreases ts.len() - i, 2int,
{
    match spec_parse_node(ts, i) {
        PRes::Good(n, j) => {
            if j < ts.len() && ts[j] == TokenV::Comma {
                if j + 1 < ts.len() && ts[j + 1] == TokenV::RightBracket {
                    PRes::Good(seq![n], j + 1)
                } else if j >= i {
                    match spec_parse_children(ts, j + 1) {
                        PRes::Good(rest, k) => PRes::Good(seq![n] + rest, k),
                        PRes::Bad(e) => PRes::Bad(e),
                    }
                } else {
                    // Unreachable: parsing a node advances the position.
                    PRes::Good(seq![n], j)
                }
            } else {
                PRes::Good(seq![n], j)
            }
        }
        PRes::Bad(e) => PRes::Bad(e),
    }
}

/// The value starting at position `i`.
pub open spec fn spec_parse_value(ts: Seq<TokenV>, i: int) -> PRes<ValueV>
    decreases ts.len() - i, 0int,
{
    if i < 0 || i >= ts.len() {
        PRes::Bad(ParseErr { found: None, expected: "a value"@ })
    } else {
        match ts[i] {
            TokenV::QuotedString(s) => PRes::Good(ValueV::Str(s), i + 1),
            TokenV::Integer(n) => PRes::Good(ValueV::Int(n), i + 1),
            TokenV::Plus => PRes::Good(ValueV::Op(crate::value::Operator::Plus), i + 1),
            TokenV::Minus => PRes::Good(ValueV::Op(crate::value::Operator::Minus), i + 1),
            TokenV::Multiply => PRes::Good(ValueV::Op(crate::value::Operator::Multiply), i + 1),
            TokenV::Divide => PRes::Good(ValueV::Op(crate::value::Operator::Divide), i + 1),
            TokenV::LeftBracket => match spec_parse_dict_entries(ts, i + 1) {
                PRes::Good(entries, j) => {
                    if j < ts.len() && ts[j] == TokenV::RightBracket {
                        PRes::Good(ValueV::Dict(entries), j + 1)
                    } else {
                        PRes::Bad(ParseErr {
                            found: if j < ts.len() { Some(ts[j]) } else { None },
                            expected: "'}' after the map entries"@,
                        })
                    }
                }
                PRes::Bad(e) => PRes::Bad(e),
            },
            TokenV::LeftArray => match spec_parse_array_elems(ts, i + 1) {
                PRes::Good(items, j) => {
                    if j < ts.len() && ts[j] == TokenV::RightArray {
                        PRes::Good(ValueV::List(items), j + 1)
                    } else {
                        PRes::Bad(ParseErr {
                            found: if j < ts.len() { Some(ts[j]) } else { None },
                            expected: "']' after the array elements"@,
                        })
                    }
                }
                PRes::Bad(e) => PRes::Bad(e),
            },
            t => PRes::Bad(ParseErr { found: Some(t), expected: "a value"@ }),
        }
    }
}

/// One or more `IDENT : value` map entries, a trailing comma permitted.
pub open spec fn spec_parse_dict_entries(ts: Seq<TokenV>, i: int) -> PRes<
    Seq<(Seq<char>, ValueV)>,
>
    decreases ts.len() - i, 0int,
{
    if !(0 <= i && i < ts.len() && ts[i] is Ident) {
        PRes::Bad(ParseErr {
            found: if 0 <= i && i < ts.len() { Some(ts[i]) } else { None },
            expected: "a map key"@,
        })
    } else if !(i + 1 < ts.len() && ts[i + 1] == TokenV::Colon) {
        PRes::Bad(ParseErr {
            found: if i + 1 < ts.len() { Some(ts[i + 1]) } else { None },
            expected: "':' after the map key"@,
        })
    } else {
        let key = ts[i]->Ident_0;
        match spec_parse_value(ts, i + 2) {
            PRes::Good(v, j) => {
                if j < ts.len() && ts[j] == TokenV::Comma {
                    if j + 1 < ts.len() && ts[j + 1] == TokenV::RightBracket {
                        PRes::Good(seq![(key, v)], j + 1)
                    } else if j >= i {
                        match spec_parse_dict_entries(ts, j + 1) {
                            PRes::Good(rest, k) => PRes::Good(seq![(key, v)] + rest, k),
                            PRes::Bad(e) => PRes::Bad(e),
                        }
                    } else {
                        // Unreachable: parsing a value advances the position.
                        PRes::Good(seq![(key, v)], j)
                    }
                } else {
                    PRes::Good(seq![(key, v)], j)
                }
            }
            PRes::Bad(e) => PRes::Bad(e),
        }
    }
}

/// One array element: a value, or a leftover one-character token kept
/// as an `Unknown` value.
pub open spec fn spec_parse_array_elem(ts: Seq<TokenV>, i: int) -> PRes<ValueV>
    decreases ts.len() - i, 1int,
{
    if i < 0 || i >= ts.len() {
        PRes::Bad(ParseErr { found: None, expected: "an array element"@ })
    } else {
        match ts[i] {
            TokenV::Colon => PRes::Good(ValueV::Unk(':'), i + 1),
            TokenV::LeftParenthesis => PRes::Good(ValueV::Unk('('), i + 1),
            TokenV::RightParenthesis => PRes::Good(ValueV::Unk(')'), i + 1),
            _ => spec_parse_value(ts, i),
        }
    }
}

/// One or more comma-separated array elements, a trailing comma
/// permitted.
pub open spec fn spec_parse_array_elems(ts: Seq<TokenV>, i: int) -> PRes<Seq<ValueV>>
    decreases ts.len() - i, 2int,
{
    match spec_parse_array_elem(ts, i) {
        PRes::Good(v, j) => {
            if j < ts.len() && ts[j] == TokenV::Comma {
                if j + 1 < ts.len() && ts[j + 1] == TokenV::RightArray {
                    PRes::Good(seq![v], j + 1)
                } else if j >= i {
                    match spec_parse_array_elems(ts, j + 1) {
                        PRes::Good(rest, k) => PRes::Good(seq![v] + rest, k),
                        PRes::Bad(e) => PRes::Bad(e),
                    }
                } else {
                    // Unreachable: parsing an element advances the position.
                    PRes::Good(seq![v], j)
                }
            } else {
                PRes::Good(seq![v], j)
            }
        }
        PRes::Bad(e) => PRes::Bad(e),
    }
}

/// The tree definition starting at position `i`: `tree IDENT { node }`.
pub open spec fn spec_parse_tree(ts: Seq<TokenV>, i: int) -> PRes<TreeV> {
    if !(0 <= i && i < ts.len() && ts[i] == TokenV::Root) {
        PRes::Bad(ParseErr {
            found: if 0 <= i && i < ts.len() { Some(ts[i]) } else { None },
            expected: "'tree'"@,
        })
    } else if !(i + 1 < ts.len() && ts[i + 1] is Ident) {
        PRes::Bad(ParseErr {
            found: if i + 1 < ts.len() { Some(ts[i + 1]) } else { None },
            expected: "the tree name"@,
        })
    } else if !(i + 2 < ts.len() && ts[i + 2] == TokenV::LeftBracket) {
        PRes::Bad(ParseErr {
            found: if i + 2 < ts.len() { Some(ts[i + 2]) } else { None },
            expected: "'{' after the tree name"@,
        })
    } else {
        let name = ts[i + 1]->Ident_0;
        match spec_parse_node(ts, i + 3) {
            PRes::Good(root, j) => {
                if j < ts.len() && ts[j] == TokenV::RightBracket {
                    PRes::Good(TreeV { name, root }, j + 1)
                } else {
                    PRes::Bad(ParseErr {
                        found: if j < ts.len() { Some(ts[j]) } else { None },
                        expected: "'}' after the tree root"@,
                    })
                }
            }
            PRes::Bad(e) => PRes::Bad(e),
        }
    }
}

/// Zero or more tree definitions covering the whole token stream.
pub open spec fn spec_parse_collection(ts: Seq<TokenV>, i: int) -> PRes<Seq<TreeV>>
    decreases ts.len() - i,
{
    if i >= ts.len() {
        PRes::Good(Seq::empty(), i)
    } else {
        match spec_parse_tree(ts, i) {
            PRes::Good(t, j) => {
                if j > i {
                    match spec_parse_collection(ts, j) {
                        PRes::Good(rest, k) => PRes::Good(seq![t] + rest, k),
                        PRes::Bad(e) => PRes::Bad(e),
                    }
                } else {
                    // Unreachable: parsing a tree advances the position.
                    PRes::Good(seq![t], j)
                }
            }
            PRes::Bad(e) => PRes::Bad(e),
        }
    }
}

pub proof fn lemma_parse_node_adv(ts: Seq<TokenV>, i: int)
    requires
        0 <= i <= ts.len(),
    ensures
        spec_parse_node(ts, i) matches PRes::Good(_, j) ==> i < j <= ts.len(),
    decreases ts.len() - i, 1int,
{
    if i < ts.len() {
        match ts[i] {
            TokenV::Sequence | TokenV::Selector | TokenV::Priority => {
                lemma_parse_composite_body_adv(ts, i + 1);
            }
            TokenV::Inverter => {
                if i + 1 < ts.len() && ts[i + 1] == TokenV::LeftBracket {
                    lemma_parse_node_adv(ts, i + 2);
                }
            }
            TokenV::Ident(_) => {
                if i + 1 < ts.len() && ts[i + 1] == TokenV::LeftParenthesis {
                    lemma_parse_value_adv(ts, i + 2);
                }
            }
            _ => {}
        }
    }
}

pub proof fn lemma_parse_composite_body_adv(ts: Seq<TokenV>, i: int)
    requires
        0 <= i <= ts.len(),
    ensures
        spec_parse_composite_body(ts, i) matches PRes::Good(_, j) ==> i < j <= ts.len(),
    decreases ts.len() - i, 0int,
{
    if i < ts.len() && ts[i] == TokenV::LeftBracket {
        lemma_parse_children_adv(ts, i + 1);
    }
}

pub proof fn lemma_parse_children_adv(ts: Seq<TokenV>, i: int)
    requires
        0 <= i <= ts.len(),
    ensures
        spec_parse_children(ts, i) matches PRes::Good(_, j) ==> i < j <= ts.len(),
    decreases ts.len() - i, 2int,
{
    lemma_parse_node_adv(ts, i);
    match spec_parse_node(ts, i) {
        PRes::Good(_, j) => {
            if j < ts.len() && ts[j] == TokenV::Comma {
                if !(j + 1 < ts.len() && ts[j + 1] == TokenV::RightBracket) {
                    lemma_parse_children_adv(ts, j + 1);
                }
            }
        }
        PRes::Bad(_) => {}
    }
}

pub proof fn lemma_parse_value_adv(ts: Seq<TokenV>, i: int)
    requires
        0 <= i <= ts.len(),
    ensures
        spec_parse_value(ts, i) matches PRes::Good(_, j) ==> i < j <= ts.len(),
    decreases ts.len() - i, 0int,
{
    if i < ts.len() {
        match ts[i] {
            TokenV::LeftBracket => {
                lemma_parse_dict_entries_adv(ts, i + 1);
            }
            TokenV::LeftArray => {
                lemma_parse_array_elems_adv(ts, i + 1);
            }
            _ => {}
        }
    }
}

pub proof fn lemma_parse_dict_entries_adv(ts: Seq<TokenV>, i: int)
    requires
        0 <= i <= ts.len(),
    ensures
        spec_parse_dict_entries(ts, i) matches PRes::Good(_, j) ==> i < j <= ts.len(),
    decreases ts.len() - i, 0int,
{
    if 0 <= i && i < ts.len() && ts[i] is Ident && i + 1 < ts.len() && ts[i + 1]
        == TokenV::Colon {
        lemma_parse_value_adv(ts, i + 2);
        match spec_parse_value(ts, i + 2) {
            PRes::Good(_, j) => {
                if j < ts.len() && ts[j] == TokenV::Comma {
                    if !(j + 1 < ts.len() && ts[j + 1] == TokenV::RightBracket) {
                        lemma_parse_dict_entries_adv(ts, j + 1);
                    }
                }
            }
            PRes::Bad(_) => {}
        }
    }
}

pub proof fn lemma_parse_array_elem_adv(ts: Seq<TokenV>, i: int)
    requires
        0 <= i <= ts.len(),
    ensures
        spec_parse_array_elem(ts, i) matches PRes::Good(_, j) ==> i < j <= ts.len(),
    decreases ts.len() - i, 1int,
{
    if i < ts.len() {
        lemma_parse_value_adv(ts, i);
    }
}

pub proof fn lemma_parse_array_elems_adv(ts: Seq<TokenV>, i: int)
    requires
        0 <= i <= ts.len(),
    ensures
        spec_parse_array_elems(ts, i) matches PRes::Good(_, j) ==> i < j <= ts.len(),
    decreases ts.len() - i, 2int,
{
    lemma_parse_array_elem_adv(ts, i);
    match spec_parse_array_elem(ts, i) {
        PRes::Good(_, j) => {
            if j < ts.len() && ts[j] == TokenV::Comma {
                if !(j + 1 < ts.len() && ts[j + 1] == TokenV::RightArray) {
                    lemma_parse_array_elems_adv(ts, j + 1);
                }
            }
        }
        PRes::Bad(_) => {}
    }
}

pub proof fn lemma_parse_tree_adv(ts: Seq<TokenV>, i: int)
    requires
        0 <= i <= ts.len(),
    ensures
        spec_parse_tree(ts, i) matches PRes::Good(_, j) ==> i < j <= ts.len(),
{
    if 0 <= i && i < ts.len() && ts[i] == TokenV::Root && i + 1 < ts.len() && ts[i + 1] is Ident
        && i + 2 < ts.len() && ts[i + 2] == TokenV::LeftBracket {
        lemma_parse_node_adv(ts, i + 3);
    }
}

/// A short description of a token, for error messages.
pub open spec fn token_desc(t: TokenV) -> Seq<char> {
    match t {
        TokenV::Ident(_) => "an identifier"@,
        TokenV::QuotedString(_) => "a quoted string"@,
        TokenV::Integer(_) => "an integer"@,
        TokenV::Root => "'tree'"@,
        TokenV::Subtree => "'subtree'"@,
        TokenV::Selector => "'selector'"@,
        TokenV::Sequence => "'sequence'"@,
        TokenV::Priority => "'priority'"@,
        TokenV::Inverter => "'inverter'"@,
        TokenV::LeftBracket => "'{'"@,
        TokenV::RightBracket => "'}'"@,
        TokenV::Comma => "','"@,
        TokenV::Colon => "':'"@,
        TokenV::LeftParenthesis => "'('"@,
        TokenV::RightParenthesis => "')'"@,
        TokenV::LeftArray => "'['"@,
        TokenV::RightArray => "']'"@,
        TokenV::Plus => "'+'"@,
        TokenV::Minus => "'-'"@,
        TokenV::Multiply => "'*'"@,
        TokenV::Divide => "'/'"@,
    }
}

/// The message for a parse error: what was expected and what stood
/// there instead.
pub open spec fn parse_err_msg(e: ParseErr) -> Seq<char> {
    "Parsing error: expected "@ + e.expected + ", found "@ + (match e.found {
        Some(t) => token_desc(t),
        None => "the end of the input"@,
    })
}

/// Renders the description of one token.
fn token_desc_exec(t: &Token) -> (r: String)
    ensures
        r@ == token_desc(t@),
{
    match t {
        Token::Ident(_) => String::from_str("an identifier"),
        Token::QuotedString(_) => String::from_str("a quoted string"),
        Token::Integer(_) => String::from_str("an integer"),
        Token::Root => String::from_str("'tree'"),
        Token::Subtree => String::from_str("'subtree'"),
        Token::Selector => String::from_str("'selector'"),
        Token::Sequence => String::from_str("'sequence'"),
        Token::Priority => String::from_str("'priority'"),
        Token::Inverter => String::from_str("'inverter'"),
        Token::LeftBracket => String::from_str("'{'"),
        Token::RightBracket => String::from_str("'}'"),
        Token::Comma => String::from_str("','"),
        Token::Colon => String::from_str("':'"),
        Token::LeftParenthesis => String::from_str("'('"),
        Token::RightParenthesis => String::from_str("')'"),
        Token::LeftArray => String::from_str("'['"),
        Token::RightArray => String::from_str("']'"),
        Token::Plus => String::from_str("'+'"),
        Token::Minus => String::from_str("'-'"),
        Token::Multiply => String::from_str("'*'"),
        Token::Divide => String::from_str("'/'"),
    }
}

/// Builds the message for a parse error found at `pos`.
fn err_at(tokens: &Vec<Token>, pos: usize, expected: &str) -> (r: String)
    ensures
        r@ == parse_err_msg(
            ParseErr {
                found: if pos < tokens.deep_view().len() {
                    Some(tokens.deep_view()[pos as int])
                } else {
                    None
                },
                expected: expected@,
            },
        ),
{
    let mut m = String::from_str("Parsing error: expected ");
    m.append(expected);
    m.append(", found ");
    if pos < tokens.len() {
        let d = token_desc_exec(&tokens[pos]);
        m.append(d.as_str());
    } else {
        m.append("the end of the input");
    }
    m
}

/// Parses the node starting at `pos`.
pub fn parse_node(tokens: &Vec<Token>, pos: usize) -> (r: Result<(Node, usize), String>)
    requires
        pos <= tokens.deep_view().len(),
    ensures
        ({
            let ts = tokens.deep_view();
            match spec_parse_node(ts, pos as int) {
                PRes::Good(n, j) => r matches Ok(p) && p.0@ == n && p.1 == j
                    && pos < p.1 <= ts.len(),
                PRes::Bad(e) => r matches Err(m) && m@ == parse_err_msg(e),
            }
        }),
    decreases tokens.deep_view().len() - pos, 1int,
{
    let ghost ts = tokens.deep_view();
    proof {
        lemma_parse_node_adv(ts, pos as int);
    }
    if pos >= tokens.len() {
        return Err(err_at(tokens, pos, "a node"));
    }
    match &tokens[pos] {
        Token::Sequence => match parse_composite_body(tokens, pos + 1) {
            Ok((cs, j)) => {
                proof {
                    crate::ast::lemma_node_views_deep(&cs);
                }
                Ok((Node::Sequence(cs), j))
            }
            Err(m) => Err(m),
        },
        Token::Selector => match parse_composite_body(tokens, pos + 1) {
            Ok((cs, j)) => {
                proof {
                    crate::ast::lemma_node_views_deep(&cs);
                }
                Ok((Node::Selector(cs), j))
            }
            Err(m) => Err(m),
        },
        Token::Priority => match parse_composite_body(tokens, pos + 1) {
            Ok((cs, j)) => {
                proof {
                    crate::ast::lemma_node_views_deep(&cs);
                }
                Ok((Node::Priority(cs), j))
            }
            Err(m) => Err(m),
        },
        Token::Inverter => {
            let brace = pos + 1 < tokens.len() && matches!(&tokens[pos + 1], Token::LeftBracket);
            if !brace {
                return Err(err_at(tokens, pos + 1, "'{' after inverter"));
            }
            match parse_node(tokens, pos + 2) {
                Ok((child, j)) => {
                    if j < tokens.len() && matches!(&tokens[j], Token::RightBracket) {
                        Ok((Node::Inverter(Box::new(child)), j + 1))
                    } else {
                        Err(err_at(tokens, j, "'}' after the inverter child"))
                    }
                }
                Err(m) => Err(m),
            }
        },
        Token::Ident(name) => {
            let name = name.clone();
            let paren = pos + 1 < tokens.len() && matches!(
                &tokens[pos + 1],
                Token::LeftParenthesis,
            );
            if paren {
                match parse_value(tokens, pos + 2) {
                    Ok((v, j)) => {
                        if j < tokens.len() && matches!(&tokens[j], Token::RightParenthesis) {
                            Ok((Node::Leaf(name, Some(v)), j + 1))
                        } else {
                            Err(err_at(tokens, j, "')' after the leaf value"))
                        }
                    }
                    Err(m) => Err(m),
                }
            } else {
                Ok((Node::Leaf(name, None), pos + 1))
            }
        },
        _ => Err(err_at(tokens, pos, "a node")),
    }
}

/// Prepends already-parsed nodes to the outcome of parsing the rest of
/// a child list.
pub open spec fn prepend_nodes(acc: Seq<NodeV>, r: PRes<Seq<NodeV>>) -> PRes<Seq<NodeV>> {
    match r {
        PRes::Good(cs, j) => PRes::Good(acc + cs, j),
        bad => bad,
    }
}

/// Parses `{` children `}` starting at the expected `{`.
fn parse_composite_body(tokens: &Vec<Token>, pos: usize) -> (r: Result<(Vec<Node>, usize), String>)
    requires
        pos <= tokens.deep_view().len(),
    ensures
        ({
            let ts = tokens.deep_view();
            match spec_parse_composite_body(ts, pos as int) {
                PRes::Good(cs, j) => r matches Ok(p) && p.0.deep_view() == cs && p.1 == j
                    && pos < p.1 <= ts.len(),
                PRes::Bad(e) => r matches Err(m) && m@ == parse_err_msg(e),
            }
        }),
    decreases tokens.deep_view().len() - pos, 0int,
{
    let ghost ts = tokens.deep_view();
    proof {
        lemma_parse_composite_body_adv(ts, pos as int);
    }
    let brace = pos < tokens.len() && matches!(&tokens[pos], Token::LeftBracket);
    if !brace {
        return Err(err_at(tokens, pos, "'{' after the composite keyword"));
    }
    match parse_children(tokens, pos + 1) {
        Ok((cs, j)) => {
            if j < tokens.len() && matches!(&tokens[j], Token::RightBracket) {
                Ok((cs, j + 1))
            } else {
                Err(err_at(tokens, j, "'}' after the children"))
            }
        }
        Err(m) => Err(m),
    }
}

/// Parses one or more comma-separated children.
fn parse_children(tokens: &Vec<Token>, pos: usize) -> (r: Result<(Vec<Node>, usize), String>)
    requires
        pos <= tokens.deep_view().len(),
    ensures
        ({
            let ts = tokens.deep_view();
            match spec_parse_children(ts, pos as int) {
                PRes::Good(cs, j) => r matches Ok(p) && p.0.deep_view() == cs && p.1 == j
                    && pos < p.1 <= ts.len(),
                PRes::Bad(e) => r matches Err(m) && m@ == parse_err_msg(e),
            }
        }),
    decreases tokens.deep_view().len() - pos, 2int,
{
    let ghost ts = tokens.deep_view();
    let mut out: Vec<Node> = Vec::new();
    let mut p = pos;
    proof {
        lemma_parse_children_adv(ts, pos as int);
        match spec_parse_children(ts, pos as int) {
            PRes::Good(cs, j) => {
                assert(out.deep_view() + cs =~= cs);
            }
            PRes::Bad(_) => {}
        }
    }
    loop
        invariant
            ts == tokens.deep_view(),
            pos <= p <= ts.len(),
            prepend_nodes(out.deep_view(), spec_parse_children(ts, p as int))
                == spec_parse_children(ts, pos as int),
            spec_parse_children(ts, pos as int) matches PRes::Good(cs, j)
                ==> pos < j <= ts.len(),
        decreases ts.len() - p,
    {
        let ghost p0 = p as int;
        proof {
            lemma_parse_node_adv(ts, p0);
        }
        match parse_node(tokens, p) {
            Err(m) => {
                return Err(m);
            }
            Ok((n, j)) => {
                let ghost nv = n@;
                let ghost prev = out.deep_view();
                out.push(n);
                proof {
                    assert(out.deep_view() =~= prev.push(nv));
                }
                let comma = j < tokens.len() && matches!(&tokens[j], Token::Comma);
                if comma {
                    let closing = j + 1 < tokens.len() && matches!(
                        &tokens[j + 1],
                        Token::RightBracket,
                    );
                    if closing {
                        proof {
                            assert(spec_parse_children(ts, p0)
                                == PRes::Good(seq![nv], j + 1 as int));
                            assert(prev + seq![nv] =~= out.deep_view());
                        }
                        return Ok((out, j + 1));
                    }
                    let ghost pn = j + 1 as int;
                    proof {
                        match spec_parse_children(ts, pn) {
                            PRes::Good(rest, k) => {
                                assert(spec_parse_children(ts, p0)
                                    == PRes::Good(seq![nv] + rest, k));
                                assert(prev + (seq![nv] + rest) =~= out.deep_view() + rest);
                            }
                            PRes::Bad(_) => {
                                assert(spec_parse_children(ts, p0)
                                    == spec_parse_children(ts, pn));
                            }
                        }
                    }
                    p = j + 1;
                } else {
                    proof {
                        assert(spec_parse_children(ts, p0) == PRes::Good(seq![nv], j as int));
                        assert(prev + seq![nv] =~= out.deep_view());
                    }
                    return Ok((out, j));
                }
            }
        }
    }
}

/// Parses the value starting at `pos`.
pub fn parse_value(tokens: &Vec<Token>, pos: usize) -> (r: Result<(Value, usize), String>)
    requires
        pos <= tokens.deep_view().len(),
    ensures
        ({
            let ts = tokens.deep_view();
            match spec_parse_value(ts, pos as int) {
                PRes::Good(v, j) => r matches Ok(p) && p.0@ == v && p.1 == j
                    && pos < p.1 <= ts.len(),
                PRes::Bad(e) => r matches Err(m) && m@ == parse_err_msg(e),
            }
        }),
    decreases tokens.deep_view().len() - pos, 0int,
{
    let ghost ts = tokens.deep_view();
    proof {
        lemma_parse_value_adv(ts, pos as int);
    }
    if pos >= tokens.len() {
        return Err(err_at(tokens, pos, "a value"));
    }
    match &tokens[pos] {
        Token::QuotedString(text) => Ok((Value::String(text.clone()), pos + 1)),
        Token::Integer(n) => Ok((Value::Integer(*n), pos + 1)),
        Token::Plus => Ok((Value::Operator(Operator::Plus), pos + 1)),
        Token::Minus => Ok((Value::Operator(Operator::Minus), pos + 1)),
        Token::Multiply => Ok((Value::Operator(Operator::Multiply), pos + 1)),
        Token::Divide => Ok((Value::Operator(Operator::Divide), pos + 1)),
        Token::LeftBracket => match parse_dict_entries(tokens, pos + 1) {
            Ok((entries, j)) => {
                if j < tokens.len() && matches!(&tokens[j], Token::RightBracket) {
                    Ok((Value::Dict(entries), j + 1))
                } else {
                    Err(err_at(tokens, j, "'}' after the map entries"))
                }
            }
            Err(m) => Err(m),
        },
        Token::LeftArray => match parse_array_elems(tokens, pos + 1) {
            Ok((items, j)) => {
                proof {
                    crate::value::lemma_value_views_deep(&items);
                }
                if j < tokens.len() && matches!(&tokens[j], Token::RightArray) {
                    Ok((Value::Array(items), j + 1))
                } else {
                    Err(err_at(tokens, j, "']' after the array elements"))
                }
            }
            Err(m) => Err(m),
        },
        _ => Err(err_at(tokens, pos, "a value")),
    }
}

/// Prepends already-parsed map entries to the outcome of parsing the
/// rest of an entry list.
pub open spec fn prepend_entries(
    acc: Seq<(Seq<char>, ValueV)>,
    r: PRes<Seq<(Seq<char>, ValueV)>>,
) -> PRes<Seq<(Seq<char>, ValueV)>> {
    match r {
        PRes::Good(es, j) => PRes::Good(acc + es, j),
        bad => bad,
    }
}

/// Parses one or more `IDENT : value` map entries.
fn parse_dict_entries(tokens: &Vec<Token>, pos: usize) -> (r: Result<
    (Vec<(String, Value)>, usize),
    String,
>)
    requires
        pos <= tokens.deep_view().len(),
    ensures
        ({
            let ts = tokens.deep_view();
            match spec_parse_dict_entries(ts, pos as int) {
                PRes::Good(es, j) => r matches Ok(p) && crate::value::entry_views(p.0@) == es
                    && p.1 == j && pos < p.1 <= ts.len(),
                PRes::Bad(e) => r matches Err(m) && m@ == parse_err_msg(e),
            }
        }),
    decreases tokens.deep_view().len() - pos, 0int,
{
    let ghost ts = tokens.deep_view();
    let mut out: Vec<(String, Value)> = Vec::new();
    let mut p = pos;
    proof {
        lemma_parse_dict_entries_adv(ts, pos as int);
        match spec_parse_dict_entries(ts, pos as int) {
            PRes::Good(es, j) => {
                assert(crate::value::entry_views(out@) + es =~= es);
            }
            PRes::Bad(_) => {}
        }
        assert(crate::value::entry_views(out@) =~= Seq::<(Seq<char>, ValueV)>::empty());
    }
    loop
        invariant
            ts == tokens.deep_view(),
            pos <= p <= ts.len(),
            prepend_entries(crate::value::entry_views(out@), spec_parse_dict_entries(ts, p as int))
                == spec_parse_dict_entries(ts, pos as int),
            spec_parse_dict_entries(ts, pos as int) matches PRes::Good(es, j)
                ==> pos < j <= ts.len(),
        decreases ts.len() - p,
    {
        let ghost p0 = p as int;
        proof {
            lemma_parse_dict_entries_adv(ts, p0);
        }
        let key_ok = p < tokens.len() && matches!(&tokens[p], Token::Ident(_));
        if !key_ok {
            return Err(err_at(tokens, p, "a map key"));
        }
        let colon_ok = p + 1 < tokens.len() && matches!(&tokens[p + 1], Token::Colon);
        if !colon_ok {
            return Err(err_at(tokens, p + 1, "':' after the map key"));
        }
        let key = match &tokens[p] {
            Token::Ident(k) => k.clone(),
            _ => {
                proof {
                    assert(false);
                }
                String::new()
            }
        };
        proof {
            lemma_parse_value_adv(ts, p0 + 2);
        }
        match parse_value(tokens, p + 2) {
            Err(m) => {
                return Err(m);
            }
            Ok((v, j)) => {
                let ghost kv = (key@, v@);
                let ghost prev = crate::value::entry_views(out@);
                let ghost prev_vec = out@;
                out.push((key, v));
                proof {
                    crate::value::lemma_entry_views(prev_vec);
                    crate::value::lemma_entry_views(out@);
                    assert(out@.len() == prev_vec.len() + 1);
                    assert(forall|q: int| 0 <= q < prev_vec.len() ==> out@[q] == prev_vec[q]);
                    assert(crate::value::entry_views(out@) =~= prev.push(kv));
                }
                let comma = j < tokens.len() && matches!(&tokens[j], Token::Comma);
                if comma {
                    let closing = j + 1 < tokens.len() && matches!(
                        &tokens[j + 1],
                        Token::RightBracket,
                    );
                    if closing {
                        proof {
                            assert(spec_parse_dict_entries(ts, p0)
                                == PRes::Good(seq![kv], j + 1 as int));
                            assert(prev + seq![kv] =~= crate::value::entry_views(out@));
                        }
                        return Ok((out, j + 1));
                    }
                    let ghost pn = j + 1 as int;
                    proof {
                        match spec_parse_dict_entries(ts, pn) {
                            PRes::Good(rest, k) => {
                                assert(spec_parse_dict_entries(ts, p0)
                                    == PRes::Good(seq![kv] + rest, k));
                                assert(prev + (seq![kv] + rest)
                                    =~= crate::value::entry_views(out@) + rest);
                            }
                            PRes::Bad(_) => {
                                assert(spec_parse_dict_entries(ts, p0)
                                    == spec_parse_dict_entries(ts, pn));
                            }
                        }
                    }
                    p = j + 1;
                } else {
                    proof {
                        assert(spec_parse_dict_entries(ts, p0)
                            == PRes::Good(seq![kv], j as int));
                        assert(prev + seq![kv] =~= crate::value::entry_views(out@));
                    }
                    return Ok((out, j));
                }
            }
        }
    }
}

/// Prepends already-parsed array elements to the outcome of parsing
/// the rest of an element list.
pub open spec fn prepend_values(acc: Seq<ValueV>, r: PRes<Seq<ValueV>>) -> PRes<Seq<ValueV>> {
    match r {
        PRes::Good(vs, j) => PRes::Good(acc + vs, j),
        bad => bad,
    }
}

/// Parses one array element.
fn parse_array_elem(tokens: &Vec<Token>, pos: usize) -> (r: Result<(Value, usize), String>)
    requires
        pos <= tokens.deep_view().len(),
    ensures
        ({
            let ts = tokens.deep_view();
            match spec_parse_array_elem(ts, pos as int) {
                PRes::Good(v, j) => r matches Ok(p) && p.0@ == v && p.1 == j
                    && pos < p.1 <= ts.len(),
                PRes::Bad(e) => r matches Err(m) && m@ == parse_err_msg(e),
            }
        }),
    decreases tokens.deep_view().len() - pos, 1int,
{
    let ghost ts = tokens.deep_view();
    proof {
        lemma_parse_array_elem_adv(ts, pos as int);
    }
    if pos >= tokens.len() {
        return Err(err_at(tokens, pos, "an array element"));
    }
    match &tokens[pos] {
        Token::Colon => Ok((Value::Unknown(':'), pos + 1)),
        Token::LeftParenthesis => Ok((Value::Unknown('('), pos + 1)),
        Token::RightParenthesis => Ok((Value::Unknown(')'), pos + 1)),
        _ => parse_value(tokens, pos),
    }
}

/// Parses one or more comma-separated array elements.
fn parse_array_elems(tokens: &Vec<Token>, pos: usize) -> (r: Result<(Vec<Value>, usize), String>)
    requires
        pos <= tokens.deep_view().len(),
    ensures
        ({
            let ts = tokens.deep_view();
            match spec_parse_array_elems(ts, pos as int) {
                PRes::Good(vs, j) => r matches Ok(p) && p.0.deep_view() == vs && p.1 == j
                    && pos < p.1 <= ts.len(),
                PRes::Bad(e) => r matches Err(m) && m@ == parse_err_msg(e),
            }
        }),
    decreases tokens.deep_view().len() - pos, 2int,
{
    let ghost ts = tokens.deep_view();
    let mut out: Vec<Value> = Vec::new();
    let mut p = pos;
    proof {
        lemma_parse_array_elems_adv(ts, pos as int);
        match spec_parse_array_elems(ts, pos as int) {
            PRes::Good(vs, j) => {
                assert(out.deep_view() + vs =~= vs);
            }
            PRes::Bad(_) => {}
        }
    }
    loop
        invariant
            ts == tokens.deep_view(),
            pos <= p <= ts.len(),
            prepend_values(out.deep_view(), spec_parse_array_elems(ts, p as int))
                == spec_parse_array_elems(ts, pos as int),
            spec_parse_array_elems(ts, pos as int) matches PRes::Good(vs, j)
                ==> pos < j <= ts.len(),
        decreases ts.len() - p,
    {
        let ghost p0 = p as int;
        proof {
            lemma_parse_array_elem_adv(ts, p0);
        }
        match parse_array_elem(tokens, p) {
            Err(m) => {
                return Err(m);
            }
            Ok((v, j)) => {
                let ghost vv = v@;
                let ghost prev = out.deep_view();
                out.push(v);
                proof {
                    assert(out.deep_view() =~= prev.push(vv));
                }
                let comma = j < tokens.len() && matches!(&tokens[j], Token::Comma);
                if comma {
                    let closing = j + 1 < tokens.len() && matches!(
                        &tokens[j + 1],
                        Token::RightArray,
                    );
                    if closing {
                        proof {
                            assert(spec_parse_array_elems(ts, p0)
                                == PRes::Good(seq![vv], j + 1 as int));
                            assert(prev + seq![vv] =~= out.deep_view());
                        }
                        return Ok((out, j + 1));
                    }
                    let ghost pn = j + 1 as int;
                    proof {
                        match spec_parse_array_elems(ts, pn) {
                            PRes::Good(rest, k) => {
                                assert(spec_parse_array_elems(ts, p0)
                                    == PRes::Good(seq![vv] + rest, k));
                                assert(prev + (seq![vv] + rest) =~= out.deep_view() + rest);
                            }
                            PRes::Bad(_) => {
                                assert(spec_parse_array_elems(ts, p0)
                                    == spec_parse_array_elems(ts, pn));
                            }
                        }
                    }
                    p = j + 1;
                } else {
                    proof {
                        assert(spec_parse_array_elems(ts, p0) == PRes::Good(seq![vv], j as int));
                        assert(prev + seq![vv] =~= out.deep_view());
                    }
                    return Ok((out, j));
                }
            }
        }
    }
}

/// Parses one tree definition: `tree IDENT { node }`.
pub fn parse_tree(tokens: &Vec<Token>, pos: usize) -> (r: Result<(Tree, usize), String>)
    requires
        pos <= tokens.deep_view().len(),
    ensures
        ({
            let ts = tokens.deep_view();
            match spec_parse_tree(ts, pos as int) {
                PRes::Good(t, j) => r matches Ok(p) && p.0@ == t && p.1 == j
                    && pos < p.1 <= ts.len(),
                PRes::Bad(e) => r matches Err(m) && m@ == parse_err_msg(e),
            }
        }),
{
    let ghost ts = tokens.deep_view();
    proof {
        lemma_parse_tree_adv(ts, pos as int);
    }
    let root_ok = pos < tokens.len() && matches!(&tokens[pos], Token::Root);
    if !root_ok {
        return Err(err_at(tokens, pos, "'tree'"));
    }
    let name_ok = pos + 1 < tokens.len() && matches!(&tokens[pos + 1], Token::Ident(_));
    if !name_ok {
        return Err(err_at(tokens, pos + 1, "the tree name"));
    }
    let brace_ok = pos + 2 < tokens.len() && matches!(&tokens[pos + 2], Token::LeftBracket);
    if !brace_ok {
        return Err(err_at(tokens, pos + 2, "'{' after the tree name"));
    }
    let name = match &tokens[pos + 1] {
        Token::Ident(n) => n.clone(),
        _ => {
            proof {
                assert(false);
            }
            String::new()
        }
    };
    proof {
        lemma_parse_node_adv(ts, pos as int + 3);
    }
    match parse_node(tokens, pos + 3) {
        Ok((root, j)) => {
            if j < tokens.len() && matches!(&tokens[j], Token::RightBracket) {
                Ok((Tree { name, root }, j + 1))
            } else {
                Err(err_at(tokens, j, "'}' after the tree root"))
            }
        }
        Err(m) => Err(m),
    }
}

/// Prepends already-parsed trees to the outcome of parsing the rest of
/// a collection.
pub open spec fn prepend_trees(acc: Seq<TreeV>, r: PRes<Seq<TreeV>>) -> PRes<Seq<TreeV>> {
    match r {
        PRes::Good(trs, j) => PRes::Good(acc + trs, j),
        bad => bad,
    }
}

/// Parses a whole token stream as a collection of tree definitions.
pub fn parse_collection(tokens: &Vec<Token>) -> (r: Result<Vec<Tree>, String>)
    ensures
        ({
            let ts = tokens.deep_view();
            match spec_parse_collection(ts, 0) {
                PRes::Good(trs, _) => r matches Ok(v) && v.deep_view() == trs,
                PRes::Bad(e) => r matches Err(m) && m@ == parse_err_msg(e),
            }
        }),
{
    let ghost ts = tokens.deep_view();
    let mut out: Vec<Tree> = Vec::new();
    let mut p: usize = 0;
    proof {
        match spec_parse_collection(ts, 0) {
            PRes::Good(trs, j) => {
                assert(out.deep_view() + trs =~= trs);
            }
            PRes::Bad(_) => {}
        }
    }
    loop
        invariant
            ts == tokens.deep_view(),
            0 <= p <= ts.len(),
            prepend_trees(out.deep_view(), spec_parse_collection(ts, p as int))
                == spec_parse_collection(ts, 0),
        decreases ts.len() - p,
    {
        let ghost p0 = p as int;
        if p >= tokens.len() {
            proof {
                assert(spec_parse_collection(ts, p0)
                    == PRes::Good(Seq::<TreeV>::empty(), p0));
                assert(out.deep_view() + Seq::<TreeV>::empty() =~= out.deep_view());
            }
            return Ok(out);
        }
        proof {
            lemma_parse_tree_adv(ts, p0);
        }
        match parse_tree(tokens, p) {
            Err(m) => {
                return Err(m);
            }
            Ok((t, j)) => {
                let ghost tv = t@;
                let ghost prev = out.deep_view();
                out.push(t);
                proof {
                    assert(out.deep_view() =~= prev.push(tv));
                    match spec_parse_collection(ts, j as int) {
                        PRes::Good(rest, k) => {
                            assert(spec_parse_collection(ts, p0)
                                == PRes::Good(seq![tv] + rest, k));
                            assert(prev + (seq![tv] + rest) =~= out.deep_view() + rest);
                        }
                        PRes::Bad(_) => {
                            assert(spec_parse_collection(ts, p0)
                                == spec_parse_collection(ts, j as int));
                        }
                    }
                }
                p = j;
            }
        }
    }
}

} // verus!
