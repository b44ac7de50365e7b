//! The front end: tokenizer, grammar, resolution and the printer.

use behaviour_tree::ast::{Node, Tree};
use behaviour_tree::grammar::parse_collection;
use behaviour_tree::lexer::{tokenize, Token, Tokenizer};
use behaviour_tree::parse;
use behaviour_tree::printer::print_collection_tokens;
use behaviour_tree::render::{print, render};
use behaviour_tree::standard::{Context, LeafConstructor, LeavesCollection};
use behaviour_tree::value::Value;
use behaviour_tree::factory::{NodeFactory, TreeFactory};

const TREE: &'static str = r#"
tree test {
    print_text("Hello World")
}
"#;

#[test]
fn test() {
    let leaves = LeavesCollection::standard();
    let parsed_trees = parse(TREE, &leaves).unwrap();
    for tree in parsed_trees.iter() {
        assert_eq!(tree.get_name(), "test");
        let mut instance = tree.instanciate();
        let mut context = Context::new();
        instance.visit(&mut context).unwrap();
        assert_eq!(context.get_log()[0], "Hello World");
    }
}

#[test]
fn tokenizer_reads_each_token_kind() {
    let mut tok = Tokenizer::new(r#"tree wander { leaf(-2) }"#);
    assert!(matches!(tok.next(), Some(Ok(Token::Root))));
    match tok.next() {
        Some(Ok(Token::Ident(name))) => assert_eq!(name, "wander"),
        other => panic!("expected an identifier, got {:?}", other),
    }
    assert!(matches!(tok.next(), Some(Ok(Token::LeftBracket))));
    assert!(matches!(tok.next(), Some(Ok(Token::Ident(_)))));
    assert!(matches!(tok.next(), Some(Ok(Token::LeftParenthesis))));
    assert!(matches!(tok.next(), Some(Ok(Token::Integer(-2)))));
    assert!(matches!(tok.next(), Some(Ok(Token::RightParenthesis))));
    assert!(matches!(tok.next(), Some(Ok(Token::RightBracket))));
    assert!(tok.next().is_none());
}

#[test]
fn minus_before_a_digit_is_a_negative_integer() {
    let tokens = tokenize("[1,-2,+]").unwrap();
    assert_eq!(tokens.len(), 7);
    assert!(matches!(tokens[1], Token::Integer(1)));
    assert!(matches!(tokens[3], Token::Integer(-2)));
    assert!(matches!(tokens[5], Token::Plus));
}

#[test]
fn minus_alone_is_punctuation() {
    let tokens = tokenize("a - 1").unwrap();
    assert_eq!(tokens.len(), 3);
    assert!(matches!(tokens[1], Token::Minus));
}

#[test]
fn string_escapes_are_decoded() {
    let tokens = tokenize(r#""a\n\t\"\\z""#).unwrap();
    assert_eq!(tokens.len(), 1);
    match &tokens[0] {
        Token::QuotedString(s) => assert_eq!(s, "a\n\t\"\\z"),
        other => panic!("expected a quoted string, got {:?}", other),
    }
}

#[test]
fn unterminated_string_is_a_lexical_error() {
    let message = tokenize(r#"print_text("oops"#).unwrap_err();
    assert_eq!(message, "Lexer error: unfinished quoted string");
}

#[test]
fn unterminated_escape_is_a_lexical_error() {
    let message = tokenize("\"oops\\").unwrap_err();
    assert_eq!(
        message,
        "Lexer error: unfinished quoted string during escape sequence"
    );
}

#[test]
fn unrecognized_character_is_a_lexical_error() {
    let message = tokenize("tree t { a > b }").unwrap_err();
    assert_eq!(message, "Unrecognized character >");
}

#[test]
fn out_of_range_integer_is_a_lexical_error() {
    let message = tokenize("9223372036854775808").unwrap_err();
    assert_eq!(message, "Lexer error: integer literal out of range");
}

#[test]
fn largest_integer_still_lexes() {
    let tokens = tokenize("9223372036854775807 -9223372036854775807").unwrap();
    assert!(matches!(tokens[0], Token::Integer(9223372036854775807)));
    assert!(matches!(tokens[1], Token::Integer(-9223372036854775807)));
}

#[test]
fn missing_brace_is_a_parse_error() {
    let leaves = LeavesCollection::standard();
    let message = parse("tree t print_text", &leaves).unwrap_err();
    assert_eq!(
        message,
        "Parsing error: expected '{' after the tree name, found an identifier"
    );
}

#[test]
fn empty_input_parses_to_no_trees() {
    let leaves = LeavesCollection::standard();
    let trees = parse("   ", &leaves).unwrap();
    assert_eq!(trees.len(), 0);
}

#[test]
fn unknown_leaf_name_is_reported() {
    let leaves = LeavesCollection::standard();
    let message = parse("tree t { warp_drive }", &leaves).unwrap_err();
    assert_eq!(
        message,
        "Could not find leaf node warp_drive: Could not find leaf with name warp_drive"
    );
}

#[test]
fn print_text_rejects_a_missing_message() {
    let leaves = LeavesCollection::standard();
    let message = parse("tree t { print_text }", &leaves).unwrap_err();
    assert_eq!(
        message,
        "Could not find leaf node print_text: Expected message, found nothing"
    );
}

#[test]
fn evaluate_int_rejects_a_short_option_map() {
    let leaves = LeavesCollection::standard();
    let message = parse(
        r#"tree t { evaluate_int({expression:[1]}) }"#,
        &leaves,
    )
    .unwrap_err();
    assert_eq!(
        message,
        "Could not find leaf node evaluate_int: Expected options with 2 key / value pairs, found 1"
    );
}

#[test]
fn check_condition_rejects_a_missing_operator() {
    let leaves = LeavesCollection::standard();
    let message = parse(
        r#"tree t { check_condition({exp1:[1], exp2:[2]}) }"#,
        &leaves,
    )
    .unwrap_err();
    assert_eq!(
        message,
        "Could not find leaf node check_condition: Expected value for key operator"
    );
}

#[test]
fn print_text_replaces_underscores() {
    let leaves = LeavesCollection::standard();
    let trees = parse(r#"tree t { print_text("hello_there") }"#, &leaves).unwrap();
    let mut instance = trees[0].instanciate();
    let mut context = Context::new();
    instance.visit(&mut context).unwrap();
    assert_eq!(context.get_log()[0], "hello there");
}

#[test]
fn registered_leaves_can_be_overridden() {
    let mut leaves = LeavesCollection::standard();
    leaves.register_function("print_text".to_string(), LeafConstructor::AlwaysRunning);
    let trees = parse(r#"tree t { print_text("quiet") }"#, &leaves).unwrap();
    let mut instance = trees[0].instanciate();
    let mut context = Context::new();
    assert!(matches!(
        instance.visit(&mut context),
        Ok(behaviour_tree::tree::VisitResult::Running)
    ));
    assert_eq!(context.get_log().len(), 0);
}

#[test]
fn printed_tree_parses_back_to_the_same_shape() {
    let ast = Tree {
        name: "patrol".to_string(),
        root: Node::Sequence(vec![
            Node::Leaf(
                "step".to_string(),
                Some(Value::Dict(vec![
                    ("expression".to_string(), Value::Array(vec![
                        Value::Integer(1),
                        Value::Integer(2),
                        Value::Operator(behaviour_tree::value::Operator::Plus),
                    ])),
                    ("result".to_string(), Value::String("x".to_string())),
                ])),
            ),
            Node::Inverter(Box::new(Node::Leaf("halt".to_string(), None))),
        ]),
    };
    let tokens = print_collection_tokens(&vec![ast]);
    let parsed = parse_collection(&tokens).unwrap();
    assert_eq!(parsed.len(), 1);
    assert_eq!(parsed[0].name, "patrol");
    let children = match &parsed[0].root {
        Node::Sequence(children) => children,
        other => panic!("expected a sequence, got {:?}", other),
    };
    assert_eq!(children.len(), 2);
    match &children[0] {
        Node::Leaf(name, Some(Value::Dict(entries))) => {
            assert_eq!(name, "step");
            assert_eq!(entries.len(), 2);
            assert_eq!(entries[0].0, "expression");
            match &entries[0].1 {
                Value::Array(items) => assert_eq!(items.len(), 3),
                other => panic!("expected an array, got {:?}", other),
            }
            assert_eq!(entries[1].0, "result");
        }
        other => panic!("expected a leaf with a map, got {:?}", other),
    }
    match &children[1] {
        Node::Inverter(inner) => match &**inner {
            Node::Leaf(name, None) => assert_eq!(name, "halt"),
            other => panic!("expected a bare leaf, got {:?}", other),
        },
        other => panic!("expected an inverter, got {:?}", other),
    }
}

#[test]
fn trailing_commas_are_permitted() {
    let leaves = LeavesCollection::standard();
    let trees = parse(
        r#"tree t { sequence { print_text("a"), print_text("b"), } }"#,
        &leaves,
    )
    .unwrap();
    let mut instance = trees[0].instanciate();
    let mut context = Context::new();
    instance.visit(&mut context).unwrap();
    assert_eq!(context.get_log().len(), 2);
}

#[test]
fn two_trees_parse_in_order() {
    let leaves = LeavesCollection::standard();
    let trees = parse(
        r#"tree first { print_text("a") } tree second { always_running }"#,
        &leaves,
    )
    .unwrap();
    assert_eq!(trees.len(), 2);
    assert_eq!(trees[0].get_name(), "first");
    assert_eq!(trees[1].get_name(), "second");
}

#[test]
fn new_subtree_is_rejected_by_the_build() {
    let factory = TreeFactory::new(
        NodeFactory::new_subtree("elsewhere".to_string()),
        "t".to_string(),
    );
    assert!(factory.contains_subtree());
}

#[test]
fn printed_text_parses_back_through_the_whole_pipeline() {
    let ast = Tree {
        name: "greet".to_string(),
        root: Node::Selector(vec![
            Node::Leaf(
                "print_text".to_string(),
                Some(Value::String("say \"hi\"_now\\later".to_string())),
            ),
            Node::Leaf("always_running".to_string(), None),
        ]),
    };
    let text = print(&vec![ast]);
    let leaves = LeavesCollection::standard();
    let trees = parse(&text, &leaves).unwrap();
    assert_eq!(trees.len(), 1);
    assert_eq!(trees[0].get_name(), "greet");
    let mut instance = trees[0].instanciate();
    let mut context = Context::new();
    instance.visit(&mut context).unwrap();
    // The quoted string survived escaping, with `_` read as a space.
    assert_eq!(context.get_log()[0], "say \"hi\" now\\later");
}

#[test]
fn rendering_tokens_spells_them_out() {
    let tokens = tokenize(r#"tree t { leaf(-7) }"#).unwrap();
    let text = render(&tokens);
    assert_eq!(text, "tree t { leaf ( -7 ) } ");
}

#[test]
fn evaluate_int_counts_distinct_keys() {
    // A repeated key does not inflate the option count; the first entry
    // with a key decides its value.
    let leaves = LeavesCollection::standard();
    let trees = parse(
        r#"tree t { evaluate_int({expression:[1,2,+], expression:[9], result:"x"}) }"#,
        &leaves,
    )
    .unwrap();
    let mut instance = trees[0].instanciate();
    let mut context = Context::new();
    instance.visit(&mut context).unwrap();
    match context.get("x") {
        Some(behaviour_tree::standard::StoreKind::I64(v)) => assert_eq!(*v, 3),
        other => panic!("expected x = 3, got {:?}", other),
    }
}
