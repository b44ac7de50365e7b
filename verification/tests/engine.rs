//! The tick engine: the composite semantics, the resumable state, and
//! the agreement between the recursive and the flattened runtimes.

use behaviour_tree::parse;
use behaviour_tree::standard::{Context, LeavesCollection, StoreKind};
use behaviour_tree::tree::VisitResult;

fn single_tree(text: &str) -> behaviour_tree::factory::TreeFactory {
    let leaves = LeavesCollection::standard();
    let mut trees = parse(text, &leaves).unwrap();
    assert_eq!(trees.len(), 1);
    trees.pop().unwrap()
}

#[test]
fn sequence_of_prints_succeeds_in_order() {
    let factory = single_tree(r#"tree t { sequence { print_text("a"), print_text("b") } }"#);
    let mut instance = factory.instanciate();
    let mut context = Context::new();
    assert_eq!(instance.visit(&mut context).unwrap(), VisitResult::Success);
    let log = context.get_log();
    assert_eq!(log.len(), 2);
    assert_eq!(log[0], "a");
    assert_eq!(log[1], "b");
}

#[test]
fn selector_stops_at_a_running_child() {
    let factory = single_tree(r#"tree t { selector { always_running, print_text("x") } }"#);
    let mut instance = factory.instanciate();
    let mut context = Context::new();
    assert_eq!(instance.visit(&mut context).unwrap(), VisitResult::Running);
    assert_eq!(context.get_log().len(), 0);
    assert_eq!(instance.visit(&mut context).unwrap(), VisitResult::Running);
    assert_eq!(context.get_log().len(), 0);
}

#[test]
fn sequence_memory_skips_succeeded_children() {
    let factory = single_tree(
        r#"tree t { sequence { print_text("first"), always_running, print_text("second") } }"#,
    );
    let mut instance = factory.instanciate();
    let mut context = Context::new();
    assert_eq!(instance.visit(&mut context).unwrap(), VisitResult::Running);
    assert_eq!(context.get_log().len(), 1);
    assert_eq!(context.get_log()[0], "first");
    assert_eq!(instance.visit(&mut context).unwrap(), VisitResult::Running);
    // "first" was not logged again: the sequence resumed at its second child.
    assert_eq!(context.get_log().len(), 1);
}

#[test]
fn inverter_passes_running_through() {
    let factory = single_tree(r#"tree t { inverter { always_running } }"#);
    let mut instance = factory.instanciate();
    let mut context = Context::new();
    assert_eq!(instance.visit(&mut context).unwrap(), VisitResult::Running);
}

#[test]
fn evaluate_then_check_condition() {
    let factory = single_tree(
        r#"tree t { sequence {
            evaluate_int({expression:[1,2,+], result:"x"}),
            check_condition({exp1:["x"], exp2:[3], operator:"="})
        } }"#,
    );
    let mut instance = factory.instanciate();
    let mut context = Context::new();
    assert_eq!(instance.visit(&mut context).unwrap(), VisitResult::Success);
    match context.get("x") {
        Some(StoreKind::I64(v)) => assert_eq!(*v, 3),
        other => panic!("expected x = 3, got {:?}", other),
    }
}

#[test]
fn priority_stops_at_a_running_first_child() {
    let factory = single_tree(
        r#"tree t { priority { inverter { always_running }, print_text("unreachable") } }"#,
    );
    let mut instance = factory.instanciate();
    let mut context = Context::new();
    assert_eq!(instance.visit(&mut context).unwrap(), VisitResult::Running);
    assert_eq!(context.get_log().len(), 0);
}

#[test]
fn priority_restarts_from_the_first_child() {
    // Unlike a sequence, a priority re-ticks every child each tick.
    let factory = single_tree(
        r#"tree t { priority { print_text("again"), always_running } }"#,
    );
    let mut instance = factory.instanciate();
    let mut context = Context::new();
    assert_eq!(instance.visit(&mut context).unwrap(), VisitResult::Running);
    assert_eq!(instance.visit(&mut context).unwrap(), VisitResult::Running);
    let log = context.get_log();
    assert_eq!(log.len(), 2);
    assert_eq!(log[0], "again");
    assert_eq!(log[1], "again");
}

#[test]
fn selector_returns_success_of_a_succeeding_child() {
    let factory = single_tree(r#"tree t { selector { print_text("hit"), always_running } }"#);
    let mut instance = factory.instanciate();
    let mut context = Context::new();
    assert_eq!(instance.visit(&mut context).unwrap(), VisitResult::Success);
    assert_eq!(context.get_log().len(), 1);
}

#[test]
fn inverter_fails_a_succeeding_child() {
    let factory = single_tree(r#"tree t { inverter { print_text("inner") } }"#);
    let mut instance = factory.instanciate();
    let mut context = Context::new();
    assert_eq!(instance.visit(&mut context).unwrap(), VisitResult::Failure);
}

#[test]
fn increment_creates_and_adds() {
    let factory = single_tree(r#"tree t { increment({score: 5}) }"#);
    let mut instance = factory.instanciate();
    let mut context = Context::new();
    assert_eq!(instance.visit(&mut context).unwrap(), VisitResult::Success);
    assert_eq!(instance.visit(&mut context).unwrap(), VisitResult::Success);
    match context.get("score") {
        Some(StoreKind::I64(v)) => assert_eq!(*v, 10),
        other => panic!("expected score = 10, got {:?}", other),
    }
}

#[test]
fn increment_fails_on_a_variable_of_the_wrong_kind() {
    let factory = single_tree(r#"tree t { increment({score: 5}) }"#);
    let mut instance = factory.instanciate();
    let mut context = Context::new();
    context.insert_value("score".to_string(), StoreKind::String("high".to_string()));
    assert_eq!(instance.visit(&mut context).unwrap(), VisitResult::Failure);
}

#[test]
fn expression_error_aborts_the_tick() {
    let factory = single_tree(
        r#"tree t { sequence { evaluate_int({expression:[1,0,/], result:"x"}), print_text("after") } }"#,
    );
    let mut instance = factory.instanciate();
    let mut context = Context::new();
    let result = instance.visit(&mut context);
    assert!(result.is_err());
    assert_eq!(
        result.unwrap_err().message(),
        "Expression error: division by zero"
    );
    assert_eq!(context.get_log().len(), 0);
}

#[test]
fn optimized_tree_matches_the_recursive_instance() {
    let text = r#"tree t { sequence {
        print_text("one"),
        selector { inverter { print_text("two") }, always_running },
        print_text("three")
    } }"#;
    let factory = single_tree(text);
    let mut recursive = factory.instanciate();
    let mut flat = factory.optimize().unwrap();
    let mut ctx_recursive = Context::new();
    let mut ctx_flat = Context::new();
    for _ in 0..3 {
        let a = recursive.visit(&mut ctx_recursive).unwrap();
        let b = flat.visit(&mut ctx_flat).unwrap();
        assert_eq!(a, b);
    }
    assert_eq!(ctx_recursive.get_log().len(), ctx_flat.get_log().len());
    for (a, b) in ctx_recursive
        .get_log()
        .iter()
        .zip(ctx_flat.get_log().iter())
    {
        assert_eq!(a, b);
    }
}

#[test]
fn optimized_sequence_remembers_its_running_child() {
    let factory = single_tree(
        r#"tree t { sequence { print_text("first"), always_running, print_text("second") } }"#,
    );
    let mut instance = factory.optimize().unwrap();
    let mut context = Context::new();
    assert_eq!(instance.visit(&mut context).unwrap(), VisitResult::Running);
    assert_eq!(instance.visit(&mut context).unwrap(), VisitResult::Running);
    assert_eq!(context.get_log().len(), 1);
    assert_eq!(context.get_log()[0], "first");
}

#[test]
fn evaluate_int_warns_when_replacing_a_variable() {
    let factory = single_tree(r#"tree t { evaluate_int({expression:[1,2,+], result:"x"}) }"#);
    let mut instance = factory.instanciate();
    let mut context = Context::new();
    assert_eq!(instance.visit(&mut context).unwrap(), VisitResult::Success);
    assert_eq!(context.get_log().len(), 0);
    assert_eq!(instance.visit(&mut context).unwrap(), VisitResult::Success);
    assert_eq!(context.get_log().len(), 1);
    assert_eq!(context.get_log()[0], "WARNING: replaced variable x");
}
