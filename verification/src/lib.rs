//! A library for defining, parsing and executing behaviour trees.
//!
//! A textual definition language describes one or more named trees built
//! from composite nodes (`sequence`, `selector`, `priority`, `inverter`)
//! and named leaf actions.  The library tokenizes and parses that text,
//! resolves each leaf name against a registry of leaf factories, builds a
//! reusable factory tree, and drives instantiated trees through repeated
//! "ticks" that return `Success`, `Failure` or `Running`.
//!
//! Two deliberate boundaries of this library:
//!
//! - The definition language is ASCII: identifiers start with an ASCII
//!   letter and continue with ASCII letters, digits or underscores, and
//!   whitespace is space, tab, carriage return or line feed.  Any other
//!   character outside a quoted string is a lexical error.  Quoted
//!   strings may carry arbitrary characters.  The character classes are
//!   spelled out in `chars`, so that every law about the tokenizer —
//!   the print/parse round trip above all — is decided by the verifier
//!   rather than assumed of a character table.
//! - The leaf behaviours are the closed standard set (`print_text`,
//!   `always_running`, `evaluate_int`, `check_condition`, `increment`),
//!   and the context is the concrete string-keyed store in `standard`.
//!   A registry can rebind names to any of the standard constructors,
//!   but not introduce new behaviours or a foreign context type.

pub mod chars;
pub mod lexer;
pub mod value;
pub mod ast;
pub mod grammar;
pub mod standard;
pub mod expressions;
pub mod conditions;
pub mod tree;
pub mod non_optimized;
pub mod laws;
pub mod factory;
pub mod parser;
pub mod optimized;
pub mod printer;
pub mod render;

pub use parser::parse;
pub use parser::FactoryProducer;
pub use optimized::OptimizedTree as BehaviourTree;
