//! A small S-expression interpreter: a recursive-descent parser that
//! builds an abstract syntax tree, a tree-walking evaluator with an
//! explicit variable store, and the persistent list both stand on.
//!
//! The grammar and the evaluation rules are written down as spec
//! functions (`expression::spec_parse`, `eval::seval`), and the
//! executable parser and evaluator are proved to follow them.
//!
//! `lisp` and `ltypes` keep two earlier shapes of the same data model
//! alive: a boxed list with a space-only parser, and a single value
//! type with its own reference-counted list.

pub mod eval;
pub mod expression;
pub mod lisp;
pub mod ltypes;
pub mod types;
pub mod util;
