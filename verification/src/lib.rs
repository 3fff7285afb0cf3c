//! A parser that turns a stream of tokens into an object tree: types declared
//! as slash-separated paths, with their variables, procedures and initializer
//! expressions.
//!
//! The grammar is given twice. The modules `source`, `grammar` and
//! `tree_rules` give it as mathematical functions on the state of the
//! parser; the modules `parser`, `expression` and `tree` hold the parser
//! itself, each of whose rules is proved to do what its function says. The
//! modules `progress`, `theorems`, `precedence` and `constructions` prove
//! what follows from the functions for every input.

/// Source locations and the error type.
pub mod location;
/// The tokens that the parser consumes.
pub mod lexer;
/// The syntax tree of expressions.
pub mod ast;
/// The object tree.
pub mod objtree;
/// The table of operators.
pub mod ops;
/// The token source as a mathematical state.
pub mod source;
/// The stack of paths of the enclosing blocks.
pub mod path;
/// The parser and its elementary steps.
pub mod parser;
/// The grammar of expressions as functions.
pub mod grammar;
/// The rules of the expression grammar.
pub mod expression;
/// The grammar of declarations as functions.
pub mod tree_rules;
/// The rules of the declaration grammar.
pub mod tree;
/// What declarations of a given shape register.
pub mod theorems;
/// Every rule advances.
pub mod progress;
/// How operators of different strength are joined.
pub mod precedence;
/// What `new` expressions are made of.
pub mod constructions;
