//! A lossless syntax toolkit.
//!
//! Source text becomes a tree that keeps every byte of it, comments and
//! white space included, whether or not the text is valid. Rules look at
//! the tree and at what it binds and refers to, report what they find,
//! and propose fixes as batches of structural edits that turn the tree
//! into a new one.
//!
//! - [`kind`]: the categories of tokens, trivia and nodes.
//! - [`tree`]: the mathematical model of a tree, its text and its paths.
//! - [`syntax`]: the tree itself, immutable and shared.
//! - [`lexer`]: bytes to tokens, each with the trivia around it.
//! - [`diagnostic`]: what is reported, as plain data.
//! - [`parser`]: the token cursor and the marker-based tree builder.
//! - [`recovery`]: what a construct does when a part of it is missing.
//! - [`css`], [`js`]: the two grammars.
//! - [`traverse`]: walking a tree in source order.
//! - [`ast`]: reading a script tree by the shape of its nodes.
//! - [`semantic`]: bindings, scopes and references.
//! - [`mutation`]: batches of edits, applied as a whole.
//! - [`analyzer`]: the rule engine.
//! - [`no_for_each`], [`no_shouty_constants`]: two rules.
//! - [`format`]: rendering a tree back to text.

pub mod kind;
pub mod tree;
pub mod syntax;
pub mod lexer;
pub mod diagnostic;
pub mod parser;
pub mod recovery;
pub mod css;
pub mod js;
pub mod traverse;
pub mod ast;
pub mod semantic;
pub mod mutation;
pub mod analyzer;
pub mod no_for_each;
pub mod no_shouty_constants;
pub mod format;
