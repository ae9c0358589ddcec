//! A rule-driven formatter that works on a lossless syntax tree.
//!
//! The tree keeps every token, whitespace included. Formatting rewrites only
//! the whitespace between tokens: a spacing pass decides the gap between each
//! pair of neighbouring tokens, an indent pass decides how far a token that
//! starts a line is pushed to the right, and the renderer writes the tokens
//! back out with the resolved gaps.

pub mod content;
pub mod dsl;
pub mod edit_tree;
pub mod engine;
pub mod error;
pub mod laws;
pub mod limit;
pub mod pattern;
pub mod render;
pub mod rerun;
pub mod syntax;
pub mod traversal;
pub mod whitespace;
