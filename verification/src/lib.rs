//! Structural addressing for HL7v2 messages.
//!
//! A message is held as a concrete syntax tree together with the text it was
//! parsed from. The crate answers two questions about such a pair: which
//! segment, field, component and subcomponent a cursor position lies in, and
//! where the field boundaries of the whole message are, so that an editor
//! can number them inline.
//!
//! - [`tree`] and [`builder`]: the tree as an arena of nodes, and what makes
//!   it well formed.
//! - [`grammar`]: parsing a text with tree-sitter and reading the result;
//!   [`levels`] holds the proof that what is read stands for what was parsed.
//! - [`locate`]: the smallest node under a position.
//! - [`address`]: the structural address of a node.
//! - [`labels`]: the labels of the field boundaries.
//! - [`store`]: the open document and the two queries on it.

pub mod address;
pub mod builder;
pub mod grammar;
pub mod labels;
pub mod levels;
pub mod locate;
pub mod point;
pub mod store;
pub mod text;
pub mod tree;
