//! Source-preserving structural rewriting.
//!
//! Given a parsed syntax tree whose spans point into its source text and a
//! transformed tree derived from it, this library computes the text edits
//! that turn that source into source of the transformed tree, keeping the
//! old text wherever a subtree is unchanged.

pub mod align;
pub mod edit;
pub mod header;
pub mod idempotence;
pub mod insertion;
pub mod kept;
pub mod model;
pub mod nesting;
pub mod node;
pub mod opacity;
pub mod overlap;
pub mod prec;
pub mod rewrite;
pub mod span;
pub mod splice;
pub mod table;
