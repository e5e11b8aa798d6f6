//! The object tree: the semantic core of a compiler front end for an
//! object-oriented scripting language with single inheritance, hierarchical
//! type paths and declaration merging.
//!
//! The tree is built incrementally from path fragments, then finalized once:
//! finalization resolves each type's semantic parent (hardcoded built-in
//! relationships, an explicit `parent_type` override, or the lexical parent)
//! and folds constant initializers.  Afterwards the navigation layer serves
//! child lookup, the three relative-path operators, ancestor walks, subtype
//! tests and inherited var/proc resolution.

pub mod ast;
pub mod diag;
pub mod edges;
pub mod laws;
pub mod nav;
pub mod objtree;
pub mod strutil;
pub mod table;
