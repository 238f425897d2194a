//! Scope-aware name resolution for a lexically scoped language.
//!
//! Given the spans of the scope-introducing nodes of one syntax tree, a set
//! of definition candidates and a set of reference candidates, the crate
//! builds a tree of nested scopes, attaches each definition to the innermost
//! scope that contains it, resolves every reference to the nearest visible
//! definition of the same name, and classifies each candidate with a final
//! semantic tag. An oracle module compares the classified output against
//! caret-annotated expectations.

pub mod span;
pub mod kinds;
pub mod scope;
pub mod collect;
pub mod resolver;
pub mod classify;
pub mod laws;
pub mod oracle;
pub mod render;
