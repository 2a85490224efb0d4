//! A tree pattern-matching and substitution engine.
//!
//! Patterns and targets are kind-tagged syntax fragments. A pattern may hold
//! metavariables that capture whole subtrees; matching accumulates a consistent
//! set of bindings, and substitution instantiates a template from them.
pub mod tree;
pub mod semantic;
pub mod bindings;
pub mod matcher;
pub mod subst;
pub mod driver;
pub mod stmts;
pub mod api;
pub mod laws;
