//! Expression front-end and dual-path evaluator for an interactive
//! rule-engine shell: a small query language (value accesses, function
//! calls, string-match predicates), a path-addressable cache over an
//! imported module object graph, a rule-source rewriter that replaces a
//! single rule's condition, and the orchestrator that ties them together.
//!
//! The pattern-matching engine itself (compiling rule sources, scanning
//! input bytes, filling in match records) is an external collaborator:
//! this crate models its object graphs, compiled rules and scan reports
//! as plain data and verifies every decision taken over them.

pub mod context;
pub mod error;
pub mod graph;
pub mod module;
pub mod parser;
pub mod rewrite;
pub mod text;
pub mod value;
