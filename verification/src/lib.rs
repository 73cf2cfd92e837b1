//! Front-end core of a compiler for a small C-like language.
//!
//! The library turns an externally produced token stream into a single
//! "sea of nodes" intermediate representation: one flat graph in which both
//! control flow and data flow are edges, with constant folding performed
//! locally ("peephole") at the moment each arithmetic node is created.
//!
//! Layout:
//! - `rep` holds the graph arena, the node model, the value lattice and the
//!   edge-maintenance invariants, with the node constructors and the lexical
//!   scope resolver in its submodules;
//! - `optimizer` holds the lattice evaluation rules and the peephole folder;
//! - `parser` holds the token types and the recursive-descent graph builder.

pub mod optimizer;
pub mod parser;
pub mod rep;
