//! Control-flow reconstruction for a block-structured intermediate program
//! representation: a graph of basic blocks is turned into a nested tree of
//! sequences, branches, loops and depth-indexed `break`/`continue`, and the
//! `if cond { panic } else { .. }` idiom of that tree is folded into assertions.
pub mod types;
pub mod cfim_ast;
pub mod graph;
pub mod analysis;
pub mod structure;
pub mod reconstruct_asserts;
