//! Parsing and renumbering of a line-oriented chemical-structure notation.
//!
//! A line holds an identifier, a structure written in an extended
//! SMILES-like grammar whose bracketed atoms carry integer map numbers
//! (for example `[C:12]`), and a parenthesized list of auxiliary atom
//! indices. The library parses such a line into a tree, renumbers the
//! atom map numbers to a dense, order-preserving `1..=N` sequence,
//! rewrites the auxiliary indices to match, and serializes the tree
//! back to text.

pub mod ast;
pub mod laws;
pub mod parser;
pub mod renumber;
pub mod text;
