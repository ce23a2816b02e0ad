//! A secondary index over an append-only delimited text file: a multiway
//! B-tree of minimum degree `order` maps the first field of each line to the
//! byte range where the line lives, turning a linear scan into a logarithmic
//! lookup.
//!
//! The tree itself, its ordering and balance invariants, insertion with
//! top-down preemptive splitting, search, and the line indexing arithmetic
//! are all verified here. Reading and writing the storage units on disk is
//! left to the surrounding binary, which hands the tree in and out as plain
//! values.

pub mod btree;
pub mod csv;
pub mod key;
pub mod lex;
pub mod node;
