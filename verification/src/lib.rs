//! Algorithms with their proofs: a small Lisp interpreter, Fibonacci
//! numbers, Conway's Game of Life, and searches in graphs.
//!
//! The interpreter is made of `reader` (text to expressions), `expr`
//! (expressions and environments), `eval` (evaluation), `builtins` (the
//! primitive procedures and the root environment), `equality`, `printer`
//! (expressions to text), `number` and `error`. It computes on no
//! floating-point value itself: numbers are carried as the bit patterns of
//! their encodings, and the caller hands in the functions that read, print
//! and combine them.
//!
//! `graph` holds directed graphs and what it means to get from one node to
//! another; `bfs`, `dfs` and `dijkstra` search them.

pub mod bfs;
pub mod builtins;
pub mod dfs;
pub mod dijkstra;
pub mod equality;
pub mod error;
pub mod eval;
pub mod expr;
pub mod fibonacci;
pub mod game_of_life;
pub mod graph;
pub mod number;
pub mod printer;
pub mod reader;
