//! Rectangular grid mazes: a grid model whose walls always come in matched
//! pairs, a family of generation algorithms that each leave a path from the
//! top-left to the bottom-right cell, and a breadth-first solver.

pub mod algorithms;
pub mod cell_grid;
pub mod complexity;
pub mod config;
pub mod connectivity;
pub mod grid;
pub mod maze;
pub mod reach;
pub mod rng;
pub mod search;
pub mod seqs;
pub mod union_find;
