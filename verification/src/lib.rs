//! # NQueens
//!
//! `nqueens` enumerates every way to put N queens on an N×N chess board so
//! that no two of them attack each other. The search is a depth-first
//! backtracking search driven by an explicit worklist, and every function of
//! the crate is verified with Verus.
//!
//! - [`qboard`]: the board, one optional queen per row.
//! - [`node`]: what the search engine asks of a search state, and the state
//!   of the N-queens search with its rule of which queens see each other.
//! - [`exploration`]: which states a worklist search collects, and in which
//!   order, for any kind of state.
//! - [`traversal`]: the search engine, and [`traversal::run`], which solves
//!   the puzzle for a given side length.
//! - [`solutions`]: what the search finds on a chess board: exactly the
//!   solved boards, in dictionary order.
//! - [`report`]: which of the boards that were found are shown.

pub mod exploration;
pub mod node;
pub mod qboard;
pub mod report;
pub mod solutions;
pub mod traversal;
