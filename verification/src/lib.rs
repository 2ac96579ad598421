//! A library for the skyscrapper logic puzzle: boards are `N`x`N` grids in
//! which every row and column holds each height `1..=N` exactly once, and a
//! header of `4*N` clues gives, for each row and column, how many cells are
//! visible when looking along it from each edge.
//!
//! The library parses headers and boards, checks candidate boards against a
//! header, derives the header of a completed board, generates random solved
//! boards, and solves headers by constraint propagation and backtracking
//! search.

pub mod args;
pub mod check;
pub mod domain;
pub mod format;
pub mod generate;
pub mod laws;
pub mod sigint;
pub mod solve;
pub mod visibility;
