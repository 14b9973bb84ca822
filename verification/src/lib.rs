//! Crossing-angle core for pairs of protein alpha-helices.
//!
//! The library holds the verified text logic of the computation: command-line
//! configuration checks, fixed-width residue-number parsing and rendering,
//! scanning of fixed-column atom records, and the head/tail window selection
//! that reduces the qualifying atoms of a helix terminus to at most ten
//! coordinate fields. The floating-point vector arithmetic that consumes
//! those fields lives outside the library.

pub mod config;
pub mod extract;
pub mod numtext;
