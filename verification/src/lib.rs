//! Puzzle-solving routines built around a verified digit selector.
//!
//! The centrepiece is the monotonic-stack digit selector (`selector`):
//! given an ordered sequence of digits and a target length `k`, it returns
//! the lexicographically greatest order-preserving subsequence of length
//! `k`.  The remaining modules hold the pure computations of the other
//! puzzle routines: dial rotation (`dial`), numeric-range validity
//! checks (`invalid`), voltage readings (`volts`), grid neighbour
//! counting and carpet removal (`carpet`), and the readers for rotation
//! lines and range lists (`parse`).  `subsequence` defines the
//! order-preserving subsequences and the lexicographic order that the
//! selector's contract speaks of.

pub mod subsequence;
pub mod selector;
pub mod invalid;
pub mod volts;
pub mod carpet;
pub mod dial;
pub mod parse;
