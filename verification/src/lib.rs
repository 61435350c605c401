//! A Havannah-style connection game on a hexagonal lattice, with a
//! Monte Carlo Tree Search engine to pick moves.
//!
//! The board is a hex lattice addressed by axial coordinates `(q, r)`
//! with the implicit third coordinate `s = -q - r`. A player wins by
//! bridge (one connected group of stones touching two distinct corner
//! cells), fork (one group touching three distinct sides) or ring (one
//! group enclosing a region that cannot reach the board boundary).
#![verifier::loop_isolation(false)]

pub mod board;
pub mod mcts;
pub mod rng;
pub mod win_detector;

