//! A three-dimensional, multi-state cellular automaton on a toroidal cubic
//! lattice.
//!
//! The engine keeps, for every lattice cell, a live-neighbour counter that is
//! maintained incrementally as cells are born or die; the central invariant is
//! that this counter always equals the true number of `Alive` cells among the
//! topology neighbours under wraparound.

pub mod cell;
pub mod color;
pub mod grid;
pub mod indexes;
pub mod pos;
pub mod rule;
