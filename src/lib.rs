//! A three-dimensional multi-state cellular automaton on a toroidal lattice.
//!
//! Rules are bitmask predicates over neighbor counts; the lattice keeps a
//! cached count of fully alive neighbors for every cell and updates it
//! incrementally, touching only the cells whose state changes.
pub mod rule;
pub mod space;
pub mod neighbors;
pub mod grid;
