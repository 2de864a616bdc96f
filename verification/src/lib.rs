//! Enumerates every way to spread a list of labelled packages over a row of
//! labelled bags, by a depth-first walk that moves one package at a time and
//! takes each move back before it returns.

pub mod complete;
pub mod count;
pub mod distinct;
pub mod items;
pub mod laws;
pub mod model;
pub mod render;
pub mod solver;
pub mod state;
