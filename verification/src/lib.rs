//! Tile maps made from a painted sketch: a validated grid of coloured squares,
//! with a cellular automaton for caves and constrained growth for rooms.

pub mod cellular_automata;
pub mod export;
pub mod room_growth;
pub mod sizes;
pub mod squares;
pub mod squareularization;
pub mod stairs;
