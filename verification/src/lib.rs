//! A falling-sand cellular automaton: a 2D grid of matter cells (empty, sand,
//! wood) that evolves under gravity-driven local rules, with a paint operation
//! for injecting matter and a point query for reading it back.

pub mod matter;
pub mod rng;
pub mod sim;
