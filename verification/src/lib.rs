//! Life-like cellular automata on a toroidal grid: rulestrings in B/S
//! notation and the generation step that applies them.

pub mod board;
pub mod config;
pub mod matrix;
pub mod random;
pub mod rules;
pub mod text;
