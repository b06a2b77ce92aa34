//! A Game of Life engine: coordinates with a selectable edge policy, the
//! survival rule, and a square board that advances one generation at a time.

pub mod rules;
pub mod coords;
pub mod engine;
pub mod grid;
pub mod board;
pub mod patterns;
