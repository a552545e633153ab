//! A foraging simulation: bots wander a bounded grid of regrowing food,
//! sensing nearby food and picking weighted random moves.

pub mod args;
pub mod bot;
pub mod map;
pub mod random;
