//! What the rules promise, in plain terms: of rows, bytes and numbers, whatever the definitions that
//! the rules are written with.

pub mod attacks;
pub mod bots;
pub mod cities;
pub mod clocks;
pub mod fronts;
pub mod launches;
pub mod lobbies;
pub mod rows;
pub mod spawns;
