//! The rules of a territorial strategy game played on a tiled map of the Earth.

pub mod attack;
pub mod bots;
pub mod chunks;
pub mod clock;
pub mod conquest;
pub mod economy;
pub mod error;
pub mod front;
pub mod grid;
pub mod launch;
pub mod laws;
pub mod lobby;
pub mod players;
pub mod quantity;
pub mod queue;
pub mod rng;
pub mod rounding;
pub mod spawn;
pub mod tables;
pub mod territory;
