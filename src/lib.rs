//! Exhaustive construction of the transition model of a warehouse agent that
//! moves on a bounded grid and may pick up, carry and drop a rack.

pub mod state;
pub mod grid;
pub mod tables;
pub mod record;
pub mod step;
pub mod space;
pub mod layout;
