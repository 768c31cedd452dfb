//! What the engine offers to its surroundings.

pub mod datagen;
pub mod position;
pub mod uci;
