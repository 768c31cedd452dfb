//! Laws of the engine: what its operations are for, stated over what goes in and what comes
//! out.

pub mod clock;
pub mod commands;
pub mod decisions;
pub mod geometry;
pub mod histories;
pub mod iterations;
pub mod margins;
pub mod network;
pub mod nodes;
pub mod numbers;
pub mod picking;
pub mod pictures;
pub mod position;
pub mod report;
pub mod searching;
pub mod setup;
pub mod table;
pub mod text;
