//! Five-point beam analysis: schedule/data matching, text formats and planning logic.

pub mod text;
pub mod number;
pub mod timestamp;
pub mod data;
pub mod schedule;
pub mod catalog;
pub mod pairing;
pub mod cli;
pub mod naming;
pub mod palette;
