//! Who leads each slot, and how a leader builds its block.

pub mod block_builder;
pub mod schedule;

pub use block_builder::BlockBuilder;
pub use schedule::LeaderSchedule;
