//! A small Alpenglow-style consensus node: block storage, leader rotation,
//! vote pooling with stake-weighted certificates, the voting state machine,
//! block dissemination by erasure-coded shreds, and the node's decisions.

pub mod types;
pub mod leader;
pub mod consensus;
pub mod node;
pub mod config;
mod clock;
