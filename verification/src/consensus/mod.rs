//! Consensus: block storage, the vote pool, the voting state machine, and
//! block dissemination.

pub mod blokstor;
pub mod pool;
pub mod votor;
pub mod rotor;

pub use blokstor::{Blokstor, BlokstorError};
pub use pool::{Pool, PoolEvent};
pub use rotor::{Rotor, RotorConfig, RotorError, ShredOutcome, ShredReceiver};
pub use votor::{Votor, VotorEvent};
