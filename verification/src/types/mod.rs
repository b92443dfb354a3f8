//! Primitive types, messages, the wire encoding, keys and network configuration.

pub mod codec;
pub mod crypto;
pub mod messages;
pub mod network;

pub use crypto::{hash_data, KeyPair};
pub use network::{NetworkConfig, ValidatorInfo};
pub use messages::{
    AlpenglowMessage, Block, ChainSyncRequest, ChainSyncResponse, FastFinalCertificate, FinalVote,
    NotarCertificate, NotarVote, Shred, Signature, SkipCertificate, SkipVote, Slice, Slot,
    Transaction, ValidatorId,
};
