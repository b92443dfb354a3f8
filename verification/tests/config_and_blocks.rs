use alpenglow_mini::config::{load_config, ConfigError};
use alpenglow_mini::types::{Block, Transaction};

use sha2::Digest;

#[test]
fn test_load_config_alice() {
    let config = load_config("alice").unwrap();
    assert_eq!(config.local_validator_id, "alice");
    assert_eq!(config.bind_address.to_string(), "127.0.0.1:8001");
    assert_eq!(config.validators.len(), 3);
    assert_eq!(config.total_stake(), 300);
}

#[test]
fn test_load_config_invalid() {
    let result = load_config("invalid");
    assert!(result.is_err());
}

#[test]
fn test_load_config_bob() {
    let config = load_config("bob").unwrap();
    assert_eq!(config.local_validator_id, "bob");
    assert_eq!(config.bind_address.to_string(), "127.0.0.1:8002");
}

#[test]
fn test_block_creation_and_hashing() {
    let genesis = Block::genesis();
    let genesis_hash = genesis.hash();

    let block1 = Block {
        slot: 1,
        parent_hash: genesis_hash,
        transactions: vec![],
        leader_id: "alice".to_string(),
        timestamp: 1000,
    };

    assert!(block1.is_valid_parent(&genesis));
    assert_ne!(genesis_hash, block1.hash());
}

#[test]
fn load_config_charlie_and_unknown_name() {
    let config = load_config("charlie").unwrap();
    assert_eq!(config.bind_address, "127.0.0.1:8003");
    assert_eq!(config.get_stake(&"bob".to_string()), 100);
    assert_eq!(config.get_stake(&"dave".to_string()), 0);
    assert!(config.get_validator(&"alice".to_string()).is_some());
    match load_config("dave") {
        Err(e) => assert_eq!(e, ConfigError::ValidatorNotFound("dave".to_string())),
        Ok(_) => panic!("dave is not a validator"),
    }
}

#[test]
fn genesis_is_slot_zero_with_zero_parent() {
    let g = Block::genesis();
    assert_eq!(g.slot, 0);
    assert_eq!(g.parent_hash, [0u8; 32]);
    assert!(g.transactions.is_empty());
    assert_eq!(g.leader_id, "genesis");
    assert_eq!(g.timestamp, 0);
}

#[test]
fn block_hash_is_sha256_of_its_bincode_encoding() {
    let block = Block {
        slot: 7,
        parent_hash: [3u8; 32],
        transactions: vec![Transaction { data: vec![1, 2, 3], from: "bob".to_string() }],
        leader_id: "alice".to_string(),
        timestamp: 42,
    };
    let fields = (
        7u64,
        [3u8; 32],
        vec![(vec![1u8, 2, 3], "bob".to_string())],
        "alice".to_string(),
        42u64,
    );
    let bytes = bincode::serialize(&fields).unwrap();
    let expected: [u8; 32] = sha2::Sha256::digest(&bytes).into();
    assert_eq!(block.hash(), expected);
}

#[test]
fn parent_must_be_hash_and_previous_slot() {
    let genesis = Block::genesis();
    let wrong_slot = Block {
        slot: 2,
        parent_hash: genesis.hash(),
        transactions: vec![],
        leader_id: "alice".to_string(),
        timestamp: 1,
    };
    assert!(!wrong_slot.is_valid_parent(&genesis));
    let wrong_hash = Block {
        slot: 1,
        parent_hash: [9u8; 32],
        transactions: vec![],
        leader_id: "alice".to_string(),
        timestamp: 1,
    };
    assert!(!wrong_hash.is_valid_parent(&genesis));
}
