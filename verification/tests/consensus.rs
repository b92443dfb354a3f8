use alpenglow_mini::config::load_config;
use alpenglow_mini::consensus::blokstor::{Blokstor, BlokstorError};
use alpenglow_mini::consensus::pool::{certificate_signature_from, Pool, PoolEvent};
use alpenglow_mini::consensus::votor::{Votor, VotorEvent};
use alpenglow_mini::leader::{BlockBuilder, LeaderSchedule};
use alpenglow_mini::types::{AlpenglowMessage, Block, KeyPair, NetworkConfig, NotarVote, SkipVote, ValidatorInfo};

fn child_of(parent: &Block, slot: u64) -> Block {
    Block {
        slot,
        parent_hash: parent.hash(),
        transactions: vec![],
        leader_id: "alice".to_string(),
        timestamp: slot * 400,
    }
}

fn notar(slot: u64, hash: [u8; 32], who: &str) -> AlpenglowMessage {
    AlpenglowMessage::NotarVote(NotarVote { slot, block_hash: hash, validator_id: who.to_string(), signature: [0u8; 96] })
}

fn skip(slot: u64, who: &str) -> AlpenglowMessage {
    AlpenglowMessage::SkipVote(SkipVote { slot, validator_id: who.to_string(), signature: [0u8; 96] })
}

#[test]
fn blokstor_starts_with_genesis() {
    let store = Blokstor::new();
    assert_eq!(store.latest_slot(), 0);
    assert_eq!(store.get_highest_slot(), 0);
    let genesis = Block::genesis();
    assert_eq!(store.get_block(0), Some(&genesis));
    assert_eq!(store.get_block_by_hash(&genesis.hash()), Some(&genesis));
    assert_eq!(store.get_chain_head(), Some(&genesis));
    assert!(store.get_block(1).is_none());
}

#[test]
fn blokstor_stores_child_and_reads_it_back() {
    let mut store = Blokstor::new();
    let b1 = child_of(&Block::genesis(), 1);
    assert_eq!(store.store_block(b1.clone()), Ok(()));
    assert_eq!(store.get_block(1), Some(&b1));
    assert_eq!(store.get_block_by_hash(&b1.hash()), Some(&b1));
    assert_eq!(store.latest_slot(), 1);
    assert_eq!(store.get_block(0), Some(&Block::genesis()));
}

#[test]
fn blokstor_refuses_orphan_but_raises_latest_slot() {
    let mut store = Blokstor::new();
    let orphan = Block {
        slot: 5,
        parent_hash: [7u8; 32],
        transactions: vec![],
        leader_id: "bob".to_string(),
        timestamp: 1,
    };
    assert_eq!(store.store_block(orphan), Err(BlokstorError::ParentNotFound));
    assert!(store.get_block(5).is_none());
    assert_eq!(store.latest_slot(), 5);
    assert_eq!(store.get_highest_slot(), 0);
}

#[test]
fn blokstor_refuses_blocks_too_far_behind() {
    let mut store = Blokstor::new();
    let mut parent = Block::genesis();
    for slot in 1..=25 {
        let b = child_of(&parent, slot);
        assert_eq!(store.store_block(b.clone()), Ok(()));
        parent = b;
    }
    assert!(store.has_continuous_chain(0, 25));
    assert!(!store.has_continuous_chain(20, 26));
    let old = child_of(&Block::genesis(), 3);
    assert_eq!(store.store_block(old), Err(BlokstorError::SlotTooOld { slot: 3, latest_slot: 25 }));
    let edge = child_of(&Block::genesis(), 5);
    assert_eq!(store.store_block(edge), Ok(()));
    assert!(!store.has_continuous_chain(0, 25));
    assert!(!store.has_continuous_chain(4, 6));
    assert!(store.has_continuous_chain(6, 25));
    assert!(store.has_continuous_chain(5, 5));
    assert_eq!(store.get_highest_slot(), 25);
    let range = store.get_blocks_range(10, 12);
    assert_eq!(range.len(), 3);
    assert_eq!(range[0].slot, 10);
    assert_eq!(range[2].slot, 12);
}

#[test]
fn blokstor_reset_and_force_store() {
    let mut store = Blokstor::new();
    let orphan = Block {
        slot: 9,
        parent_hash: [1u8; 32],
        transactions: vec![],
        leader_id: "bob".to_string(),
        timestamp: 1,
    };
    assert_eq!(store.force_store_block(orphan.clone()), Ok(()));
    assert_eq!(store.get_block(9), Some(&orphan));
    assert_eq!(store.latest_slot(), 9);
    store.reset_to_genesis();
    assert!(store.get_block(9).is_none());
    assert_eq!(store.latest_slot(), 0);
    assert_eq!(store.get_block(0), Some(&Block::genesis()));
}

#[test]
fn schedule_sorts_and_rotates_in_windows_of_four() {
    let schedule = LeaderSchedule::new(vec!["charlie".to_string(), "alice".to_string(), "bob".to_string()]);
    for slot in 0..4 {
        assert_eq!(schedule.get_leader(slot), "alice");
    }
    assert_eq!(schedule.get_leader(4), "bob");
    assert_eq!(schedule.get_leader(7), "bob");
    assert_eq!(schedule.get_leader(8), "charlie");
    assert_eq!(schedule.get_leader(12), "alice");
    assert_eq!(schedule.get_leader(12 + 12 * 1000), "alice");
    assert!(schedule.is_leader(4, &"bob".to_string()));
    assert!(!schedule.is_leader(4, &"alice".to_string()));
    assert_eq!(schedule.next_leader_slot(0, &"alice".to_string()), 1);
    assert_eq!(schedule.next_leader_slot(2, &"bob".to_string()), 4);
    assert_eq!(schedule.next_leader_slot(0, &"charlie".to_string()), 8);
    assert_eq!(schedule.next_leader_slot(5, &"alice".to_string()), 12);
    assert_eq!(schedule.next_leader_slot(0, &"bob".to_string()), 4);
}

#[test]
fn schedule_next_slot_for_stranger_is_window_end() {
    let schedule = LeaderSchedule::new(vec!["alice".to_string(), "bob".to_string()]);
    assert_eq!(schedule.next_leader_slot(10, &"zed".to_string()), 18);
    assert_eq!(schedule.next_leader_slot(0, &"bob".to_string()), 4);
}

#[test]
fn builder_builds_on_chain_head() {
    let store = Blokstor::new();
    let builder = BlockBuilder::new("alice".to_string());
    let block = builder.build_block_at(17, &store, 1234).unwrap();
    assert_eq!(block.slot, 17);
    assert_eq!(block.parent_hash, Block::genesis().hash());
    assert_eq!(block.leader_id, "alice");
    assert_eq!(block.timestamp, 1234);
    assert_eq!(block.transactions.len(), 1);
    assert_eq!(block.transactions[0].data, b"Block 17 by alice".to_vec());
    assert_eq!(block.transactions[0].from, "alice");
    let now = builder.build_block(3, &store).unwrap();
    assert_eq!(now.transactions[0].data, b"Block 3 by alice".to_vec());
}

#[test]
fn pool_notarizes_at_sixty_and_fast_finalizes_at_eighty_percent() {
    let mut pool = Pool::new(load_config("alice").unwrap());
    let h = [5u8; 32];
    assert!(pool.add_vote(notar(1, h, "alice")).is_empty());
    let events = pool.add_vote(notar(1, h, "bob"));
    assert_eq!(events.len(), 1);
    match &events[0] {
        PoolEvent::BlockNotarized { slot, block_hash, certificate } => {
            assert_eq!(*slot, 1);
            assert_eq!(*block_hash, h);
            assert_eq!(certificate.votes.len(), 2);
            assert_eq!(certificate.total_stake, 300);
        },
        other => panic!("unexpected event {:?}", other),
    }
    assert!(pool.is_block_notarized(1));
    assert!(!pool.is_block_fast_finalized(1));
    let events = pool.add_vote(notar(1, h, "charlie"));
    assert_eq!(events.len(), 1);
    assert!(matches!(events[0], PoolEvent::FastFinalized { slot: 1, .. }));
    assert!(pool.is_block_fast_finalized(1));
    assert_eq!(pool.drain_events().len(), 2);
    assert!(pool.drain_events().is_empty());
}

#[test]
fn pool_repeated_vote_counts_once() {
    let mut pool = Pool::new(load_config("alice").unwrap());
    let h = [6u8; 32];
    assert!(pool.add_vote(notar(2, h, "alice")).is_empty());
    assert!(pool.add_vote(notar(2, h, "alice")).is_empty());
    assert!(!pool.is_block_notarized(2));
}

#[test]
fn pool_split_votes_do_not_notarize() {
    let mut pool = Pool::new(load_config("alice").unwrap());
    assert!(pool.add_vote(notar(3, [1u8; 32], "alice")).is_empty());
    assert!(pool.add_vote(notar(3, [2u8; 32], "bob")).is_empty());
    assert!(!pool.is_block_notarized(3));
}

#[test]
fn pool_skips_slot_at_sixty_percent() {
    let mut pool = Pool::new(load_config("alice").unwrap());
    assert!(pool.add_vote(skip(4, "alice")).is_empty());
    let events = pool.add_vote(skip(4, "bob"));
    assert_eq!(events.len(), 1);
    match &events[0] {
        PoolEvent::SlotSkipped { slot, certificate } => {
            assert_eq!(*slot, 4);
            assert_eq!(certificate.votes.len(), 2);
        },
        other => panic!("unexpected event {:?}", other),
    }
}

#[test]
fn keys_of_the_builtin_validators_sign_and_verify() {
    for name in ["alice", "bob", "charlie"] {
        let kp = KeyPair::try_new(name.to_string()).expect("valid seed");
        let sig = kp.sign(b"hello");
        assert!(kp.verify(b"hello", &sig));
        assert!(!kp.verify(b"other", &sig));
    }
    let a = KeyPair::new("alice".to_string());
    let b = KeyPair::new("bob".to_string());
    assert_ne!(a.public_key, b.public_key);
    assert!(!b.verify(b"hello", &a.sign(b"hello")));
}

#[test]
fn votor_votes_once_for_the_first_block() {
    let mut votor = Votor::new("alice".to_string(), load_config("alice").unwrap());
    let h = [8u8; 32];
    let events = votor.handle_block_received(1, h);
    assert_eq!(events.len(), 1);
    match &events[0] {
        VotorEvent::ShouldCastVote { vote: AlpenglowMessage::NotarVote(v) } => {
            assert_eq!(v.slot, 1);
            assert_eq!(v.block_hash, h);
            assert_eq!(v.validator_id, "alice");
            let mut data = 1u64.to_le_bytes().to_vec();
            data.extend_from_slice(&h);
            data.extend_from_slice(b"alice");
            assert!(KeyPair::new("alice".to_string()).verify(&data, &v.signature));
        },
        other => panic!("unexpected event {:?}", other),
    }
    assert!(votor.handle_block_received(1, [9u8; 32]).is_empty());
    assert!(votor.handle_slot_timeout(1).is_empty());
    assert_eq!(votor.drain_events().len(), 1);
}

#[test]
fn votor_skips_a_slot_without_block_and_finalizes_after_notarization() {
    let mut votor = Votor::new("bob".to_string(), load_config("bob").unwrap());
    let events = votor.handle_slot_timeout(2);
    assert_eq!(events.len(), 1);
    assert!(matches!(&events[0], VotorEvent::ShouldCastVote { vote: AlpenglowMessage::SkipVote(v) } if v.slot == 2));
    assert!(votor.handle_slot_timeout(2).is_empty());

    let h = [4u8; 32];
    let mut pool = Pool::new(load_config("bob").unwrap());
    assert_eq!(votor.handle_block_received(3, h).len(), 1);
    pool.add_vote(notar(3, h, "alice"));
    let events = pool.add_vote(notar(3, h, "bob"));
    let cert_event = events.into_iter().next().unwrap();
    let out = votor.handle_pool_event(cert_event);
    assert_eq!(out.len(), 1);
    assert!(matches!(&out[0], VotorEvent::ShouldCastVote { vote: AlpenglowMessage::FinalVote(v) } if v.slot == 3));
}

#[test]
fn votor_timeouts_fire_once_due() {
    let mut votor = Votor::new("alice".to_string(), load_config("alice").unwrap());
    votor.set_slot_timeout_at(7, 400, 1000);
    assert!(votor.check_timeouts_at(1399).is_empty());
    let events = votor.check_timeouts_at(1400);
    assert_eq!(events.len(), 1);
    assert!(matches!(&events[0], VotorEvent::ShouldCastVote { vote: AlpenglowMessage::SkipVote(v) } if v.slot == 7));
    assert!(votor.check_timeouts_at(5000).is_empty());
}

#[test]
fn pool_single_vote_past_eighty_percent_makes_both_certificates() {
    let config = NetworkConfig {
        validators: vec![
            ValidatorInfo { id: "alice".to_string(), address: "127.0.0.1:8001".to_string(), stake: 100 },
            ValidatorInfo { id: "bob".to_string(), address: "127.0.0.1:8002".to_string(), stake: 10 },
        ],
        local_validator_id: "alice".to_string(),
        bind_address: "127.0.0.1:8001".to_string(),
    };
    let mut pool = Pool::new(config);
    let h = [7u8; 32];
    let events = pool.add_vote(notar(9, h, "alice"));
    assert_eq!(events.len(), 2);
    assert!(matches!(events[0], PoolEvent::BlockNotarized { slot: 9, .. }));
    assert!(matches!(events[1], PoolEvent::FastFinalized { slot: 9, .. }));
    assert!(pool.is_block_notarized(9));
    assert!(pool.is_block_fast_finalized(9));
    assert!(pool.add_vote(notar(9, h, "bob")).is_empty());
}

#[test]
fn pool_reports_each_certificate_once_even_when_votes_move() {
    let validators: Vec<ValidatorInfo> = ["a", "b", "c", "d", "e"]
        .iter()
        .enumerate()
        .map(|(i, n)| ValidatorInfo { id: n.to_string(), address: format!("127.0.0.1:{}", 9000 + i), stake: 1 })
        .collect();
    let config = NetworkConfig { validators, local_validator_id: "a".to_string(), bind_address: "127.0.0.1:9000".to_string() };
    let mut pool = Pool::new(config);
    let first = [1u8; 32];
    let second = [2u8; 32];
    let mut all = Vec::new();
    for who in ["a", "b", "c"] {
        all.extend(pool.add_vote(notar(5, first, who)));
    }
    assert_eq!(all.len(), 1);
    assert!(matches!(all[0], PoolEvent::BlockNotarized { slot: 5, block_hash, .. } if block_hash == first));
    for who in ["a", "b", "d", "e"] {
        all.extend(pool.add_vote(notar(5, second, who)));
    }
    let notarized = all.iter().filter(|e| matches!(e, PoolEvent::BlockNotarized { slot: 5, .. })).count();
    let fast = all.iter().filter(|e| matches!(e, PoolEvent::FastFinalized { slot: 5, .. })).count();
    assert_eq!(notarized, 1);
    assert_eq!(fast, 1);
    assert!(matches!(all.last(), Some(PoolEvent::FastFinalized { slot: 5, block_hash, .. }) if *block_hash == second));
    assert_eq!(pool.drain_events().len(), all.len());
}

#[test]
fn votor_final_vote_only_for_its_own_notarized_block() {
    let mut votor = Votor::new("alice".to_string(), load_config("alice").unwrap());
    let mine = [3u8; 32];
    let other = [4u8; 32];
    assert_eq!(votor.handle_block_received(6, mine).len(), 1);
    let mut pool = Pool::new(load_config("alice").unwrap());
    pool.add_vote(notar(6, other, "bob"));
    let events = pool.add_vote(notar(6, other, "charlie"));
    assert_eq!(events.len(), 1);
    let out = votor.handle_pool_event(events.into_iter().next().unwrap());
    assert!(out.is_empty());
    votor.set_slot_timeout_at(6, 400, 0);
    assert!(votor.check_timeouts_at(400).is_empty());
}

fn signed_notar(slot: u64, hash: [u8; 32], who: &str) -> AlpenglowMessage {
    let mut data = slot.to_le_bytes().to_vec();
    data.extend_from_slice(&hash);
    data.extend_from_slice(who.as_bytes());
    let signature = KeyPair::new(who.to_string()).sign(&data);
    AlpenglowMessage::NotarVote(NotarVote { slot, block_hash: hash, validator_id: who.to_string(), signature })
}

#[test]
fn pool_certificate_aggregates_the_vote_signatures() {
    let mut pool = Pool::new(load_config("alice").unwrap());
    let h = [11u8; 32];
    let a = signed_notar(8, h, "alice");
    let b = signed_notar(8, h, "bob");
    let sig_a = match &a { AlpenglowMessage::NotarVote(v) => v.signature, _ => unreachable!() };
    let sig_b = match &b { AlpenglowMessage::NotarVote(v) => v.signature, _ => unreachable!() };
    assert!(pool.add_vote(a).is_empty());
    let events = pool.add_vote(b);
    assert_eq!(events.len(), 1);
    match &events[0] {
        PoolEvent::BlockNotarized { certificate, .. } => {
            assert_eq!(certificate.signing_validators, vec!["alice".to_string(), "bob".to_string()]);
            assert_ne!(certificate.aggregated_signature, sig_a);
            assert_ne!(certificate.aggregated_signature, sig_b);
            assert_ne!(certificate.aggregated_signature, [0u8; 96]);
        },
        other => panic!("unexpected event {:?}", other),
    }
    let mut again = Pool::new(load_config("alice").unwrap());
    again.add_vote(signed_notar(8, h, "bob"));
    let events = again.add_vote(signed_notar(8, h, "alice"));
    match &events[0] {
        PoolEvent::BlockNotarized { certificate, .. } => {
            assert_eq!(certificate.signing_validators, vec!["bob".to_string(), "alice".to_string()]);
        },
        other => panic!("unexpected event {:?}", other),
    }
}

#[test]
fn pool_certificate_falls_back_to_first_signature_when_undecodable() {
    let mut pool = Pool::new(load_config("alice").unwrap());
    let h = [12u8; 32];
    let mut first = [0u8; 96];
    first[0] = 7;
    pool.add_vote(AlpenglowMessage::NotarVote(NotarVote { slot: 9, block_hash: h, validator_id: "alice".to_string(), signature: first }));
    let events = pool.add_vote(notar(9, h, "bob"));
    match &events[0] {
        PoolEvent::BlockNotarized { certificate, .. } => {
            assert_eq!(certificate.aggregated_signature, first);
            assert_eq!(certificate.signing_validators, vec!["alice".to_string(), "bob".to_string()]);
        },
        other => panic!("unexpected event {:?}", other),
    }
}

#[test]
fn certificate_signature_is_the_aggregate_or_the_first_vote_signature() {
    let mut first = [0u8; 96];
    first[5] = 1;
    let votes = vec![
        NotarVote { slot: 1, block_hash: [0u8; 32], validator_id: "alice".to_string(), signature: first },
        NotarVote { slot: 1, block_hash: [0u8; 32], validator_id: "bob".to_string(), signature: [9u8; 96] },
    ];
    let aggregate = [3u8; 96];
    assert_eq!(certificate_signature_from(Some(aggregate), &votes), aggregate);
    assert_eq!(certificate_signature_from(None, &votes), first);
}
