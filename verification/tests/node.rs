use alpenglow_mini::config::load_config;
use alpenglow_mini::node::{message_type, AlpenglowNode, NodeAction};
use alpenglow_mini::types::{AlpenglowMessage, Block, ChainSyncRequest, NotarVote, SkipVote};

fn node_for(name: &str) -> AlpenglowNode {
    AlpenglowNode::new(load_config(name).unwrap())
}

#[test]
fn node_starts_at_slot_one_on_genesis() {
    let node = node_for("alice");
    assert_eq!(node.current_slot(), 1);
    assert_eq!(node.get_latest_finalized_slot(), 0);
    assert_eq!(node.get_latest_finalized_hash(), Block::genesis().hash());
    assert!(AlpenglowNode::try_new(load_config("bob").unwrap()).is_some());
}

#[test]
fn node_votes_for_a_block_that_extends_its_chain() {
    let mut node = node_for("alice");
    let genesis = Block::genesis();
    let block = Block {
        slot: 1,
        parent_hash: genesis.hash(),
        transactions: vec![],
        leader_id: "bob".to_string(),
        timestamp: 400,
    };
    let actions = node.handle_message("bob".to_string(), AlpenglowMessage::Block(block.clone()));
    assert_eq!(actions.len(), 1);
    match &actions[0] {
        NodeAction::Broadcast(AlpenglowMessage::NotarVote(v)) => {
            assert_eq!(v.slot, 1);
            assert_eq!(v.block_hash, block.hash());
            assert_eq!(v.validator_id, "alice");
        },
        other => panic!("unexpected action {:?}", other),
    }
    let again = node.handle_message("charlie".to_string(), AlpenglowMessage::Block(block));
    assert!(again.is_empty());
}

#[test]
fn node_asks_for_repair_when_parent_is_missing() {
    let mut node = node_for("alice");
    let orphan = Block {
        slot: 4,
        parent_hash: [1u8; 32],
        transactions: vec![],
        leader_id: "bob".to_string(),
        timestamp: 1,
    };
    let actions = node.handle_message("bob".to_string(), AlpenglowMessage::Block(orphan.clone()));
    assert_eq!(actions.len(), 1);
    match &actions[0] {
        NodeAction::RepairThenRetry { missing_slot, block } => {
            assert_eq!(*missing_slot, 4);
            assert_eq!(*block, orphan);
        },
        other => panic!("unexpected action {:?}", other),
    }
    assert!(node.retry_block(orphan).is_empty());
}

#[test]
fn node_certifies_when_votes_reach_the_threshold() {
    let mut node = node_for("alice");
    let h = [3u8; 32];
    let vote = |who: &str| {
        AlpenglowMessage::NotarVote(NotarVote { slot: 5, block_hash: h, validator_id: who.to_string(), signature: [0u8; 96] })
    };
    assert!(node.handle_message("bob".to_string(), vote("bob")).is_empty());
    let actions = node.handle_message("charlie".to_string(), vote("charlie"));
    assert_eq!(actions.len(), 1);
    assert!(matches!(&actions[0], NodeAction::Broadcast(AlpenglowMessage::NotarCertificate(c)) if c.slot == 5));
}

#[test]
fn node_answers_chain_sync_requests() {
    let mut node = node_for("bob");
    let request = ChainSyncRequest { from_validator: "charlie".to_string() };
    let actions = node.handle_message("charlie".to_string(), AlpenglowMessage::ChainSyncRequest(request));
    assert_eq!(actions.len(), 1);
    match &actions[0] {
        NodeAction::SendTo { peer, message: AlpenglowMessage::ChainSyncResponse(r) } => {
            assert_eq!(peer, "charlie");
            assert_eq!(r.current_slot, 1);
            assert_eq!(r.latest_finalized_slot, 0);
            assert_eq!(r.recent_blocks.len(), 1);
        },
        other => panic!("unexpected action {:?}", other),
    }
}

#[test]
fn node_leads_its_own_slots() {
    let mut node = node_for("alice");
    let first = node.advance_slot(10_000);
    assert_eq!(node.current_slot(), 2);
    assert!(first.iter().any(|a| matches!(a, NodeAction::Disseminate(b) if b.slot == 2 && b.leader_id == "alice")));
    assert!(first.iter().any(|a| matches!(a, NodeAction::Broadcast(AlpenglowMessage::NotarVote(v)) if v.slot == 2)));
    let mut bob = node_for("bob");
    let none = bob.advance_slot(10_000);
    assert!(!none.iter().any(|a| matches!(a, NodeAction::Disseminate(_))));
}

#[test]
fn node_votes_to_skip_a_silent_slot() {
    let mut node = node_for("bob");
    node.advance_slot(1_000);
    assert_eq!(node.current_slot(), 2);
    let later = node.advance_slot(1_400);
    assert!(later.iter().any(|a| matches!(a, NodeAction::Broadcast(AlpenglowMessage::SkipVote(v)) if v.slot == 2)));
}

#[test]
fn message_type_names_each_message() {
    assert_eq!(message_type(&AlpenglowMessage::Block(Block::genesis())), "Block");
    assert_eq!(message_type(&AlpenglowMessage::Hello { from: "x".to_string() }), "Hello");
    assert_eq!(
        message_type(&AlpenglowMessage::ChainSyncRequest(ChainSyncRequest { from_validator: "x".to_string() })),
        "ChainSyncRequest"
    );
    assert_eq!(message_type(&AlpenglowMessage::SliceRequest { slot: 1, slice_index: 0, from: "x".to_string() }), "SliceRequest");
}

#[test]
fn flushing_handles_queued_events_again() {
    let mut node = node_for("alice");
    let block = Block {
        slot: 1,
        parent_hash: Block::genesis().hash(),
        transactions: vec![],
        leader_id: "bob".to_string(),
        timestamp: 400,
    };
    let first = node.handle_message("bob".to_string(), AlpenglowMessage::Block(block));
    assert_eq!(first.len(), 1);
    let flushed = node.flush_pending_events();
    assert_eq!(flushed.len(), 1);
    assert!(matches!(&flushed[0], NodeAction::Broadcast(AlpenglowMessage::NotarVote(v)) if v.slot == 1));
    assert!(node.flush_pending_events().is_empty());
}

#[test]
fn node_takes_peers_skip_votes_into_its_pool() {
    let mut node = node_for("alice");
    let skip = |who: &str| AlpenglowMessage::SkipVote(SkipVote { slot: 6, validator_id: who.to_string(), signature: [0u8; 96] });
    assert!(node.handle_message("bob".to_string(), skip("bob")).is_empty());
    let actions = node.handle_message("charlie".to_string(), skip("charlie"));
    assert_eq!(actions.len(), 1);
    assert!(matches!(&actions[0], NodeAction::Broadcast(AlpenglowMessage::SkipCertificate(c)) if c.slot == 6 && c.votes.len() == 2));
}

#[test]
fn finalized_hash_falls_back_to_genesis() {
    let mut node = node_for("charlie");
    let mut now = 1_000u64;
    while node.current_slot() < 15 {
        node.advance_slot(now);
        now += 400;
    }
    assert_eq!(node.current_slot(), 15);
    assert_eq!(node.get_latest_finalized_slot(), 5);
    assert_eq!(node.get_latest_finalized_hash(), Block::genesis().hash());
}

fn skips_in(actions: &[NodeAction]) -> Vec<u64> {
    actions
        .iter()
        .filter_map(|a| match a {
            NodeAction::Broadcast(AlpenglowMessage::SkipVote(v)) => Some(v.slot),
            _ => None,
        })
        .collect()
}

#[test]
fn node_sets_timeouts_for_the_rest_of_the_leader_window() {
    let mut node = node_for("charlie");
    assert!(skips_in(&node.advance_slot(1_000)).is_empty());
    assert_eq!(node.current_slot(), 2);
    assert!(skips_in(&node.advance_slot(1_100)).is_empty());
    assert_eq!(node.current_slot(), 3);
    assert_eq!(skips_in(&node.advance_slot(1_500)), vec![2]);
    assert_eq!(node.current_slot(), 4);
    assert_eq!(skips_in(&node.advance_slot(1_800)), vec![3]);
    assert_eq!(skips_in(&node.advance_slot(1_900)), vec![4]);
    assert_eq!(skips_in(&node.advance_slot(2_250)), Vec::<u64>::new());
    assert_eq!(skips_in(&node.advance_slot(2_300)), vec![5]);
}
