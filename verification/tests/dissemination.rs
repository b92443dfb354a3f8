use alpenglow_mini::config::load_config;
use alpenglow_mini::consensus::rotor::{Rotor, RotorConfig, RotorError, ShredOutcome, ShredReceiver};
use alpenglow_mini::types::{Block, KeyPair, Shred, Slice, Transaction};

use reed_solomon_erasure::galois_8::ReedSolomon;
use sha2::Digest;

fn rotor_with(config: Option<RotorConfig>) -> Result<Rotor, RotorError> {
    Rotor::new(load_config("alice").unwrap(), "alice".to_string(), KeyPair::new("alice".to_string()), config)
}

fn config(data: usize, total: usize, max_slice_size: usize) -> RotorConfig {
    RotorConfig {
        data_shreds_per_slice: data,
        total_shreds_per_slice: total,
        max_slice_size,
        transmission_timeout: 100,
    }
}

fn sample_block(slot: u64, payload: usize) -> Block {
    Block {
        slot,
        parent_hash: [2u8; 32],
        transactions: vec![Transaction { data: (0..payload).map(|i| (i % 251) as u8).collect(), from: "alice".to_string() }],
        leader_id: "alice".to_string(),
        timestamp: 99,
    }
}

fn block_bytes(b: &Block) -> Vec<u8> {
    let txs: Vec<(Vec<u8>, String)> = b.transactions.iter().map(|t| (t.data.clone(), t.from.clone())).collect();
    bincode::serialize(&(b.slot, b.parent_hash, txs, b.leader_id.clone(), b.timestamp)).unwrap()
}

fn slice_bytes(s: &Slice) -> Vec<u8> {
    bincode::serialize(&(s.slot, s.slice_index, s.is_last_slice, s.data.clone(), s.merkle_root)).unwrap()
}

fn sha256(data: &[u8]) -> [u8; 32] {
    sha2::Sha256::digest(data).into()
}

#[test]
fn rotor_accepts_default_and_refuses_impossible_shard_counts() {
    assert!(rotor_with(None).is_ok());
    assert!(rotor_with(Some(config(4, 8, 100))).is_ok());
    assert_eq!(rotor_with(Some(config(0, 4, 100))).err(), Some(RotorError::ErasureCoding));
    assert_eq!(rotor_with(Some(config(4, 4, 100))).err(), Some(RotorError::ErasureCoding));
    assert_eq!(rotor_with(Some(config(200, 300, 100))).err(), Some(RotorError::ErasureCoding));
    assert!(rotor_with(Some(config(128, 256, 100))).is_ok());
}

#[test]
fn default_rotor_config_values() {
    let c = RotorConfig::default();
    assert_eq!(c.data_shreds_per_slice, 32);
    assert_eq!(c.total_shreds_per_slice, 64);
    assert_eq!(c.max_slice_size, 65536);
    assert_eq!(c.transmission_timeout, 100);
}

#[test]
fn small_block_is_one_slice_of_its_encoding() {
    let rotor = rotor_with(None).unwrap();
    let block = sample_block(4, 10);
    let slices = rotor.split_into_slices(block.clone());
    assert_eq!(slices.len(), 1);
    assert_eq!(slices[0].slot, 4);
    assert_eq!(slices[0].slice_index, 0);
    assert!(slices[0].is_last_slice);
    assert_eq!(slices[0].data, block_bytes(&block));
    assert_eq!(slices[0].merkle_root, sha256(&slices[0].data));
}

#[test]
fn slices_cut_the_encoding_in_order() {
    let rotor = rotor_with(Some(config(4, 8, 10))).unwrap();
    let block = sample_block(6, 25);
    let bytes = block_bytes(&block);
    let slices = rotor.split_into_slices(block);
    assert_eq!(slices.len(), (bytes.len() + 9) / 10);
    let mut joined = Vec::new();
    for (i, s) in slices.iter().enumerate() {
        assert_eq!(s.slice_index as usize, i);
        assert_eq!(s.is_last_slice, i == slices.len() - 1);
        assert!(s.data.len() <= 10);
        joined.extend_from_slice(&s.data);
    }
    assert_eq!(joined, bytes);
}

#[test]
fn erasure_coding_pads_cuts_and_adds_parity() {
    let rotor = rotor_with(Some(config(4, 6, 1000))).unwrap();
    let block = sample_block(8, 30);
    let slice = rotor.split_into_slices(block).remove(0);
    let encoded = slice_bytes(&slice);
    let shreds = rotor.erasure_encode_slice(slice.clone()).unwrap();
    assert_eq!(shreds.len(), 6);
    let size = (encoded.len() + 3) / 4;
    let mut padded = encoded.clone();
    padded.resize(size * 4, 0);
    let mut data: Vec<Vec<u8>> = (0..4).map(|i| padded[i * size..(i + 1) * size].to_vec()).collect();
    let mut parity = vec![vec![0u8; size]; 2];
    ReedSolomon::new(4, 2).unwrap().encode_sep(&mut data, &mut parity).unwrap();
    let expected: Vec<Vec<u8>> = data.into_iter().chain(parity).collect();
    let kp = KeyPair::new("alice".to_string());
    for (i, shred) in shreds.iter().enumerate() {
        assert_eq!(shred.shred_index as usize, i);
        assert_eq!(shred.slot, 8);
        assert_eq!(shred.slice_index, 0);
        assert!(shred.is_last_slice);
        assert_eq!(shred.data, expected[i]);
        assert_eq!(shred.merkle_root, slice.merkle_root);
        assert_eq!(shred.merkle_proof, vec![sha256(&shred.data)]);
        let mut signed = 8u64.to_le_bytes().to_vec();
        signed.extend_from_slice(&0u32.to_le_bytes());
        signed.extend_from_slice(&(i as u32).to_le_bytes());
        signed.extend_from_slice(&shred.data);
        assert!(kp.verify(&signed, &shred.leader_signature));
    }
    assert_ne!(shreds[4].data, shreds[0].data);
}

fn shreds_of(rotor: &Rotor, block: &Block) -> Vec<Vec<Shred>> {
    rotor
        .split_into_slices(block.clone())
        .into_iter()
        .map(|s| rotor.erasure_encode_slice(s).unwrap())
        .collect()
}

#[test]
fn receiver_rebuilds_a_one_slice_block_from_its_data_shreds() {
    let rotor = rotor_with(None).unwrap();
    let block = sample_block(11, 40);
    let shreds = shreds_of(&rotor, &block).remove(0);
    assert_eq!(shreds.len(), 64);
    let mut receiver = ShredReceiver::new("bob".to_string());
    for shred in shreds.iter().take(31) {
        match receiver.handle_shred(shred.clone()) {
            ShredOutcome::Relay(s) => assert_eq!(s.shred_index, shred.shred_index),
            other => panic!("unexpected outcome {:?}", other),
        }
    }
    match receiver.handle_shred(shreds[31].clone()) {
        ShredOutcome::Block(b) => assert_eq!(b, block),
        other => panic!("unexpected outcome {:?}", other),
    }
}

#[test]
fn receiver_needs_every_slice_before_the_last() {
    let rotor = rotor_with(Some(config(32, 64, 20))).unwrap();
    let block = sample_block(12, 30);
    let per_slice = shreds_of(&rotor, &block);
    assert!(per_slice.len() >= 2);
    let last = per_slice.len() - 1;
    let mut receiver = ShredReceiver::new("bob".to_string());
    for shred in per_slice[last].iter().take(31) {
        assert!(matches!(receiver.handle_shred(shred.clone()), ShredOutcome::Relay(_)));
    }
    assert!(matches!(receiver.handle_shred(per_slice[last][31].clone()), ShredOutcome::Incomplete));
    for slice_shreds in per_slice[..last].iter() {
        for shred in slice_shreds.iter().take(32) {
            assert!(matches!(receiver.handle_shred(shred.clone()), ShredOutcome::Relay(_)));
        }
    }
    match receiver.handle_shred(per_slice[last][32].clone()) {
        ShredOutcome::Block(b) => assert_eq!(b, block),
        other => panic!("unexpected outcome {:?}", other),
    }
}

#[test]
fn receiver_passes_on_shreds_outside_the_row() {
    let mut receiver = ShredReceiver::new("carol".to_string());
    let shred = Shred {
        slot: 1,
        slice_index: 0,
        shred_index: 64,
        is_last_slice: true,
        data: vec![1, 2, 3],
        merkle_root: [0u8; 32],
        merkle_proof: vec![],
        leader_signature: [0u8; 96],
    };
    assert!(matches!(receiver.handle_shred(shred), ShredOutcome::Relay(s) if s.shred_index == 64));
}

#[test]
fn transmission_progress_is_tracked() {
    let mut rotor = rotor_with(Some(config(4, 8, 16))).unwrap();
    let block = sample_block(20, 20);
    let slices = rotor.begin_transmission(block, 1000);
    let n = slices.len() as u32;
    assert!(n >= 2);
    assert_eq!(rotor.get_transmission_stats_at(20, 1250), Some((0, n, 250)));
    assert_eq!(rotor.get_transmission_stats_at(20, 900), Some((0, n, 0)));
    rotor.record_slice_sent(20);
    rotor.record_slice_sent(20);
    assert_eq!(rotor.get_transmission_stats_at(20, 1300), Some((2, n, 300)));
    rotor.record_slice_sent(21);
    assert_eq!(rotor.get_transmission_stats_at(21, 1300), None);
    assert_eq!(rotor.get_transmission_stats(20).map(|s| (s.0, s.1)), Some((2, n)));
    rotor.finish_transmission(20);
    assert_eq!(rotor.get_transmission_stats_at(20, 1300), None);
}

#[test]
fn receiver_rebuilds_from_parity_shreds_alone() {
    let rotor = rotor_with(None).unwrap();
    let block = sample_block(13, 50);
    let shreds = shreds_of(&rotor, &block).remove(0);
    let mut receiver = ShredReceiver::new("bob".to_string());
    for shred in shreds[32..63].iter() {
        assert!(matches!(receiver.handle_shred(shred.clone()), ShredOutcome::Relay(_)));
    }
    match receiver.handle_shred(shreds[63].clone()) {
        ShredOutcome::Block(b) => assert_eq!(b, block),
        other => panic!("unexpected outcome {:?}", other),
    }
}

#[test]
fn receiver_rebuilds_from_a_mix_of_data_and_parity() {
    let rotor = rotor_with(None).unwrap();
    let block = sample_block(14, 80);
    let shreds = shreds_of(&rotor, &block).remove(0);
    let picked: Vec<&Shred> = shreds.iter().filter(|s| s.shred_index % 2 == 1).collect();
    assert_eq!(picked.len(), 32);
    let mut receiver = ShredReceiver::new("bob".to_string());
    for shred in picked.iter().take(31) {
        assert!(matches!(receiver.handle_shred((*shred).clone()), ShredOutcome::Relay(_)));
    }
    match receiver.handle_shred(picked[31].clone()) {
        ShredOutcome::Block(b) => assert_eq!(b, block),
        other => panic!("unexpected outcome {:?}", other),
    }
}

#[test]
fn receiver_slice_rebuild_needs_shreds_of_one_length() {
    let rotor = rotor_with(None).unwrap();
    let block = sample_block(15, 20);
    let mut shreds = shreds_of(&rotor, &block).remove(0);
    shreds[0].data.push(0);
    let receiver = ShredReceiver::new("bob".to_string());
    let row: Vec<Option<Shred>> = shreds.iter().take(40).cloned().map(Some).chain((40..64).map(|_| None)).collect();
    assert!(receiver.reconstruct_slice(&row).is_none());
    let fewer: Vec<Option<Shred>> = shreds.iter().skip(1).take(31).cloned().map(Some).chain((32..64).map(|_| None)).collect();
    assert!(receiver.reconstruct_slice(&fewer).is_none());
}

#[test]
fn data_shards_read_back_as_their_slice() {
    let rotor = rotor_with(Some(config(4, 6, 1000))).unwrap();
    let slice = rotor.split_into_slices(sample_block(10, 40)).remove(0);
    let encoded = slice_bytes(&slice);
    let size = (encoded.len() + 3) / 4;
    let mut padded = encoded.clone();
    padded.resize(size * 4, 0);
    let mut shards: Vec<Option<Vec<u8>>> = (0..4).map(|i| Some(padded[i * size..(i + 1) * size].to_vec())).collect();
    shards.push(None);
    let back = ShredReceiver::slice_from_data_shards(&shards, 4).expect("the data shards hold the slice");
    assert_eq!(back.slot, slice.slot);
    assert_eq!(back.slice_index, slice.slice_index);
    assert_eq!(back.is_last_slice, slice.is_last_slice);
    assert_eq!(back.data, slice.data);
    assert_eq!(back.merkle_root, slice.merkle_root);
    shards[0] = Some(vec![0xff; size]);
    assert!(ShredReceiver::slice_from_data_shards(&shards, 4).is_none());
}
