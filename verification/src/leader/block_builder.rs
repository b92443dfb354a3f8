//! A leader's block: one transaction naming the slot and the leader, on top of
//! the chain head.

use vstd::prelude::*;

use vstd::utf8::encode_utf8;

use crate::clock::unix_time_millis;
use crate::consensus::blokstor::{Blokstor, BlokstorView};
use crate::types::messages::{spec_block_hash, Block, BlockView, Slot, Transaction, TransactionView, ValidatorId};

verus! {

/// The decimal digits of `n`, as ASCII bytes.
pub open spec fn decimal(n: nat) -> Seq<u8>
    decreases n,
{
    if n < 10 {
        seq![(48 + n) as u8]
    } else {
        decimal(n / 10).push((48 + n % 10) as u8)
    }
}

/// The text of a leader's transaction: `Block <slot> by <leader>`.
pub open spec fn block_label(slot: u64, leader: Seq<char>) -> Seq<u8> {
    encode_utf8("Block "@) + decimal(slot as nat) + encode_utf8(" by "@) + encode_utf8(leader)
}

/// The block a leader builds for `slot` on `parent` at time `timestamp`.
pub open spec fn built_block(slot: u64, leader: Seq<char>, parent: BlockView, timestamp: u64) -> BlockView {
    BlockView {
        slot,
        parent_hash: spec_block_hash(parent),
        transactions: seq![TransactionView { data: block_label(slot, leader), from: leader }],
        leader_id: leader,
        timestamp,
    }
}

fn push_decimal(out: &mut Vec<u8>, n: u64)
    ensures
        final(out)@ == old(out)@ + decimal(n as nat),
    decreases n,
{
    if n >= 10 {
        push_decimal(out, n / 10);
    }
    out.push(48 + (n % 10) as u8);
    assert(final(out)@ =~= old(out)@ + decimal(n as nat));
}

/// Builds a leader's blocks.
pub struct BlockBuilder {
    validator_id: ValidatorId,
}

impl BlockBuilder {
    /// The leader this builder builds for.
    pub closed spec fn leader(&self) -> Seq<char> {
        self.validator_id@
    }

    /// A builder for the validator named `validator_id`.
    pub fn new(validator_id: ValidatorId) -> (b: BlockBuilder)
        ensures
            b.leader() == validator_id@,
    {
        BlockBuilder { validator_id }
    }

    /// The block for `slot` on top of the chain head, stamped with the current
    /// time in milliseconds; `None` where the store holds no block at its latest slot.
    pub fn build_block(&self, slot: Slot, blokstor: &Blokstor) -> (r: Option<Block>)
        ensures
            r is Some <==> blokstor.view().blocks.contains_key(blokstor.view().latest_slot),
            r matches Some(b) ==> b@ == built_block(
                slot,
                self.leader(),
                blokstor.view().blocks[blokstor.view().latest_slot],
                b.timestamp,
            ),
    {
        let now = unix_time_millis();
        self.build_block_at(slot, blokstor, now)
    }

    /// The block for `slot` on top of the chain head, stamped with `timestamp`;
    /// `None` where the store holds no block at its latest slot.
    pub fn build_block_at(&self, slot: Slot, blokstor: &Blokstor, timestamp: u64) -> (r: Option<Block>)
        ensures
            r is Some <==> blokstor.view().blocks.contains_key(blokstor.view().latest_slot),
            r matches Some(b) ==> b@ == built_block(
                slot,
                self.leader(),
                blokstor.view().blocks[blokstor.view().latest_slot],
                timestamp,
            ),
    {
        let parent = match blokstor.get_chain_head() {
            Some(p) => p,
            None => return None,
        };
        let parent_hash = parent.hash();
        let mut data: Vec<u8> = Vec::new();
        data.extend_from_slice("Block ".as_bytes());
        push_decimal(&mut data, slot);
        data.extend_from_slice(" by ".as_bytes());
        data.extend_from_slice(self.validator_id.as_str().as_bytes());
        assert(data@ =~= block_label(slot, self.validator_id@));
        let mut transactions: Vec<Transaction> = Vec::new();
        transactions.push(Transaction { data, from: self.validator_id.clone() });
        let b = Block {
            slot,
            parent_hash,
            transactions,
            leader_id: self.validator_id.clone(),
            timestamp,
        };
        assert(b@.transactions =~= seq![TransactionView { data: block_label(slot, self.validator_id@), from: self.validator_id@ }]);
        Some(b)
    }
}

/// Law: a block built on the chain head of a store is accepted by that
/// store, unless it is too old: its parent, the chain head, is always found
/// by hash.
pub proof fn law_built_block_is_stored(store: BlokstorView, slot: u64, leader: Seq<char>, timestamp: u64)
    requires
        store.wf(),
        store.blocks.contains_key(store.latest_slot),
        !store.too_old(built_block(slot, leader, store.blocks[store.latest_slot], timestamp)),
    ensures
        store.after_store(built_block(slot, leader, store.blocks[store.latest_slot], timestamp)).1 is Ok,
        store.after_store(built_block(slot, leader, store.blocks[store.latest_slot], timestamp)).0.blocks[slot]
            == built_block(slot, leader, store.blocks[store.latest_slot], timestamp),
{
}

} // verus!
