//! Block storage: blocks indexed by slot and by hash, and the latest slot seen.

use vstd::prelude::*;

use std::collections::HashMap;

use vstd::std_specs::iter::IteratorSpec;

use crate::types::messages::{genesis_view, hashes_equal, spec_block_hash, Block, BlockView, Slot};

verus! {

broadcast use vstd::std_specs::hash::group_hash_axioms;

/// How many slots behind the latest one a block may be and still be stored.
pub const MAX_BLOCK_AGE: u64 = 20;

/// Why a block was not stored.
#[derive(Debug, Clone, Copy, PartialEq, Eq)]
pub enum BlokstorError {
    /// The block is more than [`MAX_BLOCK_AGE`] slots behind the latest slot.
    SlotTooOld { slot: Slot, latest_slot: Slot },
    /// No stored block has the block's parent hash.
    ParentNotFound,
}

/// The blocks of the chain, by slot and by hash.
pub struct Blokstor {
    blocks: HashMap<Slot, Block>,
    block_by_hash: Vec<([u8; 32], Block)>,
    latest_slot: Slot,
    genesis_hash: [u8; 32],
}

/// The mathematical value of a [`Blokstor`].
pub struct BlokstorView {
    pub blocks: Map<u64, BlockView>,
    pub by_hash: Map<Seq<u8>, BlockView>,
    pub latest_slot: u64,
    pub genesis_hash: Seq<u8>,
}

/// The map that a list of (hash, block) entries stands for: a later entry wins.
pub open spec fn entries_map(es: Seq<([u8; 32], Block)>) -> Map<Seq<u8>, BlockView>
    decreases es.len(),
{
    if es.len() == 0 {
        Map::empty()
    } else {
        entries_map(es.drop_last()).insert(es.last().0@, es.last().1@)
    }
}

/// The blocks stored in slots `start..=end`, in slot order.
pub open spec fn blocks_in_range(blocks: Map<u64, BlockView>, start: int, end: int) -> Seq<BlockView>
    decreases end - start + 1,
{
    if end < start {
        Seq::empty()
    } else if end >= 0 && end <= u64::MAX && blocks.contains_key(end as u64) {
        blocks_in_range(blocks, start, end - 1).push(blocks[end as u64])
    } else {
        blocks_in_range(blocks, start, end - 1)
    }
}

/// Whether the blocks of `start..=end` form a chain: every slot holds a
/// block, and each block after the first names its predecessor's hash.
pub open spec fn linked_chain(blocks: Map<u64, BlockView>, start: u64, end: u64) -> bool {
    &&& forall|s: u64| start <= s <= end ==> #[trigger] blocks.contains_key(s)
    &&& forall|s: u64|
        start < s <= end ==> #[trigger] blocks[s].parent_hash == spec_block_hash(blocks[(s - 1) as u64])
}

/// Whether `s` holds a block and no slot above it does.
pub open spec fn is_highest(blocks: Map<u64, BlockView>, s: u64) -> bool {
    blocks.contains_key(s) && forall|k: u64| #[trigger] blocks.contains_key(k) ==> k <= s
}

/// The highest slot holding a block, or 0 where none does.
pub open spec fn highest_stored(blocks: Map<u64, BlockView>) -> u64 {
    if exists|s: u64| is_highest(blocks, s) {
        choose|s: u64| is_highest(blocks, s)
    } else {
        0
    }
}

/// The highest key of the map (0 for an empty map).
fn highest_key(m: &HashMap<Slot, Block>) -> (r: u64)
    ensures
        forall|k: u64| m@.contains_key(k) ==> k <= r,
        (exists|k: u64| m@.contains_key(k)) ==> m@.contains_key(r),
        !(exists|k: u64| m@.contains_key(k)) ==> r == 0,
{
    let mut best: u64 = 0;
    let mut found = false;
    for pair in it: m.iter()
        invariant
            it.seq() == vstd::std_specs::hash::spec_hash_map_iter(m).remaining(),
            forall|j: int| 0 <= j < it.seq().len() ==> m@.contains_key(*it.seq()[j].0),
            forall|j: int| 0 <= j < it.index() ==> *it.seq()[j].0 <= best,
            found ==> m@.contains_key(best),
            !found ==> best == 0 && it.index() == 0,
    {
        assert(pair == it.seq()[it.index()]);
        let (slot, _) = pair;
        if !found || *slot > best {
            best = *slot;
            found = true;
        }
    }
    best
}

/// The store that holds only the genesis block.
pub open spec fn genesis_store() -> BlokstorView {
    BlokstorView {
        blocks: Map::empty().insert(0u64, genesis_view()),
        by_hash: Map::empty().insert(spec_block_hash(genesis_view()), genesis_view()),
        latest_slot: 0,
        genesis_hash: spec_block_hash(genesis_view()),
    }
}

impl BlokstorView {
    /// Every block is stored under its own slot and under its own hash; every
    /// block stored by slot can be found by its hash; slot 0 holds a block;
    /// the genesis block can be found by its hash; and no block sits above
    /// the latest slot.
    pub open spec fn wf(self) -> bool {
        &&& forall|s: u64| #[trigger] self.blocks.contains_key(s) ==> self.blocks[s].slot == s
        &&& forall|h: Seq<u8>| #[trigger]
            self.by_hash.contains_key(h) ==> spec_block_hash(self.by_hash[h]) == h
        &&& self.genesis_hash == spec_block_hash(genesis_view())
        &&& forall|s: u64| #[trigger]
            self.blocks.contains_key(s) ==> self.by_hash.contains_key(spec_block_hash(self.blocks[s]))
        &&& self.blocks.contains_key(0)
        &&& self.by_hash.contains_key(self.genesis_hash)
        &&& forall|s: u64| #[trigger] self.blocks.contains_key(s) ==> s <= self.latest_slot
    }

    /// The store after `block` is put in, under its slot and hash, with the latest
    /// slot raised to the block's slot.
    pub open spec fn with_block(self, block: BlockView) -> BlokstorView {
        BlokstorView {
            blocks: self.blocks.insert(block.slot, block),
            by_hash: self.by_hash.insert(spec_block_hash(block), block),
            latest_slot: if block.slot > self.latest_slot {
                block.slot
            } else {
                self.latest_slot
            },
            genesis_hash: self.genesis_hash,
        }
    }

    /// The store and the answer after `block` is offered: refused where it is
    /// too old; otherwise the latest slot is raised to the block's slot, and the
    /// block is refused where its parent is not stored, or else stored.
    pub open spec fn after_store(self, block: BlockView) -> (BlokstorView, Result<(), BlokstorError>) {
        if self.too_old(block) {
            (self, Err(BlokstorError::SlotTooOld { slot: block.slot, latest_slot: self.latest_slot }))
        } else if !self.by_hash.contains_key(block.parent_hash) {
            (
                BlokstorView {
                    latest_slot: if block.slot > self.latest_slot {
                        block.slot
                    } else {
                        self.latest_slot
                    },
                    ..self
                },
                Err(BlokstorError::ParentNotFound),
            )
        } else {
            (self.with_block(block), Ok(()))
        }
    }

    /// Whether `block` is too old to be stored: more than [`MAX_BLOCK_AGE`]
    /// slots behind the latest slot.
    pub open spec fn too_old(self, block: BlockView) -> bool {
        self.latest_slot >= MAX_BLOCK_AGE && block.slot < self.latest_slot - MAX_BLOCK_AGE
    }
}

impl Blokstor {
    /// The store's content.
    pub closed spec fn view(&self) -> BlokstorView {
        BlokstorView {
            blocks: self.blocks@.map_values(|b: Block| b@),
            by_hash: entries_map(self.block_by_hash@),
            latest_slot: self.latest_slot,
            genesis_hash: self.genesis_hash@,
        }
    }

    /// The store's invariant: see [`BlokstorView::wf`].
    pub open spec fn wf(&self) -> bool {
        self.view().wf()
    }

    proof fn lemma_entries_push(es: Seq<([u8; 32], Block)>, e: ([u8; 32], Block))
        ensures
            entries_map(es.push(e)) == entries_map(es).insert(e.0@, e.1@),
    {
        assert(es.push(e).drop_last() =~= es);
    }

    /// A store holding only the genesis block, at slot 0.
    pub fn new() -> (s: Blokstor)
        ensures
            s.view() == genesis_store(),
            s.wf(),
    {
        let genesis = Block::genesis();
        let genesis_hash = genesis.hash();
        let mut blocks: HashMap<Slot, Block> = HashMap::new();
        let mut block_by_hash: Vec<([u8; 32], Block)> = Vec::new();
        blocks.insert(0, genesis.clone());
        block_by_hash.push((genesis_hash, genesis));
        let s = Blokstor { blocks, block_by_hash, latest_slot: 0, genesis_hash };
        proof {
            Self::lemma_entries_push(Seq::empty(), (genesis_hash, genesis));
            assert(Seq::<([u8; 32], Block)>::empty().push((genesis_hash, genesis))
                =~= s.block_by_hash@);
            assert(entries_map(Seq::empty()) =~= Map::empty());
            assert(s.view().blocks =~= genesis_store().blocks);
            assert(s.view().by_hash =~= genesis_store().by_hash);
        }
        s
    }

    proof fn lemma_insert_keeps_wf(self_view: BlokstorView, block: BlockView)
        requires
            self_view.wf(),
        ensures
            self_view.with_block(block).wf(),
    {
    }

    fn put(&mut self, block: Block)
        requires
            old(self).wf(),
        ensures
            final(self).view() == old(self).view().with_block(block@),
            final(self).wf(),
    {
        let hash = block.hash();
        let slot = block.slot;
        let ghost bv = block@;
        let copy = block.clone();
        proof {
            Self::lemma_entries_push(self.block_by_hash@, (hash, copy));
        }
        self.block_by_hash.push((hash, copy));
        self.blocks.insert(slot, block);
        if slot > self.latest_slot {
            self.latest_slot = slot;
        }
        proof {
            assert(self.view().blocks =~= old(self).view().blocks.insert(slot, bv));
            Self::lemma_insert_keeps_wf(old(self).view(), bv);
        }
    }

    /// Stores a block whose parent is stored and which is at most
    /// [`MAX_BLOCK_AGE`] slots behind the latest slot.  A block that is not too
    /// old raises the latest slot to its own slot even where its parent is missing.
    pub fn store_block(&mut self, block: Block) -> (r: Result<(), BlokstorError>)
        requires
            old(self).wf(),
        ensures
            final(self).wf(),
            (final(self).view(), r) == old(self).view().after_store(block@),
    {
        let floor = self.latest_slot.saturating_sub(MAX_BLOCK_AGE);
        if block.slot < floor {
            return Err(BlokstorError::SlotTooOld { slot: block.slot, latest_slot: self.latest_slot });
        }
        if block.slot > self.latest_slot {
            self.latest_slot = block.slot;
        }
        assert(self.view() == (BlokstorView { latest_slot: self.latest_slot, ..old(self).view() }));
        if self.find_by_hash(&block.parent_hash).is_none() {
            return Err(BlokstorError::ParentNotFound);
        }
        self.put(block);
        Ok(())
    }

    fn find_by_hash(&self, hash: &[u8; 32]) -> (r: Option<&Block>)
        ensures
            match r {
                Some(b) => self.view().by_hash.contains_key(hash@) && b@ == self.view().by_hash[hash@],
                None => !self.view().by_hash.contains_key(hash@),
            },
    {
        broadcast use vstd::array::axiom_array_ext_equal;

        let ghost es = self.block_by_hash@;
        let mut j: usize = self.block_by_hash.len();
        assert(es.take(j as int) =~= es);
        while j > 0
            invariant
                j <= es.len(),
                es == self.block_by_hash@,
                entries_map(es.take(j as int)).contains_key(hash@) == entries_map(es).contains_key(hash@),
                entries_map(es.take(j as int)).contains_key(hash@) ==> entries_map(es.take(j as int))[hash@]
                    == entries_map(es)[hash@],
            decreases j,
        {
            assert(es.take(j as int).drop_last() =~= es.take(j - 1));
            let entry = &self.block_by_hash[j - 1];
            if hashes_equal(&entry.0, hash) {
                assert(entry.0@ == hash@);
                return Some(&entry.1);
            }
            assert(entry.0@ != hash@) by {
                if entry.0@ == hash@ {
                    assert(entry.0 =~= *hash);
                }
            }
            j = j - 1;
        }
        assert(es.take(0) =~= Seq::<([u8; 32], Block)>::empty());
        None
    }

    /// The block stored in `slot`.
    pub fn get_block(&self, slot: Slot) -> (r: Option<&Block>)
        ensures
            match r {
                Some(b) => self.view().blocks.contains_key(slot) && b@ == self.view().blocks[slot],
                None => !self.view().blocks.contains_key(slot),
            },
    {
        self.blocks.get(&slot)
    }

    /// The block stored under `hash`.
    pub fn get_block_by_hash(&self, hash: &[u8; 32]) -> (r: Option<&Block>)
        ensures
            match r {
                Some(b) => self.view().by_hash.contains_key(hash@) && b@ == self.view().by_hash[hash@],
                None => !self.view().by_hash.contains_key(hash@),
            },
    {
        self.find_by_hash(hash)
    }

    /// The latest slot seen.
    pub fn latest_slot(&self) -> (s: Slot)
        ensures
            s == self.view().latest_slot,
    {
        self.latest_slot
    }

    /// The block stored in the latest slot, if any.
    pub fn get_chain_head(&self) -> (r: Option<&Block>)
        ensures
            match r {
                Some(b) => self.view().blocks.contains_key(self.view().latest_slot) && b@
                    == self.view().blocks[self.view().latest_slot],
                None => !self.view().blocks.contains_key(self.view().latest_slot),
            },
    {
        self.blocks.get(&self.latest_slot)
    }

    /// Copies of the blocks stored in slots `start_slot..=end_slot`, in slot order.
    pub fn get_blocks_range(&self, start_slot: Slot, end_slot: Slot) -> (r: Vec<Block>)
        ensures
            r@.map_values(|b: Block| b@) == blocks_in_range(
                self.view().blocks,
                start_slot as int,
                end_slot as int,
            ),
    {
        let mut out: Vec<Block> = Vec::new();
        if start_slot > end_slot {
            return out;
        }
        let mut slot = start_slot;
        loop
            invariant
                start_slot <= slot <= end_slot,
                out@.map_values(|b: Block| b@) == blocks_in_range(
                    self.view().blocks,
                    start_slot as int,
                    slot - 1,
                ),
            decreases end_slot - slot,
        {
            let ghost before = out@;
            match self.blocks.get(&slot) {
                Some(b) => {
                    out.push(b.clone());
                    assert(out@.map_values(|b: Block| b@) =~= before.map_values(|b: Block| b@).push(
                        self.view().blocks[slot],
                    ));
                },
                None => {},
            }
            if slot == end_slot {
                return out;
            }
            slot = slot + 1;
        }
    }

    /// Whether the blocks of `start_slot..=end_slot` form a chain: every slot
    /// holds a block, and each block after the first names the block of the
    /// slot before it as its parent, by hash.
    pub fn has_continuous_chain(&self, start_slot: Slot, end_slot: Slot) -> (r: bool)
        ensures
            r == linked_chain(self.view().blocks, start_slot, end_slot),
    {
        if start_slot > end_slot {
            return true;
        }
        let mut slot = start_slot;
        loop
            invariant
                start_slot <= slot <= end_slot,
                forall|s: u64| start_slot <= s < slot ==> #[trigger] self.view().blocks.contains_key(s),
                forall|s: u64|
                    start_slot < s < slot ==> #[trigger] self.view().blocks[s].parent_hash == spec_block_hash(
                        self.view().blocks[(s - 1) as u64],
                    ),
            decreases end_slot - slot,
        {
            match self.blocks.get(&slot) {
                None => {
                    assert(!self.view().blocks.contains_key(slot));
                    return false;
                },
                Some(block) => {
                    if slot > start_slot {
                        let prev_slot = slot - 1;
                        assert(self.view().blocks.contains_key(prev_slot));
                        let prev = self.blocks.get(&prev_slot).unwrap();
                        let prev_hash = prev.hash();
                        let linked = hashes_equal(&block.parent_hash, &prev_hash);
                        assert(self.view().blocks[slot] == block@);
                        assert(self.view().blocks[prev_slot] == prev@);
                        if !linked {
                            assert(block@.parent_hash != spec_block_hash(prev@)) by {
                                broadcast use vstd::array::axiom_array_ext_equal;
                                if block@.parent_hash == spec_block_hash(prev@) {
                                    assert(block.parent_hash =~= prev_hash);
                                }
                            }
                            assert(self.view().blocks[slot].parent_hash != spec_block_hash(
                                self.view().blocks[(slot - 1) as u64],
                            ));
                            return false;
                        }
                        assert(block@.parent_hash == spec_block_hash(prev@));
                    }
                },
            }
            if slot == end_slot {
                return true;
            }
            slot = slot + 1;
        }
    }

    /// The highest slot we have a block for (0 for a store with no block).
    pub fn get_highest_slot(&self) -> (s: Slot)
        ensures
            s == highest_stored(self.view().blocks),
    {
        let r = highest_key(&self.blocks);
        proof {
            let b = self.view().blocks;
            assert forall|k: u64| #[trigger] b.contains_key(k) == self.blocks@.contains_key(k) by {}
            if exists|k: u64| self.blocks@.contains_key(k) {
                assert(is_highest(b, r));
                assert forall|t: u64| is_highest(b, t) implies t == r by {}
            } else {
                assert forall|t: u64| !is_highest(b, t) by {
                    if is_highest(b, t) {
                        assert(self.blocks@.contains_key(t));
                    }
                }
            }
        }
        r
    }

    /// Empties the store and puts back the genesis block alone.
    pub fn reset_to_genesis(&mut self)
        ensures
            final(self).view() == genesis_store(),
            final(self).wf(),
    {
        *self = Blokstor::new();
    }

    /// Stores a block without checking its parent or its age.
    pub fn force_store_block(&mut self, block: Block) -> (r: Result<(), BlokstorError>)
        requires
            old(self).wf(),
        ensures
            r is Ok,
            final(self).view() == old(self).view().with_block(block@),
            final(self).wf(),
    {
        self.put(block);
        Ok(())
    }
}

} // verus!

verus! {

/// Law: a block that was stored is what the store gives back, by its slot and
/// by its hash.
pub proof fn law_stored_block_is_read_back(store: BlokstorView, block: BlockView)
    ensures
        store.with_block(block).blocks.contains_key(block.slot),
        store.with_block(block).blocks[block.slot] == block,
        store.with_block(block).by_hash.contains_key(spec_block_hash(block)),
        store.with_block(block).by_hash[spec_block_hash(block)] == block,
{
}

/// Law: storing a block never lowers the latest slot, and leaves every other
/// slot's block and every other hash's block as it was.
pub proof fn law_store_keeps_the_rest(store: BlokstorView, block: BlockView, slot: u64, h: Seq<u8>)
    ensures
        store.with_block(block).latest_slot >= store.latest_slot,
        store.with_block(block).latest_slot >= block.slot,
        slot != block.slot ==> store.with_block(block).blocks.contains_key(slot) == store.blocks.contains_key(slot)
            && store.with_block(block).blocks[slot] == store.blocks[slot],
        h != spec_block_hash(block) ==> store.with_block(block).by_hash.contains_key(h) == store.by_hash.contains_key(h)
            && store.with_block(block).by_hash[h] == store.by_hash[h],
{
}

/// Law: offering a block never lowers the latest slot, and keeps the
/// store's invariant, whether the block is stored or refused.
pub proof fn law_latest_slot_never_decreases(store: BlokstorView, block: BlockView)
    requires
        store.wf(),
    ensures
        store.after_store(block).0.latest_slot >= store.latest_slot,
        store.after_store(block).0.wf(),
{
}

/// Law: a chain of `start..=end` gives all its blocks: the range holds one
/// block per slot.
pub proof fn law_continuous_chain_gives_full_range(blocks: Map<u64, BlockView>, start: u64, end: u64)
    requires
        start <= end,
        linked_chain(blocks, start, end),
    ensures
        blocks_in_range(blocks, start as int, end as int).len() == end - start + 1,
    decreases end - start,
{
    assert(blocks.contains_key(end));
    if start < end {
        law_continuous_chain_gives_full_range(blocks, start, (end - 1) as u64);
    } else {
        assert(blocks_in_range(blocks, start as int, end as int - 1).len() == 0);
    }
}

/// Law: a range read misses no block: every block stored at a slot of
/// `start..=end` is among the blocks [`Blokstor::get_blocks_range`] returns
/// for that range, whatever other slots of the range are empty.
pub proof fn law_blocks_range_holds_every_stored_block(blocks: Map<u64, BlockView>, start: int, end: int, s: u64)
    requires
        blocks.contains_key(s),
        start <= s <= end,
    ensures
        blocks_in_range(blocks, start, end).contains(blocks[s]),
    decreases end - start + 1,
{
    if end == s {
        let r = blocks_in_range(blocks, start, end - 1);
        assert(r.push(blocks[s])[r.len() as int] == blocks[s]);
    } else {
        law_blocks_range_holds_every_stored_block(blocks, start, end - 1, s);
        let r = blocks_in_range(blocks, start, end - 1);
        let k = choose|k: int| 0 <= k < r.len() && r[k] == blocks[s];
        if end >= 0 && end <= u64::MAX && blocks.contains_key(end as u64) {
            assert(r.push(blocks[end as u64])[k] == blocks[s]);
        }
    }
}

/// Law: a range read holds nothing else: each block it returns is the block
/// stored at some slot of `start..=end`.
pub proof fn law_blocks_range_holds_only_stored_blocks(blocks: Map<u64, BlockView>, start: int, end: int, i: int)
    requires
        0 <= i < blocks_in_range(blocks, start, end).len(),
    ensures
        exists|s: u64|
            start <= s <= end && #[trigger] blocks.contains_key(s) && blocks_in_range(blocks, start, end)[i]
                == blocks[s],
    decreases end - start + 1,
{
    let r = blocks_in_range(blocks, start, end - 1);
    if end >= 0 && end <= u64::MAX && blocks.contains_key(end as u64) && i == r.len() {
        let e = end as u64;
        assert(blocks.contains_key(e));
    } else {
        if end >= start && end >= 0 && end <= u64::MAX && blocks.contains_key(end as u64) {
            assert(blocks_in_range(blocks, start, end)[i] == r[i]);
        }
        law_blocks_range_holds_only_stored_blocks(blocks, start, end - 1, i);
    }
}

} // verus!
