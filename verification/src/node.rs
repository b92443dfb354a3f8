//! A validator's decisions: what it does with each message, at each slot tick,
//! and when it repairs or joins the chain.  The caller runs the loop: it hands
//! in messages and ticks, performs the actions that come back (broadcasts,
//! sends, block dissemination), and does the network exchanges of a repair.

use vstd::prelude::*;

use crate::consensus::blokstor::{blocks_in_range, law_blocks_range_holds_every_stored_block,
    law_blocks_range_holds_only_stored_blocks, genesis_store, highest_stored, Blokstor, BlokstorError, BlokstorView};
use crate::consensus::pool::{pool_events_view, Pool, PoolEvent, PoolEventView, PoolView};
use crate::consensus::votor::{fired_in_order, votor_events_view, Votor, VotorEvent, VotorEventView, VotorView};
use crate::leader::block_builder::{built_block, BlockBuilder};
use crate::leader::schedule::{LeaderSchedule, LEADER_WINDOW};
use crate::types::crypto::KeyPair;
use crate::types::messages::{
    blocks_view, genesis_view, hash_of, lemma_hash_of, spec_block_hash, AlpenglowMessage, AlpenglowMessageView,
    Block, BlockView, ChainSyncRequest, ChainSyncResponse, ChainSyncResponseView, Slot,
    ValidatorId,
};
use crate::types::network::{stake_sum, NetworkConfig};

verus! {

/// How long a slot waits before it times out, in milliseconds.
pub const SLOT_TIMEOUT_MS: u64 = 400;

/// How long a slot lasts, in milliseconds.
pub const SLOT_DURATION_MS: u64 = 400;

/// How many slots before the current one a sync answer covers.
pub const SYNC_WINDOW: usize = 20;

/// How many slots behind the current slot a block counts as finalized.
pub const FINALITY_DEPTH: u64 = 10;

/// How many blocks a repair may store without their parent.
pub const REPAIR_FORCE_LIMIT: u64 = 5;

/// What the caller is to do.
#[derive(Debug)]
pub enum NodeAction {
    /// Send the message to every peer.
    Broadcast(AlpenglowMessage),
    /// Send the message to one peer.
    SendTo { peer: ValidatorId, message: AlpenglowMessage },
    /// Disseminate our block through the relays.
    Disseminate(Block),
    /// The block's parent is missing: repair the chain, then offer the block
    /// again with [`AlpenglowNode::retry_block`].
    RepairThenRetry { missing_slot: Slot, block: Block },
}

/// The mathematical value of a [`NodeAction`].
pub enum NodeActionView {
    Broadcast(AlpenglowMessageView),
    SendTo { peer: Seq<char>, message: AlpenglowMessageView },
    Disseminate(BlockView),
    RepairThenRetry { missing_slot: u64, block: BlockView },
}

impl View for NodeAction {
    type V = NodeActionView;

    open spec fn view(&self) -> NodeActionView {
        match self {
            NodeAction::Broadcast(m) => NodeActionView::Broadcast(m@),
            NodeAction::SendTo { peer, message } => NodeActionView::SendTo { peer: peer@, message: message@ },
            NodeAction::Disseminate(b) => NodeActionView::Disseminate(b@),
            NodeAction::RepairThenRetry { missing_slot, block } => NodeActionView::RepairThenRetry {
                missing_slot: *missing_slot,
                block: block@,
            },
        }
    }
}

/// The views of a sequence of actions.
pub open spec fn actions_view(acts: Seq<NodeAction>) -> Seq<NodeActionView> {
    acts.map_values(|a: NodeAction| a@)
}

/// The message that announces a pool event's certificate.
pub open spec fn pool_event_message(e: PoolEventView) -> AlpenglowMessageView {
    match e {
        PoolEventView::BlockNotarized { certificate, .. } => AlpenglowMessageView::NotarCertificate(certificate),
        PoolEventView::FastFinalized { certificate, .. } => AlpenglowMessageView::FastFinalCertificate(certificate),
        PoolEventView::SlotSkipped { certificate, .. } => AlpenglowMessageView::SkipCertificate(certificate),
    }
}

/// The broadcasts of the pool events' certificates, in order.
pub open spec fn broadcasts_of(es: Seq<PoolEventView>) -> Seq<NodeActionView> {
    es.map_values(|e: PoolEventView| NodeActionView::Broadcast(pool_event_message(e)))
}

/// `a - b`, or 0 where `b > a`.
pub open spec fn sat_sub(a: u64, b: u64) -> u64 {
    if a >= b {
        (a - b) as u64
    } else {
        0
    }
}

/// The highest slot among `floor` and the slots `lo..=hi` that hold a block.
pub open spec fn highest_present(blocks: Map<u64, BlockView>, lo: int, hi: int, floor: u64) -> u64
    decreases hi - lo + 1,
{
    if hi < lo {
        floor
    } else {
        let m = highest_present(blocks, lo, hi - 1, floor);
        if 0 <= hi <= u64::MAX && blocks.contains_key(hi as u64) && hi > m {
            hi as u64
        } else {
            m
        }
    }
}

/// `blocks` with `b` put after every block whose slot is at most `b`'s.
pub open spec fn insert_by_slot(blocks: Seq<BlockView>, b: BlockView) -> Seq<BlockView>
    decreases blocks.len(),
{
    if blocks.len() == 0 {
        seq![b]
    } else if blocks[0].slot > b.slot {
        seq![b] + blocks
    } else {
        seq![blocks[0]] + insert_by_slot(blocks.drop_first(), b)
    }
}

/// The blocks sorted by slot, blocks of equal slot in their order (a stable sort).
pub open spec fn sort_by_slot(blocks: Seq<BlockView>) -> Seq<BlockView>
    decreases blocks.len(),
{
    if blocks.len() == 0 {
        Seq::empty()
    } else {
        insert_by_slot(sort_by_slot(blocks.drop_last()), blocks.last())
    }
}

/// The store and count after a repair offers the blocks in order: a block is
/// stored where it can be; a block whose parent is missing is stored anyway
/// while fewer than [`REPAIR_FORCE_LIMIT`] blocks have been stored; the count
/// is of the blocks stored.
pub open spec fn repair_store(store: BlokstorView, blocks: Seq<BlockView>) -> (BlokstorView, nat)
    decreases blocks.len(),
{
    if blocks.len() == 0 {
        (store, 0)
    } else {
        let (s1, c1) = repair_store(store, blocks.drop_last());
        let b = blocks.last();
        let (s2, r) = s1.after_store(b);
        match r {
            Ok(()) => (s2, c1 + 1),
            Err(BlokstorError::ParentNotFound) => if c1 < REPAIR_FORCE_LIMIT {
                (s2.with_block(b), c1 + 1)
            } else {
                (s2, c1)
            },
            Err(_) => (s2, c1),
        }
    }
}

/// The store after the blocks are offered in order, refusals ignored.
pub open spec fn store_all(store: BlokstorView, blocks: Seq<BlockView>) -> BlokstorView
    decreases blocks.len(),
{
    if blocks.len() == 0 {
        store
    } else {
        store_all(store, blocks.drop_last()).after_store(blocks.last()).0
    }
}

/// A validator's state, as its decisions see it.
pub struct NodeView {
    pub blokstor: BlokstorView,
    pub pool: PoolView,
    pub votor: VotorView,
    pub schedule: Seq<String>,
    pub builder: Seq<char>,
    pub validator_id: String,
    pub current_slot: u64,
}

/// The first slot after `slot`'s leader window.
pub open spec fn window_end(slot: u64) -> int {
    slot - slot % LEADER_WINDOW + LEADER_WINDOW
}

/// The voting machine with the timeouts of the slots from `from` up to `end`
/// set, as on entering slot `start` at time `now`: slot `s` times out
/// [`SLOT_TIMEOUT_MS`] plus `s - start` slot durations later.  Entered at
/// the start of its window, each slot of the window times out after the
/// timeout plus its place in the window times the slot duration.
pub open spec fn with_window_timeouts(v: VotorView, from: int, end: int, start: u64, now: u64) -> VotorView
    decreases end - from,
{
    if from >= end || from < 0 || from > u64::MAX {
        v
    } else {
        with_window_timeouts(
            v.after_set_timeout(from as u64, (now + SLOT_TIMEOUT_MS + (from - start) * SLOT_DURATION_MS) as u64),
            from + 1,
            end,
            start,
            now,
        )
    }
}

impl NodeView {
    /// The node's invariant: its parts keep theirs, the network has stake, and
    /// the schedule has a leader for every slot.
    pub open spec fn wf(self) -> bool {
        &&& self.blokstor.wf()
        &&& self.pool.wf()
        &&& 0 < self.pool.total_stake() <= u64::MAX
        &&& self.votor.keypair.wf()
        &&& self.votor.keypair.validator_id == self.votor.validator_id
        &&& self.schedule.len() > 0
    }

    /// The pool takes the message; the certificates it creates are broadcast.
    pub open spec fn with_pool_message(self, msg: AlpenglowMessageView) -> (NodeView, Seq<NodeActionView>) {
        let (p, es) = self.pool.after_message(msg);
        (NodeView { pool: p, ..self }, broadcasts_of(es))
    }

    /// A vote the voting machine decided on is broadcast and added to our pool.
    pub open spec fn after_votor_event(self, e: VotorEventView) -> (NodeView, Seq<NodeActionView>) {
        match e {
            VotorEventView::ShouldCastVote { vote } => {
                let (n, a) = self.with_pool_message(vote);
                (n, seq![NodeActionView::Broadcast(vote)] + a)
            },
            _ => (self, Seq::empty()),
        }
    }

    /// The voting machine's events, in order.
    pub open spec fn after_votor_events(self, es: Seq<VotorEventView>) -> (NodeView, Seq<NodeActionView>)
        decreases es.len(),
    {
        if es.len() == 0 {
            (self, Seq::empty())
        } else {
            let (n, a) = self.after_votor_events(es.drop_last());
            let (n2, a2) = n.after_votor_event(es.last());
            (n2, a + a2)
        }
    }

    /// A stored block goes to the voting machine, and its events are handled.
    pub open spec fn after_block_received(self, b: BlockView) -> (NodeView, Seq<NodeActionView>) {
        let (v, es) = self.votor.after_block_received(b.slot, hash_of(spec_block_hash(b)));
        NodeView { votor: v, ..self }.after_votor_events(es)
    }

    /// A block is offered to the store: a stored block is voted on; a block
    /// whose parent is missing asks for a repair where `repair` holds; other
    /// refusals do nothing more.
    pub open spec fn after_block(self, b: BlockView, repair: bool) -> (NodeView, Seq<NodeActionView>) {
        let (s, r) = self.blokstor.after_store(b);
        let n = NodeView { blokstor: s, ..self };
        match r {
            Ok(()) => n.after_block_received(b),
            Err(BlokstorError::ParentNotFound) => if repair {
                (n, seq![NodeActionView::RepairThenRetry { missing_slot: b.slot, block: b }])
            } else {
                (n, Seq::empty())
            },
            Err(_) => (n, Seq::empty()),
        }
    }

    /// The latest slot counted as finalized.
    pub open spec fn finalized_slot(self) -> u64 {
        sat_sub(self.current_slot, FINALITY_DEPTH)
    }

    /// The hash of the block in the finalized slot, the genesis block's hash where there is none.
    pub open spec fn finalized_hash(self) -> Seq<u8> {
        if self.blokstor.blocks.contains_key(self.finalized_slot()) {
            spec_block_hash(self.blokstor.blocks[self.finalized_slot()])
        } else {
            spec_block_hash(genesis_view())
        }
    }

    /// The blocks of the slots before the current one, [`SYNC_WINDOW`] back.
    pub open spec fn recent_blocks(self) -> Seq<BlockView> {
        blocks_in_range(
            self.blokstor.blocks,
            sat_sub(self.current_slot, SYNC_WINDOW as u64) as int,
            sat_sub(self.current_slot, 1) as int,
        )
    }

    /// Our answer to a chain sync request.
    pub open spec fn sync_response(self) -> ChainSyncResponseView {
        ChainSyncResponseView {
            latest_finalized_slot: self.finalized_slot(),
            latest_finalized_hash: self.finalized_hash(),
            current_slot: self.current_slot,
            recent_blocks: self.recent_blocks(),
        }
    }

    /// What a message from a peer does: a block is offered to the store (and
    /// voted on, or repaired); notarization, skip and finalization votes go to
    /// the pool; a chain sync request is answered; anything else
    /// (certificates included) changes nothing.
    pub open spec fn after_message(self, msg: AlpenglowMessageView) -> (NodeView, Seq<NodeActionView>) {
        match msg {
            AlpenglowMessageView::Block(b) => self.after_block(b, true),
            AlpenglowMessageView::NotarVote(v) => self.with_pool_message(AlpenglowMessageView::NotarVote(v)),
            AlpenglowMessageView::SkipVote(v) => self.with_pool_message(AlpenglowMessageView::SkipVote(v)),
            AlpenglowMessageView::FinalVote(v) => self.with_pool_message(AlpenglowMessageView::FinalVote(v)),
            AlpenglowMessageView::ChainSyncRequest(r) => (
                self,
                seq![NodeActionView::SendTo {
                    peer: r.from_validator@,
                    message: AlpenglowMessageView::ChainSyncResponse(self.sync_response()),
                }],
            ),
            _ => (self, Seq::empty()),
        }
    }

    /// The slot the network seems to be at: the highest slot with a block, from
    /// 10 slots back to 50 ahead of ours, or ours.
    pub open spec fn network_slot(self) -> u64 {
        highest_present(
            self.blokstor.blocks,
            sat_sub(self.current_slot, 10) as int,
            self.current_slot + 50,
            self.current_slot,
        )
    }

    /// The next slot: the network's where it is more than 3 slots ahead, else ours plus one.
    pub open spec fn next_slot(self) -> u64 {
        if self.network_slot() > self.current_slot + 3 {
            self.network_slot()
        } else {
            (self.current_slot + 1) as u64
        }
    }

    /// Whether we lead `slot`.
    pub open spec fn leads(self, slot: u64) -> bool {
        self.schedule[((slot / LEADER_WINDOW) % (self.schedule.len() as u64)) as int]@ == self.validator_id@
    }

    /// As leader of `slot` at time `now`: where the chain head is stored we build
    /// our block on it, store it, vote on it, and disseminate it.
    pub open spec fn after_lead(self, slot: u64, now: u64) -> (NodeView, Seq<NodeActionView>) {
        if !self.blokstor.blocks.contains_key(self.blokstor.latest_slot) {
            (self, Seq::empty())
        } else {
            let b = built_block(slot, self.builder, self.blokstor.blocks[self.blokstor.latest_slot], now);
            let (s, r) = self.blokstor.after_store(b);
            let n = NodeView { blokstor: s, ..self };
            match r {
                Ok(()) => {
                    let (n2, a) = n.after_block_received(b);
                    (n2, a.push(NodeActionView::Disseminate(b)))
                },
                Err(_) => (n, Seq::empty()),
            }
        }
    }

    /// A slot tick at time `now`, before timeouts fire: we move to the next
    /// slot; where its timeout is not set yet, we set the timeouts of the
    /// rest of its leader window (see [`with_window_timeouts`]); and we lead
    /// it where it is ours and we are no more than 2 slots behind the network.
    pub open spec fn before_timeouts(self, now: u64) -> (NodeView, Seq<NodeActionView>) {
        let cur = self.next_slot();
        let n1 = NodeView {
            current_slot: cur,
            votor: if self.votor.state_of(cur).timeout_set is None {
                with_window_timeouts(self.votor, cur as int, window_end(cur), cur, now)
            } else {
                self.votor
            },
            ..self
        };
        if self.network_slot() <= cur + 2 && self.leads(cur) {
            n1.after_lead(cur, now)
        } else {
            (n1, Seq::empty())
        }
    }

    /// A slot tick at time `now`, the expired timeouts firing in `order`.
    pub open spec fn after_tick(self, now: u64, order: Seq<u64>) -> (NodeView, Seq<NodeActionView>) {
        let (n2, a2) = self.before_timeouts(now);
        let v = n2.votor;
        let (vt, es) = v.after_timeouts(order);
        let n3 = NodeView {
            votor: VotorView { timeouts: v.timeouts.remove_keys(order.to_set()), ..vt },
            ..n2
        };
        let (n4, a4) = n3.after_votor_events(es);
        (n4, a2 + a4)
    }

    /// Whether `order` lists each timeout that has expired at `now`, after the
    /// tick's first part, once.
    pub open spec fn valid_timeout_order(self, now: u64, order: Seq<u64>) -> bool {
        &&& order.no_duplicates()
        &&& forall|s: u64| #[trigger] order.contains(s) <==> self.before_timeouts(now).0.votor.expired(s, now)
    }

    /// The periodic flush: the events the pool queued have their certificates
    /// broadcast again, then the events the voting machine queued are handled
    /// again (votes broadcast and added to our pool).
    pub open spec fn after_flush(self) -> (NodeView, Seq<NodeActionView>) {
        let a1 = broadcasts_of(self.pool.pending_events);
        let n1 = NodeView { pool: PoolView { pending_events: Seq::empty(), ..self.pool }, ..self };
        let queued = n1.votor.pending_events;
        let n2 = NodeView { votor: VotorView { pending_events: Seq::empty(), ..n1.votor }, ..n1 };
        let (n3, a3) = n2.after_votor_events(queued);
        (n3, a1 + a3)
    }

    /// The first part of a repair: with no chain past genesis, or no block in
    /// slots 0 to 10, the store is reset to genesis and we go back to slot 1.
    pub open spec fn after_repair_start(self) -> NodeView {
        if highest_stored(self.blokstor.blocks) == 0 || blocks_in_range(self.blokstor.blocks, 0, 10).len() == 0 {
            NodeView { blokstor: genesis_store(), current_slot: 1, ..self }
        } else {
            self
        }
    }

    /// The second part of a repair, with a peer's answer: its blocks are
    /// offered by slot (see [`repair_store`]) and we move up to its current slot.
    pub open spec fn after_repair(self, response: ChainSyncResponseView) -> NodeView {
        NodeView {
            blokstor: repair_store(self.blokstor, sort_by_slot(response.recent_blocks)).0,
            current_slot: if response.current_slot > self.current_slot {
                response.current_slot
            } else {
                self.current_slot
            },
            ..self
        }
    }

    /// Joining with a peer's answer: its blocks are offered in order and we
    /// move to its current slot.
    pub open spec fn after_sync(self, response: ChainSyncResponseView) -> NodeView {
        NodeView {
            blokstor: store_all(self.blokstor, response.recent_blocks),
            current_slot: response.current_slot,
            ..self
        }
    }
}

/// The name of a message's kind.
pub fn message_type(msg: &AlpenglowMessage) -> (name: &'static str)
    ensures
        name@ == match msg@ {
            AlpenglowMessageView::Block(_) => "Block"@,
            AlpenglowMessageView::NotarVote(_) => "NotarVote"@,
            AlpenglowMessageView::SkipVote(_) => "SkipVote"@,
            AlpenglowMessageView::FinalVote(_) => "FinalVote"@,
            AlpenglowMessageView::NotarCertificate(_) => "NotarCertificate"@,
            AlpenglowMessageView::SkipCertificate(_) => "SkipCertificate"@,
            AlpenglowMessageView::FastFinalCertificate(_) => "FastFinalCertificate"@,
            AlpenglowMessageView::Hello { .. } => "Hello"@,
            AlpenglowMessageView::BlockRequest { .. } => "BlockRequest"@,
            AlpenglowMessageView::ChainSyncRequest(_) => "ChainSyncRequest"@,
            AlpenglowMessageView::ChainSyncResponse(_) => "ChainSyncResponse"@,
            AlpenglowMessageView::Shred(_) => "Shred"@,
            AlpenglowMessageView::SliceRequest { .. } => "SliceRequest"@,
        },
{
    match msg {
        AlpenglowMessage::Block(_) => "Block",
        AlpenglowMessage::NotarVote(_) => "NotarVote",
        AlpenglowMessage::SkipVote(_) => "SkipVote",
        AlpenglowMessage::FinalVote(_) => "FinalVote",
        AlpenglowMessage::NotarCertificate(_) => "NotarCertificate",
        AlpenglowMessage::SkipCertificate(_) => "SkipCertificate",
        AlpenglowMessage::FastFinalCertificate(_) => "FastFinalCertificate",
        AlpenglowMessage::Hello { .. } => "Hello",
        AlpenglowMessage::BlockRequest { .. } => "BlockRequest",
        AlpenglowMessage::ChainSyncRequest(_) => "ChainSyncRequest",
        AlpenglowMessage::ChainSyncResponse(_) => "ChainSyncResponse",
        AlpenglowMessage::Shred(_) => "Shred",
        AlpenglowMessage::SliceRequest { .. } => "SliceRequest",
    }
}

/// The broadcasts of the pool events' certificates, in order.
fn handle_pool_events(events: Vec<PoolEvent>) -> (actions: Vec<NodeAction>)
    ensures
        actions_view(actions@) == broadcasts_of(pool_events_view(events@)),
{
    let mut actions: Vec<NodeAction> = Vec::new();
    let mut i: usize = 0;
    while i < events.len()
        invariant
            i <= events@.len(),
            actions_view(actions@) == broadcasts_of(pool_events_view(events@).take(i as int)),
        decreases events@.len() - i,
    {
        let msg = match &events[i] {
            PoolEvent::BlockNotarized { certificate, .. } => AlpenglowMessage::NotarCertificate(certificate.clone()),
            PoolEvent::FastFinalized { certificate, .. } => AlpenglowMessage::FastFinalCertificate(certificate.clone()),
            PoolEvent::SlotSkipped { certificate, .. } => AlpenglowMessage::SkipCertificate(certificate.clone()),
        };
        let ghost prev = actions@;
        actions.push(NodeAction::Broadcast(msg));
        assert(actions_view(actions@) =~= actions_view(prev).push(actions@.last()@));
        assert(pool_events_view(events@).take(i + 1) =~= pool_events_view(events@).take(i as int).push(events@[i as int]@));
        assert(actions_view(actions@) =~= broadcasts_of(pool_events_view(events@).take(i + 1)));
        i = i + 1;
    }
    assert(pool_events_view(events@).take(i as int) =~= pool_events_view(events@));
    actions
}

fn append_actions(actions: &mut Vec<NodeAction>, more: Vec<NodeAction>)
    ensures
        actions_view(final(actions)@) == actions_view(old(actions)@) + actions_view(more@),
{
    let mut more = more;
    let ghost start = actions_view(actions@);
    let ghost rest = actions_view(more@);
    actions.append(&mut more);
    assert(actions_view(actions@) =~= start + rest);
}

/// A validator: its block store, vote pool, voting machine, leader schedule
/// and block builder, and the slot it is at.
pub struct AlpenglowNode {
    blokstor: Blokstor,
    pool: Pool,
    votor: Votor,
    leader_schedule: LeaderSchedule,
    block_builder: BlockBuilder,
    validator_id: ValidatorId,
    current_slot: Slot,
}

impl AlpenglowNode {
    /// The node's state.
    pub closed spec fn view(&self) -> NodeView {
        NodeView {
            blokstor: self.blokstor.view(),
            pool: self.pool.view(),
            votor: self.votor.view(),
            schedule: self.leader_schedule.order(),
            builder: self.block_builder.leader(),
            validator_id: self.validator_id,
            current_slot: self.current_slot,
        }
    }

    /// The node's invariant: see [`NodeView::wf`].
    pub open spec fn wf(&self) -> bool {
        self.view().wf()
    }

    /// Whether a node can be made for the configuration: the validator's key
    /// seed is a valid key, the network has validators and stake, and the
    /// total stake fits in a `u64`.
    pub open spec fn can_start(config: &NetworkConfig) -> bool {
        &&& KeyPair::seed_is_valid(config.local_validator_id@)
        &&& config.validators@.len() > 0
        &&& 0 < stake_sum(config.validators@)
        &&& stake_sum(config.validators@) <= u64::MAX
    }

    /// A node for the local validator of `config`: genesis only, nothing voted,
    /// at slot 1.
    pub fn new(config: NetworkConfig) -> (node: AlpenglowNode)
        requires
            AlpenglowNode::can_start(&config),
        ensures
            node.wf(),
            node.view().blokstor == genesis_store(),
            node.view().current_slot == 1,
            node.view().validator_id == config.local_validator_id,
            node.view().pool.validators == config.validators@,
            node.view().pool.votes == Map::<u64, crate::consensus::pool::SlotVotesView>::empty(),
            node.view().pool.certificates == Map::<u64, crate::consensus::pool::SlotCertificatesView>::empty(),
            node.view().votor.states == Map::<u64, crate::consensus::votor::SlotState>::empty(),
            node.view().builder == config.local_validator_id@,
    {
        let validator_id = config.local_validator_id.clone();
        let mut validators: Vec<ValidatorId> = Vec::new();
        let mut i: usize = 0;
        while i < config.validators.len()
            invariant
                i <= config.validators@.len(),
                validators@.len() == i,
            decreases config.validators@.len() - i,
        {
            validators.push(config.validators[i].id.clone());
            i = i + 1;
        }
        let leader_schedule = LeaderSchedule::new(validators);
        proof {
            assert(leader_schedule.order().len() == i) by {
                broadcast use vstd::seq_lib::group_to_multiset_ensures;
                assert(leader_schedule.order().to_multiset().len() == leader_schedule.order().len());
                assert(validators@.to_multiset().len() == validators@.len());
            }
        }
        let pool = Pool::new(config.clone());
        let votor = Votor::new(validator_id.clone(), config.clone());
        AlpenglowNode {
            blokstor: Blokstor::new(),
            pool,
            votor,
            leader_schedule,
            block_builder: BlockBuilder::new(validator_id.clone()),
            validator_id,
            current_slot: 1,
        }
    }

    /// As [`AlpenglowNode::new`], or `None` where no node can be made.
    pub fn try_new(config: NetworkConfig) -> (node: Option<AlpenglowNode>)
        ensures
            node is Some <==> AlpenglowNode::can_start(&config),
            node matches Some(n) ==> n.wf() && n.view().blokstor == genesis_store() && n.view().current_slot == 1
                && n.view().validator_id == config.local_validator_id,
    {
        if config.validators.len() == 0 {
            return None;
        }
        let ok = match KeyPair::try_new(config.local_validator_id.clone()) {
            Some(_) => true,
            None => false,
        };
        if !ok {
            return None;
        }
        let total = total_stake_checked(&config);
        match total {
            Some(t) => {
                if t == 0 {
                    return None;
                }
            },
            None => return None,
        }
        Some(AlpenglowNode::new(config))
    }

    fn handle_votor_events(&mut self, events: Vec<VotorEvent>) -> (actions: Vec<NodeAction>)
        requires
            old(self).wf(),
        ensures
            final(self).wf(),
            (final(self).view(), actions_view(actions@)) == old(self).view().after_votor_events(
                votor_events_view(events@),
            ),
    {
        let ghost start = self.view();
        let ghost evs = votor_events_view(events@);
        let mut actions: Vec<NodeAction> = Vec::new();
        let mut i: usize = 0;
        assert(evs.take(0) =~= Seq::<VotorEventView>::empty());
        assert(actions_view(actions@) =~= Seq::<NodeActionView>::empty());
        while i < events.len()
            invariant
                i <= events@.len(),
                evs == votor_events_view(events@),
                self.wf(),
                (self.view(), actions_view(actions@)) == start.after_votor_events(evs.take(i as int)),
            decreases events@.len() - i,
        {
            assert(evs.take(i + 1).drop_last() =~= evs.take(i as int));
            let ghost mid = self.view();
            let ghost before = actions_view(actions@);
            match &events[i] {
                VotorEvent::ShouldCastVote { vote } => {
                    actions.push(NodeAction::Broadcast(vote.clone()));
                    let pool_events = self.pool.add_vote(vote.clone());
                    let more = handle_pool_events(pool_events);
                    let ghost m = actions_view(more@);
                    append_actions(&mut actions, more);
                    assert(actions_view(actions@) =~= before + (seq![NodeActionView::Broadcast(vote@)] + m));
                },
                _ => {
                    assert(actions_view(actions@) =~= before + Seq::<NodeActionView>::empty());
                },
            }
            i = i + 1;
        }
        assert(evs.take(i as int) =~= evs);
        actions
    }

    fn pool_message(&mut self, msg: AlpenglowMessage) -> (actions: Vec<NodeAction>)
        requires
            old(self).wf(),
            msg is NotarVote || msg is SkipVote || msg is FinalVote,
        ensures
            final(self).wf(),
            (final(self).view(), actions_view(actions@)) == old(self).view().with_pool_message(msg@),
    {
        let events = self.pool.add_vote(msg);
        handle_pool_events(events)
    }

    fn offer_block(&mut self, block: Block, repair: bool) -> (actions: Vec<NodeAction>)
        requires
            old(self).wf(),
        ensures
            final(self).wf(),
            (final(self).view(), actions_view(actions@)) == old(self).view().after_block(block@, repair),
    {
        let hash = block.hash();
        proof {
            lemma_hash_of(hash);
        }
        let slot = block.slot;
        let copy = block.clone();
        match self.blokstor.store_block(block) {
            Ok(()) => {
                let events = self.votor.handle_block_received(slot, hash);
                self.handle_votor_events(events)
            },
            Err(BlokstorError::ParentNotFound) => {
                let mut actions: Vec<NodeAction> = Vec::new();
                if repair {
                    actions.push(NodeAction::RepairThenRetry { missing_slot: slot, block: copy });
                }
                assert(actions_view(actions@) =~= old(self).view().after_block(copy@, repair).1);
                actions
            },
            Err(_) => {
                let actions: Vec<NodeAction> = Vec::new();
                assert(actions_view(actions@) =~= Seq::<NodeActionView>::empty());
                actions
            },
        }
    }

    /// Handles a message from a peer (see [`NodeView::after_message`]) and
    /// returns what is to be done.
    pub fn handle_message(&mut self, peer_id: ValidatorId, msg: AlpenglowMessage) -> (actions: Vec<NodeAction>)
        requires
            old(self).wf(),
        ensures
            final(self).wf(),
            (final(self).view(), actions_view(actions@)) == old(self).view().after_message(msg@),
    {
        match msg {
            AlpenglowMessage::Block(block) => self.offer_block(block, true),
            AlpenglowMessage::NotarVote(v) => self.pool_message(AlpenglowMessage::NotarVote(v)),
            AlpenglowMessage::SkipVote(v) => self.pool_message(AlpenglowMessage::SkipVote(v)),
            AlpenglowMessage::FinalVote(v) => self.pool_message(AlpenglowMessage::FinalVote(v)),
            AlpenglowMessage::ChainSyncRequest(request) => {
                let mut actions: Vec<NodeAction> = Vec::new();
                actions.push(self.handle_chain_sync_request(request));
                assert(actions_view(actions@) =~= old(self).view().after_message(msg@).1);
                actions
            },
            _ => {
                let actions: Vec<NodeAction> = Vec::new();
                assert(actions_view(actions@) =~= Seq::<NodeActionView>::empty());
                actions
            },
        }
    }

    /// Offers a block again after a repair (see [`NodeView::after_block`]; no
    /// second repair is asked for).
    pub fn retry_block(&mut self, block: Block) -> (actions: Vec<NodeAction>)
        requires
            old(self).wf(),
        ensures
            final(self).wf(),
            (final(self).view(), actions_view(actions@)) == old(self).view().after_block(block@, false),
    {
        self.offer_block(block, false)
    }

    /// Our answer to a peer's chain sync request, sent to that peer.
    pub fn handle_chain_sync_request(&self, request: ChainSyncRequest) -> (action: NodeAction)
        ensures
            action@ == (NodeActionView::SendTo {
                peer: request.from_validator@,
                message: AlpenglowMessageView::ChainSyncResponse(self.view().sync_response()),
            }),
    {
        let response = ChainSyncResponse {
            latest_finalized_slot: self.get_latest_finalized_slot(),
            latest_finalized_hash: self.get_latest_finalized_hash(),
            current_slot: self.current_slot,
            recent_blocks: self.get_recent_blocks_for_sync(SYNC_WINDOW),
        };
        NodeAction::SendTo {
            peer: request.from_validator,
            message: AlpenglowMessage::ChainSyncResponse(response),
        }
    }

    /// The stored blocks of the `count` slots before the current one.
    pub fn get_recent_blocks_for_sync(&self, count: usize) -> (blocks: Vec<Block>)
        ensures
            blocks_view(blocks@) == blocks_in_range(
                self.view().blokstor.blocks,
                sat_sub(self.view().current_slot, count as u64) as int,
                sat_sub(self.view().current_slot, 1) as int,
            ),
    {
        let start = self.current_slot.saturating_sub(count as u64);
        let end = self.current_slot.saturating_sub(1);
        self.blokstor.get_blocks_range(start, end)
    }

    /// The latest slot counted as finalized: [`FINALITY_DEPTH`] slots back.
    pub fn get_latest_finalized_slot(&self) -> (s: Slot)
        ensures
            s == self.view().finalized_slot(),
    {
        self.current_slot.saturating_sub(FINALITY_DEPTH)
    }

    /// The hash of the block in the finalized slot; the genesis block's hash where there is none.
    pub fn get_latest_finalized_hash(&self) -> (h: [u8; 32])
        ensures
            h@ == self.view().finalized_hash(),
    {
        let slot = self.get_latest_finalized_slot();
        match self.blokstor.get_block(slot) {
            Some(b) => b.hash(),
            None => Block::genesis().hash(),
        }
    }

    /// The slot the network seems to be at: the highest slot with a block, from
    /// 10 slots back to 50 ahead of ours, or ours.
    pub fn detect_network_slot(&self) -> (slot: Slot)
        requires
            self.view().current_slot + 50 <= u64::MAX,
        ensures
            slot == self.view().network_slot(),
    {
        let lo = self.current_slot.saturating_sub(10);
        let hi = self.current_slot + 50;
        let mut max_slot = self.current_slot;
        let mut slot = lo;
        loop
            invariant
                lo <= slot <= hi,
                lo == sat_sub(self.view().current_slot, 10),
                hi == self.view().current_slot + 50,
                max_slot == highest_present(self.view().blokstor.blocks, lo as int, slot - 1, self.view().current_slot),
            decreases hi - slot,
        {
            if self.blokstor.get_block(slot).is_some() {
                if slot > max_slot {
                    max_slot = slot;
                }
            }
            if slot == hi {
                return max_slot;
            }
            slot = slot + 1;
        }
    }

    fn lead(&mut self, slot: Slot, now: u64) -> (actions: Vec<NodeAction>)
        requires
            old(self).wf(),
        ensures
            final(self).wf(),
            (final(self).view(), actions_view(actions@)) == old(self).view().after_lead(slot, now),
    {
        match self.block_builder.build_block_at(slot, &self.blokstor, now) {
            Some(block) => {
                let hash = block.hash();
                proof {
                    lemma_hash_of(hash);
                }
                let block_slot = block.slot;
                let copy = block.clone();
                match self.blokstor.store_block(block) {
                    Ok(()) => {
                        let events = self.votor.handle_block_received(block_slot, hash);
                        let mut actions = self.handle_votor_events(events);
                        let ghost before = actions_view(actions@);
                        actions.push(NodeAction::Disseminate(copy));
                        assert(actions_view(actions@) =~= before.push(NodeActionView::Disseminate(copy@)));
                        actions
                    },
                    Err(_) => {
                        let actions: Vec<NodeAction> = Vec::new();
                        assert(actions_view(actions@) =~= Seq::<NodeActionView>::empty());
                        actions
                    },
                }
            },
            None => {
                let actions: Vec<NodeAction> = Vec::new();
                assert(actions_view(actions@) =~= Seq::<NodeActionView>::empty());
                actions
            },
        }
    }

    /// On entering the current slot at time `now`: where its timeout is not
    /// set yet, the timeouts of the rest of its leader window are set (see
    /// [`with_window_timeouts`]).
    fn set_window_timeouts(&mut self, now: u64)
        requires
            old(self).wf(),
            old(self).view().current_slot + LEADER_WINDOW <= u64::MAX,
            now + SLOT_TIMEOUT_MS + (LEADER_WINDOW - 1) * SLOT_DURATION_MS <= u64::MAX,
        ensures
            final(self).wf(),
            final(self).view() == (NodeView {
                votor: if old(self).view().votor.state_of(old(self).view().current_slot).timeout_set is None {
                    with_window_timeouts(
                        old(self).view().votor,
                        old(self).view().current_slot as int,
                        window_end(old(self).view().current_slot),
                        old(self).view().current_slot,
                        now,
                    )
                } else {
                    old(self).view().votor
                },
                ..old(self).view()
            }),
    {
        let cur = self.current_slot;
        if !self.votor.has_timeout_set(cur) {
            let ghost v0 = self.votor.view();
            let ghost n0 = self.view();
            let end = cur - cur % LEADER_WINDOW + LEADER_WINDOW;
            let mut s = cur;
            while s < end
                invariant
                    cur <= s <= end,
                    end == window_end(cur),
                    end <= cur + LEADER_WINDOW,
                    cur + LEADER_WINDOW <= u64::MAX,
                    now + SLOT_TIMEOUT_MS + (LEADER_WINDOW - 1) * SLOT_DURATION_MS <= u64::MAX,
                    self.votor.wf(),
                    self.view() == (NodeView { votor: self.votor.view(), ..n0 }),
                    with_window_timeouts(self.votor.view(), s as int, end as int, cur, now) == with_window_timeouts(
                        v0,
                        cur as int,
                        end as int,
                        cur,
                        now,
                    ),
                decreases end - s,
            {
                self.votor.set_slot_timeout_at(s, SLOT_TIMEOUT_MS + (s - cur) * SLOT_DURATION_MS, now);
                s = s + 1;
            }
        }
    }

    /// A slot tick at time `now` (see [`NodeView::after_tick`]): move to the
    /// next slot, set the timeouts of its leader window where its own is not
    /// set yet, lead it where it is ours, then fire the expired timeouts.
    pub fn advance_slot(&mut self, now: u64) -> (actions: Vec<NodeAction>)
        requires
            old(self).wf(),
            old(self).view().current_slot + 100 <= u64::MAX,
            now + SLOT_TIMEOUT_MS + (LEADER_WINDOW - 1) * SLOT_DURATION_MS <= u64::MAX,
        ensures
            final(self).wf(),
            exists|order: Seq<u64>|
                #[trigger] old(self).view().valid_timeout_order(now, order) && (final(self).view(), actions_view(actions@))
                    == old(self).view().after_tick(now, order),
    {
        let ghost start = self.view();
        proof {
            lemma_highest_present_bounds(
                start.blokstor.blocks,
                sat_sub(start.current_slot, 10) as int,
                start.current_slot + 50,
                start.current_slot,
            );
        }
        let network_slot = self.detect_network_slot();
        if network_slot > self.current_slot + 3 {
            self.current_slot = network_slot;
        } else {
            self.current_slot = self.current_slot + 1;
        }
        assert(self.current_slot <= start.current_slot + 50);
        self.set_window_timeouts(now);
        let mut actions: Vec<NodeAction> = Vec::new();
        if network_slot <= self.current_slot + 2 && self.leader_schedule.is_leader(self.current_slot, &self.validator_id) {
            actions = self.lead(self.current_slot, now);
        }
        let ghost mid = self.view();
        assert((mid, actions_view(actions@)) == start.before_timeouts(now)) by {
            assert(actions_view(Seq::<NodeAction>::empty()) =~= Seq::<NodeActionView>::empty());
        }
        let events = self.votor.check_timeouts_at(now);
        let ghost fired = self.view();
        let ghost order = choose|o: Seq<u64>| fired_in_order(mid.votor, fired.votor, votor_events_view(events@), now, o);
        assert(fired_in_order(mid.votor, fired.votor, votor_events_view(events@), now, order));
        let more = self.handle_votor_events(events);
        let ghost before = actions_view(actions@);
        append_actions(&mut actions, more);
        assert(start.valid_timeout_order(now, order));
        assert((self.view(), actions_view(actions@)) == start.after_tick(now, order));
        actions
    }

    /// The first part of a chain repair (see [`NodeView::after_repair_start`]);
    /// the caller then asks the peers for the chain.
    pub fn begin_chain_repair(&mut self, missing_slot: Slot)
        requires
            old(self).wf(),
        ensures
            final(self).wf(),
            final(self).view() == old(self).view().after_repair_start(),
    {
        if self.blokstor.get_highest_slot() == 0 || self.blokstor.get_blocks_range(0, 10).len() == 0 {
            self.blokstor.reset_to_genesis();
            self.current_slot = 1;
        }
    }

    /// The second part of a chain repair, with a peer's answer (see
    /// [`NodeView::after_repair`]).
    pub fn apply_chain_repair(&mut self, response: ChainSyncResponse)
        requires
            old(self).wf(),
        ensures
            final(self).wf(),
            final(self).view() == old(self).view().after_repair(response@),
    {
        let blocks = sort_blocks_by_slot(&response.recent_blocks);
        let ghost bs = blocks_view(blocks@);
        let ghost start = self.view();
        let mut stored: u64 = 0;
        let mut i: usize = 0;
        assert(bs.take(0) =~= Seq::<BlockView>::empty());
        while i < blocks.len()
            invariant
                i <= blocks@.len(),
                bs == blocks_view(blocks@),
                self.wf(),
                stored <= i,
                (self.view().blokstor, stored as nat) == repair_store(start.blokstor, bs.take(i as int)),
                self.view() == (NodeView { blokstor: self.view().blokstor, ..start }),
            decreases blocks@.len() - i,
        {
            assert(bs.take(i + 1).drop_last() =~= bs.take(i as int));
            let block = blocks[i].clone();
            let copy = block.clone();
            match self.blokstor.store_block(block) {
                Ok(()) => {
                    stored = stored + 1;
                },
                Err(BlokstorError::ParentNotFound) => {
                    if stored < REPAIR_FORCE_LIMIT {
                        let _ = self.blokstor.force_store_block(copy);
                        stored = stored + 1;
                    }
                },
                Err(_) => {},
            }
            i = i + 1;
        }
        assert(bs.take(i as int) =~= bs);
        if response.current_slot > self.current_slot {
            self.current_slot = response.current_slot;
        }
    }

    /// Joins with a peer's answer (see [`NodeView::after_sync`]).
    pub fn apply_chain_sync(&mut self, response: ChainSyncResponse)
        requires
            old(self).wf(),
        ensures
            final(self).wf(),
            final(self).view() == old(self).view().after_sync(response@),
    {
        let ghost bs = blocks_view(response.recent_blocks@);
        let ghost start = self.view();
        let mut i: usize = 0;
        assert(bs.take(0) =~= Seq::<BlockView>::empty());
        while i < response.recent_blocks.len()
            invariant
                i <= response.recent_blocks@.len(),
                bs == blocks_view(response.recent_blocks@),
                self.wf(),
                self.view().blokstor == store_all(start.blokstor, bs.take(i as int)),
                self.view() == (NodeView { blokstor: self.view().blokstor, ..start }),
            decreases response.recent_blocks@.len() - i,
        {
            assert(bs.take(i + 1).drop_last() =~= bs.take(i as int));
            let block = response.recent_blocks[i].clone();
            let _ = self.blokstor.store_block(block);
            i = i + 1;
        }
        assert(bs.take(i as int) =~= bs);
        self.current_slot = response.current_slot;
    }

    /// Starts a new network alone: at slot 1, after genesis.
    pub fn start_without_peers(&mut self)
        requires
            old(self).wf(),
        ensures
            final(self).wf(),
            final(self).view() == (NodeView { current_slot: 1, ..old(self).view() }),
    {
        self.current_slot = 1;
    }

    /// Takes the events the pool and the voting machine queued and handles
    /// them again (see [`NodeView::after_flush`]).
    pub fn flush_pending_events(&mut self) -> (actions: Vec<NodeAction>)
        requires
            old(self).wf(),
        ensures
            final(self).wf(),
            (final(self).view(), actions_view(actions@)) == old(self).view().after_flush(),
    {
        let pool_events = self.pool.drain_events();
        let mut actions = handle_pool_events(pool_events);
        let votor_events = self.votor.drain_events();
        let more = self.handle_votor_events(votor_events);
        append_actions(&mut actions, more);
        actions
    }

    /// The slot the node is at.
    pub fn current_slot(&self) -> (s: Slot)
        ensures
            s == self.view().current_slot,
    {
        self.current_slot
    }
}

/// The network's total stake, or `None` where it cannot be written as a `u64`.
fn total_stake_checked(config: &NetworkConfig) -> (r: Option<u64>)
    ensures
        match r {
            Some(t) => t == stake_sum(config.validators@),
            None => stake_sum(config.validators@) > u64::MAX,
        },
{
    let mut total: u64 = 0;
    let mut i: usize = 0;
    while i < config.validators.len()
        invariant
            i <= config.validators@.len(),
            total == stake_sum(config.validators@.take(i as int)),
        decreases config.validators@.len() - i,
    {
        assert(config.validators@.take(i + 1).drop_last() =~= config.validators@.take(i as int));
        let s = config.validators[i].stake;
        if total > u64::MAX - s {
            proof {
                crate::types::network::lemma_stake_sum_prefix(config.validators@, i + 1);
            }
            return None;
        }
        total = total + s;
        i = i + 1;
    }
    assert(config.validators@.take(i as int) =~= config.validators@);
    Some(total)
}

proof fn lemma_highest_present_bounds(blocks: Map<u64, BlockView>, lo: int, hi: int, floor: u64)
    requires
        hi <= u64::MAX,
    ensures
        floor <= highest_present(blocks, lo, hi, floor),
        highest_present(blocks, lo, hi, floor) <= floor || highest_present(blocks, lo, hi, floor) <= hi,
    decreases hi - lo + 1,
{
    if hi >= lo {
        lemma_highest_present_bounds(blocks, lo, hi - 1, floor);
    }
}

proof fn lemma_insert_by_slot(s: Seq<BlockView>, b: BlockView, p: int)
    requires
        0 <= p <= s.len(),
        forall|j: int| 0 <= j < p ==> #[trigger] s[j].slot <= b.slot,
        p < s.len() ==> s[p].slot > b.slot,
    ensures
        insert_by_slot(s, b) == s.insert(p, b),
    decreases s.len(),
{
    if s.len() == 0 {
        assert(s.insert(p, b) =~= seq![b]);
    } else if p == 0 {
        assert(s.insert(p, b) =~= seq![b] + s);
    } else {
        lemma_insert_by_slot(s.drop_first(), b, p - 1);
        assert(s.insert(p, b) =~= seq![s[0]] + s.drop_first().insert(p - 1, b));
    }
}

/// The blocks sorted by slot, blocks of equal slot in their order.
fn sort_blocks_by_slot(blocks: &Vec<Block>) -> (sorted: Vec<Block>)
    ensures
        blocks_view(sorted@) == sort_by_slot(blocks_view(blocks@)),
{
    let ghost all = blocks_view(blocks@);
    let mut sorted: Vec<Block> = Vec::new();
    let mut i: usize = 0;
    assert(all.take(0) =~= Seq::<BlockView>::empty());
    assert(blocks_view(sorted@) =~= Seq::<BlockView>::empty());
    while i < blocks.len()
        invariant
            i <= blocks@.len(),
            all == blocks_view(blocks@),
            blocks_view(sorted@) == sort_by_slot(all.take(i as int)),
        decreases blocks@.len() - i,
    {
        assert(all.take(i + 1).drop_last() =~= all.take(i as int));
        let b = blocks[i].clone();
        let mut p: usize = 0;
        while p < sorted.len() && sorted[p].slot <= b.slot
            invariant
                p <= sorted@.len(),
                forall|j: int| 0 <= j < p ==> #[trigger] sorted@[j].slot <= b.slot,
            decreases sorted@.len() - p,
        {
            p = p + 1;
        }
        let ghost before = blocks_view(sorted@);
        proof {
            lemma_insert_by_slot(before, b@, p as int);
        }
        sorted.insert(p, b);
        assert(blocks_view(sorted@) =~= before.insert(p as int, all[i as int]));
        i = i + 1;
    }
    assert(all.take(i as int) =~= all);
    sorted
}

/// Law: entering slot `cur` at time `now` with its timeout unset, each slot
/// `s` from `cur` to the end of its leader window gets a timeout at
/// `now + SLOT_TIMEOUT_MS + (s - cur) * SLOT_DURATION_MS`, recorded in its
/// state too, and no other slot's timeout changes.  Entered at the first slot
/// of a window, the slot `i` places into the window times out after the
/// timeout plus `i` slot durations.
pub proof fn law_window_timeouts(v: VotorView, cur: u64, now: u64)
    requires
        now + SLOT_TIMEOUT_MS + (LEADER_WINDOW - 1) * SLOT_DURATION_MS <= u64::MAX,
    ensures
        forall|s: u64|
            cur <= s < window_end(cur) ==> {
                &&& #[trigger] with_window_timeouts(v, cur as int, window_end(cur), cur, now).timeouts.contains_key(s)
                &&& with_window_timeouts(v, cur as int, window_end(cur), cur, now).timeouts[s] == now + SLOT_TIMEOUT_MS
                    + (s - cur) * SLOT_DURATION_MS
                &&& with_window_timeouts(v, cur as int, window_end(cur), cur, now).state_of(s).timeout_set == Some(
                    with_window_timeouts(v, cur as int, window_end(cur), cur, now).timeouts[s],
                )
            },
        forall|s: u64|
            !(cur <= s < window_end(cur)) ==> (#[trigger] with_window_timeouts(
                v,
                cur as int,
                window_end(cur),
                cur,
                now,
            ).timeouts.contains_key(s) == v.timeouts.contains_key(s) && with_window_timeouts(
                v,
                cur as int,
                window_end(cur),
                cur,
                now,
            ).timeouts[s] == v.timeouts[s]),
{
    let end = window_end(cur);
    lemma_window_timeouts(v, cur as int, end, cur, now);
    assert forall|s: u64| cur <= s < end implies {
        &&& #[trigger] with_window_timeouts(v, cur as int, end, cur, now).timeouts.contains_key(s)
        &&& with_window_timeouts(v, cur as int, end, cur, now).timeouts[s] == now + SLOT_TIMEOUT_MS + (s - cur)
            * SLOT_DURATION_MS
        &&& with_window_timeouts(v, cur as int, end, cur, now).state_of(s).timeout_set == Some(
            with_window_timeouts(v, cur as int, end, cur, now).timeouts[s],
        )
    } by {
        assert(cur as int <= s < end);
        let w = with_window_timeouts(v, cur as int, end, cur, now);
        assert(w.timeouts.contains_key(s));
        assert(w.timeouts[s] == now + SLOT_TIMEOUT_MS + (s - cur) * SLOT_DURATION_MS);
        assert(w.state_of(s).timeout_set == Some(w.timeouts[s]));
    }
}

proof fn lemma_window_timeouts(v: VotorView, from: int, end: int, cur: u64, now: u64)
    requires
        cur <= from,
        end <= cur + LEADER_WINDOW,
        now + SLOT_TIMEOUT_MS + (LEADER_WINDOW - 1) * SLOT_DURATION_MS <= u64::MAX,
    ensures
        forall|s: u64|
            from <= s < end ==> {
                &&& #[trigger] with_window_timeouts(v, from, end, cur, now).timeouts.contains_key(s)
                &&& with_window_timeouts(v, from, end, cur, now).timeouts[s] == now + SLOT_TIMEOUT_MS + (s - cur)
                    * SLOT_DURATION_MS
                &&& with_window_timeouts(v, from, end, cur, now).state_of(s).timeout_set == Some(
                    with_window_timeouts(v, from, end, cur, now).timeouts[s],
                )
            },
        forall|s: u64|
            !(from <= s < end) ==> (#[trigger] with_window_timeouts(v, from, end, cur, now).timeouts.contains_key(s)
                == v.timeouts.contains_key(s) && with_window_timeouts(v, from, end, cur, now).timeouts[s]
                == v.timeouts[s]),
    decreases end - from,
{
    if !(from >= end || from < 0 || from > u64::MAX) {
        let d = (now + SLOT_TIMEOUT_MS + (from - cur) * SLOT_DURATION_MS) as u64;
        let v1 = v.after_set_timeout(from as u64, d);
        lemma_window_timeouts(v1, from + 1, end, cur, now);
        let w = with_window_timeouts(v, from, end, cur, now);
        assert(w == with_window_timeouts(v1, from + 1, end, cur, now));
        assert forall|s: u64| from <= s < end implies {
            &&& #[trigger] w.timeouts.contains_key(s)
            &&& w.timeouts[s] == now + SLOT_TIMEOUT_MS + (s - cur) * SLOT_DURATION_MS
            &&& w.state_of(s).timeout_set == Some(w.timeouts[s])
        } by {
            if s == from {
                assert(w.timeouts.contains_key(s) == v1.timeouts.contains_key(s));
                lemma_window_states(v1, from + 1, end, cur, now, s);
            }
        }
    }
}

proof fn lemma_window_states(v: VotorView, from: int, end: int, cur: u64, now: u64, s: u64)
    requires
        s < from,
    ensures
        with_window_timeouts(v, from, end, cur, now).state_of(s) == v.state_of(s),
    decreases end - from,
{
    if !(from >= end || from < 0 || from > u64::MAX) {
        let d = (now + SLOT_TIMEOUT_MS + (from - cur) * SLOT_DURATION_MS) as u64;
        lemma_window_states(v.after_set_timeout(from as u64, d), from + 1, end, cur, now, s);
    }
}

/// Law: a sync answer misses no recent block: every block we hold at one of
/// the [`SYNC_WINDOW`] slots before the current one is among the answer's
/// recent blocks.
pub proof fn law_sync_response_holds_recent_blocks(n: NodeView, s: u64)
    requires
        n.blokstor.blocks.contains_key(s),
        s < n.current_slot,
        n.current_slot <= s + SYNC_WINDOW,
    ensures
        n.sync_response().recent_blocks.contains(n.blokstor.blocks[s]),
{
    law_blocks_range_holds_every_stored_block(
        n.blokstor.blocks,
        sat_sub(n.current_slot, SYNC_WINDOW as u64) as int,
        sat_sub(n.current_slot, 1) as int,
        s,
    );
}

/// Law: a sync answer holds nothing else: each of its recent blocks is a
/// block we hold at one of the [`SYNC_WINDOW`] slots before the current one.
pub proof fn law_sync_response_holds_only_recent_blocks(n: NodeView, i: int)
    requires
        n.current_slot > 0,
        0 <= i < n.sync_response().recent_blocks.len(),
    ensures
        exists|s: u64|
            s < n.current_slot && n.current_slot <= s + SYNC_WINDOW && #[trigger] n.blokstor.blocks.contains_key(s)
                && n.sync_response().recent_blocks[i] == n.blokstor.blocks[s],
{
    law_blocks_range_holds_only_stored_blocks(
        n.blokstor.blocks,
        sat_sub(n.current_slot, SYNC_WINDOW as u64) as int,
        sat_sub(n.current_slot, 1) as int,
        i,
    );
    let s = choose|s: u64|
        sat_sub(n.current_slot, SYNC_WINDOW as u64) as int <= s <= sat_sub(n.current_slot, 1) as int
            && #[trigger] n.blokstor.blocks.contains_key(s) && n.sync_response().recent_blocks[i] == n.blokstor.blocks[s];
    assert(s < n.current_slot && n.current_slot <= s + SYNC_WINDOW);
}

proof fn lemma_highest_present(blocks: Map<u64, BlockView>, lo: int, hi: int, floor: u64)
    ensures
        highest_present(blocks, lo, hi, floor) >= floor,
        forall|s: u64| lo <= s <= hi && #[trigger] blocks.contains_key(s) ==> highest_present(blocks, lo, hi, floor) >= s,
        highest_present(blocks, lo, hi, floor) == floor || (lo <= highest_present(blocks, lo, hi, floor) <= hi
            && blocks.contains_key(highest_present(blocks, lo, hi, floor))),
    decreases hi - lo + 1,
{
    if hi >= lo {
        lemma_highest_present(blocks, lo, hi - 1, floor);
    }
}

/// Law: the network slot is the highest slot we hold a block of, from 10 slots
/// back to 50 ahead, or our current slot where that is higher: it is at least
/// our slot and every such slot, and it is our slot or such a slot.
pub proof fn law_network_slot_is_highest_block_around(n: NodeView, s: u64)
    ensures
        n.network_slot() >= n.current_slot,
        n.blokstor.blocks.contains_key(s) && n.current_slot <= s + 10 && s <= n.current_slot + 50
            ==> n.network_slot() >= s,
        n.network_slot() == n.current_slot || (n.blokstor.blocks.contains_key(n.network_slot())
            && n.network_slot() <= n.current_slot + 50),
{
    lemma_highest_present(
        n.blokstor.blocks,
        sat_sub(n.current_slot, 10) as int,
        n.current_slot + 50,
        n.current_slot,
    );
}

/// Law: a tick catches up with blocks ahead: where we hold a block more than
/// 3 and at most 50 slots ahead of ours, the next slot is at least that one.
pub proof fn law_next_slot_catches_up(n: NodeView, s: u64)
    requires
        n.blokstor.blocks.contains_key(s),
        n.current_slot + 3 < s <= n.current_slot + 50,
    ensures
        n.next_slot() >= s,
{
    law_network_slot_is_highest_block_around(n, s);
}

/// Law: in a repair, a block that the store takes, or refuses only for its
/// missing parent while fewer than [`REPAIR_FORCE_LIMIT`] blocks have been
/// stored, is in the store after it is offered, and counts as stored; a
/// block refused otherwise leaves the blocks and the count as they were.
pub proof fn law_repair_stores_offered_block(store: BlokstorView, blocks: Seq<BlockView>, b: BlockView)
    ensures
        ({
            let r = repair_store(store, blocks).0.after_store(b).1;
            r is Ok || (r == Err::<(), BlokstorError>(BlokstorError::ParentNotFound) && repair_store(store, blocks).1
                < REPAIR_FORCE_LIMIT)
        }) ==> {
            &&& repair_store(store, blocks.push(b)).0.blocks.contains_key(b.slot)
            &&& repair_store(store, blocks.push(b)).0.blocks[b.slot] == b
            &&& repair_store(store, blocks.push(b)).1 == repair_store(store, blocks).1 + 1
        },
        !({
            let r = repair_store(store, blocks).0.after_store(b).1;
            r is Ok || (r == Err::<(), BlokstorError>(BlokstorError::ParentNotFound) && repair_store(store, blocks).1
                < REPAIR_FORCE_LIMIT)
        }) ==> {
            &&& repair_store(store, blocks.push(b)).0.blocks == repair_store(store, blocks).0.blocks
            &&& repair_store(store, blocks.push(b)).1 == repair_store(store, blocks).1
        },
{
    assert(blocks.push(b).drop_last() =~= blocks);
}

/// Law: the first block of a repair is stored where the store takes it or
/// refuses it only for its missing parent.
pub proof fn law_repair_stores_first_orphan(store: BlokstorView, b: BlockView)
    requires
        store.after_store(b).1 is Ok || store.after_store(b).1 == Err::<(), BlokstorError>(BlokstorError::ParentNotFound),
    ensures
        repair_store(store, seq![b]).0.blocks.contains_key(b.slot),
        repair_store(store, seq![b]).0.blocks[b.slot] == b,
{
    law_repair_stores_offered_block(store, Seq::empty(), b);
    assert(Seq::<BlockView>::empty().push(b) =~= seq![b]);
}

} // verus!
