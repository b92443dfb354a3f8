//! The voting state machine: when to vote, and for what.
//!
//! - A block that arrives in a slot where the validator has cast no vote, and
//!   which is neither fast-finalized nor skipped, gets a notarization vote.
//! - When the block it voted for is notarized, the validator casts a
//!   finalization vote (once).
//! - When a slot's timeout expires and no block arrived and no vote was cast,
//!   the validator votes to skip the slot.
//! A validator thus casts at most one notarization or skip vote per slot.

use vstd::prelude::*;

use std::collections::HashMap;

use vstd::bytes::{spec_u64_to_le_bytes, u64_to_le_bytes};
use vstd::std_specs::iter::IteratorSpec;
use vstd::utf8::encode_utf8;

use crate::clock::unix_time_millis;
use crate::consensus::pool::{PoolEvent, PoolEventView};
use crate::types::crypto::KeyPair;
use crate::types::messages::{
    hashes_equal, lemma_signature_of, signature_of, AlpenglowMessage, AlpenglowMessageView,
    FinalVote, NotarCertificateView, NotarVote, Signature, SkipCertificateView, SkipVote, Slot, ValidatorId,
};
use crate::types::network::{NetworkConfig, ValidatorInfo};

verus! {

broadcast use vstd::std_specs::hash::group_hash_axioms;

/// What the voting state machine decides.
#[derive(Debug)]
pub enum VotorEvent {
    /// Cast this vote.
    ShouldCastVote { vote: AlpenglowMessage },
    /// The block was finalized.
    BlockFinalized { slot: Slot, block_hash: [u8; 32] },
    /// The slot was skipped.
    SlotSkipped { slot: Slot },
}

/// The mathematical value of a [`VotorEvent`].
pub enum VotorEventView {
    ShouldCastVote { vote: AlpenglowMessageView },
    BlockFinalized { slot: u64, block_hash: [u8; 32] },
    SlotSkipped { slot: u64 },
}

impl View for VotorEvent {
    type V = VotorEventView;

    open spec fn view(&self) -> VotorEventView {
        match self {
            VotorEvent::ShouldCastVote { vote } => VotorEventView::ShouldCastVote { vote: vote@ },
            VotorEvent::BlockFinalized { slot, block_hash } => VotorEventView::BlockFinalized {
                slot: *slot,
                block_hash: *block_hash,
            },
            VotorEvent::SlotSkipped { slot } => VotorEventView::SlotSkipped { slot: *slot },
        }
    }
}

impl Clone for VotorEvent {
    fn clone(&self) -> (r: Self)
        ensures
            r@ == self@,
    {
        match self {
            VotorEvent::ShouldCastVote { vote } => VotorEvent::ShouldCastVote { vote: vote.clone() },
            VotorEvent::BlockFinalized { slot, block_hash } => VotorEvent::BlockFinalized {
                slot: *slot,
                block_hash: *block_hash,
            },
            VotorEvent::SlotSkipped { slot } => VotorEvent::SlotSkipped { slot: *slot },
        }
    }
}

/// The views of a sequence of voting events.
pub open spec fn votor_events_view(es: Seq<VotorEvent>) -> Seq<VotorEventView> {
    es.map_values(|e: VotorEvent| e@)
}

/// What the validator did and saw in one slot.
#[derive(Debug, Clone, Copy)]
pub struct SlotState {
    /// The block it voted to notarize.
    pub cast_notar_vote: Option<[u8; 32]>,
    /// Whether it voted to skip.
    pub cast_skip_vote: bool,
    /// Whether it cast its finalization vote.
    pub cast_final_vote: bool,
    /// The last block it received.
    pub received_block: Option<[u8; 32]>,
    /// Whether a block was notarized.
    pub block_notarized: bool,
    /// Whether a block was fast-finalized.
    pub block_fast_finalized: bool,
    /// Whether the slot was skipped.
    pub slot_skipped: bool,
    /// When the slot's timeout expires, in milliseconds.
    pub timeout_set: Option<u64>,
}

impl Default for SlotState {
    /// Nothing voted, received, certified or timed.
    fn default() -> (st: Self)
        ensures
            st == fresh_slot_state(),
    {
        SlotState {
            cast_notar_vote: None,
            cast_skip_vote: false,
            cast_final_vote: false,
            received_block: None,
            block_notarized: false,
            block_fast_finalized: false,
            slot_skipped: false,
            timeout_set: None,
        }
    }
}

/// The state of a slot nothing has happened in.
pub open spec fn fresh_slot_state() -> SlotState {
    SlotState {
        cast_notar_vote: None,
        cast_skip_vote: false,
        cast_final_vote: false,
        received_block: None,
        block_notarized: false,
        block_fast_finalized: false,
        slot_skipped: false,
        timeout_set: None,
    }
}

/// The bytes a notarization vote signs: slot (little-endian), block hash, voter.
pub open spec fn notar_vote_data(slot: u64, block_hash: [u8; 32], voter: Seq<char>) -> Seq<u8> {
    spec_u64_to_le_bytes(slot) + block_hash@ + encode_utf8(voter)
}

/// The bytes a finalization vote signs: slot (little-endian), `FINAL`, voter.
pub open spec fn final_vote_data(slot: u64, voter: Seq<char>) -> Seq<u8> {
    spec_u64_to_le_bytes(slot) + encode_utf8("FINAL"@) + encode_utf8(voter)
}

/// The bytes a skip vote signs: slot (little-endian), `SKIP`, voter.
pub open spec fn skip_vote_data(slot: u64, voter: Seq<char>) -> Seq<u8> {
    spec_u64_to_le_bytes(slot) + encode_utf8("SKIP"@) + encode_utf8(voter)
}

/// The voting state machine's content.
pub struct VotorView {
    pub validator_id: String,
    pub keypair: KeyPair,
    pub validators: Seq<ValidatorInfo>,
    pub states: Map<u64, SlotState>,
    pub timeouts: Map<u64, u64>,
    pub pending_events: Seq<VotorEventView>,
}

impl VotorView {
    /// The state of `slot`.
    pub open spec fn state_of(self, slot: u64) -> SlotState {
        if self.states.contains_key(slot) {
            self.states[slot]
        } else {
            fresh_slot_state()
        }
    }

    /// The validator's signature of `data`.
    pub open spec fn signature(self, data: Seq<u8>) -> Signature {
        signature_of(self.keypair.spec_sign(data))
    }

    /// The machine with `slot`'s state replaced and `es` queued.
    pub open spec fn with(self, slot: u64, st: SlotState, es: Seq<VotorEventView>) -> (VotorView, Seq<VotorEventView>) {
        (VotorView { states: self.states.insert(slot, st), pending_events: self.pending_events + es, ..self }, es)
    }

    /// A block with hash `h` arrives in `slot`: it becomes the received block,
    /// and gets a notarization vote where the slot has no vote of ours, is not
    /// fast-finalized and not skipped.
    pub open spec fn after_block_received(self, slot: u64, h: [u8; 32]) -> (VotorView, Seq<VotorEventView>) {
        let st = self.state_of(slot);
        let vote = st.cast_notar_vote is None && !st.cast_skip_vote && !st.block_fast_finalized
            && !st.slot_skipped;
        if vote {
            let v = NotarVote {
                slot,
                block_hash: h,
                validator_id: self.validator_id,
                signature: self.signature(notar_vote_data(slot, h, self.validator_id@)),
            };
            self.with(
                slot,
                SlotState { received_block: Some(h), cast_notar_vote: Some(h), ..st },
                seq![VotorEventView::ShouldCastVote { vote: AlpenglowMessageView::NotarVote(v) }],
            )
        } else {
            self.with(slot, SlotState { received_block: Some(h), ..st }, Seq::empty())
        }
    }

    /// A certificate event from the pool: notarization marks the slot and, where
    /// we voted for that block and have not cast it yet, casts our finalization
    /// vote; fast finalization and skipping mark the slot and are reported.
    pub open spec fn after_pool_event(self, e: PoolEventView) -> (VotorView, Seq<VotorEventView>) {
        match e {
            PoolEventView::BlockNotarized { slot, block_hash, .. } => {
                let st = SlotState { block_notarized: true, ..self.state_of(slot) };
                if st.cast_notar_vote == Some(block_hash) && !st.cast_final_vote {
                    let v = FinalVote {
                        slot,
                        validator_id: self.validator_id,
                        signature: self.signature(final_vote_data(slot, self.validator_id@)),
                    };
                    self.with(
                        slot,
                        SlotState { cast_final_vote: true, ..st },
                        seq![VotorEventView::ShouldCastVote { vote: AlpenglowMessageView::FinalVote(v) }],
                    )
                } else {
                    self.with(slot, st, Seq::empty())
                }
            },
            PoolEventView::FastFinalized { slot, block_hash, .. } => self.with(
                slot,
                SlotState { block_fast_finalized: true, ..self.state_of(slot) },
                seq![VotorEventView::BlockFinalized { slot, block_hash }],
            ),
            PoolEventView::SlotSkipped { slot, .. } => self.with(
                slot,
                SlotState { slot_skipped: true, ..self.state_of(slot) },
                seq![VotorEventView::SlotSkipped { slot }],
            ),
        }
    }

    /// `slot` times out: where no block arrived and we cast no vote, we vote to skip.
    pub open spec fn after_slot_timeout(self, slot: u64) -> (VotorView, Seq<VotorEventView>) {
        let st = self.state_of(slot);
        if st.cast_notar_vote is None && !st.cast_skip_vote && st.received_block is None {
            let v = SkipVote {
                slot,
                validator_id: self.validator_id,
                signature: self.signature(skip_vote_data(slot, self.validator_id@)),
            };
            self.with(
                slot,
                SlotState { cast_skip_vote: true, ..st },
                seq![VotorEventView::ShouldCastVote { vote: AlpenglowMessageView::SkipVote(v) }],
            )
        } else {
            self.with(slot, st, Seq::empty())
        }
    }

    /// The slots of `order` time out, in that order.
    pub open spec fn after_timeouts(self, order: Seq<u64>) -> (VotorView, Seq<VotorEventView>)
        decreases order.len(),
    {
        if order.len() == 0 {
            (self, Seq::empty())
        } else {
            let (v, es) = self.after_timeouts(order.drop_last());
            let (v2, es2) = v.after_slot_timeout(order.last());
            (v2, es + es2)
        }
    }

    /// `slot`'s timeout is set to expire at `deadline`.
    pub open spec fn after_set_timeout(self, slot: u64, deadline: u64) -> VotorView {
        VotorView {
            timeouts: self.timeouts.insert(slot, deadline),
            states: self.states.insert(slot, SlotState { timeout_set: Some(deadline), ..self.state_of(slot) }),
            ..self
        }
    }

    /// Whether `slot`'s timeout has expired at time `now`.
    pub open spec fn expired(self, slot: u64, now: u64) -> bool {
        self.timeouts.contains_key(slot) && now >= self.timeouts[slot]
    }
}

fn expired_slots(m: &HashMap<Slot, u64>, now: u64) -> (r: Vec<Slot>)
    ensures
        r@.no_duplicates(),
        forall|s: u64| r@.contains(s) <==> (m@.contains_key(s) && now >= m@[s]),
{
    let mut out: Vec<u64> = Vec::new();
    for pair in it: m.iter()
        invariant
            it.seq() == vstd::std_specs::hash::spec_hash_map_iter(m).remaining(),
            it.seq().no_duplicates(),
            forall|j: int| 0 <= j < it.seq().len() ==> m@.contains_key(*it.seq()[j].0) && m@[*it.seq()[j].0] == *it.seq()[j].1,
            forall|s: u64| out@.contains(s) <==> exists|j: int| 0 <= j < it.index() && *it.seq()[j].0 == s && now >= *it.seq()[j].1,
            out@.no_duplicates(),
    {
        assert(pair == it.seq()[it.index()]);
        let ghost idx = it.index();
        assert forall|j: int| 0 <= j < idx implies *it.seq()[j].0 != *pair.0 by {
            if *it.seq()[j].0 == *pair.0 {
                assert(it.seq()[j] == it.seq()[idx]);
            }
        }
        let (slot, deadline) = pair;
        let ghost prev = out@;
        assert(!prev.contains(*slot));
        if now >= *deadline {
            out.push(*slot);
        }
        assert forall|s: u64| out@.contains(s) <==> exists|j: int| 0 <= j < idx + 1 && *it.seq()[j].0 == s && now >= *it.seq()[j].1 by {
            if out@.contains(s) && !prev.contains(s) {
                assert(*it.seq()[idx].0 == s);
            }
            if exists|j: int| 0 <= j < idx + 1 && *it.seq()[j].0 == s && now >= *it.seq()[j].1 {
                let j = choose|j: int| 0 <= j < idx + 1 && *it.seq()[j].0 == s && now >= *it.seq()[j].1;
                if j < idx {
                    assert(prev.contains(s));
                    assert(out@.contains(s)) by {
                        let k = choose|k: int| 0 <= k < prev.len() && prev[k] == s;
                        assert(out@[k] == s);
                    }
                } else {
                    assert(out@.last() == s);
                }
            }
        }
    }
    out
}

/// Whether `after` and `events` are what firing the timeouts of `before` that
/// have expired at `now` gives, in the order `order`: each expired slot once.
pub open spec fn fired_in_order(
    before: VotorView,
    after: VotorView,
    events: Seq<VotorEventView>,
    now: u64,
    order: Seq<u64>,
) -> bool {
    &&& order.no_duplicates()
    &&& forall|s: u64| #[trigger] order.contains(s) <==> before.expired(s, now)
    &&& (after, events) == ((VotorView {
        timeouts: before.timeouts.remove_keys(order.to_set()),
        ..before.after_timeouts(order).0
    }), before.after_timeouts(order).1)
}

/// Whether `after` and `events` are what firing the timeouts of `before` that
/// have expired at `now` gives, in some order.
pub open spec fn timeouts_fired(before: VotorView, after: VotorView, events: Seq<VotorEventView>, now: u64) -> bool {
    exists|order: Seq<u64>| #[trigger] fired_in_order(before, after, events, now, order)
}

/// The voting state machine of one validator.
pub struct Votor {
    validator_id: ValidatorId,
    network_config: NetworkConfig,
    keypair: KeyPair,
    slot_states: HashMap<Slot, SlotState>,
    slot_timeouts: HashMap<Slot, u64>,
    pending_events: Vec<VotorEvent>,
}

impl Votor {
    /// The machine's content.
    pub closed spec fn view(&self) -> VotorView {
        VotorView {
            validator_id: self.validator_id,
            keypair: self.keypair,
            validators: self.network_config.validators@,
            states: self.slot_states@,
            timeouts: self.slot_timeouts@,
            pending_events: votor_events_view(self.pending_events@),
        }
    }

    /// The machine's invariant: its key pair is valid and is the validator's.
    pub open spec fn wf(&self) -> bool {
        self.view().keypair.wf() && self.view().keypair.validator_id == self.view().validator_id
    }

    /// A machine for the validator named `validator_id`, with the key pair
    /// derived from its name and nothing voted yet.
    pub fn new(validator_id: ValidatorId, network_config: NetworkConfig) -> (v: Votor)
        requires
            KeyPair::seed_is_valid(validator_id@),
        ensures
            v.wf(),
            v.view().validator_id == validator_id,
            v.view().keypair.private_key@ == crate::types::crypto::key_seed(validator_id@),
            v.view().validators == network_config.validators@,
            v.view().states == Map::<u64, SlotState>::empty(),
            v.view().timeouts == Map::<u64, u64>::empty(),
            v.view().pending_events == Seq::<VotorEventView>::empty(),
    {
        let keypair = KeyPair::new(validator_id.clone());
        let v = Votor {
            validator_id,
            network_config,
            keypair,
            slot_states: HashMap::new(),
            slot_timeouts: HashMap::new(),
            pending_events: Vec::new(),
        };
        assert(v.view().pending_events =~= Seq::<VotorEventView>::empty());
        v
    }

    /// As [`Votor::new`], or `None` where the key derived from the name is not
    /// a valid private key.
    pub fn try_new(validator_id: ValidatorId, network_config: NetworkConfig) -> (v: Option<Votor>)
        ensures
            v is Some <==> KeyPair::seed_is_valid(validator_id@),
            v matches Some(m) ==> m.wf() && m.view().validator_id == validator_id
                && m.view().validators == network_config.validators@
                && m.view().states == Map::<u64, SlotState>::empty()
                && m.view().timeouts == Map::<u64, u64>::empty()
                && m.view().pending_events == Seq::<VotorEventView>::empty(),
    {
        match KeyPair::try_new(validator_id.clone()) {
            Some(_) => Some(Votor::new(validator_id, network_config)),
            None => None,
        }
    }

    fn state_of(&self, slot: Slot) -> (st: SlotState)
        ensures
            st == self.view().state_of(slot),
    {
        match self.slot_states.get(&slot) {
            Some(st) => *st,
            None => SlotState::default(),
        }
    }

    fn queue(&mut self, events: &Vec<VotorEvent>)
        ensures
            final(self).view() == (VotorView {
                pending_events: old(self).view().pending_events + votor_events_view(events@),
                ..old(self).view()
            }),
    {
        let ghost start = self.view();
        let mut i: usize = 0;
        while i < events.len()
            invariant
                i <= events@.len(),
                self.view() == (VotorView {
                    pending_events: start.pending_events + votor_events_view(events@).take(i as int),
                    ..start
                }),
            decreases events@.len() - i,
        {
            let e = events[i].clone();
            let ghost ev = e@;
            let ghost prev = self.pending_events@;
            self.pending_events.push(e);
            assert(votor_events_view(self.pending_events@) =~= votor_events_view(prev).push(ev));
            assert(votor_events_view(events@).take(i + 1) =~= votor_events_view(events@).take(i as int).push(ev));
            assert(self.view().pending_events =~= start.pending_events + votor_events_view(events@).take(i + 1));
            i = i + 1;
        }
        assert(votor_events_view(events@).take(i as int) =~= votor_events_view(events@));
    }

    fn settle(&mut self, slot: Slot, st: SlotState, events: Vec<VotorEvent>) -> (r: Vec<VotorEvent>)
        ensures
            (final(self).view(), votor_events_view(r@)) == old(self).view().with(slot, st, votor_events_view(events@)),
            r@ == events@,
    {
        self.slot_states.insert(slot, st);
        self.queue(&events);
        events
    }

    fn create_vote_data(&self, slot: Slot, block_hash: &[u8; 32]) -> (data: Vec<u8>)
        ensures
            data@ == notar_vote_data(slot, *block_hash, self.view().validator_id@),
    {
        let mut data = u64_to_le_bytes(slot);
        data.extend_from_slice(block_hash.as_slice());
        data.extend_from_slice(self.validator_id.as_str().as_bytes());
        assert(data@ =~= notar_vote_data(slot, *block_hash, self.view().validator_id@));
        data
    }

    fn create_final_vote_data(&self, slot: Slot) -> (data: Vec<u8>)
        ensures
            data@ == final_vote_data(slot, self.view().validator_id@),
    {
        let mut data = u64_to_le_bytes(slot);
        data.extend_from_slice("FINAL".as_bytes());
        data.extend_from_slice(self.validator_id.as_str().as_bytes());
        assert(data@ =~= final_vote_data(slot, self.view().validator_id@));
        data
    }

    fn create_skip_vote_data(&self, slot: Slot) -> (data: Vec<u8>)
        ensures
            data@ == skip_vote_data(slot, self.view().validator_id@),
    {
        let mut data = u64_to_le_bytes(slot);
        data.extend_from_slice("SKIP".as_bytes());
        data.extend_from_slice(self.validator_id.as_str().as_bytes());
        assert(data@ =~= skip_vote_data(slot, self.view().validator_id@));
        data
    }

    fn sign(&self, data: &Vec<u8>) -> (sig: Signature)
        requires
            self.wf(),
        ensures
            sig == self.view().signature(data@),
    {
        let sig = self.keypair.sign(data.as_slice());
        proof {
            lemma_signature_of(sig);
        }
        sig
    }

    /// Reacts to a block with hash `block_hash` arriving in `slot`
    /// (see [`VotorView::after_block_received`]); the events are also queued.
    pub fn handle_block_received(&mut self, slot: Slot, block_hash: [u8; 32]) -> (events: Vec<VotorEvent>)
        requires
            old(self).wf(),
        ensures
            final(self).wf(),
            (final(self).view(), votor_events_view(events@)) == old(self).view().after_block_received(slot, block_hash),
    {
        let vote_data = self.create_vote_data(slot, &block_hash);
        let signature = self.sign(&vote_data);
        let mut state = self.state_of(slot);
        state.received_block = Some(block_hash);
        let received_this = match state.received_block {
            Some(h) => hashes_equal(&h, &block_hash),
            None => false,
        };
        let should_vote = state.cast_notar_vote.is_none() && !state.cast_skip_vote
            && !state.block_fast_finalized && !state.slot_skipped && received_this;
        let mut events: Vec<VotorEvent> = Vec::new();
        if should_vote {
            let vote = NotarVote { slot, block_hash, validator_id: self.validator_id.clone(), signature };
            state.cast_notar_vote = Some(block_hash);
            events.push(VotorEvent::ShouldCastVote { vote: AlpenglowMessage::NotarVote(vote) });
        }
        let r = self.settle(slot, state, events);
        assert(votor_events_view(r@) =~= old(self).view().after_block_received(slot, block_hash).1);
        r
    }

    /// Reacts to a certificate event from the pool (see
    /// [`VotorView::after_pool_event`]); the events are also queued.
    pub fn handle_pool_event(&mut self, event: PoolEvent) -> (events: Vec<VotorEvent>)
        requires
            old(self).wf(),
        ensures
            final(self).wf(),
            (final(self).view(), votor_events_view(events@)) == old(self).view().after_pool_event(event@),
    {
        let ghost ev = event@;
        match event {
            PoolEvent::BlockNotarized { slot, block_hash, .. } => {
                let data = self.create_final_vote_data(slot);
                let signature = self.sign(&data);
                let mut state = self.state_of(slot);
                state.block_notarized = true;
                let mut events: Vec<VotorEvent> = Vec::new();
                let ours = match state.cast_notar_vote {
                    Some(h) => hashes_equal(&h, &block_hash),
                    None => false,
                };
                if ours && !state.cast_final_vote {
                    let vote = FinalVote { slot, validator_id: self.validator_id.clone(), signature };
                    state.cast_final_vote = true;
                    events.push(VotorEvent::ShouldCastVote { vote: AlpenglowMessage::FinalVote(vote) });
                }
                let r = self.settle(slot, state, events);
                assert(votor_events_view(r@) =~= old(self).view().after_pool_event(ev).1);
                r
            },
            PoolEvent::FastFinalized { slot, block_hash, .. } => {
                let mut state = self.state_of(slot);
                state.block_fast_finalized = true;
                let mut events: Vec<VotorEvent> = Vec::new();
                events.push(VotorEvent::BlockFinalized { slot, block_hash });
                let r = self.settle(slot, state, events);
                assert(votor_events_view(r@) =~= old(self).view().after_pool_event(ev).1);
                r
            },
            PoolEvent::SlotSkipped { slot, .. } => {
                let mut state = self.state_of(slot);
                state.slot_skipped = true;
                let mut events: Vec<VotorEvent> = Vec::new();
                events.push(VotorEvent::SlotSkipped { slot });
                let r = self.settle(slot, state, events);
                assert(votor_events_view(r@) =~= old(self).view().after_pool_event(ev).1);
                r
            },
        }
    }

    /// Reacts to `slot` timing out (see [`VotorView::after_slot_timeout`]);
    /// the events are also queued.
    pub fn handle_slot_timeout(&mut self, slot: Slot) -> (events: Vec<VotorEvent>)
        requires
            old(self).wf(),
        ensures
            final(self).wf(),
            (final(self).view(), votor_events_view(events@)) == old(self).view().after_slot_timeout(slot),
    {
        let data = self.create_skip_vote_data(slot);
        let signature = self.sign(&data);
        let mut state = self.state_of(slot);
        let mut events: Vec<VotorEvent> = Vec::new();
        if state.cast_notar_vote.is_none() && !state.cast_skip_vote && state.received_block.is_none() {
            let vote = SkipVote { slot, validator_id: self.validator_id.clone(), signature };
            state.cast_skip_vote = true;
            events.push(VotorEvent::ShouldCastVote { vote: AlpenglowMessage::SkipVote(vote) });
        }
        let r = self.settle(slot, state, events);
        assert(votor_events_view(r@) =~= old(self).view().after_slot_timeout(slot).1);
        r
    }

    /// Whether `slot`'s timeout has been set.
    pub fn has_timeout_set(&self, slot: Slot) -> (r: bool)
        ensures
            r == self.view().state_of(slot).timeout_set is Some,
    {
        self.state_of(slot).timeout_set.is_some()
    }

    /// Sets `slot`'s timeout to expire `timeout_ms` milliseconds after `now`.
    pub fn set_slot_timeout_at(&mut self, slot: Slot, timeout_ms: u64, now: u64)
        requires
            old(self).wf(),
            now + timeout_ms <= u64::MAX,
        ensures
            final(self).wf(),
            final(self).view() == old(self).view().after_set_timeout(slot, (now + timeout_ms) as u64),
    {
        let deadline = now + timeout_ms;
        self.slot_timeouts.insert(slot, deadline);
        let mut state = self.state_of(slot);
        state.timeout_set = Some(deadline);
        self.slot_states.insert(slot, state);
    }

    /// Sets `slot`'s timeout to expire `timeout_ms` milliseconds from now (at
    /// the latest time that can be written where that overflows).
    pub fn set_slot_timeout(&mut self, slot: Slot, timeout_ms: u64)
        requires
            old(self).wf(),
        ensures
            final(self).wf(),
            exists|deadline: u64|
                deadline >= timeout_ms && final(self).view() == old(self).view().after_set_timeout(slot, deadline),
    {
        let now = unix_time_millis();
        let start = if now > u64::MAX - timeout_ms { u64::MAX - timeout_ms } else { now };
        self.set_slot_timeout_at(slot, timeout_ms, start);
    }

    /// Fires the timeouts that have expired at time `now`: each is removed and
    /// its slot times out, in the order given by the walk of the timeouts
    /// (see [`timeouts_fired`]).  Returns the events of all of them.
    pub fn check_timeouts_at(&mut self, now: u64) -> (events: Vec<VotorEvent>)
        requires
            old(self).wf(),
        ensures
            final(self).wf(),
            timeouts_fired(old(self).view(), final(self).view(), votor_events_view(events@), now),
    {
        let expired = expired_slots(&self.slot_timeouts, now);
        let ghost order = expired@;
        let ghost start = self.view();
        assert forall|s: u64| #[trigger] order.contains(s) <==> start.expired(s, now) by {}
        let mut events: Vec<VotorEvent> = Vec::new();
        let mut i: usize = 0;
        assert(order.take(0) =~= Seq::<u64>::empty());
        assert(start.timeouts.remove_keys(order.take(0).to_set()) =~= start.timeouts);
        assert(votor_events_view(events@) =~= Seq::<VotorEventView>::empty());
        while i < expired.len()
            invariant
                i <= order.len(),
                order == expired@,
                self.wf(),
                (self.view(), votor_events_view(events@)) == ((VotorView {
                    timeouts: start.timeouts.remove_keys(order.take(i as int).to_set()),
                    ..start.after_timeouts(order.take(i as int)).0
                }), start.after_timeouts(order.take(i as int)).1),
            decreases order.len() - i,
        {
            let slot = expired[i];
            assert(order.take(i + 1).drop_last() =~= order.take(i as int));
            self.slot_timeouts.remove(&slot);
            let more = self.handle_slot_timeout(slot);
            let ghost before = events@;
            let mut j: usize = 0;
            while j < more.len()
                invariant
                    j <= more@.len(),
                    votor_events_view(events@) == votor_events_view(before) + votor_events_view(more@).take(j as int),
                decreases more@.len() - j,
            {
                let e = more[j].clone();
                let ghost ev = e@;
                let ghost prev = events@;
                events.push(e);
                proof {
                    assert(votor_events_view(events@) =~= votor_events_view(prev).push(ev));
                    assert(votor_events_view(more@).take(j + 1) =~= votor_events_view(more@).take(j as int).push(ev));
                }
                j = j + 1;
            }
            assert(votor_events_view(more@).take(j as int) =~= votor_events_view(more@));
            assert(order.take(i + 1) =~= order.take(i as int).push(slot));
            proof {
                order.take(i as int).lemma_push_to_set_commute(slot);
            }
            assert(order.take(i + 1).to_set() =~= order.take(i as int).to_set().insert(slot));
            assert(self.view().timeouts =~= start.timeouts.remove_keys(order.take(i + 1).to_set()));
            i = i + 1;
        }
        assert(order.take(i as int) =~= order);
        assert(timeouts_fired(start, self.view(), votor_events_view(events@), now) ) by {
            assert(fired_in_order(start, self.view(), votor_events_view(events@), now, order));
        }
        events
    }

    /// Fires the timeouts that have expired now (see [`Votor::check_timeouts_at`]).
    pub fn check_timeouts(&mut self) -> (events: Vec<VotorEvent>)
        requires
            old(self).wf(),
        ensures
            final(self).wf(),
            exists|now: u64| #[trigger] timeouts_fired(old(self).view(), final(self).view(), votor_events_view(events@), now),
    {
        let now = unix_time_millis();
        self.check_timeouts_at(now)
    }

    /// Takes the queued events, leaving none.
    pub fn drain_events(&mut self) -> (events: Vec<VotorEvent>)
        requires
            old(self).wf(),
        ensures
            final(self).wf(),
            votor_events_view(events@) == old(self).view().pending_events,
            final(self).view() == (VotorView { pending_events: Seq::empty(), ..old(self).view() }),
    {
        let mut events: Vec<VotorEvent> = Vec::new();
        std::mem::swap(&mut events, &mut self.pending_events);
        assert(self.view().pending_events =~= Seq::<VotorEventView>::empty());
        events
    }
}

} // verus!

verus! {

/// An input of the voting state machine.
pub enum VotorInput {
    /// A block arrived.
    BlockReceived { slot: u64, block_hash: [u8; 32] },
    /// The pool created a certificate.
    PoolEvent(PoolEventView),
    /// A slot timed out.
    Timeout { slot: u64 },
    /// A slot's timeout was set to expire at `deadline`.
    SetTimeout { slot: u64, deadline: u64 },
}

impl VotorView {
    /// The machine and events after one input.
    pub open spec fn step(self, input: VotorInput) -> (VotorView, Seq<VotorEventView>) {
        match input {
            VotorInput::BlockReceived { slot, block_hash } => self.after_block_received(slot, block_hash),
            VotorInput::PoolEvent(e) => self.after_pool_event(e),
            VotorInput::Timeout { slot } => self.after_slot_timeout(slot),
            VotorInput::SetTimeout { slot, deadline } => (self.after_set_timeout(slot, deadline), Seq::empty()),
        }
    }

    /// The machine and all events after the inputs, in order.
    pub open spec fn run(self, inputs: Seq<VotorInput>) -> (VotorView, Seq<VotorEventView>)
        decreases inputs.len(),
    {
        if inputs.len() == 0 {
            (self, Seq::empty())
        } else {
            let (v, es) = self.run(inputs.drop_last());
            let (v2, es2) = v.step(inputs.last());
            (v2, es + es2)
        }
    }
}

/// Whether we cast a notarization or skip vote in the slot.
pub open spec fn has_voted(st: SlotState) -> bool {
    st.cast_notar_vote is Some || st.cast_skip_vote
}

/// Whether the event casts a notarization or skip vote for `slot`.
pub open spec fn is_first_round_vote(e: VotorEventView, slot: u64) -> bool {
    match e {
        VotorEventView::ShouldCastVote { vote: AlpenglowMessageView::NotarVote(v) } => v.slot == slot,
        VotorEventView::ShouldCastVote { vote: AlpenglowMessageView::SkipVote(v) } => v.slot == slot,
        _ => false,
    }
}

/// How many notarization or skip votes for `slot` the events cast.
pub open spec fn first_round_votes(es: Seq<VotorEventView>, slot: u64) -> nat
    decreases es.len(),
{
    if es.len() == 0 {
        0
    } else {
        first_round_votes(es.drop_last(), slot) + if is_first_round_vote(es.last(), slot) {
            1nat
        } else {
            0nat
        }
    }
}

proof fn lemma_first_round_votes_concat(a: Seq<VotorEventView>, b: Seq<VotorEventView>, slot: u64)
    ensures
        first_round_votes(a + b, slot) == first_round_votes(a, slot) + first_round_votes(b, slot),
    decreases b.len(),
{
    if b.len() > 0 {
        lemma_first_round_votes_concat(a, b.drop_last(), slot);
        assert((a + b).drop_last() =~= a + b.drop_last());
    } else {
        assert(a + b =~= a);
    }
}

/// Law: one input casts at most one notarization or skip vote for a slot, and
/// only where the slot had none; afterwards the slot records it; a recorded
/// vote is never forgotten.
pub proof fn law_step_votes_once(v: VotorView, input: VotorInput, slot: u64)
    ensures
        has_voted(v.state_of(slot)) ==> has_voted(v.step(input).0.state_of(slot)),
        first_round_votes(v.step(input).1, slot) <= 1,
        first_round_votes(v.step(input).1, slot) == 1 ==> !has_voted(v.state_of(slot)) && has_voted(
            v.step(input).0.state_of(slot),
        ),
{
    reveal_with_fuel(first_round_votes, 2);
}

/// Law: over any run of inputs, the validator casts at most one notarization
/// or skip vote per slot, none where it had already voted in the slot.
pub proof fn law_one_vote_per_slot(v: VotorView, inputs: Seq<VotorInput>, slot: u64)
    ensures
        first_round_votes(v.run(inputs).1, slot) + (if has_voted(v.state_of(slot)) {
            1nat
        } else {
            0nat
        }) <= 1,
        first_round_votes(v.run(inputs).1, slot) == 1 || has_voted(v.state_of(slot)) ==> has_voted(
            v.run(inputs).0.state_of(slot),
        ),
    decreases inputs.len(),
{
    if inputs.len() > 0 {
        law_one_vote_per_slot(v, inputs.drop_last(), slot);
        let (w, es) = v.run(inputs.drop_last());
        law_step_votes_once(w, inputs.last(), slot);
        lemma_first_round_votes_concat(es, w.step(inputs.last()).1, slot);
    }
}

/// Law: a finalization vote is cast only for a slot where we voted to notarize
/// the block that got notarized, at most once: the slot then records it.
pub proof fn law_final_vote_follows_notarization(v: VotorView, e: PoolEventView)
    ensures
        v.after_pool_event(e).1.len() > 0 && v.after_pool_event(e).1[0] is ShouldCastVote ==> {
            &&& e matches PoolEventView::BlockNotarized { slot, block_hash, .. }
            &&& v.state_of(e->BlockNotarized_slot).cast_notar_vote == Some(e->BlockNotarized_block_hash)
            &&& !v.state_of(e->BlockNotarized_slot).cast_final_vote
            &&& v.after_pool_event(e).0.state_of(e->BlockNotarized_slot).cast_final_vote
        },
{
}

/// Whether the event casts a finalization vote for `slot`.
pub open spec fn is_final_vote(e: VotorEventView, slot: u64) -> bool {
    match e {
        VotorEventView::ShouldCastVote { vote: AlpenglowMessageView::FinalVote(v) } => v.slot == slot,
        _ => false,
    }
}

/// How many finalization votes for `slot` the events cast.
pub open spec fn final_votes(es: Seq<VotorEventView>, slot: u64) -> nat
    decreases es.len(),
{
    if es.len() == 0 {
        0
    } else {
        final_votes(es.drop_last(), slot) + if is_final_vote(es.last(), slot) {
            1nat
        } else {
            0nat
        }
    }
}

proof fn lemma_final_votes_concat(a: Seq<VotorEventView>, b: Seq<VotorEventView>, slot: u64)
    ensures
        final_votes(a + b, slot) == final_votes(a, slot) + final_votes(b, slot),
    decreases b.len(),
{
    if b.len() > 0 {
        lemma_final_votes_concat(a, b.drop_last(), slot);
        assert((a + b).drop_last() =~= a + b.drop_last());
    } else {
        assert(a + b =~= a);
    }
}

proof fn lemma_step_final_vote_once(v: VotorView, input: VotorInput, slot: u64)
    ensures
        v.state_of(slot).cast_final_vote ==> v.step(input).0.state_of(slot).cast_final_vote,
        final_votes(v.step(input).1, slot) <= 1,
        final_votes(v.step(input).1, slot) == 1 ==> !v.state_of(slot).cast_final_vote
            && v.step(input).0.state_of(slot).cast_final_vote,
{
    reveal_with_fuel(final_votes, 2);
}

/// Law: over any run of inputs, the validator casts at most one finalization
/// vote per slot, none where it had already cast one.
pub proof fn law_one_final_vote_per_slot(v: VotorView, inputs: Seq<VotorInput>, slot: u64)
    ensures
        final_votes(v.run(inputs).1, slot) + (if v.state_of(slot).cast_final_vote {
            1nat
        } else {
            0nat
        }) <= 1,
        final_votes(v.run(inputs).1, slot) == 1 || v.state_of(slot).cast_final_vote ==> v.run(
            inputs,
        ).0.state_of(slot).cast_final_vote,
    decreases inputs.len(),
{
    if inputs.len() > 0 {
        law_one_final_vote_per_slot(v, inputs.drop_last(), slot);
        let (w, es) = v.run(inputs.drop_last());
        lemma_step_final_vote_once(w, inputs.last(), slot);
        lemma_final_votes_concat(es, w.step(inputs.last()).1, slot);
    }
}

/// The inputs of the slots of `order` timing out, in that order.
pub open spec fn timeout_inputs(order: Seq<u64>) -> Seq<VotorInput> {
    order.map_values(|slot: u64| VotorInput::Timeout { slot })
}

/// Law: firing timeouts is a run of timeout inputs, one per slot in the order
/// they fire; so what holds of every run holds of
/// [`Votor::check_timeouts`] too, which fires the expired slots in some order.
pub proof fn law_timeouts_fire_as_steps(v: VotorView, order: Seq<u64>)
    ensures
        v.after_timeouts(order) == v.run(timeout_inputs(order)),
    decreases order.len(),
{
    if order.len() > 0 {
        law_timeouts_fire_as_steps(v, order.drop_last());
        assert(timeout_inputs(order).drop_last() =~= timeout_inputs(order.drop_last()));
    } else {
        assert(timeout_inputs(order) =~= Seq::<VotorInput>::empty());
    }
}

proof fn lemma_step_final_vote_source(v: VotorView, input: VotorInput, slot: u64)
    ensures
        v.state_of(slot).cast_notar_vote is Some ==> v.step(input).0.state_of(slot).cast_notar_vote == v.state_of(
            slot,
        ).cast_notar_vote,
        final_votes(v.step(input).1, slot) > 0 ==> (input matches VotorInput::PoolEvent(
            PoolEventView::BlockNotarized { slot: s, block_hash, .. },
        ) && s == slot && v.state_of(slot).cast_notar_vote == Some(block_hash)),
{
    reveal_with_fuel(final_votes, 2);
}

/// Law: over any run of inputs, a finalization vote for a slot is cast only in
/// answer to that slot's notarization of the very block we voted to notarize:
/// the run has such a notarization among its inputs, and our notarization
/// vote for the slot names that block.
pub proof fn law_final_vote_answers_own_notarization(v: VotorView, inputs: Seq<VotorInput>, slot: u64)
    ensures
        final_votes(v.run(inputs).1, slot) > 0 ==> exists|k: int|
            0 <= k < inputs.len() && (#[trigger] inputs[k] matches VotorInput::PoolEvent(
                PoolEventView::BlockNotarized { slot: s, block_hash, .. },
            ) && s == slot && v.run(inputs).0.state_of(slot).cast_notar_vote == Some(block_hash)),
    decreases inputs.len(),
{
    if inputs.len() > 0 {
        let (w, es) = v.run(inputs.drop_last());
        let (w2, es2) = w.step(inputs.last());
        law_final_vote_answers_own_notarization(v, inputs.drop_last(), slot);
        lemma_step_final_vote_source(w, inputs.last(), slot);
        lemma_final_votes_concat(es, es2, slot);
        if final_votes(v.run(inputs).1, slot) > 0 {
            if final_votes(es, slot) > 0 {
                let k = choose|k: int|
                    0 <= k < inputs.drop_last().len() && (#[trigger] inputs.drop_last()[k] matches VotorInput::PoolEvent(
                        PoolEventView::BlockNotarized { slot: s, block_hash, .. },
                    ) && s == slot && w.state_of(slot).cast_notar_vote == Some(block_hash));
                assert(inputs.drop_last()[k] == inputs[k]);
            } else {
                assert(inputs[inputs.len() - 1] == inputs.last());
            }
        }
    }
}

/// Whether the event casts a notarization vote for `slot`.
pub open spec fn is_notar_vote(e: VotorEventView, slot: u64) -> bool {
    match e {
        VotorEventView::ShouldCastVote { vote: AlpenglowMessageView::NotarVote(v) } => v.slot == slot,
        _ => false,
    }
}

/// Law: a skipped slot gets no notarization vote: once a skip certificate
/// for a slot has reached the machine, a block for that slot arriving later
/// casts nothing.
pub proof fn law_no_vote_after_skip(v: VotorView, slot: u64, certificate: SkipCertificateView, h: [u8; 32])
    ensures
        v.after_pool_event(PoolEventView::SlotSkipped { slot, certificate }).0.after_block_received(slot, h).1
            == Seq::<VotorEventView>::empty(),
{
}

/// Law: a fast-finalized slot gets no further notarization vote: once the
/// slot's fast-finalization certificate has reached the machine, a block for
/// that slot arriving later casts nothing.
pub proof fn law_no_vote_after_fast_finalization(
    v: VotorView,
    slot: u64,
    block_hash: [u8; 32],
    certificate: NotarCertificateView,
    h: [u8; 32],
)
    ensures
        v.after_pool_event(PoolEventView::FastFinalized { slot, block_hash, certificate }).0.after_block_received(
            slot,
            h,
        ).1 == Seq::<VotorEventView>::empty(),
{
}

/// Law: a block arriving for a slot where nothing has happened casts our
/// notarization vote for that very block and slot.
pub proof fn law_first_block_gets_a_vote(v: VotorView, slot: u64, h: [u8; 32])
    requires
        v.state_of(slot) == fresh_slot_state(),
    ensures
        v.after_block_received(slot, h).1.len() == 1,
        v.after_block_received(slot, h).1[0] matches VotorEventView::ShouldCastVote {
            vote: AlpenglowMessageView::NotarVote(n),
        } && n.slot == slot && n.block_hash == h && n.validator_id == v.validator_id,
{
}

proof fn lemma_step_keeps_skip(v: VotorView, input: VotorInput, slot: u64)
    requires
        v.state_of(slot).slot_skipped,
    ensures
        v.step(input).0.state_of(slot).slot_skipped,
        forall|i: int| 0 <= i < v.step(input).1.len() ==> !is_notar_vote(#[trigger] v.step(input).1[i], slot),
{
}

/// Law: over any run of inputs after a slot was skipped by certificate, no
/// notarization vote for that slot is cast.
pub proof fn law_skipped_slot_never_notarized(v: VotorView, inputs: Seq<VotorInput>, slot: u64)
    requires
        v.state_of(slot).slot_skipped,
    ensures
        v.run(inputs).0.state_of(slot).slot_skipped,
        forall|i: int| 0 <= i < v.run(inputs).1.len() ==> !is_notar_vote(#[trigger] v.run(inputs).1[i], slot),
    decreases inputs.len(),
{
    if inputs.len() > 0 {
        law_skipped_slot_never_notarized(v, inputs.drop_last(), slot);
        let (w, es) = v.run(inputs.drop_last());
        lemma_step_keeps_skip(w, inputs.last(), slot);
        let es2 = w.step(inputs.last()).1;
        assert forall|i: int| 0 <= i < (es + es2).len() implies !is_notar_vote(#[trigger] (es + es2)[i], slot) by {
            if i < es.len() {
                assert((es + es2)[i] == es[i]);
            } else {
                assert((es + es2)[i] == es2[i - es.len()]);
            }
        }
    }
}

/// Law: a skip certificate marks its slot skipped.
pub proof fn law_skip_certificate_marks_slot(v: VotorView, slot: u64, certificate: SkipCertificateView)
    ensures
        v.after_pool_event(PoolEventView::SlotSkipped { slot, certificate }).0.state_of(slot).slot_skipped,
{
}

} // verus!
