//! Vote tracking and certificate creation.
//!
//! The pool collects the votes of each slot, one of each kind per validator, and
//! creates a certificate when the votes of a kind carry enough stake:
//! - a notarization certificate when 60% of the stake voted to notarize a block,
//! - a fast-finalization certificate when 80% did,
//! - a skip certificate when 60% voted to skip the slot.
//! Each kind of certificate is created at most once per slot.

use vstd::prelude::*;

use std::collections::HashMap;

use crate::types::crypto::{bls_aggregate, bls_aggregate_bytes};
use crate::types::messages::{
    AlpenglowMessage, Ballot, FastFinalCertificate, FinalVote, NotarCertificate,
    NotarCertificateView, NotarVote, Signature, SkipCertificate, SkipCertificateView, SkipVote, Slot,
    ValidatorId,
};
use crate::types::network::{lemma_stake_sum_first, lemma_stake_sum_nonneg, stake_of, stake_sum, NetworkConfig, ValidatorInfo};

verus! {

broadcast use vstd::std_specs::hash::group_hash_axioms;

/// What the pool reports when it creates a certificate.
#[derive(Debug)]
pub enum PoolEvent {
    BlockNotarized { slot: Slot, block_hash: [u8; 32], certificate: NotarCertificate },
    FastFinalized { slot: Slot, block_hash: [u8; 32], certificate: FastFinalCertificate },
    SlotSkipped { slot: Slot, certificate: SkipCertificate },
}

/// The mathematical value of a [`PoolEvent`].
pub enum PoolEventView {
    BlockNotarized { slot: u64, block_hash: [u8; 32], certificate: NotarCertificateView },
    FastFinalized { slot: u64, block_hash: [u8; 32], certificate: NotarCertificateView },
    SlotSkipped { slot: u64, certificate: SkipCertificateView },
}

impl View for PoolEvent {
    type V = PoolEventView;

    open spec fn view(&self) -> PoolEventView {
        match self {
            PoolEvent::BlockNotarized { slot, block_hash, certificate } => PoolEventView::BlockNotarized {
                slot: *slot,
                block_hash: *block_hash,
                certificate: certificate@,
            },
            PoolEvent::FastFinalized { slot, block_hash, certificate } => PoolEventView::FastFinalized {
                slot: *slot,
                block_hash: *block_hash,
                certificate: certificate@,
            },
            PoolEvent::SlotSkipped { slot, certificate } => PoolEventView::SlotSkipped {
                slot: *slot,
                certificate: certificate@,
            },
        }
    }
}

impl Clone for PoolEvent {
    fn clone(&self) -> (r: Self)
        ensures
            r@ == self@,
    {
        match self {
            PoolEvent::BlockNotarized { slot, block_hash, certificate } => PoolEvent::BlockNotarized {
                slot: *slot,
                block_hash: *block_hash,
                certificate: certificate.clone(),
            },
            PoolEvent::FastFinalized { slot, block_hash, certificate } => PoolEvent::FastFinalized {
                slot: *slot,
                block_hash: *block_hash,
                certificate: certificate.clone(),
            },
            PoolEvent::SlotSkipped { slot, certificate } => PoolEvent::SlotSkipped {
                slot: *slot,
                certificate: certificate.clone(),
            },
        }
    }
}

/// The views of a sequence of pool events.
pub open spec fn pool_events_view(es: Seq<PoolEvent>) -> Seq<PoolEventView> {
    es.map_values(|e: PoolEvent| e@)
}

/// The votes of one slot.
pub struct SlotVotes {
    notar_votes: Vec<NotarVote>,
    skip_votes: Vec<SkipVote>,
    final_votes: Vec<FinalVote>,
}

/// The mathematical value of [`SlotVotes`].
pub struct SlotVotesView {
    pub notar: Seq<NotarVote>,
    pub skip: Seq<SkipVote>,
    pub fin: Seq<FinalVote>,
}

impl View for SlotVotes {
    type V = SlotVotesView;

    closed spec fn view(&self) -> SlotVotesView {
        SlotVotesView { notar: self.notar_votes@, skip: self.skip_votes@, fin: self.final_votes@ }
    }
}

/// The votes of a slot no vote has come for.
pub open spec fn no_votes() -> SlotVotesView {
    SlotVotesView { notar: Seq::empty(), skip: Seq::empty(), fin: Seq::empty() }
}

/// The certificates of one slot.
pub struct SlotCertificates {
    notar_cert: Option<NotarCertificate>,
    fast_final_cert: Option<FastFinalCertificate>,
    skip_cert: Option<SkipCertificate>,
}

/// The mathematical value of [`SlotCertificates`].
pub struct SlotCertificatesView {
    pub notar: Option<NotarCertificateView>,
    pub fast_final: Option<NotarCertificateView>,
    pub skip: Option<SkipCertificateView>,
}

impl View for SlotCertificates {
    type V = SlotCertificatesView;

    closed spec fn view(&self) -> SlotCertificatesView {
        SlotCertificatesView {
            notar: match &self.notar_cert {
                Some(c) => Some(c@),
                None => None,
            },
            fast_final: match &self.fast_final_cert {
                Some(c) => Some(c@),
                None => None,
            },
            skip: match &self.skip_cert {
                Some(c) => Some(c@),
                None => None,
            },
        }
    }
}

/// The certificates of a slot that has none.
pub open spec fn no_certificates() -> SlotCertificatesView {
    SlotCertificatesView { notar: None, fast_final: None, skip: None }
}

/// The position of `id`'s vote in `votes`, or -1.
pub open spec fn voter_position<V: Ballot>(votes: Seq<V>, id: Seq<char>) -> int
    decreases votes.len(),
{
    if votes.len() == 0 {
        -1
    } else if votes[0].spec_voter() == id {
        0
    } else {
        let p = voter_position(votes.drop_first(), id);
        if p < 0 {
            -1
        } else {
            p + 1
        }
    }
}

/// The votes after `vote` is recorded: it replaces its voter's earlier vote,
/// or comes last.
pub open spec fn record_vote<V: Ballot>(votes: Seq<V>, vote: V) -> Seq<V> {
    let p = voter_position(votes, vote.spec_voter());
    if p < 0 {
        votes.push(vote)
    } else {
        votes.update(p, vote)
    }
}

/// No validator has two votes in `votes`.
pub open spec fn distinct_voters<V: Ballot>(votes: Seq<V>) -> bool {
    forall|i: int, j: int|
        0 <= i < j < votes.len() ==> #[trigger] votes[i].spec_voter() != #[trigger] votes[j].spec_voter()
}

/// All of `votes` are for `slot`.
pub open spec fn all_for_slot<V: Ballot>(votes: Seq<V>, slot: u64) -> bool {
    forall|i: int| 0 <= i < votes.len() ==> (#[trigger] votes[i]).spec_slot() == slot
}

/// The notarization votes for the block with hash `h`, in order.
pub open spec fn votes_for(votes: Seq<NotarVote>, h: [u8; 32]) -> Seq<NotarVote>
    decreases votes.len(),
{
    if votes.len() == 0 {
        Seq::empty()
    } else {
        let r = votes_for(votes.drop_last(), h);
        if votes.last().block_hash == h {
            r.push(votes.last())
        } else {
            r
        }
    }
}

/// The block hashes voted for, in the order of their first vote.
pub open spec fn first_seen_hashes(votes: Seq<NotarVote>) -> Seq<[u8; 32]>
    decreases votes.len(),
{
    if votes.len() == 0 {
        Seq::empty()
    } else {
        let r = first_seen_hashes(votes.drop_last());
        if r.contains(votes.last().block_hash) {
            r
        } else {
            r.push(votes.last().block_hash)
        }
    }
}

/// The stake behind `votes`: the sum of the voters' stakes.
pub open spec fn votes_stake<V: Ballot>(votes: Seq<V>, validators: Seq<ValidatorInfo>) -> int
    decreases votes.len(),
{
    if votes.len() == 0 {
        0
    } else {
        votes_stake(votes.drop_last(), validators) + stake_of(validators, votes.last().spec_voter())
    }
}

/// The share of `total` that `stake` is, in whole percent rounded down.
pub open spec fn percent(stake: int, total: int) -> int {
    stake * 100 / total
}

/// The names of the voters, in order.
pub open spec fn voters_of(votes: Seq<NotarVote>) -> Seq<ValidatorId> {
    votes.map_values(|v: NotarVote| v.validator_id)
}

/// The signatures of the votes, in order.
pub open spec fn signatures_of(votes: Seq<NotarVote>) -> Seq<Signature> {
    votes.map_values(|v: NotarVote| v.signature)
}

/// The signature a certificate carries, given the aggregate of its votes'
/// signatures where there is one: that aggregate, or else the first vote's
/// signature.
pub open spec fn signature_or_first(aggregate: Option<Signature>, votes: Seq<NotarVote>) -> Signature {
    match aggregate {
        Some(sig) => sig,
        None => votes[0].signature,
    }
}

/// The signature a certificate carries for its votes: their BLS aggregate, or
/// the first vote's signature where they cannot be aggregated.
pub open spec fn combined_signature(votes: Seq<NotarVote>) -> Signature {
    signature_or_first(bls_aggregate_bytes(signatures_of(votes)), votes)
}

/// The certificate that the votes for the block `h` carry.
pub open spec fn block_cert(
    slot: u64,
    h: [u8; 32],
    votes: Seq<NotarVote>,
    validators: Seq<ValidatorInfo>,
) -> NotarCertificateView {
    NotarCertificateView {
        slot,
        block_hash: h,
        aggregated_signature: combined_signature(votes_for(votes, h)),
        signing_validators: voters_of(votes_for(votes, h)),
        votes: votes_for(votes, h),
        total_stake: stake_sum(validators) as u64,
    }
}

/// The share of the stake behind the votes for the block `h`.
pub open spec fn block_percent(h: [u8; 32], votes: Seq<NotarVote>, validators: Seq<ValidatorInfo>) -> int {
    percent(votes_stake(votes_for(votes, h), validators), stake_sum(validators))
}

/// The notarization the votes for the block `h` create, given the slot's
/// certificates before: one at 60% of the stake where the slot has none.
pub open spec fn notar_event(
    slot: u64,
    h: [u8; 32],
    votes: Seq<NotarVote>,
    validators: Seq<ValidatorInfo>,
    before: SlotCertificatesView,
) -> Option<PoolEventView> {
    if block_percent(h, votes, validators) >= 60 && before.notar is None {
        Some(PoolEventView::BlockNotarized { slot, block_hash: h, certificate: block_cert(slot, h, votes, validators) })
    } else {
        None
    }
}

/// The fast finalization the votes for the block `h` create, given the
/// slot's certificates before: one at 80% of the stake where the slot has none.
pub open spec fn fast_event(
    slot: u64,
    h: [u8; 32],
    votes: Seq<NotarVote>,
    validators: Seq<ValidatorInfo>,
    before: SlotCertificatesView,
) -> Option<PoolEventView> {
    if block_percent(h, votes, validators) >= 80 && before.fast_final is None {
        Some(PoolEventView::FastFinalized { slot, block_hash: h, certificate: block_cert(slot, h, votes, validators) })
    } else {
        None
    }
}

/// The events with `o` added at the end where there is one.
pub open spec fn push_opt(s: Seq<PoolEventView>, o: Option<PoolEventView>) -> Seq<PoolEventView> {
    match o {
        Some(e) => s.push(e),
        None => s,
    }
}

/// What the votes for each of the hashes `hs` create, in order: for each
/// block its notarization, then its fast finalization.
pub open spec fn notar_events(
    slot: u64,
    hs: Seq<[u8; 32]>,
    votes: Seq<NotarVote>,
    validators: Seq<ValidatorInfo>,
    before: SlotCertificatesView,
) -> Seq<PoolEventView>
    decreases hs.len(),
{
    if hs.len() == 0 {
        Seq::empty()
    } else {
        let r = notar_events(slot, hs.drop_last(), votes, validators, before);
        push_opt(
            push_opt(r, notar_event(slot, hs.last(), votes, validators, before)),
            fast_event(slot, hs.last(), votes, validators, before),
        )
    }
}

/// What the skip votes create: a skip certificate at 60% of the stake where
/// the slot has none.
pub open spec fn skip_event(
    slot: u64,
    skips: Seq<SkipVote>,
    validators: Seq<ValidatorInfo>,
    before: SlotCertificatesView,
) -> Option<PoolEventView> {
    let total = stake_sum(validators);
    if percent(votes_stake(skips, validators), total) >= 60 && before.skip is None {
        Some(
            PoolEventView::SlotSkipped {
                slot,
                certificate: SkipCertificateView { slot, votes: skips, total_stake: total as u64 },
            },
        )
    } else {
        None
    }
}

/// The certificates that a slot's votes create, given its certificates before:
/// those of the notarization votes, block by block in the order of their first
/// vote, then that of the skip votes.
pub open spec fn certificate_events(
    slot: u64,
    votes: SlotVotesView,
    validators: Seq<ValidatorInfo>,
    before: SlotCertificatesView,
) -> Seq<PoolEventView> {
    let ne = notar_events(slot, first_seen_hashes(votes.notar), votes.notar, validators, before);
    match skip_event(slot, votes.skip, validators, before) {
        Some(e) => ne.push(e),
        None => ne,
    }
}

/// A slot's certificates after an event stores its certificate.
pub open spec fn apply_event(c: SlotCertificatesView, e: PoolEventView) -> SlotCertificatesView {
    match e {
        PoolEventView::BlockNotarized { certificate, .. } => SlotCertificatesView {
            notar: Some(certificate),
            ..c
        },
        PoolEventView::FastFinalized { certificate, .. } => SlotCertificatesView {
            fast_final: Some(certificate),
            ..c
        },
        PoolEventView::SlotSkipped { certificate, .. } => SlotCertificatesView {
            skip: Some(certificate),
            ..c
        },
    }
}

/// A slot's certificates after the events, in order.
pub open spec fn apply_events(c: SlotCertificatesView, es: Seq<PoolEventView>) -> SlotCertificatesView
    decreases es.len(),
{
    if es.len() == 0 {
        c
    } else {
        apply_event(apply_events(c, es.drop_last()), es.last())
    }
}

/// A notarization-kind certificate for `slot` is sound: its votes are for its
/// slot and block, reach `threshold` percent of the stake, and it names the
/// network's total stake.
pub open spec fn sound_notar_cert(
    c: NotarCertificateView,
    slot: u64,
    validators: Seq<ValidatorInfo>,
    threshold: int,
) -> bool {
    &&& c.slot == slot
    &&& c.total_stake == stake_sum(validators)
    &&& c.signing_validators == voters_of(c.votes)
    &&& c.aggregated_signature == combined_signature(c.votes)
    &&& forall|i: int|
        0 <= i < c.votes.len() ==> (#[trigger] c.votes[i]).slot == slot && c.votes[i].block_hash
            == c.block_hash
    &&& percent(votes_stake(c.votes, validators), stake_sum(validators)) >= threshold
}

/// A skip certificate for `slot` is sound: its votes are for its slot and
/// reach 60% of the stake.
pub open spec fn sound_skip_cert(c: SkipCertificateView, slot: u64, validators: Seq<ValidatorInfo>) -> bool {
    &&& c.slot == slot
    &&& c.total_stake == stake_sum(validators)
    &&& all_for_slot(c.votes, slot)
    &&& percent(votes_stake(c.votes, validators), stake_sum(validators)) >= 60
}

/// The certificates of `slot` are sound.
pub open spec fn sound_certificates(c: SlotCertificatesView, slot: u64, validators: Seq<ValidatorInfo>) -> bool {
    &&& c.notar matches Some(n) ==> sound_notar_cert(n, slot, validators, 60)
    &&& c.fast_final matches Some(f) ==> sound_notar_cert(f, slot, validators, 80)
    &&& c.skip matches Some(s) ==> sound_skip_cert(s, slot, validators)
}

/// The votes of `slot` are for that slot, one per validator and kind.
pub open spec fn well_kept_votes(v: SlotVotesView, slot: u64) -> bool {
    &&& all_for_slot(v.notar, slot) && distinct_voters(v.notar)
    &&& all_for_slot(v.skip, slot) && distinct_voters(v.skip)
    &&& all_for_slot(v.fin, slot) && distinct_voters(v.fin)
}

/// The pool's content.
pub struct PoolView {
    pub votes: Map<u64, SlotVotesView>,
    pub certificates: Map<u64, SlotCertificatesView>,
    pub validators: Seq<ValidatorInfo>,
    pub pending_events: Seq<PoolEventView>,
}

impl PoolView {
    /// The votes of `slot`.
    pub open spec fn votes_of(self, slot: u64) -> SlotVotesView {
        if self.votes.contains_key(slot) {
            self.votes[slot]
        } else {
            no_votes()
        }
    }

    /// The certificates of `slot`.
    pub open spec fn certificates_of(self, slot: u64) -> SlotCertificatesView {
        if self.certificates.contains_key(slot) {
            self.certificates[slot]
        } else {
            no_certificates()
        }
    }

    /// The stake of the whole network.
    pub open spec fn total_stake(self) -> int {
        stake_sum(self.validators)
    }

    /// The pool after a vote of one kind is recorded for `slot` and its
    /// certificates are checked, with `votes` the slot's votes after recording.
    pub open spec fn after_votes(self, slot: u64, votes: SlotVotesView) -> (PoolView, Seq<PoolEventView>) {
        let es = certificate_events(slot, votes, self.validators, self.certificates_of(slot));
        (
            PoolView {
                votes: self.votes.insert(slot, votes),
                certificates: if es.len() > 0 {
                    self.certificates.insert(slot, apply_events(self.certificates_of(slot), es))
                } else {
                    self.certificates
                },
                pending_events: self.pending_events + es,
                ..self
            },
            es,
        )
    }

    /// The pool and the events after `msg` is added: a vote is recorded for its
    /// slot (replacing its voter's earlier vote of the same kind); a
    /// notarization or skip vote then has the slot's certificates checked; a
    /// finalization vote creates nothing; other messages change nothing.
    pub open spec fn after_message(self, msg: crate::types::messages::AlpenglowMessageView) -> (PoolView, Seq<PoolEventView>) {
        match msg {
            crate::types::messages::AlpenglowMessageView::NotarVote(v) => {
                let old_votes = self.votes_of(v.slot);
                self.after_votes(v.slot, SlotVotesView { notar: record_vote(old_votes.notar, v), ..old_votes })
            },
            crate::types::messages::AlpenglowMessageView::SkipVote(v) => {
                let old_votes = self.votes_of(v.slot);
                self.after_votes(v.slot, SlotVotesView { skip: record_vote(old_votes.skip, v), ..old_votes })
            },
            crate::types::messages::AlpenglowMessageView::FinalVote(v) => {
                let old_votes = self.votes_of(v.slot);
                (
                    PoolView {
                        votes: self.votes.insert(v.slot, SlotVotesView { fin: record_vote(old_votes.fin, v), ..old_votes }),
                        ..self
                    },
                    Seq::empty(),
                )
            },
            _ => (self, Seq::empty()),
        }
    }

    /// The pool's invariant: votes are kept per slot, one per validator and
    /// kind, and every certificate is sound.
    pub open spec fn wf(self) -> bool {
        &&& forall|s: u64| #[trigger] self.votes.contains_key(s) ==> well_kept_votes(self.votes[s], s)
        &&& forall|s: u64| #[trigger] self.certificates.contains_key(s) ==> sound_certificates(
            self.certificates[s],
            s,
            self.validators,
        )
    }
}

/// Vote tracking and certificate creation for the whole network.
pub struct Pool {
    votes: HashMap<Slot, SlotVotes>,
    certificates: HashMap<Slot, SlotCertificates>,
    network_config: NetworkConfig,
    pending_events: Vec<PoolEvent>,
}

proof fn lemma_voter_position<V: Ballot>(votes: Seq<V>, id: Seq<char>)
    ensures
        voter_position(votes, id) < votes.len(),
        voter_position(votes, id) >= 0 ==> votes[voter_position(votes, id)].spec_voter() == id,
        forall|j: int|
            0 <= j < votes.len() && (voter_position(votes, id) < 0 || j < voter_position(votes, id))
                ==> #[trigger] votes[j].spec_voter() != id,
    decreases votes.len(),
{
    if votes.len() > 0 && votes[0].spec_voter() != id {
        lemma_voter_position(votes.drop_first(), id);
        assert forall|j: int|
            0 <= j < votes.len() && (voter_position(votes, id) < 0 || j < voter_position(votes, id))
                implies #[trigger] votes[j].spec_voter() != id by {
            if j > 0 {
                assert(votes[j] == votes.drop_first()[j - 1]);
            }
        }
    }
}

proof fn lemma_record_vote<V: Ballot>(votes: Seq<V>, vote: V, slot: u64)
    requires
        all_for_slot(votes, slot),
        distinct_voters(votes),
        vote.spec_slot() == slot,
    ensures
        all_for_slot(record_vote(votes, vote), slot),
        distinct_voters(record_vote(votes, vote)),
{
    lemma_voter_position(votes, vote.spec_voter());
    let r = record_vote(votes, vote);
    let p = voter_position(votes, vote.spec_voter());
    assert forall|i: int, j: int| 0 <= i < j < r.len() implies #[trigger] r[i].spec_voter()
        != #[trigger] r[j].spec_voter() by {
        if p < 0 {
            if j == votes.len() {
                assert(votes[i].spec_voter() != vote.spec_voter());
            } else {
                assert(r[i] == votes[i] && r[j] == votes[j]);
            }
        } else {
            if i == p {
                assert(votes[i].spec_voter() != votes[j].spec_voter());
            } else if j == p {
                assert(votes[i].spec_voter() != votes[j].spec_voter());
            } else {
                assert(r[i] == votes[i] && r[j] == votes[j]);
            }
        }
    }
}

proof fn lemma_votes_for(votes: Seq<NotarVote>, h: [u8; 32], slot: u64)
    requires
        all_for_slot(votes, slot),
    ensures
        forall|i: int|
            0 <= i < votes_for(votes, h).len() ==> (#[trigger] votes_for(votes, h)[i]).slot == slot
                && votes_for(votes, h)[i].block_hash == h,
    decreases votes.len(),
{
    if votes.len() > 0 {
        assert(all_for_slot(votes.drop_last(), slot)) by {
            assert forall|i: int| 0 <= i < votes.drop_last().len() implies (#[trigger] votes.drop_last()[i]).spec_slot() == slot by {
                assert(votes.drop_last()[i] == votes[i]);
            }
        }
        lemma_votes_for(votes.drop_last(), h, slot);
        assert(votes.last().spec_slot() == slot);
        let r = votes_for(votes.drop_last(), h);
        if votes.last().block_hash == h {
            assert forall|i: int| 0 <= i < votes_for(votes, h).len() implies (#[trigger] votes_for(votes, h)[i]).slot == slot
                && votes_for(votes, h)[i].block_hash == h by {
                if i < r.len() {
                    assert(votes_for(votes, h)[i] == r[i]);
                }
            }
        }
    }
}

proof fn lemma_push_opt_sound(
    c: SlotCertificatesView,
    s: Seq<PoolEventView>,
    o: Option<PoolEventView>,
    slot: u64,
    validators: Seq<ValidatorInfo>,
)
    requires
        sound_certificates(apply_events(c, s), slot, validators),
        o matches Some(e) ==> match e {
            PoolEventView::BlockNotarized { certificate, .. } => sound_notar_cert(certificate, slot, validators, 60),
            PoolEventView::FastFinalized { certificate, .. } => sound_notar_cert(certificate, slot, validators, 80),
            PoolEventView::SlotSkipped { certificate, .. } => sound_skip_cert(certificate, slot, validators),
        },
    ensures
        sound_certificates(apply_events(c, push_opt(s, o)), slot, validators),
{
    if let Some(e) = o {
        assert(s.push(e).drop_last() =~= s);
    }
}

proof fn lemma_notar_events_sound(
    slot: u64,
    hs: Seq<[u8; 32]>,
    votes: Seq<NotarVote>,
    validators: Seq<ValidatorInfo>,
    before: SlotCertificatesView,
    c: SlotCertificatesView,
)
    requires
        all_for_slot(votes, slot),
        sound_certificates(c, slot, validators),
        0 <= stake_sum(validators) <= u64::MAX,
    ensures
        sound_certificates(apply_events(c, notar_events(slot, hs, votes, validators, before)), slot, validators),
    decreases hs.len(),
{
    if hs.len() > 0 {
        let h = hs.last();
        let r = notar_events(slot, hs.drop_last(), votes, validators, before);
        lemma_notar_events_sound(slot, hs.drop_last(), votes, validators, before, c);
        lemma_votes_for(votes, h, slot);
        let cert = block_cert(slot, h, votes, validators);
        assert(forall|i: int| 0 <= i < cert.votes.len() ==> (#[trigger] cert.votes[i]).slot == slot
            && cert.votes[i].block_hash == cert.block_hash);
        let n = notar_event(slot, h, votes, validators, before);
        lemma_push_opt_sound(c, r, n, slot, validators);
        lemma_push_opt_sound(c, push_opt(r, n), fast_event(slot, h, votes, validators, before), slot, validators);
    }
}

proof fn lemma_certificate_events_sound(
    slot: u64,
    votes: SlotVotesView,
    validators: Seq<ValidatorInfo>,
    before: SlotCertificatesView,
)
    requires
        well_kept_votes(votes, slot),
        sound_certificates(before, slot, validators),
        0 <= stake_sum(validators) <= u64::MAX,
    ensures
        sound_certificates(apply_events(before, certificate_events(slot, votes, validators, before)), slot, validators),
{
    let ne = notar_events(slot, first_seen_hashes(votes.notar), votes.notar, validators, before);
    lemma_notar_events_sound(slot, first_seen_hashes(votes.notar), votes.notar, validators, before, before);
    match skip_event(slot, votes.skip, validators, before) {
        Some(e) => {
            assert(ne.push(e).drop_last() =~= ne);
            assert(apply_events(before, ne.push(e)) == apply_event(apply_events(before, ne), e));
        },
        None => {},
    }
}

proof fn lemma_percent_full(stake: int, total: int)
    requires
        0 < total <= stake,
    ensures
        percent(stake, total) >= 100,
{
    assert(stake * 100 >= total * 100) by (nonlinear_arith)
        requires
            0 < total <= stake,
    ;
    assert(stake * 100 / total >= 100) by (nonlinear_arith)
        requires
            stake * 100 >= total * 100,
            total > 0,
    ;
}

/// Whether `stake` is at least `threshold` percent of `total`.
fn reaches(stake: u128, total: u64, threshold: u128) -> (r: bool)
    requires
        total > 0,
        threshold <= 100,
    ensures
        r == (percent(stake as int, total as int) >= threshold),
{
    if stake >= total as u128 {
        proof {
            lemma_percent_full(stake as int, total as int);
        }
        true
    } else {
        assert(stake * 100 < 0x1_0000_0000_0000_0000_0000_0000_0000_0000) by (nonlinear_arith)
            requires
                stake < total,
                total <= u64::MAX,
        ;
        stake * 100 / (total as u128) >= threshold
    }
}

fn voter_index<V: Ballot>(votes: &Vec<V>, vote: &V) -> (r: Option<usize>)
    ensures
        match r {
            Some(i) => voter_position(votes@, vote.spec_voter()) == i,
            None => voter_position(votes@, vote.spec_voter()) < 0,
        },
{
    let ghost before = votes@;
    let ghost id = vote.spec_voter();
    let mut i: usize = 0;
    assert(before.skip(0) =~= before);
    while i < votes.len()
        invariant
            votes@ == before,
            i <= before.len(),
            id == vote.spec_voter(),
            voter_position(before, id) == (if voter_position(before.skip(i as int), id) < 0 {
                -1
            } else {
                voter_position(before.skip(i as int), id) + i
            }),
        decreases before.len() - i,
    {
        assert(before.skip(i as int)[0] == before[i as int]);
        assert(before.skip(i as int).drop_first() =~= before.skip(i + 1));
        if *votes[i].voter() == *vote.voter() {
            return Some(i);
        }
        i = i + 1;
    }
    assert(before.skip(i as int).len() == 0);
    None
}

fn record<V: Ballot>(votes: &mut Vec<V>, vote: V)
    ensures
        final(votes)@ == record_vote(old(votes)@, vote),
{
    proof {
        lemma_voter_position(votes@, vote.spec_voter());
    }
    match voter_index(votes, &vote) {
        Some(i) => {
            votes.set(i, vote);
        },
        None => {
            votes.push(vote);
        },
    }
}

fn contains_hash(hs: &Vec<[u8; 32]>, h: &[u8; 32]) -> (r: bool)
    ensures
        r == hs@.contains(*h),
{
    let mut i: usize = 0;
    while i < hs.len()
        invariant
            i <= hs@.len(),
            forall|j: int| 0 <= j < i ==> hs@[j] != *h,
        decreases hs@.len() - i,
    {
        if crate::types::messages::hashes_equal(&hs[i], h) {
            assert(hs@[i as int] == *h);
            return true;
        }
        i = i + 1;
    }
    false
}

fn first_seen(votes: &Vec<NotarVote>) -> (hs: Vec<[u8; 32]>)
    ensures
        hs@ == first_seen_hashes(votes@),
{
    let mut hs: Vec<[u8; 32]> = Vec::new();
    let mut i: usize = 0;
    assert(votes@.take(0) =~= Seq::<NotarVote>::empty());
    while i < votes.len()
        invariant
            i <= votes@.len(),
            hs@ == first_seen_hashes(votes@.take(i as int)),
        decreases votes@.len() - i,
    {
        assert(votes@.take(i + 1).drop_last() =~= votes@.take(i as int));
        if !contains_hash(&hs, &votes[i].block_hash) {
            hs.push(votes[i].block_hash);
        }
        i = i + 1;
    }
    assert(votes@.take(i as int) =~= votes@);
    hs
}

fn collect_votes_for(votes: &Vec<NotarVote>, h: &[u8; 32]) -> (group: Vec<NotarVote>)
    ensures
        group@ == votes_for(votes@, *h),
{
    let mut group: Vec<NotarVote> = Vec::new();
    let mut i: usize = 0;
    assert(votes@.take(0) =~= Seq::<NotarVote>::empty());
    while i < votes.len()
        invariant
            i <= votes@.len(),
            group@ == votes_for(votes@.take(i as int), *h),
        decreases votes@.len() - i,
    {
        assert(votes@.take(i + 1).drop_last() =~= votes@.take(i as int));
        if crate::types::messages::hashes_equal(&votes[i].block_hash, h) {
            group.push(votes[i].clone());
        }
        i = i + 1;
    }
    assert(votes@.take(i as int) =~= votes@);
    group
}

fn stake_behind<V: Ballot>(config: &NetworkConfig, votes: &Vec<V>) -> (stake: u128)
    ensures
        stake == votes_stake(votes@, config.validators@),
{
    let mut stake: u128 = 0;
    let mut i: usize = 0;
    assert(votes@.take(0) =~= Seq::<V>::empty());
    while i < votes.len()
        invariant
            i <= votes@.len(),
            stake == votes_stake(votes@.take(i as int), config.validators@),
            stake <= i * 0xffff_ffff_ffff_ffffu128,
        decreases votes@.len() - i,
    {
        assert(votes@.take(i + 1).drop_last() =~= votes@.take(i as int));
        let s = config.get_stake(votes[i].voter());
        stake = stake + s as u128;
        i = i + 1;
    }
    assert(votes@.take(i as int) =~= votes@);
    stake
}

fn voter_names(votes: &Vec<NotarVote>) -> (ids: Vec<ValidatorId>)
    ensures
        ids@ == voters_of(votes@),
{
    let mut ids: Vec<ValidatorId> = Vec::new();
    let mut i: usize = 0;
    while i < votes.len()
        invariant
            i <= votes@.len(),
            ids@ == voters_of(votes@.take(i as int)),
        decreases votes@.len() - i,
    {
        ids.push(votes[i].validator_id.clone());
        assert(ids@ =~= voters_of(votes@.take(i + 1)));
        i = i + 1;
    }
    assert(votes@.take(i as int) =~= votes@);
    ids
}

/// The signature a certificate made of `votes` carries.
fn certificate_signature(votes: &Vec<NotarVote>) -> (sig: Signature)
    requires
        votes@.len() > 0,
    ensures
        sig == combined_signature(votes@),
{
    let mut sigs: Vec<Signature> = Vec::new();
    let mut i: usize = 0;
    while i < votes.len()
        invariant
            i <= votes@.len(),
            sigs@ == signatures_of(votes@.take(i as int)),
        decreases votes@.len() - i,
    {
        sigs.push(votes[i].signature);
        assert(sigs@ =~= signatures_of(votes@.take(i + 1)));
        i = i + 1;
    }
    assert(votes@.take(i as int) =~= votes@);
    let aggregate = bls_aggregate(&sigs);
    certificate_signature_from(aggregate, votes)
}

/// The signature a certificate made of `votes` carries, given the aggregate
/// of their signatures where there is one (see [`signature_or_first`]).
pub fn certificate_signature_from(aggregate: Option<Signature>, votes: &Vec<NotarVote>) -> (sig: Signature)
    requires
        votes@.len() > 0,
    ensures
        sig == signature_or_first(aggregate, votes@),
{
    match aggregate {
        Some(sig) => sig,
        None => votes[0].signature,
    }
}

impl Pool {
    /// The pool's content.
    pub closed spec fn view(&self) -> PoolView {
        PoolView {
            votes: self.votes@.map_values(|v: SlotVotes| v@),
            certificates: self.certificates@.map_values(|c: SlotCertificates| c@),
            validators: self.network_config.validators@,
            pending_events: pool_events_view(self.pending_events@),
        }
    }

    /// The pool's invariant: see [`PoolView::wf`].
    pub open spec fn wf(&self) -> bool {
        self.view().wf()
    }

    /// An empty pool for the network.
    pub fn new(network_config: NetworkConfig) -> (p: Pool)
        ensures
            p.wf(),
            p.view().votes == Map::<u64, SlotVotesView>::empty(),
            p.view().certificates == Map::<u64, SlotCertificatesView>::empty(),
            p.view().validators == network_config.validators@,
            p.view().pending_events == Seq::<PoolEventView>::empty(),
    {
        let p = Pool {
            votes: HashMap::new(),
            certificates: HashMap::new(),
            network_config,
            pending_events: Vec::new(),
        };
        assert(p.view().votes =~= Map::<u64, SlotVotesView>::empty());
        assert(p.view().certificates =~= Map::<u64, SlotCertificatesView>::empty());
        assert(p.view().pending_events =~= Seq::<PoolEventView>::empty());
        p
    }

    fn take_votes(&mut self, slot: Slot) -> (v: SlotVotes)
        ensures
            v@ == old(self).view().votes_of(slot),
            final(self).view() == (PoolView { votes: old(self).view().votes.remove(slot), ..old(self).view() }),
    {
        let r = self.votes.remove(&slot);
        proof {
            assert(self.view().votes =~= old(self).view().votes.remove(slot));
        }
        match r {
            Some(v) => v,
            None => {
                let v = SlotVotes { notar_votes: Vec::new(), skip_votes: Vec::new(), final_votes: Vec::new() };
                assert(v@ =~= no_votes());
                v
            },
        }
    }

    fn certificates_before(&self, slot: Slot) -> (flags: (bool, bool, bool))
        ensures
            flags.0 == self.view().certificates_of(slot).notar is Some,
            flags.1 == self.view().certificates_of(slot).fast_final is Some,
            flags.2 == self.view().certificates_of(slot).skip is Some,
    {
        match self.certificates.get(&slot) {
            Some(c) => (c.notar_cert.is_some(), c.fast_final_cert.is_some(), c.skip_cert.is_some()),
            None => (false, false, false),
        }
    }

    fn compute_events(&self, slot: Slot, votes: &SlotVotes) -> (es: Vec<PoolEvent>)
        requires
            self.view().total_stake() > 0,
            self.view().total_stake() <= u64::MAX,
        ensures
            pool_events_view(es@) == certificate_events(slot, votes@, self.view().validators, self.view().certificates_of(slot)),
    {
        let ghost before = self.view().certificates_of(slot);
        let ghost validators = self.view().validators;
        let (has_notar, has_fast, has_skip) = self.certificates_before(slot);
        let total = self.network_config.total_stake();
        let hs = first_seen(&votes.notar_votes);
        let mut es: Vec<PoolEvent> = Vec::new();
        let mut k: usize = 0;
        assert(hs@.take(0) =~= Seq::<[u8; 32]>::empty());
        assert(pool_events_view(es@) =~= Seq::<PoolEventView>::empty());
        while k < hs.len()
            invariant
                k <= hs@.len(),
                hs@ == first_seen_hashes(votes@.notar),
                total == stake_sum(validators),
                total > 0,
                validators == self.network_config.validators@,
                has_notar == before.notar is Some,
                has_fast == before.fast_final is Some,
                pool_events_view(es@) == notar_events(slot, hs@.take(k as int), votes@.notar, validators, before),
            decreases hs@.len() - k,
        {
            assert(hs@.take(k + 1).drop_last() =~= hs@.take(k as int));
            let h = hs[k];
            let group = collect_votes_for(&votes.notar_votes, &h);
            let stake = stake_behind(&self.network_config, &group);
            let ghost prev = es@;
            if group.len() == 0 {
                proof {
                    assert(group@ =~= Seq::<NotarVote>::empty());
                    assert(stake == 0);
                    assert(percent(0, total as int) == 0);
                }
            }
            if reaches(stake, total, 60) && !has_notar {
                let copy = group.clone();
                assert(copy@ =~= group@);
                let cert = NotarCertificate {
                    slot,
                    block_hash: h,
                    aggregated_signature: certificate_signature(&group),
                    signing_validators: voter_names(&group),
                    votes: copy,
                    total_stake: total,
                };
                es.push(PoolEvent::BlockNotarized { slot, block_hash: h, certificate: cert });
            }
            let ghost mid = es@;
            if reaches(stake, total, 80) && !has_fast {
                let cert = FastFinalCertificate {
                    slot,
                    block_hash: h,
                    aggregated_signature: certificate_signature(&group),
                    signing_validators: voter_names(&group),
                    votes: group,
                    total_stake: total,
                };
                es.push(PoolEvent::FastFinalized { slot, block_hash: h, certificate: cert });
                assert(pool_events_view(es@) =~= pool_events_view(mid).push(es@.last()@));
            }
            assert(pool_events_view(es@) =~= notar_events(slot, hs@.take(k + 1), votes@.notar, validators, before));
            k = k + 1;
        }
        assert(hs@.take(k as int) =~= hs@);
        let skip_stake = stake_behind(&self.network_config, &votes.skip_votes);
        if reaches(skip_stake, total, 60) && !has_skip {
            let skips = votes.skip_votes.clone();
            assert(skips@ =~= votes@.skip);
            let cert = SkipCertificate { slot, votes: skips, total_stake: total };
            let ghost prev = es@;
            es.push(PoolEvent::SlotSkipped { slot, certificate: cert });
            assert(pool_events_view(es@) =~= pool_events_view(prev).push(es@.last()@));
        }
        es
    }

    fn store_certificates(&mut self, slot: Slot, es: &Vec<PoolEvent>)
        ensures
            final(self).view() == (PoolView {
                certificates: old(self).view().certificates.insert(
                    slot,
                    apply_events(old(self).view().certificates_of(slot), pool_events_view(es@)),
                ),
                ..old(self).view()
            }),
    {
        let ghost before = self.view().certificates_of(slot);
        let mut c = match self.certificates.remove(&slot) {
            Some(c) => c,
            None => {
                let c = SlotCertificates { notar_cert: None, fast_final_cert: None, skip_cert: None };
                assert(c@ =~= no_certificates());
                c
            },
        };
        let ghost removed = self.view();
        let mut i: usize = 0;
        assert(pool_events_view(es@).take(0) =~= Seq::<PoolEventView>::empty());
        while i < es.len()
            invariant
                i <= es@.len(),
                c@ == apply_events(before, pool_events_view(es@).take(i as int)),
                self.view() == removed,
            decreases es@.len() - i,
        {
            assert(pool_events_view(es@).take(i + 1).drop_last() =~= pool_events_view(es@).take(i as int));
            match &es[i] {
                PoolEvent::BlockNotarized { certificate, .. } => {
                    c.notar_cert = Some(certificate.clone());
                },
                PoolEvent::FastFinalized { certificate, .. } => {
                    c.fast_final_cert = Some(certificate.clone());
                },
                PoolEvent::SlotSkipped { certificate, .. } => {
                    c.skip_cert = Some(certificate.clone());
                },
            }
            assert(c@ =~= apply_events(before, pool_events_view(es@).take(i + 1)));
            i = i + 1;
        }
        assert(pool_events_view(es@).take(i as int) =~= pool_events_view(es@));
        self.certificates.insert(slot, c);
        assert(self.view().certificates =~= old(self).view().certificates.insert(
            slot,
            apply_events(before, pool_events_view(es@)),
        ));
    }

    fn settle(&mut self, slot: Slot, votes: SlotVotes) -> (es: Vec<PoolEvent>)
        requires
            old(self).view().total_stake() > 0,
            old(self).view().total_stake() <= u64::MAX,
        ensures
            (final(self).view(), pool_events_view(es@)) == (PoolView {
                pending_events: old(self).view().pending_events,
                ..old(self).view().after_votes(slot, votes@).0
            }, old(self).view().after_votes(slot, votes@).1),
    {
        let es = self.compute_events(slot, &votes);
        let ghost vv = votes@;
        self.votes.insert(slot, votes);
        assert(self.view().votes =~= old(self).view().votes.insert(slot, vv));
        if es.len() > 0 {
            self.store_certificates(slot, &es);
        }
        es
    }

    /// Adds a message to the pool: a vote is recorded for its slot, replacing
    /// its voter's earlier vote of the same kind, and a notarization or skip
    /// vote has the slot's certificates checked (see [`PoolView::after_message`]).
    /// Returns the events of the certificates created, which are also queued.
    pub fn add_vote(&mut self, vote: AlpenglowMessage) -> (events: Vec<PoolEvent>)
        requires
            old(self).wf(),
            vote is NotarVote || vote is SkipVote ==> 0 < old(self).view().total_stake() <= u64::MAX,
        ensures
            final(self).wf(),
            (final(self).view(), pool_events_view(events@)) == old(self).view().after_message(vote@),
    {
        let ghost msg = vote@;
        let ghost pre = self.view();
        let events = match vote {
            AlpenglowMessage::NotarVote(v) => {
                let slot = v.slot;
                proof {
                    lemma_record_vote(pre.votes_of(slot).notar, v, slot);
                }
                let mut sv = self.take_votes(slot);
                let ghost taken = self.view();
                record(&mut sv.notar_votes, v);
                let ghost vv = sv@;
                let es = self.settle(slot, sv);
                proof {
                    assert(taken.after_votes(slot, vv).0.votes =~= pre.after_votes(slot, vv).0.votes);
                    assert(taken.certificates_of(slot) == pre.certificates_of(slot));
                    assert(vv == pre.after_message(msg).0.votes[slot]);
                    assert(self.view().votes =~= pre.after_message(msg).0.votes);
                    assert(self.view().certificates =~= pre.after_message(msg).0.certificates);
                    let after = pre.after_message(msg);
                    lemma_certificate_events_sound(slot, after.0.votes[slot], pre.validators, pre.certificates_of(slot));
                    lemma_wf_after_votes(pre, slot, after.0.votes[slot]);
                }
                es
            },
            AlpenglowMessage::SkipVote(v) => {
                let slot = v.slot;
                proof {
                    lemma_record_vote(pre.votes_of(slot).skip, v, slot);
                }
                let mut sv = self.take_votes(slot);
                let ghost taken = self.view();
                record(&mut sv.skip_votes, v);
                let ghost vv = sv@;
                let es = self.settle(slot, sv);
                proof {
                    assert(taken.after_votes(slot, vv).0.votes =~= pre.after_votes(slot, vv).0.votes);
                    assert(taken.certificates_of(slot) == pre.certificates_of(slot));
                    assert(vv == pre.after_message(msg).0.votes[slot]);
                    assert(self.view().votes =~= pre.after_message(msg).0.votes);
                    assert(self.view().certificates =~= pre.after_message(msg).0.certificates);
                    let after = pre.after_message(msg);
                    lemma_certificate_events_sound(slot, after.0.votes[slot], pre.validators, pre.certificates_of(slot));
                    lemma_wf_after_votes(pre, slot, after.0.votes[slot]);
                }
                es
            },
            AlpenglowMessage::FinalVote(v) => {
                let slot = v.slot;
                proof {
                    lemma_record_vote(pre.votes_of(slot).fin, v, slot);
                }
                let mut sv = self.take_votes(slot);
                let ghost taken = self.view();
                record(&mut sv.final_votes, v);
                let ghost vv = sv@;
                self.votes.insert(slot, sv);
                assert(self.view().votes =~= taken.votes.insert(slot, vv));
                assert(self.view().votes =~= pre.votes.insert(slot, vv));
                Vec::new()
            },
            _ => Vec::new(),
        };
        let ghost mid = self.view();
        let mut i: usize = 0;
        while i < events.len()
            invariant
                i <= events@.len(),
                self.view() == (PoolView {
                    pending_events: mid.pending_events + pool_events_view(events@).take(i as int),
                    ..mid
                }),
            decreases events@.len() - i,
        {
            let e = events[i].clone();
            let ghost ev = e@;
            let ghost prev = self.pending_events@;
            self.pending_events.push(e);
            assert(pool_events_view(self.pending_events@) =~= pool_events_view(prev).push(ev));
            assert(pool_events_view(events@).take(i + 1) =~= pool_events_view(events@).take(i as int).push(ev));
            assert(self.view().pending_events =~= mid.pending_events + pool_events_view(events@).take(i + 1));
            i = i + 1;
        }
        assert(pool_events_view(events@).take(i as int) =~= pool_events_view(events@));
        assert(pool_events_view(events@) =~= old(self).view().after_message(msg).1);
        assert(self.view().pending_events =~= old(self).view().after_message(msg).0.pending_events);
        events
    }

    /// Takes the queued events, leaving none.
    pub fn drain_events(&mut self) -> (events: Vec<PoolEvent>)
        requires
            old(self).wf(),
        ensures
            final(self).wf(),
            pool_events_view(events@) == old(self).view().pending_events,
            final(self).view() == (PoolView { pending_events: Seq::empty(), ..old(self).view() }),
    {
        let mut events: Vec<PoolEvent> = Vec::new();
        std::mem::swap(&mut events, &mut self.pending_events);
        assert(self.view().pending_events =~= Seq::<PoolEventView>::empty());
        events
    }

    /// Whether `slot` has a notarization certificate.
    pub fn is_block_notarized(&self, slot: Slot) -> (r: bool)
        ensures
            r == self.view().certificates_of(slot).notar is Some,
    {
        self.certificates_before(slot).0
    }

    /// Whether `slot` has a fast-finalization certificate.
    pub fn is_block_fast_finalized(&self, slot: Slot) -> (r: bool)
        ensures
            r == self.view().certificates_of(slot).fast_final is Some,
    {
        self.certificates_before(slot).1
    }
}

proof fn lemma_wf_after_votes(pre: PoolView, slot: u64, votes: SlotVotesView)
    requires
        pre.wf(),
        well_kept_votes(votes, slot),
        sound_certificates(
            apply_events(pre.certificates_of(slot), certificate_events(slot, votes, pre.validators, pre.certificates_of(slot))),
            slot,
            pre.validators,
        ),
    ensures
        pre.after_votes(slot, votes).0.wf(),
{
}

} // verus!

verus! {

proof fn lemma_notar_events_keep(
    slot: u64,
    hs: Seq<[u8; 32]>,
    votes: Seq<NotarVote>,
    validators: Seq<ValidatorInfo>,
    before: SlotCertificatesView,
)
    ensures
        before.notar is Some ==> apply_events(before, notar_events(slot, hs, votes, validators, before)).notar == before.notar,
        before.fast_final is Some ==> apply_events(before, notar_events(slot, hs, votes, validators, before)).fast_final == before.fast_final,
        apply_events(before, notar_events(slot, hs, votes, validators, before)).skip == before.skip,
    decreases hs.len(),
{
    if hs.len() > 0 {
        let h = hs.last();
        let r = notar_events(slot, hs.drop_last(), votes, validators, before);
        lemma_notar_events_keep(slot, hs.drop_last(), votes, validators, before);
        let r1 = push_opt(r, notar_event(slot, h, votes, validators, before));
        if let Some(e) = notar_event(slot, h, votes, validators, before) {
            assert(r.push(e).drop_last() =~= r);
            assert(apply_events(before, r1) == apply_event(apply_events(before, r), e));
        }
        assert(apply_events(before, r1).skip == before.skip);
        let r2 = push_opt(r1, fast_event(slot, h, votes, validators, before));
        if let Some(e) = fast_event(slot, h, votes, validators, before) {
            assert(r1.push(e).drop_last() =~= r1);
            assert(apply_events(before, r2) == apply_event(apply_events(before, r1), e));
        }
        assert(apply_events(before, r2).skip == before.skip);
    }
}

proof fn lemma_certificate_events_keep(
    slot: u64,
    votes: SlotVotesView,
    validators: Seq<ValidatorInfo>,
    before: SlotCertificatesView,
)
    ensures
        before.notar is Some ==> apply_events(before, certificate_events(slot, votes, validators, before)).notar == before.notar,
        before.fast_final is Some ==> apply_events(before, certificate_events(slot, votes, validators, before)).fast_final == before.fast_final,
        before.skip is Some ==> apply_events(before, certificate_events(slot, votes, validators, before)).skip == before.skip,
{
    let ne = notar_events(slot, first_seen_hashes(votes.notar), votes.notar, validators, before);
    lemma_notar_events_keep(slot, first_seen_hashes(votes.notar), votes.notar, validators, before);
    match skip_event(slot, votes.skip, validators, before) {
        Some(e) => {
            assert(ne.push(e).drop_last() =~= ne);
        },
        None => {},
    }
}

/// Law: a certificate, once created, is kept: whatever message is added, every
/// slot keeps the notarization, fast-finalization and skip certificates it had.
pub proof fn law_certificates_are_kept(p: PoolView, msg: crate::types::messages::AlpenglowMessageView, slot: u64)
    ensures
        p.certificates_of(slot).notar is Some ==> p.after_message(msg).0.certificates_of(slot).notar
            == p.certificates_of(slot).notar,
        p.certificates_of(slot).fast_final is Some ==> p.after_message(msg).0.certificates_of(slot).fast_final
            == p.certificates_of(slot).fast_final,
        p.certificates_of(slot).skip is Some ==> p.after_message(msg).0.certificates_of(slot).skip
            == p.certificates_of(slot).skip,
{
    match msg {
        crate::types::messages::AlpenglowMessageView::NotarVote(v) => {
            let old_votes = p.votes_of(v.slot);
            let nv = SlotVotesView { notar: record_vote(old_votes.notar, v), ..old_votes };
            lemma_certificate_events_keep(v.slot, nv, p.validators, p.certificates_of(v.slot));
        },
        crate::types::messages::AlpenglowMessageView::SkipVote(v) => {
            let old_votes = p.votes_of(v.slot);
            let nv = SlotVotesView { skip: record_vote(old_votes.skip, v), ..old_votes };
            lemma_certificate_events_keep(v.slot, nv, p.validators, p.certificates_of(v.slot));
        },
        _ => {},
    }
}

/// Law: every certificate the pool holds is backed by the votes it carries:
/// they are for its slot (and block), and carry at least 60% of the stake (80%
/// for fast finalization).
pub proof fn law_certificates_are_sound(p: PoolView, slot: u64)
    requires
        p.wf(),
    ensures
        sound_certificates(p.certificates_of(slot), slot, p.validators),
{
}

/// The slot an event is about.
pub open spec fn event_slot(e: PoolEventView) -> u64 {
    match e {
        PoolEventView::BlockNotarized { slot, .. } => slot,
        PoolEventView::FastFinalized { slot, .. } => slot,
        PoolEventView::SlotSkipped { slot, .. } => slot,
    }
}

/// Whether `c` has no certificate of the event's kind.
pub open spec fn cert_missing(c: SlotCertificatesView, e: PoolEventView) -> bool {
    match e {
        PoolEventView::BlockNotarized { .. } => c.notar is None,
        PoolEventView::FastFinalized { .. } => c.fast_final is None,
        PoolEventView::SlotSkipped { .. } => c.skip is None,
    }
}

/// Whether `c` has a certificate of the event's kind.
pub open spec fn cert_present(c: SlotCertificatesView, e: PoolEventView) -> bool {
    !cert_missing(c, e)
}

proof fn lemma_push_opt_gated(s: Seq<PoolEventView>, o: Option<PoolEventView>, slot: u64, before: SlotCertificatesView)
    requires
        forall|i: int| 0 <= i < s.len() ==> cert_missing(before, #[trigger] s[i]) && event_slot(s[i]) == slot,
        o matches Some(e) ==> cert_missing(before, e) && event_slot(e) == slot,
    ensures
        forall|i: int|
            0 <= i < push_opt(s, o).len() ==> cert_missing(before, #[trigger] push_opt(s, o)[i]) && event_slot(
                push_opt(s, o)[i],
            ) == slot,
{
}

proof fn lemma_notar_events_gated(
    slot: u64,
    hs: Seq<[u8; 32]>,
    votes: Seq<NotarVote>,
    validators: Seq<ValidatorInfo>,
    before: SlotCertificatesView,
)
    ensures
        forall|i: int|
            0 <= i < notar_events(slot, hs, votes, validators, before).len() ==> cert_missing(
                before,
                #[trigger] notar_events(slot, hs, votes, validators, before)[i],
            ) && event_slot(notar_events(slot, hs, votes, validators, before)[i]) == slot,
    decreases hs.len(),
{
    if hs.len() > 0 {
        let h = hs.last();
        let r = notar_events(slot, hs.drop_last(), votes, validators, before);
        lemma_notar_events_gated(slot, hs.drop_last(), votes, validators, before);
        let n = notar_event(slot, h, votes, validators, before);
        lemma_push_opt_gated(r, n, slot, before);
        lemma_push_opt_gated(push_opt(r, n), fast_event(slot, h, votes, validators, before), slot, before);
    }
}

proof fn lemma_events_recorded(c: SlotCertificatesView, es: Seq<PoolEventView>)
    ensures
        forall|i: int| 0 <= i < es.len() ==> cert_present(apply_events(c, es), #[trigger] es[i]),
    decreases es.len(),
{
    if es.len() > 0 {
        let r = es.drop_last();
        lemma_events_recorded(c, r);
        assert forall|i: int| 0 <= i < es.len() implies cert_present(apply_events(c, es), #[trigger] es[i]) by {
            if i < r.len() {
                assert(es[i] == r[i]);
            }
        }
    }
}

/// Law: each kind of certificate is made at most once per slot.  An event
/// is reported only for a slot that had no certificate of its kind, and
/// afterwards the slot has one, which [`law_certificates_are_kept`] keeps for
/// every later message; so no second event of that kind for that slot can
/// follow.
pub proof fn law_certificate_made_once(p: PoolView, msg: crate::types::messages::AlpenglowMessageView, i: int)
    requires
        0 <= i < p.after_message(msg).1.len(),
    ensures
        cert_missing(p.certificates_of(event_slot(p.after_message(msg).1[i])), p.after_message(msg).1[i]),
        cert_present(
            p.after_message(msg).0.certificates_of(event_slot(p.after_message(msg).1[i])),
            p.after_message(msg).1[i],
        ),
{
    let (slot, votes) = match msg {
        crate::types::messages::AlpenglowMessageView::NotarVote(v) => {
            let old_votes = p.votes_of(v.slot);
            (v.slot, SlotVotesView { notar: record_vote(old_votes.notar, v), ..old_votes })
        },
        crate::types::messages::AlpenglowMessageView::SkipVote(v) => {
            let old_votes = p.votes_of(v.slot);
            (v.slot, SlotVotesView { skip: record_vote(old_votes.skip, v), ..old_votes })
        },
        _ => {
            return;
        },
    };
    let before = p.certificates_of(slot);
    let hs = first_seen_hashes(votes.notar);
    let ne = notar_events(slot, hs, votes.notar, p.validators, before);
    lemma_notar_events_gated(slot, hs, votes.notar, p.validators, before);
    let se = skip_event(slot, votes.skip, p.validators, before);
    lemma_push_opt_gated(ne, se, slot, before);
    assert(certificate_events(slot, votes, p.validators, before) == push_opt(ne, se));
    let es = p.after_votes(slot, votes).1;
    assert(es == certificate_events(slot, votes, p.validators, before));
    lemma_events_recorded(before, es);
    assert(event_slot(es[i]) == slot);
}

impl PoolView {
    /// The pool and all events after the messages are added, in order.
    pub open spec fn run(self, msgs: Seq<crate::types::messages::AlpenglowMessageView>) -> (PoolView, Seq<PoolEventView>)
        decreases msgs.len(),
    {
        if msgs.len() == 0 {
            (self, Seq::empty())
        } else {
            let (p, es) = self.run(msgs.drop_last());
            let (p2, es2) = p.after_message(msgs.last());
            (p2, es + es2)
        }
    }
}

/// Law: the queue holds what was reported: after any messages, the queued
/// events are those queued before followed by every event the additions
/// returned, in order.  So [`Pool::drain_events`] returns exactly the events
/// that the calls of [`Pool::add_vote`] since the last drain returned, and a
/// drain right after a drain returns nothing.
pub proof fn law_queue_holds_what_was_reported(p: PoolView, msgs: Seq<crate::types::messages::AlpenglowMessageView>)
    ensures
        p.run(msgs).0.pending_events == p.pending_events + p.run(msgs).1,
    decreases msgs.len(),
{
    if msgs.len() == 0 {
        assert(p.pending_events + Seq::<PoolEventView>::empty() =~= p.pending_events);
    } else {
        law_queue_holds_what_was_reported(p, msgs.drop_last());
        let (q, es) = p.run(msgs.drop_last());
        let (q2, es2) = q.after_message(msgs.last());
        assert(q2.pending_events == q.pending_events + es2);
        assert(p.pending_events + es + es2 =~= p.pending_events + (es + es2));
    }
}

/// Law: over any messages, a slot keeps every certificate it had; so once
/// [`Pool::is_block_notarized`] or [`Pool::is_block_fast_finalized`] holds
/// for a slot, it holds from then on.
pub proof fn law_certificates_kept_over_run(
    p: PoolView,
    msgs: Seq<crate::types::messages::AlpenglowMessageView>,
    slot: u64,
)
    ensures
        p.certificates_of(slot).notar is Some ==> p.run(msgs).0.certificates_of(slot).notar
            == p.certificates_of(slot).notar,
        p.certificates_of(slot).fast_final is Some ==> p.run(msgs).0.certificates_of(slot).fast_final
            == p.certificates_of(slot).fast_final,
        p.certificates_of(slot).skip is Some ==> p.run(msgs).0.certificates_of(slot).skip
            == p.certificates_of(slot).skip,
    decreases msgs.len(),
{
    if msgs.len() > 0 {
        law_certificates_kept_over_run(p, msgs.drop_last(), slot);
        let (q, es) = p.run(msgs.drop_last());
        law_certificates_are_kept(q, msgs.last(), slot);
    }
}

} // verus!

verus! {

/// Whether one of `votes` is by `id`.
spec fn has_voter<V: Ballot>(votes: Seq<V>, id: Seq<char>) -> bool {
    exists|j: int| 0 <= j < votes.len() && #[trigger] votes[j].spec_voter() == id
}

/// `votes` without those by `id`.
spec fn votes_without<V: Ballot>(votes: Seq<V>, id: Seq<char>) -> Seq<V>
    decreases votes.len(),
{
    if votes.len() == 0 {
        Seq::empty()
    } else {
        let r = votes_without(votes.drop_last(), id);
        if votes.last().spec_voter() == id {
            r
        } else {
            r.push(votes.last())
        }
    }
}

proof fn lemma_votes_stake_no_validators<V: Ballot>(votes: Seq<V>, vs: Seq<ValidatorInfo>)
    requires
        vs.len() == 0,
    ensures
        votes_stake(votes, vs) == 0,
    decreases votes.len(),
{
    if votes.len() > 0 {
        lemma_votes_stake_no_validators(votes.drop_last(), vs);
    }
}

proof fn lemma_distinct_drop_last<V: Ballot>(votes: Seq<V>)
    requires
        votes.len() > 0,
        distinct_voters(votes),
    ensures
        distinct_voters(votes.drop_last()),
        !has_voter(votes.drop_last(), votes.last().spec_voter()),
{
    let r = votes.drop_last();
    assert forall|i: int, j: int| 0 <= i < j < r.len() implies #[trigger] r[i].spec_voter() != #[trigger] r[j].spec_voter() by {
        assert(r[i] == votes[i] && r[j] == votes[j]);
    }
    if has_voter(r, votes.last().spec_voter()) {
        let j = choose|j: int| 0 <= j < r.len() && #[trigger] r[j].spec_voter() == votes.last().spec_voter();
        assert(r[j] == votes[j]);
        assert(votes[j].spec_voter() != votes[votes.len() - 1].spec_voter());
    }
}

proof fn lemma_votes_without<V: Ballot>(votes: Seq<V>, vs: Seq<ValidatorInfo>)
    requires
        vs.len() > 0,
        distinct_voters(votes),
    ensures
        distinct_voters(votes_without(votes, vs[0].id@)),
        forall|id: Seq<char>| #[trigger] has_voter(votes_without(votes, vs[0].id@), id) ==> has_voter(votes, id),
        votes_stake(votes, vs) <= votes_stake(votes_without(votes, vs[0].id@), vs.drop_first()) + (if has_voter(
            votes,
            vs[0].id@,
        ) {
            vs[0].stake as int
        } else {
            0
        }),
    decreases votes.len(),
{
    let id0 = vs[0].id@;
    if votes.len() > 0 {
        let rest = votes.drop_last();
        let l = votes.last();
        lemma_distinct_drop_last(votes);
        lemma_votes_without(rest, vs);
        let rw = votes_without(rest, id0);
        assert forall|id: Seq<char>| has_voter(rest, id) implies has_voter(votes, id) by {
            let j = choose|j: int| 0 <= j < rest.len() && #[trigger] rest[j].spec_voter() == id;
            assert(rest[j] == votes[j]);
        }
        assert(votes[votes.len() - 1].spec_voter() == l.spec_voter());
        if l.spec_voter() == id0 {
            assert(has_voter(votes, id0));
        } else {
            let w = rw.push(l);
            assert(votes_without(votes, id0) == w);
            assert forall|i: int, j: int| 0 <= i < j < w.len() implies #[trigger] w[i].spec_voter() != #[trigger] w[j].spec_voter() by {
                if j == rw.len() {
                    assert(w[i] == rw[i]);
                    if w[i].spec_voter() == l.spec_voter() {
                        assert(has_voter(rw, l.spec_voter()));
                    }
                } else {
                    assert(w[i] == rw[i] && w[j] == rw[j]);
                }
            }
            assert forall|id: Seq<char>| #[trigger] has_voter(w, id) implies has_voter(votes, id) by {
                let j = choose|j: int| 0 <= j < w.len() && #[trigger] w[j].spec_voter() == id;
                if j < rw.len() {
                    assert(w[j] == rw[j]);
                    assert(has_voter(rw, id));
                }
            }
            assert(w.drop_last() =~= rw);
            if has_voter(votes, id0) {
                let j = choose|j: int| 0 <= j < votes.len() && #[trigger] votes[j].spec_voter() == id0;
                assert(j < rest.len());
                assert(rest[j] == votes[j]);
                assert(has_voter(rest, id0));
            }
        }
    }
}

/// The votes of distinct validators carry at most the network's stake.
proof fn lemma_votes_stake_bounded<V: Ballot>(votes: Seq<V>, vs: Seq<ValidatorInfo>)
    requires
        distinct_voters(votes),
    ensures
        votes_stake(votes, vs) <= stake_sum(vs),
    decreases vs.len(),
{
    if vs.len() == 0 {
        lemma_votes_stake_no_validators(votes, vs);
    } else {
        lemma_votes_without(votes, vs);
        let w = votes_without(votes, vs[0].id@);
        lemma_votes_stake_bounded(w, vs.drop_first());
        lemma_stake_sum_first(vs);
    }
}

/// The votes for two different blocks carry together at most the stake of
/// all the votes.
proof fn lemma_two_blocks_stake(votes: Seq<NotarVote>, h1: [u8; 32], h2: [u8; 32], vs: Seq<ValidatorInfo>)
    requires
        h1 != h2,
    ensures
        votes_stake(votes_for(votes, h1), vs) + votes_stake(votes_for(votes, h2), vs) <= votes_stake(votes, vs),
    decreases votes.len(),
{
    if votes.len() > 0 {
        lemma_two_blocks_stake(votes.drop_last(), h1, h2, vs);
        let l = votes.last();
        let r1 = votes_for(votes.drop_last(), h1);
        let r2 = votes_for(votes.drop_last(), h2);
        if l.block_hash == h1 {
            assert(r1.push(l).drop_last() =~= r1);
        } else if l.block_hash == h2 {
            assert(r2.push(l).drop_last() =~= r2);
        }
    }
}

/// No block hash is listed twice.
proof fn lemma_first_seen_distinct(votes: Seq<NotarVote>)
    ensures
        forall|a: int, b: int|
            0 <= a < b < first_seen_hashes(votes).len() ==> #[trigger] first_seen_hashes(votes)[a]
                != #[trigger] first_seen_hashes(votes)[b],
    decreases votes.len(),
{
    if votes.len() > 0 {
        lemma_first_seen_distinct(votes.drop_last());
        let r = first_seen_hashes(votes.drop_last());
        let h = votes.last().block_hash;
        if !r.contains(h) {
            let hs = r.push(h);
            assert forall|a: int, b: int| 0 <= a < b < hs.len() implies #[trigger] hs[a] != #[trigger] hs[b] by {
                if b == r.len() {
                    assert(hs[a] == r[a]);
                } else {
                    assert(hs[a] == r[a] && hs[b] == r[b]);
                }
            }
        }
    }
}

proof fn lemma_percent_reached(stake: int, total: int, k: int)
    requires
        total > 0,
        stake >= 0,
        percent(stake, total) >= k,
    ensures
        stake * 100 >= k * total,
{
    assert(stake * 100 >= (stake * 100 / total) * total) by (nonlinear_arith)
        requires
            total > 0,
            stake >= 0,
    ;
    assert((stake * 100 / total) * total >= k * total) by (nonlinear_arith)
        requires
            total > 0,
            stake * 100 / total >= k,
    ;
}

proof fn lemma_votes_stake_nonneg<V: Ballot>(votes: Seq<V>, vs: Seq<ValidatorInfo>)
    ensures
        votes_stake(votes, vs) >= 0,
    decreases votes.len(),
{
    if votes.len() > 0 {
        lemma_votes_stake_nonneg(votes.drop_last(), vs);
    }
}

/// Two different blocks of a slot cannot both have 60% of the stake behind
/// them when each validator votes once.
proof fn lemma_one_block_reaches_sixty(votes: Seq<NotarVote>, h1: [u8; 32], h2: [u8; 32], vs: Seq<ValidatorInfo>)
    requires
        h1 != h2,
        distinct_voters(votes),
        stake_sum(vs) > 0,
    ensures
        !(block_percent(h1, votes, vs) >= 60 && block_percent(h2, votes, vs) >= 60),
{
    let s1 = votes_stake(votes_for(votes, h1), vs);
    let s2 = votes_stake(votes_for(votes, h2), vs);
    lemma_two_blocks_stake(votes, h1, h2, vs);
    lemma_votes_stake_bounded(votes, vs);
    lemma_votes_stake_nonneg(votes_for(votes, h1), vs);
    lemma_votes_stake_nonneg(votes_for(votes, h2), vs);
    if block_percent(h1, votes, vs) >= 60 && block_percent(h2, votes, vs) >= 60 {
        lemma_percent_reached(s1, stake_sum(vs), 60);
        lemma_percent_reached(s2, stake_sum(vs), 60);
    }
}

/// Whether two events report the same kind of certificate.
pub open spec fn same_kind(e1: PoolEventView, e2: PoolEventView) -> bool {
    ||| e1 is BlockNotarized && e2 is BlockNotarized
    ||| e1 is FastFinalized && e2 is FastFinalized
    ||| e1 is SlotSkipped && e2 is SlotSkipped
}

/// Whether two events report the same kind of certificate for the same slot.
pub open spec fn same_certificate(e1: PoolEventView, e2: PoolEventView) -> bool {
    event_slot(e1) == event_slot(e2) && same_kind(e1, e2)
}

/// The block a notarization or fast-finalization event is about.
spec fn notarized_hash(e: PoolEventView) -> Option<[u8; 32]> {
    match e {
        PoolEventView::BlockNotarized { block_hash, .. } => Some(block_hash),
        PoolEventView::FastFinalized { block_hash, .. } => Some(block_hash),
        PoolEventView::SlotSkipped { .. } => None,
    }
}

proof fn lemma_notar_events_once(
    slot: u64,
    hs: Seq<[u8; 32]>,
    votes: Seq<NotarVote>,
    vs: Seq<ValidatorInfo>,
    before: SlotCertificatesView,
)
    requires
        forall|a: int, b: int| 0 <= a < b < hs.len() ==> #[trigger] hs[a] != #[trigger] hs[b],
        forall|a: int, b: int|
            0 <= a < b < hs.len() ==> !(block_percent(#[trigger] hs[a], votes, vs) >= 60 && block_percent(
                #[trigger] hs[b],
                votes,
                vs,
            ) >= 60),
    ensures
        forall|i: int|
            0 <= i < notar_events(slot, hs, votes, vs, before).len() ==> ((#[trigger] notarized_hash(
                notar_events(slot, hs, votes, vs, before)[i],
            )) matches Some(h) && hs.contains(h) && block_percent(h, votes, vs) >= 60),
        forall|i: int, j: int|
            0 <= i < j < notar_events(slot, hs, votes, vs, before).len() ==> !same_kind(
                #[trigger] notar_events(slot, hs, votes, vs, before)[i],
                #[trigger] notar_events(slot, hs, votes, vs, before)[j],
            ),
    decreases hs.len(),
{
    if hs.len() > 0 {
        let h = hs.last();
        let hr = hs.drop_last();
        assert forall|a: int, b: int| 0 <= a < b < hr.len() implies #[trigger] hr[a] != #[trigger] hr[b] by {
            assert(hr[a] == hs[a] && hr[b] == hs[b]);
        }
        assert forall|a: int, b: int|
            0 <= a < b < hr.len() implies !(block_percent(#[trigger] hr[a], votes, vs) >= 60 && block_percent(
                #[trigger] hr[b],
                votes,
                vs,
            ) >= 60) by {
            assert(hr[a] == hs[a] && hr[b] == hs[b]);
        }
        lemma_notar_events_once(slot, hr, votes, vs, before);
        let r = notar_events(slot, hr, votes, vs, before);
        let n = notar_event(slot, h, votes, vs, before);
        let f = fast_event(slot, h, votes, vs, before);
        let r1 = push_opt(r, n);
        let es = push_opt(r1, f);
        assert(es == notar_events(slot, hs, votes, vs, before));
        assert forall|i: int| 0 <= i < r.len() implies ((#[trigger] notarized_hash(r[i])) matches Some(x) && hs.contains(x)
            && x != h && block_percent(x, votes, vs) >= 60) by {
            let x = notarized_hash(r[i])->0;
            assert(hr.contains(x));
            let a = choose|a: int| 0 <= a < hr.len() && hr[a] == x;
            assert(hs[a] == x);
            assert(hs[hs.len() - 1] == h);
        }
        assert forall|i: int| 0 <= i < es.len() implies ((#[trigger] notarized_hash(es[i])) matches Some(x) && hs.contains(x)
            && block_percent(x, votes, vs) >= 60) by {
            if i < r.len() {
                assert(es[i] == r[i]);
            } else {
                assert(hs[hs.len() - 1] == h);
            }
        }
        assert forall|i: int, j: int| 0 <= i < j < es.len() implies !same_kind(#[trigger] es[i], #[trigger] es[j]) by {
            if j < r.len() {
                assert(es[i] == r[i] && es[j] == r[j]);
            } else if i < r.len() {
                assert(es[i] == r[i]);
                let x = notarized_hash(r[i])->0;
                let a = choose|a: int| 0 <= a < hs.len() && hs[a] == x;
                assert(hs[hs.len() - 1] == h);
                assert(a < hs.len() - 1);
            }
        }
    }
}

proof fn lemma_certificate_events_once(
    slot: u64,
    votes: SlotVotesView,
    vs: Seq<ValidatorInfo>,
    before: SlotCertificatesView,
)
    requires
        distinct_voters(votes.notar),
        stake_sum(vs) > 0,
    ensures
        forall|i: int, j: int|
            0 <= i < j < certificate_events(slot, votes, vs, before).len() ==> !same_kind(
                #[trigger] certificate_events(slot, votes, vs, before)[i],
                #[trigger] certificate_events(slot, votes, vs, before)[j],
            ),
{
    let hs = first_seen_hashes(votes.notar);
    lemma_first_seen_distinct(votes.notar);
    assert forall|a: int, b: int|
        0 <= a < b < hs.len() implies !(block_percent(#[trigger] hs[a], votes.notar, vs) >= 60 && block_percent(
            #[trigger] hs[b],
            votes.notar,
            vs,
        ) >= 60) by {
        lemma_one_block_reaches_sixty(votes.notar, hs[a], hs[b], vs);
    }
    lemma_notar_events_once(slot, hs, votes.notar, vs, before);
    let ne = notar_events(slot, hs, votes.notar, vs, before);
    let es = certificate_events(slot, votes, vs, before);
    assert forall|i: int, j: int| 0 <= i < j < es.len() implies !same_kind(#[trigger] es[i], #[trigger] es[j]) by {
        assert(es[i] == ne[i]);
        if j < ne.len() {
            assert(es[j] == ne[j]);
        } else {
            assert(notarized_hash(ne[i]) is Some);
        }
    }
}

/// The votes of a slot after `msg` is added, where `msg` is a vote.
spec fn votes_after(p: PoolView, msg: crate::types::messages::AlpenglowMessageView) -> SlotVotesView {
    match msg {
        crate::types::messages::AlpenglowMessageView::NotarVote(v) => {
            SlotVotesView { notar: record_vote(p.votes_of(v.slot).notar, v), ..p.votes_of(v.slot) }
        },
        crate::types::messages::AlpenglowMessageView::SkipVote(v) => {
            SlotVotesView { skip: record_vote(p.votes_of(v.slot).skip, v), ..p.votes_of(v.slot) }
        },
        crate::types::messages::AlpenglowMessageView::FinalVote(v) => {
            SlotVotesView { fin: record_vote(p.votes_of(v.slot).fin, v), ..p.votes_of(v.slot) }
        },
        _ => no_votes(),
    }
}

proof fn lemma_votes_after(p: PoolView, msg: crate::types::messages::AlpenglowMessageView, slot: u64)
    requires
        p.wf(),
        msg is NotarVote && msg->NotarVote_0.slot == slot || msg is SkipVote && msg->SkipVote_0.slot == slot
            || msg is FinalVote && msg->FinalVote_0.slot == slot,
    ensures
        well_kept_votes(votes_after(p, msg), slot),
{
    let old_votes = p.votes_of(slot);
    assert(well_kept_votes(old_votes, slot));
    match msg {
        crate::types::messages::AlpenglowMessageView::NotarVote(v) => lemma_record_vote(old_votes.notar, v, slot),
        crate::types::messages::AlpenglowMessageView::SkipVote(v) => lemma_record_vote(old_votes.skip, v, slot),
        crate::types::messages::AlpenglowMessageView::FinalVote(v) => lemma_record_vote(old_votes.fin, v, slot),
        _ => {},
    }
}

/// Adding a message keeps the pool's invariant.
proof fn lemma_wf_after_message(p: PoolView, msg: crate::types::messages::AlpenglowMessageView)
    requires
        p.wf(),
        p.total_stake() <= u64::MAX,
    ensures
        p.after_message(msg).0.wf(),
        p.after_message(msg).0.validators == p.validators,
{
    lemma_stake_sum_nonneg(p.validators);
    match msg {
        crate::types::messages::AlpenglowMessageView::NotarVote(v) => {
            lemma_votes_after(p, msg, v.slot);
            let nv = votes_after(p, msg);
            lemma_certificate_events_sound(v.slot, nv, p.validators, p.certificates_of(v.slot));
            lemma_wf_after_votes(p, v.slot, nv);
        },
        crate::types::messages::AlpenglowMessageView::SkipVote(v) => {
            lemma_votes_after(p, msg, v.slot);
            let nv = votes_after(p, msg);
            lemma_certificate_events_sound(v.slot, nv, p.validators, p.certificates_of(v.slot));
            lemma_wf_after_votes(p, v.slot, nv);
        },
        crate::types::messages::AlpenglowMessageView::FinalVote(v) => {
            lemma_votes_after(p, msg, v.slot);
        },
        _ => {},
    }
}

/// Law: one message creates at most one certificate of each kind: of the
/// events it returns, no two are of the same kind.  Each validator votes once
/// per kind and slot, so two blocks of a slot cannot both reach 60% of the
/// stake.
pub proof fn law_one_certificate_of_each_kind_per_message(
    p: PoolView,
    msg: crate::types::messages::AlpenglowMessageView,
    i: int,
    j: int,
)
    requires
        p.wf(),
        p.total_stake() > 0,
        0 <= i < j < p.after_message(msg).1.len(),
    ensures
        !same_kind(p.after_message(msg).1[i], p.after_message(msg).1[j]),
{
    match msg {
        crate::types::messages::AlpenglowMessageView::NotarVote(v) => {
            lemma_votes_after(p, msg, v.slot);
            lemma_certificate_events_once(v.slot, votes_after(p, msg), p.validators, p.certificates_of(v.slot));
        },
        crate::types::messages::AlpenglowMessageView::SkipVote(v) => {
            lemma_votes_after(p, msg, v.slot);
            lemma_certificate_events_once(v.slot, votes_after(p, msg), p.validators, p.certificates_of(v.slot));
        },
        _ => {},
    }
}

proof fn lemma_run_wf(p: PoolView, msgs: Seq<crate::types::messages::AlpenglowMessageView>)
    requires
        p.wf(),
        p.total_stake() <= u64::MAX,
    ensures
        p.run(msgs).0.wf(),
        p.run(msgs).0.validators == p.validators,
    decreases msgs.len(),
{
    if msgs.len() > 0 {
        lemma_run_wf(p, msgs.drop_last());
        lemma_wf_after_message(p.run(msgs.drop_last()).0, msgs.last());
    }
}

/// After any messages, the pool holds the certificate of every event reported.
proof fn lemma_run_recorded(p: PoolView, msgs: Seq<crate::types::messages::AlpenglowMessageView>)
    ensures
        forall|i: int|
            0 <= i < p.run(msgs).1.len() ==> cert_present(
                p.run(msgs).0.certificates_of(event_slot(#[trigger] p.run(msgs).1[i])),
                p.run(msgs).1[i],
            ),
    decreases msgs.len(),
{
    if msgs.len() > 0 {
        lemma_run_recorded(p, msgs.drop_last());
        let (q, es) = p.run(msgs.drop_last());
        let (q2, es2) = q.after_message(msgs.last());
        let all = es + es2;
        assert forall|i: int| 0 <= i < all.len() implies cert_present(
            q2.certificates_of(event_slot(#[trigger] all[i])),
            all[i],
        ) by {
            if i < es.len() {
                assert(all[i] == es[i]);
                law_certificates_are_kept(q, msgs.last(), event_slot(es[i]));
            } else {
                assert(all[i] == es2[i - es.len()]);
                law_certificate_made_once(q, msgs.last(), i - es.len());
            }
        }
    }
}

/// Law: each certificate is reported once: over any messages added to a pool
/// of positive total stake, no two of the events returned are of the same
/// kind for the same slot.  So [`Pool::add_vote`] reports at most one
/// notarization, one fast finalization and one skip of each slot, whether in
/// one call or over many.
pub proof fn law_each_certificate_reported_once(
    p: PoolView,
    msgs: Seq<crate::types::messages::AlpenglowMessageView>,
    i: int,
    j: int,
)
    requires
        p.wf(),
        0 < p.total_stake() <= u64::MAX,
        0 <= i < j < p.run(msgs).1.len(),
    ensures
        !same_certificate(p.run(msgs).1[i], p.run(msgs).1[j]),
    decreases msgs.len(),
{
    let (q, es) = p.run(msgs.drop_last());
    let (q2, es2) = q.after_message(msgs.last());
    let all = es + es2;
    assert(p.run(msgs).1 == all);
    if j < es.len() {
        assert(all[i] == es[i] && all[j] == es[j]);
        law_each_certificate_reported_once(p, msgs.drop_last(), i, j);
    } else {
        lemma_run_wf(p, msgs.drop_last());
        assert(all[j] == es2[j - es.len()]);
        if i >= es.len() {
            assert(all[i] == es2[i - es.len()]);
            law_one_certificate_of_each_kind_per_message(q, msgs.last(), i - es.len(), j - es.len());
        } else {
            assert(all[i] == es[i]);
            lemma_run_recorded(p, msgs.drop_last());
            law_certificate_made_once(q, msgs.last(), j - es.len());
        }
    }
}

} // verus!
