//! Blocks, votes, certificates and the messages that validators exchange.

use vstd::prelude::*;

use crate::types::codec::{bincode_encode_block, encode_block};
use crate::types::crypto::{sha256, sha256_digest};

verus! {

/// A validator's name.
pub type ValidatorId = String;

/// A SHA-256 digest.
pub type Hash = [u8; 32];

/// A slot number; slot 0 holds the genesis block.
pub type Slot = u64;

/// A BLS signature in its 96-byte compressed form.
pub type Signature = [u8; 96];

/// Byte-wise equality of two hashes.
pub fn hashes_equal(a: &Hash, b: &Hash) -> (r: bool)
    ensures
        r == (*a == *b),
{
    broadcast use vstd::array::axiom_array_ext_equal;

    let mut i: usize = 0;
    while i < 32
        invariant
            i <= 32,
            forall|j: int| 0 <= j < i ==> a@[j] == b@[j],
        decreases 32 - i,
    {
        if a[i] != b[i] {
            assert(a@[i as int] != b@[i as int]);
            return false;
        }
        i = i + 1;
    }
    assert(a =~= b);
    true
}

/// A transaction carried by a block.
#[derive(Debug, PartialEq)]
pub struct Transaction {
    pub data: Vec<u8>,
    pub from: ValidatorId,
}

/// The mathematical value of a [`Transaction`].
pub struct TransactionView {
    pub data: Seq<u8>,
    pub from: Seq<char>,
}

impl View for Transaction {
    type V = TransactionView;

    open spec fn view(&self) -> TransactionView {
        TransactionView { data: self.data@, from: self.from@ }
    }
}

impl Clone for Transaction {
    fn clone(&self) -> (r: Self)
        ensures
            r@ == self@,
    {
        let data = self.data.clone();
        assert(data@ =~= self.data@);
        Transaction { data, from: self.from.clone() }
    }
}

/// The views of a sequence of transactions.
pub open spec fn transactions_view(ts: Seq<Transaction>) -> Seq<TransactionView> {
    ts.map_values(|t: Transaction| t@)
}

/// A block of the chain.
#[derive(Debug, PartialEq)]
pub struct Block {
    pub slot: Slot,
    pub parent_hash: Hash,
    pub transactions: Vec<Transaction>,
    pub leader_id: ValidatorId,
    pub timestamp: u64,
}

/// The mathematical value of a [`Block`].
pub struct BlockView {
    pub slot: u64,
    pub parent_hash: Seq<u8>,
    pub transactions: Seq<TransactionView>,
    pub leader_id: Seq<char>,
    pub timestamp: u64,
}

impl View for Block {
    type V = BlockView;

    open spec fn view(&self) -> BlockView {
        BlockView {
            slot: self.slot,
            parent_hash: self.parent_hash@,
            transactions: transactions_view(self.transactions@),
            leader_id: self.leader_id@,
            timestamp: self.timestamp,
        }
    }
}

impl Clone for Block {
    fn clone(&self) -> (r: Self)
        ensures
            r@ == self@,
    {
        let transactions = self.transactions.clone();
        assert(transactions_view(transactions@) =~= transactions_view(self.transactions@));
        Block {
            slot: self.slot,
            parent_hash: self.parent_hash,
            transactions,
            leader_id: self.leader_id.clone(),
            timestamp: self.timestamp,
        }
    }
}

/// The hash of a block: SHA-256 of its wire encoding.
pub open spec fn spec_block_hash(b: BlockView) -> Seq<u8> {
    sha256_digest(encode_block(b))
}

/// The genesis block.
pub open spec fn genesis_view() -> BlockView {
    BlockView {
        slot: 0,
        parent_hash: Seq::new(32, |_i: int| 0u8),
        transactions: Seq::empty(),
        leader_id: "genesis"@,
        timestamp: 0,
    }
}

impl Block {
    /// The SHA-256 digest of the block's wire encoding.
    pub fn hash(&self) -> (h: Hash)
        ensures
            h@ == spec_block_hash(self@),
    {
        let bytes = bincode_encode_block(self);
        sha256(bytes.as_slice())
    }

    /// Whether `parent` is this block's parent: its hash is our parent hash and
    /// it sits in the slot right before ours.
    pub fn is_valid_parent(&self, parent: &Block) -> (r: bool)
        requires
            parent.slot < u64::MAX,
        ensures
            r == (self@.parent_hash == spec_block_hash(parent@) && self.slot == parent.slot + 1),
    {
        broadcast use vstd::array::axiom_array_ext_equal;

        let parent_hash = parent.hash();
        let same = hashes_equal(&self.parent_hash, &parent_hash);
        assert(same == (self.parent_hash@ == parent_hash@)) by {
            if self.parent_hash@ == parent_hash@ {
                assert(self.parent_hash =~= parent_hash);
            }
        }
        same && self.slot == parent.slot + 1
    }

    /// The genesis block: slot 0, zero parent hash, no transactions.
    pub fn genesis() -> (b: Block)
        ensures
            b@ == genesis_view(),
    {
        let b = Block {
            slot: 0,
            parent_hash: [0u8; 32],
            transactions: Vec::new(),
            leader_id: String::from_str("genesis"),
            timestamp: 0,
        };
        assert(b@.transactions =~= Seq::<TransactionView>::empty());
        assert(b@.parent_hash =~= Seq::new(32, |_i: int| 0u8));
        b
    }
}

/// A vote to notarize the block with hash `block_hash` in `slot`.
#[derive(Debug)]
pub struct NotarVote {
    pub slot: Slot,
    pub block_hash: Hash,
    pub validator_id: ValidatorId,
    pub signature: Signature,
}

impl Clone for NotarVote {
    fn clone(&self) -> (r: Self)
        ensures
            r == *self,
    {
        NotarVote {
            slot: self.slot,
            block_hash: self.block_hash,
            validator_id: self.validator_id.clone(),
            signature: self.signature,
        }
    }
}

/// A vote to skip `slot`.
#[derive(Debug)]
pub struct SkipVote {
    pub slot: Slot,
    pub validator_id: ValidatorId,
    pub signature: Signature,
}

impl Clone for SkipVote {
    fn clone(&self) -> (r: Self)
        ensures
            r == *self,
    {
        SkipVote { slot: self.slot, validator_id: self.validator_id.clone(), signature: self.signature }
    }
}

/// A vote, in the second round, to finalize the block notarized in `slot`.
#[derive(Debug)]
pub struct FinalVote {
    pub slot: Slot,
    pub validator_id: ValidatorId,
    pub signature: Signature,
}

impl Clone for FinalVote {
    fn clone(&self) -> (r: Self)
        ensures
            r == *self,
    {
        FinalVote { slot: self.slot, validator_id: self.validator_id.clone(), signature: self.signature }
    }
}

/// What votes have in common: a slot and a voter.
pub trait Ballot: Sized {
    /// The slot voted on.
    spec fn spec_slot(&self) -> u64;

    /// The voter's name.
    spec fn spec_voter(&self) -> Seq<char>;

    /// The voter's name.
    fn voter(&self) -> (r: &ValidatorId)
        ensures
            r@ == self.spec_voter(),
    ;
}

impl Ballot for NotarVote {
    open spec fn spec_slot(&self) -> u64 {
        self.slot
    }

    open spec fn spec_voter(&self) -> Seq<char> {
        self.validator_id@
    }

    fn voter(&self) -> (r: &ValidatorId) {
        &self.validator_id
    }
}

impl Ballot for SkipVote {
    open spec fn spec_slot(&self) -> u64 {
        self.slot
    }

    open spec fn spec_voter(&self) -> Seq<char> {
        self.validator_id@
    }

    fn voter(&self) -> (r: &ValidatorId) {
        &self.validator_id
    }
}

impl Ballot for FinalVote {
    open spec fn spec_slot(&self) -> u64 {
        self.slot
    }

    open spec fn spec_voter(&self) -> Seq<char> {
        self.validator_id@
    }

    fn voter(&self) -> (r: &ValidatorId) {
        &self.validator_id
    }
}

/// Proof that the votes of a stake majority notarize a block: the votes that
/// were counted, their voters and their signatures aggregated into one, and
/// the network's total stake.
#[derive(Debug)]
pub struct NotarCertificate {
    pub slot: Slot,
    pub block_hash: Hash,
    pub aggregated_signature: Signature,
    pub signing_validators: Vec<ValidatorId>,
    pub votes: Vec<NotarVote>,
    pub total_stake: u64,
}

/// The mathematical value of a notarization or fast-finalization certificate.
pub struct NotarCertificateView {
    pub slot: u64,
    pub block_hash: Hash,
    pub aggregated_signature: Signature,
    pub signing_validators: Seq<ValidatorId>,
    pub votes: Seq<NotarVote>,
    pub total_stake: u64,
}

impl View for NotarCertificate {
    type V = NotarCertificateView;

    open spec fn view(&self) -> NotarCertificateView {
        NotarCertificateView {
            slot: self.slot,
            block_hash: self.block_hash,
            aggregated_signature: self.aggregated_signature,
            signing_validators: self.signing_validators@,
            votes: self.votes@,
            total_stake: self.total_stake,
        }
    }
}

impl Clone for NotarCertificate {
    fn clone(&self) -> (r: Self)
        ensures
            r@ == self@,
    {
        let votes = self.votes.clone();
        assert(votes@ =~= self.votes@);
        let signing_validators = clone_ids(&self.signing_validators);
        NotarCertificate {
            slot: self.slot,
            block_hash: self.block_hash,
            aggregated_signature: self.aggregated_signature,
            signing_validators,
            votes,
            total_stake: self.total_stake,
        }
    }
}

/// A copy of the names.
fn clone_ids(ids: &Vec<ValidatorId>) -> (r: Vec<ValidatorId>)
    ensures
        r@ == ids@,
{
    let mut r: Vec<ValidatorId> = Vec::new();
    let mut i: usize = 0;
    while i < ids.len()
        invariant
            i <= ids@.len(),
            r@ == ids@.take(i as int),
        decreases ids@.len() - i,
    {
        r.push(ids[i].clone());
        assert(r@ =~= ids@.take(i + 1));
        i = i + 1;
    }
    assert(ids@.take(i as int) =~= ids@);
    r
}

/// Proof that the votes of a stake supermajority notarize a block, which
/// finalizes it at once.
#[derive(Debug)]
pub struct FastFinalCertificate {
    pub slot: Slot,
    pub block_hash: Hash,
    pub aggregated_signature: Signature,
    pub signing_validators: Vec<ValidatorId>,
    pub votes: Vec<NotarVote>,
    pub total_stake: u64,
}

impl View for FastFinalCertificate {
    type V = NotarCertificateView;

    open spec fn view(&self) -> NotarCertificateView {
        NotarCertificateView {
            slot: self.slot,
            block_hash: self.block_hash,
            aggregated_signature: self.aggregated_signature,
            signing_validators: self.signing_validators@,
            votes: self.votes@,
            total_stake: self.total_stake,
        }
    }
}

impl Clone for FastFinalCertificate {
    fn clone(&self) -> (r: Self)
        ensures
            r@ == self@,
    {
        let votes = self.votes.clone();
        assert(votes@ =~= self.votes@);
        let signing_validators = clone_ids(&self.signing_validators);
        FastFinalCertificate {
            slot: self.slot,
            block_hash: self.block_hash,
            aggregated_signature: self.aggregated_signature,
            signing_validators,
            votes,
            total_stake: self.total_stake,
        }
    }
}

/// Proof that the votes of a stake majority skip a slot.
#[derive(Debug)]
pub struct SkipCertificate {
    pub slot: Slot,
    pub votes: Vec<SkipVote>,
    pub total_stake: u64,
}

/// The mathematical value of a [`SkipCertificate`].
pub struct SkipCertificateView {
    pub slot: u64,
    pub votes: Seq<SkipVote>,
    pub total_stake: u64,
}

impl View for SkipCertificate {
    type V = SkipCertificateView;

    open spec fn view(&self) -> SkipCertificateView {
        SkipCertificateView { slot: self.slot, votes: self.votes@, total_stake: self.total_stake }
    }
}

impl Clone for SkipCertificate {
    fn clone(&self) -> (r: Self)
        ensures
            r@ == self@,
    {
        let votes = self.votes.clone();
        assert(votes@ =~= self.votes@);
        SkipCertificate { slot: self.slot, votes, total_stake: self.total_stake }
    }
}

/// A request, from a validator joining the network, for the chain's state.
#[derive(Debug)]
pub struct ChainSyncRequest {
    pub from_validator: ValidatorId,
}

impl Clone for ChainSyncRequest {
    fn clone(&self) -> (r: Self)
        ensures
            r == *self,
    {
        ChainSyncRequest { from_validator: self.from_validator.clone() }
    }
}

/// The chain's state, as a validator answers a [`ChainSyncRequest`].
#[derive(Debug)]
pub struct ChainSyncResponse {
    pub latest_finalized_slot: Slot,
    pub latest_finalized_hash: Hash,
    pub current_slot: Slot,
    pub recent_blocks: Vec<Block>,
}

/// The mathematical value of a [`ChainSyncResponse`].
pub struct ChainSyncResponseView {
    pub latest_finalized_slot: u64,
    pub latest_finalized_hash: Seq<u8>,
    pub current_slot: u64,
    pub recent_blocks: Seq<BlockView>,
}

impl Clone for ChainSyncResponse {
    fn clone(&self) -> (r: Self)
        ensures
            r@ == self@,
    {
        let recent_blocks = self.recent_blocks.clone();
        assert(blocks_view(recent_blocks@) =~= blocks_view(self.recent_blocks@));
        ChainSyncResponse {
            latest_finalized_slot: self.latest_finalized_slot,
            latest_finalized_hash: self.latest_finalized_hash,
            current_slot: self.current_slot,
            recent_blocks,
        }
    }
}

/// The views of a sequence of blocks.
pub open spec fn blocks_view(bs: Seq<Block>) -> Seq<BlockView> {
    bs.map_values(|b: Block| b@)
}

impl View for ChainSyncResponse {
    type V = ChainSyncResponseView;

    open spec fn view(&self) -> ChainSyncResponseView {
        ChainSyncResponseView {
            latest_finalized_slot: self.latest_finalized_slot,
            latest_finalized_hash: self.latest_finalized_hash@,
            current_slot: self.current_slot,
            recent_blocks: blocks_view(self.recent_blocks@),
        }
    }
}

/// A copy of a list of hashes.
pub fn copy_hashes(hashes: &Vec<Hash>) -> (r: Vec<Hash>)
    ensures
        r@ == hashes@,
{
    let mut r: Vec<Hash> = Vec::new();
    let mut i: usize = 0;
    while i < hashes.len()
        invariant
            i <= hashes@.len(),
            r@ == hashes@.take(i as int),
        decreases hashes@.len() - i,
    {
        r.push(hashes[i]);
        i = i + 1;
        assert(r@ =~= hashes@.take(i as int));
    }
    assert(hashes@.take(i as int) =~= hashes@);
    r
}

/// One erasure-coded piece of a slice, as a relay receives it.
#[derive(Debug)]
pub struct Shred {
    pub slot: Slot,
    pub slice_index: u32,
    pub shred_index: u32,
    pub is_last_slice: bool,
    pub data: Vec<u8>,
    pub merkle_root: Hash,
    pub merkle_proof: Vec<Hash>,
    pub leader_signature: Signature,
}

/// The mathematical value of a [`Shred`].
pub struct ShredView {
    pub slot: u64,
    pub slice_index: u32,
    pub shred_index: u32,
    pub is_last_slice: bool,
    pub data: Seq<u8>,
    pub merkle_root: Seq<u8>,
    pub merkle_proof: Seq<Seq<u8>>,
    pub leader_signature: Seq<u8>,
}

impl View for Shred {
    type V = ShredView;

    open spec fn view(&self) -> ShredView {
        ShredView {
            slot: self.slot,
            slice_index: self.slice_index,
            shred_index: self.shred_index,
            is_last_slice: self.is_last_slice,
            data: self.data@,
            merkle_root: self.merkle_root@,
            merkle_proof: self.merkle_proof@.map_values(|h: Hash| h@),
            leader_signature: self.leader_signature@,
        }
    }
}

impl Clone for Shred {
    fn clone(&self) -> (r: Self)
        ensures
            r@ == self@,
    {
        let data = self.data.clone();
        assert(data@ =~= self.data@);
        let merkle_proof = copy_hashes(&self.merkle_proof);
        Shred {
            slot: self.slot,
            slice_index: self.slice_index,
            shred_index: self.shred_index,
            is_last_slice: self.is_last_slice,
            data,
            merkle_root: self.merkle_root,
            merkle_proof,
            leader_signature: self.leader_signature,
        }
    }
}

/// A piece of a block's encoding, the unit that is erasure-coded.
#[derive(Debug)]
pub struct Slice {
    pub slot: Slot,
    pub slice_index: u32,
    pub is_last_slice: bool,
    pub data: Vec<u8>,
    pub merkle_root: Hash,
}

/// The mathematical value of a [`Slice`].
pub struct SliceView {
    pub slot: u64,
    pub slice_index: u32,
    pub is_last_slice: bool,
    pub data: Seq<u8>,
    pub merkle_root: Seq<u8>,
}

impl View for Slice {
    type V = SliceView;

    open spec fn view(&self) -> SliceView {
        SliceView {
            slot: self.slot,
            slice_index: self.slice_index,
            is_last_slice: self.is_last_slice,
            data: self.data@,
            merkle_root: self.merkle_root@,
        }
    }
}

impl Clone for Slice {
    fn clone(&self) -> (r: Self)
        ensures
            r@ == self@,
    {
        let data = self.data.clone();
        assert(data@ =~= self.data@);
        Slice {
            slot: self.slot,
            slice_index: self.slice_index,
            is_last_slice: self.is_last_slice,
            data,
            merkle_root: self.merkle_root,
        }
    }
}

/// A message between validators.
#[derive(Debug)]
pub enum AlpenglowMessage {
    Block(Block),
    NotarVote(NotarVote),
    SkipVote(SkipVote),
    NotarCertificate(NotarCertificate),
    SkipCertificate(SkipCertificate),
    Hello { from: ValidatorId },
    BlockRequest { slot: Slot, from: ValidatorId },
    FinalVote(FinalVote),
    FastFinalCertificate(FastFinalCertificate),
    ChainSyncRequest(ChainSyncRequest),
    ChainSyncResponse(ChainSyncResponse),
    Shred(Shred),
    SliceRequest { slot: Slot, slice_index: u32, from: ValidatorId },
}

/// The mathematical value of an [`AlpenglowMessage`].
pub enum AlpenglowMessageView {
    Block(BlockView),
    NotarVote(NotarVote),
    SkipVote(SkipVote),
    NotarCertificate(NotarCertificateView),
    SkipCertificate(SkipCertificateView),
    Hello { from: Seq<char> },
    BlockRequest { slot: u64, from: Seq<char> },
    FinalVote(FinalVote),
    FastFinalCertificate(NotarCertificateView),
    ChainSyncRequest(ChainSyncRequest),
    ChainSyncResponse(ChainSyncResponseView),
    Shred(ShredView),
    SliceRequest { slot: u64, slice_index: u32, from: Seq<char> },
}

impl View for AlpenglowMessage {
    type V = AlpenglowMessageView;

    open spec fn view(&self) -> AlpenglowMessageView {
        match self {
            AlpenglowMessage::Block(b) => AlpenglowMessageView::Block(b@),
            AlpenglowMessage::NotarVote(v) => AlpenglowMessageView::NotarVote(*v),
            AlpenglowMessage::SkipVote(v) => AlpenglowMessageView::SkipVote(*v),
            AlpenglowMessage::NotarCertificate(c) => AlpenglowMessageView::NotarCertificate(c@),
            AlpenglowMessage::SkipCertificate(c) => AlpenglowMessageView::SkipCertificate(c@),
            AlpenglowMessage::Hello { from } => AlpenglowMessageView::Hello { from: from@ },
            AlpenglowMessage::BlockRequest { slot, from } => AlpenglowMessageView::BlockRequest {
                slot: *slot,
                from: from@,
            },
            AlpenglowMessage::FinalVote(v) => AlpenglowMessageView::FinalVote(*v),
            AlpenglowMessage::FastFinalCertificate(c) => AlpenglowMessageView::FastFinalCertificate(c@),
            AlpenglowMessage::ChainSyncRequest(r) => AlpenglowMessageView::ChainSyncRequest(*r),
            AlpenglowMessage::ChainSyncResponse(r) => AlpenglowMessageView::ChainSyncResponse(r@),
            AlpenglowMessage::Shred(s) => AlpenglowMessageView::Shred(s@),
            AlpenglowMessage::SliceRequest { slot, slice_index, from } => AlpenglowMessageView::SliceRequest {
                slot: *slot,
                slice_index: *slice_index,
                from: from@,
            },
        }
    }
}

impl Clone for AlpenglowMessage {
    fn clone(&self) -> (r: Self)
        ensures
            r@ == self@,
    {
        match self {
            AlpenglowMessage::Block(b) => AlpenglowMessage::Block(b.clone()),
            AlpenglowMessage::NotarVote(v) => AlpenglowMessage::NotarVote(v.clone()),
            AlpenglowMessage::SkipVote(v) => AlpenglowMessage::SkipVote(v.clone()),
            AlpenglowMessage::NotarCertificate(c) => AlpenglowMessage::NotarCertificate(c.clone()),
            AlpenglowMessage::SkipCertificate(c) => AlpenglowMessage::SkipCertificate(c.clone()),
            AlpenglowMessage::Hello { from } => AlpenglowMessage::Hello { from: from.clone() },
            AlpenglowMessage::BlockRequest { slot, from } => AlpenglowMessage::BlockRequest {
                slot: *slot,
                from: from.clone(),
            },
            AlpenglowMessage::FinalVote(v) => AlpenglowMessage::FinalVote(v.clone()),
            AlpenglowMessage::FastFinalCertificate(c) => AlpenglowMessage::FastFinalCertificate(c.clone()),
            AlpenglowMessage::ChainSyncRequest(q) => AlpenglowMessage::ChainSyncRequest(q.clone()),
            AlpenglowMessage::ChainSyncResponse(q) => AlpenglowMessage::ChainSyncResponse(q.clone()),
            AlpenglowMessage::Shred(x) => AlpenglowMessage::Shred(x.clone()),
            AlpenglowMessage::SliceRequest { slot, slice_index, from } => AlpenglowMessage::SliceRequest {
                slot: *slot,
                slice_index: *slice_index,
                from: from.clone(),
            },
        }
    }
}

/// The signature whose bytes are `bytes`.
pub open spec fn signature_of(bytes: Seq<u8>) -> Signature {
    choose|a: Signature| a@ == bytes
}

/// A signature is the one its bytes stand for.
pub proof fn lemma_signature_of(sig: Signature)
    ensures
        signature_of(sig@) == sig,
{
    broadcast use vstd::array::axiom_array_ext_equal;

    let a = signature_of(sig@);
    assert(a@ == sig@);
    assert(a =~= sig);
}

/// The hash whose bytes are `bytes`.
pub open spec fn hash_of(bytes: Seq<u8>) -> Hash {
    choose|a: Hash| a@ == bytes
}

/// A hash is the one its bytes stand for.
pub proof fn lemma_hash_of(h: Hash)
    ensures
        hash_of(h@) == h,
{
    broadcast use vstd::array::axiom_array_ext_equal;

    let a = hash_of(h@);
    assert(a@ == h@);
    assert(a =~= h);
}

} // verus!
