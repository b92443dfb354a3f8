//! Block dissemination: a block's encoding is cut into slices, each slice is
//! erasure-coded into shreds (data shreds followed by Reed-Solomon parity
//! shreds), and each shred carries the leader's signature.  Receivers collect
//! shreds per slice, decode each slice's data shards with the Reed-Solomon
//! coder from any data-shred count of its shreds, and rebuild the block from
//! its slices.

use vstd::prelude::*;

use std::collections::HashMap;

use vstd::slice::{slice_subrange, slice_to_vec};
use vstd::bytes::{
    lemma_auto_spec_u32_to_from_le_bytes, lemma_auto_spec_u64_to_from_le_bytes, spec_u32_to_le_bytes,
    spec_u64_to_le_bytes, u32_to_le_bytes, u64_to_le_bytes,
};

use crate::clock::unix_time_millis;
use crate::types::codec::{
    bincode_encode_block, bincode_encode_slice, block_view_ok, decode_block, decode_slice, decoded_block, decoded_slice,
    encode_block, encode_slice_view, lemma_block_round_trip, lemma_slice_round_trip, slice_view_ok,
};
use crate::types::crypto::{hash_data, sha256_digest, KeyPair};
use crate::types::messages::{Block, BlockView, Shred, ShredView, SliceView};
use crate::types::network::NetworkConfig;

pub use crate::types::messages::Slice;

verus! {

broadcast use vstd::std_specs::hash::group_hash_axioms;

/// A Reed-Solomon coder over bytes (`reed_solomon_erasure::galois_8`), held
/// opaquely: Verus refuses a declaration of the crate's generic coder type.
#[verifier::external_body]
pub struct ErasureCoder {
    inner: reed_solomon_erasure::galois_8::ReedSolomon,
}

/// The error type of `reed_solomon_erasure`, carried opaquely.
#[verifier::external_type_specification]
#[verifier::external_body]
pub struct ExReedSolomonError(reed_solomon_erasure::Error);

/// How many data shards the coder was made with.
pub uninterp spec fn rs_data_shards(coder: ErasureCoder) -> nat;

/// How many parity shards the coder was made with.
pub uninterp spec fn rs_parity_shards(coder: ErasureCoder) -> nat;

/// Calls `ReedSolomon::<galois_8::Field>::new`.  Claimed: it succeeds exactly
/// when both counts are positive and together at most 256, the order of the
/// field, and the coder then holds the two counts.
#[verifier::external_body]
fn rs_new(data_shards: usize, parity_shards: usize) -> (r: Result<ErasureCoder, reed_solomon_erasure::Error>)
    requires
        data_shards + parity_shards <= usize::MAX,
    ensures
        r is Ok <==> (data_shards > 0 && parity_shards > 0 && data_shards + parity_shards <= 256),
        r matches Ok(c) ==> rs_data_shards(c) == data_shards && rs_parity_shards(c) == parity_shards,
{
    match reed_solomon_erasure::galois_8::ReedSolomon::new(data_shards, parity_shards) {
        Ok(inner) => Ok(ErasureCoder { inner }),
        Err(e) => Err(e),
    }
}

/// The parity shards that Reed-Solomon coding over GF(256) computes from data
/// shards, as many as `parity_shards`.
pub uninterp spec fn reed_solomon_parity(data: Seq<Seq<u8>>, parity_shards: nat) -> Seq<Seq<u8>>;

/// The contents of a list of shards.
pub open spec fn shards_view(v: Seq<Vec<u8>>) -> Seq<Seq<u8>> {
    v.map_values(|s: Vec<u8>| s@)
}

/// Whether every shard has `size` bytes.
pub open spec fn uniform_shards(v: Seq<Vec<u8>>, size: nat) -> bool {
    forall|i: int| 0 <= i < v.len() ==> #[trigger] v[i]@.len() == size
}

/// Calls `ReedSolomon::encode_sep` on the data shards, writing the parity
/// shards.  Claimed: it succeeds exactly when the numbers of data and parity
/// shards are those the coder was made with and all shards have the same,
/// non-zero, length; then the parity shards hold [`reed_solomon_parity`] of
/// the data shards; otherwise they are untouched.  No shard changes length.
#[verifier::external_body]
fn rs_encode_sep(coder: &ErasureCoder, data: &Vec<Vec<u8>>, parity: &mut Vec<Vec<u8>>) -> (r: Result<(), reed_solomon_erasure::Error>)
    requires
        rs_data_shards(*coder) > 0,
        rs_parity_shards(*coder) > 0,
    ensures
        r is Ok <==> (data@.len() == rs_data_shards(*coder) && old(parity)@.len() == rs_parity_shards(*coder)
            && data@[0]@.len() > 0 && uniform_shards(data@, data@[0]@.len())
            && uniform_shards(old(parity)@, data@[0]@.len())),
        final(parity)@.len() == old(parity)@.len(),
        forall|i: int| 0 <= i < old(parity)@.len() ==> #[trigger] final(parity)@[i]@.len() == old(parity)@[i]@.len(),
        r is Ok ==> shards_view(final(parity)@) == reed_solomon_parity(shards_view(data@), old(parity)@.len()),
        r is Err ==> final(parity)@ == old(parity)@,
{
    coder.inner.encode_sep(data, parity)
}

/// Calls `ReedSolomon::reconstruct_data` on the places of the shards.
/// Claimed: it succeeds exactly when there is one place per shard of the
/// coder, the shards present have one non-zero length, and at least as many
/// as the data shards are present; otherwise nothing is touched.  On success
/// the data shards are all present, holding [`reed_solomon_data`] of the
/// shards given; and where the shards present are those of data shards of
/// one length followed by their [`reed_solomon_parity`], the data shards are
/// those data shards.
#[verifier::external_body]
fn rs_reconstruct_data(coder: &ErasureCoder, shards: &mut Vec<Option<Vec<u8>>>) -> (r: Result<(), reed_solomon_erasure::Error>)
    requires
        rs_data_shards(*coder) > 0,
        rs_parity_shards(*coder) > 0,
    ensures
        r is Ok <==> rs_can_rebuild(
            opt_shards_view(old(shards)@),
            rs_data_shards(*coder),
            rs_data_shards(*coder) + rs_parity_shards(*coder),
        ),
        r is Err ==> final(shards)@ == old(shards)@,
        final(shards)@.len() == old(shards)@.len(),
        r is Ok ==> forall|i: int|
            0 <= i < rs_data_shards(*coder) ==> (#[trigger] final(shards)@[i]) is Some && final(shards)@[i]->0@
                == reed_solomon_data(opt_shards_view(old(shards)@), rs_data_shards(*coder))[i],
        r is Ok ==> forall|data: Seq<Seq<u8>>|
            #![trigger agrees_with(opt_shards_view(old(shards)@), data + reed_solomon_parity(data, rs_parity_shards(*coder)))]
            data.len() == rs_data_shards(*coder) && (forall|i: int, j: int|
                0 <= i < data.len() && 0 <= j < data.len() ==> #[trigger] data[i].len() == #[trigger] data[j].len())
                && agrees_with(
                opt_shards_view(old(shards)@),
                data + reed_solomon_parity(data, rs_parity_shards(*coder)),
            ) ==> forall|i: int| 0 <= i < data.len() ==> #[trigger] final(shards)@[i]->0@ == data[i],
{
    coder.inner.reconstruct_data(shards)
}

/// The parameters of dissemination.
#[derive(Debug)]
pub struct RotorConfig {
    /// Data shards per slice.
    pub data_shreds_per_slice: usize,
    /// Data and parity shards per slice.
    pub total_shreds_per_slice: usize,
    /// The largest slice, in bytes.
    pub max_slice_size: usize,
    /// How long a transmission may take, in milliseconds.
    pub transmission_timeout: u64,
}

impl Clone for RotorConfig {
    fn clone(&self) -> (r: Self)
        ensures
            r == *self,
    {
        RotorConfig {
            data_shreds_per_slice: self.data_shreds_per_slice,
            total_shreds_per_slice: self.total_shreds_per_slice,
            max_slice_size: self.max_slice_size,
            transmission_timeout: self.transmission_timeout,
        }
    }
}

impl Default for RotorConfig {
    /// 32 data shards out of 64 per slice, slices of at most 64 KiB, 100 ms.
    fn default() -> (r: Self)
        ensures
            r == default_rotor_config(),
    {
        RotorConfig {
            data_shreds_per_slice: 32,
            total_shreds_per_slice: 64,
            max_slice_size: 65536,
            transmission_timeout: 100,
        }
    }
}

/// The default parameters.
pub open spec fn default_rotor_config() -> RotorConfig {
    RotorConfig {
        data_shreds_per_slice: 32,
        total_shreds_per_slice: 64,
        max_slice_size: 65536,
        transmission_timeout: 100,
    }
}

/// Whether a Reed-Solomon coder over bytes can be made for the configuration.
pub open spec fn coder_accepts(config: RotorConfig) -> bool {
    &&& config.data_shreds_per_slice > 0
    &&& config.total_shreds_per_slice > config.data_shreds_per_slice
    &&& config.total_shreds_per_slice <= 256
}

/// Why dissemination could not be set up or carried out.
#[derive(Debug, Clone, Copy, PartialEq, Eq)]
pub enum RotorError {
    /// The erasure coder refused the shard counts.
    ErasureCoding,
}

/// How many pieces of `size` bytes cut `len` bytes (the last piece may be shorter).
pub open spec fn chunk_count(len: nat, size: nat) -> nat
    recommends
        size > 0,
{
    if len % size == 0 {
        len / size
    } else {
        len / size + 1
    }
}

/// Where the `i`-th piece of `size` bytes ends in `len` bytes.
pub open spec fn chunk_end(len: nat, size: nat, i: int) -> int {
    if len - i * size < size {
        len as int
    } else {
        i * size + size
    }
}

/// The `i`-th piece of `bytes` cut into pieces of `size` bytes.
pub open spec fn chunk(bytes: Seq<u8>, size: nat, i: int) -> Seq<u8> {
    bytes.subrange(i * size, chunk_end(bytes.len(), size, i))
}

/// The `i`-th of the `n` slices of a block in `slot` whose encoding is `bytes`:
/// its piece of the encoding, and the SHA-256 digest of that piece as its root.
pub open spec fn slice_of(slot: u64, bytes: Seq<u8>, size: nat, i: int, n: nat) -> SliceView {
    SliceView {
        slot,
        slice_index: i as u32,
        is_last_slice: i == n - 1,
        data: chunk(bytes, size, i),
        merkle_root: sha256_digest(chunk(bytes, size, i)),
    }
}

/// The slices of a block: its encoding cut into pieces of `size` bytes.
pub open spec fn block_slices(block: BlockView, size: nat) -> Seq<SliceView> {
    let bytes = encode_block(block);
    let n = chunk_count(bytes.len(), size);
    Seq::new(n, |i: int| slice_of(block.slot, bytes, size, i, n))
}

/// The views of a list of slices.
pub open spec fn slices_view(v: Seq<Slice>) -> Seq<SliceView> {
    v.map_values(|s: Slice| s@)
}

proof fn lemma_chunk_bounds(len: nat, size: nat, i: nat)
    requires
        size > 0,
        i < chunk_count(len, size),
    ensures
        i * size < len,
        i * size <= chunk_end(len, size, i as int) <= len,
        chunk_end(len, size, i as int) - i * size <= size,
{
    assert(i * size < len) by (nonlinear_arith)
        requires
            size > 0,
            i < (if len % size == 0 { len / size } else { len / size + 1 }),
    {
        assert(len == size * (len / size) + len % size);
        if len % size == 0 {
            assert(i + 1 <= len / size);
            assert(i * size + size <= (len / size) * size);
        } else {
            assert(i <= len / size);
            assert(i * size <= (len / size) * size);
        }
    }
}

/// `bytes` followed by zeros up to a whole number of `d`-byte rows.
pub open spec fn padded(bytes: Seq<u8>, d: nat) -> Seq<u8> {
    bytes + Seq::new((chunk_count(bytes.len(), d) * d - bytes.len()) as nat, |_i: int| 0u8)
}

/// The `i`-th row of `size` bytes of `p`.
pub open spec fn row(p: Seq<u8>, size: nat, i: int) -> Seq<u8> {
    p.subrange(i * size, i * size + size)
}

/// The `d` data shards of `bytes`: the padded bytes cut into `d` equal pieces.
pub open spec fn data_shards_of(bytes: Seq<u8>, d: nat) -> Seq<Seq<u8>> {
    let p = padded(bytes, d);
    let size = chunk_count(bytes.len(), d);
    Seq::new(d, |i: int| row(p, size, i))
}

/// All shards of a slice for `d` data shards out of `total`: the data shards of
/// its encoding, then their Reed-Solomon parity shards.
pub open spec fn shard_contents(slice: SliceView, d: nat, total: nat) -> Seq<Seq<u8>> {
    let data = data_shards_of(encode_slice_view(slice), d);
    data + reed_solomon_parity(data, (total - d) as nat)
}

/// The bytes that a shred's signature covers: slot, slice index and shred
/// index, little-endian, then the shred's data.
pub open spec fn shred_signing_bytes(slot: u64, slice_index: u32, shred_index: u32, data: Seq<u8>) -> Seq<u8> {
    spec_u64_to_le_bytes(slot) + spec_u32_to_le_bytes(slice_index) + spec_u32_to_le_bytes(shred_index) + data
}

/// The `i`-th shred of a slice, carrying `data`: the slice's place, the
/// slice's root, the digest of the data as its proof, and the leader's
/// signature.
pub open spec fn shred_of(slice: SliceView, i: int, data: Seq<u8>, keypair: KeyPair) -> ShredView {
    ShredView {
        slot: slice.slot,
        slice_index: slice.slice_index,
        shred_index: i as u32,
        is_last_slice: slice.is_last_slice,
        data,
        merkle_root: slice.merkle_root,
        merkle_proof: seq![sha256_digest(data)],
        leader_signature: keypair.spec_sign(shred_signing_bytes(slice.slot, slice.slice_index, i as u32, data)),
    }
}

/// The shreds made of a slice whose shards are `contents`.
pub open spec fn shreds_from(slice: SliceView, contents: Seq<Seq<u8>>, keypair: KeyPair) -> Seq<ShredView> {
    Seq::new(contents.len(), |i: int| shred_of(slice, i, contents[i], keypair))
}

/// The views of a list of shreds.
pub open spec fn shreds_view(v: Seq<Shred>) -> Seq<ShredView> {
    v.map_values(|s: Shred| s@)
}

proof fn lemma_padding(len: nat, d: nat)
    requires
        d > 0,
    ensures
        (len + d - 1) / (d as int) == chunk_count(len, d),
        chunk_count(len, d) * d >= len,
        chunk_count(len, d) * d < len + d,
        (chunk_count(len, d) * d) / d == chunk_count(len, d),
        len > 0 ==> chunk_count(len, d) > 0,
{
    let c = chunk_count(len, d);
    assert((len + d - 1) / (d as int) == c && c * d >= len && c * d < len + d && (c * d) / d == c)
        by (nonlinear_arith)
        requires
            d > 0,
            c == (if len % d == 0 { len / d } else { len / d + 1 }),
    {
        assert(len == d * (len / d) + len % d);
        assert(0 <= len % d < d);
    }
    if len > 0 {
        assert(c > 0) by (nonlinear_arith)
            requires
                d > 0,
                len > 0,
                c * d >= len,
        ;
    }
}

proof fn lemma_row_bounds(i: nat, size: nat, d: nat)
    requires
        i < d,
    ensures
        i * size + size <= size * d,
{
    assert(i * size + size <= size * d) by (nonlinear_arith)
        requires
            i < d,
    ;
}

/// Progress of a block's dissemination.
#[derive(Debug, Clone, Copy, PartialEq, Eq)]
struct TransmissionState {
    slices_sent: u32,
    total_slices: u32,
    start_time_ms: u64,
}

/// The dissemination engine of a leader.
pub struct Rotor {
    erasure_coder: ErasureCoder,
    network_config: NetworkConfig,
    config: RotorConfig,
    validator_id: String,
    keypair: KeyPair,
    active_transmissions: HashMap<u64, TransmissionState>,
}

/// The progress of each block under way: slices sent, slices in all, start time.
spec fn transmissions_view(m: Map<u64, TransmissionState>) -> Map<u64, (u32, u32, u64)> {
    m.map_values(|t: TransmissionState| (t.slices_sent, t.total_slices, t.start_time_ms))
}

impl Rotor {
    /// The parameters.
    pub closed spec fn config(&self) -> RotorConfig {
        self.config
    }

    /// The signing key.
    pub closed spec fn keypair(&self) -> KeyPair {
        self.keypair
    }

    /// The validator's name.
    pub closed spec fn validator_id(&self) -> Seq<char> {
        self.validator_id@
    }

    /// The network's validators.
    pub closed spec fn network_config(&self) -> NetworkConfig {
        self.network_config
    }

    /// The blocks under way: slices sent, slices in all, start time.
    pub closed spec fn transmissions(&self) -> Map<u64, (u32, u32, u64)> {
        transmissions_view(self.active_transmissions@)
    }

    /// The coder matches the parameters and the key is valid.
    pub closed spec fn wf(&self) -> bool {
        &&& coder_accepts(self.config)
        &&& rs_data_shards(self.erasure_coder) == self.config.data_shreds_per_slice
        &&& rs_parity_shards(self.erasure_coder) == self.config.total_shreds_per_slice
            - self.config.data_shreds_per_slice
        &&& self.keypair.wf()
    }

    /// Sets up dissemination with the given parameters (the default ones where
    /// none are given).  It fails exactly where no Reed-Solomon coder exists
    /// for the shard counts.
    pub fn new(
        network_config: NetworkConfig,
        validator_id: String,
        keypair: KeyPair,
        config: Option<RotorConfig>,
    ) -> (r: Result<Rotor, RotorError>)
        requires
            keypair.wf(),
            config matches Some(c) ==> c.total_shreds_per_slice >= c.data_shreds_per_slice,
        ensures
            ({
                let c = match config {
                    Some(c) => c,
                    None => default_rotor_config(),
                };
                &&& r is Ok <==> coder_accepts(c)
                &&& r matches Ok(rotor) ==> {
                    &&& rotor.wf()
                    &&& rotor.config() == c
                    &&& rotor.keypair() == keypair
                    &&& rotor.validator_id() == validator_id@
                    &&& rotor.network_config() == network_config
                    &&& rotor.transmissions() == Map::<u64, (u32, u32, u64)>::empty()
                }
                &&& r matches Err(e) ==> e == RotorError::ErasureCoding
            }),
    {
        let config = match config {
            Some(c) => c,
            None => RotorConfig::default(),
        };
        let parity = config.total_shreds_per_slice - config.data_shreds_per_slice;
        match rs_new(config.data_shreds_per_slice, parity) {
            Ok(erasure_coder) => {
                let rotor = Rotor {
                    erasure_coder,
                    network_config,
                    config,
                    validator_id,
                    keypair,
                    active_transmissions: HashMap::new(),
                };
                assert(rotor.transmissions() =~= Map::<u64, (u32, u32, u64)>::empty());
                Ok(rotor)
            },
            Err(_) => Err(RotorError::ErasureCoding),
        }
    }

    /// The SHA-256 digest of a piece of data, used as its Merkle root.
    fn calculate_merkle_root(&self, data: &[u8]) -> (root: [u8; 32])
        ensures
            root@ == sha256_digest(data@),
    {
        hash_data(data)
    }

    /// The digest of each shard, in order: the leaves of the (flat) Merkle tree.
    fn build_merkle_tree(&self, shred_data: &Vec<Vec<u8>>) -> (tree: Vec<[u8; 32]>)
        ensures
            tree@.len() == shred_data@.len(),
            forall|i: int| 0 <= i < tree@.len() ==> #[trigger] tree@[i]@ == sha256_digest(shred_data@[i]@),
    {
        let mut tree: Vec<[u8; 32]> = Vec::new();
        let mut i: usize = 0;
        while i < shred_data.len()
            invariant
                i <= shred_data@.len(),
                tree@.len() == i,
                forall|j: int| 0 <= j < i ==> #[trigger] tree@[j]@ == sha256_digest(shred_data@[j]@),
            decreases shred_data@.len() - i,
        {
            let root = self.calculate_merkle_root(shred_data[i].as_slice());
            tree.push(root);
            i = i + 1;
        }
        tree
    }

    /// The proof for the shard at `index`: its leaf alone, or nothing where the
    /// index is past the tree.
    fn generate_merkle_proof(&self, tree: &Vec<[u8; 32]>, index: usize) -> (proof: Vec<[u8; 32]>)
        ensures
            index < tree@.len() ==> proof@ == seq![tree@[index as int]],
            index >= tree@.len() ==> proof@.len() == 0,
    {
        let mut proof: Vec<[u8; 32]> = Vec::new();
        if index < tree.len() {
            proof.push(tree[index]);
        }
        proof
    }

    /// The leader's signature of a shred: of the slot, slice index and shred
    /// index, little-endian, followed by the shred's data.
    fn sign_shred(&self, slice: &Slice, shred_index: u32, shred_data: &[u8]) -> (signature: [u8; 96])
        requires
            self.wf(),
        ensures
            signature@ == self.keypair().spec_sign(
                shred_signing_bytes(slice.slot, slice.slice_index, shred_index, shred_data@),
            ),
    {
        let mut data_to_sign = u64_to_le_bytes(slice.slot);
        let mut part = u32_to_le_bytes(slice.slice_index);
        data_to_sign.append(&mut part);
        let mut part = u32_to_le_bytes(shred_index);
        data_to_sign.append(&mut part);
        let mut part = slice_to_vec(shred_data);
        data_to_sign.append(&mut part);
        assert(data_to_sign@ =~= shred_signing_bytes(slice.slot, slice.slice_index, shred_index, shred_data@));
        self.keypair.sign(data_to_sign.as_slice())
    }

    /// Turns a slice's data and parity shards into signed shreds, in order,
    /// each with its index, the slice's place and root, and its leaf as proof.
    pub fn assemble_shreds(&self, slice: &Slice, data_shards: Vec<Vec<u8>>, parity_shards: Vec<Vec<u8>>) -> (shreds: Vec<Shred>)
        requires
            self.wf(),
        ensures
            shreds_view(shreds@) == shreds_from(
                slice@,
                shards_view(data_shards@) + shards_view(parity_shards@),
                self.keypair(),
            ),
    {
        let ghost contents = shards_view(data_shards@) + shards_view(parity_shards@);
        let mut all_shred_data = data_shards;
        let mut parity_shards = parity_shards;
        all_shred_data.append(&mut parity_shards);
        assert(shards_view(all_shred_data@) =~= contents);
        let merkle_tree = self.build_merkle_tree(&all_shred_data);
        let ghost expected = shreds_from(slice@, contents, self.keypair());
        let mut shreds: Vec<Shred> = Vec::new();
        let mut index: usize = 0;
        while index < all_shred_data.len()
            invariant
                self.wf(),
                shards_view(all_shred_data@) == contents,
                expected == shreds_from(slice@, contents, self.keypair()),
                merkle_tree@.len() == all_shred_data@.len(),
                forall|i: int| 0 <= i < merkle_tree@.len() ==> #[trigger] merkle_tree@[i]@ == sha256_digest(all_shred_data@[i]@),
                index <= all_shred_data@.len(),
                shreds@.len() == index,
                forall|j: int| 0 <= j < index ==> #[trigger] shreds@[j]@ == expected[j],
            decreases all_shred_data@.len() - index,
        {
            let merkle_proof = self.generate_merkle_proof(&merkle_tree, index);
            let shred_index: u32 = #[verifier::truncate] (index as u32);
            let signature = self.sign_shred(slice, shred_index, all_shred_data[index].as_slice());
            let data = slice_to_vec(all_shred_data[index].as_slice());
            let shred = Shred {
                slot: slice.slot,
                slice_index: slice.slice_index,
                shred_index,
                is_last_slice: slice.is_last_slice,
                data,
                merkle_root: slice.merkle_root,
                merkle_proof,
                leader_signature: signature,
            };
            assert(contents[index as int] == all_shred_data@[index as int]@);
            assert(shred@.merkle_proof =~= expected[index as int].merkle_proof);
            assert(shred@ == expected[index as int]);
            shreds.push(shred);
            index = index + 1;
        }
        assert(shreds_view(shreds@) =~= expected);
        shreds
    }

    /// Erasure-codes a slice: its encoding, padded with zeros to a multiple of
    /// the number of data shards, is cut into that many data shards, the
    /// Reed-Solomon parity shards are computed from them, and every shard
    /// becomes a signed shred.
    pub fn erasure_encode_slice(&self, slice: Slice) -> (r: Result<Vec<Shred>, RotorError>)
        requires
            self.wf(),
            encode_slice_view(slice@).len() + self.config().data_shreds_per_slice <= usize::MAX,
        ensures
            r matches Ok(shreds) && shreds_view(shreds@) == shreds_from(
                slice@,
                shard_contents(
                    slice@,
                    self.config().data_shreds_per_slice as nat,
                    self.config().total_shreds_per_slice as nat,
                ),
                self.keypair(),
            ),
            r matches Ok(shreds) ==> shreds@.len() == self.config().total_shreds_per_slice,
            r matches Ok(shreds) ==> forall|i: int|
                0 <= i < shreds@.len() ==> (#[trigger] shreds@[i]).data@.len() == chunk_count(
                    encode_slice_view(slice@).len(),
                    self.config().data_shreds_per_slice as nat,
                ),
    {
        let slice_data = bincode_encode_slice(&slice);
        let d = self.config.data_shreds_per_slice;
        let ghost bytes = slice_data@;
        proof {
            lemma_padding(bytes.len(), d as nat);
        }
        let padded_size = (slice_data.len() + d - 1) / d * d;
        let mut padded_data = slice_data;
        while padded_data.len() < padded_size
            invariant
                padded_size == chunk_count(bytes.len(), d as nat) * d,
                bytes.len() <= padded_data@.len() <= padded_size,
                padded_data@ == bytes + Seq::new((padded_data@.len() - bytes.len()) as nat, |_i: int| 0u8),
            decreases padded_size - padded_data@.len(),
        {
            padded_data.push(0u8);
            assert(padded_data@ =~= bytes + Seq::new((padded_data@.len() - bytes.len()) as nat, |_i: int| 0u8));
        }
        assert(padded_data@ =~= padded(bytes, d as nat));
        let chunk_size = padded_data.len() / d;
        assert(chunk_size == chunk_count(bytes.len(), d as nat));
        let ghost data_spec = data_shards_of(bytes, d as nat);
        let mut data_shards: Vec<Vec<u8>> = Vec::new();
        let mut i: usize = 0;
        while i < d
            invariant
                d > 0,
                padded_data@ == padded(bytes, d as nat),
                padded_data@.len() == chunk_size * d,
                chunk_size * d <= usize::MAX,
                chunk_size == chunk_count(bytes.len(), d as nat),
                data_spec == data_shards_of(bytes, d as nat),
                i <= d,
                data_shards@.len() == i,
                forall|j: int| 0 <= j < i ==> #[trigger] data_shards@[j]@ == data_spec[j],
                uniform_shards(data_shards@, chunk_size as nat),
            decreases d - i,
        {
            proof {
                lemma_row_bounds(i as nat, chunk_size as nat, d as nat);
            }
            let start = i * chunk_size;
            let end = start + chunk_size;
            data_shards.push(slice_to_vec(slice_subrange(padded_data.as_slice(), start, end)));
            i = i + 1;
        }
        assert(shards_view(data_shards@) =~= data_spec);
        let parity_count = self.config.total_shreds_per_slice - d;
        let mut parity_shards: Vec<Vec<u8>> = Vec::new();
        let mut k: usize = 0;
        while k < parity_count
            invariant
                k <= parity_count,
                parity_shards@.len() == k,
                uniform_shards(parity_shards@, chunk_size as nat),
            decreases parity_count - k,
        {
            parity_shards.push(vec![0u8; chunk_size]);
            k = k + 1;
        }
        assert(chunk_size > 0);
        assert(data_shards@[0]@.len() == chunk_size);
        assert(uniform_shards(data_shards@, chunk_size as nat));
        match rs_encode_sep(&self.erasure_coder, &data_shards, &mut parity_shards) {
            Ok(()) => {
                let ghost contents = shards_view(data_shards@) + shards_view(parity_shards@);
                assert(uniform_shards(parity_shards@, chunk_size as nat));
                assert forall|i: int| 0 <= i < contents.len() implies #[trigger] contents[i].len() == chunk_size by {
                    if i < d {
                        assert(contents[i] == data_shards@[i]@);
                    } else {
                        assert(contents[i] == parity_shards@[i - d]@);
                    }
                }
                let shreds = self.assemble_shreds(&slice, data_shards, parity_shards);
                proof {
                    let made = shreds_from(slice@, contents, self.keypair());
                    assert(shreds_view(shreds@) == made);
                    assert(shreds@.len() == made.len());
                    assert forall|i: int| 0 <= i < shreds@.len() implies (#[trigger] shreds@[i]).data@.len()
                        == chunk_size by {
                        assert(shreds_view(shreds@)[i] == shreds@[i]@);
                        assert(made[i].data == contents[i]);
                    }
                }
                Ok(shreds)
            },
            Err(_) => Err(RotorError::ErasureCoding),
        }
    }

    /// Whether `other` differs from this engine in its transmissions alone.
    pub open spec fn same_setup(&self, other: &Rotor) -> bool {
        &&& other.wf() == self.wf()
        &&& other.config() == self.config()
        &&& other.keypair() == self.keypair()
        &&& other.validator_id() == self.validator_id()
        &&& other.network_config() == self.network_config()
    }

    /// Starts disseminating a block at time `now_ms`: cuts it into slices and
    /// records that none of them has been sent yet.
    pub fn begin_transmission(&mut self, block: Block, now_ms: u64) -> (slices: Vec<Slice>)
        requires
            old(self).config().max_slice_size > 0,
        ensures
            old(self).same_setup(final(self)),
            slices_view(slices@) == block_slices(block@, old(self).config().max_slice_size as nat),
            final(self).transmissions() == old(self).transmissions().insert(
                block.slot,
                (0u32, slices@.len() as u32, now_ms),
            ),
    {
        let slot = block.slot;
        let slices = self.split_into_slices(block);
        let state = TransmissionState {
            slices_sent: 0,
            total_slices: #[verifier::truncate] (slices.len() as u32),
            start_time_ms: now_ms,
        };
        self.active_transmissions.insert(slot, state);
        assert(self.transmissions() =~= old(self).transmissions().insert(slot, (0u32, slices@.len() as u32, now_ms)));
        slices
    }

    /// Records that one more slice of the block in `slot` went out (the count
    /// stays at its maximum once there).  Nothing changes for a slot that is
    /// not under way.
    pub fn record_slice_sent(&mut self, slot: u64)
        ensures
            old(self).same_setup(final(self)),
            final(self).transmissions() == (if old(self).transmissions().contains_key(slot) {
                let t = old(self).transmissions()[slot];
                old(self).transmissions().insert(slot, ((if t.0 < u32::MAX { (t.0 + 1) as u32 } else { t.0 }), t.1, t.2))
            } else {
                old(self).transmissions()
            }),
    {
        match self.active_transmissions.get(&slot) {
            Some(state) => {
                let mut next = *state;
                if next.slices_sent < u32::MAX {
                    next.slices_sent = next.slices_sent + 1;
                }
                self.active_transmissions.insert(slot, next);
                assert(self.transmissions() =~= old(self).transmissions().insert(slot, (next.slices_sent, next.total_slices, next.start_time_ms)));
            },
            None => {},
        }
    }

    /// Forgets the block in `slot`: its dissemination is over.
    pub fn finish_transmission(&mut self, slot: u64)
        ensures
            old(self).same_setup(final(self)),
            final(self).transmissions() == old(self).transmissions().remove(slot),
    {
        self.active_transmissions.remove(&slot);
        assert(self.transmissions() =~= old(self).transmissions().remove(slot));
    }

    /// The progress of the block in `slot` at time `now_ms`: slices sent,
    /// slices in all, and milliseconds since it started (0 for a start after
    /// `now_ms`).
    pub fn get_transmission_stats_at(&self, slot: u64, now_ms: u64) -> (stats: Option<(u32, u32, u64)>)
        ensures
            stats == (if self.transmissions().contains_key(slot) {
                let t = self.transmissions()[slot];
                Some((t.0, t.1, (if now_ms >= t.2 { now_ms - t.2 } else { 0 }) as u64))
            } else {
                None::<(u32, u32, u64)>
            }),
    {
        match self.active_transmissions.get(&slot) {
            Some(state) => {
                let elapsed = if now_ms >= state.start_time_ms {
                    now_ms - state.start_time_ms
                } else {
                    0
                };
                Some((state.slices_sent, state.total_slices, elapsed))
            },
            None => None,
        }
    }

    /// The progress of the block in `slot` now, by the wall clock.
    pub fn get_transmission_stats(&self, slot: u64) -> (stats: Option<(u32, u32, u64)>)
        ensures
            stats is Some <==> self.transmissions().contains_key(slot),
            stats matches Some(s) ==> s.0 == self.transmissions()[slot].0 && s.1 == self.transmissions()[slot].1,
    {
        let now = unix_time_millis();
        self.get_transmission_stats_at(slot, now)
    }

    /// Cuts the block's encoding into slices of at most `max_slice_size` bytes,
    /// each with the digest of its bytes; the last one is marked.
    pub fn split_into_slices(&self, block: Block) -> (slices: Vec<Slice>)
        requires
            self.config().max_slice_size > 0,
        ensures
            slices_view(slices@) == block_slices(block@, self.config().max_slice_size as nat),
    {
        let bytes = bincode_encode_block(&block);
        let len = bytes.len();
        let size = self.config.max_slice_size;
        let total: usize = if len % size == 0 {
            len / size
        } else {
            assert(len / size < len) by (nonlinear_arith)
                requires
                    size > 1,
                    len > 0,
            ;
            len / size + 1
        };
        let ghost n = chunk_count(len as nat, size as nat);
        let ghost expected = block_slices(block@, size as nat);
        let mut slices: Vec<Slice> = Vec::new();
        let mut index: usize = 0;
        while index < total
            invariant
                size == self.config().max_slice_size,
                size > 0,
                bytes@ == encode_block(block@),
                len == bytes@.len(),
                total == n,
                n == chunk_count(len as nat, size as nat),
                expected == block_slices(block@, size as nat),
                index <= total,
                slices@.len() == index,
                forall|j: int| 0 <= j < index ==> #[trigger] slices@[j]@ == expected[j],
            decreases total - index,
        {
            proof {
                lemma_chunk_bounds(len as nat, size as nat, index as nat);
            }
            let start = index * size;
            let end = if len - start < size {
                len
            } else {
                start + size
            };
            let data = slice_to_vec(slice_subrange(bytes.as_slice(), start, end));
            let merkle_root = self.calculate_merkle_root(data.as_slice());
            let slice = Slice {
                slot: block.slot,
                slice_index: #[verifier::truncate] (index as u32),
                is_last_slice: index == total - 1,
                data,
                merkle_root,
            };
            assert(slice@ == expected[index as int]);
            slices.push(slice);
            index = index + 1;
        }
        assert(slices_view(slices@) =~= expected);
        slices
    }
}


/// The key under which the shreds of a slice are kept.
pub open spec fn slice_key(slot: u64, slice_index: u32) -> u128 {
    (slot * 0x1_0000_0000 + slice_index) as u128
}

proof fn lemma_slice_key_injective(a: (u64, u32), b: (u64, u32))
    ensures
        slice_key(a.0, a.1) == slice_key(b.0, b.1) <==> a == b,
{
}

fn slice_key_of(slot: u64, slice_index: u32) -> (key: u128)
    ensures
        key == slice_key(slot, slice_index),
{
    (slot as u128) * 0x1_0000_0000u128 + (slice_index as u128)
}

/// The views of the places for a slice's shreds.
pub open spec fn opt_shreds_view(v: Seq<Option<Shred>>) -> Seq<Option<ShredView>> {
    v.map_values(
        |o: Option<Shred>|
            match o {
                Some(s) => Some(s@),
                None => None,
            },
    )
}

/// How many of the places hold a shred.
pub open spec fn count_present(v: Seq<Option<ShredView>>) -> nat
    decreases v.len(),
{
    if v.len() == 0 {
        0
    } else {
        count_present(v.drop_last()) + (if v.last() is Some {
            1nat
        } else {
            0nat
        })
    }
}

/// The data of each shred present, place by place.
pub open spec fn shard_data(v: Seq<Option<ShredView>>) -> Seq<Option<Seq<u8>>> {
    v.map_values(
        |o: Option<ShredView>|
            match o {
                Some(s) => Some(s.data),
                None => None,
            },
    )
}

/// The bytes of the first `d` shards, one after the other.
pub open spec fn data_bytes(shards: Seq<Option<Seq<u8>>>, d: nat) -> Seq<u8> {
    Seq::new(d, |j: int| shards[j]->0).flatten()
}

/// The contents of a list of places for shards.
pub open spec fn opt_shards_view(v: Seq<Option<Vec<u8>>>) -> Seq<Option<Seq<u8>>> {
    v.map_values(
        |o: Option<Vec<u8>>|
            match o {
                Some(x) => Some(x@),
                None => None,
            },
    )
}

/// How many places hold a shard.
pub open spec fn count_some(v: Seq<Option<Seq<u8>>>) -> nat
    decreases v.len(),
{
    if v.len() == 0 {
        0
    } else {
        count_some(v.drop_last()) + (if v.last() is Some {
            1nat
        } else {
            0nat
        })
    }
}

/// Whether all shards present have the same, non-zero, length.
pub open spec fn same_size_shards(v: Seq<Option<Seq<u8>>>) -> bool {
    forall|i: int, j: int|
        0 <= i < v.len() && 0 <= j < v.len() && v[i] is Some && v[j] is Some ==> #[trigger] v[i]->0.len()
            == #[trigger] v[j]->0.len() && v[i]->0.len() > 0
}

/// Whether a Reed-Solomon coder with `d` data shards out of `total` can
/// rebuild the data shards from these places: one place per shard, shards
/// of one non-zero length, and at least `d` of them present.
pub open spec fn rs_can_rebuild(v: Seq<Option<Seq<u8>>>, d: nat, total: nat) -> bool {
    v.len() == total && same_size_shards(v) && count_some(v) >= d
}

/// Whether the shards present are those of `all`, place by place.
pub open spec fn agrees_with(v: Seq<Option<Seq<u8>>>, all: Seq<Seq<u8>>) -> bool {
    v.len() == all.len() && forall|i: int| 0 <= i < v.len() && v[i] is Some ==> #[trigger] v[i]->0 == all[i]
}

/// The data shards that Reed-Solomon decoding over GF(256) rebuilds from the
/// shards present, `data_shards` of them.
pub uninterp spec fn reed_solomon_data(shards: Seq<Option<Seq<u8>>>, data_shards: nat) -> Seq<Seq<u8>>;

/// The slice rebuilt from a slice's places, with `d` data shards out of
/// `total`: where the shards present allow it, the data shards are decoded,
/// and their bytes, one after the other, are read as a slice.
pub open spec fn rebuilt_slice(v: Seq<Option<ShredView>>, d: nat, total: nat) -> Option<SliceView> {
    if rs_can_rebuild(shard_data(v), d, total) {
        decoded_slice(Seq::new(d, |i: int| reed_solomon_data(shard_data(v), d)[i]).flatten())
    } else {
        None
    }
}

/// The bytes of the slices of `slot` from slice `from` on, each rebuilt from
/// its places, up to the one marked last; `None` where a slice is missing or
/// cannot be rebuilt before that.
pub open spec fn slot_bytes(
    received: Map<(u64, u32), Seq<Option<ShredView>>>,
    slot: u64,
    d: nat,
    total: nat,
    from: u32,
) -> Option<Seq<u8>>
    decreases u32::MAX - from,
{
    if !received.contains_key((slot, from)) {
        None
    } else {
        match rebuilt_slice(received[(slot, from)], d, total) {
            None => None,
            Some(s) => if s.is_last_slice {
                Some(s.data)
            } else if from == u32::MAX {
                None
            } else {
                match slot_bytes(received, slot, d, total, (from + 1) as u32) {
                    Some(rest) => Some(s.data + rest),
                    None => None,
                }
            },
        }
    }
}

/// What became of a received shred.
#[derive(Debug)]
pub enum ShredOutcome {
    /// The shred completed the last slice and the block was rebuilt from its slices.
    Block(Block),
    /// The shred completed the last slice, but a slice before it is missing
    /// or cannot be rebuilt.
    Incomplete,
    /// The slices were rebuilt, but their bytes are not a block.
    Undecodable,
    /// Nothing was completed: the shred is to be passed on to the other validators.
    Relay(Shred),
}

/// The mathematical value of a [`ShredOutcome`].
pub enum ShredOutcomeView {
    Block(BlockView),
    Incomplete,
    Undecodable,
    Relay(ShredView),
}

impl View for ShredOutcome {
    type V = ShredOutcomeView;

    open spec fn view(&self) -> ShredOutcomeView {
        match self {
            ShredOutcome::Block(b) => ShredOutcomeView::Block(b@),
            ShredOutcome::Incomplete => ShredOutcomeView::Incomplete,
            ShredOutcome::Undecodable => ShredOutcomeView::Undecodable,
            ShredOutcome::Relay(s) => ShredOutcomeView::Relay(s@),
        }
    }
}

/// The outcome of rebuilding the block of `slot` from what was received.
pub open spec fn block_outcome(
    received: Map<(u64, u32), Seq<Option<ShredView>>>,
    slot: u64,
    d: nat,
    total: nat,
) -> ShredOutcomeView {
    match slot_bytes(received, slot, d, total, 0) {
        None => ShredOutcomeView::Incomplete,
        Some(bytes) => match decoded_block(bytes) {
            Some(b) => ShredOutcomeView::Block(b),
            None => ShredOutcomeView::Undecodable,
        },
    }
}

/// The places of a slice after a shred arrives: a fresh row of `total` empty
/// places for a slice not seen yet, and the shred put in its place where
/// its index is within the row.
pub open spec fn stored(
    received: Map<(u64, u32), Seq<Option<ShredView>>>,
    shred: ShredView,
    total: nat,
) -> Map<(u64, u32), Seq<Option<ShredView>>> {
    let key = (shred.slot, shred.slice_index);
    let row = if received.contains_key(key) {
        received[key]
    } else {
        Seq::new(total, |_i: int| None::<ShredView>)
    };
    let row = if shred.shred_index < row.len() {
        row.update(shred.shred_index as int, Some(shred))
    } else {
        row
    };
    received.insert(key, row)
}

/// What a receiver with `received` (after storing `shred`) reports: where the
/// shred landed in its row, at least `d` shreds of the row are present and
/// the slice they rebuild is the last one, the outcome of rebuilding the
/// block; otherwise the shred is passed on.
pub open spec fn shred_outcome(
    received: Map<(u64, u32), Seq<Option<ShredView>>>,
    shred: ShredView,
    d: nat,
    total: nat,
) -> ShredOutcomeView {
    let row = received[(shred.slot, shred.slice_index)];
    if shred.shred_index < row.len() && count_present(row) >= d && (rebuilt_slice(row, d, total) matches Some(s)
        && s.is_last_slice) {
        block_outcome(received, shred.slot, d, total)
    } else {
        ShredOutcomeView::Relay(shred)
    }
}

/// Collects the shreds that relays pass on and rebuilds slices and blocks.
pub struct ShredReceiver {
    erasure_coder: ErasureCoder,
    received_shreds: HashMap<u128, Vec<Option<Shred>>>,
    validator_id: String,
    config: RotorConfig,
}

impl ShredReceiver {
    /// The places of each slice seen, by slot and slice index.
    pub closed spec fn received(&self) -> Map<(u64, u32), Seq<Option<ShredView>>> {
        Map::new(
            |k: (u64, u32)| self.received_shreds@.contains_key(slice_key(k.0, k.1)),
            |k: (u64, u32)| opt_shreds_view(self.received_shreds@[slice_key(k.0, k.1)]@),
        )
    }

    /// The parameters.
    pub closed spec fn config(&self) -> RotorConfig {
        self.config
    }

    /// The validator's name.
    pub closed spec fn validator_id(&self) -> Seq<char> {
        self.validator_id@
    }

    /// The default parameters are used and every row has a place per shred.
    pub closed spec fn wf(&self) -> bool {
        &&& self.config == default_rotor_config()
        &&& rs_data_shards(self.erasure_coder) == self.config.data_shreds_per_slice
        &&& rs_parity_shards(self.erasure_coder) == self.config.total_shreds_per_slice
            - self.config.data_shreds_per_slice
        &&& forall|k: u128| #[trigger]
            self.received_shreds@.contains_key(k) ==> self.received_shreds@[k]@.len()
                == self.config.total_shreds_per_slice
    }

    /// A receiver that has seen nothing, with the default parameters.
    pub fn new(validator_id: String) -> (r: ShredReceiver)
        ensures
            r.wf(),
            r.received() == Map::<(u64, u32), Seq<Option<ShredView>>>::empty(),
            r.validator_id() == validator_id@,
            r.config() == default_rotor_config(),
    {
        let config = RotorConfig::default();
        let parity = config.total_shreds_per_slice - config.data_shreds_per_slice;
        let erasure_coder = rs_new(config.data_shreds_per_slice, parity).unwrap();
        let r = ShredReceiver { erasure_coder, received_shreds: HashMap::new(), validator_id, config };
        assert(r.received() =~= Map::<(u64, u32), Seq<Option<ShredView>>>::empty());
        r
    }

    /// Takes a shred in: stores it in its slice's row; where that completes the
    /// last slice, rebuilds the block from the slices of its slot; otherwise
    /// hands the shred back to be passed on.
    pub fn handle_shred(&mut self, shred: Shred) -> (outcome: ShredOutcome)
        requires
            old(self).wf(),
        ensures
            final(self).wf(),
            final(self).config() == old(self).config(),
            final(self).validator_id() == old(self).validator_id(),
            final(self).received() == stored(old(self).received(), shred@, 64),
            outcome@ == shred_outcome(final(self).received(), shred@, 32, 64),
    {
        let key = slice_key_of(shred.slot, shred.slice_index);
        let ghost pair = (shred.slot, shred.slice_index);
        let ghost old_received = self.received();
        let total = self.config.total_shreds_per_slice;
        let d = self.config.data_shreds_per_slice;
        let mut row = match self.received_shreds.remove(&key) {
            Some(row) => row,
            None => empty_row(total),
        };
        proof {
            assert(opt_shreds_view(row@) =~= (if old_received.contains_key(pair) {
                old_received[pair]
            } else {
                Seq::new(64, |_i: int| None::<ShredView>)
            }));
        }
        let ghost row_before = opt_shreds_view(row@);
        let index = shred.shred_index as usize;
        let in_row = index < row.len();
        if in_row {
            row.set(index, Some(shred.clone()));
            assert(opt_shreds_view(row@) =~= row_before.update(index as int, Some(shred@)));
        }
        let ghost row_view = opt_shreds_view(row@);
        let count = count_present_in(&row);
        let completes = if in_row && count >= d {
            match self.reconstruct_slice(&row) {
                Some(slice) => slice.is_last_slice,
                None => false,
            }
        } else {
            false
        };
        self.received_shreds.insert(key, row);
        proof {
            assert forall|k: (u64, u32)| #![auto] true implies (slice_key(k.0, k.1) == key <==> k == pair) by {
                lemma_slice_key_injective(k, pair);
            }
            assert(self.received() =~= stored(old_received, shred@, 64));
        }
        if completes {
            self.try_reconstruct_block(shred.slot)
        } else {
            ShredOutcome::Relay(shred)
        }
    }

    /// Reads a slice from the first `data_shards` shards, all present: their
    /// bytes, one after the other, are decoded as a slice.
    pub fn slice_from_data_shards(shards: &Vec<Option<Vec<u8>>>, data_shards: usize) -> (r: Option<Slice>)
        requires
            data_shards <= shards@.len(),
            forall|j: int| 0 <= j < data_shards ==> (#[trigger] shards@[j]) is Some,
        ensures
            match r {
                Some(s) => decoded_slice(data_bytes(opt_shards_view(shards@), data_shards as nat)) == Some(s@),
                None => decoded_slice(data_bytes(opt_shards_view(shards@), data_shards as nat)) is None,
            },
    {
        let ghost parts = Seq::new(data_shards as nat, |j: int| opt_shards_view(shards@)[j]->0);
        let mut bytes: Vec<u8> = Vec::new();
        let mut k: usize = 0;
        while k < data_shards
            invariant
                data_shards <= shards@.len(),
                forall|j: int| 0 <= j < data_shards ==> (#[trigger] shards@[j]) is Some,
                parts == Seq::new(data_shards as nat, |j: int| opt_shards_view(shards@)[j]->0),
                k <= data_shards,
                bytes@ == parts.take(k as int).flatten(),
            decreases data_shards - k,
        {
            assert(shards@[k as int] is Some);
            let part_ref = shards[k].as_ref().unwrap();
            let mut part = slice_to_vec(part_ref.as_slice());
            assert(part@ == parts[k as int]);
            proof {
                parts.take(k as int).lemma_flatten_push(parts[k as int]);
                assert(parts.take(k + 1) =~= parts.take(k as int).push(parts[k as int]));
            }
            bytes.append(&mut part);
            k = k + 1;
        }
        assert(parts.take(data_shards as int) =~= parts);
        decode_slice(bytes.as_slice())
    }

    /// Rebuilds a slice from its places: the data shards are decoded from
    /// the shreds present with the Reed-Solomon coder, and their bytes, one
    /// after the other, are read as a slice.  Any data-shred count of the
    /// shreds a leader made of a slice rebuilds that slice.
    pub fn reconstruct_slice(&self, shreds: &Vec<Option<Shred>>) -> (r: Option<Slice>)
        requires
            self.wf(),
        ensures
            match r {
                Some(s) => rebuilt_slice(opt_shreds_view(shreds@), 32, 64) == Some(s@),
                None => rebuilt_slice(opt_shreds_view(shreds@), 32, 64) is None,
            },
            forall|s: SliceView|
                #![trigger carries_slice(opt_shreds_view(shreds@), s, 32, 64)]
                carries_slice(opt_shreds_view(shreds@), s, 32, 64) ==> (r matches Some(x) && x@ == s),
    {
        let ghost v = opt_shreds_view(shreds@);
        let ghost sd = shard_data(v);
        let mut shards: Vec<Option<Vec<u8>>> = Vec::new();
        let mut i: usize = 0;
        while i < shreds.len()
            invariant
                v == opt_shreds_view(shreds@),
                sd == shard_data(v),
                i <= shreds@.len(),
                opt_shards_view(shards@) == sd.take(i as int),
            decreases shreds@.len() - i,
        {
            let ghost prev = shards@;
            match &shreds[i] {
                Some(shred) => {
                    let copy = slice_to_vec(shred.data.as_slice());
                    assert(sd[i as int] == Some(copy@));
                    shards.push(Some(copy));
                },
                None => {
                    assert(sd[i as int] == None::<Seq<u8>>);
                    shards.push(None);
                },
            }
            assert(shards@ == prev.push(shards@.last()));
            assert(opt_shards_view(shards@) =~= opt_shards_view(prev).push(sd[i as int]));
            assert(opt_shards_view(shards@) =~= sd.take(i + 1));
            i = i + 1;
        }
        assert(sd.take(shreds@.len() as int) =~= sd);
        let ghost before = shards@;
        let d = self.config.data_shreds_per_slice;
        match rs_reconstruct_data(&self.erasure_coder, &mut shards) {
            Err(_) => None,
            Ok(()) => {
                let ghost decoded = Seq::new(32, |k: int| reed_solomon_data(sd, 32)[k]);
                assert(shards@.len() == 64);
                assert forall|j: int| 0 <= j < d implies (#[trigger] shards@[j]) is Some by {}
                let r = Self::slice_from_data_shards(&shards, d);
                assert(data_bytes(opt_shards_view(shards@), 32) == decoded.flatten()) by {
                    assert(Seq::new(32, |j: int| opt_shards_view(shards@)[j]->0) =~= decoded);
                }
                proof {
                    assert forall|s: SliceView| #[trigger] carries_slice(v, s, 32, 64) implies decoded_slice(
                        decoded.flatten(),
                    ) == Some(s) by {
                        let data = data_shards_of(encode_slice_view(s), 32);
                        assert(opt_shards_view(before) == sd);
                        assert(agrees_with(opt_shards_view(before), data + reed_solomon_parity(data, 32)));
                        let enc = encode_slice_view(s);
                        lemma_padding(enc.len(), 32);
                        let size = chunk_count(enc.len(), 32);
                        assert forall|i: int| 0 <= i < 32 implies #[trigger] data[i].len() == size by {
                            lemma_row_bounds(i as nat, size, 32);
                        }
                        assert forall|i: int, j: int| 0 <= i < data.len() && 0 <= j < data.len() implies #[trigger] data[i].len()
                            == #[trigger] data[j].len() by {
                            assert(data[i].len() == size);
                            assert(data[j].len() == size);
                        }
                        assert(decoded =~= data) by {
                            assert forall|i: int| 0 <= i < 32 implies decoded[i] == data[i] by {
                                assert(shards@[i]->0@ == data[i]);
                            }
                        }
                        lemma_data_shards_read_back(s, 32);
                    }
                }
                r
            },
        }
    }

    /// Rebuilds the block of `slot` from its slices, slice 0 onwards up to
    /// the one marked last.
    fn try_reconstruct_block(&self, slot: u64) -> (outcome: ShredOutcome)
        requires
            self.wf(),
        ensures
            outcome@ == block_outcome(self.received(), slot, 32, 64),
    {
        let ghost received = self.received();
        let ghost d = 32nat;
        let mut bytes: Vec<u8> = Vec::new();
        let mut index: u32 = 0;
        loop
            invariant_except_break
                slot_bytes(received, slot, d, 64, 0) == (match slot_bytes(received, slot, d, 64, index) {
                    Some(rest) => Some(bytes@ + rest),
                    None => None::<Seq<u8>>,
                }),
            invariant
                received == self.received(),
                d == 32,
                self.wf(),
            ensures
                slot_bytes(received, slot, d, 64, 0) == Some(bytes@),
            decreases u32::MAX - index,
        {
            let key = slice_key_of(slot, index);
            assert(received.contains_key((slot, index)) == self.received_shreds@.contains_key(key));
            match self.received_shreds.get(&key) {
                None => {
                    return ShredOutcome::Incomplete;
                },
                Some(row) => {
                    match self.reconstruct_slice(row) {
                        None => {
                            return ShredOutcome::Incomplete;
                        },
                        Some(slice) => {
                            let ghost before = bytes@;
                            let mut part = slice.data;
                            bytes.append(&mut part);
                            if slice.is_last_slice {
                                assert(slot_bytes(received, slot, d, 64, index) == Some(slice@.data));
                                break;
                            }
                            if index == u32::MAX {
                                return ShredOutcome::Incomplete;
                            }
                            proof {
                                match slot_bytes(received, slot, d, 64, (index + 1) as u32) {
                                    Some(rest) => {
                                        assert(before + (slice@.data + rest) =~= bytes@ + rest);
                                    },
                                    None => {},
                                }
                            }
                            index = index + 1;
                        },
                    }
                },
            }
        }
        match decode_block(bytes.as_slice()) {
            Some(block) => ShredOutcome::Block(block),
            None => ShredOutcome::Undecodable,
        }
    }
}

/// A row of `n` empty places.
fn empty_row(n: usize) -> (row: Vec<Option<Shred>>)
    ensures
        opt_shreds_view(row@) == Seq::new(n as nat, |_i: int| None::<ShredView>),
        row@.len() == n,
{
    let mut row: Vec<Option<Shred>> = Vec::new();
    let mut i: usize = 0;
    while i < n
        invariant
            i <= n,
            row@.len() == i,
            forall|j: int| 0 <= j < i ==> #[trigger] row@[j] is None,
        decreases n - i,
    {
        row.push(None);
        i = i + 1;
    }
    assert(opt_shreds_view(row@) =~= Seq::new(n as nat, |_i: int| None::<ShredView>));
    row
}

/// How many places of the row hold a shred.
fn count_present_in(row: &Vec<Option<Shred>>) -> (count: usize)
    ensures
        count == count_present(opt_shreds_view(row@)),
{
    let ghost v = opt_shreds_view(row@);
    let mut count: usize = 0;
    let mut i: usize = 0;
    while i < row.len()
        invariant
            v == opt_shreds_view(row@),
            i <= row@.len(),
            count == count_present(v.take(i as int)),
            count <= i,
        decreases row@.len() - i,
    {
        assert(v.take(i as int + 1).drop_last() =~= v.take(i as int));
        if row[i].is_some() {
            count = count + 1;
        }
        i = i + 1;
    }
    assert(v.take(row@.len() as int) =~= v);
    count
}


/// The data of the slices, one after the other.
pub open spec fn slices_data(ss: Seq<SliceView>) -> Seq<u8> {
    ss.map_values(|s: SliceView| s.data).flatten()
}

proof fn lemma_chunks_prefix(bytes: Seq<u8>, size: nat, k: nat)
    requires
        size > 0,
        k <= chunk_count(bytes.len(), size),
    ensures
        Seq::new(k, |i: int| chunk(bytes, size, i)).flatten() == bytes.take(
            if k * size < bytes.len() {
                (k * size) as int
            } else {
                bytes.len() as int
            },
        ),
    decreases k,
{
    let cur = Seq::new(k, |i: int| chunk(bytes, size, i));
    if k == 0 {
        assert(cur.flatten() =~= bytes.take(0));
    } else {
        let j = (k - 1) as nat;
        lemma_chunks_prefix(bytes, size, j);
        lemma_chunk_bounds(bytes.len(), size, j);
        let prev = Seq::new(j, |i: int| chunk(bytes, size, i));
        assert(cur =~= prev.push(chunk(bytes, size, j as int)));
        prev.lemma_flatten_push(chunk(bytes, size, j as int));
        assert(j * size + size == k * size) by (nonlinear_arith)
            requires
                j + 1 == k,
        ;
        assert(cur.flatten() =~= bytes.take(
            if k * size < bytes.len() {
                (k * size) as int
            } else {
                bytes.len() as int
            },
        ));
    }
}

/// Cutting a block into slices loses nothing: their data, one after the
/// other, is the block's encoding, and only the final slice is marked last.
pub proof fn law_slices_cover_block(b: BlockView, size: nat)
    requires
        size > 0,
    ensures
        slices_data(block_slices(b, size)) == encode_block(b),
        forall|i: int|
            0 <= i < block_slices(b, size).len() ==> (#[trigger] block_slices(b, size)[i]).is_last_slice == (i
                == block_slices(b, size).len() - 1),
{
    let bytes = encode_block(b);
    let n = chunk_count(bytes.len(), size);
    lemma_chunks_prefix(bytes, size, n);
    assert(n * size >= bytes.len()) by (nonlinear_arith)
        requires
            size > 0,
            n == (if bytes.len() % size == 0 {
                bytes.len() / size
            } else {
                bytes.len() / size + 1
            }),
    {
        assert(bytes.len() == size * (bytes.len() / size) + bytes.len() % size);
    }
    assert(block_slices(b, size).map_values(|s: SliceView| s.data) =~= Seq::new(n, |i: int| chunk(bytes, size, i)));
    assert(bytes.take(bytes.len() as int) =~= bytes);
}

proof fn lemma_rows_prefix(p: Seq<u8>, size: nat, k: nat)
    requires
        p.len() >= k * size,
    ensures
        Seq::new(k, |i: int| row(p, size, i)).flatten() == p.take((k * size) as int),
    decreases k,
{
    let cur = Seq::new(k, |i: int| row(p, size, i));
    if k == 0 {
        assert(cur.flatten() =~= p.take(0));
        assert(k * size == 0) by (nonlinear_arith)
            requires
                k == 0,
        ;
    } else {
        let j = (k - 1) as nat;
        assert(j * size + size == k * size) by (nonlinear_arith)
            requires
                j + 1 == k,
        ;
        lemma_rows_prefix(p, size, j);
        let prev = Seq::new(j, |i: int| row(p, size, i));
        let last = row(p, size, j as int);
        assert(cur =~= prev.push(last));
        prev.lemma_flatten_push(last);
        assert(cur.flatten() =~= p.take((k * size) as int));
    }
}

/// The data shards of some bytes, one after the other, are the bytes
/// followed by their zero padding.
pub proof fn law_data_shards_cover_bytes(bytes: Seq<u8>, d: nat)
    requires
        d > 0,
    ensures
        data_shards_of(bytes, d).flatten() == padded(bytes, d),
        data_shards_of(bytes, d).len() == d,
{
    lemma_padding(bytes.len(), d);
    let size = chunk_count(bytes.len(), d);
    let p = padded(bytes, d);
    assert(p.len() == size * d);
    assert(d * size == size * d) by (nonlinear_arith);
    lemma_rows_prefix(p, size, d);
    assert(p.take((d * size) as int) =~= p);
}

/// Whether the places hold, wherever a shard is present, the shards that a
/// leader makes of slice `s` with `d` data shards out of `total`, and enough
/// of them to rebuild it.
pub open spec fn carries_slice(v: Seq<Option<ShredView>>, s: SliceView, d: nat, total: nat) -> bool {
    let data = data_shards_of(encode_slice_view(s), d);
    &&& slice_view_ok(s)
    &&& encode_slice_view(s).len() + d <= u64::MAX
    &&& 0 < d <= total
    &&& rs_can_rebuild(shard_data(v), d, total)
    &&& agrees_with(shard_data(v), data + reed_solomon_parity(data, (total - d) as nat))
}

/// The data shards of a slice, one after the other, read back as the slice.
proof fn lemma_data_shards_read_back(s: SliceView, d: nat)
    requires
        slice_view_ok(s),
        encode_slice_view(s).len() + d <= u64::MAX,
        d > 0,
    ensures
        decoded_slice(data_shards_of(encode_slice_view(s), d).flatten()) == Some(s),
{
    let enc = encode_slice_view(s);
    law_data_shards_cover_bytes(enc, d);
    lemma_padding(enc.len(), d);
    let zeros = Seq::new((chunk_count(enc.len(), d) * d - enc.len()) as nat, |_k: int| 0u8);
    lemma_slice_round_trip(s, zeros);
}

/// The bytes of the slices of `slot` from `i` on, where each of them is rebuilt.
proof fn lemma_slot_bytes_from(
    received: Map<(u64, u32), Seq<Option<ShredView>>>,
    slot: u64,
    d: nat,
    total: nat,
    slices: Seq<SliceView>,
    i: nat,
)
    requires
        i < slices.len() <= 0x1_0000_0000,
        forall|j: int|
            i <= j < slices.len() ==> received.contains_key((slot, j as u32)) && #[trigger] rebuilt_slice(
                received[(slot, j as u32)],
                d,
                total,
            ) == Some(slices[j]),
        forall|j: int| 0 <= j < slices.len() ==> (#[trigger] slices[j]).is_last_slice == (j == slices.len() - 1),
    ensures
        slot_bytes(received, slot, d, total, i as u32) == Some(slices_data(slices.skip(i as int))),
    decreases slices.len() - i,
{
    let rest = slices.skip(i as int);
    assert(rebuilt_slice(received[(slot, i as u32)], d, total) == Some(slices[i as int]));
    assert(rest[0] == slices[i as int]);
    let datas = rest.map_values(|s: SliceView| s.data);
    assert(datas.drop_first() =~= slices.skip((i + 1) as int).map_values(|s: SliceView| s.data));
    if i + 1 == slices.len() {
        assert(datas.len() == 1);
        datas.lemma_flatten_one_element();
        assert(datas[0] == slices[i as int].data);
    } else {
        lemma_slot_bytes_from(received, slot, d, total, slices, i + 1);
        assert(((i as u32) + 1) as u32 == (i + 1) as u32);
        assert(datas.flatten() == datas[0] + datas.drop_first().flatten());
    }
}

/// A block gets through: where every slice of the block is rebuilt from
/// its row (as [`ShredReceiver::reconstruct_slice`] rebuilds any slice from
/// any data-shred count of the shreds the leader made of it), the block is
/// rebuilt as it was.
pub proof fn law_block_rebuilt_from_its_slices(
    b: BlockView,
    size: nat,
    d: nat,
    total: nat,
    received: Map<(u64, u32), Seq<Option<ShredView>>>,
)
    requires
        block_view_ok(b),
        size > 0,
        encode_block(b).len() <= u64::MAX,
        block_slices(b, size).len() <= 0x1_0000_0000,
        forall|i: int|
            0 <= i < block_slices(b, size).len() ==> {
                &&& received.contains_key((b.slot, i as u32))
                &&& #[trigger] rebuilt_slice(received[(b.slot, i as u32)], d, total) == Some(
                    block_slices(b, size)[i],
                )
            },
    ensures
        block_outcome(received, b.slot, d, total) == ShredOutcomeView::Block(b),
{
    let slices = block_slices(b, size);
    law_slices_cover_block(b, size);
    lemma_auto_spec_u64_to_from_le_bytes();
    assert(encode_block(b).len() >= 8);
    lemma_padding(encode_block(b).len(), size);
    lemma_slot_bytes_from(received, b.slot, d, total, slices, 0);
    assert(slices.skip(0) =~= slices);
    lemma_block_round_trip(b, Seq::empty());
    assert(encode_block(b) + Seq::<u8>::empty() =~= encode_block(b));
}

} // verus!
