//! The wire encoding of blocks and slices: little-endian fixed-width integers,
//! byte strings and text prefixed by their length as a `u64`, fixed arrays
//! written as they are, fields in declaration order.  It is the encoding that
//! `bincode::serialize` produces for these types with its default options.

use vstd::prelude::*;

use vstd::bytes::{
    lemma_auto_spec_u32_to_from_le_bytes, lemma_auto_spec_u64_to_from_le_bytes, spec_u32_to_le_bytes,
    spec_u64_to_le_bytes,
};
use vstd::utf8::{encode_utf8, encode_utf8_decode_utf8};

use crate::types::messages::{Block, BlockView, Slice, SliceView, TransactionView};

verus! {

/// A byte string with its length in front.
pub open spec fn encode_bytes(b: Seq<u8>) -> Seq<u8> {
    spec_u64_to_le_bytes(b.len() as u64) + b
}

/// Text as its UTF-8 bytes with their length in front.
pub open spec fn encode_str(s: Seq<char>) -> Seq<u8> {
    encode_bytes(encode_utf8(s))
}

/// A boolean as one byte.
pub open spec fn encode_bool(b: bool) -> Seq<u8> {
    if b {
        seq![1u8]
    } else {
        seq![0u8]
    }
}

/// One transaction: its data, then its sender.
pub open spec fn encode_transaction(t: TransactionView) -> Seq<u8> {
    encode_bytes(t.data) + encode_str(t.from)
}

/// The transactions one after the other, without their count.
pub open spec fn encode_transaction_items(ts: Seq<TransactionView>) -> Seq<u8>
    decreases ts.len(),
{
    if ts.len() == 0 {
        Seq::empty()
    } else {
        encode_transaction_items(ts.drop_last()) + encode_transaction(ts.last())
    }
}

/// A block: slot, parent hash, transactions with their count in front, leader, timestamp.
pub open spec fn encode_block(b: BlockView) -> Seq<u8> {
    spec_u64_to_le_bytes(b.slot) + b.parent_hash + spec_u64_to_le_bytes(
        b.transactions.len() as u64,
    ) + encode_transaction_items(b.transactions) + encode_str(b.leader_id)
        + spec_u64_to_le_bytes(b.timestamp)
}

/// A slice: slot, slice index, last-slice flag, data, Merkle root.
pub open spec fn encode_slice(
    slot: u64,
    slice_index: u32,
    is_last_slice: bool,
    data: Seq<u8>,
    merkle_root: Seq<u8>,
) -> Seq<u8> {
    spec_u64_to_le_bytes(slot) + spec_u32_to_le_bytes(slice_index) + encode_bool(is_last_slice)
        + encode_bytes(data) + merkle_root
}

/// Serializes a block with `bincode::serialize`, the block given as the tuple of
/// its fields (which `bincode` encodes as it encodes the struct).
/// Claimed: the bytes are [`encode_block`] of the block.
#[verifier::external_body]
pub(crate) fn bincode_encode_block(block: &Block) -> (bytes: Vec<u8>)
    ensures
        bytes@ == encode_block(block@),
{
    let txs: Vec<(&Vec<u8>, &String)> = block.transactions.iter().map(|t| (&t.data, &t.from)).collect();
    let fields = (block.slot, &block.parent_hash, txs, &block.leader_id, block.timestamp);
    bincode::serialize(&fields).unwrap_or_default()
}

/// The encoding of a slice's view.
pub open spec fn encode_slice_view(s: SliceView) -> Seq<u8> {
    encode_slice(s.slot, s.slice_index, s.is_last_slice, s.data, s.merkle_root)
}

/// Whether `a` is a prefix of `b`.
pub open spec fn is_prefix(a: Seq<u8>, b: Seq<u8>) -> bool {
    a.len() <= b.len() && b.take(a.len() as int) == a
}

/// Serializes a slice with `bincode::serialize`, the slice given as the tuple
/// of its fields.  Claimed: the bytes are [`encode_slice`] of the slice.
#[verifier::external_body]
pub(crate) fn bincode_encode_slice(slice: &Slice) -> (bytes: Vec<u8>)
    ensures
        bytes@ == encode_slice_view(slice@),
{
    let fields = (slice.slot, slice.slice_index, slice.is_last_slice, &slice.data, &slice.merkle_root);
    bincode::serialize(&fields).unwrap_or_default()
}

/// Deserializes a slice with `bincode::deserialize` (as the tuple of its
/// fields; bytes after the slice are ignored).  Claimed: a slice comes back
/// exactly where the bytes begin with the encoding of one, and its encoding
/// is what they begin with.
#[verifier::external_body]
pub(crate) fn bincode_decode_slice(bytes: &[u8]) -> (r: Option<Slice>)
    ensures
        r matches Some(s) ==> is_prefix(encode_slice_view(s@), bytes@),
        forall|s: SliceView|
            s.merkle_root.len() == 32 && #[trigger] is_prefix(encode_slice_view(s), bytes@) ==> r is Some,
{
    match bincode::deserialize::<(u64, u32, bool, Vec<u8>, [u8; 32])>(bytes) {
        Ok((slot, slice_index, is_last_slice, data, merkle_root)) => Some(
            Slice { slot, slice_index, is_last_slice, data, merkle_root },
        ),
        Err(_) => None,
    }
}

/// Deserializes a block with `bincode::deserialize` (as the tuple of its
/// fields; bytes after the block are ignored).  Claimed: a block comes back
/// exactly where the bytes begin with the encoding of one, and its encoding
/// is what they begin with.
#[verifier::external_body]
pub(crate) fn bincode_decode_block(bytes: &[u8]) -> (r: Option<Block>)
    ensures
        r matches Some(b) ==> is_prefix(encode_block(b@), bytes@),
        forall|b: BlockView|
            b.parent_hash.len() == 32 && #[trigger] is_prefix(encode_block(b), bytes@) ==> r is Some,
{
    match bincode::deserialize::<(u64, [u8; 32], Vec<(Vec<u8>, String)>, String, u64)>(bytes) {
        Ok((slot, parent_hash, txs, leader_id, timestamp)) => {
            let transactions = txs.into_iter().map(|(data, from)| crate::types::messages::Transaction { data, from }).collect();
            Some(Block { slot, parent_hash, transactions, leader_id, timestamp })
        },
        Err(_) => None,
    }
}

/// Two byte strings that start alike, up to the length of their first parts,
/// have equal first parts and equal rests.
proof fn lemma_split_equal(x: Seq<u8>, y: Seq<u8>, r1: Seq<u8>, r2: Seq<u8>)
    requires
        x.len() == y.len(),
        x + r1 == y + r2,
    ensures
        x == y,
        r1 == r2,
{
    assert(x =~= (x + r1).take(x.len() as int));
    assert(y =~= (y + r2).take(x.len() as int));
    assert(r1 =~= (x + r1).skip(x.len() as int));
    assert(r2 =~= (y + r2).skip(y.len() as int));
}

proof fn lemma_u64_unique(a: u64, b: u64, r1: Seq<u8>, r2: Seq<u8>)
    requires
        spec_u64_to_le_bytes(a) + r1 == spec_u64_to_le_bytes(b) + r2,
    ensures
        a == b,
        r1 == r2,
{
    lemma_auto_spec_u64_to_from_le_bytes();
    lemma_split_equal(spec_u64_to_le_bytes(a), spec_u64_to_le_bytes(b), r1, r2);
}

proof fn lemma_u32_unique(a: u32, b: u32, r1: Seq<u8>, r2: Seq<u8>)
    requires
        spec_u32_to_le_bytes(a) + r1 == spec_u32_to_le_bytes(b) + r2,
    ensures
        a == b,
        r1 == r2,
{
    lemma_auto_spec_u32_to_from_le_bytes();
    lemma_split_equal(spec_u32_to_le_bytes(a), spec_u32_to_le_bytes(b), r1, r2);
}

proof fn lemma_bool_unique(a: bool, b: bool, r1: Seq<u8>, r2: Seq<u8>)
    requires
        encode_bool(a) + r1 == encode_bool(b) + r2,
    ensures
        a == b,
        r1 == r2,
{
    lemma_split_equal(encode_bool(a), encode_bool(b), r1, r2);
    assert(encode_bool(a)[0] == encode_bool(b)[0]);
}

proof fn lemma_bytes_unique(x: Seq<u8>, y: Seq<u8>, r1: Seq<u8>, r2: Seq<u8>)
    requires
        encode_bytes(x) + r1 == encode_bytes(y) + r2,
        (encode_bytes(x) + r1).len() <= u64::MAX,
    ensures
        x == y,
        r1 == r2,
{
    lemma_auto_spec_u64_to_from_le_bytes();
    assert(encode_bytes(x) + r1 =~= spec_u64_to_le_bytes(x.len() as u64) + (x + r1));
    assert(encode_bytes(y) + r2 =~= spec_u64_to_le_bytes(y.len() as u64) + (y + r2));
    lemma_u64_unique(x.len() as u64, y.len() as u64, x + r1, y + r2);
    lemma_split_equal(x, y, r1, r2);
}

proof fn lemma_str_unique(s: Seq<char>, t: Seq<char>, r1: Seq<u8>, r2: Seq<u8>)
    requires
        encode_str(s) + r1 == encode_str(t) + r2,
        (encode_str(s) + r1).len() <= u64::MAX,
    ensures
        s == t,
        r1 == r2,
{
    lemma_bytes_unique(encode_utf8(s), encode_utf8(t), r1, r2);
    encode_utf8_decode_utf8(s);
    encode_utf8_decode_utf8(t);
}

/// The transactions' encoding, read from the front.
proof fn lemma_items_front(ts: Seq<TransactionView>)
    requires
        ts.len() > 0,
    ensures
        encode_transaction_items(ts) == encode_transaction(ts[0]) + encode_transaction_items(ts.drop_first()),
    decreases ts.len(),
{
    if ts.len() == 1 {
        assert(ts.drop_last().len() == 0);
        assert(ts.drop_first().len() == 0);
        assert(encode_transaction_items(ts.drop_last()) == Seq::<u8>::empty());
        assert(encode_transaction_items(ts.drop_first()) == Seq::<u8>::empty());
        assert(ts.last() == ts[0]);
        assert(encode_transaction_items(ts) =~= encode_transaction(ts[0]) + encode_transaction_items(
            ts.drop_first(),
        ));
    } else {
        lemma_items_front(ts.drop_last());
        assert(ts.drop_last().drop_first() =~= ts.drop_first().drop_last());
        assert(ts.drop_last()[0] == ts[0]);
        assert(ts.drop_first().last() == ts.last());
        assert(encode_transaction_items(ts) =~= encode_transaction(ts[0]) + encode_transaction_items(
            ts.drop_first(),
        ));
    }
}

proof fn lemma_items_unique(ts1: Seq<TransactionView>, ts2: Seq<TransactionView>, r1: Seq<u8>, r2: Seq<u8>)
    requires
        ts1.len() == ts2.len(),
        encode_transaction_items(ts1) + r1 == encode_transaction_items(ts2) + r2,
        (encode_transaction_items(ts1) + r1).len() <= u64::MAX,
    ensures
        ts1 == ts2,
        r1 == r2,
    decreases ts1.len(),
{
    if ts1.len() == 0 {
        assert(encode_transaction_items(ts1) + r1 =~= r1);
        assert(encode_transaction_items(ts2) + r2 =~= r2);
        assert(ts1 =~= ts2);
    } else {
        lemma_items_front(ts1);
        lemma_items_front(ts2);
        let (a, b) = (ts1[0], ts2[0]);
        let (rest1, rest2) = (ts1.drop_first(), ts2.drop_first());
        let tail1 = encode_transaction_items(rest1) + r1;
        let tail2 = encode_transaction_items(rest2) + r2;
        assert(encode_transaction_items(ts1) + r1 =~= encode_bytes(a.data) + (encode_str(a.from) + tail1));
        assert(encode_transaction_items(ts2) + r2 =~= encode_bytes(b.data) + (encode_str(b.from) + tail2));
        lemma_bytes_unique(a.data, b.data, encode_str(a.from) + tail1, encode_str(b.from) + tail2);
        lemma_str_unique(a.from, b.from, tail1, tail2);
        lemma_items_unique(rest1, rest2, r1, r2);
        assert(ts1 =~= ts2) by {
            assert forall|i: int| 0 <= i < ts1.len() implies ts1[i] == ts2[i] by {
                if i > 0 {
                    assert(ts1[i] == rest1[i - 1]);
                    assert(ts2[i] == rest2[i - 1]);
                }
            }
        }
    }
}

/// Whether a block could come out of decoding: a 32-byte parent hash and a
/// transaction count that fits in the count field.
pub open spec fn block_view_ok(b: BlockView) -> bool {
    b.parent_hash.len() == 32 && b.transactions.len() <= u64::MAX
}

/// Whether a slice could come out of decoding: a 32-byte root.
pub open spec fn slice_view_ok(s: SliceView) -> bool {
    s.merkle_root.len() == 32
}

/// A block's encoding is never a prefix of another block's encoding
/// followed by more bytes: bytes of at most `u64::MAX` bytes begin with the
/// encoding of at most one block.
pub proof fn lemma_block_prefix_unique(a: BlockView, b: BlockView, bytes: Seq<u8>)
    requires
        block_view_ok(a),
        block_view_ok(b),
        is_prefix(encode_block(a), bytes),
        is_prefix(encode_block(b), bytes),
        bytes.len() <= u64::MAX,
    ensures
        a == b,
{
    let r1 = bytes.skip(encode_block(a).len() as int);
    let r2 = bytes.skip(encode_block(b).len() as int);
    assert(bytes =~= encode_block(a) + r1);
    assert(bytes =~= encode_block(b) + r2);
    lemma_block_layout(a, r1);
    lemma_block_layout(b, r2);
    lemma_block_fields_unique(a, b, r1, r2);
}

/// A block's encoding followed by more bytes, field by field from the front.
proof fn lemma_block_layout(b: BlockView, r: Seq<u8>)
    ensures
        encode_block(b) + r == spec_u64_to_le_bytes(b.slot) + (b.parent_hash + (spec_u64_to_le_bytes(
            b.transactions.len() as u64,
        ) + (encode_transaction_items(b.transactions) + (encode_str(b.leader_id) + (spec_u64_to_le_bytes(
            b.timestamp,
        ) + r))))),
{
    assert(encode_block(b) + r =~= spec_u64_to_le_bytes(b.slot) + (b.parent_hash + (spec_u64_to_le_bytes(
        b.transactions.len() as u64,
    ) + (encode_transaction_items(b.transactions) + (encode_str(b.leader_id) + (spec_u64_to_le_bytes(
        b.timestamp,
    ) + r))))));
}

proof fn lemma_block_fields_unique(a: BlockView, b: BlockView, r1: Seq<u8>, r2: Seq<u8>)
    requires
        block_view_ok(a),
        block_view_ok(b),
        encode_block(a) + r1 == encode_block(b) + r2,
        (encode_block(a) + r1).len() <= u64::MAX,
        encode_block(a) + r1 == spec_u64_to_le_bytes(a.slot) + (a.parent_hash + (spec_u64_to_le_bytes(
            a.transactions.len() as u64,
        ) + (encode_transaction_items(a.transactions) + (encode_str(a.leader_id) + (spec_u64_to_le_bytes(
            a.timestamp,
        ) + r1))))),
        encode_block(b) + r2 == spec_u64_to_le_bytes(b.slot) + (b.parent_hash + (spec_u64_to_le_bytes(
            b.transactions.len() as u64,
        ) + (encode_transaction_items(b.transactions) + (encode_str(b.leader_id) + (spec_u64_to_le_bytes(
            b.timestamp,
        ) + r2))))),
    ensures
        a == b,
{
    lemma_auto_spec_u64_to_from_le_bytes();
    let t1 = encode_str(a.leader_id) + (spec_u64_to_le_bytes(a.timestamp) + r1);
    let t2 = encode_str(b.leader_id) + (spec_u64_to_le_bytes(b.timestamp) + r2);
    let i1 = encode_transaction_items(a.transactions) + t1;
    let i2 = encode_transaction_items(b.transactions) + t2;
    let c1 = spec_u64_to_le_bytes(a.transactions.len() as u64) + i1;
    let c2 = spec_u64_to_le_bytes(b.transactions.len() as u64) + i2;
    lemma_u64_unique(a.slot, b.slot, a.parent_hash + c1, b.parent_hash + c2);
    lemma_split_equal(a.parent_hash, b.parent_hash, c1, c2);
    lemma_u64_unique(a.transactions.len() as u64, b.transactions.len() as u64, i1, i2);
    assert(i1.len() <= u64::MAX);
    lemma_items_unique(a.transactions, b.transactions, t1, t2);
    lemma_str_unique(a.leader_id, b.leader_id, spec_u64_to_le_bytes(a.timestamp) + r1, spec_u64_to_le_bytes(b.timestamp) + r2);
    lemma_u64_unique(a.timestamp, b.timestamp, r1, r2);
}

/// Bytes of at most `u64::MAX` bytes begin with the encoding of at most one slice.
pub proof fn lemma_slice_prefix_unique(a: SliceView, b: SliceView, bytes: Seq<u8>)
    requires
        slice_view_ok(a),
        slice_view_ok(b),
        is_prefix(encode_slice_view(a), bytes),
        is_prefix(encode_slice_view(b), bytes),
        bytes.len() <= u64::MAX,
    ensures
        a == b,
{
    lemma_auto_spec_u64_to_from_le_bytes();
    lemma_auto_spec_u32_to_from_le_bytes();
    let r1 = bytes.skip(encode_slice_view(a).len() as int);
    let r2 = bytes.skip(encode_slice_view(b).len() as int);
    assert(bytes =~= encode_slice_view(a) + r1);
    assert(bytes =~= encode_slice_view(b) + r2);
    let d1 = encode_bytes(a.data) + (a.merkle_root + r1);
    let d2 = encode_bytes(b.data) + (b.merkle_root + r2);
    assert(bytes =~= spec_u64_to_le_bytes(a.slot) + (spec_u32_to_le_bytes(a.slice_index) + (encode_bool(a.is_last_slice) + d1)));
    assert(bytes =~= spec_u64_to_le_bytes(b.slot) + (spec_u32_to_le_bytes(b.slice_index) + (encode_bool(b.is_last_slice) + d2)));
    lemma_u64_unique(a.slot, b.slot, spec_u32_to_le_bytes(a.slice_index) + (encode_bool(a.is_last_slice) + d1),
        spec_u32_to_le_bytes(b.slice_index) + (encode_bool(b.is_last_slice) + d2));
    lemma_u32_unique(a.slice_index, b.slice_index, encode_bool(a.is_last_slice) + d1, encode_bool(b.is_last_slice) + d2);
    lemma_bool_unique(a.is_last_slice, b.is_last_slice, d1, d2);
    lemma_bytes_unique(a.data, b.data, a.merkle_root + r1, b.merkle_root + r2);
    lemma_split_equal(a.merkle_root, b.merkle_root, r1, r2);
}

/// The slice whose encoding `bytes` begin with, if there is one.
pub open spec fn decoded_slice(bytes: Seq<u8>) -> Option<SliceView> {
    if exists|s: SliceView| slice_view_ok(s) && #[trigger] is_prefix(encode_slice_view(s), bytes) {
        Some(choose|s: SliceView| slice_view_ok(s) && #[trigger] is_prefix(encode_slice_view(s), bytes))
    } else {
        None
    }
}

/// The block whose encoding `bytes` begin with, if there is one.
pub open spec fn decoded_block(bytes: Seq<u8>) -> Option<BlockView> {
    if exists|b: BlockView| block_view_ok(b) && #[trigger] is_prefix(encode_block(b), bytes) {
        Some(choose|b: BlockView| block_view_ok(b) && #[trigger] is_prefix(encode_block(b), bytes))
    } else {
        None
    }
}

/// Reads the slice that the bytes begin with; bytes after it are ignored.
pub(crate) fn decode_slice(bytes: &[u8]) -> (r: Option<Slice>)
    ensures
        match r {
            Some(s) => decoded_slice(bytes@) == Some(s@),
            None => decoded_slice(bytes@) is None,
        },
{
    let len = bytes.len();
    match bincode_decode_slice(bytes) {
        Some(s) => {
            proof {
                assert(slice_view_ok(s@));
                let c = choose|c: SliceView| slice_view_ok(c) && #[trigger] is_prefix(encode_slice_view(c), bytes@);
                lemma_slice_prefix_unique(c, s@, bytes@);
            }
            Some(s)
        },
        None => None,
    }
}

/// Reads the block that the bytes begin with; bytes after it are ignored.
pub(crate) fn decode_block(bytes: &[u8]) -> (r: Option<Block>)
    ensures
        match r {
            Some(b) => decoded_block(bytes@) == Some(b@),
            None => decoded_block(bytes@) is None,
        },
{
    let len = bytes.len();
    let r = bincode_decode_block(bytes);
    match r {
        Some(b) => {
            let count = b.transactions.len();
            proof {
                assert(block_view_ok(b@));
                let c = choose|c: BlockView| block_view_ok(c) && #[trigger] is_prefix(encode_block(c), bytes@);
                lemma_block_prefix_unique(c, b@, bytes@);
            }
            Some(b)
        },
        None => None,
    }
}

/// A block's encoding, followed by anything, reads back as the block.
pub proof fn lemma_block_round_trip(b: BlockView, rest: Seq<u8>)
    requires
        block_view_ok(b),
        (encode_block(b) + rest).len() <= u64::MAX,
    ensures
        decoded_block(encode_block(b) + rest) == Some(b),
{
    let bytes = encode_block(b) + rest;
    assert(bytes.take(encode_block(b).len() as int) =~= encode_block(b));
    assert(is_prefix(encode_block(b), bytes));
    let c = choose|c: BlockView| block_view_ok(c) && #[trigger] is_prefix(encode_block(c), bytes);
    lemma_block_prefix_unique(c, b, bytes);
}

/// A slice's encoding, followed by anything, reads back as the slice.
pub proof fn lemma_slice_round_trip(s: SliceView, rest: Seq<u8>)
    requires
        slice_view_ok(s),
        (encode_slice_view(s) + rest).len() <= u64::MAX,
    ensures
        decoded_slice(encode_slice_view(s) + rest) == Some(s),
{
    let bytes = encode_slice_view(s) + rest;
    assert(bytes.take(encode_slice_view(s).len() as int) =~= encode_slice_view(s));
    assert(is_prefix(encode_slice_view(s), bytes));
    let c = choose|c: SliceView| slice_view_ok(c) && #[trigger] is_prefix(encode_slice_view(c), bytes);
    lemma_slice_prefix_unique(c, s, bytes);
}

} // verus!
