//! SHA-256 hashing and BLS keys and signatures, all held as bytes.

use vstd::prelude::*;

use bls_signatures::Serialize as BlsSerialize;
use sha2::Digest;
use vstd::utf8::encode_utf8;

verus! {

/// The SHA-256 digest of `data`, as `sha2::Sha256` computes it.
pub uninterp spec fn sha256_digest(data: Seq<u8>) -> Seq<u8>;

/// Calls `sha2::Sha256::digest`.  Claimed: the 32 bytes are [`sha256_digest`] of `data`.
#[verifier::external_body]
pub(crate) fn sha256(data: &[u8]) -> (digest: [u8; 32])
    ensures
        digest@ == sha256_digest(data@),
{
    sha2::Sha256::digest(data).into()
}

/// The SHA-256 digest of `data`.
pub fn hash_data(data: &[u8]) -> (h: [u8; 32])
    ensures
        h@ == sha256_digest(data@),
{
    sha256(data)
}

} // verus!

verus! {

/// The integer whose little-endian bytes are `b`.
pub open spec fn le_value(b: Seq<u8>) -> int
    decreases b.len(),
{
    if b.len() == 0 {
        0
    } else {
        b[0] as int + 256 * le_value(b.drop_first())
    }
}

/// The order of the BLS12-381 scalar field.
pub open spec fn bls_scalar_modulus() -> int {
    0x73eda753299d7d483339d80809a1d80553bda402fffe5bfeffffffff00000001int
}

/// Whether `raw` is a BLS private key in its 32-byte form: a little-endian
/// integer below the scalar field's order.
pub open spec fn is_secret_key_bytes(raw: Seq<u8>) -> bool {
    raw.len() == 32 && le_value(raw) < bls_scalar_modulus()
}

/// The compressed public key that `bls_signatures` derives from a private key.
pub uninterp spec fn bls_public_key_bytes(secret_key: Seq<u8>) -> Seq<u8>;

/// The compressed signature that `bls_signatures` makes of `message` with a private key.
pub uninterp spec fn bls_signature_bytes(secret_key: Seq<u8>, message: Seq<u8>) -> Seq<u8>;

/// What `bls_signatures` answers when asked whether `signature` signs `message`
/// under `public_key`.
pub uninterp spec fn bls_verifies(public_key: Seq<u8>, message: Seq<u8>, signature: Seq<u8>) -> bool;

/// Calls `bls_signatures::PrivateKey::from_bytes`.  Claimed: it accepts exactly
/// the 32-byte little-endian integers below the scalar field's order.
#[verifier::external_body]
fn bls_secret_key_is_valid(raw: &[u8]) -> (ok: bool)
    ensures
        ok == is_secret_key_bytes(raw@),
{
    bls_signatures::PrivateKey::from_bytes(raw).is_ok()
}

/// Calls `bls_signatures::PrivateKey::public_key` on the key held in `secret_key`.
/// Claimed: the 48 bytes are [`bls_public_key_bytes`] of the key.
#[verifier::external_body]
fn bls_public_key(secret_key: &[u8; 32]) -> (public_key: [u8; 48])
    requires
        is_secret_key_bytes(secret_key@),
    ensures
        public_key@ == bls_public_key_bytes(secret_key@),
{
    let mut out = [0u8; 48];
    if let Ok(key) = bls_signatures::PrivateKey::from_bytes(secret_key) {
        out.copy_from_slice(&key.public_key().as_bytes());
    }
    out
}

/// Calls `bls_signatures::PrivateKey::sign` with the key held in `secret_key`.
/// Claimed: the 96 bytes are [`bls_signature_bytes`] of the key and the message.
#[verifier::external_body]
fn bls_sign(secret_key: &[u8; 32], message: &[u8]) -> (signature: [u8; 96])
    requires
        is_secret_key_bytes(secret_key@),
    ensures
        signature@ == bls_signature_bytes(secret_key@, message@),
{
    let mut out = [0u8; 96];
    if let Ok(key) = bls_signatures::PrivateKey::from_bytes(secret_key) {
        out.copy_from_slice(&key.sign(message).as_bytes());
    }
    out
}

/// Calls `bls_signatures::PublicKey::verify` on the decoded key and signature
/// (bytes that do not decode verify nothing).  Claimed: the answer is
/// [`bls_verifies`], and a signature made with a non-zero private key verifies
/// under that key's public key.
#[verifier::external_body]
fn bls_verify(public_key: &[u8; 48], message: &[u8], signature: &[u8; 96]) -> (ok: bool)
    ensures
        ok == bls_verifies(public_key@, message@, signature@),
        forall|sk: Seq<u8>|
            #![trigger bls_signature_bytes(sk, message@)]
            is_secret_key_bytes(sk) && le_value(sk) != 0 && public_key@ == bls_public_key_bytes(sk)
                && signature@ == bls_signature_bytes(sk, message@) ==> ok,
{
    match (
        bls_signatures::PublicKey::from_bytes(public_key),
        bls_signatures::Signature::from_bytes(signature),
    ) {
        (Ok(pk), Ok(sig)) => pk.verify(sig, message),
        _ => false,
    }
}

/// What `bls_signatures::aggregate` makes of the decoded signatures, in
/// compressed form; `None` where one of them does not decode or there is none.
pub uninterp spec fn bls_aggregate_bytes(signatures: Seq<[u8; 96]>) -> Option<[u8; 96]>;

/// Calls `bls_signatures::aggregate` on the decoded signatures.  Claimed: the
/// answer is [`bls_aggregate_bytes`] of them, and none for no signatures.
#[verifier::external_body]
pub(crate) fn bls_aggregate(signatures: &Vec<[u8; 96]>) -> (r: Option<[u8; 96]>)
    ensures
        r == bls_aggregate_bytes(signatures@),
        signatures@.len() == 0 ==> r is None,
{
    let mut decoded = Vec::new();
    for bytes in signatures.iter() {
        match bls_signatures::Signature::from_bytes(bytes) {
            Ok(sig) => decoded.push(sig),
            Err(_) => return None,
        }
    }
    match bls_signatures::aggregate(&decoded) {
        Ok(sig) => {
            let mut out = [0u8; 96];
            out.copy_from_slice(&sig.as_bytes());
            Some(out)
        },
        Err(_) => None,
    }
}

/// The seed of a validator's key: SHA-256 of its name followed by `bls_seed`.
pub open spec fn key_seed(validator_id: Seq<char>) -> Seq<u8> {
    sha256_digest(encode_utf8(validator_id) + encode_utf8("bls_seed"@))
}

/// A validator's BLS key pair, held as the bytes of the private key and of the
/// compressed public key.
#[derive(Debug)]
pub struct KeyPair {
    pub validator_id: String,
    pub private_key: [u8; 32],
    pub public_key: [u8; 48],
}

impl Clone for KeyPair {
    fn clone(&self) -> (r: Self)
        ensures
            r == *self,
    {
        KeyPair {
            validator_id: self.validator_id.clone(),
            private_key: self.private_key,
            public_key: self.public_key,
        }
    }
}

impl KeyPair {
    /// Whether the private key is a valid key and the public key is derived from it.
    pub open spec fn wf(&self) -> bool {
        &&& is_secret_key_bytes(self.private_key@)
        &&& self.public_key@ == bls_public_key_bytes(self.private_key@)
    }

    /// Whether the key pair derived from the validator's name is a valid key.
    pub open spec fn seed_is_valid(validator_id: Seq<char>) -> bool {
        is_secret_key_bytes(key_seed(validator_id))
    }

    /// The signature of `data` under this key pair.
    pub open spec fn spec_sign(&self, data: Seq<u8>) -> Seq<u8> {
        bls_signature_bytes(self.private_key@, data)
    }

    /// The key pair derived from the validator's name: the private key is the
    /// seed `SHA-256(name ++ "bls_seed")`.
    pub fn new(validator_id: String) -> (kp: KeyPair)
        requires
            KeyPair::seed_is_valid(validator_id@),
        ensures
            kp.wf(),
            kp.validator_id == validator_id,
            kp.private_key@ == key_seed(validator_id@),
    {
        let seed = Self::seed_of(&validator_id);
        let public_key = bls_public_key(&seed);
        KeyPair { validator_id, private_key: seed, public_key }
    }

    /// The key pair derived from the validator's name, or `None` where that seed
    /// is not a valid private key.
    pub fn try_new(validator_id: String) -> (kp: Option<KeyPair>)
        ensures
            kp is Some <==> KeyPair::seed_is_valid(validator_id@),
            kp matches Some(k) ==> k.wf() && k.validator_id == validator_id && k.private_key@
                == key_seed(validator_id@),
    {
        let seed = Self::seed_of(&validator_id);
        if bls_secret_key_is_valid(&seed) {
            Some(KeyPair::new(validator_id))
        } else {
            None
        }
    }

    fn seed_of(validator_id: &String) -> (seed: [u8; 32])
        ensures
            seed@ == key_seed(validator_id@),
    {
        let mut material: Vec<u8> = Vec::new();
        material.extend_from_slice(validator_id.as_str().as_bytes());
        material.extend_from_slice("bls_seed".as_bytes());
        assert(material@ =~= encode_utf8(validator_id@) + encode_utf8("bls_seed"@));
        sha256(material.as_slice())
    }

    /// Signs `data` with the private key.
    pub fn sign(&self, data: &[u8]) -> (sig: [u8; 96])
        requires
            self.wf(),
        ensures
            sig@ == self.spec_sign(data@),
    {
        bls_sign(&self.private_key, data)
    }

    /// Whether `signature` signs `data` under the public key.  A signature that
    /// [`KeyPair::sign`] made of the same data verifies (for a non-zero key).
    pub fn verify(&self, data: &[u8], signature: &[u8; 96]) -> (ok: bool)
        ensures
            ok == bls_verifies(self.public_key@, data@, signature@),
            self.wf() && le_value(self.private_key@) != 0 && signature@ == self.spec_sign(data@)
                ==> ok,
    {
        bls_verify(&self.public_key, data, signature)
    }
}

} // verus!
