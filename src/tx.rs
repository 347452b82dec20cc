//! Transactions as the pool sees them: hash, sender, nonce and gas terms,
//! with the hashing and signature recovery done by the outside crates.
use crate::amount::{checked_mul, Amount};
use ethereum::Transaction;
use secp256k1::recovery::{RecoverableSignature, RecoveryId};
use secp256k1::{Message, SECP256K1};
use sha3::{Digest, Keccak256};
use vstd::prelude::*;

verus! {

#[verifier::external_type_specification]
#[verifier::external_body]
pub struct ExTransaction(Transaction);

/// A 256-bit digest, as its big-endian halves.
#[derive(Clone, Copy, Debug, PartialEq, Eq, Hash, Structural)]
pub struct Hash256 {
    pub hi: u128,
    pub lo: u128,
}

/// A 160-bit account address: the last 20 bytes of a digest, big-endian.
#[derive(Clone, Copy, Debug, PartialEq, Eq, Hash, Structural)]
pub struct Address {
    pub hi: u32,
    pub lo: u128,
}

/// The Keccak-256 digest of a byte string.
pub uninterp spec fn keccak256_of(data: Seq<u8>) -> Hash256;

/// Relies on `sha3::Keccak256::digest`: the digest depends on the bytes alone.
#[verifier::external_body]
fn keccak256(data: &[u8]) -> (r: Hash256)
    ensures
        r == keccak256_of(data@),
{
    let d = Keccak256::digest(data);
    Hash256 {
        hi: u128::from_be_bytes(d[..16].try_into().unwrap()),
        lo: u128::from_be_bytes(d[16..].try_into().unwrap()),
    }
}

/// Relies on `rlp::encode` with the `Encodable` impl of
/// `ethereum::Transaction`: the RLP encoding of the full signed transaction.
#[verifier::external_body]
fn rlp_bytes(tx: &Transaction) -> (r: Vec<u8>) {
    rlp::encode(tx).to_vec()
}

/// Relies on `ethereum::TransactionMessage::hash`: the 32-byte hash of the
/// transaction without its signature, which the signature signs.
#[verifier::external_body]
fn signing_hash(tx: &Transaction) -> (r: Vec<u8>)
    ensures
        r@.len() == 32,
{
    ethereum::TransactionMessage::from(tx.clone()).hash().as_bytes().to_vec()
}

/// Relies on `TransactionSignature::r` and `::s`: the signature's two
/// 32-byte halves, `r` then `s`.
#[verifier::external_body]
fn compact_signature(tx: &Transaction) -> (r: Vec<u8>)
    ensures
        r@.len() == 64,
{
    let mut sig = tx.signature.r().as_bytes().to_vec();
    sig.extend_from_slice(tx.signature.s().as_bytes());
    sig
}

/// Relies on `TransactionSignature::standard_v`: the recovery id, 0 or 1
/// for a well-formed `v`, 4 otherwise.
#[verifier::external_body]
fn recovery_id(tx: &Transaction) -> (r: u8)
    ensures
        r <= 1 || r == 4,
{
    tx.signature.standard_v()
}

/// The public key that secp256k1 recovers from a 32-byte message, a 64-byte
/// compact signature and a recovery id, serialised uncompressed; `None`
/// where the id, message or signature is malformed or recovery fails.
pub uninterp spec fn recovered_key_of(msg: Seq<u8>, sig: Seq<u8>, id: u8) -> Option<Seq<u8>>;

/// Relies on secp256k1's `recover` with a compact recoverable signature
/// (`RecoveryId::from_i32`, `Message::from_slice`,
/// `RecoverableSignature::from_compact`, `Secp256k1::recover`,
/// `PublicKey::serialize_uncompressed`): the signer's public key, 65 bytes,
/// or `None`; an id above 3 is refused by `from_i32`.
#[verifier::external_body]
fn recover_public_key(msg: &[u8], sig: &[u8], id: u8) -> (r: Option<Vec<u8>>)
    ensures
        r is Some <==> recovered_key_of(msg@, sig@, id) is Some,
        r matches Some(k) ==> recovered_key_of(msg@, sig@, id) == Some(k@) && k@.len() == 65,
        id > 3 ==> r is None,
{
    let rec = RecoveryId::from_i32(id as i32).ok()?;
    let msg = Message::from_slice(msg).ok()?;
    let sig = RecoverableSignature::from_compact(sig, rec).ok()?;
    let key = SECP256K1.recover(&msg, &sig).ok()?;
    Some(key.serialize_uncompressed().to_vec())
}

/// Relies on the public `nonce`, `gas_price` and `gas_limit` fields of
/// `ethereum::Transaction`, each a `U256`.
#[verifier::external_body]
fn gas_terms(tx: &Transaction) -> (r: (Amount, Amount, Amount)) {
    let w = |v: ethereum_types::U256| Amount { w0: v.0[0], w1: v.0[1], w2: v.0[2], w3: v.0[3] };
    (w(tx.nonce), w(tx.gas_price), w(tx.gas_limit))
}

/// The address that a public key (uncompressed, without its tag byte) stands for.
pub open spec fn address_of_key(key: Seq<u8>) -> Address {
    let d = keccak256_of(key);
    Address { hi: d.hi as u32, lo: d.lo }
}

/// A transaction together with what the pool reads of it: its hash, its
/// sender, its nonce, its gas terms and its cost `gas_limit * gas_price`.
pub struct RichTransaction {
    pub inner: Transaction,
    pub hash: Hash256,
    pub sender: Address,
    pub nonce: Amount,
    pub gas_price: Amount,
    pub gas_limit: Amount,
    pub cost: Amount,
}

impl RichTransaction {
    /// The cost is the product of the gas terms.
    pub open spec fn wf(&self) -> bool {
        self.cost.value() == self.gas_limit.value() * self.gas_price.value()
    }

    pub open spec fn nonce_value(&self) -> nat {
        self.nonce.value()
    }

    pub open spec fn cost_value(&self) -> nat {
        self.gas_limit.value() * self.gas_price.value()
    }

    /// Builds the record from its parts; `None` where the cost does not fit
    /// in 256 bits.
    pub fn from_parts(
        inner: Transaction,
        hash: Hash256,
        sender: Address,
        nonce: Amount,
        gas_price: Amount,
        gas_limit: Amount,
    ) -> (r: Option<RichTransaction>)
        ensures
            r matches None <==> gas_limit.value() * gas_price.value() >= crate::amount::amount_bound(),
            r matches Some(t) ==> t.wf() && t.inner == inner && t.hash == hash && t.sender == sender
                && t.nonce == nonce && t.gas_price == gas_price && t.gas_limit == gas_limit,
    {
        match checked_mul(gas_limit, gas_price) {
            None => None,
            Some(cost) => Some(RichTransaction { inner, hash, sender, nonce, gas_price, gas_limit, cost }),
        }
    }

    /// The record built from a transaction, its encoding `encoded` and the
    /// public key recovered from its signature: `None` where no key was
    /// recovered or the cost overflows 256 bits; else the hash is the digest
    /// of the encoding and the sender the address of the key.
    pub fn from_recovered(
        tx: Transaction,
        encoded: &[u8],
        key: Option<Vec<u8>>,
        nonce: Amount,
        gas_price: Amount,
        gas_limit: Amount,
    ) -> (r: Option<RichTransaction>)
        requires
            key matches Some(k) ==> k@.len() == 65,
        ensures
            recovered(r, tx, encoded@, key_view(key), nonce, gas_price, gas_limit),
    {
        let key = match key {
            Some(k) => k,
            None => return None,
        };
        let hash = keccak256(encoded);
        let mut body: Vec<u8> = Vec::new();
        let mut i: usize = 1;
        while i < key.len()
            invariant
                1 <= i <= key@.len(),
                key@.len() == 65,
                body@ == key@.subrange(1, i as int),
            decreases key@.len() - i,
        {
            body.push(key[i]);
            i = i + 1;
        }
        let d = keccak256(body.as_slice());
        let sender = Address { hi: d.hi as u32, lo: d.lo };
        RichTransaction::from_parts(tx, hash, sender, nonce, gas_price, gas_limit)
    }

    /// Enriches a transaction: its hash is the Keccak-256 digest of its RLP
    /// encoding, and its sender is recovered from its signature over the
    /// hash of its unsigned part. `None` where recovery fails or the cost
    /// overflows 256 bits.
    pub fn try_from(tx: Transaction) -> (r: Option<RichTransaction>)
        ensures
            enrichment(tx, r),
    {
        let encoded = rlp_bytes(&tx);
        let msg = signing_hash(&tx);
        let sig = compact_signature(&tx);
        let id = recovery_id(&tx);
        let key = recover_public_key(msg.as_slice(), sig.as_slice(), id);
        let ghost kv = recovered_key_of(msg@, sig@, id);
        assert(key_view(key) == kv);
        let (nonce, gas_price, gas_limit) = gas_terms(&tx);
        let ghost t0 = tx;
        let r = RichTransaction::from_recovered(tx, encoded.as_slice(), key, nonce, gas_price, gas_limit);
        assert(recovered(r, t0, encoded@, recovered_key_of(msg@, sig@, id), nonce, gas_price, gas_limit));
        r
    }
}

/// The key as a sequence of bytes.
pub open spec fn key_view(key: Option<Vec<u8>>) -> Option<Seq<u8>> {
    match key {
        Some(k) => Some(k@),
        None => None,
    }
}

/// `r` is the record that `from_recovered` builds from these parts.
pub open spec fn recovered(
    r: Option<RichTransaction>,
    tx: Transaction,
    encoded: Seq<u8>,
    key: Option<Seq<u8>>,
    nonce: Amount,
    gas_price: Amount,
    gas_limit: Amount,
) -> bool {
    &&& r is None <==> (key is None || gas_limit.value() * gas_price.value() >= crate::amount::amount_bound())
    &&& r matches Some(t) ==> {
        &&& t.wf()
        &&& t.inner == tx
        &&& t.hash == keccak256_of(encoded)
        &&& t.sender == address_of_key(key->Some_0.subrange(1, 65))
        &&& t.nonce == nonce
        &&& t.gas_price == gas_price
        &&& t.gas_limit == gas_limit
    }
}

/// `r` is an outcome of enriching `tx`: built from some encoding, the key
/// recovered from some 32-byte message, 64-byte signature and recovery id
/// (0, 1 or 4), and some gas terms. (The transaction's own fields cannot be
/// named here: its type is opaque.)
pub open spec fn enrichment(tx: Transaction, r: Option<RichTransaction>) -> bool {
    exists|enc: Seq<u8>, msg: Seq<u8>, sig: Seq<u8>, id: u8, n: Amount, gp: Amount, gl: Amount|
        #![trigger recovered(r, tx, enc, recovered_key_of(msg, sig, id), n, gp, gl)]
        msg.len() == 32 && sig.len() == 64 && (id <= 1 || id == 4) && recovered(
            r,
            tx,
            enc,
            recovered_key_of(msg, sig, id),
            n,
            gp,
            gl,
        )
}

} // verus!
