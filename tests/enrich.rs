use ethereum::{Transaction, TransactionAction, TransactionMessage, TransactionSignature};
use ethereum_types::{H160, H256, U256};
use secp256k1::{Message, PublicKey, SecretKey, SECP256K1};
use sha3::{Digest, Keccak256};
use txpool::amount::Amount;
use txpool::pool::{AccountInfo, Pool};
use txpool::tx::{Address, Hash256, RichTransaction};

fn signed(nonce: u64, gas_price: u64, key: &SecretKey) -> Transaction {
    let msg = TransactionMessage {
        nonce: U256::from(nonce),
        gas_price: U256::from(gas_price),
        gas_limit: U256::from(21000),
        action: TransactionAction::Call(H160::from_low_u64_be(9)),
        value: U256::from(1),
        input: vec![1, 2, 3],
        chain_id: None,
    };
    let m = Message::from_slice(msg.hash().as_bytes()).unwrap();
    let (id, sig) = SECP256K1.sign_recoverable(&m, key).serialize_compact();
    Transaction {
        nonce: msg.nonce,
        gas_price: msg.gas_price,
        gas_limit: msg.gas_limit,
        action: msg.action,
        value: msg.value,
        input: msg.input,
        signature: TransactionSignature::new(
            27 + id.to_i32() as u64,
            H256::from_slice(&sig[..32]),
            H256::from_slice(&sig[32..]),
        )
        .unwrap(),
    }
}

fn digest(bytes: &[u8]) -> [u8; 32] {
    let d = Keccak256::digest(bytes);
    let mut out = [0u8; 32];
    out.copy_from_slice(&d);
    out
}

fn expected_sender(key: &SecretKey) -> Address {
    let public = PublicKey::from_secret_key(&SECP256K1, key).serialize_uncompressed();
    let d = digest(&public[1..]);
    Address {
        hi: u32::from_be_bytes(d[12..16].try_into().unwrap()),
        lo: u128::from_be_bytes(d[16..].try_into().unwrap()),
    }
}

#[test]
fn enrichment_recovers_sender_and_hash() {
    let key = SecretKey::from_slice(&[7u8; 32]).unwrap();
    let tx = signed(3, 50, &key);
    let d = digest(&rlp::encode(&tx));
    let rich = RichTransaction::try_from(tx.clone()).expect("valid signature");
    assert_eq!(rich.sender, expected_sender(&key));
    assert_eq!(
        rich.hash,
        Hash256 {
            hi: u128::from_be_bytes(d[..16].try_into().unwrap()),
            lo: u128::from_be_bytes(d[16..].try_into().unwrap()),
        }
    );
    assert_eq!(rich.nonce, Amount::from_u64(3));
    assert_eq!(rich.gas_price, Amount::from_u64(50));
    assert_eq!(rich.gas_limit, Amount::from_u64(21000));
    assert_eq!(rich.cost, Amount::from_u64(1_050_000));
    assert_eq!(rich.inner, tx);
}

#[test]
fn enrichment_rejects_bad_recovery_id() {
    let key = SecretKey::from_slice(&[7u8; 32]).unwrap();
    let mut tx = signed(3, 50, &key);
    let other = 1 - tx.signature.standard_v() as u64;
    tx.signature =
        TransactionSignature::new(27 + other, *tx.signature.r(), *tx.signature.s()).unwrap();
    let flipped = RichTransaction::try_from(tx);
    // Either recovery fails or it yields another signer.
    if let Some(r) = flipped {
        assert_ne!(r.sender, expected_sender(&key));
    }
}

#[test]
fn apply_block_on_raw_transactions() {
    let key = SecretKey::from_slice(&[7u8; 32]).unwrap();
    let sender = expected_sender(&key);
    let mut pool = Pool::new(0);
    let t0 = RichTransaction::try_from(signed(0, 1, &key)).unwrap();
    let t1 = RichTransaction::try_from(signed(1, 1, &key)).unwrap();
    let (h0, h1) = (t0.hash, t1.hash);
    let info = Some(AccountInfo { balance: Amount::from_u64(1_000_000), nonce: 0 });
    assert_eq!(pool.import(t0, info), Ok(true));
    assert_eq!(pool.import(t1, None), Ok(true));
    assert!(pool.apply_block(1, vec![signed(0, 1, &key)]));
    assert_eq!(pool.block(), 1);
    assert!(pool.get(h0).is_none());
    assert!(pool.get(h1).is_some());
    let entry = pool.senders.iter().find(|e| e.sender == sender).unwrap();
    assert_eq!(entry.nonce_offset, 1);
    assert!(pool.revert_block(0, vec![signed(0, 1, &key)]));
    assert!(pool.get(h1).is_none());
    assert_eq!(pool.block(), 0);
}

#[test]
fn from_recovered_without_key_is_none() {
    let key = SecretKey::from_slice(&[7u8; 32]).unwrap();
    let tx = signed(0, 1, &key);
    let r = RichTransaction::from_recovered(
        tx,
        &[1, 2, 3],
        None,
        Amount::from_u64(0),
        Amount::from_u64(1),
        Amount::from_u64(21000),
    );
    assert!(r.is_none());
}

#[test]
fn from_recovered_hashes_encoding_and_key() {
    let key = SecretKey::from_slice(&[7u8; 32]).unwrap();
    let public = PublicKey::from_secret_key(&SECP256K1, &key).serialize_uncompressed().to_vec();
    let tx = signed(0, 1, &key);
    let encoded = [9u8, 8, 7];
    let d = digest(&encoded);
    let r = RichTransaction::from_recovered(
        tx,
        &encoded,
        Some(public),
        Amount::from_u64(0),
        Amount::from_u64(3),
        Amount::from_u64(7),
    )
    .unwrap();
    assert_eq!(r.sender, expected_sender(&key));
    assert_eq!(r.hash.hi, u128::from_be_bytes(d[..16].try_into().unwrap()));
    assert_eq!(r.hash.lo, u128::from_be_bytes(d[16..].try_into().unwrap()));
    assert_eq!(r.cost, Amount::from_u64(21));
}

#[test]
fn block_gap_on_raw_transactions_resets() {
    let key = SecretKey::from_slice(&[7u8; 32]).unwrap();
    let mut pool = Pool::new(0);
    let t0 = RichTransaction::try_from(signed(0, 1, &key)).unwrap();
    let info = Some(AccountInfo { balance: Amount::from_u64(1_000_000), nonce: 0 });
    assert_eq!(pool.import(t0, info), Ok(true));
    assert!(!pool.apply_block(4, vec![signed(0, 1, &key)]));
    assert_eq!(pool.block(), 4);
    assert!(pool.senders.is_empty());
    assert!(!pool.revert_block(9, Vec::new()));
    assert_eq!(pool.block(), 9);
    assert!(pool.apply_block(10, Vec::new()));
    assert!(pool.revert_block(9, Vec::new()));
}
