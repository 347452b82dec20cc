use ethereum::{Transaction, TransactionAction, TransactionSignature};
use ethereum_types::{H256, U256};
use txpool::amount::Amount;
use txpool::pool::{AccountInfo, ImportError, Pool};
use txpool::tx::{Address, Hash256, RichTransaction};

const A: Address = Address { hi: 0xaa, lo: 0xa };
const B: Address = Address { hi: 0xbb, lo: 0xb };

fn raw(nonce: u64, gas_price: u64, gas_limit: u64) -> Transaction {
    Transaction {
        nonce: U256::from(nonce),
        gas_price: U256::from(gas_price),
        gas_limit: U256::from(gas_limit),
        action: TransactionAction::Create,
        value: U256::zero(),
        input: Vec::new(),
        signature: TransactionSignature::new(27, H256::from_low_u64_be(1), H256::from_low_u64_be(1))
            .unwrap(),
    }
}

fn h(n: u128) -> Hash256 {
    Hash256 { hi: 0, lo: n }
}

fn rich(id: u128, sender: Address, nonce: u64, gas_price: u64, gas_limit: u64) -> RichTransaction {
    RichTransaction::from_parts(
        raw(nonce, gas_price, gas_limit),
        h(id),
        sender,
        Amount::from_u64(nonce),
        Amount::from_u64(gas_price),
        Amount::from_u64(gas_limit),
    )
    .unwrap()
}

fn info() -> Option<AccountInfo> {
    Some(AccountInfo { balance: Amount::from_u64(1000), nonce: 5 })
}

fn queue(pool: &Pool, s: Address) -> Option<(u64, Vec<Hash256>)> {
    pool.senders
        .iter()
        .find(|e| e.sender == s)
        .map(|e| (e.nonce_offset, e.txs.iter().map(|t| t.hash).collect()))
}

fn total(pool: &Pool) -> usize {
    pool.senders.iter().map(|e| e.txs.len()).sum()
}

/// The pool after importing a nonce-5 transaction (hash 1) of sender A.
fn admitted() -> Pool {
    let mut pool = Pool::new(0);
    assert_eq!(pool.import(rich(1, A, 5, 10, 21), info()), Ok(true));
    pool
}

/// Queue [tx4 (hash 4, nonce 5), hash 6 (nonce 6)] at head 0.
fn two_queued() -> Pool {
    let mut pool = Pool::new(0);
    assert_eq!(pool.import(rich(4, A, 5, 20, 21), info()), Ok(true));
    assert_eq!(pool.import(rich(6, A, 6, 10, 21), None), Ok(true));
    pool
}

#[test]
fn happy_admission() {
    let pool = admitted();
    assert_eq!(queue(&pool, A), Some((5, vec![h(1)])));
    let got = pool.get(h(1)).expect("pooled");
    assert_eq!(got.nonce, U256::from(5));
    assert_eq!(got.gas_price, U256::from(10));
    assert_eq!(total(&pool), 1);
}

#[test]
fn stale_transaction_rejected() {
    let mut pool = admitted();
    assert_eq!(pool.import(rich(2, A, 4, 10, 21), None), Err(ImportError::StaleTransaction));
    assert_eq!(queue(&pool, A), Some((5, vec![h(1)])));
    assert!(pool.get(h(2)).is_none());
}

#[test]
fn nonce_gap_rejected() {
    let mut pool = admitted();
    assert_eq!(pool.import(rich(3, A, 7, 10, 21), None), Err(ImportError::NonceGap));
    assert_eq!(queue(&pool, A), Some((5, vec![h(1)])));
    assert!(pool.get(h(3)).is_none());
}

#[test]
fn gap_on_empty_queue() {
    let mut pool = Pool::new(0);
    assert_eq!(pool.import(rich(3, A, 6, 10, 21), info()), Err(ImportError::NonceGap));
    assert_eq!(queue(&pool, A), None);
}

#[test]
fn replacement_accepted() {
    let mut pool = admitted();
    assert_eq!(pool.import(rich(4, A, 5, 20, 21), None), Ok(true));
    assert_eq!(queue(&pool, A), Some((5, vec![h(4)])));
    assert!(pool.get(h(4)).is_some());
    assert!(pool.get(h(1)).is_none());
}

#[test]
fn replacement_rejected_on_equal_fee() {
    let mut pool = admitted();
    assert_eq!(pool.import(rich(4, A, 5, 20, 21), None), Ok(true));
    assert_eq!(pool.import(rich(5, A, 5, 20, 21), None), Err(ImportError::FeeTooLow));
    assert_eq!(queue(&pool, A), Some((5, vec![h(4)])));
    assert!(pool.get(h(5)).is_none());
}

#[test]
fn replacement_rejected_on_lower_fee() {
    let mut pool = admitted();
    assert_eq!(pool.import(rich(5, A, 5, 9, 21), None), Err(ImportError::FeeTooLow));
    assert_eq!(queue(&pool, A), Some((5, vec![h(1)])));
}

#[test]
fn duplicate_import_is_idempotent() {
    let mut pool = admitted();
    assert_eq!(pool.import(rich(1, A, 5, 10, 21), None), Ok(false));
    assert_eq!(queue(&pool, A), Some((5, vec![h(1)])));
    assert_eq!(total(&pool), 1);
}

#[test]
fn unknown_sender_rejected() {
    let mut pool = Pool::new(0);
    assert!(pool.needs_account_info(&rich(1, B, 0, 1, 1)));
    assert_eq!(pool.import(rich(1, B, 0, 1, 1), None), Err(ImportError::InvalidSender));
    assert_eq!(queue(&pool, B), None);
}

#[test]
fn nonce_beyond_64_bits_rejected() {
    let mut pool = Pool::new(0);
    let mut tx = rich(1, A, 5, 10, 21);
    tx.nonce = Amount { w0: 0, w1: 1, w2: 0, w3: 0 };
    assert!(!pool.needs_account_info(&tx));
    assert_eq!(pool.import(tx, info()), Err(ImportError::InvalidTransaction));
    assert_eq!(queue(&pool, A), None);
}

#[test]
fn insufficient_balance_rejected() {
    let mut pool = Pool::new(0);
    // 1001 > 1000
    assert_eq!(pool.import(rich(1, A, 5, 1001, 1), info()), Err(ImportError::InsufficientBalance));
    assert_eq!(queue(&pool, A), None);
    let mut pool = admitted();
    // 210 already spent; 791 more does not fit.
    assert_eq!(pool.import(rich(2, A, 6, 791, 1), None), Err(ImportError::InsufficientBalance));
    assert_eq!(pool.import(rich(2, A, 6, 790, 1), None), Ok(true));
    assert_eq!(queue(&pool, A), Some((5, vec![h(1), h(2)])));
}

#[test]
fn eviction_by_balance() {
    let mut pool = Pool::new(0);
    assert_eq!(pool.import(rich(1, A, 5, 100, 2), info()), Ok(true)); // 200
    assert_eq!(pool.import(rich(2, A, 6, 100, 3), None), Ok(true)); // 300
    assert_eq!(pool.import(rich(3, A, 7, 100, 4), None), Ok(true)); // 400
    assert_eq!(pool.import(rich(8, A, 8, 10, 10), None), Ok(true)); // 100
    assert_eq!(total(&pool), 4);
    // Replacing nonce 6 with cost 700 leaves 100 after it: nonce 7 no longer fits.
    assert_eq!(pool.import(rich(9, A, 6, 350, 2), None), Ok(true));
    assert_eq!(queue(&pool, A), Some((5, vec![h(1), h(9)])));
    assert!(pool.get(h(2)).is_none());
    assert!(pool.get(h(3)).is_none());
    assert!(pool.get(h(8)).is_none());
    assert_eq!(total(&pool), 2);
}

#[test]
fn cost_overflow_refused() {
    let big = Amount { w0: 0, w1: 0, w2: 0, w3: 1 };
    assert!(RichTransaction::from_parts(raw(0, 1, 1), h(1), A, Amount::from_u64(0), big, big).is_none());
    let t = rich(1, A, 0, 21, 1000);
    assert_eq!(t.cost, Amount::from_u64(21000));
}

#[test]
fn apply_block_confirms_front() {
    let mut pool = two_queued();
    pool.apply_rich_block(1, &vec![rich(4, A, 5, 20, 21)]);
    assert_eq!(queue(&pool, A), Some((6, vec![h(6)])));
    assert!(pool.get(h(4)).is_none());
    assert!(pool.get(h(6)).is_some());
    assert_eq!(pool.block(), 1);
}

#[test]
fn apply_block_mismatch_drops_sender() {
    let mut pool = two_queued();
    pool.apply_rich_block(1, &vec![rich(77, A, 5, 20, 21)]);
    assert_eq!(queue(&pool, A), None);
    assert!(pool.get(h(4)).is_none());
    assert!(pool.get(h(6)).is_none());
    assert_eq!(pool.block(), 1);
}

#[test]
fn apply_block_leaves_other_senders() {
    let mut pool = two_queued();
    let b_info = Some(AccountInfo { balance: Amount::from_u64(50), nonce: 0 });
    assert_eq!(pool.import(rich(30, B, 0, 1, 1), b_info), Ok(true));
    pool.apply_rich_block(1, &vec![rich(4, A, 5, 20, 21), rich(6, A, 6, 10, 21)]);
    assert_eq!(queue(&pool, A), Some((7, vec![])));
    assert_eq!(queue(&pool, B), Some((0, vec![h(30)])));
}

#[test]
fn apply_block_with_gap_past_queue_drops_sender() {
    let mut pool = two_queued();
    pool.apply_rich_block(1, &vec![rich(4, A, 5, 20, 21), rich(99, A, 7, 1, 1)]);
    assert_eq!(queue(&pool, A), None);
}

#[test]
fn revert_block_drops_sender() {
    let mut pool = two_queued();
    pool.apply_rich_block(1, &vec![rich(4, A, 5, 20, 21)]);
    pool.revert_rich_block(0, &vec![rich(4, A, 5, 20, 21)]);
    assert_eq!(queue(&pool, A), None);
    assert!(pool.get(h(6)).is_none());
    assert_eq!(pool.block(), 0);
}

#[test]
fn revert_block_gap_resets() {
    let mut pool = two_queued();
    pool.revert_rich_block(3, &vec![]);
    assert_eq!(total(&pool), 0);
    assert_eq!(pool.block(), 3);
}

#[test]
fn block_gap_resets_pool() {
    let mut pool = two_queued();
    pool.apply_rich_block(5, &vec![]);
    assert_eq!(total(&pool), 0);
    assert!(pool.get(h(4)).is_none());
    assert_eq!(pool.block(), 5);
}

#[test]
fn erase_keeps_head() {
    let mut pool = two_queued();
    pool.apply_rich_block(1, &vec![]);
    pool.erase();
    assert_eq!(total(&pool), 0);
    assert_eq!(pool.block(), 1);
}

#[test]
fn amount_to_u64() {
    assert_eq!(Amount::from_u64(7).to_u64(), Some(7));
    assert_eq!(Amount { w0: 1, w1: 0, w2: 1, w3: 0 }.to_u64(), None);
}
