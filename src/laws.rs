//! Properties of the pool that hold across its operations.
use crate::lemmas::{
    lemma_account_at, lemma_affordable_bounds, lemma_affordable_skip, lemma_prefix_agree, lemma_prefix_mono,
};
use crate::pool::{
    account_in, hashes_unique, admission, affordable_from, affordable_len, hash_at, holds_hash, prefix_cost,
    valid_pos, AccountInfo, AccountPool, AccountState, ImportError, Pool,
};
use crate::amount::Amount;
use crate::tx::{Address, Hash256, RichTransaction};
use vstd::prelude::*;
use vstd::seq_lib::{lemma_no_dup_in_concat, seq_to_set_is_finite};

verus! {

/// An account entry is one of the pool's entries.
proof fn lemma_account_entry(es: Seq<AccountPool>, s: Address)
    requires
        account_in(es, s) is Some,
    ensures
        exists|i: int| 0 <= i < es.len() && (#[trigger] es[i]).sender == s && Some(es[i].state()) == account_in(es, s),
{
    let i = choose|i: int| 0 <= i < es.len() && (#[trigger] es[i]).sender == s;
    assert(es[i].sender == s);
}

/// A hash is pooled exactly when some sender's queue holds it.
proof fn lemma_knows_account(p: Pool, h: Hash256, s: Address, a: int)
    requires
        p.wf(),
        p.account(s) matches Some(st) && 0 <= a < st.2.len() && st.2[a].hash == h,
    ensures
        p.knows(h),
{
    lemma_account_entry(p.senders@, s);
    let i = choose|i: int| 0 <= i < p.senders@.len() && (#[trigger] p.senders@[i]).sender == s
        && Some(p.senders@[i].state()) == p.account(s);
    assert(valid_pos(p.senders@, i, a) && hash_at(p.senders@, i, a) == h);
}

/// The scan of affordable prefixes stops at the first unaffordable one.
proof fn lemma_affordable_stops(q: Seq<RichTransaction>, b: nat, i: int, j: int)
    requires
        0 <= i <= j < q.len(),
        prefix_cost(q, j + 1) > b,
    ensures
        affordable_from(q, b, i) <= j,
    decreases j - i,
{
    if i < j && prefix_cost(q, i + 1) <= b {
        lemma_affordable_stops(q, b, i + 1, j);
    }
}

/// What a successful import leaves in the sender's queue: the new
/// transaction in its slot, before it the old prefix, after it old ones.
proof fn lemma_admitted(off: u64, bal: Amount, q: Seq<RichTransaction>, tx: RichTransaction)
    requires
        admission(off, bal, q, tx) is Ok,
        forall|x: int| 0 <= x < q.len() ==> (#[trigger] q[x]).wf(),
        tx.wf(),
    ensures
        ({
            let k = tx.nonce_value() - off;
            let q2 = admission(off, bal, q, tx)->Ok_0;
            &&& 0 <= k < q2.len()
            &&& q2[k] == tx
            &&& q2.len() <= q.len() + 1
            &&& forall|a: int| 0 <= a < q2.len() && a != k ==> a < q.len() && #[trigger] q2[a] == q[a]
        }),
{
    let k = tx.nonce_value() - off;
    let cand = if k < q.len() { q.update(k, tx) } else { q.push(tx) };
    lemma_prefix_agree(q, cand, k);
    assert(prefix_cost(cand, k + 1) == prefix_cost(q, k) + tx.cost_value());
    lemma_affordable_bounds(cand, bal.value(), k + 1);
    lemma_affordable_skip(cand, bal.value(), k + 1);
    let q2 = cand.take(affordable_len(cand, bal.value()));
    assert(admission(off, bal, q, tx) == Ok::<Seq<RichTransaction>, ImportError>(q2));
    assert forall|a: int| 0 <= a < q2.len() && a != k implies #[trigger] q2[a] == q[a] by {
        assert(q2[a] == cand[a]);
    }
}

/// After a successful import, a transaction that was in the sender's queue
/// and lies in the new transaction's slot or past the kept prefix is pooled
/// no more.
proof fn lemma_gone_after_import(
    p0: Pool,
    tx: RichTransaction,
    info: Option<AccountInfo>,
    p1: Pool,
    st: AccountState,
    l: int,
)
    requires
        p0.wf(),
        p1.wf(),
        tx.wf(),
        Pool::import_post(p0, tx, info, Ok(true), p1),
        p0.account(tx.sender) == Some(st),
        0 <= l < st.2.len(),
        l == tx.nonce_value() - st.0 || l >= (admission(st.0, st.1, st.2, tx)->Ok_0).len(),
    ensures
        !p1.knows(st.2[l].hash),
{
    let q = st.2;
    let h = q[l].hash;
    let k = tx.nonce_value() - st.0;
    lemma_account_entry(p0.senders@, tx.sender);
    let i0 = choose|i: int| 0 <= i < p0.senders@.len() && (#[trigger] p0.senders@[i]).sender == tx.sender
        && Some(p0.senders@[i].state()) == p0.account(tx.sender);
    assert(p0.senders@[i0].wf());
    assert(forall|x: int| 0 <= x < q.len() ==> (#[trigger] q[x]).wf());
    lemma_admitted(st.0, st.1, q, tx);
    let q2 = admission(st.0, st.1, q, tx)->Ok_0;
    assert(valid_pos(p0.senders@, i0, l) && hash_at(p0.senders@, i0, l) == h);
    if p1.knows(h) {
        let (i, a) = choose|i: int, a: int| valid_pos(p1.senders@, i, a) && hash_at(p1.senders@, i, a) == h;
        let s2 = p1.senders@[i].sender;
        lemma_account_at(p1.senders@, i);
        if s2 != tx.sender {
            assert(p1.account(s2) == p0.account(s2));
            lemma_account_entry(p0.senders@, s2);
            let j0 = choose|j: int| 0 <= j < p0.senders@.len() && (#[trigger] p0.senders@[j]).sender == s2
                && Some(p0.senders@[j].state()) == p0.account(s2);
            assert(valid_pos(p0.senders@, j0, a) && hash_at(p0.senders@, j0, a) == h);
            assert(j0 != i0);
        } else {
            assert(p1.senders@[i].txs@ == q2);
            if a == k {
                assert(valid_pos(p0.senders@, i0, l) && hash_at(p0.senders@, i0, l) == tx.hash);
            } else {
                assert(q2[a] == q[a]);
                assert(valid_pos(p0.senders@, i0, a) && hash_at(p0.senders@, i0, a) == h);
            }
        }
    }
}

/// Every pooled hash is held by exactly one slot of one sender's queue, and
/// the transaction in that slot carries the hash.
pub proof fn lemma_index_consistency(p: Pool, h: Hash256)
    requires
        p.wf(),
        p.knows(h),
    ensures
        exists|i: int, a: int|
            valid_pos(p.entries(), i, a) && p.entries()[i].txs@[a].hash == h && forall|j: int, b: int|
                valid_pos(p.entries(), j, b) && #[trigger] hash_at(p.entries(), j, b) == h ==> j == i && b == a,
{
    let (i, a) = choose|i: int, a: int| valid_pos(p.senders@, i, a) && hash_at(p.senders@, i, a) == h;
    assert(valid_pos(p.entries(), i, a) && p.entries()[i].txs@[a].hash == h);
}

/// In every sender's queue the nonces run from the confirmed nonce up, one by one.
pub proof fn lemma_nonces_contiguous(p: Pool, s: Address)
    requires
        p.wf(),
        p.account(s) is Some,
    ensures
        ({
            let st = p.account(s)->Some_0;
            forall|i: int| 0 <= i < st.2.len() ==> (#[trigger] st.2[i]).nonce_value() == st.0 + i
        }),
{
    lemma_account_entry(p.senders@, s);
    let i = choose|i: int| 0 <= i < p.senders@.len() && (#[trigger] p.senders@[i]).sender == s
        && Some(p.senders@[i].state()) == p.account(s);
    assert(p.senders@[i].wf());
}

/// In every sender's queue each prefix costs no more than the confirmed balance.
pub proof fn lemma_prefix_within_balance(p: Pool, s: Address)
    requires
        p.wf(),
        p.account(s) is Some,
    ensures
        ({
            let st = p.account(s)->Some_0;
            forall|k: int| 0 <= k <= st.2.len() ==> #[trigger] prefix_cost(st.2, k) <= st.1.value()
        }),
{
    lemma_account_entry(p.senders@, s);
    let i = choose|i: int| 0 <= i < p.senders@.len() && (#[trigger] p.senders@[i]).sender == s
        && Some(p.senders@[i].state()) == p.account(s);
    assert(p.senders@[i].wf());
    let st = p.account(s)->Some_0;
    assert forall|k: int| 0 <= k <= st.2.len() implies #[trigger] prefix_cost(st.2, k) <= st.1.value() by {
        lemma_prefix_mono(st.2, k, st.2.len() as int);
    }
}

/// Importing a transaction a second time reports it as known and changes nothing.
pub proof fn lemma_import_idempotent(
    p0: Pool,
    tx: RichTransaction,
    info1: Option<AccountInfo>,
    p1: Pool,
    info2: Option<AccountInfo>,
    r2: Result<bool, ImportError>,
    p2: Pool,
)
    requires
        p0.wf(),
        p1.wf(),
        tx.wf(),
        Pool::import_post(p0, tx, info1, Ok(true), p1),
        Pool::import_post(p1, tx, info2, r2, p2),
    ensures
        r2 == Ok::<bool, ImportError>(false),
        p2 == p1,
{
    let st = p0.base_account(tx.sender, info1)->Some_0;
    if p0.account(tx.sender) is Some {
        lemma_account_entry(p0.senders@, tx.sender);
        let i = choose|i: int| 0 <= i < p0.senders@.len() && (#[trigger] p0.senders@[i]).sender == tx.sender
            && Some(p0.senders@[i].state()) == p0.account(tx.sender);
        assert(p0.senders@[i].wf());
    }
    assert(forall|x: int| 0 <= x < st.2.len() ==> (#[trigger] st.2[x]).wf());
    lemma_admitted(st.0, st.1, st.2, tx);
    let k = tx.nonce_value() - st.0;
    lemma_knows_account(p1, tx.hash, tx.sender, k);
}

/// A transaction whose nonce is below the sender's confirmed nonce is
/// refused as stale, and nothing changes.
pub proof fn lemma_stale_rejected(
    p0: Pool,
    tx: RichTransaction,
    info: Option<AccountInfo>,
    r: Result<bool, ImportError>,
    p1: Pool,
)
    requires
        Pool::import_post(p0, tx, info, r, p1),
        !p0.knows(tx.hash),
        p0.base_account(tx.sender, info) matches Some(st) && tx.nonce_value() < st.0,
    ensures
        r == Err::<bool, ImportError>(ImportError::StaleTransaction),
        p1 == p0,
{
}

/// A transaction whose nonce lies past the slot after the sender's queue
/// is refused for the gap, and nothing changes.
pub proof fn lemma_gap_rejected(
    p0: Pool,
    tx: RichTransaction,
    info: Option<AccountInfo>,
    r: Result<bool, ImportError>,
    p1: Pool,
)
    requires
        Pool::import_post(p0, tx, info, r, p1),
        tx.nonce_value() <= u64::MAX,
        !p0.knows(tx.hash),
        p0.base_account(tx.sender, info) matches Some(st) && tx.nonce_value() > st.0 + st.2.len(),
    ensures
        r == Err::<bool, ImportError>(ImportError::NonceGap),
        p1 == p0,
{
}

/// A replacement that does not raise the gas price is refused, and nothing changes.
pub proof fn lemma_replacement_needs_higher_fee(
    p0: Pool,
    tx: RichTransaction,
    info: Option<AccountInfo>,
    r: Result<bool, ImportError>,
    p1: Pool,
)
    requires
        p0.wf(),
        Pool::import_post(p0, tx, info, r, p1),
        !p0.knows(tx.hash),
        p0.account(tx.sender) matches Some(st) && st.0 <= tx.nonce_value() < st.0 + st.2.len()
            && tx.gas_price.value() <= st.2[tx.nonce_value() - st.0].gas_price.value(),
    ensures
        r == Err::<bool, ImportError>(ImportError::FeeTooLow),
        p1 == p0,
{
    lemma_account_entry(p0.senders@, tx.sender);
    let i = choose|i: int| 0 <= i < p0.senders@.len() && (#[trigger] p0.senders@[i]).sender == tx.sender
        && Some(p0.senders@[i].state()) == p0.account(tx.sender);
    assert(p0.senders@[i].wf());
    let st = p0.account(tx.sender)->Some_0;
    assert(st.2[tx.nonce_value() - st.0].nonce_value() <= u64::MAX);
}

/// A replacement with a higher gas price that the balance pays for is
/// admitted: the replaced hash leaves the pool and the new one is pooled.
pub proof fn lemma_replacement_accepted(
    p0: Pool,
    tx: RichTransaction,
    info: Option<AccountInfo>,
    r: Result<bool, ImportError>,
    p1: Pool,
)
    requires
        p0.wf(),
        p1.wf(),
        tx.wf(),
        Pool::import_post(p0, tx, info, r, p1),
        !p0.knows(tx.hash),
        p0.account(tx.sender) matches Some(st) && st.0 <= tx.nonce_value() < st.0 + st.2.len()
            && tx.gas_price.value() > st.2[tx.nonce_value() - st.0].gas_price.value()
            && prefix_cost(st.2, tx.nonce_value() - st.0) + tx.cost_value() <= st.1.value(),
    ensures
        r == Ok::<bool, ImportError>(true),
        p1.knows(tx.hash),
        !p1.knows(p0.account(tx.sender)->Some_0.2[tx.nonce_value() - p0.account(tx.sender)->Some_0.0].hash),
{
    let st = p0.account(tx.sender)->Some_0;
    let k = tx.nonce_value() - st.0;
    lemma_account_entry(p0.senders@, tx.sender);
    let i = choose|i: int| 0 <= i < p0.senders@.len() && (#[trigger] p0.senders@[i]).sender == tx.sender
        && Some(p0.senders@[i].state()) == p0.account(tx.sender);
    assert(p0.senders@[i].wf());
    assert(forall|x: int| 0 <= x < st.2.len() ==> (#[trigger] st.2[x]).wf());
    lemma_admitted(st.0, st.1, st.2, tx);
    lemma_knows_account(p1, tx.hash, tx.sender, k);
    lemma_gone_after_import(p0, tx, info, p1, st, k);
}

/// Where an admitted replacement leaves a later queued transaction
/// unaffordable, that transaction and all after it leave the pool.
pub proof fn lemma_eviction_by_balance(
    p0: Pool,
    tx: RichTransaction,
    info: Option<AccountInfo>,
    p1: Pool,
    j: int,
)
    requires
        p0.wf(),
        p1.wf(),
        tx.wf(),
        Pool::import_post(p0, tx, info, Ok(true), p1),
        p0.account(tx.sender) matches Some(st) && st.0 <= tx.nonce_value() < st.0 + j && j < st.2.len()
            && prefix_cost(st.2.update(tx.nonce_value() - st.0, tx), j + 1) > st.1.value(),
    ensures
        ({
            let q = p0.account(tx.sender)->Some_0.2;
            forall|l: int| j <= l < q.len() ==> !p1.knows(#[trigger] q[l].hash)
        }),
{
    let st = p0.account(tx.sender)->Some_0;
    let q = st.2;
    let k = tx.nonce_value() - st.0;
    let cand = q.update(k, tx);
    lemma_affordable_stops(cand, st.1.value(), 0, j);
    lemma_affordable_bounds(cand, st.1.value(), 0);
    assert(admission(st.0, st.1, q, tx) is Ok);
    assert(admission(st.0, st.1, q, tx) == Ok::<Seq<RichTransaction>, ImportError>(
        cand.take(affordable_len(cand, st.1.value())),
    ));
    assert forall|l: int| j <= l < q.len() implies !p1.knows(#[trigger] q[l].hash) by {
        lemma_gone_after_import(p0, tx, info, p1, st, l);
    }
}

/// The hashes of all queued transactions, queue by queue.
pub open spec fn all_hashes(es: Seq<AccountPool>) -> Seq<Hash256>
    decreases es.len(),
{
    if es.len() == 0 {
        Seq::<Hash256>::empty()
    } else {
        all_hashes(es.drop_last()) + es.last().txs@.map_values(|t: RichTransaction| t.hash)
    }
}

/// The number of queued transactions over all senders.
pub open spec fn total_len(es: Seq<AccountPool>) -> nat
    decreases es.len(),
{
    if es.len() == 0 {
        0
    } else {
        total_len(es.drop_last()) + es.last().txs@.len()
    }
}

/// The set of pooled hashes: the domain of the hash index.
pub open spec fn pooled_hashes(p: Pool) -> Set<Hash256> {
    Set::new(|h: Hash256| p.knows(h))
}

proof fn lemma_flatten(es: Seq<AccountPool>)
    requires
        hashes_unique(es),
    ensures
        all_hashes(es).len() == total_len(es),
        all_hashes(es).no_duplicates(),
        forall|h: Hash256| all_hashes(es).contains(h) <==> holds_hash(es, h),
    decreases es.len(),
{
    if es.len() > 0 {
        let n = es.len() - 1;
        let pre = es.drop_last();
        let lh = es.last().txs@.map_values(|t: RichTransaction| t.hash);
        assert forall|i: int, a: int, j: int, b: int|
            valid_pos(pre, i, a) && valid_pos(pre, j, b) && #[trigger] hash_at(pre, i, a) == #[trigger] hash_at(pre, j, b)
            implies i == j && a == b by {
            assert(pre[i] == es[i] && pre[j] == es[j]);
            assert(valid_pos(es, i, a) && valid_pos(es, j, b) && hash_at(es, i, a) == hash_at(es, j, b));
        }
        lemma_flatten(pre);
        let ah = all_hashes(pre);
        assert forall|a: int, b: int| 0 <= a < lh.len() && 0 <= b < lh.len() && a != b implies lh[a] != lh[b] by {
            assert(valid_pos(es, n, a) && valid_pos(es, n, b) && hash_at(es, n, a) == lh[a] && hash_at(es, n, b) == lh[b]);
        }
        assert forall|x: int, b: int| 0 <= x < ah.len() && 0 <= b < lh.len() implies ah[x] != lh[b] by {
            assert(ah.contains(ah[x]));
            if ah[x] == lh[b] {
                assert(holds_hash(pre, ah[x]));
                let (i, a) = choose|i: int, a: int| valid_pos(pre, i, a) && hash_at(pre, i, a) == ah[x];
                assert(pre[i] == es[i]);
                assert(valid_pos(es, i, a) && hash_at(es, i, a) == ah[x]);
                assert(valid_pos(es, n, b) && hash_at(es, n, b) == lh[b]);
            }
        }
        lemma_no_dup_in_concat(ah, lh);
        let all = ah + lh;
        assert(all == all_hashes(es));
        assert forall|h: Hash256| all.contains(h) <==> holds_hash(es, h) by {
            if all.contains(h) {
                let x = choose|x: int| 0 <= x < all.len() && all[x] == h;
                if x < ah.len() {
                    assert(ah[x] == h);
                    assert(ah.contains(h));
                    assert(holds_hash(pre, h));
                    let (i, a) = choose|i: int, a: int| valid_pos(pre, i, a) && hash_at(pre, i, a) == h;
                    assert(pre[i] == es[i]);
                    assert(valid_pos(es, i, a) && hash_at(es, i, a) == h);
                } else {
                    assert(valid_pos(es, n, x - ah.len()) && hash_at(es, n, x - ah.len()) == h);
                }
            }
            if holds_hash(es, h) {
                let (i, a) = choose|i: int, a: int| valid_pos(es, i, a) && hash_at(es, i, a) == h;
                if i < n {
                    assert(pre[i] == es[i]);
                    assert(valid_pos(pre, i, a) && hash_at(pre, i, a) == h);
                    assert(holds_hash(pre, h));
                    assert(ah.contains(h));
                    let x = choose|x: int| 0 <= x < ah.len() && ah[x] == h;
                    assert(all[x] == h);
                } else {
                    assert(all[ah.len() + a] == h);
                }
            }
        }
    }
}

/// The hash index has as many entries as all queues together hold.
pub proof fn lemma_index_size(p: Pool)
    requires
        p.wf(),
    ensures
        pooled_hashes(p).finite(),
        pooled_hashes(p).len() == total_len(p.entries()),
{
    let es = p.senders@;
    lemma_flatten(es);
    let all = all_hashes(es);
    assert(all.to_set() =~= pooled_hashes(p));
    seq_to_set_is_finite(all);
    all.unique_seq_to_set();
}

} // verus!
