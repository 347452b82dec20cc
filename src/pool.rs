//! The pool: per-sender queues of pending transactions, each queue holding
//! contiguous nonces from the sender's confirmed nonce and costing no more
//! in total than the sender's confirmed balance. Every transaction is
//! identified by its hash, which occurs once over all queues.
use crate::amount::{amount_ge, checked_sub, Amount};
use crate::lemmas::{
    lemma_account_absent, lemma_account_at, lemma_account_push, lemma_account_update,
    lemma_affordable_bounds, lemma_affordable_skip, lemma_prefix_agree, lemma_prefix_mono,
    lemma_absent_after_remove, lemma_prefix_split, lemma_remove, lemma_walk_bounds, lemma_unique_push, lemma_unique_update,
};
use crate::tx::{enrichment, Address, Hash256, RichTransaction};
use ethereum::Transaction;
use vstd::prelude::*;

verus! {

/// A sender's confirmed state at some block.
#[derive(Clone, Copy, Debug, PartialEq, Eq, Structural)]
pub struct AccountInfo {
    pub balance: Amount,
    pub nonce: u64,
}

/// Why a transaction was not admitted.
#[derive(Clone, Copy, Debug, PartialEq, Eq, Structural)]
pub enum ImportError {
    InvalidTransaction,
    NonceGap,
    StaleTransaction,
    InvalidSender,
    FeeTooLow,
    InsufficientBalance,
    /// A failure outside the admission rules; the pool's own checks never
    /// report it.
    Other,
}

/// The queue of one sender, with the confirmed nonce and balance it is
/// measured against.
pub struct AccountPool {
    pub sender: Address,
    pub nonce_offset: u64,
    pub balance: Amount,
    pub txs: Vec<RichTransaction>,
}

/// What an account entry holds: confirmed nonce, confirmed balance, queue.
pub type AccountState = (u64, Amount, Seq<RichTransaction>);

/// The total cost of the first `k` transactions of `q`.
pub open spec fn prefix_cost(q: Seq<RichTransaction>, k: int) -> nat
    decreases k,
{
    if k <= 0 {
        0
    } else {
        prefix_cost(q, k - 1) + q[k - 1].cost_value()
    }
}

/// Scanning from index `i` up, the first index whose transaction would take
/// the running cost past `budget` (or the queue's length where none does):
/// the length of the longest affordable prefix, when the first `i` are
/// affordable.
pub open spec fn affordable_from(q: Seq<RichTransaction>, budget: nat, i: int) -> int
    decreases q.len() - i,
{
    if i >= q.len() {
        q.len() as int
    } else if prefix_cost(q, i + 1) > budget {
        i
    } else {
        affordable_from(q, budget, i + 1)
    }
}

/// The length of the longest prefix of `q` whose total cost fits in `budget`.
pub open spec fn affordable_len(q: Seq<RichTransaction>, budget: nat) -> int {
    affordable_from(q, budget, 0)
}

/// A queue is well formed for a sender, confirmed nonce and balance.
pub open spec fn queue_wf(sender: Address, off: nat, bal: nat, q: Seq<RichTransaction>) -> bool {
    &&& forall|i: int|
        0 <= i < q.len() ==> (#[trigger] q[i]).wf() && q[i].sender == sender && q[i].nonce_value()
            == off + i && q[i].nonce_value() <= u64::MAX
    &&& prefix_cost(q, q.len() as int) <= bal
}

impl AccountPool {
    pub open spec fn state(&self) -> AccountState {
        (self.nonce_offset, self.balance, self.txs@)
    }

    pub open spec fn wf(&self) -> bool {
        queue_wf(self.sender, self.nonce_offset as nat, self.balance.value(), self.txs@)
    }
}

pub open spec fn valid_pos(es: Seq<AccountPool>, i: int, a: int) -> bool {
    0 <= i < es.len() && 0 <= a < es[i].txs@.len()
}

pub open spec fn hash_at(es: Seq<AccountPool>, i: int, a: int) -> Hash256 {
    es[i].txs@[a].hash
}

/// No hash occurs twice over all queues.
pub open spec fn hashes_unique(es: Seq<AccountPool>) -> bool {
    forall|i: int, a: int, j: int, b: int|
        #![trigger hash_at(es, i, a), hash_at(es, j, b)]
        valid_pos(es, i, a) && valid_pos(es, j, b) && hash_at(es, i, a) == hash_at(es, j, b) ==> i
            == j && a == b
}

/// No sender has two entries.
pub open spec fn senders_unique(es: Seq<AccountPool>) -> bool {
    forall|i: int, j: int|
        0 <= i < es.len() && 0 <= j < es.len() && (#[trigger] es[i]).sender == (#[trigger] es[j]).sender
            ==> i == j
}

pub open spec fn entries_wf(es: Seq<AccountPool>) -> bool {
    &&& forall|i: int| 0 <= i < es.len() ==> (#[trigger] es[i]).wf()
    &&& senders_unique(es)
    &&& hashes_unique(es)
}

/// Some queue holds a transaction with hash `h`.
pub open spec fn holds_hash(es: Seq<AccountPool>, h: Hash256) -> bool {
    exists|i: int, a: int| valid_pos(es, i, a) && hash_at(es, i, a) == h
}

/// The entry of sender `s`, if there is one.
pub open spec fn account_in(es: Seq<AccountPool>, s: Address) -> Option<AccountState> {
    if exists|i: int| 0 <= i < es.len() && (#[trigger] es[i]).sender == s {
        let i = choose|i: int| 0 <= i < es.len() && (#[trigger] es[i]).sender == s;
        Some(es[i].state())
    } else {
        None
    }
}

/// What importing `tx` into the queue `q` of a sender with confirmed nonce
/// `off` and balance `bal` yields: the new queue, or why it is refused. The
/// transaction takes the slot of its nonce, replacing a cheaper one there or
/// extending the queue by one; then the queue keeps its longest prefix that
/// the balance pays for.
pub open spec fn admission(off: u64, bal: Amount, q: Seq<RichTransaction>, tx: RichTransaction) -> Result<
    Seq<RichTransaction>,
    ImportError,
> {
    let n = tx.nonce_value();
    if n < off {
        Err(ImportError::StaleTransaction)
    } else if n - off > q.len() {
        Err(ImportError::NonceGap)
    } else {
        let k = n - off;
        if k < q.len() && q[k].gas_price.value() >= tx.gas_price.value() {
            Err(ImportError::FeeTooLow)
        } else if bal.value() < prefix_cost(q, k) + tx.cost_value() {
            Err(ImportError::InsufficientBalance)
        } else {
            let cand = if k < q.len() {
                q.update(k, tx)
            } else {
                q.push(tx)
            };
            Ok(cand.take(affordable_len(cand, bal.value())))
        }
    }
}

/// Where the transactions of `b` before index `j` include one from `s` with
/// nonce `n`, the index of the last such; else -1.
pub open spec fn last_match(b: Seq<RichTransaction>, s: Address, n: int, j: int) -> int
    decreases j,
{
    if j <= 0 {
        -1
    } else if b[j - 1].sender == s && b[j - 1].nonce_value() == n {
        j - 1
    } else {
        last_match(b, s, n, j - 1)
    }
}

/// Some transaction of `b` comes from `s`.
pub open spec fn from_sender(b: Seq<RichTransaction>, s: Address) -> bool {
    exists|j: int| 0 <= j < b.len() && (#[trigger] b[j]).sender == s
}

/// Some transaction of `b` from `s` has a nonce beyond 64 bits.
pub open spec fn poisoned(b: Seq<RichTransaction>, s: Address) -> bool {
    exists|j: int| 0 <= j < b.len() && (#[trigger] b[j]).sender == s && b[j].nonce_value() > u64::MAX
}

/// Walks the nonces of `s` in `b` upwards from `off + k`, each matched by
/// the last transaction of `b` with that nonce against the queue slot of the
/// same nonce. `Some(m)` where the nonces of `s` in `b` are exactly
/// `off .. off + m` and each matches; `None` on a mismatch, a gap, a nonce
/// below `off` or more nonces than queued transactions.
pub open spec fn confirm_walk(b: Seq<RichTransaction>, s: Address, off: nat, q: Seq<RichTransaction>, k: int) -> Option<nat>
    decreases q.len() - k,
{
    let m = last_match(b, s, off + k, b.len() as int);
    if m >= 0 {
        if k < 0 || k >= q.len() || q[k].hash != b[m].hash {
            None
        } else {
            confirm_walk(b, s, off, q, k + 1)
        }
    } else if k >= 0 && forall|j: int|
        0 <= j < b.len() && (#[trigger] b[j]).sender == s ==> off <= b[j].nonce_value() < off + k {
        Some(k as nat)
    } else {
        None
    }
}

/// How many queued transactions of `s` the block `b` confirms, or `None`
/// where the block disagrees with the queue.
pub open spec fn confirm_count(b: Seq<RichTransaction>, s: Address, off: u64, q: Seq<RichTransaction>) -> Option<nat> {
    if poisoned(b, s) {
        None
    } else {
        match confirm_walk(b, s, off as nat, q, 0) {
            Some(m) => if off + m <= u64::MAX {
                Some(m)
            } else {
                None
            },
            None => None,
        }
    }
}

/// The entry of `s` after block `b` is applied to entry `st`: untouched where
/// `b` has nothing from `s`; else the confirmed prefix leaves the queue and
/// the nonce moves past it, or the entry is dropped.
pub open spec fn settle(b: Seq<RichTransaction>, s: Address, st: AccountState) -> Option<AccountState> {
    if !from_sender(b, s) {
        Some(st)
    } else {
        match confirm_count(b, s, st.0, st.2) {
            Some(m) => Some(((st.0 + m) as u64, st.1, st.2.skip(m as int))),
            None => None,
        }
    }
}

/// The blocks `pre.head() + 1`, and no other, follow the head.
pub open spec fn is_next_block(pre: Pool, block: u64) -> bool {
    pre.block < u64::MAX && block == pre.block + 1
}

/// The block `pre.head() - 1`, and no other, precedes the head.
pub open spec fn is_previous_block(pre: Pool, block: u64) -> bool {
    pre.block > 0 && block == pre.block - 1
}

/// The entry of `s` after block `b` is applied to `pre`.
pub open spec fn applied(pre: Pool, b: Seq<RichTransaction>, s: Address) -> Option<AccountState> {
    match pre.account(s) {
        Some(st) => settle(b, s, st),
        None => None,
    }
}

/// The entry of `s` after the block holding `b` is reverted from `pre`.
pub open spec fn reverted(pre: Pool, b: Seq<RichTransaction>, s: Address) -> Option<AccountState> {
    if from_sender(b, s) {
        None
    } else {
        pre.account(s)
    }
}

/// What applying block `block` with transactions `b` does.
pub open spec fn apply_post(pre: Pool, block: u64, b: Seq<RichTransaction>, post: Pool) -> bool {
    &&& post.block == block
    &&& if is_next_block(pre, block) {
        forall|s: Address| #[trigger] post.account(s) == applied(pre, b, s)
    } else {
        post.entries().len() == 0
    }
}

/// What reverting to block `block`, whose successor held `b`, does.
pub open spec fn revert_post(pre: Pool, block: u64, b: Seq<RichTransaction>, post: Pool) -> bool {
    &&& post.block == block
    &&& if is_previous_block(pre, block) {
        forall|s: Address| #[trigger] post.account(s) == reverted(pre, b, s)
    } else {
        post.entries().len() == 0
    }
}

/// Whether some transaction of `b` comes from `s`.
fn in_block(b: &Vec<RichTransaction>, s: Address) -> (r: bool)
    ensures
        r == from_sender(b@, s),
{
    let mut j: usize = 0;
    while j < b.len()
        invariant
            j <= b@.len(),
            forall|x: int| 0 <= x < j ==> (#[trigger] b@[x]).sender != s,
        decreases b@.len() - j,
    {
        if b[j].sender == s {
            assert(b@[j as int].sender == s);
            return true;
        }
        j = j + 1;
    }
    false
}

/// The index of the last transaction of `b` from `s` with nonce `n`.
fn last_index(b: &Vec<RichTransaction>, s: Address, n: u128) -> (r: Option<usize>)
    requires
        !poisoned(b@, s),
    ensures
        match r {
            Some(m) => m as int == last_match(b@, s, n as int, b@.len() as int) && m < b@.len(),
            None => last_match(b@, s, n as int, b@.len() as int) == -1,
        },
{
    let mut j: usize = b.len();
    while j > 0
        invariant
            j <= b@.len(),
            !poisoned(b@, s),
            last_match(b@, s, n as int, b@.len() as int) == last_match(b@, s, n as int, j as int),
        decreases j,
    {
        if b[j - 1].sender == s {
            assert(b@[j - 1].sender == s);
            match b[j - 1].nonce.to_u64() {
                Some(x) => {
                    if x as u128 == n {
                        return Some(j - 1);
                    }
                },
                None => {},
            }
        }
        j = j - 1;
    }
    None
}

/// How many transactions at the front of the queue of `e` block `b` confirms.
fn confirmed_count(e: &AccountPool, b: &Vec<RichTransaction>) -> (r: Option<usize>)
    ensures
        match r {
            Some(m) => confirm_count(b@, e.sender, e.nonce_offset, e.txs@) == Some(m as nat),
            None => confirm_count(b@, e.sender, e.nonce_offset, e.txs@) is None,
        },
{
    let s = e.sender;
    let off = e.nonce_offset;
    let ghost q = e.txs@;
    let mut j: usize = 0;
    while j < b.len()
        invariant
            s == e.sender,
            off == e.nonce_offset,
            q == e.txs@,
            j <= b@.len(),
            forall|x: int| 0 <= x < j ==> (#[trigger] b@[x]).sender != s || b@[x].nonce_value() <= u64::MAX,
        decreases b@.len() - j,
    {
        if b[j].sender == s && b[j].nonce.to_u64().is_none() {
            assert(b@[j as int].sender == s && b@[j as int].nonce_value() > u64::MAX);
            assert(poisoned(b@, s));
            return None;
        }
        j = j + 1;
    }
    let mut k: usize = 0;
    loop
        invariant
            s == e.sender,
            off == e.nonce_offset,
            k <= q.len(),
            q == e.txs@,
            !poisoned(b@, s),
            confirm_walk(b@, s, off as nat, q, 0) == confirm_walk(b@, s, off as nat, q, k as int),
        ensures
            k <= q.len(),
            last_match(b@, s, off + k, b@.len() as int) == -1,
            confirm_walk(b@, s, off as nat, q, 0) == confirm_walk(b@, s, off as nat, q, k as int),
        decreases q.len() - k,
    {
        match last_index(b, s, off as u128 + k as u128) {
            None => break,
            Some(m) => {
                if k >= e.txs.len() || e.txs[k].hash != b[m].hash {
                    assert(confirm_walk(b@, s, off as nat, q, k as int) is None);
                    return None;
                }
                k = k + 1;
            },
        }
    }
    let mut j: usize = 0;
    while j < b.len()
        invariant
            s == e.sender,
            off == e.nonce_offset,
            q == e.txs@,
            j <= b@.len(),
            !poisoned(b@, s),
            k <= q.len(),
            last_match(b@, s, off + k, b@.len() as int) == -1,
            confirm_walk(b@, s, off as nat, q, 0) == confirm_walk(b@, s, off as nat, q, k as int),
            forall|x: int|
                0 <= x < j && (#[trigger] b@[x]).sender == s ==> off <= b@[x].nonce_value() < off + k,
        decreases b@.len() - j,
    {
        if b[j].sender == s {
            assert(b@[j as int].sender == s);
            match b[j].nonce.to_u64() {
                Some(x) => {
                    if x < off || x as u128 >= off as u128 + k as u128 {
                        assert(!(off <= b@[j as int].nonce_value() < off + k));
                        assert(confirm_walk(b@, s, off as nat, q, k as int) is None);
                        return None;
                    }
                },
                None => {
                    return None;
                },
            }
        }
        j = j + 1;
    }
    if off as u128 + k as u128 > u64::MAX as u128 {
        return None;
    }
    Some(k)
}

/// Removes the first `m` transactions of the queue and advances its nonce past them.
fn advance(e: &mut AccountPool, m: usize)
    requires
        old(e).wf(),
        m <= old(e).txs@.len(),
        old(e).nonce_offset + m <= u64::MAX,
    ensures
        final(e).wf(),
        final(e).txs@ == old(e).txs@.skip(m as int),
        final(e).nonce_offset == old(e).nonce_offset + m,
        final(e).sender == old(e).sender,
        final(e).balance == old(e).balance,
{
    let ghost q = e.txs@;
    let tail = e.txs.split_off(m);
    e.txs = tail;
    e.nonce_offset = e.nonce_offset + m as u64;
    proof {
        assert(e.txs@ =~= q.skip(m as int));
        lemma_prefix_split(q, m as int, q.len() - m);
        assert forall|x: int| 0 <= x < e.txs@.len() implies (#[trigger] e.txs@[x]).wf()
            && e.txs@[x].sender == e.sender && e.txs@[x].nonce_value() == e.nonce_offset + x by {
            assert(e.txs@[x] == q[x + m]);
        }
    }
}

/// `b` is `txs` enriched one by one, in order.
pub open spec fn enriched(txs: Seq<Transaction>, b: Seq<RichTransaction>) -> bool {
    &&& b.len() == txs.len()
    &&& forall|i: int|
        0 <= i < b.len() ==> (#[trigger] b[i]).inner == txs[i] && b[i].wf() && enrichment(
            txs[i],
            Some(b[i]),
        )
}

/// Some transaction of `txs` cannot be enriched.
pub open spec fn enrichment_fails(txs: Seq<Transaction>) -> bool {
    exists|i: int| 0 <= i < txs.len() && enrichment(#[trigger] txs[i], None)
}

/// Enriches each transaction in order; `None` where one cannot be.
fn enrich_all(txs: Vec<Transaction>) -> (r: Option<Vec<RichTransaction>>)
    ensures
        r matches Some(b) ==> enriched(txs@, b@),
        r is None ==> enrichment_fails(txs@),
        txs@.len() == 0 ==> r is Some,
{
    let ghost orig = txs@;
    let mut rest = txs;
    let mut out: Vec<RichTransaction> = Vec::new();
    while rest.len() > 0
        invariant
            orig == txs@,
            out@.len() + rest@.len() == orig.len(),
            rest@ == orig.skip(out@.len() as int),
            enriched(orig.take(out@.len() as int), out@),
        decreases rest@.len(),
    {
        let tx = rest.remove(0);
        let ghost t0 = tx;
        assert(t0 == orig[out@.len() as int]);
        match RichTransaction::try_from(tx) {
            None => {
                assert(enrichment(orig[out@.len() as int], None));
                assert(0 <= out@.len() < orig.len());
                assert(enrichment_fails(orig));
                return None;
            },
            Some(t) => {
                out.push(t);
            },
        }
        assert(rest@ =~= orig.skip(out@.len() as int));
    }
    assert(orig.take(out@.len() as int) =~= orig);
    Some(out)
}

/// The balance left after paying for the first `k` transactions of `q`.
fn remaining_balance(q: &Vec<RichTransaction>, bal: Amount, k: usize) -> (r: Amount)
    requires
        k <= q@.len(),
        forall|x: int| 0 <= x < q@.len() ==> (#[trigger] q@[x]).wf(),
        prefix_cost(q@, q@.len() as int) <= bal.value(),
    ensures
        r.value() + prefix_cost(q@, k as int) == bal.value(),
{
    let mut left = bal;
    let mut j: usize = 0;
    while j < k
        invariant
            k <= q@.len(),
            j <= k,
            forall|x: int| 0 <= x < q@.len() ==> (#[trigger] q@[x]).wf(),
            prefix_cost(q@, q@.len() as int) <= bal.value(),
            left.value() + prefix_cost(q@, j as int) == bal.value(),
        decreases k - j,
    {
        proof {
            lemma_prefix_mono(q@, j + 1, q@.len() as int);
            assert(q@[j as int].wf());
        }
        left = match checked_sub(left, q[j].cost) {
            Some(v) => v,
            None => {
                proof {
                    assert(false);
                }
                left
            },
        };
        j = j + 1;
    }
    left
}

/// The length of the longest prefix of `q` that `bal` pays for, where the
/// first `start` are known to be paid for and `left` is what remains then.
fn affordable_prefix(q: &Vec<RichTransaction>, bal: Amount, start: usize, left: Amount) -> (r: usize)
    requires
        start <= q@.len(),
        forall|x: int| 0 <= x < q@.len() ==> (#[trigger] q@[x]).wf(),
        prefix_cost(q@, start as int) <= bal.value(),
        left.value() + prefix_cost(q@, start as int) == bal.value(),
    ensures
        r == affordable_len(q@, bal.value()),
{
    proof {
        lemma_affordable_skip(q@, bal.value(), start as int);
    }
    let mut j: usize = start;
    let mut left = left;
    while j < q.len()
        invariant
            start <= j <= q@.len(),
            forall|x: int| 0 <= x < q@.len() ==> (#[trigger] q@[x]).wf(),
            prefix_cost(q@, j as int) <= bal.value(),
            left.value() + prefix_cost(q@, j as int) == bal.value(),
            affordable_from(q@, bal.value(), j as int) == affordable_len(q@, bal.value()),
        ensures
            j == affordable_len(q@, bal.value()),
        decreases q@.len() - j,
    {
        assert(q@[j as int].wf());
        match checked_sub(left, q[j].cost) {
            Some(v) => {
                left = v;
                j = j + 1;
            },
            None => {
                assert(prefix_cost(q@, j as int + 1) > bal.value());
                assert(affordable_from(q@, bal.value(), j as int) == j);
                break;
            },
        }
    }
    j
}

/// Puts `tx` into slot `k` of the queue, replacing what is there or
/// extending the queue, and keeps the longest prefix that the balance pays
/// for; `left` is the balance that remains after slot `k`.
#[verifier::rlimit(50)]
fn place(e: &mut AccountPool, k: usize, tx: RichTransaction, left: Amount)
    requires
        old(e).wf(),
        k <= old(e).txs@.len(),
        tx.wf(),
        tx.sender == old(e).sender,
        tx.nonce_value() == old(e).nonce_offset + k,
        tx.nonce_value() <= u64::MAX,
        left.value() + prefix_cost(old(e).txs@, k as int) + tx.cost_value() == old(e).balance.value(),
    ensures
        ({
            let q = old(e).txs@;
            let cand = if k < q.len() { q.update(k as int, tx) } else { q.push(tx) };
            final(e).txs@ == cand.take(affordable_len(cand, old(e).balance.value()))
        }),
        final(e).wf(),
        final(e).sender == old(e).sender,
        final(e).nonce_offset == old(e).nonce_offset,
        final(e).balance == old(e).balance,
        k < final(e).txs@.len(),
        final(e).txs@[k as int] == tx,
        forall|b: int|
            0 <= b < final(e).txs@.len() && b != k ==> b < old(e).txs@.len() && #[trigger] final(e).txs@[b]
                == old(e).txs@[b],
{
    let ghost q = e.txs@;
    let ghost cand = if k < q.len() { q.update(k as int, tx) } else { q.push(tx) };
    let ghost bal = e.balance.value();
    if k < e.txs.len() {
        let _replaced = e.txs.remove(k);
        e.txs.insert(k, tx);
    } else {
        e.txs.push(tx);
    }
    assert(e.txs@ =~= cand);
    proof {
        lemma_prefix_agree(q, cand, k as int);
        assert(prefix_cost(cand, k as int + 1) == prefix_cost(q, k as int) + tx.cost_value());
        lemma_affordable_bounds(cand, bal, k as int + 1);
        lemma_affordable_skip(cand, bal, k as int + 1);
        assert forall|x: int| 0 <= x < cand.len() implies (#[trigger] cand[x]).wf() by {
            if x != k {
                assert(cand[x] == q[x]);
            }
        }
    }
    let n = e.txs.len();
    assert(k < n);
    let j = affordable_prefix(&e.txs, e.balance, k + 1, left);
    e.txs.truncate(j);
    proof {
        let target = cand.take(j as int);
        assert(e.txs@ =~= target);
        lemma_prefix_agree(target, cand, j as int);
        assert forall|x: int| 0 <= x < target.len() implies (#[trigger] target[x]).wf() && target[x].sender == e.sender
            && target[x].nonce_value() == e.nonce_offset + x by {
            if x != k {
                assert(target[x] == q[x]);
            }
        }
    }
}

/// The pool: the confirmed head block and one entry per sender with pending
/// transactions.
pub struct Pool {
    pub block: u64,
    pub senders: Vec<AccountPool>,
}

impl Pool {
    pub open spec fn head(&self) -> u64 {
        self.block
    }

    pub open spec fn entries(&self) -> Seq<AccountPool> {
        self.senders@
    }

    pub open spec fn wf(&self) -> bool {
        entries_wf(self.senders@)
    }

    pub open spec fn account(&self, s: Address) -> Option<AccountState> {
        account_in(self.senders@, s)
    }

    pub open spec fn knows(&self, h: Hash256) -> bool {
        holds_hash(self.senders@, h)
    }

    /// The entry that importing a transaction of sender `s` works on: the
    /// pooled one, else one made from `info`.
    pub open spec fn base_account(&self, s: Address, info: Option<AccountInfo>) -> Option<
        AccountState,
    > {
        match self.account(s) {
            Some(a) => Some(a),
            None => match info {
                Some(i) => Some((i.nonce, i.balance, Seq::<RichTransaction>::empty())),
                None => None,
            },
        }
    }

    /// What `import(tx, info)` does, from `pre` to `post` with result `r`.
    pub open spec fn import_post(
        pre: Pool,
        tx: RichTransaction,
        info: Option<AccountInfo>,
        r: Result<bool, ImportError>,
        post: Pool,
    ) -> bool {
        if tx.nonce_value() > u64::MAX {
            r == Err::<bool, ImportError>(ImportError::InvalidTransaction) && post == pre
        } else if pre.knows(tx.hash) {
            r == Ok::<bool, ImportError>(false) && post == pre
        } else {
            match pre.base_account(tx.sender, info) {
                None => r == Err::<bool, ImportError>(ImportError::InvalidSender) && post == pre,
                Some(base) => match admission(base.0, base.1, base.2, tx) {
                    Err(e) => r == Err::<bool, ImportError>(e) && post == pre,
                    Ok(q) => {
                        &&& r == Ok::<bool, ImportError>(true)
                        &&& post.block == pre.block
                        &&& post.account(tx.sender) == Some((base.0, base.1, q))
                        &&& forall|s: Address| s != tx.sender ==> #[trigger] post.account(s) == pre.account(s)
                    },
                },
            }
        }
    }

    /// An empty pool at head `block`.
    pub fn new(block: u64) -> (r: Pool)
        ensures
            r.wf(),
            r.head() == block,
            r.entries().len() == 0,
    {
        Pool { block, senders: Vec::new() }
    }

    /// The confirmed head block.
    pub fn block(&self) -> (r: u64)
        ensures
            r == self.head(),
    {
        self.block
    }

    /// Drops every pending transaction; the head stays.
    pub fn erase(&mut self)
        ensures
            final(self).wf(),
            final(self).head() == old(self).head(),
            final(self).entries().len() == 0,
    {
        self.senders = Vec::new();
    }

    fn find_sender(&self, s: Address) -> (r: Option<usize>)
        ensures
            r matches Some(i) ==> i < self.senders@.len() && self.senders@[i as int].sender == s,
            r matches None ==> forall|i: int| 0 <= i < self.senders@.len() ==> (#[trigger] self.senders@[i]).sender != s,
    {
        let mut i: usize = 0;
        while i < self.senders.len()
            invariant
                i <= self.senders@.len(),
                forall|j: int| 0 <= j < i ==> (#[trigger] self.senders@[j]).sender != s,
            decreases self.senders@.len() - i,
        {
            if self.senders[i].sender == s {
                return Some(i);
            }
            i = i + 1;
        }
        None
    }

    fn find_hash(&self, h: Hash256) -> (r: Option<(usize, usize)>)
        ensures
            r matches Some(p) ==> valid_pos(self.senders@, p.0 as int, p.1 as int) && hash_at(
                self.senders@,
                p.0 as int,
                p.1 as int,
            ) == h,
            r matches None ==> !self.knows(h),
    {
        let mut i: usize = 0;
        while i < self.senders.len()
            invariant
                i <= self.senders@.len(),
                forall|j: int, a: int|
                    0 <= j < i && valid_pos(self.senders@, j, a) ==> #[trigger] hash_at(self.senders@, j, a) != h,
            decreases self.senders@.len() - i,
        {
            let q = &self.senders[i].txs;
            let mut a: usize = 0;
            while a < q.len()
                invariant
                    i < self.senders@.len(),
                    *q == self.senders@[i as int].txs,
                    a <= q@.len(),
                    forall|j: int, b: int|
                        0 <= j < i && valid_pos(self.senders@, j, b) ==> #[trigger] hash_at(self.senders@, j, b) != h,
                    forall|b: int| 0 <= b < a ==> #[trigger] hash_at(self.senders@, i as int, b) != h,
                decreases q@.len() - a,
            {
                if q[a].hash == h {
                    return Some((i, a));
                }
                a = a + 1;
            }
            i = i + 1;
        }
        None
    }

    /// The pooled transaction with hash `h`, if any.
    pub fn get(&self, h: Hash256) -> (r: Option<&Transaction>)
        ensures
            r matches None ==> !self.knows(h),
            r matches Some(t) ==> exists|i: int, a: int|
                valid_pos(self.entries(), i, a) && hash_at(self.entries(), i, a) == h
                    && self.entries()[i].txs@[a].inner == *t,
    {
        match self.find_hash(h) {
            None => None,
            Some((i, a)) => {
                let t = &self.senders[i].txs[a].inner;
                assert(valid_pos(self.entries(), i as int, a as int) && hash_at(self.entries(), i as int, a as int) == h
                    && self.entries()[i as int].txs@[a as int].inner == *t);
                Some(t)
            },
        }
    }

    /// Whether importing `tx` would need the sender's confirmed state: its
    /// nonce fits in 64 bits, it is not pooled, and its sender has no entry.
    pub fn needs_account_info(&self, tx: &RichTransaction) -> (r: bool)
        ensures
            r == (tx.nonce_value() <= u64::MAX && !self.knows(tx.hash) && self.account(tx.sender) is None),
    {
        if tx.nonce.to_u64().is_none() {
            return false;
        }
        if self.find_hash(tx.hash).is_some() {
            return false;
        }
        let r = self.find_sender(tx.sender).is_none();
        proof {
            if !r {
                let i = choose|i: int| 0 <= i < self.senders@.len() && (#[trigger] self.senders@[i]).sender == tx.sender;
                assert(self.senders@[i].sender == tx.sender);
            }
        }
        r
    }

    /// Adds the entry of a sender that has none, holding one new transaction.
    fn add_sender(&mut self, e: AccountPool)
        requires
            entries_wf(old(self).senders@),
            e.wf(),
            e.txs@.len() == 1,
            !holds_hash(old(self).senders@, e.txs@[0].hash),
            forall|i: int| 0 <= i < old(self).senders@.len() ==> (#[trigger] old(self).senders@[i]).sender != e.sender,
        ensures
            entries_wf(final(self).senders@),
            final(self).block == old(self).block,
            final(self).account(e.sender) == Some(e.state()),
            forall|s: Address| s != e.sender ==> #[trigger] final(self).account(s) == old(self).account(s),
    {
        let ghost pre = self.senders@;
        proof {
            lemma_account_push(pre, e);
            lemma_unique_push(pre, e);
        }
        self.senders.push(e);
        proof {
            assert forall|x: int| 0 <= x < self.senders@.len() implies (#[trigger] self.senders@[x]).wf() by {
                if x < pre.len() {
                    assert(self.senders@[x] == pre[x]);
                }
            }
        }
    }

    /// Puts a new transaction into slot `k` of entry `i` (see `place`).
    fn replace_in_entry(&mut self, i: usize, k: usize, tx: RichTransaction, left: Amount)
        requires
            entries_wf(old(self).senders@),
            i < old(self).senders@.len(),
            k <= old(self).senders@[i as int].txs@.len(),
            tx.wf(),
            tx.sender == old(self).senders@[i as int].sender,
            tx.nonce_value() == old(self).senders@[i as int].nonce_offset + k,
            tx.nonce_value() <= u64::MAX,
            left.value() + prefix_cost(old(self).senders@[i as int].txs@, k as int) + tx.cost_value()
                == old(self).senders@[i as int].balance.value(),
            !holds_hash(old(self).senders@, tx.hash),
        ensures
            entries_wf(final(self).senders@),
            final(self).block == old(self).block,
            ({
                let e = old(self).senders@[i as int];
                let q = e.txs@;
                let cand = if k < q.len() { q.update(k as int, tx) } else { q.push(tx) };
                final(self).account(tx.sender) == Some(
                    (e.nonce_offset, e.balance, cand.take(affordable_len(cand, e.balance.value()))),
                )
            }),
            forall|s: Address| s != tx.sender ==> #[trigger] final(self).account(s) == old(self).account(s),
    {
        let ghost pre = self.senders@;
        let mut e = self.senders.remove(i);
        assert(e == pre[i as int]);
        place(&mut e, k, tx, left);
        proof {
            let g = |b: int| b;
            lemma_unique_update(pre, i as int, e, g, k as int);
            lemma_account_update(pre, i as int, e);
        }
        self.senders.insert(i, e);
        proof {
            assert(self.senders@ =~= pre.update(i as int, e));
            assert forall|x: int| 0 <= x < self.senders@.len() implies (#[trigger] self.senders@[x]).wf() by {
                if x != i {
                    assert(self.senders@[x] == pre[x]);
                }
            }
        }
    }

    /// Admits `tx` to its sender's queue. `info` is the sender's confirmed
    /// state at the head block; it is read only where the sender has no
    /// entry yet. Returns `Ok(true)` when the transaction was added,
    /// `Ok(false)` when it was already pooled; on an error nothing changes.
    pub fn import(&mut self, tx: RichTransaction, info: Option<AccountInfo>) -> (r: Result<bool, ImportError>)
        requires
            old(self).wf(),
            tx.wf(),
        ensures
            final(self).wf(),
            Pool::import_post(*old(self), tx, info, r, *final(self)),
    {
        let ghost pre = *self;
        let nonce = match tx.nonce.to_u64() {
            None => return Err(ImportError::InvalidTransaction),
            Some(n) => n,
        };
        if self.find_hash(tx.hash).is_some() {
            return Ok(false);
        }
        let idx = self.find_sender(tx.sender);
        let (off, bal) = match idx {
            Some(i) => (self.senders[i].nonce_offset, self.senders[i].balance),
            None => match info {
                None => {
                    proof {
                        lemma_account_absent(self.senders@, tx.sender);
                    }
                    return Err(ImportError::InvalidSender);
                },
                Some(inf) => (inf.nonce, inf.balance),
            },
        };
        let ghost q: Seq<RichTransaction> = match idx {
            Some(i) => self.senders@[i as int].txs@,
            None => Seq::empty(),
        };
        proof {
            match idx {
                Some(i) => lemma_account_at(self.senders@, i as int),
                None => lemma_account_absent(self.senders@, tx.sender),
            }
            assert(self.base_account(tx.sender, info) == Some((off, bal, q)));
            assert(queue_wf(tx.sender, off as nat, bal.value(), q));
        }
        if nonce < off {
            return Err(ImportError::StaleTransaction);
        }
        let k64: u64 = nonce - off;
        let len: usize = match idx {
            Some(i) => self.senders[i].txs.len(),
            None => 0,
        };
        if k64 > len as u64 {
            return Err(ImportError::NonceGap);
        }
        let k: usize = k64 as usize;
        // The balance left after the transactions before slot `k`.
        let left = match idx {
            None => bal,
            Some(i) => {
                let left = remaining_balance(&self.senders[i].txs, bal, k);
                if k < len && amount_ge(self.senders[i].txs[k].gas_price, tx.gas_price) {
                    return Err(ImportError::FeeTooLow);
                }
                left
            },
        };
        let left = match checked_sub(left, tx.cost) {
            Some(v) => v,
            None => return Err(ImportError::InsufficientBalance),
        };
        let ghost cand = if k < q.len() { q.update(k as int, tx) } else { q.push(tx) };
        let ghost target = cand.take(affordable_len(cand, bal.value()));
        proof {
            assert(admission(off, bal, q, tx) == Ok::<Seq<RichTransaction>, ImportError>(target));
            lemma_prefix_agree(q, cand, k as int);
            assert(prefix_cost(cand, k as int + 1) == prefix_cost(q, k as int) + tx.cost_value());
            lemma_affordable_skip(cand, bal.value(), k as int + 1);
            lemma_affordable_bounds(cand, bal.value(), k as int + 1);
        }
        match idx {
            None => {
                let sender = tx.sender;
                let mut txs: Vec<RichTransaction> = Vec::new();
                txs.push(tx);
                let e = AccountPool { sender, nonce_offset: off, balance: bal, txs };
                proof {
                    assert(cand =~= seq![tx]);
                    assert(target =~= cand);
                    assert(e.txs@ =~= seq![tx]);
                }
                self.add_sender(e);
            },
            Some(i) => {
                self.replace_in_entry(i, k, tx, left);
            },
        }
        Ok(true)
    }

    fn drop_entry(&mut self, i: usize)
        requires
            entries_wf(old(self).senders@),
            i < old(self).senders@.len(),
        ensures
            entries_wf(final(self).senders@),
            final(self).senders@ == old(self).senders@.remove(i as int),
            final(self).block == old(self).block,
    {
        proof {
            lemma_remove(self.senders@, i as int);
        }
        let ghost cur = self.senders@;
        self.senders.remove(i);
        proof {
            let nw = self.senders@;
            assert forall|j: int| 0 <= j < nw.len() implies (#[trigger] nw[j]).wf() by {
                assert(nw[j] == cur[if j < i { j } else { j + 1 }]);
            }
        }
    }

    /// Applies block `block`, whose transactions are `b`. Where `block`
    /// follows the head, each sender with transactions in `b` has its
    /// confirmed prefix removed and its nonce advanced, or is dropped where
    /// the block disagrees with its queue; other senders stay. Otherwise the
    /// pool is emptied. Either way `block` becomes the head.
    pub fn apply_rich_block(&mut self, block: u64, b: &Vec<RichTransaction>)
        requires
            old(self).wf(),
        ensures
            final(self).wf(),
            apply_post(*old(self), block, b@, *final(self)),
    {
        let ghost pre = *self;
        if self.block == u64::MAX || self.block + 1 != block {
            self.senders = Vec::new();
            self.block = block;
            return;
        }
        let mut i: usize = 0;
        while i < self.senders.len()
            invariant
                entries_wf(self.senders@),
                i <= self.senders@.len(),
                pre.wf(),
                forall|j: int|
                    0 <= j < i ==> Some((#[trigger] self.senders@[j]).state()) == applied(pre, b@, self.senders@[j].sender),
                forall|j: int|
                    i <= j < self.senders@.len() ==> Some((#[trigger] self.senders@[j]).state()) == pre.account(
                        self.senders@[j].sender,
                    ),
                forall|s: Address|
                    (forall|j: int| 0 <= j < self.senders@.len() ==> (#[trigger] self.senders@[j]).sender != s)
                        ==> #[trigger] applied(pre, b@, s) is None,
            decreases self.senders@.len() - i,
        {
            let ghost cur = self.senders@;
            let s = self.senders[i].sender;
            let ghost st = cur[i as int].state();
            assert(Some(st) == pre.account(s));
            if !in_block(b, s) {
                i = i + 1;
            } else {
                match confirmed_count(&self.senders[i], b) {
                    None => {
                        self.drop_entry(i);
                        proof {
                            let nw = self.senders@;
                            assert forall|j: int| 0 <= j < nw.len() implies #[trigger] nw[j] == cur[if j < i { j } else { j + 1 }] by {}
                            assert forall|x: Address|
                                (forall|j: int| 0 <= j < nw.len() ==> (#[trigger] nw[j]).sender != x)
                                implies #[trigger] applied(pre, b@, x) is None by {
                                if x != s {
                                    lemma_absent_after_remove(cur, i as int, x);
                                }
                            }
                        }
                    },
                    Some(m) => {
                        let mut e = self.senders.remove(i);
                        assert(e == cur[i as int]);
                        let ghost q = e.txs@;
                        proof {
                            lemma_walk_bounds(b@, s, e.nonce_offset as nat, q, 0, m as nat);
                        }
                        advance(&mut e, m);
                        proof {
                            assert(Some(e.state()) == applied(pre, b@, s));
                            let g = |x: int| x + m;
                            lemma_unique_update(cur, i as int, e, g, -1);
                            lemma_account_update(cur, i as int, e);
                        }
                        self.senders.insert(i, e);
                        proof {
                            assert(self.senders@ =~= cur.update(i as int, e));
                            assert forall|j: int| 0 <= j < self.senders@.len() implies (#[trigger] self.senders@[j]).wf() by {
                                if j != i {
                                    assert(self.senders@[j] == cur[j]);
                                }
                            }
                            let nw = self.senders@;
                            assert forall|x: Address|
                                (forall|j: int| 0 <= j < nw.len() ==> (#[trigger] nw[j]).sender != x)
                                implies #[trigger] applied(pre, b@, x) is None by {
                                assert forall|j: int| 0 <= j < cur.len() implies (#[trigger] cur[j]).sender != x by {
                                    assert(nw[j].sender == cur[j].sender);
                                }
                            }
                        }
                        i = i + 1;
                    },
                }
            }
        }
        proof {
            let es = self.senders@;
            assert forall|x: Address| #[trigger] account_in(es, x) == applied(pre, b@, x) by {
                if exists|j: int| 0 <= j < es.len() && (#[trigger] es[j]).sender == x {
                    let j = choose|j: int| 0 <= j < es.len() && (#[trigger] es[j]).sender == x;
                    lemma_account_at(es, j);
                } else {
                    lemma_account_absent(es, x);
                }
            }
        }
        self.block = block;
    }

    /// Reverts the head to `block`, the parent of the block that held `b`.
    /// Where `block` precedes the head, each sender with transactions in `b`
    /// is dropped and the others stay; otherwise the pool is emptied. Either
    /// way `block` becomes the head.
    pub fn revert_rich_block(&mut self, block: u64, b: &Vec<RichTransaction>)
        requires
            old(self).wf(),
        ensures
            final(self).wf(),
            revert_post(*old(self), block, b@, *final(self)),
    {
        let ghost pre = *self;
        if self.block == 0 || self.block - 1 != block {
            self.senders = Vec::new();
            self.block = block;
            return;
        }
        let mut i: usize = 0;
        while i < self.senders.len()
            invariant
                entries_wf(self.senders@),
                i <= self.senders@.len(),
                pre.wf(),
                forall|j: int|
                    0 <= j < self.senders@.len() ==> Some((#[trigger] self.senders@[j]).state()) == pre.account(
                        self.senders@[j].sender,
                    ),
                forall|j: int| 0 <= j < i ==> !from_sender(b@, (#[trigger] self.senders@[j]).sender),
                forall|s: Address|
                    (forall|j: int| 0 <= j < self.senders@.len() ==> (#[trigger] self.senders@[j]).sender != s)
                        ==> #[trigger] reverted(pre, b@, s) is None,
            decreases self.senders@.len() - i,
        {
            let ghost cur = self.senders@;
            let s = self.senders[i].sender;
            if !in_block(b, s) {
                i = i + 1;
            } else {
                self.drop_entry(i);
                proof {
                    let nw = self.senders@;
                    assert forall|j: int| 0 <= j < nw.len() implies #[trigger] nw[j] == cur[if j < i { j } else { j + 1 }] by {}
                    assert forall|x: Address|
                        (forall|j: int| 0 <= j < nw.len() ==> (#[trigger] nw[j]).sender != x)
                        implies #[trigger] reverted(pre, b@, x) is None by {
                        if x != s {
                            lemma_absent_after_remove(cur, i as int, x);
                        }
                    }
                }
            }
        }
        proof {
            let es = self.senders@;
            assert forall|x: Address| #[trigger] account_in(es, x) == reverted(pre, b@, x) by {
                if exists|j: int| 0 <= j < es.len() && (#[trigger] es[j]).sender == x {
                    let j = choose|j: int| 0 <= j < es.len() && (#[trigger] es[j]).sender == x;
                    lemma_account_at(es, j);
                } else {
                    lemma_account_absent(es, x);
                }
            }
        }
        self.block = block;
    }

    /// Applies block `block` with its transactions as decoded. Where `block`
    /// does not follow the head, or one of the transactions cannot be
    /// enriched, the pool is emptied and `false` returned; else this is
    /// `apply_rich_block` on the enriched transactions, and `true`. Either
    /// way `block` becomes the head.
    pub fn apply_block(&mut self, block: u64, txs: Vec<Transaction>) -> (r: bool)
        requires
            old(self).wf(),
        ensures
            final(self).wf(),
            final(self).head() == block,
            !is_next_block(*old(self), block) ==> !r && final(self).entries().len() == 0,
            r ==> exists|b: Seq<RichTransaction>|
                enriched(txs@, b) && #[trigger] apply_post(*old(self), block, b, *final(self)),
            is_next_block(*old(self), block) && !r ==> final(self).entries().len() == 0
                && enrichment_fails(txs@),
            txs@.len() == 0 ==> r == is_next_block(*old(self), block) && apply_post(
                *old(self),
                block,
                Seq::<RichTransaction>::empty(),
                *final(self),
            ),
    {
        if self.block == u64::MAX || self.block + 1 != block {
            self.erase();
            self.block = block;
            return false;
        }
        let ghost n = txs@.len();
        match enrich_all(txs) {
            None => {
                self.erase();
                self.block = block;
                false
            },
            Some(b) => {
                self.apply_rich_block(block, &b);
                assert(apply_post(*old(self), block, b@, *self));
                proof {
                    if n == 0 {
                        assert(b@ =~= Seq::<RichTransaction>::empty());
                    }
                }
                true
            },
        }
    }

    /// Reverts the head to `block` given the reverted block's transactions
    /// as decoded. Where `block` does not precede the head, or one of the
    /// transactions cannot be enriched, the pool is emptied and `false`
    /// returned; else this is `revert_rich_block` on the enriched
    /// transactions, and `true`. Either way `block` becomes the head.
    pub fn revert_block(&mut self, block: u64, txs: Vec<Transaction>) -> (r: bool)
        requires
            old(self).wf(),
        ensures
            final(self).wf(),
            final(self).head() == block,
            !is_previous_block(*old(self), block) ==> !r && final(self).entries().len() == 0,
            r ==> exists|b: Seq<RichTransaction>|
                enriched(txs@, b) && #[trigger] revert_post(*old(self), block, b, *final(self)),
            is_previous_block(*old(self), block) && !r ==> final(self).entries().len() == 0
                && enrichment_fails(txs@),
            txs@.len() == 0 ==> r == is_previous_block(*old(self), block) && revert_post(
                *old(self),
                block,
                Seq::<RichTransaction>::empty(),
                *final(self),
            ),
    {
        if self.block == 0 || self.block - 1 != block {
            self.erase();
            self.block = block;
            return false;
        }
        let ghost n = txs@.len();
        match enrich_all(txs) {
            None => {
                self.erase();
                self.block = block;
                false
            },
            Some(b) => {
                self.revert_rich_block(block, &b);
                assert(revert_post(*old(self), block, b@, *self));
                proof {
                    if n == 0 {
                        assert(b@ =~= Seq::<RichTransaction>::empty());
                    }
                }
                true
            },
        }
    }
}

} // verus!
