//! Facts about queue costs, sender lookup and hash uniqueness that the
//! pool's operations rest on.
use crate::pool::{
    confirm_walk,
    account_in, affordable_from, affordable_len, hash_at, hashes_unique, holds_hash, prefix_cost,
    senders_unique, valid_pos, AccountPool,
};
use crate::tx::{Address, RichTransaction};
use vstd::prelude::*;

verus! {

pub proof fn lemma_prefix_agree(q1: Seq<RichTransaction>, q2: Seq<RichTransaction>, k: int)
    requires
        0 <= k <= q1.len(),
        k <= q2.len(),
        forall|i: int| 0 <= i < k ==> q1[i] == q2[i],
    ensures
        prefix_cost(q1, k) == prefix_cost(q2, k),
    decreases k,
{
    if k > 0 {
        lemma_prefix_agree(q1, q2, k - 1);
    }
}

pub proof fn lemma_prefix_mono(q: Seq<RichTransaction>, i: int, j: int)
    requires
        0 <= i <= j,
    ensures
        prefix_cost(q, i) <= prefix_cost(q, j),
    decreases j - i,
{
    if i < j {
        lemma_prefix_mono(q, i, j - 1);
    }
}

/// Where the first `m` transactions are affordable, the scan may start at `m`.
pub proof fn lemma_affordable_skip(q: Seq<RichTransaction>, b: nat, m: int)
    requires
        0 <= m <= q.len(),
        prefix_cost(q, m) <= b,
    ensures
        affordable_len(q, b) == affordable_from(q, b, m),
    decreases m,
{
    if m > 0 {
        lemma_prefix_mono(q, m - 1, m);
        lemma_affordable_skip(q, b, m - 1);
    }
}

/// The scan ends at an affordable prefix no shorter than where it started.
pub proof fn lemma_affordable_bounds(q: Seq<RichTransaction>, b: nat, i: int)
    requires
        0 <= i <= q.len(),
        prefix_cost(q, i) <= b,
    ensures
        i <= affordable_from(q, b, i) <= q.len(),
        prefix_cost(q, affordable_from(q, b, i)) <= b,
    decreases q.len() - i,
{
    if i < q.len() && prefix_cost(q, i + 1) <= b {
        lemma_affordable_bounds(q, b, i + 1);
    }
}

pub proof fn lemma_account_at(es: Seq<AccountPool>, i: int)
    requires
        senders_unique(es),
        0 <= i < es.len(),
    ensures
        account_in(es, es[i].sender) == Some(es[i].state()),
{
    let s = es[i].sender;
    assert(es[i].sender == s);
    let j = choose|j: int| 0 <= j < es.len() && (#[trigger] es[j]).sender == s;
    assert(i == j);
}

pub proof fn lemma_account_absent(es: Seq<AccountPool>, s: Address)
    requires
        forall|i: int| 0 <= i < es.len() ==> (#[trigger] es[i]).sender != s,
    ensures
        account_in(es, s) is None,
{
}

/// Replacing an entry by one of the same sender changes that sender's
/// account alone.
pub proof fn lemma_account_update(es: Seq<AccountPool>, i: int, e: AccountPool)
    requires
        senders_unique(es),
        0 <= i < es.len(),
        e.sender == es[i].sender,
    ensures
        senders_unique(es.update(i, e)),
        account_in(es.update(i, e), e.sender) == Some(e.state()),
        forall|s: Address| s != e.sender ==> #[trigger] account_in(es.update(i, e), s) == account_in(es, s),
{
    let es2 = es.update(i, e);
    assert(senders_unique(es2)) by {
        assert forall|a: int, b: int|
            0 <= a < es2.len() && 0 <= b < es2.len() && (#[trigger] es2[a]).sender == (#[trigger] es2[b]).sender
            implies a == b by {
            assert(es2[a].sender == es[a].sender);
            assert(es2[b].sender == es[b].sender);
        }
    }
    lemma_account_at(es2, i);
    assert forall|s: Address| s != e.sender implies #[trigger] account_in(es2, s) == account_in(es, s) by {
        if exists|j: int| 0 <= j < es.len() && (#[trigger] es[j]).sender == s {
            let j = choose|j: int| 0 <= j < es.len() && (#[trigger] es[j]).sender == s;
            lemma_account_at(es, j);
            assert(es2[j] == es[j]);
            lemma_account_at(es2, j);
        } else {
            assert forall|j: int| 0 <= j < es2.len() implies (#[trigger] es2[j]).sender != s by {
                assert(es2[j].sender == es[j].sender);
            }
        }
    }
}

/// Adding an entry for a new sender changes that sender's account alone.
pub proof fn lemma_account_push(es: Seq<AccountPool>, e: AccountPool)
    requires
        senders_unique(es),
        forall|i: int| 0 <= i < es.len() ==> (#[trigger] es[i]).sender != e.sender,
    ensures
        senders_unique(es.push(e)),
        account_in(es.push(e), e.sender) == Some(e.state()),
        forall|s: Address| s != e.sender ==> #[trigger] account_in(es.push(e), s) == account_in(es, s),
{
    let es2 = es.push(e);
    assert(senders_unique(es2)) by {
        assert forall|a: int, b: int|
            0 <= a < es2.len() && 0 <= b < es2.len() && (#[trigger] es2[a]).sender == (#[trigger] es2[b]).sender
            implies a == b by {
            if a < es.len() {
                assert(es2[a] == es[a]);
            }
            if b < es.len() {
                assert(es2[b] == es[b]);
            }
        }
    }
    lemma_account_at(es2, es.len() as int);
    assert forall|s: Address| s != e.sender implies #[trigger] account_in(es2, s) == account_in(es, s) by {
        if exists|j: int| 0 <= j < es.len() && (#[trigger] es[j]).sender == s {
            let j = choose|j: int| 0 <= j < es.len() && (#[trigger] es[j]).sender == s;
            lemma_account_at(es, j);
            assert(es2[j] == es[j]);
            lemma_account_at(es2, j);
        } else {
            assert forall|j: int| 0 <= j < es2.len() implies (#[trigger] es2[j]).sender != s by {
                if j < es.len() {
                    assert(es2[j] == es[j]);
                }
            }
        }
    }
}

/// Replacing entry `i` by one whose transactions are old ones of entry `i`
/// (at distinct places `g(b)`), but for one at `fresh` whose hash is new,
/// keeps hashes unique.
pub proof fn lemma_unique_update(
    es: Seq<AccountPool>,
    i: int,
    e: AccountPool,
    g: spec_fn(int) -> int,
    fresh: int,
)
    requires
        hashes_unique(es),
        0 <= i < es.len(),
        forall|b: int|
            0 <= b < e.txs@.len() && b != fresh ==> 0 <= #[trigger] g(b) < es[i].txs@.len()
                && e.txs@[b].hash == es[i].txs@[g(b)].hash,
        forall|b1: int, b2: int|
            0 <= b1 < e.txs@.len() && 0 <= b2 < e.txs@.len() && b1 != fresh && b2 != fresh
                && #[trigger] g(b1) == #[trigger] g(b2) ==> b1 == b2,
        0 <= fresh < e.txs@.len() ==> !holds_hash(es, e.txs@[fresh].hash),
    ensures
        hashes_unique(es.update(i, e)),
{
    let es2 = es.update(i, e);
    assert forall|x: int, a: int, y: int, b: int|
        valid_pos(es2, x, a) && valid_pos(es2, y, b) && #[trigger] hash_at(es2, x, a) == #[trigger] hash_at(es2, y, b)
        implies x == y && a == b by {
        // Map each position of es2 to one of es, or to the fresh one.
        let xa = if x == i { g(a) } else { a };
        let yb = if y == i { g(b) } else { b };
        if x == i && a == fresh {
            if !(y == i && b == fresh) {
                assert(valid_pos(es, y, yb) && hash_at(es, y, yb) == e.txs@[fresh].hash);
            }
        } else if y == i && b == fresh {
            assert(valid_pos(es, x, xa) && hash_at(es, x, xa) == e.txs@[fresh].hash);
        } else {
            assert(valid_pos(es, x, xa) && hash_at(es, x, xa) == hash_at(es2, x, a));
            assert(valid_pos(es, y, yb) && hash_at(es, y, yb) == hash_at(es2, y, b));
            assert(x == y && xa == yb);
        }
    }
}

/// Adding an entry of one fresh transaction keeps hashes unique.
pub proof fn lemma_unique_push(es: Seq<AccountPool>, e: AccountPool)
    requires
        hashes_unique(es),
        e.txs@.len() == 1,
        !holds_hash(es, e.txs@[0].hash),
    ensures
        hashes_unique(es.push(e)),
{
    let es2 = es.push(e);
    assert forall|x: int, a: int, y: int, b: int|
        valid_pos(es2, x, a) && valid_pos(es2, y, b) && #[trigger] hash_at(es2, x, a) == #[trigger] hash_at(es2, y, b)
        implies x == y && a == b by {
        if x < es.len() {
            assert(hash_at(es2, x, a) == hash_at(es, x, a));
            assert(valid_pos(es, x, a));
        }
        if y < es.len() {
            assert(hash_at(es2, y, b) == hash_at(es, y, b));
            assert(valid_pos(es, y, b));
        }
    }
}

/// Removing an entry keeps senders and hashes unique, and drops that
/// sender's account alone.
pub proof fn lemma_remove(es: Seq<AccountPool>, i: int)
    requires
        senders_unique(es),
        hashes_unique(es),
        0 <= i < es.len(),
    ensures
        senders_unique(es.remove(i)),
        hashes_unique(es.remove(i)),
        account_in(es.remove(i), es[i].sender) is None,
        forall|s: Address| s != es[i].sender ==> #[trigger] account_in(es.remove(i), s) == account_in(es, s),
{
    let es2 = es.remove(i);
    let m = |j: int| if j < i { j } else { j + 1 };
    assert forall|j: int| 0 <= j < es2.len() implies #[trigger] es2[j] == es[m(j)] by {}
    assert(senders_unique(es2)) by {
        assert forall|a: int, b: int|
            0 <= a < es2.len() && 0 <= b < es2.len() && (#[trigger] es2[a]).sender == (#[trigger] es2[b]).sender
            implies a == b by {
            assert(es2[a] == es[m(a)]);
            assert(es2[b] == es[m(b)]);
        }
    }
    assert forall|x: int, a: int, y: int, b: int|
        valid_pos(es2, x, a) && valid_pos(es2, y, b) && #[trigger] hash_at(es2, x, a) == #[trigger] hash_at(es2, y, b)
        implies x == y && a == b by {
        assert(es2[x] == es[m(x)]);
        assert(es2[y] == es[m(y)]);
        assert(hash_at(es, m(x), a) == hash_at(es2, x, a));
        assert(hash_at(es, m(y), b) == hash_at(es2, y, b));
        assert(valid_pos(es, m(x), a) && valid_pos(es, m(y), b));
    }
    let s0 = es[i].sender;
    assert forall|j: int| 0 <= j < es2.len() implies (#[trigger] es2[j]).sender != s0 by {
        assert(es2[j] == es[m(j)]);
    }
    assert forall|s: Address| s != s0 implies #[trigger] account_in(es2, s) == account_in(es, s) by {
        if exists|j: int| 0 <= j < es.len() && (#[trigger] es[j]).sender == s {
            let j = choose|j: int| 0 <= j < es.len() && (#[trigger] es[j]).sender == s;
            lemma_account_at(es, j);
            let j2 = if j < i { j } else { j - 1 };
            assert(es2[j2] == es[m(j2)]);
            lemma_account_at(es2, j2);
        } else {
            assert forall|j: int| 0 <= j < es2.len() implies (#[trigger] es2[j]).sender != s by {
                assert(es2[j] == es[m(j)]);
            }
        }
    }
}

/// The cost of a queue splits at any point.
pub proof fn lemma_prefix_split(q: Seq<RichTransaction>, m: int, t: int)
    requires
        0 <= m <= q.len(),
        0 <= t <= q.len() - m,
    ensures
        prefix_cost(q.skip(m), t) + prefix_cost(q, m) == prefix_cost(q, m + t),
    decreases t,
{
    if t > 0 {
        lemma_prefix_split(q, m, t - 1);
        assert(q.skip(m)[t - 1] == q[m + t - 1]);
    }
}

/// A walk that succeeds ends between where it started and the queue's end.
pub proof fn lemma_walk_bounds(
    b: Seq<RichTransaction>,
    s: Address,
    off: nat,
    q: Seq<RichTransaction>,
    k: int,
    m: nat,
)
    requires
        0 <= k <= q.len(),
        confirm_walk(b, s, off, q, k) == Some(m),
    ensures
        k <= m <= q.len(),
    decreases q.len() - k,
{
    if k < q.len() && confirm_walk(b, s, off, q, k) == confirm_walk(b, s, off, q, k + 1) {
        if crate::pool::last_match(b, s, off + k, b.len() as int) >= 0 {
            lemma_walk_bounds(b, s, off, q, k + 1, m);
        }
    }
}

/// A sender absent after removing another's entry was absent before.
pub proof fn lemma_absent_after_remove(es: Seq<AccountPool>, i: int, x: Address)
    requires
        0 <= i < es.len(),
        es[i].sender != x,
        forall|j: int| 0 <= j < es.remove(i).len() ==> (#[trigger] es.remove(i)[j]).sender != x,
    ensures
        forall|j: int| 0 <= j < es.len() ==> (#[trigger] es[j]).sender != x,
{
    let nw = es.remove(i);
    assert forall|j: int| 0 <= j < es.len() implies (#[trigger] es[j]).sender != x by {
        if j < i {
            assert(nw[j] == es[j]);
        } else if j > i {
            assert(nw[j - 1] == es[j]);
        }
    }
}

} // verus!
