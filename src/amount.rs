//! 256-bit unsigned amounts, with their arithmetic delegated to `ethereum_types::U256`.
use ethereum_types::U256;
use vstd::prelude::*;

verus! {

/// The base of one 64-bit word.
pub open spec fn word() -> nat {
    0x1_0000_0000_0000_0000nat
}

/// The largest value a 256-bit amount can hold, plus one.
pub open spec fn amount_bound() -> nat {
    word() * word() * word() * word()
}

/// A 256-bit unsigned integer as four 64-bit words, least significant first
/// (the layout of `U256`).
#[derive(Clone, Copy, Debug, PartialEq, Eq, Structural)]
pub struct Amount {
    pub w0: u64,
    pub w1: u64,
    pub w2: u64,
    pub w3: u64,
}

impl Amount {
    /// The number this amount denotes.
    pub open spec fn value(self) -> nat {
        self.w0 as nat + word() * (self.w1 as nat + word() * (self.w2 as nat + word() * (self.w3 as nat)))
    }

    /// An amount holding a 64-bit number.
    pub fn from_u64(n: u64) -> (r: Amount)
        ensures
            r.value() == n as nat,
    {
        Amount { w0: n, w1: 0, w2: 0, w3: 0 }
    }

    /// The amount as a `u64`, where it fits in one.
    pub fn to_u64(self) -> (r: Option<u64>)
        ensures
            r matches Some(n) <==> self.value() <= u64::MAX,
            r matches Some(n) ==> n as nat == self.value(),
    {
        proof {
            lemma_fits_u64(self);
        }
        if self.w1 == 0 && self.w2 == 0 && self.w3 == 0 {
            Some(self.w0)
        } else {
            None
        }
    }
}

proof fn lemma_fits_u64(a: Amount)
    ensures
        a.value() <= u64::MAX <==> (a.w1 == 0 && a.w2 == 0 && a.w3 == 0),
{
    let hi: nat = a.w1 as nat + word() * (a.w2 as nat + word() * (a.w3 as nat));
    assert(a.value() == a.w0 as nat + word() * hi);
    if hi > 0 {
        assert(word() * hi >= word()) by (nonlinear_arith)
            requires
                hi > 0,
        ;
    } else {
        assert(a.w1 == 0 && a.w2 == 0 && a.w3 == 0) by (nonlinear_arith)
            requires
                hi == 0,
                hi == a.w1 as nat + word() * (a.w2 as nat + word() * (a.w3 as nat)),
        ;
    }
}

/// Relies on `U256::checked_sub` (crate uint): the difference, or `None`
/// when the subtrahend is the larger.
#[verifier::external_body]
pub(crate) fn checked_sub(a: Amount, b: Amount) -> (r: Option<Amount>)
    ensures
        r matches None <==> a.value() < b.value(),
        r matches Some(d) ==> d.value() == a.value() - b.value(),
{
    U256([a.w0, a.w1, a.w2, a.w3]).checked_sub(U256([b.w0, b.w1, b.w2, b.w3])).map(
        |v| Amount { w0: v.0[0], w1: v.0[1], w2: v.0[2], w3: v.0[3] },
    )
}

/// Relies on `U256::checked_mul` (crate uint): the product, or `None` when
/// it does not fit in 256 bits.
#[verifier::external_body]
pub(crate) fn checked_mul(a: Amount, b: Amount) -> (r: Option<Amount>)
    ensures
        r matches None <==> a.value() * b.value() >= amount_bound(),
        r matches Some(p) ==> p.value() == a.value() * b.value(),
{
    U256([a.w0, a.w1, a.w2, a.w3]).checked_mul(U256([b.w0, b.w1, b.w2, b.w3])).map(
        |v| Amount { w0: v.0[0], w1: v.0[1], w2: v.0[2], w3: v.0[3] },
    )
}

/// Relies on the `Ord` impl of `U256` (crate uint), which compares the
/// words from the most significant down, i.e. numerically.
#[verifier::external_body]
pub(crate) fn amount_ge(a: Amount, b: Amount) -> (r: bool)
    ensures
        r == (a.value() >= b.value()),
{
    U256([a.w0, a.w1, a.w2, a.w3]) >= U256([b.w0, b.w1, b.w2, b.w3])
}

} // verus!
