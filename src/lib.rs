//! A pending-transaction pool for an Ethereum-style node: per-sender queues
//! with contiguous nonces, a balance budget on gas cost, fee replacement and
//! reconciliation with confirmed and reverted blocks.
pub mod amount;
pub mod tx;
pub mod pool;
pub mod lemmas;
pub mod laws;
