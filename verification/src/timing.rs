use rand::Rng;
use vstd::prelude::*;

verus! {

/// Interval between two heartbeat rounds of a leader, in milliseconds.
pub const HEARTBEAT_INTERVAL_MS: u64 = 100;

/// Lower bound of the election timeout, in milliseconds.
pub const ELECTION_TIMEOUT_MIN_MS: u64 = 300;

/// Upper bound (exclusive) of the election timeout, in milliseconds.
pub const ELECTION_TIMEOUT_MAX_MS: u64 = 500;

/// How long a peer waits for the reply to one RPC, in milliseconds.
pub const RECEIVE_TIMEOUT_MS: u64 = 100;

/// Draws a number uniformly from `[low, high)` with the thread-local generator.
///
/// Calls `rand::Rng::gen_range` on `rand::thread_rng()`. The contract claims
/// only what rand documents for every outcome: the value lies in `[low, high)`;
/// `gen_range` panics when `low >= high`, which `requires` rules out.
#[verifier::external_body]
fn random_in_range(low: u64, high: u64) -> (r: u64)
    requires
        low < high,
    ensures
        low <= r < high,
{
    rand::thread_rng().gen_range(low, high)
}

/// A fresh, randomised election timeout, in milliseconds.
pub fn election_timeout_millis() -> (ms: u64)
    ensures
        ELECTION_TIMEOUT_MIN_MS <= ms < ELECTION_TIMEOUT_MAX_MS,
{
    random_in_range(ELECTION_TIMEOUT_MIN_MS, ELECTION_TIMEOUT_MAX_MS)
}

} // verus!
