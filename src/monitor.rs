//! Named message counters, sampled and reset periodically.
use vstd::prelude::*;

verus! {

/// A named count of messages since the last sample.
#[derive(Debug)]
pub struct Counter {
    pub name: String,
    pub count: u64,
}

impl Counter {
    /// A counter at zero.
    pub fn new(name: &str) -> (r: Counter)
        ensures
            r.name@ == name@,
            r.count == 0,
    {
        Counter { name: name.to_string(), count: 0 }
    }

    /// Counts one message; the count holds at `u64::MAX`.
    pub fn increment(&mut self)
        ensures
            final(self).name == old(self).name,
            final(self).count == crate::gatekeeper::sat_add(old(self).count, 1),
    {
        self.count = crate::gatekeeper::saturating_add(self.count, 1);
    }

    /// Returns the count and sets it back to zero.
    pub fn sample_and_reset(&mut self) -> (r: u64)
        ensures
            r == old(self).count,
            final(self).count == 0,
            final(self).name == old(self).name,
    {
        let r = self.count;
        self.count = 0;
        r
    }
}

/// First wait before a snapshot request is retried, in milliseconds.
pub const SNAPSHOT_RETRY_BASE_MS: u64 = 100;

/// Longest wait between snapshot retries, in milliseconds.
pub const SNAPSHOT_RETRY_CAP_MS: u64 = 30_000;

/// Wait before snapshot retry number `attempt`: doubling from the base,
/// capped.
pub open spec fn snapshot_backoff(attempt: nat) -> u64
    decreases attempt,
{
    if attempt == 0 {
        SNAPSHOT_RETRY_BASE_MS
    } else {
        let prev = snapshot_backoff((attempt - 1) as nat);
        if 2 * prev >= SNAPSHOT_RETRY_CAP_MS {
            SNAPSHOT_RETRY_CAP_MS
        } else {
            (2 * prev) as u64
        }
    }
}

proof fn lemma_backoff_bounded(attempt: nat)
    ensures
        snapshot_backoff(attempt) <= SNAPSHOT_RETRY_CAP_MS,
    decreases attempt,
{
    if attempt > 0 {
        lemma_backoff_bounded((attempt - 1) as nat);
    }
}

/// Wait before snapshot retry number `attempt`, in milliseconds.
pub fn snapshot_retry_delay_ms(attempt: u32) -> (r: u64)
    ensures
        r == snapshot_backoff(attempt as nat),
        r <= SNAPSHOT_RETRY_CAP_MS,
{
    let mut d: u64 = SNAPSHOT_RETRY_BASE_MS;
    let mut k: u32 = 0;
    while k < attempt
        invariant
            k <= attempt,
            d == snapshot_backoff(k as nat),
        decreases attempt - k,
    {
        proof {
            lemma_backoff_bounded(k as nat);
        }
        d = if 2 * d >= SNAPSHOT_RETRY_CAP_MS { SNAPSHOT_RETRY_CAP_MS } else { 2 * d };
        k = k + 1;
    }
    proof {
        lemma_backoff_bounded(attempt as nat);
    }
    d
}

} // verus!
