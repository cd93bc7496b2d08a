//! The resilient fetcher's retry policy.
//!
//! A fetch is tried a fixed number of times; each transient failure is
//! followed by a randomized backoff so that many concurrent visits do
//! not retry in lockstep. The policy decides; performing the network
//! call and the sleep between attempts is the caller's concern.

use vstd::prelude::*;

verus! {

/// The terminal failure of a visit's fetch: every attempt failed. The
/// visit is abandoned; the crawl goes on and a later run may retry.
#[derive(Debug, PartialEq, Eq, Clone, Copy)]
pub struct FetchExhausted;

/// What to do once an attempt's outcome is known.
#[derive(Debug, PartialEq, Eq, Clone, Copy)]
pub enum RetryAction {
    /// The attempt succeeded: stop retrying.
    Done,
    /// The attempt failed and attempts remain: wait this many
    /// milliseconds, then try again.
    RetryAfterMillis(u64),
    /// The attempt failed and no attempts remain: give up.
    GiveUp,
}

/// Lower bound of the uniform backoff, in milliseconds.
pub const BACKOFF_LO_MILLIS: u64 = 10000;

/// Upper bound (exclusive) of the uniform backoff, in milliseconds.
pub const BACKOFF_HI_MILLIS: u64 = 30000;

/// Total attempts a fetch makes before giving up.
pub const MAX_ATTEMPTS: u32 = 3;

/// Relies on rand::random_range on a half-open integer range: the drawn
/// value lies inside the range. It panics only on an empty range, which
/// the precondition rules out. Nothing more is promised of a random
/// draw: two calls on equal bounds may differ.
#[verifier::external_body]
fn sample_uniform_millis(lo: u64, hi: u64) -> (r: u64)
    requires
        lo < hi,
    ensures
        lo <= r < hi,
{
    rand::random_range(lo..hi)
}

/// A randomized backoff, uniform over the policy's bounds.
pub fn backoff_millis() -> (ms: u64)
    ensures
        BACKOFF_LO_MILLIS <= ms < BACKOFF_HI_MILLIS,
{
    sample_uniform_millis(BACKOFF_LO_MILLIS, BACKOFF_HI_MILLIS)
}

/// The retry policy of the fetcher: how many attempts in all.
#[derive(Debug, PartialEq, Eq, Clone, Copy)]
pub struct RetryPolicy {
    pub max_attempts: u32,
}

impl RetryPolicy {
    /// The fetcher's fixed policy: three attempts in all.
    pub fn new() -> (p: RetryPolicy)
        ensures
            p.max_attempts == MAX_ATTEMPTS,
    {
        RetryPolicy { max_attempts: MAX_ATTEMPTS }
    }

    /// Decide after an attempt, `attempt` attempts having now been made:
    /// stop on success, retry after a randomized backoff while attempts
    /// remain, and give up once the bound is reached.
    pub fn decide(&self, attempt: u32, succeeded: bool) -> (a: RetryAction)
        ensures
            succeeded ==> a == RetryAction::Done,
            !succeeded && attempt < self.max_attempts ==> (a matches RetryAction::RetryAfterMillis(ms)
                && BACKOFF_LO_MILLIS <= ms < BACKOFF_HI_MILLIS),
            !succeeded && attempt >= self.max_attempts ==> a == RetryAction::GiveUp,
    {
        if succeeded {
            RetryAction::Done
        } else if attempt < self.max_attempts {
            RetryAction::RetryAfterMillis(backoff_millis())
        } else {
            RetryAction::GiveUp
        }
    }

    /// Run the retry loop against a transport whose outcome per attempt
    /// is given: `outcomes[k]` tells whether attempt k + 1 would succeed.
    /// Returns the number of attempts made: the first successful attempt,
    /// or the terminal failure after exactly the bounded number of
    /// attempts, every one of which failed.
    pub fn fetch_outcome(&self, outcomes: &Vec<bool>) -> (r: Result<u32, FetchExhausted>)
        requires
            outcomes@.len() >= self.max_attempts,
        ensures
            r matches Ok(n) ==> 1 <= n <= self.max_attempts && outcomes@[n - 1] && (forall|j: int|
                0 <= j < n - 1 ==> !outcomes@[j]),
            r is Err ==> forall|j: int| 0 <= j < self.max_attempts ==> !outcomes@[j],
    {
        let mut attempt: u32 = 0;
        while attempt < self.max_attempts
            invariant
                0 <= attempt <= self.max_attempts,
                outcomes@.len() >= self.max_attempts,
                forall|j: int| 0 <= j < attempt ==> !outcomes@[j],
            decreases self.max_attempts - attempt,
        {
            let ok = outcomes[attempt as usize];
            attempt = attempt + 1;
            match self.decide(attempt, ok) {
                RetryAction::Done => {
                    return Ok(attempt);
                },
                RetryAction::RetryAfterMillis(_ms) => {},
                RetryAction::GiveUp => {
                    return Err(FetchExhausted);
                },
            }
        }
        Err(FetchExhausted)
    }
}

} // verus!
