//! The retry policy for a fallible outside call such as an embedding
//! request: up to a capped number of attempts, with a waiting time that
//! doubles from a base delay. The caller performs the call and the waiting;
//! this module only decides, from the state so far, whether to retry and
//! how long to wait.

use vstd::prelude::*;

verus! {

/// The retry budget: how many attempts in all, and the delay before the
/// first retry.
#[derive(Clone, Copy, Debug, PartialEq, Eq, Structural)]
pub struct RetryPolicy {
    pub max_attempts: u32,
    pub base_delay_ms: u64,
}

/// What has happened so far: attempts made, and the delay the next retry
/// would wait.
#[derive(Clone, Copy, Debug, PartialEq, Eq, Structural)]
pub struct RetryState {
    pub attempts_made: u32,
    pub next_delay_ms: u64,
}

/// What the caller should do after a failed attempt.
#[derive(Clone, Copy, Debug, PartialEq, Eq, Structural)]
pub enum RetryDecision {
    RetryAfter(u64),
    GiveUp,
}

/// The state before any attempt.
pub fn initial_retry_state(policy: &RetryPolicy) -> (st: RetryState)
    ensures
        st.attempts_made == 0,
        st.next_delay_ms == policy.base_delay_ms,
{
    RetryState { attempts_made: 0, next_delay_ms: policy.base_delay_ms }
}

/// Decides after a failed attempt: give up exactly when the attempt budget
/// is exhausted, else retry after the current delay; the next delay doubles
/// (capped at the type's maximum so it never wraps).
pub fn on_failure(policy: &RetryPolicy, st: &RetryState) -> (r: (RetryState, RetryDecision))
    ensures
        r.0.attempts_made == if st.attempts_made as int + 1 <= u32::MAX as int {
            st.attempts_made as int + 1
        } else {
            u32::MAX as int
        },
        r.0.next_delay_ms == if 2 * st.next_delay_ms as int <= u64::MAX as int {
            2 * st.next_delay_ms as int
        } else {
            u64::MAX as int
        },
        r.1 == RetryDecision::GiveUp <==> st.attempts_made as int + 1 >= policy.max_attempts as int,
        r.1 != RetryDecision::GiveUp ==> r.1 == RetryDecision::RetryAfter(st.next_delay_ms),
{
    let attempts = if st.attempts_made < u32::MAX {
        st.attempts_made + 1
    } else {
        u32::MAX
    };
    let doubled = if st.next_delay_ms <= u64::MAX / 2 {
        2 * st.next_delay_ms
    } else {
        u64::MAX
    };
    let next = RetryState { attempts_made: attempts, next_delay_ms: doubled };
    if attempts >= policy.max_attempts {
        (next, RetryDecision::GiveUp)
    } else {
        (next, RetryDecision::RetryAfter(st.next_delay_ms))
    }
}

} // verus!
