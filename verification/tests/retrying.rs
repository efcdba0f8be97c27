use mdchunk::retry::{initial_retry_state, on_failure, RetryDecision, RetryPolicy};

#[test]
fn retry_delays_double_until_budget_ends() {
    let policy = RetryPolicy { max_attempts: 3, base_delay_ms: 100 };
    let st0 = initial_retry_state(&policy);
    assert_eq!(st0.attempts_made, 0);
    assert_eq!(st0.next_delay_ms, 100);

    let (st1, d1) = on_failure(&policy, &st0);
    assert_eq!(d1, RetryDecision::RetryAfter(100));
    assert_eq!(st1.attempts_made, 1);
    assert_eq!(st1.next_delay_ms, 200);

    let (st2, d2) = on_failure(&policy, &st1);
    assert_eq!(d2, RetryDecision::RetryAfter(200));
    assert_eq!(st2.next_delay_ms, 400);

    let (st3, d3) = on_failure(&policy, &st2);
    assert_eq!(d3, RetryDecision::GiveUp);
    assert_eq!(st3.attempts_made, 3);
}

#[test]
fn retry_zero_budget_gives_up_at_once() {
    let policy = RetryPolicy { max_attempts: 0, base_delay_ms: 50 };
    let st = initial_retry_state(&policy);
    let (_st, d) = on_failure(&policy, &st);
    assert_eq!(d, RetryDecision::GiveUp);
}

#[test]
fn retry_delay_saturates() {
    let policy = RetryPolicy { max_attempts: 10, base_delay_ms: u64::MAX - 1 };
    let st = initial_retry_state(&policy);
    let (st1, d) = on_failure(&policy, &st);
    assert_eq!(d, RetryDecision::RetryAfter(u64::MAX - 1));
    assert_eq!(st1.next_delay_ms, u64::MAX);
    let (st2, _d) = on_failure(&policy, &st1);
    assert_eq!(st2.next_delay_ms, u64::MAX);
}
