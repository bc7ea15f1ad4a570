use rusty_markets::network::backoff::{ExpBackoff, ExpBackoffConfig};
use rusty_markets::network::span::Span;
use rusty_markets::network::stream::{Expiry, ExpiryAction, ExpiryEvent};
use rusty_markets::network::websocket::{
    extended_timeout, DurableWSConfig, ReceiveAction, Reconnection, RecvOutcome,
};

fn nanos(s: Span) -> u128 {
    s.as_secs() as u128 * 1_000_000_000 + s.subsec_nanos() as u128
}

#[test]
fn span_arithmetic() {
    let s = Span::new(3, 500_000_000);
    assert_eq!(nanos(s.half()), 1_750_000_000);
    assert_eq!(nanos(s.saturating_mul(4)), 14_000_000_000);
    let max = Span::new(u64::MAX, 999_999_999);
    assert_eq!(nanos(max.saturating_mul(2)), nanos(max));
    assert_eq!(nanos(Span::from_secs(2).saturating_sub(s)), 0);
    assert_eq!(nanos(s.saturating_sub(Span::from_secs(2))), 1_500_000_000);
    assert_eq!(nanos(s.min(Span::from_secs(1))), 1_000_000_000);
    assert_eq!(nanos(s.max(Span::from_secs(1))), 3_500_000_000);
}

fn config(min_s: u64, max_s: u64) -> ExpBackoffConfig {
    ExpBackoffConfig { wait_min: Span::from_secs(min_s), wait_max: Span::from_secs(max_s) }
}

#[test]
fn backoff_waits_grow_within_bounds() {
    let mut b = ExpBackoff::new(config(2, 60));
    assert_eq!(b.attempt_count(), 0);
    assert!(b.remaining_wait().is_none());
    // attempt n waits between 2^(n-1) and 2^n times wait_min, capped at wait_max
    let bounds = [(2, 4), (4, 8), (8, 16), (16, 32), (30, 60), (30, 60)];
    for (n, (lo, hi)) in bounds.iter().enumerate() {
        b.start_attempt();
        assert_eq!(b.attempt_count() as usize, n + 1);
        let w = b.remaining_after(Span::zero()).unwrap();
        assert!(nanos(w) >= lo * 1_000_000_000 && nanos(w) <= hi * 1_000_000_000);
        let left = nanos(b.remaining_wait().unwrap());
        assert!(left <= nanos(w));
        let later = b.remaining_after(Span::from_secs(1)).unwrap();
        assert_eq!(nanos(later), nanos(w) - 1_000_000_000);
        assert_eq!(nanos(b.remaining_after(Span::from_secs(100)).unwrap()), 0);
    }
    b.reset();
    assert_eq!(b.attempt_count(), 0);
    assert!(b.remaining_wait().is_none());
    assert!(b.remaining_after(Span::zero()).is_none());
}

#[test]
fn backoff_jitter_varies() {
    let mut seen = std::collections::HashSet::new();
    for _ in 0..20 {
        let mut b = ExpBackoff::new(config(2, 60));
        b.start_attempt();
        seen.insert(nanos(b.remaining_after(Span::zero()).unwrap()));
    }
    assert!(seen.len() > 1);
}

#[test]
fn durable_defaults() {
    let c = DurableWSConfig::default();
    assert_eq!(c.recv_timeout.as_secs(), 10);
    assert_eq!(c.backoff.wait_min.as_secs(), 2);
    assert_eq!(c.backoff.wait_max.as_secs(), 60);
}

#[test]
fn connection_attempts_get_at_least_the_receive_timeout() {
    assert_eq!(nanos(extended_timeout(None, Span::from_secs(10))), 10_000_000_000);
    assert_eq!(nanos(extended_timeout(Some(Span::from_secs(3)), Span::from_secs(10))), 10_000_000_000);
    assert_eq!(nanos(extended_timeout(Some(Span::from_secs(30)), Span::from_secs(10))), 30_000_000_000);
    let mut r = Reconnection::new(DurableWSConfig::default());
    assert!(r.backoff_wait().is_none());
    let t = r.start_attempt();
    assert!(nanos(t) >= 10_000_000_000);
    assert!(r.backoff_wait().is_some());
    r.attempt_finished(false);
    assert!(r.backoff_wait().is_some());
    r.attempt_finished(true);
    assert!(r.backoff_wait().is_none());
    assert_eq!(r.recv_timeout().as_secs(), 10);
}

#[test]
fn timeouts_reported_once_until_a_message() {
    let mut r = Reconnection::new(DurableWSConfig::default());
    assert_eq!(r.receive_finished(RecvOutcome::Message), ReceiveAction::Deliver);
    assert_eq!(r.receive_finished(RecvOutcome::TimedOut), ReceiveAction::ReportTimeout);
    assert_eq!(r.receive_finished(RecvOutcome::Failed), ReceiveAction::Reconnect);
    assert_eq!(r.receive_finished(RecvOutcome::Closed), ReceiveAction::Reconnect);
    assert_eq!(r.receive_finished(RecvOutcome::Message), ReceiveAction::Deliver);
    assert_eq!(r.receive_finished(RecvOutcome::Closed), ReceiveAction::ReportTimeout);
}

#[test]
fn expiry_notifies_once_per_message() {
    let mut e = Expiry::new();
    assert!(!e.uses_timeout());
    assert_eq!(e.step(ExpiryEvent::Message), ExpiryAction::Forward);
    assert!(e.uses_timeout());
    assert_eq!(e.step(ExpiryEvent::TimedOut), ExpiryAction::Expire);
    assert!(!e.uses_timeout());
    assert_eq!(e.step(ExpiryEvent::Message), ExpiryAction::Forward);
    assert!(e.uses_timeout());
    assert_eq!(e.step(ExpiryEvent::Closed), ExpiryAction::Stop);
}
