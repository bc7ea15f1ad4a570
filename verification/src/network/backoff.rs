//! Self-contained exponential backoff with jitter.
use crate::network::span::{max_nanos, min_nat, Span};
use rand::rngs::SmallRng;
use rand::{Rng, SeedableRng};
use tokio::time::Instant;
use vstd::prelude::*;

verus! {

#[verifier::external_type_specification]
#[verifier::external_body]
pub struct ExSmallRng(SmallRng);

#[verifier::external_type_specification]
#[verifier::external_body]
pub struct ExInstant(Instant);

#[derive(Clone, Copy, Debug)]
pub struct ExpBackoffConfig {
    pub wait_min: Span,
    pub wait_max: Span,
}

/// `2^n`.
pub open spec fn pow2(n: nat) -> nat
    decreases n,
{
    if n == 0 {
        1
    } else {
        2 * pow2((n - 1) as nat)
    }
}

/// `2^n`, or `u32::MAX` where that is larger.
pub open spec fn pow2_saturating(n: nat) -> nat {
    min_nat(pow2(n), u32::MAX as nat)
}

/// The longest wait after `attempts` failed attempts: `wait_min` doubled for
/// each attempt (with saturating arithmetic), capped at `wait_max`.
pub open spec fn wait_ceiling(wait_min: nat, wait_max: nat, attempts: nat) -> nat {
    min_nat(min_nat(wait_min * pow2_saturating(attempts), max_nanos()), wait_max)
}

pub proof fn lemma_pow2_monotonic(a: nat, b: nat)
    requires
        a <= b,
    ensures
        1 <= pow2(a) <= pow2(b),
    decreases b,
{
    if b > 0 {
        if a < b {
            lemma_pow2_monotonic(a, (b - 1) as nat);
        } else {
            lemma_pow2_monotonic((a - 1) as nat, (b - 1) as nat);
        }
    }
}

/// Each further failed attempt allows at least as long a wait: the wait
/// doubles until it reaches `wait_max`.
pub proof fn lemma_wait_ceiling_monotonic(wait_min: nat, wait_max: nat, a: nat, b: nat)
    requires
        a <= b,
    ensures
        wait_ceiling(wait_min, wait_max, a) <= wait_ceiling(wait_min, wait_max, b),
{
    lemma_pow2_monotonic(a, b);
    let pa = pow2_saturating(a);
    let pb = pow2_saturating(b);
    assert(wait_min * pa <= wait_min * pb) by (nonlinear_arith)
        requires
            pa <= pb,
    ;
}

/// After at least one attempt the jittered wait, which is at least half the
/// ceiling, is at least `wait_min` (or half of `wait_max` where that is smaller).
pub proof fn lemma_wait_ceiling_floor(wait_min: nat, wait_max: nat, attempts: nat)
    requires
        attempts >= 1,
        wait_max <= max_nanos(),
    ensures
        wait_ceiling(wait_min, wait_max, attempts) / 2 >= min_nat(wait_min, wait_max / 2),
{
    lemma_pow2_monotonic(1, attempts);
    reveal_with_fuel(pow2, 2);
    let p = pow2_saturating(attempts);
    assert(p >= 2);
    assert(wait_min * p >= wait_min * 2) by (nonlinear_arith)
        requires
            p >= 2,
    ;
}

/// `2^n` with saturating arithmetic, as `2_u32.saturating_pow(n)` computes it.
fn pow2_saturating_u32(n: u32) -> (r: u32)
    ensures
        r == pow2_saturating(n as nat),
{
    let mut p: u32 = 1;
    let mut i: u32 = 0;
    while i < n && p < u32::MAX
        invariant
            i <= n,
            p == pow2_saturating(i as nat),
        decreases n - i,
    {
        proof {
            lemma_pow2_monotonic(0, i as nat);
            assert(pow2((i + 1) as nat) == 2 * pow2(i as nat));
        }
        if p > u32::MAX / 2 {
            p = u32::MAX;
        } else {
            p = p * 2;
        }
        i += 1;
    }
    proof {
        if i < n {
            lemma_pow2_monotonic(i as nat, n as nat);
        }
    }
    p
}

/// Draws a span uniformly from `low..=high` with `rand`'s `Rng::random_range`;
/// the outcome depends on the generator's state, and lies in the range.
#[verifier::external_body]
fn random_span(rng: &mut SmallRng, low: Span, high: Span) -> (r: Span)
    requires
        low@ <= high@,
    ensures
        low@ <= r@ <= high@,
{
    let low = std::time::Duration::new(low.as_secs(), low.subsec_nanos());
    let high = std::time::Duration::new(high.as_secs(), high.subsec_nanos());
    let d = rng.random_range(low..=high);
    Span::new(d.as_secs(), d.subsec_nanos())
}

/// A small generator seeded from `rand`'s thread-local generator
/// (`SmallRng::from_rng(&mut rand::rng())`).
#[verifier::external_body]
fn seeded_rng() -> SmallRng {
    SmallRng::from_rng(&mut rand::rng())
}

/// The current instant (`tokio::time::Instant::now`).
#[verifier::external_body]
fn now() -> Instant {
    Instant::now()
}

/// The time elapsed since `t` (`tokio::time::Instant::elapsed`); it depends on
/// the clock, so nothing more is stated of it.
#[verifier::external_body]
fn elapsed_since(t: &Instant) -> Span {
    let d = t.elapsed();
    Span::new(d.as_secs(), d.subsec_nanos())
}

/// Self-contained exponential backoff with jitter.
pub struct ExpBackoff {
    config: ExpBackoffConfig,
    attempts: u32,
    last_fail: Option<Instant>,
    // Time to wait after last_fail.
    // Stored so that it does not change within an attempt due to the jitter rng.
    wait_total: Span,
    rng: SmallRng,
}

impl ExpBackoff {
    pub closed spec fn config(&self) -> ExpBackoffConfig {
        self.config
    }

    /// Failed attempts since the last success.
    pub closed spec fn attempts(&self) -> nat {
        self.attempts as nat
    }

    /// An attempt has started since the last reset.
    pub closed spec fn started(&self) -> bool {
        self.last_fail is Some
    }

    /// The wait between the start of the last attempt and the start of the next.
    pub closed spec fn wait_total(&self) -> nat {
        self.wait_total@
    }

    pub fn new(config: ExpBackoffConfig) -> (r: Self)
        ensures
            r.config() == config,
            r.attempts() == 0,
            !r.started(),
            r.wait_total() == 0,
    {
        Self {
            config,
            attempts: 0,
            last_fail: None,
            wait_total: Span::zero(),
            rng: seeded_rng(),
        }
    }

    /// Number of failed attempts since last success.
    pub fn attempt_count(&self) -> (r: u32)
        ensures
            r == self.attempts(),
    {
        self.attempts
    }

    // Generate a jittered wait duration for the current nb. of attempts.
    fn gen_total_wait(&mut self) -> (r: Span)
        ensures
            final(self).config() == old(self).config(),
            final(self).attempts() == old(self).attempts(),
            final(self).started() == old(self).started(),
            final(self).wait_total() == old(self).wait_total(),
            old(self).attempts() == 0 ==> r@ == 0,
            old(self).attempts() > 0 ==> {
                let ceiling = wait_ceiling(
                    old(self).config().wait_min@,
                    old(self).config().wait_max@,
                    old(self).attempts(),
                );
                &&& ceiling / 2 <= r@ <= ceiling
                &&& old(self).config().wait_min@ <= max_nanos()
                &&& old(self).config().wait_max@ <= max_nanos()
            },
    {
        if self.attempts == 0 {
            // No wait on initial attempt
            Span::zero()
        } else {
            // Double wait time for each failed attempt
            let dt = self.config.wait_min.saturating_mul(pow2_saturating_u32(self.attempts)).min(
                self.config.wait_max,
            );
            // On attempt 1, dt = 2^1 * wait_min, dt/2 = wait_min
            // so even after jitter, it is always the case that wait >= wait_min
            random_span(&mut self.rng, dt.half(), dt)
        }
    }

    /// Mark the current moment as the start of an attempt, increment the attempt counter,
    /// and set the remaining wait to measure to the start of the next attempt.
    pub fn start_attempt(&mut self)
        ensures
            final(self).config() == old(self).config(),
            final(self).started(),
            final(self).attempts() == min_nat(old(self).attempts() + 1, u32::MAX as nat),
            ({
                let ceiling = wait_ceiling(
                    final(self).config().wait_min@,
                    final(self).config().wait_max@,
                    final(self).attempts(),
                );
                ceiling / 2 <= final(self).wait_total() <= ceiling
            }),
            final(self).wait_total() >= min_nat(
                final(self).config().wait_min@,
                final(self).config().wait_max@ / 2,
            ),
            final(self).wait_total() <= final(self).config().wait_max@,
    {
        // Record attempt as if it had failed, since it will just be reset in case of success.
        self.last_fail = Some(now());
        self.attempts = self.attempts.saturating_add(1);
        self.wait_total = self.gen_total_wait();
        proof {
            lemma_wait_ceiling_floor(
                self.config.wait_min@,
                self.config.wait_max@,
                self.attempts as nat,
            );
        }
    }

    /// Exact behavior of tokio::time::sleep(Duration::zero) is not well specified,
    /// so None is returned for cases where no wait is needed, so that
    /// sleep can be omitted more ergonomically.
    ///
    /// The wait is `remaining_after` the time read from the clock since the
    /// attempt started; as that reading can be anything, the contract bounds the
    /// result by `wait_total` and leaves its exact value to `remaining_after`.
    pub fn remaining_wait(&self) -> (r: Option<Span>)
        ensures
            r is Some <==> self.started(),
            r matches Some(w) ==> w@ <= self.wait_total(),
    {
        match &self.last_fail {
            Some(last_fail) => {
                // time::Instant lacks saturating operations, so we prefer to express the wait in terms of time::Duration.
                let wait_elapsed = elapsed_since(last_fail);
                self.remaining_after(wait_elapsed)
            },
            None => None,
        }
    }

    /// The wait left once `elapsed` has passed since the start of the last
    /// attempt; `None` where no attempt has started.
    pub fn remaining_after(&self, elapsed: Span) -> (r: Option<Span>)
        ensures
            r is Some <==> self.started(),
            r matches Some(w) ==> w@ == if self.wait_total() >= elapsed@ {
                (self.wait_total() - elapsed@) as nat
            } else {
                0
            },
    {
        if self.last_fail.is_some() {
            Some(self.wait_total.saturating_sub(elapsed))
        } else {
            None
        }
    }

    /// To be called when an attempt succeeds, and the backoff should be reset.
    pub fn reset(&mut self)
        ensures
            final(self).config() == old(self).config(),
            final(self).attempts() == 0,
            !final(self).started(),
            final(self).wait_total() == old(self).wait_total(),
    {
        self.attempts = 0;
        self.last_fail = None;
    }
}

} // verus!
