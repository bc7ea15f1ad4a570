//! The decisions of an automatically reconnecting websocket.
use crate::network::backoff::{ExpBackoff, ExpBackoffConfig};
use crate::network::span::{max_nat, min_nat, Span};
use vstd::prelude::*;

verus! {

#[derive(Clone, Copy, Debug)]
pub struct DurableWSConfig {
    /// If longer than this is spent waiting to receive a message, the connection is considered dead,
    /// is dropped, and a re-connect and re-send are attempted.
    pub recv_timeout: Span,
    /// Exponential backoff parameters for reconnection attempts.
    pub backoff: ExpBackoffConfig,
}

impl Default for DurableWSConfig {
    fn default() -> (r: Self)
        ensures
            r.recv_timeout@ == 10 * 1_000_000_000,
            r.backoff.wait_min@ == 2 * 1_000_000_000,
            r.backoff.wait_max@ == 60 * 1_000_000_000,
    {
        Self {
            recv_timeout: Span::from_secs(10),
            backoff: ExpBackoffConfig { wait_min: Span::from_secs(2), wait_max: Span::from_secs(60) },
        }
    }
}

/// The time a connection attempt may take: the rest of the backoff wait, which
/// would otherwise be spent idle, and at least the receive timeout.
pub fn extended_timeout(remaining: Option<Span>, recv_timeout: Span) -> (r: Span)
    ensures
        r@ == max_nat(
            match remaining {
                Some(w) => w@,
                None => 0,
            },
            recv_timeout@,
        ),
{
    match remaining {
        Some(w) => w.max(recv_timeout),
        None => Span::zero().max(recv_timeout),
    }
}

/// When to connect, and for how long to wait, for a websocket that reconnects
/// whenever receiving fails.
pub struct Reconnection {
    config: DurableWSConfig,
    backoff: ExpBackoff,
    /// A timeout was reported since the last message.
    timeout_reported: bool,
}

impl Reconnection {
    pub closed spec fn config(&self) -> DurableWSConfig {
        self.config
    }

    pub closed spec fn backoff(&self) -> ExpBackoff {
        self.backoff
    }

    /// A timeout has been reported since the last message was delivered.
    pub closed spec fn timeout_reported(&self) -> bool {
        self.timeout_reported
    }

    pub fn new(config: DurableWSConfig) -> (r: Self)
        ensures
            r.config() == config,
            r.backoff().config() == config.backoff,
            r.backoff().attempts() == 0,
            !r.backoff().started(),
            !r.timeout_reported(),
    {
        Reconnection { config, backoff: ExpBackoff::new(config.backoff), timeout_reported: false }
    }

    /// How long to receive for before the connection is considered dead.
    pub fn recv_timeout(&self) -> (r: Span)
        ensures
            r == self.config().recv_timeout,
    {
        self.config.recv_timeout
    }

    /// The wait left before the next connection attempt may start.
    pub fn backoff_wait(&self) -> (r: Option<Span>)
        ensures
            r is Some <==> self.backoff().started(),
            r matches Some(w) ==> w@ <= self.backoff().wait_total(),
    {
        self.backoff.remaining_wait()
    }

    /// Starts a connection attempt (once the backoff wait is over), and returns
    /// how long the attempt may take: `extended_timeout` of the backoff wait
    /// left, read from the clock just after the start, and the receive timeout.
    /// As the clock reading is not stated, the contract bounds the result.
    pub fn start_attempt(&mut self) -> (r: Span)
        ensures
            final(self).config() == old(self).config(),
            final(self).backoff().started(),
            final(self).backoff().attempts() == min_nat(
                old(self).backoff().attempts() + 1,
                u32::MAX as nat,
            ),
            final(self).backoff().config() == old(self).backoff().config(),
            final(self).timeout_reported() == old(self).timeout_reported(),
            old(self).config().recv_timeout@ <= r@,
            r@ <= max_nat(final(self).backoff().wait_total(), old(self).config().recv_timeout@),
    {
        self.backoff.start_attempt();
        // Instead of wasting the time between when the connection attempt times out,
        // and when the next attempt can start due to backoff,
        // we use it to give the connection more time to complete.
        extended_timeout(self.backoff.remaining_wait(), self.config.recv_timeout)
    }

    /// Decides what a receive leads to. A message is delivered. Anything else
    /// is interpreted as the stream needing a reconnect; it is reported as a
    /// timeout, but only once until a message is delivered again.
    pub fn receive_finished(&mut self, outcome: RecvOutcome) -> (r: ReceiveAction)
        ensures
            (r, final(self).timeout_reported()) == receive_step(old(self).timeout_reported(), outcome),
            // A message is delivered and clears the report.
            outcome == RecvOutcome::Message ==> r == ReceiveAction::Deliver
                && !final(self).timeout_reported(),
            // Anything else drops the connection: the first time since the last
            // message it is reported as a timeout, afterwards silently.
            outcome != RecvOutcome::Message && !old(self).timeout_reported() ==> r
                == ReceiveAction::ReportTimeout && final(self).timeout_reported(),
            outcome != RecvOutcome::Message && old(self).timeout_reported() ==> r
                == ReceiveAction::Reconnect && final(self).timeout_reported(),
            final(self).config() == old(self).config(),
            final(self).backoff() == old(self).backoff(),
    {
        match outcome {
            RecvOutcome::Message => {
                self.timeout_reported = false;
                ReceiveAction::Deliver
            },
            _ => {
                if self.timeout_reported {
                    ReceiveAction::Reconnect
                } else {
                    self.timeout_reported = true;
                    ReceiveAction::ReportTimeout
                }
            },
        }
    }

    /// Records the outcome of a connection attempt: a success resets the backoff.
    pub fn attempt_finished(&mut self, connected: bool)
        ensures
            final(self).config() == old(self).config(),
            final(self).backoff().config() == old(self).backoff().config(),
            final(self).timeout_reported() == old(self).timeout_reported(),
            connected ==> final(self).backoff().attempts() == 0 && !final(self).backoff().started(),
            !connected ==> final(self).backoff() == old(self).backoff(),
    {
        if connected {
            self.backoff.reset();
        }
    }
}

/// What happened to a receive on an open connection.
#[derive(Clone, Copy, Debug, PartialEq, Eq, Structural)]
pub enum RecvOutcome {
    /// A message arrived within the timeout.
    Message,
    /// The stream reported an error.
    Failed,
    /// The stream ended.
    Closed,
    /// The timeout elapsed first.
    TimedOut,
}

/// What follows a receive on an open connection.
#[derive(Clone, Copy, Debug, PartialEq, Eq, Structural)]
pub enum ReceiveAction {
    /// Hand the message on; the connection stays.
    Deliver,
    /// Drop the connection and report that the timeout elapsed.
    ReportTimeout,
    /// Drop the connection and reconnect without a report.
    Reconnect,
}

/// One receive: the action, and whether a timeout has been reported since the
/// last message.
pub open spec fn receive_step(reported: bool, outcome: RecvOutcome) -> (ReceiveAction, bool) {
    if outcome == RecvOutcome::Message {
        (ReceiveAction::Deliver, false)
    } else if reported {
        (ReceiveAction::Reconnect, true)
    } else {
        (ReceiveAction::ReportTimeout, true)
    }
}

/// The actions taken for a sequence of receive outcomes.
pub open spec fn receive_run(reported: bool, outcomes: Seq<RecvOutcome>) -> Seq<ReceiveAction>
    decreases outcomes.len(),
{
    if outcomes.len() == 0 {
        Seq::empty()
    } else {
        let step = receive_step(reported, outcomes[0]);
        seq![step.0] + receive_run(step.1, outcomes.drop_first())
    }
}

/// A message is delivered somewhere strictly between positions `i` and `j`.
pub open spec fn delivered_between(run: Seq<ReceiveAction>, i: int, j: int) -> bool {
    exists|m: int| i < m < j && 0 <= m < run.len() && #[trigger] run[m] == ReceiveAction::Deliver
}

/// Between any two timeout reports a message is delivered.
pub open spec fn reports_separated(run: Seq<ReceiveAction>) -> bool {
    forall|i: int, j: int|
        #![trigger run[i], run[j]]
        0 <= i < j < run.len() && run[i] == ReceiveAction::ReportTimeout && run[j]
            == ReceiveAction::ReportTimeout ==> delivered_between(run, i, j)
}

/// Before any timeout report a message is delivered.
pub open spec fn reports_preceded(run: Seq<ReceiveAction>) -> bool {
    forall|j: int|
        0 <= j < run.len() && #[trigger] run[j] == ReceiveAction::ReportTimeout ==> delivered_between(
            run,
            -1,
            j,
        )
}

/// After a delivered message, the next failure of any kind is reported as a
/// timeout, and every failure after it until the next message is not.
pub proof fn lemma_first_failure_reported(reported: bool, failure: RecvOutcome)
    requires
        failure != RecvOutcome::Message,
    ensures
        receive_run(reported, seq![RecvOutcome::Message, failure, failure]) == seq![
            ReceiveAction::Deliver,
            ReceiveAction::ReportTimeout,
            ReceiveAction::Reconnect,
        ],
{
    let outcomes = seq![RecvOutcome::Message, failure, failure];
    assert(outcomes.drop_first() == seq![failure, failure]);
    assert(outcomes.drop_first().drop_first() == seq![failure]);
    assert(outcomes.drop_first().drop_first().drop_first() == Seq::<RecvOutcome>::empty());
    reveal_with_fuel(receive_run, 4);
    assert(receive_run(reported, outcomes) =~= seq![
        ReceiveAction::Deliver,
        ReceiveAction::ReportTimeout,
        ReceiveAction::Reconnect,
    ]);
}

/// Between two timeout reports a message is always delivered: no further
/// timeouts are reported until at least one valid message is received again.
pub proof fn lemma_timeout_reported_once(reported: bool, outcomes: Seq<RecvOutcome>)
    ensures
        receive_run(reported, outcomes).len() == outcomes.len(),
        reports_separated(receive_run(reported, outcomes)),
        reported ==> reports_preceded(receive_run(reported, outcomes)),
    decreases outcomes.len(),
{
    if outcomes.len() > 0 {
        let step = receive_step(reported, outcomes[0]);
        let rest = outcomes.drop_first();
        lemma_timeout_reported_once(step.1, rest);
        let tail = receive_run(step.1, rest);
        let run = receive_run(reported, outcomes);
        assert(run == seq![step.0] + tail);
        assert forall|i: int, j: int|
            #![trigger run[i], run[j]]
            0 <= i < j < run.len() && run[i] == ReceiveAction::ReportTimeout && run[j]
                == ReceiveAction::ReportTimeout implies delivered_between(run, i, j) by {
            assert(run[j] == tail[j - 1]);
            if i > 0 {
                assert(run[i] == tail[i - 1]);
                assert(delivered_between(tail, i - 1, j - 1));
            } else {
                assert(step.1);
                assert(delivered_between(tail, -1, j - 1));
            }
            let m = choose|m: int|
                i - 1 < m < j - 1 && 0 <= m < tail.len() && #[trigger] tail[m]
                    == ReceiveAction::Deliver;
            assert(run[m + 1] == tail[m]);
        }
        if reported {
            assert forall|j: int|
                0 <= j < run.len() && #[trigger] run[j]
                    == ReceiveAction::ReportTimeout implies delivered_between(run, -1, j) by {
                if step.0 == ReceiveAction::Deliver {
                    assert(run[0] == ReceiveAction::Deliver);
                } else {
                    assert(step.1);
                    assert(run[j] == tail[j - 1]);
                    assert(delivered_between(tail, -1, j - 1));
                    let m = choose|m: int|
                        -1 < m < j - 1 && 0 <= m < tail.len() && #[trigger] tail[m]
                            == ReceiveAction::Deliver;
                    assert(run[m + 1] == tail[m]);
                }
            }
        }
    }
}

} // verus!
