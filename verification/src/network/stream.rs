//! The expiry of the last message of a stream.
use vstd::prelude::*;

verus! {

/// What the stream did while it was awaited.
#[derive(Clone, Copy, Debug, PartialEq, Eq, Structural)]
pub enum ExpiryEvent {
    /// A message arrived.
    Message,
    /// The lifetime elapsed first.
    TimedOut,
    /// The stream ended.
    Closed,
}

/// What to send on.
#[derive(Clone, Copy, Debug, PartialEq, Eq, Structural)]
pub enum ExpiryAction {
    /// Send the message on.
    Forward,
    /// Send an expiry notification.
    Expire,
    /// End the output.
    Stop,
}

/// One step: the action and whether the next wait has a timeout.
pub open spec fn expiry_step(timed: bool, event: ExpiryEvent) -> (ExpiryAction, bool) {
    match event {
        ExpiryEvent::Message => (ExpiryAction::Forward, true),
        ExpiryEvent::TimedOut => (ExpiryAction::Expire, false),
        ExpiryEvent::Closed => (ExpiryAction::Stop, timed),
    }
}

/// A timeout can only happen while waiting with one, and nothing follows the end.
pub open spec fn possible_events(timed: bool, events: Seq<ExpiryEvent>) -> bool
    decreases events.len(),
{
    if events.len() == 0 {
        true
    } else {
        &&& (events[0] == ExpiryEvent::TimedOut ==> timed)
        &&& (events[0] == ExpiryEvent::Closed ==> events.len() == 1)
        &&& possible_events(expiry_step(timed, events[0]).1, events.drop_first())
    }
}

/// The actions taken for a sequence of events.
pub open spec fn expiry_run(timed: bool, events: Seq<ExpiryEvent>) -> Seq<ExpiryAction>
    decreases events.len(),
{
    if events.len() == 0 {
        Seq::empty()
    } else {
        let (action, next) = expiry_step(timed, events[0]);
        seq![action] + expiry_run(next, events.drop_first())
    }
}

/// If no message is received for more than the lifetime, an expiry
/// notification is sent, to notify the recipient that the validity of the last
/// message has expired. The first message is awaited without a timeout, since
/// there is nothing to expire yet, and so is the message after a notification.
pub struct Expiry {
    timed: bool,
}

impl Expiry {
    /// The next wait has a timeout.
    pub closed spec fn timed(&self) -> bool {
        self.timed
    }

    pub fn new() -> (r: Self)
        ensures
            !r.timed(),
    {
        Expiry { timed: false }
    }

    /// Whether to await the next message with the lifetime as a timeout.
    pub fn uses_timeout(&self) -> (r: bool)
        ensures
            r == self.timed(),
    {
        self.timed
    }

    /// The action for what the stream did.
    pub fn step(&mut self, event: ExpiryEvent) -> (r: ExpiryAction)
        requires
            event == ExpiryEvent::TimedOut ==> old(self).timed(),
        ensures
            (r, final(self).timed()) == expiry_step(old(self).timed(), event),
            // A message is forwarded, and the next one is awaited with the lifetime
            // as a timeout, whatever the state before.
            event == ExpiryEvent::Message ==> r == ExpiryAction::Forward && final(self).timed(),
            // A timeout sends the expiry, and the next message is awaited without one.
            event == ExpiryEvent::TimedOut ==> r == ExpiryAction::Expire && !final(self).timed(),
            event == ExpiryEvent::Closed ==> r == ExpiryAction::Stop && final(self).timed() == old(self).timed(),
    {
        match event {
            ExpiryEvent::Message => {
                self.timed = true;
                ExpiryAction::Forward
            },
            ExpiryEvent::TimedOut => {
                // Previous message was already expired, so we await next one without timeout,
                // since we don't have to send any more expiry events.
                self.timed = false;
                ExpiryAction::Expire
            },
            ExpiryEvent::Closed => ExpiryAction::Stop,
        }
    }
}

/// Every forwarded message is followed by a wait with a timeout: after any
/// message, in any state, a silence longer than the lifetime can occur and
/// expires the message.
pub proof fn lemma_message_arms_timeout(timed: bool)
    ensures
        expiry_step(timed, ExpiryEvent::Message).0 == ExpiryAction::Forward,
        expiry_step(timed, ExpiryEvent::Message).1,
        possible_events(timed, seq![ExpiryEvent::Message, ExpiryEvent::TimedOut]),
        expiry_run(timed, seq![ExpiryEvent::Message, ExpiryEvent::TimedOut]) == seq![
            ExpiryAction::Forward,
            ExpiryAction::Expire,
        ],
{
    let events = seq![ExpiryEvent::Message, ExpiryEvent::TimedOut];
    assert(events.drop_first() == seq![ExpiryEvent::TimedOut]);
    assert(events.drop_first().drop_first() == Seq::<ExpiryEvent>::empty());
    reveal_with_fuel(possible_events, 3);
    reveal_with_fuel(expiry_run, 3);
    assert(expiry_run(timed, events) =~= seq![ExpiryAction::Forward, ExpiryAction::Expire]);
}

/// No two expiry notifications in a row.
pub open spec fn no_consecutive_expiry(s: Seq<ExpiryAction>) -> bool {
    forall|i: int, j: int|
        0 <= i && j == i + 1 && j < s.len() ==> !(#[trigger] s[i] == ExpiryAction::Expire
            && #[trigger] s[j] == ExpiryAction::Expire)
}

/// At most one expiry notification is sent per message: never two in a row,
/// and none before the first message.
pub proof fn lemma_no_consecutive_expiry(timed: bool, events: Seq<ExpiryEvent>)
    requires
        possible_events(timed, events),
    ensures
        expiry_run(timed, events).len() == events.len(),
        no_consecutive_expiry(expiry_run(timed, events)),
        !timed && events.len() > 0 ==> expiry_run(timed, events)[0] != ExpiryAction::Expire,
    decreases events.len(),
{
    if events.len() > 0 {
        let step = expiry_step(timed, events[0]);
        let rest = events.drop_first();
        lemma_no_consecutive_expiry(step.1, rest);
        let tail = expiry_run(step.1, rest);
        let out = expiry_run(timed, events);
        assert(out == seq![step.0] + tail);
        assert forall|i: int, j: int|
            0 <= i && j == i + 1 && j < out.len() implies !(#[trigger] out[i]
            == ExpiryAction::Expire && #[trigger] out[j] == ExpiryAction::Expire) by {
            assert(out[j] == tail[j - 1]);
            if i > 0 {
                assert(out[i] == tail[i - 1]);
            }
        }
    }
}

} // verus!
