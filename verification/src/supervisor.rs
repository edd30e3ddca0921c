//! Reconnect supervision for one exchange feed.
//!
//! A feed cycles Connecting → Streaming → Disconnected → Connecting …
//! indefinitely — the service is long-running, so there is no retry
//! cap — and terminates only on explicit shutdown. On any failure the
//! venue must leave the merge state at once: stale prices from a dead
//! feed must not pollute the aggregate. Reconnect attempts back off
//! exponentially up to a fixed cap.
//!
//! The whole policy is the pure transition function [`step_spec`]; the
//! caller performs the returned [`FeedAction`] (the connecting,
//! reading and sleeping that cannot happen in here) and feeds back the
//! next event.

use crate::book::Exchange;
use vstd::prelude::*;

verus! {

/// The delay before the first reconnect attempt, in milliseconds.
pub const INITIAL_RETRY_MS: u64 = 500;

/// The cap on the reconnect delay, in milliseconds.
pub const MAX_RETRY_MS: u64 = 30000;

/// Connection lifecycle phase of one feed.
#[derive(Clone, Copy, PartialEq, Eq, Structural, Debug)]
pub enum Phase {
    /// A connect attempt is underway; no valid snapshot seen yet.
    Connecting,
    /// The feed is live: at least one valid snapshot has arrived.
    Streaming,
    /// The connection is down; a reconnect is scheduled.
    Disconnected,
    /// Explicitly shut down; no further transitions.
    Terminated,
}

/// What the feed's read loop observed.
#[derive(Clone, Copy, PartialEq, Eq, Structural, Debug)]
pub enum FeedEvent {
    /// A valid snapshot arrived.
    TickArrived,
    /// The connect attempt failed.
    ConnectFailed,
    /// A data frame failed to parse; the stream's integrity is
    /// uncertain from here on, so this is connection-fatal.
    ParseFailed,
    /// The connection closed unexpectedly.
    Closed,
    /// The scheduled reconnect delay elapsed.
    RetryElapsed,
    /// Explicit shutdown of the whole process.
    Shutdown,
}

/// What the caller must do after a step.
#[derive(Clone, Copy, PartialEq, Eq, Structural, Debug)]
pub enum FeedAction {
    /// Apply the snapshot that just arrived to the merge engine.
    ApplyTick,
    /// Remove the venue from the merge engine at once, then attempt a
    /// reconnect after the given delay.
    RemoveAndRetry { delay_ms: u64 },
    /// Begin a connect attempt.
    BeginConnect,
    /// Close the connection cleanly; the feed is done.
    CloseCleanly,
    /// Nothing to do.
    Ignore,
}

/// Supervision state of one feed: its venue, its phase, and the delay
/// the next reconnect would wait.
#[derive(Clone, Copy, PartialEq, Eq, Structural, Debug)]
pub struct Supervisor {
    pub exchange: Exchange,
    pub phase: Phase,
    pub retry_ms: u64,
}

/// The delay after one more failure: doubled, capped.
pub open spec fn next_retry_spec(d: u64) -> u64 {
    if d >= MAX_RETRY_MS / 2 {
        MAX_RETRY_MS
    } else {
        (2 * d) as u64
    }
}

/// The complete reconnect policy as a pure transition function.
pub open spec fn step_spec(s: Supervisor, ev: FeedEvent) -> (Supervisor, FeedAction) {
    if ev == FeedEvent::Shutdown {
        (Supervisor { phase: Phase::Terminated, ..s }, FeedAction::CloseCleanly)
    } else if s.phase == Phase::Terminated {
        (s, FeedAction::Ignore)
    } else if ev == FeedEvent::TickArrived {
        if s.phase == Phase::Connecting || s.phase == Phase::Streaming {
            (
                Supervisor { phase: Phase::Streaming, retry_ms: INITIAL_RETRY_MS, ..s },
                FeedAction::ApplyTick,
            )
        } else {
            (s, FeedAction::Ignore)
        }
    } else if ev == FeedEvent::ConnectFailed || ev == FeedEvent::ParseFailed || ev
        == FeedEvent::Closed {
        if s.phase == Phase::Connecting || s.phase == Phase::Streaming {
            (
                Supervisor { phase: Phase::Disconnected, retry_ms: next_retry_spec(s.retry_ms), ..s },
                FeedAction::RemoveAndRetry { delay_ms: s.retry_ms },
            )
        } else {
            (s, FeedAction::Ignore)
        }
    } else {
        if s.phase == Phase::Disconnected {
            (Supervisor { phase: Phase::Connecting, ..s }, FeedAction::BeginConnect)
        } else {
            (s, FeedAction::Ignore)
        }
    }
}

/// The reconnect delay stays within its bounds.
pub open spec fn retry_wf(s: Supervisor) -> bool {
    INITIAL_RETRY_MS <= s.retry_ms <= MAX_RETRY_MS
}

/// No sequence of events drives the delay out of its bounds.
pub proof fn lemma_retry_bounded(s: Supervisor, ev: FeedEvent)
    requires
        retry_wf(s),
    ensures
        retry_wf(step_spec(s, ev).0),
{
}

/// Every step keeps the feed's venue; only explicit shutdown reaches
/// the terminal phase.
pub proof fn lemma_step_venue_and_termination(s: Supervisor, ev: FeedEvent)
    ensures
        step_spec(s, ev).0.exchange == s.exchange,
        step_spec(s, ev).0.phase == Phase::Terminated <==> (s.phase == Phase::Terminated || ev
            == FeedEvent::Shutdown),
{
}

impl Supervisor {
    /// A fresh feed starts connecting with the initial delay.
    pub fn new(exchange: Exchange) -> (r: Supervisor)
        ensures
            r == (Supervisor {
                exchange,
                phase: Phase::Connecting,
                retry_ms: INITIAL_RETRY_MS,
            }),
            retry_wf(r),
    {
        Supervisor { exchange, phase: Phase::Connecting, retry_ms: INITIAL_RETRY_MS }
    }

    /// Advance by one observed event; returns what the caller must do.
    pub fn step(&mut self, ev: FeedEvent) -> (a: FeedAction)
        ensures
            *final(self) == step_spec(*old(self), ev).0,
            a == step_spec(*old(self), ev).1,
    {
        if matches!(ev, FeedEvent::Shutdown) {
            self.phase = Phase::Terminated;
            return FeedAction::CloseCleanly;
        }
        if matches!(self.phase, Phase::Terminated) {
            return FeedAction::Ignore;
        }
        match ev {
            FeedEvent::TickArrived => {
                if matches!(self.phase, Phase::Connecting) || matches!(self.phase, Phase::Streaming)
                {
                    self.phase = Phase::Streaming;
                    self.retry_ms = INITIAL_RETRY_MS;
                    FeedAction::ApplyTick
                } else {
                    FeedAction::Ignore
                }
            },
            FeedEvent::ConnectFailed | FeedEvent::ParseFailed | FeedEvent::Closed => {
                if matches!(self.phase, Phase::Connecting) || matches!(self.phase, Phase::Streaming)
                {
                    let delay = self.retry_ms;
                    self.phase = Phase::Disconnected;
                    self.retry_ms = next_retry(delay);
                    FeedAction::RemoveAndRetry { delay_ms: delay }
                } else {
                    FeedAction::Ignore
                }
            },
            FeedEvent::RetryElapsed => {
                if matches!(self.phase, Phase::Disconnected) {
                    self.phase = Phase::Connecting;
                    FeedAction::BeginConnect
                } else {
                    FeedAction::Ignore
                }
            },
            FeedEvent::Shutdown => FeedAction::Ignore,
        }
    }
}

fn next_retry(d: u64) -> (r: u64)
    ensures
        r == next_retry_spec(d),
{
    if d >= MAX_RETRY_MS / 2 {
        MAX_RETRY_MS
    } else {
        2 * d
    }
}

} // verus!
