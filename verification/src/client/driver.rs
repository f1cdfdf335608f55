//! What the client does with its connection, step by step. Sockets, threads and
//! clocks are outside: each event comes in, the next thing to do comes out.

use vstd::prelude::*;

use crate::client::backoff;
use crate::client::backoff::Backoff;

verus! {

/// Where the driver stands.
#[derive(Debug, Clone, Copy, PartialEq, Eq, Structural)]
pub enum Phase {
    /// Duplicating the socket for a writer and a reader.
    Opening,
    /// Waiting for calls.
    Serving,
    /// Writing a batch of calls.
    Sending,
    /// Waiting, then connecting again.
    Reconnecting,
    /// All users are gone.
    Stopped,
}

/// What happened.
#[derive(Debug, Clone, Copy, PartialEq, Eq, Structural)]
pub enum Event {
    /// The socket was duplicated, or could not be.
    Opened { ok: bool },
    /// A call came in; the reader had given the connection up, or not.
    Called { dead: bool },
    /// No more calls will come.
    UsersGone,
    /// The batch was written, or could not be.
    Sent { ok: bool },
    /// The connection was made again, or could not be.
    Connected { ok: bool },
}

/// What to do next.
#[derive(Debug, Clone, Copy, PartialEq, Eq, Structural)]
pub enum Act {
    /// Duplicate the socket and start a reader on it.
    Open,
    /// Wait for a call.
    AwaitCall,
    /// Write the call and all others that wait.
    Send,
    /// Answer the call that its connection is lost, wait, and connect again.
    FailCallAndReconnect { delay_ms: u64 },
    /// Give the connection up, wait, and connect again.
    DropAndReconnect { delay_ms: u64 },
    /// Wait, and connect again.
    Reconnect { delay_ms: u64 },
    /// End.
    Stop,
}

/// The events that can happen in a phase.
pub open spec fn possible(phase: Phase, event: Event) -> bool {
    match event {
        Event::Opened { .. } => phase is Opening,
        Event::Called { .. } => phase is Serving,
        Event::UsersGone => phase is Serving,
        Event::Sent { .. } => phase is Sending,
        Event::Connected { .. } => phase is Reconnecting,
    }
}

/// The phase after an event.
pub open spec fn next_phase(event: Event) -> Phase {
    match event {
        Event::Opened { ok } => if ok {
            Phase::Serving
        } else {
            Phase::Reconnecting
        },
        Event::Called { dead } => if dead {
            Phase::Reconnecting
        } else {
            Phase::Sending
        },
        Event::UsersGone => Phase::Stopped,
        Event::Sent { ok } => if ok {
            Phase::Serving
        } else {
            Phase::Reconnecting
        },
        Event::Connected { ok } => if ok {
            Phase::Opening
        } else {
            Phase::Reconnecting
        },
    }
}

/// The wait that the next try to connect takes: a new loss starts over, a failed
/// try doubles it.
pub open spec fn next_delay(delay: u64, event: Event) -> u64 {
    match event {
        Event::Connected { ok: false } => backoff::doubled(delay),
        _ => backoff::FIRST_DELAY_MS,
    }
}

/// What is done after an event.
pub open spec fn next_act(delay: u64, event: Event) -> Act {
    match event {
        Event::Opened { ok: true } => Act::AwaitCall,
        Event::Opened { ok: false } => Act::Reconnect { delay_ms: next_delay(delay, event) },
        Event::Called { dead: true } => Act::FailCallAndReconnect {
            delay_ms: next_delay(delay, event),
        },
        Event::Called { dead: false } => Act::Send,
        Event::UsersGone => Act::Stop,
        Event::Sent { ok: true } => Act::AwaitCall,
        Event::Sent { ok: false } => Act::DropAndReconnect { delay_ms: next_delay(delay, event) },
        Event::Connected { ok: true } => Act::Open,
        Event::Connected { ok: false } => Act::Reconnect { delay_ms: next_delay(delay, event) },
    }
}

/// The driver's state.
pub struct Driver {
    phase: Phase,
    backoff: Backoff,
}

impl Driver {
    /// Where the driver stands.
    pub closed spec fn phase(self) -> Phase {
        self.phase
    }

    /// The next wait.
    pub closed spec fn delay(self) -> u64 {
        self.backoff.delay()
    }

    /// A driver with a fresh connection.
    pub fn new() -> (r: Self)
        ensures
            r.phase() is Opening,
            r.delay() == backoff::FIRST_DELAY_MS,
    {
        Driver { phase: Phase::Opening, backoff: Backoff::new() }
    }

    /// Where the driver stands.
    pub fn current(&self) -> (r: Phase)
        ensures
            r == self.phase(),
    {
        self.phase
    }

    /// Takes in what happened and says what to do next.
    pub fn step(&mut self, event: Event) -> (r: Act)
        requires
            possible(old(self).phase(), event),
        ensures
            final(self).phase() == next_phase(event),
            final(self).delay() == next_delay(old(self).delay(), event),
            r == next_act(old(self).delay(), event),
    {
        match event {
            Event::Connected { ok: false } => self.backoff.on_failure(),
            _ => self.backoff.on_success(),
        }
        let delay_ms = self.backoff.delay_ms();
        match event {
            Event::Opened { ok } => {
                if ok {
                    self.phase = Phase::Serving;
                    Act::AwaitCall
                } else {
                    self.phase = Phase::Reconnecting;
                    Act::Reconnect { delay_ms }
                }
            },
            Event::Called { dead } => {
                if dead {
                    self.phase = Phase::Reconnecting;
                    Act::FailCallAndReconnect { delay_ms }
                } else {
                    self.phase = Phase::Sending;
                    Act::Send
                }
            },
            Event::UsersGone => {
                self.phase = Phase::Stopped;
                Act::Stop
            },
            Event::Sent { ok } => {
                if ok {
                    self.phase = Phase::Serving;
                    Act::AwaitCall
                } else {
                    self.phase = Phase::Reconnecting;
                    Act::DropAndReconnect { delay_ms }
                }
            },
            Event::Connected { ok } => {
                if ok {
                    self.phase = Phase::Opening;
                    Act::Open
                } else {
                    self.phase = Phase::Reconnecting;
                    Act::Reconnect { delay_ms }
                }
            },
        }
    }
}

/// After so many failed tries in a row since the connection was lost.
pub open spec fn delay_of_retry(failures: nat) -> u64
    decreases failures,
{
    if failures == 0 {
        next_delay(0, Event::Sent { ok: false })
    } else {
        next_delay(delay_of_retry((failures - 1) as nat), Event::Connected { ok: false })
    }
}

/// The client never gives up: whatever fails, the next thing it does is to
/// connect again, after a wait that doubles with every failure up to the limit.
/// Only the loss of all users ends it.
pub proof fn law_only_users_end_the_driver(delay: u64, event: Event, failures: nat)
    ensures
        next_act(delay, event) is Stop <==> event is UsersGone,
        next_phase(event) is Stopped <==> event is UsersGone,
        delay_of_retry(failures) == backoff::delay_after(failures),
    decreases failures,
{
    if failures > 0 {
        law_only_users_end_the_driver(delay, event, (failures - 1) as nat);
    }
}

/// Whatever is lost, the first try to connect again comes after a tenth of a
/// second, and each one that fails doubles the wait, up to five seconds; no other
/// event waits.
pub proof fn law_waits_between_tries(delay: u64, event: Event)
    requires
        delay <= 5_000,
    ensures
        next_act(delay, event) matches Act::Reconnect { delay_ms } ==> delay_ms == (
        if event is Connected {
            if 2 * delay < 5_000 {
                2 * delay
            } else {
                5_000
            }
        } else {
            100
        }),
        next_act(delay, event) matches Act::FailCallAndReconnect { delay_ms } ==> delay_ms == 100,
        next_act(delay, event) matches Act::DropAndReconnect { delay_ms } ==> delay_ms == 100,
        next_act(delay, event) is FailCallAndReconnect <==> event == (Event::Called { dead: true }),
        next_act(delay, event) is DropAndReconnect <==> event == (Event::Sent { ok: false }),
        next_act(delay, event) is Reconnect <==> event == (Event::Opened { ok: false }) || event == (
        Event::Connected { ok: false }),
        next_act(delay, event) is Send <==> event == (Event::Called { dead: false }),
        next_act(delay, event) is AwaitCall <==> event == (Event::Opened { ok: true }) || event == (
        Event::Sent { ok: true }),
        next_act(delay, event) is Open <==> event == (Event::Connected { ok: true }),
        next_phase(event) is Reconnecting <==> next_act(delay, event) is Reconnect || next_act(
            delay,
            event,
        ) is FailCallAndReconnect || next_act(delay, event) is DropAndReconnect,
        next_phase(event) is Opening <==> next_act(delay, event) is Open,
        next_phase(event) is Serving <==> next_act(delay, event) is AwaitCall,
        next_phase(event) is Sending <==> next_act(delay, event) is Send,
{
}

/// Every phase but the last has its events, and can take each of them however it
/// turns out; and where a step leads, there is something to be done.
pub proof fn law_every_outcome_is_taken(ok: bool, event: Event, phase: Phase)
    ensures
        possible(Phase::Opening, Event::Opened { ok }),
        possible(Phase::Serving, Event::Called { dead: ok }),
        possible(Phase::Serving, Event::UsersGone),
        possible(Phase::Sending, Event::Sent { ok }),
        possible(Phase::Reconnecting, Event::Connected { ok }),
        !possible(Phase::Stopped, event),
        possible(phase, event) ==> (phase is Opening <==> event is Opened),
        possible(phase, event) ==> (phase is Serving <==> event is Called || event is UsersGone),
        possible(phase, event) ==> (phase is Sending <==> event is Sent),
        possible(phase, event) ==> (phase is Reconnecting <==> event is Connected),
{
}

} // verus!
