//! How long to wait between two tries to connect.

use vstd::prelude::*;

verus! {

/// The first wait, in milliseconds.
pub const FIRST_DELAY_MS: u64 = 100;

/// The longest wait, in milliseconds.
pub const MAX_DELAY_MS: u64 = 5_000;

/// Waits that double up to a limit.
#[derive(Debug, Clone, Copy, PartialEq, Eq, Structural)]
pub struct Backoff {
    delay_ms: u64,
}

/// The wait after one that failed.
pub open spec fn doubled(delay_ms: u64) -> u64 {
    if delay_ms * 2 < MAX_DELAY_MS {
        (delay_ms * 2) as u64
    } else {
        MAX_DELAY_MS
    }
}

/// The wait after so many failures in a row.
pub open spec fn delay_after(failures: nat) -> u64
    decreases failures,
{
    if failures == 0 {
        FIRST_DELAY_MS
    } else {
        doubled(delay_after((failures - 1) as nat))
    }
}

impl Backoff {
    /// The next wait.
    pub closed spec fn delay(self) -> u64 {
        self.delay_ms
    }

    /// The next wait lies within the limits.
    #[verifier::type_invariant]
    spec fn within_limits(self) -> bool {
        FIRST_DELAY_MS <= self.delay_ms <= MAX_DELAY_MS
    }

    /// Before the first try.
    pub fn new() -> (r: Self)
        ensures
            r.delay() == delay_after(0),
    {
        Backoff { delay_ms: FIRST_DELAY_MS }
    }

    /// The next wait, in milliseconds.
    pub fn delay_ms(&self) -> (r: u64)
        ensures
            r == self.delay(),
            FIRST_DELAY_MS <= r <= MAX_DELAY_MS,
    {
        proof {
            use_type_invariant(self);
        }
        self.delay_ms
    }

    /// The try failed.
    pub fn on_failure(&mut self)
        ensures
            final(self).delay() == doubled(old(self).delay()),
            2 * old(self).delay() < 5_000 ==> final(self).delay() == 2 * old(self).delay(),
            2 * old(self).delay() >= 5_000 ==> final(self).delay() == 5_000,
    {
        proof {
            use_type_invariant(&*self);
        }
        let next = self.delay_ms * 2;
        self.delay_ms = if next < MAX_DELAY_MS {
            next
        } else {
            MAX_DELAY_MS
        };
    }

    /// The try succeeded: the next loss starts over.
    pub fn on_success(&mut self)
        ensures
            final(self).delay() == delay_after(0),
    {
        self.delay_ms = FIRST_DELAY_MS;
    }
}

/// The waits never shrink while the failures go on, never exceed the limit, and
/// reach it after six of them.
pub proof fn law_waits_grow_to_the_limit(failures: nat)
    ensures
        FIRST_DELAY_MS <= delay_after(failures) <= MAX_DELAY_MS,
        delay_after(failures) <= delay_after(failures + 1),
        failures >= 6 ==> delay_after(failures) == MAX_DELAY_MS,
    decreases failures,
{
    reveal_with_fuel(delay_after, 8);
    if failures > 0 {
        law_waits_grow_to_the_limit((failures - 1) as nat);
    }
}

} // verus!
