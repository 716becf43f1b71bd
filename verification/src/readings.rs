//! What was read from the shared flags and from the clock.

use crate::control::{elapsed_nanos, Signals};
use std::time::Instant;
use vstd::prelude::*;

verus! {

/// What the shared flags were when they were read. Only reading them gives one.
pub struct Flags {
    found: bool,
    expired: bool,
    source: Ghost<Signals>,
}

impl Flags {
    /// Nothing better was needed.
    pub closed spec fn found(self) -> bool {
        self.found
    }

    /// The time was up.
    pub closed spec fn expired(self) -> bool {
        self.expired
    }

    /// Whose flags they are.
    pub closed spec fn source(self) -> Signals {
        self.source@
    }

    /// Reads the flags.
    pub fn read(signals: &Signals) -> (flags: Flags)
        ensures
            flags.source() == *signals,
    {
        Flags {
            found: signals.is_found(),
            expired: signals.is_expired(),
            source: Ghost(*signals),
        }
    }

    /// Whether nothing better was needed.
    pub fn was_found(&self) -> (r: bool)
        ensures
            r == self.found(),
    {
        self.found
    }

    /// Whether the time was up.
    pub fn was_expired(&self) -> (r: bool)
        ensures
            r == self.expired(),
    {
        self.expired
    }
}

/// How much time had passed when the clock was read. Only reading it gives one.
pub struct Clock {
    nanos: u128,
    start: Ghost<Instant>,
}

impl Clock {
    /// How many nanoseconds had passed.
    pub closed spec fn nanos(self) -> int {
        self.nanos as int
    }

    /// Since when.
    pub closed spec fn start(self) -> Instant {
        self.start@
    }

    /// Reads the clock.
    pub fn read(start: &Instant) -> (clock: Clock)
        ensures
            clock.start() == *start,
            clock.nanos() >= 0,
    {
        Clock { nanos: elapsed_nanos(start), start: Ghost(*start) }
    }

    /// How many nanoseconds had passed.
    pub fn elapsed(&self) -> (nanos: u128)
        ensures
            nanos == self.nanos(),
    {
        self.nanos
    }
}

} // verus!
