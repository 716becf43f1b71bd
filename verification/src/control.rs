//! What searches that run side by side tell each other, and when a search has to stop.

use crate::readings::{Clock, Flags};
use std::sync::atomic::{AtomicBool, AtomicU32, AtomicU64, Ordering};
use std::time::Instant;
use vstd::prelude::*;

verus! {

/// The flags and figures that all searches share. Other threads may change them at any time,
/// so nothing is known of what is read from them.
pub struct Signals {
    pub found_perfect: AtomicBool,
    pub timeout_reached: AtomicBool,
    pub best_area: AtomicU64,
    pub best_count: AtomicU32,
    pub branches_processed: AtomicU32,
    pub total_iterations: AtomicU64,
}

impl Signals {
    /// No flag set, nothing found.
    pub fn new() -> Signals {
        Signals {
            found_perfect: AtomicBool::new(false),
            timeout_reached: AtomicBool::new(false),
            best_area: AtomicU64::new(0),
            best_count: AtomicU32::new(0),
            branches_processed: AtomicU32::new(0),
            total_iterations: AtomicU64::new(0),
        }
    }

    /// Readies the figures for another task. That the time is up is kept.
    pub fn start_task(&self) {
        self.best_area.store(0, Ordering::SeqCst);
        self.best_count.store(0, Ordering::SeqCst);
        self.found_perfect.store(false, Ordering::SeqCst);
        self.branches_processed.store(0, Ordering::SeqCst);
        self.total_iterations.store(0, Ordering::SeqCst);
    }

    /// Tells all searches that they can stop, as nothing better is needed.
    pub fn mark_found(&self) {
        self.found_perfect.store(true, Ordering::SeqCst);
    }

    /// Whether nothing better is needed.
    pub fn is_found(&self) -> bool {
        self.found_perfect.load(Ordering::Relaxed)
    }

    /// Tells all searches that the time is up.
    pub fn expire(&self) {
        self.timeout_reached.store(true, Ordering::SeqCst);
    }

    /// Whether the time is up.
    pub fn is_expired(&self) -> bool {
        self.timeout_reached.load(Ordering::Relaxed)
    }

    /// Takes back both flags, so that searches can run again.
    pub fn reopen(&self) {
        self.found_perfect.store(false, Ordering::SeqCst);
        self.timeout_reached.store(false, Ordering::SeqCst);
    }

    /// Counts one more first move that has been dealt with.
    pub fn branch_done(&self) {
        self.branches_processed.fetch_add(1, Ordering::Relaxed);
    }

    /// Whether some search has raised a flag that stops all searches.
    pub fn is_raised(&self) -> bool {
        is_flagged(
            self.found_perfect.load(Ordering::Relaxed),
            self.timeout_reached.load(Ordering::Relaxed),
        )
    }
}

/// What decides whether a flag stops a search: either of the two does.
pub fn is_flagged(found: bool, expired: bool) -> (r: bool)
    ensures
        r == (found || expired),
{
    found || expired
}

/// Whether a search goes on, and if it does not, why.
#[derive(Clone, Copy, Debug, PartialEq, Eq)]
pub enum Stop {
    Go,
    Flagged,
    Overdue,
}

/// Whether a search goes on at a node, and if it does not, why.
pub open spec fn stop_at(
    depth: u32,
    found: bool,
    expired: bool,
    elapsed: int,
    timeout: int,
) -> Stop {
    if found || expired {
        Stop::Flagged
    } else if depth % 16 == 0 && elapsed > timeout {
        Stop::Overdue
    } else {
        Stop::Go
    }
}

/// A search goes on as long as no flag is set and it is in time. Each flag stops it at every
/// level, and the clock on the top level and on every sixteenth one below it; on the levels in
/// between the clock does not matter. More time that has passed never lets a search go on that
/// had to stop.
pub proof fn lemma_stop_at(
    depth: u32,
    found: bool,
    expired: bool,
    elapsed: int,
    later: int,
    timeout: int,
)
    requires
        elapsed <= later,
    ensures
        stop_at(depth, found, expired, elapsed, timeout) == Stop::Flagged <==> found || expired,
        elapsed <= timeout && !found && !expired ==> stop_at(
            depth,
            found,
            expired,
            elapsed,
            timeout,
        ) == Stop::Go,
        elapsed > timeout && !found && !expired ==> (stop_at(
            depth,
            found,
            expired,
            elapsed,
            timeout,
        ) == Stop::Overdue <==> exists|k: int| depth == #[trigger] (16 * k)),
        stop_at(depth, found, expired, later, timeout) == Stop::Go ==> stop_at(
            depth,
            found,
            expired,
            elapsed,
            timeout,
        ) == Stop::Go,
{
    if depth % 16 == 0 {
        assert(depth == 16 * (depth / 16));
    }
}

/// A search need not begin, as the time is over or nothing better is needed.
pub open spec fn is_needless(elapsed: int, timeout: int, found: bool) -> bool {
    elapsed > timeout || found
}

/// No further round begins, as the time is used up or nothing better is needed.
pub open spec fn is_last_round(elapsed: int, timeout: int, found: bool) -> bool {
    elapsed >= timeout || found
}

/// With time left and something better needed searches and rounds begin. At the very end of the
/// time a search begins but no round does, and later neither does. Without time no round begins.
pub proof fn lemma_beginning(elapsed: int, timeout: int, found: bool)
    ensures
        found ==> is_needless(elapsed, timeout, found) && is_last_round(elapsed, timeout, found),
        elapsed < timeout && !found ==> !is_needless(elapsed, timeout, found) && !is_last_round(
            elapsed,
            timeout,
            found,
        ),
        elapsed == timeout && !found ==> !is_needless(elapsed, timeout, found) && is_last_round(
            elapsed,
            timeout,
            found,
        ),
        elapsed > timeout ==> is_needless(elapsed, timeout, found) && is_last_round(
            elapsed,
            timeout,
            found,
        ),
        0 <= elapsed && timeout == 0 ==> is_last_round(elapsed, timeout, found),
{
}

/// What decides whether a search goes on: a flag stops it at once, and the clock is looked at
/// on every sixteenth level.
pub fn stop_reason(
    depth: u32,
    found: bool,
    expired: bool,
    elapsed_nanos: u128,
    timeout_nanos: u128,
) -> (r: Stop)
    ensures
        r == (if found || expired {
            Stop::Flagged
        } else if depth % 16 == 0 && elapsed_nanos > timeout_nanos {
            Stop::Overdue
        } else {
            Stop::Go
        }),
        r == stop_at(depth, found, expired, elapsed_nanos as int, timeout_nanos as int),
{
    if found || expired {
        Stop::Flagged
    } else if depth % 16 == 0 && elapsed_nanos > timeout_nanos {
        Stop::Overdue
    } else {
        Stop::Go
    }
}

/// What decides that a search need not begin: the time is over, or nothing better is needed.
pub fn need_not_begin(elapsed_nanos: u128, timeout_nanos: u128, found: bool) -> (r: bool)
    ensures
        r == (elapsed_nanos > timeout_nanos || found),
        r == is_needless(elapsed_nanos as int, timeout_nanos as int, found),
{
    elapsed_nanos > timeout_nanos || found
}

/// What decides that no further round of searches begins: the time is used up, or nothing better
/// is needed.
pub fn was_last_round(elapsed_nanos: u128, timeout_nanos: u128, found: bool) -> (r: bool)
    ensures
        r == (elapsed_nanos >= timeout_nanos || found),
        r == is_last_round(elapsed_nanos as int, timeout_nanos as int, found),
{
    elapsed_nanos >= timeout_nanos || found
}

/// What a watch over the searches does: it ends as they have ended, it tells them that the time
/// is up, or it goes on.
#[derive(Clone, Copy, Debug, PartialEq, Eq)]
pub enum Watch {
    Done,
    Expire,
    GoOn,
}

/// How a watch over the searches goes on.
pub open spec fn watched(found: bool, expired: bool, elapsed: int, timeout: int) -> Watch {
    if found || expired {
        Watch::Done
    } else if elapsed >= timeout {
        Watch::Expire
    } else {
        Watch::GoOn
    }
}

/// A watch ends as soon as a flag is set. It sets one itself once the time is up, and only then:
/// so it tells the searches at most once, and it goes on no longer than they may run.
pub proof fn lemma_watched(found: bool, expired: bool, elapsed: int, timeout: int)
    ensures
        watched(found, expired, elapsed, timeout) == Watch::Done <==> found || expired,
        watched(found, true, elapsed, timeout) == Watch::Done,
        watched(found, expired, elapsed, timeout) == Watch::GoOn ==> elapsed < timeout,
        !found && !expired && elapsed >= timeout ==> watched(found, expired, elapsed, timeout)
            == Watch::Expire,
        elapsed < timeout ==> watched(found, expired, elapsed, timeout) != Watch::Expire,
{
}

/// What decides how a watch over the searches goes on: a flag ends it, then the clock does.
pub fn watch(found: bool, expired: bool, elapsed_secs: u64, timeout_secs: u64) -> (r: Watch)
    ensures
        r == (if found || expired {
            Watch::Done
        } else if elapsed_secs >= timeout_secs {
            Watch::Expire
        } else {
            Watch::GoOn
        }),
        r == watched(found, expired, elapsed_secs as int, timeout_secs as int),
{
    if is_flagged(found, expired) {
        Watch::Done
    } else if elapsed_secs >= timeout_secs {
        Watch::Expire
    } else {
        Watch::GoOn
    }
}

/// A point in time, out of `std`.
#[verifier::external_type_specification]
#[verifier::external_body]
pub struct ExInstant(Instant);

/// `Instant::now`: the current time. Nothing is claimed of it.
#[verifier::external_body]
pub(crate) fn now() -> Instant {
    Instant::now()
}

/// `Instant::elapsed`, in nanoseconds. Nothing is claimed of how much time has passed.
#[verifier::external_body]
pub(crate) fn elapsed_nanos(start: &Instant) -> u128 {
    start.elapsed().as_nanos()
}

/// What a control goes by: the flags that all searches share, and a clock from `start` on, for so
/// many nanoseconds.
pub struct Source {
    pub signals: Signals,
    pub start: Instant,
    pub timeout: nat,
}

/// What a control was asked and by what it went. Only a control has one, so an answer in a log is
/// an answer that was given.
pub struct Log {
    polls: Seq<bool>,
    source: Source,
}

impl Log {
    /// The answers given so far, `true` where the search had to stop.
    pub closed spec fn polls(self) -> Seq<bool> {
        self.polls
    }

    /// What the control went by.
    pub closed spec fn source(self) -> Source {
        self.source
    }
}

/// What a search asks whether it has to stop. It remembers the answers that it gave.
pub struct Control<'a> {
    signals: &'a Signals,
    start: &'a Instant,
    timeout_nanos: u128,
    polls: Ghost<Seq<bool>>,
}

impl<'a> Control<'a> {
    /// What it was asked so far, and by what it goes.
    pub closed spec fn log(self) -> Log {
        Log {
            polls: self.polls@,
            source: Source {
                signals: *self.signals,
                start: *self.start,
                timeout: self.timeout_nanos as nat,
            },
        }
    }

    /// The answers given so far, `true` where the search had to stop.
    pub open spec fn polls(self) -> Seq<bool> {
        self.log().polls()
    }

    /// What it goes by.
    pub open spec fn source(self) -> Source {
        self.log().source()
    }

    /// How long the search may run, in nanoseconds.
    pub open spec fn timeout(self) -> nat {
        self.log().source().timeout
    }

    /// A search that may run for the given time from `start` on.
    pub fn new(signals: &'a Signals, start: &'a Instant, timeout_seconds: u64) -> (control: Control<
        'a,
    >)
        ensures
            control.polls() == Seq::<bool>::empty(),
            control.timeout() == timeout_seconds * 1_000_000_000,
            control.source() == (Source {
                signals: *signals,
                start: *start,
                timeout: (timeout_seconds * 1_000_000_000) as nat,
            }),
    {
        Control {
            signals,
            start,
            timeout_nanos: timeout_seconds as u128 * 1_000_000_000,
            polls: Ghost(Seq::empty()),
        }
    }

    /// Whether the search has to stop at a node of the given depth. Where the clock says so,
    /// all searches are told.
    pub fn poll(&mut self, depth: u32) -> (stop: bool)
        ensures
            final(self).polls() == old(self).polls().push(stop),
            final(self).timeout() == old(self).timeout(),
            final(self).source() == old(self).source(),
            exists|flags: Flags|
                {
                    &&& flags.source() == old(self).source().signals
                    &&& #[trigger] flags.found() || flags.expired() ==> stop
                    &&& !flags.found() && !flags.expired() && depth % 16 != 0 ==> !stop
                    &&& !flags.found() && !flags.expired() && depth % 16 == 0 ==> exists|
                        clock: Clock,
                    |
                        {
                            &&& clock.start() == old(self).source().start
                            &&& stop == (#[trigger] clock.nanos() > old(self).timeout())
                        }
                },
    {
        self.signals.total_iterations.fetch_add(1, Ordering::Relaxed);
        let flags = Flags::read(self.signals);
        let found = flags.was_found();
        let expired = flags.was_expired();
        let ghost asked = !found && !expired && depth % 16 == 0;
        let mut elapsed: u128 = 0;
        if !found && !expired && depth % 16 == 0 {
            let clock = Clock::read(self.start);
            elapsed = clock.elapsed();
            assert(clock.start() == *self.start && clock.nanos() == elapsed);
        }
        let reason = stop_reason(depth, found, expired, elapsed, self.timeout_nanos);
        let stop = match reason {
            Stop::Go => false,
            Stop::Flagged => true,
            Stop::Overdue => {
                self.signals.timeout_reached.store(true, Ordering::Relaxed);
                true
            },
        };
        proof {
            self.polls@ = self.polls@.push(stop);
            if asked {
                let clock = choose|clock: Clock|
                    clock.start() == *self.start && #[trigger] clock.nanos() == elapsed;
                assert(stop == (clock.nanos() > old(self).timeout()));
            }
            assert(flags.found() == found);
        }
        stop
    }

    /// Whether the search need not begin.
    pub fn poll_start(&mut self) -> (stop: bool)
        ensures
            final(self).polls() == old(self).polls().push(stop),
            final(self).timeout() == old(self).timeout(),
            final(self).source() == old(self).source(),
            exists|flags: Flags, clock: Clock|
                {
                    &&& flags.source() == old(self).source().signals
                    &&& clock.start() == old(self).source().start
                    &&& stop == is_needless(
                        #[trigger] clock.nanos(),
                        old(self).timeout() as int,
                        #[trigger] flags.found(),
                    )
                },
    {
        let clock = Clock::read(self.start);
        let flags = Flags::read(self.signals);
        let stop = need_not_begin(clock.elapsed(), self.timeout_nanos, flags.was_found());
        proof {
            self.polls@ = self.polls@.push(stop);
            assert(stop == is_needless(
                clock.nanos(),
                old(self).timeout() as int,
                flags.found(),
            ));
        }
        stop
    }

    /// Whether no further round of searches begins. Without any time there is none.
    pub fn poll_round(&mut self) -> (stop: bool)
        ensures
            final(self).polls() == old(self).polls().push(stop),
            final(self).timeout() == old(self).timeout(),
            final(self).source() == old(self).source(),
            old(self).timeout() == 0 ==> stop,
            exists|flags: Flags, clock: Clock|
                {
                    &&& flags.source() == old(self).source().signals
                    &&& clock.start() == old(self).source().start
                    &&& stop == is_last_round(
                        #[trigger] clock.nanos(),
                        old(self).timeout() as int,
                        #[trigger] flags.found(),
                    )
                },
    {
        let clock = Clock::read(self.start);
        let flags = Flags::read(self.signals);
        let stop = was_last_round(clock.elapsed(), self.timeout_nanos, flags.was_found());
        proof {
            self.polls@ = self.polls@.push(stop);
            assert(stop == is_last_round(
                clock.nanos(),
                old(self).timeout() as int,
                flags.found(),
            ));
        }
        stop
    }

    /// Tells how good a layout has been found.
    pub fn report(&self, area: u64, pieces: u32) {
        let best: u64 = self.signals.best_area.load(Ordering::Relaxed);
        if area > best {
            self.signals.best_area.store(area, Ordering::Relaxed);
            self.signals.best_count.store(pieces, Ordering::Relaxed);
        }
    }
}

} // verus!
