//! The heartbeat watchdog, as a state machine over a monotonic clock in
//! milliseconds. The caller owns the timer: it reports heartbeats and periodic
//! checks, and carries out the kill that a check asks for.

use vstd::prelude::*;

verus! {

/// Silence longer than this ends the managed process.
pub const HEARTBEAT_TIMEOUT_MS: u64 = 65_000;

/// Period of the checks.
pub const CHECK_INTERVAL_MS: u64 = 30_000;

/// A gap between two checks longer than this means the machine slept.
pub const WAKE_GAP_MS: u64 = 60_000;

/// `later - earlier`, or zero when the clock reads the other way.
pub open spec fn elapsed(earlier: u64, later: u64) -> u64 {
    if later >= earlier {
        (later - earlier) as u64
    } else {
        0
    }
}

/// What a check found.
#[derive(Debug, Clone, Copy, PartialEq, Eq, Structural)]
pub enum CheckResult {
    /// A heartbeat came recently enough.
    Alive,
    /// The gap since the previous check shows a sleep: the clock was reset.
    Woke,
    /// No heartbeat within the timeout: the managed process must be stopped.
    TimedOut,
}

/// Time of the last sign of life, and of the last check.
#[derive(Debug, Clone, Copy, PartialEq, Eq, Structural)]
pub struct Watchdog {
    pub last_alive_ms: u64,
    pub last_check_ms: u64,
}

/// The result of a check at `now`.
pub open spec fn check_result(w: Watchdog, now: u64) -> CheckResult {
    if elapsed(w.last_check_ms, now) > WAKE_GAP_MS {
        CheckResult::Woke
    } else if elapsed(w.last_alive_ms, now) > HEARTBEAT_TIMEOUT_MS {
        CheckResult::TimedOut
    } else {
        CheckResult::Alive
    }
}

/// The watchdog after a check at `now`: a sleep or a timeout resets the time
/// of the last sign of life, so that one silence fires at most once.
pub open spec fn after_check(w: Watchdog, now: u64) -> Watchdog {
    match check_result(w, now) {
        CheckResult::Alive => Watchdog { last_check_ms: now, ..w },
        _ => Watchdog { last_alive_ms: now, last_check_ms: now },
    }
}

impl Watchdog {
    /// A watchdog that starts its clock at `now`.
    pub fn new(now: u64) -> (r: Watchdog)
        ensures
            r.last_alive_ms == now,
            r.last_check_ms == now,
    {
        Watchdog { last_alive_ms: now, last_check_ms: now }
    }

    /// A heartbeat (or a start) at `now` resets the time of the last sign of life.
    pub fn heartbeat(&mut self, now: u64)
        ensures
            final(self).last_alive_ms == now,
            final(self).last_check_ms == old(self).last_check_ms,
    {
        self.last_alive_ms = now;
    }

    /// The periodic check at `now`.
    pub fn check(&mut self, now: u64) -> (r: CheckResult)
        ensures
            r == check_result(*old(self), now),
            *final(self) == after_check(*old(self), now),
    {
        let gap = if now >= self.last_check_ms {
            now - self.last_check_ms
        } else {
            0
        };
        self.last_check_ms = now;
        if gap > WAKE_GAP_MS {
            self.last_alive_ms = now;
            return CheckResult::Woke;
        }
        let silence = if now >= self.last_alive_ms {
            now - self.last_alive_ms
        } else {
            0
        };
        if silence > HEARTBEAT_TIMEOUT_MS {
            self.last_alive_ms = now;
            CheckResult::TimedOut
        } else {
            CheckResult::Alive
        }
    }
}

/// A gap between checks longer than `WAKE_GAP_MS` is taken for a sleep: it
/// never times out, and it restarts the clock.
pub proof fn lemma_sleep_gap_resets(w: Watchdog, now: u64)
    requires
        elapsed(w.last_check_ms, now) > WAKE_GAP_MS,
    ensures
        check_result(w, now) == CheckResult::Woke,
        after_check(w, now).last_alive_ms == now,
{
}

/// After a timeout at `t1`, a check that follows within a normal gap does not
/// time out again: one silence fires once.
pub proof fn lemma_timeout_fires_once(w: Watchdog, t1: u64, t2: u64)
    requires
        check_result(w, t1) == CheckResult::TimedOut,
        t1 <= t2,
        t2 - t1 <= WAKE_GAP_MS,
    ensures
        check_result(after_check(w, t1), t2) == CheckResult::Alive,
{
}

/// A check within a normal gap of the previous one, more than
/// `HEARTBEAT_TIMEOUT_MS` after the last sign of life, times out.
pub proof fn lemma_silence_times_out(w: Watchdog, now: u64)
    requires
        elapsed(w.last_check_ms, now) <= WAKE_GAP_MS,
        elapsed(w.last_alive_ms, now) > HEARTBEAT_TIMEOUT_MS,
    ensures
        check_result(w, now) == CheckResult::TimedOut,
{
}

} // verus!
