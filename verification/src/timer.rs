//! Timers on a clock that counts nanoseconds from an origin of the caller's choice.

use vstd::prelude::*;

verus! {

/// A timer that fires once its timeout has gone by since it was last armed.
#[derive(Clone, Copy, Debug)]
pub struct Timer {
    /// Nanoseconds from arming to firing.
    pub timeout: u128,
    /// Moment at which the timer fires.
    pub deadline: u128,
}

/// The moment `timeout` after `now`, or the last moment the clock can show.
pub open spec fn later(now: u128, timeout: u128) -> u128 {
    if now + timeout <= u128::MAX {
        (now + timeout) as u128
    } else {
        u128::MAX
    }
}

/// How long it takes from `now` until `deadline`: nothing once the deadline is reached.
pub open spec fn wait_until(deadline: u128, now: u128) -> u128 {
    if deadline <= now {
        0
    } else {
        (deadline - now) as u128
    }
}

impl Timer {
    /// The timer armed at `now` for `timeout`.
    pub open spec fn armed(timeout: u128, now: u128) -> Timer {
        Timer { timeout, deadline: later(now, timeout) }
    }

    /// Whether the timer has fired by `now`.
    pub open spec fn fired(self, now: u128) -> bool {
        self.deadline <= now
    }

    /// Arms a timer that fires `timeout` after `now`.
    pub fn new(timeout: u128, now: u128) -> (timer: Timer)
        ensures
            timer == Timer::armed(timeout, now),
    {
        Timer { timeout, deadline: now.saturating_add(timeout) }
    }

    /// Arms the timer anew: it fires its timeout after `now`.
    pub fn renew(&mut self, now: u128)
        ensures
            *final(self) == Timer::armed(old(self).timeout, now),
    {
        self.deadline = now.saturating_add(self.timeout);
    }

    /// How long to wait at `now` for the timer to fire; zero if it has fired.
    pub fn time_left(&self, now: u128) -> (left: u128)
        ensures
            left == wait_until(self.deadline, now),
    {
        time_until(self.deadline, now)
    }
}

/// How long to wait at `now` for `deadline` to be reached; zero if it has been.
pub fn time_until(deadline: u128, now: u128) -> (left: u128)
    ensures
        left == wait_until(deadline, now),
{
    if deadline <= now {
        0
    } else {
        deadline - now
    }
}

/// A timer fires exactly `timeout` after it was armed, and not before.
pub proof fn timer_fires_after_timeout(timeout: u128, armed_at: u128, now: u128)
    requires
        armed_at + timeout <= u128::MAX,
    ensures
        Timer::armed(timeout, armed_at).fired(now) <==> armed_at + timeout <= now,
{
}

/// Arming a timer keeps the timeout it is armed for. A timer whose timeout the clock does
/// not reach to the end of fires at the last moment that the clock can show.
pub proof fn timer_keeps_its_timeout(timeout: u128, armed_at: u128)
    ensures
        Timer::armed(timeout, armed_at).timeout == timeout,
        armed_at + timeout <= u128::MAX ==> Timer::armed(timeout, armed_at).deadline == armed_at
            + timeout,
        armed_at + timeout > u128::MAX ==> Timer::armed(timeout, armed_at).deadline == u128::MAX,
{
}

/// Waiting until a deadline ends exactly at the deadline, and takes no time if it has been
/// reached.
pub proof fn wait_ends_at_deadline(deadline: u128, now: u128)
    ensures
        now <= deadline ==> now + wait_until(deadline, now) == deadline,
        deadline <= now ==> wait_until(deadline, now) == 0,
{
}

/// A timer has fired exactly when there is nothing left to wait for, and waiting
/// out what is left makes it fire.
pub proof fn timer_wait_ends_in_firing(timer: Timer, now: u128)
    ensures
        timer.fired(now) <==> wait_until(timer.deadline, now) == 0,
        now + wait_until(timer.deadline, now) >= timer.deadline,
{
}

} // verus!
