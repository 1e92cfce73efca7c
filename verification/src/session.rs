//! The wallet session: locked or unlocked, and locked again by itself after
//! a time without activity.

use crate::time::{
    duration_as_nanos, duration_from_secs, duration_nanos, instant_elapsed, instant_now,
    NANOS_PER_SECOND,
};
use std::time::{Duration, Instant};
use vstd::prelude::*;

verus! {

/// Seconds without activity after which a session locks, by default.
pub const DEFAULT_TIMEOUT_SECONDS: u64 = 15 * 60;

/// State of the session.
#[derive(Debug, Clone, Copy, PartialEq, Eq, Structural)]
pub enum SessionState {
    /// Locked.
    Locked,
    /// Unlocking in progress.
    Unlocking,
    /// Unlocked.
    Unlocked,
    /// Locking in progress.
    Locking,
}

/// Whether a session in `state` that has been idle for `idle` nanoseconds
/// is to be locked, the timeout being `timeout` nanoseconds: an unlocked
/// session is, once it has been idle for the timeout.
pub open spec fn lock_due_spec(state: SessionState, idle: nat, timeout: nat) -> bool {
    state == SessionState::Unlocked && idle >= timeout
}

/// Whether a session in `state` that has been idle for `idle` nanoseconds
/// is to be locked.
pub fn lock_due(state: SessionState, idle: u128, timeout: u128) -> (due: bool)
    ensures
        due == lock_due_spec(state, idle as nat, timeout as nat),
{
    state == SessionState::Unlocked && idle >= timeout
}

/// Keeps the state of the session and the time of the last activity.
pub struct SessionManager {
    state: SessionState,
    lock_timeout: Duration,
    last_activity: Instant,
}

impl SessionManager {
    /// The state of the session.
    pub closed spec fn current(&self) -> SessionState {
        self.state
    }

    /// The timeout in nanoseconds.
    pub closed spec fn timeout_nanos(&self) -> nat {
        duration_nanos(self.lock_timeout)
    }

    /// A locked session that locks after `lock_timeout` without activity.
    pub fn new(lock_timeout: Duration) -> (manager: Self)
        ensures
            manager.current() == SessionState::Locked,
            manager.timeout_nanos() == duration_nanos(lock_timeout),
    {
        SessionManager { state: SessionState::Locked, lock_timeout, last_activity: instant_now() }
    }

    /// The state of the session.
    pub fn state(&self) -> (state: SessionState)
        ensures
            state == self.current(),
    {
        self.state
    }

    /// Moves the session to `state`, which counts as activity.
    pub fn set_state(&mut self, state: SessionState)
        ensures
            final(self).current() == state,
            final(self).timeout_nanos() == old(self).timeout_nanos(),
    {
        self.state = state;
        self.last_activity = instant_now();
    }

    /// Notes activity: the time without activity starts anew.
    pub fn touch(&mut self)
        ensures
            final(self).current() == old(self).current(),
            final(self).timeout_nanos() == old(self).timeout_nanos(),
    {
        self.last_activity = instant_now();
    }

    /// Whether the session is to be locked now: the rule of [`lock_due`],
    /// applied to the state, the timeout and the time that has passed since
    /// the last activity. That time is read from the clock, so the answer is
    /// fixed beforehand only where the rule gives it for every idle time: a
    /// session that is not unlocked is never due, and an unlocked session
    /// with a timeout of zero always is.
    pub fn should_lock(&self) -> (due: bool)
        ensures
            exists|idle: nat|
                due == #[trigger] lock_due_spec(self.current(), idle, self.timeout_nanos()),
            self.current() != SessionState::Unlocked ==> !due,
            self.current() == SessionState::Unlocked && self.timeout_nanos() == 0 ==> due,
    {
        let idle = instant_elapsed(&self.last_activity);
        let due = lock_due(
            self.state,
            duration_as_nanos(&idle),
            duration_as_nanos(&self.lock_timeout),
        );
        assert(due == lock_due_spec(self.current(), duration_nanos(idle), self.timeout_nanos()));
        due
    }
}

impl Default for SessionManager {
    fn default() -> (manager: Self)
        ensures
            manager.current() == SessionState::Locked,
            manager.timeout_nanos() == DEFAULT_TIMEOUT_SECONDS * NANOS_PER_SECOND,
    {
        SessionManager::new(duration_from_secs(DEFAULT_TIMEOUT_SECONDS))
    }
}

} // verus!
