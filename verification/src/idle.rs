//! How long since the user last touched the machine, from what the idle
//! sources report: a Wayland idle listener (which only says "idle for at
//! least the granularity" and when that began) or a platform poll.
use vstd::prelude::*;

verus! {

/// The compositor only tells us "idle for ≥ this long", so reported idle
/// time is granular; 30 s is plenty for a 10-minute pause threshold.
pub const GRANULARITY_SECS: u64 = 30;

/// What the Wayland idle listener knows: whether its thread is still
/// alive, and, while the compositor has declared the user idle, how many
/// whole seconds ago that happened.
#[derive(Clone, Copy, PartialEq, Eq, Structural, Debug)]
pub struct WaylandIdle {
    pub alive: bool,
    pub idle_for_secs: Option<u64>,
}

/// Seconds of inactivity the listener reports: none once it has died,
/// nothing while the user is active, else the granularity plus the time
/// since the compositor said so.
pub open spec fn wayland_idle_secs(w: WaylandIdle) -> Option<int> {
    if !w.alive {
        None
    } else {
        match w.idle_for_secs {
            Some(s) => Some(GRANULARITY_SECS + s),
            None => Some(0),
        }
    }
}

impl WaylandIdle {
    /// Seconds of user inactivity; `None` once the listener has stopped.
    pub fn idle_secs(&self) -> (r: Option<u64>)
        requires
            self.idle_for_secs matches Some(s) ==> s + GRANULARITY_SECS <= u64::MAX,
        ensures
            match wayland_idle_secs(*self) {
                Some(n) => r == Some(n as u64),
                None => r is None,
            },
    {
        if !self.alive {
            return None;
        }
        Some(
            match self.idle_for_secs {
                Some(s) => GRANULARITY_SECS + s,
                None => 0,
            },
        )
    }
}

/// Where idle time comes from.
#[derive(Clone, Copy, PartialEq, Eq, Structural, Debug)]
pub enum IdleMonitor {
    /// The native Wayland listener.
    Wayland(WaylandIdle),
    /// A platform query made on every call.
    Poll,
}

impl IdleMonitor {
    /// Seconds of user inactivity. `polled` is what the platform query
    /// answered (consulted only by `Poll`). `None` = this platform can't
    /// say (the caller should stop asking).
    pub fn idle_secs(&self, polled: Option<u64>) -> (r: Option<u64>)
        requires
            self matches IdleMonitor::Wayland(w) ==> (w.idle_for_secs matches Some(s) ==> s
                + GRANULARITY_SECS <= u64::MAX),
        ensures
            match *self {
                IdleMonitor::Wayland(w) => match wayland_idle_secs(w) {
                    Some(n) => r == Some(n as u64),
                    None => r is None,
                },
                IdleMonitor::Poll => r == polled,
            },
    {
        match self {
            IdleMonitor::Wayland(w) => w.idle_secs(),
            IdleMonitor::Poll => polled,
        }
    }
}

} // verus!
