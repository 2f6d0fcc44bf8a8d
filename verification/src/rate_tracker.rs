//! A counter of the requests sent upstream, started anew when more than five
//! minutes have passed since it was last started.

use vstd::prelude::*;

verus! {

/// The seconds after which the count starts anew.
pub const TRACKING_WINDOW_SECS: u64 = 300;

/// The count of requests since `restart_time`. Times are in milliseconds.
#[derive(Clone, Copy, Debug, PartialEq, Eq, Structural)]
pub struct RateTracker {
    pub requests: u64,
    pub restart_time: u64,
}

impl RateTracker {
    /// The whole seconds from `restart_time` to `now`; 0 where the clock has
    /// not advanced.
    pub open spec fn elapsed_secs(self, now: u64) -> int {
        if now >= self.restart_time {
            (now - self.restart_time) / 1000
        } else {
            0
        }
    }

    /// The tracker after a request that started at `start_time`.
    pub open spec fn after_inc(self, start_time: u64) -> RateTracker {
        if self.elapsed_secs(start_time) > TRACKING_WINDOW_SECS {
            RateTracker { requests: 1, restart_time: start_time }
        } else {
            RateTracker {
                requests: if self.requests == u64::MAX {
                    0
                } else {
                    (self.requests + 1) as u64
                },
                restart_time: self.restart_time,
            }
        }
    }

    /// A tracker that starts counting at `now`.
    pub fn new(now: u64) -> (tracker: RateTracker)
        ensures
            tracker == (RateTracker { requests: 0, restart_time: now }),
    {
        RateTracker { requests: 0, restart_time: now }
    }

    /// The requests counted since the last start.
    pub fn requests(&self) -> (n: u64)
        ensures
            n == self.requests,
    {
        self.requests
    }

    /// The milliseconds from the last start to `now`; 0 where the clock has not
    /// advanced.
    pub fn elapsed(&self, now: u64) -> (ms: u64)
        ensures
            ms == if now >= self.restart_time {
                now - self.restart_time
            } else {
                0
            },
    {
        if now >= self.restart_time {
            now - self.restart_time
        } else {
            0
        }
    }

    /// Counts a request that started at `start_time`. Where more than
    /// `TRACKING_WINDOW_SECS` whole seconds have passed since the last start,
    /// the count starts anew at `start_time`. The count wraps at the largest
    /// `u64`.
    pub fn inc(&mut self, start_time: u64)
        ensures
            *final(self) == old(self).after_inc(start_time),
    {
        let elapsed = self.elapsed(start_time) / 1000;
        if elapsed > TRACKING_WINDOW_SECS {
            self.reset(start_time);
        }
        self.requests = if self.requests == u64::MAX {
            0
        } else {
            self.requests + 1
        };
    }

    /// Starts the count anew at `start_time`.
    pub fn reset(&mut self, start_time: u64)
        ensures
            *final(self) == (RateTracker { requests: 0, restart_time: start_time }),
    {
        self.requests = 0;
        self.restart_time = start_time;
    }
}

} // verus!
