use vstd::prelude::*;

verus! {

/// Longest interval, in milliseconds, over which messages are counted.
pub const RATE_INTERVAL_MS: u64 = 1_000;

/// Age, in milliseconds, after which a rate is considered stale.
pub const RATE_STALE_MS: u64 = 3_000;

/// Largest per-interval message count that is tracked.
pub const MAX_INTERVAL_COUNT: u64 = 4_294_967_295;

/// Estimated message rate: messages counted per interval of just over a
/// second, smoothed with α = 0.4. Times are milliseconds on a clock that the
/// caller supplies; rates are in milli-hertz.
#[derive(Debug, Clone, Copy, PartialEq, Eq, Structural)]
pub struct MessageRate {
    pub last_interval_ms: u64,
    pub avg_rate_mhz: u64,
    pub message_count: u64,
}

/// Milliseconds from `last` to `now`; 0 when `now` is earlier.
pub open spec fn elapsed(last: u64, now: u64) -> int {
    if now >= last {
        now - last
    } else {
        0
    }
}

/// Smoothed rate after an interval with `count` messages: `0.4·avg + 0.6·count`
/// in milli-hertz, rounded down.
pub open spec fn smoothed(avg: int, count: int) -> int {
    (4 * avg + 6000 * count) / 10
}

impl MessageRate {
    /// The count and the average stay within their bounds.
    pub open spec fn wf(self) -> bool {
        &&& self.message_count <= MAX_INTERVAL_COUNT
        &&& self.avg_rate_mhz <= 1000 * MAX_INTERVAL_COUNT
    }

    /// No message counted and no rate yet; the interval starts at `now_ms`.
    pub fn new(now_ms: u64) -> (r: MessageRate)
        ensures
            r.wf(),
            r == (MessageRate { last_interval_ms: now_ms, avg_rate_mhz: 0, message_count: 0 }),
    {
        MessageRate { last_interval_ms: now_ms, avg_rate_mhz: 0, message_count: 0 }
    }

    /// Counts one message received at `now_ms`. Once more than a second has
    /// passed since the interval began, the interval's count is folded into
    /// the average and a new interval begins.
    pub fn received(&mut self, now_ms: u64)
        requires
            old(self).wf(),
        ensures
            final(self).wf(),
            ({
                let count = if old(self).message_count < MAX_INTERVAL_COUNT {
                    old(self).message_count + 1
                } else {
                    old(self).message_count as int
                };
                if elapsed(old(self).last_interval_ms, now_ms) > RATE_INTERVAL_MS {
                    *final(self) == MessageRate {
                        last_interval_ms: now_ms,
                        avg_rate_mhz: smoothed(old(self).avg_rate_mhz as int, count) as u64,
                        message_count: 0,
                    }
                } else {
                    *final(self) == MessageRate { message_count: count as u64, ..*old(self) }
                }
            }),
    {
        if self.message_count < MAX_INTERVAL_COUNT {
            self.message_count = self.message_count + 1;
        }
        let el = if now_ms >= self.last_interval_ms {
            now_ms - self.last_interval_ms
        } else {
            0
        };
        if el > RATE_INTERVAL_MS {
            let avg = (4 * (self.avg_rate_mhz as u128) + 6000 * (self.message_count as u128)) / 10;
            self.avg_rate_mhz = avg as u64;
            self.last_interval_ms = now_ms;
            self.message_count = 0;
        }
    }

    /// The smoothed rate in milli-hertz, or `None` when there is none yet or
    /// the interval began more than three seconds before `now_ms`.
    pub fn hz(&self, now_ms: u64) -> (r: Option<u64>)
        ensures
            r == if self.avg_rate_mhz == 0 || elapsed(self.last_interval_ms, now_ms)
                > RATE_STALE_MS {
                None::<u64>
            } else {
                Some(self.avg_rate_mhz)
            },
    {
        let el = if now_ms >= self.last_interval_ms {
            now_ms - self.last_interval_ms
        } else {
            0
        };
        if self.avg_rate_mhz == 0 || el > RATE_STALE_MS {
            None
        } else {
            Some(self.avg_rate_mhz)
        }
    }
}

} // verus!
