use vstd::prelude::*;

verus! {

/// Events sent to the window's event loop from other threads.
#[derive(Debug)]
pub enum UserEvent {
    /// The display refreshed: time to paint.
    Vsync,
}

/// The refresh count after one more refresh: one more, wrapping to zero
/// after `u64::MAX`.
pub open spec fn next_count(c: u64) -> u64 {
    if c == u64::MAX {
        0
    } else {
        (c + 1) as u64
    }
}

/// The refresh count after `k` more refreshes, starting from `start`.
pub open spec fn count_after(start: u64, k: nat) -> u64
    decreases k,
{
    if k == 0 {
        start
    } else {
        next_count(count_after(start, (k - 1) as nat))
    }
}

/// What the display link has reported: the time of the last refresh (in
/// nanoseconds since the link started), the refresh interval (in
/// microseconds), and how many refreshes there were. Zero means not yet.
pub struct LinkStats {
    pub last_vsync_ns: u64,
    pub interval_us: u64,
    pub ticks: u64,
}

impl LinkStats {
    /// Nothing reported yet.
    pub fn new() -> (s: LinkStats)
        ensures
            s.last_vsync_ns == 0 && s.interval_us == 0 && s.ticks == 0,
    {
        LinkStats { last_vsync_ns: 0, interval_us: 0, ticks: 0 }
    }

    /// Records a refresh at `at_ns`; `interval_us` is the refresh interval
    /// where the display gave a usable one. The count wraps around.
    pub fn record_tick(&mut self, at_ns: u64, interval_us: Option<u64>)
        ensures
            final(self).last_vsync_ns == at_ns,
            final(self).ticks == next_count(old(self).ticks),
            final(self).interval_us == match interval_us {
                Some(i) => i,
                None => old(self).interval_us,
            },
    {
        self.last_vsync_ns = at_ns;
        self.ticks = self.ticks.wrapping_add(1);
        if let Some(i) = interval_us {
            self.interval_us = i;
        }
    }
}

/// The time of the last refresh, in nanoseconds since the link started;
/// `None` before the first.
pub fn _last_vsync(stats: &LinkStats) -> (r: Option<u64>)
    ensures
        r == (if stats.last_vsync_ns == 0 {
            None
        } else {
            Some(stats.last_vsync_ns)
        }),
{
    if stats.last_vsync_ns == 0 {
        None
    } else {
        Some(stats.last_vsync_ns)
    }
}

/// The last reported refresh interval in microseconds (such as 4166 at
/// 240 Hz); `None` before one was reported.
pub fn vsync_interval(stats: &LinkStats) -> (r: Option<u64>)
    ensures
        r == (if stats.interval_us == 0 {
            None
        } else {
            Some(stats.interval_us)
        }),
{
    if stats.interval_us == 0 {
        None
    } else {
        Some(stats.interval_us)
    }
}

/// How many refreshes the link has reported.
pub fn tick_count(stats: &LinkStats) -> (r: u64)
    ensures
        r == stats.ticks,
{
    stats.ticks
}

/// Counting refreshes: after `k` calls of `LinkStats::record_tick`, a count
/// that stood at `start` stands at `start + k` wrapped to 64 bits, so from
/// `LinkStats::new` `tick_count` gives the number of refreshes modulo 2^64.
pub proof fn law_ticks_count_refreshes(start: u64, k: nat)
    ensures
        count_after(start, k) as int == (start as int + k) % 0x1_0000_0000_0000_0000,
        count_after(0, k) as int == k % 0x1_0000_0000_0000_0000,
    decreases k,
{
    if k > 0 {
        law_ticks_count_refreshes(start, (k - 1) as nat);
        law_ticks_count_refreshes(0, (k - 1) as nat);
        vstd::arithmetic::div_mod::lemma_add_mod_noop(start as int + k - 1, 1, 0x1_0000_0000_0000_0000);
        vstd::arithmetic::div_mod::lemma_add_mod_noop(k - 1, 1, 0x1_0000_0000_0000_0000);
    } else {
        vstd::arithmetic::div_mod::lemma_small_mod(start as nat, 0x1_0000_0000_0000_0000);
    }
}

} // verus!
