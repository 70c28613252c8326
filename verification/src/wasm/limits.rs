//! Per-invoke resource limits: fuel, the epoch deadline, and the linear
//! memory cap.
use vstd::prelude::*;

verus! {

/// Linear memory a guest may hold, in bytes (64 MiB).
pub const MAX_MEMORY_BYTES: usize = 67108864;
/// Largest request or result envelope, in bytes (1 MiB).
pub const MAX_ENVELOPE_BYTES: usize = 1048576;
/// Captured stdout/stderr per invoke, in bytes (64 KiB).
pub const MAX_CAPTURE_BYTES: usize = 65536;
/// The epoch ticker period, in milliseconds.
pub const EPOCH_TICKER_PERIOD_MS: u64 = 100;

/// Fuel and epoch budgets of one invoke.
#[derive(Debug, Clone, Copy)]
pub struct InvokeLimits {
    pub fuel: u64,
    pub deadline_ticks: u64,
}

impl Default for InvokeLimits {
    /// A billion units of fuel and a five-second deadline (50 ticks).
    fn default() -> (l: InvokeLimits)
        ensures
            l.fuel == 1_000_000_000 && l.deadline_ticks == 50,
    {
        InvokeLimits { fuel: 1_000_000_000, deadline_ticks: 50 }
    }
}

/// What is left of a guest's memory budget.
#[derive(Debug)]
pub struct MemLimiter {
    pub remaining: i64,
}

impl MemLimiter {
    /// A budget of `max` bytes.
    pub fn new(max: usize) -> (m: MemLimiter)
        requires
            max <= i64::MAX,
        ensures
            m.remaining == max as int,
    {
        MemLimiter { remaining: max as i64 }
    }

    /// Decides a memory growth from `current` to `desired` bytes: refused
    /// with `WasmError: memory limit exceeded (64 MiB)` when it would exceed
    /// the remaining budget; otherwise allowed, and charged.
    pub fn memory_growing(&mut self, current: usize, desired: usize) -> (r: Result<bool, String>)
        requires
            current <= i64::MAX,
            desired <= i64::MAX,
            old(self).remaining - (desired - current) <= i64::MAX,
        ensures
            desired - current > old(self).remaining ==> {
                &&& r matches Err(e) && e@ == "WasmError: memory limit exceeded (64 MiB)"@
                &&& final(self).remaining == old(self).remaining
            },
            desired - current <= old(self).remaining ==> {
                &&& r == Ok::<bool, String>(true)
                &&& final(self).remaining == old(self).remaining - (desired - current)
            },
            old(self).remaining >= 0 ==> final(self).remaining >= 0,
    {
        let delta = desired as i64 - current as i64;
        if delta > self.remaining {
            return Err("WasmError: memory limit exceeded (64 MiB)".to_owned());
        }
        self.remaining = self.remaining - delta;
        Ok(true)
    }

    /// Table growth is never limited.
    pub fn table_growing(&mut self, current: usize, desired: usize) -> (r: bool)
        ensures
            r,
            *final(self) == *old(self),
    {
        true
    }
}

} // verus!
