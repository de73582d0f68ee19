//! The unit that a DAG's times are given in, and the work that stands for an execution
//! time.

use vstd::prelude::*;

use crate::time::Duration;

verus! {

/// The unit of the times in a DAG's data.
#[derive(Debug, Clone, Copy, PartialEq, Eq, Structural)]
pub enum TimeUnit {
    Seconds,
    Milliseconds,
    Microseconds,
    Nanoseconds,
}

impl TimeUnit {
    /// How many nanoseconds one unit has.
    pub open spec fn nanos(self) -> int {
        match self {
            TimeUnit::Seconds => 1_000_000_000,
            TimeUnit::Milliseconds => 1_000_000,
            TimeUnit::Microseconds => 1_000,
            TimeUnit::Nanoseconds => 1,
        }
    }
}

impl Default for TimeUnit {
    /// Milliseconds, where nothing else is said.
    fn default() -> (unit: Self)
        ensures
            unit == TimeUnit::Milliseconds,
    {
        TimeUnit::Milliseconds
    }
}

/// A time of a DAG's data as a length of time.
pub fn convert_duration(unit: TimeUnit, duration: u64) -> (d: Duration)
    ensures
        d.wf(),
        d.total_nanos() == duration * unit.nanos(),
{
    match unit {
        TimeUnit::Seconds => Duration::from_secs(duration),
        TimeUnit::Milliseconds => Duration::from_millis(duration),
        TimeUnit::Microseconds => Duration::from_micros(duration),
        TimeUnit::Nanoseconds => Duration::from_nanos(duration),
    }
}

/// How many milliseconds a simulated execution of `duration` units waits for, rounded
/// down.
pub fn simulated_execution_time(unit: TimeUnit, duration: u64) -> (millis: u64)
    requires
        unit == TimeUnit::Seconds ==> duration * 1_000 <= u64::MAX,
    ensures
        millis == duration * unit.nanos() / 1_000_000,
{
    match unit {
        TimeUnit::Seconds => duration * 1_000,
        TimeUnit::Milliseconds => duration,
        TimeUnit::Microseconds => duration / 1_000,
        TimeUnit::Nanoseconds => duration / 1_000_000,
    }
}

/// How long a calibration runs, in milliseconds.
pub const CALIBRATION_MS: u64 = 5;

/// After how many iterations a calibration looks at the clock.
pub const SAMPLE_EVERY: u64 = 4096;

/// One unit of work: a multiplication and an addition, both wrapping round.
pub open spec fn worked(acc: int) -> int {
    (acc * 2_654_435_761 + 1) % 0x1_0000_0000_0000_0000
}

/// The value after `n` units of work.
pub open spec fn worked_times(acc: int, n: nat) -> int
    decreases n,
{
    if n == 0 {
        acc
    } else {
        worked(worked_times(acc, (n - 1) as nat))
    }
}

/// One unit of work.
pub fn busy_iteration(acc: u64) -> (next: u64)
    ensures
        next == worked(acc as int),
{
    let product: u64 = acc.wrapping_mul(2_654_435_761);
    let next: u64 = product.wrapping_add(1);
    proof {
        let m = 0x1_0000_0000_0000_0000int;
        let p = acc * 2_654_435_761;
        vstd::arithmetic::div_mod::lemma_add_mod_noop(p, 1, m);
        assert(product == p % m);
        assert(next == (product + 1) % m);
        assert(1int % m == 1);
    }
    next
}

/// Whether a calibration ends: it looks at the clock only after each so many iterations,
/// and ends once it has run long enough.
pub fn calibration_done(iters: u64, elapsed_us: u64) -> (done: bool)
    ensures
        done == (iters % SAMPLE_EVERY == 0 && elapsed_us >= CALIBRATION_MS * 1_000),
{
    iters % SAMPLE_EVERY == 0 && elapsed_us >= CALIBRATION_MS * 1_000
}

/// The iterations per millisecond that a calibration of `iters` iterations found: at least
/// one.
pub fn calibrate_busy_work(iters: u64) -> (per_ms: u64)
    ensures
        per_ms == if iters / CALIBRATION_MS < 1 {
            1
        } else {
            iters / CALIBRATION_MS
        },
{
    let per_ms: u64 = iters / CALIBRATION_MS;
    if per_ms < 1 {
        1
    } else {
        per_ms
    }
}

/// How an execution time is simulated.
#[derive(Debug, Clone, Copy, PartialEq, Eq, Structural)]
pub enum BusyWork {
    /// By waiting for this many milliseconds: nothing has been calibrated.
    Wait(u64),
    /// By this many iterations.
    Iterate(u64),
}

/// Decides how `ms` milliseconds of work are simulated with a calibration of `per_ms`
/// iterations per millisecond, zero if there is none.
pub fn busy_work_for_millisec(per_ms: u64, ms: u64) -> (work: BusyWork)
    ensures
        work == if per_ms == 0 {
            BusyWork::Wait(ms)
        } else if per_ms * ms > u64::MAX {
            BusyWork::Iterate(u64::MAX)
        } else {
            BusyWork::Iterate((per_ms * ms) as u64)
        },
{
    if per_ms == 0 {
        return BusyWork::Wait(ms);
    }
    match per_ms.checked_mul(ms) {
        Some(target) => BusyWork::Iterate(target),
        None => BusyWork::Iterate(u64::MAX),
    }
}

/// Does so many units of work.
pub fn iterate(target: u64) -> (acc: u64)
    ensures
        acc == worked_times(1, target as nat),
{
    let mut acc: u64 = 1;
    let mut i: u64 = 0;
    while i < target
        invariant
            i <= target,
            acc == worked_times(1, i as nat),
        decreases target - i,
    {
        acc = busy_iteration(acc);
        i = i + 1;
    }
    acc
}

/// A second is a thousand milliseconds, a millisecond a thousand microseconds, and a
/// microsecond a thousand nanoseconds.
pub proof fn lemma_units_are_thousands()
    ensures
        TimeUnit::Seconds.nanos() == 1_000 * TimeUnit::Milliseconds.nanos(),
        TimeUnit::Milliseconds.nanos() == 1_000 * TimeUnit::Microseconds.nanos(),
        TimeUnit::Microseconds.nanos() == 1_000 * TimeUnit::Nanoseconds.nanos(),
        TimeUnit::Nanoseconds.nanos() == 1,
{
}

/// Work is done one unit after the other: doing some units and then more leads to the same
/// value as doing all of them at once, and one unit multiplies and adds, wrapping round.
pub proof fn lemma_work_adds_up(acc: int, a: nat, b: nat)
    ensures
        worked_times(acc, a + b) == worked_times(worked_times(acc, a), b),
        worked_times(acc, 1) == (acc * 2_654_435_761 + 1) % 0x1_0000_0000_0000_0000,
    decreases b,
{
    reveal_with_fuel(worked_times, 2);
    if b > 0 {
        lemma_work_adds_up(acc, a, (b - 1) as nat);
    }
}

} // verus!
