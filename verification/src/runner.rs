//! Repeating a task until its time is up.

use vstd::prelude::*;

verus! {

#[verifier::external_type_specification]
#[verifier::external_body]
pub struct ExInstant(std::time::Instant);

/// The present moment.
///
/// Calls `std::time::Instant::now`. Nothing is said of the moment it returns.
#[verifier::external_body]
fn now() -> std::time::Instant {
    std::time::Instant::now()
}

/// The time that has passed since `start`.
///
/// Calls `std::time::Instant::elapsed`. Nothing is said of the span it
/// returns.
#[verifier::external_body]
fn elapsed_since(start: &std::time::Instant) -> std::time::Duration {
    start.elapsed()
}

/// The whole milliseconds in `span`.
///
/// Calls `std::time::Duration::as_millis`. Nothing is said of the number it
/// returns.
#[verifier::external_body]
fn millis_of(span: &std::time::Duration) -> u128 {
    span.as_millis()
}

/// Whether a moment `time_ms` milliseconds after the start has been reached
/// when `elapsed_ms` milliseconds have passed.
pub fn reached(time_ms: u128, elapsed_ms: u128) -> (b: bool)
    ensures
        b == (time_ms <= elapsed_ms),
{
    time_ms <= elapsed_ms
}

/// Whether the clock is to be read before round `loop_count` of a task that
/// reads it every `check_interval` rounds.
pub fn is_check_round(loop_count: usize, check_interval: usize) -> (b: bool)
    requires
        check_interval > 0,
    ensures
        b == (loop_count % check_interval == 0),
{
    loop_count % check_interval == 0
}

/// A stopwatch that runs from its creation.
pub struct Timer {
    initialized_at: std::time::Instant,
}

impl Timer {
    /// Starts a stopwatch.
    pub fn new() -> Self {
        Self { initialized_at: now() }
    }

    /// The time since the start.
    pub fn duration(&self) -> std::time::Duration {
        elapsed_since(&self.initialized_at)
    }

    /// The whole milliseconds since the start.
    pub fn duration_as_millis(&self) -> u128 {
        let span = self.duration();
        millis_of(&span)
    }

    /// Whether `time_ms` milliseconds have passed since the start.
    pub fn is_passed(&self, time_ms: u128) -> bool {
        reached(time_ms, self.duration_as_millis())
    }
}

/// A task runner with a time limit and a margin to leave before it.
pub struct TaskRunner {
    timer: Timer,
    time_limit: u128,
    margin_time: u128,
    check_interval: usize,
}

impl TaskRunner {
    #[verifier::type_invariant]
    closed spec fn wf(&self) -> bool {
        self.margin_time <= self.time_limit && self.check_interval > 0
    }

    /// The time limit, in milliseconds.
    pub closed spec fn limit(&self) -> u128 {
        self.time_limit
    }

    /// The margin, in milliseconds.
    pub closed spec fn margin(&self) -> u128 {
        self.margin_time
    }

    /// The number of rounds between two readings of the clock.
    pub closed spec fn interval(&self) -> usize {
        self.check_interval
    }

    /// A runner with a stopwatch of its own.
    pub fn new(time_limit: u128, margin_time: u128, check_interval: usize) -> (res: Self)
        requires
            margin_time <= time_limit,
            check_interval > 0,
        ensures
            res.limit() == time_limit,
            res.margin() == margin_time,
            res.interval() == check_interval,
    {
        Self { timer: Timer::new(), time_limit, margin_time, check_interval }
    }

    /// A runner on a stopwatch that is running already.
    pub fn with_timer(timer: Timer, time_limit: u128, margin_time: u128, check_interval: usize) -> (res:
        Self)
        requires
            margin_time <= time_limit,
            check_interval > 0,
        ensures
            res.limit() == time_limit,
            res.margin() == margin_time,
            res.interval() == check_interval,
    {
        Self { timer, time_limit, margin_time, check_interval }
    }

    /// The moment, in milliseconds after the start, from which the margin
    /// runs.
    pub fn deadline(&self) -> (t: u128)
        ensures
            t == self.limit() - self.margin(),
    {
        proof {
            use_type_invariant(self);
        }
        self.time_limit - self.margin_time
    }

    /// Whether the margin has been reached.
    pub fn should_exit(&self) -> bool {
        self.timer.is_passed(self.deadline())
    }

    /// Calls `task` again and again until `exit_time` milliseconds have
    /// passed since the start, reading the clock before every
    /// `check_interval`-th call, and returns the number of calls: a multiple
    /// of `check_interval`, since the calls end at a reading of the clock, or
    /// the largest number a word holds, where the count stops.
    pub fn run_while<F: Fn() -> ()>(self, task: F, exit_time: u128) -> (loop_count: usize)
        requires
            call_requires(task, ()),
        ensures
            loop_count % self.interval() == 0 || loop_count == usize::MAX,
    {
        proof {
            use_type_invariant(&self);
        }
        let mut loop_count: usize = 0;
        loop
            invariant
                call_requires(task, ()),
                self.check_interval > 0,
            decreases usize::MAX - loop_count,
        {
            if loop_count == usize::MAX {
                return loop_count;
            }
            if is_check_round(loop_count, self.check_interval) {
                if self.timer.is_passed(exit_time) {
                    return loop_count;
                }
            }
            task();
            loop_count += 1;
        }
    }

    /// Calls `task` `n` times and returns the number of calls.
    pub fn run_for<F: Fn() -> ()>(self, task: F, n: usize) -> (loop_count: usize)
        requires
            call_requires(task, ()),
        ensures
            loop_count == n,
    {
        let mut loop_count: usize = 0;
        while loop_count < n
            invariant
                call_requires(task, ()),
                loop_count <= n,
            decreases n - loop_count,
        {
            task();
            loop_count += 1;
        }
        loop_count
    }
}

} // verus!
