//! Timing of a named task.

use vstd::prelude::*;

use crate::clock::{elapsed_nanos, instant_now};
use crate::text::owned;

verus! {

/// A task that is being timed.
pub struct TaskTimer {
    start_time: std::time::Instant,
    task_name: String,
}

impl TaskTimer {
    pub closed spec fn name(&self) -> Seq<char> {
        self.task_name@
    }

    /// Starts timing the named task.
    pub fn new(task_name: &str) -> (r: TaskTimer)
        ensures
            r.name() == task_name@,
    {
        TaskTimer { start_time: instant_now(), task_name: owned(task_name) }
    }

    /// The name of the task.
    pub fn task_name(&self) -> (r: &String)
        ensures
            r@ == self.name(),
    {
        &self.task_name
    }

    /// Nanoseconds the task has taken so far, by the monotonic clock.
    pub fn stop(&self) -> u128 {
        elapsed_nanos(&self.start_time)
    }
}

} // verus!
