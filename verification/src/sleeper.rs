//! The form and configuration behind the endpoint that spawns a number
//! of tasks which only sleep.  The spawning happens outside the library.

use std::time::Duration;

use vstd::prelude::*;

verus! {

/// The submitted form: task count and seconds to sleep.
pub struct SleeperForm {
    pub tasks: u64,
    pub time: u64,
}

/// The configuration of one sleeper run.
pub struct Sleeper {
    pub tasks: u64,
    pub time: Duration,
}

impl Sleeper {
    pub fn new(tasks: u64, time: Duration) -> (s: Sleeper)
        ensures
            s.tasks == tasks,
            s.time == time,
    {
        Sleeper { tasks, time }
    }
}

} // verus!
