//! The form and configuration behind the endpoint that demonstrates a
//! watch channel: a sender pings a number of receiving tasks, then tells
//! them to terminate.  The task spawning itself happens outside the
//! library; this holds the validated configuration.

use std::time::Duration;

use vstd::prelude::*;

verus! {

/// The submitted form: receiver count, seconds between pings, and how
/// many pings to send before terminating.
pub struct ChannelForm {
    pub tasks: u64,
    pub time: u64,
    pub repeat: u64,
}

/// The configuration of one channel demonstration run.
pub struct Channel {
    pub tasks: u64,
    pub time: Duration,
    pub repeat: u64,
}

impl Channel {
    pub fn new(tasks: u64, time: Duration, repeat: u64) -> (c: Channel)
        ensures
            c.tasks == tasks,
            c.time == time,
            c.repeat == repeat,
    {
        Channel { tasks, time, repeat }
    }
}

} // verus!
