//! The form behind the endpoint that spawns blocking tasks: how many,
//! for how long, and whether to run them on the blocking thread pool.

use vstd::prelude::*;

use crate::text::{is_on_flag, lower_of};

verus! {

/// The submitted form: task count, seconds to sleep, and an optional
/// mode word deciding whether the tasks block a dedicated thread.
pub struct BlockersForm {
    pub tasks: u64,
    pub time: u64,
    pub spawn_blocking: Option<String>,
}

impl BlockersForm {
    /// Whether the form asks for the blocking pool: the mode word is
    /// present and lowercases to "on", "true" or "1".
    pub fn spawn_blocking(&self) -> (r: bool)
        ensures
            r == match self.spawn_blocking {
                Some(s) => lower_of(s@) == "on"@ || lower_of(s@) == "true"@ || lower_of(s@)
                    == "1"@,
                None => false,
            },
    {
        match &self.spawn_blocking {
            None => false,
            Some(blocking) => is_on_flag(blocking.as_str()),
        }
    }
}

} // verus!
