use vstd::prelude::*;
use std::time::Instant;

verus! {

#[verifier::external_type_specification]
#[verifier::external_body]
pub struct ExInstant(Instant);

/// Relies on std::time::Instant::now: the current reading of the monotonic
/// clock; nothing is known of its value.
pub assume_specification[ Instant::now ]() -> Instant;

/// A named stopwatch started when it is made; `as_millis` says whether its
/// reading is shown in milliseconds rather than seconds.
pub struct ScopedTimer {
    pub name: &'static str,
    pub start_time: Instant,
    pub as_millis: bool,
}

impl ScopedTimer {
    /// A stopwatch named `name`, started now.
    pub fn new(name: &'static str, as_millis: bool) -> (r: Self)
        ensures
            r.name == name,
            r.as_millis == as_millis,
    {
        ScopedTimer { name, start_time: Instant::now(), as_millis }
    }
}

} // verus!
