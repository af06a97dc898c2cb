//! Profiling hooks of the encoder. This build records no timings and keeps no counters: the
//! hooks exist so that callers can bracket stages and ask for a report either way.
use vstd::prelude::*;

verus! {

/// A profiled stage, open until it is dropped. This build keeps no name and no clock in it.
pub struct ProfileScope {
    name: &'static str,
}

impl ProfileScope {
    /// The name under which the stage is recorded.
    pub closed spec fn recorded_name(self) -> Seq<char> {
        self.name@
    }
}

/// Opens a profiled stage; this build records nothing for it.
pub fn profile_enter(_name: &'static str) -> (p: ProfileScope)
    ensures
        p.recorded_name() == ""@,
{
    ProfileScope { name: "" }
}

/// Prints the recorded stage timings; this build has none to print.
pub fn print_timing_data() {
}

/// Forgets the recorded stage timings; this build has none.
pub fn clear_timing_data() {
}

} // verus!
