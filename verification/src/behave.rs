use std::time::Duration;
use vstd::prelude::*;

verus! {

/// What becomes of a task once its callback has run.
///
/// `Cancel` drops the task and is what a callback without a result means.
/// `Change` schedules the task again after the given delay.
/// `Repeat` schedules the task again after the delay it was submitted with.
#[derive(Debug, Copy, Clone)]
pub enum Behave {
    Cancel,
    Change(Duration),
    Repeat,
}

impl From<()> for Behave {
    fn from(_unit: ()) -> (behave: Behave)
    {
        Behave::Cancel
    }
}

impl vstd::std_specs::convert::FromSpecImpl<()> for Behave {
    open spec fn obeys_from_spec() -> bool {
        true
    }

    open spec fn from_spec(_unit: ()) -> Behave {
        Behave::Cancel
    }
}

impl From<Duration> for Behave {
    fn from(dur: Duration) -> (behave: Behave)
    {
        Behave::Change(dur)
    }
}

impl vstd::std_specs::convert::FromSpecImpl<Duration> for Behave {
    open spec fn obeys_from_spec() -> bool {
        true
    }

    open spec fn from_spec(dur: Duration) -> Behave {
        Behave::Change(dur)
    }
}

} // verus!
