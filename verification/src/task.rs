use crate::callback::BoxedCallback;
use crate::model::TaskView;
use crate::wheel::MoveTo;
use vstd::prelude::*;

verus! {

/// One scheduled unit: a callback with its context, and where it stands on
/// its way through the wheel.
pub struct Task {
    pub cb: BoxedCallback,
    /// Full turns of its layer that the task still waits through.
    pub round: usize,
    /// The stops that the task still passes, the next one last.
    pub move_to: MoveTo,
    /// The delay that the task was submitted with, in ticks.
    pub tick: usize,
}

impl View for Task {
    type V = TaskView;

    open spec fn view(&self) -> TaskView {
        TaskView {
            cb: self.cb,
            round: self.round as nat,
            path: self.move_to@,
            ticks: self.tick as nat,
        }
    }
}

/// The tasks of a vector as the wheel sees them.
pub open spec fn task_views(tasks: Seq<Task>) -> Seq<TaskView> {
    tasks.map_values(|task: Task| task@)
}

impl Task {
    /// A task that has not been placed yet.
    pub fn new(cb: BoxedCallback, tick: usize) -> (task: Task)
        ensures
            task@ == (TaskView { cb, round: 0, path: Seq::empty(), ticks: tick as nat }),
    {
        Task { cb, round: 0, move_to: MoveTo::default(), tick }
    }
}

} // verus!
