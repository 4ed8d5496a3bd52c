//! The wheel as a mathematical value: what every contract of the library
//! speaks of.

use crate::behave::Behave;
use crate::callback::BoxedCallback;
use crate::placement::{placement, Placement};
use crate::ticks::{duration_nanos, rounded_ticks};
use vstd::prelude::*;

verus! {

/// A task as the wheel sees it.
pub struct TaskView {
    /// The callback with its context.
    pub cb: BoxedCallback,
    /// Full turns of its layer that the task still waits through.
    pub round: nat,
    /// The `(layer, slot)` pairs that the task still passes, the next one last.
    pub path: Seq<(nat, nat)>,
    /// The delay that the task was submitted with, in ticks.
    pub ticks: nat,
}

/// What a sweep does with one task of the current slot.
pub enum Step {
    /// The task stays in its slot, one round less to wait.
    Wait(TaskView),
    /// The task moves on to a slot of a layer.
    Move(nat, nat, TaskView),
    /// The task is due.
    Fire,
}

impl TaskView {
    /// Every stop on the path exists in a wheel of this shape.
    pub open spec fn wf(self, layers: nat, capacity: nat) -> bool {
        forall|j: int|
            0 <= j < self.path.len() ==> (#[trigger] self.path[j]).0 < layers && self.path[j].1
                < capacity
    }

    /// A task with rounds left waits; one with a path left moves to the
    /// stop it reached last in placement; any other is due.
    pub open spec fn step(self) -> Step {
        if self.round > 0 {
            Step::Wait(TaskView { round: (self.round - 1) as nat, ..self })
        } else if self.path.len() > 0 {
            Step::Move(
                self.path.last().0,
                self.path.last().1,
                TaskView { path: self.path.drop_last(), ..self },
            )
        } else {
            Step::Fire
        }
    }
}

/// Every task of a slot is well formed.
pub open spec fn slot_wf(slot: Seq<TaskView>, layers: nat, capacity: nat) -> bool {
    forall|i: int| 0 <= i < slot.len() ==> (#[trigger] slot[i]).wf(layers, capacity)
}

/// One layer: a ring of slots and the slot that is current.
pub struct WheelView {
    pub index: nat,
    pub slots: Seq<Seq<TaskView>>,
}

impl WheelView {
    pub open spec fn wf(self, layers: nat, capacity: nat) -> bool {
        &&& self.index < capacity
        &&& self.slots.len() == capacity
        &&& forall|s: int|
            0 <= s < self.slots.len() ==> slot_wf(#[trigger] self.slots[s], layers, capacity)
    }

    /// The ring turned by one slot.
    pub open spec fn rotate(self) -> WheelView {
        WheelView {
            index: if self.index + 1 == self.slots.len() {
                0
            } else {
                self.index + 1
            },
            ..self
        }
    }
}

/// The whole stack of layers, the finest first.
pub struct MultiWheelView {
    pub capacity: nat,
    /// The time between two ticks, in nanoseconds.
    pub granularity: nat,
    pub wheels: Seq<WheelView>,
}

impl MultiWheelView {
    pub open spec fn wf(self) -> bool {
        &&& self.capacity >= 1
        &&& self.wheels.len() >= 1
        &&& forall|l: int|
            0 <= l < self.wheels.len() ==> (#[trigger] self.wheels[l]).wf(
                self.wheels.len(),
                self.capacity,
            )
    }

    /// The current slot of every layer.
    pub open spec fn indices(self) -> Seq<nat> {
        Seq::new(self.wheels.len(), |l: int| self.wheels[l].index)
    }

    /// The tasks of one slot.
    pub open spec fn slot(self, layer: nat, slot: nat) -> Seq<TaskView> {
        self.wheels[layer as int].slots[slot as int]
    }

    /// The wheel with one slot replaced.
    pub open spec fn with_slot(self, layer: nat, slot: nat, tasks: Seq<TaskView>) -> MultiWheelView {
        MultiWheelView {
            wheels: self.wheels.update(
                layer as int,
                WheelView {
                    slots: self.wheels[layer as int].slots.update(slot as int, tasks),
                    ..self.wheels[layer as int]
                },
            ),
            ..self
        }
    }

    /// The wheel with `task` put last into a slot.
    pub open spec fn insert(self, layer: nat, slot: nat, task: TaskView) -> MultiWheelView {
        self.with_slot(layer, slot, self.slot(layer, slot).push(task))
    }

    /// Where a task of `ticks` ticks goes, counted from the current slots.
    pub open spec fn place(self, ticks: nat) -> Placement {
        placement(self.indices(), self.capacity, ticks)
    }

    /// The wheel with a fresh task of `ticks` ticks placed in it.
    pub open spec fn add(self, cb: BoxedCallback, ticks: nat) -> MultiWheelView {
        let at = self.place(ticks);
        self.insert(at.layer, at.slot, TaskView { cb, round: at.round, path: at.path, ticks })
    }

    /// The wheel with one layer turned by one slot.
    pub open spec fn rotate(self, layer: nat) -> MultiWheelView {
        MultiWheelView {
            wheels: self.wheels.update(layer as int, self.wheels[layer as int].rotate()),
            ..self
        }
    }

    /// Hands out the tasks of `batch`, which were taken from the current
    /// slot of `layer`, the last one first: each goes where its own step
    /// sends it, and those that are due are added to `due`.
    pub open spec fn distribute(self, layer: nat, batch: Seq<TaskView>, due: Seq<TaskView>) -> (
        MultiWheelView,
        Seq<TaskView>,
    )
        decreases batch.len(),
    {
        if batch.len() == 0 {
            (self, due)
        } else {
            let rest = batch.drop_last();
            match batch.last().step() {
                Step::Wait(task) => self.insert(
                    layer,
                    self.wheels[layer as int].index,
                    task,
                ).distribute(layer, rest, due),
                Step::Move(to_layer, to_slot, task) => self.insert(
                    to_layer,
                    to_slot,
                    task,
                ).distribute(layer, rest, due),
                Step::Fire => self.distribute(layer, rest, due.push(batch.last())),
            }
        }
    }

    /// One pass over the current slot of `layer`: the slot is emptied, then
    /// its tasks are handed out. A task that lands in the slot again is not
    /// looked at a second time.
    pub open spec fn sweep(self, layer: nat, due: Seq<TaskView>) -> (MultiWheelView, Seq<TaskView>) {
        let current = self.wheels[layer as int].index;
        self.with_slot(layer, current, Seq::empty()).distribute(
            layer,
            self.slot(layer, current),
            due,
        )
    }

    /// Turns `layer` by one slot; where that completes a full turn, first
    /// does the same for the layer above; then sweeps the new current slot
    /// of `layer`. Gives the wheel after it and the tasks that came due, the
    /// ones of the higher layers first.
    pub open spec fn roll(self, layer: nat) -> (MultiWheelView, Seq<TaskView>)
        decreases self.wheels.len() - layer,
    {
        if layer >= self.wheels.len() {
            (self, Seq::empty())
        } else {
            let turned = self.rotate(layer);
            let (upper, due) = if turned.wheels[layer as int].index == 0 {
                turned.roll(layer + 1)
            } else {
                (turned, Seq::empty())
            };
            upper.sweep(layer, due)
        }
    }

    /// The wheel with fresh tasks placed in it one after the other, each
    /// given as its callback and its delay in ticks.
    pub open spec fn add_all(self, fresh: Seq<(BoxedCallback, nat)>) -> MultiWheelView
        decreases fresh.len(),
    {
        if fresh.len() == 0 {
            self
        } else {
            self.add_all(fresh.drop_last()).add(fresh.last().0, fresh.last().1)
        }
    }

    /// The wheel after a task that came due has run and said `behave`:
    /// `Cancel` leaves the task out, `Change` places it anew with the delay
    /// given, `Repeat` places it anew with the delay it was submitted with.
    pub open spec fn settle(self, task: TaskView, behave: Behave) -> MultiWheelView {
        match behave {
            Behave::Cancel => self,
            Behave::Change(dur) => self.add(
                task.cb,
                rounded_ticks(duration_nanos(dur), self.granularity),
            ),
            Behave::Repeat => self.add(task.cb, task.ticks),
        }
    }
}

impl TaskView {
    /// The task ran and said `behave`: its callback was one that may say
    /// so, and `after` is the same task one run further: it holds the same
    /// callback with the context as the run left it, so that whatever it
    /// may say from here on, the task might have said before the run after
    /// `behave`.
    pub open spec fn ran_as(self, after: TaskView, behave: Behave) -> bool {
        &&& self.cb.may_say(behave)
        &&& forall|said: Seq<Behave>, later: Behave| #[trigger]
            after.cb.may_say_after(said, later) ==> self.cb.may_say_after(
                seq![behave] + said,
                later,
            )
        &&& after.round == self.round
        &&& after.path == self.path
        &&& after.ticks == self.ticks
    }
}

/// `ran` tells of each task of `due` how it came back from its run and what
/// it said. The tasks run the last one first: `ran[0]` is the last of `due`.
pub open spec fn ran_from(due: Seq<TaskView>, ran: Seq<(TaskView, Behave)>) -> bool {
    &&& ran.len() == due.len()
    &&& forall|i: int|
        0 <= i < ran.len() ==> due[due.len() - 1 - i].ran_as((#[trigger] ran[i]).0, ran[i].1)
}

impl MultiWheelView {
    /// The wheel after the tasks of `ran` were settled one after the other,
    /// each with what it said.
    pub open spec fn settle_each(self, ran: Seq<(TaskView, Behave)>) -> MultiWheelView
        decreases ran.len(),
    {
        if ran.len() == 0 {
            self
        } else {
            self.settle_each(ran.drop_last()).settle(ran.last().0, ran.last().1)
        }
    }

    /// `after` is this wheel one tick later, where `fresh` names the tasks
    /// that the tick took from the channel and `ran` tells how the tasks
    /// that came due came back from their runs. The fresh tasks are placed,
    /// then the wheel rolls from its finest layer, then the due tasks run
    /// and are settled.
    pub open spec fn ticks_to(
        self,
        after: MultiWheelView,
        fresh: Seq<(BoxedCallback, nat)>,
        ran: Seq<(TaskView, Behave)>,
    ) -> bool {
        let (rolled, due) = self.add_all(fresh).roll(0);
        &&& ran_from(due, ran)
        &&& after == rolled.settle_each(ran)
    }
}

/// A wheel stays well formed when a slot is replaced by well-formed tasks.
pub proof fn lemma_with_slot_wf(wheel: MultiWheelView, layer: nat, slot: nat, tasks: Seq<TaskView>)
    requires
        wheel.wf(),
        layer < wheel.wheels.len(),
        slot < wheel.capacity,
        slot_wf(tasks, wheel.wheels.len(), wheel.capacity),
    ensures
        wheel.with_slot(layer, slot, tasks).wf(),
        wheel.with_slot(layer, slot, tasks).indices() == wheel.indices(),
{
    let after = wheel.with_slot(layer, slot, tasks);
    assert(wheel.wheels[layer as int].wf(wheel.wheels.len(), wheel.capacity));
    assert forall|l: int| 0 <= l < after.wheels.len() implies (#[trigger] after.wheels[l]).wf(
        after.wheels.len(),
        after.capacity,
    ) by {
        assert(wheel.wheels[l].wf(wheel.wheels.len(), wheel.capacity));
        if l == layer {
            assert forall|s: int| 0 <= s < after.wheels[l].slots.len() implies slot_wf(
                #[trigger] after.wheels[l].slots[s],
                after.wheels.len(),
                after.capacity,
            ) by {
                if s != slot {
                    assert(after.wheels[l].slots[s] == wheel.wheels[l].slots[s]);
                }
            }
        }
    }
    assert(after.indices() =~= wheel.indices());
}

/// A wheel stays well formed when a well-formed task is put into a slot.
pub proof fn lemma_insert_wf(wheel: MultiWheelView, layer: nat, slot: nat, task: TaskView)
    requires
        wheel.wf(),
        layer < wheel.wheels.len(),
        slot < wheel.capacity,
        task.wf(wheel.wheels.len(), wheel.capacity),
    ensures
        wheel.insert(layer, slot, task).wf(),
        wheel.insert(layer, slot, task).indices() == wheel.indices(),
{
    assert(wheel.wheels[layer as int].wf(wheel.wheels.len(), wheel.capacity));
    assert(slot_wf(wheel.wheels[layer as int].slots[slot as int], wheel.wheels.len(), wheel.capacity));
    lemma_with_slot_wf(wheel, layer, slot, wheel.slot(layer, slot).push(task));
}

/// A wheel stays well formed when a layer turns.
pub proof fn lemma_rotate_wf(wheel: MultiWheelView, layer: nat)
    requires
        wheel.wf(),
        layer < wheel.wheels.len(),
    ensures
        wheel.rotate(layer).wf(),
{
    let after = wheel.rotate(layer);
    assert forall|l: int| 0 <= l < after.wheels.len() implies (#[trigger] after.wheels[l]).wf(
        after.wheels.len(),
        after.capacity,
    ) by {
        assert(wheel.wheels[l].wf(wheel.wheels.len(), wheel.capacity));
    }
}

impl MultiWheelView {
    /// Two wheels of the same size and pace whose layers stand alike.
    pub open spec fn same_shape(self, other: MultiWheelView) -> bool {
        &&& self.capacity == other.capacity
        &&& self.granularity == other.granularity
        &&& self.wheels.len() == other.wheels.len()
        &&& self.indices() == other.indices()
    }
}

/// Handing out tasks keeps the wheel well formed and moves no layer.
pub proof fn lemma_distribute_shape(
    wheel: MultiWheelView,
    layer: nat,
    batch: Seq<TaskView>,
    due: Seq<TaskView>,
)
    requires
        wheel.wf(),
        layer < wheel.wheels.len(),
        slot_wf(batch, wheel.wheels.len(), wheel.capacity),
    ensures
        wheel.distribute(layer, batch, due).0.wf(),
        wheel.distribute(layer, batch, due).0.same_shape(wheel),
    decreases batch.len(),
{
    if batch.len() > 0 {
        let rest = batch.drop_last();
        let task = batch.last();
        assert(task.wf(wheel.wheels.len(), wheel.capacity));
        assert forall|i: int| 0 <= i < rest.len() implies (#[trigger] rest[i]).wf(
            wheel.wheels.len(),
            wheel.capacity,
        ) by {
            assert(rest[i] == batch[i]);
        }
        assert(wheel.wheels[layer as int].wf(wheel.wheels.len(), wheel.capacity));
        match task.step() {
            Step::Wait(waiting) => {
                let next = wheel.insert(layer, wheel.wheels[layer as int].index, waiting);
                lemma_insert_wf(wheel, layer, wheel.wheels[layer as int].index, waiting);
                lemma_distribute_shape(next, layer, rest, due);
            },
            Step::Move(to_layer, to_slot, moving) => {
                assert(task.path[task.path.len() - 1].0 < wheel.wheels.len());
                assert forall|j: int| 0 <= j < moving.path.len() implies (
                #[trigger] moving.path[j]).0 < wheel.wheels.len() && moving.path[j].1
                    < wheel.capacity by {
                    assert(moving.path[j] == task.path[j]);
                }
                let next = wheel.insert(to_layer, to_slot, moving);
                lemma_insert_wf(wheel, to_layer, to_slot, moving);
                lemma_distribute_shape(next, layer, rest, due);
            },
            Step::Fire => {
                lemma_distribute_shape(wheel, layer, rest, due.push(task));
            },
        }
    }
}

/// A sweep keeps the wheel well formed and moves no layer.
pub proof fn lemma_sweep_shape(wheel: MultiWheelView, layer: nat, due: Seq<TaskView>)
    requires
        wheel.wf(),
        layer < wheel.wheels.len(),
    ensures
        wheel.sweep(layer, due).0.wf(),
        wheel.sweep(layer, due).0.same_shape(wheel),
{
    let current = wheel.wheels[layer as int].index;
    assert(wheel.wheels[layer as int].wf(wheel.wheels.len(), wheel.capacity));
    assert(slot_wf(wheel.wheels[layer as int].slots[current as int], wheel.wheels.len(), wheel.capacity));
    lemma_with_slot_wf(wheel, layer, current, Seq::empty());
    lemma_distribute_shape(
        wheel.with_slot(layer, current, Seq::empty()),
        layer,
        wheel.slot(layer, current),
        due,
    );
}

/// A roll keeps the wheel well formed, with as many layers of the same
/// capacity as before.
pub proof fn lemma_roll_shape(wheel: MultiWheelView, layer: nat)
    requires
        wheel.wf(),
    ensures
        wheel.roll(layer).0.wf(),
        wheel.roll(layer).0.capacity == wheel.capacity,
        wheel.roll(layer).0.granularity == wheel.granularity,
        wheel.roll(layer).0.wheels.len() == wheel.wheels.len(),
    decreases wheel.wheels.len() - layer,
{
    if layer < wheel.wheels.len() {
        let turned = wheel.rotate(layer);
        lemma_rotate_wf(wheel, layer);
        if turned.wheels[layer as int].index == 0 {
            lemma_roll_shape(turned, layer + 1);
            let (upper, due) = turned.roll(layer + 1);
            lemma_sweep_shape(upper, layer, due);
        } else {
            lemma_sweep_shape(turned, layer, Seq::empty());
        }
    }
}

} // verus!
