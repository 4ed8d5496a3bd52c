//! The course of one task through the wheel: what a roll does to a task,
//! told of the task alone, and the proof that the wheel does just that to
//! every task it holds.

use crate::model::{
    lemma_insert_wf, lemma_rotate_wf, lemma_roll_shape, lemma_sweep_shape, lemma_with_slot_wf,
    slot_wf, MultiWheelView, Step, TaskView,
};
use vstd::prelude::*;

verus! {

/// A task and the slot that holds it.
pub struct Held {
    pub layer: nat,
    pub slot: nat,
    pub task: TaskView,
}

/// What became of a task.
pub enum Fate {
    /// The task is in the wheel, as given.
    Waits(Held),
    /// The task came due, as given, and left the wheel.
    Fires(TaskView),
}

/// The slot after `index` on a ring of `capacity` slots.
pub open spec fn turned(index: nat, capacity: nat) -> nat {
    if index + 1 == capacity {
        0
    } else {
        index + 1
    }
}

/// Every layer from `from` up to, but without, `layer` completes a full
/// turn when it turns by one slot.
pub open spec fn turns_from(indices: Seq<nat>, capacity: nat, from: nat, layer: nat) -> bool {
    forall|j: int| from <= j < layer ==> (#[trigger] indices[j]) + 1 == capacity
}

/// Where the layers stand after a roll from the layer `from`: a layer
/// at or above `from` turns by one slot if every layer between `from` and it
/// completes a full turn, and stays otherwise.
pub open spec fn advance_from(indices: Seq<nat>, capacity: nat, from: nat) -> Seq<nat> {
    Seq::new(
        indices.len(),
        |l: int|
            if from <= l && turns_from(indices, capacity, from, l as nat) {
                turned(indices[l], capacity)
            } else {
                indices[l]
            },
    )
}

/// Where the layers stand one tick later: the finest layer turns by one
/// slot, and every other layer turns by one slot when all the layers below
/// it complete a full turn.
pub open spec fn advance(indices: Seq<nat>, capacity: nat) -> Seq<nat> {
    advance_from(indices, capacity, 0)
}

/// The sweep of the slot `current` of `layer` looks at the task if it is in
/// that slot, and lets it take its step.
pub open spec fn look(held: Held, layer: nat, current: nat) -> Fate {
    if held.layer == layer && held.slot == current {
        match held.task.step() {
            Step::Wait(task) => Fate::Waits(Held { task, ..held }),
            Step::Move(to_layer, to_slot, task) => Fate::Waits(
                Held { layer: to_layer, slot: to_slot, task },
            ),
            Step::Fire => Fate::Fires(held.task),
        }
    } else {
        Fate::Waits(held)
    }
}

/// What a roll from `layer` does to one task, on a wheel whose layers stand
/// at `indices`: the sweeps of the layers that turn look at it, the highest
/// layer first.
pub open spec fn follow(indices: Seq<nat>, capacity: nat, layer: nat, held: Held) -> Fate
    decreases indices.len() - layer,
{
    if layer >= indices.len() {
        Fate::Waits(held)
    } else {
        let current = turned(indices[layer as int], capacity);
        let upper = if current == 0 {
            follow(indices, capacity, layer + 1, held)
        } else {
            Fate::Waits(held)
        };
        match upper {
            Fate::Waits(still) => look(still, layer, current),
            Fate::Fires(task) => Fate::Fires(task),
        }
    }
}

impl MultiWheelView {
    /// The wheel holds the task in the slot named.
    pub open spec fn holds(self, held: Held) -> bool {
        &&& held.layer < self.wheels.len()
        &&& held.slot < self.capacity
        &&& self.slot(held.layer, held.slot).contains(held.task)
    }

    /// The wheel holds the task, or the task is among those that came due.
    pub open spec fn accounts_for(self, due: Seq<TaskView>, fate: Fate) -> bool {
        match fate {
            Fate::Waits(held) => self.holds(held),
            Fate::Fires(task) => due.contains(task),
        }
    }
}

/// What a slot inside it still holds after a task was put into some slot.
pub proof fn lemma_insert_keeps(
    wheel: MultiWheelView,
    layer: nat,
    slot: nat,
    task: TaskView,
    held: Held,
)
    requires
        wheel.wf(),
        layer < wheel.wheels.len(),
        slot < wheel.capacity,
        wheel.holds(held),
    ensures
        wheel.insert(layer, slot, task).holds(held),
        wheel.insert(layer, slot, task).holds(Held { layer, slot, task }),
{
    let after = wheel.insert(layer, slot, task);
    assert(wheel.wheels[layer as int].wf(wheel.wheels.len(), wheel.capacity));
    assert(wheel.wheels[held.layer as int].wf(wheel.wheels.len(), wheel.capacity));
    let inside = wheel.slot(layer, slot);
    assert(inside.push(task)[inside.len() as int] == task);
    assert(after.slot(layer, slot) == inside.push(task));
    if held.layer == layer && held.slot == slot {
        let i = choose|i: int| 0 <= i < inside.len() && inside[i] == held.task;
        assert(inside.push(task)[i] == held.task);
    } else {
        assert(after.slot(held.layer, held.slot) == wheel.slot(held.layer, held.slot));
    }
}

/// The wheel holds a task that was put into it.
pub proof fn lemma_insert_holds(wheel: MultiWheelView, layer: nat, slot: nat, task: TaskView)
    requires
        wheel.wf(),
        layer < wheel.wheels.len(),
        slot < wheel.capacity,
    ensures
        wheel.insert(layer, slot, task).holds(Held { layer, slot, task }),
{
    let after = wheel.insert(layer, slot, task);
    assert(wheel.wheels[layer as int].wf(wheel.wheels.len(), wheel.capacity));
    let inside = wheel.slot(layer, slot);
    assert(inside.push(task)[inside.len() as int] == task);
    assert(after.slot(layer, slot) == inside.push(task));
}

/// Handing out a batch loses nothing: what the wheel inside it still holds,
/// what was due is still due, and each task of the batch is where its step
/// sent it.
pub proof fn lemma_distribute_accounts(
    wheel: MultiWheelView,
    layer: nat,
    batch: Seq<TaskView>,
    due: Seq<TaskView>,
)
    requires
        wheel.wf(),
        layer < wheel.wheels.len(),
        slot_wf(batch, wheel.wheels.len(), wheel.capacity),
    ensures
        forall|held: Held| #[trigger]
            wheel.holds(held) ==> wheel.distribute(layer, batch, due).0.holds(held),
        forall|task: TaskView| #[trigger]
            due.contains(task) ==> wheel.distribute(layer, batch, due).1.contains(task),
        forall|i: int|
            0 <= i < batch.len() ==> wheel.distribute(layer, batch, due).0.accounts_for(
                wheel.distribute(layer, batch, due).1,
                look(
                    Held { layer, slot: wheel.wheels[layer as int].index, task: #[trigger] batch[i] },
                    layer,
                    wheel.wheels[layer as int].index,
                ),
            ),
    decreases batch.len(),
{
    let current = wheel.wheels[layer as int].index;
    assert(wheel.wheels[layer as int].wf(wheel.wheels.len(), wheel.capacity));
    if batch.len() > 0 {
        let rest = batch.drop_last();
        let last = batch.last();
        assert(last.wf(wheel.wheels.len(), wheel.capacity));
        assert forall|i: int| 0 <= i < rest.len() implies (#[trigger] rest[i]).wf(
            wheel.wheels.len(),
            wheel.capacity,
        ) by {
            assert(rest[i] == batch[i]);
        }
        let (next, next_due, placed) = match last.step() {
            Step::Wait(task) => (
                wheel.insert(layer, current, task),
                due,
                Fate::Waits(Held { layer, slot: current, task }),
            ),
            Step::Move(to_layer, to_slot, task) => (
                wheel.insert(to_layer, to_slot, task),
                due,
                Fate::Waits(Held { layer: to_layer, slot: to_slot, task }),
            ),
            Step::Fire => (wheel, due.push(last), Fate::Fires(last)),
        };
        assert(wheel.distribute(layer, batch, due) == next.distribute(layer, rest, next_due));
        assert(placed == look(Held { layer, slot: current, task: last }, layer, current));
        // The step of the last task keeps the wheel well formed.
        match last.step() {
            Step::Wait(task) => {
                lemma_insert_wf(wheel, layer, current, task);
                lemma_insert_holds(wheel, layer, current, task);
            },
            Step::Move(to_layer, to_slot, task) => {
                assert(last.path[last.path.len() - 1].0 < wheel.wheels.len());
                assert forall|j: int| 0 <= j < task.path.len() implies (#[trigger] task.path[j]).0
                    < wheel.wheels.len() && task.path[j].1 < wheel.capacity by {
                    assert(task.path[j] == last.path[j]);
                }
                lemma_insert_wf(wheel, to_layer, to_slot, task);
                lemma_insert_holds(wheel, to_layer, to_slot, task);
            },
            Step::Fire => {
                assert(due.push(last)[due.len() as int] == last);
            },
        }
        assert(next.wf());
        assert(next.wheels[layer as int].index == current) by {
            assert(next.indices() == wheel.indices());
            assert(next.indices()[layer as int] == wheel.indices()[layer as int]);
        }
        assert(next.accounts_for(next_due, placed));
        lemma_distribute_accounts(next, layer, rest, next_due);
        let end = next.distribute(layer, rest, next_due);
        assert forall|held: Held| #[trigger] wheel.holds(held) implies end.0.holds(
            held,
        ) by {
            match last.step() {
                Step::Wait(task) => {
                    lemma_insert_keeps(wheel, layer, current, task, held);
                },
                Step::Move(to_layer, to_slot, task) => {
                    lemma_insert_keeps(wheel, to_layer, to_slot, task, held);
                },
                Step::Fire => {},
            }
            assert(next.holds(held));
        }
        assert forall|task: TaskView| #[trigger] due.contains(task) implies end.1.contains(
            task,
        ) by {
            if next_due != due {
                let i = choose|i: int| 0 <= i < due.len() && due[i] == task;
                assert(due.push(last)[i] == task);
            }
            assert(next_due.contains(task));
        }
        assert forall|i: int| 0 <= i < batch.len() implies end.0.accounts_for(
            end.1,
            look(Held { layer, slot: current, task: #[trigger] batch[i] }, layer, current),
        ) by {
            if i < rest.len() {
                assert(rest[i] == batch[i]);
            } else {
                assert(batch[i] == last);
                match placed {
                    Fate::Waits(held) => {
                        assert(next.holds(held));
                    },
                    Fate::Fires(task) => {
                        assert(next_due.contains(task));
                    },
                }
            }
        }
    }
}

/// A sweep loses nothing: the task that the wheel held is where a look of
/// this sweep sent it, and what was due is still due.
pub proof fn lemma_sweep_accounts(wheel: MultiWheelView, layer: nat, due: Seq<TaskView>, held: Held)
    requires
        wheel.wf(),
        layer < wheel.wheels.len(),
        wheel.holds(held),
    ensures
        wheel.sweep(layer, due).0.accounts_for(
            wheel.sweep(layer, due).1,
            look(held, layer, wheel.wheels[layer as int].index),
        ),
{
    let current = wheel.wheels[layer as int].index;
    assert(wheel.wheels[layer as int].wf(wheel.wheels.len(), wheel.capacity));
    assert(wheel.wheels[held.layer as int].wf(wheel.wheels.len(), wheel.capacity));
    let batch = wheel.slot(layer, current);
    assert(slot_wf(wheel.wheels[layer as int].slots[current as int], wheel.wheels.len(), wheel.capacity));
    let cleared = wheel.with_slot(layer, current, Seq::empty());
    lemma_with_slot_wf(wheel, layer, current, Seq::empty());
    assert(cleared.wheels[layer as int].index == current);
    lemma_distribute_accounts(cleared, layer, batch, due);
    if held.layer == layer && held.slot == current {
        let i = choose|i: int| 0 <= i < batch.len() && batch[i] == held.task;
        assert(held == Held { layer, slot: current, task: batch[i] });
    } else {
        assert(cleared.slot(held.layer, held.slot) == wheel.slot(held.layer, held.slot));
        assert(cleared.holds(held));
    }
}

/// What was due before a sweep is still due after it.
pub proof fn lemma_sweep_keeps_due(wheel: MultiWheelView, layer: nat, due: Seq<TaskView>)
    requires
        wheel.wf(),
        layer < wheel.wheels.len(),
    ensures
        forall|task: TaskView| #[trigger]
            due.contains(task) ==> wheel.sweep(layer, due).1.contains(task),
{
    let current = wheel.wheels[layer as int].index;
    assert(wheel.wheels[layer as int].wf(wheel.wheels.len(), wheel.capacity));
    assert(slot_wf(wheel.wheels[layer as int].slots[current as int], wheel.wheels.len(), wheel.capacity));
    lemma_with_slot_wf(wheel, layer, current, Seq::empty());
    lemma_distribute_accounts(
        wheel.with_slot(layer, current, Seq::empty()),
        layer,
        wheel.slot(layer, current),
        due,
    );
}

/// A roll from `layer` moves the layers as [`advance_from`] says.
pub proof fn lemma_roll_indices(wheel: MultiWheelView, layer: nat)
    requires
        wheel.wf(),
    ensures
        wheel.roll(layer).0.indices() == advance_from(wheel.indices(), wheel.capacity, layer),
    decreases wheel.wheels.len() - layer,
{
    let indices = wheel.indices();
    let capacity = wheel.capacity;
    if layer >= wheel.wheels.len() {
        assert(indices =~= advance_from(indices, capacity, layer));
    } else {
        let turned_wheel = wheel.rotate(layer);
        lemma_rotate_wf(wheel, layer);
        assert(wheel.wheels[layer as int].wf(wheel.wheels.len(), capacity));
        let current = turned(indices[layer as int], capacity);
        assert(turned_wheel.wheels[layer as int].index == current);
        let goal = advance_from(indices, capacity, layer);
        if current == 0 {
            lemma_roll_indices(turned_wheel, layer + 1);
            lemma_roll_shape(turned_wheel, layer + 1);
            let (upper, due) = turned_wheel.roll(layer + 1);
            lemma_sweep_shape(upper, layer, due);
            let stepped = advance_from(turned_wheel.indices(), capacity, layer + 1);
            assert(stepped =~= goal) by {
                assert forall|l: int| 0 <= l < indices.len() implies stepped[l] == goal[l] by {
                    if l > layer {
                        if turns_from(indices, capacity, layer, l as nat) {
                            assert forall|j: int| layer + 1 <= j < l implies (
                            #[trigger] turned_wheel.indices()[j]) + 1 == capacity by {
                                assert(indices[j] + 1 == capacity);
                            }
                        }
                        if turns_from(turned_wheel.indices(), capacity, layer + 1, l as nat) {
                            assert forall|j: int| layer <= j < l implies (#[trigger] indices[j])
                                + 1 == capacity by {
                                if j > layer {
                                    assert(turned_wheel.indices()[j] + 1 == capacity);
                                }
                            }
                        }
                    }
                }
            }
        } else {
            lemma_sweep_shape(turned_wheel, layer, Seq::empty());
            assert(turned_wheel.indices() =~= goal) by {
                assert forall|l: int| 0 <= l < indices.len() implies turned_wheel.indices()[l]
                    == goal[l] by {
                    if l > layer && turns_from(indices, capacity, layer, l as nat) {
                        assert(indices[layer as int] + 1 == capacity);
                    }
                }
            }
        }
    }
}

/// What a roll from `layer` does to a task depends on the layers from
/// `layer` up alone.
pub proof fn lemma_follow_agrees(
    one: Seq<nat>,
    other: Seq<nat>,
    capacity: nat,
    layer: nat,
    held: Held,
)
    requires
        one.len() == other.len(),
        forall|j: int| layer <= j < one.len() ==> one[j] == other[j],
    ensures
        follow(one, capacity, layer, held) == follow(other, capacity, layer, held),
    decreases one.len() - layer,
{
    if layer < one.len() {
        lemma_follow_agrees(one, other, capacity, layer + 1, held);
    }
}

/// A roll loses nothing: every task that the wheel held is afterwards where
/// [`follow`] says, in the wheel or among the tasks that came due.
pub proof fn lemma_roll_accounts(wheel: MultiWheelView, layer: nat, held: Held)
    requires
        wheel.wf(),
        wheel.holds(held),
    ensures
        wheel.roll(layer).0.accounts_for(
            wheel.roll(layer).1,
            follow(wheel.indices(), wheel.capacity, layer, held),
        ),
    decreases wheel.wheels.len() - layer,
{
    let indices = wheel.indices();
    let capacity = wheel.capacity;
    if layer < wheel.wheels.len() {
        let turned_wheel = wheel.rotate(layer);
        lemma_rotate_wf(wheel, layer);
        assert(wheel.wheels[layer as int].wf(wheel.wheels.len(), capacity));
        assert(wheel.wheels[held.layer as int].wf(wheel.wheels.len(), capacity));
        let current = turned(indices[layer as int], capacity);
        assert(turned_wheel.wheels[layer as int].index == current);
        assert(turned_wheel.slot(held.layer, held.slot) == wheel.slot(held.layer, held.slot));
        assert(turned_wheel.holds(held));
        if current == 0 {
            lemma_roll_accounts(turned_wheel, layer + 1, held);
            lemma_roll_shape(turned_wheel, layer + 1);
            lemma_roll_indices(turned_wheel, layer + 1);
            lemma_follow_agrees(turned_wheel.indices(), indices, capacity, layer + 1, held);
            let (upper, due) = turned_wheel.roll(layer + 1);
            assert(upper.wheels[layer as int].index == current) by {
                assert(upper.indices()[layer as int] == turned_wheel.indices()[layer as int]);
            }
            match follow(indices, capacity, layer + 1, held) {
                Fate::Waits(still) => {
                    lemma_sweep_accounts(upper, layer, due, still);
                },
                Fate::Fires(task) => {
                    lemma_sweep_keeps_due(upper, layer, due);
                },
            }
        } else {
            lemma_sweep_accounts(turned_wheel, layer, Seq::empty(), held);
        }
    }
}

} // verus!
