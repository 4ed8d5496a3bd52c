//! How many tasks the wheel holds: no roll makes a task or loses one.

use crate::behave::Behave;
use crate::callback::BoxedCallback;
use crate::model::{
    lemma_insert_wf, lemma_rotate_wf, lemma_roll_shape, lemma_with_slot_wf,
    slot_wf, MultiWheelView, Step, TaskView, WheelView,
};
use crate::placement::lemma_placement_wf;
use vstd::prelude::*;

verus! {

/// The number of tasks in the slots of one ring.
pub open spec fn tasks_in(slots: Seq<Seq<TaskView>>) -> nat
    decreases slots.len(),
{
    if slots.len() == 0 {
        0
    } else {
        tasks_in(slots.drop_last()) + slots.last().len()
    }
}

/// The number of tasks in the rings of a stack.
pub open spec fn tasks_on(wheels: Seq<WheelView>) -> nat
    decreases wheels.len(),
{
    if wheels.len() == 0 {
        0
    } else {
        tasks_on(wheels.drop_last()) + tasks_in(wheels.last().slots)
    }
}

impl MultiWheelView {
    /// The number of tasks that the wheel holds.
    pub open spec fn total(self) -> nat {
        tasks_on(self.wheels)
    }
}

/// The outcomes that keep their task in the wheel: all but `Cancel`.
pub open spec fn kept(ran: Seq<(TaskView, Behave)>) -> nat
    decreases ran.len(),
{
    if ran.len() == 0 {
        0
    } else {
        kept(ran.drop_last()) + if ran.last().1 is Cancel {
            0nat
        } else {
            1nat
        }
    }
}

/// Replacing one slot changes the count by the difference of the two.
pub proof fn lemma_tasks_in_update(slots: Seq<Seq<TaskView>>, slot: int, tasks: Seq<TaskView>)
    requires
        0 <= slot < slots.len(),
    ensures
        tasks_in(slots.update(slot, tasks)) + slots[slot].len() == tasks_in(slots) + tasks.len(),
    decreases slots.len(),
{
    let after = slots.update(slot, tasks);
    if slot == slots.len() - 1 {
        assert(after.drop_last() =~= slots.drop_last());
    } else {
        assert(after.drop_last() =~= slots.drop_last().update(slot, tasks));
        lemma_tasks_in_update(slots.drop_last(), slot, tasks);
    }
}

/// Replacing one ring changes the count by the difference of the two.
pub proof fn lemma_tasks_on_update(wheels: Seq<WheelView>, layer: int, wheel: WheelView)
    requires
        0 <= layer < wheels.len(),
    ensures
        tasks_on(wheels.update(layer, wheel)) + tasks_in(wheels[layer].slots) == tasks_on(wheels)
            + tasks_in(wheel.slots),
    decreases wheels.len(),
{
    let after = wheels.update(layer, wheel);
    if layer == wheels.len() - 1 {
        assert(after.drop_last() =~= wheels.drop_last());
    } else {
        assert(after.drop_last() =~= wheels.drop_last().update(layer, wheel));
        lemma_tasks_on_update(wheels.drop_last(), layer, wheel);
    }
}

/// Replacing one slot of the wheel changes the count by the difference of
/// the two.
pub proof fn lemma_with_slot_total(
    wheel: MultiWheelView,
    layer: nat,
    slot: nat,
    tasks: Seq<TaskView>,
)
    requires
        layer < wheel.wheels.len(),
        slot < wheel.wheels[layer as int].slots.len(),
    ensures
        wheel.with_slot(layer, slot, tasks).total() + wheel.slot(layer, slot).len()
            == wheel.total() + tasks.len(),
{
    let ring = wheel.wheels[layer as int];
    let changed = WheelView { slots: ring.slots.update(slot as int, tasks), ..ring };
    lemma_tasks_in_update(ring.slots, slot as int, tasks);
    lemma_tasks_on_update(wheel.wheels, layer as int, changed);
}

/// The wheel holds one task more after a task was put into it.
pub proof fn lemma_insert_total(wheel: MultiWheelView, layer: nat, slot: nat, task: TaskView)
    requires
        layer < wheel.wheels.len(),
        slot < wheel.wheels[layer as int].slots.len(),
    ensures
        wheel.insert(layer, slot, task).total() == wheel.total() + 1,
{
    lemma_with_slot_total(wheel, layer, slot, wheel.slot(layer, slot).push(task));
}

/// Turning a layer changes no count.
pub proof fn lemma_rotate_total(wheel: MultiWheelView, layer: nat)
    requires
        layer < wheel.wheels.len(),
    ensures
        wheel.rotate(layer).total() == wheel.total(),
{
    lemma_tasks_on_update(wheel.wheels, layer as int, wheel.wheels[layer as int].rotate());
}

/// Handing out a batch puts each of its tasks into the wheel or among the
/// due ones.
pub proof fn lemma_distribute_total(
    wheel: MultiWheelView,
    layer: nat,
    batch: Seq<TaskView>,
    due: Seq<TaskView>,
)
    requires
        wheel.wf(),
        layer < wheel.wheels.len(),
        slot_wf(batch, wheel.wheels.len(), wheel.capacity),
    ensures
        wheel.distribute(layer, batch, due).0.total() + wheel.distribute(layer, batch, due).1.len()
            == wheel.total() + batch.len() + due.len(),
    decreases batch.len(),
{
    if batch.len() > 0 {
        let rest = batch.drop_last();
        let last = batch.last();
        let current = wheel.wheels[layer as int].index;
        assert(last.wf(wheel.wheels.len(), wheel.capacity));
        assert forall|i: int| 0 <= i < rest.len() implies (#[trigger] rest[i]).wf(
            wheel.wheels.len(),
            wheel.capacity,
        ) by {
            assert(rest[i] == batch[i]);
        }
        assert(wheel.wheels[layer as int].wf(wheel.wheels.len(), wheel.capacity));
        match last.step() {
            Step::Wait(task) => {
                lemma_insert_wf(wheel, layer, current, task);
                lemma_insert_total(wheel, layer, current, task);
                lemma_distribute_total(wheel.insert(layer, current, task), layer, rest, due);
            },
            Step::Move(to_layer, to_slot, task) => {
                assert(last.path[last.path.len() - 1].0 < wheel.wheels.len());
                assert(wheel.wheels[to_layer as int].wf(wheel.wheels.len(), wheel.capacity));
                assert forall|j: int| 0 <= j < task.path.len() implies (#[trigger] task.path[j]).0
                    < wheel.wheels.len() && task.path[j].1 < wheel.capacity by {
                    assert(task.path[j] == last.path[j]);
                }
                lemma_insert_wf(wheel, to_layer, to_slot, task);
                lemma_insert_total(wheel, to_layer, to_slot, task);
                lemma_distribute_total(wheel.insert(to_layer, to_slot, task), layer, rest, due);
            },
            Step::Fire => {
                lemma_distribute_total(wheel, layer, rest, due.push(last));
            },
        }
    }
}

/// A sweep makes no task and loses none.
pub proof fn lemma_sweep_total(wheel: MultiWheelView, layer: nat, due: Seq<TaskView>)
    requires
        wheel.wf(),
        layer < wheel.wheels.len(),
    ensures
        wheel.sweep(layer, due).0.total() + wheel.sweep(layer, due).1.len() == wheel.total()
            + due.len(),
{
    let current = wheel.wheels[layer as int].index;
    assert(wheel.wheels[layer as int].wf(wheel.wheels.len(), wheel.capacity));
    assert(slot_wf(wheel.wheels[layer as int].slots[current as int], wheel.wheels.len(), wheel.capacity));
    lemma_with_slot_wf(wheel, layer, current, Seq::empty());
    lemma_with_slot_total(wheel, layer, current, Seq::empty());
    lemma_distribute_total(
        wheel.with_slot(layer, current, Seq::empty()),
        layer,
        wheel.slot(layer, current),
        due,
    );
}

/// A roll makes no task and loses none: the tasks that it leaves in the
/// wheel and those that it brings due are as many as the wheel held.
pub proof fn law_roll_keeps_every_task(wheel: MultiWheelView, layer: nat)
    requires
        wheel.wf(),
    ensures
        wheel.roll(layer).0.total() + wheel.roll(layer).1.len() == wheel.total(),
    decreases wheel.wheels.len() - layer,
{
    if layer < wheel.wheels.len() {
        let turned = wheel.rotate(layer);
        lemma_rotate_wf(wheel, layer);
        lemma_rotate_total(wheel, layer);
        if turned.wheels[layer as int].index == 0 {
            law_roll_keeps_every_task(turned, layer + 1);
            lemma_roll_shape(turned, layer + 1);
            let (upper, due) = turned.roll(layer + 1);
            lemma_sweep_total(upper, layer, due);
        } else {
            lemma_sweep_total(turned, layer, Seq::empty());
        }
    }
}

/// Placing a fresh task makes the wheel hold one task more.
pub proof fn lemma_add_total(wheel: MultiWheelView, cb: BoxedCallback, ticks: nat)
    requires
        wheel.wf(),
    ensures
        wheel.add(cb, ticks).wf(),
        wheel.add(cb, ticks).total() == wheel.total() + 1,
{
    let at = wheel.place(ticks);
    let task = TaskView { cb, round: at.round, path: at.path, ticks };
    assert(wheel.indices().len() == wheel.wheels.len());
    lemma_placement_wf(wheel.indices(), wheel.capacity, ticks);
    assert(task.wf(wheel.wheels.len(), wheel.capacity));
    assert(wheel.wheels[at.layer as int].wf(wheel.wheels.len(), wheel.capacity));
    lemma_insert_wf(wheel, at.layer, at.slot, task);
    lemma_insert_total(wheel, at.layer, at.slot, task);
}

/// Placing fresh tasks makes the wheel hold that many tasks more.
pub proof fn lemma_add_all_total(wheel: MultiWheelView, fresh: Seq<(BoxedCallback, nat)>)
    requires
        wheel.wf(),
    ensures
        wheel.add_all(fresh).wf(),
        wheel.add_all(fresh).total() == wheel.total() + fresh.len(),
    decreases fresh.len(),
{
    if fresh.len() > 0 {
        lemma_add_all_total(wheel, fresh.drop_last());
        lemma_add_total(wheel.add_all(fresh.drop_last()), fresh.last().0, fresh.last().1);
    }
}

/// Settling the tasks that ran puts back those that did not say `Cancel`.
pub proof fn lemma_settle_each_total(wheel: MultiWheelView, ran: Seq<(TaskView, Behave)>)
    requires
        wheel.wf(),
    ensures
        wheel.settle_each(ran).wf(),
        wheel.settle_each(ran).total() == wheel.total() + kept(ran),
    decreases ran.len(),
{
    if ran.len() > 0 {
        lemma_settle_each_total(wheel, ran.drop_last());
        let before = wheel.settle_each(ran.drop_last());
        let task = ran.last().0;
        match ran.last().1 {
            Behave::Cancel => {},
            Behave::Change(dur) => {
                lemma_add_total(
                    before,
                    task.cb,
                    crate::ticks::rounded_ticks(crate::ticks::duration_nanos(dur), before.granularity),
                );
            },
            Behave::Repeat => {
                lemma_add_total(before, task.cb, task.ticks);
            },
        }
    }
}

/// A tick makes no task and loses none, and runs no task twice: the wheel
/// gains the tasks that the channel held and loses the tasks that ran and
/// said `Cancel`, and nothing else. Every task that ran was in the wheel
/// before, or came from the channel.
pub proof fn law_tick_keeps_every_task(
    wheel: MultiWheelView,
    after: MultiWheelView,
    fresh: Seq<(BoxedCallback, nat)>,
    ran: Seq<(TaskView, Behave)>,
)
    requires
        wheel.wf(),
        wheel.ticks_to(after, fresh, ran),
    ensures
        after.total() + ran.len() == wheel.total() + fresh.len() + kept(ran),
        kept(ran) <= ran.len() <= wheel.total() + fresh.len(),
{
    let placed = wheel.add_all(fresh);
    lemma_add_all_total(wheel, fresh);
    law_roll_keeps_every_task(placed, 0);
    lemma_roll_shape(placed, 0);
    lemma_settle_each_total(placed.roll(0).0, ran);
    lemma_kept_bound(ran);
}

/// No more outcomes keep their task than there are outcomes.
pub proof fn lemma_kept_bound(ran: Seq<(TaskView, Behave)>)
    ensures
        kept(ran) <= ran.len(),
    decreases ran.len(),
{
    if ran.len() > 0 {
        lemma_kept_bound(ran.drop_last());
    }
}

} // verus!
