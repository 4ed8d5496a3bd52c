//! What holds of the wheel as a whole: no tick loses a task, and every task
//! comes due at the tick that its delay says.

use crate::behave::Behave;
use crate::callback::BoxedCallback;
use crate::course::{
    advance, follow, lemma_insert_holds, lemma_insert_keeps, lemma_roll_accounts,
    lemma_roll_indices, Fate, Held,
};
use crate::model::{lemma_insert_wf, lemma_roll_shape, MultiWheelView, TaskView};
use crate::placement::lemma_placement_wf;
use crate::ticks::{duration_nanos, rounded_ticks};
use crate::timing::{due_tick, fires_at, held_at, late, lemma_placed_fires_on_time, standing};
use std::time::Duration;
use vstd::prelude::*;

verus! {

/// A task that has not been placed yet.
pub open spec fn fresh_task(cb: BoxedCallback, ticks: nat) -> TaskView {
    TaskView { cb, round: 0, path: Seq::empty(), ticks }
}

/// The layers of a well-formed wheel stand at slots of their rings.
pub proof fn lemma_wf_standing(wheel: MultiWheelView)
    requires
        wheel.wf(),
    ensures
        standing(wheel.indices(), wheel.capacity),
        wheel.indices().len() == wheel.wheels.len(),
{
    assert forall|j: int| 0 <= j < wheel.indices().len() implies (#[trigger] wheel.indices()[j])
        < wheel.capacity by {
        assert(wheel.wheels[j].wf(wheel.wheels.len(), wheel.capacity));
    }
}

/// Placing a fresh task keeps the wheel well formed, moves no layer, keeps
/// every task where it is, and puts the fresh task where placement says.
pub proof fn lemma_add_keeps(wheel: MultiWheelView, cb: BoxedCallback, ticks: nat)
    requires
        wheel.wf(),
    ensures
        wheel.add(cb, ticks).wf(),
        wheel.add(cb, ticks).same_shape(wheel),
        wheel.add(cb, ticks).holds(held_at(wheel.place(ticks), fresh_task(cb, ticks))),
        forall|held: Held| #[trigger] wheel.holds(held) ==> wheel.add(cb, ticks).holds(held),
{
    let at = wheel.place(ticks);
    let task = TaskView { cb, round: at.round, path: at.path, ticks };
    assert(wheel.indices().len() == wheel.wheels.len());
    lemma_placement_wf(wheel.indices(), wheel.capacity, ticks);
    assert(task.wf(wheel.wheels.len(), wheel.capacity));
    lemma_insert_wf(wheel, at.layer, at.slot, task);
    lemma_insert_holds(wheel, at.layer, at.slot, task);
    assert(held_at(at, fresh_task(cb, ticks)) == Held { layer: at.layer, slot: at.slot, task });
    assert forall|held: Held| #[trigger] wheel.holds(held) implies wheel.add(cb, ticks).holds(
        held,
    ) by {
        lemma_insert_keeps(wheel, at.layer, at.slot, task, held);
    }
}

/// Placing fresh tasks one after the other keeps the wheel well formed,
/// moves no layer and keeps every task where it is.
pub proof fn lemma_add_all_keeps(wheel: MultiWheelView, fresh: Seq<(BoxedCallback, nat)>)
    requires
        wheel.wf(),
    ensures
        wheel.add_all(fresh).wf(),
        wheel.add_all(fresh).same_shape(wheel),
        forall|held: Held| #[trigger] wheel.holds(held) ==> wheel.add_all(fresh).holds(held),
    decreases fresh.len(),
{
    if fresh.len() > 0 {
        lemma_add_all_keeps(wheel, fresh.drop_last());
        lemma_add_keeps(wheel.add_all(fresh.drop_last()), fresh.last().0, fresh.last().1);
    }
}

/// Settling a task that ran keeps the wheel well formed, moves no layer and
/// keeps every task where it is.
pub proof fn lemma_settle_keeps(wheel: MultiWheelView, task: TaskView, behave: Behave)
    requires
        wheel.wf(),
    ensures
        wheel.settle(task, behave).wf(),
        wheel.settle(task, behave).same_shape(wheel),
        forall|held: Held| #[trigger] wheel.holds(held) ==> wheel.settle(task, behave).holds(held),
{
    match behave {
        Behave::Cancel => {},
        Behave::Change(dur) => {
            lemma_add_keeps(wheel, task.cb, rounded_ticks(duration_nanos(dur), wheel.granularity));
        },
        Behave::Repeat => {
            lemma_add_keeps(wheel, task.cb, task.ticks);
        },
    }
}

/// Settling the tasks that ran, one after the other, keeps the wheel well
/// formed, moves no layer and keeps every task where it is.
pub proof fn lemma_settle_each_keeps(wheel: MultiWheelView, ran: Seq<(TaskView, Behave)>)
    requires
        wheel.wf(),
    ensures
        wheel.settle_each(ran).wf(),
        wheel.settle_each(ran).same_shape(wheel),
        forall|held: Held| #[trigger] wheel.holds(held) ==> wheel.settle_each(ran).holds(held),
    decreases ran.len(),
{
    if ran.len() > 0 {
        lemma_settle_each_keeps(wheel, ran.drop_last());
        lemma_settle_keeps(wheel.settle_each(ran.drop_last()), ran.last().0, ran.last().1);
    }
}

/// A tick keeps the wheel well formed and moves its layers one tick
/// further, whatever the channel held and whatever the callbacks said.
pub proof fn lemma_tick_moves_layers(
    wheel: MultiWheelView,
    after: MultiWheelView,
    fresh: Seq<(BoxedCallback, nat)>,
    ran: Seq<(TaskView, Behave)>,
)
    requires
        wheel.wf(),
        wheel.ticks_to(after, fresh, ran),
    ensures
        after.wf(),
        after.capacity == wheel.capacity,
        after.granularity == wheel.granularity,
        after.wheels.len() == wheel.wheels.len(),
        after.indices() == advance(wheel.indices(), wheel.capacity),
{
    let placed = wheel.add_all(fresh);
    lemma_add_all_keeps(wheel, fresh);
    let (rolled, due) = placed.roll(0);
    lemma_roll_shape(placed, 0);
    lemma_roll_indices(placed, 0);
    lemma_settle_each_keeps(rolled, ran);
}

/// What [`law_tick_follows_every_task`] says holds of the tasks that the
/// tick took from the channel too: of every task that the wheel holds once
/// the fresh tasks are placed.
pub proof fn lemma_tick_follows_placed(
    wheel: MultiWheelView,
    after: MultiWheelView,
    fresh: Seq<(BoxedCallback, nat)>,
    ran: Seq<(TaskView, Behave)>,
    held: Held,
)
    requires
        wheel.wf(),
        wheel.add_all(fresh).holds(held),
        wheel.ticks_to(after, fresh, ran),
    ensures
        after.wf(),
        after.capacity == wheel.capacity,
        after.indices() == advance(wheel.indices(), wheel.capacity),
        match follow(wheel.indices(), wheel.capacity, 0, held) {
            Fate::Waits(still) => after.holds(still),
            Fate::Fires(task) => exists|i: int|
                0 <= i < ran.len() && task.ran_as((#[trigger] ran[i]).0, ran[i].1),
        },
{
    lemma_tick_moves_layers(wheel, after, fresh, ran);
    let placed = wheel.add_all(fresh);
    lemma_add_all_keeps(wheel, fresh);
    let (rolled, due) = placed.roll(0);
    lemma_roll_shape(placed, 0);
    lemma_roll_accounts(placed, 0, held);
    lemma_settle_each_keeps(rolled, ran);
    match follow(wheel.indices(), wheel.capacity, 0, held) {
        Fate::Waits(still) => {
            assert(rolled.holds(still));
        },
        Fate::Fires(task) => {
            let at = choose|at: int| 0 <= at < due.len() && due[at] == task;
            let i = due.len() - 1 - at;
            assert(due[due.len() - 1 - i].ran_as(ran[i].0, ran[i].1));
        },
    }
}

/// No tick loses a task or runs one out of turn. Whatever the channel held
/// and whatever the callbacks said: after a tick the layers stand one tick
/// further, every task that the wheel held is where its own course leads it,
/// and it has run exactly if its course says that it came due.
pub proof fn law_tick_follows_every_task(
    wheel: MultiWheelView,
    after: MultiWheelView,
    fresh: Seq<(BoxedCallback, nat)>,
    ran: Seq<(TaskView, Behave)>,
    held: Held,
)
    requires
        wheel.wf(),
        wheel.holds(held),
        wheel.ticks_to(after, fresh, ran),
    ensures
        after.wf(),
        after.capacity == wheel.capacity,
        after.granularity == wheel.granularity,
        after.indices() == advance(wheel.indices(), wheel.capacity),
        match follow(wheel.indices(), wheel.capacity, 0, held) {
            Fate::Waits(still) => after.holds(still),
            Fate::Fires(task) => exists|i: int|
                0 <= i < ran.len() && task.ran_as((#[trigger] ran[i]).0, ran[i].1),
        },
{
    lemma_tick_moves_layers(wheel, after, fresh, ran);
    lemma_add_all_keeps(wheel, fresh);
    lemma_tick_follows_placed(wheel, after, fresh, ran, held);
}

/// A task comes due when its delay says. A fresh task of `ticks` ticks is
/// in the wheel once it is placed, and from there its course brings it due
/// at exactly the `ticks`-th tick, or at the first tick if it has no delay;
/// [`law_tick_follows_every_task`] says that every tick keeps it on that
/// course. A delay that is [`late`] takes one full turn of the whole wheel
/// more.
pub proof fn law_delay_is_kept(wheel: MultiWheelView, cb: BoxedCallback, ticks: nat)
    requires
        wheel.wf(),
    ensures
        wheel.add(cb, ticks).holds(held_at(wheel.place(ticks), fresh_task(cb, ticks))),
        fires_at(
            wheel.indices(),
            wheel.capacity,
            held_at(wheel.place(ticks), fresh_task(cb, ticks)),
            due_tick(wheel.indices(), wheel.capacity, ticks),
        ),
{
    lemma_wf_standing(wheel);
    lemma_add_keeps(wheel, cb, ticks);
    lemma_placed_fires_on_time(wheel.indices(), wheel.capacity, ticks, fresh_task(cb, ticks));
}

/// A task without delay runs at the next tick: placed in any wheel, it is
/// among the tasks that the next roll brings due.
pub proof fn law_no_delay_runs_at_next_tick(wheel: MultiWheelView, cb: BoxedCallback)
    requires
        wheel.wf(),
    ensures
        wheel.add(cb, 0).roll(0).1.contains(fresh_task(cb, 0)),
{
    let placed = wheel.add(cb, 0);
    let held = held_at(wheel.place(0), fresh_task(cb, 0));
    lemma_wf_standing(wheel);
    lemma_add_keeps(wheel, cb, 0);
    crate::timing::lemma_no_delay_fires_next(wheel.indices(), wheel.capacity, fresh_task(cb, 0));
    lemma_roll_accounts(placed, 0, held);
    assert(placed.indices() == wheel.indices());
    assert(held.task == fresh_task(cb, 0));
}

/// A task that says `Cancel` is gone: settling it leaves the wheel as it
/// was, without the task.
pub proof fn law_cancel_ends_the_task(wheel: MultiWheelView, task: TaskView)
    ensures
        wheel.settle(task, Behave::Cancel) == wheel,
{
}

/// A task that says `Repeat` runs again after the delay that it was
/// submitted with: it is placed anew with that delay, counted from where the
/// layers stand when it is settled, and comes due exactly that many ticks
/// later. The one exception is a delay that is [`late`].
pub proof fn law_repeat_keeps_the_interval(wheel: MultiWheelView, task: TaskView)
    requires
        wheel.wf(),
        !late(wheel.indices(), wheel.capacity, task.ticks),
    ensures
        wheel.settle(task, Behave::Repeat).holds(
            held_at(wheel.place(task.ticks), fresh_task(task.cb, task.ticks)),
        ),
        fires_at(
            wheel.indices(),
            wheel.capacity,
            held_at(wheel.place(task.ticks), fresh_task(task.cb, task.ticks)),
            if task.ticks == 0 {
                1
            } else {
                task.ticks
            },
        ),
{
    law_delay_is_kept(wheel, task.cb, task.ticks);
}

/// A task that says `Change` runs again after the delay that it named,
/// counted from where the layers stand when it is settled, whatever delay it
/// was submitted with. The one exception is a delay that is [`late`].
pub proof fn law_change_counts_from_the_run(wheel: MultiWheelView, task: TaskView, dur: Duration)
    requires
        wheel.wf(),
        !late(
            wheel.indices(),
            wheel.capacity,
            rounded_ticks(duration_nanos(dur), wheel.granularity),
        ),
    ensures
        ({
            let ticks = rounded_ticks(duration_nanos(dur), wheel.granularity);
            let again = held_at(wheel.place(ticks), fresh_task(task.cb, ticks));
            &&& wheel.settle(task, Behave::Change(dur)).holds(again)
            &&& fires_at(
                wheel.indices(),
                wheel.capacity,
                again,
                if ticks == 0 {
                    1
                } else {
                    ticks
                },
            )
        }),
{
    law_delay_is_kept(wheel, task.cb, rounded_ticks(duration_nanos(dur), wheel.granularity));
}

/// One tick as it went: the wheel after it, the fresh tasks that it took
/// from the channel, and the tasks that ran in it with what they said.
pub struct Tick {
    pub after: MultiWheelView,
    pub fresh: Seq<(BoxedCallback, nat)>,
    pub ran: Seq<(TaskView, Behave)>,
}

/// The wheel before the `i`-th of the ticks, the first being tick 0.
pub open spec fn wheel_before(wheel: MultiWheelView, ticks: Seq<Tick>, i: int) -> MultiWheelView {
    if i <= 0 {
        wheel
    } else {
        ticks[i - 1].after
    }
}

/// The ticks are ticks of the wheel one after the other: each starts from
/// the wheel that the tick before it left.
pub open spec fn ticking(wheel: MultiWheelView, ticks: Seq<Tick>) -> bool {
    forall|i: int|
        0 <= i < ticks.len() ==> wheel_before(wheel, ticks, i).ticks_to(
            (#[trigger] ticks[i]).after,
            ticks[i].fresh,
            ticks[i].ran,
        )
}

/// The task ran in the tick.
pub open spec fn ran_in(task: TaskView, tick: Tick) -> bool {
    exists|j: int| 0 <= j < tick.ran.len() && task.ran_as((#[trigger] tick.ran[j]).0, tick.ran[j].1)
}

/// The task in its slot after `i` ticks that did not bring it due.
pub open spec fn waits_as(indices: Seq<nat>, capacity: nat, held: Held, i: nat) -> Held
    decreases i,
{
    if i == 0 {
        held
    } else {
        match follow(indices, capacity, 0, held) {
            Fate::Waits(still) => waits_as(
                advance(indices, capacity),
                capacity,
                still,
                (i - 1) as nat,
            ),
            Fate::Fires(_) => held,
        }
    }
}

/// The task as it comes due at the `n`-th tick.
pub open spec fn fires_as(indices: Seq<nat>, capacity: nat, held: Held, n: nat) -> TaskView
    decreases n,
{
    if n == 0 {
        held.task
    } else {
        match follow(indices, capacity, 0, held) {
            Fate::Waits(still) => fires_as(
                advance(indices, capacity),
                capacity,
                still,
                (n - 1) as nat,
            ),
            Fate::Fires(task) => task,
        }
    }
}

/// A task that the wheel holds once the fresh tasks of the first tick are
/// placed, and whose course brings it due at the `n`-th tick, waits in the
/// wheel through the ticks before that one and runs in that one.
pub proof fn lemma_runs_at_its_tick(
    wheel: MultiWheelView,
    ticks: Seq<Tick>,
    held: Held,
    n: nat,
)
    requires
        wheel.wf(),
        1 <= n <= ticks.len(),
        ticking(wheel, ticks),
        wheel.add_all(ticks[0].fresh).holds(held),
        fires_at(wheel.indices(), wheel.capacity, held, n),
    ensures
        ran_in(fires_as(wheel.indices(), wheel.capacity, held, n), ticks[n - 1]),
        forall|i: int|
            0 <= i < n - 1 ==> (#[trigger] ticks[i]).after.holds(
                waits_as(wheel.indices(), wheel.capacity, held, (i + 1) as nat),
            ),
    decreases n,
{
    let indices = wheel.indices();
    let capacity = wheel.capacity;
    let first = ticks[0];
    assert(wheel_before(wheel, ticks, 0) == wheel);
    assert(wheel.ticks_to(first.after, first.fresh, first.ran));
    lemma_tick_follows_placed(wheel, first.after, first.fresh, first.ran, held);
    match follow(indices, capacity, 0, held) {
        Fate::Fires(task) => {
            assert(n == 1);
        },
        Fate::Waits(still) => {
            let next = first.after;
            let rest = ticks.skip(1);
            let left = (n - 1) as nat;
            assert(fires_at(next.indices(), capacity, still, left));
            assert(left >= 1);
            assert forall|i: int| 0 <= i < rest.len() implies wheel_before(next, rest, i).ticks_to(
                (#[trigger] rest[i]).after,
                rest[i].fresh,
                rest[i].ran,
            ) by {
                assert(rest[i] == ticks[i + 1]);
                assert(wheel_before(next, rest, i) == wheel_before(wheel, ticks, i + 1)) by {
                    if i > 0 {
                        assert(rest[i - 1] == ticks[i]);
                    }
                }
            }
            lemma_add_all_keeps(next, rest[0].fresh);
            lemma_runs_at_its_tick(next, rest, still, left);
            assert(rest[left - 1] == ticks[n - 1]);
            assert forall|i: int| 0 <= i < n - 1 implies (#[trigger] ticks[i]).after.holds(
                waits_as(indices, capacity, held, (i + 1) as nat),
            ) by {
                if i == 0 {
                    assert(waits_as(next.indices(), capacity, still, 0) == still);
                } else {
                    assert(rest[i - 1] == ticks[i]);
                    assert(rest[i - 1].after.holds(
                        waits_as(next.indices(), capacity, still, i as nat),
                    ));
                }
            }
        },
    }
}

/// Over any number of ticks, a task runs at its tick and at none before:
/// a task that the wheel holds, and whose course brings it due at the `n`-th
/// tick, is still in the wheel after each of the ticks before that one, and
/// runs in that one. Whatever else the ticks take from the channel and
/// whatever the callbacks say does not change it.
pub proof fn law_task_runs_at_its_tick(
    wheel: MultiWheelView,
    ticks: Seq<Tick>,
    held: Held,
    n: nat,
)
    requires
        wheel.wf(),
        1 <= n <= ticks.len(),
        ticking(wheel, ticks),
        wheel.holds(held),
        fires_at(wheel.indices(), wheel.capacity, held, n),
    ensures
        ran_in(fires_as(wheel.indices(), wheel.capacity, held, n), ticks[n - 1]),
        forall|i: int|
            0 <= i < n - 1 ==> (#[trigger] ticks[i]).after.holds(
                waits_as(wheel.indices(), wheel.capacity, held, (i + 1) as nat),
            ),
{
    lemma_add_all_keeps(wheel, ticks[0].fresh);
    lemma_runs_at_its_tick(wheel, ticks, held, n);
}

/// The wheel holds each of the fresh tasks that were placed in it, where
/// placement from the standing of the wheel says.
pub proof fn lemma_add_all_holds(wheel: MultiWheelView, fresh: Seq<(BoxedCallback, nat)>, k: int)
    requires
        wheel.wf(),
        0 <= k < fresh.len(),
    ensures
        wheel.add_all(fresh).holds(
            held_at(wheel.place(fresh[k].1), fresh_task(fresh[k].0, fresh[k].1)),
        ),
    decreases fresh.len(),
{
    let earlier = fresh.drop_last();
    let before = wheel.add_all(earlier);
    lemma_add_all_keeps(wheel, earlier);
    lemma_add_keeps(before, fresh.last().0, fresh.last().1);
    assert(before.place(fresh[k].1) == wheel.place(fresh[k].1));
    if k < fresh.len() - 1 {
        lemma_add_all_holds(wheel, earlier, k);
        assert(earlier[k] == fresh[k]);
    }
}

/// Every submission runs once its delay is over, and not before: a
/// submission that a tick takes from the channel with a delay of `ticks`
/// ticks is in the wheel after that tick and each one after it until its due
/// tick, and runs in its due tick, which is the tick that takes it if the
/// delay is none or one tick, and the `ticks`-th tick counted from that one
/// otherwise; a delay that is [`late`] takes one full turn of the whole wheel
/// more. With [`crate::count::law_tick_keeps_every_task`], by which no tick
/// makes a task or runs more tasks than it took out of the wheel, this is
/// that no submission is lost and none runs twice.
pub proof fn law_submission_runs_at_its_tick(wheel: MultiWheelView, ticks: Seq<Tick>, k: int)
    requires
        wheel.wf(),
        ticking(wheel, ticks),
        ticks.len() >= 1,
        0 <= k < ticks[0].fresh.len(),
        due_tick(wheel.indices(), wheel.capacity, ticks[0].fresh[k].1) <= ticks.len(),
    ensures
        ({
            let cb = ticks[0].fresh[k].0;
            let delay = ticks[0].fresh[k].1;
            let held = held_at(wheel.place(delay), fresh_task(cb, delay));
            let due = due_tick(wheel.indices(), wheel.capacity, delay);
            &&& ran_in(fires_as(wheel.indices(), wheel.capacity, held, due), ticks[due - 1])
            &&& forall|i: int|
                0 <= i < due - 1 ==> (#[trigger] ticks[i]).after.holds(
                    waits_as(wheel.indices(), wheel.capacity, held, (i + 1) as nat),
                )
        }),
{
    let cb = ticks[0].fresh[k].0;
    let delay = ticks[0].fresh[k].1;
    let held = held_at(wheel.place(delay), fresh_task(cb, delay));
    let due = due_tick(wheel.indices(), wheel.capacity, delay);
    lemma_wf_standing(wheel);
    lemma_add_all_holds(wheel, ticks[0].fresh, k);
    lemma_placed_fires_on_time(wheel.indices(), wheel.capacity, delay, fresh_task(cb, delay));
    lemma_runs_at_its_tick(wheel, ticks, held, due);
}

} // verus!
