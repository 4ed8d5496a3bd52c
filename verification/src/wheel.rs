use crate::behave::Behave;
use crate::callback::BoxedCallback;
use crate::count::{tasks_in, tasks_on};
use crate::course::advance;
use crate::handle::{AddHandle, Submission};
use crate::model::{slot_wf, MultiWheelView, TaskView, WheelView};
use crate::placement::{lemma_placement_wf, place_from, placement, Placement};
use crate::task::{task_views, Task};
use crate::ticks::{duration_nanos, rounded_ticks, ticks_of};
use crossbeam_channel::{Receiver, TryRecvError};
use std::time::Duration;
use vstd::prelude::*;

verus! {

/// The stops that a task still has to pass: `(layer, slot)` pairs, the next
/// one last.
#[derive(Clone, Debug)]
pub struct MoveTo(pub Vec<(usize, usize)>);

impl View for MoveTo {
    type V = Seq<(nat, nat)>;

    open spec fn view(&self) -> Seq<(nat, nat)> {
        self.0@.map_values(|stop: (usize, usize)| (stop.0 as nat, stop.1 as nat))
    }
}

impl Default for MoveTo {
    fn default() -> (path: MoveTo)
        ensures
            path@ == Seq::<(nat, nat)>::empty(),
    {
        let path = MoveTo(Vec::new());
        assert(path@ =~= Seq::<(nat, nat)>::empty());
        path
    }
}

/// Where a fresh task goes: what [`MultiWheel::place`] found.
pub struct Placed {
    pub layer: usize,
    pub slot: usize,
    pub round: usize,
    pub move_to: MoveTo,
}

impl View for Placed {
    type V = Placement;

    open spec fn view(&self) -> Placement {
        Placement {
            layer: self.layer as nat,
            slot: self.slot as nat,
            round: self.round as nat,
            path: self.move_to@,
        }
    }
}

/// The tasks that share one position of one layer.
pub struct Slot {
    tasks: Vec<Task>,
}

impl View for Slot {
    type V = Seq<TaskView>;

    closed spec fn view(&self) -> Seq<TaskView> {
        task_views(self.tasks@)
    }
}

impl Default for Slot {
    fn default() -> (slot: Slot)
        ensures
            slot@ == Seq::<TaskView>::empty(),
    {
        let slot = Slot { tasks: Vec::new() };
        assert(slot@ =~= Seq::<TaskView>::empty());
        slot
    }
}

impl Slot {
    /// The number of tasks in the slot.
    pub fn len(&self) -> (tasks: usize)
        ensures
            tasks == self@.len(),
    {
        self.tasks.len()
    }
}

/// A count as a `usize`: itself where it fits, `usize::MAX` where it does not.
pub open spec fn capped(count: nat) -> usize {
    if count <= usize::MAX {
        count as usize
    } else {
        usize::MAX
    }
}

/// One layer of the wheel: a ring of slots, one of which is current.
pub struct Wheel {
    slots: Vec<Slot>,
    index: usize,
}

impl View for Wheel {
    type V = WheelView;

    closed spec fn view(&self) -> WheelView {
        WheelView {
            index: self.index as nat,
            slots: Seq::new(self.slots@.len(), |s: int| self.slots@[s]@),
        }
    }
}

impl Default for Wheel {
    /// A ring without slots.
    fn default() -> (wheel: Wheel)
        ensures
            wheel@ == (WheelView { index: 0, slots: Seq::empty() }),
    {
        let wheel = Wheel { slots: Vec::new(), index: 0 };
        assert(wheel@.slots =~= Seq::empty());
        wheel
    }
}

impl Wheel {
    /// A ring of `capacity` empty slots, the first of which is current.
    pub fn new(capacity: usize) -> (wheel: Wheel)
        ensures
            wheel@ == (WheelView {
                index: 0,
                slots: Seq::new(capacity as nat, |s: int| Seq::<TaskView>::empty()),
            }),
    {
        let mut slots: Vec<Slot> = Vec::with_capacity(capacity);
        while slots.len() < capacity
            invariant
                slots@.len() <= capacity,
                forall|s: int| 0 <= s < slots@.len() ==> (#[trigger] slots@[s])@ == Seq::<TaskView>::empty(),
            decreases capacity - slots@.len(),
        {
            slots.push(Slot::default());
        }
        let wheel = Wheel { slots, index: 0 };
        assert(wheel@.slots =~= Seq::new(capacity as nat, |s: int| Seq::<TaskView>::empty()));
        wheel
    }

    /// The current slot.
    pub fn index(&self) -> (index: usize)
        ensures
            index == self@.index,
    {
        self.index
    }

    /// The number of slots.
    pub fn capacity(&self) -> (capacity: usize)
        ensures
            capacity == self@.slots.len(),
    {
        self.slots.len()
    }

    /// The number of tasks in the ring, or `usize::MAX` if they are more.
    pub fn len(&self) -> (tasks: usize)
        ensures
            tasks == capped(tasks_in(self@.slots)),
    {
        let mut tasks: usize = 0;
        let mut slot: usize = 0;
        assert(self@.slots.take(0) =~= Seq::empty());
        while slot < self.slots.len()
            invariant
                slot <= self.slots@.len(),
                self@.slots.len() == self.slots@.len(),
                tasks == capped(tasks_in(self@.slots.take(slot as int))),
            decreases self.slots@.len() - slot,
        {
            proof {
                assert(self@.slots.take(slot + 1).drop_last() =~= self@.slots.take(slot as int));
                assert(self@.slots.take(slot + 1).last() == self.slots@[slot as int]@);
            }
            tasks = tasks.saturating_add(self.slots[slot].len());
            slot += 1;
        }
        assert(self@.slots.take(slot as int) =~= self@.slots);
        tasks
    }

    /// Turns the ring by one slot and says whether that completed a full
    /// turn.
    pub fn roll(&mut self) -> (wrapped: bool)
        requires
            old(self)@.index < old(self)@.slots.len(),
        ensures
            final(self)@ == old(self)@.rotate(),
            wrapped <==> final(self)@.index == 0,
    {
        if self.index == self.slots.len() - 1 {
            self.index = 0;
            true
        } else {
            self.index += 1;
            false
        }
    }
}

/// The fresh tasks that come of what the channel gave: each submission as
/// its callback and its delay in ticks, in the order received.
pub open spec fn fresh_of(
    received: Seq<Result<Submission, TryRecvError>>,
    granularity: nat,
) -> Seq<(BoxedCallback, nat)>
    decreases received.len(),
{
    if received.len() == 0 {
        Seq::empty()
    } else {
        let before = fresh_of(received.drop_last(), granularity);
        match received.last() {
            Ok(submission) => before.push(
                (submission.cb, rounded_ticks(duration_nanos(submission.dur), granularity)),
            ),
            Err(_) => before,
        }
    }
}

/// A stack of wheels, the finest first: one tick of a layer is one full turn
/// of the layer below it. The owner calls [`MultiWheel::tick`] once per
/// granularity; tasks arrive through the handles.
pub struct MultiWheel {
    capacity: usize,
    wheels: Vec<Wheel>,
    granularity: Duration,
    add_handle: (Receiver<Submission>, AddHandle),
}

impl View for MultiWheel {
    type V = MultiWheelView;

    closed spec fn view(&self) -> MultiWheelView {
        MultiWheelView {
            capacity: self.capacity as nat,
            granularity: duration_nanos(self.granularity),
            wheels: Seq::new(self.wheels@.len(), |l: int| self.wheels@[l]@),
        }
    }
}

impl MultiWheel {
    /// The wheel has a layer, every layer has `capacity >= 1` slots and a
    /// current slot among them, and every stop of every task exists.
    pub open spec fn wf(&self) -> bool {
        self@.wf()
    }

    /// A wheel of `n` layers of `capacity` slots each, all empty and all at
    /// their first slot. `granularity` is the time between two ticks. Any
    /// shape can be built; only a wheel with a layer and a slot is well
    /// formed, and only such a wheel can be used.
    pub fn new(n: usize, capacity: usize, granularity: Duration) -> (wheel: MultiWheel)
        ensures
            wheel.wf() <==> n >= 1 && capacity >= 1,
            wheel@ == (MultiWheelView {
                capacity: capacity as nat,
                granularity: duration_nanos(granularity),
                wheels: Seq::new(
                    n as nat,
                    |l: int|
                        WheelView {
                            index: 0,
                            slots: Seq::new(capacity as nat, |s: int| Seq::<TaskView>::empty()),
                        },
                ),
            }),
    {
        let mut wheels: Vec<Wheel> = Vec::with_capacity(n);
        while wheels.len() < n
            invariant
                wheels@.len() <= n,
                forall|l: int|
                    0 <= l < wheels@.len() ==> (#[trigger] wheels@[l])@ == (WheelView {
                        index: 0,
                        slots: Seq::new(capacity as nat, |s: int| Seq::<TaskView>::empty()),
                    }),
            decreases n - wheels@.len(),
        {
            wheels.push(Wheel::new(capacity));
        }
        let (tx, rx) = crossbeam_channel::unbounded();
        let wheel = MultiWheel { capacity, wheels, granularity, add_handle: (rx, AddHandle(tx)) };
        assert(wheel@.wheels =~= Seq::new(
            n as nat,
            |l: int|
                WheelView {
                    index: 0,
                    slots: Seq::new(capacity as nat, |s: int| Seq::<TaskView>::empty()),
                },
        ));
        proof {
            if n >= 1 && capacity < 1 {
                assert(!wheel@.wheels[0].wf(wheel@.wheels.len(), wheel@.capacity));
            }
        }
        wheel
    }

    /// The number of slots of each layer.
    pub fn capacity(&self) -> (capacity: usize)
        ensures
            capacity == self@.capacity,
    {
        self.capacity
    }

    /// The number of layers.
    pub fn layers(&self) -> (layers: usize)
        ensures
            layers == self@.wheels.len(),
    {
        self.wheels.len()
    }

    /// The time between two ticks.
    pub fn granularity(&self) -> (granularity: Duration)
        ensures
            duration_nanos(granularity) == self@.granularity,
    {
        self.granularity
    }

    /// The current slot of `layer`, if the wheel has that layer.
    pub fn index(&self, layer: usize) -> (index: Option<usize>)
        ensures
            index == if layer < self@.wheels.len() {
                Some(self@.wheels[layer as int].index as usize)
            } else {
                None
            },
    {
        if layer < self.wheels.len() {
            Some(self.wheels[layer].index)
        } else {
            None
        }
    }

    /// The number of tasks in a slot, if the wheel has that slot.
    pub fn waiting(&self, layer: usize, slot: usize) -> (tasks: Option<usize>)
        ensures
            tasks == if layer < self@.wheels.len() && slot < self@.wheels[layer as int].slots.len() {
                Some(self@.wheels[layer as int].slots[slot as int].len() as usize)
            } else {
                None
            },
    {
        if layer < self.wheels.len() && slot < self.wheels[layer].slots.len() {
            Some(self.wheels[layer].slots[slot].tasks.len())
        } else {
            None
        }
    }

    /// The number of tasks in the wheel, or `usize::MAX` if they are more.
    pub fn len(&self) -> (tasks: usize)
        ensures
            tasks == capped(self@.total()),
    {
        let mut tasks: usize = 0;
        let mut layer: usize = 0;
        assert(self@.wheels.take(0) =~= Seq::empty());
        while layer < self.wheels.len()
            invariant
                layer <= self.wheels@.len(),
                self@.wheels.len() == self.wheels@.len(),
                tasks == capped(tasks_on(self@.wheels.take(layer as int))),
            decreases self.wheels@.len() - layer,
        {
            proof {
                assert(self@.wheels.take(layer + 1).drop_last() =~= self@.wheels.take(layer as int));
                assert(self@.wheels.take(layer + 1).last() == self.wheels@[layer as int]@);
            }
            tasks = tasks.saturating_add(self.wheels[layer].len());
            layer += 1;
        }
        assert(self@.wheels.take(layer as int) =~= self@.wheels);
        tasks
    }

    /// The two ends of the channel that the wheel holds: the receiver that
    /// it takes submissions from, and its own handle.
    pub closed spec fn channel(&self) -> (Receiver<Submission>, AddHandle) {
        self.add_handle
    }

    /// Asked how many submissions it held, the channel of the wheel said
    /// `held`.
    pub closed spec fn channel_held(&self, held: usize) -> bool {
        call_ensures(Receiver::<Submission>::len, (&self.add_handle.0,), held)
    }

    /// Asked for its next submission, the channel of the wheel gave
    /// `received`.
    pub closed spec fn channel_gave(&self, received: Result<Submission, TryRecvError>) -> bool {
        call_ensures(Receiver::<Submission>::try_recv, (&self.add_handle.0,), received)
    }

    /// What a tick takes from the channel: the channel said that it held
    /// `held` submissions, and was then asked for the next one until it had
    /// given that many or had none to give. `received` is what it gave, in
    /// this order.
    pub open spec fn took(
        &self,
        held: usize,
        received: Seq<Result<Submission, TryRecvError>>,
    ) -> bool {
        &&& self.channel_held(held)
        &&& received.len() <= held
        &&& forall|i: int| 0 <= i < received.len() ==> self.channel_gave(#[trigger] received[i])
        &&& forall|i: int| 0 <= i < received.len() - 1 ==> (#[trigger] received[i]) is Ok
        &&& received.len() < held ==> received.len() > 0 && received.last() is Err
    }

    /// The handle submits to this wheel: it sends into the channel that the
    /// wheel's own handle sends into.
    pub open spec fn feeds(&self, handle: &AddHandle) -> bool {
        self.channel().1.joins(handle)
    }

    /// A copy of a handle that submits to this wheel submits to this wheel:
    /// what `clone` says of the copy is enough to know it.
    pub proof fn law_copies_feed_the_same_wheel(&self, handle: &AddHandle, copy: &AddHandle)
        requires
            self.feeds(handle),
            forall|third: AddHandle| #[trigger] third.joins(handle) ==> third.joins(copy),
        ensures
            self.feeds(copy),
    {
    }

    /// A new handle that submits to this wheel.
    pub fn add_handle(&self) -> (handle: AddHandle)
        ensures
            self.feeds(&handle),
    {
        self.add_handle.1.clone()
    }

    /// Finds the place of a task of `ticks` ticks, counted from where the
    /// layers stand now.
    pub fn place(&self, ticks: usize) -> (placed: Placed)
        requires
            self.wf(),
        ensures
            placed@ == self@.place(ticks as nat),
            placed@.wf(self@.wheels.len(), self@.capacity),
    {
        let ghost indices = self@.indices();
        let ghost capacity = self@.capacity;
        proof {
            lemma_placement_wf(indices, capacity, ticks as nat);
            assert(self@.wheels[0].wf(self@.wheels.len(), capacity));
        }
        let mut path: Vec<(usize, usize)> = Vec::new();
        if ticks == 0 {
            let current = self.wheels[0].index;
            let slot: usize = if current + 1 == self.capacity {
                0
            } else {
                current + 1
            };
            let placed = Placed { layer: 0, slot, round: 0, move_to: MoveTo(path) };
            proof {
                assert(indices[0] == current);
                assert(slot == (current + 1) % (capacity as int)) by (nonlinear_arith)
                    requires
                        current < capacity,
                        slot == if current + 1 == capacity {
                            0
                        } else {
                            current + 1
                        },
                ;
                assert(placed@.path =~= Seq::empty());
            }
            return placed;
        }
        let mut layer: usize = 0;
        let mut left: usize = ticks;
        let mut round: usize = 0;
        let mut slot: usize = 0;
        let mut placed: bool = false;
        let layers = self.wheels.len();
        proof {
            assert(MoveTo(path)@ =~= Seq::empty());
        }
        while !placed
            invariant
                self.wf(),
                indices == self@.indices(),
                capacity == self@.capacity,
                layer < layers == self@.wheels.len(),
                !placed ==> round == 0,
                !placed ==> place_from(indices, capacity, layer as nat, left as nat, MoveTo(path)@)
                    == placement(indices, capacity, ticks as nat),
                placed ==> (Placement {
                    layer: layer as nat,
                    slot: slot as nat,
                    round: round as nat,
                    path: MoveTo(path)@,
                }) == placement(indices, capacity, ticks as nat),
            decreases layers - layer + (if placed { 0nat } else { 1nat }),
        {
            proof {
                assert(self@.wheels[layer as int].wf(self@.wheels.len(), capacity));
                assert(indices[layer as int] == self.wheels@[layer as int]@.index);
            }
            let ghost before = MoveTo(path)@;
            let current = self.wheels[layer].index;
            let candidate: u128 = current as u128 + left as u128;
            let carry: u128 = candidate / (self.capacity as u128);
            let remainder: usize = (candidate % (self.capacity as u128)) as usize;
            proof {
                assert(carry <= left) by (nonlinear_arith)
                    requires
                        carry == (current + left) / (capacity as int),
                        current < capacity,
                        capacity >= 1,
                ;
                assert(candidate == indices[layer as int] + left as nat);
                assert(carry == (indices[layer as int] + left as nat) / capacity);
                assert(remainder == (indices[layer as int] + left as nat) % capacity);
                assert(self.wheels@.len() == self@.wheels.len());
            }
            if carry == 0 {
                slot = remainder;
                placed = true;
                proof {
                    assert(place_from(indices, capacity, layer as nat, left as nat, before) == (
                    Placement {
                        layer: layer as nat,
                        slot: remainder as nat,
                        round: 0,
                        path: before,
                    }));
                }
            } else {
                path.push((layer, remainder));
                proof {
                    assert(MoveTo(path)@ =~= before.push((layer as nat, remainder as nat)));
                }
                if layer + 1 < layers {
                    layer += 1;
                    left = carry as usize;
                } else {
                    round = (carry - 1) as usize;
                    slot = 0;
                    placed = true;
                    proof {
                        assert(place_from(indices, capacity, layer as nat, left as nat, before) == (
                        Placement {
                            layer: layer as nat,
                            slot: 0,
                            round: (carry - 1) as nat,
                            path: before.push((layer as nat, remainder as nat)),
                        }));
                    }
                }
            }
        }
        Placed { layer, slot, round, move_to: MoveTo(path) }
    }

    /// Puts `task` last into a slot.
    fn insert(&mut self, layer: usize, slot: usize, task: Task)
        requires
            old(self).wf(),
            layer < old(self)@.wheels.len(),
            slot < old(self)@.capacity,
            task@.wf(old(self)@.wheels.len(), old(self)@.capacity),
        ensures
            final(self).wf(),
            final(self).channel() == old(self).channel(),
            final(self)@ == old(self)@.insert(layer as nat, slot as nat, task@),
    {
        proof {
            assert(old(self)@.wheels[layer as int].wf(old(self)@.wheels.len(), old(self)@.capacity));
        }
        self.wheels[layer].slots[slot].tasks.push(task);
        proof {
            let before = old(self)@;
            let after = self@;
            let expected = before.insert(layer as nat, slot as nat, task@);
            assert(after.wheels[layer as int].slots[slot as int] =~= before.slot(
                layer as nat,
                slot as nat,
            ).push(task@));
            assert(after.wheels[layer as int].slots =~= expected.wheels[layer as int].slots);
            assert(after.wheels =~= expected.wheels);
            crate::model::lemma_insert_wf(before, layer as nat, slot as nat, task@);
        }
    }

    /// Empties the current slot of `layer` and hands out what it held.
    fn take(&mut self, layer: usize) -> (batch: Vec<Task>)
        requires
            old(self).wf(),
            layer < old(self)@.wheels.len(),
        ensures
            final(self).wf(),
            final(self).channel() == old(self).channel(),
            final(self)@ == old(self)@.with_slot(
                layer as nat,
                old(self)@.wheels[layer as int].index,
                Seq::empty(),
            ),
            task_views(batch@) == old(self)@.slot(
                layer as nat,
                old(self)@.wheels[layer as int].index,
            ),
    {
        proof {
            assert(old(self)@.wheels[layer as int].wf(old(self)@.wheels.len(), old(self)@.capacity));
        }
        let current = self.wheels[layer].index;
        let mut batch: Vec<Task> = Vec::new();
        std::mem::swap(&mut batch, &mut self.wheels[layer].slots[current].tasks);
        proof {
            let before = old(self)@;
            let after = self@;
            let expected = before.with_slot(layer as nat, current as nat, Seq::empty());
            assert(after.wheels[layer as int].slots[current as int] =~= Seq::<TaskView>::empty());
            assert(after.wheels[layer as int].slots =~= expected.wheels[layer as int].slots);
            assert(after.wheels =~= expected.wheels);
            crate::model::lemma_with_slot_wf(before, layer as nat, current as nat, Seq::empty());
        }
        batch
    }

    /// Places `task` by the delay it was submitted with, counted from where
    /// the layers stand now. The round and the stops that the task came
    /// with are replaced by those of its new place.
    pub fn add(&mut self, task: Task)
        requires
            old(self).wf(),
        ensures
            final(self).wf(),
            final(self).channel() == old(self).channel(),
            final(self)@ == old(self)@.add(task.cb, task.tick as nat),
    {
        let placed = self.place(task.tick);
        let ghost at = placed@;
        let Placed { layer, slot, round, move_to } = placed;
        let task = Task { cb: task.cb, round, move_to, tick: task.tick };
        proof {
            assert forall|j: int| 0 <= j < task@.path.len() implies (#[trigger] task@.path[j]).0
                < self@.wheels.len() && task@.path[j].1 < self@.capacity by {
                assert(task@.path[j] == at.path[j]);
            }
        }
        self.insert(layer, slot, task);
    }

    /// Places a fresh task that runs `cb` after `dur`, rounded to ticks.
    pub fn add_task(&mut self, cb: BoxedCallback, dur: Duration)
        requires
            old(self).wf(),
        ensures
            final(self).wf(),
            final(self).channel() == old(self).channel(),
            final(self)@ == old(self)@.add(
                cb,
                rounded_ticks(duration_nanos(dur), old(self)@.granularity),
            ),
    {
        let tick = ticks_of(&dur, &self.granularity);
        self.add(Task::new(cb, tick));
    }

    /// One pass over the current slot of `layer`. The slot is emptied first
    /// and its tasks are handed out afterwards, the last one first, so each
    /// is looked at once, wherever it lands. Those that are due are added to
    /// `due`.
    pub fn sweep(&mut self, layer: usize, due: &mut Vec<Task>)
        requires
            old(self).wf(),
            layer < old(self)@.wheels.len(),
        ensures
            final(self).wf(),
            final(self).channel() == old(self).channel(),
            (final(self)@, task_views(final(due)@)) == old(self)@.sweep(
                layer as nat,
                task_views(old(due)@),
            ),
    {
        let ghost goal = old(self)@.sweep(layer as nat, task_views(old(due)@));
        let ghost layers = old(self)@.wheels.len();
        let ghost capacity = old(self)@.capacity;
        proof {
            assert(old(self)@.wheels[layer as int].wf(layers, capacity));
        }
        let current = self.wheels[layer].index;
        let mut batch = self.take(layer);
        while batch.len() > 0
            invariant
                self.wf(),
                self.channel() == old(self).channel(),
                self@.wheels.len() == layers,
                self@.capacity == capacity,
                layer < layers,
                current == self@.wheels[layer as int].index,
                current < capacity,
                slot_wf(task_views(batch@), layers, capacity),
                self@.distribute(layer as nat, task_views(batch@), task_views(due@)) == goal,
            decreases batch@.len(),
        {
            let ghost before = task_views(batch@);
            let ghost due_before = task_views(due@);
            let mut task = batch.pop().unwrap();
            proof {
                assert(task_views(batch@) =~= before.drop_last());
                assert(task@ == before.last());
                assert(before[before.len() - 1].wf(layers, capacity));
            }
            if task.round > 0 {
                task.round -= 1;
                self.insert(layer, current, task);
            } else {
                let ghost path = task.move_to@;
                match task.move_to.0.pop() {
                    Some((to_layer, to_slot)) => {
                        proof {
                            assert(task.move_to@ =~= path.drop_last());
                            assert(path[path.len() - 1] == (to_layer as nat, to_slot as nat));
                        }
                        self.insert(to_layer, to_slot, task);
                    },
                    None => {
                        proof {
                            assert(task.move_to@ =~= path);
                        }
                        due.push(task);
                        proof {
                            assert(task_views(due@) =~= due_before.push(before.last()));
                        }
                    },
                }
            }
        }
    }

    /// Turns the layer `wheel_index` by one slot. Where that completes a
    /// full turn, the layer above is rolled first. Then the new current slot
    /// of the layer is swept. Gives the tasks that came due, which are no
    /// longer in the wheel.
    pub fn roll(&mut self, wheel_index: usize) -> (due: Vec<Task>)
        requires
            old(self).wf(),
        ensures
            final(self).wf(),
            final(self).channel() == old(self).channel(),
            (final(self)@, task_views(due@)) == old(self)@.roll(wheel_index as nat),
        decreases old(self)@.wheels.len() - wheel_index,
    {
        let mut due: Vec<Task> = Vec::new();
        proof {
            assert(task_views(due@) =~= Seq::empty());
        }
        if wheel_index >= self.wheels.len() {
            return due;
        }
        proof {
            assert(self@.wheels[wheel_index as int].wf(self@.wheels.len(), self@.capacity));
        }
        let wrapped = self.wheels[wheel_index].roll();
        proof {
            assert(self@.wheels =~= old(self)@.rotate(wheel_index as nat).wheels);
            crate::model::lemma_rotate_wf(old(self)@, wheel_index as nat);
        }
        if wrapped {
            due = self.roll(wheel_index + 1);
            proof {
                crate::model::lemma_roll_shape(
                    old(self)@.rotate(wheel_index as nat),
                    (wheel_index + 1) as nat,
                );
            }
        }
        self.sweep(wheel_index, &mut due);
        due
    }

    /// Lets a task that came due and has run go where the outcome says.
    pub fn settle(&mut self, task: Task, behave: Behave)
        requires
            old(self).wf(),
        ensures
            final(self).wf(),
            final(self).channel() == old(self).channel(),
            final(self)@ == old(self)@.settle(task@, behave),
    {
        match behave {
            Behave::Cancel => {},
            Behave::Change(dur) => self.add_task(task.cb, dur),
            Behave::Repeat => self.add(task),
        }
    }

    /// Moves the wheel to its next tick. The submissions that the channel
    /// holds are placed first: as many as the channel held when the tick
    /// began, or fewer if the channel runs empty before; what is sent while
    /// the tick takes them waits for the next tick. Then the wheel rolls
    /// from its finest layer.
    /// Last, every task that came due runs, the last one first, and is
    /// settled by what it said.
    ///
    /// Which submissions there are and what the callbacks say is not the
    /// wheel's to decide: whatever the channel gave and whatever the
    /// callbacks said, the wheel ends as [`MultiWheelView::ticks_to`] says of
    /// them.
    pub fn tick(&mut self)
        requires
            old(self).wf(),
        ensures
            final(self).wf(),
            final(self)@.capacity == old(self)@.capacity,
            final(self)@.granularity == old(self)@.granularity,
            final(self)@.wheels.len() == old(self)@.wheels.len(),
            final(self)@.indices() == advance(old(self)@.indices(), old(self)@.capacity),
            final(self).channel() == old(self).channel(),
            exists|
                held: usize,
                received: Seq<Result<Submission, TryRecvError>>,
                ran: Seq<(TaskView, Behave)>,
            |
                #[trigger] old(self).took(held, received) && #[trigger] old(self)@.ticks_to(
                    final(self)@,
                    fresh_of(received, old(self)@.granularity),
                    ran,
                ),
    {
        let ghost granularity = self@.granularity;
        let ghost mut received: Seq<Result<Submission, TryRecvError>> = Seq::empty();
        let held: usize = self.add_handle.0.len();
        assert(self.channel_held(held));
        let mut pending: usize = held;
        while pending > 0
            invariant
                self.wf(),
                self.channel() == old(self).channel(),
                old(self).channel_held(held),
                granularity == old(self)@.granularity,
                granularity == self@.granularity,
                self@ == old(self)@.add_all(fresh_of(received, granularity)),
                pending <= held,
                received.len() <= held,
                received.len() + pending == held || (pending == 0 && received.len() > 0
                    && received.last() is Err),
                pending > 0 ==> received.len() + pending == held,
                forall|i: int| 0 <= i < received.len() ==> old(self).channel_gave(
                    #[trigger] received[i],
                ),
                forall|i: int| 0 <= i < received.len() - 1 ==> (#[trigger] received[i]) is Ok,
                pending > 0 ==> forall|i: int|
                    0 <= i < received.len() ==> (#[trigger] received[i]) is Ok,
            decreases pending,
        {
            pending -= 1;
            let ghost before = received;
            let next = self.add_handle.0.try_recv();
            proof {
                assert(self.channel_gave(next));
                assert(old(self).channel_gave(next));
                received = before.push(next);
                assert(received.drop_last() =~= before);
            }
            match next {
                Ok(submission) => {
                    proof {
                        let placed = (
                            submission.cb,
                            rounded_ticks(duration_nanos(submission.dur), granularity),
                        );
                        assert(fresh_of(received, granularity) == fresh_of(
                            before,
                            granularity,
                        ).push(placed));
                        assert(fresh_of(received, granularity).drop_last() =~= fresh_of(
                            before,
                            granularity,
                        ));
                    }
                    self.add_task(submission.cb, submission.dur);
                },
                Err(_) => {
                    proof {
                        assert(fresh_of(received, granularity) == fresh_of(before, granularity));
                    }
                    pending = 0;
                },
            }
        }
        let ghost fresh = fresh_of(received, granularity);
        assert(old(self).took(held, received));
        let mut due = self.roll(0);
        let ghost rolled = self@;
        let ghost came_due = task_views(due@);
        let ghost mut ran: Seq<(TaskView, Behave)> = Seq::empty();
        while due.len() > 0
            invariant
                self.wf(),
                self.channel() == old(self).channel(),
                self@ == rolled.settle_each(ran),
                ran.len() + due@.len() == came_due.len(),
                task_views(due@) == came_due.take(due@.len() as int),
                forall|i: int|
                    0 <= i < ran.len() ==> came_due[came_due.len() - 1 - i].ran_as(
                        (#[trigger] ran[i]).0,
                        ran[i].1,
                    ),
            decreases due@.len(),
        {
            let ghost left = task_views(due@);
            let mut task = due.pop().unwrap();
            proof {
                assert(task_views(due@) =~= came_due.take(due@.len() as int));
                assert(task@ == left.last());
                assert(left.last() == came_due[came_due.len() - 1 - ran.len()]);
            }
            let behave = task.cb.call();
            proof {
                assert(ran.push((task@, behave)).drop_last() =~= ran);
                ran = ran.push((task@, behave));
            }
            self.settle(task, behave);
        }
        proof {
            assert(old(self)@.ticks_to(self@, fresh, ran));
            crate::laws::lemma_tick_moves_layers(old(self)@, self@, fresh, ran);
        }
    }
}

} // verus!
