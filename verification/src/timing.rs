//! When a task comes due: a task that was placed with a delay of some ticks
//! comes due at exactly that tick.

use crate::course::{advance, advance_from, follow, look, turned, turns_from, Fate, Held};
use crate::model::TaskView;
use crate::placement::{place_from, placement, Placement};
use vstd::prelude::*;

verus! {

/// Every layer stands at a slot of its ring.
pub open spec fn standing(indices: Seq<nat>, capacity: nat) -> bool {
    forall|j: int| 0 <= j < indices.len() ==> (#[trigger] indices[j]) < capacity
}

/// The number of ticks in which `layers` layers come back to where they
/// stood: the capacity to the power of `layers`.
pub open spec fn span(capacity: nat, layers: nat) -> nat
    decreases layers,
{
    if layers == 0 {
        1
    } else {
        capacity * span(capacity, (layers - 1) as nat)
    }
}

/// The layers from `from` up read as one number, the slot of the layer
/// `from` being its lowest digit. From the finest layer up it is the number
/// of ticks since all layers stood at their first slot.
pub open spec fn reading(digits: Seq<nat>, capacity: nat, from: nat) -> nat
    decreases digits.len() - from,
{
    if from >= digits.len() {
        0
    } else {
        digits[from as int] + capacity * reading(digits, capacity, from + 1)
    }
}

/// A reading depends on the layers that it reads alone.
pub proof fn lemma_reading_agrees(one: Seq<nat>, other: Seq<nat>, capacity: nat, from: nat)
    requires
        one.len() == other.len(),
        forall|j: int| from <= j < one.len() ==> one[j] == other[j],
    ensures
        reading(one, capacity, from) == reading(other, capacity, from),
    decreases one.len() - from,
{
    if from < one.len() {
        lemma_reading_agrees(one, other, capacity, from + 1);
    }
}

/// A reading is less than the span of the layers that it reads.
pub proof fn lemma_reading_bound(digits: Seq<nat>, capacity: nat, from: nat)
    requires
        standing(digits, capacity),
        from <= digits.len(),
    ensures
        reading(digits, capacity, from) + 1 <= span(capacity, (digits.len() - from) as nat),
    decreases digits.len() - from,
{
    if from < digits.len() {
        lemma_reading_bound(digits, capacity, from + 1);
        let rest = reading(digits, capacity, from + 1);
        let above = span(capacity, (digits.len() - from - 1) as nat);
        let digit = digits[from as int];
        assert(span(capacity, (digits.len() - from) as nat) == capacity * above);
        assert(digit + capacity * rest + 1 <= capacity * above) by (nonlinear_arith)
            requires
                digit < capacity,
                rest + 1 <= above,
        ;
    }
}

/// One roll from `from` adds one to the reading from `from`, but where
/// every layer completes its turn: there the reading was the last of the
/// span, and starts again at zero.
pub proof fn lemma_reading_advance(indices: Seq<nat>, capacity: nat, from: nat)
    requires
        standing(indices, capacity),
        from <= indices.len(),
    ensures
        !turns_from(indices, capacity, from, indices.len()) ==> reading(
            advance_from(indices, capacity, from),
            capacity,
            from,
        ) == reading(indices, capacity, from) + 1,
        turns_from(indices, capacity, from, indices.len()) ==> reading(
            advance_from(indices, capacity, from),
            capacity,
            from,
        ) == 0 && reading(indices, capacity, from) + 1 == span(
            capacity,
            (indices.len() - from) as nat,
        ),
    decreases indices.len() - from,
{
    let after = advance_from(indices, capacity, from);
    if from < indices.len() {
        let digit = indices[from as int];
        let rest = reading(indices, capacity, from + 1);
        assert(turns_from(indices, capacity, from, from));
        assert(after[from as int] == turned(digit, capacity));
        if digit + 1 == capacity {
            let above = advance_from(indices, capacity, from + 1);
            assert forall|j: int| from + 1 <= j < indices.len() implies after[j] == above[j] by {
                if turns_from(indices, capacity, from, j as nat) {
                    assert(turns_from(indices, capacity, from + 1, j as nat));
                }
                if turns_from(indices, capacity, from + 1, j as nat) {
                    assert forall|i: int| from <= i < j implies (#[trigger] indices[i]) + 1
                        == capacity by {}
                }
            }
            lemma_reading_agrees(after, above, capacity, from + 1);
            lemma_reading_advance(indices, capacity, from + 1);
            let span_above = span(capacity, (indices.len() - from - 1) as nat);
            assert(span(capacity, (indices.len() - from) as nat) == capacity * span_above);
            if turns_from(indices, capacity, from + 1, indices.len()) {
                assert forall|i: int| from <= i < indices.len() implies (#[trigger] indices[i])
                    + 1 == capacity by {}
                assert(reading(after, capacity, from) == 0) by (nonlinear_arith)
                    requires
                        reading(after, capacity, from) == 0 + capacity * reading(
                            after,
                            capacity,
                            from + 1,
                        ),
                        reading(after, capacity, from + 1) == 0,
                ;
                assert(digit + capacity * rest + 1 == capacity * span_above) by (nonlinear_arith)
                    requires
                        digit + 1 == capacity,
                        rest + 1 == span_above,
                ;
            } else {
                if turns_from(indices, capacity, from, indices.len()) {
                    assert(turns_from(indices, capacity, from + 1, indices.len()));
                }
                let rest_after = reading(after, capacity, from + 1);
                assert(0 + capacity * rest_after == digit + capacity * rest + 1)
                    by (nonlinear_arith)
                    requires
                        digit + 1 == capacity,
                        rest_after == rest + 1,
                ;
            }
        } else {
            assert(!turns_from(indices, capacity, from, indices.len()));
            assert forall|j: int| from + 1 <= j < indices.len() implies after[j] == indices[j] by {
                if turns_from(indices, capacity, from, j as nat) {
                    assert(indices[from as int] + 1 == capacity);
                }
            }
            lemma_reading_agrees(after, indices, capacity, from + 1);
        }
    } else {
        assert(turns_from(indices, capacity, from, indices.len()));
    }
}

/// Of two rows of digits that agree above `layer`, the one with the greater
/// digit at `layer` reads as the greater number, whatever stands below.
pub proof fn lemma_reading_order(
    low: Seq<nat>,
    high: Seq<nat>,
    capacity: nat,
    layer: nat,
    from: nat,
)
    requires
        low.len() == high.len(),
        standing(low, capacity),
        from <= layer < low.len(),
        low[layer as int] < high[layer as int],
        forall|j: int| layer < j < low.len() ==> low[j] == high[j],
    ensures
        reading(low, capacity, from) + 1 <= reading(high, capacity, from),
    decreases layer - from,
{
    if from == layer {
        lemma_reading_agrees(low, high, capacity, layer + 1);
    } else {
        lemma_reading_order(low, high, capacity, layer, from + 1);
        let digit = low[from as int];
        let rest_low = reading(low, capacity, from + 1);
        let rest_high = reading(high, capacity, from + 1);
        let other = high[from as int];
        assert(digit + capacity * rest_low + 1 <= other + capacity * rest_high)
            by (nonlinear_arith)
            requires
                digit < capacity,
                rest_low + 1 <= rest_high,
                other >= 0,
        ;
    }
}

/// The stops are those of the layers `0`, `1`, `2` and so on, in this
/// order, each at a slot of its ring.
pub open spec fn stops_in_order(path: Seq<(nat, nat)>, capacity: nat) -> bool {
    forall|j: int| 0 <= j < path.len() ==> (#[trigger] path[j]).0 == j && path[j].1 < capacity
}

/// The slots of the stops.
pub open spec fn stops(path: Seq<(nat, nat)>) -> Seq<nat> {
    Seq::new(path.len(), |j: int| path[j].1)
}

/// A task on its way down: it has no round to wait, and a stop in each
/// layer below its own.
pub open spec fn arriving(capacity: nat, held: Held) -> bool {
    &&& held.slot < capacity
    &&& held.task.round == 0
    &&& held.task.path.len() == held.layer
    &&& stops_in_order(held.task.path, capacity)
}

/// A task on its way down that waits in a slot ahead of the current one of
/// its layer.
pub open spec fn descending(indices: Seq<nat>, capacity: nat, held: Held) -> bool {
    &&& held.layer < indices.len()
    &&& indices[held.layer as int] < held.slot
    &&& arriving(capacity, held)
}

/// A task that went over the top: it waits its rounds in the first slot of
/// the top layer and has a stop in every layer.
pub open spec fn overflowing(indices: Seq<nat>, capacity: nat, held: Held) -> bool {
    &&& held.layer + 1 == indices.len()
    &&& held.slot == 0
    &&& held.task.path.len() == indices.len()
    &&& stops_in_order(held.task.path, capacity)
}

/// A task on its way down that waits in the first slot of the top layer. It
/// came there from over the top while that slot was being swept, and waits
/// for the top layer to come round again.
pub open spec fn lapped(indices: Seq<nat>, capacity: nat, held: Held) -> bool {
    &&& held.layer + 1 == indices.len()
    &&& held.slot == 0
    &&& arriving(capacity, held)
}

/// A task as placement leaves it and as every tick before its run leaves it
/// again.
pub open spec fn on_course(indices: Seq<nat>, capacity: nat, held: Held) -> bool {
    ||| descending(indices, capacity, held)
    ||| lapped(indices, capacity, held)
    ||| overflowing(indices, capacity, held)
}

/// Where the layers stand when a task on its way down comes due: at its
/// stops below its layer, at its slot in its layer, and where they stand now
/// above it.
pub open spec fn deadline(indices: Seq<nat>, held: Held) -> Seq<nat> {
    Seq::new(
        indices.len(),
        |j: int|
            if j < held.layer {
                held.task.path[j].1
            } else if j == held.layer {
                held.slot
            } else {
                indices[j]
            },
    )
}

/// The number of ticks until a task on course comes due.
pub open spec fn due_in(indices: Seq<nat>, capacity: nat, held: Held) -> int {
    let full = span(capacity, indices.len());
    let now = reading(indices, capacity, 0);
    if held.task.path.len() == held.layer {
        if held.slot == 0 {
            full - now + reading(deadline(indices, held), capacity, 0)
        } else {
            reading(deadline(indices, held), capacity, 0) - now
        }
    } else {
        full - now + held.task.round * full + reading(stops(held.task.path), capacity, 0) + if
            held.task.path.last().1 == 0 {
            full
        } else {
            0
        }
    }
}

/// The task comes due at the `n`-th tick from now, and at none before it.
pub open spec fn fires_at(indices: Seq<nat>, capacity: nat, held: Held, n: nat) -> bool
    decreases n,
{
    if n == 0 {
        false
    } else {
        match follow(indices, capacity, 0, held) {
            Fate::Fires(_) => n == 1,
            Fate::Waits(still) => fires_at(
                advance(indices, capacity),
                capacity,
                still,
                (n - 1) as nat,
            ),
        }
    }
}

/// Where a task ends that has just come to its slot while its layer and
/// all layers below it, down to `from`, stand at their first slot: it goes on
/// down for as long as its stop is the first slot.
pub open spec fn sink(held: Held, from: nat) -> Fate
    decreases held.layer,
{
    if held.layer < from || held.slot != 0 {
        Fate::Waits(held)
    } else {
        match look(held, held.layer, 0) {
            Fate::Fires(task) => Fate::Fires(task),
            Fate::Waits(next) => if next.layer < held.layer {
                sink(next, from)
            } else {
                Fate::Waits(next)
            },
        }
    }
}

/// A look at the first slot of `layer`, of a task that may have come due
/// already.
pub open spec fn look_on(fate: Fate, layer: nat) -> Fate {
    match fate {
        Fate::Fires(task) => Fate::Fires(task),
        Fate::Waits(held) => look(held, layer, 0),
    }
}

/// A roll from above the layer of a task leaves the task alone.
pub proof fn lemma_follow_above(indices: Seq<nat>, capacity: nat, from: nat, held: Held)
    requires
        held.layer < from,
    ensures
        follow(indices, capacity, from, held) == Fate::Waits(held),
    decreases indices.len() - from,
{
    if from < indices.len() {
        lemma_follow_above(indices, capacity, from + 1, held);
    }
}

/// A task on its way down that a look finds in the first slot goes one
/// layer down, or comes due in the finest layer.
pub proof fn lemma_look_arriving(capacity: nat, held: Held, current: nat)
    requires
        arriving(capacity, held),
        held.slot == current,
    ensures
        held.layer == 0 ==> look(held, held.layer, current) == Fate::Fires(held.task),
        held.layer > 0 ==> look(held, held.layer, current) == Fate::Waits(
            Held {
                layer: (held.layer - 1) as nat,
                slot: held.task.path.last().1,
                task: TaskView { path: held.task.path.drop_last(), ..held.task },
            },
        ) && arriving(
            capacity,
            Held {
                layer: (held.layer - 1) as nat,
                slot: held.task.path.last().1,
                task: TaskView { path: held.task.path.drop_last(), ..held.task },
            },
        ),
{
    if held.layer > 0 {
        let path = held.task.path;
        assert(path[path.len() - 1].0 == path.len() - 1);
        let shorter = path.drop_last();
        assert forall|j: int| 0 <= j < shorter.len() implies (#[trigger] shorter[j]).0 == j
            && shorter[j].1 < capacity by {
            assert(shorter[j] == path[j]);
        }
    }
}

/// After a task has sunk to the layer above `from`, a look at the first
/// slot of `from` completes its sinking to `from`.
pub proof fn lemma_sink_further(capacity: nat, held: Held, from: nat)
    requires
        arriving(capacity, held),
    ensures
        look_on(sink(held, from + 1), from) == sink(held, from),
    decreases held.layer,
{
    if held.slot == 0 {
        lemma_look_arriving(capacity, held, 0);
    }
    if held.layer <= from {
        if held.layer == from && held.slot == 0 && held.layer > 0 {
            let next = Held {
                layer: (held.layer - 1) as nat,
                slot: held.task.path.last().1,
                task: TaskView { path: held.task.path.drop_last(), ..held.task },
            };
            assert(sink(next, from) == Fate::Waits(next));
        }
    } else if held.slot == 0 {
        let next = Held {
            layer: (held.layer - 1) as nat,
            slot: held.task.path.last().1,
            task: TaskView { path: held.task.path.drop_last(), ..held.task },
        };
        lemma_sink_further(capacity, next, from);
    }
}

/// The sweep of the layer of a task on its way down finds the task when
/// every layer from `from` up to its own completes its turn and its own
/// layer turns to its slot.
pub open spec fn found(indices: Seq<nat>, capacity: nat, from: nat, held: Held) -> bool {
    turns_from(indices, capacity, from, held.layer) && turned(
        indices[held.layer as int],
        capacity,
    ) == held.slot
}

/// What a roll from `from` does to a task on its way down: nothing, unless
/// the sweep of its layer finds it; then it sinks from there.
pub proof fn lemma_follow_arriving(indices: Seq<nat>, capacity: nat, from: nat, held: Held)
    requires
        standing(indices, capacity),
        held.layer < indices.len(),
        arriving(capacity, held),
        from <= held.layer,
    ensures
        !found(indices, capacity, from, held) ==> follow(indices, capacity, from, held)
            == Fate::Waits(held),
        found(indices, capacity, from, held) ==> follow(indices, capacity, from, held) == (
        match look(held, held.layer, held.slot) {
            Fate::Fires(task) => Fate::Fires(task),
            Fate::Waits(next) => sink(next, from),
        }),
    decreases held.layer - from,
{
    let current = turned(indices[from as int], capacity);
    lemma_look_arriving(capacity, held, held.slot);
    if from == held.layer {
        assert(turns_from(indices, capacity, from, held.layer));
        lemma_follow_above(indices, capacity, from + 1, held);
        if held.layer > 0 {
            let next = Held {
                layer: (held.layer - 1) as nat,
                slot: held.task.path.last().1,
                task: TaskView { path: held.task.path.drop_last(), ..held.task },
            };
            assert(sink(next, from) == Fate::Waits(next));
        }
    } else {
        lemma_follow_arriving(indices, capacity, from + 1, held);
        if current == 0 {
            assert(indices[from as int] + 1 == capacity);
            if found(indices, capacity, from + 1, held) {
                assert forall|j: int| from <= j < held.layer implies (#[trigger] indices[j]) + 1
                    == capacity by {}
                assert(found(indices, capacity, from, held));
                let next = Held {
                    layer: (held.layer - 1) as nat,
                    slot: held.task.path.last().1,
                    task: TaskView { path: held.task.path.drop_last(), ..held.task },
                };
                lemma_sink_further(capacity, next, from);
            } else {
                if found(indices, capacity, from, held) {
                    assert(turns_from(indices, capacity, from + 1, held.layer));
                }
            }
        } else {
            if found(indices, capacity, from, held) {
                assert(indices[from as int] + 1 == capacity);
            }
        }
    }
}

/// What a roll from `from` does to a task that went over the top: nothing,
/// unless the top layer completes its turn; then the sweep of the top layer
/// looks at it.
pub proof fn lemma_follow_overflowing(indices: Seq<nat>, capacity: nat, from: nat, held: Held)
    requires
        standing(indices, capacity),
        overflowing(indices, capacity, held),
        from <= held.layer,
    ensures
        !turns_from(indices, capacity, from, indices.len()) ==> follow(
            indices,
            capacity,
            from,
            held,
        ) == Fate::Waits(held),
        turns_from(indices, capacity, from, indices.len()) ==> follow(
            indices,
            capacity,
            from,
            held,
        ) == look(held, held.layer, 0),
    decreases held.layer - from,
{
    let current = turned(indices[from as int], capacity);
    let path = held.task.path;
    assert(path[path.len() - 1].0 == held.layer);
    if from == held.layer {
        lemma_follow_above(indices, capacity, from + 1, held);
        if current == 0 {
            assert forall|j: int| from <= j < indices.len() implies (#[trigger] indices[j]) + 1
                == capacity by {}
        } else {
            if turns_from(indices, capacity, from, indices.len()) {
                assert(indices[from as int] + 1 == capacity);
            }
        }
    } else {
        lemma_follow_overflowing(indices, capacity, from + 1, held);
        if current == 0 {
            if turns_from(indices, capacity, from + 1, indices.len()) {
                assert forall|j: int| from <= j < indices.len() implies (#[trigger] indices[j])
                    + 1 == capacity by {}
            } else {
                if turns_from(indices, capacity, from, indices.len()) {
                    assert(turns_from(indices, capacity, from + 1, indices.len()));
                }
            }
        } else {
            if turns_from(indices, capacity, from, indices.len()) {
                assert(indices[from as int] + 1 == capacity);
            }
        }
    }
}

/// A task that sinks while its layer and all below it stand at their first
/// slot either comes due, and then the layers stand at its deadline, or
/// comes to rest on its way down, with the deadline it had.
pub proof fn lemma_sink_keeps_deadline(indices: Seq<nat>, capacity: nat, held: Held)
    requires
        held.layer < indices.len(),
        arriving(capacity, held),
        forall|j: int| 0 <= j <= held.layer ==> indices[j] == 0,
    ensures
        match sink(held, 0) {
            Fate::Fires(_) => deadline(indices, held) == indices,
            Fate::Waits(rests) => descending(indices, capacity, rests) && deadline(
                indices,
                rests,
            ) == deadline(indices, held),
        },
    decreases held.layer,
{
    if held.slot == 0 {
        lemma_look_arriving(capacity, held, 0);
        if held.layer == 0 {
            assert(deadline(indices, held) =~= indices);
        } else {
            let next = Held {
                layer: (held.layer - 1) as nat,
                slot: held.task.path.last().1,
                task: TaskView { path: held.task.path.drop_last(), ..held.task },
            };
            lemma_sink_keeps_deadline(indices, capacity, next);
            assert(deadline(indices, next) =~= deadline(indices, held));
        }
    }
}

/// A task on course has at least one tick to go.
pub proof fn lemma_due_in_positive(indices: Seq<nat>, capacity: nat, held: Held)
    requires
        standing(indices, capacity),
        on_course(indices, capacity, held),
    ensures
        due_in(indices, capacity, held) >= 1,
{
    lemma_reading_bound(indices, capacity, 0);
    if descending(indices, capacity, held) {
        lemma_reading_order(indices, deadline(indices, held), capacity, held.layer, 0);
    } else if lapped(indices, capacity, held) {
    } else {
        assert(held.task.round * span(capacity, indices.len()) >= 0) by (nonlinear_arith)
            requires
                held.task.round >= 0,
                span(capacity, indices.len()) >= 0,
        ;
    }
}

/// One tick takes one tick off the way of a task on its way down: the task
/// comes due if it had one tick to go, and is on course with one tick less
/// otherwise.
pub proof fn lemma_tick_descending(indices: Seq<nat>, capacity: nat, held: Held)
    requires
        standing(indices, capacity),
        descending(indices, capacity, held),
    ensures
        match follow(indices, capacity, 0, held) {
            Fate::Fires(_) => due_in(indices, capacity, held) == 1,
            Fate::Waits(still) => descending(advance(indices, capacity), capacity, still)
                && due_in(advance(indices, capacity), capacity, still) == due_in(
                indices,
                capacity,
                held,
            ) - 1,
        },
{
    let after = advance(indices, capacity);
    let goal = deadline(indices, held);
    let layer = held.layer;
    lemma_follow_arriving(indices, capacity, 0, held);
    lemma_reading_advance(indices, capacity, 0);
    assert(!turns_from(indices, capacity, 0, indices.len())) by {
        if turns_from(indices, capacity, 0, indices.len()) {
            assert(indices[layer as int] + 1 == capacity);
        }
    }
    assert(reading(after, capacity, 0) == reading(indices, capacity, 0) + 1);
    assert forall|j: int| layer < j < indices.len() implies after[j] == indices[j] by {
        if turns_from(indices, capacity, 0, j as nat) {
            assert(indices[layer as int] + 1 == capacity);
        }
    }
    if found(indices, capacity, 0, held) {
        assert(after[layer as int] == held.slot);
        assert forall|j: int| 0 <= j < layer implies after[j] == 0 by {
            assert(indices[j] + 1 == capacity);
            assert forall|i: int| 0 <= i < j implies (#[trigger] indices[i]) + 1 == capacity by {}
            assert(turns_from(indices, capacity, 0, j as nat));
        }
        lemma_look_arriving(capacity, held, held.slot);
        if layer == 0 {
            assert(goal =~= after);
        } else {
            let next = Held {
                layer: (layer - 1) as nat,
                slot: held.task.path.last().1,
                task: TaskView { path: held.task.path.drop_last(), ..held.task },
            };
            lemma_sink_keeps_deadline(after, capacity, next);
            assert(deadline(after, next) =~= goal);
        }
    } else {
        assert(after[layer as int] < held.slot) by {
            if turns_from(indices, capacity, 0, layer) {
                assert(after[layer as int] == indices[layer as int] + 1);
            }
        }
        assert(deadline(after, held) =~= goal);
    }
}

/// One tick takes one tick off the way of a task that went over the top.
pub proof fn lemma_tick_overflowing(indices: Seq<nat>, capacity: nat, held: Held)
    requires
        standing(indices, capacity),
        overflowing(indices, capacity, held),
    ensures
        match follow(indices, capacity, 0, held) {
            Fate::Fires(_) => false,
            Fate::Waits(still) => on_course(advance(indices, capacity), capacity, still)
                && due_in(advance(indices, capacity), capacity, still) == due_in(
                indices,
                capacity,
                held,
            ) - 1,
        },
{
    let after = advance(indices, capacity);
    let full = span(capacity, indices.len());
    let path = held.task.path;
    lemma_follow_overflowing(indices, capacity, 0, held);
    lemma_reading_advance(indices, capacity, 0);
    assert(path[path.len() - 1].0 == held.layer);
    if turns_from(indices, capacity, 0, indices.len()) {
        if held.task.round > 0 {
            let still = Held {
                task: TaskView { round: (held.task.round - 1) as nat, ..held.task },
                ..held
            };
            assert(follow(indices, capacity, 0, held) == Fate::Waits(still));
            assert(overflowing(after, capacity, still));
            assert(held.task.round * full == (held.task.round - 1) * full + full)
                by (nonlinear_arith);
        } else {
            let shorter = path.drop_last();
            let still = Held {
                layer: held.layer,
                slot: path.last().1,
                task: TaskView { path: shorter, ..held.task },
            };
            assert(follow(indices, capacity, 0, held) == Fate::Waits(still));
            assert forall|j: int| 0 <= j < shorter.len() implies (#[trigger] shorter[j]).0 == j
                && shorter[j].1 < capacity by {
                assert(shorter[j] == path[j]);
            }
            assert(after[held.layer as int] == 0) by {
                assert(turns_from(indices, capacity, 0, held.layer));
                assert(indices[held.layer as int] + 1 == capacity);
            }
            if path.last().1 == 0 {
                assert(lapped(after, capacity, still));
            } else {
                assert(descending(after, capacity, still));
            }
            assert(deadline(after, still) =~= stops(path));
            assert(held.task.round * full == 0) by (nonlinear_arith)
                requires
                    held.task.round == 0,
            ;
        }
    } else {
        assert(overflowing(after, capacity, held));
    }
}

/// One tick takes one tick off the way of a task that waits for the top
/// layer to come round again.
pub proof fn lemma_tick_lapped(indices: Seq<nat>, capacity: nat, held: Held)
    requires
        standing(indices, capacity),
        lapped(indices, capacity, held),
    ensures
        match follow(indices, capacity, 0, held) {
            Fate::Fires(_) => due_in(indices, capacity, held) == 1,
            Fate::Waits(still) => on_course(advance(indices, capacity), capacity, still)
                && due_in(advance(indices, capacity), capacity, still) == due_in(
                indices,
                capacity,
                held,
            ) - 1,
        },
{
    let after = advance(indices, capacity);
    let goal = deadline(indices, held);
    let layer = held.layer;
    lemma_follow_arriving(indices, capacity, 0, held);
    lemma_reading_advance(indices, capacity, 0);
    if found(indices, capacity, 0, held) {
        assert(indices[layer as int] + 1 == capacity);
        assert forall|j: int| 0 <= j < indices.len() implies (#[trigger] indices[j]) + 1
            == capacity by {}
        assert(turns_from(indices, capacity, 0, indices.len()));
        assert forall|j: int| 0 <= j < indices.len() implies after[j] == 0 by {
            assert forall|i: int| 0 <= i < j implies (#[trigger] indices[i]) + 1 == capacity by {}
            assert(turns_from(indices, capacity, 0, j as nat));
            assert(indices[j] + 1 == capacity);
        }
        lemma_look_arriving(capacity, held, held.slot);
        if layer == 0 {
            assert(reading(goal, capacity, 1) == 0);
            assert(reading(goal, capacity, 0) == 0 + capacity * reading(goal, capacity, 1));
            assert(reading(goal, capacity, 0) == 0) by (nonlinear_arith)
                requires
                    reading(goal, capacity, 0) == 0 + capacity * reading(goal, capacity, 1),
                    reading(goal, capacity, 1) == 0,
            ;
        } else {
            let next = Held {
                layer: (layer - 1) as nat,
                slot: held.task.path.last().1,
                task: TaskView { path: held.task.path.drop_last(), ..held.task },
            };
            lemma_sink_keeps_deadline(after, capacity, next);
            assert(deadline(after, next) =~= goal);
        }
    } else {
        assert(!turns_from(indices, capacity, 0, indices.len())) by {
            if turns_from(indices, capacity, 0, indices.len()) {
                assert forall|j: int| 0 <= j < layer implies (#[trigger] indices[j]) + 1
                    == capacity by {}
                assert(indices[layer as int] + 1 == capacity);
            }
        }
        assert(lapped(after, capacity, held));
        assert(deadline(after, held) =~= goal);
    }
}

/// One tick takes one tick off the way of a task on course: the task comes
/// due if it had one tick to go, and is on course with one tick less
/// otherwise.
pub proof fn lemma_tick_on_course(indices: Seq<nat>, capacity: nat, held: Held)
    requires
        standing(indices, capacity),
        on_course(indices, capacity, held),
    ensures
        match follow(indices, capacity, 0, held) {
            Fate::Fires(_) => due_in(indices, capacity, held) == 1,
            Fate::Waits(still) => on_course(advance(indices, capacity), capacity, still)
                && due_in(advance(indices, capacity), capacity, still) == due_in(
                indices,
                capacity,
                held,
            ) - 1,
        },
{
    if descending(indices, capacity, held) {
        lemma_tick_descending(indices, capacity, held);
    } else if lapped(indices, capacity, held) {
        lemma_tick_lapped(indices, capacity, held);
    } else {
        lemma_tick_overflowing(indices, capacity, held);
    }
}

/// The layers stand at slots of their rings after a tick as before it.
pub proof fn lemma_advance_standing(indices: Seq<nat>, capacity: nat)
    requires
        standing(indices, capacity),
    ensures
        standing(advance(indices, capacity), capacity),
        advance(indices, capacity).len() == indices.len(),
{
    let after = advance(indices, capacity);
    assert forall|j: int| 0 <= j < after.len() implies (#[trigger] after[j]) < capacity by {
        assert(indices[j] < capacity);
    }
}

/// A task on course comes due at exactly the tick that [`due_in`] counts,
/// and at none before it.
pub proof fn lemma_on_course_fires(indices: Seq<nat>, capacity: nat, held: Held, n: nat)
    requires
        standing(indices, capacity),
        on_course(indices, capacity, held),
        due_in(indices, capacity, held) == n,
    ensures
        fires_at(indices, capacity, held, n),
    decreases n,
{
    lemma_due_in_positive(indices, capacity, held);
    lemma_tick_on_course(indices, capacity, held);
    match follow(indices, capacity, 0, held) {
        Fate::Fires(_) => {},
        Fate::Waits(still) => {
            let after = advance(indices, capacity);
            lemma_advance_standing(indices, capacity);
            lemma_due_in_positive(after, capacity, still);
            lemma_on_course_fires(after, capacity, still, (n - 1) as nat);
        },
    }
}

/// The task that placement puts into the wheel, in its slot.
pub open spec fn held_at(at: Placement, task: TaskView) -> Held {
    Held {
        layer: at.layer,
        slot: at.slot,
        task: TaskView { round: at.round, path: at.path, ..task },
    }
}

/// The delay goes over the top of the wheel and its stop in the top layer
/// is the first slot: the one case in which a task comes due later than its
/// delay says.
pub open spec fn late(indices: Seq<nat>, capacity: nat, ticks: nat) -> bool {
    let at = placement(indices, capacity, ticks);
    at.path.len() == indices.len() && at.path.last().1 == 0
}

/// Placing from `layer` up adds the ticks to the reading of the layers
/// from `layer` up: the place and the stops are the digits of the sum, and
/// what goes over the top is counted in rounds.
pub proof fn lemma_place_from_adds(
    indices: Seq<nat>,
    capacity: nat,
    layer: nat,
    ticks: nat,
    path: Seq<(nat, nat)>,
    task: TaskView,
)
    requires
        standing(indices, capacity),
        capacity >= 1,
        layer < indices.len(),
        ticks >= 1,
        path.len() == layer,
        stops_in_order(path, capacity),
    ensures
        ({
            let at = place_from(indices, capacity, layer, ticks, path);
            let held = held_at(at, task);
            &&& at.path.len() >= layer
            &&& forall|j: int| 0 <= j < layer ==> at.path[j] == path[j]
            &&& stops_in_order(at.path, capacity)
            &&& at.path.len() == at.layer ==> {
                &&& layer <= at.layer < indices.len()
                &&& indices[at.layer as int] < at.slot < capacity
                &&& at.round == 0
                &&& reading(deadline(indices, held), capacity, layer) == reading(
                    indices,
                    capacity,
                    layer,
                ) + ticks
            }
            &&& at.path.len() != at.layer ==> {
                &&& at.layer + 1 == indices.len()
                &&& at.slot == 0
                &&& at.path.len() == indices.len()
                &&& reading(stops(at.path), capacity, layer) + (at.round + 1) * span(
                    capacity,
                    (indices.len() - layer) as nat,
                ) == reading(indices, capacity, layer) + ticks
            }
        }),
    decreases indices.len() - layer,
{
    let at = place_from(indices, capacity, layer, ticks, path);
    let held = held_at(at, task);
    let candidate = indices[layer as int] + ticks;
    let carry = candidate / capacity;
    let remainder = candidate % capacity;
    vstd::arithmetic::div_mod::lemma_fundamental_div_mod(candidate as int, capacity as int);
    assert(0 <= remainder < capacity) by (nonlinear_arith)
        requires
            remainder == candidate % capacity,
            capacity >= 1,
    ;
    assert(candidate == capacity * carry + remainder);
    let above = reading(indices, capacity, layer + 1);
    assert(reading(indices, capacity, layer) == indices[layer as int] + capacity * above);
    if carry == 0 {
        assert(remainder == candidate) by (nonlinear_arith)
            requires
                candidate == capacity * carry + remainder,
                carry == 0,
        ;
        let goal = deadline(indices, held);
        lemma_reading_agrees(goal, indices, capacity, layer + 1);
        assert(goal[layer as int] == remainder);
    } else {
        let longer = path.push((layer, remainder as nat));
        assert forall|j: int| 0 <= j < longer.len() implies (#[trigger] longer[j]).0 == j
            && longer[j].1 < capacity by {
            if j < path.len() {
                assert(longer[j] == path[j]);
            }
        }
        if layer + 1 < indices.len() {
            lemma_place_from_adds(indices, capacity, layer + 1, carry as nat, longer, task);
            assert(at == place_from(indices, capacity, layer + 1, carry as nat, longer));
            assert(at.path[layer as int] == longer[layer as int]);
            assert forall|j: int| 0 <= j < layer implies at.path[j] == path[j] by {
                assert(at.path[j] == longer[j]);
            }
            if at.path.len() == at.layer {
                let goal = deadline(indices, held);
                let rest = reading(goal, capacity, layer + 1);
                assert(goal[layer as int] == remainder);
                assert(reading(goal, capacity, layer) == remainder + capacity * rest);
                assert(remainder + capacity * rest == indices[layer as int] + capacity * above
                    + ticks) by (nonlinear_arith)
                    requires
                        rest == above + carry,
                        indices[layer as int] + ticks == capacity * carry + remainder,
                ;
            } else {
                let digits = stops(at.path);
                let rest = reading(digits, capacity, layer + 1);
                let turn = span(capacity, (indices.len() - layer - 1) as nat);
                assert(digits[layer as int] == remainder);
                assert(reading(digits, capacity, layer) == remainder + capacity * rest);
                assert(span(capacity, (indices.len() - layer) as nat) == capacity * turn);
                assert(remainder + capacity * rest + (at.round + 1) * (capacity * turn)
                    == indices[layer as int] + capacity * above + ticks) by (nonlinear_arith)
                    requires
                        rest + (at.round + 1) * turn == above + carry,
                        indices[layer as int] + ticks == capacity * carry + remainder,
                ;
            }
        } else {
            assert(at.path == longer);
            assert(at.round == carry - 1);
            let digits = stops(at.path);
            assert(digits[layer as int] == remainder);
            assert(reading(digits, capacity, layer + 1) == 0);
            assert(reading(digits, capacity, layer) == remainder + capacity * 0);
            assert(above == 0);
            assert(span(capacity, 0) == 1);
            assert(span(capacity, 1) == capacity * span(capacity, 0));
            assert(remainder + capacity * 0 + (carry - 1 + 1) * (capacity * 1)
                == indices[layer as int] + capacity * 0 + ticks) by (nonlinear_arith)
                requires
                    indices[layer as int] + ticks == capacity * carry + remainder,
            ;
            assert(forall|j: int| 0 <= j < layer ==> at.path[j] == path[j]);
        }
    }
}

/// The tick at which a task of `ticks` ticks comes due, counted from its
/// placement: the first one if it has no delay, the `ticks`-th otherwise,
/// and one full turn of the whole wheel after that if the delay is [`late`].
pub open spec fn due_tick(indices: Seq<nat>, capacity: nat, ticks: nat) -> nat {
    if ticks == 0 {
        1
    } else if late(indices, capacity, ticks) {
        ticks + span(capacity, indices.len())
    } else {
        ticks
    }
}

/// A task that is placed with a delay of at least one tick is on course,
/// with as many ticks to go as [`due_tick`] says.
pub proof fn lemma_placement_on_course(
    indices: Seq<nat>,
    capacity: nat,
    ticks: nat,
    task: TaskView,
)
    requires
        standing(indices, capacity),
        capacity >= 1,
        indices.len() >= 1,
        ticks >= 1,
    ensures
        on_course(indices, capacity, held_at(placement(indices, capacity, ticks), task)),
        due_in(indices, capacity, held_at(placement(indices, capacity, ticks), task)) == due_tick(
            indices,
            capacity,
            ticks,
        ),
{
    let at = placement(indices, capacity, ticks);
    let held = held_at(at, task);
    lemma_place_from_adds(indices, capacity, 0, ticks, Seq::empty(), task);
    if at.path.len() == at.layer {
        assert(descending(indices, capacity, held));
    } else {
        assert(overflowing(indices, capacity, held));
        let full = span(capacity, indices.len());
        assert((at.round + 1) * full == at.round * full + full) by (nonlinear_arith);
    }
}

/// A task that is placed with no delay comes due at the next tick.
pub proof fn lemma_no_delay_fires_next(indices: Seq<nat>, capacity: nat, task: TaskView)
    requires
        standing(indices, capacity),
        capacity >= 1,
        indices.len() >= 1,
    ensures
        follow(indices, capacity, 0, held_at(placement(indices, capacity, 0), task))
            == Fate::Fires(held_at(placement(indices, capacity, 0), task).task),
        fires_at(indices, capacity, held_at(placement(indices, capacity, 0), task), 1),
{
    let at = placement(indices, capacity, 0);
    let held = held_at(at, task);
    let next = indices[0] + 1;
    assert(next % capacity == turned(indices[0], capacity)) by (nonlinear_arith)
        requires
            next == indices[0] + 1,
            indices[0] < capacity,
            turned(indices[0], capacity) == if indices[0] + 1 == capacity {
                0
            } else {
                indices[0] + 1
            },
    ;
    lemma_follow_above(indices, capacity, 1, held);
}

/// The timing of the wheel: a task that is placed with a delay of `ticks`
/// ticks comes due at exactly the `ticks`-th tick after it, and at none
/// before. With no delay it comes due at the first tick after it. A delay
/// that is [`late`] takes one full turn of the whole wheel more.
pub proof fn lemma_placed_fires_on_time(
    indices: Seq<nat>,
    capacity: nat,
    ticks: nat,
    task: TaskView,
)
    requires
        standing(indices, capacity),
        capacity >= 1,
        indices.len() >= 1,
    ensures
        fires_at(
            indices,
            capacity,
            held_at(placement(indices, capacity, ticks), task),
            due_tick(indices, capacity, ticks),
        ),
{
    if ticks == 0 {
        lemma_no_delay_fires_next(indices, capacity, task);
    } else {
        lemma_placement_on_course(indices, capacity, ticks, task);
        lemma_on_course_fires(
            indices,
            capacity,
            held_at(placement(indices, capacity, ticks), task),
            due_tick(indices, capacity, ticks),
        );
    }
}

/// A task comes due at one tick only.
pub proof fn law_due_at_one_tick_only(indices: Seq<nat>, capacity: nat, held: Held, n: nat, m: nat)
    requires
        fires_at(indices, capacity, held, n),
        fires_at(indices, capacity, held, m),
    ensures
        n == m,
    decreases n,
{
    match follow(indices, capacity, 0, held) {
        Fate::Fires(_) => {},
        Fate::Waits(still) => {
            law_due_at_one_tick_only(
                advance(indices, capacity),
                capacity,
                still,
                (n - 1) as nat,
                (m - 1) as nat,
            );
        },
    }
}

} // verus!
