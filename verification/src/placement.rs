//! Where a task goes when it is put into the wheel.

use vstd::prelude::*;

verus! {

/// The place of a fresh task.
pub struct Placement {
    pub layer: nat,
    pub slot: nat,
    /// Full turns of the top layer to wait through before the path is taken.
    pub round: nat,
    /// The `(layer, slot)` pairs to pass after this place, the next one last.
    pub path: Seq<(nat, nat)>,
}

/// Places `ticks >= 1` ticks at `layer` or above. `indices[layer] + ticks`
/// is split by the capacity: with no carry the remainder is the slot in
/// this layer. With a carry the remainder is a stop for later, and the carry
/// is placed one layer up. On the top layer a carry means one round less
/// than itself in slot 0, from where the remainder is the first stop.
pub open spec fn place_from(
    indices: Seq<nat>,
    capacity: nat,
    layer: nat,
    ticks: nat,
    path: Seq<(nat, nat)>,
) -> Placement
    decreases indices.len() - layer,
{
    let candidate = indices[layer as int] + ticks;
    let carry = candidate / capacity;
    let remainder = candidate % capacity;
    if carry == 0 {
        Placement { layer, slot: remainder, round: 0, path }
    } else if layer + 1 < indices.len() {
        place_from(indices, capacity, layer + 1, carry, path.push((layer, remainder)))
    } else {
        Placement { layer, slot: 0, round: (carry - 1) as nat, path: path.push((layer, remainder)) }
    }
}

/// The place of a task of `ticks` ticks on a wheel whose layers stand at
/// `indices`. No ticks at all means the slot after the current one of the
/// finest layer: the next one to come up, never the current one.
pub open spec fn placement(indices: Seq<nat>, capacity: nat, ticks: nat) -> Placement {
    if ticks == 0 {
        Placement { layer: 0, slot: (indices[0] + 1) % capacity, round: 0, path: Seq::empty() }
    } else {
        place_from(indices, capacity, 0, ticks, Seq::empty())
    }
}

impl Placement {
    /// The place exists in a wheel of this shape, and so does every stop
    /// after it.
    pub open spec fn wf(self, layers: nat, capacity: nat) -> bool {
        &&& self.layer < layers
        &&& self.slot < capacity
        &&& forall|j: int|
            0 <= j < self.path.len() ==> (#[trigger] self.path[j]).0 < layers && self.path[j].1
                < capacity
    }
}

/// Placing from a layer of the wheel gives a place of the wheel, if the
/// stops so far are of the wheel.
pub proof fn lemma_place_from_wf(
    indices: Seq<nat>,
    capacity: nat,
    layer: nat,
    ticks: nat,
    path: Seq<(nat, nat)>,
)
    requires
        capacity >= 1,
        layer < indices.len(),
        forall|j: int|
            0 <= j < path.len() ==> (#[trigger] path[j]).0 < indices.len() && path[j].1 < capacity,
    ensures
        place_from(indices, capacity, layer, ticks, path).wf(indices.len(), capacity),
    decreases indices.len() - layer,
{
    let candidate = indices[layer as int] + ticks;
    let carry = candidate / capacity;
    let remainder = candidate % capacity;
    assert(0 <= remainder < capacity) by (nonlinear_arith)
        requires
            remainder == candidate % capacity,
            capacity >= 1,
            candidate >= 0,
    ;
    if carry == 0 {
    } else {
        let longer = path.push((layer, remainder as nat));
        assert forall|j: int| 0 <= j < longer.len() implies (#[trigger] longer[j]).0 < indices.len()
            && longer[j].1 < capacity by {
            if j < path.len() {
                assert(longer[j] == path[j]);
            }
        }
        if layer + 1 < indices.len() {
            lemma_place_from_wf(indices, capacity, layer + 1, carry as nat, longer);
        }
    }
}

/// Every task finds a place in the wheel.
pub proof fn lemma_placement_wf(indices: Seq<nat>, capacity: nat, ticks: nat)
    requires
        capacity >= 1,
        indices.len() >= 1,
    ensures
        placement(indices, capacity, ticks).wf(indices.len(), capacity),
{
    if ticks == 0 {
        let next = indices[0] + 1;
        assert(0 <= next % capacity < capacity) by (nonlinear_arith)
            requires
                capacity >= 1,
                next >= 0,
        ;
    } else {
        lemma_place_from_wf(indices, capacity, 0, ticks, Seq::empty());
    }
}

} // verus!
