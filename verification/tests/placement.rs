use std::time::Duration;
use wheel_timer::{boxed, Behave, MultiWheel, Task, Wheel};

const UNIT: Duration = Duration::from_secs(1);

fn at(wheel: &MultiWheel, ticks: usize) -> (usize, usize, usize, Vec<(usize, usize)>) {
    let placed = wheel.place(ticks);
    (placed.layer, placed.slot, placed.round, placed.move_to.0)
}

#[test]
fn a_new_wheel_is_empty_and_stands_at_its_first_slots() {
    let wheel = MultiWheel::new(3, 4, UNIT);
    assert_eq!(wheel.layers(), 3);
    assert_eq!(wheel.capacity(), 4);
    assert_eq!(wheel.granularity(), UNIT);
    for layer in 0..3 {
        assert_eq!(wheel.index(layer), Some(0));
        for slot in 0..4 {
            assert_eq!(wheel.waiting(layer, slot), Some(0));
        }
        assert_eq!(wheel.waiting(layer, 4), None);
    }
    assert_eq!(wheel.index(3), None);
    assert_eq!(wheel.waiting(3, 0), None);
}

#[test]
fn a_ring_wraps_after_its_last_slot() {
    let mut ring = Wheel::new(3);
    assert_eq!(ring.capacity(), 3);
    assert_eq!(ring.index(), 0);
    assert!(!ring.roll());
    assert_eq!(ring.index(), 1);
    assert!(!ring.roll());
    assert_eq!(ring.index(), 2);
    assert!(ring.roll());
    assert_eq!(ring.index(), 0);
}

#[test]
fn a_ring_of_one_slot_wraps_at_every_roll() {
    let mut ring = Wheel::new(1);
    assert!(ring.roll());
    assert_eq!(ring.index(), 0);
    assert!(ring.roll());
    assert_eq!(ring.index(), 0);
}

#[test]
fn a_short_delay_is_a_slot_of_the_finest_layer() {
    let wheel = MultiWheel::new(2, 10, UNIT);
    assert_eq!(at(&wheel, 1), (0, 1, 0, vec![]));
    assert_eq!(at(&wheel, 3), (0, 3, 0, vec![]));
    assert_eq!(at(&wheel, 9), (0, 9, 0, vec![]));
}

#[test]
fn no_delay_is_the_slot_after_the_current_one() {
    let mut wheel = MultiWheel::new(2, 4, UNIT);
    assert_eq!(at(&wheel, 0), (0, 1, 0, vec![]));
    for _ in 0..3 {
        wheel.tick();
    }
    assert_eq!(wheel.index(0), Some(3));
    assert_eq!(at(&wheel, 0), (0, 0, 0, vec![]));
}

#[test]
fn a_carry_goes_one_layer_up_and_leaves_a_stop() {
    let wheel = MultiWheel::new(3, 10, UNIT);
    assert_eq!(at(&wheel, 10), (1, 1, 0, vec![(0, 0)]));
    assert_eq!(at(&wheel, 23), (1, 2, 0, vec![(0, 3)]));
    assert_eq!(at(&wheel, 99), (1, 9, 0, vec![(0, 9)]));
    assert_eq!(at(&wheel, 100), (2, 1, 0, vec![(0, 0), (1, 0)]));
    assert_eq!(at(&wheel, 457), (2, 4, 0, vec![(0, 7), (1, 5)]));
}

#[test]
fn placement_counts_from_where_the_layers_stand() {
    let mut wheel = MultiWheel::new(3, 4, UNIT);
    for _ in 0..7 {
        wheel.tick();
    }
    assert_eq!(wheel.index(0), Some(3));
    assert_eq!(wheel.index(1), Some(1));
    assert_eq!(wheel.index(2), Some(0));
    assert_eq!(at(&wheel, 1), (1, 2, 0, vec![(0, 0)]));
    assert_eq!(at(&wheel, 2), (1, 2, 0, vec![(0, 1)]));
    assert_eq!(at(&wheel, 9), (2, 1, 0, vec![(0, 0), (1, 0)]));
}

#[test]
fn what_goes_over_the_top_waits_in_rounds() {
    let one = MultiWheel::new(1, 10, UNIT);
    assert_eq!(at(&one, 10), (0, 0, 0, vec![(0, 0)]));
    assert_eq!(at(&one, 25), (0, 0, 1, vec![(0, 5)]));
    assert_eq!(at(&one, 47), (0, 0, 3, vec![(0, 7)]));
    let two = MultiWheel::new(2, 10, UNIT);
    assert_eq!(at(&two, 100), (1, 0, 0, vec![(0, 0), (1, 0)]));
    assert_eq!(at(&two, 345), (1, 0, 2, vec![(0, 5), (1, 4)]));
}

#[test]
fn the_longest_delay_finds_a_place() {
    let wheel = MultiWheel::new(2, 10, UNIT);
    let placed = wheel.place(usize::MAX);
    assert_eq!(placed.layer, 1);
    assert_eq!(placed.slot, 0);
    assert_eq!(placed.round, usize::MAX / 100 - 1);
    assert_eq!(
        placed.move_to.0,
        vec![(0, usize::MAX % 10), (1, usize::MAX / 10 % 10)]
    );
}

#[test]
fn add_puts_the_task_where_place_says() {
    let mut wheel = MultiWheel::new(2, 10, UNIT);
    wheel.add(Task::new(boxed(|| {}, ()), 23));
    wheel.add_task(boxed(|| {}, ()), 23 * UNIT);
    wheel.add_task(boxed(|| {}, ()), 4 * UNIT);
    assert_eq!(wheel.waiting(1, 2), Some(2));
    assert_eq!(wheel.waiting(0, 4), Some(1));
    assert_eq!(wheel.waiting(0, 3), Some(0));
}

#[test]
fn add_replaces_the_round_and_the_stops_of_the_task() {
    let mut wheel = MultiWheel::new(1, 10, UNIT);
    let mut task = Task::new(boxed(|| {}, ()), 2);
    task.round = 7;
    task.move_to.0.push((0, 9));
    wheel.add(task);
    assert_eq!(wheel.waiting(0, 2), Some(1));
    assert_eq!(wheel.roll(0).len(), 0);
    let due = wheel.roll(0);
    assert_eq!(due.len(), 1);
    assert_eq!(due[0].round, 0);
    assert_eq!(due[0].move_to.0, vec![]);
    assert_eq!(due[0].tick, 2);
}

#[test]
fn a_roll_cascades_from_the_layer_it_starts_at() {
    let mut wheel = MultiWheel::new(3, 3, UNIT);
    assert!(wheel.roll(3).is_empty());
    assert_eq!(wheel.index(0), Some(0));
    assert!(wheel.roll(1).is_empty());
    assert_eq!(wheel.index(0), Some(0));
    assert_eq!(wheel.index(1), Some(1));
    assert!(wheel.roll(1).is_empty());
    assert!(wheel.roll(1).is_empty());
    assert_eq!(wheel.index(1), Some(0));
    assert_eq!(wheel.index(2), Some(1));
}

#[test]
fn a_sweep_hands_out_the_current_slot() {
    let mut wheel = MultiWheel::new(2, 10, UNIT);
    wheel.add(Task::new(boxed(|| {}, ()), 10));
    wheel.add(Task::new(boxed(|| {}, ()), 10));
    assert_eq!(wheel.waiting(1, 1), Some(2));
    let mut due = Vec::new();
    wheel.sweep(1, &mut due);
    assert_eq!(wheel.waiting(1, 1), Some(2));
    assert!(due.is_empty());
    for _ in 0..9 {
        assert!(wheel.roll(0).is_empty());
    }
    assert_eq!(wheel.roll(0).len(), 2);
    assert_eq!(wheel.waiting(1, 1), Some(0));
    assert_eq!(wheel.waiting(0, 0), Some(0));
}

#[test]
fn settle_follows_the_outcome() {
    let mut wheel = MultiWheel::new(2, 10, UNIT);
    wheel.settle(Task::new(boxed(|| {}, ()), 5), Behave::Cancel);
    for slot in 0..10 {
        assert_eq!(wheel.waiting(0, slot), Some(0));
        assert_eq!(wheel.waiting(1, slot), Some(0));
    }
    wheel.settle(Task::new(boxed(|| {}, ()), 5), Behave::Repeat);
    assert_eq!(wheel.waiting(0, 5), Some(1));
    wheel.settle(Task::new(boxed(|| {}, ()), 5), Behave::Change(12 * UNIT));
    assert_eq!(wheel.waiting(0, 5), Some(1));
    assert_eq!(wheel.waiting(1, 1), Some(1));
}

#[test]
fn any_shape_can_be_built() {
    let none = MultiWheel::new(0, 10, UNIT);
    assert_eq!(none.layers(), 0);
    assert_eq!(none.capacity(), 10);
    assert_eq!(none.index(0), None);
    assert_eq!(none.len(), 0);
    let flat = MultiWheel::new(3, 0, UNIT);
    assert_eq!(flat.layers(), 3);
    assert_eq!(flat.capacity(), 0);
    assert_eq!(flat.index(2), Some(0));
    assert_eq!(flat.waiting(0, 0), None);
    let handle = flat.add_handle();
    assert!(handle.add(|| {}, UNIT).is_ok());
}
