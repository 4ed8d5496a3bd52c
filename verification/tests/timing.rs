use std::sync::atomic::{AtomicUsize, Ordering};
use std::sync::Arc;
use std::time::Duration;
use wheel_timer::{boxed, AddHandle, Behave, MultiWheel, Task};

const UNIT: Duration = Duration::from_secs(1);

/// The tick at which a task of `ticks` ticks runs, placed on a wheel that
/// has ticked `offset` times.
fn run_tick(layers: usize, capacity: usize, offset: usize, ticks: usize) -> usize {
    let mut wheel = MultiWheel::new(layers, capacity, UNIT);
    for _ in 0..offset {
        wheel.tick();
    }
    let fired = Arc::new(AtomicUsize::new(0));
    let seen = fired.clone();
    wheel.add(Task::new(
        boxed(
            move || {
                seen.fetch_add(1, Ordering::SeqCst);
            },
            (),
        ),
        ticks,
    ));
    assert_eq!(wheel.len(), 1);
    let mut tick = 0;
    while fired.load(Ordering::SeqCst) == 0 {
        wheel.tick();
        tick += 1;
        assert!(tick <= ticks + 2 * capacity.pow(layers as u32), "never ran");
    }
    assert_eq!(fired.load(Ordering::SeqCst), 1);
    assert_eq!(wheel.len(), 0);
    tick
}

/// The tick at which it is to run: the delay, or one full turn of the wheel
/// more where the delay goes over the top and stops at the first slot there.
fn due_tick(layers: usize, capacity: usize, offset: usize, ticks: usize) -> usize {
    if ticks == 0 {
        return 1;
    }
    let mut wheel = MultiWheel::new(layers, capacity, UNIT);
    for _ in 0..offset {
        wheel.tick();
    }
    let placed = wheel.place(ticks);
    let stops = placed.move_to.0;
    if stops.len() == layers && stops[layers - 1].1 == 0 {
        ticks + capacity.pow(layers as u32)
    } else {
        ticks
    }
}

#[test]
fn every_delay_is_kept_on_one_layer() {
    for capacity in 1..=5 {
        for offset in 0..capacity {
            for ticks in 0..=3 * capacity + 1 {
                assert_eq!(
                    run_tick(1, capacity, offset, ticks),
                    due_tick(1, capacity, offset, ticks),
                    "capacity {} offset {} ticks {}",
                    capacity,
                    offset,
                    ticks
                );
            }
        }
    }
}

#[test]
fn every_delay_is_kept_on_two_layers() {
    for capacity in 1..=4 {
        let span = capacity * capacity;
        for offset in 0..span {
            for ticks in 0..=2 * span + 1 {
                assert_eq!(
                    run_tick(2, capacity, offset, ticks),
                    due_tick(2, capacity, offset, ticks),
                    "capacity {} offset {} ticks {}",
                    capacity,
                    offset,
                    ticks
                );
            }
        }
    }
}

#[test]
fn every_delay_is_kept_on_three_layers() {
    for capacity in 2..=3 {
        let span = capacity * capacity * capacity;
        for offset in 0..span {
            for ticks in 0..=2 * span + 1 {
                assert_eq!(
                    run_tick(3, capacity, offset, ticks),
                    due_tick(3, capacity, offset, ticks),
                    "capacity {} offset {} ticks {}",
                    capacity,
                    offset,
                    ticks
                );
            }
        }
    }
}

#[test]
fn a_delay_that_stays_below_the_top_is_kept_to_the_tick() {
    for offset in (0..100).step_by(7) {
        for ticks in 1..100 - offset {
            assert_eq!(run_tick(2, 10, offset, ticks), ticks, "offset {} ticks {}", offset, ticks);
        }
    }
}

#[test]
fn the_wheel_counts_its_tasks() {
    let mut wheel = MultiWheel::new(2, 5, UNIT);
    assert_eq!(wheel.len(), 0);
    for ticks in 0..20 {
        wheel.add(Task::new(boxed(|| Behave::Repeat, ()), ticks));
        assert_eq!(wheel.len(), ticks + 1);
    }
    for _ in 0..50 {
        wheel.tick();
        assert_eq!(wheel.len(), 20);
    }
    let mut stopping = MultiWheel::new(2, 5, UNIT);
    for ticks in 1..=20 {
        stopping.add(Task::new(boxed(|| {}, ()), ticks));
    }
    for tick in 1..=20 {
        stopping.tick();
        assert_eq!(stopping.len(), 20 - tick);
    }
}

#[test]
fn due_tasks_leave_the_wheel_with_a_roll() {
    let mut wheel = MultiWheel::new(2, 4, UNIT);
    for ticks in [1, 1, 2, 5, 5, 5, 9] {
        wheel.add(Task::new(boxed(|| {}, ()), ticks));
    }
    let mut left = 7;
    for tick in 1..=9usize {
        let due = wheel.roll(0);
        let expected = match tick {
            1 => 2,
            2 => 1,
            5 => 3,
            9 => 1,
            _ => 0,
        };
        assert_eq!(due.len(), expected, "at tick {}", tick);
        for task in &due {
            assert_eq!(task.round, 0);
            assert!(task.move_to.0.is_empty());
            assert_eq!(task.tick, tick);
        }
        left -= due.len();
        assert_eq!(wheel.len(), left);
    }
}

fn sendable<T: Send>() {}

fn shareable<T: Sync>() {}

#[test]
fn handles_and_wheels_go_to_other_threads() {
    sendable::<AddHandle>();
    shareable::<AddHandle>();
    sendable::<MultiWheel>();
    sendable::<Task>();
}
