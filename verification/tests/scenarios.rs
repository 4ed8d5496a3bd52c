use std::sync::atomic::{AtomicUsize, Ordering};
use std::sync::Arc;
use std::time::Duration;
use wheel_timer::{Behave, MultiWheel};

const UNIT: Duration = Duration::from_secs(1);

fn counter() -> Arc<AtomicUsize> {
    Arc::new(AtomicUsize::new(0))
}

#[test]
fn single_layer_three_units_fires_once_at_third_tick() {
    let mut wheel = MultiWheel::new(1, 10, UNIT);
    let handle = wheel.add_handle();
    let fired = counter();
    let seen = fired.clone();
    handle
        .add(
            move || {
                seen.fetch_add(1, Ordering::SeqCst);
            },
            3 * UNIT,
        )
        .unwrap();
    wheel.tick();
    assert_eq!(fired.load(Ordering::SeqCst), 0);
    wheel.tick();
    assert_eq!(fired.load(Ordering::SeqCst), 0);
    wheel.tick();
    assert_eq!(fired.load(Ordering::SeqCst), 1);
    for _ in 0..40 {
        wheel.tick();
    }
    assert_eq!(fired.load(Ordering::SeqCst), 1);
}

#[test]
fn two_layers_twenty_three_ticks_cascade() {
    let mut wheel = MultiWheel::new(2, 10, UNIT);
    let placed = wheel.place(23);
    assert_eq!(placed.layer, 1);
    assert_eq!(placed.slot, 2);
    assert_eq!(placed.round, 0);
    assert_eq!(placed.move_to.0, vec![(0, 3)]);

    let handle = wheel.add_handle();
    let fired = counter();
    let seen = fired.clone();
    handle
        .add(
            move || {
                seen.fetch_add(1, Ordering::SeqCst);
            },
            23 * UNIT,
        )
        .unwrap();
    for _ in 0..22 {
        wheel.tick();
        assert_eq!(fired.load(Ordering::SeqCst), 0);
    }
    wheel.tick();
    assert_eq!(fired.load(Ordering::SeqCst), 1);
    for _ in 0..200 {
        wheel.tick();
    }
    assert_eq!(fired.load(Ordering::SeqCst), 1);
}

#[test]
fn zero_delay_fires_on_the_next_tick() {
    let mut wheel = MultiWheel::new(3, 4, UNIT);
    for _ in 0..7 {
        wheel.tick();
    }
    let handle = wheel.add_handle();
    let fired = counter();
    let seen = fired.clone();
    handle
        .add(
            move || {
                seen.fetch_add(1, Ordering::SeqCst);
            },
            Duration::from_secs(0),
        )
        .unwrap();
    assert_eq!(fired.load(Ordering::SeqCst), 0);
    wheel.tick();
    assert_eq!(fired.load(Ordering::SeqCst), 1);
    wheel.tick();
    assert_eq!(fired.load(Ordering::SeqCst), 1);
}

#[test]
fn repeat_fires_every_interval_until_cancel() {
    let mut wheel = MultiWheel::new(3, 10, UNIT);
    let handle = wheel.add_handle();
    let fired = counter();
    let seen = fired.clone();
    handle
        .add_with_ctx(
            move |runs: &mut usize| {
                *runs += 1;
                seen.fetch_add(1, Ordering::SeqCst);
                if *runs == 5 {
                    Behave::Cancel
                } else {
                    Behave::Repeat
                }
            },
            7 * UNIT,
            0usize,
        )
        .unwrap();
    for tick in 1..=100usize {
        wheel.tick();
        let expected = if tick >= 35 { 5 } else { tick / 7 };
        assert_eq!(fired.load(Ordering::SeqCst), expected, "after tick {}", tick);
    }
}

#[test]
fn change_counts_from_the_moment_of_the_run() {
    let mut wheel = MultiWheel::new(2, 10, UNIT);
    let handle = wheel.add_handle();
    let fired = counter();
    let seen = fired.clone();
    handle
        .add_with_ctx(
            move |runs: &mut usize| {
                *runs += 1;
                seen.fetch_add(1, Ordering::SeqCst);
                if *runs == 1 {
                    Behave::Change(4 * UNIT)
                } else {
                    Behave::Cancel
                }
            },
            13 * UNIT,
            0usize,
        )
        .unwrap();
    for tick in 1..=40usize {
        wheel.tick();
        let expected = if tick >= 17 {
            2
        } else if tick >= 13 {
            1
        } else {
            0
        };
        assert_eq!(fired.load(Ordering::SeqCst), expected, "after tick {}", tick);
    }
}

#[test]
fn a_duration_result_reschedules() {
    let mut wheel = MultiWheel::new(2, 10, UNIT);
    let handle = wheel.add_handle();
    let fired = counter();
    let seen = fired.clone();
    handle
        .add(
            move || {
                seen.fetch_add(1, Ordering::SeqCst);
                2 * UNIT
            },
            5 * UNIT,
        )
        .unwrap();
    for tick in 1..=11usize {
        wheel.tick();
        let expected = if tick >= 5 { 1 + (tick - 5) / 2 } else { 0 };
        assert_eq!(fired.load(Ordering::SeqCst), expected, "after tick {}", tick);
    }
}

#[test]
fn dropped_wheel_leaves_handles_dangling() {
    let wheel = MultiWheel::new(2, 10, UNIT);
    let first = wheel.add_handle();
    let second = first.clone();
    let fired = counter();
    let seen = fired.clone();
    assert!(first.add(|| {}, UNIT).is_ok());
    drop(wheel);
    assert!(first.add(|| {}, UNIT).is_err());
    assert!(second
        .add_with_ctx(
            move |_: &mut u8| {
                seen.fetch_add(1, Ordering::SeqCst);
            },
            UNIT,
            0u8,
        )
        .is_err());
    assert_eq!(fired.load(Ordering::SeqCst), 0);
}

#[test]
fn many_handles_lose_and_double_nothing() {
    let mut wheel = MultiWheel::new(3, 8, UNIT);
    let handles: Vec<_> = (0..4).map(|_| wheel.add_handle()).collect();
    let now = counter();
    let fired = counter();
    let off_time = counter();
    for task in 0..25usize {
        for (producer, handle) in handles.iter().enumerate() {
            let delay = 1 + (producer * 25 + task * 7) % 60;
            let now = now.clone();
            let fired = fired.clone();
            let off_time = off_time.clone();
            handle
                .add(
                    move || {
                        fired.fetch_add(1, Ordering::SeqCst);
                        if now.load(Ordering::SeqCst) != delay {
                            off_time.fetch_add(1, Ordering::SeqCst);
                        }
                    },
                    UNIT * delay as u32,
                )
                .unwrap();
        }
    }
    let mut expected = 0;
    for tick in 1..=80usize {
        now.store(tick, Ordering::SeqCst);
        wheel.tick();
        for task in 0..25usize {
            for producer in 0..4usize {
                if 1 + (producer * 25 + task * 7) % 60 == tick {
                    expected += 1;
                }
            }
        }
        assert_eq!(fired.load(Ordering::SeqCst), expected, "after tick {}", tick);
    }
    assert_eq!(fired.load(Ordering::SeqCst), 100);
    assert_eq!(off_time.load(Ordering::SeqCst), 0);
}

#[test]
fn repeats_count_as_runs_of_their_own() {
    let mut wheel = MultiWheel::new(2, 6, UNIT);
    let handle = wheel.add_handle();
    let fired = counter();
    for period in 1..=5usize {
        let seen = fired.clone();
        handle
            .add_with_ctx(
                move |left: &mut usize| {
                    seen.fetch_add(1, Ordering::SeqCst);
                    *left -= 1;
                    if *left == 0 {
                        Behave::Cancel
                    } else {
                        Behave::Repeat
                    }
                },
                UNIT * period as u32,
                3usize,
            )
            .unwrap();
    }
    let mut expected = 0;
    for tick in 1..=20usize {
        wheel.tick();
        for period in 1..=5usize {
            if tick % period == 0 && tick / period <= 3 {
                expected += 1;
            }
        }
        assert_eq!(fired.load(Ordering::SeqCst), expected, "after tick {}", tick);
    }
    assert_eq!(fired.load(Ordering::SeqCst), 15);
}

#[test]
fn a_task_put_into_the_slot_being_swept_waits_for_the_next_turn() {
    let mut wheel = MultiWheel::new(1, 10, UNIT);
    let handle = wheel.add_handle();
    for _ in 0..5 {
        wheel.tick();
    }
    let fired = counter();
    let seen = fired.clone();
    handle
        .add(
            move || {
                seen.fetch_add(1, Ordering::SeqCst);
            },
            5 * UNIT,
        )
        .unwrap();
    for _ in 0..14 {
        wheel.tick();
        assert_eq!(fired.load(Ordering::SeqCst), 0);
    }
    wheel.tick();
    assert_eq!(fired.load(Ordering::SeqCst), 1);
}

#[test]
fn rounds_are_waited_through_at_the_top() {
    let mut wheel = MultiWheel::new(2, 3, UNIT);
    let handle = wheel.add_handle();
    let fired = counter();
    let seen = fired.clone();
    handle
        .add(
            move || {
                seen.fetch_add(1, Ordering::SeqCst);
            },
            23 * UNIT,
        )
        .unwrap();
    for _ in 0..22 {
        wheel.tick();
        assert_eq!(fired.load(Ordering::SeqCst), 0);
    }
    wheel.tick();
    assert_eq!(fired.load(Ordering::SeqCst), 1);
}

#[test]
fn a_tick_turns_the_layers_like_a_counter() {
    let mut wheel = MultiWheel::new(3, 3, UNIT);
    for tick in 1..=60usize {
        wheel.tick();
        assert_eq!(wheel.index(0), Some(tick % 3));
        assert_eq!(wheel.index(1), Some(tick / 3 % 3));
        assert_eq!(wheel.index(2), Some(tick / 9 % 3));
    }
}

#[test]
fn a_submission_is_not_seen_before_the_next_tick() {
    let mut wheel = MultiWheel::new(2, 10, UNIT);
    let handle = wheel.add_handle();
    handle.add(|| {}, 4 * UNIT).unwrap();
    assert_eq!(wheel.waiting(0, 4), Some(0));
    wheel.tick();
    assert_eq!(wheel.waiting(0, 4), Some(1));
}

#[test]
fn tasks_of_one_slot_all_run_in_the_same_tick() {
    let mut wheel = MultiWheel::new(2, 10, UNIT);
    let handle = wheel.add_handle();
    let fired = counter();
    for _ in 0..6 {
        let seen = fired.clone();
        handle
            .add(
                move || {
                    seen.fetch_add(1, Ordering::SeqCst);
                },
                20 * UNIT,
            )
            .unwrap();
    }
    for _ in 0..19 {
        wheel.tick();
    }
    assert_eq!(fired.load(Ordering::SeqCst), 0);
    wheel.tick();
    assert_eq!(fired.load(Ordering::SeqCst), 6);
}

#[test]
fn handles_know_their_wheel() {
    let one = MultiWheel::new(1, 4, UNIT);
    let other = MultiWheel::new(1, 4, UNIT);
    let first = one.add_handle();
    let second = one.add_handle();
    let copy = first.clone();
    let stranger = other.add_handle();
    assert!(first.same_wheel(&second));
    assert!(second.same_wheel(&first));
    assert!(first.same_wheel(&copy));
    assert!(copy.same_wheel(&second));
    assert!(first.same_wheel(&first));
    assert!(!first.same_wheel(&stranger));
    assert!(!stranger.same_wheel(&copy));
    assert!(stranger.same_wheel(&other.add_handle()));
}

#[test]
fn a_copied_handle_submits_to_the_same_wheel() {
    let mut wheel = MultiWheel::new(1, 10, UNIT);
    let mut other = MultiWheel::new(1, 10, UNIT);
    let copy = wheel.add_handle().clone();
    copy.add(|| {}, 2 * UNIT).unwrap();
    other.tick();
    assert_eq!(other.len(), 0);
    wheel.tick();
    assert_eq!(wheel.len(), 1);
    assert_eq!(wheel.waiting(0, 2), Some(1));
}

#[test]
fn the_context_persists_across_firings() {
    let mut wheel = MultiWheel::new(1, 10, UNIT);
    let handle = wheel.add_handle();
    let seen = Arc::new(std::sync::Mutex::new(Vec::new()));
    let shown = seen.clone();
    handle
        .add_with_ctx(
            move |values: &mut Vec<u32>| {
                shown.lock().unwrap().push(values.clone());
                values.push(values.len() as u32);
                if values.len() < 3 {
                    Behave::Repeat
                } else {
                    Behave::Cancel
                }
            },
            2 * UNIT,
            Vec::new(),
        )
        .unwrap();
    for tick in 1..=10usize {
        wheel.tick();
        assert_eq!(seen.lock().unwrap().len(), (tick / 2).min(3), "after tick {}", tick);
    }
    assert_eq!(*seen.lock().unwrap(), vec![vec![], vec![0], vec![0, 1]]);
    assert_eq!(wheel.len(), 0);
}

#[test]
fn a_counter_on_a_ring_of_two_slots_repeats_through_its_rounds() {
    let mut wheel = MultiWheel::new(1, 2, UNIT);
    let count = counter();
    let seen = count.clone();
    wheel.add_task(
        wheel_timer::boxed(
            move |runs: &mut usize| {
                *runs += 1;
                seen.store(*runs, Ordering::SeqCst);
                Behave::Repeat
            },
            (0usize,),
        ),
        3 * UNIT,
    );
    let mut ran = Vec::new();
    for _ in 0..8 {
        let due = wheel.roll(0);
        ran.push(due.len());
        for mut task in due {
            let behave = task.cb.call();
            wheel.settle(task, behave);
        }
    }
    assert_eq!(ran, vec![0, 0, 1, 0, 0, 0, 0, 1]);
    assert_eq!(count.load(Ordering::SeqCst), 2);
}
