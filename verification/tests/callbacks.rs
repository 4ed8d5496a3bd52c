use std::sync::atomic::{AtomicUsize, Ordering};
use std::sync::Arc;
use std::time::Duration;
use wheel_timer::{boxed, run_on, Behave, Callback, Submission};

#[test]
fn no_result_means_cancel() {
    assert!(matches!(Behave::from(()), Behave::Cancel));
    let nothing = || {};
    assert!(matches!(Callback::call(&nothing, &mut ()), Behave::Cancel));
}

#[test]
fn a_duration_means_change() {
    let delay = Duration::from_millis(250);
    assert!(matches!(Behave::from(delay), Behave::Change(d) if d == delay));
    let later = move || delay;
    assert!(matches!(Callback::call(&later, &mut ()), Behave::Change(d) if d == delay));
}

#[test]
fn repeat_is_said_in_so_many_words() {
    let again = || Behave::Repeat;
    assert!(matches!(Callback::call(&again, &mut ()), Behave::Repeat));
    let stop = || Behave::Cancel;
    assert!(matches!(Callback::call(&stop, &mut ()), Behave::Cancel));
}

#[test]
fn a_callback_runs_on_its_context() {
    let count = |runs: &mut u32| {
        *runs += 1;
        if *runs < 3 {
            Behave::Repeat
        } else {
            Behave::Cancel
        }
    };
    let mut context = (0u32,);
    assert!(matches!(Callback::call(&count, &mut context), Behave::Repeat));
    assert_eq!(context.0, 1);
    assert!(matches!(Callback::call(&count, &mut context), Behave::Repeat));
    assert!(matches!(Callback::call(&count, &mut context), Behave::Cancel));
    assert_eq!(context.0, 3);
}

#[test]
fn a_boxed_callback_keeps_its_context_between_runs() {
    let seen = Arc::new(AtomicUsize::new(0));
    let shown = seen.clone();
    let mut erased = boxed(
        move |total: &mut usize| {
            *total += 10;
            shown.store(*total, Ordering::SeqCst);
            Behave::Repeat
        },
        (5usize,),
    );
    assert!(matches!(erased.call(), Behave::Repeat));
    assert_eq!(seen.load(Ordering::SeqCst), 15);
    assert!(matches!(erased.call(), Behave::Repeat));
    assert_eq!(seen.load(Ordering::SeqCst), 25);
}

#[test]
fn callbacks_of_different_shapes_share_one_type() {
    let seen = Arc::new(AtomicUsize::new(0));
    let first = seen.clone();
    let second = seen.clone();
    let mut all = vec![
        boxed(
            move || {
                first.fetch_add(1, Ordering::SeqCst);
            },
            (),
        ),
        boxed(
            move |step: &mut usize| {
                second.fetch_add(*step, Ordering::SeqCst);
                Duration::from_secs(1)
            },
            (100usize,),
        ),
        boxed(|text: &mut String| text.push('x'), (String::new(),)),
    ];
    assert!(matches!(all[0].call(), Behave::Cancel));
    assert!(matches!(all[1].call(), Behave::Change(_)));
    assert!(matches!(all[2].call(), Behave::Cancel));
    assert_eq!(seen.load(Ordering::SeqCst), 101);
}

#[test]
fn a_submission_holds_the_callback_and_the_delay() {
    let delay = Duration::from_millis(1500);
    let seen = Arc::new(AtomicUsize::new(0));
    let shown = seen.clone();
    let mut submission = Submission::new(
        move |step: &mut usize| {
            shown.fetch_add(*step, Ordering::SeqCst);
            *step += 1;
            Behave::Repeat
        },
        delay,
        (3usize,),
    );
    assert_eq!(submission.dur, delay);
    assert!(matches!(submission.cb.call(), Behave::Repeat));
    assert_eq!(seen.load(Ordering::SeqCst), 3);
    assert!(matches!(submission.cb.call(), Behave::Repeat));
    assert_eq!(seen.load(Ordering::SeqCst), 7);
    let mut plain = Submission::new(|| {}, delay, ());
    assert!(matches!(plain.cb.call(), Behave::Cancel));
}

#[test]
fn a_run_hands_the_context_back_as_it_left_it() {
    let count = |runs: &mut Vec<u32>| {
        runs.push(runs.len() as u32);
        if runs.len() < 3 {
            Behave::Repeat
        } else {
            Behave::Cancel
        }
    };
    let (first, said) = Callback::run(&count, (Vec::new(),));
    assert_eq!(first.0, vec![0]);
    assert!(matches!(said, Behave::Repeat));
    let (second, said) = Callback::run(&count, first);
    assert_eq!(second.0, vec![0, 1]);
    assert!(matches!(said, Behave::Repeat));
    let (third, said) = Callback::run(&count, second);
    assert_eq!(third.0, vec![0, 1, 2]);
    assert!(matches!(said, Behave::Cancel));
    let nothing = || {};
    let ((), said) = Callback::run(&nothing, ());
    assert!(matches!(said, Behave::Cancel));
}

#[test]
fn a_closure_runs_on_a_context_of_its_own() {
    let double = |value: &mut u64| {
        *value *= 2;
        *value + 1
    };
    assert_eq!(run_on(&double, 4), (8, 9));
    assert_eq!(run_on(&double, 0), (0, 1));
    let rename = |name: &mut String| name.push('!');
    assert_eq!(run_on(&rename, String::from("tick")), (String::from("tick!"), ()));
}
