use algokit::runner::{is_check_round, reached, TaskRunner, Timer};
use std::cell::Cell;

#[test]
fn lib_task_loop_while() {
    let runner = TaskRunner::new(100, 20, 1);

    let i = Cell::new(0usize);
    let f = || i.set(i.get() + 1);

    let looped = runner.run_while(f, 100);
    assert_eq!(looped, i.get());
}

#[test]
fn runner_task_loop_while() {
    let runner = TaskRunner::with_timer(Timer::new(), 100, 20, 1);

    let i = Cell::new(0usize);
    let f = || i.set(i.get() + 1);

    let looped = runner.run_while(f, 100);
    assert_eq!(looped, i.get());
}

#[test]
fn run_for_counts_its_calls() {
    let runner = TaskRunner::new(100, 20, 1);
    let i = Cell::new(0usize);
    let looped = runner.run_for(|| i.set(i.get() + 1), 100);
    assert_eq!(looped, 100);
    assert_eq!(i.get(), 100);
}

#[test]
fn a_fresh_timer_has_passed_zero_milliseconds_only() {
    let timer = Timer::new();
    assert!(timer.is_passed(0));
    assert!(!timer.is_passed(1_000_000));
    assert!(timer.duration_as_millis() < 1_000_000);
    let runner = TaskRunner::new(1_000_000, 20, 1);
    assert!(!runner.should_exit());
    assert_eq!(runner.deadline(), 999_980);
}

#[test]
fn reached_compares_with_the_elapsed_time() {
    assert!(reached(5, 5));
    assert!(reached(5, 6));
    assert!(!reached(6, 5));
    assert!(is_check_round(0, 3));
    assert!(!is_check_round(4, 3));
    assert!(is_check_round(6, 3));
}
