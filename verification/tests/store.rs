use crabsplit::store::{format_duration, CrabSplit, Task, TaskProgress};
use crabsplit::time::{Duration, Timestamp};

fn ts(secs: u64, nanos: u32) -> Timestamp {
    Timestamp { secs, nanos }
}

fn store_with(names: &[&str]) -> CrabSplit {
    let mut store = CrabSplit::new(None);
    for name in names {
        store.task_name = name.to_string();
        store.add_task();
    }
    store
}

#[test]
fn add_task_appends_and_leaves_selection_alone() {
    let mut store = store_with(&["A"]);
    store.next_task(); // rejected: only one task
    assert_eq!(store.current_task, 0);
    store.task_name = "B".to_string();
    store.add_task();
    assert_eq!(store.tasks.len(), 2);
    assert_eq!(store.tasks[1].name, "B");
    assert_eq!(store.current_task, 0);
    assert!(!store.running);
    assert_eq!(store.task_name, "");
    assert!(store.tasks[1].progress.is_empty());
    assert!(store.tasks[1].started_at.is_none());
}

#[test]
fn add_task_trims_the_pending_name() {
    let mut store = store_with(&["  padded name \t"]);
    assert_eq!(store.tasks.len(), 1);
    assert_eq!(store.tasks[0].name, "padded name");
}

#[test]
fn add_task_blank_is_a_no_op() {
    let mut store = store_with(&["A"]);
    store.task_name = String::new();
    store.add_task();
    assert_eq!(store.tasks.len(), 1);
    store.task_name = "   ".to_string();
    store.add_task();
    assert_eq!(store.tasks.len(), 1);
    // the whitespace-only buffer is left alone
    assert_eq!(store.task_name, "   ");
}

#[test]
fn start_then_stop_records_one_interval() {
    let mut store = store_with(&["A"]);
    store.start(ts(100, 0));
    assert!(store.running);
    assert!(store.tasks[0].started_at.is_some());
    store.stop(ts(160, 0));
    assert!(!store.running);
    assert!(store.tasks[0].started_at.is_none());
    assert_eq!(store.tasks[0].progress.len(), 1);
    let p = store.tasks[0].progress[0];
    assert_eq!(p.start, ts(100, 0));
    assert_eq!(p.end, ts(160, 0));
    assert_eq!(p.end.secs - p.start.secs, 60);
}

#[test]
fn start_needs_a_task_and_stop_needs_running() {
    let mut store = CrabSplit::new(None);
    assert!(!store.start_enabled());
    store.start(ts(5, 0)); // rejected: nothing to start
    assert!(!store.running);
    assert!(!store.stop_enabled());
    store.stop(ts(6, 0)); // rejected: not running
    assert!(!store.running);

    store.task_name = "A".to_string();
    store.add_task();
    assert!(store.start_enabled());
    store.start(ts(7, 0));
    assert!(store.stop_enabled());
    assert!(!store.start_enabled());
    store.start(ts(8, 0)); // rejected: already running
    assert_eq!(store.tasks[0].started_at, Some(ts(7, 0)));
}

#[test]
fn elapsed_is_additive_over_two_cycles() {
    let mut store = store_with(&["A"]);
    store.start(ts(100, 0));
    store.stop(ts(130, 0));
    store.start(ts(200, 0));
    store.stop(ts(245, 0));
    let elapsed = CrabSplit::calculate_task_elapsed(&store.tasks[0], ts(300, 0));
    assert_eq!(elapsed, Duration { secs: 75, nanos: 0 });
}

#[test]
fn elapsed_truncates_only_the_total() {
    let mut store = store_with(&["A"]);
    // 10.5 s and 10.7 s make 21.2 s, which truncates to 21 s.
    store.start(ts(0, 500_000_000));
    store.stop(ts(11, 0));
    store.start(ts(20, 0));
    store.stop(ts(30, 700_000_000));
    let elapsed = CrabSplit::calculate_task_elapsed(&store.tasks[0], ts(40, 0));
    assert_eq!(elapsed, Duration { secs: 21, nanos: 0 });
}

#[test]
fn elapsed_counts_the_session_under_way() {
    let mut store = store_with(&["A"]);
    store.start(ts(100, 0));
    let elapsed = CrabSplit::calculate_task_elapsed(&store.tasks[0], ts(103, 500_000_000));
    assert_eq!(elapsed, Duration { secs: 3, nanos: 0 });
}

#[test]
fn total_elapsed_sums_truncated_task_times() {
    let mut store = store_with(&["A", "B"]);
    // task A: 1.6 s -> 1 s; task B: 1.7 s -> 1 s; total 2 s, not 3 s.
    store.start(ts(0, 0));
    store.stop(ts(1, 600_000_000));
    store.next_task();
    store.start(ts(10, 0));
    store.stop(ts(11, 700_000_000));
    let total = store.calculate_total_elapsed(ts(20, 0));
    assert_eq!(total, Duration { secs: 2, nanos: 0 });
}

#[test]
fn truncate_duration_drops_the_subsecond_part() {
    let d = Duration { secs: 5, nanos: 999_999_999 };
    assert_eq!(CrabSplit::truncate_duration(d), Duration { secs: 5, nanos: 0 });
}

#[test]
fn duration_since_borrows_across_the_second() {
    let a = ts(9, 999_999_999);
    let b = ts(10, 2);
    let d = b.duration_since(&a);
    assert_eq!(d, Duration { secs: 0, nanos: 3 });
}

#[test]
fn duration_add_carries() {
    let d = Duration { secs: 1, nanos: 600_000_000 }.add(Duration { secs: 2, nanos: 500_000_000 });
    assert_eq!(d, Duration { secs: 4, nanos: 100_000_000 });
}

#[test]
fn next_task_enabled_exactly_when_another_task_waits() {
    let mut store = CrabSplit::new(None);
    assert!(!store.next_task_enabled()); // no tasks
    store.task_name = "A".to_string();
    store.add_task();
    assert!(!store.next_task_enabled()); // one task
    store.task_name = "B".to_string();
    store.add_task();
    assert!(store.next_task_enabled());
    store.start(ts(1, 0));
    assert!(!store.next_task_enabled()); // running
    store.stop(ts(2, 0));
    store.next_task();
    assert_eq!(store.current_task, 1);
    assert!(!store.next_task_enabled()); // already on the last task
    store.next_task(); // rejected
    assert_eq!(store.current_task, 1);
}

#[test]
fn scenario_advance_rejected_while_running() {
    let mut store = store_with(&["A", "B"]);
    store.start(ts(100, 0));
    store.next_task(); // rejected: running
    assert_eq!(store.current_task, 0);
    store.stop(ts(110, 0));
    store.next_task();
    assert_eq!(store.current_task, 1);
    assert_eq!(store.tasks[store.current_task].name, "B");
}

#[test]
fn removing_the_running_task_stops_it_first() {
    let mut store = store_with(&["A", "B"]);
    store.start(ts(100, 0));
    let removed = store.remove_task(0, ts(142, 0));
    assert_eq!(removed.name, "A");
    assert_eq!(removed.progress.len(), 1);
    assert_eq!(removed.progress[0].start, ts(100, 0));
    assert_eq!(removed.progress[0].end, ts(142, 0));
    assert!(removed.started_at.is_none());
    let kept = CrabSplit::calculate_task_elapsed(&removed, ts(142, 0));
    assert_eq!(kept, Duration { secs: 42, nanos: 0 });
    assert!(!store.running);
    assert_eq!(store.tasks.len(), 1);
    assert_eq!(store.tasks[0].name, "B");
    assert_eq!(store.current_task, 0);
}

#[test]
fn removing_before_the_current_task_shifts_the_index() {
    let mut store = store_with(&["A", "B", "C"]);
    store.next_task();
    store.next_task();
    assert_eq!(store.current_task, 2);
    let removed = store.remove_task(0, ts(1, 0));
    assert_eq!(removed.name, "A");
    assert_eq!(store.current_task, 1);
    assert_eq!(store.tasks[store.current_task].name, "C");
}

#[test]
fn removing_after_the_current_task_keeps_the_index() {
    let mut store = store_with(&["A", "B"]);
    let removed = store.remove_task(1, ts(1, 0));
    assert_eq!(removed.name, "B");
    assert_eq!(store.current_task, 0);
    assert_eq!(store.tasks.len(), 1);
}

#[test]
fn removing_the_last_task_empties_the_store() {
    let mut store = store_with(&["A"]);
    let removed = store.remove_task(0, ts(1, 0));
    assert_eq!(removed.name, "A");
    assert!(store.tasks.is_empty());
    assert_eq!(store.current_task, 0);
    assert!(!store.running);
}

#[test]
fn new_takes_over_loaded_tasks() {
    let tasks = vec![Task {
        name: "A".to_string(),
        progress: vec![TaskProgress { start: ts(1, 0), end: ts(2, 0) }],
        started_at: None,
    }];
    let store = CrabSplit::new(Some(tasks));
    assert_eq!(store.tasks.len(), 1);
    assert_eq!(store.tasks[0].name, "A");
    assert_eq!(store.current_task, 0);
    assert!(!store.running);
}

#[test]
fn format_duration_shows_minutes_and_seconds() {
    assert_eq!(format_duration(&Duration { secs: 125, nanos: 0 }), "2:5");
    assert_eq!(format_duration(&Duration { secs: 59, nanos: 0 }), "0:59");
    assert_eq!(format_duration(&Duration { secs: 60, nanos: 0 }), "1:0");
    assert_eq!(format_duration(&Duration { secs: 0, nanos: 0 }), "0:0");
}
