use crabsplit::snapshot::{load, save};
use crabsplit::store::{CrabSplit, Task, TaskProgress};
use crabsplit::time::Timestamp;

fn ts(secs: u64, nanos: u32) -> Timestamp {
    Timestamp { secs, nanos }
}

fn task(name: &str, progress: Vec<TaskProgress>) -> Task {
    Task { name: name.to_string(), progress, started_at: None }
}

#[test]
fn save_writes_the_documented_format() {
    let tasks = vec![task("A", vec![TaskProgress { start: ts(1, 0), end: ts(2, 500_000_000) }])];
    assert_eq!(save(&tasks), "1\n1\nA\n1\n1 0 2 500000000\n");
}

#[test]
fn save_of_nothing_is_just_the_count() {
    assert_eq!(save(&Vec::new()), "0\n");
}

#[test]
fn load_reads_back_what_save_wrote() {
    let tasks = vec![
        task(
            "write report",
            vec![
                TaskProgress { start: ts(100, 1), end: ts(160, 999_999_999) },
                TaskProgress { start: ts(200, 0), end: ts(260, 0) },
            ],
        ),
        task("3 reviews\nwith a second line", vec![]),
    ];
    let text = save(&tasks);
    let back = load(&text).expect("snapshot should read back");
    assert_eq!(back.len(), 2);
    assert_eq!(back[0].name, tasks[0].name);
    assert_eq!(back[0].progress, tasks[0].progress);
    assert!(back[0].started_at.is_none());
    assert_eq!(back[1].name, tasks[1].name);
    assert!(back[1].progress.is_empty());
}

#[test]
fn a_session_under_way_is_not_persisted() {
    let mut store = CrabSplit::new(None);
    store.task_name = "A".to_string();
    store.add_task();
    store.start(ts(10, 0));
    store.stop(ts(20, 0));
    store.start(ts(30, 0)); // still running when saved
    let text = save(&store.tasks);
    let back = load(&text).expect("snapshot should read back");
    assert_eq!(back[0].progress.len(), 1);
    assert!(back[0].started_at.is_none());
}

#[test]
fn load_of_an_empty_snapshot_is_an_empty_list() {
    let back = load("0\n").expect("empty snapshot should read back");
    assert!(back.is_empty());
}

#[test]
fn load_rejects_text_that_is_no_snapshot() {
    assert!(load("").is_none());
    assert!(load("x").is_none());
    assert!(load("1\n").is_none());
    assert!(load("2\n1\nA\n0\n").is_none()); // promises two tasks, holds one
}

#[test]
fn load_rejects_trailing_text() {
    assert!(load("0\nleftover").is_none());
}

#[test]
fn load_rejects_bad_names() {
    assert!(load("1\n0\n\n0\n").is_none()); // empty name
    assert!(load("1\n2\n a\n0\n").is_none()); // name starts with a space
    assert!(load("1\n2\na \n0\n").is_none()); // name ends with a space
}

#[test]
fn load_rejects_bad_intervals() {
    // nanoseconds reaching a full second
    assert!(load("1\n1\nA\n1\n1 1000000000 2 0\n").is_none());
    // an interval that ends before it starts
    assert!(load("1\n1\nA\n1\n5 0 4 0\n").is_none());
    // a missing field
    assert!(load("1\n1\nA\n1\n1 0 2\n").is_none());
}

#[test]
fn load_rejects_numbers_beyond_range() {
    // seconds just past u64
    assert!(load("1\n1\nA\n1\n18446744073709551616 0 18446744073709551616 0\n").is_none());
}
