use crabsplit::store::{Task, TaskProgress};
use crabsplit::time::Timestamp;

fn ts(secs: u64, nanos: u32) -> Timestamp {
    Timestamp { secs, nanos }
}

#[test]
fn interval_shows_local_times_of_day() {
    // 1970-01-01 00:00 and 01:00 UTC are 02:00 and 03:00 in Istanbul.
    let p = TaskProgress { start: ts(0, 0), end: ts(3_600, 0) };
    assert_eq!(p.display_text(), "2:0 - 3:0");
}

#[test]
fn interval_display_is_unpadded() {
    // 2023-11-14 22:13:20 UTC is 01:13 in Istanbul (UTC+3).
    let p = TaskProgress { start: ts(1_700_000_000, 0), end: ts(1_700_000_000 + 60, 0) };
    assert_eq!(p.display_text(), "1:13 - 1:14");
}

#[test]
fn task_display_lists_name_then_sessions() {
    let task = Task {
        name: "A".to_string(),
        progress: vec![
            TaskProgress { start: ts(0, 0), end: ts(3_600, 0) },
            TaskProgress { start: ts(7_200, 0), end: ts(7_260, 0) },
        ],
        started_at: None,
    };
    assert_eq!(task.display_text(), "A\n  2:0 - 3:0\n  4:0 - 4:1\n");
}

#[test]
fn task_display_of_an_idle_task_is_just_the_name() {
    let task = Task { name: "quiet".to_string(), progress: vec![], started_at: None };
    assert_eq!(task.display_text(), "quiet\n");
}
