//! Laws of the task store, stated over the ghost model and proved once
//! for all states: how adding behaves, what a start/stop cycle leaves
//! behind, additivity of elapsed time, when advancing is possible, and
//! that removing a running task keeps its time.
use crate::store::{
    add_task_m, advance_m, can_advance_m, can_start_m, can_stop_m, progress_nanos, remove_m,
    start_m, stop_m, store_m_inv, task_elapsed_nanos, whole_secs, IntervalM, StoreM, TaskM,
};
use crate::text::trimmed;
use vstd::prelude::*;

verus! {

/// Adding a task whose pending name trims to something non-empty grows the
/// task list by exactly one — the new task at the end, empty, with the
/// trimmed name — and leaves the selection and the running flag unchanged.
pub proof fn lemma_add_task_appends(s: StoreM)
    requires
        trimmed(s.task_name).len() > 0,
    ensures
        add_task_m(s).tasks.len() == s.tasks.len() + 1,
        add_task_m(s).tasks[s.tasks.len() as int] == (TaskM {
            name: trimmed(s.task_name),
            progress: Seq::<IntervalM>::empty(),
            started_at: None,
        }),
        forall|i: int| 0 <= i < s.tasks.len() ==> add_task_m(s).tasks[i] == s.tasks[i],
        add_task_m(s).current_task == s.current_task,
        add_task_m(s).running == s.running,
{
}

/// Adding a task whose pending name is empty, or nothing but whitespace,
/// changes nothing at all.
pub proof fn lemma_add_task_blank_noop(s: StoreM)
    requires
        trimmed(s.task_name).len() == 0,
    ensures
        add_task_m(s) == s,
{
}

/// Starting and then stopping a task with no prior progress leaves exactly
/// one completed interval, whose length is the gap between the two
/// instants, and no session under way.
pub proof fn lemma_start_then_stop(s: StoreM, t1: int, t2: int)
    requires
        store_m_inv(s),
        can_start_m(s),
        s.tasks[s.current_task].progress.len() == 0,
        t1 <= t2,
    ensures
        can_stop_m(start_m(s, t1)),
        ({
            let t = stop_m(start_m(s, t1), t2).tasks[s.current_task];
            &&& t.progress.len() == 1
            &&& t.progress[0].end - t.progress[0].start == t2 - t1
            &&& t.started_at is None
        }),
        !stop_m(start_m(s, t1), t2).running,
{
}

/// Elapsed time is additive: after two start/stop cycles on a task that
/// had no prior progress, its elapsed time at any instant is the sum of
/// the two cycle lengths — exactly in nanoseconds, hence also after
/// truncation to whole seconds.
pub proof fn lemma_elapsed_additive(s: StoreM, t1: int, t2: int, t3: int, t4: int, now: int)
    requires
        store_m_inv(s),
        can_start_m(s),
        s.tasks[s.current_task].progress.len() == 0,
        t1 <= t2,
        t3 <= t4,
    ensures
        ({
            let t = stop_m(start_m(stop_m(start_m(s, t1), t2), t3), t4).tasks[s.current_task];
            &&& t.started_at is None
            &&& task_elapsed_nanos(t, now) == (t2 - t1) + (t4 - t3)
            &&& whole_secs(task_elapsed_nanos(t, now)) == whole_secs((t2 - t1) + (t4 - t3))
        }),
{
    let t = stop_m(start_m(stop_m(start_m(s, t1), t2), t3), t4).tasks[s.current_task];
    let a = IntervalM { start: t1, end: t2 };
    let b = IntervalM { start: t3, end: t4 };
    assert(t.progress =~= seq![a, b]);
    assert(seq![a, b].drop_last() =~= seq![a]);
    assert(seq![a].drop_last() =~= Seq::<IntervalM>::empty());
    assert(progress_nanos(Seq::<IntervalM>::empty()) == 0);
    assert(progress_nanos(seq![a]) == t2 - t1);
    assert(progress_nanos(seq![a, b]) == (t2 - t1) + (t4 - t3));
}

/// Advancing is possible exactly when there are at least two tasks, the
/// timer is stopped, and the current task is not the last one.
pub proof fn lemma_can_advance_exactly(s: StoreM)
    requires
        store_m_inv(s),
    ensures
        can_advance_m(s) <==> !(s.tasks.len() <= 1 || s.running || s.current_task == s.tasks.len()
            - 1),
        can_advance_m(s) ==> advance_m(s).current_task == s.current_task + 1,
{
}

/// Removing the task that is currently running stops it first: the
/// returned task carries the interval that was under way, and its elapsed
/// time at the instant of removal is exactly what the live task had
/// accumulated — nothing is discarded.
pub proof fn lemma_remove_running_keeps_time(s: StoreM, now: int)
    requires
        store_m_inv(s),
        s.running,
        s.tasks[s.current_task].started_at->Some_0 <= now,
    ensures
        ({
            let removed = remove_m(s, s.current_task, now).1;
            let live = s.tasks[s.current_task];
            &&& removed.progress == live.progress.push(
                IntervalM { start: live.started_at->Some_0, end: now },
            )
            &&& removed.started_at is None
            &&& task_elapsed_nanos(removed, now) == task_elapsed_nanos(live, now)
        }),
        !remove_m(s, s.current_task, now).0.running,
{
    let removed = remove_m(s, s.current_task, now).1;
    let live = s.tasks[s.current_task];
    let iv = IntervalM { start: live.started_at->Some_0, end: now };
    assert(live.progress.push(iv).drop_last() =~= live.progress);
    assert(progress_nanos(removed.progress) == progress_nanos(live.progress) + (now
        - live.started_at->Some_0));
}

} // verus!
