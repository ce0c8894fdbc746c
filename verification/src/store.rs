//! The task store: an ordered list of named tasks, a current-task index,
//! a single running timer, and duration accounting.
//!
//! The store is modelled by the ghost type [`StoreM`]; every operation's
//! contract states the new state as a function of the old one.
use crate::text::{dec_digits, is_trimmed, render_u64, trim_chars, trimmed};
use crate::time::{dur_max_nanos, dur_wf, ts_wf, Duration, Timestamp, NANOS_PER_SEC};
use vstd::prelude::*;
use vstd::seq_lib::*;
use vstd::string::StringExecFns;

verus! {

/// One completed work session: a closed time interval.
#[derive(Clone, Copy, PartialEq, Eq, Structural, Debug)]
pub struct TaskProgress {
    pub start: Timestamp,
    pub end: Timestamp,
}

/// A named unit of work with its completed sessions and, while it is the
/// running one, the instant its current session began.
pub struct Task {
    pub name: String,
    pub progress: Vec<TaskProgress>,
    pub started_at: Option<Timestamp>,
}

/// The whole application state: tasks in insertion order, the index of the
/// current task, the pending name input, and the running flag.
pub struct CrabSplit {
    pub current_task: usize,
    pub task_name: String,
    pub tasks: Vec<Task>,
    pub running: bool,
}

/// Model of one completed interval, in nanoseconds since the epoch.
#[verifier::ext_equal]
pub ghost struct IntervalM {
    pub start: int,
    pub end: int,
}

/// Model of a task.
#[verifier::ext_equal]
pub ghost struct TaskM {
    pub name: Seq<char>,
    pub progress: Seq<IntervalM>,
    pub started_at: Option<int>,
}

/// Model of the whole store.
#[verifier::ext_equal]
pub ghost struct StoreM {
    pub current_task: int,
    pub task_name: Seq<char>,
    pub tasks: Seq<TaskM>,
    pub running: bool,
}

impl View for TaskProgress {
    type V = IntervalM;

    open spec fn view(&self) -> IntervalM {
        IntervalM { start: self.start@, end: self.end@ }
    }
}

impl View for Task {
    type V = TaskM;

    open spec fn view(&self) -> TaskM {
        TaskM {
            name: self.name@,
            progress: self.progress@.map_values(|p: TaskProgress| p@),
            started_at: match self.started_at {
                Some(t) => Some(t@),
                None => None,
            },
        }
    }
}

impl View for CrabSplit {
    type V = StoreM;

    open spec fn view(&self) -> StoreM {
        StoreM {
            current_task: self.current_task as int,
            task_name: self.task_name@,
            tasks: self.tasks@.map_values(|t: Task| t@),
            running: self.running,
        }
    }
}

/// Model invariant of a task: a non-empty trimmed name and well-ordered,
/// non-negative intervals.
pub open spec fn task_m_inv(t: TaskM) -> bool {
    &&& t.name.len() > 0
    &&& is_trimmed(t.name)
    &&& forall|i: int|
        0 <= i < t.progress.len() ==> 0 <= (#[trigger] t.progress[i]).start <= t.progress[i].end
    &&& t.started_at is Some ==> t.started_at->Some_0 >= 0
}

/// Model invariant of the store: every task is valid, the current index is
/// in range whenever it can be, exactly the current task of a running store
/// has a session under way, and no task of a stopped store has one.
pub open spec fn store_m_inv(s: StoreM) -> bool {
    &&& forall|i: int| 0 <= i < s.tasks.len() ==> task_m_inv(#[trigger] s.tasks[i])
    &&& s.tasks.len() == 0 ==> s.current_task == 0
    &&& s.tasks.len() > 0 ==> 0 <= s.current_task < s.tasks.len()
    &&& s.running ==> s.tasks.len() > 0 && s.tasks[s.current_task].started_at is Some
    &&& forall|i: int|
        0 <= i < s.tasks.len() && (i != s.current_task || !s.running) ==> (
        #[trigger] s.tasks[i].started_at) is None
}

/// Representation invariant: every sub-second part is below one second.
pub open spec fn task_rep_wf(t: Task) -> bool {
    &&& forall|i: int|
        0 <= i < t.progress.len() ==> ts_wf(#[trigger] t.progress[i].start) && ts_wf(
            t.progress[i].end,
        )
    &&& match t.started_at {
        Some(ts) => ts_wf(ts),
        None => true,
    }
}

/// A task that is valid both as a value and as a model.
pub open spec fn task_wf(t: Task) -> bool {
    task_rep_wf(t) && task_m_inv(t@)
}

/// A store that is valid both as a value and as a model.
pub open spec fn store_wf(s: CrabSplit) -> bool {
    &&& forall|i: int| 0 <= i < s.tasks.len() ==> task_rep_wf(#[trigger] s.tasks[i])
    &&& store_m_inv(s@)
}

/// The start button is enabled: stopped, and there is a task to start.
pub open spec fn can_start_m(s: StoreM) -> bool {
    !s.running && s.tasks.len() > 0
}

/// The stop button is enabled: a session is running.
pub open spec fn can_stop_m(s: StoreM) -> bool {
    s.running
}

/// The next-task button is enabled: stopped, and the current task is not
/// the last one.
pub open spec fn can_advance_m(s: StoreM) -> bool {
    !s.running && s.tasks.len() > 0 && s.current_task < s.tasks.len() - 1
}

/// Adding a task: a no-op when the pending name trims to nothing; otherwise
/// the trimmed name is appended as a fresh task and the input is cleared.
pub open spec fn add_task_m(s: StoreM) -> StoreM {
    let nm = trimmed(s.task_name);
    if nm.len() == 0 {
        s
    } else {
        StoreM {
            task_name: Seq::<char>::empty(),
            tasks: s.tasks.push(TaskM { name: nm, progress: Seq::empty(), started_at: None }),
            ..s
        }
    }
}

/// Advancing: the current index moves forward by one.
pub open spec fn advance_m(s: StoreM) -> StoreM {
    StoreM { current_task: s.current_task + 1, ..s }
}

/// Starting: the store runs and the current task's session begins at `now`.
pub open spec fn start_m(s: StoreM, now: int) -> StoreM {
    let t = s.tasks[s.current_task];
    StoreM {
        running: true,
        tasks: s.tasks.update(s.current_task, TaskM { started_at: Some(now), ..t }),
        ..s
    }
}

/// Stopping: the running session becomes a completed interval ending at
/// `now`, appended to the current task, and the store stops.
pub open spec fn stop_m(s: StoreM, now: int) -> StoreM {
    let t = s.tasks[s.current_task];
    let t2 = TaskM {
        name: t.name,
        progress: t.progress.push(IntervalM { start: t.started_at->Some_0, end: now }),
        started_at: None,
    };
    StoreM { running: false, tasks: s.tasks.update(s.current_task, t2), ..s }
}

/// Removing: if the removed task is the running one it is stopped first,
/// so its in-progress time is kept on the removed task; then the task
/// leaves the list and the current index is adjusted to stay sensible.
pub open spec fn remove_m(s: StoreM, index: int, now: int) -> (StoreM, TaskM) {
    let s1 = if s.running && index == s.current_task {
        stop_m(s, now)
    } else {
        s
    };
    let removed = s1.tasks[index];
    let new_current = if index <= s.current_task && s.current_task > 0 {
        s.current_task - 1
    } else {
        s.current_task
    };
    (StoreM { current_task: new_current, tasks: s1.tasks.remove(index), ..s1 }, removed)
}

/// Exact elapsed nanoseconds of a sequence of completed intervals.
pub open spec fn progress_nanos(ps: Seq<IntervalM>) -> int
    decreases ps.len(),
{
    if ps.len() == 0 {
        0
    } else {
        progress_nanos(ps.drop_last()) + (ps.last().end - ps.last().start)
    }
}

/// Exact elapsed nanoseconds of a task at instant `now`: all completed
/// intervals, plus the session under way, if any.
pub open spec fn task_elapsed_nanos(t: TaskM, now: int) -> int {
    progress_nanos(t.progress) + match t.started_at {
        Some(st) => now - st,
        None => 0,
    }
}

/// Whole seconds of a nanosecond count, sub-second part discarded.
pub open spec fn whole_secs(nanos: int) -> int {
    nanos / (NANOS_PER_SEC as int)
}

/// The inputs on which a task's elapsed time is defined and representable:
/// `now` does not precede the running session's start, and the sum fits.
pub open spec fn elapsed_pre(t: TaskM, now: int) -> bool {
    &&& t.started_at is Some ==> t.started_at->Some_0 <= now
    &&& task_elapsed_nanos(t, now) <= dur_max_nanos()
}

/// Truncated elapsed seconds, summed over a sequence of tasks.
pub open spec fn tasks_elapsed_secs(tasks: Seq<TaskM>, now: int) -> int
    decreases tasks.len(),
{
    if tasks.len() == 0 {
        0
    } else {
        tasks_elapsed_secs(tasks.drop_last(), now) + whole_secs(
            task_elapsed_nanos(tasks.last(), now),
        )
    }
}

/// The inputs on which the store's total elapsed time is defined and
/// representable.
pub open spec fn total_elapsed_pre(s: StoreM, now: int) -> bool {
    &&& forall|i: int| 0 <= i < s.tasks.len() ==> elapsed_pre(#[trigger] s.tasks[i], now)
    &&& tasks_elapsed_secs(s.tasks, now) <= u64::MAX
}

/// Display form of a duration: whole minutes, a colon, leftover seconds.
pub open spec fn duration_display(secs: nat) -> Seq<char> {
    dec_digits(secs / 60) + seq![':'] + dec_digits(secs % 60)
}

proof fn lemma_progress_nanos_nonneg(ps: Seq<IntervalM>)
    requires
        forall|i: int| 0 <= i < ps.len() ==> #[trigger] ps[i].start <= ps[i].end,
    ensures
        progress_nanos(ps) >= 0,
    decreases ps.len(),
{
    if ps.len() > 0 {
        lemma_progress_nanos_nonneg(ps.drop_last());
    }
}

proof fn lemma_progress_nanos_prefix(ps: Seq<IntervalM>, j: int)
    requires
        forall|i: int| 0 <= i < ps.len() ==> #[trigger] ps[i].start <= ps[i].end,
        0 <= j <= ps.len(),
    ensures
        progress_nanos(ps.take(j)) <= progress_nanos(ps),
        progress_nanos(ps.take(j)) >= 0,
    decreases ps.len(),
{
    lemma_progress_nanos_nonneg(ps.take(j));
    if j == ps.len() {
        assert(ps.take(j) =~= ps);
    } else {
        assert(ps.drop_last().take(j) =~= ps.take(j));
        lemma_progress_nanos_prefix(ps.drop_last(), j);
        lemma_progress_nanos_nonneg(ps);
    }
}

impl CrabSplit {
    /// A fresh store: the given tasks (none running), the first selected,
    /// the timer stopped, the input empty.
    pub fn new(tasks: Option<Vec<Task>>) -> (r: CrabSplit)
        requires
            match tasks {
                Some(ts) => forall|i: int|
                    0 <= i < ts.len() ==> task_wf(#[trigger] ts[i]) && ts[i].started_at is None,
                None => true,
            },
        ensures
            store_wf(r),
            r@.current_task == 0,
            r@.task_name == Seq::<char>::empty(),
            !r@.running,
            match tasks {
                Some(ts) => r.tasks == ts,
                None => r@.tasks == Seq::<TaskM>::empty(),
            },
    {
        let r = match tasks {
            Some(ts) => CrabSplit {
                current_task: 0,
                task_name: String::new(),
                tasks: ts,
                running: false,
            },
            None => CrabSplit {
                current_task: 0,
                task_name: String::new(),
                tasks: Vec::new(),
                running: false,
            },
        };
        proof {
            assert(forall|i: int|
                0 <= i < r@.tasks.len() ==> r@.tasks[i] == r.tasks[i]@ && task_m_inv(r.tasks[i]@));
        }
        r
    }

    /// Appends a task named by the pending input, unless it trims to
    /// nothing; the list grows by one and selection and running state are
    /// untouched.
    pub fn add_task(&mut self)
        requires
            store_wf(*old(self)),
        ensures
            store_wf(*final(self)),
            final(self)@ == add_task_m(old(self)@),
            trimmed(old(self)@.task_name).len() == 0 ==> final(self)@ == old(self)@,
            trimmed(old(self)@.task_name).len() > 0 ==> final(self)@.tasks.len() == old(
                self,
            )@.tasks.len() + 1,
            final(self)@.current_task == old(self)@.current_task,
            final(self)@.running == old(self)@.running,
    {
        let name = trim_chars(self.task_name.as_str());
        if !name.as_str().is_empty() {
            let task = Task { name, progress: Vec::new(), started_at: None };
            proof {
                crate::text::lemma_trimmed_is_trimmed(old(self)@.task_name);
            }
            self.tasks.push(task);
            self.task_name = String::new();
            proof {
                assert(self@.tasks =~~= add_task_m(old(self)@).tasks);
                assert(self@ =~~= add_task_m(old(self)@));
            }
        } else {
            proof {
                assert(self@ =~~= old(self)@);
            }
        }
    }

    /// Moves the current index forward by one when that is allowed;
    /// otherwise does nothing.
    pub fn next_task(&mut self)
        requires
            store_wf(*old(self)),
        ensures
            store_wf(*final(self)),
            can_advance_m(old(self)@) ==> final(self)@ == advance_m(old(self)@),
            !can_advance_m(old(self)@) ==> final(self)@ == old(self)@,
    {
        if self.next_task_enabled() {
            let n = self.tasks.len();
            assert(self.current_task < n - 1);
            self.current_task = self.current_task + 1;
            proof {
                assert(self@ =~~= advance_m(old(self)@));
            }
        } else {
            proof {
                assert(self@ =~~= old(self)@);
            }
        }
    }

    /// Starts the timer on the current task at `now`, when stopped and a
    /// task exists; otherwise does nothing.
    pub fn start(&mut self, now: Timestamp)
        requires
            store_wf(*old(self)),
            ts_wf(now),
        ensures
            store_wf(*final(self)),
            can_start_m(old(self)@) ==> final(self)@ == start_m(old(self)@, now@),
            !can_start_m(old(self)@) ==> final(self)@ == old(self)@,
    {
        if self.start_enabled() {
            self.running = true;
            let idx = self.current_task;
            let mut task = self.tasks.remove(idx);
            task.started_at = Some(now);
            self.tasks.insert(idx, task);
            proof {
                assert(self@.tasks =~= start_m(old(self)@, now@).tasks);
                assert(self@ =~~= start_m(old(self)@, now@));
            }
        } else {
            proof {
                assert(self@ =~~= old(self)@);
            }
        }
    }

    /// Stops the running session at `now`, appending it to the current
    /// task as a completed interval; does nothing when already stopped.
    pub fn stop(&mut self, now: Timestamp)
        requires
            store_wf(*old(self)),
            ts_wf(now),
            old(self)@.running ==> old(self)@.tasks[old(self)@.current_task].started_at->Some_0
                <= now@,
        ensures
            store_wf(*final(self)),
            can_stop_m(old(self)@) ==> final(self)@ == stop_m(old(self)@, now@),
            !can_stop_m(old(self)@) ==> final(self)@ == old(self)@,
    {
        if self.running {
            self.running = false;
            let idx = self.current_task;
            let mut task = self.tasks.remove(idx);
            let started = task.started_at.unwrap();
            task.progress.push(TaskProgress { start: started, end: now });
            task.started_at = None;
            self.tasks.insert(idx, task);
            proof {
                let m = stop_m(old(self)@, now@);
                assert(self@.tasks[idx as int].progress =~= m.tasks[idx as int].progress);
                assert(self@.tasks =~= m.tasks);
                assert(self@ =~~= m);
            }
        } else {
            proof {
                assert(self@ =~~= old(self)@);
            }
        }
    }

    /// Removes the task at `index` and hands it back. A running current
    /// task is stopped first, so the interval under way is kept on the
    /// returned task rather than lost; the current index is pulled back
    /// when the removal happened at or before it.
    pub fn remove_task(&mut self, index: usize, now: Timestamp) -> (removed: Task)
        requires
            store_wf(*old(self)),
            index < old(self)@.tasks.len(),
            ts_wf(now),
            old(self)@.running && index == old(self)@.current_task ==> old(self)@.tasks[
                index as int].started_at->Some_0 <= now@,
        ensures
            store_wf(*final(self)),
            task_wf(removed),
            final(self)@ == remove_m(old(self)@, index as int, now@).0,
            removed@ == remove_m(old(self)@, index as int, now@).1,
    {
        if self.running && index == self.current_task {
            self.stop(now);
        }
        if index <= self.current_task && self.current_task > 0 {
            self.current_task = self.current_task - 1;
        }
        let removed = self.tasks.remove(index);
        proof {
            let m = remove_m(old(self)@, index as int, now@);
            assert(self@.tasks =~= m.0.tasks);
            assert(self@ =~~= m.0);
        }
        removed
    }

    /// True exactly when `start` would do something.
    pub fn start_enabled(&self) -> (r: bool)
        ensures
            r == can_start_m(self@),
    {
        self.running == false && self.tasks.len() > 0
    }

    /// True exactly when `stop` would do something.
    pub fn stop_enabled(&self) -> (r: bool)
        ensures
            r == can_stop_m(self@),
    {
        self.running == true
    }

    /// True exactly when `next_task` would do something.
    pub fn next_task_enabled(&self) -> (r: bool)
        ensures
            r == can_advance_m(self@),
    {
        self.running == false && self.tasks.len() > 0 && self.current_task < self.tasks.len() - 1
    }

    /// Elapsed time of one task at `now`: the exact sum of its completed
    /// intervals plus the session under way, truncated to whole seconds.
    pub fn calculate_task_elapsed(task: &Task, now: Timestamp) -> (r: Duration)
        requires
            task_wf(*task),
            ts_wf(now),
            elapsed_pre(task@, now@),
        ensures
            r.nanos == 0,
            r.secs as int == whole_secs(task_elapsed_nanos(task@, now@)),
    {
        let ghost model = task@;
        let mut total = Duration::zero();
        let n = task.progress.len();
        for i in 0..n
            invariant
                n == task.progress.len(),
                task_wf(*task),
                ts_wf(now),
                elapsed_pre(model, now@),
                model == task@,
                dur_wf(total),
                total@ == progress_nanos(model.progress.take(i as int)),
        {
            let p = task.progress[i];
            proof {
                assert(p@ == model.progress[i as int]);
                lemma_progress_nanos_prefix(model.progress, i + 1);
                assert(model.progress.take(i + 1).drop_last() =~= model.progress.take(i as int));
                assert(model.progress.take(i + 1).last() == model.progress[i as int]);
                if model.started_at is Some {
                    assert(task_elapsed_nanos(model, now@) >= progress_nanos(model.progress));
                }
            }
            let d = p.end.duration_since(&p.start);
            total = total.add(d);
        }
        proof {
            assert(model.progress.take(n as int) =~= model.progress);
        }
        if let Some(started_at) = task.started_at {
            let d = now.duration_since(&started_at);
            total = total.add(d);
        }
        Self::truncate_duration(total)
    }

    /// Discards the sub-second part of a duration.
    pub fn truncate_duration(duration: Duration) -> (r: Duration)
        requires
            dur_wf(duration),
        ensures
            r.secs == duration.secs,
            r.nanos == 0,
            dur_wf(r),
            r.secs as int == whole_secs(duration@),
    {
        proof {
            vstd::arithmetic::div_mod::lemma_fundamental_div_mod_converse(
                duration@,
                NANOS_PER_SEC as int,
                duration.secs as int,
                duration.nanos as int,
            );
        }
        Duration { secs: duration.secs, nanos: 0 }
    }

    /// Total elapsed time at `now`: the sum over all tasks of their
    /// truncated elapsed times.
    pub fn calculate_total_elapsed(&self, now: Timestamp) -> (r: Duration)
        requires
            store_wf(*self),
            ts_wf(now),
            total_elapsed_pre(self@, now@),
        ensures
            r.nanos == 0,
            r.secs as int == tasks_elapsed_secs(self@.tasks, now@),
    {
        let ghost model = self@;
        let mut total = Duration::zero();
        let n = self.tasks.len();
        for i in 0..n
            invariant
                n == self.tasks.len(),
                store_wf(*self),
                ts_wf(now),
                total_elapsed_pre(model, now@),
                model == self@,
                dur_wf(total),
                total.nanos == 0,
                total@ == tasks_elapsed_secs(model.tasks.take(i as int), now@) * (
                NANOS_PER_SEC as int),
                tasks_elapsed_secs(model.tasks.take(i as int), now@) >= 0,
        {
            let t = &self.tasks[i];
            proof {
                assert(t@ == model.tasks[i as int]);
            }
            let d = Self::calculate_task_elapsed(t, now);
            proof {
                lemma_tasks_elapsed_secs_prefix(model.tasks, now@, i + 1);
                assert(model.tasks.take(i + 1).drop_last() =~= model.tasks.take(i as int));
                assert(model.tasks.take(i + 1).last() == model.tasks[i as int]);
                lemma_progress_nanos_nonneg(model.tasks[i as int].progress);
            }
            total = total.add(d);
        }
        proof {
            assert(model.tasks.take(n as int) =~= model.tasks);
        }
        total
    }
}

proof fn lemma_tasks_elapsed_secs_prefix(tasks: Seq<TaskM>, now: int, j: int)
    requires
        forall|i: int| 0 <= i < tasks.len() ==> elapsed_pre(#[trigger] tasks[i], now),
        forall|i: int| 0 <= i < tasks.len() ==> task_m_inv(#[trigger] tasks[i]),
        0 <= j <= tasks.len(),
    ensures
        tasks_elapsed_secs(tasks.take(j), now) <= tasks_elapsed_secs(tasks, now),
        tasks_elapsed_secs(tasks.take(j), now) >= 0,
    decreases tasks.len(),
{
    lemma_tasks_elapsed_secs_nonneg(tasks.take(j), now);
    if j == tasks.len() {
        assert(tasks.take(j) =~= tasks);
    } else {
        assert(tasks.drop_last().take(j) =~= tasks.take(j));
        lemma_tasks_elapsed_secs_prefix(tasks.drop_last(), now, j);
        lemma_progress_nanos_nonneg(tasks.last().progress);
    }
}

proof fn lemma_tasks_elapsed_secs_nonneg(tasks: Seq<TaskM>, now: int)
    requires
        forall|i: int| 0 <= i < tasks.len() ==> elapsed_pre(#[trigger] tasks[i], now),
        forall|i: int| 0 <= i < tasks.len() ==> task_m_inv(#[trigger] tasks[i]),
    ensures
        tasks_elapsed_secs(tasks, now) >= 0,
    decreases tasks.len(),
{
    if tasks.len() > 0 {
        lemma_tasks_elapsed_secs_nonneg(tasks.drop_last(), now);
        lemma_progress_nanos_nonneg(tasks.last().progress);
    }
}

/// Renders a duration as whole minutes, a colon, and leftover seconds.
pub fn format_duration(duration: &Duration) -> (r: String)
    ensures
        r@ == duration_display(duration.secs as nat),
{
    let minutes = duration.secs / 60;
    let seconds = duration.secs % 60;
    let mut out = render_u64(minutes);
    out.append(":");
    let sec_str = render_u64(seconds);
    out.append(sec_str.as_str());
    proof {
        reveal_strlit(":");
        assert(out@ =~= duration_display(duration.secs as nat));
    }
    out
}

} // verus!
