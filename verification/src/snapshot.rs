//! The daily snapshot: a text form of the task list holding each task's
//! name and completed intervals. Only completed work is persisted; a
//! session under way is never written, so a loaded task is always stopped.
//!
//! The format is line-oriented and length-prefixed:
//! the number of tasks, a newline, then for each task its name's length in
//! characters, a newline, the name itself, a newline, its interval count, a
//! newline, and one line per interval holding the four decimal fields of
//! its two instants, space-separated.
use crate::store::{task_m_inv, task_wf, IntervalM, Task, TaskM, TaskProgress};
use crate::text::{
    dec_digits, is_digit, is_space_exec, is_trimmed, lemma_parse_num_of_digits, parse_num,
    parse_u64, render_u64,
};
use crate::time::{dur_max_nanos, ts_wf, Timestamp, NANOS_PER_SEC};
use vstd::prelude::*;
use vstd::seq_lib::*;
use vstd::string::StrSliceExecFns;
use vstd::string::StringExecFns;

verus! {

/// Text form of one instant: whole seconds and sub-second nanoseconds as
/// two space-separated decimal fields.
pub open spec fn ts_chars(t: int) -> Seq<char> {
    dec_digits((t / (NANOS_PER_SEC as int)) as nat) + seq![' '] + dec_digits(
        (t % (NANOS_PER_SEC as int)) as nat,
    )
}

/// Text form of one completed interval: the two instants, space-separated,
/// newline-terminated.
pub open spec fn interval_chars(iv: IntervalM) -> Seq<char> {
    ts_chars(iv.start) + seq![' '] + ts_chars(iv.end) + seq!['\n']
}

/// Text form of a sequence of intervals, one per line.
pub open spec fn intervals_chars(ps: Seq<IntervalM>) -> Seq<char>
    decreases ps.len(),
{
    if ps.len() == 0 {
        Seq::empty()
    } else {
        intervals_chars(ps.drop_last()) + interval_chars(ps.last())
    }
}

/// Text form of one task: length-prefixed name, then its intervals,
/// count-prefixed. The session under way, if any, is not written.
pub open spec fn task_chars(t: TaskM) -> Seq<char> {
    dec_digits(t.name.len()) + seq!['\n'] + t.name + seq!['\n'] + dec_digits(t.progress.len())
        + seq!['\n'] + intervals_chars(t.progress)
}

/// Text form of a sequence of tasks.
pub open spec fn tasks_chars(tasks: Seq<TaskM>) -> Seq<char>
    decreases tasks.len(),
{
    if tasks.len() == 0 {
        Seq::empty()
    } else {
        tasks_chars(tasks.drop_last()) + task_chars(tasks.last())
    }
}

/// Text form of a whole snapshot: the task count, then the tasks.
pub open spec fn snapshot_chars(tasks: Seq<TaskM>) -> Seq<char> {
    dec_digits(tasks.len()) + seq!['\n'] + tasks_chars(tasks)
}

/// Renders one timestamp as two space-separated decimal fields.
fn write_timestamp(out: &mut String, t: Timestamp)
    requires
        ts_wf(t),
    ensures
        final(out)@ == old(out)@ + dec_digits(((t@) / (NANOS_PER_SEC as int)) as nat) + seq![' ']
            + dec_digits(((t@) % (NANOS_PER_SEC as int)) as nat),
{
    proof {
        vstd::arithmetic::div_mod::lemma_fundamental_div_mod_converse(
            t@,
            NANOS_PER_SEC as int,
            t.secs as int,
            t.nanos as int,
        );
    }
    let secs_str = render_u64(t.secs);
    out.append(secs_str.as_str());
    out.append(" ");
    let nanos_str = render_u64(t.nanos as u64);
    out.append(nanos_str.as_str());
    proof {
        reveal_strlit(" ");
        assert(out@ =~= old(out)@ + dec_digits(((t@) / (NANOS_PER_SEC as int)) as nat) + seq![' ']
            + dec_digits(((t@) % (NANOS_PER_SEC as int)) as nat));
    }
}

/// Serializes the task list to snapshot text. Only names and completed
/// intervals are written; `started_at` is deliberately left out.
pub fn save(tasks: &Vec<Task>) -> (r: String)
    requires
        forall|i: int| 0 <= i < tasks.len() ==> task_wf(#[trigger] tasks[i]),
    ensures
        r@ == snapshot_chars(tasks@.map_values(|t: Task| t@)),
{
    let ghost model = tasks@.map_values(|t: Task| t@);
    let n = tasks.len();
    let mut out = render_u64(n as u64);
    out.append("\n");
    proof {
        reveal_strlit("\n");
        assert(out@ =~= dec_digits(model.len()) + seq!['\n']);
        assert(model.take(0) =~= Seq::<TaskM>::empty());
    }
    for i in 0..n
        invariant
            n == tasks.len(),
            forall|k: int| 0 <= k < tasks.len() ==> task_wf(#[trigger] tasks[k]),
            model == tasks@.map_values(|t: Task| t@),
            out@ == dec_digits(model.len()) + seq!['\n'] + tasks_chars(model.take(i as int)),
    {
        let task = &tasks[i];
        proof {
            assert(task@ == model[i as int]);
        }
        write_task(&mut out, task);
        proof {
            assert(model.take(i + 1).drop_last() =~= model.take(i as int));
            assert(model.take(i + 1).last() == model[i as int]);
            assert(out@ =~= dec_digits(model.len()) + seq!['\n'] + tasks_chars(
                model.take(i + 1),
            ));
        }
    }
    proof {
        assert(model.take(n as int) =~= model);
    }
    out
}

/// Appends one task's snapshot text.
#[verifier::rlimit(50)]
fn write_task(out: &mut String, task: &Task)
    requires
        task_wf(*task),
    ensures
        final(out)@ == old(out)@ + task_chars(task@),
{
    let ghost model = task@;
    let name_len = task.name.as_str().unicode_len();
    let len_str = render_u64(name_len as u64);
    out.append(len_str.as_str());
    out.append("\n");
    out.append(task.name.as_str());
    out.append("\n");
    let m = task.progress.len();
    let count_str = render_u64(m as u64);
    out.append(count_str.as_str());
    out.append("\n");
    proof {
        reveal_strlit("\n");
        assert(out@ =~= old(out)@ + dec_digits(model.name.len()) + seq!['\n'] + model.name
            + seq!['\n'] + dec_digits(model.progress.len()) + seq!['\n']);
        assert(model.progress.take(0) =~= Seq::<IntervalM>::empty());
    }
    let ghost header = out@;
    for j in 0..m
        invariant
            m == task.progress.len(),
            task_wf(*task),
            model == task@,
            out@ == header + intervals_chars(model.progress.take(j as int)),
    {
        let p = task.progress[j];
        proof {
            assert(p@ == model.progress[j as int]);
        }
        write_timestamp(out, p.start);
        out.append(" ");
        write_timestamp(out, p.end);
        out.append("\n");
        proof {
            reveal_strlit(" ");
            reveal_strlit("\n");
            assert(model.progress.take(j + 1).drop_last() =~= model.progress.take(j as int));
            assert(model.progress.take(j + 1).last() == model.progress[j as int]);
            assert(out@ =~= header + intervals_chars(model.progress.take(j + 1)));
        }
    }
    proof {
        assert(model.progress.take(m as int) =~= model.progress);
        assert(out@ =~= old(out)@ + task_chars(model));
    }
}

/// The character at position `i` is `c`.
pub open spec fn expect(s: Seq<char>, i: int, c: char) -> bool {
    0 <= i < s.len() && s[i] == c
}

/// Parses one instant: seconds, a space, nanoseconds below one second.
pub open spec fn parse_ts(s: Seq<char>, i: int) -> Option<(int, int)> {
    match parse_num(s, i) {
        None => None,
        Some((secs, i1)) => if secs > u64::MAX || !expect(s, i1, ' ') {
            None
        } else {
            match parse_num(s, i1 + 1) {
                None => None,
                Some((nanos, i2)) => if nanos >= NANOS_PER_SEC {
                    None
                } else {
                    Some((secs * (NANOS_PER_SEC as int) + nanos, i2))
                },
            }
        },
    }
}

/// Parses one completed interval: two instants, ordered, space-separated,
/// newline-terminated.
pub open spec fn parse_interval(s: Seq<char>, i: int) -> Option<(IntervalM, int)> {
    match parse_ts(s, i) {
        None => None,
        Some((start, i1)) => if !expect(s, i1, ' ') {
            None
        } else {
            match parse_ts(s, i1 + 1) {
                None => None,
                Some((end, i2)) => if !expect(s, i2, '\n') || start > end {
                    None
                } else {
                    Some((IntervalM { start, end }, i2 + 1))
                },
            }
        },
    }
}

/// Parses exactly `count` intervals.
pub open spec fn parse_intervals(s: Seq<char>, i: int, count: nat) -> Option<(Seq<IntervalM>, int)>
    decreases count,
{
    if count == 0 {
        Some((Seq::empty(), i))
    } else {
        match parse_interval(s, i) {
            None => None,
            Some((iv, j)) => match parse_intervals(s, j, (count - 1) as nat) {
                None => None,
                Some((rest, k)) => Some((seq![iv] + rest, k)),
            },
        }
    }
}

/// Parses one task: length-prefixed non-empty trimmed name, then its
/// count-prefixed intervals. A parsed task is never running.
pub open spec fn parse_task(s: Seq<char>, i: int) -> Option<(TaskM, int)> {
    match parse_num(s, i) {
        None => None,
        Some((nl, i1)) => if !expect(s, i1, '\n') || i1 + 1 + nl > s.len() {
            None
        } else {
            let a = i1 + 1;
            let name = s.subrange(a, a + nl);
            if nl == 0 || !is_trimmed(name) || !expect(s, a + nl, '\n') {
                None
            } else {
                match parse_num(s, a + nl + 1) {
                    None => None,
                    Some((ic, i2)) => if ic > usize::MAX || !expect(s, i2, '\n') {
                        None
                    } else {
                        match parse_intervals(s, i2 + 1, ic) {
                            None => None,
                            Some((ivs, j)) => Some(
                                (TaskM { name, progress: ivs, started_at: None }, j),
                            ),
                        }
                    },
                }
            }
        },
    }
}

/// Parses exactly `count` tasks.
pub open spec fn parse_tasks(s: Seq<char>, i: int, count: nat) -> Option<(Seq<TaskM>, int)>
    decreases count,
{
    if count == 0 {
        Some((Seq::empty(), i))
    } else {
        match parse_task(s, i) {
            None => None,
            Some((t, j)) => match parse_tasks(s, j, (count - 1) as nat) {
                None => None,
                Some((rest, k)) => Some((seq![t] + rest, k)),
            },
        }
    }
}

/// Parses a whole snapshot: the task count, the tasks, nothing after.
pub open spec fn parse_snapshot(s: Seq<char>) -> Option<Seq<TaskM>> {
    match parse_num(s, 0) {
        None => None,
        Some((count, i)) => if count > usize::MAX || !expect(s, i, '\n') {
            None
        } else {
            match parse_tasks(s, i + 1, count) {
                None => None,
                Some((tasks, j)) => if j == s.len() {
                    Some(tasks)
                } else {
                    None
                },
            }
        },
    }
}

fn expect_exec(s: &str, i: usize, c: char) -> (r: bool)
    requires
        i <= s@.len(),
    ensures
        r == expect(s@, i as int, c),
{
    let n = s.unicode_len();
    i < n && s.get_char(i) == c
}

fn parse_ts_exec(s: &str, i: usize) -> (r: Option<(Timestamp, usize)>)
    requires
        i <= s@.len(),
    ensures
        match r {
            Some((t, j)) => parse_ts(s@, i as int) == Some((t@, j as int)) && ts_wf(t) && i < j
                <= s@.len(),
            None => parse_ts(s@, i as int) is None,
        },
{
    let n = s.unicode_len();
    proof {
        assert(n == s@.len());
    }
    let (secs, i1) = match parse_u64(s, i) {
        Some(p) => p,
        None => {
            return None;
        },
    };
    if !expect_exec(s, i1, ' ') {
        return None;
    }
    let (nanos, i2) = match parse_u64(s, i1 + 1) {
        Some(p) => p,
        None => {
            return None;
        },
    };
    if nanos >= NANOS_PER_SEC as u64 {
        return None;
    }
    let t = Timestamp { secs, nanos: nanos as u32 };
    Some((t, i2))
}

fn parse_interval_exec(s: &str, i: usize) -> (r: Option<(TaskProgress, usize)>)
    requires
        i <= s@.len(),
    ensures
        match r {
            Some((p, j)) => parse_interval(s@, i as int) == Some((p@, j as int)) && ts_wf(p.start)
                && ts_wf(p.end) && p.start@ <= p.end@ && i < j <= s@.len(),
            None => parse_interval(s@, i as int) is None,
        },
{
    let n = s.unicode_len();
    proof {
        assert(n == s@.len());
    }
    let (start, i1) = match parse_ts_exec(s, i) {
        Some(p) => p,
        None => {
            return None;
        },
    };
    if !expect_exec(s, i1, ' ') {
        return None;
    }
    let (end, i2) = match parse_ts_exec(s, i1 + 1) {
        Some(p) => p,
        None => {
            return None;
        },
    };
    if !expect_exec(s, i2, '\n') {
        return None;
    }
    if !start.le(&end) {
        return None;
    }
    Some((TaskProgress { start, end }, i2 + 1))
}

#[verifier::loop_isolation(false)]
fn parse_task_exec(s: &str, i: usize) -> (r: Option<(Task, usize)>)
    requires
        i <= s@.len(),
    ensures
        match r {
            Some((t, j)) => parse_task(s@, i as int) == Some((t@, j as int)) && task_wf(t)
                && t.started_at is None && i < j <= s@.len(),
            None => parse_task(s@, i as int) is None,
        },
{
    let n = s.unicode_len();
    let (nl, i1) = match parse_u64(s, i) {
        Some(p) => p,
        None => {
            return None;
        },
    };
    if !expect_exec(s, i1, '\n') {
        return None;
    }
    let a = i1 + 1;
    if nl > (n - a) as u64 {
        return None;
    }
    let nl_us = nl as usize;
    if nl_us == 0 {
        return None;
    }
    let ghost name_spec = s@.subrange(a as int, a as int + nl as int);
    if is_space_exec(s.get_char(a)) || is_space_exec(s.get_char(a + nl_us - 1)) {
        proof {
            assert(name_spec[0] == s@[a as int]);
            assert(name_spec[name_spec.len() - 1] == s@[a as int + nl as int - 1]);
        }
        return None;
    }
    proof {
        assert(name_spec[0] == s@[a as int]);
        assert(name_spec[name_spec.len() - 1] == s@[a as int + nl as int - 1]);
        assert(is_trimmed(name_spec));
    }
    let name = s.substring_char(a, a + nl_us).to_owned();
    if !expect_exec(s, a + nl_us, '\n') {
        return None;
    }
    let (ic, i2) = match parse_u64(s, a + nl_us + 1) {
        Some(p) => p,
        None => {
            return None;
        },
    };
    if ic > usize::MAX as u64 {
        return None;
    }
    let ic_us = ic as usize;
    if !expect_exec(s, i2, '\n') {
        return None;
    }
    let start: usize = i2 + 1;
    let mut cur: usize = start;
    let mut acc: Vec<TaskProgress> = Vec::new();
    proof {
        assert(acc@.map_values(|p: TaskProgress| p@) =~= Seq::<IntervalM>::empty());
    }
    let mut k: usize = 0;
    while k < ic_us
        invariant
            k <= ic_us,
            start <= cur <= s@.len(),
            acc.len() == k,
            forall|m: int|
                0 <= m < acc.len() ==> ts_wf((#[trigger] acc[m]).start) && ts_wf(acc[m].end)
                    && acc[m].start@ <= acc[m].end@,
            match parse_intervals(s@, cur as int, (ic_us - k) as nat) {
                Some((rest, j)) => parse_intervals(s@, start as int, ic_us as nat) == Some(
                    (acc@.map_values(|p: TaskProgress| p@) + rest, j),
                ),
                None => parse_intervals(s@, start as int, ic_us as nat) is None,
            },
        decreases ic_us - k,
    {
        let (p, j) = match parse_interval_exec(s, cur) {
            Some(p) => p,
            None => {
                return None;
            },
        };
        proof {
            let before = acc@.map_values(|q: TaskProgress| q@);
            assert(before.push(p@) =~= acc@.push(p).map_values(|q: TaskProgress| q@));
            if parse_intervals(s@, j as int, (ic_us - k - 1) as nat) is Some {
                let (rest, jj) = parse_intervals(s@, j as int, (ic_us - k - 1) as nat)->Some_0;
                assert(before + (seq![p@] + rest) =~= before.push(p@) + rest);
            }
        }
        acc.push(p);
        cur = j;
        k = k + 1;
    }
    proof {
        assert(parse_intervals(s@, cur as int, 0nat) == Some(
            (Seq::<IntervalM>::empty(), cur as int),
        ));
        let ivs = acc@.map_values(|p: TaskProgress| p@);
        assert(ivs + Seq::<IntervalM>::empty() =~= ivs);
    }
    let task = Task { name, progress: acc, started_at: None };
    proof {
        assert(task@.name == name_spec);
        assert(task_wf(task));
        assert(parse_task(s@, i as int) == Some((task@, cur as int)));
    }
    Some((task, cur))
}

/// Reads a snapshot back. `None` means the text is not a well-formed
/// snapshot; otherwise every returned task is valid and stopped, and the
/// result is exactly what the snapshot text describes.
#[verifier::loop_isolation(false)]
pub fn load(s: &str) -> (r: Option<Vec<Task>>)
    ensures
        match r {
            Some(tasks) => parse_snapshot(s@) == Some(tasks@.map_values(|t: Task| t@)) && forall|
                i: int,
            |
                0 <= i < tasks.len() ==> task_wf(#[trigger] tasks[i]) && tasks[i].started_at
                    is None,
            None => parse_snapshot(s@) is None,
        },
{
    let n = s.unicode_len();
    let (count, i0) = match parse_u64(s, 0) {
        Some(p) => p,
        None => {
            return None;
        },
    };
    if count > usize::MAX as u64 {
        return None;
    }
    let count_us = count as usize;
    if !expect_exec(s, i0, '\n') {
        return None;
    }
    let start: usize = i0 + 1;
    let mut cur: usize = start;
    let mut acc: Vec<Task> = Vec::new();
    proof {
        assert(acc@.map_values(|t: Task| t@) =~= Seq::<TaskM>::empty());
    }
    let mut k: usize = 0;
    while k < count_us
        invariant
            k <= count_us,
            start <= cur <= s@.len(),
            acc.len() == k,
            forall|m: int|
                0 <= m < acc.len() ==> task_wf(#[trigger] acc[m]) && acc[m].started_at is None,
            match parse_tasks(s@, cur as int, (count_us - k) as nat) {
                Some((rest, j)) => parse_tasks(s@, start as int, count_us as nat) == Some(
                    (acc@.map_values(|t: Task| t@) + rest, j),
                ),
                None => parse_tasks(s@, start as int, count_us as nat) is None,
            },
        decreases count_us - k,
    {
        let (t, j) = match parse_task_exec(s, cur) {
            Some(p) => p,
            None => {
                return None;
            },
        };
        proof {
            let before = acc@.map_values(|q: Task| q@);
            assert(before.push(t@) =~= acc@.push(t).map_values(|q: Task| q@));
            if parse_tasks(s@, j as int, (count_us - k - 1) as nat) is Some {
                let (rest, jj) = parse_tasks(s@, j as int, (count_us - k - 1) as nat)->Some_0;
                assert(before + (seq![t@] + rest) =~= before.push(t@) + rest);
            }
        }
        acc.push(t);
        cur = j;
        k = k + 1;
    }
    proof {
        assert(parse_tasks(s@, cur as int, 0nat) == Some((Seq::<TaskM>::empty(), cur as int)));
        let ts = acc@.map_values(|t: Task| t@);
        assert(ts + Seq::<TaskM>::empty() =~= ts);
    }
    if cur != n {
        return None;
    }
    Some(acc)
}

/// A task as the snapshot keeps it: name and completed intervals, with no
/// session under way.
pub open spec fn stored_task(t: TaskM) -> TaskM {
    TaskM { name: t.name, progress: t.progress, started_at: None }
}

/// The bounds under which a task's intervals can be written and read back:
/// non-negative instants that fit the duration representation, and a
/// count that fits an index.
pub open spec fn task_reprable(t: TaskM) -> bool {
    &&& t.progress.len() <= usize::MAX
    &&& forall|k: int| 0 <= k < t.progress.len() ==> (#[trigger] t.progress[k]).end
        <= dur_max_nanos()
}

/// The bounds under which a task list can be written and read back.
pub open spec fn snapshot_reprable(tasks: Seq<TaskM>) -> bool {
    &&& tasks.len() <= usize::MAX
    &&& forall|i: int| 0 <= i < tasks.len() ==> task_reprable(#[trigger] tasks[i])
}

proof fn lemma_parse_ts_of_print(s: Seq<char>, i: int, v: int)
    requires
        0 <= v <= dur_max_nanos(),
        0 <= i,
        i + ts_chars(v).len() <= s.len(),
        s.subrange(i, i + ts_chars(v).len()) == ts_chars(v),
        i + ts_chars(v).len() == s.len() || !is_digit(s[i + ts_chars(v).len()]),
    ensures
        parse_ts(s, i) == Some((v, i + ts_chars(v).len())),
{
    let g = NANOS_PER_SEC as int;
    let d1 = dec_digits((v / g) as nat);
    let d2 = dec_digits((v % g) as nat);
    let l1 = d1.len() as int;
    let l2 = d2.len() as int;
    let l = ts_chars(v).len() as int;
    assert(l == l1 + 1 + l2);
    assert(s.subrange(i, i + l1) =~= ts_chars(v).subrange(0, l1));
    assert(ts_chars(v).subrange(0, l1) =~= d1);
    assert(s[i + l1] == ts_chars(v)[l1]);
    assert(ts_chars(v)[l1] == ' ');
    lemma_parse_num_of_digits(s, i, (v / g) as nat);
    vstd::arithmetic::div_mod::lemma_div_is_ordered(v, dur_max_nanos(), g);
    vstd::arithmetic::div_mod::lemma_fundamental_div_mod_converse(
        dur_max_nanos(),
        g,
        u64::MAX as int,
        g - 1,
    );
    assert(v / g <= u64::MAX);
    assert(expect(s, i + l1, ' '));
    assert(s.subrange(i + l1 + 1, i + l) =~= ts_chars(v).subrange(l1 + 1, l));
    assert(ts_chars(v).subrange(l1 + 1, l) =~= d2);
    lemma_parse_num_of_digits(s, i + l1 + 1, (v % g) as nat);
    assert(v % g < g);
    vstd::arithmetic::div_mod::lemma_fundamental_div_mod(v, g);
    assert((v / g) * g + (v % g) == v);
}

proof fn lemma_parse_interval_of_print(s: Seq<char>, i: int, iv: IntervalM)
    requires
        0 <= iv.start <= iv.end <= dur_max_nanos(),
        0 <= i,
        i + interval_chars(iv).len() <= s.len(),
        s.subrange(i, i + interval_chars(iv).len()) == interval_chars(iv),
    ensures
        parse_interval(s, i) == Some((iv, i + interval_chars(iv).len())),
{
    let c1 = ts_chars(iv.start);
    let c2 = ts_chars(iv.end);
    let l1 = c1.len() as int;
    let l2 = c2.len() as int;
    let l = interval_chars(iv).len() as int;
    assert(l == l1 + 1 + l2 + 1);
    assert(s.subrange(i, i + l1) =~= interval_chars(iv).subrange(0, l1));
    assert(interval_chars(iv).subrange(0, l1) =~= c1);
    assert(s[i + l1] == interval_chars(iv)[l1]);
    assert(interval_chars(iv)[l1] == ' ');
    lemma_parse_ts_of_print(s, i, iv.start);
    assert(expect(s, i + l1, ' '));
    assert(s.subrange(i + l1 + 1, i + l1 + 1 + l2) =~= interval_chars(iv).subrange(
        l1 + 1,
        l1 + 1 + l2,
    ));
    assert(interval_chars(iv).subrange(l1 + 1, l1 + 1 + l2) =~= c2);
    assert(s[i + l1 + 1 + l2] == interval_chars(iv)[l1 + 1 + l2]);
    assert(interval_chars(iv)[l1 + 1 + l2] == '\n');
    lemma_parse_ts_of_print(s, i + l1 + 1, iv.end);
    assert(expect(s, i + l1 + 1 + l2, '\n'));
}

proof fn lemma_intervals_chars_front(ps: Seq<IntervalM>)
    requires
        ps.len() > 0,
    ensures
        intervals_chars(ps) == interval_chars(ps[0]) + intervals_chars(ps.drop_first()),
    decreases ps.len(),
{
    if ps.len() == 1 {
        assert(ps.drop_last() =~= Seq::<IntervalM>::empty());
        assert(ps.drop_first() =~= Seq::<IntervalM>::empty());
        assert(ps.last() == ps[0]);
        assert(intervals_chars(Seq::<IntervalM>::empty()) =~= Seq::<char>::empty());
        assert(intervals_chars(ps) =~= interval_chars(ps[0]) + intervals_chars(ps.drop_first()));
    } else {
        let dl = ps.drop_last();
        lemma_intervals_chars_front(dl);
        assert(ps.drop_first().drop_last() =~= dl.drop_first());
        assert(ps.drop_first().last() == ps.last());
        assert(dl[0] == ps[0]);
        assert(intervals_chars(ps.drop_first()) == intervals_chars(dl.drop_first())
            + interval_chars(ps.last()));
        assert(intervals_chars(ps) =~= interval_chars(ps[0]) + intervals_chars(ps.drop_first()));
    }
}

proof fn lemma_parse_intervals_of_print(s: Seq<char>, i: int, ps: Seq<IntervalM>)
    requires
        forall|k: int|
            0 <= k < ps.len() ==> 0 <= (#[trigger] ps[k]).start <= ps[k].end <= dur_max_nanos(),
        0 <= i,
        i + intervals_chars(ps).len() <= s.len(),
        s.subrange(i, i + intervals_chars(ps).len()) == intervals_chars(ps),
    ensures
        parse_intervals(s, i, ps.len() as nat) == Some((ps, i + intervals_chars(ps).len())),
    decreases ps.len(),
{
    if ps.len() == 0 {
        assert(ps =~= Seq::<IntervalM>::empty());
        assert(parse_intervals(s, i, 0nat) == Some((Seq::<IntervalM>::empty(), i)));
    } else {
        lemma_intervals_chars_front(ps);
        let c0 = interval_chars(ps[0]);
        let l0 = c0.len() as int;
        let l = intervals_chars(ps).len() as int;
        assert(l == l0 + intervals_chars(ps.drop_first()).len());
        assert(s.subrange(i, i + l0) =~= intervals_chars(ps).subrange(0, l0));
        assert(intervals_chars(ps).subrange(0, l0) =~= c0);
        lemma_parse_interval_of_print(s, i, ps[0]);
        assert(s.subrange(i + l0, i + l) =~= intervals_chars(ps).subrange(l0, l));
        assert(intervals_chars(ps).subrange(l0, l) =~= intervals_chars(ps.drop_first()));
        assert(forall|k: int|
            0 <= k < ps.drop_first().len() ==> (#[trigger] ps.drop_first()[k]) == ps[k + 1]);
        lemma_parse_intervals_of_print(s, i + l0, ps.drop_first());
        assert(seq![ps[0]] + ps.drop_first() =~= ps);
        assert((ps.len() - 1) as nat == ps.drop_first().len() as nat);
    }
}

proof fn lemma_parse_task_of_print(s: Seq<char>, i: int, t: TaskM)
    requires
        task_m_inv(t),
        task_reprable(t),
        0 <= i,
        i + task_chars(t).len() <= s.len(),
        s.subrange(i, i + task_chars(t).len()) == task_chars(t),
    ensures
        parse_task(s, i) == Some((stored_task(t), i + task_chars(t).len())),
{
    let nl = t.name.len() as int;
    let d0 = dec_digits(t.name.len());
    let q0 = d0.len() as int;
    let d1 = dec_digits(t.progress.len());
    let q1 = d1.len() as int;
    let body = intervals_chars(t.progress);
    let l = task_chars(t).len() as int;
    assert(l == q0 + 1 + nl + 1 + q1 + 1 + body.len());
    // the name-length field, bounded by its newline
    assert(s.subrange(i, i + q0) =~= task_chars(t).subrange(0, q0));
    assert(task_chars(t).subrange(0, q0) =~= d0);
    assert(s[i + q0] == task_chars(t)[q0]);
    assert(task_chars(t)[q0] == '\n');
    lemma_parse_num_of_digits(s, i, t.name.len());
    assert(expect(s, i + q0, '\n'));
    // the name itself
    let a = i + q0 + 1;
    assert(s.subrange(a, a + nl) =~= task_chars(t).subrange(q0 + 1, q0 + 1 + nl));
    assert(task_chars(t).subrange(q0 + 1, q0 + 1 + nl) =~= t.name);
    assert(s[a + nl] == task_chars(t)[q0 + 1 + nl]);
    assert(task_chars(t)[q0 + 1 + nl] == '\n');
    assert(expect(s, a + nl, '\n'));
    // the interval count, bounded by its newline
    let b = a + nl + 1;
    assert(s.subrange(b, b + q1) =~= task_chars(t).subrange(q0 + 1 + nl + 1, q0 + 1 + nl + 1 + q1));
    assert(task_chars(t).subrange(q0 + 1 + nl + 1, q0 + 1 + nl + 1 + q1) =~= d1);
    assert(s[b + q1] == task_chars(t)[q0 + 1 + nl + 1 + q1]);
    assert(task_chars(t)[q0 + 1 + nl + 1 + q1] == '\n');
    lemma_parse_num_of_digits(s, b, t.progress.len());
    assert(expect(s, b + q1, '\n'));
    // the intervals
    let c = b + q1 + 1;
    assert(s.subrange(c, i + l) =~= task_chars(t).subrange(q0 + 1 + nl + 1 + q1 + 1, l));
    assert(task_chars(t).subrange(q0 + 1 + nl + 1 + q1 + 1, l) =~= body);
    lemma_parse_intervals_of_print(s, c, t.progress);
}

proof fn lemma_tasks_chars_front(ts: Seq<TaskM>)
    requires
        ts.len() > 0,
    ensures
        tasks_chars(ts) == task_chars(ts[0]) + tasks_chars(ts.drop_first()),
    decreases ts.len(),
{
    if ts.len() == 1 {
        assert(ts.drop_last() =~= Seq::<TaskM>::empty());
        assert(ts.drop_first() =~= Seq::<TaskM>::empty());
        assert(ts.last() == ts[0]);
        assert(tasks_chars(Seq::<TaskM>::empty()) =~= Seq::<char>::empty());
        assert(tasks_chars(ts) =~= task_chars(ts[0]) + tasks_chars(ts.drop_first()));
    } else {
        let dl = ts.drop_last();
        lemma_tasks_chars_front(dl);
        assert(ts.drop_first().drop_last() =~= dl.drop_first());
        assert(ts.drop_first().last() == ts.last());
        assert(dl[0] == ts[0]);
        assert(tasks_chars(ts.drop_first()) == tasks_chars(dl.drop_first()) + task_chars(
            ts.last(),
        ));
        assert(tasks_chars(ts) =~= task_chars(ts[0]) + tasks_chars(ts.drop_first()));
    }
}

proof fn lemma_parse_tasks_of_print(s: Seq<char>, i: int, ts: Seq<TaskM>)
    requires
        forall|k: int| 0 <= k < ts.len() ==> task_m_inv(#[trigger] ts[k]) && task_reprable(ts[k]),
        0 <= i,
        i + tasks_chars(ts).len() <= s.len(),
        s.subrange(i, i + tasks_chars(ts).len()) == tasks_chars(ts),
    ensures
        parse_tasks(s, i, ts.len() as nat) == Some(
            (ts.map_values(|t: TaskM| stored_task(t)), i + tasks_chars(ts).len()),
        ),
    decreases ts.len(),
{
    if ts.len() == 0 {
        assert(ts.map_values(|t: TaskM| stored_task(t)) =~= Seq::<TaskM>::empty());
        assert(parse_tasks(s, i, 0nat) == Some((Seq::<TaskM>::empty(), i)));
    } else {
        lemma_tasks_chars_front(ts);
        let c0 = task_chars(ts[0]);
        let l0 = c0.len() as int;
        let l = tasks_chars(ts).len() as int;
        assert(l == l0 + tasks_chars(ts.drop_first()).len());
        assert(s.subrange(i, i + l0) =~= tasks_chars(ts).subrange(0, l0));
        assert(tasks_chars(ts).subrange(0, l0) =~= c0);
        lemma_parse_task_of_print(s, i, ts[0]);
        assert(s.subrange(i + l0, i + l) =~= tasks_chars(ts).subrange(l0, l));
        assert(tasks_chars(ts).subrange(l0, l) =~= tasks_chars(ts.drop_first()));
        assert(forall|k: int|
            0 <= k < ts.drop_first().len() ==> (#[trigger] ts.drop_first()[k]) == ts[k + 1]);
        lemma_parse_tasks_of_print(s, i + l0, ts.drop_first());
        assert(seq![stored_task(ts[0])] + ts.drop_first().map_values(|t: TaskM| stored_task(t))
            =~= ts.map_values(|t: TaskM| stored_task(t)));
        assert((ts.len() - 1) as nat == ts.drop_first().len() as nat);
    }
}

/// Round trip: reading a written snapshot back gives exactly the tasks
/// that were written — same names, same completed intervals. A session
/// under way is the one thing not persisted, so every read-back task is
/// stopped; a task list that was itself stopped comes back identical.
pub proof fn lemma_snapshot_round_trip(tasks: Seq<TaskM>)
    requires
        forall|i: int| 0 <= i < tasks.len() ==> task_m_inv(#[trigger] tasks[i]),
        snapshot_reprable(tasks),
    ensures
        parse_snapshot(snapshot_chars(tasks)) == Some(
            tasks.map_values(|t: TaskM| stored_task(t)),
        ),
        (forall|i: int| 0 <= i < tasks.len() ==> (#[trigger] tasks[i]).started_at is None)
            ==> parse_snapshot(snapshot_chars(tasks)) == Some(tasks),
{
    let s = snapshot_chars(tasks);
    let d0 = dec_digits(tasks.len());
    let q0 = d0.len() as int;
    let body = tasks_chars(tasks);
    let l = s.len() as int;
    assert(l == q0 + 1 + body.len());
    assert(s.subrange(0, q0) =~= d0);
    assert(s[q0] == '\n');
    lemma_parse_num_of_digits(s, 0, tasks.len());
    assert(expect(s, q0, '\n'));
    assert(s.subrange(q0 + 1, l) =~= body);
    lemma_parse_tasks_of_print(s, q0 + 1, tasks);
    if forall|i: int| 0 <= i < tasks.len() ==> (#[trigger] tasks[i]).started_at is None {
        assert(tasks.map_values(|t: TaskM| stored_task(t)) =~= tasks);
    }
}

} // verus!
