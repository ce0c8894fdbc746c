//! Human-readable text for tasks and their recorded sessions: each
//! interval as local `hour:minute - hour:minute` in the fixed zone, and a
//! task as its name followed by one indented line per interval.
use crate::daykey::{civil_istanbul, istanbul_civil_of, MAX_DAY_KEY_SECS};
use crate::store::{task_wf, IntervalM, Task, TaskM, TaskProgress};
use crate::text::dec_digits;
use crate::time::{ts_wf, NANOS_PER_SEC};
use vstd::prelude::*;
use vstd::string::StringExecFns;

verus! {

/// Local time of day as `hour:minute`, unpadded.
pub open spec fn time_of_day_chars(hour: u32, minute: u32) -> Seq<char> {
    dec_digits(hour as nat) + seq![':'] + dec_digits(minute as nat)
}

/// The local hour and minute of an instant given in nanoseconds.
pub open spec fn civil_hm_chars(nanos: int) -> Seq<char> {
    let (d, m, y, hour, minute) = istanbul_civil_of((nanos / (NANOS_PER_SEC as int)) as u64);
    time_of_day_chars(hour, minute)
}

/// Display text of one interval: its two instants' local times of day.
pub open spec fn interval_display_chars(iv: IntervalM) -> Seq<char> {
    civil_hm_chars(iv.start) + seq![' ', '-', ' '] + civil_hm_chars(iv.end)
}

/// Display text of a task's intervals: one indented line each.
pub open spec fn progress_display_chars(ps: Seq<IntervalM>) -> Seq<char>
    decreases ps.len(),
{
    if ps.len() == 0 {
        Seq::empty()
    } else {
        progress_display_chars(ps.drop_last()) + seq![' ', ' '] + interval_display_chars(ps.last())
            + seq!['\n']
    }
}

/// Display text of a task: its name, then its intervals.
pub open spec fn task_display_chars(t: TaskM) -> Seq<char> {
    t.name + seq!['\n'] + progress_display_chars(t.progress)
}

/// Instants whose civil time the fixed zone's table covers.
pub open spec fn displayable_ts(nanos: int) -> bool {
    0 <= nanos && nanos / (NANOS_PER_SEC as int) <= MAX_DAY_KEY_SECS
}

fn hm_text(t: crate::time::Timestamp) -> (r: String)
    requires
        ts_wf(t),
        t.secs <= MAX_DAY_KEY_SECS,
    ensures
        r@ == civil_hm_chars(t@),
{
    proof {
        vstd::arithmetic::div_mod::lemma_fundamental_div_mod_converse(
            t@,
            NANOS_PER_SEC as int,
            t.secs as int,
            t.nanos as int,
        );
    }
    let (_d, _m, _y, hour, minute) = civil_istanbul(t.secs);
    let mut out = crate::text::render_u64(hour as u64);
    out.append(":");
    let minute_str = crate::text::render_u64(minute as u64);
    out.append(minute_str.as_str());
    proof {
        reveal_strlit(":");
        assert(out@ =~= civil_hm_chars(t@));
    }
    out
}

impl TaskProgress {
    /// Renders this interval as `hour:minute - hour:minute`, local to the
    /// fixed zone.
    pub fn display_text(&self) -> (r: String)
        requires
            ts_wf(self.start),
            ts_wf(self.end),
            self.start.secs <= MAX_DAY_KEY_SECS,
            self.end.secs <= MAX_DAY_KEY_SECS,
        ensures
            r@ == interval_display_chars(self@),
    {
        let mut out = hm_text(self.start);
        out.append(" - ");
        let end_str = hm_text(self.end);
        out.append(end_str.as_str());
        proof {
            reveal_strlit(" - ");
            assert(out@ =~= interval_display_chars(self@));
        }
        out
    }
}

impl Task {
    /// The task's display text: the name on one line, then one indented
    /// line per completed session with its local times.
    pub fn display_text(&self) -> (r: String)
        requires
            task_wf(*self),
            forall|i: int|
                0 <= i < self.progress.len() ==> (#[trigger] self.progress[i]).start.secs
                    <= MAX_DAY_KEY_SECS && self.progress[i].end.secs <= MAX_DAY_KEY_SECS,
        ensures
            r@ == task_display_chars(self@),
    {
        let ghost model = self@;
        let mut out = self.name.clone();
        out.append("\n");
        proof {
            reveal_strlit("\n");
            assert(out@ =~= model.name + seq!['\n']);
            assert(model.progress.take(0) =~= Seq::<IntervalM>::empty());
        }
        let n = self.progress.len();
        for i in 0..n
            invariant
                n == self.progress.len(),
                task_wf(*self),
                model == self@,
                forall|k: int|
                    0 <= k < self.progress.len() ==> (#[trigger] self.progress[k]).start.secs
                        <= MAX_DAY_KEY_SECS && self.progress[k].end.secs <= MAX_DAY_KEY_SECS,
                out@ == model.name + seq!['\n'] + progress_display_chars(
                    model.progress.take(i as int),
                ),
        {
            let p = self.progress[i];
            proof {
                assert(p@ == model.progress[i as int]);
            }
            out.append("  ");
            let line = p.display_text();
            out.append(line.as_str());
            out.append("\n");
            proof {
                reveal_strlit("  ");
                reveal_strlit("\n");
                assert(model.progress.take(i + 1).drop_last() =~= model.progress.take(i as int));
                assert(model.progress.take(i + 1).last() == model.progress[i as int]);
                assert(out@ =~= model.name + seq!['\n'] + progress_display_chars(
                    model.progress.take(i + 1),
                ));
            }
        }
        proof {
            assert(model.progress.take(n as int) =~= model.progress);
        }
        out
    }
}

} // verus!
