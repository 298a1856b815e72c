//! First-in-first-out scheduling: the processes run to completion strictly
//! in arrival order, the clock waiting at idle times for the next arrival.

use vstd::prelude::*;

use crate::model::{
    completed_record, lemma_pend_dur_sum_le, pend_dur_sum, total_duration, wl_valid, Process,
    ScheduleError,
};

verus! {

/// The time at which the `i`-th process starts running under FIFO: the
/// previous process's completion time, or the process's own arrival if the
/// machine is idle by then. The first process starts at its arrival.
pub open spec fn fifo_start(w: Seq<Process>, i: int) -> int
    decreases i,
{
    if i <= 0 {
        w[0].arrival as int
    } else {
        let prev_end = fifo_start(w, i - 1) + w[i - 1].duration;
        if prev_end >= w[i].arrival {
            prev_end
        } else {
            w[i].arrival as int
        }
    }
}

/// Start times stay within the clock's budget: waiting never puts the clock
/// past the last arrival, and running consumes from the duration sum.
pub proof fn lemma_fifo_start_bound(w: Seq<Process>, i: int)
    requires
        crate::model::wl_sorted(w),
        0 <= i < w.len(),
    ensures
        w[0].arrival <= fifo_start(w, i),
        fifo_start(w, i) + pend_dur_sum(w, i) <= w[w.len() - 1].arrival + total_duration(w),
    decreases i,
{
    if i == 0 {
        lemma_pend_dur_sum_le(w, 0, 0);
    } else {
        lemma_fifo_start_bound(w, i - 1);
        lemma_pend_dur_sum_le(w, 0, i);
    }
}

/// Runs the FIFO engine. On a non-empty workload the result holds one
/// completed record per process, in arrival order: process `i` first runs at
/// `fifo_start(w, i)` and completes a full duration later.
pub fn fifo(workload: &Vec<Process>) -> (r: Result<Vec<Process>, ScheduleError>)
    requires
        wl_valid(workload@),
    ensures
        match r {
            Ok(done) => workload@.len() > 0 && done@.len() == workload@.len() && forall|i: int|
                0 <= i < workload@.len() ==> done@[i] == completed_record(
                    workload@[i],
                    Some(fifo_start(workload@, i) as u64),
                    fifo_start(workload@, i) + workload@[i].duration,
                ),
            Err(e) => workload@.len() == 0 && e == ScheduleError::EmptyWorkload,
        },
{
    if workload.len() == 0 {
        return Err(ScheduleError::EmptyWorkload);
    }
    let n = workload.len();
    let mut done: Vec<Process> = Vec::new();
    let mut clock: u64 = workload[0].arrival;
    let mut i: usize = 0;
    while i < n
        invariant
            wl_valid(workload@),
            n == workload@.len(),
            0 < n,
            0 <= i <= n,
            done@.len() == i,
            clock == if i == 0 {
                workload@[0].arrival as int
            } else {
                fifo_start(workload@, i - 1) + workload@[i - 1].duration
            },
            forall|j: int| 0 <= j < i ==> done@[j] == completed_record(
                workload@[j],
                Some(fifo_start(workload@, j) as u64),
                fifo_start(workload@, j) + workload@[j].duration,
            ),
        decreases n - i,
    {
        proof {
            lemma_fifo_start_bound(workload@, i as int);
            if i > 0 {
                lemma_fifo_start_bound(workload@, i - 1);
            }
            lemma_pend_dur_sum_le(workload@, i as int, i + 1);
        }
        let start: u64 = if clock >= workload[i].arrival {
            clock
        } else {
            workload[i].arrival
        };
        assert(start == fifo_start(workload@, i as int));
        let end: u64 = start + workload[i].duration;
        done.push(
            Process {
                arrival: workload[i].arrival,
                duration: workload[i].duration,
                first_run: Some(start),
                completion: Some(end),
                remaining_time: 0u64,
            },
        );
        clock = end;
        i = i + 1;
    }
    Ok(done)
}

} // verus!
