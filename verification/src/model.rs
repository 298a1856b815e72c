//! The process record, workload well-formedness, and the shared
//! specification vocabulary of the scheduling engines: duration sums,
//! ready-pair sequences and their minimum, and the record a finished
//! process leaves behind.

use vstd::prelude::*;

verus! {

/// One simulated task. `arrival` and `duration` are fixed at construction;
/// the engines fill `first_run` and `completion` and drive `remaining_time`
/// down to zero. `None` marks a timestamp that has not been set yet.
#[derive(Clone, Copy, Debug)]
pub struct Process {
    pub arrival: u64,
    pub duration: u64,
    pub first_run: Option<u64>,
    pub completion: Option<u64>,
    pub remaining_time: u64,
}

impl Process {
    /// Builds a process from its arrival time and service duration, with
    /// both timestamps unset and the full duration still remaining.
    pub fn new(arrival: u64, duration: u64) -> (p: Process)
        ensures
            p == (Process {
                arrival,
                duration,
                first_run: None::<u64>,
                completion: None::<u64>,
                remaining_time: duration,
            }),
    {
        Process { arrival, duration, first_run: None, completion: None, remaining_time: duration }
    }
}

/// Why a workload was rejected before simulation.
#[derive(Clone, Copy, Debug, PartialEq, Eq, Structural)]
pub enum ScheduleError {
    /// The workload holds no process at all.
    EmptyWorkload,
    /// Two processes stand in the wrong order of arrival.
    Unsorted,
    /// A process asks for zero service time; its remaining time could
    /// never reach zero by running.
    ZeroDuration,
    /// The timestamps of a full run would not fit in 64 bits.
    TimeOverflow,
}

/// The workload is sorted ascending by arrival time.
pub open spec fn wl_sorted(w: Seq<Process>) -> bool {
    forall|i: int, j: int| 0 <= i <= j < w.len() ==> w[i].arrival <= w[j].arrival
}

/// Every process asks for at least one tick of service.
pub open spec fn wl_durations_positive(w: Seq<Process>) -> bool {
    forall|i: int| 0 <= i < w.len() ==> w[i].duration >= 1
}

/// Sum of the durations of the processes from index `k` on.
pub open spec fn pend_dur_sum(w: Seq<Process>, k: int) -> nat
    decreases w.len() - k,
{
    if 0 <= k < w.len() {
        (w[k].duration + pend_dur_sum(w, k + 1)) as nat
    } else {
        0
    }
}

/// Sum of all service durations in the workload.
pub open spec fn total_duration(w: Seq<Process>) -> nat {
    pend_dur_sum(w, 0)
}

/// The clock never leaves `u64`: even after waiting for the last arrival
/// and serving every process, time stays below `u64::MAX`.
pub open spec fn wl_bounded(w: Seq<Process>) -> bool {
    w.len() > 0 ==> w[w.len() - 1].arrival + total_duration(w) <= u64::MAX
}

/// A workload every engine accepts: sorted, positive durations, and
/// timestamps that fit the clock.
pub open spec fn wl_valid(w: Seq<Process>) -> bool {
    wl_sorted(w) && wl_durations_positive(w) && wl_bounded(w)
}

/// The record a process leaves when it completes at time `c`: arrival and
/// duration are kept, the remaining time has reached zero.
pub open spec fn completed_record(p: Process, fr: Option<u64>, c: int) -> Process {
    Process {
        arrival: p.arrival,
        duration: p.duration,
        first_run: fr,
        completion: Some(c as u64),
        remaining_time: 0u64,
    }
}

/// Order on ready pairs `(key, index)`: by key, then by workload index.
/// This is the order `Ord` gives to pairs of integers, and it is total.
pub open spec fn pair_le(a: (u64, u64), b: (u64, u64)) -> bool {
    a.0 < b.0 || (a.0 == b.0 && a.1 <= b.1)
}

/// Position of the least pair of a sequence under `pair_le`.
pub open spec fn min_pos(q: Seq<(u64, u64)>) -> int
    decreases q.len(),
{
    if q.len() <= 1 {
        0
    } else {
        let m = min_pos(q.drop_last());
        if pair_le(q[m], q.last()) {
            m
        } else {
            q.len() - 1
        }
    }
}

/// Sum of the first components (the remaining-time keys) of a pair sequence.
pub open spec fn rem_sum(q: Seq<(u64, u64)>) -> nat
    decreases q.len(),
{
    if q.len() == 0 {
        0
    } else {
        (q[0].0 + rem_sum(q.drop_first())) as nat
    }
}

pub proof fn lemma_pend_dur_sum_le(w: Seq<Process>, k1: int, k2: int)
    requires
        0 <= k1 <= k2,
    ensures
        pend_dur_sum(w, k2) <= pend_dur_sum(w, k1),
    decreases k2 - k1,
{
    if k1 < k2 {
        lemma_pend_dur_sum_le(w, k1 + 1, k2);
    }
}

pub proof fn lemma_min_pos_in_range(q: Seq<(u64, u64)>)
    requires
        q.len() > 0,
    ensures
        0 <= min_pos(q) < q.len(),
        forall|j: int| 0 <= j < q.len() ==> pair_le(q[min_pos(q)], #[trigger] q[j]),
    decreases q.len(),
{
    if q.len() > 1 {
        lemma_min_pos_in_range(q.drop_last());
        let m = min_pos(q.drop_last());
        assert(forall|j: int|
            0 <= j < q.len() - 1 ==> q.drop_last()[j] == #[trigger] q[j]);
        assert(forall|j: int| 0 <= j < q.len() - 1 ==> pair_le(q.drop_last()[m], #[trigger] q[j]));
    }
}

pub proof fn lemma_rem_sum_push(q: Seq<(u64, u64)>, x: (u64, u64))
    ensures
        rem_sum(q.push(x)) == rem_sum(q) + x.0,
    decreases q.len(),
{
    if q.len() == 0 {
        assert(q.push(x).drop_first() =~= q);
    } else {
        assert(q.push(x).drop_first() =~= q.drop_first().push(x));
        lemma_rem_sum_push(q.drop_first(), x);
    }
}

pub proof fn lemma_rem_sum_remove(q: Seq<(u64, u64)>, i: int)
    requires
        0 <= i < q.len(),
    ensures
        rem_sum(q.remove(i)) + q[i].0 == rem_sum(q),
    decreases q.len(),
{
    if i == 0 {
        assert(q.remove(0) =~= q.drop_first());
    } else {
        assert(q.remove(i).drop_first() =~= q.drop_first().remove(i - 1));
        lemma_rem_sum_remove(q.drop_first(), i - 1);
    }
}

pub proof fn lemma_rem_sum_prepend(q: Seq<(u64, u64)>, x: (u64, u64))
    ensures
        rem_sum(seq![x] + q) == rem_sum(q) + x.0,
{
    assert((seq![x] + q).drop_first() =~= q);
    assert((seq![x] + q)[0] == x);
}

pub proof fn lemma_rem_sum_element(q: Seq<(u64, u64)>, i: int)
    requires
        0 <= i < q.len(),
    ensures
        q[i].0 <= rem_sum(q),
    decreases q.len(),
{
    if i > 0 {
        lemma_rem_sum_element(q.drop_first(), i - 1);
    }
}

} // verus!
