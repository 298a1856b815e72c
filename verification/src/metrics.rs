//! Metrics over completed process records: total turnaround time
//! (completion minus arrival) and total response time (first run minus
//! arrival), as exact integer sums. An average is the total divided by the
//! number of records; that division is left to the caller, so the library
//! never touches inexact arithmetic.

use vstd::prelude::*;

use crate::model::Process;

verus! {

/// A record as the engines emit it on completion: both timestamps set, and
/// arrival, first run and completion in order.
pub open spec fn completed_ok(p: Process) -> bool {
    match (p.first_run, p.completion) {
        (Some(f), Some(c)) => p.arrival <= f && f <= c,
        _ => false,
    }
}

/// Turnaround time of one record: completion minus arrival.
pub open spec fn turnaround_of(p: Process) -> int {
    match p.completion {
        Some(c) => c - p.arrival,
        None => 0,
    }
}

/// Response time of one record: first run minus arrival.
pub open spec fn response_of(p: Process) -> int {
    match p.first_run {
        Some(f) => f - p.arrival,
        None => 0,
    }
}

/// Sum of the turnaround times of a sequence of records.
pub open spec fn total_turnaround_of(s: Seq<Process>) -> int
    decreases s.len(),
{
    if s.len() == 0 {
        0
    } else {
        total_turnaround_of(s.drop_last()) + turnaround_of(s.last())
    }
}

/// Sum of the response times of a sequence of records.
pub open spec fn total_response_of(s: Seq<Process>) -> int
    decreases s.len(),
{
    if s.len() == 0 {
        0
    } else {
        total_response_of(s.drop_last()) + response_of(s.last())
    }
}

/// Sum of the turnaround times of the completed records, exactly.
pub fn total_turnaround(processes: &Vec<Process>) -> (r: u128)
    requires
        forall|i: int| 0 <= i < processes@.len() ==> completed_ok(#[trigger] processes@[i]),
    ensures
        r == total_turnaround_of(processes@),
{
    let mut sum: u128 = 0;
    let mut i: usize = 0;
    while i < processes.len()
        invariant
            forall|j: int| 0 <= j < processes@.len() ==> completed_ok(#[trigger] processes@[j]),
            0 <= i <= processes@.len(),
            sum == total_turnaround_of(processes@.take(i as int)),
            sum <= i * 0xffff_ffff_ffff_ffffu64,
        decreases processes@.len() - i,
    {
        let p = &processes[i];
        let t: u64 = match p.completion {
            Some(c) => c - p.arrival,
            None => 0,
        };
        proof {
            assert(processes@.take(i + 1).drop_last() =~= processes@.take(i as int));
            assert((i + 1) * 0xffff_ffff_ffff_ffffu64 == i * 0xffff_ffff_ffff_ffffu64
                + 0xffff_ffff_ffff_ffffu64) by (nonlinear_arith);
            assert(i * 0xffff_ffff_ffff_ffffu64 <= (usize::MAX as int)
                * 0xffff_ffff_ffff_ffffu64) by (nonlinear_arith)
                requires i <= usize::MAX as int;
            assert((usize::MAX as int) * 0xffff_ffff_ffff_ffffu64 + 0xffff_ffff_ffff_ffffu64
                <= u128::MAX) by (nonlinear_arith);
        }
        sum = sum + (t as u128);
        i = i + 1;
    }
    proof {
        assert(processes@.take(processes@.len() as int) =~= processes@);
    }
    sum
}

/// Sum of the response times of the completed records, exactly.
pub fn total_response(processes: &Vec<Process>) -> (r: u128)
    requires
        forall|i: int| 0 <= i < processes@.len() ==> completed_ok(#[trigger] processes@[i]),
    ensures
        r == total_response_of(processes@),
{
    let mut sum: u128 = 0;
    let mut i: usize = 0;
    while i < processes.len()
        invariant
            forall|j: int| 0 <= j < processes@.len() ==> completed_ok(#[trigger] processes@[j]),
            0 <= i <= processes@.len(),
            sum == total_response_of(processes@.take(i as int)),
            sum <= i * 0xffff_ffff_ffff_ffffu64,
        decreases processes@.len() - i,
    {
        let p = &processes[i];
        let t: u64 = match p.first_run {
            Some(f) => f - p.arrival,
            None => 0,
        };
        proof {
            assert(processes@.take(i + 1).drop_last() =~= processes@.take(i as int));
            assert((i + 1) * 0xffff_ffff_ffff_ffffu64 == i * 0xffff_ffff_ffff_ffffu64
                + 0xffff_ffff_ffff_ffffu64) by (nonlinear_arith);
            assert(i * 0xffff_ffff_ffff_ffffu64 <= (usize::MAX as int)
                * 0xffff_ffff_ffff_ffffu64) by (nonlinear_arith)
                requires i <= usize::MAX as int;
            assert((usize::MAX as int) * 0xffff_ffff_ffff_ffffu64 + 0xffff_ffff_ffff_ffffu64
                <= u128::MAX) by (nonlinear_arith);
        }
        sum = sum + (t as u128);
        i = i + 1;
    }
    proof {
        assert(processes@.take(processes@.len() as int) =~= processes@);
    }
    sum
}

/// The metrics are pure functions of the completed sequence: two
/// computations over the same sequence agree, whichever came first.
pub proof fn lemma_metrics_idempotent(s: Seq<Process>, t1: int, t2: int, r1: int, r2: int)
    requires
        t1 == total_turnaround_of(s),
        t2 == total_turnaround_of(s),
        r1 == total_response_of(s),
        r2 == total_response_of(s),
    ensures
        t1 == t2,
        r1 == r2,
{
}

} // verus!
