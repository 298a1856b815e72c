//! Building a workload: a stable sort by arrival time (ties keep their
//! input order, as admission requires) and the validation every engine's
//! precondition asks for: non-empty, sorted, positive durations, and
//! timestamps that fit the 64-bit clock.

use vstd::multiset::Multiset;
use vstd::prelude::*;

use crate::model::{
    pend_dur_sum, total_duration, wl_bounded, wl_durations_positive, wl_sorted, wl_valid, Process,
    ScheduleError,
};

verus! {

/// Inserting a record into an arrival-sorted sequence: it goes after every
/// record whose arrival is at most its own, so records with equal arrivals
/// keep their original order.
pub open spec fn insert_sorted_spec(s: Seq<Process>, p: Process) -> Seq<Process>
    decreases s.len(),
{
    if s.len() == 0 {
        seq![p]
    } else if s.last().arrival <= p.arrival {
        s.push(p)
    } else {
        insert_sorted_spec(s.drop_last(), p).push(s.last())
    }
}

/// Stable insertion sort by arrival time, record by record.
pub open spec fn sort_by_arrival_spec(s: Seq<Process>) -> Seq<Process>
    decreases s.len(),
{
    if s.len() == 0 {
        Seq::empty()
    } else {
        insert_sorted_spec(sort_by_arrival_spec(s.drop_last()), s.last())
    }
}

pub proof fn lemma_insert_sorted(s: Seq<Process>, p: Process)
    requires
        wl_sorted(s),
    ensures
        wl_sorted(insert_sorted_spec(s, p)),
        insert_sorted_spec(s, p).to_multiset() =~= s.to_multiset().insert(p),
        insert_sorted_spec(s, p).len() == s.len() + 1,
    decreases s.len(),
{
    broadcast use vstd::seq_lib::group_to_multiset_ensures;

    let r = insert_sorted_spec(s, p);
    if s.len() == 0 {
        assert(seq![p] =~= Seq::<Process>::empty().push(p));
        assert(Seq::<Process>::empty().to_multiset() =~= Multiset::<Process>::empty());
    } else if s.last().arrival <= p.arrival {
    } else {
        assert(wl_sorted(s.drop_last()));
        lemma_insert_sorted(s.drop_last(), p);
        let r0 = insert_sorted_spec(s.drop_last(), p);
        assert forall|j: int| 0 <= j < r0.len() implies r0[j].arrival
            <= s.last().arrival by {
            assert(r0.to_multiset().contains(r0[j]));
            if r0[j] == p {
            } else {
                assert(s.drop_last().to_multiset().contains(r0[j]));
                assert(s.drop_last().contains(r0[j]));
                let t = choose|t: int| 0 <= t < s.drop_last().len() && s.drop_last()[t] == r0[j];
                assert(s[t].arrival <= s.last().arrival);
            }
        }
        assert(s.to_multiset() =~= s.drop_last().to_multiset().insert(s.last())) by {
            assert(s =~= s.drop_last().push(s.last()));
        }
    }
}

pub proof fn lemma_sort_by_arrival(s: Seq<Process>)
    ensures
        wl_sorted(sort_by_arrival_spec(s)),
        sort_by_arrival_spec(s).to_multiset() =~= s.to_multiset(),
        sort_by_arrival_spec(s).len() == s.len(),
    decreases s.len(),
{
    broadcast use vstd::seq_lib::group_to_multiset_ensures;

    if s.len() > 0 {
        lemma_sort_by_arrival(s.drop_last());
        lemma_insert_sorted(sort_by_arrival_spec(s.drop_last()), s.last());
        assert(s =~= s.drop_last().push(s.last()));
    }
}

/// Where the new record lands: before the suffix of strictly later
/// arrivals, after everything else.
proof fn lemma_insert_at(s: Seq<Process>, p: Process, j: int)
    requires
        0 <= j <= s.len(),
        j == 0 || s[j - 1].arrival <= p.arrival,
        forall|t: int| j <= t < s.len() ==> p.arrival < #[trigger] s[t].arrival,
    ensures
        insert_sorted_spec(s, p) =~= s.take(j) + seq![p] + s.skip(j),
    decreases s.len(),
{
    if s.len() == 0 {
        assert(insert_sorted_spec(s, p) =~= s.take(0) + seq![p] + s.skip(0));
    } else if s.last().arrival <= p.arrival {
        assert(j == s.len());
        assert(s.push(p) =~= s.take(j) + seq![p] + s.skip(j));
    } else {
        assert(j <= s.len() - 1);
        lemma_insert_at(s.drop_last(), p, j);
        assert(s.drop_last().take(j) =~= s.take(j));
        assert((s.take(j) + seq![p] + s.drop_last().skip(j)).push(s.last()) =~= s.take(j) + seq![p]
            + s.skip(j));
    }
}

/// Inserts a record into an arrival-sorted vector, keeping it sorted and
/// placing the record after all records of equal arrival.
fn insert_by_arrival(v: &mut Vec<Process>, p: Process)
    requires
        wl_sorted(old(v)@),
    ensures
        final(v)@ == insert_sorted_spec(old(v)@, p),
{
    let mut j: usize = v.len();
    while j > 0 && v[j - 1].arrival > p.arrival
        invariant
            wl_sorted(v@),
            0 <= j <= v@.len(),
            forall|t: int| j <= t < v@.len() ==> p.arrival < #[trigger] v@[t].arrival,
        decreases j,
    {
        j = j - 1;
    }
    proof {
        lemma_insert_at(v@, p, j as int);
    }
    v.insert(j, p);
}

/// Sorts a workload ascending by arrival time; records with equal arrivals
/// keep their input order. The result holds exactly the input's records.
pub fn sort_workload(workload: &Vec<Process>) -> (r: Vec<Process>)
    ensures
        r@ == sort_by_arrival_spec(workload@),
        wl_sorted(r@),
        r@.to_multiset() == workload@.to_multiset(),
        r@.len() == workload@.len(),
{
    let mut out: Vec<Process> = Vec::new();
    let mut i: usize = 0;
    while i < workload.len()
        invariant
            0 <= i <= workload@.len(),
            out@ == sort_by_arrival_spec(workload@.take(i as int)),
            wl_sorted(out@),
        decreases workload@.len() - i,
    {
        proof {
            lemma_sort_by_arrival(workload@.take(i as int));
            assert(workload@.take(i + 1).drop_last() =~= workload@.take(i as int));
        }
        insert_by_arrival(&mut out, workload[i]);
        proof {
            lemma_insert_sorted(sort_by_arrival_spec(workload@.take(i as int)), workload@[i as int]);
        }
        i = i + 1;
    }
    proof {
        assert(workload@.take(workload@.len() as int) =~= workload@);
        lemma_sort_by_arrival(workload@);
    }
    out
}

proof fn lemma_sorted_from_adjacent(s: Seq<Process>, i: int, j: int)
    requires
        forall|t: int| 0 <= t < s.len() - 1 ==> #[trigger] s[t].arrival <= s[t + 1].arrival,
        0 <= i <= j < s.len(),
    ensures
        s[i].arrival <= s[j].arrival,
    decreases j - i,
{
    if i < j {
        lemma_sorted_from_adjacent(s, i, j - 1);
        assert(s[j - 1].arrival <= s[j].arrival);
    }
}

/// Checks the engines' precondition and says exactly what is wrong: the
/// workload must be non-empty and sorted, every duration positive, and the
/// last arrival plus the total duration must fit the 64-bit clock.
pub fn validate_workload(workload: &Vec<Process>) -> (r: Result<(), ScheduleError>)
    ensures
        r is Ok <==> workload@.len() > 0 && wl_valid(workload@),
        r == Err::<(), ScheduleError>(ScheduleError::EmptyWorkload) <==> workload@.len() == 0,
        r == Err::<(), ScheduleError>(ScheduleError::Unsorted) <==> workload@.len() > 0
            && !wl_sorted(workload@),
        r == Err::<(), ScheduleError>(ScheduleError::ZeroDuration) <==> workload@.len() > 0
            && wl_sorted(workload@) && !wl_durations_positive(workload@),
        r == Err::<(), ScheduleError>(ScheduleError::TimeOverflow) <==> workload@.len() > 0
            && wl_sorted(workload@) && wl_durations_positive(workload@) && !wl_bounded(workload@),
{
    let n = workload.len();
    if n == 0 {
        return Err(ScheduleError::EmptyWorkload);
    }
    let mut i: usize = 0;
    while i + 1 < n
        invariant
            n == workload@.len(),
            0 <= i < n,
            forall|t: int| 0 <= t < i ==> #[trigger] workload@[t].arrival <= workload@[t
                + 1].arrival,
        decreases n - i,
    {
        if workload[i].arrival > workload[i + 1].arrival {
            return Err(ScheduleError::Unsorted);
        }
        i = i + 1;
    }
    proof {
        assert forall|a: int, b: int| 0 <= a <= b < workload@.len() implies workload@[a].arrival
            <= workload@[b].arrival by {
            if a < b {
                lemma_sorted_from_adjacent(workload@, a, b);
            }
        }
    }
    let mut i2: usize = 0;
    while i2 < n
        invariant
            n == workload@.len(),
            0 < n,
            wl_sorted(workload@),
            0 <= i2 <= n,
            forall|t: int| 0 <= t < i2 ==> #[trigger] workload@[t].duration >= 1,
        decreases n - i2,
    {
        if workload[i2].duration == 0 {
            return Err(ScheduleError::ZeroDuration);
        }
        i2 = i2 + 1;
    }
    let mut sum: u128 = 0;
    let mut i3: usize = 0;
    while i3 < n
        invariant
            n == workload@.len(),
            0 < n,
            wl_sorted(workload@),
            wl_durations_positive(workload@),
            0 <= i3 <= n,
            sum + pend_dur_sum(workload@, i3 as int) == total_duration(workload@),
            sum <= i3 * 0xffff_ffff_ffff_ffffu64,
        decreases n - i3,
    {
        proof {
            assert((i3 + 1) * 0xffff_ffff_ffff_ffffu64 == i3 * 0xffff_ffff_ffff_ffffu64
                + 0xffff_ffff_ffff_ffffu64) by (nonlinear_arith);
            assert(i3 * 0xffff_ffff_ffff_ffffu64 <= (usize::MAX as int)
                * 0xffff_ffff_ffff_ffffu64) by (nonlinear_arith)
                requires i3 <= usize::MAX as int;
            assert((usize::MAX as int) * 0xffff_ffff_ffff_ffffu64 + 0xffff_ffff_ffff_ffffu64
                <= u128::MAX) by (nonlinear_arith);
        }
        sum = sum + (workload[i3].duration as u128);
        i3 = i3 + 1;
    }
    if sum > u64::MAX as u128 || workload[n - 1].arrival > u64::MAX - (sum as u64) {
        return Err(ScheduleError::TimeOverflow);
    }
    Ok(())
}

} // verus!
