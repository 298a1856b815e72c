//! Round-robin scheduling: preemptive with a quantum of one tick. The ready
//! set is a first-in-first-out queue of `(remaining, index)` pairs; each
//! tick the front process runs once and, if unfinished, goes to the back.
//! Processes arriving at a tick enter the queue before the just-preempted
//! runner is re-appended, keeping arrival-time fairness within the tick.

use std::collections::VecDeque;

use vstd::prelude::*;

use crate::model::{
    completed_record, lemma_rem_sum_push, pend_dur_sum, rem_sum, total_duration, wl_valid, Process,
    ScheduleError,
};
use crate::pqueue::{
    arrival_pairs, heap_len, heap_model, heap_new, heap_peek, heap_pop, heap_push,
    lemma_next_arrival_min, lemma_skip_shift,
};

verus! {

/// The round-robin state machine. `k` is the next workload index to admit,
/// `q` the ready queue of `(remaining, index)` pairs in service order, `fr`
/// the first-run time of each process, if it has run. Each step either
/// waits for and admits the next arrival to the back of the queue, or gives
/// one tick to the front process, completing it or rotating it to the back.
pub open spec fn rr_loop(
    w: Seq<Process>,
    k: nat,
    q: Seq<(u64, u64)>,
    clock: int,
    fr: Seq<Option<u64>>,
) -> Seq<Process>
    decreases pend_dur_sum(w, k as int) + rem_sum(q), w.len() - k, q.len(),
        via rr_loop_dec
{
    if k >= w.len() && q.len() == 0 {
        Seq::empty()
    } else {
        let c = if q.len() == 0 && k < w.len() && w[k as int].arrival > clock {
            w[k as int].arrival as int
        } else {
            clock
        };
        if k < w.len() && w[k as int].arrival <= c {
            rr_loop(w, k + 1, q.push((w[k as int].duration, k as u64)), c, fr)
        } else {
            let rem = q[0].0;
            let i = q[0].1 as int;
            let fr2 = if fr[i] is None {
                fr.update(i, Some(c as u64))
            } else {
                fr
            };
            if rem <= 1 {
                seq![completed_record(w[i], fr2[i], c + 1)] + rr_loop(
                    w,
                    k,
                    q.drop_first(),
                    c + 1,
                    fr2,
                )
            } else {
                rr_loop(w, k, q.drop_first().push(((rem - 1) as u64, q[0].1)), c + 1, fr2)
            }
        }
    }
}

#[via_fn]
proof fn rr_loop_dec(w: Seq<Process>, k: nat, q: Seq<(u64, u64)>, clock: int, fr: Seq<Option<u64>>) {
    if !(k >= w.len() && q.len() == 0) {
        let c = if q.len() == 0 && k < w.len() && w[k as int].arrival > clock {
            w[k as int].arrival as int
        } else {
            clock
        };
        if k < w.len() && w[k as int].arrival <= c {
            lemma_rem_sum_push(q, (w[k as int].duration, k as u64));
        } else {
            if q[0].0 > 1 {
                lemma_rem_sum_push(q.drop_first(), ((q[0].0 - 1) as u64, q[0].1));
            }
        }
    }
}

/// What round-robin produces on a non-empty workload: an empty queue and
/// the clock at the first arrival, with no process run yet.
pub open spec fn rr_runs(w: Seq<Process>) -> Seq<Process> {
    rr_loop(w, 0, Seq::empty(), w[0].arrival as int, Seq::new(w.len(), |i: int| None::<u64>))
}

/// Runs the round-robin engine; the result is exactly `rr_runs` of the
/// workload.
pub fn rr(workload: &Vec<Process>) -> (r: Result<Vec<Process>, ScheduleError>)
    requires
        wl_valid(workload@),
    ensures
        match r {
            Ok(done) => workload@.len() > 0 && done@ == rr_runs(workload@),
            Err(e) => workload@.len() == 0 && e == ScheduleError::EmptyWorkload,
        },
{
    broadcast use vstd::seq_lib::group_to_multiset_ensures;

    if workload.len() == 0 {
        return Err(ScheduleError::EmptyWorkload);
    }
    let n = workload.len();
    let ghost w_ = workload@;
    let mut todo = heap_new();
    let mut j: usize = 0;
    while j < n
        invariant
            n == w_.len(),
            w_ == workload@,
            0 <= j <= n,
            heap_model(todo) == arrival_pairs(w_).take(j as int).to_multiset(),
        decreases n - j,
    {
        broadcast use vstd::seq_lib::group_to_multiset_ensures;

        heap_push(&mut todo, (workload[j].arrival, j as u64));
        proof {
            assert(arrival_pairs(w_).take(j + 1) =~= arrival_pairs(w_).take(j as int).push(
                (w_[j as int].arrival, j as u64),
            ));
        }
        j = j + 1;
    }
    let mut fr: Vec<Option<u64>> = Vec::new();
    let mut j2: usize = 0;
    while j2 < n
        invariant
            0 <= j2 <= n,
            fr@ =~= Seq::new(j2 as nat, |i: int| None::<u64>),
        decreases n - j2,
    {
        fr.push(None);
        proof {
            assert(fr@ =~= Seq::new((j2 + 1) as nat, |i: int| None::<u64>));
        }
        j2 = j2 + 1;
    }
    let mut q: VecDeque<(u64, u64)> = VecDeque::new();
    let mut done: Vec<Process> = Vec::new();
    let ghost mut k: nat = 0;
    let mut clock: u64 = workload[0].arrival;
    proof {
        assert(arrival_pairs(w_).take(n as int) =~= arrival_pairs(w_).skip(0));
    }
    while heap_len(&todo) > 0 || q.len() > 0
        invariant
            wl_valid(w_),
            w_ == workload@,
            n == w_.len(),
            0 < n,
            0 <= k <= n,
            heap_model(todo) == arrival_pairs(w_).skip(k as int).to_multiset(),
            fr@.len() == n,
            forall|j: int| 0 <= j < q@.len() ==> (#[trigger] q@[j]).1 < n && 1 <= q@[j].0,
            pend_dur_sum(w_, k as int) + rem_sum(q@) <= total_duration(w_),
            clock + pend_dur_sum(w_, k as int) + rem_sum(q@) <= w_[n - 1].arrival + total_duration(
                w_,
            ),
            done@ + rr_loop(w_, k, q@, clock as int, fr@) == rr_runs(w_),
        decreases pend_dur_sum(w_, k as int) + rem_sum(q@), n - k,
    {
        broadcast use vstd::seq_lib::group_to_multiset_ensures;

        let ghost k0 = k;
        let ghost q0 = q@;
        let ghost c0 = clock as int;
        let ghost fr0 = fr@;
        proof {
            assert(arrival_pairs(w_).skip(k as int).to_multiset().len() == arrival_pairs(w_).skip(
                k as int,
            ).len());
        }
        let next = heap_peek(&todo);
        proof {
            if next is Some {
                lemma_next_arrival_min(w_, k as int, next.unwrap());
            }
        }
        let ready_empty = q.len() == 0;
        if next.is_some() && (ready_empty || next.unwrap().0 <= clock) {
            let (a, iu) = next.unwrap();
            if a > clock {
                clock = a;
            }
            let m = heap_pop(&mut todo).unwrap();
            proof {
                lemma_next_arrival_min(w_, k as int, m);
                lemma_skip_shift(arrival_pairs(w_), k as int);
            }
            let i: usize = m.1 as usize;
            let d: u64 = workload[i].duration;
            q.push_back((d, m.1));
            proof {
                lemma_rem_sum_push(q0, (d, m.1));
                k = k + 1;
            }
            assert(done@ + rr_loop(w_, k, q@, clock as int, fr@) == rr_runs(w_));
        } else {
            assert(q@.len() > 0);
            let m = q.pop_front().unwrap();
            proof {
                assert(q@ =~= q0.drop_first());
            }
            let i: usize = m.1 as usize;
            if fr[i].is_none() {
                fr[i] = Some(clock);
            }
            let fro: Option<u64> = fr[i];
            clock = clock + 1;
            if m.0 <= 1 {
                let rec = Process {
                    arrival: workload[i].arrival,
                    duration: workload[i].duration,
                    first_run: fro,
                    completion: Some(clock),
                    remaining_time: 0u64,
                };
                done.push(rec);
                proof {
                    assert(rr_loop(w_, k0, q0, c0, fr0) == seq![
                        completed_record(w_[m.1 as int], fr@[m.1 as int], c0 + 1),
                    ] + rr_loop(w_, k0, q@, clock as int, fr@));
                    assert(rec == completed_record(w_[m.1 as int], fr@[m.1 as int], c0 + 1));
                    assert(done@ =~= done@.subrange(0, done@.len() - 1).push(rec));
                    assert(done@.subrange(0, done@.len() - 1) + (seq![rec] + rr_loop(
                        w_,
                        k0,
                        q@,
                        clock as int,
                        fr@,
                    )) =~= done@ + rr_loop(w_, k0, q@, clock as int, fr@));
                }
            } else {
                q.push_back((m.0 - 1, m.1));
                proof {
                    lemma_rem_sum_push(q0.drop_first(), ((m.0 - 1) as u64, m.1));
                }
            }
            assert(done@ + rr_loop(w_, k, q@, clock as int, fr@) == rr_runs(w_));
        }
    }
    proof {
        assert(arrival_pairs(w_).skip(k as int).to_multiset().len() == arrival_pairs(w_).skip(
            k as int,
        ).len());
        assert(k == n);
        assert(rr_loop(w_, k, q@, clock as int, fr@) =~= Seq::<Process>::empty());
        assert(done@ =~= done@ + Seq::<Process>::empty());
    }
    Ok(done)
}

} // verus!
