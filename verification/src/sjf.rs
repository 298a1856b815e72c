//! Shortest-job-first scheduling: non-preemptive; among the processes that
//! have arrived, the one with the least duration runs to completion, ties
//! broken by workload position. The ready set is a min-heap of
//! `(duration, index)` pairs.

use vstd::prelude::*;

use crate::model::{
    completed_record, lemma_min_pos_in_range, lemma_rem_sum_element, lemma_rem_sum_push,
    lemma_rem_sum_remove, min_pos, pend_dur_sum, rem_sum, total_duration, wl_valid, Process,
    ScheduleError,
};
use crate::pqueue::{heap_len, heap_model, heap_new, heap_pop, heap_push, lemma_pop_is_min_pos};

verus! {

/// The SJF state machine. `k` is the next workload index to admit, `ready`
/// the admitted-but-unfinished `(duration, index)` pairs, `clock` the
/// simulated time. Each step either waits for and admits the next arrival,
/// or runs the ready process with the least `(duration, index)` pair to
/// completion; the machine stops when nothing is admitted or ready.
pub open spec fn sjf_loop(w: Seq<Process>, k: nat, ready: Seq<(u64, u64)>, clock: int) -> Seq<
    Process,
>
    decreases pend_dur_sum(w, k as int) + rem_sum(ready), w.len() - k, ready.len(),
        via sjf_loop_dec
{
    if k >= w.len() && ready.len() == 0 {
        Seq::empty()
    } else {
        let c = if ready.len() == 0 && k < w.len() && w[k as int].arrival > clock {
            w[k as int].arrival as int
        } else {
            clock
        };
        if k < w.len() && w[k as int].arrival <= c {
            sjf_loop(w, k + 1, ready.push((w[k as int].duration, k as u64)), c)
        } else {
            let p = min_pos(ready);
            let d = ready[p].0;
            let i = ready[p].1 as int;
            seq![completed_record(w[i], Some(c as u64), c + d)] + sjf_loop(
                w,
                k,
                ready.remove(p),
                c + d,
            )
        }
    }
}

#[via_fn]
proof fn sjf_loop_dec(w: Seq<Process>, k: nat, ready: Seq<(u64, u64)>, clock: int) {
    if !(k >= w.len() && ready.len() == 0) {
        let c = if ready.len() == 0 && k < w.len() && w[k as int].arrival > clock {
            w[k as int].arrival as int
        } else {
            clock
        };
        if k < w.len() && w[k as int].arrival <= c {
            lemma_rem_sum_push(ready, (w[k as int].duration, k as u64));
            assert(pend_dur_sum(w, k as int) == w[k as int].duration + pend_dur_sum(w, k as int + 1));
            assert(pend_dur_sum(w, k as int + 1) + rem_sum(ready.push((w[k as int].duration, k as u64)))
                == pend_dur_sum(w, k as int) + rem_sum(ready));
        } else {
            lemma_min_pos_in_range(ready);
            lemma_rem_sum_remove(ready, min_pos(ready));
        }
    }
}

/// What SJF produces on a non-empty workload: the machine started with
/// nothing admitted and the clock at the first arrival.
pub open spec fn sjf_runs(w: Seq<Process>) -> Seq<Process> {
    sjf_loop(w, 0, Seq::empty(), w[0].arrival as int)
}

/// Runs the SJF engine; the result is exactly `sjf_runs` of the workload.
pub fn sjf(workload: &Vec<Process>) -> (r: Result<Vec<Process>, ScheduleError>)
    requires
        wl_valid(workload@),
    ensures
        match r {
            Ok(done) => workload@.len() > 0 && done@ == sjf_runs(workload@),
            Err(e) => workload@.len() == 0 && e == ScheduleError::EmptyWorkload,
        },
{
    broadcast use vstd::seq_lib::group_to_multiset_ensures;

    if workload.len() == 0 {
        return Err(ScheduleError::EmptyWorkload);
    }
    let n = workload.len();
    let mut heap = heap_new();
    let mut done: Vec<Process> = Vec::new();
    let mut k: usize = 0;
    let mut clock: u64 = workload[0].arrival;
    let ghost mut g_ready: Seq<(u64, u64)> = Seq::empty();
    while k < n || heap_len(&heap) > 0
        invariant
            wl_valid(workload@),
            n == workload@.len(),
            0 < n,
            0 <= k <= n,
            heap_model(heap) == g_ready.to_multiset(),
            forall|j: int|
                0 <= j < g_ready.len() ==> (#[trigger] g_ready[j]).1 < n && g_ready[j].0
                    == workload@[g_ready[j].1 as int].duration,
            pend_dur_sum(workload@, k as int) + rem_sum(g_ready) <= total_duration(workload@),
            clock + pend_dur_sum(workload@, k as int) + rem_sum(g_ready) <= workload@[n
                - 1].arrival + total_duration(workload@),
            done@ + sjf_loop(workload@, k as nat, g_ready, clock as int) == sjf_runs(workload@),
        decreases pend_dur_sum(workload@, k as int) + rem_sum(g_ready), n - k,
    {
        broadcast use vstd::seq_lib::group_to_multiset_ensures;

        let ghost w_ = workload@;
        let ghost k0 = k as nat;
        let ghost q0 = g_ready;
        let ghost c0 = clock as int;
        proof {
            assert(g_ready.to_multiset().len() == g_ready.len());
        }
        if k < n && (heap_len(&heap) == 0 || workload[k].arrival <= clock) {
            if workload[k].arrival > clock {
                assert(g_ready.len() == 0);
                clock = workload[k].arrival;
            }
            let d: u64 = workload[k].duration;
            heap_push(&mut heap, (d, k as u64));
            proof {
                lemma_rem_sum_push(g_ready, (d, k as u64));
                assert(g_ready.push((d, k as u64)).to_multiset() =~= g_ready.to_multiset().insert(
                    (d, k as u64),
                ));
                g_ready = g_ready.push((d, k as u64));
            }
            k = k + 1;
            assert(done@ + sjf_loop(w_, k as nat, g_ready, clock as int) == sjf_runs(w_));
        } else {
            assert(g_ready.len() > 0);
            let m_opt = heap_pop(&mut heap);
            let m = m_opt.unwrap();
            let ghost p = min_pos(g_ready);
            proof {
                lemma_pop_is_min_pos(g_ready, m);
                lemma_min_pos_in_range(g_ready);
                lemma_rem_sum_remove(g_ready, p);
                lemma_rem_sum_element(g_ready, p);
            }
            let i: usize = m.1 as usize;
            let fr: u64 = clock;
            clock = clock + m.0;
            let rec = Process {
                arrival: workload[i].arrival,
                duration: workload[i].duration,
                first_run: Some(fr),
                completion: Some(clock),
                remaining_time: 0u64,
            };
            done.push(rec);
            proof {
                g_ready = g_ready.remove(p);
                assert(sjf_loop(w_, k0, q0, c0) == seq![
                    completed_record(w_[m.1 as int], Some(c0 as u64), c0 + m.0),
                ] + sjf_loop(w_, k0, g_ready, clock as int));
                assert(rec == completed_record(w_[m.1 as int], Some(c0 as u64), c0 + m.0));
                assert(done@ =~= done@.subrange(0, done@.len() - 1).push(rec));
                assert(done@.subrange(0, done@.len() - 1) + (seq![rec] + sjf_loop(
                    w_,
                    k0,
                    g_ready,
                    clock as int,
                )) =~= done@ + sjf_loop(w_, k0, g_ready, clock as int));
            }
            assert(done@ + sjf_loop(w_, k as nat, g_ready, clock as int) == sjf_runs(w_));
        }
    }
    proof {
        assert(g_ready.to_multiset().len() == 0);
        assert(g_ready.len() == 0);
        assert(sjf_loop(workload@, n as nat, g_ready, clock as int) =~= Seq::<Process>::empty());
        assert(done@ =~= done@ + Seq::<Process>::empty());
    }
    Ok(done)
}

} // verus!
