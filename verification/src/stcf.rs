//! Shortest-time-to-completion-first scheduling: preemptive with a quantum
//! of one tick. Every tick the process with the least remaining service time
//! runs, ties broken by workload position; a newly arrived shorter job
//! preempts the running one. The ready set is a min-heap of
//! `(remaining, index)` pairs, rebuilt with the decremented key each tick.

use vstd::prelude::*;

use crate::model::{
    completed_record, lemma_min_pos_in_range, lemma_rem_sum_element, lemma_rem_sum_push,
    lemma_rem_sum_remove, min_pos, pend_dur_sum, rem_sum, total_duration, wl_valid, Process,
    ScheduleError,
};
use crate::pqueue::{
    arrival_pairs, heap_len, heap_model, heap_new, heap_peek, heap_pop, heap_push,
    lemma_next_arrival_min, lemma_pop_is_min_pos, lemma_skip_shift,
};

verus! {

/// The STCF state machine. `k` is the next workload index to admit, `ready`
/// the admitted-but-unfinished `(remaining, index)` pairs, `fr` the
/// first-run time of each process, if it has run. Each step either waits
/// for and admits the next arrival (with its full duration as remaining
/// time), or gives one tick to the ready process with the least
/// `(remaining, index)` pair, completing it when its remaining time ends.
pub open spec fn stcf_loop(
    w: Seq<Process>,
    k: nat,
    ready: Seq<(u64, u64)>,
    clock: int,
    fr: Seq<Option<u64>>,
) -> Seq<Process>
    decreases pend_dur_sum(w, k as int) + rem_sum(ready), w.len() - k, ready.len(),
        via stcf_loop_dec
{
    if k >= w.len() && ready.len() == 0 {
        Seq::empty()
    } else {
        let c = if ready.len() == 0 && k < w.len() && w[k as int].arrival > clock {
            w[k as int].arrival as int
        } else {
            clock
        };
        if k < w.len() && w[k as int].arrival <= c {
            stcf_loop(w, k + 1, ready.push((w[k as int].duration, k as u64)), c, fr)
        } else {
            let p = min_pos(ready);
            let rem = ready[p].0;
            let i = ready[p].1 as int;
            let fr2 = if fr[i] is None {
                fr.update(i, Some(c as u64))
            } else {
                fr
            };
            if rem <= 1 {
                seq![completed_record(w[i], fr2[i], c + 1)] + stcf_loop(
                    w,
                    k,
                    ready.remove(p),
                    c + 1,
                    fr2,
                )
            } else {
                stcf_loop(w, k, ready.remove(p).push(((rem - 1) as u64, ready[p].1)), c + 1, fr2)
            }
        }
    }
}

#[via_fn]
proof fn stcf_loop_dec(
    w: Seq<Process>,
    k: nat,
    ready: Seq<(u64, u64)>,
    clock: int,
    fr: Seq<Option<u64>>,
) {
    if !(k >= w.len() && ready.len() == 0) {
        let c = if ready.len() == 0 && k < w.len() && w[k as int].arrival > clock {
            w[k as int].arrival as int
        } else {
            clock
        };
        if k < w.len() && w[k as int].arrival <= c {
            lemma_rem_sum_push(ready, (w[k as int].duration, k as u64));
        } else {
            lemma_min_pos_in_range(ready);
            let p = min_pos(ready);
            lemma_rem_sum_remove(ready, p);
            if ready[p].0 > 1 {
                lemma_rem_sum_push(ready.remove(p), ((ready[p].0 - 1) as u64, ready[p].1));
            }
        }
    }
}

/// What STCF produces on a non-empty workload: nothing admitted, the clock
/// at the first arrival, and no process run yet.
pub open spec fn stcf_runs(w: Seq<Process>) -> Seq<Process> {
    stcf_loop(w, 0, Seq::empty(), w[0].arrival as int, Seq::new(w.len(), |i: int| None::<u64>))
}

/// Runs the STCF engine; the result is exactly `stcf_runs` of the workload.
pub fn stcf(workload: &Vec<Process>) -> (r: Result<Vec<Process>, ScheduleError>)
    requires
        wl_valid(workload@),
    ensures
        match r {
            Ok(done) => workload@.len() > 0 && done@ == stcf_runs(workload@),
            Err(e) => workload@.len() == 0 && e == ScheduleError::EmptyWorkload,
        },
{
    broadcast use vstd::seq_lib::group_to_multiset_ensures;

    if workload.len() == 0 {
        return Err(ScheduleError::EmptyWorkload);
    }
    let n = workload.len();
    let ghost w_ = workload@;
    let mut todo = heap_new();
    let mut j: usize = 0;
    while j < n
        invariant
            n == w_.len(),
            w_ == workload@,
            0 <= j <= n,
            heap_model(todo) == arrival_pairs(w_).take(j as int).to_multiset(),
        decreases n - j,
    {
        broadcast use vstd::seq_lib::group_to_multiset_ensures;

        heap_push(&mut todo, (workload[j].arrival, j as u64));
        proof {
            assert(arrival_pairs(w_).take(j + 1) =~= arrival_pairs(w_).take(j as int).push(
                (w_[j as int].arrival, j as u64),
            ));
        }
        j = j + 1;
    }
    let mut fr: Vec<Option<u64>> = Vec::new();
    let mut j2: usize = 0;
    while j2 < n
        invariant
            0 <= j2 <= n,
            fr@ =~= Seq::new(j2 as nat, |i: int| None::<u64>),
        decreases n - j2,
    {
        fr.push(None);
        proof {
            assert(fr@ =~= Seq::new((j2 + 1) as nat, |i: int| None::<u64>));
        }
        j2 = j2 + 1;
    }
    let mut ready = heap_new();
    let mut done: Vec<Process> = Vec::new();
    let ghost mut k: nat = 0;
    let ghost mut g_ready: Seq<(u64, u64)> = Seq::empty();
    let mut clock: u64 = workload[0].arrival;
    proof {
        assert(arrival_pairs(w_).take(n as int) =~= arrival_pairs(w_).skip(0));
    }
    while heap_len(&todo) > 0 || heap_len(&ready) > 0
        invariant
            wl_valid(w_),
            w_ == workload@,
            n == w_.len(),
            0 < n,
            0 <= k <= n,
            heap_model(todo) == arrival_pairs(w_).skip(k as int).to_multiset(),
            heap_model(ready) == g_ready.to_multiset(),
            fr@.len() == n,
            forall|j: int|
                0 <= j < g_ready.len() ==> (#[trigger] g_ready[j]).1 < n && 1 <= g_ready[j].0,
            pend_dur_sum(w_, k as int) + rem_sum(g_ready) <= total_duration(w_),
            clock + pend_dur_sum(w_, k as int) + rem_sum(g_ready) <= w_[n - 1].arrival
                + total_duration(w_),
            done@ + stcf_loop(w_, k, g_ready, clock as int, fr@) == stcf_runs(w_),
        decreases pend_dur_sum(w_, k as int) + rem_sum(g_ready), n - k,
    {
        broadcast use vstd::seq_lib::group_to_multiset_ensures;

        let ghost k0 = k;
        let ghost q0 = g_ready;
        let ghost c0 = clock as int;
        let ghost fr0 = fr@;
        proof {
            assert(arrival_pairs(w_).skip(k as int).to_multiset().len() == arrival_pairs(w_).skip(
                k as int,
            ).len());
            assert(g_ready.to_multiset().len() == g_ready.len());
        }
        let next = heap_peek(&todo);
        proof {
            if next is Some {
                lemma_next_arrival_min(w_, k as int, next.unwrap());
            }
        }
        let ready_empty = heap_len(&ready) == 0;
        if next.is_some() && (ready_empty || next.unwrap().0 <= clock) {
            let (a, iu) = next.unwrap();
            if a > clock {
                clock = a;
            }
            let m = heap_pop(&mut todo).unwrap();
            proof {
                lemma_next_arrival_min(w_, k as int, m);
                lemma_skip_shift(arrival_pairs(w_), k as int);
            }
            let i: usize = m.1 as usize;
            let d: u64 = workload[i].duration;
            heap_push(&mut ready, (d, m.1));
            proof {
                lemma_rem_sum_push(g_ready, (d, m.1));
                assert(g_ready.push((d, m.1)).to_multiset() =~= g_ready.to_multiset().insert(
                    (d, m.1),
                ));
                g_ready = g_ready.push((d, m.1));
                k = k + 1;
            }
            assert(done@ + stcf_loop(w_, k, g_ready, clock as int, fr@) == stcf_runs(w_));
        } else {
            assert(g_ready.len() > 0);
            let m = heap_pop(&mut ready).unwrap();
            let ghost p = min_pos(g_ready);
            proof {
                lemma_pop_is_min_pos(g_ready, m);
                lemma_min_pos_in_range(g_ready);
                lemma_rem_sum_remove(g_ready, p);
                lemma_rem_sum_element(g_ready, p);
            }
            let i: usize = m.1 as usize;
            if fr[i].is_none() {
                fr[i] = Some(clock);
            }
            let fro: Option<u64> = fr[i];
            clock = clock + 1;
            if m.0 <= 1 {
                let rec = Process {
                    arrival: workload[i].arrival,
                    duration: workload[i].duration,
                    first_run: fro,
                    completion: Some(clock),
                    remaining_time: 0u64,
                };
                done.push(rec);
                proof {
                    g_ready = g_ready.remove(p);
                    assert(stcf_loop(w_, k0, q0, c0, fr0) == seq![
                        completed_record(w_[m.1 as int], fr@[m.1 as int], c0 + 1),
                    ] + stcf_loop(w_, k0, g_ready, clock as int, fr@));
                    assert(rec == completed_record(w_[m.1 as int], fr@[m.1 as int], c0 + 1));
                    assert(done@ =~= done@.subrange(0, done@.len() - 1).push(rec));
                    assert(done@.subrange(0, done@.len() - 1) + (seq![rec] + stcf_loop(
                        w_,
                        k0,
                        g_ready,
                        clock as int,
                        fr@,
                    )) =~= done@ + stcf_loop(w_, k0, g_ready, clock as int, fr@));
                }
            } else {
                heap_push(&mut ready, (m.0 - 1, m.1));
                proof {
                    lemma_rem_sum_push(g_ready.remove(p), ((m.0 - 1) as u64, m.1));
                    assert(g_ready.remove(p).push(((m.0 - 1) as u64, m.1)).to_multiset()
                        =~= g_ready.remove(p).to_multiset().insert(((m.0 - 1) as u64, m.1)));
                    g_ready = g_ready.remove(p).push((((m.0 - 1) as u64), m.1));
                }
            }
            assert(done@ + stcf_loop(w_, k, g_ready, clock as int, fr@) == stcf_runs(w_));
        }
    }
    proof {
        assert(arrival_pairs(w_).skip(k as int).to_multiset().len() == arrival_pairs(w_).skip(
            k as int,
        ).len());
        assert(k == n);
        assert(g_ready.to_multiset().len() == 0);
        assert(g_ready.len() == 0);
        assert(stcf_loop(w_, k, g_ready, clock as int, fr@) =~= Seq::<Process>::empty());
        assert(done@ =~= done@ + Seq::<Process>::empty());
    }
    Ok(done)
}

} // verus!
