//! Multi-level feedback queue scheduling: preemptive with a quantum of one
//! tick over a configurable number of priority levels. Arrivals enter at
//! the front of the top level; the front process of the highest busy level
//! runs each tick and, if unfinished, is demoted one level (the bottom
//! level is the floor); every `boost_interval` ticks all queued processes
//! are promoted back to the top level, preserving their relative order.

use std::collections::VecDeque;

use vstd::prelude::*;

use crate::model::{
    completed_record, lemma_rem_sum_prepend, lemma_rem_sum_push, pend_dur_sum, rem_sum,
    total_duration, wl_valid, Process, ScheduleError,
};
use crate::pqueue::{
    arrival_pairs, heap_len, heap_model, heap_new, heap_peek, heap_pop, heap_push,
    lemma_next_arrival_min, lemma_skip_shift,
};

verus! {

/// Configuration of the MLFQ engine. `phase` bookkeeping inside the engine
/// equals the tick counter modulo `boost_interval`; a boost fires on every
/// tick whose counter is a positive multiple of the interval. The `trace`
/// toggle is for callers that print per-tick queue snapshots; it has no
/// effect on scheduling, as the engine's contract does not mention it.
pub struct MlfqConfig {
    pub boost_interval: u64,
    pub num_levels: usize,
    pub trace: bool,
}

/// Total number of queued pairs over all levels.
pub open spec fn levels_count(lv: Seq<Seq<(u64, u64)>>) -> nat
    decreases lv.len(),
{
    if lv.len() == 0 {
        0
    } else {
        (lv[0].len() + levels_count(lv.drop_first())) as nat
    }
}

/// Total remaining time queued over all levels.
pub open spec fn levels_rem_sum(lv: Seq<Seq<(u64, u64)>>) -> nat
    decreases lv.len(),
{
    if lv.len() == 0 {
        0
    } else {
        (rem_sum(lv[0]) + levels_rem_sum(lv.drop_first())) as nat
    }
}

/// Index of the highest-priority non-empty level.
pub open spec fn first_busy(lv: Seq<Seq<(u64, u64)>>) -> int
    decreases lv.len(),
{
    if lv.len() == 0 {
        0
    } else if lv[0].len() > 0 {
        0
    } else {
        1 + first_busy(lv.drop_first())
    }
}

/// The boost: every queued pair moves to level 0, level order first and
/// queue order within a level preserved; the other levels are left empty.
pub open spec fn boost(lv: Seq<Seq<(u64, u64)>>, nl: int) -> Seq<Seq<(u64, u64)>> {
    Seq::new(nl as nat, |i: int| if i == 0 { lv.flatten() } else { Seq::empty() })
}

pub proof fn lemma_rem_sum_concat(a: Seq<(u64, u64)>, b: Seq<(u64, u64)>)
    ensures
        rem_sum(a + b) == rem_sum(a) + rem_sum(b),
    decreases a.len(),
{
    if a.len() == 0 {
        assert(a + b =~= b);
    } else {
        assert((a + b).drop_first() =~= a.drop_first() + b);
        lemma_rem_sum_concat(a.drop_first(), b);
    }
}

pub proof fn lemma_levels_update(lv: Seq<Seq<(u64, u64)>>, s: int, q: Seq<(u64, u64)>)
    requires
        0 <= s < lv.len(),
    ensures
        levels_count(lv.update(s, q)) + lv[s].len() == levels_count(lv) + q.len(),
        levels_rem_sum(lv.update(s, q)) + rem_sum(lv[s]) == levels_rem_sum(lv) + rem_sum(q),
    decreases lv.len(),
{
    if s == 0 {
        assert(lv.update(0, q).drop_first() =~= lv.drop_first());
    } else {
        assert(lv.update(s, q).drop_first() =~= lv.drop_first().update(s - 1, q));
        lemma_levels_update(lv.drop_first(), s - 1, q);
    }
}

pub proof fn lemma_flatten_props(lv: Seq<Seq<(u64, u64)>>)
    ensures
        rem_sum(lv.flatten()) == levels_rem_sum(lv),
        lv.flatten().len() == levels_count(lv),
    decreases lv.len(),
{
    if lv.len() == 0 {
    } else {
        lemma_flatten_props(lv.drop_first());
        lemma_rem_sum_concat(lv[0], lv.drop_first().flatten());
    }
}

pub proof fn lemma_flatten_push(lv: Seq<Seq<(u64, u64)>>, x: Seq<(u64, u64)>)
    ensures
        lv.push(x).flatten() == lv.flatten() + x,
    decreases lv.len(),
{
    if lv.len() == 0 {
        assert(lv.push(x).drop_first() =~= Seq::<Seq<(u64, u64)>>::empty());
        assert(lv.push(x).first() == x);
        assert(Seq::<Seq<(u64, u64)>>::empty().flatten() =~= Seq::<(u64, u64)>::empty());
        assert(lv.push(x).flatten() =~= x + Seq::<(u64, u64)>::empty());
        assert(x + Seq::<(u64, u64)>::empty() =~= x);
        assert(lv.flatten() + x =~= x);
    } else {
        assert(lv.push(x).drop_first() =~= lv.drop_first().push(x));
        lemma_flatten_push(lv.drop_first(), x);
        assert(lv.first() == lv[0]);
        assert(lv.flatten() == lv[0] + lv.drop_first().flatten());
        assert(lv.push(x).flatten() =~= lv[0] + (lv.drop_first().flatten() + x));
        assert(lv[0] + (lv.drop_first().flatten() + x) =~= (lv[0] + lv.drop_first().flatten())
            + x);
    }
}

pub proof fn lemma_levels_all_empty(lv: Seq<Seq<(u64, u64)>>)
    requires
        forall|j: int| 0 <= j < lv.len() ==> (#[trigger] lv[j]).len() == 0,
    ensures
        levels_count(lv) == 0,
        levels_rem_sum(lv) == 0,
    decreases lv.len(),
{
    if lv.len() > 0 {
        assert(forall|j: int|
            0 <= j < lv.drop_first().len() ==> (#[trigger] lv.drop_first()[j]).len() == 0);
        lemma_levels_all_empty(lv.drop_first());
    }
}

pub proof fn lemma_boost_props(lv: Seq<Seq<(u64, u64)>>, nl: int)
    requires
        nl >= 1,
    ensures
        boost(lv, nl).len() == nl,
        levels_count(boost(lv, nl)) == levels_count(lv),
        levels_rem_sum(boost(lv, nl)) == levels_rem_sum(lv),
    decreases lv.len(),
{
    let b = boost(lv, nl);
    lemma_flatten_props(lv);
    assert(forall|j: int| 0 <= j < b.drop_first().len() ==> (#[trigger] b.drop_first()[j]).len()
        == 0);
    lemma_levels_all_empty(b.drop_first());
    assert(levels_count(b) == b[0].len() + levels_count(b.drop_first()));
    assert(levels_rem_sum(b) == rem_sum(b[0]) + levels_rem_sum(b.drop_first()));
}

pub proof fn lemma_first_busy_props(lv: Seq<Seq<(u64, u64)>>)
    requires
        levels_count(lv) > 0,
    ensures
        0 <= first_busy(lv) < lv.len(),
        lv[first_busy(lv)].len() > 0,
        forall|j: int| 0 <= j < first_busy(lv) ==> (#[trigger] lv[j]).len() == 0,
    decreases lv.len(),
{
    if lv[0].len() == 0 {
        lemma_first_busy_props(lv.drop_first());
        assert(forall|j: int|
            1 <= j < lv.len() ==> lv.drop_first()[j - 1] == #[trigger] lv[j]);
    }
}

/// Every queued pair names a process of the workload and carries at least
/// one tick of remaining time.
pub open spec fn level_pairs_ok(lv: Seq<Seq<(u64, u64)>>, n: nat) -> bool {
    forall|a: int, b: int|
        0 <= a < lv.len() && 0 <= b < lv[a].len() ==> (#[trigger] lv[a][b]).1 < n && 1 <= lv[a][b].0
}

pub proof fn lemma_flatten_pairs_ok(lv: Seq<Seq<(u64, u64)>>, n: nat)
    requires
        level_pairs_ok(lv, n),
    ensures
        forall|j: int|
            0 <= j < lv.flatten().len() ==> (#[trigger] lv.flatten()[j]).1 < n && 1
                <= lv.flatten()[j].0,
    decreases lv.len(),
{
    if lv.len() > 0 {
        assert(level_pairs_ok(lv.drop_first(), n)) by {
            assert(forall|a: int, b: int|
                0 <= a < lv.drop_first().len() && 0 <= b < lv.drop_first()[a].len()
                    ==> (#[trigger] lv.drop_first()[a][b]) == lv[a + 1][b]);
        }
        lemma_flatten_pairs_ok(lv.drop_first(), n);
        assert(lv.flatten() == lv.first() + lv.drop_first().flatten());
        assert(forall|j: int|
            0 <= j < lv[0].len() ==> (#[trigger] lv.flatten()[j]) == lv[0][j]);
        assert(forall|j: int|
            lv[0].len() <= j < lv.flatten().len() ==> (#[trigger] lv.flatten()[j])
                == lv.drop_first().flatten()[j - lv[0].len()]);
    }
}

pub proof fn lemma_boost_pairs_ok(lv: Seq<Seq<(u64, u64)>>, nl: int, n: nat)
    requires
        level_pairs_ok(lv, n),
        nl >= 1,
    ensures
        level_pairs_ok(boost(lv, nl), n),
{
    lemma_flatten_pairs_ok(lv, n);
}

/// The MLFQ state machine. `k` is the next workload index to admit, `lv`
/// the per-level ready queues of `(remaining, index)` pairs, `fr` the
/// first-run time of each process, if it has run, and `phase` the tick
/// counter modulo the boost interval `bi`. Each step first boosts if the
/// phase says so, then either waits for and admits the next arrival to the
/// front of level 0, or gives one tick to the front process of the highest
/// busy level, completing it or demoting it one level (bottom as floor).
pub open spec fn mlfq_loop(
    w: Seq<Process>,
    bi: int,
    nl: int,
    k: nat,
    lv: Seq<Seq<(u64, u64)>>,
    clock: int,
    fr: Seq<Option<u64>>,
    phase: int,
) -> Seq<Process>
    decreases pend_dur_sum(w, k as int) + levels_rem_sum(lv), w.len() - k, levels_count(lv),
        via mlfq_loop_dec
{
    if nl < 1 || lv.len() != nl || (k >= w.len() && levels_count(lv) == 0) {
        Seq::empty()
    } else {
        let lv1 = if phase == 0 {
            boost(lv, nl)
        } else {
            lv
        };
        let c = if levels_count(lv1) == 0 && k < w.len() && w[k as int].arrival > clock {
            w[k as int].arrival as int
        } else {
            clock
        };
        if k < w.len() && w[k as int].arrival <= c {
            mlfq_loop(
                w,
                bi,
                nl,
                k + 1,
                lv1.update(0, seq![(w[k as int].duration, k as u64)] + lv1[0]),
                c,
                fr,
                phase,
            )
        } else {
            let s = first_busy(lv1);
            let rem = lv1[s][0].0;
            let iu = lv1[s][0].1;
            let i = iu as int;
            let fr2 = if fr[i] is None {
                fr.update(i, Some(c as u64))
            } else {
                fr
            };
            let lv2 = lv1.update(s, lv1[s].drop_first());
            let phase2 = if phase + 1 >= bi {
                0
            } else {
                phase + 1
            };
            if rem <= 1 {
                seq![completed_record(w[i], fr2[i], c + 1)] + mlfq_loop(
                    w,
                    bi,
                    nl,
                    k,
                    lv2,
                    c + 1,
                    fr2,
                    phase2,
                )
            } else {
                let z = if s + 1 < nl {
                    s + 1
                } else {
                    nl - 1
                };
                mlfq_loop(
                    w,
                    bi,
                    nl,
                    k,
                    lv2.update(z, lv2[z].push(((rem - 1) as u64, iu))),
                    c + 1,
                    fr2,
                    phase2,
                )
            }
        }
    }
}

#[via_fn]
proof fn mlfq_loop_dec(
    w: Seq<Process>,
    bi: int,
    nl: int,
    k: nat,
    lv: Seq<Seq<(u64, u64)>>,
    clock: int,
    fr: Seq<Option<u64>>,
    phase: int,
) {
    if !(nl < 1 || lv.len() != nl || (k >= w.len() && levels_count(lv) == 0)) {
        let lv1 = if phase == 0 {
            boost(lv, nl)
        } else {
            lv
        };
        if phase == 0 {
            lemma_boost_props(lv, nl);
        }
        let c = if levels_count(lv1) == 0 && k < w.len() && w[k as int].arrival > clock {
            w[k as int].arrival as int
        } else {
            clock
        };
        if k < w.len() && w[k as int].arrival <= c {
            lemma_levels_update(lv1, 0, seq![(w[k as int].duration, k as u64)] + lv1[0]);
            lemma_rem_sum_prepend(lv1[0], (w[k as int].duration, k as u64));
        } else {
            lemma_first_busy_props(lv1);
            let s = first_busy(lv1);
            let rem = lv1[s][0].0;
            let iu = lv1[s][0].1;
            let lv2 = lv1.update(s, lv1[s].drop_first());
            lemma_levels_update(lv1, s, lv1[s].drop_first());
            assert(rem_sum(lv1[s]) == rem + rem_sum(lv1[s].drop_first()));
            if rem > 1 {
                let z = if s + 1 < nl {
                    s + 1
                } else {
                    nl - 1
                };
                lemma_levels_update(lv2, z, lv2[z].push(((rem - 1) as u64, iu)));
                lemma_rem_sum_push(lv2[z], ((rem - 1) as u64, iu));
            }
        }
    }
}

/// What MLFQ produces on a non-empty workload with boost interval `bi` and
/// `nl` levels: empty levels, the clock at the first arrival, no process
/// run yet, and the tick counter at one.
pub open spec fn mlfq_runs(w: Seq<Process>, bi: int, nl: int) -> Seq<Process> {
    mlfq_loop(
        w,
        bi,
        nl,
        0,
        Seq::new(nl as nat, |i: int| Seq::<(u64, u64)>::empty()),
        w[0].arrival as int,
        Seq::new(w.len(), |i: int| None::<u64>),
        if bi == 1 {
            0
        } else {
            1
        },
    )
}

/// The ready queues a running engine holds, as sequences.
pub open spec fn views_of(lv: Seq<VecDeque<(u64, u64)>>) -> Seq<Seq<(u64, u64)>> {
    Seq::new(lv.len(), |i: int| lv[i]@)
}

/// Performs the boost on the running engine's queues: gathers every
/// level, in level order, into a single queue that becomes the new level
/// 0, and leaves the other levels empty.
fn do_boost(levels: &mut Vec<VecDeque<(u64, u64)>>)
    requires
        old(levels)@.len() >= 1,
    ensures
        final(levels)@.len() == old(levels)@.len(),
        views_of(final(levels)@) == boost(views_of(old(levels)@), old(levels)@.len() as int),
{
    let nl = levels.len();
    let ghost pre = views_of(levels@);
    let mut acc: VecDeque<(u64, u64)> = VecDeque::new();
    proof {
        assert(pre.skip(0) =~~= pre);
        assert(pre.take(0) =~~= Seq::<Seq<(u64, u64)>>::empty());
        assert(Seq::<Seq<(u64, u64)>>::empty().flatten() =~= Seq::<(u64, u64)>::empty());
    }
    while levels.len() > 0
        invariant
            views_of(levels@) == pre.skip(pre.len() - levels@.len()),
            levels@.len() <= pre.len(),
            acc@ == pre.take(pre.len() - levels@.len()).flatten(),
        decreases levels@.len(),
    {
        let ghost lvs0 = levels@;
        let ghost t: int = pre.len() - lvs0.len();
        let mut q = levels.remove(0);
        proof {
            assert(views_of(lvs0) == pre.skip(t));
            assert(views_of(lvs0)[0] == lvs0[0]@);
            assert(pre.skip(t)[0] == pre[t]);
            assert(q@ == pre[t]);
        }
        acc.append(&mut q);
        proof {
            assert(pre.take(t + 1) =~~= pre.take(t).push(pre[t]));
            lemma_flatten_push(pre.take(t), pre[t]);
            assert(acc@ =~= pre.take(t + 1).flatten());
            assert(forall|u: int|
                0 <= u < levels@.len() ==> (#[trigger] levels@[u]) == lvs0[u + 1]);
            assert(forall|u: int|
                0 <= u < levels@.len() ==> (#[trigger] views_of(levels@)[u]) == views_of(
                    lvs0,
                )[u + 1]);
            assert(views_of(levels@) =~~= pre.skip(t + 1));
        }
    }
    proof {
        assert(pre.take(pre.len() as int) =~~= pre);
    }
    levels.push(acc);
    let mut j4: usize = 1;
    while j4 < nl
        invariant
            1 <= j4 <= nl,
            levels@.len() == j4,
            views_of(levels@)[0] =~= pre.flatten(),
            forall|t: int| 1 <= t < j4 ==> (#[trigger] levels@[t])@.len() == 0,
        decreases nl - j4,
    {
        levels.push(VecDeque::new());
        j4 = j4 + 1;
    }
    proof {
        assert(views_of(levels@) =~~= boost(pre, nl as int));
    }
}

/// Finds the highest-priority non-empty level.
fn find_busy(levels: &Vec<VecDeque<(u64, u64)>>) -> (s: usize)
    requires
        levels_count(views_of(levels@)) > 0,
    ensures
        s == first_busy(views_of(levels@)),
        s < levels@.len(),
        views_of(levels@)[s as int].len() > 0,
{
    let ghost lv = views_of(levels@);
    proof {
        lemma_first_busy_props(lv);
    }
    let nl = levels.len();
    let mut s: usize = 0;
    while s < nl && levels[s].len() == 0
        invariant
            nl == levels@.len(),
            lv == views_of(levels@),
            0 <= s <= nl,
            forall|t: int| 0 <= t < s ==> (#[trigger] lv[t]).len() == 0,
        decreases nl - s,
    {
        assert(lv[s as int] == levels@[s as int]@);
        s = s + 1;
    }
    proof {
        if s < nl {
            assert(lv[s as int] == levels@[s as int]@);
        }
        assert(s == first_busy(lv));
    }
    s
}

/// Runs the MLFQ engine; the result is exactly `mlfq_runs` of the workload
/// for the configured boost interval and level count, whatever the `trace`
/// toggle says.
#[verifier::rlimit(100)]
#[verifier::spinoff_prover]
pub fn mlfq(workload: &Vec<Process>, cfg: &MlfqConfig) -> (r: Result<Vec<Process>, ScheduleError>)
    requires
        wl_valid(workload@),
        cfg.boost_interval >= 1,
        cfg.num_levels >= 1,
    ensures
        match r {
            Ok(done) => workload@.len() > 0 && done@ == mlfq_runs(
                workload@,
                cfg.boost_interval as int,
                cfg.num_levels as int,
            ),
            Err(e) => workload@.len() == 0 && e == ScheduleError::EmptyWorkload,
        },
{
    broadcast use vstd::seq_lib::group_to_multiset_ensures;

    if workload.len() == 0 {
        return Err(ScheduleError::EmptyWorkload);
    }
    let n = workload.len();
    let nl = cfg.num_levels;
    let bi = cfg.boost_interval;
    let ghost w_ = workload@;
    let mut todo = heap_new();
    let mut j: usize = 0;
    while j < n
        invariant
            n == w_.len(),
            w_ == workload@,
            0 <= j <= n,
            heap_model(todo) == arrival_pairs(w_).take(j as int).to_multiset(),
        decreases n - j,
    {
        broadcast use vstd::seq_lib::group_to_multiset_ensures;

        heap_push(&mut todo, (workload[j].arrival, j as u64));
        proof {
            assert(arrival_pairs(w_).take(j + 1) =~= arrival_pairs(w_).take(j as int).push(
                (w_[j as int].arrival, j as u64),
            ));
        }
        j = j + 1;
    }
    let mut fr: Vec<Option<u64>> = Vec::new();
    let mut j2: usize = 0;
    while j2 < n
        invariant
            0 <= j2 <= n,
            fr@ =~= Seq::new(j2 as nat, |i: int| None::<u64>),
        decreases n - j2,
    {
        fr.push(None);
        proof {
            assert(fr@ =~= Seq::new((j2 + 1) as nat, |i: int| None::<u64>));
        }
        j2 = j2 + 1;
    }
    let mut levels: Vec<VecDeque<(u64, u64)>> = Vec::new();
    let mut j3: usize = 0;
    while j3 < nl
        invariant
            0 <= j3 <= nl,
            levels@.len() == j3,
            forall|t: int| 0 <= t < j3 ==> (#[trigger] levels@[t])@.len() == 0,
        decreases nl - j3,
    {
        levels.push(VecDeque::new());
        j3 = j3 + 1;
    }
    let mut done: Vec<Process> = Vec::new();
    let ghost mut k: nat = 0;
    let mut clock: u64 = workload[0].arrival;
    let mut in_levels: usize = 0;
    let mut sb: u64 = if bi == 1 {
        0
    } else {
        1
    };
    proof {
        assert(arrival_pairs(w_).take(n as int) =~= arrival_pairs(w_).skip(0));
        assert(views_of(levels@) =~~= Seq::new(nl as nat, |i: int| Seq::<(u64, u64)>::empty()));
        lemma_levels_all_empty(views_of(levels@));
    }
    while heap_len(&todo) > 0 || in_levels > 0
        invariant
            wl_valid(w_),
            w_ == workload@,
            n == w_.len(),
            0 < n,
            nl >= 1,
            bi >= 1,
            0 <= k <= n,
            heap_model(todo) == arrival_pairs(w_).skip(k as int).to_multiset(),
            fr@.len() == n,
            levels@.len() == nl,
            in_levels == levels_count(views_of(levels@)),
            levels_count(views_of(levels@)) <= k,
            0 <= sb < bi,
            level_pairs_ok(views_of(levels@), n as nat),
            pend_dur_sum(w_, k as int) + levels_rem_sum(views_of(levels@)) <= total_duration(w_),
            clock + pend_dur_sum(w_, k as int) + levels_rem_sum(views_of(levels@)) <= w_[n
                - 1].arrival + total_duration(w_),
            done@ + mlfq_loop(w_, bi as int, nl as int, k, views_of(levels@), clock as int, fr@, sb as int)
                == mlfq_runs(w_, bi as int, nl as int),
        decreases pend_dur_sum(w_, k as int) + levels_rem_sum(views_of(levels@)), n - k,
    {
        let ghost k0 = k;
        let ghost lv0 = views_of(levels@);
        let ghost c0 = clock as int;
        let ghost fr0 = fr@;
        let ghost ph0 = sb as int;
        proof {
            assert(arrival_pairs(w_).skip(k as int).to_multiset().len() == arrival_pairs(w_).skip(
                k as int,
            ).len()) by {
                broadcast use vstd::seq_lib::group_to_multiset_ensures;
            }
        }
        if sb == 0 {
            do_boost(&mut levels);
            proof {
                lemma_boost_props(lv0, nl as int);
                lemma_boost_pairs_ok(lv0, nl as int, n as nat);
            }
        }
        let ghost lv1 = views_of(levels@);
        proof {
            if ph0 == 0 {
                assert(lv1 == boost(lv0, nl as int));
            } else {
                assert(lv1 == lv0);
            }
        }
        let next = heap_peek(&todo);
        proof {
            if next is Some {
                lemma_next_arrival_min(w_, k as int, next.unwrap());
            }
        }
        if next.is_some() && (in_levels == 0 || next.unwrap().0 <= clock) {
            let (a, iu) = next.unwrap();
            if a > clock {
                clock = a;
            }
            let m = heap_pop(&mut todo).unwrap();
            proof {
                lemma_next_arrival_min(w_, k as int, m);
                lemma_skip_shift(arrival_pairs(w_), k as int);
            }
            let i: usize = m.1 as usize;
            let d: u64 = workload[i].duration;
            let mut q0 = levels.remove(0);
            q0.push_front((d, m.1));
            levels.insert(0, q0);
            in_levels = in_levels + 1;
            proof {
                assert(views_of(levels@) =~~= lv1.update(0, seq![(d, m.1)] + lv1[0]));
                lemma_levels_update(lv1, 0, seq![(d, m.1)] + lv1[0]);
                lemma_rem_sum_prepend(lv1[0], (d, m.1));
                k = k + 1;
            }
            assert(done@ + mlfq_loop(w_, bi as int, nl as int, k, views_of(levels@), clock as int, fr@, sb as int)
                == mlfq_runs(w_, bi as int, nl as int));
        } else {
            proof {
                if in_levels == 0 {
                    assert(k < n);
                    assert(false);
                }
                lemma_first_busy_props(lv1);
            }
            let s: usize = find_busy(&levels);
            let mut qs = levels.remove(s);
            let m = qs.pop_front().unwrap();
            levels.insert(s, qs);
            in_levels = in_levels - 1;
            let ghost lv2 = lv1.update(s as int, lv1[s as int].drop_first());
            proof {
                assert(views_of(levels@) =~~= lv2);
                lemma_levels_update(lv1, s as int, lv1[s as int].drop_first());
                assert(rem_sum(lv1[s as int]) == m.0 + rem_sum(lv1[s as int].drop_first()));
            }
            let i: usize = m.1 as usize;
            if fr[i].is_none() {
                fr[i] = Some(clock);
            }
            let fro: Option<u64> = fr[i];
            clock = clock + 1;
            sb = sb + 1;
            if sb == bi {
                sb = 0;
            }
            if m.0 <= 1 {
                let rec = Process {
                    arrival: workload[i].arrival,
                    duration: workload[i].duration,
                    first_run: fro,
                    completion: Some(clock),
                    remaining_time: 0u64,
                };
                done.push(rec);
                proof {
                    assert(mlfq_loop(w_, bi as int, nl as int, k0, lv0, c0, fr0, ph0) == seq![
                        completed_record(w_[m.1 as int], fr@[m.1 as int], c0 + 1),
                    ] + mlfq_loop(w_, bi as int, nl as int, k, lv2, clock as int, fr@, sb as int));
                    assert(rec == completed_record(w_[m.1 as int], fr@[m.1 as int], c0 + 1));
                    assert(done@ =~= done@.subrange(0, done@.len() - 1).push(rec));
                    assert(done@.subrange(0, done@.len() - 1) + (seq![rec] + mlfq_loop(
                        w_,
                        bi as int,
                        nl as int,
                        k,
                        lv2,
                        clock as int,
                        fr@,
                        sb as int,
                    )) =~= done@ + mlfq_loop(
                        w_,
                        bi as int,
                        nl as int,
                        k,
                        lv2,
                        clock as int,
                        fr@,
                        sb as int,
                    ));
                }
            } else {
                let z: usize = if s + 1 < nl {
                    s + 1
                } else {
                    nl - 1
                };
                let mut qz = levels.remove(z);
                qz.push_back((m.0 - 1, m.1));
                levels.insert(z, qz);
                in_levels = in_levels + 1;
                proof {
                    assert(views_of(levels@) =~~= lv2.update(z as int, lv2[z as int].push(
                        ((m.0 - 1) as u64, m.1),
                    )));
                    lemma_levels_update(lv2, z as int, lv2[z as int].push(((m.0 - 1) as u64, m.1)));
                    lemma_rem_sum_push(lv2[z as int], ((m.0 - 1) as u64, m.1));
                }
            }
            assert(done@ + mlfq_loop(w_, bi as int, nl as int, k, views_of(levels@), clock as int, fr@, sb as int)
                == mlfq_runs(w_, bi as int, nl as int));
        }
    }
    proof {
        assert(arrival_pairs(w_).skip(k as int).to_multiset().len() == arrival_pairs(w_).skip(
            k as int,
        ).len());
        assert(k == n);
        assert(mlfq_loop(w_, bi as int, nl as int, k, views_of(levels@), clock as int, fr@, sb as int)
            =~= Seq::<Process>::empty());
        assert(done@ =~= done@ + Seq::<Process>::empty());
    }
    Ok(done)
}

} // verus!
