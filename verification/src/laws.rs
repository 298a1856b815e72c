//! Laws the engines obey, proved from their specification machines:
//! conservation of service time, completion order under FIFO, agreement of
//! all five policies on a single-process workload, and the demotion and
//! boost behaviour of the multi-level feedback queue.

use vstd::prelude::*;

use crate::fifo::fifo_start;
use crate::mlfq::{
    boost, first_busy, lemma_boost_pairs_ok, lemma_boost_props, lemma_first_busy_props,
    lemma_levels_all_empty, lemma_levels_update, level_pairs_ok, levels_count, levels_rem_sum,
    mlfq_loop, mlfq_runs,
};
use crate::model::{
    completed_record, lemma_min_pos_in_range, lemma_rem_sum_remove, min_pos, pend_dur_sum,
    rem_sum, total_duration, wl_sorted, wl_valid, Process,
};
use crate::rr::{rr_loop, rr_runs};
use crate::sjf::{sjf_loop, sjf_runs};
use crate::stcf::{stcf_loop, stcf_runs};

verus! {

/// Shifting a sequence under a leading record shifts its duration sum.
proof fn lemma_dur_sum_cons(s: Seq<Process>, x: Process, k: int)
    requires
        0 <= k,
    ensures
        pend_dur_sum(seq![x] + s, k + 1) == pend_dur_sum(s, k),
    decreases s.len() - k,
{
    if k < s.len() {
        lemma_dur_sum_cons(s, x, k + 1);
        assert((seq![x] + s)[k + 1] == s[k]);
    }
}

/// The duration sum of a record prepended to a sequence.
proof fn lemma_total_duration_cons(s: Seq<Process>, x: Process)
    ensures
        total_duration(seq![x] + s) == x.duration + total_duration(s),
{
    lemma_dur_sum_cons(s, x, 0);
    assert((seq![x] + s)[0] == x);
}

/// Sum of the durations, in the workload, of the processes a pair sequence
/// names.
pub open spec fn named_dur_sum(w: Seq<Process>, q: Seq<(u64, u64)>) -> nat
    decreases q.len(),
{
    if q.len() == 0 {
        0
    } else {
        (w[q[0].1 as int].duration + named_dur_sum(w, q.drop_first())) as nat
    }
}

proof fn lemma_named_dur_sum_push(w: Seq<Process>, q: Seq<(u64, u64)>, x: (u64, u64))
    ensures
        named_dur_sum(w, q.push(x)) == named_dur_sum(w, q) + w[x.1 as int].duration,
    decreases q.len(),
{
    if q.len() == 0 {
        assert(q.push(x).drop_first() =~= q);
    } else {
        assert(q.push(x).drop_first() =~= q.drop_first().push(x));
        lemma_named_dur_sum_push(w, q.drop_first(), x);
    }
}

proof fn lemma_named_dur_sum_remove(w: Seq<Process>, q: Seq<(u64, u64)>, i: int)
    requires
        0 <= i < q.len(),
    ensures
        named_dur_sum(w, q.remove(i)) + w[q[i].1 as int].duration == named_dur_sum(w, q),
    decreases q.len(),
{
    if i == 0 {
        assert(q.remove(0) =~= q.drop_first());
    } else {
        assert(q.remove(i).drop_first() =~= q.drop_first().remove(i - 1));
        lemma_named_dur_sum_remove(w, q.drop_first(), i - 1);
    }
}

/// Conservation under SJF, in its general form: what the machine will emit
/// carries exactly the not-yet-admitted durations plus the ready keys.
proof fn lemma_sjf_loop_conservation(w: Seq<Process>, k: nat, ready: Seq<(u64, u64)>, clock: int)
    requires
        w.len() <= u64::MAX,
        forall|j: int|
            0 <= j < ready.len() ==> (#[trigger] ready[j]).1 < w.len() && ready[j].0
                == w[ready[j].1 as int].duration,
    ensures
        total_duration(sjf_loop(w, k, ready, clock)) == pend_dur_sum(w, k as int) + rem_sum(ready),
    decreases pend_dur_sum(w, k as int) + rem_sum(ready), w.len() - k, ready.len(),
{
    if k >= w.len() && ready.len() == 0 {
    } else {
        let c = if ready.len() == 0 && k < w.len() && w[k as int].arrival > clock {
            w[k as int].arrival as int
        } else {
            clock
        };
        if k < w.len() && w[k as int].arrival <= c {
            crate::model::lemma_rem_sum_push(ready, (w[k as int].duration, k as u64));
            let q2 = ready.push((w[k as int].duration, k as u64));
            assert(forall|j: int|
                0 <= j < q2.len() ==> (#[trigger] q2[j]).1 < w.len() && q2[j].0 == w[q2[j].1
                    as int].duration);
            lemma_sjf_loop_conservation(w, k + 1, q2, c);
        } else {
            lemma_min_pos_in_range(ready);
            let p = min_pos(ready);
            lemma_rem_sum_remove(ready, p);
            assert(forall|j: int|
                0 <= j < ready.remove(p).len() ==> (#[trigger] ready.remove(p)[j]).1 < w.len()
                    && ready.remove(p)[j].0 == w[ready.remove(p)[j].1 as int].duration);
            lemma_sjf_loop_conservation(w, k, ready.remove(p), c + ready[p].0);
            lemma_total_duration_cons(
                sjf_loop(w, k, ready.remove(p), c + ready[p].0),
                completed_record(w[ready[p].1 as int], Some(c as u64), c + ready[p].0),
            );
        }
    }
}

/// Conservation: the completed records of an SJF run carry the same total
/// service time as the workload itself.
pub proof fn lemma_sjf_conservation(w: Seq<Process>)
    requires
        0 < w.len() <= u64::MAX,
    ensures
        total_duration(sjf_runs(w)) == total_duration(w),
{
    lemma_sjf_loop_conservation(w, 0, Seq::empty(), w[0].arrival as int);
}

/// Conservation under STCF, in its general form: the records still to be
/// emitted carry the not-yet-admitted durations plus the full durations of
/// the processes the ready pairs name.
proof fn lemma_stcf_loop_conservation(
    w: Seq<Process>,
    k: nat,
    ready: Seq<(u64, u64)>,
    clock: int,
    fr: Seq<Option<u64>>,
)
    requires
        w.len() <= u64::MAX,
        forall|j: int| 0 <= j < ready.len() ==> (#[trigger] ready[j]).1 < w.len(),
    ensures
        total_duration(stcf_loop(w, k, ready, clock, fr)) == pend_dur_sum(w, k as int)
            + named_dur_sum(w, ready),
    decreases pend_dur_sum(w, k as int) + rem_sum(ready), w.len() - k, ready.len(),
{
    if k >= w.len() && ready.len() == 0 {
    } else {
        let c = if ready.len() == 0 && k < w.len() && w[k as int].arrival > clock {
            w[k as int].arrival as int
        } else {
            clock
        };
        if k < w.len() && w[k as int].arrival <= c {
            crate::model::lemma_rem_sum_push(ready, (w[k as int].duration, k as u64));
            lemma_named_dur_sum_push(w, ready, (w[k as int].duration, k as u64));
            let q2 = ready.push((w[k as int].duration, k as u64));
            assert(forall|j: int| 0 <= j < q2.len() ==> (#[trigger] q2[j]).1 < w.len());
            lemma_stcf_loop_conservation(w, k + 1, q2, c, fr);
        } else {
            lemma_min_pos_in_range(ready);
            let p = min_pos(ready);
            let rem = ready[p].0;
            let iu = ready[p].1;
            let i = iu as int;
            let fr2 = if fr[i] is None {
                fr.update(i, Some(c as u64))
            } else {
                fr
            };
            lemma_rem_sum_remove(ready, p);
            lemma_named_dur_sum_remove(w, ready, p);
            assert(forall|j: int|
                0 <= j < ready.remove(p).len() ==> (#[trigger] ready.remove(p)[j]).1 < w.len());
            if rem <= 1 {
                lemma_stcf_loop_conservation(w, k, ready.remove(p), c + 1, fr2);
                lemma_total_duration_cons(
                    stcf_loop(w, k, ready.remove(p), c + 1, fr2),
                    completed_record(w[i], fr2[i], c + 1),
                );
            } else {
                crate::model::lemma_rem_sum_push(ready.remove(p), ((rem - 1) as u64, iu));
                lemma_named_dur_sum_push(w, ready.remove(p), ((rem - 1) as u64, iu));
                let q3 = ready.remove(p).push(((rem - 1) as u64, iu));
                assert(forall|j: int| 0 <= j < q3.len() ==> (#[trigger] q3[j]).1 < w.len());
                lemma_stcf_loop_conservation(w, k, q3, c + 1, fr2);
            }
        }
    }
}

/// Conservation: the completed records of an STCF run carry the same total
/// service time as the workload itself.
pub proof fn lemma_stcf_conservation(w: Seq<Process>)
    requires
        0 < w.len() <= u64::MAX,
    ensures
        total_duration(stcf_runs(w)) == total_duration(w),
{
    lemma_stcf_loop_conservation(
        w,
        0,
        Seq::empty(),
        w[0].arrival as int,
        Seq::new(w.len(), |i: int| None::<u64>),
    );
}

/// Conservation under round-robin, in its general form.
proof fn lemma_rr_loop_conservation(
    w: Seq<Process>,
    k: nat,
    q: Seq<(u64, u64)>,
    clock: int,
    fr: Seq<Option<u64>>,
)
    requires
        w.len() <= u64::MAX,
        forall|j: int| 0 <= j < q.len() ==> (#[trigger] q[j]).1 < w.len(),
    ensures
        total_duration(rr_loop(w, k, q, clock, fr)) == pend_dur_sum(w, k as int) + named_dur_sum(
            w,
            q,
        ),
    decreases pend_dur_sum(w, k as int) + rem_sum(q), w.len() - k, q.len(),
{
    if k >= w.len() && q.len() == 0 {
    } else {
        let c = if q.len() == 0 && k < w.len() && w[k as int].arrival > clock {
            w[k as int].arrival as int
        } else {
            clock
        };
        if k < w.len() && w[k as int].arrival <= c {
            crate::model::lemma_rem_sum_push(q, (w[k as int].duration, k as u64));
            lemma_named_dur_sum_push(w, q, (w[k as int].duration, k as u64));
            let q2 = q.push((w[k as int].duration, k as u64));
            assert(forall|j: int| 0 <= j < q2.len() ==> (#[trigger] q2[j]).1 < w.len());
            lemma_rr_loop_conservation(w, k + 1, q2, c, fr);
        } else {
            let rem = q[0].0;
            let iu = q[0].1;
            let i = iu as int;
            let fr2 = if fr[i] is None {
                fr.update(i, Some(c as u64))
            } else {
                fr
            };
            assert(q.remove(0) =~= q.drop_first());
            lemma_rem_sum_remove(q, 0);
            lemma_named_dur_sum_remove(w, q, 0);
            assert(forall|j: int|
                0 <= j < q.drop_first().len() ==> (#[trigger] q.drop_first()[j]).1 < w.len());
            if rem <= 1 {
                lemma_rr_loop_conservation(w, k, q.drop_first(), c + 1, fr2);
                lemma_total_duration_cons(
                    rr_loop(w, k, q.drop_first(), c + 1, fr2),
                    completed_record(w[i], fr2[i], c + 1),
                );
            } else {
                crate::model::lemma_rem_sum_push(q.drop_first(), ((rem - 1) as u64, iu));
                lemma_named_dur_sum_push(w, q.drop_first(), ((rem - 1) as u64, iu));
                let q3 = q.drop_first().push(((rem - 1) as u64, iu));
                assert(forall|j: int| 0 <= j < q3.len() ==> (#[trigger] q3[j]).1 < w.len());
                lemma_rr_loop_conservation(w, k, q3, c + 1, fr2);
            }
        }
    }
}

/// Conservation: the completed records of a round-robin run carry the same
/// total service time as the workload itself.
pub proof fn lemma_rr_conservation(w: Seq<Process>)
    requires
        0 < w.len() <= u64::MAX,
    ensures
        total_duration(rr_runs(w)) == total_duration(w),
{
    lemma_rr_loop_conservation(
        w,
        0,
        Seq::empty(),
        w[0].arrival as int,
        Seq::new(w.len(), |i: int| None::<u64>),
    );
}

/// Conservation: a FIFO result keeps each process's duration in place, so
/// any sequence agreeing with the workload duration by duration carries
/// the same total service time.
pub proof fn lemma_fifo_conservation(w: Seq<Process>, r: Seq<Process>, k: int)
    requires
        r.len() == w.len(),
        forall|i: int| 0 <= i < w.len() ==> #[trigger] r[i].duration == w[i].duration,
        0 <= k,
    ensures
        pend_dur_sum(r, k) == pend_dur_sum(w, k),
    decreases w.len() - k,
{
    if k < w.len() {
        lemma_fifo_conservation(w, r, k + 1);
    }
}

/// Ordering under FIFO: completion order equals arrival order. Start times
/// never go backwards, so each process completes no later than any process
/// after it in the arrival-sorted workload.
pub proof fn lemma_fifo_ordering(w: Seq<Process>, i: int, j: int)
    requires
        wl_sorted(w),
        0 <= i <= j < w.len(),
    ensures
        fifo_start(w, i) + w[i].duration <= fifo_start(w, j) + w[j].duration,
    decreases j - i,
{
    if i < j {
        lemma_fifo_ordering(w, i, j - 1);
        assert(fifo_start(w, j) >= fifo_start(w, j - 1) + w[j - 1].duration);
    }
}

/// Sum over all levels of the named durations of their pairs.
pub open spec fn levels_named_sum(w: Seq<Process>, lv: Seq<Seq<(u64, u64)>>) -> nat
    decreases lv.len(),
{
    if lv.len() == 0 {
        0
    } else {
        (named_dur_sum(w, lv[0]) + levels_named_sum(w, lv.drop_first())) as nat
    }
}

proof fn lemma_named_dur_sum_concat(w: Seq<Process>, a: Seq<(u64, u64)>, b: Seq<(u64, u64)>)
    ensures
        named_dur_sum(w, a + b) == named_dur_sum(w, a) + named_dur_sum(w, b),
    decreases a.len(),
{
    if a.len() == 0 {
        assert(a + b =~= b);
    } else {
        assert((a + b).drop_first() =~= a.drop_first() + b);
        lemma_named_dur_sum_concat(w, a.drop_first(), b);
    }
}

proof fn lemma_named_dur_sum_prepend(w: Seq<Process>, q: Seq<(u64, u64)>, x: (u64, u64))
    ensures
        named_dur_sum(w, seq![x] + q) == named_dur_sum(w, q) + w[x.1 as int].duration,
{
    assert((seq![x] + q).drop_first() =~= q);
    assert((seq![x] + q)[0] == x);
}

proof fn lemma_levels_named_update(w: Seq<Process>, lv: Seq<Seq<(u64, u64)>>, s: int, q: Seq<(u64, u64)>)
    requires
        0 <= s < lv.len(),
    ensures
        levels_named_sum(w, lv.update(s, q)) + named_dur_sum(w, lv[s]) == levels_named_sum(w, lv)
            + named_dur_sum(w, q),
    decreases lv.len(),
{
    if s == 0 {
        assert(lv.update(0, q).drop_first() =~= lv.drop_first());
    } else {
        assert(lv.update(s, q).drop_first() =~= lv.drop_first().update(s - 1, q));
        lemma_levels_named_update(w, lv.drop_first(), s - 1, q);
    }
}

proof fn lemma_levels_named_flatten(w: Seq<Process>, lv: Seq<Seq<(u64, u64)>>)
    ensures
        named_dur_sum(w, lv.flatten()) == levels_named_sum(w, lv),
    decreases lv.len(),
{
    if lv.len() > 0 {
        lemma_levels_named_flatten(w, lv.drop_first());
        lemma_named_dur_sum_concat(w, lv[0], lv.drop_first().flatten());
        assert(lv.flatten() == lv.first() + lv.drop_first().flatten());
    }
}

proof fn lemma_levels_named_all_empty(w: Seq<Process>, lv: Seq<Seq<(u64, u64)>>)
    requires
        forall|j: int| 0 <= j < lv.len() ==> (#[trigger] lv[j]).len() == 0,
    ensures
        levels_named_sum(w, lv) == 0,
    decreases lv.len(),
{
    if lv.len() > 0 {
        assert(forall|j: int|
            0 <= j < lv.drop_first().len() ==> (#[trigger] lv.drop_first()[j]).len() == 0);
        lemma_levels_named_all_empty(w, lv.drop_first());
    }
}

proof fn lemma_levels_named_boost(w: Seq<Process>, lv: Seq<Seq<(u64, u64)>>, nl: int)
    requires
        nl >= 1,
    ensures
        levels_named_sum(w, boost(lv, nl)) == levels_named_sum(w, lv),
{
    let b = boost(lv, nl);
    lemma_levels_named_flatten(w, lv);
    assert(forall|j: int|
        0 <= j < b.drop_first().len() ==> (#[trigger] b.drop_first()[j]).len() == 0);
    lemma_levels_named_all_empty(w, b.drop_first());
    assert(levels_named_sum(w, b) == named_dur_sum(w, b[0]) + levels_named_sum(w, b.drop_first()));
}

/// Conservation under MLFQ, in its general form: the records still to be
/// emitted carry the not-yet-admitted durations plus the full durations of
/// the processes queued at any level.
proof fn lemma_mlfq_loop_conservation(
    w: Seq<Process>,
    bi: int,
    nl: int,
    k: nat,
    lv: Seq<Seq<(u64, u64)>>,
    clock: int,
    fr: Seq<Option<u64>>,
    phase: int,
)
    requires
        w.len() <= u64::MAX,
        crate::model::wl_durations_positive(w),
        nl >= 1,
        lv.len() == nl,
        level_pairs_ok(lv, w.len()),
    ensures
        total_duration(mlfq_loop(w, bi, nl, k, lv, clock, fr, phase)) == pend_dur_sum(w, k as int)
            + levels_named_sum(w, lv),
    decreases pend_dur_sum(w, k as int) + levels_rem_sum(lv), w.len() - k, levels_count(lv),
{
    if k >= w.len() && levels_count(lv) == 0 {
        assert forall|j: int| 0 <= j < lv.len() implies (#[trigger] lv[j]).len() == 0 by {
            lemma_levels_count_member(lv, j);
        }
        lemma_levels_named_all_empty(w, lv);
    } else {
        let lv1 = if phase == 0 {
            boost(lv, nl)
        } else {
            lv
        };
        if phase == 0 {
            lemma_boost_props(lv, nl);
            lemma_levels_named_boost(w, lv, nl);
            lemma_boost_pairs_ok(lv, nl, w.len());
        }
        let c = if levels_count(lv1) == 0 && k < w.len() && w[k as int].arrival > clock {
            w[k as int].arrival as int
        } else {
            clock
        };
        if k < w.len() && w[k as int].arrival <= c {
            let x = (w[k as int].duration, k as u64);
            let lv2 = lv1.update(0, seq![x] + lv1[0]);
            lemma_levels_update(lv1, 0, seq![x] + lv1[0]);
            lemma_levels_named_update(w, lv1, 0, seq![x] + lv1[0]);
            crate::model::lemma_rem_sum_prepend(lv1[0], x);
            lemma_named_dur_sum_prepend(w, lv1[0], x);
            assert(level_pairs_ok(lv2, w.len())) by {
                assert(forall|a: int, b: int|
                    0 <= a < lv2.len() && 0 <= b < lv2[a].len() && a != 0 ==> (#[trigger] lv2[a][b])
                        == lv1[a][b]);
                assert(forall|b: int|
                    1 <= b < lv2[0].len() ==> (#[trigger] lv2[0][b]) == lv1[0][b - 1]);
                assert(lv2[0][0] == x);
            }
            lemma_mlfq_loop_conservation(w, bi, nl, k + 1, lv2, c, fr, phase);
        } else {
            lemma_first_busy_props(lv1);
            let s = first_busy(lv1);
            let rem = lv1[s][0].0;
            let iu = lv1[s][0].1;
            let i = iu as int;
            let fr2 = if fr[i] is None {
                fr.update(i, Some(c as u64))
            } else {
                fr
            };
            let lv2 = lv1.update(s, lv1[s].drop_first());
            lemma_levels_update(lv1, s, lv1[s].drop_first());
            lemma_levels_named_update(w, lv1, s, lv1[s].drop_first());
            assert(rem_sum(lv1[s]) == rem + rem_sum(lv1[s].drop_first()));
            assert(named_dur_sum(w, lv1[s]) == w[i].duration + named_dur_sum(
                w,
                lv1[s].drop_first(),
            ));
            assert(level_pairs_ok(lv2, w.len())) by {
                assert(forall|a: int, b: int|
                    0 <= a < lv2.len() && 0 <= b < lv2[a].len() && a != s ==> (#[trigger] lv2[a][b])
                        == lv1[a][b]);
                assert(forall|b: int|
                    0 <= b < lv2[s].len() ==> (#[trigger] lv2[s][b]) == lv1[s][b + 1]);
            }
            let phase2 = if phase + 1 >= bi {
                0
            } else {
                phase + 1
            };
            if rem <= 1 {
                lemma_mlfq_loop_conservation(w, bi, nl, k, lv2, c + 1, fr2, phase2);
                lemma_total_duration_cons(
                    mlfq_loop(w, bi, nl, k, lv2, c + 1, fr2, phase2),
                    completed_record(w[i], fr2[i], c + 1),
                );
            } else {
                let y = (((rem - 1) as u64), iu);
                let z = if s + 1 < nl {
                    s + 1
                } else {
                    nl - 1
                };
                let lv3 = lv2.update(z, lv2[z].push(y));
                lemma_levels_update(lv2, z, lv2[z].push(y));
                lemma_levels_named_update(w, lv2, z, lv2[z].push(y));
                crate::model::lemma_rem_sum_push(lv2[z], y);
                lemma_named_dur_sum_push(w, lv2[z], y);
                assert(level_pairs_ok(lv3, w.len())) by {
                    assert(forall|a: int, b: int|
                        0 <= a < lv3.len() && 0 <= b < lv3[a].len() && a != z ==> (
                        #[trigger] lv3[a][b]) == lv2[a][b]);
                    assert(forall|b: int|
                        0 <= b < lv3[z].len() - 1 ==> (#[trigger] lv3[z][b]) == lv2[z][b]);
                    assert(lv3[z][lv3[z].len() - 1] == y);
                }
                lemma_mlfq_loop_conservation(w, bi, nl, k, lv3, c + 1, fr2, phase2);
            }
        }
    }
}

/// A level of a multi-level state with no pairs anywhere is itself empty.
proof fn lemma_levels_count_member(lv: Seq<Seq<(u64, u64)>>, j: int)
    requires
        levels_count(lv) == 0,
        0 <= j < lv.len(),
    ensures
        lv[j].len() == 0,
    decreases lv.len(),
{
    if j > 0 {
        lemma_levels_count_member(lv.drop_first(), j - 1);
    }
}

/// Conservation: the completed records of an MLFQ run carry the same total
/// service time as the workload itself, whatever the boost interval and
/// level count.
pub proof fn lemma_mlfq_conservation(w: Seq<Process>, bi: int, nl: int)
    requires
        0 < w.len() <= u64::MAX,
        crate::model::wl_durations_positive(w),
        bi >= 1,
        nl >= 1,
    ensures
        total_duration(mlfq_runs(w, bi, nl)) == total_duration(w),
{
    let lv0 = Seq::new(nl as nat, |i: int| Seq::<(u64, u64)>::empty());
    assert(forall|j: int| 0 <= j < lv0.len() ==> (#[trigger] lv0[j]).len() == 0);
    lemma_levels_named_all_empty(w, lv0);
    lemma_mlfq_loop_conservation(
        w,
        bi,
        nl,
        0,
        lv0,
        w[0].arrival as int,
        Seq::new(w.len(), |i: int| None::<u64>),
        if bi == 1 {
            0
        } else {
            1
        },
    );
}

/// A multi-level state holding exactly one pair, naming process 0 with
/// `rem` ticks left, at level `s`.
pub open spec fn single_level(nl: int, s: int, rem: u64) -> Seq<Seq<(u64, u64)>> {
    Seq::new(
        nl as nat,
        |i: int|
            if i == s {
                seq![(rem, 0u64)]
            } else {
                Seq::<(u64, u64)>::empty()
            },
    )
}

proof fn lemma_flatten_all_empty(lv: Seq<Seq<(u64, u64)>>)
    requires
        forall|j: int| 0 <= j < lv.len() ==> (#[trigger] lv[j]).len() == 0,
    ensures
        lv.flatten() =~= Seq::<(u64, u64)>::empty(),
    decreases lv.len(),
{
    if lv.len() > 0 {
        assert(forall|j: int|
            0 <= j < lv.drop_first().len() ==> (#[trigger] lv.drop_first()[j]).len() == 0);
        lemma_flatten_all_empty(lv.drop_first());
        assert(lv.flatten() == lv.first() + lv.drop_first().flatten());
    }
}

proof fn lemma_flatten_single(nl: int, s: int, rem: u64)
    requires
        0 <= s < nl,
    ensures
        single_level(nl, s, rem).flatten() =~= seq![(rem, 0u64)],
    decreases nl,
{
    let lv = single_level(nl, s, rem);
    if s == 0 {
        assert(forall|j: int|
            0 <= j < lv.drop_first().len() ==> (#[trigger] lv.drop_first()[j]).len() == 0);
        lemma_flatten_all_empty(lv.drop_first());
        assert(lv.flatten() == lv.first() + lv.drop_first().flatten());
        assert(seq![(rem, 0u64)] + Seq::<(u64, u64)>::empty() =~= seq![(rem, 0u64)]);
    } else {
        lemma_flatten_single(nl - 1, s - 1, rem);
        assert(lv.drop_first() =~~= single_level(nl - 1, s - 1, rem));
        assert(lv.flatten() == lv.first() + lv.drop_first().flatten());
        assert(Seq::<(u64, u64)>::empty() + seq![(rem, 0u64)] =~= seq![(rem, 0u64)]);
    }
}

proof fn lemma_single_level_facts(nl: int, s: int, rem: u64)
    requires
        0 <= s < nl,
    ensures
        levels_count(single_level(nl, s, rem)) == 1,
        first_busy(single_level(nl, s, rem)) == s,
    decreases nl,
{
    let lv = single_level(nl, s, rem);
    lemma_flatten_single(nl, s, rem);
    crate::mlfq::lemma_flatten_props(lv);
    lemma_first_busy_props(lv);
    let fb = first_busy(lv);
    if fb < s {
        assert(lv[fb].len() == 0);
    }
    if fb > s {
        assert(lv[s].len() == 0);
    }
}

/// A lone ready process under STCF runs every tick until it completes.
proof fn lemma_stcf_single_run(w: Seq<Process>, rem: u64, c: int, fr: Seq<Option<u64>>)
    requires
        w.len() == 1,
        rem >= 1,
        fr.len() == 1,
        fr[0] is Some,
    ensures
        stcf_loop(w, 1, seq![(rem, 0u64)], c, fr) == seq![completed_record(w[0], fr[0], c + rem)],
    decreases rem,
{
    let q = seq![(rem, 0u64)];
    crate::model::lemma_min_pos_in_range(q);
    if rem <= 1 {
        assert(q.remove(0) =~= Seq::<(u64, u64)>::empty());
        assert(stcf_loop(w, 1, q.remove(0), c + 1, fr) =~= Seq::<Process>::empty());
        assert(seq![completed_record(w[0], fr[0], c + 1)] + Seq::<Process>::empty()
            =~= seq![completed_record(w[0], fr[0], c + 1)]);
    } else {
        assert(q.remove(0).push((((rem - 1) as u64), 0u64)) =~= seq![((rem - 1) as u64, 0u64)]);
        lemma_stcf_single_run(w, (rem - 1) as u64, c + 1, fr);
    }
}

/// A lone ready process under round-robin runs every tick until it
/// completes.
proof fn lemma_rr_single_run(w: Seq<Process>, rem: u64, c: int, fr: Seq<Option<u64>>)
    requires
        w.len() == 1,
        rem >= 1,
        fr.len() == 1,
        fr[0] is Some,
    ensures
        rr_loop(w, 1, seq![(rem, 0u64)], c, fr) == seq![completed_record(w[0], fr[0], c + rem)],
    decreases rem,
{
    let q = seq![(rem, 0u64)];
    if rem <= 1 {
        assert(q.drop_first() =~= Seq::<(u64, u64)>::empty());
        assert(rr_loop(w, 1, q.drop_first(), c + 1, fr) =~= Seq::<Process>::empty());
        assert(seq![completed_record(w[0], fr[0], c + 1)] + Seq::<Process>::empty()
            =~= seq![completed_record(w[0], fr[0], c + 1)]);
    } else {
        assert(q.drop_first().push((((rem - 1) as u64), 0u64)) =~= seq![((rem - 1) as u64, 0u64)]);
        lemma_rr_single_run(w, (rem - 1) as u64, c + 1, fr);
    }
}

/// A lone process under MLFQ runs every tick until it completes, whatever
/// level it stands at and whatever the boost phase says.
proof fn lemma_mlfq_single_run(
    w: Seq<Process>,
    bi: int,
    nl: int,
    s: int,
    rem: u64,
    c: int,
    fr: Seq<Option<u64>>,
    phase: int,
)
    requires
        w.len() == 1,
        bi >= 1,
        1 <= nl,
        0 <= s < nl,
        rem >= 1,
        fr.len() == 1,
        fr[0] is Some,
    ensures
        mlfq_loop(w, bi, nl, 1, single_level(nl, s, rem), c, fr, phase) == seq![
            completed_record(w[0], fr[0], c + rem),
        ],
    decreases rem,
{
    let lv = single_level(nl, s, rem);
    lemma_single_level_facts(nl, s, rem);
    let s1 = if phase == 0 {
        0
    } else {
        s
    };
    let lv1 = if phase == 0 {
        boost(lv, nl)
    } else {
        lv
    };
    if phase == 0 {
        lemma_flatten_single(nl, s, rem);
        assert(lv1 =~~= single_level(nl, 0, rem));
    }
    lemma_single_level_facts(nl, s1, rem);
    assert(first_busy(lv1) == s1);
    assert(lv1[s1][0] == (rem, 0u64));
    let lv2 = lv1.update(s1, lv1[s1].drop_first());
    assert(lv1[s1].drop_first() =~= Seq::<(u64, u64)>::empty());
    let phase2 = if phase + 1 >= bi {
        0
    } else {
        phase + 1
    };
    if rem <= 1 {
        assert(forall|j: int| 0 <= j < lv2.len() ==> (#[trigger] lv2[j]).len() == 0);
        lemma_levels_all_empty(lv2);
        assert(mlfq_loop(w, bi, nl, 1, lv2, c + 1, fr, phase2) =~= Seq::<Process>::empty());
        assert(seq![completed_record(w[0], fr[0], c + 1)] + Seq::<Process>::empty()
            =~= seq![completed_record(w[0], fr[0], c + 1)]);
    } else {
        let z = if s1 + 1 < nl {
            s1 + 1
        } else {
            nl - 1
        };
        let lv3 = lv2.update(z, lv2[z].push((((rem - 1) as u64), 0u64)));
        assert(lv3 =~~= single_level(nl, z, (rem - 1) as u64));
        lemma_mlfq_single_run(w, bi, nl, z, (rem - 1) as u64, c + 1, fr, phase2);
    }
}

/// Agreement on a single-process workload: every policy first runs the
/// process at its arrival and completes it one duration later. For FIFO
/// this is its contract with `fifo_start(w, 0) == w[0].arrival`; the other
/// four machines produce exactly the one record.
pub proof fn lemma_single_process_agreement(w: Seq<Process>, bi: int, nl: int)
    requires
        wl_valid(w),
        w.len() == 1,
        bi >= 1,
        nl >= 1,
    ensures
        fifo_start(w, 0) == w[0].arrival,
        sjf_runs(w) == seq![
            completed_record(w[0], Some(w[0].arrival), w[0].arrival + w[0].duration),
        ],
        stcf_runs(w) == seq![
            completed_record(w[0], Some(w[0].arrival), w[0].arrival + w[0].duration),
        ],
        rr_runs(w) == seq![
            completed_record(w[0], Some(w[0].arrival), w[0].arrival + w[0].duration),
        ],
        mlfq_runs(w, bi, nl) == seq![
            completed_record(w[0], Some(w[0].arrival), w[0].arrival + w[0].duration),
        ],
{
    let arr = w[0].arrival as int;
    let d = w[0].duration;
    let rec = completed_record(w[0], Some(w[0].arrival), arr + d);
    let fr0 = Seq::new(1, |i: int| None::<u64>);
    let fr1 = fr0.update(0, Some(arr as u64));
    assert(d >= 1);

    // SJF: admit, then one run to completion.
    let q1 = Seq::<(u64, u64)>::empty().push((d, 0u64));
    assert(q1 =~= seq![(d, 0u64)]);
    crate::model::lemma_min_pos_in_range(q1);
    assert(sjf_loop(w, 0, Seq::empty(), arr) == sjf_loop(w, 1, q1, arr));
    assert(q1.remove(0) =~= Seq::<(u64, u64)>::empty());
    assert(sjf_loop(w, 1, q1.remove(0), arr + d) =~= Seq::<Process>::empty());
    assert(sjf_loop(w, 1, q1, arr) == seq![rec] + Seq::<Process>::empty());
    assert(seq![rec] + Seq::<Process>::empty() =~= seq![rec]);

    // STCF: admit, a first tick that sets the first-run time, then the rest.
    assert(stcf_loop(w, 0, Seq::empty(), arr, fr0) == stcf_loop(w, 1, q1, arr, fr0));
    crate::model::lemma_min_pos_in_range(q1);
    if d <= 1 {
        assert(stcf_loop(w, 1, q1.remove(0), arr + 1, fr1) =~= Seq::<Process>::empty());
        assert(stcf_loop(w, 1, q1, arr, fr0) == seq![completed_record(w[0], fr1[0], arr + 1)]
            + Seq::<Process>::empty());
        assert(seq![completed_record(w[0], fr1[0], arr + 1)] + Seq::<Process>::empty()
            =~= seq![rec]);
    } else {
        assert(q1.remove(0).push((((d - 1) as u64), 0u64)) =~= seq![((d - 1) as u64, 0u64)]);
        lemma_stcf_single_run(w, (d - 1) as u64, arr + 1, fr1);
        assert(stcf_loop(w, 1, q1, arr, fr0) == seq![rec]);
    }

    // Round-robin: the same shape as STCF with a queue front.
    assert(rr_loop(w, 0, Seq::empty(), arr, fr0) == rr_loop(w, 1, q1, arr, fr0));
    if d <= 1 {
        assert(q1.drop_first() =~= Seq::<(u64, u64)>::empty());
        assert(rr_loop(w, 1, q1.drop_first(), arr + 1, fr1) =~= Seq::<Process>::empty());
        assert(rr_loop(w, 1, q1, arr, fr0) == seq![completed_record(w[0], fr1[0], arr + 1)]
            + Seq::<Process>::empty());
        assert(seq![completed_record(w[0], fr1[0], arr + 1)] + Seq::<Process>::empty()
            =~= seq![rec]);
    } else {
        assert(q1.drop_first().push((((d - 1) as u64), 0u64)) =~= seq![((d - 1) as u64, 0u64)]);
        lemma_rr_single_run(w, (d - 1) as u64, arr + 1, fr1);
        assert(rr_loop(w, 1, q1, arr, fr0) == seq![rec]);
    }

    // MLFQ: admission puts the process at the front of level 0; it then
    // runs every tick, wherever demotion or boost moves it.
    let lv0 = Seq::new(nl as nat, |i: int| Seq::<(u64, u64)>::empty());
    let ph0 = if bi == 1 {
        0
    } else {
        1
    };
    assert(forall|j: int| 0 <= j < lv0.len() ==> (#[trigger] lv0[j]).len() == 0);
    lemma_levels_all_empty(lv0);
    let lvb = if ph0 == 0 {
        boost(lv0, nl)
    } else {
        lv0
    };
    if ph0 == 0 {
        lemma_flatten_all_empty(lv0);
        lemma_boost_props(lv0, nl);
        assert(lvb =~~= lv0);
    }
    lemma_levels_all_empty(lvb);
    let lva = lvb.update(0, seq![(d, 0u64)] + lvb[0]);
    assert(seq![(d, 0u64)] + lvb[0] =~= seq![(d, 0u64)]);
    assert(lva =~~= single_level(nl, 0, d));
    assert(mlfq_loop(w, bi, nl, 0, lv0, arr, fr0, ph0) == mlfq_loop(
        w,
        bi,
        nl,
        1,
        single_level(nl, 0, d),
        arr,
        fr0,
        ph0,
    ));
    lemma_single_level_facts(nl, 0, d);
    let lv_run = if ph0 == 0 {
        boost(single_level(nl, 0, d), nl)
    } else {
        single_level(nl, 0, d)
    };
    if ph0 == 0 {
        lemma_flatten_single(nl, 0, d);
        assert(lv_run =~~= single_level(nl, 0, d));
    }
    assert(first_busy(lv_run) == 0);
    assert(lv_run[0][0] == (d, 0u64));
    let lv_after = lv_run.update(0, lv_run[0].drop_first());
    assert(lv_run[0].drop_first() =~= Seq::<(u64, u64)>::empty());
    let ph2 = if ph0 + 1 >= bi {
        0
    } else {
        ph0 + 1
    };
    if d <= 1 {
        assert(forall|j: int| 0 <= j < lv_after.len() ==> (#[trigger] lv_after[j]).len() == 0);
        lemma_levels_all_empty(lv_after);
        assert(mlfq_loop(w, bi, nl, 1, lv_after, arr + 1, fr1, ph2) =~= Seq::<Process>::empty());
        assert(mlfq_loop(w, bi, nl, 1, single_level(nl, 0, d), arr, fr0, ph0) == seq![
            completed_record(w[0], fr1[0], arr + 1),
        ] + Seq::<Process>::empty());
        assert(seq![completed_record(w[0], fr1[0], arr + 1)] + Seq::<Process>::empty()
            =~= seq![rec]);
    } else {
        let z = if 1 < nl {
            1
        } else {
            nl - 1
        };
        let lv_next = lv_after.update(z, lv_after[z].push((((d - 1) as u64), 0u64)));
        assert(lv_next =~~= single_level(nl, z, (d - 1) as u64));
        lemma_mlfq_single_run(w, bi, nl, z, (d - 1) as u64, arr + 1, fr1, ph2);
        assert(mlfq_loop(w, bi, nl, 1, single_level(nl, 0, d), arr, fr0, ph0) == seq![rec]);
    }
}

/// Demotion: away from boost ticks, a lone unfinished process at level `s`
/// is served there and requeued one level lower, with the bottom level as
/// the floor; so with no competitors it descends one level per tick and
/// then stays at the bottom.
pub proof fn lemma_mlfq_demotion(
    w: Seq<Process>,
    bi: int,
    nl: int,
    s: int,
    rem: u64,
    c: int,
    fr: Seq<Option<u64>>,
    phase: int,
)
    requires
        w.len() == 1,
        bi >= 1,
        1 <= nl,
        0 <= s < nl,
        rem >= 2,
        fr.len() == 1,
        fr[0] is Some,
        phase != 0,
    ensures
        first_busy(single_level(nl, s, rem)) == s,
        mlfq_loop(w, bi, nl, 1, single_level(nl, s, rem), c, fr, phase) == mlfq_loop(
            w,
            bi,
            nl,
            1,
            single_level(
                nl,
                if s + 1 < nl {
                    s + 1
                } else {
                    nl - 1
                },
                (rem - 1) as u64,
            ),
            c + 1,
            fr,
            if phase + 1 >= bi {
                0
            } else {
                phase + 1
            },
        ),
{
    let lv = single_level(nl, s, rem);
    lemma_single_level_facts(nl, s, rem);
    assert(lv[s][0] == (rem, 0u64));
    let lv2 = lv.update(s, lv[s].drop_first());
    assert(lv[s].drop_first() =~= Seq::<(u64, u64)>::empty());
    let z = if s + 1 < nl {
        s + 1
    } else {
        nl - 1
    };
    let lv3 = lv2.update(z, lv2[z].push((((rem - 1) as u64), 0u64)));
    assert(lv3 =~~= single_level(nl, z, (rem - 1) as u64));
}

/// Boost: on a boost tick the lone process is first moved back to level 0,
/// wherever it stood, and is served from there.
pub proof fn lemma_mlfq_boost_returns_to_top(nl: int, s: int, rem: u64)
    requires
        1 <= nl,
        0 <= s < nl,
    ensures
        boost(single_level(nl, s, rem), nl) =~~= single_level(nl, 0, rem),
        first_busy(boost(single_level(nl, s, rem), nl)) == 0,
{
    lemma_flatten_single(nl, s, rem);
    lemma_single_level_facts(nl, 0, rem);
    assert(boost(single_level(nl, s, rem), nl) =~~= single_level(nl, 0, rem));
}

} // verus!
