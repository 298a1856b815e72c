use sched_sim::fifo::fifo;
use sched_sim::metrics::{total_response, total_turnaround};
use sched_sim::mlfq::{mlfq, MlfqConfig};
use sched_sim::model::{Process, ScheduleError};
use sched_sim::rr::rr;
use sched_sim::sjf::sjf;
use sched_sim::stcf::stcf;
use sched_sim::workload::{sort_workload, validate_workload};

fn wl(pairs: &[(u64, u64)]) -> Vec<Process> {
    let mut v = Vec::new();
    for &(a, d) in pairs {
        v.push(Process::new(a, d));
    }
    v
}

fn cfg() -> MlfqConfig {
    MlfqConfig { boost_interval: 10, num_levels: 4, trace: false }
}

#[test]
fn process_new_starts_unset() {
    let p = Process::new(3, 7);
    assert_eq!(p.arrival, 3);
    assert_eq!(p.duration, 7);
    assert_eq!(p.first_run, None);
    assert_eq!(p.completion, None);
    assert_eq!(p.remaining_time, 7);
}

#[test]
fn fifo_two_processes() {
    let done = fifo(&wl(&[(0, 5), (1, 3)])).unwrap();
    assert_eq!(done.len(), 2);
    assert_eq!(done[0].first_run, Some(0));
    assert_eq!(done[0].completion, Some(5));
    assert_eq!(done[1].first_run, Some(5));
    assert_eq!(done[1].completion, Some(8));
}

#[test]
fn fifo_completion_order_is_arrival_order() {
    let done = fifo(&wl(&[(0, 4), (1, 1), (2, 2)])).unwrap();
    assert_eq!(done[0].arrival, 0);
    assert_eq!(done[1].arrival, 1);
    assert_eq!(done[2].arrival, 2);
    assert!(done[0].completion.unwrap() <= done[1].completion.unwrap());
    assert!(done[1].completion.unwrap() <= done[2].completion.unwrap());
}

#[test]
fn sjf_runs_shorter_job_first() {
    let done = sjf(&wl(&[(0, 5), (0, 2)])).unwrap();
    assert_eq!(done.len(), 2);
    assert_eq!(done[0].duration, 2);
    assert_eq!(done[0].first_run, Some(0));
    assert_eq!(done[0].completion, Some(2));
    assert_eq!(done[1].duration, 5);
    assert_eq!(done[1].first_run, Some(2));
    assert_eq!(done[1].completion, Some(7));
}

#[test]
fn sjf_ties_break_by_arrival_position() {
    let done = sjf(&wl(&[(0, 3), (0, 3)])).unwrap();
    assert_eq!(done[0].first_run, Some(0));
    assert_eq!(done[0].completion, Some(3));
    assert_eq!(done[1].first_run, Some(3));
    assert_eq!(done[1].completion, Some(6));
}

#[test]
fn stcf_preempts_for_shorter_arrival() {
    let done = stcf(&wl(&[(0, 8), (1, 4)])).unwrap();
    assert_eq!(done.len(), 2);
    // the short job arrives at tick 1, preempts, and completes at tick 5
    assert_eq!(done[0].arrival, 1);
    assert_eq!(done[0].first_run, Some(1));
    assert_eq!(done[0].completion, Some(5));
    // the long job first ran at 0 and resumes to complete at tick 12
    assert_eq!(done[1].arrival, 0);
    assert_eq!(done[1].first_run, Some(0));
    assert_eq!(done[1].completion, Some(12));
}

#[test]
fn rr_alternates_every_tick() {
    let done = rr(&wl(&[(0, 3), (0, 3)])).unwrap();
    assert_eq!(done.len(), 2);
    // with a quantum of one the two jobs alternate: first runs at 0 and 1
    assert_eq!(done[0].first_run, Some(0));
    assert_eq!(done[1].first_run, Some(1));
    assert_eq!(done[0].completion, Some(5));
    assert_eq!(done[1].completion, Some(6));
}

#[test]
fn mlfq_two_processes() {
    let done = mlfq(&wl(&[(0, 2), (1, 2)]), &cfg()).unwrap();
    assert_eq!(done.len(), 2);
    assert_eq!(done[0].arrival, 0);
    assert_eq!(done[0].first_run, Some(0));
    assert_eq!(done[0].completion, Some(3));
    assert_eq!(done[1].arrival, 1);
    assert_eq!(done[1].first_run, Some(1));
    assert_eq!(done[1].completion, Some(4));
}

#[test]
fn mlfq_lone_process_runs_to_completion() {
    // a lone long-running process is demoted level by level but keeps the
    // processor, so it completes after exactly its duration
    let done = mlfq(&wl(&[(0, 12)]), &cfg()).unwrap();
    assert_eq!(done.len(), 1);
    assert_eq!(done[0].first_run, Some(0));
    assert_eq!(done[0].completion, Some(12));
    assert_eq!(done[0].remaining_time, 0);
}

#[test]
fn mlfq_trace_toggle_changes_nothing() {
    let workload = wl(&[(0, 3), (2, 4)]);
    let quiet = MlfqConfig { boost_interval: 5, num_levels: 4, trace: false };
    let loud = MlfqConfig { boost_interval: 5, num_levels: 4, trace: true };
    let a = mlfq(&workload, &quiet).unwrap();
    let b = mlfq(&workload, &loud).unwrap();
    assert_eq!(a.len(), b.len());
    for i in 0..a.len() {
        assert_eq!(a[i].first_run, b[i].first_run);
        assert_eq!(a[i].completion, b[i].completion);
    }
}

#[test]
fn single_process_all_policies_agree() {
    let workload = wl(&[(4, 3)]);
    let f = fifo(&workload).unwrap();
    let s = sjf(&workload).unwrap();
    let t = stcf(&workload).unwrap();
    let r = rr(&workload).unwrap();
    let m = mlfq(&workload, &cfg()).unwrap();
    for done in [&f, &s, &t, &r, &m] {
        assert_eq!(done.len(), 1);
        assert_eq!(done[0].first_run, Some(4));
        assert_eq!(done[0].completion, Some(7));
    }
}

#[test]
fn engines_wait_through_idle_gaps() {
    let workload = wl(&[(0, 2), (5, 3)]);
    let f = fifo(&workload).unwrap();
    let s = sjf(&workload).unwrap();
    let t = stcf(&workload).unwrap();
    let r = rr(&workload).unwrap();
    let m = mlfq(&workload, &cfg()).unwrap();
    for done in [&f, &s, &t, &r, &m] {
        assert_eq!(done[0].completion, Some(2));
        assert_eq!(done[1].first_run, Some(5));
        assert_eq!(done[1].completion, Some(8));
    }
}

#[test]
fn conservation_of_service_time() {
    let workload = wl(&[(0, 3), (1, 5), (2, 1), (9, 4)]);
    let input_total: u64 = workload.iter().map(|p| p.duration).sum();
    let f = fifo(&workload).unwrap();
    let s = sjf(&workload).unwrap();
    let t = stcf(&workload).unwrap();
    let r = rr(&workload).unwrap();
    let m = mlfq(&workload, &cfg()).unwrap();
    for done in [&f, &s, &t, &r, &m] {
        let out_total: u64 = done.iter().map(|p| p.duration).sum();
        assert_eq!(out_total, input_total);
        assert_eq!(done.len(), workload.len());
    }
}

#[test]
fn empty_workload_is_rejected_by_every_engine() {
    let workload: Vec<Process> = Vec::new();
    assert_eq!(fifo(&workload).unwrap_err(), ScheduleError::EmptyWorkload);
    assert_eq!(sjf(&workload).unwrap_err(), ScheduleError::EmptyWorkload);
    assert_eq!(stcf(&workload).unwrap_err(), ScheduleError::EmptyWorkload);
    assert_eq!(rr(&workload).unwrap_err(), ScheduleError::EmptyWorkload);
    assert_eq!(mlfq(&workload, &cfg()).unwrap_err(), ScheduleError::EmptyWorkload);
}

#[test]
fn validate_reports_each_error() {
    assert_eq!(
        validate_workload(&Vec::new()).unwrap_err(),
        ScheduleError::EmptyWorkload
    );
    assert_eq!(
        validate_workload(&wl(&[(5, 1), (0, 1)])).unwrap_err(),
        ScheduleError::Unsorted
    );
    assert_eq!(
        validate_workload(&wl(&[(0, 0)])).unwrap_err(),
        ScheduleError::ZeroDuration
    );
    assert_eq!(
        validate_workload(&wl(&[(u64::MAX, 1)])).unwrap_err(),
        ScheduleError::TimeOverflow
    );
    assert!(validate_workload(&wl(&[(0, 1), (2, 3)])).is_ok());
}

#[test]
fn sort_is_stable_on_equal_arrivals() {
    let sorted = sort_workload(&wl(&[(3, 1), (0, 2), (3, 5)]));
    assert_eq!(sorted.len(), 3);
    assert_eq!(sorted[0].arrival, 0);
    assert_eq!(sorted[0].duration, 2);
    assert_eq!(sorted[1].arrival, 3);
    assert_eq!(sorted[1].duration, 1);
    assert_eq!(sorted[2].arrival, 3);
    assert_eq!(sorted[2].duration, 5);
}

#[test]
fn metrics_exact_totals() {
    let done = fifo(&wl(&[(0, 5), (1, 3)])).unwrap();
    // turnarounds 5-0 and 8-1; responses 0-0 and 5-1
    assert_eq!(total_turnaround(&done), 12);
    assert_eq!(total_response(&done), 4);
}

#[test]
fn metrics_are_idempotent() {
    let done = rr(&wl(&[(0, 3), (0, 3), (2, 1)])).unwrap();
    let t1 = total_turnaround(&done);
    let t2 = total_turnaround(&done);
    let r1 = total_response(&done);
    let r2 = total_response(&done);
    assert_eq!(t1, t2);
    assert_eq!(r1, r2);
}

#[test]
fn mlfq_boost_interval_is_observable() {
    // with a long job demoted to a low level, a short arrival is served
    // sooner when no boost intervenes; an early boost lifts the long job
    // back to level 0 and delays the short one by a tick
    let workload = wl(&[(0, 4), (2, 2)]);
    let no_boost = MlfqConfig { boost_interval: 100, num_levels: 4, trace: false };
    let early_boost = MlfqConfig { boost_interval: 3, num_levels: 4, trace: false };
    let a = mlfq(&workload, &no_boost).unwrap();
    assert_eq!(a[0].arrival, 2);
    assert_eq!(a[0].first_run, Some(2));
    assert_eq!(a[0].completion, Some(4));
    assert_eq!(a[1].arrival, 0);
    assert_eq!(a[1].first_run, Some(0));
    assert_eq!(a[1].completion, Some(6));
    let b = mlfq(&workload, &early_boost).unwrap();
    assert_eq!(b[0].arrival, 2);
    assert_eq!(b[0].first_run, Some(2));
    assert_eq!(b[0].completion, Some(5));
    assert_eq!(b[1].arrival, 0);
    assert_eq!(b[1].first_run, Some(0));
    assert_eq!(b[1].completion, Some(6));
}
