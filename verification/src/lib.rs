//! A discrete-time simulator for five classical CPU scheduling policies:
//! first-in-first-out, shortest-job-first, shortest-time-to-completion-first,
//! round-robin, and a multi-level feedback queue with periodic priority boost.
//!
//! A workload is a sequence of processes, each described by an arrival time
//! and a service duration, sorted ascending by arrival. Every engine consumes
//! such a workload and returns the completed process records, in completion
//! order, with the simulated first-run and completion timestamps filled in.
//! Each engine's result is pinned down exactly by a specification-level
//! state machine that mirrors its scheduling policy.

pub mod fifo;
pub mod laws;
pub mod mlfq;
pub mod metrics;
pub mod model;
pub mod pqueue;
pub mod rr;
pub mod sjf;
pub mod stcf;
pub mod workload;
