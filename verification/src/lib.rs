//! An offline, deterministic evaluator of non-preemptive batch-job
//! dispatch across a fixed pool of identical processing units, under
//! three classical policies: first-come-first-served, shortest-job-first
//! and highest-response-ratio-next.  Times are abstract integer units;
//! each dispatcher is a pure function of the job list and the core
//! count, and returns every input job annotated with its start and end
//! time, sorted by job id.

pub mod cores;
pub mod engine;
pub mod job;
pub mod laws;
pub mod order;
