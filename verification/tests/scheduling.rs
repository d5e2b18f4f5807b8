use job_dispatch::engine::{schedule_fcfs, schedule_hrrn, schedule_sjf};
use job_dispatch::job::Job;

#[test]
fn fcfs_single_core_scenario() {
    let jobs = vec![
        Job::new(1, 0, 3),
        Job::new(2, 2, 6),
        Job::new(3, 4, 4),
        Job::new(4, 6, 5),
        Job::new(5, 8, 2),
    ];
    let r = schedule_fcfs(&jobs, 1);
    let starts: Vec<u64> = r.iter().map(|j| j.start).collect();
    let ends: Vec<u64> = r.iter().map(|j| j.end).collect();
    let ids: Vec<u64> = r.iter().map(|j| j.id).collect();
    assert_eq!(ids, vec![1, 2, 3, 4, 5]);
    assert_eq!(starts, vec![0, 3, 9, 13, 18]);
    assert_eq!(ends, vec![3, 9, 13, 18, 20]);
}

#[test]
fn fcfs_two_cores() {
    let jobs = vec![
        Job::new(1, 0, 3),
        Job::new(2, 2, 6),
        Job::new(3, 4, 4),
        Job::new(4, 6, 5),
        Job::new(5, 8, 2),
    ];
    let r = schedule_fcfs(&jobs, 2);
    let starts: Vec<u64> = r.iter().map(|j| j.start).collect();
    let ends: Vec<u64> = r.iter().map(|j| j.end).collect();
    assert_eq!(starts, vec![0, 2, 4, 8, 8]);
    assert_eq!(ends, vec![3, 8, 8, 13, 10]);
}

#[test]
fn sjf_single_core_scenario() {
    // Job 1 runs [0,3).  At t=3 only job 2 has arrived, so it runs
    // [3,9).  At t=9 jobs 3, 4 and 5 are ready; the shortest, job 5,
    // runs [9,11), then job 3 [11,15), then job 4 [15,20).
    let jobs = vec![
        Job::new(1, 0, 3),
        Job::new(2, 2, 6),
        Job::new(3, 4, 4),
        Job::new(4, 6, 5),
        Job::new(5, 8, 2),
    ];
    let r = schedule_sjf(&jobs, 1);
    let starts: Vec<u64> = r.iter().map(|j| j.start).collect();
    let ends: Vec<u64> = r.iter().map(|j| j.end).collect();
    assert_eq!(starts, vec![0, 3, 11, 15, 9]);
    assert_eq!(ends, vec![3, 9, 15, 20, 11]);
}

#[test]
fn hrrn_single_core_scenario() {
    // At t=9 the ready set is {3, 4, 5} with response ratios
    // 9/4, 8/5 and 3/2: job 3 wins.  At t=13 job 5's ratio 7/2 beats
    // job 4's 12/5, so job 5 runs before job 4.
    let jobs = vec![
        Job::new(1, 0, 3),
        Job::new(2, 2, 6),
        Job::new(3, 4, 4),
        Job::new(4, 6, 5),
        Job::new(5, 8, 2),
    ];
    let r = schedule_hrrn(&jobs, 1);
    let starts: Vec<u64> = r.iter().map(|j| j.start).collect();
    let ends: Vec<u64> = r.iter().map(|j| j.end).collect();
    assert_eq!(starts, vec![0, 3, 9, 15, 13]);
    assert_eq!(ends, vec![3, 9, 13, 20, 15]);
}

#[test]
fn hrrn_two_cores_scenario() {
    let jobs = vec![
        Job::new(1, 0, 3),
        Job::new(2, 2, 6),
        Job::new(3, 4, 4),
        Job::new(4, 6, 5),
        Job::new(5, 8, 2),
    ];
    let r = schedule_hrrn(&jobs, 2);
    let starts: Vec<u64> = r.iter().map(|j| j.start).collect();
    let ends: Vec<u64> = r.iter().map(|j| j.end).collect();
    assert_eq!(starts, vec![0, 2, 4, 8, 8]);
    assert_eq!(ends, vec![3, 8, 8, 13, 10]);
    // Capacity bound: at no instant are more than two jobs running.
    for t in 0..21u64 {
        let active = r.iter().filter(|j| j.start <= t && t < j.end).count();
        assert!(active <= 2);
    }
    // Causality: every job starts at or after its arrival and runs for
    // exactly its service time.
    for j in &r {
        assert!(j.start >= j.arrival);
        assert_eq!(j.end, j.start + j.service);
    }
}

#[test]
fn dispatchers_are_deterministic() {
    let jobs = vec![
        Job::new(1, 0, 3),
        Job::new(2, 2, 6),
        Job::new(3, 4, 4),
        Job::new(4, 6, 5),
        Job::new(5, 8, 2),
    ];
    assert_eq!(schedule_fcfs(&jobs, 2), schedule_fcfs(&jobs, 2));
    assert_eq!(schedule_sjf(&jobs, 2), schedule_sjf(&jobs, 2));
    assert_eq!(schedule_hrrn(&jobs, 2), schedule_hrrn(&jobs, 2));
}

#[test]
fn empty_job_list() {
    let jobs: Vec<Job> = Vec::new();
    assert!(schedule_fcfs(&jobs, 1).is_empty());
    assert!(schedule_sjf(&jobs, 3).is_empty());
    assert!(schedule_hrrn(&jobs, 2).is_empty());
}

#[test]
fn completeness_on_scrambled_input() {
    // Input order and id order differ; the output is exactly the input
    // job set, sorted by id.
    let jobs = vec![
        Job::new(42, 7, 2),
        Job::new(3, 0, 5),
        Job::new(17, 3, 1),
        Job::new(8, 3, 4),
    ];
    for r in [
        schedule_fcfs(&jobs, 2),
        schedule_sjf(&jobs, 2),
        schedule_hrrn(&jobs, 2),
    ] {
        let ids: Vec<u64> = r.iter().map(|j| j.id).collect();
        assert_eq!(ids, vec![3, 8, 17, 42]);
        for out in &r {
            let src = jobs.iter().find(|j| j.id == out.id).unwrap();
            assert_eq!(out.arrival, src.arrival);
            assert_eq!(out.service, src.service);
        }
    }
}

#[test]
fn sjf_tie_keeps_admission_order() {
    let jobs = vec![Job::new(1, 0, 5), Job::new(2, 0, 5)];
    let r = schedule_sjf(&jobs, 1);
    assert_eq!(r[0].start, 0);
    assert_eq!(r[0].end, 5);
    assert_eq!(r[1].start, 5);
    assert_eq!(r[1].end, 10);
}

#[test]
fn fcfs_equal_arrivals_stay_in_input_order() {
    // Job 2 is shorter but arrived in second position at the same
    // instant: FCFS keeps the original relative order.
    let jobs = vec![Job::new(1, 0, 4), Job::new(2, 0, 1)];
    let r = schedule_fcfs(&jobs, 1);
    assert_eq!((r[0].start, r[0].end), (0, 4));
    assert_eq!((r[1].start, r[1].end), (4, 5));
}

#[test]
fn idle_cores_wait_for_next_arrival() {
    let jobs = vec![Job::new(1, 0, 2), Job::new(2, 10, 3)];
    let r = schedule_sjf(&jobs, 1);
    assert_eq!((r[0].start, r[0].end), (0, 2));
    assert_eq!((r[1].start, r[1].end), (10, 13));
}

#[test]
fn single_job_many_cores() {
    let jobs = vec![Job::new(9, 5, 7)];
    let r = schedule_hrrn(&jobs, 3);
    assert_eq!(r.len(), 1);
    assert_eq!((r[0].start, r[0].end), (5, 12));
}

#[test]
fn no_overlap_on_single_core() {
    // With one core, the output intervals must be pairwise disjoint.
    let jobs = vec![
        Job::new(1, 0, 3),
        Job::new(2, 2, 6),
        Job::new(3, 4, 4),
        Job::new(4, 6, 5),
        Job::new(5, 8, 2),
    ];
    for r in [
        schedule_fcfs(&jobs, 1),
        schedule_sjf(&jobs, 1),
        schedule_hrrn(&jobs, 1),
    ] {
        for a in &r {
            for b in &r {
                if a.id != b.id {
                    assert!(a.end <= b.start || b.end <= a.start);
                }
            }
        }
    }
}
