use job_dispatch::engine::{fits_check, schedule_fcfs, schedule_sjf};
use job_dispatch::job::{average_turnaround, weighted_ratios, Job, Ratio};

#[test]
fn turnaround_and_weighted_turnaround_per_job() {
    let jobs = vec![Job::new(1, 2, 6)];
    let r = schedule_fcfs(&jobs, 1);
    // Arrived at 2, started at 2, ran 6: turnaround 6, weighted 6/6.
    assert_eq!(r[0].turnaround(), 6);
    assert_eq!(r[0].weighted_turnaround(), Some(Ratio { num: 6, den: 6 }));
}

#[test]
fn zero_service_job_is_scheduled_but_excluded_from_weighting() {
    let jobs = vec![Job::new(1, 0, 0), Job::new(2, 0, 5)];
    let r = schedule_fcfs(&jobs, 1);
    // The zero-service job is present with valid start and end times.
    assert_eq!(r.len(), 2);
    assert_eq!((r[0].id, r[0].start, r[0].end), (1, 0, 0));
    assert_eq!((r[1].id, r[1].start, r[1].end), (2, 0, 5));
    // ...but it has no weighted turnaround and enters no weighted
    // aggregate.
    assert_eq!(r[0].weighted_turnaround(), None);
    let ws = weighted_ratios(&r);
    assert_eq!(ws, vec![Ratio { num: 5, den: 5 }]);
}

#[test]
fn average_turnaround_exact_sum_and_count() {
    let jobs = vec![
        Job::new(1, 0, 3),
        Job::new(2, 2, 6),
        Job::new(3, 4, 4),
        Job::new(4, 6, 5),
        Job::new(5, 8, 2),
    ];
    let r = schedule_fcfs(&jobs, 1);
    // Turnarounds in id order: 3, 7, 9, 12, 12; sum 43 over 5 jobs.
    let (sum, count) = average_turnaround(&r).unwrap();
    assert_eq!(sum, 43);
    assert_eq!(count, 5);
}

#[test]
fn average_turnaround_empty() {
    let r = Vec::new();
    assert_eq!(average_turnaround(&r), None);
}

#[test]
fn weighted_ratios_in_id_order() {
    let jobs = vec![
        Job::new(1, 0, 3),
        Job::new(2, 2, 6),
        Job::new(3, 4, 4),
        Job::new(4, 6, 5),
        Job::new(5, 8, 2),
    ];
    let r = schedule_fcfs(&jobs, 1);
    let ws = weighted_ratios(&r);
    assert_eq!(
        ws,
        vec![
            Ratio { num: 3, den: 3 },
            Ratio { num: 7, den: 6 },
            Ratio { num: 9, den: 4 },
            Ratio { num: 12, den: 5 },
            Ratio { num: 12, den: 2 },
        ]
    );
}

#[test]
fn fits_check_accepts_ordinary_inputs() {
    let jobs = vec![Job::new(1, 0, 3), Job::new(2, 2, 6)];
    assert!(fits_check(&jobs));
    assert!(fits_check(&Vec::new()));
}

#[test]
fn fits_check_rejects_times_that_would_overflow() {
    let jobs = vec![Job::new(1, u64::MAX, 1)];
    assert!(!fits_check(&jobs));
    let jobs2 = vec![Job::new(1, 0, u64::MAX), Job::new(2, 5, 1)];
    assert!(!fits_check(&jobs2));
}

#[test]
fn sjf_with_zero_service_runs_it_first() {
    // A zero-service job is the shortest possible: SJF dispatches it
    // as soon as it is ready, at no cost to the others.
    let jobs = vec![Job::new(1, 0, 4), Job::new(2, 0, 0)];
    let r = schedule_sjf(&jobs, 1);
    assert_eq!((r[0].start, r[0].end), (0, 4));
    assert_eq!((r[1].start, r[1].end), (0, 0));
}
