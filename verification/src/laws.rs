use vstd::prelude::*;
use crate::cores::{earliest_core, idle_cores, lemma_earliest_core};
use crate::engine::{
    fits, lemma_fits_ok, lemma_step_ok, lemma_step_pick_range, ok_state, placements, ready_count,
    results_of, run, schedule_spec, selected, step_end, step_pick, step_placement, step_time,
    takes_priority, Placement, Policy,
};
use crate::job::{job_of, stripped, Job, JobResult};
use crate::order::{
    insert_by_id, lemma_sort_by_arrival, lemma_to_multiset_cons, lemma_to_multiset_empty,
    sort_by_arrival_spec, sort_by_id_spec,
};

verus! {

// ---------------------------------------------------------------------
// Causality: start at or after arrival, end exactly start + service
// ---------------------------------------------------------------------

/// Every placement the engine emits is well formed: the job starts no
/// earlier than it arrives and runs for exactly its service time.
pub proof fn lemma_run_wf(pending: Seq<Job>, cores: Seq<u64>, policy: Policy)
    requires
        cores.len() >= 1,
        ok_state(pending, cores),
    ensures
        run(pending, cores, policy).len() == pending.len(),
        forall|k: int|
            0 <= k < pending.len() ==> (#[trigger] run(pending, cores, policy)[k]).job.wf(),
    decreases pending.len(),
{
    if pending.len() > 0 {
        lemma_step_ok(pending, cores, policy);
        let k0 = step_pick(pending, cores, policy);
        let c = earliest_core(cores);
        let pending2 = pending.remove(k0);
        let cores2 = cores.update(c, step_end(pending, cores, policy));
        lemma_run_wf(pending2, cores2, policy);
        let rest = run(pending2, cores2, policy);
        let out = run(pending, cores, policy);
        assert(out == seq![step_placement(pending, cores, policy)] + rest);
        assert(out[0].job.wf());
        assert forall|k: int| 0 <= k < pending.len() implies (#[trigger] out[k]).job.wf() by {
            if k > 0 {
                assert(out[k] == rest[k - 1]);
            }
        }
    }
}

/// Causality for the whole pipeline: every scheduled job starts no
/// earlier than it arrives and ends exactly start + service.
pub proof fn lemma_causality(jobs: Seq<Job>, m: nat, policy: Policy)
    requires
        m >= 1,
        fits(jobs),
    ensures
        schedule_spec(jobs, m, policy).len() == jobs.len(),
        forall|k: int|
            0 <= k < jobs.len() ==> (#[trigger] schedule_spec(jobs, m, policy)[k]).wf(),
{
    broadcast use vstd::seq_lib::group_to_multiset_ensures;

    lemma_fits_ok(jobs, m);
    lemma_sort_by_arrival(jobs);
    let sorted = sort_by_arrival_spec(jobs);
    lemma_run_wf(sorted, idle_cores(m), policy);
    let ps = placements(jobs, m, policy);
    let rs = results_of(ps);
    crate::order::lemma_sort_by_id(rs);
    let out = schedule_spec(jobs, m, policy);
    assert forall|k: int| 0 <= k < jobs.len() implies (#[trigger] out[k]).wf() by {
        assert(out.contains(out[k]));
        assert(out.to_multiset().count(out[k]) > 0);
        assert(rs.to_multiset().count(out[k]) > 0);
        assert(rs.contains(out[k]));
        let i = choose|i: int| 0 <= i < rs.len() && rs[i] == out[k];
        assert(rs[i] == ps[i].job);
        assert(ps[i].job.wf());
    }
}

// ---------------------------------------------------------------------
// Completeness: output job set equals input job set
// ---------------------------------------------------------------------

/// The engine dispatches exactly the pending jobs: none dropped, none
/// duplicated.
pub proof fn lemma_run_jobs(pending: Seq<Job>, cores: Seq<u64>, policy: Policy)
    requires
        cores.len() >= 1,
    ensures
        stripped(results_of(run(pending, cores, policy))).to_multiset() =~= pending.to_multiset(),
    decreases pending.len(),
{
    broadcast use vstd::seq_lib::group_to_multiset_ensures;

    if pending.len() == 0 {
        assert(run(pending, cores, policy) =~= Seq::<Placement>::empty());
        assert(stripped(results_of(Seq::<Placement>::empty())) =~= Seq::<Job>::empty());
        lemma_to_multiset_empty::<Job>();
        assert forall|y: Job| pending.to_multiset().count(y) == 0 by {
            assert(!pending.contains(y));
        }
    } else {
        lemma_step_pick_range(pending, cores, policy);
        lemma_earliest_core(cores);
        let k0 = step_pick(pending, cores, policy);
        let c = earliest_core(cores);
        let head = step_placement(pending, cores, policy);
        let pending2 = pending.remove(k0);
        let cores2 = cores.update(c, step_end(pending, cores, policy));
        lemma_run_jobs(pending2, cores2, policy);
        let rest = run(pending2, cores2, policy);
        let out = run(pending, cores, policy);
        assert(out == seq![head] + rest);
        assert(stripped(results_of(out)) =~= seq![job_of(head.job)] + stripped(results_of(rest)));
        assert(job_of(head.job) == pending[k0]);
        lemma_to_multiset_cons(pending[k0], stripped(results_of(rest)));
        assert(pending2.to_multiset() =~= pending.to_multiset().remove(pending[k0]));
        assert(pending.contains(pending[k0]));
        assert(pending.to_multiset().count(pending[k0]) > 0);
        assert forall|y: Job|
            stripped(results_of(out)).to_multiset().count(y) == pending.to_multiset().count(
                y,
            ) by {
            assert(stripped(results_of(out)).to_multiset() =~= pending2.to_multiset().insert(
                pending[k0],
            ));
        }
    }
}

/// The id-sort step keeps the job multiset of the results.
pub proof fn lemma_stripped_insert_by_id(s: Seq<JobResult>, x: JobResult)
    ensures
        stripped(insert_by_id(s, x)).to_multiset() =~= stripped(s).to_multiset().insert(job_of(x)),
    decreases s.len(),
{
    let r = insert_by_id(s, x);
    if s.len() == 0 {
        assert(stripped(r) =~= seq![job_of(x)] + Seq::<Job>::empty());
        lemma_to_multiset_cons(job_of(x), Seq::<Job>::empty());
        lemma_to_multiset_empty::<Job>();
        assert(stripped(s) =~= Seq::<Job>::empty());
    } else if x.id < s[0].id {
        assert(r == seq![x] + s);
        assert(stripped(r) =~= seq![job_of(x)] + stripped(s));
        lemma_to_multiset_cons(job_of(x), stripped(s));
    } else {
        lemma_stripped_insert_by_id(s.skip(1), x);
        let rest = insert_by_id(s.skip(1), x);
        assert(stripped(r) =~= seq![job_of(s[0])] + stripped(rest));
        lemma_to_multiset_cons(job_of(s[0]), stripped(rest));
        assert(stripped(s.skip(1)) =~= stripped(s).skip(1));
        assert(stripped(s) =~= seq![job_of(s[0])] + stripped(s).skip(1));
        lemma_to_multiset_cons(job_of(s[0]), stripped(s).skip(1));
        assert forall|y: Job|
            stripped(r).to_multiset().count(y) == stripped(s).to_multiset().insert(
                job_of(x),
            ).count(y) by {}
    }
}

pub proof fn lemma_stripped_sort_by_id(s: Seq<JobResult>)
    ensures
        stripped(sort_by_id_spec(s)).to_multiset() =~= stripped(s).to_multiset(),
    decreases s.len(),
{
    broadcast use vstd::seq_lib::group_to_multiset_ensures;

    if s.len() == 0 {
        assert(sort_by_id_spec(s) =~= s);
    } else {
        lemma_stripped_sort_by_id(s.drop_last());
        lemma_stripped_insert_by_id(sort_by_id_spec(s.drop_last()), s.last());
        assert(stripped(s.drop_last()) =~= stripped(s).drop_last());
        assert(stripped(s).drop_last().push(job_of(s.last())) =~= stripped(s));
        assert(stripped(s).drop_last().push(job_of(s.last())).to_multiset() =~= stripped(
            s,
        ).drop_last().to_multiset().insert(job_of(s.last())));
    }
}

/// Completeness for the whole pipeline: the output job set, with its
/// annotations removed, is exactly the input job set.
pub proof fn lemma_completeness(jobs: Seq<Job>, m: nat, policy: Policy)
    requires
        m >= 1,
        fits(jobs),
    ensures
        stripped(schedule_spec(jobs, m, policy)).to_multiset() =~= jobs.to_multiset(),
{
    lemma_sort_by_arrival(jobs);
    let sorted = sort_by_arrival_spec(jobs);
    lemma_run_jobs(sorted, idle_cores(m), policy);
    lemma_stripped_sort_by_id(results_of(placements(jobs, m, policy)));
}

// ---------------------------------------------------------------------
// No overlap on a core, and the capacity bound
// ---------------------------------------------------------------------

/// On each core, dispatches are sequential: the engine never hands a
/// core a job before the previous one on that core has ended.
pub proof fn lemma_run_cores(pending: Seq<Job>, cores: Seq<u64>, policy: Policy)
    requires
        cores.len() >= 1,
        ok_state(pending, cores),
    ensures
        run(pending, cores, policy).len() == pending.len(),
        forall|k: int|
            0 <= k < pending.len() ==> 0 <= (#[trigger] run(pending, cores, policy)[k]).core
                < cores.len(),
        forall|k: int|
            0 <= k < pending.len() ==> cores[(#[trigger] run(pending, cores, policy)[k]).core]
                <= run(pending, cores, policy)[k].job.start,
        forall|k: int, l: int|
            0 <= k < l < pending.len() && (#[trigger] run(pending, cores, policy)[k]).core == (
            #[trigger] run(pending, cores, policy)[l]).core ==> run(pending, cores, policy)[k].job.end
                <= run(pending, cores, policy)[l].job.start,
    decreases pending.len(),
{
    if pending.len() > 0 {
        lemma_step_ok(pending, cores, policy);
        lemma_earliest_core(cores);
        let k0 = step_pick(pending, cores, policy);
        let c = earliest_core(cores);
        let e = step_end(pending, cores, policy);
        let pending2 = pending.remove(k0);
        let cores2 = cores.update(c, e);
        lemma_run_cores(pending2, cores2, policy);
        let rest = run(pending2, cores2, policy);
        let out = run(pending, cores, policy);
        assert(out == seq![step_placement(pending, cores, policy)] + rest);
        assert(out[0].core == c);
        assert(out[0].job.start == step_time(pending, cores));
        assert(out[0].job.end == e);
        assert(cores[c] <= out[0].job.start);
        assert forall|k: int|
            0 <= k < pending.len() implies 0 <= (#[trigger] out[k]).core < cores.len() by {
            if k > 0 {
                assert(out[k] == rest[k - 1]);
            }
        }
        assert forall|k: int|
            0 <= k < pending.len() implies cores[(#[trigger] out[k]).core]
            <= out[k].job.start by {
            if k > 0 {
                assert(out[k] == rest[k - 1]);
                assert(cores2[rest[k - 1].core] <= rest[k - 1].job.start);
                if rest[k - 1].core == c {
                    assert(cores[c] <= step_time(pending, cores) <= e);
                } else {
                    assert(cores2[rest[k - 1].core] == cores[rest[k - 1].core]);
                }
            }
        }
        assert forall|k: int, l: int|
            0 <= k < l < pending.len() && (#[trigger] out[k]).core == (#[trigger] out[l]).core
            implies out[k].job.end <= out[l].job.start by {
            if k == 0 {
                assert(out[l] == rest[l - 1]);
                assert(cores2[c] == e);
                assert(cores2[rest[l - 1].core] <= rest[l - 1].job.start);
            } else {
                assert(out[k] == rest[k - 1]);
                assert(out[l] == rest[l - 1]);
            }
        }
    }
}

/// No overlap on a core: across all jobs assigned to the same core,
/// the half-open run intervals are pairwise disjoint, and every
/// assignment names a core of the pool.
pub proof fn lemma_no_core_overlap(jobs: Seq<Job>, m: nat, policy: Policy)
    requires
        m >= 1,
        fits(jobs),
    ensures
        placements(jobs, m, policy).len() == jobs.len(),
        forall|k: int|
            0 <= k < jobs.len() ==> 0 <= (#[trigger] placements(jobs, m, policy)[k]).core < m,
        forall|k: int, l: int|
            0 <= k < jobs.len() && 0 <= l < jobs.len() && k != l && (#[trigger] placements(
                jobs,
                m,
                policy,
            )[k]).core == (#[trigger] placements(jobs, m, policy)[l]).core ==> placements(
                jobs,
                m,
                policy,
            )[k].job.end <= placements(jobs, m, policy)[l].job.start || placements(
                jobs,
                m,
                policy,
            )[l].job.end <= placements(jobs, m, policy)[k].job.start,
{
    lemma_fits_ok(jobs, m);
    lemma_sort_by_arrival(jobs);
    lemma_run_cores(sort_by_arrival_spec(jobs), idle_cores(m), policy);
}

/// Jobs running at instant `t`: started no later than `t`, not yet
/// ended.
pub open spec fn running_at(r: JobResult, t: u64) -> bool {
    r.start <= t < r.end
}

/// Number of results in `s` running at instant `t`.
pub open spec fn active_count(s: Seq<JobResult>, t: u64) -> int
    decreases s.len(),
{
    if s.len() == 0 {
        0
    } else {
        (if running_at(s[0], t) {
            1int
        } else {
            0int
        }) + active_count(s.skip(1), t)
    }
}

/// Number of cores free (free-at time `<= t`) at instant `t`.
pub open spec fn free_count(cores: Seq<u64>, t: u64) -> int
    decreases cores.len(),
{
    if cores.len() == 0 {
        0
    } else {
        (if cores[0] <= t {
            1int
        } else {
            0int
        }) + free_count(cores.skip(1), t)
    }
}

pub proof fn lemma_free_count_idle(m: nat, t: u64)
    ensures
        free_count(idle_cores(m), t) == m,
    decreases m,
{
    if m > 0 {
        lemma_free_count_idle((m - 1) as nat, t);
        assert(idle_cores(m).skip(1) =~= idle_cores((m - 1) as nat));
        assert(idle_cores(m)[0] == 0u64);
    }
}

/// Raising one core's free time never frees a core, and busies exactly
/// that core when it crosses `t`.
pub proof fn lemma_free_count_update(cores: Seq<u64>, c: int, v: u64, t: u64)
    requires
        0 <= c < cores.len(),
        cores[c] <= v,
    ensures
        free_count(cores.update(c, v), t) <= free_count(cores, t),
        cores[c] <= t && v > t ==> free_count(cores.update(c, v), t) == free_count(cores, t) - 1,
    decreases cores.len(),
{
    let u = cores.update(c, v);
    if c == 0 {
        assert(u.skip(1) =~= cores.skip(1));
    } else {
        assert(u.skip(1) =~= cores.skip(1).update(c - 1, v));
        lemma_free_count_update(cores.skip(1), c - 1, v, t);
        assert(u[0] == cores[0]);
    }
}

/// The engine never runs more jobs at once than it has free cores: at
/// any instant, the number of emitted jobs running is at most the
/// number of cores already free at that instant.
pub proof fn lemma_run_capacity(pending: Seq<Job>, cores: Seq<u64>, policy: Policy, t: u64)
    requires
        cores.len() >= 1,
        ok_state(pending, cores),
    ensures
        active_count(results_of(run(pending, cores, policy)), t) <= free_count(cores, t),
    decreases pending.len(),
{
    if pending.len() == 0 {
        assert(run(pending, cores, policy) =~= Seq::<Placement>::empty());
        assert(results_of(Seq::<Placement>::empty()) =~= Seq::<JobResult>::empty());
        lemma_free_count_nonneg(cores, t);
    } else {
        lemma_step_ok(pending, cores, policy);
        lemma_earliest_core(cores);
        let k0 = step_pick(pending, cores, policy);
        let c = earliest_core(cores);
        let e = step_end(pending, cores, policy);
        let head = step_placement(pending, cores, policy);
        let pending2 = pending.remove(k0);
        let cores2 = cores.update(c, e);
        lemma_run_capacity(pending2, cores2, policy, t);
        lemma_free_count_update(cores, c, e, t);
        let out = run(pending, cores, policy);
        assert(out == seq![head] + run(pending2, cores2, policy));
        assert(results_of(out) =~= seq![head.job] + results_of(run(pending2, cores2, policy)));
        assert((seq![head.job] + results_of(run(pending2, cores2, policy))).skip(1) =~= results_of(
            run(pending2, cores2, policy),
        ));
        if running_at(head.job, t) {
            assert(cores[c] <= head.job.start <= t);
            assert(e == head.job.end > t);
        }
    }
}

pub proof fn lemma_free_count_nonneg(cores: Seq<u64>, t: u64)
    ensures
        free_count(cores, t) >= 0,
    decreases cores.len(),
{
    if cores.len() > 0 {
        lemma_free_count_nonneg(cores.skip(1), t);
    }
}

/// Sorting by id does not change how many jobs run at an instant.
pub proof fn lemma_active_insert_by_id(s: Seq<JobResult>, x: JobResult, t: u64)
    ensures
        active_count(insert_by_id(s, x), t) == active_count(s, t) + (if running_at(x, t) {
            1int
        } else {
            0int
        }),
    decreases s.len(),
{
    let r = insert_by_id(s, x);
    if s.len() == 0 {
        assert(r.skip(1) =~= Seq::<JobResult>::empty());
        assert(r[0] == x);
        assert(active_count(r.skip(1), t) == 0);
    } else if x.id < s[0].id {
        assert(r == seq![x] + s);
        assert(r.skip(1) =~= s);
        assert(r[0] == x);
        assert(active_count(r.skip(1), t) == active_count(s, t));
    } else {
        lemma_active_insert_by_id(s.skip(1), x, t);
        let rest = insert_by_id(s.skip(1), x);
        assert(r.skip(1) =~= rest);
        assert(r[0] == s[0]);
        assert(active_count(r.skip(1), t) == active_count(rest, t));
        assert(active_count(s, t) == (if running_at(s[0], t) { 1int } else { 0int })
            + active_count(s.skip(1), t));
    }
}

pub proof fn lemma_active_sort_by_id(s: Seq<JobResult>, t: u64)
    ensures
        active_count(sort_by_id_spec(s), t) == active_count(s, t),
    decreases s.len(),
{
    if s.len() > 0 {
        lemma_active_sort_by_id(s.drop_last(), t);
        lemma_active_insert_by_id(sort_by_id_spec(s.drop_last()), s.last(), t);
        lemma_active_drop_last(s, t);
    }
}

pub proof fn lemma_active_drop_last(s: Seq<JobResult>, t: u64)
    requires
        s.len() >= 1,
    ensures
        active_count(s, t) == active_count(s.drop_last(), t) + (if running_at(s.last(), t) {
            1int
        } else {
            0int
        }),
    decreases s.len(),
{
    if s.len() == 1 {
        assert(s.drop_last() =~= Seq::<JobResult>::empty());
        assert(s.skip(1) =~= Seq::<JobResult>::empty());
    } else {
        lemma_active_drop_last(s.skip(1), t);
        assert(s.skip(1).drop_last() =~= s.drop_last().skip(1));
        assert(s.skip(1).last() == s.last());
        assert(s.drop_last()[0] == s[0]);
    }
}

/// Capacity bound: at any instant, at most `m` of the scheduled jobs
/// are running.
pub proof fn lemma_capacity_bound(jobs: Seq<Job>, m: nat, policy: Policy, t: u64)
    requires
        m >= 1,
        fits(jobs),
    ensures
        active_count(schedule_spec(jobs, m, policy), t) <= m,
{
    lemma_fits_ok(jobs, m);
    lemma_run_capacity(sort_by_arrival_spec(jobs), idle_cores(m), policy, t);
    lemma_free_count_idle(m, t);
    lemma_active_sort_by_id(results_of(placements(jobs, m, policy)), t);
}

// ---------------------------------------------------------------------
// The dispatch decision: optimality and stable tie-breaking
// ---------------------------------------------------------------------

/// Strict priority is transitive among jobs that have arrived by `t`.
pub proof fn lemma_priority_trans(policy: Policy, a: Job, b: Job, c: Job, t: u64)
    requires
        a.arrival <= t,
        b.arrival <= t,
        c.arrival <= t,
        takes_priority(policy, a, b, t),
        takes_priority(policy, b, c, t),
    ensures
        takes_priority(policy, a, c, t),
{
    if policy is Hrrn {
        let wa = t - a.arrival + a.service;
        let wb = t - b.arrival + b.service;
        let wc = t - c.arrival + c.service;
        let sa = a.service as int;
        let sb = b.service as int;
        let sc = c.service as int;
        assert(wa >= 0 && wb >= 0 && wc >= 0 && sa >= 0 && sb >= 0 && sc >= 0);
        assert(sb >= 1) by (nonlinear_arith)
            requires
                wa * sb > wb * sa,
                wb >= 0,
                sa >= 0,
                sb >= 0,
        ;
        assert(wb >= 1) by (nonlinear_arith)
            requires
                wb * sc > wc * sb,
                wc >= 0,
                sb >= 0,
                wb >= 0,
        ;
        assert(wa * sc > wc * sa) by (nonlinear_arith)
            requires
                wa * sb > wb * sa,
                wb * sc > wc * sb,
                wa >= 0,
                wc >= 0,
                sa >= 0,
                sc >= 0,
                sb >= 1,
                wb >= 1,
        ;
    }
}

/// With positive services, a job that beats `b` also beats anything
/// that fails to beat `b`.
pub proof fn lemma_priority_total(policy: Policy, a: Job, b: Job, c: Job, t: u64)
    requires
        a.arrival <= t,
        b.arrival <= t,
        c.arrival <= t,
        a.service >= 1,
        b.service >= 1,
        c.service >= 1,
        takes_priority(policy, a, b, t),
        !takes_priority(policy, c, b, t),
    ensures
        takes_priority(policy, a, c, t),
{
    if policy is Hrrn {
        let wa = t - a.arrival + a.service;
        let wb = t - b.arrival + b.service;
        let wc = t - c.arrival + c.service;
        let sa = a.service as int;
        let sb = b.service as int;
        let sc = c.service as int;
        assert(wa >= 0 && wb >= 0 && wc >= 0);
        assert(wa * sc > wc * sa) by (nonlinear_arith)
            requires
                wa * sb > wb * sa,
                wc * sb <= wb * sc,
                wa >= 0,
                wb >= 0,
                wc >= 0,
                sa >= 1,
                sb >= 1,
                sc >= 1,
        ;
    }
}

/// The engine's choice is optimal: no ready job strictly beats the
/// selected job at the dispatch instant.
pub proof fn lemma_selected_optimal(ready: Seq<Job>, policy: Policy, t: u64)
    requires
        ready.len() >= 1,
        forall|i: int| 0 <= i < ready.len() ==> #[trigger] ready[i].arrival <= t,
    ensures
        0 <= selected(ready, policy, t) < ready.len(),
        forall|i: int|
            0 <= i < ready.len() ==> !takes_priority(
                policy,
                #[trigger] ready[i],
                ready[selected(ready, policy, t)],
                t,
            ),
    decreases ready.len(),
{
    crate::engine::lemma_selected_range(ready, policy, t);
    if ready.len() > 1 {
        let prev = ready.drop_last();
        assert(forall|i: int| 0 <= i < prev.len() ==> #[trigger] prev[i] == ready[i]);
        lemma_selected_optimal(prev, policy, t);
        let r = selected(prev, policy, t);
        let s = selected(ready, policy, t);
        let last = ready.last();
        assert(last == ready[ready.len() - 1]);
        if takes_priority(policy, last, ready[r], t) {
            assert(s == ready.len() - 1);
            assert forall|i: int|
                0 <= i < ready.len() implies !takes_priority(
                policy,
                #[trigger] ready[i],
                ready[s],
                t,
            ) by {
                if i < ready.len() - 1 {
                    assert(prev[i] == ready[i]);
                    assert(prev[r] == ready[r]);
                    assert(!takes_priority(policy, prev[i], prev[r], t));
                    if takes_priority(policy, ready[i], last, t) {
                        lemma_priority_trans(policy, ready[i], last, ready[r], t);
                        assert(false);
                    }
                }
            }
        } else {
            assert(s == r);
            assert forall|i: int|
                0 <= i < ready.len() implies !takes_priority(
                policy,
                #[trigger] ready[i],
                ready[s],
                t,
            ) by {
                assert(prev[r] == ready[r]);
                if i < ready.len() - 1 {
                    assert(prev[i] == ready[i]);
                    assert(!takes_priority(policy, prev[i], prev[r], t));
                }
            }
        }
    }
}

/// Stable tie-breaking: the selected job strictly beats every ready
/// job admitted before it, so among jobs tied at the top the earliest
/// admitted wins.  (Stated for positive service times, where the
/// priority relation totally orders the ready set.)
pub proof fn lemma_selected_earliest(ready: Seq<Job>, policy: Policy, t: u64)
    requires
        ready.len() >= 1,
        forall|i: int| 0 <= i < ready.len() ==> #[trigger] ready[i].arrival <= t,
        forall|i: int| 0 <= i < ready.len() ==> #[trigger] ready[i].service >= 1,
    ensures
        0 <= selected(ready, policy, t) < ready.len(),
        forall|i: int|
            0 <= i < selected(ready, policy, t) ==> takes_priority(
                policy,
                ready[selected(ready, policy, t)],
                #[trigger] ready[i],
                t,
            ),
    decreases ready.len(),
{
    crate::engine::lemma_selected_range(ready, policy, t);
    if ready.len() > 1 {
        let prev = ready.drop_last();
        assert(forall|i: int| 0 <= i < prev.len() ==> #[trigger] prev[i] == ready[i]);
        lemma_selected_earliest(prev, policy, t);
        lemma_selected_optimal(prev, policy, t);
        let r = selected(prev, policy, t);
        let s = selected(ready, policy, t);
        let last = ready.last();
        assert(last == ready[ready.len() - 1]);
        if takes_priority(policy, last, ready[r], t) {
            assert(s == ready.len() - 1);
            assert forall|i: int|
                0 <= i < s implies takes_priority(policy, ready[s], #[trigger] ready[i], t) by {
                assert(prev[i] == ready[i]);
                assert(prev[r] == ready[r]);
                if i < r {
                    assert(takes_priority(policy, prev[r], prev[i], t));
                    lemma_priority_trans(policy, last, ready[r], ready[i], t);
                } else if i > r {
                    assert(!takes_priority(policy, prev[i], prev[r], t));
                    lemma_priority_total(policy, last, ready[r], ready[i], t);
                }
            }
        } else {
            assert(s == r);
            assert forall|i: int|
                0 <= i < s implies takes_priority(policy, ready[s], #[trigger] ready[i], t) by {
                assert(prev[i] == ready[i]);
                assert(prev[r] == ready[r]);
                assert(takes_priority(policy, prev[r], prev[i], t));
            }
        }
    }
}

/// At each dispatch decision, the job the engine removes from the
/// ready set is one that no other ready job strictly beats at the
/// current clock.
pub proof fn lemma_step_choice(pending: Seq<Job>, cores: Seq<u64>, policy: Policy)
    requires
        pending.len() >= 1,
        cores.len() >= 1,
    ensures
        forall|i: int|
            0 <= i < ready_count(pending, step_time(pending, cores)) ==> !takes_priority(
                policy,
                #[trigger] pending[i],
                pending[step_pick(pending, cores, policy)],
                step_time(pending, cores),
            ),
{
    lemma_step_pick_range(pending, cores, policy);
    let t = step_time(pending, cores);
    crate::engine::lemma_ready_count(pending, t);
    let rc = ready_count(pending, t);
    let ready = pending.take(rc);
    assert forall|i: int| 0 <= i < rc implies #[trigger] ready[i].arrival <= t by {
        assert(ready[i] == pending[i]);
    }
    lemma_selected_optimal(ready, policy, t);
    let k0 = step_pick(pending, cores, policy);
    assert(ready[k0] == pending[k0]);
    assert forall|i: int|
        0 <= i < rc implies !takes_priority(
        policy,
        #[trigger] pending[i],
        pending[k0],
        t,
    ) by {
        assert(ready[i] == pending[i]);
        assert(!takes_priority(policy, ready[i], ready[k0], t));
    }
}

} // verus!
