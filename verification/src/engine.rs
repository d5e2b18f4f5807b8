use vstd::prelude::*;
use vstd::pervasive::VecAdditionalExecFns;
use crate::cores::{earliest_core, earliest_free, idle_cores, lemma_earliest_core};
use crate::job::{stripped, Job, JobResult};
use crate::order::{
    sort_by_arrival, sort_by_arrival_spec, sort_by_id, sort_by_id_spec, sorted_by_id,
    lemma_sort_by_arrival, lemma_sort_by_id,
};

verus! {

/// The dispatch policies the engine understands.
#[derive(Clone, Copy, PartialEq, Eq, Structural, Debug)]
pub enum Policy {
    /// First-come-first-served: dispatch strictly in arrival order.
    Fcfs,
    /// Shortest-job-first: among ready jobs, least service time.
    Sjf,
    /// Highest-response-ratio-next: among ready jobs, greatest
    /// response ratio (wait + service) / service, recomputed fresh at
    /// each dispatch decision.
    Hrrn,
}

// ---------------------------------------------------------------------
// Service-time accounting, used to bound every time the engine computes
// ---------------------------------------------------------------------

/// Sum of the service times of a sequence of jobs.
pub open spec fn total_service(s: Seq<Job>) -> int
    decreases s.len(),
{
    if s.len() == 0 {
        0
    } else {
        s[0].service + total_service(s.skip(1))
    }
}

/// The inputs a dispatcher accepts: any single arrival plus the sum of
/// all service times fits in a u64, so every start and end time the
/// engine computes does too.
pub open spec fn fits(jobs: Seq<Job>) -> bool {
    forall|k: int|
        0 <= k < jobs.len() ==> #[trigger] jobs[k].arrival + total_service(jobs) <= u64::MAX
}

/// Engine state whose times cannot overflow: every core free time and
/// every pending arrival, plus the service still to be dispatched,
/// stays within u64.
pub open spec fn ok_state(pending: Seq<Job>, cores: Seq<u64>) -> bool {
    &&& forall|i: int|
        0 <= i < cores.len() ==> #[trigger] cores[i] + total_service(pending) <= u64::MAX
    &&& forall|k: int|
        0 <= k < pending.len() ==> #[trigger] pending[k].arrival + total_service(pending)
            <= u64::MAX
}

pub proof fn lemma_total_service_nonneg(s: Seq<Job>)
    ensures
        total_service(s) >= 0,
    decreases s.len(),
{
    if s.len() > 0 {
        lemma_total_service_nonneg(s.skip(1));
    }
}

pub proof fn lemma_total_service_concat(a: Seq<Job>, b: Seq<Job>)
    ensures
        total_service(a + b) == total_service(a) + total_service(b),
    decreases a.len(),
{
    if a.len() == 0 {
        assert(a + b =~= b);
    } else {
        assert((a + b).skip(1) =~= a.skip(1) + b);
        assert((a + b)[0] == a[0]);
        lemma_total_service_concat(a.skip(1), b);
    }
}

pub proof fn lemma_total_service_singleton(x: Job)
    ensures
        total_service(seq![x]) == x.service,
{
    assert(seq![x].skip(1) =~= Seq::<Job>::empty());
    assert(total_service(Seq::<Job>::empty()) == 0);
    assert(total_service(seq![x].skip(1)) == 0);
}

pub proof fn lemma_total_service_remove(s: Seq<Job>, k: int)
    requires
        0 <= k < s.len(),
    ensures
        total_service(s.remove(k)) == total_service(s) - s[k].service,
{
    let front = s.subrange(0, k);
    let back = s.subrange(k + 1, s.len() as int);
    assert(s =~= front + (seq![s[k]] + back));
    lemma_total_service_concat(front, seq![s[k]] + back);
    lemma_total_service_concat(seq![s[k]], back);
    lemma_total_service_singleton(s[k]);
    assert(s.remove(k) =~= front + back);
    lemma_total_service_concat(front, back);
}

pub proof fn lemma_service_le_total(s: Seq<Job>, k: int)
    requires
        0 <= k < s.len(),
    ensures
        s[k].service <= total_service(s),
{
    lemma_total_service_remove(s, k);
    lemma_total_service_nonneg(s.remove(k));
}

// ---------------------------------------------------------------------
// One dispatch decision
// ---------------------------------------------------------------------

/// Whether, under the given policy, job `a` strictly beats job `b` at
/// dispatch time `t`.  For HRRN the response ratios
/// (t - arrival + service) / service are compared by cross
/// multiplication, which needs no division and is exact.
pub open spec fn takes_priority(policy: Policy, a: Job, b: Job, t: u64) -> bool {
    match policy {
        Policy::Fcfs => false,
        Policy::Sjf => a.service < b.service,
        Policy::Hrrn => (t - a.arrival + a.service) * b.service > (t - b.arrival + b.service)
            * a.service,
    }
}

/// Index of the job the policy picks among the ready jobs: the
/// earliest-admitted job that no other ready job strictly beats.
pub open spec fn selected(ready: Seq<Job>, policy: Policy, t: u64) -> int
    decreases ready.len(),
{
    if ready.len() <= 1 {
        0
    } else {
        let r = selected(ready.drop_last(), policy, t);
        if takes_priority(policy, ready.last(), ready[r], t) {
            ready.len() - 1
        } else {
            r
        }
    }
}

pub proof fn lemma_selected_range(ready: Seq<Job>, policy: Policy, t: u64)
    requires
        ready.len() >= 1,
    ensures
        0 <= selected(ready, policy, t) < ready.len(),
    decreases ready.len(),
{
    if ready.len() > 1 {
        lemma_selected_range(ready.drop_last(), policy, t);
    }
}

/// Number of jobs at the front of the arrival-sorted pending sequence
/// that have arrived by time `t`: the ready set.
pub open spec fn ready_count(pending: Seq<Job>, t: u64) -> int
    decreases pending.len(),
{
    if pending.len() == 0 || pending[0].arrival > t {
        0
    } else {
        1 + ready_count(pending.skip(1), t)
    }
}

pub proof fn lemma_ready_count(pending: Seq<Job>, t: u64)
    ensures
        0 <= ready_count(pending, t) <= pending.len(),
        forall|i: int| 0 <= i < ready_count(pending, t) ==> #[trigger] pending[i].arrival <= t,
        ready_count(pending, t) < pending.len() ==> pending[ready_count(pending, t)].arrival > t,
    decreases pending.len(),
{
    if pending.len() > 0 && pending[0].arrival <= t {
        lemma_ready_count(pending.skip(1), t);
        assert forall|i: int|
            0 <= i < ready_count(pending, t) implies #[trigger] pending[i].arrival <= t by {
            if i > 0 {
                assert(pending.skip(1)[i - 1] == pending[i]);
                assert(pending.skip(1)[i - 1].arrival <= t);
            }
        }
        if ready_count(pending, t) < pending.len() {
            assert(pending.skip(1)[ready_count(pending, t) - 1] == pending[ready_count(pending, t)]);
        }
    }
}

/// The moment the earliest-free core can next start work: the later of
/// that core's free time and the earliest pending arrival.
pub open spec fn step_time(pending: Seq<Job>, cores: Seq<u64>) -> u64 {
    let c = earliest_core(cores);
    if cores[c] >= pending[0].arrival {
        cores[c]
    } else {
        pending[0].arrival
    }
}

/// Index into `pending` of the job dispatched next.
pub open spec fn step_pick(pending: Seq<Job>, cores: Seq<u64>, policy: Policy) -> int {
    let t = step_time(pending, cores);
    selected(pending.take(ready_count(pending, t)), policy, t)
}

/// Completion time of the job dispatched next.
pub open spec fn step_end(pending: Seq<Job>, cores: Seq<u64>, policy: Policy) -> u64 {
    (step_time(pending, cores) + pending[step_pick(pending, cores, policy)].service) as u64
}

/// One dispatch decision: the annotated job and the core it went to.
pub struct Placement {
    pub job: JobResult,
    pub core: int,
}

/// The decision the engine takes in the next step.
pub open spec fn step_placement(pending: Seq<Job>, cores: Seq<u64>, policy: Policy) -> Placement {
    let t = step_time(pending, cores);
    let job = pending[step_pick(pending, cores, policy)];
    Placement {
        job: JobResult {
            id: job.id,
            arrival: job.arrival,
            service: job.service,
            start: t,
            end: step_end(pending, cores, policy),
        },
        core: earliest_core(cores),
    }
}

pub proof fn lemma_step_pick_range(pending: Seq<Job>, cores: Seq<u64>, policy: Policy)
    requires
        pending.len() >= 1,
        cores.len() >= 1,
    ensures
        1 <= ready_count(pending, step_time(pending, cores)) <= pending.len(),
        0 <= step_pick(pending, cores, policy) < ready_count(pending, step_time(pending, cores)),
        pending[step_pick(pending, cores, policy)].arrival <= step_time(pending, cores),
{
    let t = step_time(pending, cores);
    assert(pending[0].arrival <= t);
    lemma_ready_count(pending, t);
    let rc = ready_count(pending, t);
    assert(rc >= 1);
    let ready = pending.take(rc);
    lemma_selected_range(ready, policy, t);
    let k = selected(ready, policy, t);
    assert(ready[k] == pending[k]);
}

// ---------------------------------------------------------------------
// The engine itself
// ---------------------------------------------------------------------

/// The event-driven dispatch engine, one decision at a time.
///
/// `pending` holds the not-yet-dispatched jobs in stable arrival order
/// and `cores` the next-free time of each processing unit.  Each step
/// takes the earliest-free core (ties to the lowest index), advances
/// the virtual clock to the later of that core's free time and the
/// earliest pending arrival, and hands the core the ready job the
/// policy picks; the job then runs from the clock for exactly its
/// service time.  The result is a total function of the inputs, so two
/// runs on the same input are identical.
pub open spec fn run(pending: Seq<Job>, cores: Seq<u64>, policy: Policy) -> Seq<Placement>
    decreases pending.len(),
    via run_decreases
{
    if pending.len() == 0 || cores.len() == 0 {
        Seq::empty()
    } else {
        seq![step_placement(pending, cores, policy)] + run(
            pending.remove(step_pick(pending, cores, policy)),
            cores.update(earliest_core(cores), step_end(pending, cores, policy)),
            policy,
        )
    }
}

#[via_fn]
proof fn run_decreases(pending: Seq<Job>, cores: Seq<u64>, policy: Policy) {
    if pending.len() > 0 && cores.len() > 0 {
        lemma_step_pick_range(pending, cores, policy);
    }
}

/// The annotated jobs of a sequence of placements, without the cores.
pub open spec fn results_of(ps: Seq<Placement>) -> Seq<JobResult> {
    ps.map_values(|p: Placement| p.job)
}

/// Every dispatch decision a policy takes on the given input.
pub open spec fn placements(jobs: Seq<Job>, m: nat, policy: Policy) -> Seq<Placement> {
    run(sort_by_arrival_spec(jobs), idle_cores(m), policy)
}

/// The full dispatcher pipeline: stable-sort the jobs by arrival, run
/// the engine on `m` initially idle cores, and return the annotated
/// jobs in ascending id order.
pub open spec fn schedule_spec(jobs: Seq<Job>, m: nat, policy: Policy) -> Seq<JobResult> {
    sort_by_id_spec(results_of(placements(jobs, m, policy)))
}

pub proof fn lemma_run_len(pending: Seq<Job>, cores: Seq<u64>, policy: Policy)
    requires
        cores.len() >= 1,
    ensures
        run(pending, cores, policy).len() == pending.len(),
    decreases pending.len(),
{
    if pending.len() > 0 {
        lemma_step_pick_range(pending, cores, policy);
        lemma_earliest_core(cores);
        lemma_run_len(
            pending.remove(step_pick(pending, cores, policy)),
            cores.update(earliest_core(cores), step_end(pending, cores, policy)),
            policy,
        );
    }
}

/// One engine step leaves the state within bounds: the dispatched job
/// was ready, its end time does not overflow, and the new state is
/// again in bounds.
pub proof fn lemma_step_ok(pending: Seq<Job>, cores: Seq<u64>, policy: Policy)
    requires
        pending.len() >= 1,
        cores.len() >= 1,
        ok_state(pending, cores),
    ensures
        0 <= earliest_core(cores) < cores.len(),
        0 <= step_pick(pending, cores, policy) < pending.len(),
        pending[step_pick(pending, cores, policy)].arrival <= step_time(pending, cores),
        cores[earliest_core(cores)] <= step_time(pending, cores),
        forall|k: int|
            0 <= k < pending.len() ==> step_time(pending, cores) + #[trigger] pending[k].service
                <= u64::MAX,
        step_end(pending, cores, policy) == step_time(pending, cores) + pending[step_pick(
            pending,
            cores,
            policy,
        )].service,
        ok_state(
            pending.remove(step_pick(pending, cores, policy)),
            cores.update(earliest_core(cores), step_end(pending, cores, policy)),
        ),
{
    lemma_earliest_core(cores);
    lemma_step_pick_range(pending, cores, policy);
    let c = earliest_core(cores);
    let t = step_time(pending, cores);
    let k = step_pick(pending, cores, policy);
    assert(cores[c] + total_service(pending) <= u64::MAX);
    assert(pending[0].arrival + total_service(pending) <= u64::MAX);
    assert forall|k2: int|
        0 <= k2 < pending.len() implies t + #[trigger] pending[k2].service <= u64::MAX by {
        lemma_service_le_total(pending, k2);
    }
    let pending2 = pending.remove(k);
    let cores2 = cores.update(c, step_end(pending, cores, policy));
    lemma_total_service_remove(pending, k);
    assert forall|i: int|
        0 <= i < cores2.len() implies #[trigger] cores2[i] + total_service(pending2)
        <= u64::MAX by {
        if i != c {
            assert(cores2[i] == cores[i]);
        }
    }
    assert forall|j: int|
        0 <= j < pending2.len() implies #[trigger] pending2[j].arrival + total_service(pending2)
        <= u64::MAX by {
        if j < k {
            assert(pending2[j] == pending[j]);
        } else {
            assert(pending2[j] == pending[j + 1]);
        }
    }
}

/// The jobs accepted by `fits` put the sorted pipeline state in bounds.
pub proof fn lemma_fits_ok(jobs: Seq<Job>, m: nat)
    requires
        fits(jobs),
    ensures
        ok_state(sort_by_arrival_spec(jobs), idle_cores(m)),
        total_service(sort_by_arrival_spec(jobs)) == total_service(jobs),
{
    broadcast use vstd::seq_lib::group_to_multiset_ensures;

    lemma_sort_by_arrival(jobs);
    let sorted = sort_by_arrival_spec(jobs);
    lemma_total_service_sort(jobs);
    if jobs.len() == 0 {
        assert(total_service(jobs) == 0);
    } else {
        lemma_total_service_nonneg(jobs);
        assert(jobs[0].arrival + total_service(jobs) <= u64::MAX);
    }
    assert forall|k: int|
        0 <= k < sorted.len() implies #[trigger] sorted[k].arrival + total_service(sorted)
        <= u64::MAX by {
        assert(sorted.contains(sorted[k]));
        assert(sorted.to_multiset().count(sorted[k]) > 0);
        assert(jobs.to_multiset().count(sorted[k]) > 0);
        assert(jobs.contains(sorted[k]));
        let i = choose|i: int| 0 <= i < jobs.len() && jobs[i] == sorted[k];
        assert(jobs[i].arrival + total_service(jobs) <= u64::MAX);
    }
}

pub proof fn lemma_total_service_insert(s: Seq<Job>, x: Job)
    ensures
        total_service(crate::order::insert_by_arrival(s, x)) == total_service(s) + x.service,
    decreases s.len(),
{
    let r = crate::order::insert_by_arrival(s, x);
    if s.len() == 0 {
        assert(r =~= seq![x]);
        lemma_total_service_singleton(x);
    } else if x.arrival < s[0].arrival {
        assert(r == seq![x] + s);
        lemma_total_service_concat(seq![x], s);
        lemma_total_service_singleton(x);
    } else {
        lemma_total_service_insert(s.skip(1), x);
        lemma_total_service_concat(seq![s[0]], crate::order::insert_by_arrival(s.skip(1), x));
        lemma_total_service_singleton(s[0]);
        assert(s =~= seq![s[0]] + s.skip(1));
        lemma_total_service_concat(seq![s[0]], s.skip(1));
        assert(total_service(s) == s[0].service + total_service(s.skip(1)));
    }
}

pub proof fn lemma_total_service_sort(s: Seq<Job>)
    ensures
        total_service(sort_by_arrival_spec(s)) == total_service(s),
    decreases s.len(),
{
    if s.len() > 0 {
        lemma_total_service_sort(s.drop_last());
        lemma_total_service_insert(sort_by_arrival_spec(s.drop_last()), s.last());
        assert(s =~= s.drop_last() + seq![s.last()]);
        lemma_total_service_concat(s.drop_last(), seq![s.last()]);
        lemma_total_service_singleton(s.last());
    }
}

// ---------------------------------------------------------------------
// Executable engine
// ---------------------------------------------------------------------

/// Decide at run time whether a job list meets the dispatchers' input
/// bound: any single arrival plus the sum of all service times fits in
/// a u64.
#[verifier::loop_isolation(false)]
pub fn fits_check(jobs: &Vec<Job>) -> (b: bool)
    ensures
        b == fits(jobs@),
{
    if jobs.len() == 0 {
        return true;
    }
    let mut total: u128 = 0;
    let mut mx: u64 = 0;
    let ghost mut wx: int = 0;
    let mut i: usize = 0;
    proof {
        assert(jobs@.skip(0) =~= jobs@);
    }
    while i < jobs.len()
        invariant
            i <= jobs@.len(),
            total as int + total_service(jobs@.skip(i as int)) == total_service(jobs@),
            total as int <= i * 0xffff_ffff_ffff_ffff,
            forall|k: int| 0 <= k < i ==> #[trigger] jobs@[k].arrival <= mx,
            i > 0 ==> 0 <= wx < i && jobs@[wx].arrival == mx,
            i == 0 ==> mx == 0,
        decreases jobs@.len() - i,
    {
        proof {
            assert(jobs@.skip(i as int).skip(1) =~= jobs@.skip(i as int + 1));
            assert(jobs@.skip(i as int)[0] == jobs@[i as int]);
            assert((i + 1) * 0xffff_ffff_ffff_ffff == i * 0xffff_ffff_ffff_ffff
                + 0xffff_ffff_ffff_ffff) by (nonlinear_arith);
            assert((i + 1) * 0xffff_ffff_ffff_ffff <= 0xffff_ffff_ffff_ffff
                * 0xffff_ffff_ffff_ffff) by (nonlinear_arith)
                requires
                    0 <= i + 1 <= 0xffff_ffff_ffff_ffffu128,
            ;
        }
        let j = jobs[i];
        total = total + j.service as u128;
        if i == 0 || j.arrival > mx {
            mx = j.arrival;
            proof {
                wx = i as int;
            }
        }
        i = i + 1;
    }
    proof {
        assert(jobs@.skip(jobs@.len() as int) =~= Seq::<Job>::empty());
    }
    let ok = (mx as u128) + total <= (u64::MAX as u128);
    proof {
        if ok {
            assert forall|k: int|
                0 <= k < jobs@.len() implies #[trigger] jobs@[k].arrival + total_service(jobs@)
                <= u64::MAX by {
                assert(jobs@[k].arrival <= mx);
            }
        } else {
            assert(jobs@[wx].arrival + total_service(jobs@) > u64::MAX);
        }
    }
    ok
}

/// Does `a` strictly beat `b` at dispatch time `t` under `policy`?
/// HRRN response ratios are compared exactly, by cross multiplication
/// in 128-bit arithmetic.
fn beats(policy: Policy, a: &Job, b: &Job, t: u64) -> (r: bool)
    requires
        a.arrival <= t,
        b.arrival <= t,
        t + a.service <= u64::MAX,
        t + b.service <= u64::MAX,
    ensures
        r == takes_priority(policy, *a, *b, t),
{
    match policy {
        Policy::Fcfs => false,
        Policy::Sjf => a.service < b.service,
        Policy::Hrrn => {
            let wa = t - a.arrival + a.service;
            let wb = t - b.arrival + b.service;
            proof {
                assert((wa as u128) * (b.service as u128) < u128::MAX) by (nonlinear_arith)
                    requires
                        wa <= u64::MAX,
                        b.service <= u64::MAX,
                ;
                assert((wb as u128) * (a.service as u128) < u128::MAX) by (nonlinear_arith)
                    requires
                        wb <= u64::MAX,
                        a.service <= u64::MAX,
                ;
            }
            (wa as u128) * (b.service as u128) > (wb as u128) * (a.service as u128)
        },
    }
}

/// Run the engine to completion over arrival-sorted jobs.
#[verifier::loop_isolation(false)]
fn run_engine(sorted: Vec<Job>, m: usize, policy: Policy) -> (out: Vec<JobResult>)
    requires
        m >= 1,
        ok_state(sorted@, idle_cores(m as nat)),
    ensures
        out@ == results_of(run(sorted@, idle_cores(m as nat), policy)),
{
    let mut pending = sorted;
    let mut cores: Vec<u64> = vec![0u64; m];
    let mut out: Vec<JobResult> = Vec::new();
    proof {
        assert(cores@ =~= idle_cores(m as nat));
    }
    let ghost start_state = run(pending@, cores@, policy);
    let ghost mut done: Seq<Placement> = Seq::empty();
    while pending.len() > 0
        invariant
            cores@.len() == m,
            ok_state(pending@, cores@),
            start_state == done + run(pending@, cores@, policy),
            out@ == results_of(done),
        decreases pending@.len(),
    {
        let ghost p0 = pending@;
        let ghost cs0 = cores@;
        proof {
            lemma_step_ok(p0, cs0, policy);
        }
        let c = earliest_free(&cores);
        let arr0 = pending[0].arrival;
        let cf = cores[c];
        let t = if cf >= arr0 {
            cf
        } else {
            arr0
        };
        proof {
            assert(t == step_time(p0, cs0));
            lemma_ready_count(p0, t);
        }
        let mut rc: usize = 0;
        while rc < pending.len() && pending[rc].arrival <= t
            invariant
                rc <= pending@.len(),
                forall|q: int| 0 <= q < rc ==> #[trigger] pending@[q].arrival <= t,
            decreases pending@.len() - rc,
        {
            rc = rc + 1;
        }
        proof {
            if (rc as int) < ready_count(p0, t) {
                assert(p0[rc as int].arrival <= t);
                assert(false);
            }
            if (rc as int) > ready_count(p0, t) {
                assert(p0[ready_count(p0, t)].arrival > t);
                assert(false);
            }
            assert(rc as int == ready_count(p0, t));
            lemma_step_pick_range(p0, cs0, policy);
        }
        let mut best: usize = 0;
        let mut j: usize = 1;
        while j < rc
            invariant
                1 <= j <= rc,
                best < j,
                best as int == selected(p0.take(j as int), policy, t),
            decreases rc - j,
        {
            proof {
                assert(p0.take(j as int + 1).drop_last() =~= p0.take(j as int));
                assert(p0.take(j as int + 1).last() == p0[j as int]);
            }
            if beats(policy, &pending[j], &pending[best], t) {
                best = j;
            }
            j = j + 1;
        }
        proof {
            assert(p0.take(rc as int).take(best as int + 1) =~= p0.take(best as int + 1));
            assert(best as int == selected(p0.take(rc as int), policy, t)) by {
                if rc == 1 {
                    assert(selected(p0.take(1), policy, t) == 0);
                }
            }
            assert(best as int == step_pick(p0, cs0, policy));
        }
        let job = pending.remove(best);
        let end = t + job.service;
        let res = JobResult {
            id: job.id,
            arrival: job.arrival,
            service: job.service,
            start: t,
            end: end,
        };
        out.push(res);
        cores.set(c, end);
        proof {
            let placed = step_placement(p0, cs0, policy);
            assert(placed.job == res);
            assert(placed.core == c as int);
            assert(run(p0, cs0, policy) == seq![placed] + run(pending@, cores@, policy));
            done = done + seq![placed];
            assert(start_state == done + run(pending@, cores@, policy)) by {
                assert((done.drop_last() + (seq![placed] + run(pending@, cores@, policy))) =~= (
                done + run(pending@, cores@, policy)));
            }
            assert(out@ =~= results_of(done));
        }
    }
    proof {
        assert(run(pending@, cores@, policy) =~= Seq::<Placement>::empty());
        assert(start_state =~= done);
    }
    out
}

/// Dispatch `jobs` over `m` identical cores under `policy`.
///
/// The result is exactly `schedule_spec`, a total function of the
/// inputs: running the same dispatcher on the same input twice yields
/// identical output.  The output holds every input job, annotated and
/// sorted by ascending id.
pub fn dispatch(jobs: &Vec<Job>, m: usize, policy: Policy) -> (r: Vec<JobResult>)
    requires
        m >= 1,
        fits(jobs@),
    ensures
        r@ == schedule_spec(jobs@, m as nat, policy),
        sorted_by_id(r@),
        r@.len() == jobs@.len(),
        forall|k: int| 0 <= k < r@.len() ==> (#[trigger] r@[k]).wf(),
        stripped(r@).to_multiset() == jobs@.to_multiset(),
{
    proof {
        lemma_fits_ok(jobs@, m as nat);
        lemma_sort_by_arrival(jobs@);
        lemma_run_len(sort_by_arrival_spec(jobs@), idle_cores(m as nat), policy);
        lemma_sort_by_id(results_of(placements(jobs@, m as nat, policy)));
        crate::laws::lemma_causality(jobs@, m as nat, policy);
        crate::laws::lemma_completeness(jobs@, m as nat, policy);
    }
    let sorted = sort_by_arrival(jobs);
    let placed = run_engine(sorted, m, policy);
    let r = sort_by_id(&placed);
    r
}

/// First-come-first-served dispatch: jobs are assigned in arrival
/// order, each to the earliest-free core, starting as soon as both the
/// job and the core allow.
pub fn schedule_fcfs(jobs: &Vec<Job>, m: usize) -> (r: Vec<JobResult>)
    requires
        m >= 1,
        fits(jobs@),
    ensures
        r@ == schedule_spec(jobs@, m as nat, Policy::Fcfs),
        sorted_by_id(r@),
        r@.len() == jobs@.len(),
        forall|k: int| 0 <= k < r@.len() ==> (#[trigger] r@[k]).wf(),
        stripped(r@).to_multiset() == jobs@.to_multiset(),
{
    dispatch(jobs, m, Policy::Fcfs)
}

/// Shortest-job-first dispatch: at each decision the ready job with
/// the least service time runs next; ties keep admission order.
pub fn schedule_sjf(jobs: &Vec<Job>, m: usize) -> (r: Vec<JobResult>)
    requires
        m >= 1,
        fits(jobs@),
    ensures
        r@ == schedule_spec(jobs@, m as nat, Policy::Sjf),
        sorted_by_id(r@),
        r@.len() == jobs@.len(),
        forall|k: int| 0 <= k < r@.len() ==> (#[trigger] r@[k]).wf(),
        stripped(r@).to_multiset() == jobs@.to_multiset(),
{
    dispatch(jobs, m, Policy::Sjf)
}

/// Highest-response-ratio-next dispatch: at each decision the ready
/// job with the greatest response ratio runs next; ties keep admission
/// order.
pub fn schedule_hrrn(jobs: &Vec<Job>, m: usize) -> (r: Vec<JobResult>)
    requires
        m >= 1,
        fits(jobs@),
    ensures
        r@ == schedule_spec(jobs@, m as nat, Policy::Hrrn),
        sorted_by_id(r@),
        r@.len() == jobs@.len(),
        forall|k: int| 0 <= k < r@.len() ==> (#[trigger] r@[k]).wf(),
        stripped(r@).to_multiset() == jobs@.to_multiset(),
{
    dispatch(jobs, m, Policy::Hrrn)
}

} // verus!
