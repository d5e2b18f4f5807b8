use vstd::prelude::*;

verus! {

/// A batch job as submitted to a dispatcher: identity, the time it
/// becomes eligible for dispatch, and its estimated run length.
/// Times are abstract integer units.
#[derive(Clone, Copy, PartialEq, Eq, Structural, Debug)]
pub struct Job {
    pub id: u64,
    pub arrival: u64,
    pub service: u64,
}

/// A job annotated with the start and end times a dispatcher chose.
#[derive(Clone, Copy, PartialEq, Eq, Structural, Debug)]
pub struct JobResult {
    pub id: u64,
    pub arrival: u64,
    pub service: u64,
    pub start: u64,
    pub end: u64,
}

/// An exact rational quantity, numerator over denominator.
#[derive(Clone, Copy, PartialEq, Eq, Structural, Debug)]
pub struct Ratio {
    pub num: u64,
    pub den: u64,
}

impl Job {
    pub fn new(id: u64, arrival: u64, service: u64) -> (j: Job)
        ensures
            j == (Job { id, arrival, service }),
    {
        Job { id, arrival, service }
    }
}

/// The input job a result was derived from.
pub open spec fn job_of(r: JobResult) -> Job {
    Job { id: r.id, arrival: r.arrival, service: r.service }
}

/// The input jobs a sequence of results was derived from.
pub open spec fn stripped(s: Seq<JobResult>) -> Seq<Job> {
    s.map_values(|r: JobResult| job_of(r))
}

impl JobResult {
    /// A result is well formed when its times obey causality: the job
    /// starts no earlier than it arrives and runs for exactly its
    /// service time.
    pub open spec fn wf(self) -> bool {
        &&& self.arrival <= self.start
        &&& self.end == self.start + self.service
    }

    /// Turnaround time: completion minus arrival.
    pub fn turnaround(&self) -> (t: u64)
        requires
            self.wf(),
        ensures
            t == self.end - self.arrival,
    {
        self.end - self.arrival
    }

    /// Weighted turnaround: turnaround divided by service, as an exact
    /// rational.  It is undefined exactly for zero-service jobs, which
    /// are therefore excluded from weighted aggregation.
    pub fn weighted_turnaround(&self) -> (w: Option<Ratio>)
        requires
            self.wf(),
        ensures
            self.service == 0 ==> w is None,
            self.service > 0 ==> w == Some(Ratio {
                num: (self.end - self.arrival) as u64,
                den: self.service,
            }),
    {
        if self.service > 0 {
            Some(Ratio { num: self.end - self.arrival, den: self.service })
        } else {
            None
        }
    }
}

// ---------------------------------------------------------------------
// Aggregate metrics
// ---------------------------------------------------------------------

/// Sum of the turnaround times of a sequence of results.
pub open spec fn total_turnaround(s: Seq<JobResult>) -> int
    decreases s.len(),
{
    if s.len() == 0 {
        0
    } else {
        (s[0].end - s[0].arrival) + total_turnaround(s.skip(1))
    }
}

/// The weighted turnarounds that enter the weighted average: one exact
/// ratio per positive-service job, in order.  Zero-service jobs are
/// excluded, since their weighted turnaround is undefined.
pub open spec fn weighted_ratios_spec(s: Seq<JobResult>) -> Seq<Ratio>
    decreases s.len(),
{
    if s.len() == 0 {
        Seq::empty()
    } else {
        let rest = weighted_ratios_spec(s.skip(1));
        if s[0].service > 0 {
            seq![Ratio { num: (s[0].end - s[0].arrival) as u64, den: s[0].service }] + rest
        } else {
            rest
        }
    }
}

/// Collect the weighted turnarounds of exactly the jobs counted in
/// weighted aggregation: those with positive service, in order.
#[verifier::loop_isolation(false)]
pub fn weighted_ratios(results: &Vec<JobResult>) -> (v: Vec<Ratio>)
    requires
        forall|k: int| 0 <= k < results@.len() ==> (#[trigger] results@[k]).wf(),
    ensures
        v@ == weighted_ratios_spec(results@),
{
    let mut v: Vec<Ratio> = Vec::new();
    let mut i: usize = 0;
    proof {
        assert(results@.skip(0) =~= results@);
        assert(v@ + weighted_ratios_spec(results@) =~= weighted_ratios_spec(results@));
    }
    while i < results.len()
        invariant
            i <= results@.len(),
            v@ + weighted_ratios_spec(results@.skip(i as int)) == weighted_ratios_spec(results@),
        decreases results@.len() - i,
    {
        proof {
            assert(results@.skip(i as int).skip(1) =~= results@.skip(i as int + 1));
            assert(results@.skip(i as int)[0] == results@[i as int]);
        }
        let r = results[i];
        if r.service > 0 {
            let w = Ratio { num: r.end - r.arrival, den: r.service };
            proof {
                assert(weighted_ratios_spec(results@.skip(i as int)) == seq![w]
                    + weighted_ratios_spec(results@.skip(i as int + 1)));
                assert((v@ + seq![w]) + weighted_ratios_spec(results@.skip(i as int + 1)) =~= v@ + (
                seq![w] + weighted_ratios_spec(results@.skip(i as int + 1))));
                assert(v@.push(w) =~= v@ + seq![w]);
            }
            v.push(w);
        }
        i = i + 1;
    }
    proof {
        assert(results@.skip(results@.len() as int) =~= Seq::<JobResult>::empty());
        assert(v@ + Seq::<Ratio>::empty() =~= v@);
    }
    v
}

/// Average turnaround over the results, as the exact pair of turnaround
/// sum and count; an empty list has nothing to average.
#[verifier::loop_isolation(false)]
pub fn average_turnaround(results: &Vec<JobResult>) -> (a: Option<(u128, usize)>)
    requires
        forall|k: int| 0 <= k < results@.len() ==> (#[trigger] results@[k]).wf(),
    ensures
        results@.len() == 0 ==> a is None,
        results@.len() > 0 ==> a == Some(
            (total_turnaround(results@) as u128, results@.len() as usize),
        ),
{
    if results.len() == 0 {
        return None;
    }
    let mut sum: u128 = 0;
    let mut i: usize = 0;
    proof {
        assert(results@.skip(0) =~= results@);
    }
    while i < results.len()
        invariant
            i <= results@.len(),
            sum as int + total_turnaround(results@.skip(i as int)) == total_turnaround(results@),
            sum as int <= i * 0xffff_ffff_ffff_ffff,
        decreases results@.len() - i,
    {
        proof {
            assert(results@.skip(i as int).skip(1) =~= results@.skip(i as int + 1));
            assert(results@.skip(i as int)[0] == results@[i as int]);
            assert((i + 1) * 0xffff_ffff_ffff_ffff == i * 0xffff_ffff_ffff_ffff
                + 0xffff_ffff_ffff_ffff) by (nonlinear_arith);
            assert((i + 1) * 0xffff_ffff_ffff_ffff <= 0xffff_ffff_ffff_ffff
                * 0xffff_ffff_ffff_ffff) by (nonlinear_arith)
                requires
                    0 <= i + 1 <= 0xffff_ffff_ffff_ffffu128,
            ;
        }
        let r = results[i];
        sum = sum + (r.end - r.arrival) as u128;
        i = i + 1;
    }
    proof {
        assert(results@.skip(results@.len() as int) =~= Seq::<JobResult>::empty());
    }
    Some((sum, results.len()))
}

} // verus!
