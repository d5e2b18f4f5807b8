use vstd::prelude::*;

verus! {

/// The core availability tracker holds, for each processing unit, the
/// earliest time it next becomes free.  A fresh pool of `m` cores is
/// all free at time 0.
pub open spec fn idle_cores(m: nat) -> Seq<u64> {
    Seq::new(m, |i: int| 0u64)
}

/// Index of the earliest-free core; ties go to the lowest index.
pub open spec fn earliest_core(cores: Seq<u64>) -> int
    decreases cores.len(),
{
    if cores.len() <= 1 {
        0
    } else {
        let r = earliest_core(cores.drop_last());
        if cores.last() < cores[r] {
            cores.len() - 1
        } else {
            r
        }
    }
}

pub proof fn lemma_earliest_core(cores: Seq<u64>)
    requires
        cores.len() >= 1,
    ensures
        0 <= earliest_core(cores) < cores.len(),
        forall|i: int| 0 <= i < cores.len() ==> cores[earliest_core(cores)] <= #[trigger] cores[i],
    decreases cores.len(),
{
    if cores.len() > 1 {
        let prev = cores.drop_last();
        let r = earliest_core(prev);
        lemma_earliest_core(prev);
        assert forall|i: int| 0 <= i < cores.len() implies cores[earliest_core(cores)] <= #[trigger] cores[i] by {
            if i < cores.len() - 1 {
                assert(prev[i] == cores[i]);
                assert(prev[r] <= prev[i]);
            }
            assert(cores[r] == prev[r]);
            assert(cores.last() == cores[cores.len() - 1]);
        }
    }
}

/// Find the core that frees earliest, scanning left to right so that
/// ties resolve to the lowest index.
pub fn earliest_free(cores: &Vec<u64>) -> (c: usize)
    requires
        cores@.len() >= 1,
    ensures
        c as int == earliest_core(cores@),
        forall|i: int| 0 <= i < cores@.len() ==> cores@[c as int] <= #[trigger] cores@[i],
{
    let mut best: usize = 0;
    let mut i: usize = 1;
    while i < cores.len()
        invariant
            1 <= i <= cores@.len(),
            best < i,
            best as int == earliest_core(cores@.take(i as int)),
        decreases cores@.len() - i,
    {
        proof {
            assert(cores@.take(i as int + 1).drop_last() =~= cores@.take(i as int));
            assert(cores@.take(i as int + 1).last() == cores@[i as int]);
        }
        if cores[i] < cores[best] {
            best = i;
        }
        i = i + 1;
    }
    proof {
        assert(cores@.take(cores@.len() as int) =~= cores@);
        lemma_earliest_core(cores@);
    }
    best
}

} // verus!
