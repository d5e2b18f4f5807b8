use vstd::prelude::*;
use vstd::multiset::Multiset;
use crate::job::{Job, JobResult};

verus! {

// ---------------------------------------------------------------------
// Shared multiset helpers
// ---------------------------------------------------------------------

pub proof fn lemma_to_multiset_empty<A>()
    ensures
        Seq::<A>::empty().to_multiset() =~= Multiset::<A>::empty(),
{
    broadcast use vstd::seq_lib::group_to_multiset_ensures;

    let s = Seq::<A>::empty();
    assert forall|y: A| s.to_multiset().count(y) == Multiset::<A>::empty().count(y) by {
        assert(!s.contains(y));
    }
}

pub proof fn lemma_to_multiset_cons<A>(h: A, tl: Seq<A>)
    ensures
        (seq![h] + tl).to_multiset() =~= tl.to_multiset().insert(h),
{
    broadcast use vstd::seq_lib::group_to_multiset_ensures;

    let s = seq![h] + tl;
    assert(s.remove(0) =~= tl);
    assert(s.remove(0).to_multiset() =~= s.to_multiset().remove(s[0]));
    assert(s.contains(h));
    assert(s.to_multiset().count(h) > 0);
    assert forall|y: A| s.to_multiset().count(y) == tl.to_multiset().insert(h).count(y) by {
        assert(tl.to_multiset().count(y) == s.to_multiset().remove(h).count(y));
    }
}

// ---------------------------------------------------------------------
// Stable sort of jobs by ascending arrival time
// ---------------------------------------------------------------------

/// `s` is ordered by ascending arrival time.
pub open spec fn sorted_by_arrival(s: Seq<Job>) -> bool {
    forall|i: int, j: int| 0 <= i < j < s.len() ==> s[i].arrival <= s[j].arrival
}

/// Insert `x` into `s` after every job that arrives no later than `x`,
/// so that jobs with equal arrivals keep their original order.
pub open spec fn insert_by_arrival(s: Seq<Job>, x: Job) -> Seq<Job>
    decreases s.len(),
{
    if s.len() == 0 {
        seq![x]
    } else if x.arrival < s[0].arrival {
        seq![x] + s
    } else {
        seq![s[0]] + insert_by_arrival(s.skip(1), x)
    }
}

/// Stable insertion sort by arrival time: ties preserve the original
/// relative order.
pub open spec fn sort_by_arrival_spec(s: Seq<Job>) -> Seq<Job>
    decreases s.len(),
{
    if s.len() == 0 {
        Seq::empty()
    } else {
        insert_by_arrival(sort_by_arrival_spec(s.drop_last()), s.last())
    }
}

/// Inserting lands at the first position whose job arrives strictly
/// later than `x`.
pub proof fn lemma_insert_by_arrival_at(s: Seq<Job>, x: Job, p: int)
    requires
        0 <= p <= s.len(),
        forall|q: int| 0 <= q < p ==> s[q].arrival <= x.arrival,
        p < s.len() ==> x.arrival < s[p].arrival,
    ensures
        insert_by_arrival(s, x) == s.insert(p, x),
    decreases s.len(),
{
    if s.len() == 0 {
        assert(insert_by_arrival(s, x) =~= s.insert(0, x));
    } else if x.arrival < s[0].arrival {
        assert(p == 0);
        assert(seq![x] + s =~= s.insert(0, x));
    } else {
        assert(p > 0);
        lemma_insert_by_arrival_at(s.skip(1), x, p - 1);
        assert(seq![s[0]] + s.skip(1).insert(p - 1, x) =~= s.insert(p, x));
    }
}

pub proof fn lemma_insert_by_arrival_multiset(s: Seq<Job>, x: Job)
    ensures
        insert_by_arrival(s, x).to_multiset() =~= s.to_multiset().insert(x),
        insert_by_arrival(s, x).len() == s.len() + 1,
        forall|j: int|
            0 <= j < insert_by_arrival(s, x).len()
                ==> insert_by_arrival(s, x)[j] == x || s.contains(#[trigger] insert_by_arrival(s, x)[j]),
    decreases s.len(),
{
    broadcast use vstd::seq_lib::group_to_multiset_ensures;

    let r = insert_by_arrival(s, x);
    if s.len() == 0 {
        assert(r =~= Seq::<Job>::empty().push(x));
        lemma_to_multiset_empty::<Job>();
        assert(r.to_multiset() =~= s.to_multiset().insert(x));
    } else if x.arrival < s[0].arrival {
        lemma_to_multiset_cons(x, s);
        assert forall|j: int| 0 <= j < r.len() implies r[j] == x || s.contains(#[trigger] r[j]) by {
            if j > 0 {
                assert(r[j] == s[j - 1]);
            }
        }
    } else {
        lemma_insert_by_arrival_multiset(s.skip(1), x);
        let rest = insert_by_arrival(s.skip(1), x);
        lemma_to_multiset_cons(s[0], rest);
        lemma_to_multiset_cons(s[0], s.skip(1));
        assert(seq![s[0]] + s.skip(1) =~= s);
        assert(r.to_multiset() =~= s.to_multiset().insert(x));
        assert forall|j: int| 0 <= j < r.len() implies r[j] == x || s.contains(#[trigger] r[j]) by {
            if j == 0 {
                assert(s.contains(s[0]));
            } else {
                assert(r[j] == rest[j - 1]);
                if rest[j - 1] != x {
                    let i = choose|i: int| 0 <= i < s.skip(1).len() && s.skip(1)[i] == rest[j - 1];
                    assert(s[i + 1] == rest[j - 1]);
                    assert(s.contains(rest[j - 1]));
                }
            }
        }
    }
}

pub proof fn lemma_insert_by_arrival_sorted(s: Seq<Job>, x: Job)
    requires
        sorted_by_arrival(s),
    ensures
        sorted_by_arrival(insert_by_arrival(s, x)),
    decreases s.len(),
{
    let r = insert_by_arrival(s, x);
    if s.len() == 0 {
    } else if x.arrival < s[0].arrival {
        assert forall|i: int, j: int| 0 <= i < j < r.len() implies r[i].arrival <= r[j].arrival by {
            if i == 0 {
                assert(r[j] == s[j - 1]);
            } else {
                assert(r[i] == s[i - 1] && r[j] == s[j - 1]);
            }
        }
    } else {
        assert(forall|i: int, j: int|
            0 <= i < j < s.skip(1).len() ==> s.skip(1)[i].arrival <= s.skip(1)[j].arrival);
        lemma_insert_by_arrival_sorted(s.skip(1), x);
        lemma_insert_by_arrival_multiset(s.skip(1), x);
        let rest = insert_by_arrival(s.skip(1), x);
        assert forall|i: int, j: int| 0 <= i < j < r.len() implies r[i].arrival <= r[j].arrival by {
            if i == 0 {
                assert(r[j] == rest[j - 1]);
                if rest[j - 1] == x {
                    assert(s[0].arrival <= x.arrival);
                } else {
                    assert(s.skip(1).contains(rest[j - 1]));
                    let k = choose|k: int| 0 <= k < s.skip(1).len() && s.skip(1)[k] == rest[j - 1];
                    assert(s[k + 1] == rest[j - 1]);
                    assert(s[0].arrival <= s[k + 1].arrival);
                }
            } else {
                assert(r[i] == rest[i - 1] && r[j] == rest[j - 1]);
            }
        }
    }
}

pub proof fn lemma_sort_by_arrival(s: Seq<Job>)
    ensures
        sorted_by_arrival(sort_by_arrival_spec(s)),
        sort_by_arrival_spec(s).to_multiset() =~= s.to_multiset(),
        sort_by_arrival_spec(s).len() == s.len(),
    decreases s.len(),
{
    broadcast use vstd::seq_lib::group_to_multiset_ensures;

    if s.len() > 0 {
        lemma_sort_by_arrival(s.drop_last());
        lemma_insert_by_arrival_sorted(sort_by_arrival_spec(s.drop_last()), s.last());
        lemma_insert_by_arrival_multiset(sort_by_arrival_spec(s.drop_last()), s.last());
        assert(s.drop_last().push(s.last()) =~= s);
        assert(s.drop_last().push(s.last()).to_multiset() =~= s.drop_last().to_multiset().insert(s.last()));
    }
}

/// Stable sort of the input jobs by ascending arrival time.
pub fn sort_by_arrival(jobs: &Vec<Job>) -> (r: Vec<Job>)
    ensures
        r@ == sort_by_arrival_spec(jobs@),
{
    let mut out: Vec<Job> = Vec::new();
    let mut i: usize = 0;
    while i < jobs.len()
        invariant
            i <= jobs@.len(),
            out@ == sort_by_arrival_spec(jobs@.take(i as int)),
        decreases jobs@.len() - i,
    {
        let x = jobs[i];
        let mut p: usize = 0;
        while p < out.len() && out[p].arrival <= x.arrival
            invariant
                p <= out@.len(),
                forall|q: int| 0 <= q < p ==> out@[q].arrival <= x.arrival,
            decreases out@.len() - p,
        {
            p = p + 1;
        }
        proof {
            lemma_insert_by_arrival_at(out@, x, p as int);
            assert(jobs@.take(i as int + 1).drop_last() =~= jobs@.take(i as int));
            assert(jobs@.take(i as int + 1).last() == jobs@[i as int]);
        }
        out.insert(p, x);
        i = i + 1;
    }
    proof {
        assert(jobs@.take(jobs@.len() as int) =~= jobs@);
    }
    out
}

// ---------------------------------------------------------------------
// Stable sort of results by ascending job id
// ---------------------------------------------------------------------

/// `s` is ordered by ascending job id.
pub open spec fn sorted_by_id(s: Seq<JobResult>) -> bool {
    forall|i: int, j: int| 0 <= i < j < s.len() ==> s[i].id <= s[j].id
}

/// Insert `x` into `s` after every result whose id is no greater.
pub open spec fn insert_by_id(s: Seq<JobResult>, x: JobResult) -> Seq<JobResult>
    decreases s.len(),
{
    if s.len() == 0 {
        seq![x]
    } else if x.id < s[0].id {
        seq![x] + s
    } else {
        seq![s[0]] + insert_by_id(s.skip(1), x)
    }
}

/// Stable insertion sort of results by job id.
pub open spec fn sort_by_id_spec(s: Seq<JobResult>) -> Seq<JobResult>
    decreases s.len(),
{
    if s.len() == 0 {
        Seq::empty()
    } else {
        insert_by_id(sort_by_id_spec(s.drop_last()), s.last())
    }
}

pub proof fn lemma_insert_by_id_at(s: Seq<JobResult>, x: JobResult, p: int)
    requires
        0 <= p <= s.len(),
        forall|q: int| 0 <= q < p ==> s[q].id <= x.id,
        p < s.len() ==> x.id < s[p].id,
    ensures
        insert_by_id(s, x) == s.insert(p, x),
    decreases s.len(),
{
    if s.len() == 0 {
        assert(insert_by_id(s, x) =~= s.insert(0, x));
    } else if x.id < s[0].id {
        assert(p == 0);
        assert(seq![x] + s =~= s.insert(0, x));
    } else {
        assert(p > 0);
        lemma_insert_by_id_at(s.skip(1), x, p - 1);
        assert(seq![s[0]] + s.skip(1).insert(p - 1, x) =~= s.insert(p, x));
    }
}

pub proof fn lemma_insert_by_id_multiset(s: Seq<JobResult>, x: JobResult)
    ensures
        insert_by_id(s, x).to_multiset() =~= s.to_multiset().insert(x),
        insert_by_id(s, x).len() == s.len() + 1,
        forall|j: int|
            0 <= j < insert_by_id(s, x).len()
                ==> insert_by_id(s, x)[j] == x || s.contains(#[trigger] insert_by_id(s, x)[j]),
    decreases s.len(),
{
    broadcast use vstd::seq_lib::group_to_multiset_ensures;

    let r = insert_by_id(s, x);
    if s.len() == 0 {
        assert(r =~= Seq::<JobResult>::empty().push(x));
        lemma_to_multiset_empty::<JobResult>();
        assert(r.to_multiset() =~= s.to_multiset().insert(x));
    } else if x.id < s[0].id {
        lemma_to_multiset_cons(x, s);
        assert forall|j: int| 0 <= j < r.len() implies r[j] == x || s.contains(#[trigger] r[j]) by {
            if j > 0 {
                assert(r[j] == s[j - 1]);
            }
        }
    } else {
        lemma_insert_by_id_multiset(s.skip(1), x);
        let rest = insert_by_id(s.skip(1), x);
        lemma_to_multiset_cons(s[0], rest);
        lemma_to_multiset_cons(s[0], s.skip(1));
        assert(seq![s[0]] + s.skip(1) =~= s);
        assert(r.to_multiset() =~= s.to_multiset().insert(x));
        assert forall|j: int| 0 <= j < r.len() implies r[j] == x || s.contains(#[trigger] r[j]) by {
            if j == 0 {
                assert(s.contains(s[0]));
            } else {
                assert(r[j] == rest[j - 1]);
                if rest[j - 1] != x {
                    let i = choose|i: int| 0 <= i < s.skip(1).len() && s.skip(1)[i] == rest[j - 1];
                    assert(s[i + 1] == rest[j - 1]);
                    assert(s.contains(rest[j - 1]));
                }
            }
        }
    }
}

pub proof fn lemma_insert_by_id_sorted(s: Seq<JobResult>, x: JobResult)
    requires
        sorted_by_id(s),
    ensures
        sorted_by_id(insert_by_id(s, x)),
    decreases s.len(),
{
    let r = insert_by_id(s, x);
    if s.len() == 0 {
    } else if x.id < s[0].id {
        assert forall|i: int, j: int| 0 <= i < j < r.len() implies r[i].id <= r[j].id by {
            if i == 0 {
                assert(r[j] == s[j - 1]);
            } else {
                assert(r[i] == s[i - 1] && r[j] == s[j - 1]);
            }
        }
    } else {
        assert(forall|i: int, j: int|
            0 <= i < j < s.skip(1).len() ==> s.skip(1)[i].id <= s.skip(1)[j].id);
        lemma_insert_by_id_sorted(s.skip(1), x);
        lemma_insert_by_id_multiset(s.skip(1), x);
        let rest = insert_by_id(s.skip(1), x);
        assert forall|i: int, j: int| 0 <= i < j < r.len() implies r[i].id <= r[j].id by {
            if i == 0 {
                assert(r[j] == rest[j - 1]);
                if rest[j - 1] == x {
                    assert(s[0].id <= x.id);
                } else {
                    assert(s.skip(1).contains(rest[j - 1]));
                    let k = choose|k: int| 0 <= k < s.skip(1).len() && s.skip(1)[k] == rest[j - 1];
                    assert(s[k + 1] == rest[j - 1]);
                    assert(s[0].id <= s[k + 1].id);
                }
            } else {
                assert(r[i] == rest[i - 1] && r[j] == rest[j - 1]);
            }
        }
    }
}

pub proof fn lemma_sort_by_id(s: Seq<JobResult>)
    ensures
        sorted_by_id(sort_by_id_spec(s)),
        sort_by_id_spec(s).to_multiset() =~= s.to_multiset(),
        sort_by_id_spec(s).len() == s.len(),
    decreases s.len(),
{
    broadcast use vstd::seq_lib::group_to_multiset_ensures;

    if s.len() > 0 {
        lemma_sort_by_id(s.drop_last());
        lemma_insert_by_id_sorted(sort_by_id_spec(s.drop_last()), s.last());
        lemma_insert_by_id_multiset(sort_by_id_spec(s.drop_last()), s.last());
        assert(s.drop_last().push(s.last()) =~= s);
        assert(s.drop_last().push(s.last()).to_multiset() =~= s.drop_last().to_multiset().insert(s.last()));
    }
}

/// Sort the annotated results by ascending job id for output.
pub fn sort_by_id(results: &Vec<JobResult>) -> (r: Vec<JobResult>)
    ensures
        r@ == sort_by_id_spec(results@),
{
    let mut out: Vec<JobResult> = Vec::new();
    let mut i: usize = 0;
    while i < results.len()
        invariant
            i <= results@.len(),
            out@ == sort_by_id_spec(results@.take(i as int)),
        decreases results@.len() - i,
    {
        let x = results[i];
        let mut p: usize = 0;
        while p < out.len() && out[p].id <= x.id
            invariant
                p <= out@.len(),
                forall|q: int| 0 <= q < p ==> out@[q].id <= x.id,
            decreases out@.len() - p,
        {
            p = p + 1;
        }
        proof {
            lemma_insert_by_id_at(out@, x, p as int);
            assert(results@.take(i as int + 1).drop_last() =~= results@.take(i as int));
            assert(results@.take(i as int + 1).last() == results@[i as int]);
        }
        out.insert(p, x);
        i = i + 1;
    }
    proof {
        assert(results@.take(results@.len() as int) =~= results@);
    }
    out
}

} // verus!
