//! Scheduler equivalence: with a deterministic compute collaborator, the
//! records a run emits do not depend on how many workers the jobs were
//! dealt to, nor on the partitioning policy — only their order may differ.
//!
//! The collaborator is modeled as a function from a job to the record it
//! yields after filtering (`None` for a skipped or filtered-out job), which
//! is exactly what one worker appends per job. A bucketed run emits, per
//! bucket, that function mapped over the bucket; a single worker emits it
//! mapped over the whole job list. The law says the two multisets of
//! records are equal.

use vstd::prelude::*;
use vstd::multiset::Multiset;

use crate::schedule::{
    assigned_bucket, bucket_spec, emitted_records, job_views, outcome_record, Job, JobOutcome,
    JobView, PartitionPolicy, ProfileInfo, RecordView, TargetInfo,
};

verus! {

/// All the buckets the policy deals the jobs into.
pub open spec fn buckets_of(
    jobs: Seq<JobView>,
    policy: PartitionPolicy,
    n: int,
) -> Seq<Seq<JobView>> {
    Seq::new(n as nat, |b: int| bucket_spec(jobs, policy, n, b))
}

/// `filter_map` distributes over concatenation.
proof fn lemma_filter_map_add<A, B>(a: Seq<A>, b: Seq<A>, f: spec_fn(A) -> Option<B>)
    ensures
        (a + b).filter_map(f) == a.filter_map(f) + b.filter_map(f),
    decreases b.len(),
{
    if b.len() == 0 {
        assert(a + b =~= a);
        assert(b.filter_map(f) == Seq::<B>::empty());
        assert(a.filter_map(f) + Seq::<B>::empty() =~= a.filter_map(f));
    } else {
        lemma_filter_map_add(a, b.drop_last(), f);
        assert((a + b).drop_last() =~= a + b.drop_last());
        assert((a + b).last() == b.last());
        match f(b.last()) {
            Option::Some(v) => {
                assert((a.filter_map(f) + b.drop_last().filter_map(f)) + seq![v]
                    =~= a.filter_map(f) + (b.drop_last().filter_map(f) + seq![v]));
            },
            Option::None => {},
        }
    }
}

/// Two job lists with the same multiset produce the same multiset of
/// records, whatever order they hold the jobs in.
proof fn lemma_filter_map_multiset<A, B>(s1: Seq<A>, s2: Seq<A>, f: spec_fn(A) -> Option<B>)
    requires
        s1.to_multiset() == s2.to_multiset(),
    ensures
        s1.filter_map(f).to_multiset() == s2.filter_map(f).to_multiset(),
    decreases s1.len(),
{
    broadcast use vstd::seq_lib::group_to_multiset_ensures;

    if s1.len() == 0 {
        assert(s2.to_multiset().len() == 0);
        assert(s2.len() == 0);
    } else {
        let x = s1.last();
        assert(s1.to_multiset().count(x) > 0) by {
            assert(s1.contains(x));
        }
        assert(s2.to_multiset().count(x) > 0);
        assert(s2.contains(x));
        let i = choose|i: int| 0 <= i < s2.len() && s2[i] == x;
        // split s2 around position i
        let u = s2.take(i);
        let v = s2.skip(i + 1);
        assert(s2 =~= u + seq![x] + v);
        assert(s2.remove(i) =~= u + v);
        assert(s1.drop_last() =~= s1.remove(s1.len() - 1));
        assert(s1.remove(s1.len() - 1).to_multiset() == s1.to_multiset().remove(x));
        assert(s2.remove(i).to_multiset() == s2.to_multiset().remove(x));
        lemma_filter_map_multiset(s1.drop_last(), u + v, f);
        // decompose both filter_maps
        lemma_filter_map_add(u + seq![x], v, f);
        lemma_filter_map_add(u, seq![x], f);
        lemma_filter_map_add(u, v, f);
        Seq::<A>::lemma_filter_map_singleton(x, f);
        assert(s1.filter_map(f) == s1.drop_last().filter_map(f) + (match f(x) {
            Option::Some(r) => seq![r],
            Option::None => Seq::<B>::empty(),
        })) by {
            assert(s1.drop_last() == s1.drop_last());
        }
        let fx = seq![x].filter_map(f);
        vstd::seq_lib::lemma_multiset_commutative(u.filter_map(f) + fx, v.filter_map(f));
        vstd::seq_lib::lemma_multiset_commutative(u.filter_map(f), fx);
        vstd::seq_lib::lemma_multiset_commutative(u.filter_map(f), v.filter_map(f));
        vstd::seq_lib::lemma_multiset_commutative(s1.drop_last().filter_map(f), fx);
        assert(s1.filter_map(f) =~= s1.drop_last().filter_map(f) + fx);
        assert(s2.filter_map(f).to_multiset() == u.filter_map(f).to_multiset().add(
            fx.to_multiset(),
        ).add(v.filter_map(f).to_multiset())) by {
            assert(s2.filter_map(f) == (u + seq![x] + v).filter_map(f));
            assert((u + seq![x] + v).filter_map(f) == (u + seq![x]).filter_map(f)
                + v.filter_map(f));
        }
        assert(s1.filter_map(f).to_multiset() =~= s2.filter_map(f).to_multiset());
    }
}

/// Appending one element to one inner sequence adds it to the flattened
/// multiset.
proof fn lemma_flatten_ms_append<A>(bs: Seq<Seq<A>>, i: int, x: A)
    requires
        0 <= i < bs.len(),
    ensures
        bs.update(i, bs[i] + seq![x]).flatten().to_multiset() == bs.flatten().to_multiset().insert(
            x,
        ),
    decreases i,
{
    broadcast use vstd::seq_lib::group_to_multiset_ensures;

    let bs2 = bs.update(i, bs[i] + seq![x]);
    if i == 0 {
        assert(bs2.first() == bs[0] + seq![x]);
        assert(bs2.drop_first() =~= bs.drop_first());
        assert(bs2.flatten() == bs2.first() + bs2.drop_first().flatten());
        assert(bs.flatten() == bs.first() + bs.drop_first().flatten());
        vstd::seq_lib::lemma_multiset_commutative(bs2.first(), bs2.drop_first().flatten());
        vstd::seq_lib::lemma_multiset_commutative(bs.first(), bs.drop_first().flatten());
        vstd::seq_lib::lemma_multiset_commutative(bs[0], seq![x]);
        assert(seq![x].to_multiset() == Multiset::<A>::empty().insert(x)) by {
            assert(seq![x] =~= Seq::<A>::empty().push(x));
        }
        assert(bs2.flatten().to_multiset() =~= bs.flatten().to_multiset().insert(x));
    } else {
        lemma_flatten_ms_append(bs.drop_first(), i - 1, x);
        assert(bs2.drop_first() =~= bs.drop_first().update(i - 1, bs.drop_first()[i - 1]
            + seq![x]));
        assert(bs2.first() == bs.first());
        assert(bs2.flatten() == bs2.first() + bs2.drop_first().flatten());
        assert(bs.flatten() == bs.first() + bs.drop_first().flatten());
        vstd::seq_lib::lemma_multiset_commutative(bs2.first(), bs2.drop_first().flatten());
        vstd::seq_lib::lemma_multiset_commutative(bs.first(), bs.drop_first().flatten());
        assert(bs2.flatten().to_multiset() =~= bs.flatten().to_multiset().insert(x));
    }
}

/// Dealing the jobs into buckets loses none and invents none: the buckets
/// together hold exactly the planned jobs.
pub proof fn lemma_partition_preserves_jobs(jobs: Seq<JobView>, policy: PartitionPolicy, n: int)
    requires
        n >= 1,
    ensures
        buckets_of(jobs, policy, n).flatten().to_multiset() == jobs.to_multiset(),
    decreases jobs.len(),
{
    broadcast use vstd::seq_lib::group_to_multiset_ensures;

    if jobs.len() == 0 {
        let bs = buckets_of(jobs, policy, n);
        assert(forall|b: int| 0 <= b < n ==> #[trigger] bs[b] == Seq::<JobView>::empty());
        lemma_flatten_all_empty(bs);
        assert(bs.flatten().to_multiset() =~= jobs.to_multiset());
    } else {
        let prev = jobs.drop_last();
        let x = jobs.last();
        let pos = jobs.len() - 1;
        let tb = assigned_bucket(x, pos, policy, n);
        lemma_partition_preserves_jobs(prev, policy, n);
        assert(0 <= tb < n) by {
            match policy {
                PartitionPolicy::WholeProfiles => {
                    assert(0 <= x.profile_idx % n < n) by (nonlinear_arith)
                        requires
                            n >= 1,
                    {}
                },
                PartitionPolicy::FlattenRoundRobin => {
                    assert(0 <= pos % n < n) by (nonlinear_arith)
                        requires
                            n >= 1,
                    {}
                },
            }
        }
        let bs_prev = buckets_of(prev, policy, n);
        let bs = buckets_of(jobs, policy, n);
        assert forall|b: int| 0 <= b < n implies #[trigger] bs[b] == (if b == tb {
            bs_prev[b] + seq![x]
        } else {
            bs_prev[b]
        }) by {
            assert(bucket_spec(jobs, policy, n, b) == (if assigned_bucket(x, pos, policy, n) == b {
                bucket_spec(prev, policy, n, b) + seq![x]
            } else {
                bucket_spec(prev, policy, n, b)
            }));
        }
        assert(bs =~= bs_prev.update(tb, bs_prev[tb] + seq![x]));
        lemma_flatten_ms_append(bs_prev, tb, x);
        assert(jobs.to_multiset() =~= prev.to_multiset().insert(x)) by {
            assert(jobs =~= prev.push(x));
        }
    }
}

proof fn lemma_flatten_all_empty<A>(bs: Seq<Seq<A>>)
    requires
        forall|b: int| 0 <= b < bs.len() ==> #[trigger] bs[b] == Seq::<A>::empty(),
    ensures
        bs.flatten() == Seq::<A>::empty(),
    decreases bs.len(),
{
    if bs.len() > 0 {
        lemma_flatten_all_empty(bs.drop_first());
        assert(bs.flatten() =~= Seq::<A>::empty());
    }
}

/// Per-bucket record emission equals emission over the flattened buckets.
proof fn lemma_filter_map_flatten<A, B>(bs: Seq<Seq<A>>, f: spec_fn(A) -> Option<B>)
    ensures
        bs.flatten().filter_map(f) == bs.map_values(|s: Seq<A>| s.filter_map(f)).flatten(),
    decreases bs.len(),
{
    if bs.len() == 0 {
        assert(bs.flatten().filter_map(f) =~= bs.map_values(
            |s: Seq<A>| s.filter_map(f),
        ).flatten());
    } else {
        lemma_filter_map_flatten(bs.drop_first(), f);
        let mapped = bs.map_values(|s: Seq<A>| s.filter_map(f));
        assert(bs.flatten() == bs.first() + bs.drop_first().flatten());
        lemma_filter_map_add(bs.first(), bs.drop_first().flatten(), f);
        assert(mapped.first() == bs.first().filter_map(f));
        assert(mapped.drop_first() =~= bs.drop_first().map_values(|s: Seq<A>| s.filter_map(f)));
        assert(mapped.flatten() == mapped.first() + mapped.drop_first().flatten());
        assert(bs.flatten().filter_map(f) =~= mapped.flatten());
    }
}

/// The record a deterministic collaborator's run keeps for one job: its
/// outcome, scored against the cutoff, under the names the job points at.
pub open spec fn job_emit(
    profiles: Seq<ProfileInfo>,
    targets: Seq<TargetInfo>,
    outcome_fn: spec_fn(JobView) -> JobOutcome,
    cutoff_bits: u64,
) -> spec_fn(JobView) -> Option<RecordView> {
    |j: JobView|
        outcome_record(
            profiles[j.profile_idx].name@,
            targets[j.target_idx].name@,
            outcome_fn(j),
            cutoff_bits,
        )
}

/// What a worker emits walking a bucket equals `filter_map` over the
/// bucket's jobs, whenever each outcome is the deterministic
/// collaborator's function of its job. This ties the executable worker
/// loop to the equivalence law below.
pub proof fn lemma_emitted_records_are_filter_map(
    profiles: Seq<ProfileInfo>,
    targets: Seq<TargetInfo>,
    jobs: Seq<Job>,
    outcomes: Seq<JobOutcome>,
    outcome_fn: spec_fn(JobView) -> JobOutcome,
    cutoff_bits: u64,
)
    requires
        jobs.len() == outcomes.len(),
        forall|i: int| 0 <= i < jobs.len() ==> outcomes[i] == outcome_fn((#[trigger] jobs[i])@),
    ensures
        emitted_records(profiles, targets, jobs, outcomes, cutoff_bits) == job_views(
            jobs,
        ).filter_map(job_emit(profiles, targets, outcome_fn, cutoff_bits)),
    decreases jobs.len(),
{
    let f = job_emit(profiles, targets, outcome_fn, cutoff_bits);
    if jobs.len() == 0 {
        assert(job_views(jobs) =~= Seq::<JobView>::empty());
    } else {
        lemma_emitted_records_are_filter_map(
            profiles,
            targets,
            jobs.drop_last(),
            outcomes.drop_last(),
            outcome_fn,
            cutoff_bits,
        );
        assert(job_views(jobs).drop_last() =~= job_views(jobs.drop_last()));
        assert(job_views(jobs).last() == jobs.last()@);
        assert(outcomes.last() == outcome_fn(jobs.last()@)) by {
            assert(outcomes[jobs.len() - 1] == outcome_fn(jobs[jobs.len() - 1]@));
        }
        assert(f(jobs.last()@) == outcome_record(
            profiles[jobs.last()@.profile_idx].name@,
            targets[jobs.last()@.target_idx].name@,
            outcome_fn(jobs.last()@),
            cutoff_bits,
        ));
        match f(jobs.last()@) {
            Option::Some(rv) => {
                assert(emitted_records(profiles, targets, jobs, outcomes, cutoff_bits)
                    =~= job_views(jobs).filter_map(f));
            },
            Option::None => {
                assert(emitted_records(profiles, targets, jobs, outcomes, cutoff_bits)
                    =~= job_views(jobs).filter_map(f));
            },
        }
    }
}

/// Scheduler equivalence. With a deterministic collaborator — `emit`
/// gives, per job, the filtered record the run keeps for it, or `None` —
/// dealing the jobs to `n` workers under either policy and concatenating
/// the workers' outputs yields the same multiset of records as one worker
/// walking the whole job list, whatever `n >= 1` and whatever the policy.
pub proof fn lemma_scheduler_worker_count_equivalence(
    jobs: Seq<JobView>,
    emit: spec_fn(JobView) -> Option<RecordView>,
    policy: PartitionPolicy,
    n: int,
)
    requires
        n >= 1,
    ensures
        buckets_of(jobs, policy, n).map_values(
            |b: Seq<JobView>| b.filter_map(emit),
        ).flatten().to_multiset() == jobs.filter_map(emit).to_multiset(),
{
    let bs = buckets_of(jobs, policy, n);
    lemma_filter_map_flatten(bs, emit);
    lemma_partition_preserves_jobs(jobs, policy, n);
    lemma_filter_map_multiset(bs.flatten(), jobs, emit);
}

} // verus!
