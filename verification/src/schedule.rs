//! The alignment scheduler: it plans exactly one job per `(profile, seed)`
//! pair in the seed map, partitions the jobs across a worker pool under a
//! pluggable policy, tracks the reusable per-worker scratch sizes, filters
//! each scored outcome against the e-value cutoff, and merges the workers'
//! outputs into one record list.
//!
//! The numerical steps of a job (cloud searches, bound join and trim, the
//! bounded passes and scoring) belong to the bounded-alignment compute
//! collaborator. A worker hands the collaborator one job at a time and
//! receives a [`JobOutcome`]: either a recoverable bound failure, which
//! skips the job, or a scored result. Scores arrive as the IEEE 754 bit
//! patterns of the collaborator's nonnegative 64-bit binary values; on
//! nonnegative values the unsigned order of the patterns agrees with the
//! numeric order, so the cutoff test compares patterns.

use vstd::prelude::*;

use crate::seeds::{seed_views, Seed, SeedMap, SeedView};

verus! {

/// What the scheduler knows of a profile: its identifier pair and its
/// number of model columns.
pub struct ProfileInfo {
    pub accession: Vec<u8>,
    pub name: Vec<u8>,
    pub length: usize,
}

pub ghost struct ProfileInfoView {
    pub accession: Seq<u8>,
    pub name: Seq<u8>,
    pub length: int,
}

impl View for ProfileInfo {
    type V = ProfileInfoView;

    open spec fn view(&self) -> ProfileInfoView {
        ProfileInfoView {
            accession: self.accession@,
            name: self.name@,
            length: self.length as int,
        }
    }
}

/// What the scheduler knows of a target sequence: its name and length.
pub struct TargetInfo {
    pub name: Vec<u8>,
    pub length: usize,
}

pub ghost struct TargetInfoView {
    pub name: Seq<u8>,
    pub length: int,
}

impl View for TargetInfo {
    type V = TargetInfoView;

    open spec fn view(&self) -> TargetInfoView {
        TargetInfoView { name: self.name@, length: self.length as int }
    }
}

/// One schedulable unit of work: a profile, a target, and the seed that
/// bounds the alignment.
#[derive(Debug)]
pub struct Job {
    pub profile_idx: usize,
    pub target_idx: usize,
    pub seed: Seed,
}

pub ghost struct JobView {
    pub profile_idx: int,
    pub target_idx: int,
    pub seed: SeedView,
}

impl View for Job {
    type V = JobView;

    open spec fn view(&self) -> JobView {
        JobView {
            profile_idx: self.profile_idx as int,
            target_idx: self.target_idx as int,
            seed: self.seed@,
        }
    }
}

pub open spec fn job_views(s: Seq<Job>) -> Seq<JobView> {
    s.map_values(|x: Job| x@)
}

/// The seed map names a profile the run does not hold.
#[derive(Debug)]
pub struct ProfileNotFoundError {
    pub profile_name: Vec<u8>,
}

/// A seed names a target the run does not hold.
#[derive(Debug)]
pub struct TargetNotFoundError {
    pub target_name: Vec<u8>,
}

/// Integrity errors of job planning: both abort the run.
#[derive(Debug)]
pub enum PlanError {
    ProfileNotFound(ProfileNotFoundError),
    TargetNotFound(TargetNotFoundError),
}

pub open spec fn profile_names_distinct(ps: Seq<ProfileInfo>) -> bool {
    forall|i: int, j: int|
        0 <= i < j < ps.len() ==> (#[trigger] ps[i]).name@ != (#[trigger] ps[j]).name@
}

pub open spec fn target_names_distinct(ts: Seq<TargetInfo>) -> bool {
    forall|i: int, j: int|
        0 <= i < j < ts.len() ==> (#[trigger] ts[i]).name@ != (#[trigger] ts[j]).name@
}

pub open spec fn profile_has(ps: Seq<ProfileInfo>, name: Seq<u8>) -> bool {
    exists|i: int| 0 <= i < ps.len() && (#[trigger] ps[i]).name@ == name
}

pub open spec fn profile_index_of(ps: Seq<ProfileInfo>, name: Seq<u8>) -> int {
    choose|i: int| 0 <= i < ps.len() && (#[trigger] ps[i]).name@ == name
}

pub open spec fn target_has(ts: Seq<TargetInfo>, name: Seq<u8>) -> bool {
    exists|i: int| 0 <= i < ts.len() && (#[trigger] ts[i]).name@ == name
}

pub open spec fn target_index_of(ts: Seq<TargetInfo>, name: Seq<u8>) -> int {
    choose|i: int| 0 <= i < ts.len() && (#[trigger] ts[i]).name@ == name
}

pub proof fn lemma_profile_index_unique(ps: Seq<ProfileInfo>, name: Seq<u8>, i: int)
    requires
        profile_names_distinct(ps),
        0 <= i < ps.len(),
        ps[i].name@ == name,
    ensures
        profile_index_of(ps, name) == i,
{
    let j = profile_index_of(ps, name);
    assert(profile_has(ps, name));
    if j != i {
        if j < i {
            assert(ps[j].name@ != ps[i].name@);
        } else {
            assert(ps[i].name@ != ps[j].name@);
        }
    }
}

pub proof fn lemma_target_index_unique(ts: Seq<TargetInfo>, name: Seq<u8>, i: int)
    requires
        target_names_distinct(ts),
        0 <= i < ts.len(),
        ts[i].name@ == name,
    ensures
        target_index_of(ts, name) == i,
{
    let j = target_index_of(ts, name);
    assert(target_has(ts, name));
    if j != i {
        if j < i {
            assert(ts[j].name@ != ts[i].name@);
        } else {
            assert(ts[i].name@ != ts[j].name@);
        }
    }
}

/// The jobs of one seed-map entry, in seed order.
pub open spec fn entry_jobs(
    ps: Seq<ProfileInfo>,
    ts: Seq<TargetInfo>,
    name: Seq<u8>,
    seeds: Seq<SeedView>,
) -> Seq<JobView> {
    Seq::new(
        seeds.len(),
        |j: int|
            JobView {
                profile_idx: profile_index_of(ps, name),
                target_idx: target_index_of(ts, seeds[j].target_name),
                seed: seeds[j],
            },
    )
}

/// The jobs of the first `upto` seed-map entries, in entry order.
pub open spec fn planned_jobs(
    entries: Seq<(Vec<u8>, Vec<Seed>)>,
    ps: Seq<ProfileInfo>,
    ts: Seq<TargetInfo>,
    upto: int,
) -> Seq<JobView>
    decreases upto,
{
    if upto <= 0 {
        Seq::empty()
    } else {
        planned_jobs(entries, ps, ts, upto - 1) + entry_jobs(
            ps,
            ts,
            entries[upto - 1].0@,
            seed_views(entries[upto - 1].1@),
        )
    }
}

/// Does every seed-map entry resolve: a known profile per entry and a known
/// target per seed?
pub open spec fn plan_resolves(
    entries: Seq<(Vec<u8>, Vec<Seed>)>,
    ps: Seq<ProfileInfo>,
    ts: Seq<TargetInfo>,
) -> bool {
    forall|k: int|
        0 <= k < entries.len() ==> {
            &&& profile_has(ps, (#[trigger] entries[k]).0@)
            &&& forall|j: int|
                0 <= j < entries[k].1@.len() ==> target_has(
                    ts,
                    (#[trigger] entries[k].1@[j])@.target_name,
                )
        }
}

/// Plan exactly one job per `(profile, seed)` pair of the seed map. A seed
/// map entry whose profile is unknown, or a seed whose target is unknown,
/// is an integrity error that aborts the run.
pub fn plan_jobs(
    profiles: &Vec<ProfileInfo>,
    targets: &Vec<TargetInfo>,
    seed_map: &SeedMap,
) -> (r: Result<Vec<Job>, PlanError>)
    requires
        profile_names_distinct(profiles@),
        target_names_distinct(targets@),
    ensures
        (r is Ok) <==> plan_resolves(seed_map.entries@, profiles@, targets@),
        r matches Ok(jobs) ==> job_views(jobs@) == planned_jobs(
            seed_map.entries@,
            profiles@,
            targets@,
            seed_map.entries@.len() as int,
        ),
        r matches Err(PlanError::ProfileNotFound(e)) ==> !profile_has(profiles@, e.profile_name@),
        r matches Err(PlanError::TargetNotFound(e)) ==> !target_has(targets@, e.target_name@),
{
    let ghost entries = seed_map.entries@;
    let mut jobs: Vec<Job> = Vec::new();
    let mut k: usize = 0;
    while k < seed_map.entries.len()
        invariant
            entries == seed_map.entries@,
            profile_names_distinct(profiles@),
            target_names_distinct(targets@),
            k <= entries.len(),
            job_views(jobs@) == planned_jobs(entries, profiles@, targets@, k as int),
            forall|k2: int|
                0 <= k2 < k ==> {
                    &&& profile_has(profiles@, (#[trigger] entries[k2]).0@)
                    &&& forall|j: int|
                        0 <= j < entries[k2].1@.len() ==> target_has(
                            targets@,
                            (#[trigger] entries[k2].1@[j])@.target_name,
                        )
                },
        decreases entries.len() - k,
    {
        let entry_name = &seed_map.entries[k].0;
        let mut pi: usize = 0;
        let mut found = false;
        while pi < profiles.len()
            invariant
                pi <= profiles@.len(),
                !found ==> forall|i: int|
                    0 <= i < pi ==> (#[trigger] profiles@[i]).name@ != entry_name@,
                found ==> pi < profiles@.len() && profiles@[pi as int].name@ == entry_name@,
            ensures
                found ==> pi < profiles@.len() && profiles@[pi as int].name@ == entry_name@,
                !found ==> forall|i: int|
                    0 <= i < profiles@.len() ==> (#[trigger] profiles@[i]).name@ != entry_name@,
            decreases profiles@.len() - pi + (if found {
                0int
            } else {
                1int
            }),
        {
            if crate::bytes::bytes_eq(&profiles[pi].name, entry_name) {
                found = true;
                break ;
            }
            pi += 1;
        }
        if !found {
            proof {
                assert(!profile_has(profiles@, entries[k as int].0@));
                assert(!plan_resolves(entries, profiles@, targets@)) by {
                    if plan_resolves(entries, profiles@, targets@) {
                        assert(profile_has(profiles@, (entries[k as int]).0@));
                    }
                }
            }
            let nm = crate::bytes::copy_bytes(entry_name);
            return Err(PlanError::ProfileNotFound(ProfileNotFoundError { profile_name: nm }));
        }
        proof {
            lemma_profile_index_unique(profiles@, entries[k as int].0@, pi as int);
        }
        let seeds_len = seed_map.entries[k].1.len();
        let mut j: usize = 0;
        while j < seeds_len
            invariant
                entries == seed_map.entries@,
                profile_names_distinct(profiles@),
                target_names_distinct(targets@),
                k < entries.len(),
                seeds_len == entries[k as int].1@.len(),
                pi < profiles@.len(),
                profiles@[pi as int].name@ == entries[k as int].0@,
                pi == profile_index_of(profiles@, entries[k as int].0@),
                j <= seeds_len,
                job_views(jobs@) == planned_jobs(entries, profiles@, targets@, k as int)
                    + entry_jobs(
                    profiles@,
                    targets@,
                    entries[k as int].0@,
                    seed_views(entries[k as int].1@),
                ).take(j as int),
                forall|j2: int|
                    0 <= j2 < j ==> target_has(
                        targets@,
                        (#[trigger] entries[k as int].1@[j2])@.target_name,
                    ),
            decreases seeds_len - j,
        {
            let seed_ref = &seed_map.entries[k].1[j];
            let mut ti: usize = 0;
            let mut tfound = false;
            while ti < targets.len()
                invariant
                    ti <= targets@.len(),
                    !tfound ==> forall|i: int|
                        0 <= i < ti ==> (#[trigger] targets@[i]).name@ != seed_ref.target_name@,
                    tfound ==> ti < targets@.len() && targets@[ti as int].name@
                        == seed_ref.target_name@,
                ensures
                    tfound ==> ti < targets@.len() && targets@[ti as int].name@
                        == seed_ref.target_name@,
                    !tfound ==> forall|i: int|
                        0 <= i < targets@.len() ==> (#[trigger] targets@[i]).name@
                            != seed_ref.target_name@,
                decreases targets@.len() - ti + (if tfound {
                    0int
                } else {
                    1int
                }),
            {
                if crate::bytes::bytes_eq(&targets[ti].name, &seed_ref.target_name) {
                    tfound = true;
                    break ;
                }
                ti += 1;
            }
            if !tfound {
                proof {
                    assert(seed_ref.target_name@ == (entries[k as int].1@[j as int])@.target_name);
                    assert(!target_has(targets@, (entries[k as int].1@[j as int])@.target_name));
                    assert(!plan_resolves(entries, profiles@, targets@)) by {
                        if plan_resolves(entries, profiles@, targets@) {
                            assert(profile_has(profiles@, (#[trigger] entries[k as int]).0@));
                            assert(target_has(
                                targets@,
                                (#[trigger] entries[k as int].1@[j as int])@.target_name,
                            ));
                        }
                    }
                }
                let nm = crate::bytes::copy_bytes(&seed_ref.target_name);
                return Err(PlanError::TargetNotFound(TargetNotFoundError { target_name: nm }));
            }
            proof {
                lemma_target_index_unique(targets@, seed_ref.target_name@, ti as int);
            }
            let seed_copy = Seed {
                target_name: crate::bytes::copy_bytes(&seed_ref.target_name),
                target_start: seed_ref.target_start,
                target_end: seed_ref.target_end,
                profile_start: seed_ref.profile_start,
                profile_end: seed_ref.profile_end,
            };
            let ghost old_jobs = job_views(jobs@);
            jobs.push(Job { profile_idx: pi, target_idx: ti, seed: seed_copy });
            proof {
                let ejobs = entry_jobs(
                    profiles@,
                    targets@,
                    entries[k as int].0@,
                    seed_views(entries[k as int].1@),
                );
                assert(job_views(jobs@) =~= old_jobs.push(ejobs[j as int]));
                assert(ejobs.take(j + 1) =~= ejobs.take(j as int).push(ejobs[j as int]));
                assert(job_views(jobs@) =~= planned_jobs(entries, profiles@, targets@, k as int)
                    + ejobs.take(j + 1));
            }
            j += 1;
        }
        proof {
            let ejobs = entry_jobs(
                profiles@,
                targets@,
                entries[k as int].0@,
                seed_views(entries[k as int].1@),
            );
            assert(ejobs.take(seeds_len as int) =~= ejobs);
            assert(planned_jobs(entries, profiles@, targets@, k + 1) == planned_jobs(
                entries,
                profiles@,
                targets@,
                k as int,
            ) + ejobs);
        }
        k += 1;
    }
    Ok(jobs)
}

/// The interchangeable work-partitioning policies.
#[derive(Clone, Copy, Debug, PartialEq, Eq, Structural)]
pub enum PartitionPolicy {
    /// A worker owns whole profiles: every job of one profile lands in the
    /// same bucket.
    WholeProfiles,
    /// The flattened job list is dealt round-robin across the buckets.
    FlattenRoundRobin,
}

/// The bucket a job at position `pos` goes to.
pub open spec fn assigned_bucket(j: JobView, pos: int, policy: PartitionPolicy, n: int) -> int {
    match policy {
        PartitionPolicy::WholeProfiles => j.profile_idx % n,
        PartitionPolicy::FlattenRoundRobin => pos % n,
    }
}

/// The contents of bucket `b` after dealing out the jobs.
pub open spec fn bucket_spec(
    jobs: Seq<JobView>,
    policy: PartitionPolicy,
    n: int,
    b: int,
) -> Seq<JobView>
    decreases jobs.len(),
{
    if jobs.len() == 0 {
        Seq::empty()
    } else {
        let prev = bucket_spec(jobs.drop_last(), policy, n, b);
        if assigned_bucket(jobs.last(), jobs.len() - 1, policy, n) == b {
            prev + seq![jobs.last()]
        } else {
            prev
        }
    }
}

/// Deal the jobs into `n_workers` buckets under the chosen policy. Each
/// job lands in exactly one bucket; under `WholeProfiles` all jobs of one
/// profile land in the same bucket, so per-job profile reconfiguration
/// stays confined to one worker.
pub fn partition_jobs(jobs: Vec<Job>, policy: PartitionPolicy, n_workers: usize) -> (buckets: Vec<
    Vec<Job>,
>)
    requires
        n_workers >= 1,
    ensures
        buckets@.len() == n_workers,
        forall|b: int|
            0 <= b < n_workers ==> job_views((#[trigger] buckets@[b])@) == bucket_spec(
                job_views(jobs@),
                policy,
                n_workers as int,
                b,
            ),
{
    let ghost all = job_views(jobs@);
    let mut buckets: Vec<Vec<Job>> = Vec::new();
    let mut b: usize = 0;
    while b < n_workers
        invariant
            b <= n_workers,
            buckets@.len() == b,
            forall|i: int| 0 <= i < b ==> (#[trigger] buckets@[i])@.len() == 0,
        decreases n_workers - b,
    {
        buckets.push(Vec::new());
        b += 1;
    }
    let n = jobs.len();
    let mut jobs = jobs;
    proof {
        assert(all.take(n as int) =~= all);
        assert forall|bi: int| 0 <= bi < n_workers implies job_views(
            (#[trigger] buckets@[bi])@,
        ) == tail_bucket(all, policy, n_workers as int, bi, n as int) by {
            assert(job_views(buckets@[bi]@) =~= Seq::<JobView>::empty());
        }
    }
    // deal from the back so each pop takes the last remaining job
    let mut pos = n;
    while pos > 0
        invariant
            n_workers >= 1,
            pos <= n,
            jobs@.len() == pos,
            job_views(jobs@) == all.take(pos as int),
            buckets@.len() == n_workers,
            all.len() == n,
            forall|bi: int|
                0 <= bi < n_workers ==> job_views((#[trigger] buckets@[bi])@) == tail_bucket(
                    all,
                    policy,
                    n_workers as int,
                    bi,
                    pos as int,
                ),
        decreases pos,
    {
        let ghost pre_views = job_views(jobs@);
        let job = jobs.pop().unwrap();
        pos = pos - 1;
        let ghost jview = job@;
        proof {
            assert(pre_views == all.take(pos + 1));
            assert(job_views(jobs@) =~= pre_views.drop_last());
            assert(all.take(pos + 1).drop_last() =~= all.take(pos as int));
            assert(jview == pre_views.last());
            assert(all.take(pos + 1).last() == all[pos as int]);
        }
        let target_bucket = match policy {
            PartitionPolicy::WholeProfiles => job.profile_idx % n_workers,
            PartitionPolicy::FlattenRoundRobin => pos % n_workers,
        };
        let ghost old_bs = buckets@;
        let mut lst = buckets.remove(target_bucket);
        let ghost old_lst_views = job_views(lst@);
        lst.insert(0, job);
        buckets.insert(target_bucket, lst);
        proof {
            let nw = n_workers as int;
            let tb = target_bucket as int;
            assert(jview == all[pos as int]);
            assert(assigned_bucket(all[pos as int], pos as int, policy, nw) == tb);
            assert forall|bi: int| 0 <= bi < nw implies job_views((#[trigger] buckets@[bi])@)
                == tail_bucket(all, policy, nw, bi, pos as int) by {
                lemma_tail_bucket_step(all, policy, nw, bi, pos as int);
                if bi == tb {
                    assert(buckets@[bi]@ =~= seq![job] + old_bs[bi]@);
                    assert(job_views(seq![job] + old_bs[bi]@) =~= seq![jview] + job_views(
                        old_bs[bi]@,
                    ));
                } else {
                    assert(buckets@[bi] == old_bs[bi]);
                }
            }
        }
    }
    proof {
        assert forall|bi: int| 0 <= bi < n_workers implies job_views(
            (#[trigger] buckets@[bi])@,
        ) == bucket_spec(all, policy, n_workers as int, bi) by {
            lemma_tail_bucket_full(all, policy, n_workers as int, bi);
        }
    }
    buckets
}

/// The suffix of bucket `b`: the jobs at positions `from..` that the policy
/// deals to `b`, in position order.
pub open spec fn tail_bucket(
    jobs: Seq<JobView>,
    policy: PartitionPolicy,
    n: int,
    b: int,
    from: int,
) -> Seq<JobView>
    decreases jobs.len() - from,
{
    if from < 0 || from >= jobs.len() {
        Seq::empty()
    } else {
        let rest = tail_bucket(jobs, policy, n, b, from + 1);
        if assigned_bucket(jobs[from], from, policy, n) == b {
            seq![jobs[from]] + rest
        } else {
            rest
        }
    }
}

proof fn lemma_tail_bucket_step(
    jobs: Seq<JobView>,
    policy: PartitionPolicy,
    n: int,
    b: int,
    from: int,
)
    requires
        0 <= from < jobs.len(),
    ensures
        tail_bucket(jobs, policy, n, b, from) == (if assigned_bucket(jobs[from], from, policy, n)
            == b {
            seq![jobs[from]] + tail_bucket(jobs, policy, n, b, from + 1)
        } else {
            tail_bucket(jobs, policy, n, b, from + 1)
        }),
{
}

/// Walking the whole list from position `0` deals exactly `bucket_spec`.
proof fn lemma_tail_bucket_full(jobs: Seq<JobView>, policy: PartitionPolicy, n: int, b: int)
    ensures
        tail_bucket(jobs, policy, n, b, 0) == bucket_spec(jobs, policy, n, b),
    decreases jobs.len(),
{
    lemma_tail_bucket_eq(jobs, policy, n, b, 0);
}

/// On a prefix-truncated view the two bucket readings agree.
proof fn lemma_tail_bucket_eq(jobs: Seq<JobView>, policy: PartitionPolicy, n: int, b: int, from: int)
    requires
        0 <= from <= jobs.len(),
    ensures
        bucket_spec(jobs, policy, n, b) == bucket_spec(jobs.take(from), policy, n, b)
            + tail_bucket(jobs, policy, n, b, from),
    decreases jobs.len() - from,
{
    if from == jobs.len() {
        assert(jobs.take(from) =~= jobs);
        assert(bucket_spec(jobs, policy, n, b) + Seq::<JobView>::empty() =~= bucket_spec(
            jobs,
            policy,
            n,
            b,
        ));
    } else {
        lemma_tail_bucket_eq(jobs, policy, n, b, from + 1);
        assert(jobs.take(from + 1).drop_last() =~= jobs.take(from));
        assert(jobs.take(from + 1).last() == jobs[from]);
        assert(bucket_spec(jobs.take(from + 1), policy, n, b) == (if assigned_bucket(
            jobs[from],
            from,
            policy,
            n,
        ) == b {
            bucket_spec(jobs.take(from), policy, n, b) + seq![jobs[from]]
        } else {
            bucket_spec(jobs.take(from), policy, n, b)
        }));
        if assigned_bucket(jobs[from], from, policy, n) == b {
            assert((bucket_spec(jobs.take(from), policy, n, b) + seq![jobs[from]]) + tail_bucket(
                jobs,
                policy,
                n,
                b,
                from + 1,
            ) =~= bucket_spec(jobs.take(from), policy, n, b) + (seq![jobs[from]] + tail_bucket(
                jobs,
                policy,
                n,
                b,
                from + 1,
            )));
        }
    }
}

/// The sizes the reusable per-worker buffers must accommodate: one linear
/// cloud-search matrix, two cloud-bound groups and four row-bounded
/// matrices. The compute collaborator owns the storage; this records, per
/// worker, the largest job seen so far, so buffers grow to fit it and are
/// never shrunk.
#[derive(Clone, Copy, Debug, PartialEq, Eq, Structural)]
pub struct ScratchState {
    pub cloud_matrix_cols: usize,
    pub forward_bounds_rows: usize,
    pub forward_bounds_cols: usize,
    pub backward_bounds_rows: usize,
    pub backward_bounds_cols: usize,
    pub forward_matrix_rows: usize,
    pub forward_matrix_cols: usize,
    pub backward_matrix_rows: usize,
    pub backward_matrix_cols: usize,
    pub posterior_matrix_rows: usize,
    pub posterior_matrix_cols: usize,
    pub optimal_matrix_rows: usize,
    pub optimal_matrix_cols: usize,
}

impl ScratchState {
    /// Can the buffers hold a job of these dimensions?
    pub open spec fn covers(&self, target_len: int, profile_len: int) -> bool {
        &&& self.cloud_matrix_cols >= profile_len
        &&& self.forward_bounds_rows >= target_len && self.forward_bounds_cols >= profile_len
        &&& self.backward_bounds_rows >= target_len && self.backward_bounds_cols >= profile_len
        &&& self.forward_matrix_rows >= target_len && self.forward_matrix_cols >= profile_len
        &&& self.backward_matrix_rows >= target_len && self.backward_matrix_cols >= profile_len
        &&& self.posterior_matrix_rows >= target_len && self.posterior_matrix_cols >= profile_len
        &&& self.optimal_matrix_rows >= target_len && self.optimal_matrix_cols >= profile_len
    }

    /// Componentwise: no buffer of `self` is smaller than in `other`.
    pub open spec fn geq(&self, other: &ScratchState) -> bool {
        &&& self.cloud_matrix_cols >= other.cloud_matrix_cols
        &&& self.forward_bounds_rows >= other.forward_bounds_rows
        &&& self.forward_bounds_cols >= other.forward_bounds_cols
        &&& self.backward_bounds_rows >= other.backward_bounds_rows
        &&& self.backward_bounds_cols >= other.backward_bounds_cols
        &&& self.forward_matrix_rows >= other.forward_matrix_rows
        &&& self.forward_matrix_cols >= other.forward_matrix_cols
        &&& self.backward_matrix_rows >= other.backward_matrix_rows
        &&& self.backward_matrix_cols >= other.backward_matrix_cols
        &&& self.posterior_matrix_rows >= other.posterior_matrix_rows
        &&& self.posterior_matrix_cols >= other.posterior_matrix_cols
        &&& self.optimal_matrix_rows >= other.optimal_matrix_rows
        &&& self.optimal_matrix_cols >= other.optimal_matrix_cols
    }

    /// The state after growing to fit a job of these dimensions.
    pub open spec fn grown(&self, target_len: int, profile_len: int) -> ScratchState {
        ScratchState {
            cloud_matrix_cols: spec_max_usize(self.cloud_matrix_cols as int, profile_len),
            forward_bounds_rows: spec_max_usize(self.forward_bounds_rows as int, target_len),
            forward_bounds_cols: spec_max_usize(self.forward_bounds_cols as int, profile_len),
            backward_bounds_rows: spec_max_usize(self.backward_bounds_rows as int, target_len),
            backward_bounds_cols: spec_max_usize(self.backward_bounds_cols as int, profile_len),
            forward_matrix_rows: spec_max_usize(self.forward_matrix_rows as int, target_len),
            forward_matrix_cols: spec_max_usize(self.forward_matrix_cols as int, profile_len),
            backward_matrix_rows: spec_max_usize(self.backward_matrix_rows as int, target_len),
            backward_matrix_cols: spec_max_usize(self.backward_matrix_cols as int, profile_len),
            posterior_matrix_rows: spec_max_usize(self.posterior_matrix_rows as int, target_len),
            posterior_matrix_cols: spec_max_usize(self.posterior_matrix_cols as int, profile_len),
            optimal_matrix_rows: spec_max_usize(self.optimal_matrix_rows as int, target_len),
            optimal_matrix_cols: spec_max_usize(self.optimal_matrix_cols as int, profile_len),
        }
    }

    /// The spec-level value of [`ScratchState::new`]: nothing allocated.
    pub open spec fn new_spec() -> ScratchState {
        ScratchState {
            cloud_matrix_cols: 0usize,
            forward_bounds_rows: 0usize,
            forward_bounds_cols: 0usize,
            backward_bounds_rows: 0usize,
            backward_bounds_cols: 0usize,
            forward_matrix_rows: 0usize,
            forward_matrix_cols: 0usize,
            backward_matrix_rows: 0usize,
            backward_matrix_cols: 0usize,
            posterior_matrix_rows: 0usize,
            posterior_matrix_cols: 0usize,
            optimal_matrix_rows: 0usize,
            optimal_matrix_cols: 0usize,
        }
    }

    /// Fresh scratch: nothing allocated yet.
    pub fn new() -> (r: ScratchState)
        ensures
            r == ScratchState::new_spec(),
    {
        ScratchState {
            cloud_matrix_cols: 0,
            forward_bounds_rows: 0,
            forward_bounds_cols: 0,
            backward_bounds_rows: 0,
            backward_bounds_cols: 0,
            forward_matrix_rows: 0,
            forward_matrix_cols: 0,
            backward_matrix_rows: 0,
            backward_matrix_cols: 0,
            posterior_matrix_rows: 0,
            posterior_matrix_cols: 0,
            optimal_matrix_rows: 0,
            optimal_matrix_cols: 0,
        }
    }

    /// Grow (never shrink) to fit a job of `(target_len, profile_len)`.
    pub fn grow(&mut self, target_len: usize, profile_len: usize)
        ensures
            *final(self) == old(self).grown(target_len as int, profile_len as int),
            final(self).covers(target_len as int, profile_len as int),
            final(self).geq(old(self)),
    {
        self.cloud_matrix_cols = max_usize(self.cloud_matrix_cols, profile_len);
        self.forward_bounds_rows = max_usize(self.forward_bounds_rows, target_len);
        self.forward_bounds_cols = max_usize(self.forward_bounds_cols, profile_len);
        self.backward_bounds_rows = max_usize(self.backward_bounds_rows, target_len);
        self.backward_bounds_cols = max_usize(self.backward_bounds_cols, profile_len);
        self.forward_matrix_rows = max_usize(self.forward_matrix_rows, target_len);
        self.forward_matrix_cols = max_usize(self.forward_matrix_cols, profile_len);
        self.backward_matrix_rows = max_usize(self.backward_matrix_rows, target_len);
        self.backward_matrix_cols = max_usize(self.backward_matrix_cols, profile_len);
        self.posterior_matrix_rows = max_usize(self.posterior_matrix_rows, target_len);
        self.posterior_matrix_cols = max_usize(self.posterior_matrix_cols, profile_len);
        self.optimal_matrix_rows = max_usize(self.optimal_matrix_rows, target_len);
        self.optimal_matrix_cols = max_usize(self.optimal_matrix_cols, profile_len);
    }
}

/// The larger of two sizes.
pub fn max_usize(a: usize, b: usize) -> (r: usize)
    ensures
        r == spec_max_usize(a as int, b as int),
{
    if a >= b {
        a
    } else {
        b
    }
}

/// Scratch growth is monotone across a whole job stream: each `grow` call
/// leaves no buffer smaller (its contract), and the ordering carries over
/// any sequence of jobs by transitivity.
pub proof fn lemma_scratch_geq_transitive(a: ScratchState, b: ScratchState, c: ScratchState)
    requires
        b.geq(&a),
        c.geq(&b),
    ensures
        c.geq(&a),
{
}

pub open spec fn spec_max_usize(a: int, b: int) -> usize {
    if a >= b {
        a as usize
    } else {
        b as usize
    }
}

/// What the compute collaborator reports for one job. A bound failure is
/// recoverable: the job is skipped and the run continues. Scores and
/// e-values are carried as IEEE 754 bit patterns of nonnegative 64-bit
/// binary values, whose unsigned order is their numeric order.
#[derive(Clone, Copy, Debug, PartialEq, Eq, Structural)]
pub enum JobOutcome {
    /// Joining the forward and backward cloud bounds gave an invalid set.
    InvalidCloudBounds,
    /// Deriving per-row bounds from the joined cloud gave an invalid set.
    InvalidRowBounds,
    /// The bounded passes completed with a scored alignment span.
    Scored {
        target_start: usize,
        target_end: usize,
        profile_start: usize,
        profile_end: usize,
        score_bits: u64,
        evalue_bits: u64,
    },
}

/// One filtered result: the identifiers, the aligned span, and the scores
/// as bit patterns.
pub struct AlignmentRecord {
    pub profile_name: Vec<u8>,
    pub target_name: Vec<u8>,
    pub target_start: usize,
    pub target_end: usize,
    pub profile_start: usize,
    pub profile_end: usize,
    pub score_bits: u64,
    pub evalue_bits: u64,
}

pub ghost struct RecordView {
    pub profile_name: Seq<u8>,
    pub target_name: Seq<u8>,
    pub target_start: int,
    pub target_end: int,
    pub profile_start: int,
    pub profile_end: int,
    pub score_bits: u64,
    pub evalue_bits: u64,
}

impl View for AlignmentRecord {
    type V = RecordView;

    open spec fn view(&self) -> RecordView {
        RecordView {
            profile_name: self.profile_name@,
            target_name: self.target_name@,
            target_start: self.target_start as int,
            target_end: self.target_end as int,
            profile_start: self.profile_start as int,
            profile_end: self.profile_end as int,
            score_bits: self.score_bits,
            evalue_bits: self.evalue_bits,
        }
    }
}

pub open spec fn record_views(s: Seq<AlignmentRecord>) -> Seq<RecordView> {
    s.map_values(|x: AlignmentRecord| x@)
}

/// The record one outcome yields, if its e-value passes the cutoff:
/// `None` for a skipped or filtered-out job.
pub open spec fn outcome_record(
    profile_name: Seq<u8>,
    target_name: Seq<u8>,
    outcome: JobOutcome,
    cutoff_bits: u64,
) -> Option<RecordView> {
    match outcome {
        JobOutcome::Scored {
            target_start,
            target_end,
            profile_start,
            profile_end,
            score_bits,
            evalue_bits,
        } => {
            if evalue_bits <= cutoff_bits {
                Some(
                    RecordView {
                        profile_name: profile_name,
                        target_name: target_name,
                        target_start: target_start as int,
                        target_end: target_end as int,
                        profile_start: profile_start as int,
                        profile_end: profile_end as int,
                        score_bits: score_bits,
                        evalue_bits: evalue_bits,
                    },
                )
            } else {
                None
            }
        },
        _ => None,
    }
}

/// One worker of the pool: its reusable scratch, its private output, and
/// the run's e-value cutoff. Never shared across concurrent jobs.
pub struct Worker {
    pub scratch: ScratchState,
    pub records: Vec<AlignmentRecord>,
    pub skipped_jobs: usize,
    pub evalue_cutoff_bits: u64,
}

impl Worker {
    pub fn new(evalue_cutoff_bits: u64) -> (r: Worker)
        ensures
            r.scratch == ScratchState::new_spec(),
            r.records@.len() == 0,
            r.skipped_jobs == 0,
            r.evalue_cutoff_bits == evalue_cutoff_bits,
    {
        Worker {
            scratch: ScratchState::new(),
            records: Vec::new(),
            skipped_jobs: 0,
            evalue_cutoff_bits,
        }
    }

    /// Account one job: grow the scratch to the job's dimensions, then
    /// either record the skip (invalid bounds are recoverable) or append
    /// the scored record exactly when its e-value does not exceed the
    /// cutoff.
    pub fn process_job(
        &mut self,
        profile_name: &Vec<u8>,
        target_name: &Vec<u8>,
        profile_len: usize,
        target_len: usize,
        outcome: JobOutcome,
    )
        requires
            old(self).skipped_jobs < usize::MAX,
        ensures
            final(self).evalue_cutoff_bits == old(self).evalue_cutoff_bits,
            final(self).scratch == old(self).scratch.grown(target_len as int, profile_len as int),
            final(self).scratch.geq(&old(self).scratch),
            record_views(final(self).records@) == record_views(old(self).records@) + match
                outcome_record(
                profile_name@,
                target_name@,
                outcome,
                old(self).evalue_cutoff_bits,
            ) {
                Some(rv) => seq![rv],
                None => Seq::<RecordView>::empty(),
            },
            final(self).skipped_jobs == old(self).skipped_jobs + match outcome {
                JobOutcome::InvalidCloudBounds | JobOutcome::InvalidRowBounds => 1int,
                _ => 0int,
            },
    {
        self.scratch.grow(target_len, profile_len);
        let ghost old_records = record_views(self.records@);
        match outcome {
            JobOutcome::InvalidCloudBounds | JobOutcome::InvalidRowBounds => {
                self.skipped_jobs = self.skipped_jobs + 1;
                proof {
                    assert(record_views(self.records@) =~= old_records
                        + Seq::<RecordView>::empty());
                }
            },
            JobOutcome::Scored {
                target_start,
                target_end,
                profile_start,
                profile_end,
                score_bits,
                evalue_bits,
            } => {
                if evalue_bits <= self.evalue_cutoff_bits {
                    let rec = AlignmentRecord {
                        profile_name: crate::bytes::copy_bytes(profile_name),
                        target_name: crate::bytes::copy_bytes(target_name),
                        target_start,
                        target_end,
                        profile_start,
                        profile_end,
                        score_bits,
                        evalue_bits,
                    };
                    let ghost rv = rec@;
                    self.records.push(rec);
                    proof {
                        assert(record_views(self.records@) =~= old_records.push(rv));
                        assert(old_records.push(rv) =~= old_records + seq![rv]);
                    }
                } else {
                    proof {
                        assert(record_views(self.records@) =~= old_records
                            + Seq::<RecordView>::empty());
                    }
                }
            },
        }
    }
}

/// How many of the outcomes are recoverable bound failures.
pub open spec fn skipped_count(outcomes: Seq<JobOutcome>) -> int
    decreases outcomes.len(),
{
    if outcomes.len() == 0 {
        0
    } else {
        skipped_count(outcomes.drop_last()) + match outcomes.last() {
            JobOutcome::InvalidCloudBounds | JobOutcome::InvalidRowBounds => 1int,
            _ => 0int,
        }
    }
}

pub proof fn lemma_skipped_count_bound(outcomes: Seq<JobOutcome>)
    ensures
        0 <= skipped_count(outcomes) <= outcomes.len(),
    decreases outcomes.len(),
{
    if outcomes.len() > 0 {
        lemma_skipped_count_bound(outcomes.drop_last());
    }
}

/// The record stream one worker emits for a bucket, given the
/// collaborator's outcome per job, position by position.
pub open spec fn emitted_records(
    profiles: Seq<ProfileInfo>,
    targets: Seq<TargetInfo>,
    jobs: Seq<Job>,
    outcomes: Seq<JobOutcome>,
    cutoff_bits: u64,
) -> Seq<RecordView>
    decreases jobs.len(),
{
    if jobs.len() == 0 || jobs.len() != outcomes.len() {
        Seq::empty()
    } else {
        emitted_records(
            profiles,
            targets,
            jobs.drop_last(),
            outcomes.drop_last(),
            cutoff_bits,
        ) + match outcome_record(
            profiles[jobs.last().profile_idx as int].name@,
            targets[jobs.last().target_idx as int].name@,
            outcomes.last(),
            cutoff_bits,
        ) {
            Some(rv) => seq![rv],
            None => Seq::<RecordView>::empty(),
        }
    }
}

/// The per-worker loop of the scheduler: account the bucket's jobs in
/// order, one collaborator outcome per job. With a single bucket this is
/// the serial scheduler. The worker's scratch only ever grows, and the
/// appended records are exactly the outcomes that scored within the
/// cutoff.
pub fn run_bucket(
    worker: &mut Worker,
    profiles: &Vec<ProfileInfo>,
    targets: &Vec<TargetInfo>,
    bucket: &Vec<Job>,
    outcomes: &Vec<JobOutcome>,
)
    requires
        bucket@.len() == outcomes@.len(),
        forall|i: int|
            0 <= i < bucket@.len() ==> (#[trigger] bucket@[i]).profile_idx < profiles@.len()
                && bucket@[i].target_idx < targets@.len(),
        old(worker).skipped_jobs + bucket@.len() <= usize::MAX,
    ensures
        final(worker).evalue_cutoff_bits == old(worker).evalue_cutoff_bits,
        record_views(final(worker).records@) == record_views(old(worker).records@)
            + emitted_records(
            profiles@,
            targets@,
            bucket@,
            outcomes@,
            old(worker).evalue_cutoff_bits,
        ),
        final(worker).skipped_jobs == old(worker).skipped_jobs + skipped_count(outcomes@),
        final(worker).scratch.geq(&old(worker).scratch),
{
    let ghost base_records = record_views(worker.records@);
    let ghost base_skipped = worker.skipped_jobs as int;
    let ghost base_scratch = worker.scratch;
    let ghost cutoff = worker.evalue_cutoff_bits;
    let mut i: usize = 0;
    proof {
        assert(bucket@.take(0) =~= Seq::<Job>::empty());
        assert(outcomes@.take(0) =~= Seq::<JobOutcome>::empty());
        assert(base_records + Seq::<RecordView>::empty() =~= base_records);
    }
    while i < bucket.len()
        invariant
            i <= bucket@.len(),
            bucket@.len() == outcomes@.len(),
            forall|j: int|
                0 <= j < bucket@.len() ==> (#[trigger] bucket@[j]).profile_idx < profiles@.len()
                    && bucket@[j].target_idx < targets@.len(),
            base_skipped + bucket@.len() <= usize::MAX,
            worker.evalue_cutoff_bits == cutoff,
            record_views(worker.records@) == base_records + emitted_records(
                profiles@,
                targets@,
                bucket@.take(i as int),
                outcomes@.take(i as int),
                cutoff,
            ),
            worker.skipped_jobs == base_skipped + skipped_count(outcomes@.take(i as int)),
            worker.scratch.geq(&base_scratch),
        decreases bucket@.len() - i,
    {
        proof {
            lemma_skipped_count_bound(outcomes@.take(i as int));
        }
        let job = &bucket[i];
        let profile = &profiles[job.profile_idx];
        let target = &targets[job.target_idx];
        let ghost pre_scratch = worker.scratch;
        worker.process_job(&profile.name, &target.name, profile.length, target.length, outcomes[i]);
        proof {
            lemma_scratch_geq_transitive(base_scratch, pre_scratch, worker.scratch);
            assert(bucket@.take(i + 1).drop_last() =~= bucket@.take(i as int));
            assert(outcomes@.take(i + 1).drop_last() =~= outcomes@.take(i as int));
            assert(bucket@.take(i + 1).last() == bucket@[i as int]);
            assert(outcomes@.take(i + 1).last() == outcomes@[i as int]);
            assert(record_views(worker.records@) =~= base_records + emitted_records(
                profiles@,
                targets@,
                bucket@.take(i + 1),
                outcomes@.take(i + 1),
                cutoff,
            ));
        }
        i += 1;
    }
    proof {
        assert(bucket@.take(bucket@.len() as int) =~= bucket@);
        assert(outcomes@.take(outcomes@.len() as int) =~= outcomes@);
    }
}

/// Concatenate the workers' private outputs into one record stream.
/// Within one worker's output, order is preserved; across workers no order
/// is promised, only the content.
pub fn merge_outputs(outputs: Vec<Vec<AlignmentRecord>>) -> (merged: Vec<AlignmentRecord>)
    ensures
        record_views(merged@) == outputs@.map_values(
            |v: Vec<AlignmentRecord>| record_views(v@),
        ).flatten(),
{
    let ghost target = outputs@.map_values(|v: Vec<AlignmentRecord>| record_views(v@)).flatten();
    let mut merged: Vec<AlignmentRecord> = Vec::new();
    let mut outputs = outputs;
    let n = outputs.len();
    let mut i: usize = 0;
    proof {
        assert(outputs@.map_values(|v: Vec<AlignmentRecord>| record_views(v@)).take(0)
            =~= Seq::<Seq<RecordView>>::empty());
        lemma_flatten_empty::<RecordView>();
        assert(record_views(merged@) =~= Seq::<RecordView>::empty());
    }
    while i < n
        invariant
            i <= n,
            n == outputs@.len(),
            target == outputs@.map_values(|v: Vec<AlignmentRecord>| record_views(v@)).flatten(),
            record_views(merged@) == outputs@.map_values(
                |v: Vec<AlignmentRecord>| record_views(v@),
            ).take(i as int).flatten(),
        decreases n - i,
    {
        let ghost seqs = outputs@.map_values(|v: Vec<AlignmentRecord>| record_views(v@));
        let ghost pre = record_views(merged@);
        let m = outputs[i].len();
        let mut j: usize = 0;
        while j < m
            invariant
                i < n,
                n == outputs@.len(),
                j <= m,
                m == outputs@[i as int]@.len(),
                seqs == outputs@.map_values(|v: Vec<AlignmentRecord>| record_views(v@)),
                pre == seqs.take(i as int).flatten(),
                record_views(merged@) == pre + record_views(outputs@[i as int]@).take(j as int),
            decreases m - j,
        {
            let ghost before = record_views(merged@);
            let rec = AlignmentRecord {
                profile_name: crate::bytes::copy_bytes(&outputs[i][j].profile_name),
                target_name: crate::bytes::copy_bytes(&outputs[i][j].target_name),
                target_start: outputs[i][j].target_start,
                target_end: outputs[i][j].target_end,
                profile_start: outputs[i][j].profile_start,
                profile_end: outputs[i][j].profile_end,
                score_bits: outputs[i][j].score_bits,
                evalue_bits: outputs[i][j].evalue_bits,
            };
            proof {
                assert(rec@ == outputs@[i as int]@[j as int]@);
            }
            merged.push(rec);
            proof {
                assert(record_views(merged@) =~= before.push(outputs@[i as int]@[j as int]@));
                assert(record_views(outputs@[i as int]@).take(j + 1) =~= record_views(
                    outputs@[i as int]@,
                ).take(j as int).push(outputs@[i as int]@[j as int]@));
                assert(record_views(merged@) =~= pre + record_views(outputs@[i as int]@).take(
                    j + 1,
                ));
            }
            j += 1;
        }
        proof {
            assert(record_views(outputs@[i as int]@).take(m as int) =~= record_views(
                outputs@[i as int]@,
            ));
            assert(seqs[i as int] == record_views(outputs@[i as int]@));
            lemma_flatten_take_succ(seqs, i as int);
            assert(record_views(merged@) =~= seqs.take(i + 1).flatten());
        }
        i += 1;
    }
    proof {
        assert(outputs@.map_values(|v: Vec<AlignmentRecord>| record_views(v@)).take(n as int)
            =~= outputs@.map_values(|v: Vec<AlignmentRecord>| record_views(v@)));
    }
    merged
}

proof fn lemma_flatten_empty<A>()
    ensures
        Seq::<Seq<A>>::empty().flatten() == Seq::<A>::empty(),
{
    assert(Seq::<Seq<A>>::empty().flatten() =~= Seq::<A>::empty());
}

/// Flattening one more inner sequence appends it.
proof fn lemma_flatten_take_succ<A>(seqs: Seq<Seq<A>>, i: int)
    requires
        0 <= i < seqs.len(),
    ensures
        seqs.take(i + 1).flatten() == seqs.take(i).flatten() + seqs[i],
    decreases i,
{
    if i == 0 {
        let t1 = seqs.take(1);
        assert(t1.len() == 1);
        assert(t1.first() == seqs[0]);
        assert(t1.drop_first() =~= Seq::<Seq<A>>::empty());
        assert(t1.flatten() == t1.first() + t1.drop_first().flatten());
        assert(Seq::<Seq<A>>::empty().flatten() == Seq::<A>::empty());
        assert(seqs.take(0) =~= Seq::<Seq<A>>::empty());
        assert(t1.flatten() =~= seqs.take(0).flatten() + seqs[0]);
    } else {
        lemma_flatten_take_succ(seqs.drop_first(), i - 1);
        assert(seqs.take(i + 1).drop_first() =~= seqs.drop_first().take(i));
        assert(seqs.take(i).drop_first() =~= seqs.drop_first().take(i - 1));
        assert(seqs.take(i + 1).flatten() == seqs.take(i + 1).first()
            + seqs.take(i + 1).drop_first().flatten());
        assert(seqs.take(i).flatten() == seqs.take(i).first() + seqs.take(
            i,
        ).drop_first().flatten());
        assert(seqs.take(i + 1).first() == seqs[0]);
        assert(seqs.take(i).first() == seqs[0]);
        assert(seqs.drop_first()[i - 1] == seqs[i]);
        assert(seqs[0] + (seqs.drop_first().take(i - 1).flatten() + seqs[i]) =~= (seqs[0]
            + seqs.drop_first().take(i - 1).flatten()) + seqs[i]);
    }
}

} // verus!
