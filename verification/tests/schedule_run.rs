use mmoreseqs::schedule::{
    merge_outputs, partition_jobs, plan_jobs, run_bucket, AlignmentRecord, Job, JobOutcome,
    PartitionPolicy, PlanError, ProfileInfo, ScratchState, TargetInfo, Worker,
};
use mmoreseqs::seeds::{Seed, SeedMap};

fn seed(target: &[u8], ts: usize, te: usize, ps: usize, pe: usize) -> Seed {
    Seed {
        target_name: target.to_vec(),
        target_start: ts,
        target_end: te,
        profile_start: ps,
        profile_end: pe,
    }
}

fn profiles() -> Vec<ProfileInfo> {
    vec![
        ProfileInfo { accession: b"A1".to_vec(), name: b"p1".to_vec(), length: 40 },
        ProfileInfo { accession: b"A2".to_vec(), name: b"p2".to_vec(), length: 60 },
    ]
}

fn targets() -> Vec<TargetInfo> {
    vec![
        TargetInfo { name: b"t1".to_vec(), length: 100 },
        TargetInfo { name: b"t2".to_vec(), length: 250 },
    ]
}

fn seed_map() -> SeedMap {
    let mut sm = SeedMap::new();
    sm.insert_seed(b"p1".to_vec(), seed(b"t1", 1, 50, 1, 30));
    sm.insert_seed(b"p1".to_vec(), seed(b"t2", 10, 200, 5, 35));
    sm.insert_seed(b"p2".to_vec(), seed(b"t2", 20, 220, 2, 58));
    sm
}

#[test]
fn plan_makes_one_job_per_profile_seed_pair() {
    let jobs = plan_jobs(&profiles(), &targets(), &seed_map()).unwrap();
    assert_eq!(jobs.len(), 3);
    assert_eq!(jobs[0].profile_idx, 0);
    assert_eq!(jobs[0].target_idx, 0);
    assert_eq!(jobs[0].seed.target_start, 1);
    assert_eq!(jobs[1].profile_idx, 0);
    assert_eq!(jobs[1].target_idx, 1);
    assert_eq!(jobs[2].profile_idx, 1);
    assert_eq!(jobs[2].target_idx, 1);
}

#[test]
fn plan_aborts_on_a_missing_target() {
    let mut sm = seed_map();
    sm.insert_seed(b"p2".to_vec(), seed(b"ghost", 1, 2, 1, 2));
    match plan_jobs(&profiles(), &targets(), &sm) {
        Err(PlanError::TargetNotFound(e)) => assert_eq!(e.target_name, b"ghost".to_vec()),
        other => panic!("expected a missing-target error, got {:?}", other),
    }
}

#[test]
fn plan_aborts_on_a_missing_profile() {
    let mut sm = SeedMap::new();
    sm.insert_seed(b"unknown".to_vec(), seed(b"t1", 1, 2, 1, 2));
    match plan_jobs(&profiles(), &targets(), &sm) {
        Err(PlanError::ProfileNotFound(e)) => assert_eq!(e.profile_name, b"unknown".to_vec()),
        other => panic!("expected a missing-profile error, got {:?}", other),
    }
}

#[test]
fn whole_profile_policy_confines_each_profile_to_one_bucket() {
    let jobs = plan_jobs(&profiles(), &targets(), &seed_map()).unwrap();
    let buckets = partition_jobs(jobs, PartitionPolicy::WholeProfiles, 3);
    assert_eq!(buckets.len(), 3);
    for b in &buckets {
        let mut pids: Vec<usize> = b.iter().map(|j| j.profile_idx).collect();
        pids.dedup();
        assert!(pids.len() <= 1, "bucket mixes profiles: {:?}", pids);
    }
}

fn job_key(j: &Job) -> (usize, usize, usize, usize, usize, usize) {
    (
        j.profile_idx,
        j.target_idx,
        j.seed.target_start,
        j.seed.target_end,
        j.seed.profile_start,
        j.seed.profile_end,
    )
}

#[test]
fn both_policies_deal_every_job_exactly_once() {
    for policy in [PartitionPolicy::WholeProfiles, PartitionPolicy::FlattenRoundRobin] {
        let jobs = plan_jobs(&profiles(), &targets(), &seed_map()).unwrap();
        let mut all: Vec<_> = jobs.iter().map(job_key).collect();
        all.sort();
        let buckets = partition_jobs(jobs, policy, 2);
        let mut dealt: Vec<_> = buckets.iter().flatten().map(job_key).collect();
        dealt.sort();
        assert_eq!(all, dealt);
    }
}

#[test]
fn scratch_growth_is_monotone_across_a_job_stream() {
    let mut scratch = ScratchState::new();
    let jobs = [(100usize, 40usize), (50, 60), (250, 10), (10, 10)];
    let mut prev = scratch;
    for (t, p) in jobs {
        scratch.grow(t, p);
        // grows to fit the job...
        assert!(scratch.cloud_matrix_cols >= p);
        assert!(scratch.forward_matrix_rows >= t && scratch.forward_matrix_cols >= p);
        assert!(scratch.posterior_matrix_rows >= t && scratch.optimal_matrix_rows >= t);
        // ...and never shrinks
        assert!(scratch.cloud_matrix_cols >= prev.cloud_matrix_cols);
        assert!(scratch.forward_bounds_rows >= prev.forward_bounds_rows);
        assert!(scratch.forward_bounds_cols >= prev.forward_bounds_cols);
        assert!(scratch.backward_bounds_rows >= prev.backward_bounds_rows);
        assert!(scratch.forward_matrix_rows >= prev.forward_matrix_rows);
        assert!(scratch.backward_matrix_cols >= prev.backward_matrix_cols);
        assert!(scratch.posterior_matrix_cols >= prev.posterior_matrix_cols);
        assert!(scratch.optimal_matrix_rows >= prev.optimal_matrix_rows);
        prev = scratch;
    }
    // after the stream, the largest job seen is still covered
    assert_eq!(scratch.forward_matrix_rows, 250);
    assert_eq!(scratch.forward_matrix_cols, 60);
}

fn scored(evalue: f64) -> JobOutcome {
    JobOutcome::Scored {
        target_start: 3,
        target_end: 40,
        profile_start: 2,
        profile_end: 30,
        score_bits: (17.5f64).to_bits(),
        evalue_bits: evalue.to_bits(),
    }
}

#[test]
fn worker_keeps_only_records_within_the_cutoff() {
    let cutoff = (1e-3f64).to_bits();
    let mut w = Worker::new(cutoff);
    let p = b"p1".to_vec();
    let t = b"t1".to_vec();
    // below the cutoff: kept
    w.process_job(&p, &t, 40, 100, scored(1e-5));
    // above the cutoff: discarded
    w.process_job(&p, &t, 40, 100, scored(0.5));
    // exactly at the cutoff: kept
    w.process_job(&p, &t, 40, 100, scored(1e-3));
    assert_eq!(w.records.len(), 2);
    assert_eq!(w.records[0].evalue_bits, (1e-5f64).to_bits());
    assert_eq!(w.records[1].evalue_bits, (1e-3f64).to_bits());
    assert_eq!(w.records[0].profile_name, b"p1".to_vec());
    assert_eq!(w.records[0].target_start, 3);
    assert_eq!(w.skipped_jobs, 0);
}

#[test]
fn worker_skips_invalid_bounds_and_continues() {
    let mut w = Worker::new((10.0f64).to_bits());
    let p = b"p1".to_vec();
    let t = b"t1".to_vec();
    w.process_job(&p, &t, 40, 100, JobOutcome::InvalidCloudBounds);
    w.process_job(&p, &t, 40, 100, JobOutcome::InvalidRowBounds);
    w.process_job(&p, &t, 40, 100, scored(1.0));
    assert_eq!(w.skipped_jobs, 2);
    assert_eq!(w.records.len(), 1);
    // the skipped jobs still sized the scratch
    assert!(w.scratch.forward_matrix_rows >= 100);
}

/// A deterministic collaborator for the equivalence test: the outcome is a
/// function of the job alone.
fn outcome_for(j: &Job) -> JobOutcome {
    if j.seed.profile_start % 3 == 0 {
        JobOutcome::InvalidRowBounds
    } else {
        JobOutcome::Scored {
            target_start: j.seed.target_start,
            target_end: j.seed.target_end,
            profile_start: j.seed.profile_start,
            profile_end: j.seed.profile_end,
            score_bits: ((j.seed.profile_end as f64) / 2.0).to_bits(),
            evalue_bits: ((j.seed.target_start as f64) * 1e-4).to_bits(),
        }
    }
}

fn big_seed_map() -> SeedMap {
    let mut sm = SeedMap::new();
    for i in 0..7usize {
        sm.insert_seed(b"p1".to_vec(), seed(b"t1", i + 1, i + 50, i, i + 20));
        sm.insert_seed(b"p2".to_vec(), seed(b"t2", 2 * i + 1, 2 * i + 60, i + 1, i + 30));
    }
    sm
}

fn run_with_workers(n: usize, policy: PartitionPolicy) -> Vec<AlignmentRecord> {
    let cutoff = (1e-2f64).to_bits();
    let ps = profiles();
    let ts = targets();
    let jobs = plan_jobs(&ps, &ts, &big_seed_map()).unwrap();
    let buckets = partition_jobs(jobs, policy, n);
    let mut outputs = Vec::new();
    for bucket in buckets {
        let mut w = Worker::new(cutoff);
        for job in &bucket {
            let outcome = outcome_for(job);
            w.process_job(
                &ps[job.profile_idx].name,
                &ts[job.target_idx].name,
                ps[job.profile_idx].length,
                ts[job.target_idx].length,
                outcome,
            );
        }
        outputs.push(w.records);
    }
    merge_outputs(outputs)
}

fn record_key(r: &AlignmentRecord) -> (Vec<u8>, Vec<u8>, usize, usize, usize, usize, u64, u64) {
    (
        r.profile_name.clone(),
        r.target_name.clone(),
        r.target_start,
        r.target_end,
        r.profile_start,
        r.profile_end,
        r.score_bits,
        r.evalue_bits,
    )
}

#[test]
fn one_worker_and_many_workers_emit_the_same_record_set() {
    let mut serial: Vec<_> = run_with_workers(1, PartitionPolicy::WholeProfiles)
        .iter()
        .map(record_key)
        .collect();
    serial.sort();
    assert!(!serial.is_empty());
    for policy in [PartitionPolicy::WholeProfiles, PartitionPolicy::FlattenRoundRobin] {
        for n in [2usize, 3, 5] {
            let mut parallel: Vec<_> =
                run_with_workers(n, policy).iter().map(record_key).collect();
            parallel.sort();
            assert_eq!(serial, parallel);
        }
    }
}

#[test]
fn bucket_loop_accounts_every_job_once() {
    let ps = profiles();
    let ts = targets();
    let jobs = plan_jobs(&ps, &ts, &seed_map()).unwrap();
    let n_jobs = jobs.len();
    let outcomes: Vec<JobOutcome> = jobs
        .iter()
        .enumerate()
        .map(|(i, _)| if i == 1 { JobOutcome::InvalidCloudBounds } else { scored(1e-5) })
        .collect();
    let mut worker = Worker::new((1e-3f64).to_bits());
    run_bucket(&mut worker, &ps, &ts, &jobs, &outcomes);
    assert_eq!(worker.skipped_jobs, 1);
    assert_eq!(worker.records.len(), n_jobs - 1);
    // the worker's scratch fits the largest job it saw
    assert!(worker.scratch.forward_matrix_rows >= 250);
    assert!(worker.scratch.cloud_matrix_cols >= 60);
}

#[test]
fn merge_concatenates_worker_outputs_in_order() {
    let rec = |n: &[u8]| AlignmentRecord {
        profile_name: n.to_vec(),
        target_name: b"t".to_vec(),
        target_start: 1,
        target_end: 2,
        profile_start: 1,
        profile_end: 2,
        score_bits: 0,
        evalue_bits: 0,
    };
    let merged = merge_outputs(vec![vec![rec(b"a"), rec(b"b")], vec![], vec![rec(b"c")]]);
    let names: Vec<Vec<u8>> = merged.iter().map(|r| r.profile_name.clone()).collect();
    assert_eq!(names, vec![b"a".to_vec(), b"b".to_vec(), b"c".to_vec()]);
}
