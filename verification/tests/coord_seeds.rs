use mmoreseqs::coord::{
    map_p7_to_mmseqs_profiles, CoordinateMap, ProfilePairAlignment, TraceStep,
};
use mmoreseqs::format::{
    get_query_format_from_mmseqs_dbtype, guess_query_format_from_first_line, FileFormat,
};
use mmoreseqs::seeds::{build_alignment_seeds, BuildSeedsError, ProfileMapping, SeedMap};

fn lines_of(s: &str) -> Vec<Vec<u8>> {
    s.lines().map(|l| l.as_bytes().to_vec()).collect()
}

/// The trace of a global alignment of `ACDE` (source) against `ACE`
/// (destination): the `D` column exists only in the source.
fn deletion_trace() -> Vec<TraceStep> {
    vec![TraceStep::Diagonal, TraceStep::Diagonal, TraceStep::Up, TraceStep::Diagonal]
}

fn seeds_for<'a>(map: &'a SeedMap, name: &[u8]) -> &'a Vec<mmoreseqs::seeds::Seed> {
    for (n, seeds) in map.entries.iter() {
        if n.as_slice() == name {
            return seeds;
        }
    }
    panic!("no entry for {:?}", name);
}

#[test]
fn coordinate_map_handles_a_deletion() {
    let m = CoordinateMap::from_trace(&deletion_trace(), 4, 3).unwrap();
    assert_eq!(m.entries, vec![0, 1, 2, 2, 3]);
    // source index 4 (the E) resolves to 3; source index 2 (the C) to 2
    assert_eq!(m.map_end(4), 3);
    assert_eq!(m.map_end(2), 2);
    // index 0 carries nothing: a start boundary there is clamped to 1
    assert_eq!(m.map_start(0), 1);
    assert_eq!(m.map_start(3), 2);
}

#[test]
fn coordinate_map_of_identical_sequences_is_identity() {
    let trace = vec![TraceStep::Diagonal; 5];
    let m = CoordinateMap::from_trace(&trace, 5, 5).unwrap();
    assert_eq!(m.entries, vec![0, 1, 2, 3, 4, 5]);
    for i in 1..=5usize {
        assert_eq!(m.map_end(i), i);
        assert_eq!(m.map_start(i), i);
    }
    assert_eq!(m.map_start(0), 1);
}

#[test]
fn coordinate_map_demands_total_coverage() {
    // consumes 1 of each, but the sequences are longer
    assert!(CoordinateMap::from_trace(&vec![TraceStep::Diagonal], 2, 1).is_err());
    assert!(CoordinateMap::from_trace(&vec![TraceStep::Diagonal], 1, 2).is_err());
    assert!(CoordinateMap::from_trace(&vec![TraceStep::Diagonal], 1, 1).is_ok());
    // a gap-only trace covers only the destination
    assert!(CoordinateMap::from_trace(&vec![TraceStep::Left], 0, 1).is_ok());
}

#[test]
fn per_profile_maps_are_keyed_by_accession() {
    let alignments = vec![
        ProfilePairAlignment {
            accession: b"ACC1".to_vec(),
            trace: deletion_trace(),
            source_length: 4,
            dest_length: 3,
        },
        ProfilePairAlignment {
            accession: b"ACC2".to_vec(),
            trace: vec![TraceStep::Diagonal; 2],
            source_length: 2,
            dest_length: 2,
        },
    ];
    let maps = map_p7_to_mmseqs_profiles(&alignments).unwrap();
    assert_eq!(maps.len(), 2);
    assert_eq!(maps[0].0, b"ACC1".to_vec());
    assert_eq!(maps[0].1.entries, vec![0, 1, 2, 2, 3]);
    assert_eq!(maps[1].0, b"ACC2".to_vec());
}

#[test]
fn per_profile_maps_fail_loudly_on_bad_coverage() {
    let alignments = vec![ProfilePairAlignment {
        accession: b"BAD1".to_vec(),
        trace: vec![TraceStep::Diagonal],
        source_length: 4,
        dest_length: 3,
    }];
    let err = map_p7_to_mmseqs_profiles(&alignments).unwrap_err();
    assert_eq!(err.accession, b"BAD1".to_vec());
}

#[test]
fn seeds_aggregate_directly_without_a_mapping() {
    // trailing fields (such as an e-value column) are ignored
    let rows = lines_of("P1 T1 2 5 1 9 4e-3\nP1 T2 3 4 2 8\nP2 T1 1 2 3 4");
    let map = build_alignment_seeds(&rows, None).unwrap();
    let p1 = seeds_for(&map, b"P1");
    assert_eq!(p1.len(), 2);
    assert_eq!(p1[0].target_name, b"T1".to_vec());
    assert_eq!(p1[0].profile_start, 2);
    assert_eq!(p1[0].profile_end, 5);
    assert_eq!(p1[0].target_start, 1);
    assert_eq!(p1[0].target_end, 9);
    assert_eq!(p1[1].target_name, b"T2".to_vec());
    let p2 = seeds_for(&map, b"P2");
    assert_eq!(p2.len(), 1);
}

fn deletion_mapping() -> ProfileMapping {
    ProfileMapping {
        accession_to_name: vec![(b"ACC1".to_vec(), b"model1".to_vec())],
        coordinate_maps: vec![(
            b"ACC1".to_vec(),
            CoordinateMap::from_trace(&deletion_trace(), 4, 3).unwrap(),
        )],
    }
}

#[test]
fn seeds_translate_and_clamp_through_the_mapping() {
    // a raw hit that starts at profile column 0 is clamped to 1
    let rows = lines_of("ACC1 T9 0 4 3 7");
    let map = build_alignment_seeds(&rows, Some(&deletion_mapping())).unwrap();
    let seeds = seeds_for(&map, b"model1");
    assert_eq!(seeds.len(), 1);
    assert_eq!(seeds[0].profile_start, 1);
    assert_eq!(seeds[0].profile_end, 3);
    assert_eq!(seeds[0].target_start, 3);
    assert_eq!(seeds[0].target_end, 7);
    // the normalized seed is properly ordered and 1-based
    assert!(1 <= seeds[0].profile_start && seeds[0].profile_start <= seeds[0].profile_end);
    assert!(1 <= seeds[0].target_start && seeds[0].target_start <= seeds[0].target_end);
}

#[test]
fn seeds_reject_malformed_rows() {
    let rows = lines_of("ACC1 T9 0 4 3 7\nACC1 T9 x 4 3 7");
    match build_alignment_seeds(&rows, Some(&deletion_mapping())) {
        Err(BuildSeedsError::MalformedHitLine { line_number }) => assert_eq!(line_number, 2),
        other => panic!("expected a malformed-row error, got {:?}", other),
    }
    match build_alignment_seeds(&lines_of("P1 T1 2 5"), None) {
        Err(BuildSeedsError::MalformedHitLine { line_number }) => assert_eq!(line_number, 1),
        other => panic!("expected a malformed-row error, got {:?}", other),
    }
}

#[test]
fn seeds_reject_unknown_accessions() {
    let rows = lines_of("NOPE T9 0 4 3 7");
    match build_alignment_seeds(&rows, Some(&deletion_mapping())) {
        Err(BuildSeedsError::AccessionNotMapped(e)) => assert_eq!(e.accession, b"NOPE".to_vec()),
        other => panic!("expected an unmapped-accession error, got {:?}", other),
    }
}

#[test]
fn seeds_reject_profiles_without_a_map() {
    let mapping = ProfileMapping {
        accession_to_name: vec![(b"ACC1".to_vec(), b"model1".to_vec())],
        coordinate_maps: vec![],
    };
    let rows = lines_of("ACC1 T9 0 4 3 7");
    match build_alignment_seeds(&rows, Some(&mapping)) {
        Err(BuildSeedsError::ProfilesNotMapped(e)) => {
            assert_eq!(e.profile_name, b"model1".to_vec())
        },
        other => panic!("expected an unmapped-profile error, got {:?}", other),
    }
}

#[test]
fn seeds_reject_spans_outside_the_map() {
    // the map covers source columns 0..=4; 9 is outside
    let rows = lines_of("ACC1 T9 0 9 3 7");
    match build_alignment_seeds(&rows, Some(&deletion_mapping())) {
        Err(BuildSeedsError::CoordinateOutOfRange { line_number }) => assert_eq!(line_number, 1),
        other => panic!("expected an out-of-range error, got {:?}", other),
    }
}

#[test]
fn coordinate_map_entries_never_step_backwards() {
    // a mixed trace consuming five symbols of each sequence
    let trace = vec![
        TraceStep::Left,
        TraceStep::Diagonal,
        TraceStep::Up,
        TraceStep::Diagonal,
        TraceStep::Left,
        TraceStep::Diagonal,
        TraceStep::Up,
    ];
    let m = CoordinateMap::from_trace(&trace, 5, 5).unwrap();
    for i in 0..5usize {
        assert!(m.entries[i] <= m.entries[i + 1]);
    }
}

#[test]
fn seed_map_appends_per_profile_in_row_order() {
    let rows = lines_of("P1 T1 1 2 3 4\nP2 T1 5 6 7 8\nP1 T2 9 10 11 12");
    let map = build_alignment_seeds(&rows, None).unwrap();
    assert_eq!(map.entries.len(), 2);
    let p1 = seeds_for(&map, b"P1");
    assert_eq!(p1.len(), 2);
    assert_eq!(p1[0].target_name, b"T1".to_vec());
    assert_eq!(p1[1].target_name, b"T2".to_vec());
    assert_eq!(p1[1].profile_start, 9);
}

#[test]
fn query_format_is_guessed_from_the_first_line() {
    let fasta = b">sp|P12345|EXAMPLE".to_vec();
    let sto = b"# STOCKHOLM 1.0".to_vec();
    let hmm = b"HMMER3/f [3.3.2 | Nov 2020]".to_vec();
    assert!(matches!(guess_query_format_from_first_line(&fasta), Ok(FileFormat::Fasta)));
    assert!(matches!(guess_query_format_from_first_line(&sto), Ok(FileFormat::Stockholm)));
    assert!(matches!(guess_query_format_from_first_line(&hmm), Ok(FileFormat::Hmm)));
    assert!(guess_query_format_from_first_line(&b"garbage".to_vec()).is_err());
    assert!(guess_query_format_from_first_line(&b"".to_vec()).is_err());
}

#[test]
fn dbtype_codes_map_to_formats() {
    assert!(matches!(get_query_format_from_mmseqs_dbtype(0), Ok(FileFormat::Fasta)));
    assert!(matches!(get_query_format_from_mmseqs_dbtype(2), Ok(FileFormat::Stockholm)));
    let err = get_query_format_from_mmseqs_dbtype(5).unwrap_err();
    assert_eq!(err.code, 5);
}
