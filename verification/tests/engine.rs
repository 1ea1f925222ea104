use sufr::CountOptions;
use sufr::ExtractOptions;
use sufr::ListOptions;
use sufr::LocateOptions;
use sufr::SufrBuilderArgs;
use sufr::SufrError;
use sufr::store::SuffixArray;

fn banana_args() -> SufrBuilderArgs {
    SufrBuilderArgs::new(
        b"banana%".to_vec(),
        None,
        vec![0],
        vec!["seq1".to_string()],
        false,
        None,
        false,
        false,
        false,
        1,
        None,
        42,
    )
}

fn banana() -> SuffixArray {
    SuffixArray::new(banana_args()).unwrap()
}

#[test]
fn banana_count_ana_is_two() {
    let st = banana();
    let r = st.count(CountOptions::new(vec!["ana".to_string()], None, false));
    assert_eq!(r.len(), 1);
    assert_eq!(r[0].query_num, 0);
    assert_eq!(r[0].query, "ana");
    assert_eq!(r[0].count, 2);
}

#[test]
fn banana_locate_ana_positions() {
    let st = banana();
    let r = st.locate(LocateOptions::new(vec!["ana".to_string()], None, false));
    assert_eq!(r.len(), 1);
    let mut suffixes: Vec<usize> = r[0].positions.iter().map(|p| p.suffix).collect();
    suffixes.sort();
    assert_eq!(suffixes, vec![1, 3]);
    for p in &r[0].positions {
        assert_eq!(p.sequence_name, "seq1");
        assert_eq!(p.sequence_position, p.suffix);
    }
}

#[test]
fn banana_suffix_array_order() {
    let st = banana();
    assert_eq!(st.len_suffixes(), 6);
    let expected = vec![5usize, 3, 1, 0, 4, 2];
    for (rank, want) in expected.iter().enumerate() {
        assert_eq!(st.rank_to_suffix(rank).unwrap(), *want);
    }
    assert!(matches!(st.rank_to_suffix(6), Err(SufrError::Range)));
}

#[test]
fn banana_suffix_array_is_permutation() {
    let st = banana();
    let mut all: Vec<usize> = (0..st.len_suffixes()).map(|r| st.rank_to_suffix(r).unwrap()).collect();
    all.sort();
    assert_eq!(all, vec![0, 1, 2, 3, 4, 5]);
}

#[test]
fn banana_lcp_values() {
    let st = banana();
    let expected = vec![0usize, 1, 3, 0, 0, 2];
    for (rank, want) in expected.iter().enumerate() {
        assert_eq!(st.lcp_at(rank).unwrap(), *want);
    }
    assert!(matches!(st.lcp_at(6), Err(SufrError::Range)));
}

#[test]
fn absent_query_counts_zero_and_locates_nothing() {
    let st = banana();
    let c = st.count(CountOptions::new(vec!["xyz".to_string()], None, false));
    assert_eq!(c[0].count, 0);
    let l = st.locate(LocateOptions::new(vec!["xyz".to_string()], None, false));
    assert!(l[0].positions.is_empty());
}

#[test]
fn count_and_locate_agree() {
    let st = banana();
    let queries = vec![
        "a".to_string(),
        "an".to_string(),
        "ana".to_string(),
        "banana".to_string(),
        "n".to_string(),
        "zz".to_string(),
        "".to_string(),
    ];
    let c = st.count(CountOptions::new(queries.clone(), None, false));
    let l = st.locate(LocateOptions::new(queries, None, false));
    for (cr, lr) in c.iter().zip(l.iter()) {
        assert_eq!(cr.count, lr.positions.len());
        assert_eq!(cr.query, lr.query);
        assert_eq!(cr.query_num, lr.query_num);
    }
}

#[test]
fn empty_query_matches_every_suffix() {
    let st = banana();
    let c = st.count(CountOptions::new(vec!["".to_string()], None, false));
    assert_eq!(c[0].count, 6);
}

#[test]
fn max_query_len_truncates_queries() {
    let st = banana();
    let c = st.count(CountOptions::new(vec!["anan".to_string()], Some(2), false));
    // only the first two characters compare, so this counts like "an"
    assert_eq!(c[0].count, 2);
}

#[test]
fn string_at_examples() {
    let st = banana();
    assert_eq!(st.string_at(0, Some(3)).unwrap(), "ban");
    assert_eq!(st.string_at(6, None).unwrap(), "%");
    assert!(matches!(st.string_at(7, None), Err(SufrError::Range)));
    assert_eq!(st.string_at(4, Some(100)).unwrap(), "na%");
}

#[test]
fn list_smallest_suffix() {
    let st = banana();
    let rows = st
        .list(ListOptions::new(vec![0], false, true, false, None, None, None))
        .unwrap();
    assert_eq!(rows.len(), 1);
    // rank 0 holds the lexicographically smallest suffix, at position 5
    assert_eq!(rows[0], "5 a%");
}

#[test]
fn list_all_with_columns_and_cap() {
    let st = banana();
    let rows = st
        .list(ListOptions::new(vec![], true, true, true, Some(2), Some(3), None))
        .unwrap();
    assert_eq!(rows.len(), 3);
    assert_eq!(rows[0], "0 5 0 a%");
    assert_eq!(rows[1], "1 3 1 an");
    assert_eq!(rows[2], "2 1 3 an");
}

#[test]
fn list_rejects_bad_rank() {
    let st = banana();
    let r = st.list(ListOptions::new(vec![6], false, true, false, None, None, None));
    assert!(matches!(r, Err(SufrError::Range)));
}

#[test]
fn metadata_round_trip_through_image() {
    let args = SufrBuilderArgs::new(
        b"ab%cdab%".to_vec(),
        Some("two.sufr".to_string()),
        vec![0, 3],
        vec!["first".to_string(), "second".to_string()],
        true,
        Some(9),
        false,
        false,
        false,
        2,
        None,
        7,
    );
    let built = SuffixArray::new(args).unwrap();
    let bytes = built.serialize();
    let st = SuffixArray::open(&bytes, true, "two.sufr".to_string(), "today".to_string()).unwrap();
    let md = st.metadata();
    assert_eq!(md.filename, "two.sufr");
    assert_eq!(md.modified, "today");
    assert_eq!(md.file_size, bytes.len());
    assert_eq!(md.file_version, 1);
    assert!(!md.is_dna);
    assert!(!md.allow_ambiguity);
    assert!(!md.ignore_softmask);
    assert_eq!(md.text_len, 8);
    assert_eq!(md.len_suffixes, 7);
    assert_eq!(md.num_sequences, 2);
    assert_eq!(md.sequence_starts, vec![0, 3]);
    assert_eq!(md.sequence_names, vec!["first".to_string(), "second".to_string()]);
    assert_eq!(md.sort_type, "max_query_len");
}

#[test]
fn building_twice_gives_identical_bytes() {
    let a = SuffixArray::new(banana_args()).unwrap().serialize();
    let b = SuffixArray::new(banana_args()).unwrap().serialize();
    assert_eq!(a, b);
}

#[test]
fn open_of_serialize_round_trips_queries() {
    let st0 = banana();
    let bytes = st0.serialize();
    let st = SuffixArray::open(&bytes, false, String::new(), String::new()).unwrap();
    let c = st.count(CountOptions::new(vec!["ana".to_string()], None, false));
    assert_eq!(c[0].count, 2);
}

#[test]
fn extract_windows_stay_inside_records() {
    let args = SufrBuilderArgs::new(
        b"ab%cdab%".to_vec(),
        None,
        vec![0, 3],
        vec!["first".to_string(), "second".to_string()],
        false,
        None,
        false,
        false,
        false,
        1,
        None,
        0,
    );
    let st = SuffixArray::new(args).unwrap();
    let r = st.extract(ExtractOptions::new(
        vec!["ab".to_string()],
        None,
        false,
        Some(1),
        Some(4),
    ));
    assert_eq!(r.len(), 1);
    assert_eq!(r[0].sequences.len(), 2);
    for x in &r[0].sequences {
        // record boundaries: "ab" at [0, 2), "cdab" at [3, 7)
        let (s, e) = if x.sequence_name == "first" {
            (0usize, 2usize)
        } else {
            (3usize, 7usize)
        };
        assert_eq!(x.sequence_start, s);
        assert!(s <= x.sequence_range.0);
        assert!(x.sequence_range.0 <= x.sequence_range.1);
        assert!(x.sequence_range.1 <= e);
        // the hit starts suffix_offset bytes into the window
        assert_eq!(x.sequence_range.0 + x.suffix_offset, x.suffix);
    }
    let hit2 = r[0]
        .sequences
        .iter()
        .find(|x| x.sequence_name == "second")
        .unwrap();
    // hit at text position 5, record "cdab" at [3, 7): one byte of context
    // before, clamped after
    assert_eq!(hit2.suffix, 5);
    assert_eq!(hit2.sequence_range, (4, 7));
    assert_eq!(hit2.suffix_offset, 1);
}

#[test]
fn dna_mode_folds_softmask_and_collapses_ambiguity() {
    let args = SufrBuilderArgs::new(
        b"ACGTacgt%".to_vec(),
        None,
        vec![0],
        vec!["d".to_string()],
        false,
        None,
        true,
        false,
        true,
        1,
        None,
        1,
    );
    let st = SuffixArray::new(args).unwrap();
    let c = st.count(CountOptions::new(vec!["ACGT".to_string()], None, false));
    // soft-masked bases fold to upper case, so both halves match
    assert_eq!(c[0].count, 2);
}

#[test]
fn dna_mode_without_softmask_folding_is_case_sensitive() {
    let args = SufrBuilderArgs::new(
        b"ACGTacgt%".to_vec(),
        None,
        vec![0],
        vec!["d".to_string()],
        false,
        None,
        true,
        true,
        false,
        1,
        None,
        1,
    );
    let st = SuffixArray::new(args).unwrap();
    let c = st.count(CountOptions::new(vec!["ACGT".to_string()], None, false));
    assert_eq!(c[0].count, 1);
}

#[test]
fn seed_mask_matches_spaced_pattern() {
    let args = SufrBuilderArgs::new(
        b"banana%".to_vec(),
        None,
        vec![0],
        vec!["seq1".to_string()],
        false,
        None,
        false,
        false,
        false,
        1,
        Some("101".to_string()),
        42,
    );
    let st = SuffixArray::new(args).unwrap();
    // only offsets 0 and 2 compare: "aza" matches every a_a suffix
    let c = st.count(CountOptions::new(vec!["aza".to_string()], None, false));
    assert_eq!(c[0].count, 2);
    let md = st.metadata();
    assert_eq!(md.sort_type, "mask");
}

#[test]
fn config_errors_are_reported() {
    let empty = SufrBuilderArgs::new(
        Vec::new(),
        None,
        vec![0],
        vec!["s".to_string()],
        false,
        None,
        false,
        false,
        false,
        1,
        None,
        0,
    );
    assert!(matches!(SuffixArray::new(empty), Err(SufrError::Config)));

    let zero_partitions = SufrBuilderArgs::new(
        b"banana%".to_vec(),
        None,
        vec![0],
        vec!["s".to_string()],
        false,
        None,
        false,
        false,
        false,
        0,
        None,
        0,
    );
    assert!(matches!(SuffixArray::new(zero_partitions), Err(SufrError::Config)));

    let too_many_partitions = SufrBuilderArgs::new(
        b"ab%".to_vec(),
        None,
        vec![0],
        vec!["s".to_string()],
        false,
        None,
        false,
        false,
        false,
        3,
        None,
        0,
    );
    assert!(matches!(SuffixArray::new(too_many_partitions), Err(SufrError::Config)));

    let mismatched_names = SufrBuilderArgs::new(
        b"banana%".to_vec(),
        None,
        vec![0],
        Vec::new(),
        false,
        None,
        false,
        false,
        false,
        1,
        None,
        0,
    );
    assert!(matches!(SuffixArray::new(mismatched_names), Err(SufrError::Config)));

    let bad_mask = SufrBuilderArgs::new(
        b"banana%".to_vec(),
        None,
        vec![0],
        vec!["s".to_string()],
        false,
        None,
        false,
        false,
        false,
        1,
        Some("10x".to_string()),
        0,
    );
    assert!(matches!(SuffixArray::new(bad_mask), Err(SufrError::Config)));

    let zero_mask = SufrBuilderArgs::new(
        b"banana%".to_vec(),
        None,
        vec![0],
        vec!["s".to_string()],
        false,
        None,
        false,
        false,
        false,
        1,
        Some("000".to_string()),
        0,
    );
    assert!(matches!(SuffixArray::new(zero_mask), Err(SufrError::Config)));
}

#[test]
fn many_partitions_sort_like_one() {
    let text = b"mississippi%".to_vec();
    let one = SuffixArray::new(SufrBuilderArgs::new(
        text.clone(),
        None,
        vec![0],
        vec!["m".to_string()],
        false,
        None,
        false,
        false,
        false,
        1,
        None,
        0,
    ))
    .unwrap();
    let five = SuffixArray::new(SufrBuilderArgs::new(
        text,
        None,
        vec![0],
        vec!["m".to_string()],
        false,
        None,
        false,
        false,
        false,
        5,
        None,
        9,
    ))
    .unwrap();
    assert_eq!(one.serialize(), five.serialize());
    let c = five.count(CountOptions::new(vec!["issi".to_string(), "ss".to_string()], None, false));
    assert_eq!(c[0].count, 2);
    assert_eq!(c[1].count, 2);
}

#[test]
fn open_rejects_bad_images() {
    let bytes = banana().serialize();

    let mut truncated = bytes.clone();
    truncated.truncate(bytes.len() - 1);
    assert!(matches!(
        SuffixArray::open(&truncated, false, String::new(), String::new()),
        Err(SufrError::Format)
    ));

    let mut wrong_version = bytes.clone();
    wrong_version[0] = 99;
    assert!(matches!(
        SuffixArray::open(&wrong_version, false, String::new(), String::new()),
        Err(SufrError::Format)
    ));

    let mut padded = bytes.clone();
    padded.push(0);
    assert!(matches!(
        SuffixArray::open(&padded, false, String::new(), String::new()),
        Err(SufrError::Format)
    ));

    assert!(matches!(
        SuffixArray::open(&Vec::new(), false, String::new(), String::new()),
        Err(SufrError::Format)
    ));
}

#[test]
fn open_rejects_wrong_order() {
    let st = banana();
    let mut img = st.serialize();
    // the first two suffix-array entries sit right after the header, the
    // text, and two length fields; swapping them breaks the sort order
    let header = 8 + 3 + 1 + 8 + 1 + 8;
    let sa_off = header + 8 + 7 + 8;
    let mut a = [0u8; 8];
    let mut b = [0u8; 8];
    a.copy_from_slice(&img[sa_off..sa_off + 8]);
    b.copy_from_slice(&img[sa_off + 8..sa_off + 16]);
    img[sa_off..sa_off + 8].copy_from_slice(&b);
    img[sa_off + 8..sa_off + 16].copy_from_slice(&a);
    assert!(matches!(
        SuffixArray::open(&img, false, String::new(), String::new()),
        Err(SufrError::Format)
    ));
}

#[test]
fn sequence_file_data_getters() {
    let d = sufr::SequenceFileData {
        seq: b"ab%cd%".to_vec(),
        start_positions: vec![0, 3],
        sequence_names: vec!["a".to_string(), "b".to_string()],
    };
    assert_eq!(d.seq(), b"ab%cd%".to_vec());
    assert_eq!(d.start_positions(), vec![0, 3]);
    assert_eq!(d.sequence_names(), vec!["a".to_string(), "b".to_string()]);
}

#[test]
fn locate_maps_hits_to_records() {
    let args = SufrBuilderArgs::new(
        b"ab%cdab%".to_vec(),
        None,
        vec![0, 3],
        vec!["first".to_string(), "second".to_string()],
        false,
        None,
        false,
        false,
        false,
        2,
        None,
        0,
    );
    let st = SuffixArray::new(args).unwrap();
    let r = st.locate(LocateOptions::new(vec!["b".to_string()], None, false));
    assert_eq!(r[0].positions.len(), 2);
    for p in &r[0].positions {
        if p.suffix == 1 {
            assert_eq!(p.sequence_name, "first");
            assert_eq!(p.sequence_position, 1);
        } else {
            assert_eq!(p.suffix, 6);
            assert_eq!(p.sequence_name, "second");
            assert_eq!(p.sequence_position, 3);
        }
    }
}

#[test]
fn extract_of_absent_query_is_empty() {
    let st = banana();
    let r = st.extract(ExtractOptions::new(vec!["zzz".to_string()], None, false, None, None));
    assert_eq!(r.len(), 1);
    assert!(r[0].sequences.is_empty());
}
