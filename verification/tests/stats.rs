use pique::stats::{ColumnStats, RangePredicate, StatsManifest, StatsManifestBuilder};

fn build_time_series_manifest() -> StatsManifest {
    let mut manifest = StatsManifest::new();

    // File with 3 row groups, hourly data
    for rg in 0..3 {
        let hour_start = rg * 8;
        let hour_end = (rg + 1) * 8 - 1;
        manifest.add_row_group(
            "data/2024-01-15.parquet",
            rg,
            vec![
                (
                    "timestamp".into(),
                    ColumnStats {
                        min: format!("2024-01-15T{:02}:00:00Z", hour_start).into_bytes(),
                        max: format!("2024-01-15T{:02}:59:59Z", hour_end).into_bytes(),
                        null_count: 0,
                    },
                ),
                (
                    "category".into(),
                    ColumnStats {
                        min: b"A".to_vec(),
                        max: b"Z".to_vec(),
                        null_count: 5,
                    },
                ),
            ],
        );
    }

    // Second file — next day
    for rg in 0..3 {
        let hour_start = rg * 8;
        let hour_end = (rg + 1) * 8 - 1;
        manifest.add_row_group(
            "data/2024-01-16.parquet",
            rg,
            vec![(
                "timestamp".into(),
                ColumnStats {
                    min: format!("2024-01-16T{:02}:00:00Z", hour_start).into_bytes(),
                    max: format!("2024-01-16T{:02}:59:59Z", hour_end).into_bytes(),
                    null_count: 0,
                },
            )],
        );
    }

    manifest
}

#[test]
fn empty_predicates_returns_all() {
    let manifest = build_time_series_manifest();
    let results = manifest.query_overlap(&[]);
    assert_eq!(results.len(), 6); // 3 + 3 row groups
}

#[test]
fn single_predicate_prunes_non_overlapping() {
    let manifest = build_time_series_manifest();

    // Query: 10:00–14:00 on Jan 15
    // RG0: 00:00–07:59 → no overlap
    // RG1: 08:00–15:59 → overlaps
    // RG2: 16:00–23:59 → no overlap
    // Jan 16 RGs: all before → no overlap
    let results = manifest.query_overlap(&[RangePredicate {
        column: "timestamp".into(),
        min: b"2024-01-15T10:00:00Z".to_vec(),
        max: b"2024-01-15T14:00:00Z".to_vec(),
    }]);

    assert_eq!(results.len(), 1);
    assert_eq!(results[0].file, "data/2024-01-15.parquet");
    assert_eq!(results[0].row_group, 1);
}

#[test]
fn predicate_spanning_multiple_row_groups() {
    let manifest = build_time_series_manifest();

    // Query: 06:00–20:00 on Jan 15 — spans RG0 (partially), RG1, RG2 (partially)
    let results = manifest.query_overlap(&[RangePredicate {
        column: "timestamp".into(),
        min: b"2024-01-15T06:00:00Z".to_vec(),
        max: b"2024-01-15T20:00:00Z".to_vec(),
    }]);

    assert_eq!(results.len(), 3); // All 3 RGs of Jan 15
    assert!(results.iter().all(|r| r.file == "data/2024-01-15.parquet"));
}

#[test]
fn predicate_spanning_multiple_files() {
    let manifest = build_time_series_manifest();

    // Query: Jan 15 20:00 – Jan 16 04:00
    let results = manifest.query_overlap(&[RangePredicate {
        column: "timestamp".into(),
        min: b"2024-01-15T20:00:00Z".to_vec(),
        max: b"2024-01-16T04:00:00Z".to_vec(),
    }]);

    // Jan 15 RG2 (16:00–23:59) overlaps
    // Jan 16 RG0 (00:00–07:59) overlaps
    assert_eq!(results.len(), 2);
}

#[test]
fn multi_column_conjunction() {
    let mut manifest = StatsManifest::new();

    // RG with timestamp 00:00–12:00 and category A–M
    manifest.add_row_group(
        "f.parquet",
        0,
        vec![
            (
                "ts".into(),
                ColumnStats {
                    min: b"00:00".to_vec(),
                    max: b"12:00".to_vec(),
                    null_count: 0,
                },
            ),
            (
                "cat".into(),
                ColumnStats {
                    min: b"A".to_vec(),
                    max: b"M".to_vec(),
                    null_count: 0,
                },
            ),
        ],
    );

    // RG with timestamp 12:00–23:59 and category N–Z
    manifest.add_row_group(
        "f.parquet",
        1,
        vec![
            (
                "ts".into(),
                ColumnStats {
                    min: b"12:00".to_vec(),
                    max: b"23:59".to_vec(),
                    null_count: 0,
                },
            ),
            (
                "cat".into(),
                ColumnStats {
                    min: b"N".to_vec(),
                    max: b"Z".to_vec(),
                    null_count: 0,
                },
            ),
        ],
    );

    // Query: ts in [10:00, 14:00] AND cat in [A, F]
    // RG0: ts overlaps (00:00–12:00 vs 10:00–14:00 ✓), cat overlaps (A–M vs A–F ✓) → match
    // RG1: ts overlaps (12:00–23:59 vs 10:00–14:00 ✓), cat NO overlap (N–Z vs A–F ✗) → pruned
    let results = manifest.query_overlap(&[
        RangePredicate {
            column: "ts".into(),
            min: b"10:00".to_vec(),
            max: b"14:00".to_vec(),
        },
        RangePredicate {
            column: "cat".into(),
            min: b"A".to_vec(),
            max: b"F".to_vec(),
        },
    ]);

    assert_eq!(results.len(), 1);
    assert_eq!(results[0].row_group, 0);
}

#[test]
fn missing_column_conservatively_includes() {
    let mut manifest = StatsManifest::new();
    manifest.add_row_group(
        "f.parquet",
        0,
        vec![(
            "ts".into(),
            ColumnStats {
                min: b"00:00".to_vec(),
                max: b"12:00".to_vec(),
                null_count: 0,
            },
        )],
    );

    // Query on a column that has no stats → cannot prune → included
    let results = manifest.query_overlap(&[RangePredicate {
        column: "unknown_col".into(),
        min: b"X".to_vec(),
        max: b"Y".to_vec(),
    }]);

    assert_eq!(results.len(), 1);
}

#[test]
fn no_overlap_returns_empty() {
    let manifest = build_time_series_manifest();

    // Query for Jan 20 — no data exists for that date
    let results = manifest.query_overlap(&[RangePredicate {
        column: "timestamp".into(),
        min: b"2024-01-20T00:00:00Z".to_vec(),
        max: b"2024-01-20T23:59:59Z".to_vec(),
    }]);

    assert_eq!(results.len(), 0);
}

#[test]
fn builder_ergonomics() {
    let manifest = StatsManifestBuilder::new()
        .add_row_group(
            "a.parquet",
            0,
            vec![(
                "id".into(),
                ColumnStats {
                    min: b"000".to_vec(),
                    max: b"499".to_vec(),
                    null_count: 0,
                },
            )],
        )
        .add_row_group(
            "a.parquet",
            1,
            vec![(
                "id".into(),
                ColumnStats {
                    min: b"500".to_vec(),
                    max: b"999".to_vec(),
                    null_count: 0,
                },
            )],
        )
        .build();

    assert_eq!(manifest.file_count(), 1);
    assert_eq!(manifest.total_row_groups(), 2);

    // Point-ish range query: 300–600
    let results = manifest.query_overlap(&[RangePredicate {
        column: "id".into(),
        min: b"300".to_vec(),
        max: b"600".to_vec(),
    }]);
    assert_eq!(results.len(), 2); // Both RGs overlap
}

#[test]
fn exact_boundary_overlap() {
    let mut manifest = StatsManifest::new();
    manifest.add_row_group(
        "f.parquet",
        0,
        vec![(
            "x".into(),
            ColumnStats {
                min: b"100".to_vec(),
                max: b"200".to_vec(),
                null_count: 0,
            },
        )],
    );

    // Predicate max == col min → overlaps (inclusive)
    let results = manifest.query_overlap(&[RangePredicate {
        column: "x".into(),
        min: b"050".to_vec(),
        max: b"100".to_vec(),
    }]);
    assert_eq!(results.len(), 1);

    // Predicate min == col max → overlaps (inclusive)
    let results = manifest.query_overlap(&[RangePredicate {
        column: "x".into(),
        min: b"200".to_vec(),
        max: b"300".to_vec(),
    }]);
    assert_eq!(results.len(), 1);

    // Predicate entirely below → no overlap
    let results = manifest.query_overlap(&[RangePredicate {
        column: "x".into(),
        min: b"001".to_vec(),
        max: b"099".to_vec(),
    }]);
    assert_eq!(results.len(), 0);
}
