use bijoux::census::{Census, Report};

#[test]
fn extremes_do_not_panic_and_bucket_as_large() {
    let mut census = Census::new();
    census.record(i64::MIN);
    census.record(i64::MAX);
    census.record(-257);
    census.record(256);

    let report = census.report();
    assert_eq!(report.total, 4);
    assert_eq!(report.small.iter().sum::<u64>(), 0);
    assert_eq!(report.large_neg[64], 1);
    assert_eq!(report.large_pos[63], 1);
    assert_eq!(report.large_neg[9], 1);
    assert_eq!(report.large_pos[9], 1);
}

#[test]
fn small_range_boundaries_are_exact() {
    let mut census = Census::new();
    census.record(-256);
    census.record(255);
    census.record(0);

    let report = census.report();
    assert_eq!(report.small[0], 1);
    assert_eq!(report.small[511], 1);
    assert_eq!(report.small[256], 1);
}

#[test]
fn window_coverage_matches_window_edges() {
    let mut census = Census::new();
    for value in [-125, -124, 123, 124] {
        census.record(value);
    }

    let report = census.report();
    assert_eq!(report.window_coverage(124), 2);
    assert_eq!(report.window_coverage(0), 2);
    assert_eq!(report.window_coverage(125), 2);
}

#[test]
fn best_window_finds_a_skew() {
    let mut census = Census::new();
    for _ in 0..10 {
        census.record(200);
    }
    census.record(-30);

    let (k, hits) = census.report().best_window();
    assert_eq!(hits, 11);
    assert_eq!(k, 30);
}

#[test]
fn sign_split_counts() {
    let mut census = Census::new();
    for value in [-2, -1, 0, 1, 2, 3] {
        census.record(value);
    }

    let report = census.report();
    assert_eq!(report.negative, 2);
    assert_eq!(report.zero, 1);
    assert_eq!(report.positive, 3);
}

#[test]
fn census_doc_example_and_default() {
    let mut census = Census::default();
    for value in [-1, 0, 1, 300, -70_000] {
        census.record(value);
    }
    let report: Report = census.report();
    assert_eq!(report.total, 5);
    assert_eq!(report.large_pos[9], 1);
    assert_eq!(report.large_neg[17], 1);
    assert_eq!(report.window_coverage(-1), 0);
    assert_eq!(report.window_coverage(249), 0);
    assert_eq!(Census::new().report().best_window(), (0, 0));
}

#[test]
fn window_rows_add_the_best_window_when_not_a_candidate() {
    let mut census = Census::new();
    for _ in 0..10 {
        census.record(200);
    }
    census.record(-30);
    let report = census.report();
    assert!(report.windows_fit());
    assert_eq!(report.window_rows(), vec![0, 32, 64, 96, 124, 30]);

    let empty = Census::new().report();
    assert_eq!(empty.window_rows(), vec![0, 32, 64, 96, 124]);
}

#[test]
fn window_rows_skip_a_best_window_that_is_a_candidate() {
    let mut census = Census::new();
    for value in [-124, -100, 0, 5] {
        census.record(value);
    }
    let report = census.report();
    assert_eq!(report.best_window(), (124, 4));
    assert_eq!(report.window_rows(), vec![0, 32, 64, 96, 124]);
}

#[test]
fn bit_length_rows_list_nonzero_lengths_in_order() {
    let mut census = Census::new();
    for value in [300, 300, -70_000, i64::MIN, 5] {
        census.record(value);
    }
    let report = census.report();
    assert_eq!(report.bit_length_rows(), vec![(9, 0, 2), (17, 1, 0), (64, 1, 0)]);
    assert!(Census::new().report().bit_length_rows().is_empty());
}

#[test]
fn windows_fit_detects_an_overflowing_window() {
    let mut report = Census::new().report();
    assert!(report.windows_fit());
    report.small[256] = u64::MAX;
    assert!(report.windows_fit());
    report.small[257] = 1;
    assert!(!report.windows_fit());
}
