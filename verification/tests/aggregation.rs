use hayabusa::accumulator::{floor_time, same_group, Accumulator, GroupSummary};
use hayabusa::context::WindowAlignment;
use hayabusa::rule::{AggregationClause, CompareOp, CountMode};

fn clause(op: CompareOp, threshold: u64, window: Option<u64>) -> AggregationClause {
    AggregationClause {
        mode: CountMode::Matches,
        group_by: Some("User".to_string()),
        op,
        threshold,
        window,
    }
}

fn distinct(op: CompareOp, threshold: u64, window: Option<u64>) -> AggregationClause {
    AggregationClause {
        mode: CountMode::Distinct("Host".to_string()),
        group_by: Some("User".to_string()),
        op,
        threshold,
        window,
    }
}

fn group(s: &str) -> Option<String> {
    Some(s.to_string())
}

#[test]
fn six_matches_over_a_threshold_of_five_give_one_summary() {
    let c = clause(CompareOp::Greater, 5, Some(60_000));
    let mut acc = Accumulator::new(WindowAlignment::FirstMatch);
    for i in 0..6 {
        acc.feed(0, &c, group("alice"), None, 1_000 + i * 10);
    }
    assert_eq!(acc.open_buckets(), 1);
    let out = acc.flush();
    assert_eq!(out, vec![GroupSummary {
        rule: 0,
        group: group("alice"),
        count: 6,
        start: 1_000,
        end: 61_000,
    }]);
    assert_eq!(acc.open_buckets(), 0);
    assert!(acc.flush().is_empty());
}

#[test]
fn five_matches_over_a_threshold_of_five_give_nothing() {
    let c = clause(CompareOp::Greater, 5, Some(60_000));
    let mut acc = Accumulator::new(WindowAlignment::FirstMatch);
    for i in 0..5 {
        acc.feed(0, &c, group("alice"), None, 1_000 + i * 10);
    }
    assert_eq!(acc.open_buckets(), 1);
    assert!(acc.flush().is_empty());
    assert_eq!(acc.open_buckets(), 0);
}

#[test]
fn one_summary_however_far_over_the_threshold() {
    let c = clause(CompareOp::Greater, 5, Some(60_000));
    let mut acc = Accumulator::new(WindowAlignment::FirstMatch);
    for i in 0..500 {
        acc.feed(0, &c, group("alice"), None, 1_000 + i);
    }
    let out = acc.flush();
    assert_eq!(out.len(), 1);
    assert_eq!(out[0].count, 500);
}

#[test]
fn groups_and_rules_are_counted_apart() {
    let c = clause(CompareOp::GreaterOrEqual, 2, Some(60_000));
    let mut acc = Accumulator::new(WindowAlignment::FirstMatch);
    acc.feed(0, &c, group("alice"), None, 10);
    acc.feed(0, &c, group("bob"), None, 11);
    acc.feed(1, &c, group("alice"), None, 12);
    acc.feed(0, &c, group("alice"), None, 13);
    acc.feed(0, &c, None, None, 14);
    acc.feed(1, &c, group("alice"), None, 15);
    assert_eq!(acc.open_buckets(), 4);
    let out = acc.flush();
    assert_eq!(out, vec![
        GroupSummary { rule: 0, group: group("alice"), count: 2, start: 10, end: 60_010 },
        GroupSummary { rule: 1, group: group("alice"), count: 2, start: 12, end: 60_012 },
    ]);
}

#[test]
fn a_window_begins_with_its_first_match() {
    let c = clause(CompareOp::GreaterOrEqual, 1, Some(60_000));
    let mut acc = Accumulator::new(WindowAlignment::FirstMatch);
    acc.feed(0, &c, group("a"), None, 1_000);
    acc.feed(0, &c, group("a"), None, 60_999);
    acc.feed(0, &c, group("a"), None, 61_000);
    acc.feed(0, &c, group("a"), None, 999);
    acc.feed(0, &c, group("a"), None, 1_000);
    let out = acc.flush();
    assert_eq!(out, vec![
        GroupSummary { rule: 0, group: group("a"), count: 3, start: 1_000, end: 61_000 },
        GroupSummary { rule: 0, group: group("a"), count: 1, start: 61_000, end: 121_000 },
        GroupSummary { rule: 0, group: group("a"), count: 1, start: 999, end: 60_999 },
    ]);
}

#[test]
fn fixed_windows_tile_the_time_line() {
    let c = clause(CompareOp::GreaterOrEqual, 1, Some(60_000));
    let mut acc = Accumulator::new(WindowAlignment::Fixed);
    acc.feed(0, &c, group("a"), None, 61_000);
    acc.feed(0, &c, group("a"), None, 119_999);
    acc.feed(0, &c, group("a"), None, 60_000);
    acc.feed(0, &c, group("a"), None, 120_000);
    acc.feed(0, &c, group("a"), None, -1);
    let out = acc.flush();
    assert_eq!(out, vec![
        GroupSummary { rule: 0, group: group("a"), count: 3, start: 60_000, end: 120_000 },
        GroupSummary { rule: 0, group: group("a"), count: 1, start: 120_000, end: 180_000 },
        GroupSummary { rule: 0, group: group("a"), count: 1, start: -60_000, end: 0 },
    ]);
}

#[test]
fn without_a_window_one_bucket_spans_the_run() {
    let c = clause(CompareOp::Equal, 3, None);
    let mut acc = Accumulator::new(WindowAlignment::Fixed);
    acc.feed(0, &c, group("a"), None, 500);
    acc.feed(0, &c, group("a"), None, 9_000_000_000);
    acc.feed(0, &c, group("a"), None, -7);
    assert_eq!(acc.open_buckets(), 1);
    assert_eq!(acc.flush(), vec![GroupSummary {
        rule: 0,
        group: group("a"),
        count: 3,
        start: -7,
        end: 9_000_000_000,
    }]);
}

#[test]
fn distinct_values_are_counted_once() {
    let c = distinct(CompareOp::GreaterOrEqual, 2, Some(1_000));
    let mut acc = Accumulator::new(WindowAlignment::FirstMatch);
    acc.feed(0, &c, group("a"), Some("host1".to_string()), 0);
    acc.feed(0, &c, group("a"), Some("host2".to_string()), 1);
    acc.feed(0, &c, group("a"), Some("host1".to_string()), 2);
    acc.feed(0, &c, group("b"), Some("host1".to_string()), 3);
    acc.feed(0, &c, group("b"), Some("host1".to_string()), 4);
    let out = acc.flush();
    assert_eq!(out, vec![GroupSummary { rule: 0, group: group("a"), count: 2, start: 0, end: 1_000 }]);
}

#[test]
fn a_match_without_the_counted_field_is_not_fed() {
    let c = distinct(CompareOp::GreaterOrEqual, 1, Some(1_000));
    let mut acc = Accumulator::new(WindowAlignment::FirstMatch);
    acc.feed(0, &c, group("a"), None, 0);
    assert_eq!(acc.open_buckets(), 0);
    acc.feed(0, &c, group("a"), Some("h".to_string()), 1);
    acc.feed(0, &c, group("a"), None, 2);
    let out = acc.flush();
    assert_eq!(out, vec![GroupSummary { rule: 0, group: group("a"), count: 1, start: 1, end: 1_001 }]);
}

#[test]
fn every_comparison_is_applied_at_flush() {
    let cases = vec![
        (CompareOp::Greater, 2, false),
        (CompareOp::Greater, 1, true),
        (CompareOp::GreaterOrEqual, 2, true),
        (CompareOp::GreaterOrEqual, 3, false),
        (CompareOp::Equal, 2, true),
        (CompareOp::Equal, 1, false),
        (CompareOp::Less, 3, true),
        (CompareOp::Less, 2, false),
        (CompareOp::LessOrEqual, 2, true),
        (CompareOp::LessOrEqual, 1, false),
    ];
    for (op, threshold, fires) in cases {
        let c = clause(op, threshold, None);
        let mut acc = Accumulator::new(WindowAlignment::FirstMatch);
        acc.feed(0, &c, None, None, 0);
        acc.feed(0, &c, None, None, 0);
        assert_eq!(acc.flush().len(), if fires { 1 } else { 0 });
    }
}

#[test]
fn a_window_of_no_length_lasts_one_millisecond() {
    let c = clause(CompareOp::GreaterOrEqual, 1, Some(0));
    for alignment in [WindowAlignment::Fixed, WindowAlignment::FirstMatch] {
        let mut acc = Accumulator::new(alignment);
        acc.feed(0, &c, group("a"), None, 5);
        acc.feed(0, &c, group("a"), None, 5);
        acc.feed(0, &c, group("a"), None, 6);
        assert_eq!(acc.open_buckets(), 2);
        assert_eq!(acc.flush(), vec![
            GroupSummary { rule: 0, group: group("a"), count: 2, start: 5, end: 6 },
            GroupSummary { rule: 0, group: group("a"), count: 1, start: 6, end: 7 },
        ]);
    }
}

#[test]
fn windows_at_the_ends_of_time() {
    let c = clause(CompareOp::GreaterOrEqual, 2, Some(10));
    let mut acc = Accumulator::new(WindowAlignment::FirstMatch);
    acc.feed(0, &c, None, None, i64::MAX - 3);
    acc.feed(0, &c, None, None, i64::MAX);
    acc.feed(1, &c, None, None, i64::MIN);
    acc.feed(1, &c, None, None, i64::MIN + 9);
    assert_eq!(acc.flush(), vec![
        GroupSummary { rule: 0, group: None, count: 2, start: i64::MAX - 3, end: i64::MAX },
        GroupSummary { rule: 1, group: None, count: 2, start: i64::MIN, end: i64::MIN + 10 },
    ]);
}

#[test]
fn floor_time_gives_the_last_multiple_not_after() {
    assert_eq!(floor_time(125, 60), 120);
    assert_eq!(floor_time(120, 60), 120);
    assert_eq!(floor_time(0, 60), 0);
    assert_eq!(floor_time(59, 60), 0);
    assert_eq!(floor_time(-1, 60), -60);
    assert_eq!(floor_time(-60, 60), -60);
    assert_eq!(floor_time(-61, 60), -120);
    assert_eq!(floor_time(7, 1), 7);
    assert_eq!(floor_time(-7, 1), -7);
    assert_eq!(floor_time(5, u64::MAX), 0);
    assert_eq!(floor_time(i64::MAX, 2), i64::MAX - 1);
    assert_eq!(floor_time(i64::MIN, 2), i64::MIN);
    assert_eq!(floor_time(i64::MIN, 7), i64::MIN);
    assert_eq!(floor_time(-1, u64::MAX), i64::MIN);
    assert_eq!(floor_time(42, 0), 42);
    assert_eq!(floor_time(-42, 0), -42);
}

#[test]
fn same_group_compares_texts() {
    assert!(same_group(&None, &None));
    assert!(same_group(&group("a"), &group("a")));
    assert!(!same_group(&group("a"), &group("b")));
    assert!(!same_group(&group(""), &None));
    assert!(!same_group(&None, &group("a")));
}
