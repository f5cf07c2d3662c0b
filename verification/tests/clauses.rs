use hayabusa::clause_text::{find_bar, find_words, parse_clause, read_rule_condition};
use hayabusa::condition::{ConditionError, NamedSelection};
use hayabusa::rule::{AggregationClause, CompareOp, ConditionExpr, CountMode, Matcher};

fn clause(
    mode: CountMode,
    group_by: Option<&str>,
    op: CompareOp,
    threshold: u64,
    window: Option<u64>,
) -> AggregationClause {
    AggregationClause { mode, group_by: group_by.map(|s| s.to_string()), op, threshold, window }
}

fn is(key: &str, value: &str) -> ConditionExpr {
    ConditionExpr::Selection(key.to_string(), Matcher::Exact(value.to_string()))
}

fn selections() -> Vec<NamedSelection> {
    vec![
        NamedSelection { name: "failed".to_string(), condition: is("EventID", "4625") },
        NamedSelection { name: "local".to_string(), condition: is("LogonType", "2") },
    ]
}

#[test]
fn find_words_skips_blanks() {
    let chars: Vec<char> = "  count()  by User >  5 ".chars().collect();
    assert_eq!(find_words(&chars, 0), vec![(2, 9), (11, 13), (14, 18), (19, 20), (22, 23)]);
    assert_eq!(find_words(&chars, 9), vec![(11, 13), (14, 18), (19, 20), (22, 23)]);
    assert_eq!(find_words(&chars, 12), vec![(12, 13), (14, 18), (19, 20), (22, 23)]);
    assert_eq!(find_words(&chars, 24), Vec::new());
    assert_eq!(find_words(&chars, 99), Vec::new());
    assert_eq!(find_words(&Vec::new(), 0), Vec::new());
}

#[test]
fn find_bar_finds_the_first_bar() {
    assert_eq!(find_bar(&"a | b | c".chars().collect()), 2);
    assert_eq!(find_bar(&"|".chars().collect()), 0);
    assert_eq!(find_bar(&"a and b".chars().collect()), 7);
    assert_eq!(find_bar(&Vec::new()), 0);
}

#[test]
fn parse_clause_reads_count_by_threshold_and_window() {
    assert_eq!(
        parse_clause("count() by Event.EventData.TargetUserName > 5 within 5m", 0),
        Some(clause(
            CountMode::Matches,
            Some("Event.EventData.TargetUserName"),
            CompareOp::Greater,
            5,
            Some(300_000)
        ))
    );
    assert_eq!(
        parse_clause("count(Event.EventData.IpAddress) >= 10", 0),
        Some(clause(
            CountMode::Distinct("Event.EventData.IpAddress".to_string()),
            None,
            CompareOp::GreaterOrEqual,
            10,
            None
        ))
    );
    assert_eq!(
        parse_clause("x | count(Host) by User == 0 within 1d", 3),
        Some(clause(
            CountMode::Distinct("Host".to_string()),
            Some("User"),
            CompareOp::Equal,
            0,
            Some(86_400_000)
        ))
    );
    assert_eq!(
        parse_clause("count() < 3 within 90s", 0),
        Some(clause(CountMode::Matches, None, CompareOp::Less, 3, Some(90_000)))
    );
    assert_eq!(
        parse_clause("count() <= 9223372036854775807 within 2h", 0),
        Some(clause(CountMode::Matches, None, CompareOp::LessOrEqual, i64::MAX as u64, Some(7_200_000)))
    );
    assert_eq!(
        parse_clause("count() by by > 1", 0),
        Some(clause(CountMode::Matches, Some("by"), CompareOp::Greater, 1, None))
    );
}

#[test]
fn parse_clause_takes_a_window_of_no_length() {
    assert_eq!(
        parse_clause("count() > 1 within 0s", 0),
        Some(clause(CountMode::Matches, None, CompareOp::Greater, 1, Some(0)))
    );
}

#[test]
fn parse_clause_rejects_what_is_no_clause() {
    for text in [
        "",
        "count()",
        "count() >",
        "count() > five",
        "count() > -1",
        "count() > 5 within",
        "count() > 5 within 5",
        "count() > 5 within m",
        "count() > 5 within 5w",
        "count() > 5 within -5m",
        "count() > 5 inside 5m",
        "count() > 5 within 5m more",
        "count() by > 5",
        "count() by User",
        "count() by User => 5",
        "count( > 5",
        "count > 5",
        "Count() > 5",
        "count ( ) > 5",
        "count() != 5",
        "count() > 9223372036854775808",
        "count() > 1 within 999999999999999999d",
    ] {
        assert_eq!(parse_clause(text, 0), None, "{:?}", text);
    }
}

#[test]
fn durations_are_in_milliseconds() {
    let window = |text: &str| parse_clause(text, 0).and_then(|c| c.window);
    assert_eq!(window("count() > 1 within 1s"), Some(1_000));
    assert_eq!(window("count() > 1 within 1m"), Some(60_000));
    assert_eq!(window("count() > 1 within 1h"), Some(3_600_000));
    assert_eq!(window("count() > 1 within 1d"), Some(86_400_000));
    assert_eq!(window("count() > 1 within 15m"), Some(900_000));
    assert_eq!(window("count() > 1 within 18446744073709551s"), Some(18_446_744_073_709_551_000));
    assert_eq!(window("count() > 1 within 18446744073709552s"), None);
}

#[test]
fn read_rule_condition_without_a_clause() {
    assert_eq!(
        read_rule_condition("failed and not local", &selections()),
        Ok((
            ConditionExpr::And(vec![
                is("EventID", "4625"),
                ConditionExpr::Not(Box::new(is("LogonType", "2")))
            ]),
            None
        ))
    );
}

#[test]
fn read_rule_condition_with_a_clause() {
    assert_eq!(
        read_rule_condition("failed | count() by User > 5 within 10m", &selections()),
        Ok((
            is("EventID", "4625"),
            Some(clause(CountMode::Matches, Some("User"), CompareOp::Greater, 5, Some(600_000)))
        ))
    );
    assert_eq!(
        read_rule_condition("failed|count(Host)>=2", &selections()),
        Err(ConditionError::BadAggregation)
    );
    assert_eq!(
        read_rule_condition("failed|count(Host) >= 2", &selections()),
        Ok((
            is("EventID", "4625"),
            Some(clause(CountMode::Distinct("Host".to_string()), None, CompareOp::GreaterOrEqual, 2, None))
        ))
    );
}

#[test]
fn read_rule_condition_reports_the_condition_first() {
    assert_eq!(
        read_rule_condition("failed and | count() > 5", &selections()),
        Err(ConditionError::Malformed)
    );
    assert_eq!(
        read_rule_condition("failed and unknown | nonsense", &selections()),
        Err(ConditionError::UnknownName(11))
    );
    assert_eq!(
        read_rule_condition("failed & local | count() > 5", &selections()),
        Err(ConditionError::BadCharacter(7))
    );
    assert_eq!(read_rule_condition("| count() > 5", &selections()), Err(ConditionError::Malformed));
    assert_eq!(read_rule_condition("failed |", &selections()), Err(ConditionError::BadAggregation));
    assert_eq!(
        read_rule_condition("failed | count() > 5 | count() > 6", &selections()),
        Err(ConditionError::BadAggregation)
    );
}
