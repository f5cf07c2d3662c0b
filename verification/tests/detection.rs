use hayabusa::batch::{batches_of, SourceItem};
use hayabusa::context::{Context, WindowAlignment};
use hayabusa::detection::{Detection, DetectionError, Finding, FindingSource};
use hayabusa::enrich::{enrich_batch, EnrichedRecord};
use hayabusa::pipeline::Pipeline;
use hayabusa::record::Value;
use hayabusa::rule::{
    get_all_keys, select_rules, AggregationClause, CompareOp, ConditionExpr, CountMode, Level,
    Matcher, Rule,
};
use hayabusa::stats::{Counter, StatCounters};

const EVENT_ID: &str = "Event.System.EventID";
const LOGON_TYPE: &str = "Event.EventData.LogonType";
const USER: &str = "Event.EventData.TargetUserName";
const HOST: &str = "Event.EventData.WorkstationName";
const TIME_KEY: &str = "Event.System.TimeCreated_attributes.SystemTime";

fn object(entries: Vec<(&str, Value)>) -> Value {
    Value::Object(entries.into_iter().map(|(k, v)| (k.to_string(), v)).collect())
}

fn logon(id: &str, logon_type: &str, user: &str, second: u32) -> Value {
    object(vec![(
        "Event",
        object(vec![
            (
                "System",
                object(vec![
                    ("EventID", Value::Number(id.to_string())),
                    (
                        "TimeCreated_attributes",
                        object(vec![(
                            "SystemTime",
                            Value::Text(format!("2021-12-23T00:00:{:02}Z", second)),
                        )]),
                    ),
                ]),
            ),
            (
                "EventData",
                object(vec![
                    ("LogonType", Value::Number(logon_type.to_string())),
                    ("TargetUserName", Value::Text(user.to_string())),
                ]),
            ),
        ]),
    )])
}

fn bare(id: &str) -> Value {
    object(vec![(
        "Event",
        object(vec![("System", object(vec![("EventID", Value::Number(id.to_string()))]))]),
    )])
}

fn is(key: &str, value: &str) -> ConditionExpr {
    ConditionExpr::Selection(key.to_string(), Matcher::Exact(value.to_string()))
}

fn rule(id: &str, level: Level, condition: ConditionExpr, aggregation: Option<AggregationClause>) -> Rule {
    Rule {
        id: id.to_string(),
        title: format!("title of {}", id),
        level,
        condition,
        aggregation,
        enabled: true,
    }
}

fn count_by_user(op: CompareOp, threshold: u64) -> AggregationClause {
    AggregationClause {
        mode: CountMode::Matches,
        group_by: Some(USER.to_string()),
        op,
        threshold,
        window: Some(60_000),
    }
}

fn context() -> Context {
    Context {
        max_batch: 2,
        event_id_key: EVENT_ID.to_string(),
        time_key: TIME_KEY.to_string(),
        target_event_ids: None,
        stat_fields: vec![EVENT_ID.to_string(), LOGON_TYPE.to_string()],
        quiet_errors: false,
        statistics_only: false,
        alignment: WindowAlignment::FirstMatch,
    }
}

fn enriched(records: Vec<Value>, origin: &str, rules: &Vec<Rule>) -> Vec<EnrichedRecord> {
    enrich_batch(records, origin, &get_all_keys(rules), TIME_KEY)
}

fn one(record: Value, keys: Vec<&str>) -> EnrichedRecord {
    let keys: Vec<String> = keys.into_iter().map(|s| s.to_string()).collect();
    enrich_batch(vec![record], "one", &keys, TIME_KEY).pop().unwrap()
}

fn hit(rule: &str, level: Level, origin: &str, position: usize, second: i64) -> Finding {
    Finding {
        rule_id: rule.to_string(),
        title: format!("title of {}", rule),
        level,
        timestamp: 1640217600000 + second * 1000,
        source: FindingSource::Record { origin: origin.to_string(), position },
    }
}

#[test]
fn conditions_combine_as_and_or_not() {
    let rec = one(logon("4624", "3", "alice", 0), vec![EVENT_ID, LOGON_TYPE]);
    assert!(is(EVENT_ID, "4624").evaluate(&rec));
    assert!(!is(EVENT_ID, "4625").evaluate(&rec));
    assert!(ConditionExpr::And(vec![is(EVENT_ID, "4624"), is(LOGON_TYPE, "3")]).evaluate(&rec));
    assert!(!ConditionExpr::And(vec![is(EVENT_ID, "4624"), is(LOGON_TYPE, "2")]).evaluate(&rec));
    assert!(ConditionExpr::Or(vec![is(EVENT_ID, "1"), is(LOGON_TYPE, "3")]).evaluate(&rec));
    assert!(!ConditionExpr::Or(vec![is(EVENT_ID, "1"), is(LOGON_TYPE, "2")]).evaluate(&rec));
    assert!(ConditionExpr::Not(Box::new(is(EVENT_ID, "1"))).evaluate(&rec));
    assert!(!ConditionExpr::Not(Box::new(is(EVENT_ID, "4624"))).evaluate(&rec));
    assert!(ConditionExpr::And(vec![]).evaluate(&rec));
    assert!(!ConditionExpr::Or(vec![]).evaluate(&rec));
    let nested = ConditionExpr::And(vec![
        ConditionExpr::Or(vec![is(EVENT_ID, "4625"), is(EVENT_ID, "4624")]),
        ConditionExpr::Not(Box::new(ConditionExpr::And(vec![is(LOGON_TYPE, "3"), is(EVENT_ID, "1")]))),
    ]);
    assert!(nested.evaluate(&rec));
}

#[test]
fn a_selection_on_an_absent_field_is_false() {
    let rec = one(bare("4624"), vec![EVENT_ID, LOGON_TYPE]);
    assert!(!is(LOGON_TYPE, "3").evaluate(&rec));
    assert!(!ConditionExpr::Selection(LOGON_TYPE.to_string(), Matcher::Wildcard("*".to_string()))
        .evaluate(&rec));
    assert!(!ConditionExpr::Selection(LOGON_TYPE.to_string(), Matcher::Regex(".*".to_string()))
        .evaluate(&rec));
    assert!(!ConditionExpr::And(vec![is(EVENT_ID, "4624"), is(LOGON_TYPE, "3")]).evaluate(&rec));
    assert!(ConditionExpr::Or(vec![is(LOGON_TYPE, "3"), is(EVENT_ID, "4624")]).evaluate(&rec));
    assert!(!ConditionExpr::Or(vec![is(LOGON_TYPE, "3"), is(EVENT_ID, "1")]).evaluate(&rec));
    assert!(ConditionExpr::Not(Box::new(is(LOGON_TYPE, "3"))).evaluate(&rec));
}

#[test]
fn a_field_outside_the_enriched_keys_is_absent() {
    let rec = one(logon("4624", "3", "alice", 0), vec![EVENT_ID]);
    assert!(!is(LOGON_TYPE, "3").evaluate(&rec));
}

#[test]
fn a_disabled_rule_never_applies() {
    let rec = one(bare("4624"), vec![EVENT_ID]);
    let mut r = rule("r", Level::Low, is(EVENT_ID, "4624"), None);
    assert!(r.applies(&rec));
    r.enabled = false;
    assert!(!r.applies(&rec));
}

#[test]
fn rule_keys_name_every_field_read() {
    let r = rule(
        "r",
        Level::Low,
        ConditionExpr::And(vec![
            is(EVENT_ID, "4624"),
            ConditionExpr::Not(Box::new(ConditionExpr::Or(vec![is(LOGON_TYPE, "3"), is(EVENT_ID, "1")]))),
        ]),
        Some(AggregationClause {
            mode: CountMode::Distinct(HOST.to_string()),
            group_by: Some(USER.to_string()),
            op: CompareOp::Greater,
            threshold: 1,
            window: None,
        }),
    );
    let mut keys = r.keys();
    keys.sort();
    keys.dedup();
    assert_eq!(keys, vec![
        LOGON_TYPE.to_string(),
        USER.to_string(),
        HOST.to_string(),
        EVENT_ID.to_string(),
    ]);
}

#[test]
fn get_all_keys_names_each_key_once() {
    let rules = vec![
        rule("a", Level::Low, ConditionExpr::And(vec![is(EVENT_ID, "1"), is(LOGON_TYPE, "3")]), None),
        rule("b", Level::Low, is(EVENT_ID, "2"), Some(count_by_user(CompareOp::Greater, 1))),
        rule("c", Level::Low, ConditionExpr::Or(vec![]), None),
    ];
    let mut keys = get_all_keys(&rules);
    assert_eq!(keys.len(), 3);
    keys.sort();
    assert_eq!(keys, vec![LOGON_TYPE.to_string(), USER.to_string(), EVENT_ID.to_string()]);
    assert!(get_all_keys(&Vec::new()).is_empty());
}

#[test]
fn select_rules_drops_low_levels_and_excluded_ids() {
    let rules = vec![
        rule("a", Level::Informational, is(EVENT_ID, "1"), None),
        rule("b", Level::High, is(EVENT_ID, "1"), None),
        rule("c", Level::Medium, is(EVENT_ID, "1"), None),
        rule("d", Level::Critical, is(EVENT_ID, "1"), None),
    ];
    let kept = select_rules(rules, Level::Medium, &vec!["d".to_string(), "x".to_string()]);
    let ids: Vec<&str> = kept.iter().map(|r| r.id.as_str()).collect();
    assert_eq!(ids, vec!["b", "c"]);
    assert!(select_rules(Vec::new(), Level::Low, &Vec::new()).is_empty());
}

#[test]
fn an_empty_corpus_is_refused() {
    assert_eq!(
        Detection::new(Vec::new(), WindowAlignment::FirstMatch).err(),
        Some(DetectionError::EmptyCorpus)
    );
    assert_eq!(Pipeline::new(context(), Vec::new()).err(), Some(DetectionError::EmptyCorpus));
    let d = Detection::new(vec![rule("a", Level::Low, is(EVENT_ID, "1"), None)], WindowAlignment::Fixed);
    assert_eq!(d.unwrap().corpus().len(), 1);
}

#[test]
fn one_finding_for_each_matching_record_and_rule() {
    let rules = vec![
        rule("by-id", Level::Low, is(EVENT_ID, "4624"), None),
        rule("by-type", Level::High, is(LOGON_TYPE, "3"), None),
        rule("counted", Level::Medium, is(EVENT_ID, "4624"), Some(count_by_user(CompareOp::Greater, 1))),
    ];
    let records = enriched(
        vec![logon("4624", "3", "alice", 1), logon("4624", "2", "alice", 2), logon("4625", "3", "bob", 3)],
        "sec.evtx",
        &rules,
    );
    let mut engine = Detection::new(rules, WindowAlignment::FirstMatch).unwrap();
    let out = engine.start(&records);
    assert_eq!(out, vec![
        hit("by-id", Level::Low, "sec.evtx", 0, 1),
        hit("by-type", Level::High, "sec.evtx", 0, 1),
        hit("by-id", Level::Low, "sec.evtx", 1, 2),
        hit("by-type", Level::High, "sec.evtx", 2, 3),
    ]);
    assert_eq!(engine.open_buckets(), 1);
    let late = engine.flush();
    assert_eq!(late, vec![Finding {
        rule_id: "counted".to_string(),
        title: "title of counted".to_string(),
        level: Level::Medium,
        timestamp: 1640217601000,
        source: FindingSource::Group {
            group: Some("alice".to_string()),
            count: 2,
            start: 1640217601000,
            end: 1640217661000,
        },
    }]);
    assert_eq!(engine.open_buckets(), 0);
    assert!(engine.flush().is_empty());
}

#[test]
fn aggregated_matches_are_never_findings_by_themselves() {
    let rules =
        vec![rule("counted", Level::Medium, is(EVENT_ID, "4624"), Some(count_by_user(CompareOp::Greater, 5)))];
    let six: Vec<Value> = (0..6).map(|i| logon("4624", "3", "alice", i)).collect();
    let records = enriched(six, "sec.evtx", &rules);
    let mut engine = Detection::new(rules, WindowAlignment::FirstMatch).unwrap();
    assert!(engine.start(&records).is_empty());
    let late = engine.flush();
    assert_eq!(late.len(), 1);
    assert_eq!(late[0].source, FindingSource::Group {
        group: Some("alice".to_string()),
        count: 6,
        start: 1640217600000,
        end: 1640217660000,
    });
}

#[test]
fn five_aggregated_matches_stay_under_a_threshold_of_five() {
    let rules =
        vec![rule("counted", Level::Medium, is(EVENT_ID, "4624"), Some(count_by_user(CompareOp::Greater, 5)))];
    let five: Vec<Value> = (0..5).map(|i| logon("4624", "3", "alice", i)).collect();
    let records = enriched(five, "sec.evtx", &rules);
    let mut engine = Detection::new(rules, WindowAlignment::FirstMatch).unwrap();
    assert!(engine.start(&records).is_empty());
    assert!(engine.flush().is_empty());
}

#[test]
fn aggregation_spans_batches_and_containers() {
    let rules =
        vec![rule("counted", Level::Medium, is(EVENT_ID, "4624"), Some(count_by_user(CompareOp::Equal, 3)))];
    let keys = get_all_keys(&rules);
    let mut engine = Detection::new(rules, WindowAlignment::FirstMatch).unwrap();
    let first = enrich_batch(vec![logon("4624", "3", "alice", 0)], "a.evtx", &keys, TIME_KEY);
    let second = enrich_batch(
        vec![logon("4624", "3", "alice", 1), logon("4624", "3", "bob", 2)],
        "a.evtx",
        &keys,
        TIME_KEY,
    );
    let third = enrich_batch(vec![logon("4624", "3", "alice", 3)], "b.evtx", &keys, TIME_KEY);
    assert!(engine.start(&first).is_empty());
    assert!(engine.start(&second).is_empty());
    assert!(engine.start(&third).is_empty());
    let late = engine.flush();
    assert_eq!(late.len(), 1);
    assert_eq!(late[0].source, FindingSource::Group {
        group: Some("alice".to_string()),
        count: 3,
        start: 1640217600000,
        end: 1640217660000,
    });
}

#[test]
fn distinct_values_are_counted_by_the_engine() {
    let clause = AggregationClause {
        mode: CountMode::Distinct(LOGON_TYPE.to_string()),
        group_by: Some(USER.to_string()),
        op: CompareOp::GreaterOrEqual,
        threshold: 2,
        window: None,
    };
    let rules = vec![rule("kinds", Level::Low, is(EVENT_ID, "4624"), Some(clause))];
    let records = enriched(
        vec![
            logon("4624", "3", "alice", 0),
            logon("4624", "3", "alice", 1),
            logon("4624", "10", "alice", 2),
            logon("4624", "3", "bob", 3),
            bare("4624"),
        ],
        "sec.evtx",
        &rules,
    );
    let mut engine = Detection::new(rules, WindowAlignment::FirstMatch).unwrap();
    assert!(engine.start(&records).is_empty());
    let late = engine.flush();
    assert_eq!(late.len(), 1);
    assert_eq!(late[0].source, FindingSource::Group {
        group: Some("alice".to_string()),
        count: 2,
        start: 1640217600000,
        end: 1640217602000,
    });
}

#[test]
fn counters_count_values_of_fields() {
    let mut stats = StatCounters::new();
    assert_eq!(stats.count(EVENT_ID, "4624"), 0);
    stats.bump(EVENT_ID, "4624");
    stats.bump(EVENT_ID, "4625");
    stats.bump(EVENT_ID, "4624");
    stats.bump(LOGON_TYPE, "4624");
    assert_eq!(stats.count(EVENT_ID, "4624"), 2);
    assert_eq!(stats.count(EVENT_ID, "4625"), 1);
    assert_eq!(stats.count(LOGON_TYPE, "4624"), 1);
    assert_eq!(stats.count(LOGON_TYPE, "3"), 0);
    assert_eq!(stats.snapshot(), vec![
        Counter { field: EVENT_ID.to_string(), value: "4624".to_string(), count: 2 },
        Counter { field: EVENT_ID.to_string(), value: "4625".to_string(), count: 1 },
        Counter { field: LOGON_TYPE.to_string(), value: "4624".to_string(), count: 1 },
    ]);
}

#[test]
fn counters_read_the_record_itself() {
    let mut stats = StatCounters::new();
    let fields = vec![EVENT_ID.to_string(), LOGON_TYPE.to_string()];
    stats.update(&fields, &logon("4624", "3", "alice", 0));
    stats.update(&fields, &bare("4624"));
    stats.update(&fields, &Value::Null);
    assert_eq!(stats.count(EVENT_ID, "4624"), 2);
    assert_eq!(stats.count(LOGON_TYPE, "3"), 1);
    // The statistics do not depend on what was enriched.
    let records = enrich_batch(vec![logon("4625", "2", "bob", 0)], "x", &Vec::new(), TIME_KEY);
    stats.update_all(&fields, &records);
    assert_eq!(stats.count(EVENT_ID, "4625"), 1);
    assert_eq!(stats.count(LOGON_TYPE, "2"), 1);
}

#[test]
fn a_statistics_run_evaluates_no_rule() {
    let mut ctx = context();
    ctx.statistics_only = true;
    let rules = vec![
        rule("by-id", Level::Low, is(EVENT_ID, "4624"), None),
        rule("counted", Level::Low, is(EVENT_ID, "4624"), Some(count_by_user(CompareOp::GreaterOrEqual, 1))),
    ];
    let mut run = Pipeline::new(ctx, rules).unwrap();
    let batch = run.enrich("a.evtx", vec![logon("4624", "3", "alice", 0)]);
    assert!(run.process_batch(&batch).is_empty());
    assert_eq!(run.stats.count(EVENT_ID, "4624"), 1);
    assert!(run.finish().is_empty());
}

#[test]
fn three_containers_end_to_end() {
    let rules = vec![rule(
        "network-logon",
        Level::Medium,
        ConditionExpr::And(vec![is(EVENT_ID, "4624"), is(LOGON_TYPE, "3")]),
        None,
    )];
    let mut run = Pipeline::new(context(), rules).unwrap();
    let containers: Vec<(&str, Vec<SourceItem>)> = vec![
        (
            "one.evtx",
            vec![
                Ok(logon("4624", "3", "alice", 1)),
                Ok(logon("4624", "2", "alice", 2)),
                Err("broken record".to_string()),
                Ok(logon("4625", "3", "bob", 3)),
            ],
        ),
        ("two.evtx", vec![Ok(logon("4624", "3", "carol", 4)), Ok(logon("4624", "3", "dave", 5))]),
        ("three.evtx", vec![Ok(logon("4688", "3", "erin", 6)), Ok(bare("4688"))]),
    ];
    let mut findings: Vec<Finding> = Vec::new();
    let mut errors: Vec<String> = Vec::new();
    for (origin, items) in containers {
        let (batches, log) = batches_of(&run.ctx, origin, items);
        errors.extend(log);
        for batch in batches {
            assert!(batch.len() <= 2);
            let records = run.enrich(origin, batch);
            findings.extend(run.process_batch(&records));
        }
    }
    findings.extend(run.finish());
    assert_eq!(run.stats.count(EVENT_ID, "4624"), 4);
    assert_eq!(run.stats.count(EVENT_ID, "4625"), 1);
    assert_eq!(run.stats.count(EVENT_ID, "4688"), 2);
    assert_eq!(run.stats.count(LOGON_TYPE, "3"), 5);
    assert_eq!(findings, vec![
        hit("network-logon", Level::Medium, "one.evtx", 0, 1),
        hit("network-logon", Level::Medium, "two.evtx", 0, 4),
        hit("network-logon", Level::Medium, "two.evtx", 1, 5),
    ]);
    assert_eq!(errors, vec![
        "[ERROR] Failed to parse event file. EventFile:one.evtx Error:broken record".to_string()
    ]);
}

#[test]
fn aggregated_findings_come_after_all_others() {
    let rules = vec![
        rule("counted", Level::High, is(EVENT_ID, "4625"), Some(count_by_user(CompareOp::GreaterOrEqual, 2))),
        rule("single", Level::Low, is(EVENT_ID, "4624"), None),
    ];
    let mut run = Pipeline::new(context(), rules).unwrap();
    let mut findings: Vec<Finding> = Vec::new();
    for (origin, records) in vec![
        ("a.evtx", vec![logon("4625", "3", "bob", 0), logon("4624", "3", "alice", 1)]),
        ("b.evtx", vec![logon("4625", "3", "bob", 2), logon("4624", "3", "alice", 3)]),
    ] {
        let batch = run.enrich(origin, records);
        findings.extend(run.process_batch(&batch));
    }
    findings.extend(run.finish());
    let ids: Vec<&str> = findings.iter().map(|f| f.rule_id.as_str()).collect();
    assert_eq!(ids, vec!["single", "single", "counted"]);
    assert_eq!(findings[2].source, FindingSource::Group {
        group: Some("bob".to_string()),
        count: 2,
        start: 1640217600000,
        end: 1640217660000,
    });
}
