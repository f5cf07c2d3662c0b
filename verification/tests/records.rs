use hayabusa::context::{Context, WindowAlignment};
use hayabusa::enrich::{enrich_batch, enrich_record, event_time, timestamp_or_epoch};
use hayabusa::order::collect_in_order;
use hayabusa::record::{lookup, lookup_text, member_of, render, split_path, Value};

fn text(s: &str) -> Value {
    Value::Text(s.to_string())
}

fn number(s: &str) -> Value {
    Value::Number(s.to_string())
}

fn object(entries: Vec<(&str, Value)>) -> Value {
    Value::Object(entries.into_iter().map(|(k, v)| (k.to_string(), v)).collect())
}

fn logon(id: &str, logon_type: &str, user: &str, time: &str) -> Value {
    object(vec![(
        "Event",
        object(vec![
            (
                "System",
                object(vec![
                    ("EventID", number(id)),
                    ("Channel", text("Security")),
                    ("TimeCreated_attributes", object(vec![("SystemTime", text(time))])),
                ]),
            ),
            (
                "EventData",
                object(vec![("LogonType", number(logon_type)), ("TargetUserName", text(user))]),
            ),
        ]),
    )])
}

fn context(ids: Option<Vec<&str>>) -> Context {
    Context {
        max_batch: 5000,
        event_id_key: "Event.System.EventID".to_string(),
        time_key: "Event.System.TimeCreated_attributes.SystemTime".to_string(),
        target_event_ids: ids.map(|l| l.into_iter().map(|s| s.to_string()).collect()),
        stat_fields: vec!["Event.System.EventID".to_string()],
        quiet_errors: false,
        statistics_only: false,
        alignment: WindowAlignment::FirstMatch,
    }
}

fn keys(list: Vec<&str>) -> Vec<String> {
    list.into_iter().map(|s| s.to_string()).collect()
}

const TIME_KEY: &str = "Event.System.TimeCreated_attributes.SystemTime";

#[test]
fn split_path_cuts_at_every_dot() {
    assert_eq!(split_path("Event.System.EventID"), vec![
        vec!['E', 'v', 'e', 'n', 't'],
        vec!['S', 'y', 's', 't', 'e', 'm'],
        vec!['E', 'v', 'e', 'n', 't', 'I', 'D'],
    ]);
    assert_eq!(split_path("EventID"), vec![vec!['E', 'v', 'e', 'n', 't', 'I', 'D']]);
    assert_eq!(split_path(""), vec![Vec::<char>::new()]);
    assert_eq!(split_path("a..b"), vec![vec!['a'], vec![], vec!['b']]);
    assert_eq!(split_path("a."), vec![vec!['a'], vec![]]);
}

#[test]
fn member_of_takes_the_first_entry_of_the_name() {
    let v = object(vec![("a", number("1")), ("b", number("2")), ("a", number("3"))]);
    assert_eq!(member_of(&v, &vec!['a']), Some(&number("1")));
    assert_eq!(member_of(&v, &vec!['b']), Some(&number("2")));
    assert_eq!(member_of(&v, &vec!['c']), None);
    assert_eq!(member_of(&text("a"), &vec!['a']), None);
    assert_eq!(member_of(&Value::Array(vec![number("1")]), &vec!['0']), None);
}

#[test]
fn lookup_follows_the_path() {
    let r = logon("4624", "3", "alice", "2021-12-23T00:00:00.000000Z");
    assert_eq!(lookup(&r, "Event.System.EventID"), Some(&number("4624")));
    assert_eq!(lookup(&r, "Event.EventData.TargetUserName"), Some(&text("alice")));
    assert!(matches!(lookup(&r, "Event.System"), Some(Value::Object(_))));
    assert_eq!(lookup(&r, "Event.System.Missing"), None);
    assert_eq!(lookup(&r, "Event.System.EventID.Deeper"), None);
    assert_eq!(lookup(&r, ""), None);
    assert_eq!(lookup(&r, "EventID"), None);
}

#[test]
fn render_gives_the_text_of_scalars_only() {
    assert_eq!(render(&text("x")), Some("x".to_string()));
    assert_eq!(render(&number("4624")), Some("4624".to_string()));
    assert_eq!(render(&Value::Bool(true)), Some("true".to_string()));
    assert_eq!(render(&Value::Bool(false)), Some("false".to_string()));
    assert_eq!(render(&Value::Null), None);
    assert_eq!(render(&Value::Array(vec![])), None);
    assert_eq!(render(&object(vec![])), None);
}

#[test]
fn lookup_text_reads_scalars() {
    let r = logon("4624", "3", "alice", "2021-12-23T00:00:00.000000Z");
    assert_eq!(lookup_text(&r, "Event.System.EventID"), Some("4624".to_string()));
    assert_eq!(lookup_text(&r, "Event.System.Channel"), Some("Security".to_string()));
    assert_eq!(lookup_text(&r, "Event.System"), None);
    assert_eq!(lookup_text(&r, "Event.Nowhere"), None);
}

#[test]
fn prefilter_passes_everything_without_allow_set() {
    let ctx = context(None);
    assert!(ctx.is_target_event_id(&logon("4624", "3", "a", "")));
    assert!(ctx.is_target_event_id(&Value::Null));
}

#[test]
fn prefilter_keeps_listed_identifiers() {
    let ctx = context(Some(vec!["4624", "4625"]));
    assert!(ctx.is_target_event_id(&logon("4624", "3", "a", "")));
    assert!(ctx.is_target_event_id(&logon("4625", "3", "a", "")));
    assert!(!ctx.is_target_event_id(&logon("4688", "3", "a", "")));
    let as_text = object(vec![(
        "Event",
        object(vec![("System", object(vec![("EventID", text("4624"))]))]),
    )]);
    assert!(ctx.is_target_event_id(&as_text));
    let other_text = object(vec![(
        "Event",
        object(vec![("System", object(vec![("EventID", text("1"))]))]),
    )]);
    assert!(!ctx.is_target_event_id(&other_text));
}

#[test]
fn prefilter_passes_records_without_a_usable_identifier() {
    let ctx = context(Some(vec!["4624"]));
    assert!(ctx.is_target_event_id(&object(vec![])));
    let odd = object(vec![(
        "Event",
        object(vec![("System", object(vec![("EventID", object(vec![]))]))]),
    )]);
    assert!(ctx.is_target_event_id(&odd));
    let empty = context(Some(vec![]));
    assert!(empty.is_target_event_id(&object(vec![])));
    assert!(!empty.is_target_event_id(&logon("4624", "3", "a", "")));
}

#[test]
fn event_time_reads_rfc3339() {
    assert_eq!(
        event_time(&logon("1", "3", "a", "2021-12-23T00:00:00.000000Z"), TIME_KEY),
        1640217600000
    );
    assert_eq!(
        event_time(&logon("1", "3", "a", "2021-12-23T00:00:00.123Z"), TIME_KEY),
        1640217600123
    );
    assert_eq!(
        event_time(&logon("1", "3", "a", "2021-12-23T09:00:01+09:00"), TIME_KEY),
        1640217601000
    );
    assert_eq!(event_time(&logon("1", "3", "a", "1970-01-01T00:00:00Z"), TIME_KEY), 0);
    assert_eq!(event_time(&logon("1", "3", "a", "1969-12-31T23:59:59Z"), TIME_KEY), -1000);
}

#[test]
fn event_time_falls_back_to_the_epoch() {
    assert_eq!(event_time(&logon("1", "3", "a", "yesterday"), TIME_KEY), 0);
    assert_eq!(event_time(&logon("1", "3", "a", ""), TIME_KEY), 0);
    assert_eq!(event_time(&object(vec![]), TIME_KEY), 0);
    assert_eq!(timestamp_or_epoch(None), 0);
    assert_eq!(timestamp_or_epoch(Some(-5)), -5);
    assert_eq!(timestamp_or_epoch(Some(1640217600000)), 1640217600000);
}

#[test]
fn enrich_record_holds_the_referenced_fields_only() {
    let r = logon("4624", "3", "alice", "2021-12-23T00:00:00.000000Z");
    let e = enrich_record(
        r,
        "Security.evtx",
        7,
        &keys(vec!["Event.System.EventID", "Event.EventData.LogonType", "Event.Absent"]),
        TIME_KEY,
    );
    assert_eq!(e.origin, "Security.evtx");
    assert_eq!(e.position, 7);
    assert_eq!(e.timestamp, 1640217600000);
    assert_eq!(e.record, logon("4624", "3", "alice", "2021-12-23T00:00:00.000000Z"));
    assert_eq!(e.field("Event.System.EventID"), Some(&"4624".to_string()));
    assert_eq!(e.field("Event.EventData.LogonType"), Some(&"3".to_string()));
    assert_eq!(e.field("Event.Absent"), None);
    assert_eq!(e.field("Event.EventData.TargetUserName"), None);
    assert_eq!(e.cache.len(), 2);
}

#[test]
fn enrich_record_with_a_key_named_twice() {
    let r = logon("4624", "3", "alice", "");
    let e = enrich_record(r, "x", 0, &keys(vec!["Event.System.EventID", "Event.System.EventID"]), TIME_KEY);
    assert_eq!(e.field("Event.System.EventID"), Some(&"4624".to_string()));
}

#[test]
fn enrich_batch_preserves_order() {
    let batch = vec![
        logon("1", "3", "A", ""),
        logon("2", "3", "B", ""),
        logon("3", "3", "C", ""),
    ];
    let out = enrich_batch(batch, "c.evtx", &keys(vec!["Event.EventData.TargetUserName"]), TIME_KEY);
    assert_eq!(out.len(), 3);
    let users: Vec<&str> =
        out.iter().map(|e| e.field("Event.EventData.TargetUserName").unwrap().as_str()).collect();
    assert_eq!(users, vec!["A", "B", "C"]);
    let positions: Vec<usize> = out.iter().map(|e| e.position).collect();
    assert_eq!(positions, vec![0, 1, 2]);
    assert!(out.iter().all(|e| e.origin == "c.evtx"));
    assert_eq!(enrich_batch(Vec::new(), "c.evtx", &Vec::new(), TIME_KEY).len(), 0);
}

#[test]
fn collect_in_order_restores_submission_order() {
    let k = keys(vec!["Event.EventData.TargetUserName"]);
    let a = enrich_record(logon("1", "3", "A", ""), "c", 0, &k, TIME_KEY);
    let b = enrich_record(logon("2", "3", "B", ""), "c", 1, &k, TIME_KEY);
    let c = enrich_record(logon("3", "3", "C", ""), "c", 2, &k, TIME_KEY);
    // C's enrichment finished first, then A's, then B's.
    let ordered = collect_in_order(vec![c, a, b]).unwrap();
    let users: Vec<&str> = ordered
        .iter()
        .map(|e| e.field("Event.EventData.TargetUserName").unwrap().as_str())
        .collect();
    assert_eq!(users, vec!["A", "B", "C"]);
    assert_eq!(collect_in_order(Vec::new()), Some(Vec::new()));
}

#[test]
fn collect_in_order_refuses_a_lost_or_doubled_record() {
    let k = keys(vec![]);
    let make = |p: usize| enrich_record(Value::Null, "c", p, &k, TIME_KEY);
    assert_eq!(collect_in_order(vec![make(0), make(0)]), None);
    assert_eq!(collect_in_order(vec![make(0), make(2)]), None);
    assert_eq!(collect_in_order(vec![make(1)]), None);
    assert_eq!(collect_in_order(vec![make(3), make(1), make(1), make(0)]), None);
    assert!(collect_in_order(vec![make(1), make(0)]).is_some());
}
