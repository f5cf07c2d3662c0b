use hayabusa::batch::{batches_of, failure_message, BatchDriver, DriverAction, SourceEvent, SourceItem};
use hayabusa::context::{Context, WindowAlignment, MAX_DETECT_RECORDS};
use hayabusa::record::Value;

fn context(max_batch: usize, ids: Option<Vec<&str>>, quiet: bool) -> Context {
    Context {
        max_batch,
        event_id_key: "EventID".to_string(),
        time_key: "Time".to_string(),
        target_event_ids: ids.map(|l| l.into_iter().map(|s| s.to_string()).collect()),
        stat_fields: Vec::new(),
        quiet_errors: quiet,
        statistics_only: false,
        alignment: WindowAlignment::FirstMatch,
    }
}

fn record(id: &str, seq: usize) -> Value {
    Value::Object(vec![
        ("EventID".to_string(), Value::Number(id.to_string())),
        ("Seq".to_string(), Value::Number(seq.to_string())),
    ])
}

fn records(n: usize) -> Vec<SourceItem> {
    (0..n).map(|i| Ok(record("1", i))).collect()
}

#[test]
fn the_batch_limit_is_five_thousand() {
    assert_eq!(MAX_DETECT_RECORDS, 5000);
}

#[test]
fn full_batches_then_one_partial_batch() {
    let ctx = context(MAX_DETECT_RECORDS, None, false);
    let (batches, errors) = batches_of(&ctx, "big.evtx", records(5000 * 2 + 3));
    let sizes: Vec<usize> = batches.iter().map(|b| b.len()).collect();
    assert_eq!(sizes, vec![5000, 5000, 3]);
    assert!(errors.is_empty());
    assert_eq!(batches[0][0], record("1", 0));
    assert_eq!(batches[0][4999], record("1", 4999));
    assert_eq!(batches[1][0], record("1", 5000));
    assert_eq!(batches[2][2], record("1", 10002));
}

#[test]
fn a_whole_number_of_batches_leaves_no_empty_batch() {
    let ctx = context(4, None, false);
    let (batches, _) = batches_of(&ctx, "c", records(12));
    let sizes: Vec<usize> = batches.iter().map(|b| b.len()).collect();
    assert_eq!(sizes, vec![4, 4, 4]);
    let (none, _) = batches_of(&ctx, "c", Vec::new());
    assert!(none.is_empty());
    let (one, _) = batches_of(&ctx, "c", records(1));
    assert_eq!(one.len(), 1);
    assert_eq!(one[0].len(), 1);
}

#[test]
fn no_batch_exceeds_the_limit() {
    for limit in 1..7usize {
        for n in 0..30usize {
            let ctx = context(limit, None, false);
            let (batches, _) = batches_of(&ctx, "c", records(n));
            assert_eq!(batches.len(), (n + limit - 1) / limit);
            let mut next = 0;
            for (i, b) in batches.iter().enumerate() {
                assert!(!b.is_empty() && b.len() <= limit);
                if i + 1 < batches.len() {
                    assert_eq!(b.len(), limit);
                }
                for r in b {
                    assert_eq!(*r, record("1", next));
                    next += 1;
                }
            }
            assert_eq!(next, n);
        }
    }
}

#[test]
fn a_limit_of_zero_counts_as_one() {
    let ctx = context(0, None, false);
    let (batches, _) = batches_of(&ctx, "c", records(3));
    let sizes: Vec<usize> = batches.iter().map(|b| b.len()).collect();
    assert_eq!(sizes, vec![1, 1, 1]);
}

#[test]
fn decode_failures_are_logged_and_skipped() {
    let ctx = context(2, None, false);
    let items: Vec<SourceItem> = vec![
        Ok(record("1", 0)),
        Err("bad chunk".to_string()),
        Ok(record("1", 1)),
        Err("bad record".to_string()),
        Ok(record("1", 2)),
    ];
    let (batches, errors) = batches_of(&ctx, "a.evtx", items);
    let sizes: Vec<usize> = batches.iter().map(|b| b.len()).collect();
    assert_eq!(sizes, vec![2, 1]);
    assert_eq!(batches[1][0], record("1", 2));
    assert_eq!(errors, vec![
        "[ERROR] Failed to parse event file. EventFile:a.evtx Error:bad chunk".to_string(),
        "[ERROR] Failed to parse event file. EventFile:a.evtx Error:bad record".to_string(),
    ]);
}

#[test]
fn quiet_runs_keep_failures_out_of_the_log() {
    let ctx = context(2, None, true);
    let items: Vec<SourceItem> = vec![Err("bad".to_string()), Ok(record("1", 0))];
    let (batches, errors) = batches_of(&ctx, "a.evtx", items);
    assert_eq!(batches.len(), 1);
    assert!(errors.is_empty());
}

#[test]
fn filtered_records_do_not_count_towards_a_batch() {
    let ctx = context(2, Some(vec!["4624"]), false);
    let items: Vec<SourceItem> = vec![
        Ok(record("4624", 0)),
        Ok(record("1", 1)),
        Ok(record("1", 2)),
        Ok(record("4624", 3)),
        Ok(record("4624", 4)),
        Ok(record("7", 5)),
    ];
    let (batches, _) = batches_of(&ctx, "c", items);
    assert_eq!(batches, vec![
        vec![record("4624", 0), record("4624", 3)],
        vec![record("4624", 4)],
    ]);
    let all_filtered: Vec<SourceItem> = vec![Ok(record("1", 0)), Ok(record("2", 1))];
    let (none, _) = batches_of(&ctx, "c", all_filtered);
    assert!(none.is_empty());
}

#[test]
fn failure_message_has_the_log_format() {
    assert_eq!(
        failure_message("C:\\logs\\Security.evtx", "unexpected EOF"),
        "[ERROR] Failed to parse event file. EventFile:C:\\logs\\Security.evtx Error:unexpected EOF"
    );
    assert_eq!(failure_message("", ""), "[ERROR] Failed to parse event file. EventFile: Error:");
}

#[test]
fn the_driver_steps_through_a_container() {
    let ctx = context(2, Some(vec!["1"]), false);
    let mut driver = BatchDriver::new(&ctx, "c.evtx");
    assert_eq!(driver.gathered(), 0);
    assert_eq!(driver.step(&ctx, SourceEvent::Record(record("1", 0))), DriverAction::Pull);
    assert_eq!(driver.gathered(), 1);
    assert_eq!(driver.step(&ctx, SourceEvent::Record(record("9", 1))), DriverAction::Pull);
    assert_eq!(driver.gathered(), 1);
    assert_eq!(driver.step(&ctx, SourceEvent::Failure("oops".to_string())), DriverAction::Pull);
    assert_eq!(
        driver.step(&ctx, SourceEvent::Record(record("1", 2))),
        DriverAction::Dispatch(vec![record("1", 0), record("1", 2)])
    );
    assert_eq!(driver.gathered(), 0);
    assert_eq!(driver.step(&ctx, SourceEvent::Record(record("1", 3))), DriverAction::Pull);
    assert_eq!(
        driver.step(&ctx, SourceEvent::Exhausted),
        DriverAction::Dispatch(vec![record("1", 3)])
    );
    assert_eq!(driver.step(&ctx, SourceEvent::Exhausted), DriverAction::Finish);
    assert_eq!(driver.into_errors(), vec![
        "[ERROR] Failed to parse event file. EventFile:c.evtx Error:oops".to_string()
    ]);
}

#[test]
fn an_empty_container_finishes_at_once() {
    let ctx = context(5000, None, false);
    let mut driver = BatchDriver::new(&ctx, "empty.evtx");
    assert_eq!(driver.step(&ctx, SourceEvent::Exhausted), DriverAction::Finish);
    assert!(driver.into_errors().is_empty());
}
