use rust_monitor::routes::{
    alerts, alerts_at, count_active, ct_eq, ingest, ingest_at, logs, logs_at, metrics, metrics_at,
    moment_before, AlertsQuery, IngestBody, IngestLine, IngestStep, LogsQuery, MetricsQuery,
    RowOrder,
};

fn now() -> i64 {
    std::time::SystemTime::now()
        .duration_since(std::time::UNIX_EPOCH)
        .unwrap()
        .as_secs() as i64
}

fn body(lines: &[(&str, &str, Option<i64>)]) -> IngestBody {
    IngestBody {
        logs: lines
            .iter()
            .map(|(source, line, ts)| IngestLine {
                source: source.to_string(),
                line: line.to_string(),
                ts: *ts,
            })
            .collect(),
    }
}

#[test]
fn metrics_are_selected_by_name_or_all() {
    let q = MetricsQuery { name: None, hours: None };
    let s = metrics_at(&q, 1_000_000).unwrap();
    assert_eq!((s.order, s.unresolved), (RowOrder::OldestFirst, false));
    assert_eq!((s.name, s.since, s.limit), (None, 1_000_000 - 86400, Some(1000)));
    let q = MetricsQuery { name: Some("cpu.usage".to_string()), hours: Some(2) };
    let s = metrics_at(&q, 1_000_000).unwrap();
    assert_eq!((s.name, s.since, s.limit), (Some("cpu.usage".to_string()), 992_800, None));
    let q = MetricsQuery { name: None, hours: Some(i64::MAX) };
    assert!(metrics_at(&q, 0).is_none());
    let q = MetricsQuery { name: None, hours: Some(-1) };
    let before = now();
    let since = metrics(&q).unwrap().since;
    assert!(before + 3600 <= since && since <= now() + 3600);
}

#[test]
fn logs_and_alerts_are_selected_by_age() {
    let s = logs_at(&LogsQuery { source: None, hours: None }, 10_000).unwrap();
    assert_eq!((s.order, s.unresolved), (RowOrder::NewestFirst, false));
    assert_eq!((s.name, s.since, s.limit), (None, 6400, Some(500)));
    let q = LogsQuery { source: Some("a".to_string()), hours: Some(0) };
    let s = logs_at(&q, 10_000).unwrap();
    assert_eq!((s.name, s.since, s.limit), (Some("a".to_string()), 10_000, Some(500)));
    assert!(logs_at(&LogsQuery { source: None, hours: Some(i64::MIN) }, 0).is_none());
    let s = alerts_at(&AlertsQuery { hours: None }, 100_000).unwrap();
    assert_eq!((s.order, s.unresolved), (RowOrder::NewestFirst, true));
    assert_eq!((s.name, s.since, s.limit), (None, 13_600, None));
    assert!(alerts_at(&AlertsQuery { hours: Some(i64::MAX) }, 0).is_none());
    let before = now();
    let since = logs(&LogsQuery { source: None, hours: Some(0) }).unwrap().since;
    assert!(before <= since && since <= now());
    let since = alerts(&AlertsQuery { hours: Some(0) }).unwrap().since;
    assert!(before <= since && since <= now());
}

#[test]
fn moments_stay_in_range() {
    assert_eq!(moment_before(100, 2, 30), Some(40));
    assert_eq!(moment_before(0, i64::MAX, 1), Some(-i64::MAX));
    assert_eq!(moment_before(-2, i64::MAX, 1), None);
    assert_eq!(moment_before(0, i64::MIN, 1), None);
    assert_eq!(moment_before(-1, i64::MIN, 1), Some(i64::MAX));
    assert_eq!(moment_before(0, i64::MAX / 2, 3), None);
}

#[test]
fn unresolved_alerts_are_active() {
    assert_eq!(count_active(&[]), 0);
    assert_eq!(count_active(&[None, Some(1), None]), 2);
}

#[test]
fn bytes_are_compared() {
    assert!(ct_eq(b"", b""));
    assert!(ct_eq(b"abc", b"abc"));
    assert!(!ct_eq(b"abc", b"abd"));
    assert!(!ct_eq(b"bbc", b"abc"));
    assert!(!ct_eq(b"abc", b"ab"));
    assert!(!ct_eq(&[0x80], &[0]));
}

fn refusal(step: IngestStep) -> (u16, String) {
    match step {
        IngestStep::Refuse { status, body } => (status, body),
        _ => panic!("a refusal was expected"),
    }
}

#[test]
fn only_the_token_lets_log_lines_in() {
    let one = body(&[("s", "l", None)]);
    let none = body(&[]);
    assert_eq!(
        refusal(ingest_at("", Some("Bearer "), None, &one, 0)),
        (503, "ingest disabled".to_string())
    );
    let invalid = (401, "invalid ingest token".to_string());
    assert_eq!(refusal(ingest_at("t", None, None, &one, 0)), invalid);
    assert_eq!(refusal(ingest_at("t", Some("Bearer x"), Some("t"), &one, 0)), invalid);
    assert_eq!(refusal(ingest_at("t", Some("bearer t"), None, &one, 0)), invalid);
    assert_eq!(refusal(ingest_at("t", Some("Bearer t "), None, &none, 0)), invalid);
    assert_eq!(refusal(ingest_at("t", None, Some("tt"), &none, 0)), invalid);
    assert!(matches!(ingest_at("t", Some("Bearer t"), None, &none, 0), IngestStep::Nothing));
    assert!(matches!(ingest_at("t", Some("Basic t"), Some("t"), &none, 0), IngestStep::Nothing));
    assert!(matches!(ingest("é", None, Some("é"), &one), IngestStep::Store(_)));
    assert_eq!(refusal(ingest("é", None, Some("e"), &one)), invalid);
}

#[test]
fn log_lines_are_stored_as_they_came() {
    let lines = body(&[("a", "1", Some(7)), ("b", "2", None)]);
    let stored = |step: IngestStep| -> Vec<(String, String, i64)> {
        match step {
            IngestStep::Store(entries) => {
                entries.into_iter().map(|e| (e.source, e.line, e.ts)).collect()
            }
            _ => panic!("entries were expected"),
        }
    };
    assert_eq!(
        stored(ingest_at("t", None, Some("t"), &lines, 99)),
        vec![
            ("a".to_string(), "1".to_string(), 7),
            ("b".to_string(), "2".to_string(), 99)
        ]
    );
    let before = now();
    let entries = stored(ingest("t", Some("Bearer t"), None, &lines));
    assert_eq!(entries[0].2, 7);
    assert!(before <= entries[1].2 && entries[1].2 <= now());
}
