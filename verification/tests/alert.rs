use rust_monitor::alert::{
    evaluate_alerts, evaluate_rule, log_line, log_line_at, sample_cutoff, violates, AlertAction,
    AlertRule, Sample, Watched,
};
use rust_monitor::schema::seed_alert_rules;

fn sample(value: f64, threshold: f64) -> Sample {
    Sample {
        above: value > threshold,
        below: value < threshold,
        close: (value - threshold).abs() < f64::EPSILON,
        shown: format!("{value:.1}"),
    }
}

fn rule(operator: &str) -> AlertRule {
    AlertRule {
        id: 1,
        name: "High CPU".to_string(),
        metric_name: "cpu.usage".to_string(),
        operator: operator.to_string(),
        threshold: format!("{:.1}", 90.0),
        duration_secs: 300,
    }
}

#[test]
fn operators_compare() {
    let (low, same, high) = (sample(1.0, 2.0), sample(2.0, 2.0), sample(3.0, 2.0));
    assert!(violates(&high, "gt") && !violates(&same, "gt") && !violates(&low, "gt"));
    assert!(!violates(&high, "lt") && !violates(&same, "lt") && violates(&low, "lt"));
    assert!(!violates(&high, "eq") && violates(&same, "eq") && !violates(&low, "eq"));
    assert!(!violates(&high, "ge") && !violates(&same, "") && !violates(&low, "GT"));
}

#[test]
fn alert_is_opened_and_resolved() {
    let bad = [sample(95.0, 90.0), sample(91.25, 90.0)];
    let mixed = [sample(95.0, 90.0), sample(89.95, 90.0)];
    match evaluate_rule(&rule("gt"), &bad, false, 700) {
        AlertAction::Trigger { rule_id, at, sample, message } => {
            // The newest sample is recorded and shown.
            assert_eq!((rule_id, at, sample), (1, 700, 1));
            assert_eq!(
                message,
                "ALERT rule=\"High CPU\" metric=\"cpu.usage\" value=91.2 threshold=90.0"
            );
        }
        _ => panic!("an alert was expected"),
    }
    assert!(matches!(evaluate_rule(&rule("gt"), &bad, true, 0), AlertAction::Nothing));
    assert!(matches!(evaluate_rule(&rule("gt"), &mixed, false, 0), AlertAction::Nothing));
    match evaluate_rule(&rule("gt"), &mixed, true, 800) {
        AlertAction::Resolve { rule_id, at, message } => {
            assert_eq!((rule_id, at), (1, 800));
            assert_eq!(
                message,
                format!("RESOLVED rule=\"High CPU\" metric=\"cpu.usage\" value={:.1}", 89.95)
            );
        }
        _ => panic!("a resolution was expected"),
    }
    assert!(matches!(evaluate_rule(&rule("gt"), &[], false, 0), AlertAction::Nothing));
    assert!(matches!(evaluate_rule(&rule("gt"), &[], true, 0), AlertAction::Nothing));
    assert!(matches!(evaluate_rule(&rule("??"), &bad, true, 0), AlertAction::Resolve { .. }));
}

#[test]
fn rules_are_looked_at_one_by_one() {
    let watched = |value: f64, open_events: i64| Watched {
        rule: rule("gt"),
        samples: vec![sample(value, 90.0)],
        open_events,
    };
    let list = [watched(95.0, 0), watched(95.0, 1), watched(1.0, 2), watched(1.0, 0)];
    let actions = evaluate_alerts(&list, 9);
    assert_eq!(actions.len(), 4);
    assert!(matches!(actions[0], AlertAction::Trigger { .. }));
    assert!(matches!(actions[1], AlertAction::Nothing));
    assert!(matches!(actions[2], AlertAction::Resolve { .. }));
    assert!(matches!(actions[3], AlertAction::Nothing));
    assert!(evaluate_alerts(&[], 9).is_empty());
}

#[test]
fn rule_has_at_most_one_open_alert() {
    // (opened, resolved) for one rule, over a run of looks at it.
    let mut events: Vec<(i64, Option<i64>)> = Vec::new();
    for (now, value) in [(1, 95.0), (2, 96.0), (3, 10.0), (4, 11.0), (5, 99.0), (6, 99.0)] {
        let open_events = events.iter().filter(|e| e.1.is_none()).count() as i64;
        let list = [Watched {
            rule: rule("gt"),
            samples: vec![sample(value, 90.0)],
            open_events,
        }];
        match &evaluate_alerts(&list, now)[0] {
            AlertAction::Nothing => {}
            AlertAction::Trigger { at, .. } => events.push((*at, None)),
            AlertAction::Resolve { at, .. } => {
                for e in events.iter_mut().filter(|e| e.1.is_none()) {
                    e.1 = Some(*at);
                }
            }
        }
        assert!(events.iter().filter(|e| e.1.is_none()).count() <= 1);
    }
    assert_eq!(events, vec![(1, Some(3)), (5, None)]);
}

#[test]
fn samples_count_from_the_cutoff_on() {
    assert_eq!(sample_cutoff(1000, 300), Some(700));
    assert_eq!(sample_cutoff(0, i64::MIN), None);
    assert_eq!(sample_cutoff(-2, i64::MAX), None);
    assert_eq!(sample_cutoff(-1, i64::MAX), Some(i64::MIN));
}

#[test]
fn alert_log_lines_bear_the_time() {
    assert_eq!(log_line_at("2026-01-02T03:04:05Z", "hello"), "2026-01-02T03:04:05Z hello\n");
    let line = log_line("hello there");
    assert!(line.ends_with("Z hello there\n"));
    assert_eq!(line.split_once(' ').unwrap().1, "hello there\n");
    let stamp = line.split(' ').next().unwrap();
    assert_eq!(stamp.len(), 20);
    assert!(chrono::DateTime::parse_from_rfc3339(stamp).is_ok());
}

#[test]
fn rules_are_seeded_once() {
    let rules: Vec<(String, String, String, u32, i64)> = seed_alert_rules(0)
        .into_iter()
        .map(|r| (r.name, r.metric_name, r.operator, r.threshold, r.duration_secs))
        .collect();
    let expected = |name: &str, metric: &str, threshold, duration| {
        (name.to_string(), metric.to_string(), "gt".to_string(), threshold, duration)
    };
    assert_eq!(
        rules,
        vec![
            expected("High CPU", "cpu.usage", 90, 300),
            expected("High Memory", "mem.used_pct", 90, 300),
            expected("Disk Almost Full", "disk./.used_pct", 85, 60),
        ]
    );
    assert!(seed_alert_rules(1).is_empty());
}
