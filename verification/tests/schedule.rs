use rust_monitor::collectors::{Metric, Value};
use rust_monitor::dns_metrics::{observe, DnsState};
use rust_monitor::schedule::{index_path, live_secs, retention_cutoffs, Collector};

fn count(name: &str, n: u64) -> Metric {
    Metric { name: name.to_string(), value: Value::Count(n) }
}

fn queries(metrics: &[Metric]) -> Vec<u64> {
    metrics
        .iter()
        .filter(|m| m.name == "dns.queries")
        .map(|m| match m.value {
            Value::Count(n) => n,
            _ => panic!("a count was expected"),
        })
        .collect()
}

#[test]
fn live_rhythm_follows_the_interval() {
    assert_eq!(live_secs(0), 1);
    assert_eq!(live_secs(1), 1);
    assert_eq!(live_secs(4), 4);
    assert_eq!(live_secs(5), 5);
    assert_eq!(live_secs(60), 5);
    assert_eq!(live_secs(u64::MAX), 5);
}

#[test]
fn samples_are_stored_once_per_interval() {
    let mut collector = Collector::new(60);
    let mut dns = DnsState::new();
    observe(&mut dns, "UDP query");
    let host = || vec![count("cpu", 1), count("dns.host", 2), count("dnsx", 3)];

    let tick = collector.tick(&mut dns, host(), 1000);
    assert_eq!(queries(&tick.live), vec![0]);
    assert_eq!(tick.live.len(), 3 + 24);
    let stored = tick.persist.unwrap();
    assert_eq!(queries(&stored), vec![1]);
    assert_eq!(stored.len(), 2 + 24);
    assert_eq!((stored[0].name.as_str(), stored[1].name.as_str()), ("cpu", "dnsx"));

    observe(&mut dns, "UDP query");
    observe(&mut dns, "TCP query");
    let tick = collector.tick(&mut dns, host(), 1059);
    assert_eq!(queries(&tick.live), vec![1]);
    assert!(tick.persist.is_none());
    let tick = collector.tick(&mut dns, host(), 1060);
    assert_eq!(queries(&tick.live), vec![1]);
    assert_eq!(queries(&tick.persist.unwrap()), vec![2]);
    assert_eq!(collector.last_persist, 1060);
    let tick = collector.tick(&mut dns, Vec::new(), 1061);
    assert_eq!(queries(&tick.live), vec![2]);
}

#[test]
fn huge_interval_is_never_due() {
    let mut dns = DnsState::new();
    for interval in [u64::MAX, i64::MAX as u64 + 1, i64::MAX as u64] {
        let mut collector = Collector::new(interval);
        assert!(collector.tick(&mut dns, Vec::new(), 5).persist.is_none());
    }
    let mut collector = Collector::new(0);
    assert!(collector.tick(&mut dns, Vec::new(), 0).persist.is_some());
    assert!(collector.tick(&mut dns, Vec::new(), 0).persist.is_some());
}

#[test]
fn old_rows_are_deleted_by_age() {
    let cutoffs = retention_cutoffs(10_000_000, 30, 7).unwrap();
    assert_eq!((cutoffs.metrics, cutoffs.logs), (10_000_000 - 2_592_000, 10_000_000 - 604_800));
    assert!(retention_cutoffs(0, i64::MAX, 7).is_none());
    assert!(retention_cutoffs(0, 7, i64::MAX).is_none());
}

#[test]
fn index_is_in_the_static_directory() {
    assert_eq!(index_path("./ui"), "./ui/index.html");
}
