use rust_monitor::dns_metrics::DnsState;
use rust_monitor::journald::{
    follow_args, parse_line, parse_line_at, record_entry, strip_ansi, Action, Event, Follower,
    LogEntry,
};
use rust_monitor::json::{Document, Field, Member};

fn shown(entry: Option<LogEntry>) -> Option<(String, String, i64)> {
    entry.map(|e| (e.source, e.line, e.ts))
}

fn expected(source: &str, line: &str, ts: i64) -> Option<(String, String, i64)> {
    Some((source.to_string(), line.to_string(), ts))
}

#[test]
fn escape_sequences_are_removed() {
    assert_eq!(strip_ansi("\u{1b}[2m2026\u{1b}[0m \u{1b}[32m INFO\u{1b}[0m x"), "2026  INFO x");
    assert_eq!(strip_ansi("  plain \t"), "plain");
    assert_eq!(strip_ansi("a\u{1b}b"), "ab");
    assert_eq!(strip_ansi("a\u{1b}[12;3"), "a");
    assert_eq!(strip_ansi("a\u{1b}\u{1b}[mb"), "ab");
    assert_eq!(strip_ansi("a\u{1b}"), "a");
    // Any final byte ends a sequence, not only a letter.
    assert_eq!(strip_ansi("\u{1b}[3~hello"), "hello");
    assert_eq!(strip_ansi("\u{1b}[2@a\u{1b}[1`b\u{1b}[0;1_c"), "abc");
    assert_eq!(strip_ansi("\u{1b}[0m"), "");
    let once = strip_ansi(" \u{1b}[31mred\u{1b}[0m ");
    assert_eq!(strip_ansi(&once), once);
}

#[test]
fn record_is_read() {
    let raw = r#"{"MESSAGE":" hello ","_SYSTEMD_UNIT":"a.service","SYSLOG_IDENTIFIER":"a","__REALTIME_TIMESTAMP":"1700000000999999"}"#;
    assert_eq!(shown(parse_line(raw)), expected("a.service", "hello", 1700000000));
    assert_eq!(shown(parse_line_at(raw, 5)), expected("a.service", "hello", 1700000000));
    let raw = r#"{"MESSAGE":"x","SYSLOG_IDENTIFIER":"cron"}"#;
    assert_eq!(shown(parse_line_at(raw, 77)), expected("cron", "x", 77));
    let raw = r#"{"MESSAGE":"x","_SYSTEMD_UNIT":1,"__REALTIME_TIMESTAMP":"soon"}"#;
    assert_eq!(shown(parse_line_at(raw, 77)), expected("journal", "x", 77));
    let raw = r#"{"MESSAGE":"x","__REALTIME_TIMESTAMP":"-1999999"}"#;
    assert_eq!(shown(parse_line_at(raw, 77)), expected("journal", "x", -1));
    let raw = r#"{"MESSAGE":"x","__REALTIME_TIMESTAMP":1700000000000000}"#;
    assert_eq!(shown(parse_line_at(raw, 77)), expected("journal", "x", 77));
}

#[test]
fn record_without_a_message_is_skipped() {
    for raw in [
        "",
        "not json",
        "[1]",
        "{}",
        r#"{"MESSAGE":null}"#,
        r#"{"MESSAGE":7}"#,
        r#"{"MESSAGE":"  "}"#,
        r#"{"MESSAGE":[]}"#,
    ] {
        assert_eq!(shown(parse_line_at(raw, 0)), None, "{raw}");
    }
}

#[test]
fn byte_message_is_read_as_its_text() {
    let raw = r#"{"MESSAGE":[27,91,51,49,109,104,195,169,27,91,48,109]}"#;
    assert_eq!(shown(parse_line_at(raw, 1)), expected("journal", "hé", 1));
    // Items that are no unsigned integers do not count; of the others the low byte does.
    let raw = r#"{"MESSAGE":[104,"x",-1,1.5,361,null]}"#;
    assert_eq!(shown(parse_line_at(raw, 1)), expected("journal", "hi", 1));
    let raw = r#"{"MESSAGE":[104,255,105]}"#;
    assert_eq!(shown(parse_line_at(raw, 1)), expected("journal", "h\u{fffd}i", 1));
    let text = "naïve ✓";
    let record = Document::Object(vec![Member {
        key: "MESSAGE".to_string(),
        value: Field::List(text.bytes().map(|b| Some(b as u64)).collect()),
    }]);
    assert_eq!(shown(record_entry(&record, 3)), expected("journal", text, 3));
}

#[test]
fn units_become_arguments() {
    assert_eq!(follow_args(&[]), None);
    assert_eq!(
        follow_args(&["a.service".to_string(), "b".to_string()]).unwrap(),
        vec!["-f", "-o", "json", "-n", "0", "--no-pager", "-u", "a.service", "-u", "b"]
    );
}

fn line(raw: &str) -> Event {
    Event::Line(raw.to_string())
}

fn lines_of(entries: Vec<LogEntry>) -> Vec<String> {
    entries.into_iter().map(|e| e.line).collect()
}

#[test]
fn entries_are_handed_on_in_batches() {
    let mut follower = Follower::new();
    let mut dns = DnsState::new();
    assert!(matches!(follower.step(&mut dns, Event::Tick, 0), Action::Wait));
    assert!(matches!(follower.step(&mut dns, line(r#"{"MESSAGE":"1"}"#), 0), Action::Wait));
    assert!(matches!(follower.step(&mut dns, line("junk"), 0), Action::Wait));
    assert!(matches!(follower.step(&mut dns, line(r#"{"MESSAGE":"2"}"#), 0), Action::Wait));
    match follower.step(&mut dns, Event::Tick, 0) {
        Action::Store(entries) => assert_eq!(lines_of(entries), vec!["1", "2"]),
        _ => panic!("entries were expected"),
    }
    assert!(matches!(follower.step(&mut dns, Event::Tick, 0), Action::Wait));
    follower.step(&mut dns, line(r#"{"MESSAGE":"3"}"#), 0);
    assert!(matches!(follower.step(&mut dns, Event::Failed, 0), Action::Abort));
    assert_eq!(follower.batch.len(), 1);
    match follower.step(&mut dns, Event::Closed, 0) {
        Action::Finish(entries) => assert_eq!(lines_of(entries), vec!["3"]),
        _ => panic!("entries were expected"),
    }
    match follower.step(&mut dns, Event::Closed, 0) {
        Action::Finish(entries) => assert!(entries.is_empty()),
        _ => panic!("an end was expected"),
    }
}

#[test]
fn name_server_feeds_the_window() {
    let mut follower = Follower::new();
    let mut dns = DnsState::new();
    let query = |unit: &str| {
        line(&format!(
            r#"{{"MESSAGE":"UDP query qtype=1 rcode=0 elapsed_us=7","_SYSTEMD_UNIT":"{unit}"}}"#
        ))
    };
    follower.step(&mut dns, query("other.service"), 0);
    assert_eq!(dns.agg.udp, 0);
    follower.step(&mut dns, query("akurai-dns.service"), 0);
    assert_eq!(dns.agg.udp, 1);
    assert_eq!(dns.agg.lat_us, vec![7]);
    assert_eq!(follower.batch.len(), 2);
}

#[test]
fn full_window_takes_no_query_more() {
    let mut follower = Follower::new();
    let mut dns = DnsState::new();
    let message = |unit: &str, text: &str| {
        line(&format!(r#"{{"MESSAGE":"{text}","_SYSTEMD_UNIT":"{unit}"}}"#))
    };
    assert!(follower.try_step(&mut dns, message("akurai-dns", "UDP query")).is_some());
    dns.agg.tcp = u64::MAX - 1;
    assert!(follower.try_step(&mut dns, message("akurai-dns", "TCP query")).is_none());
    assert_eq!((dns.agg.udp, dns.agg.tcp), (1, u64::MAX - 1));
    assert_eq!(follower.batch.len(), 1);
    // Anything else is still taken in.
    assert!(follower.try_step(&mut dns, message("akurai-dns", "started")).is_some());
    assert!(follower.try_step(&mut dns, message("other", "UDP query")).is_some());
    assert_eq!(follower.batch.len(), 3);
    assert!(matches!(
        follower.try_step(&mut dns, Event::Tick),
        Some(Action::Store(_))
    ));
}
