use rust_monitor::collectors::{Metric, Value};
use rust_monitor::dns_metrics::{
    build_metrics, drain, field_str, field_u16, field_u32, latency_stats, latest, observe,
    zero_metrics, Agg, DnsState, LAT_CAP,
};

fn val(metrics: &[Metric], name: &str) -> f64 {
    match &metrics.iter().find(|m| m.name == name).unwrap().value {
        Value::Count(n) => *n as f64,
        Value::Rate { count, secs } => *count as f64 / *secs as f64,
        _ => panic!("unexpected value"),
    }
}

#[test]
fn parses_udp_query_line() {
    let line = "2026-06-25T16:16:29Z  INFO akurai_dns::server: UDP query client=127.0.0.1:49076 qname=example.com. qtype=1 rcode=0 size=54 elapsed_us=58";
    assert_eq!(field_u16(line, "qtype"), Some(1));
    assert_eq!(field_u16(line, "rcode"), Some(0));
    assert_eq!(field_u32(line, "elapsed_us"), Some(58));
    // "size" must not be confused with anything, and word-boundary holds.
    assert_eq!(field_u32(line, "size"), Some(54));
}

#[test]
fn aggregates_window() {
    let mut a = Agg::default();
    // simulate observe by hand
    for (proto_tcp, qtype, rcode, lat) in [
        (false, 1u16, 0u16, 100u32),
        (false, 1, 0, 200),
        (true, 28, 3, 300),
        (false, 12, 5, 50),
    ] {
        if proto_tcp {
            a.tcp += 1
        } else {
            a.udp += 1
        }
        *a.qtype.entry(qtype).or_insert(0) += 1;
        *a.rcode.entry(rcode).or_insert(0) += 1;
        a.lat_us.push(lat);
    }
    let metrics = build_metrics(a, 60);
    assert_eq!(val(&metrics, "dns.queries"), 4.0);
    assert_eq!(val(&metrics, "dns.proto.udp"), 3.0);
    assert_eq!(val(&metrics, "dns.proto.tcp"), 1.0);
    assert_eq!(val(&metrics, "dns.qtype.a"), 2.0);
    assert_eq!(val(&metrics, "dns.qtype.ptr"), 1.0);
    assert_eq!(val(&metrics, "dns.rcode.noerror"), 2.0);
    assert_eq!(val(&metrics, "dns.rcode.refused"), 1.0);
    assert_eq!(val(&metrics, "dns.latency_us.max"), 300.0);
    assert!((val(&metrics, "dns.qps") - 4.0 / 60.0).abs() < 1e-9);
}

#[test]
fn ignores_non_query_lines() {
    let mut state = DnsState::new();
    let before = state.agg.udp;
    observe(
        &mut state,
        "2026-06-25T16:16:29Z  INFO akurai_dns::server: UDP server listening addr=0.0.0.0:53",
    );
    let after = state.agg.udp;
    assert_eq!(before, after);
    assert_eq!(state.agg.tcp, 0);
    assert!(state.agg.lat_us.is_empty());
}

#[test]
fn field_needs_a_word_boundary() {
    assert_eq!(field_str("qtype=1", "type"), None);
    assert_eq!(field_str("a_size=1 size=2", "size"), Some("2".to_string()));
    assert_eq!(field_str("size=", "size"), Some(String::new()));
    assert_eq!(field_str("size=7\u{2003}x", "size"), Some("7".to_string()));
    assert_eq!(field_u16("rcode=65536", "rcode"), None);
    assert_eq!(field_u16("rcode=+3", "rcode"), None);
    assert_eq!(field_u32("size=+54", "size"), None);
    assert_eq!(field_u32("size=054", "size"), Some(54));
    assert_eq!(field_u32("size=", "size"), None);
    assert_eq!(field_u16("rcode=-3", "rcode"), None);
    assert_eq!(field_u32("n=4294967295", "n"), Some(u32::MAX));
    assert_eq!(field_u32("n=4294967296", "n"), None);
}

#[test]
fn latency_is_rounded_and_ranked() {
    assert_eq!(latency_stats(&[]), (0, 0, 0));
    assert_eq!(latency_stats(&[7]), (7, 7, 7));
    // The mean 1.5 rounds up.
    assert_eq!(latency_stats(&[2, 1]), (2, 2, 2));
    assert_eq!(latency_stats(&[4, 1, 2]), (2, 4, 4));
    let samples: Vec<u32> = (1..=100).rev().collect();
    assert_eq!(latency_stats(&samples), (51, 95, 100));
    let twenty: Vec<u32> = (1..=20).collect();
    assert_eq!(latency_stats(&twenty), (11, 19, 20));
}

#[test]
fn latency_agrees_with_floating_point() {
    let mut seed: u32 = 12345;
    for n in 1usize..400 {
        let mut samples: Vec<u32> = Vec::new();
        for _ in 0..n {
            seed = seed.wrapping_mul(1664525).wrapping_add(1013904223);
            samples.push(seed);
        }
        let mut s = samples.clone();
        s.sort_unstable();
        let avg = s.iter().map(|&x| x as f64).sum::<f64>() / n as f64;
        let idx = (((n as f64) * 0.95).ceil() as usize).clamp(1, n) - 1;
        let (a, p, m) = latency_stats(&samples);
        assert_eq!(a as f64, avg.round());
        assert_eq!(p, s[idx] as u64);
        assert_eq!(m, s[n - 1] as u64);
    }
}

#[test]
fn window_is_counted_and_drained() {
    let mut state = DnsState::new();
    observe(&mut state, "UDP query qtype=1 rcode=0 elapsed_us=10");
    observe(&mut state, "TCP query qtype=28 rcode=3 elapsed_us=30");
    observe(&mut state, "UDP query qtype=64 rcode=9");
    observe(&mut state, "UDP query of no fields");
    assert_eq!((state.agg.udp, state.agg.tcp), (3, 1));
    assert_eq!(val(&latest(&state), "dns.queries"), 0.0);
    let metrics = drain(&mut state, 10);
    assert_eq!(val(&metrics, "dns.qps"), 0.4);
    assert_eq!(val(&metrics, "dns.queries"), 4.0);
    assert_eq!(val(&metrics, "dns.rcode.other"), 1.0);
    assert_eq!(val(&metrics, "dns.qtype.other"), 1.0);
    assert_eq!(val(&metrics, "dns.qtype.aaaa"), 1.0);
    assert_eq!(val(&metrics, "dns.latency_us.avg"), 20.0);
    assert_eq!(val(&metrics, "dns.latency_us.p95"), 30.0);
    assert_eq!(val(&latest(&state), "dns.queries"), 4.0);
    let empty = drain(&mut state, 10);
    assert_eq!(val(&empty, "dns.queries"), 0.0);
    assert_eq!(val(&latest(&state), "dns.queries"), 0.0);
}

#[test]
fn rate_needs_no_interval() {
    let mut state = DnsState::new();
    observe(&mut state, "UDP query");
    let metrics = drain(&mut state, 0);
    assert_eq!(val(&metrics, "dns.qps"), 1.0);
}

#[test]
fn series_names_are_the_same_for_every_window() {
    let mut state = DnsState::new();
    observe(&mut state, "TCP query qtype=257 rcode=1 elapsed_us=1");
    let names = |metrics: &[Metric]| -> Vec<String> {
        metrics.iter().map(|m| m.name.clone()).collect()
    };
    let zero = names(&zero_metrics(60));
    let full = names(&drain(&mut state, 60));
    assert_eq!(zero, full);
    assert_eq!(zero.len(), 24);
    assert_eq!(zero[0], "dns.qps");
    assert_eq!(zero[23], "dns.latency_us.max");
}

#[test]
fn buckets_add_up() {
    let mut state = DnsState::new();
    for rcode in 0..12 {
        for qtype in [1, 2, 5, 6, 12, 15, 16, 28, 33, 257, 300, 64] {
            observe(&mut state, &format!("UDP query qtype={qtype} rcode={rcode}"));
        }
    }
    let metrics = drain(&mut state, 60);
    let sum = |prefix: &str| -> f64 {
        metrics.iter().filter(|m| m.name.starts_with(prefix)).map(|m| val(&metrics, &m.name)).sum()
    };
    assert_eq!(sum("dns.proto."), 144.0);
    assert_eq!(sum("dns.rcode."), 144.0);
    assert_eq!(sum("dns.qtype."), 144.0);
}

#[test]
fn samples_are_capped() {
    let mut state = DnsState::new();
    state.agg.udp = LAT_CAP as u64;
    state.agg.lat_us = vec![1; LAT_CAP - 1];
    observe(&mut state, "UDP query elapsed_us=5");
    observe(&mut state, "UDP query elapsed_us=6");
    assert_eq!(state.agg.lat_us.len(), LAT_CAP);
    assert_eq!(state.agg.lat_us[LAT_CAP - 1], 5);
}

#[test]
fn drains_tell_of_every_query_once() {
    let mut state = DnsState::new();
    let windows: [&[&str]; 4] = [
        &["UDP query", "noise", "TCP query qtype=1"],
        &[],
        &["noise"],
        &["UDP query rcode=3", "UDP query", "TCP query"],
    ];
    let mut told = Vec::new();
    for lines in windows {
        for line in lines {
            observe(&mut state, line);
        }
        told.push(val(&drain(&mut state, 60), "dns.queries"));
    }
    assert_eq!(told, vec![2.0, 0.0, 0.0, 3.0]);
}

#[test]
fn quiet_window_gives_zeros() {
    let mut state = DnsState::new();
    observe(&mut state, "UDP query qtype=1 rcode=0 elapsed_us=9");
    drain(&mut state, 60);
    observe(&mut state, "noise qtype=1 rcode=0 elapsed_us=9");
    let metrics = drain(&mut state, 60);
    assert_eq!(metrics.len(), 24);
    assert!(metrics.iter().all(|m| val(&metrics, &m.name) == 0.0));
}
