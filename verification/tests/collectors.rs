use rust_monitor::collectors::{
    collect_all, collect_cpu, collect_disk, collect_load, collect_memory, collect_network,
    collect_uptime, copy_metrics, disk_mounts, read_cpu, read_net, traffic, volume_metrics,
    CpuReading, Interface, Metric, OutOfRange, Readings, Value, Volume,
};

fn shown(metrics: &[Metric]) -> Vec<String> {
    metrics
        .iter()
        .map(|m| {
            let value = match &m.value {
                Value::Count(n) => format!("{n}"),
                Value::Rate { count, secs } => format!("{count}/{secs}s"),
                Value::Percent { part, whole } => format!("{part} of {whole}"),
                Value::Busy { idle, total } => format!("idle {idle} of {total}"),
                Value::Gib(bytes) => format!("{bytes} bytes"),
                Value::Decimal(s) => format!("decimal {s}"),
                Value::Rounded(s) => format!("rounded {s}"),
            };
            format!("{} = {}", m.name, value)
        })
        .collect()
}

fn volume(mount: &str, blocks: u64, free_blocks: u64, block_size: u64) -> Volume {
    Volume { mount: mount.to_string(), blocks, free_blocks, block_size }
}

#[test]
fn processor_times_are_the_numbers_of_the_first_line() {
    match read_cpu("cpu  10 20 x 30 40 5\ncpu0 1 2 3 4\n") {
        CpuReading::Times { idle, total } => assert_eq!((idle, total), (40, 105)),
        _ => panic!("times were expected"),
    }
    assert!(matches!(read_cpu(""), CpuReading::Absent));
    assert!(matches!(read_cpu("\ncpu 1 2 3 4"), CpuReading::Absent));
    assert!(matches!(read_cpu("cpu 1 2 3"), CpuReading::Absent));
    assert!(matches!(
        read_cpu("cpu 18446744073709551615 0 0 1"),
        CpuReading::OutOfRange
    ));
}

#[test]
fn processor_use_is_told_by_two_readings() {
    let first = Some("cpu 10 0 10 80\n");
    let out = collect_cpu(first, Some("cpu 40 0 20 140\n")).unwrap();
    assert_eq!(shown(&out), vec!["cpu.usage = idle 60 of 100"]);
    assert!(collect_cpu(first, first).unwrap().is_empty());
    assert!(collect_cpu(first, Some("cpu 1 0 1 8\n")).unwrap().is_empty());
    assert!(collect_cpu(None, first).unwrap().is_empty());
    assert!(collect_cpu(first, None).unwrap().is_empty());
    let huge = Some("cpu 18446744073709551615 0 0 1");
    assert_eq!(collect_cpu(huge, first).err(), Some(OutOfRange));
    assert_eq!(collect_cpu(first, huge).err(), Some(OutOfRange));
    assert!(collect_cpu(None, huge).unwrap().is_empty());
}

#[test]
fn memory_is_told_by_its_table() {
    let text = "MemTotal:       1000 kB\nMemFree: 1 kB\nMemAvailable:    300 kB\n";
    assert_eq!(
        shown(&collect_memory(text)),
        vec![
            "mem.total_kb = 1000",
            "mem.used_kb = 700",
            "mem.available_kb = 300",
            "mem.used_pct = 700 of 1000",
        ]
    );
    assert!(collect_memory("MemAvailable: 300 kB").is_empty());
    assert!(collect_memory("MemTotal: 0 kB").is_empty());
    // The last line that can be read counts, and more can be available than there is.
    let text = "MemTotal:: 5\nMemTotal 9\nMemTotal: x\nMemAvailable: 12";
    assert_eq!(
        shown(&collect_memory(text)),
        vec![
            "mem.total_kb = 9",
            "mem.used_kb = 0",
            "mem.available_kb = 12",
            "mem.used_pct = 0 of 9",
        ]
    );
}

#[test]
fn only_disks_are_mounted() {
    let text = "/dev/sda1 / ext4 rw 0 0\nproc /proc proc rw 0 0\n/dev/sdb /a/b xfs rw\ntank /t zfs\n/dev/sdc /c ext3\n/dev/sdd /d btrfs x\nshort /s\ntmpfs /x ext2\n";
    assert_eq!(disk_mounts(text), vec!["/", "/a/b", "/t", "/c", "/d"]);
    assert!(disk_mounts("").is_empty());
}

#[test]
fn disk_use_is_told_by_blocks() {
    let out = volume_metrics(&volume("/", 100, 25, 4096)).unwrap();
    assert_eq!(
        shown(&out),
        vec![
            "disk.root.used_pct = 307200 of 409600",
            "disk.root.total_gb = 409600 bytes",
            "disk.root.used_gb = 307200 bytes",
        ]
    );
    let out = volume_metrics(&volume("/var/log", 1, 1, 1)).unwrap();
    assert_eq!(shown(&out)[0], "disk.var.log.used_pct = 0 of 1");
    assert!(volume_metrics(&volume("/", 0, 0, 4096)).unwrap().is_empty());
    assert!(volume_metrics(&volume("/", 0, 7, 1)).unwrap().is_empty());
    assert!(volume_metrics(&volume("/", 1, 2, 1)).is_err());
    assert!(volume_metrics(&volume("/", 1 << 60, 0, 4096)).is_err());
    assert!(volume_metrics(&volume("/", 0, 1 << 60, 4096)).is_err());
}

#[test]
fn disks_are_listed_in_order() {
    let list = [volume("/a", 2, 1, 1), volume("/none", 0, 0, 1), volume("/b", 2, 2, 1)];
    let out = collect_disk(&list).unwrap();
    let names: Vec<&str> = out.iter().map(|m| m.name.as_str()).collect();
    assert_eq!(
        names,
        vec![
            "disk.a.used_pct",
            "disk.a.total_gb",
            "disk.a.used_gb",
            "disk.b.used_pct",
            "disk.b.total_gb",
            "disk.b.used_gb",
        ]
    );
    assert!(collect_disk(&[volume("/a", 2, 1, 1), volume("/b", 1, 2, 1)]).is_err());
}

#[test]
fn load_and_uptime_are_the_first_words() {
    assert_eq!(
        shown(&collect_load("0.10 0.20 0.30 1/200 4242\n")),
        vec!["load.1m = decimal 0.10", "load.5m = decimal 0.20", "load.15m = decimal 0.30"]
    );
    assert!(collect_load("0.10 0.20").is_empty());
    assert_eq!(
        shown(&collect_uptime("12345.67 4.5\n")),
        vec!["uptime.seconds = rounded 12345.67"]
    );
    assert!(collect_uptime(" \n").is_empty());
}

#[test]
fn interfaces_are_read_below_the_heading() {
    let text = "head\nhead\n  lo: 1 2 3 4 5 6 7 8 9 10\n eth0: 100 2 3 4 5 6 7 8 200 10\nwlan0:7 x 2 3 4 5 6 7 8 9\nshort: 1 2\neth0: 101 2 3 4 5 6 7 8 201\n";
    let list = read_net(text).unwrap();
    let shown: Vec<(String, u64, u64)> =
        list.iter().map(|i| (i.name.clone(), i.rx, i.tx)).collect();
    assert_eq!(shown, vec![("eth0".to_string(), 101, 201), ("wlan0".to_string(), 7, 9)]);
    assert!(read_net("head\nhead\neth0 1 2 3\n").is_none());
    assert!(read_net("head\nhead\n\n").is_none());
    assert_eq!(read_net("head\n").unwrap().len(), 0);
    assert_eq!(read_net("").unwrap().len(), 0);
}

#[test]
fn traffic_is_what_came_between() {
    let interface = |name: &str, rx, tx| Interface { name: name.to_string(), rx, tx };
    let first = [interface("eth0", 100, 200), interface("old", 1, 1)];
    let second = [interface("new", 5, 5), interface("eth0", 150, 190)];
    assert_eq!(
        shown(&traffic(&first, &second)),
        vec!["net.eth0.rx_bytes = 50", "net.eth0.tx_bytes = 0"]
    );
    let one = "h\nh\neth0: 10 0 0 0 0 0 0 0 20 0\n";
    let two = "h\nh\neth0: 15 0 0 0 0 0 0 0 27 0\n";
    assert_eq!(
        shown(&collect_network(Some(one), Some(two))),
        vec!["net.eth0.rx_bytes = 5", "net.eth0.tx_bytes = 7"]
    );
    assert!(collect_network(None, Some(two)).is_empty());
    assert!(collect_network(Some(one), None).is_empty());
    assert!(collect_network(Some("h\nh\nbad\n"), Some(two)).is_empty());
}

#[test]
fn everything_is_collected_in_order() {
    let mut readings = Readings {
        first_stat: Some("cpu 1 1 1 1".to_string()),
        second_stat: Some("cpu 2 2 2 2".to_string()),
        meminfo: Some("MemTotal: 4".to_string()),
        volumes: vec![volume("/", 2, 1, 1)],
        loadavg: Some("1 2 3".to_string()),
        uptime: Some("9".to_string()),
        first_net: Some("h\nh\ne: 0 0 0 0 0 0 0 0 0".to_string()),
        second_net: Some("h\nh\ne: 1 0 0 0 0 0 0 0 2".to_string()),
    };
    let out = collect_all(&readings).unwrap();
    assert_eq!(
        shown(&out),
        vec![
            "cpu.usage = idle 1 of 4",
            "mem.total_kb = 4",
            "mem.used_kb = 4",
            "mem.available_kb = 0",
            "mem.used_pct = 4 of 4",
            "disk.root.used_pct = 1 of 2",
            "disk.root.total_gb = 2 bytes",
            "disk.root.used_gb = 1 bytes",
            "load.1m = decimal 1",
            "load.5m = decimal 2",
            "load.15m = decimal 3",
            "uptime.seconds = rounded 9",
            "net.e.rx_bytes = 1",
            "net.e.tx_bytes = 2",
        ]
    );
    assert_eq!(shown(&copy_metrics(&out)), shown(&out));
    readings.meminfo = None;
    readings.uptime = None;
    readings.loadavg = None;
    readings.first_stat = None;
    readings.first_net = None;
    let out = collect_all(&readings).unwrap();
    assert_eq!(out.len(), 3);
    readings.volumes.push(volume("/", 1, 2, 1));
    assert!(collect_all(&readings).is_err());
}
