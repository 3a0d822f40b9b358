use rust_monitor::config::{comma_list, get, Variable};

fn var(name: &str, value: &str) -> Variable {
    Variable { name: name.to_string(), value: value.to_string() }
}

#[test]
fn settings_have_defaults() {
    let cfg = get(&[]);
    assert_eq!(cfg.listen_addr, "127.0.0.1:8800");
    assert_eq!(cfg.db_path, "./data/monitor.db");
    assert_eq!(cfg.static_dir, "./ui");
    assert_eq!(cfg.alert_log, "./data/alerts.log");
    assert_eq!(cfg.log_files, vec!["/var/log/syslog", "/var/log/auth.log"]);
    assert_eq!(cfg.interval_secs, 60);
    assert_eq!(cfg.retention_days, 30);
    assert_eq!(cfg.log_retention_days, 7);
    assert_eq!(cfg.oidc_issuer, "https://auth.olibuijr.com");
    assert_eq!(cfg.oidc_client_id, "");
    assert_eq!(cfg.oidc_client_secret, "");
    assert_eq!(cfg.oidc_redirect_uri, "https://monitor.olibuijr.com/auth/callback");
    assert_eq!(cfg.ingest_token, "");
}

#[test]
fn settings_come_from_variables() {
    let cfg = get(&[
        var("MONITOR_LISTEN", "0.0.0.0:1"),
        var("MONITOR_DB_PATH", "/db"),
        var("MONITOR_STATIC_DIR", "/s"),
        var("MONITOR_ALERT_LOG", "/l"),
        var("MONITOR_LOG_FILES", " /a ,, /b,"),
        var("MONITOR_INTERVAL", "15"),
        var("MONITOR_RETENTION_DAYS", "-3"),
        var("MONITOR_LOG_RETENTION_DAYS", "x"),
        var("MONITOR_BASE_URL", "https://m.example//"),
        var("MONITOR_OIDC_ISSUER", "https://i"),
        var("MONITOR_OIDC_CLIENT_ID", "id"),
        var("MONITOR_OIDC_CLIENT_SECRET", "secret"),
        var("MONITOR_INGEST_TOKEN", "token"),
    ]);
    assert_eq!(cfg.listen_addr, "0.0.0.0:1");
    assert_eq!(cfg.db_path, "/db");
    assert_eq!(cfg.static_dir, "/s");
    assert_eq!(cfg.alert_log, "/l");
    assert_eq!(cfg.log_files, vec!["/a", "/b"]);
    assert_eq!(cfg.interval_secs, 15);
    assert_eq!(cfg.retention_days, -3);
    assert_eq!(cfg.log_retention_days, 7);
    assert_eq!(cfg.oidc_issuer, "https://i");
    assert_eq!(cfg.oidc_client_id, "id");
    assert_eq!(cfg.oidc_client_secret, "secret");
    assert_eq!(cfg.oidc_redirect_uri, "https://m.example/auth/callback");
    assert_eq!(cfg.ingest_token, "token");
    let cfg = get(&[var("MONITOR_INTERVAL", "-1"), var("MONITOR_OIDC_REDIRECT_URI", "r")]);
    assert_eq!(cfg.interval_secs, 60);
    assert_eq!(cfg.oidc_redirect_uri, "r");
}

#[test]
fn lists_are_split_at_commas() {
    assert_eq!(comma_list("a, b ,c"), vec!["a", "b", "c"]);
    assert!(comma_list("").is_empty());
    assert!(comma_list(" , ").is_empty());
}
