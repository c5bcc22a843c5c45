use log_hawk::{analyze_logs, detect_suspicious_ips, filter_logs, parse_logs, passes_filter, LogEntry};

fn entry(status: &str, ip: &str) -> LogEntry {
    LogEntry {
        timestamp: "10:00:00".to_string(),
        status: status.to_string(),
        message: "User:x - Messages:y".to_string(),
        ip: ip.to_string(),
    }
}

#[test]
fn analyze_scenario() {
    let fail = "[12:00:01 INF] User:bob Status:False Messages:bad password ActionName:Login ClientIp:10.0.0.5";
    let ok = "[12:00:01 INF] User:bob Status:True Messages:bad password ActionName:Login ClientIp:10.0.0.5";
    let text = format!("{fail}\n{fail}\n{fail}\n{fail}\n{ok}");
    let logs = parse_logs(&text);
    let stats = analyze_logs(&logs);
    assert_eq!(stats.total_logs, 5);
    assert_eq!(stats.failed_logins, 4);
    assert_eq!(stats.successful_logins, 1);
    assert_eq!(stats.unique_ips, vec!["10.0.0.5".to_string()]);
    assert_eq!(detect_suspicious_ips(&logs), vec!["10.0.0.5".to_string()]);
}

#[test]
fn analyze_empty() {
    let stats = analyze_logs(&[]);
    assert_eq!(stats.total_logs, 0);
    assert_eq!(stats.failed_logins, 0);
    assert_eq!(stats.successful_logins, 0);
    assert!(stats.unique_ips.is_empty());
    assert!(detect_suspicious_ips(&[]).is_empty());
}

#[test]
fn analyze_of_unmatched_text_is_all_zero() {
    let logs = parse_logs("no log here\nnor here\n");
    let stats = analyze_logs(&logs);
    assert_eq!((stats.total_logs, stats.failed_logins, stats.successful_logins), (0, 0, 0));
    assert!(stats.unique_ips.is_empty());
}

#[test]
fn analyze_classifies_statuses() {
    let logs = vec![
        entry("Status:False", "1.1.1.1"),
        entry("Status:True", "1.1.1.1"),
        entry("Status:Unknown", "2.2.2.2"),
        entry("Status:TrueFalse", "2.2.2.2"),
        entry("200", "N/A"),
    ];
    let stats = analyze_logs(&logs);
    assert_eq!(stats.total_logs, 5);
    assert_eq!(stats.failed_logins, 2);
    assert_eq!(stats.successful_logins, 1);
    assert!(stats.successful_logins + stats.failed_logins <= stats.total_logs);
}

#[test]
fn analyze_unique_ips_skip_placeholder() {
    let logs = vec![
        entry("Status:True", "N/A"),
        entry("Status:True", "3.3.3.3"),
        entry("Status:True", "1.1.1.1"),
        entry("Status:False", "3.3.3.3"),
        entry("Status:False", "N/A"),
    ];
    let stats = analyze_logs(&logs);
    assert_eq!(stats.unique_ips, vec!["3.3.3.3".to_string(), "1.1.1.1".to_string()]);
    assert!(!stats.unique_ips.contains(&"N/A".to_string()));
}

#[test]
fn suspicious_needs_more_than_three_failures() {
    let mut logs = Vec::new();
    for _ in 0..3 {
        logs.push(entry("Status:False", "7.7.7.7"));
    }
    for _ in 0..4 {
        logs.push(entry("Status:False", "8.8.8.8"));
    }
    for _ in 0..10 {
        logs.push(entry("Status:True", "9.9.9.9"));
    }
    assert_eq!(detect_suspicious_ips(&logs), vec!["8.8.8.8".to_string()]);
}

#[test]
fn suspicious_counts_placeholder_too() {
    let logs: Vec<LogEntry> = (0..5).map(|_| entry("Status:False", "N/A")).collect();
    assert_eq!(detect_suspicious_ips(&logs), vec!["N/A".to_string()]);
}

#[test]
fn suspicious_in_order_of_first_appearance() {
    let mut logs = Vec::new();
    for _ in 0..4 {
        logs.push(entry("Status:False", "5.5.5.5"));
        logs.push(entry("Status:False", "4.4.4.4"));
    }
    assert_eq!(detect_suspicious_ips(&logs), vec!["5.5.5.5".to_string(), "4.4.4.4".to_string()]);
}

#[test]
fn filter_by_address_and_status() {
    let logs = vec![
        entry("Status:False", "10.0.0.1"),
        entry("Status:True", "10.0.0.2"),
        entry("Status:FALSE", "192.168.0.1"),
    ];
    assert_eq!(filter_logs(&logs, "", "").len(), 3);
    let by_ip = filter_logs(&logs, "10.0", "");
    assert_eq!(by_ip.len(), 2);
    assert_eq!(by_ip[1].ip, "10.0.0.2");
    let by_status = filter_logs(&logs, "", "false");
    assert_eq!(by_status.len(), 2);
    assert_eq!(by_status[0].ip, "10.0.0.1");
    assert_eq!(by_status[1].ip, "192.168.0.1");
    let both = filter_logs(&logs, "192", "FaLsE");
    assert_eq!(both.len(), 1);
    assert_eq!(both[0].status, "Status:FALSE");
    assert!(filter_logs(&logs, "172", "").is_empty());
}

#[test]
fn filter_decision_on_lowered_forms() {
    let e = entry("Status:False", "10.0.0.1");
    assert!(passes_filter(&e, "", "", "whatever", "other"));
    assert!(passes_filter(&e, "0.0", "FALSE", "status:false", "false"));
    assert!(!passes_filter(&e, "0.0", "FALSE", "status:false", "true"));
    assert!(!passes_filter(&e, "192", "", "status:false", ""));
    assert!(passes_filter(&e, "", "x", "status:false", "us:f"));
}

#[test]
fn stats_default_is_empty() {
    let s = log_hawk::LogStats::default();
    assert_eq!((s.total_logs, s.successful_logins, s.failed_logins), (0, 0, 0));
    assert!(s.unique_ips.is_empty());
}
