use log_hawk::order::{cmp_frac, text_less_exec};
use log_hawk::{calculate_risk_scores, parse_logs, LogEntry, RiskScore};
use std::cmp::Ordering;

fn entry(status: &str, ip: &str) -> LogEntry {
    LogEntry {
        timestamp: "10:00:00".to_string(),
        status: status.to_string(),
        message: "User:x - Messages:y".to_string(),
        ip: ip.to_string(),
    }
}

fn score(r: &RiskScore) -> f64 {
    r.score_num as f64 / r.score_den as f64
}

fn sorted_non_increasing(r: &[RiskScore]) -> bool {
    r.windows(2).all(|w| w[0].score_num * w[1].score_den >= w[1].score_num * w[0].score_den)
}

#[test]
fn risk_scenario_single_address() {
    let fail = "[12:00:01 INF] User:bob Status:False Messages:bad password ActionName:Login ClientIp:10.0.0.5";
    let ok = "[12:00:01 INF] User:bob Status:True Messages:bad password ActionName:Login ClientIp:10.0.0.5";
    let text = format!("{fail}\n{fail}\n{fail}\n{fail}\n{ok}\n");
    let r = calculate_risk_scores(&parse_logs(&text));
    assert_eq!(r.len(), 1);
    assert_eq!(r[0].ip, "10.0.0.5");
    assert_eq!((r[0].total, r[0].failed), (5, 4));
    assert_eq!((r[0].score_num, r[0].score_den), (28, 50));
    assert!((score(&r[0]) - 0.56).abs() < 1e-12);
}

#[test]
fn risk_empty() {
    assert!(calculate_risk_scores(&[]).is_empty());
}

#[test]
fn risk_two_addresses_exact() {
    let logs = vec![
        entry("Status:False", "1.1.1.1"),
        entry("Status:True", "2.2.2.2"),
        entry("Status:False", "1.1.1.1"),
        entry("Status:False", "1.1.1.1"),
    ];
    let r = calculate_risk_scores(&logs);
    assert_eq!(r.len(), 2);
    assert_eq!(r[0].ip, "1.1.1.1");
    assert_eq!((r[0].total, r[0].failed, r[0].score_num, r[0].score_den), (3, 3, 60, 60));
    assert_eq!(r[1].ip, "2.2.2.2");
    assert_eq!((r[1].total, r[1].failed, r[1].score_num, r[1].score_den), (1, 0, 0, 20));
    assert_eq!(score(&r[0]), 1.0);
    assert_eq!(score(&r[1]), 0.0);
}

#[test]
fn risk_three_addresses_in_unit_interval_and_sorted() {
    let mut logs = Vec::new();
    for _ in 0..4 {
        logs.push(entry("Status:True", "3.3.3.3"));
    }
    logs.push(entry("Status:False", "3.3.3.3"));
    logs.push(entry("Status:False", "4.4.4.4"));
    logs.push(entry("Status:True", "5.5.5.5"));
    logs.push(entry("Status:False", "5.5.5.5"));
    logs.push(entry("Status:True", "N/A"));
    let r = calculate_risk_scores(&logs);
    assert_eq!(r.len(), 4);
    for x in &r {
        assert!(x.score_num <= x.score_den);
        assert!(x.score_den > 0);
    }
    assert!(sorted_non_increasing(&r));
    // lo = 1, hi = 5: 3.3.3.3 = (7*1*4 + 3*5*4) / (10*5*4) = 88/200;
    // 4.4.4.4 = 28/40; 5.5.5.5 = (7*1*4 + 3*2*1) / (10*2*4) = 34/80; N/A = 0/40.
    let ips: Vec<&str> = r.iter().map(|x| x.ip.as_str()).collect();
    assert_eq!(ips, vec!["4.4.4.4", "3.3.3.3", "5.5.5.5", "N/A"]);
    assert_eq!((r[0].score_num, r[0].score_den), (28, 40));
    assert_eq!((r[1].score_num, r[1].score_den), (88, 200));
    assert_eq!((r[2].score_num, r[2].score_den), (34, 80));
    assert_eq!((r[3].score_num, r[3].score_den), (0, 40));
}

#[test]
fn risk_equal_activity_is_failed_share() {
    let logs = vec![
        entry("Status:False", "1.1.1.1"),
        entry("Status:True", "1.1.1.1"),
        entry("Status:False", "2.2.2.2"),
        entry("Status:False", "2.2.2.2"),
        entry("Status:True", "3.3.3.3"),
        entry("Status:True", "3.3.3.3"),
    ];
    let r = calculate_risk_scores(&logs);
    assert_eq!(r.len(), 3);
    for x in &r {
        assert_eq!(x.score_num * 10 * x.total as u128, 7 * x.failed as u128 * x.score_den);
    }
    assert_eq!(r[0].ip, "2.2.2.2");
    assert!((score(&r[0]) - 0.7).abs() < 1e-12);
    assert!((score(&r[1]) - 0.35).abs() < 1e-12);
    assert_eq!(score(&r[2]), 0.0);
}

#[test]
fn risk_ties_break_by_address() {
    let logs = vec![
        entry("Status:False", "10.0.0.9"),
        entry("Status:False", "10.0.0.10"),
        entry("Status:True", "10.0.0.8"),
    ];
    let r = calculate_risk_scores(&logs);
    let ips: Vec<&str> = r.iter().map(|x| x.ip.as_str()).collect();
    assert_eq!(ips, vec!["10.0.0.10", "10.0.0.9", "10.0.0.8"]);
}

#[test]
fn risk_repeated_calls_agree() {
    let logs = vec![
        entry("Status:False", "1.1.1.1"),
        entry("Status:True", "2.2.2.2"),
        entry("Status:False", "2.2.2.2"),
        entry("Status:False", "3.3.3.3"),
    ];
    let a = calculate_risk_scores(&logs);
    let b = calculate_risk_scores(&logs);
    assert_eq!(a.len(), b.len());
    for (x, y) in a.iter().zip(b.iter()) {
        assert_eq!((&x.ip, x.total, x.failed, x.score_num, x.score_den), (&y.ip, y.total, y.failed, y.score_num, y.score_den));
    }
}

#[test]
fn fraction_comparison() {
    assert_eq!(cmp_frac(1, 2, 2, 4), Ordering::Equal);
    assert_eq!(cmp_frac(1, 3, 2, 4), Ordering::Less);
    assert_eq!(cmp_frac(3, 4, 2, 3), Ordering::Greater);
    assert_eq!(cmp_frac(0, 7, 0, 9), Ordering::Equal);
    let big = u128::MAX / 3;
    assert_eq!(cmp_frac(big, big + 1, big - 1, big), Ordering::Greater);
    assert_eq!(cmp_frac(u128::MAX - 1, u128::MAX, u128::MAX - 1, u128::MAX), Ordering::Equal);
}

#[test]
fn address_order_by_code_points() {
    let s = |x: &str| x.to_string();
    assert!(text_less_exec(&s("10.0.0.10"), &s("10.0.0.9")));
    assert!(!text_less_exec(&s("10.0.0.9"), &s("10.0.0.10")));
    assert!(text_less_exec(&s("1.1"), &s("1.1.1")));
    assert!(!text_less_exec(&s("abc"), &s("abc")));
    assert!(text_less_exec(&s(""), &s("a")));
}
