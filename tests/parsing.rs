use log_hawk::{parse_line, parse_logs, LogEntry};

const BOB_FAIL: &str =
    "[12:00:01 INF] User:bob Status:False Messages:bad password ActionName:Login ClientIp:10.0.0.5";
const BOB_OK: &str =
    "[12:00:01 INF] User:bob Status:True Messages:bad password ActionName:Login ClientIp:10.0.0.5";

fn fields(e: &LogEntry) -> (&str, &str, &str, &str) {
    (e.timestamp.as_str(), e.status.as_str(), e.message.as_str(), e.ip.as_str())
}

#[test]
fn parse_scenario_five_lines() {
    let text = format!("{BOB_FAIL}\n{BOB_FAIL}\n{BOB_FAIL}\n{BOB_FAIL}\n{BOB_OK}\n");
    let entries = parse_logs(&text);
    assert_eq!(entries.len(), 5);
    for e in &entries[..4] {
        assert_eq!(fields(e), ("12:00:01", "Status:False", "User:bob - Messages:bad password", "10.0.0.5"));
    }
    assert_eq!(fields(&entries[4]), ("12:00:01", "Status:True", "User:bob - Messages:bad password", "10.0.0.5"));
}

#[test]
fn parse_accepts_out_of_range_octets() {
    let line = "[23:59:59 INF] User:eve Status:False Messages:x ActionName:Login ClientIp:999.999.999.999";
    let e = parse_line(line).expect("the shape is there");
    assert_eq!(e.ip, "999.999.999.999");
}

#[test]
fn parse_skips_non_matching_lines() {
    let text = "hello\nINF something happened\n[12:00:01 INF] HTTP GET /index responded 200\n\n";
    assert!(parse_logs(text).is_empty());
    assert!(parse_logs("").is_empty());
    assert!(parse_logs("\n\n\n").is_empty());
}

#[test]
fn parse_keeps_line_order_and_drops_others() {
    let text = format!(
        "noise\n{}\nmore noise\n{}",
        "[01:02:03 INF] User:a Status:False Messages:m1 ActionName:Login ClientIp:1.1.1.1",
        "[04:05:06 INF] User:b Status:True Messages:m2 ActionName:Logout ClientIp:2.2.2.2"
    );
    let entries = parse_logs(&text);
    assert_eq!(entries.len(), 2);
    assert_eq!(fields(&entries[0]), ("01:02:03", "Status:False", "User:a - Messages:m1", "1.1.1.1"));
    assert_eq!(fields(&entries[1]), ("04:05:06", "Status:True", "User:b - Messages:m2", "2.2.2.2"));
}

#[test]
fn parse_handles_carriage_returns() {
    let text = format!("{BOB_FAIL}\r\n{BOB_OK}\r\n");
    let entries = parse_logs(&text);
    assert_eq!(entries.len(), 2);
    assert_eq!(entries[0].ip, "10.0.0.5");
    assert_eq!(entries[1].status, "Status:True");
}

#[test]
fn parse_finds_shape_after_leading_text() {
    let line = format!("2024-01-01 host: {BOB_FAIL} trailing words");
    let e = parse_line(&line).expect("the shape is there");
    assert_eq!(fields(&e), ("12:00:01", "Status:False", "User:bob - Messages:bad password", "10.0.0.5"));
}

#[test]
fn parse_address_takes_all_trailing_digits_only() {
    let line = "[12:00:01 INF] User:bob Status:False Messages:x ActionName:Login ClientIp:10.0.0.123abc";
    assert_eq!(parse_line(line).unwrap().ip, "10.0.0.123");
}

#[test]
fn parse_rejects_incomplete_address() {
    let line = "[12:00:01 INF] User:bob Status:False Messages:x ActionName:Login ClientIp:10.0.0";
    assert!(parse_line(line).is_none());
    let line = "[12:00:01 INF] User:bob Status:False Messages:x ActionName:Login ClientIp:10..0.1";
    assert!(parse_line(line).is_none());
}

#[test]
fn parse_rejects_malformed_clock_and_tokens() {
    assert!(parse_line("[1:00:01 INF] User:bob Status:False Messages:x ActionName:Login ClientIp:1.2.3.4").is_none());
    assert!(parse_line("[12:00:01 WRN] User:bob Status:False Messages:x ActionName:Login ClientIp:1.2.3.4").is_none());
    assert!(parse_line("[12:00:01 INF] User:bo-b Status:False Messages:x ActionName:Login ClientIp:1.2.3.4").is_none());
    assert!(parse_line("[12:00:01 INF] User: Status:False Messages:x ActionName:Login ClientIp:1.2.3.4").is_none());
    assert!(parse_line("[12:00:01 INF] User:bob Status:False Messages:x ActionName: ClientIp:1.2.3.4").is_none());
}

#[test]
fn parse_message_is_shortest() {
    let line = "[12:00:01 INF] User:u Status:False Messages:a ActionName:x ClientIp:1 ActionName:Login ClientIp:1.2.3.4";
    let e = parse_line(line).unwrap();
    assert_eq!(e.message, "User:u - Messages:a ActionName:x ClientIp:1");
    assert_eq!(e.ip, "1.2.3.4");
    let line = "[12:00:01 INF] User:u Status:False Messages:one ActionName:A ClientIp:1.1.1.1 ActionName:B ClientIp:2.2.2.2";
    let e = parse_line(line).unwrap();
    assert_eq!(e.message, "User:u - Messages:one");
    assert_eq!(e.ip, "1.1.1.1");
}

#[test]
fn parse_empty_message() {
    let line = "[12:00:01 INF] User:u Status:False Messages: ActionName:Login ClientIp:1.2.3.4";
    assert_eq!(parse_line(line).unwrap().message, "User:u - Messages:");
}

#[test]
fn parse_unicode_word_tokens() {
    let line = "[12:00:01 INF] User:Иван_2 Status:Ложь Messages:пароль ActionName:Вход ClientIp:10.0.0.7";
    let e = parse_line(line).expect("Unicode letters are word characters");
    assert_eq!(e.message, "User:Иван_2 - Messages:пароль");
    assert_eq!(e.status, "Status:Ложь");
    assert_eq!(e.ip, "10.0.0.7");
}

#[test]
fn parse_takes_first_shape_of_a_line() {
    let line = format!("{BOB_FAIL} [13:00:00 INF] User:amy Status:True Messages:ok ActionName:Login ClientIp:9.9.9.9");
    let e = parse_line(&line).unwrap();
    assert_eq!(e.timestamp, "12:00:01");
    assert_eq!(e.status, "Status:False");
}
