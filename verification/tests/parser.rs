//! The line parser: the example line shape, and every way a line can fail.
use mirror_metrics::parse_line;
use mirror_metrics::LineError;

fn good_line() -> String {
    "\"07/Feb/2024:00:01:06 -0500\" \"184.146.232.53\" \"GET /msys2/x.pkg HTTP/1.1\" \"200\" \"566\" \"203\" \"pacman/6.0.2\"".to_string()
}

#[test]
fn parses_a_well_formed_line() {
    let e = parse_line(good_line().as_bytes()).unwrap();
    assert_eq!(e.date.year, 2024);
    assert_eq!(e.date.month, 2);
    assert_eq!(e.date.day, 7);
    assert_eq!(e.ip, b"184.146.232.53".to_vec());
    assert_eq!(e.method, b"GET".to_vec());
    assert_eq!(e.path, b"/msys2/x.pkg".to_vec());
    assert_eq!(e.version, b"HTTP/1.1".to_vec());
    assert_eq!(e.status, 200);
    assert_eq!(e.bytes_sent, 566);
    assert_eq!(e.bytes_received, 203);
    assert_eq!(e.user_agent, b"pacman/6.0.2".to_vec());
}

#[test]
fn wrong_segment_count_is_rejected() {
    assert_eq!(
        parse_line(b"no quotes at all").unwrap_err(),
        LineError::Segments
    );
    let short = "\"07/Feb/2024:00:01:06 -0500\" \"1.2.3.4\" \"GET / HTTP/1.1\" \"200\" \"1\" \"2\"";
    assert_eq!(parse_line(short.as_bytes()).unwrap_err(), LineError::Segments);
}

#[test]
fn bad_timestamp_is_rejected() {
    let l = good_line().replace("07/Feb/2024:00:01:06 -0500", "2024-02-07 00:01:06");
    assert_eq!(parse_line(l.as_bytes()).unwrap_err(), LineError::Timestamp);
    let impossible = good_line().replace("07/Feb/2024", "30/Feb/2024");
    assert_eq!(
        parse_line(impossible.as_bytes()).unwrap_err(),
        LineError::Timestamp
    );
}

#[test]
fn bad_ip_is_rejected() {
    for bad in ["999.1.2.3", "1.2.3", "01.2.3.4", "1.2.3.4.5", "g::1", "1:2:3", "not an ip"] {
        let l = good_line().replace("184.146.232.53", bad);
        assert_eq!(parse_line(l.as_bytes()).unwrap_err(), LineError::Ip, "{}", bad);
    }
}

#[test]
fn ipv6_addresses_are_accepted() {
    for good in [
        "::",
        "::1",
        "fe80::",
        "2001:db8::8a2e:370:7334",
        "1:2:3:4:5:6:7:8",
        "2001:DB8::1",
    ] {
        let l = good_line().replace("184.146.232.53", good);
        assert!(parse_line(l.as_bytes()).is_ok(), "{}", good);
    }
}

#[test]
fn bad_request_line_is_rejected() {
    let l = good_line().replace("GET /msys2/x.pkg HTTP/1.1", "GET /msys2/x.pkg");
    assert_eq!(parse_line(l.as_bytes()).unwrap_err(), LineError::Request);
    let l2 = good_line().replace("GET /msys2/x.pkg HTTP/1.1", "GET  /msys2/x.pkg HTTP/1.1");
    assert_eq!(parse_line(l2.as_bytes()).unwrap_err(), LineError::Request);
}

#[test]
fn bad_status_is_rejected() {
    let l = good_line().replace("\"200\"", "\"abc\"");
    assert_eq!(parse_line(l.as_bytes()).unwrap_err(), LineError::Status);
    let l2 = good_line().replace("\"200\"", "\"70000\"");
    assert_eq!(parse_line(l2.as_bytes()).unwrap_err(), LineError::Status);
}

#[test]
fn bad_byte_counters_are_rejected() {
    let l = good_line().replace("\"566\"", "\"56x\"");
    assert_eq!(parse_line(l.as_bytes()).unwrap_err(), LineError::Bytes);
    let l2 = good_line().replace("\"203\"", "\"\"");
    assert_eq!(parse_line(l2.as_bytes()).unwrap_err(), LineError::Bytes);
}
