use ping_monitor::measurement::{Latency, Measurement, Timestamp};
use ping_monitor::parser::{parse, parse_ping, ParseError};

fn at() -> Timestamp {
    Timestamp { millis: 1_700_000_000_000 }
}

#[test]
fn parse_reads_average_of_summary_line() {
    let r = parse("rtt min/avg/max/stddev = 10.1/15.3/20.7/2.1 ms", at());
    assert_eq!(r, Ok(Measurement { latency: Latency::new(153, 1), observed_at: at() }));
}

#[test]
fn parse_ignores_text_before_marker() {
    let raw = "PING 10.0.0.1 (10.0.0.1): 56 data bytes\n64 bytes from 10.0.0.1: icmp_seq=0 ttl=64 time=3.2 ms\n\n--- 10.0.0.1 ping statistics ---\n1 packets transmitted, 1 packets received, 0.0% packet loss\nround-trip min/avg/max/stddev = 3.214/3.214/3.214/0.000 ms\n";
    let r = parse(raw, at()).unwrap();
    assert_eq!(r.latency, Latency::new(3214, 3));
    assert_eq!(r.observed_at, at());
}

#[test]
fn parse_uses_last_marker() {
    let raw = "min/avg/max/stddev = 1/2/3/4 ms\nmin/avg/max/stddev = 5/6.5/7/8 ms";
    assert_eq!(parse(raw, at()).unwrap().latency, Latency::new(65, 1));
}

#[test]
fn parse_without_marker_fails() {
    assert_eq!(parse("", at()), Err(ParseError::MarkerNotFound));
    assert_eq!(parse("rtt min/avg/max/mdev = 1/2/3/4 ms", at()), Err(ParseError::MarkerNotFound));
    assert_eq!(parse("request timed out", at()), Err(ParseError::MarkerNotFound));
}

#[test]
fn parse_without_stats_segment_fails() {
    assert_eq!(parse("round-trip min/avg/max/stddev", at()), Err(ParseError::StatsSegmentMissing));
    assert_eq!(parse("min/avg/max/stddev=1/2/3/4", at()), Err(ParseError::StatsSegmentMissing));
}

#[test]
fn parse_without_average_field_fails() {
    assert_eq!(parse("min/avg/max/stddev = 10.1", at()), Err(ParseError::MalformedNumber));
}

#[test]
fn parse_with_empty_average_fails() {
    assert_eq!(parse("min/avg/max/stddev = 10.1//20.7/2.1 ms", at()), Err(ParseError::MalformedNumber));
}

#[test]
fn parse_with_non_numeric_average_fails() {
    assert_eq!(parse("min/avg/max/stddev = 1/abc/2/3 ms", at()), Err(ParseError::MalformedNumber));
    assert_eq!(parse("min/avg/max/stddev = 1/1.2.3/2/3 ms", at()), Err(ParseError::MalformedNumber));
    assert_eq!(parse("min/avg/max/stddev = 1/-4/2/3 ms", at()), Err(ParseError::MalformedNumber));
}

#[test]
fn parse_with_unit_suffix_fails() {
    assert_eq!(parse("min/avg/max/stddev = 1/15.3 ms", at()), Err(ParseError::MalformedNumber));
}

#[test]
fn parse_tolerates_blanks_around_average() {
    let r = parse("min/avg/max/stddev = 1/ 15.3 /2/3 ms", at()).unwrap();
    assert_eq!(r.latency, Latency::new(153, 1));
}

#[test]
fn parse_reads_forms_of_decimal() {
    assert_eq!(parse("min/avg/max/stddev = 1/7/2/3", at()).unwrap().latency, Latency::new(7, 0));
    assert_eq!(parse("min/avg/max/stddev = 1/.5/2/3", at()).unwrap().latency, Latency::new(5, 1));
    assert_eq!(parse("min/avg/max/stddev = 1/12./2/3", at()).unwrap().latency, Latency::new(12, 0));
    assert_eq!(parse("min/avg/max/stddev = 1/0.050/2/3", at()).unwrap().latency, Latency::new(50, 3));
}

#[test]
fn parse_refuses_average_beyond_range() {
    assert_eq!(
        parse("min/avg/max/stddev = 1/18446744073709551615/2/3", at()).unwrap().latency,
        Latency::new(18446744073709551615, 0)
    );
    assert_eq!(
        parse("min/avg/max/stddev = 1/18446744073709551616/2/3", at()),
        Err(ParseError::MalformedNumber)
    );
}

#[test]
fn parse_average_is_last_field_when_segment_ends() {
    let r = parse("min/avg/max/stddev = 4/9", at()).unwrap();
    assert_eq!(r.latency, Latency::new(9, 0));
}

#[test]
fn parse_ping_stamps_current_time() {
    let r = parse_ping("rtt min/avg/max/stddev = 10.1/15.3/20.7/2.1 ms").unwrap();
    assert_eq!(r.latency, Latency::new(153, 1));
    assert!(r.observed_at.millis > 1_600_000_000_000);
}

fn average_of(field: &str) -> Result<Latency, ParseError> {
    let raw = format!("rtt min/avg/max/stddev = 1/{}/2/3 ms", field);
    parse(&raw, at()).map(|m| m.latency)
}

#[test]
fn parse_reads_exponent_form() {
    assert_eq!(average_of("1e3"), Ok(Latency::new(1000, 0)));
    assert_eq!(average_of("1.5E-2"), Ok(Latency::new(15, 3)));
    assert_eq!(average_of("2.5e1"), Ok(Latency::new(25, 0)));
    assert_eq!(average_of("1e+2"), Ok(Latency::new(100, 0)));
    assert_eq!(average_of("3e-0"), Ok(Latency::new(3, 0)));
    assert_eq!(average_of("0e99"), Ok(Latency::new(0, 0)));
}

#[test]
fn parse_reads_plus_sign() {
    assert_eq!(average_of("+5"), Ok(Latency::new(5, 0)));
    assert_eq!(average_of("+15.3"), Ok(Latency::new(153, 1)));
}

#[test]
fn parse_refuses_malformed_exponent() {
    for bad in ["1e", "e5", "1e+", "1e2.5", "++5", "+-5", "inf", "NaN", "1e20", "1E3x"] {
        assert_eq!(average_of(bad), Err(ParseError::MalformedNumber), "field {:?}", bad);
    }
}
