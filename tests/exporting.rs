use ping_monitor::export::{export_lines, export_to_csv, ExportError};
use ping_monitor::measurement::Latency;

#[test]
fn export_writes_one_value_per_line() {
    let vs = vec![Latency::new(10, 1), Latency::new(25, 1)];
    assert_eq!(export_to_csv(false, &vs), Ok("1\n2.5".to_string()));
}

#[test]
fn export_refuses_existing_destination() {
    let vs = vec![Latency::new(10, 1), Latency::new(25, 1)];
    assert_eq!(export_to_csv(true, &vs), Err(ExportError::DestinationAlreadyExists));
}

#[test]
fn export_of_nothing_is_empty() {
    assert_eq!(export_lines(&vec![]), "");
}

#[test]
fn export_renders_shortest_decimal() {
    let vs = vec![
        Latency::new(153, 1),
        Latency::new(0, 0),
        Latency::new(50, 3),
        Latency::new(1200, 2),
        Latency::new(7, 0),
        Latency::new(3214, 3),
        Latency::new(0, 2),
    ];
    assert_eq!(export_lines(&vs), "15.3\n0\n0.05\n12\n7\n3.214\n0");
}

#[test]
fn export_single_value_has_no_newline() {
    assert_eq!(export_lines(&vec![Latency::new(18446744073709551615, 0)]), "18446744073709551615");
}
