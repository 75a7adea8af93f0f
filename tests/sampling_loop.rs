use ping_monitor::measurement::{Latency, Timestamp};
use ping_monitor::parser::ParseError;
use ping_monitor::sampling::{
    read_report, LoopAction, ProbeReport, RunConfiguration, SampleError, SamplingLoop, StartupError,
};

const REPORT: &str = "rtt min/avg/max/stddev = 10.1/15.3/20.7/2.1 ms";

fn at() -> Timestamp {
    Timestamp { millis: 42 }
}

fn config(n: &str) -> RunConfiguration {
    RunConfiguration::from_args("10.0.0.1".to_string(), n).unwrap()
}

#[test]
fn from_args_reads_positive_count() {
    let c = config("5");
    assert_eq!(c.iteration_count, 5);
    assert_eq!(c.target_host, "10.0.0.1");
    assert_eq!(config("+7").iteration_count, 7);
}

#[test]
fn from_args_refuses_bad_count() {
    for bad in ["0", "-3", "abc", "", " 5", "5x", "99999999999"] {
        assert!(matches!(
            RunConfiguration::from_args("h".to_string(), bad),
            Err(StartupError::InvalidStartupArgument)
        ));
    }
}

#[test]
fn read_report_parses_output() {
    let r = read_report(ProbeReport::Output(REPORT.as_bytes().to_vec()), at()).unwrap();
    assert_eq!(r.latency, Latency::new(153, 1));
    assert_eq!(r.observed_at, at());
}

#[test]
fn read_report_failed_probe() {
    let cause = "ping: command not found".to_string();
    assert_eq!(
        read_report(ProbeReport::Failed(cause.clone()), at()),
        Err(SampleError::ProbeInvocationFailed(cause))
    );
}

#[test]
fn read_report_non_utf8() {
    let bytes = vec![b'm', 0xff, 0xfe];
    assert_eq!(read_report(ProbeReport::Output(bytes), at()), Err(SampleError::NonUtf8Output));
}

#[test]
fn read_report_parse_error() {
    let bytes = b"no statistics here".to_vec();
    assert_eq!(
        read_report(ProbeReport::Output(bytes), at()),
        Err(SampleError::Parse(ParseError::MarkerNotFound))
    );
}

#[test]
fn loop_sends_exactly_iteration_count() {
    let mut lp = SamplingLoop::new(&config("3"));
    let mut sends = 0;
    let mut action = lp.next_action();
    let mut steps = 0;
    loop {
        steps += 1;
        assert!(steps < 100);
        action = match action {
            LoopAction::RunProbe => lp.on_report(ProbeReport::Output(REPORT.as_bytes().to_vec()), at()),
            LoopAction::Send(m) => {
                assert_eq!(m.latency, Latency::new(153, 1));
                sends += 1;
                lp.on_send(true)
            }
            LoopAction::Stop => break,
            LoopAction::Abort(e) => panic!("unexpected {:?}", e),
        };
    }
    assert_eq!(sends, 3);
    assert_eq!(lp.sent, 3);
}

#[test]
fn loop_stops_after_disconnect() {
    let mut lp = SamplingLoop::new(&config("10"));
    assert!(matches!(lp.next_action(), LoopAction::RunProbe));
    let a = lp.on_probe(ProbeReport::Output(REPORT.as_bytes().to_vec()));
    assert!(matches!(a, LoopAction::Send(_)));
    assert!(matches!(lp.on_send(true), LoopAction::RunProbe));
    assert!(matches!(lp.on_probe(ProbeReport::Output(REPORT.as_bytes().to_vec())), LoopAction::Send(_)));
    assert!(matches!(lp.on_send(false), LoopAction::Stop));
    assert!(matches!(lp.next_action(), LoopAction::Stop));
    assert_eq!(lp.sent, 1);
    assert!(lp.halted);
}

#[test]
fn loop_aborts_on_failed_probe() {
    let mut lp = SamplingLoop::new(&config("2"));
    match lp.on_report(ProbeReport::Failed("permission denied".to_string()), at()) {
        LoopAction::Abort(e) => {
            assert_eq!(e, SampleError::ProbeInvocationFailed("permission denied".to_string()))
        }
        _ => panic!("expected abort"),
    }
    assert!(matches!(lp.next_action(), LoopAction::Stop));
}

#[test]
fn loop_aborts_on_unreadable_report() {
    let mut lp = SamplingLoop::new(&config("2"));
    match lp.on_report(ProbeReport::Output(b"min/avg/max/stddev = 1/x/2".to_vec()), at()) {
        LoopAction::Abort(e) => assert_eq!(e, SampleError::Parse(ParseError::MalformedNumber)),
        _ => panic!("expected abort"),
    }
}
