use vstd::prelude::*;
use vstd::utf8::{decode_utf8, valid_utf8};

use crate::measurement::{utc_now, Measurement, Timestamp};
use crate::parser::{all_digits, fold_digits, parse, parse_text, ParseError};

verus! {

/// Why a startup parameter was refused.
#[derive(PartialEq, Eq, Structural, Clone, Copy, Debug)]
pub enum StartupError {
    /// The iteration count is not a positive integer.
    InvalidStartupArgument,
}

/// Why one probe gave no measurement.
#[derive(PartialEq, Eq, Clone, Debug)]
pub enum SampleError {
    /// The probe tool could not be run, for the reason given.
    ProbeInvocationFailed(String),
    /// The probe tool's report is not UTF-8.
    NonUtf8Output,
    /// The report holds no readable average.
    Parse(ParseError),
}

/// What running the probe tool once handed back.
pub enum ProbeReport {
    /// The tool ran; these are the bytes it printed.
    Output(Vec<u8>),
    /// The tool could not be run, for the reason given.
    Failed(String),
}

/// The value of a decimal integer with an optional sign, as `i32` reads it:
/// `+` or `-`, then at least one digit and nothing else, within `i32`'s range.
pub open spec fn i32_text_value(s: Seq<char>) -> Option<int> {
    let signed = s.len() > 0 && (s[0] == '+' || s[0] == '-');
    let body = if signed {
        s.drop_first()
    } else {
        s
    };
    let v = if s.len() > 0 && s[0] == '-' {
        -fold_digits(0, body)
    } else {
        fold_digits(0, body)
    };
    if body.len() > 0 && all_digits(body) && i32::MIN <= v <= i32::MAX {
        Some(v)
    } else {
        None
    }
}

/// Relies on std's `str::parse::<i32>` (`i32::from_str`): an optional sign
/// followed by decimal digits only, within range, is read as its value; any
/// other text is an error.
#[verifier::external_body]
fn parse_i32(s: &str) -> (r: Option<i32>)
    ensures
        r is Some <==> i32_text_value(s@) is Some,
        r matches Some(n) ==> i32_text_value(s@) == Some(n as int),
{
    s.parse::<i32>().ok()
}

/// Relies on std's `String::from_utf8`: it accepts exactly the valid UTF-8
/// byte sequences, and yields the text that they encode.
#[verifier::external_body]
fn text_of_bytes(bytes: Vec<u8>) -> (r: Option<String>)
    ensures
        r is Some <==> valid_utf8(bytes@),
        r matches Some(s) ==> s@ == decode_utf8(bytes@),
{
    String::from_utf8(bytes).ok()
}

/// The parameters of one run, fixed at startup.
pub struct RunConfiguration {
    pub target_host: String,
    pub iteration_count: u32,
}

impl RunConfiguration {
    /// Takes the host as given and reads the iteration count from its text,
    /// which must be a positive integer.
    pub fn from_args(target_host: String, count_text: &str) -> (r: Result<
        RunConfiguration,
        StartupError,
    >)
        ensures
            match i32_text_value(count_text@) {
                Some(n) if n > 0 => r matches Ok(c) && c.iteration_count == n && c.target_host@
                    == target_host@,
                _ => r == Err::<RunConfiguration, StartupError>(StartupError::InvalidStartupArgument),
            },
    {
        match parse_i32(count_text) {
            Some(n) if n > 0 => Ok(RunConfiguration { target_host, iteration_count: n as u32 }),
            _ => Err(StartupError::InvalidStartupArgument),
        }
    }
}

/// What one probe report, received at `at`, yields.
pub open spec fn report_outcome(report: ProbeReport, at: Timestamp) -> Result<
    Measurement,
    SampleError,
> {
    match report {
        ProbeReport::Failed(cause) => Err(SampleError::ProbeInvocationFailed(cause)),
        ProbeReport::Output(b) => if !valid_utf8(b@) {
            Err(SampleError::NonUtf8Output)
        } else {
            match parse_text(decode_utf8(b@), at) {
                Ok(m) => Ok(m),
                Err(e) => Err(SampleError::Parse(e)),
            }
        },
    }
}

/// Reads what one run of the probe tool handed back, received at
/// `received_at`.
pub fn read_report(report: ProbeReport, received_at: Timestamp) -> (r: Result<
    Measurement,
    SampleError,
>)
    ensures
        r == report_outcome(report, received_at),
{
    match report {
        ProbeReport::Failed(cause) => Err(SampleError::ProbeInvocationFailed(cause)),
        ProbeReport::Output(bytes) => match text_of_bytes(bytes) {
            None => Err(SampleError::NonUtf8Output),
            Some(text) => match parse(text.as_str(), received_at) {
                Ok(m) => Ok(m),
                Err(e) => Err(SampleError::Parse(e)),
            },
        },
    }
}

/// What the sampling loop asks its driver to do next.
pub enum LoopAction {
    /// Run the probe tool once and hand its report to `on_probe`.
    RunProbe,
    /// Send this measurement to the consumer and report to `on_send`
    /// whether it was taken.
    Send(Measurement),
    /// The run is over.
    Stop,
    /// The run failed and must end with this error.
    Abort(SampleError),
}

/// The decisions of the sampling loop: probe, send what was read, and stop
/// after `iteration_count` sends or as soon as the consumer is gone.
pub struct SamplingLoop {
    pub iteration_count: u32,
    /// How many measurements the consumer has taken.
    pub sent: u32,
    /// Set once the consumer is gone or a probe failed.
    pub halted: bool,
}

impl SamplingLoop {
    pub open spec fn done(self) -> bool {
        self.halted || self.sent >= self.iteration_count
    }

    /// What the loop asks for while nothing is pending.
    pub open spec fn action(self) -> LoopAction {
        if self.done() {
            LoopAction::Stop
        } else {
            LoopAction::RunProbe
        }
    }

    /// The state after the consumer took one more measurement.
    pub open spec fn delivered(self) -> SamplingLoop {
        SamplingLoop { sent: (self.sent + 1) as u32, ..self }
    }

    /// The state after a send found the consumer gone.
    pub open spec fn disconnected(self) -> SamplingLoop {
        SamplingLoop { halted: true, ..self }
    }

    /// The state after `k` measurements in a row were taken.
    pub open spec fn delivered_times(self, k: nat) -> SamplingLoop
        decreases k,
    {
        if k == 0 {
            self
        } else {
            self.delivered_times((k - 1) as nat).delivered()
        }
    }

    pub fn new(config: &RunConfiguration) -> (r: SamplingLoop)
        ensures
            r == (SamplingLoop { iteration_count: config.iteration_count, sent: 0, halted: false }),
    {
        SamplingLoop { iteration_count: config.iteration_count, sent: 0, halted: false }
    }

    pub fn next_action(&self) -> (r: LoopAction)
        ensures
            r == self.action(),
    {
        if self.halted || self.sent >= self.iteration_count {
            LoopAction::Stop
        } else {
            LoopAction::RunProbe
        }
    }

    /// Takes the report of the probe that `RunProbe` asked for, received at
    /// `received_at`: a measurement is to be sent, and any failure ends the
    /// run.
    pub fn on_report(&mut self, report: ProbeReport, received_at: Timestamp) -> (r: LoopAction)
        requires
            !old(self).done(),
        ensures
            match report_outcome(report, received_at) {
                Ok(m) => r == LoopAction::Send(m) && *final(self) == *old(self),
                Err(e) => r == LoopAction::Abort(e) && *final(self) == old(self).disconnected(),
            },
    {
        match read_report(report, received_at) {
            Ok(m) => LoopAction::Send(m),
            Err(e) => {
                self.halted = true;
                LoopAction::Abort(e)
            },
        }
    }

    /// As `on_report`, stamping the report with the current UTC time.
    pub fn on_probe(&mut self, report: ProbeReport) -> (r: LoopAction)
        requires
            !old(self).done(),
        ensures
            exists|at: Timestamp|
                match #[trigger] report_outcome(report, at) {
                    Ok(m) => r == LoopAction::Send(m) && *final(self) == *old(self),
                    Err(e) => r == LoopAction::Abort(e) && *final(self) == old(self).disconnected(),
                },
    {
        let now = utc_now();
        self.on_report(report, now)
    }

    /// Takes whether the measurement that `Send` asked for reached the
    /// consumer. A refused send means the consumer is gone: the run stops.
    pub fn on_send(&mut self, delivered: bool) -> (r: LoopAction)
        requires
            !old(self).done(),
        ensures
            *final(self) == if delivered {
                old(self).delivered()
            } else {
                old(self).disconnected()
            },
            r == final(self).action(),
    {
        if delivered {
            self.sent = self.sent + 1;
        } else {
            self.halted = true;
        }
        self.next_action()
    }
}

/// When every probe succeeds and every send is taken, a fresh loop asks for
/// a probe before each of its first `iteration_count` sends and stops right
/// after the last: it sends exactly `iteration_count` measurements.
pub proof fn lemma_sends_exactly_iteration_count(c: SamplingLoop)
    requires
        c.sent == 0,
        !c.halted,
    ensures
        forall|k: nat|
            k < c.iteration_count ==> #[trigger] c.delivered_times(k).action() == LoopAction::RunProbe
                && c.delivered_times(k).sent == k,
        c.delivered_times(c.iteration_count as nat).sent == c.iteration_count,
        c.delivered_times(c.iteration_count as nat).action() == LoopAction::Stop,
{
    assert forall|k: nat| k <= c.iteration_count implies #[trigger] c.delivered_times(k).sent == k
        && !c.delivered_times(k).halted && c.delivered_times(k).iteration_count
        == c.iteration_count by {
        lemma_delivered_times(c, k);
    }
    assert(c.delivered_times(c.iteration_count as nat).sent == c.iteration_count);
}

proof fn lemma_delivered_times(c: SamplingLoop, k: nat)
    requires
        c.sent == 0,
        !c.halted,
        k <= c.iteration_count,
    ensures
        c.delivered_times(k).sent == k,
        !c.delivered_times(k).halted,
        c.delivered_times(k).iteration_count == c.iteration_count,
    decreases k,
{
    if k > 0 {
        lemma_delivered_times(c, (k - 1) as nat);
    }
}

/// Once a send finds the consumer gone, the loop stops: it asks for no
/// probe and no send again.
pub proof fn lemma_stops_after_disconnect(c: SamplingLoop)
    ensures
        c.disconnected().done(),
        c.disconnected().action() == LoopAction::Stop,
{
}

} // verus!
