//! The stub page for a server that cannot be reached: probing, its schedule,
//! and what the window shows.
//!
//! A probe connects to the attach URL. Any HTTP answer means alive, whatever
//! its status; for `https`, where nothing is spoken, an accepted connection
//! does. While the server is dead the window shows [`STUB_PAGE`], and probes
//! follow one another by [`backoff_delay_ms`].
use vstd::prelude::*;
use vstd::slice::slice_subrange;
use vstd::string::StringExecFns;
use vstd::utf8::{decode_utf8, valid_utf8};

use crate::bytes;
use crate::splash;
use crate::text;
use crate::web_url::{Url, UrlView};

verus! {

/// How long a probe waits to connect, and to read, in milliseconds.
pub const PROBE_TIMEOUT_MS: u64 = 3_000;

/// How long to wait between probes while the server is alive, in milliseconds.
pub const ALIVE_POLL_MS: u64 = 10_000;

/// The page that the window shows while the server is dead.
pub const STUB_PAGE: &'static str = "tauri://localhost/unreachable.html";

// ── one probe ──────────────────────────────────────────────────────────────

/// How the connection of a probe went.
#[derive(Debug, Clone, PartialEq, Eq)]
pub enum ConnectOutcome {
    /// Connected; and how the answer was.
    Connected(HttpRead),
    /// The connection was refused.
    Refused,
    /// Connecting or reading took too long.
    Timeout,
    /// The host has no address.
    Unresolved,
    /// Any other failure.
    Io(String),
}

/// What came back over a connection.
#[derive(Debug, Clone, PartialEq, Eq)]
pub enum HttpRead {
    /// A status line with this code.
    Status(u16),
    /// Nothing was asked: a TLS listener accepted the connection.
    TlsAccepted,
    /// No usable status line; the text says what came instead.
    NoStatus(String),
}

/// What a probe found.
#[derive(Debug, Clone, PartialEq, Eq)]
pub struct ProbeVerdict {
    pub alive: bool,
    pub detail: String,
}

/// `ProbeVerdict` as a mathematical value.
pub struct VerdictView {
    pub alive: bool,
    pub detail: Seq<char>,
}

impl View for ProbeVerdict {
    type V = VerdictView;

    open spec fn view(&self) -> VerdictView {
        VerdictView { alive: self.alive, detail: self.detail@ }
    }
}

/// The value of a decimal digit.
pub open spec fn digit_value(c: char) -> int {
    c as int - '0' as int
}

/// The code in a status line: `HTTP/`, a version that begins with a digit, a
/// space, and three digits.
pub open spec fn status_code(line: Seq<char>) -> Option<int> {
    let rest = line.skip("HTTP/"@.len() as int);
    let space = text::index_where(rest, text::is_char(' '));
    if text::begins_with(line, "HTTP/"@) && rest.len() > 0 && text::is_digit(rest[0]) && space + 4
        <= rest.len() && text::is_digit(rest[space + 1]) && text::is_digit(rest[space + 2])
        && text::is_digit(rest[space + 3]) {
        Some(
            100 * digit_value(rest[space + 1]) + 10 * digit_value(rest[space + 2]) + digit_value(
                rest[space + 3],
            ),
        )
    } else {
        None
    }
}

/// The verdict on the outcome of a connection: alive if an HTTP status came
/// back, whatever it is, or a TLS listener accepted.
pub open spec fn outcome_verdict(outcome: ConnectOutcome) -> VerdictView {
    match outcome {
        ConnectOutcome::Connected(HttpRead::Status(code)) => VerdictView {
            alive: true,
            detail: "HTTP "@ + text::decimal(code as nat) + " response"@,
        },
        ConnectOutcome::Connected(HttpRead::TlsAccepted) => VerdictView {
            alive: true,
            detail: "TLS port accepting connections"@,
        },
        ConnectOutcome::Connected(HttpRead::NoStatus(what)) => VerdictView {
            alive: false,
            detail: "no HTTP status ("@ + what@ + ")"@,
        },
        ConnectOutcome::Refused => VerdictView { alive: false, detail: "connection refused"@ },
        ConnectOutcome::Timeout => VerdictView { alive: false, detail: "timeout"@ },
        ConnectOutcome::Unresolved => VerdictView {
            alive: false,
            detail: "host could not be resolved"@,
        },
        ConnectOutcome::Io(error) => VerdictView { alive: false, detail: "error: "@ + error@ },
    }
}

/// The number of a decimal digit.
fn number_of(c: char) -> (r: u16)
    requires
        text::is_digit(c),
    ensures
        r == digit_value(c),
        r <= 9,
{
    (c as u8 - 48) as u16
}

/// The code in a status line.
pub fn parse_status_line(line: &str) -> (r: Option<u16>)
    ensures
        match r {
            Some(code) => status_code(line@) == Some(code as int),
            None => status_code(line@) is None,
        },
{
    let chars = text::chars_of(line);
    let prefix = text::chars_of("HTTP/");
    if !text::starts_with(chars.as_slice(), prefix.as_slice()) {
        return None;
    }
    let rest = slice_subrange(chars.as_slice(), prefix.len(), chars.len());
    assert(rest@ =~= line@.skip(prefix@.len() as int));
    let n = rest.len();
    if n == 0 || !text::is_ascii_digit(rest[0]) {
        return None;
    }
    let space = text::find_char(rest, ' ');
    if n - space < 4 {
        return None;
    }
    let (a, b, c) = (rest[space + 1], rest[space + 2], rest[space + 3]);
    if text::is_ascii_digit(a) && text::is_ascii_digit(b) && text::is_ascii_digit(c) {
        Some(100 * number_of(a) + 10 * number_of(b) + number_of(c))
    } else {
        None
    }
}

/// Judges the outcome of a connection.
pub fn classify_connect(outcome: &ConnectOutcome) -> (r: ProbeVerdict)
    ensures
        r@ == outcome_verdict(*outcome),
{
    match outcome {
        ConnectOutcome::Connected(HttpRead::Status(code)) => {
            let mut detail = "HTTP ".to_string();
            detail.append(text::decimal_text(*code as u64).as_str());
            detail.append(" response");
            ProbeVerdict { alive: true, detail }
        },
        ConnectOutcome::Connected(HttpRead::TlsAccepted) => ProbeVerdict {
            alive: true,
            detail: "TLS port accepting connections".to_string(),
        },
        ConnectOutcome::Connected(HttpRead::NoStatus(what)) => {
            let mut detail = "no HTTP status (".to_string();
            detail.append(what.as_str());
            detail.append(")");
            ProbeVerdict { alive: false, detail }
        },
        ConnectOutcome::Refused => ProbeVerdict {
            alive: false,
            detail: "connection refused".to_string(),
        },
        ConnectOutcome::Timeout => ProbeVerdict { alive: false, detail: "timeout".to_string() },
        ConnectOutcome::Unresolved => ProbeVerdict {
            alive: false,
            detail: "host could not be resolved".to_string(),
        },
        ConnectOutcome::Io(error) => {
            let mut detail = "error: ".to_string();
            detail.append(error.as_str());
            ProbeVerdict { alive: false, detail }
        },
    }
}

/// What kind of failure a socket reports, as far as a probe cares.
#[derive(Debug, Clone, Copy, PartialEq, Eq)]
pub enum SocketFault {
    Refused,
    TimedOut,
    WouldBlock,
    Other,
}

/// What happened to a probe.
#[derive(Debug, Clone, PartialEq, Eq)]
pub enum ProbeEvent {
    /// The probe begins.
    Begin,
    /// The host and port have no address.
    NoAddress,
    /// Connecting failed; the text is the system's.
    ConnectFailed(SocketFault, String),
    /// The connection stands.
    Connected,
    /// Writing the request failed.
    WriteFailed(String),
    /// Reading the answer failed.
    ReadFailed(SocketFault, String),
    /// The first read brought these bytes.
    Received(Vec<u8>),
}

/// What a probe does next.
#[derive(Debug, Clone, PartialEq, Eq)]
pub enum ProbeAction {
    /// Resolve this host and port, and connect to the first address.
    Connect { host: String, port: u16 },
    /// Send this request, and read once.
    Ask { request: String },
    /// The probe is over.
    Finish(ProbeVerdict),
}

/// `ProbeAction` as a mathematical value.
pub enum ActionView {
    Connect { host: Seq<char>, port: u16 },
    Ask { request: Seq<char> },
    Finish(VerdictView),
}

impl View for ProbeAction {
    type V = ActionView;

    open spec fn view(&self) -> ActionView {
        match self {
            ProbeAction::Connect { host, port } => ActionView::Connect { host: host@, port: *port },
            ProbeAction::Ask { request } => ActionView::Ask { request: request@ },
            ProbeAction::Finish(verdict) => ActionView::Finish(verdict@),
        }
    }
}

/// The port that a probe connects to.
pub open spec fn probe_port(url: UrlView) -> u16 {
    match url.port {
        Some(port) => port,
        None => 80,
    }
}

/// The request that a probe sends.
pub open spec fn probe_request(host: Seq<char>, port: u16) -> Seq<char> {
    "GET / HTTP/1.0\r\nHost: "@ + host + ":"@ + text::decimal(port as nat) + "\r\n\r\n"@
}

/// The verdict on the text of an answer: that on the code in its first line.
pub open spec fn answer_verdict(answer: Seq<char>) -> VerdictView {
    let line = text::first_line(answer);
    match status_code(line) {
        Some(code) => VerdictView {
            alive: true,
            detail: "HTTP "@ + text::decimal(code as nat) + " response"@,
        },
        None => VerdictView {
            alive: false,
            detail: "no HTTP status ("@ + ("unexpected response "@ + text::debug_text(line))
                + ")"@,
        },
    }
}

/// What a probe of a URL does about an event.
pub open spec fn probe_action(url: UrlView, event: ProbeEvent) -> ActionView {
    match event {
        ProbeEvent::Begin => match url.host {
            Some(host) => ActionView::Connect { host: host.text, port: probe_port(url) },
            None => ActionView::Finish(outcome_verdict(ConnectOutcome::Unresolved)),
        },
        ProbeEvent::NoAddress => ActionView::Finish(outcome_verdict(ConnectOutcome::Unresolved)),
        ProbeEvent::ConnectFailed(fault, message) => ActionView::Finish(
            outcome_verdict(
                match fault {
                    SocketFault::Refused => ConnectOutcome::Refused,
                    SocketFault::TimedOut => ConnectOutcome::Timeout,
                    SocketFault::WouldBlock => ConnectOutcome::Timeout,
                    SocketFault::Other => ConnectOutcome::Io(message),
                },
            ),
        ),
        ProbeEvent::Connected => if url.scheme == "https"@ {
            ActionView::Finish(
                outcome_verdict(ConnectOutcome::Connected(HttpRead::TlsAccepted)),
            )
        } else {
            ActionView::Ask {
                request: probe_request(
                    match url.host {
                        Some(host) => host.text,
                        None => Seq::empty(),
                    },
                    probe_port(url),
                ),
            }
        },
        ProbeEvent::WriteFailed(message) => ActionView::Finish(
            outcome_verdict(ConnectOutcome::Io(message)),
        ),
        ProbeEvent::ReadFailed(fault, message) => ActionView::Finish(
            outcome_verdict(
                match fault {
                    SocketFault::TimedOut => ConnectOutcome::Timeout,
                    SocketFault::WouldBlock => ConnectOutcome::Timeout,
                    _ => ConnectOutcome::Io(message),
                },
            ),
        ),
        ProbeEvent::Received(received) => ActionView::Finish(
            answer_verdict(bytes::utf8_lossy(received@)),
        ),
    }
}

/// Judges the text of an answer.
pub fn judge_answer(answer: &str) -> (r: ProbeVerdict)
    ensures
        r@ == answer_verdict(answer@),
{
    let chars = text::chars_of(answer);
    let line = text::string_of(text::line_one(chars.as_slice()));
    let read = match parse_status_line(line.as_str()) {
        Some(code) => HttpRead::Status(code),
        None => {
            let mut what = "unexpected response ".to_string();
            what.append(text::quoted(line.as_str()).as_str());
            HttpRead::NoStatus(what)
        },
    };
    classify_connect(&ConnectOutcome::Connected(read))
}

/// The port of a URL, or 80.
fn port_to_probe(url: &Url) -> (r: u16)
    ensures
        r == probe_port(url@),
{
    match url.port {
        Some(port) => port,
        None => 80,
    }
}

/// One probe of a URL, driven by what happens to it: begin with
/// [`ProbeEvent::Begin`], perform the action, and hand back what came of it,
/// until the action is to finish.
pub fn probe_once(url: &Url, event: ProbeEvent) -> (r: ProbeAction)
    ensures
        r@ == probe_action(url@, event),
        event matches ProbeEvent::Received(received) ==> valid_utf8(received@) ==> bytes::utf8_lossy(
            received@,
        ) == decode_utf8(received@),
{
    match event {
        ProbeEvent::Begin => match &url.host {
            Some(host) => ProbeAction::Connect {
                host: host.text.clone(),
                port: port_to_probe(url),
            },
            None => ProbeAction::Finish(classify_connect(&ConnectOutcome::Unresolved)),
        },
        ProbeEvent::NoAddress => ProbeAction::Finish(
            classify_connect(&ConnectOutcome::Unresolved),
        ),
        ProbeEvent::ConnectFailed(fault, message) => {
            let outcome = match fault {
                SocketFault::Refused => ConnectOutcome::Refused,
                SocketFault::TimedOut => ConnectOutcome::Timeout,
                SocketFault::WouldBlock => ConnectOutcome::Timeout,
                SocketFault::Other => ConnectOutcome::Io(message),
            };
            ProbeAction::Finish(classify_connect(&outcome))
        },
        ProbeEvent::Connected => if text::same_text(url.scheme.as_str(), "https") {
            ProbeAction::Finish(
                classify_connect(&ConnectOutcome::Connected(HttpRead::TlsAccepted)),
            )
        } else {
            let mut request = "GET / HTTP/1.0\r\nHost: ".to_string();
            match &url.host {
                Some(host) => request.append(host.text.as_str()),
                None => {},
            }
            request.append(":");
            request.append(text::decimal_text(port_to_probe(url) as u64).as_str());
            request.append("\r\n\r\n");
            assert(request@ =~= probe_request(
                match url@.host {
                    Some(host) => host.text,
                    None => Seq::empty(),
                },
                probe_port(url@),
            ));
            ProbeAction::Ask { request }
        },
        ProbeEvent::WriteFailed(message) => ProbeAction::Finish(
            classify_connect(&ConnectOutcome::Io(message)),
        ),
        ProbeEvent::ReadFailed(fault, message) => {
            let outcome = match fault {
                SocketFault::TimedOut => ConnectOutcome::Timeout,
                SocketFault::WouldBlock => ConnectOutcome::Timeout,
                SocketFault::Refused => ConnectOutcome::Io(message),
                SocketFault::Other => ConnectOutcome::Io(message),
            };
            ProbeAction::Finish(classify_connect(&outcome))
        },
        ProbeEvent::Received(received) => ProbeAction::Finish(
            judge_answer(bytes::lossy_text(received.as_slice()).as_str()),
        ),
    }
}

/// The verdict as the stub page shows it.
pub open spec fn label(verdict: VerdictView) -> Seq<char> {
    if verdict.alive {
        "alive ("@ + verdict.detail + ")"@
    } else {
        "dead — "@ + verdict.detail
    }
}

/// The verdict as the stub page shows it.
pub fn verdict_label(verdict: &ProbeVerdict) -> (r: String)
    ensures
        r@ == label(verdict@),
{
    if verdict.alive {
        let mut out = "alive (".to_string();
        out.append(verdict.detail.as_str());
        out.append(")");
        out
    } else {
        let mut out = "dead — ".to_string();
        out.append(verdict.detail.as_str());
        out
    }
}

// ── the schedule ───────────────────────────────────────────────────────────

/// The delay before the next probe after `attempt` failures in a row: one
/// second, doubled with each further failure, and never more than fifteen.
pub open spec fn backoff(attempt: nat) -> nat
    decreases attempt,
{
    if attempt <= 1 {
        1_000
    } else if 2 * backoff((attempt - 1) as nat) > 15_000 {
        15_000
    } else {
        2 * backoff((attempt - 1) as nat)
    }
}

/// From the fifth failure on, the delay is the longest.
proof fn lemma_backoff_caps(attempt: nat)
    requires
        attempt >= 5,
    ensures
        backoff(attempt) == 15_000,
    decreases attempt,
{
    reveal_with_fuel(backoff, 6);
    if attempt > 5 {
        lemma_backoff_caps((attempt - 1) as nat);
    }
}

/// The delay before the next probe after `attempt` failures in a row, in
/// milliseconds.
pub fn backoff_delay_ms(attempt: u32) -> (r: u64)
    ensures
        r == backoff(attempt as nat),
{
    proof {
        reveal_with_fuel(backoff, 5);
    }
    if attempt <= 1 {
        1_000
    } else if attempt == 2 {
        2_000
    } else if attempt == 3 {
        4_000
    } else if attempt == 4 {
        8_000
    } else {
        proof {
            lemma_backoff_caps(attempt as nat);
        }
        15_000
    }
}

// ── the monitor ────────────────────────────────────────────────────────────

/// The server that is watched, with its history.
#[derive(Debug, Clone, PartialEq, Eq)]
pub struct MonitorTarget {
    pub url: Url,
    /// Whether the server has to trust a host that is not loopback.
    pub non_loopback: bool,
    /// Failed probes in a row since the last one that succeeded.
    pub attempt: u32,
    /// The last verdict, as the stub page shows it.
    pub last_verdict: String,
    /// Whether the window shows the stub page.
    pub on_stub: bool,
}

/// `MonitorTarget` as a mathematical value.
pub struct TargetView {
    pub url: UrlView,
    pub non_loopback: bool,
    pub attempt: u32,
    pub last_verdict: Seq<char>,
    pub on_stub: bool,
}

impl View for MonitorTarget {
    type V = TargetView;

    open spec fn view(&self) -> TargetView {
        TargetView {
            url: self.url@,
            non_loopback: self.non_loopback,
            attempt: self.attempt,
            last_verdict: self.last_verdict@,
            on_stub: self.on_stub,
        }
    }
}

/// What the probe thread and the stub page's commands share.
#[derive(Debug, Clone, PartialEq, Eq)]
pub struct ProbeMonitor {
    pub target: Option<MonitorTarget>,
    /// Whether the probe thread was started.
    pub thread_started: bool,
}

/// `ProbeMonitor` as a mathematical value.
pub struct MonitorView {
    pub target: Option<TargetView>,
    pub thread_started: bool,
}

impl View for ProbeMonitor {
    type V = MonitorView;

    open spec fn view(&self) -> MonitorView {
        MonitorView {
            target: match self.target {
                Some(target) => Some(target@),
                None => None,
            },
            thread_started: self.thread_started,
        }
    }
}

/// Where a server is watched, the probe thread was started.
pub open spec fn watched_by_thread(monitor: MonitorView) -> bool {
    monitor.target is Some ==> monitor.thread_started
}

/// What starting to watch a URL asks of the caller.
#[derive(Debug, Clone, Copy, PartialEq, Eq)]
pub enum MonitorStart {
    /// The sidecar is shown: nothing is watched.
    SidecarMode,
    /// The URL is watched already.
    Kept,
    /// The URL is watched now, by the thread that runs.
    Retargeted,
    /// The URL is watched now; start the probe thread.
    StartThread,
}

/// What the probe thread does with a verdict.
#[derive(Debug, Clone, PartialEq, Eq)]
pub enum ProbeStep {
    /// Nothing is watched any more: the thread ends.
    Exit,
    /// Another server is watched by now: the verdict is dropped, and the
    /// thread probes again at once.
    Stale,
    /// The verdict counts; the window goes to this URL, if there is one.
    Applied { navigate: Option<String> },
}

/// `ProbeStep` as a mathematical value.
pub enum StepView {
    Exit,
    Stale,
    Applied { navigate: Option<Seq<char>> },
}

impl View for ProbeStep {
    type V = StepView;

    open spec fn view(&self) -> StepView {
        match self {
            ProbeStep::Exit => StepView::Exit,
            ProbeStep::Stale => StepView::Stale,
            ProbeStep::Applied { navigate } => StepView::Applied {
                navigate: text::text_view(*navigate),
            },
        }
    }
}

/// What a manual retry answers.
#[derive(Debug, Clone, PartialEq, Eq)]
pub struct RetryReply {
    /// Whether the server is alive.
    pub alive: bool,
    /// Where the window goes, if it goes anywhere.
    pub navigate: Option<String>,
}

/// What the stub page shows.
#[derive(Debug, Clone, PartialEq, Eq)]
pub struct StubDiagnostics {
    pub url: String,
    pub verdict: String,
    pub attempt: u32,
    pub next_retry_ms: u64,
    pub on_stub: bool,
    pub non_loopback: bool,
}

/// A server that was not probed yet.
pub open spec fn fresh_target(url: UrlView) -> TargetView {
    TargetView {
        url,
        non_loopback: !splash::is_loopback(url),
        attempt: 0,
        last_verdict: "probing…"@,
        on_stub: false,
    }
}

/// One more failure in a row.
pub open spec fn one_more(attempt: u32) -> u32 {
    if attempt == u32::MAX {
        attempt
    } else {
        (attempt + 1) as u32
    }
}

/// A target after a verdict of the probe thread.
pub open spec fn probed(target: TargetView, verdict: VerdictView) -> TargetView {
    TargetView {
        attempt: if verdict.alive {
            0
        } else {
            one_more(target.attempt)
        },
        last_verdict: label(verdict),
        on_stub: !verdict.alive,
        ..target
    }
}

/// Where the window goes on a verdict of the probe thread: back to the server
/// when it is alive again, to the stub page when it is dead, and nowhere while
/// nothing changes.
pub open spec fn navigation(target: TargetView, verdict: VerdictView) -> Option<Seq<char>> {
    if target.on_stub == !verdict.alive {
        None
    } else if verdict.alive {
        Some(target.url.text)
    } else {
        Some(STUB_PAGE@)
    }
}

/// A target after a manual retry: an answer brings the window back, a failure
/// only counts.
pub open spec fn retried(target: TargetView, verdict: VerdictView) -> TargetView {
    TargetView {
        attempt: if verdict.alive {
            0
        } else {
            one_more(target.attempt)
        },
        last_verdict: label(verdict),
        on_stub: target.on_stub && !verdict.alive,
        ..target
    }
}

/// The monitor once a verdict on `url` counted: only the target that has this
/// URL changes.
pub open spec fn monitor_after(
    monitor: MonitorView,
    url: UrlView,
    verdict: VerdictView,
    change: spec_fn(TargetView, VerdictView) -> TargetView,
) -> MonitorView {
    match monitor.target {
        Some(target) => if target.url.text == url.text {
            MonitorView { target: Some(change(target, verdict)), ..monitor }
        } else {
            monitor
        },
        None => monitor,
    }
}

/// The delay until the next probe, as the stub page shows it.
pub open spec fn shown_delay(target: TargetView) -> nat {
    if target.attempt == 0 {
        0
    } else {
        backoff(target.attempt as nat)
    }
}

/// The delay until the next probe, as the probe thread keeps it.
pub open spec fn kept_delay(target: TargetView, alive: bool) -> nat {
    if alive {
        ALIVE_POLL_MS as nat
    } else {
        backoff(target.attempt as nat)
    }
}

/// What a verdict of the probe thread on `url` comes to.
pub open spec fn step_of(monitor: MonitorView, url: UrlView, verdict: VerdictView) -> StepView {
    match monitor.target {
        Some(target) => if target.url.text == url.text {
            StepView::Applied { navigate: navigation(target, verdict) }
        } else {
            StepView::Stale
        },
        None => StepView::Exit,
    }
}

/// Where a manual retry of `url` sends the window, if anywhere.
pub open spec fn retry_page(
    monitor: MonitorView,
    url: UrlView,
    verdict: VerdictView,
) -> Option<Seq<char>> {
    if verdict.alive && monitor.target is Some && monitor.target->0.url.text == url.text {
        Some(url.text)
    } else {
        None
    }
}

impl MonitorTarget {
    /// A server that was not probed yet.
    pub fn new(url: Url) -> (r: Self)
        ensures
            r@ == fresh_target(url@),
    {
        let non_loopback = !splash::is_loopback_url(&url);
        MonitorTarget {
            url,
            non_loopback,
            attempt: 0,
            last_verdict: "probing…".to_string(),
            on_stub: false,
        }
    }

    /// Records a verdict; `on_stub` says whether the window is to show the stub
    /// page.
    fn record(&mut self, verdict: &ProbeVerdict, on_stub: bool)
        ensures
            final(self)@ == (TargetView { on_stub, ..probed(old(self)@, verdict@) }),
    {
        self.last_verdict = verdict_label(verdict);
        self.on_stub = on_stub;
        if verdict.alive {
            self.attempt = 0;
        } else if self.attempt < u32::MAX {
            self.attempt = self.attempt + 1;
        }
    }
}

impl ProbeMonitor {
    /// A monitor that watches nothing.
    pub fn empty() -> (r: Self)
        ensures
            r@ == (MonitorView { target: None, thread_started: false }),
            watched_by_thread(r@),
    {
        ProbeMonitor { target: None, thread_started: false }
    }

    /// The URL to probe next; `None` ends the probe thread.
    pub fn sample(&self) -> (r: Option<Url>)
        ensures
            match r {
                Some(url) => self@.target is Some && url@ == self@.target->0.url,
                None => self@.target is None,
            },
    {
        match &self.target {
            Some(target) => Some(target.url.clone()),
            None => None,
        }
    }

    /// Takes the verdict of a probe of `url`: a late verdict on a server that
    /// is not watched any more is dropped.
    pub fn apply_probe(&mut self, url: &Url, verdict: &ProbeVerdict) -> (r: ProbeStep)
        ensures
            final(self)@ == monitor_after(
                old(self)@,
                url@,
                verdict@,
                |target: TargetView, verdict: VerdictView| probed(target, verdict),
            ),
            watched_by_thread(old(self)@) ==> watched_by_thread(final(self)@),
            r@ == match old(self)@.target {
                Some(target) => if target.url.text == url@.text {
                    StepView::Applied { navigate: navigation(target, verdict@) }
                } else {
                    StepView::Stale
                },
                None => StepView::Exit,
            },
            r@ == step_of(old(self)@, url@, verdict@),
    {
        match &mut self.target {
            Some(target) => {
                if !text::same_text(target.url.as_str(), url.as_str()) {
                    return ProbeStep::Stale;
                }
                let navigate = if target.on_stub == !verdict.alive {
                    None
                } else if verdict.alive {
                    Some(target.url.text.clone())
                } else {
                    Some(STUB_PAGE.to_string())
                };
                target.record(verdict, !verdict.alive);
                ProbeStep::Applied { navigate }
            },
            None => ProbeStep::Exit,
        }
    }

    /// How long the probe thread sleeps after a verdict, in milliseconds;
    /// `None` ends it.
    pub fn sleep_ms(&self, alive: bool) -> (r: Option<u64>)
        ensures
            match r {
                Some(delay) => self@.target is Some && delay == kept_delay(self@.target->0, alive),
                None => self@.target is None,
            },
    {
        match &self.target {
            Some(target) => Some(
                if alive {
                    ALIVE_POLL_MS
                } else {
                    backoff_delay_ms(target.attempt)
                },
            ),
            None => None,
        }
    }
}

/// What starting to watch a URL asks of the caller.
pub open spec fn start_of(monitor: MonitorView, url: UrlView, sidecar_mode: bool) -> MonitorStart {
    if sidecar_mode {
        MonitorStart::SidecarMode
    } else if monitor.target is Some && monitor.target->0.url.text == url.text {
        MonitorStart::Kept
    } else if monitor.thread_started {
        MonitorStart::Retargeted
    } else {
        MonitorStart::StartThread
    }
}

/// The monitor once a URL is to be watched.
pub open spec fn monitor_started(
    monitor: MonitorView,
    url: UrlView,
    sidecar_mode: bool,
) -> MonitorView {
    match start_of(monitor, url, sidecar_mode) {
        MonitorStart::SidecarMode => monitor,
        MonitorStart::Kept => monitor,
        _ => MonitorView { target: Some(fresh_target(url)), thread_started: true },
    }
}

/// Starts to watch a URL, or turns to another one. Where the sidecar is shown
/// nothing is ever watched; a URL that is watched already keeps its history.
pub fn start_monitor(monitor: &mut ProbeMonitor, url: Url, sidecar_mode: bool) -> (r: MonitorStart)
    ensures
        watched_by_thread(old(monitor)@) ==> watched_by_thread(final(monitor)@),
        r == if sidecar_mode {
            MonitorStart::SidecarMode
        } else if old(monitor)@.target is Some && old(monitor)@.target->0.url.text == url@.text {
            MonitorStart::Kept
        } else if old(monitor)@.thread_started {
            MonitorStart::Retargeted
        } else {
            MonitorStart::StartThread
        },
        final(monitor)@ == match r {
            MonitorStart::SidecarMode => old(monitor)@,
            MonitorStart::Kept => old(monitor)@,
            _ => MonitorView { target: Some(fresh_target(url@)), thread_started: true },
        },
        r == start_of(old(monitor)@, url@, sidecar_mode),
        final(monitor)@ == monitor_started(old(monitor)@, url@, sidecar_mode),
{
    if sidecar_mode {
        return MonitorStart::SidecarMode;
    }
    if let Some(target) = &monitor.target {
        if text::same_text(target.url.as_str(), url.as_str()) {
            return MonitorStart::Kept;
        }
    }
    monitor.target = Some(MonitorTarget::new(url));
    if monitor.thread_started {
        MonitorStart::Retargeted
    } else {
        monitor.thread_started = true;
        MonitorStart::StartThread
    }
}

/// The URL that a manual retry probes.
pub fn retry_target(monitor: &ProbeMonitor) -> (r: Result<Url, String>)
    ensures
        match r {
            Ok(url) => monitor@.target is Some && url@ == monitor@.target->0.url,
            Err(error) => monitor@.target is None && error@ == "no monitored server"@,
        },
{
    match monitor.sample() {
        Some(url) => Ok(url),
        None => Err("no monitored server".to_string()),
    }
}

/// Takes the verdict of a manual retry that probed `url`. An answer brings the
/// window back to the server; a failure leaves the stub page and counts. A
/// verdict on a server that is not watched any more changes nothing.
pub fn stub_retry(monitor: &mut ProbeMonitor, url: &Url, verdict: &ProbeVerdict) -> (r: Result<
    RetryReply,
    String,
>)
    ensures
        watched_by_thread(old(monitor)@) ==> watched_by_thread(final(monitor)@),
        final(monitor)@ == monitor_after(
            old(monitor)@,
            url@,
            verdict@,
            |target: TargetView, verdict: VerdictView| retried(target, verdict),
        ),
        match r {
            Ok(reply) => {
                &&& old(monitor)@.target is Some
                &&& reply.alive == verdict.alive
                &&& text::text_view(reply.navigate) == if verdict.alive
                    && old(monitor)@.target->0.url.text == url@.text {
                    Some(url@.text)
                } else {
                    None
                }
            },
            Err(error) => old(monitor)@.target is None && error@ == "no monitored server"@,
        },
        r is Ok <==> old(monitor)@.target is Some,
        r matches Ok(reply) ==> text::text_view(reply.navigate) == retry_page(
            old(monitor)@,
            url@,
            verdict@,
        ),
{
    match &mut monitor.target {
        Some(target) => {
            if !text::same_text(target.url.as_str(), url.as_str()) {
                return Ok(RetryReply { alive: verdict.alive, navigate: None });
            }
            let on_stub = target.on_stub && !verdict.alive;
            target.record(verdict, on_stub);
            let navigate = if verdict.alive {
                Some(url.text.clone())
            } else {
                None
            };
            Ok(RetryReply { alive: verdict.alive, navigate })
        },
        None => Err("no monitored server".to_string()),
    }
}

/// What the stub page shows now; nothing where no server is watched.
pub fn stub_diagnostics(monitor: &ProbeMonitor) -> (r: Option<StubDiagnostics>)
    ensures
        match (r, monitor@.target) {
            (Some(shown), Some(target)) => {
                &&& shown.url@ == target.url.text
                &&& shown.verdict@ == target.last_verdict
                &&& shown.attempt == target.attempt
                &&& shown.next_retry_ms == shown_delay(target)
                &&& shown.on_stub == target.on_stub
                &&& shown.non_loopback == target.non_loopback
            },
            (None, None) => true,
            _ => false,
        },
{
    match &monitor.target {
        Some(target) => Some(
            StubDiagnostics {
                url: target.url.text.clone(),
                verdict: target.last_verdict.clone(),
                attempt: target.attempt,
                next_retry_ms: if target.attempt == 0 {
                    0
                } else {
                    backoff_delay_ms(target.attempt)
                },
                on_stub: target.on_stub,
                non_loopback: target.non_loopback,
            },
        ),
        None => None,
    }
}

// ── laws ───────────────────────────────────────────────────────────────────

/// Any HTTP status means alive, errors of the server included, and so does a
/// TLS listener that accepts; every other outcome means dead.
pub proof fn law_any_http_answer_is_alive(outcome: ConnectOutcome)
    ensures
        outcome_verdict(outcome).alive <==> {
            ||| outcome matches ConnectOutcome::Connected(HttpRead::Status(_))
            ||| outcome == ConnectOutcome::Connected(HttpRead::TlsAccepted)
        },
{
}

/// A probe ends: after it began it connects at most once, after it connected it
/// asks at most once, and whatever else happens to it finishes it.
pub proof fn law_a_probe_ends(url: UrlView, event: ProbeEvent)
    ensures
        probe_action(url, event) is Connect ==> event is Begin,
        probe_action(url, event) is Ask ==> event is Connected,
        !(event is Begin) && !(event is Connected) ==> probe_action(url, event) is Finish,
{
}

/// The delay is never shorter after more failures, and lies between one second
/// and fifteen.
pub proof fn law_backoff_never_shrinks(fewer: nat, more: nat)
    requires
        fewer <= more,
    ensures
        1_000 <= backoff(fewer) <= backoff(more) <= 15_000,
    decreases more,
{
    if fewer < more {
        law_backoff_never_shrinks(fewer, (more - 1) as nat);
    } else if more > 0 {
        law_backoff_never_shrinks((more - 1) as nat, (more - 1) as nat);
    }
}

/// A verdict on another URL than the watched one changes nothing.
pub proof fn law_late_verdicts_are_dropped(
    monitor: MonitorView,
    url: UrlView,
    verdict: VerdictView,
    change: spec_fn(TargetView, VerdictView) -> TargetView,
)
    requires
        monitor.target matches Some(target) ==> target.url.text != url.text,
    ensures
        monitor_after(monitor, url, verdict, change) == monitor,
{
}

/// The page and the thread agree on the next probe: after a failed probe the
/// stub page shows the very delay that the thread keeps.
pub proof fn law_page_and_thread_agree(target: TargetView, verdict: VerdictView)
    requires
        !verdict.alive,
    ensures
        shown_delay(probed(target, verdict)) == kept_delay(probed(target, verdict), false),
        shown_delay(retried(target, verdict)) == kept_delay(retried(target, verdict), false),
{
}

/// After an applied probe the window shows the stub page exactly if the server
/// is dead, and it was navigated exactly if that changed.
pub proof fn law_the_window_follows_the_verdict(target: TargetView, verdict: VerdictView)
    ensures
        probed(target, verdict).on_stub == !verdict.alive,
        navigation(target, verdict) is Some <==> probed(target, verdict).on_stub != target.on_stub,
        navigation(target, verdict) matches Some(page) ==> page == if verdict.alive {
            target.url.text
        } else {
            STUB_PAGE@
        },
{
}

/// A target after a run of verdicts of the probe thread.
pub open spec fn probed_by(target: TargetView, verdicts: Seq<VerdictView>) -> TargetView
    decreases verdicts.len(),
{
    if verdicts.len() == 0 {
        target
    } else {
        probed(probed_by(target, verdicts.drop_last()), verdicts.last())
    }
}

/// How many verdicts at the end of a run are failures.
pub open spec fn failures_at_end(verdicts: Seq<VerdictView>) -> nat
    decreases verdicts.len(),
{
    if verdicts.len() == 0 || verdicts.last().alive {
        0
    } else {
        failures_at_end(verdicts.drop_last()) + 1
    }
}

/// The counter holds the failures in a row since the last success, up to what
/// it can hold, and the URL stays what it was.
pub proof fn law_the_counter_counts_failures_in_a_row(url: UrlView, verdicts: Seq<VerdictView>)
    ensures
        probed_by(fresh_target(url), verdicts).url == url,
        probed_by(fresh_target(url), verdicts).attempt == if failures_at_end(verdicts) < u32::MAX {
            failures_at_end(verdicts)
        } else {
            u32::MAX as nat
        },
    decreases verdicts.len(),
{
    if verdicts.len() > 0 {
        law_the_counter_counts_failures_in_a_row(url, verdicts.drop_last());
    }
}

/// Every status line tells its code: `HTTP/`, a version that begins with a
/// digit, a space and three digits, whatever they are and whatever follows.
pub proof fn law_every_status_line_tells_its_code(
    version: Seq<char>,
    a: char,
    b: char,
    c: char,
    rest: Seq<char>,
)
    requires
        version.len() > 0 && 48 <= version[0] as int <= 57,
        !version.contains(' '),
        48 <= a as int <= 57,
        48 <= b as int <= 57,
        48 <= c as int <= 57,
    ensures
        status_code("HTTP/"@ + version + seq![' ', a, b, c] + rest) == Some(
            100 * (a as int - 48) + 10 * (b as int - 48) + (c as int - 48),
        ),
{
    reveal_strlit("HTTP/");
    let line = "HTTP/"@ + version + seq![' ', a, b, c] + rest;
    text::law_occurrence(line, "HTTP/"@, 0);
    let tail = line.skip(5);
    let behind = seq![a, b, c] + rest;
    assert(tail =~= version + seq![' '] + behind);
    text::law_cutting(version, ' ', behind, tail);
    let n = version.len() as int;
    assert(tail[0] == version[0]);
    assert(tail[n + 1] == a && tail[n + 2] == b && tail[n + 3] == c);
}

/// Nothing else is a status line: not a line that begins otherwise, has no
/// version that begins with a digit, no space behind it, or fewer than three
/// digits behind that.
pub proof fn law_nothing_else_is_a_status_line(
    line: Seq<char>,
    version: Seq<char>,
    behind: Seq<char>,
)
    requires
        !version.contains(' '),
    ensures
        !text::begins_with(line, "HTTP/"@) ==> status_code(line) is None,
        status_code("HTTP/"@ + version) is None,
        version.len() == 0 || !(48 <= version[0] as int <= 57) ==> status_code(
            "HTTP/"@ + version + seq![' '] + behind,
        ) is None,
        behind.len() < 3 || !(48 <= behind[0] as int <= 57) || !(48 <= behind[1] as int <= 57)
            || !(48 <= behind[2] as int <= 57) ==> status_code(
            "HTTP/"@ + version + seq![' '] + behind,
        ) is None,
{
    reveal_strlit("HTTP/");
    let short = "HTTP/"@ + version;
    assert(short.skip(5) =~= version);
    text::law_cutting(version, ' ', behind, version);
    let full = "HTTP/"@ + version + seq![' '] + behind;
    let tail = full.skip(5);
    assert(tail =~= version + seq![' '] + behind);
    let n = version.len() as int;
    if version.len() > 0 {
        assert(tail[0] == version[0]);
    } else {
        assert(tail[0] == ' ');
    }
    if behind.len() >= 3 {
        assert(tail[n + 1] == behind[0] && tail[n + 2] == behind[1] && tail[n + 3] == behind[2]);
    }
}

/// A server that answers with any status is alive, and one that answers without
/// is dead: the verdict on an answer is alive exactly where its first line tells
/// a code, whatever the code.
pub proof fn law_any_status_in_an_answer_is_alive(
    answer: Seq<char>,
    url: UrlView,
    received: Vec<u8>,
)
    ensures
        answer_verdict(answer).alive <==> status_code(text::first_line(answer)) is Some,
        status_code(text::first_line(answer)) matches Some(code) ==> answer_verdict(answer).detail
            == "HTTP "@ + text::decimal(code as nat) + " response"@,
        status_code(text::first_line(answer)) is None ==> answer_verdict(answer).detail
            == "no HTTP status (unexpected response "@ + text::debug_text(text::first_line(answer))
            + ")"@,
        probe_action(url, ProbeEvent::Received(received)) == ActionView::Finish(
            answer_verdict(bytes::utf8_lossy(received@)),
        ),
{
    reveal_strlit("no HTTP status (");
    reveal_strlit("unexpected response ");
    reveal_strlit("no HTTP status (unexpected response ");
    let shown = text::debug_text(text::first_line(answer));
    assert("no HTTP status ("@ + ("unexpected response "@ + shown) + ")"@
        =~= "no HTTP status (unexpected response "@ + shown + ")"@);
}

/// Each outcome of a connection has its own words.
pub proof fn law_outcomes_are_told_apart(code: u16, what: String)
    ensures
        outcome_verdict(ConnectOutcome::Connected(HttpRead::Status(code))).detail == "HTTP "@
            + text::decimal(code as nat) + " response"@,
        outcome_verdict(ConnectOutcome::Connected(HttpRead::TlsAccepted)).detail
            == "TLS port accepting connections"@,
        outcome_verdict(ConnectOutcome::Connected(HttpRead::NoStatus(what))).detail
            == "no HTTP status ("@ + what@ + ")"@,
        outcome_verdict(ConnectOutcome::Refused).detail == "connection refused"@,
        outcome_verdict(ConnectOutcome::Timeout).detail == "timeout"@,
        outcome_verdict(ConnectOutcome::Unresolved).detail == "host could not be resolved"@,
        outcome_verdict(ConnectOutcome::Io(what)).detail == "error: "@ + what@,
{
}

/// A probe connects to the host of its URL on its port, or on 80; over a
/// connection to an `https` server it is over, and any other is asked for its
/// root.
pub proof fn law_a_probe_asks_the_server_of_its_url(url: UrlView, host: Seq<char>, port: u16)
    requires
        url.host is Some && url.host->0.text == host,
        port == (if url.port is Some {
            url.port->0
        } else {
            80
        }),
    ensures
        probe_action(url, ProbeEvent::Begin) == (ActionView::Connect { host, port }),
        probe_action(url, ProbeEvent::Connected) == if url.scheme == "https"@ {
            ActionView::Finish(
                VerdictView { alive: true, detail: "TLS port accepting connections"@ },
            )
        } else {
            ActionView::Ask {
                request: "GET / HTTP/1.0\r\nHost: "@ + host + ":"@ + text::decimal(port as nat)
                    + "\r\n\r\n"@,
            }
        },
{
}

/// Every failure of a probe means dead: no address is unresolved, a refused
/// connection refused, what takes too long a timeout, and the rest an error with
/// the system's words.
pub proof fn law_failures_of_a_probe_mean_dead(url: UrlView, fault: SocketFault, message: String)
    ensures
        probe_action(url, ProbeEvent::NoAddress) == ActionView::Finish(
            VerdictView { alive: false, detail: "host could not be resolved"@ },
        ),
        url.host is None ==> probe_action(url, ProbeEvent::Begin) == ActionView::Finish(
            VerdictView { alive: false, detail: "host could not be resolved"@ },
        ),
        probe_action(url, ProbeEvent::ConnectFailed(fault, message)) == ActionView::Finish(
            VerdictView {
                alive: false,
                detail: if fault == SocketFault::Refused {
                    "connection refused"@
                } else if fault == SocketFault::TimedOut || fault == SocketFault::WouldBlock {
                    "timeout"@
                } else {
                    "error: "@ + message@
                },
            },
        ),
        probe_action(url, ProbeEvent::ReadFailed(fault, message)) == ActionView::Finish(
            VerdictView {
                alive: false,
                detail: if fault == SocketFault::TimedOut || fault == SocketFault::WouldBlock {
                    "timeout"@
                } else {
                    "error: "@ + message@
                },
            },
        ),
        probe_action(url, ProbeEvent::WriteFailed(message)) == ActionView::Finish(
            VerdictView { alive: false, detail: "error: "@ + message@ },
        ),
{
}

/// The delay begins with one second, doubles with each failure in a row, and
/// stops at fifteen.
pub proof fn law_backoff_doubles_up_to_its_cap(attempt: nat)
    ensures
        backoff(0) == 1_000,
        backoff(1) == 1_000,
        attempt >= 1 ==> backoff(attempt + 1) == if 2 * backoff(attempt) <= 15_000 {
            2 * backoff(attempt)
        } else {
            15_000
        },
{
}

/// The words for a verdict.
pub proof fn law_verdicts_are_shown_with_their_detail(verdict: VerdictView)
    ensures
        verdict.alive ==> label(verdict) == "alive ("@ + verdict.detail + ")"@,
        !verdict.alive ==> label(verdict) == "dead — "@ + verdict.detail,
{
}

/// A verdict touches the history alone, of which a success resets the counter
/// and a failure counts one more; a retry differs from a probe only in that a
/// failure leaves the window where it is.
pub proof fn law_a_verdict_touches_the_history_alone(target: TargetView, verdict: VerdictView)
    ensures
        probed(target, verdict).url == target.url,
        probed(target, verdict).non_loopback == target.non_loopback,
        probed(target, verdict).last_verdict == label(verdict),
        probed(target, verdict).on_stub == !verdict.alive,
        verdict.alive ==> probed(target, verdict).attempt == 0,
        !verdict.alive && target.attempt < u32::MAX ==> probed(target, verdict).attempt
            == target.attempt + 1,
        !verdict.alive && target.attempt == u32::MAX ==> probed(target, verdict).attempt
            == u32::MAX,
        retried(target, verdict) == (TargetView {
            on_stub: if verdict.alive {
                false
            } else {
                target.on_stub
            },
            ..probed(target, verdict)
        }),
{
}

/// A verdict on the watched URL counts, and changes nothing but the target.
pub proof fn law_verdicts_on_the_watched_url_count(
    monitor: MonitorView,
    url: UrlView,
    verdict: VerdictView,
    change: spec_fn(TargetView, VerdictView) -> TargetView,
)
    requires
        monitor.target is Some && monitor.target->0.url.text == url.text,
    ensures
        monitor_after(monitor, url, verdict, change).target == Some(
            change(monitor.target->0, verdict),
        ),
        monitor_after(monitor, url, verdict, change).thread_started == monitor.thread_started,
{
}

/// The delays that the thread keeps and the page shows.
pub proof fn law_delays_follow_the_failures(target: TargetView)
    ensures
        kept_delay(target, true) == 10_000,
        kept_delay(target, false) == backoff(target.attempt as nat),
        target.attempt == 0 ==> shown_delay(target) == 0,
        target.attempt > 0 ==> shown_delay(target) == backoff(target.attempt as nat),
{
}

/// Where the sidecar is shown, nothing is watched. Otherwise the URL is watched
/// from then on: with its history if it was already, and else from the start,
/// with the probe thread started if it was not.
pub proof fn law_a_started_url_is_watched(monitor: MonitorView, url: UrlView, sidecar_mode: bool)
    ensures
        sidecar_mode ==> monitor_started(monitor, url, sidecar_mode) == monitor && start_of(
            monitor,
            url,
            sidecar_mode,
        ) is SidecarMode,
        !sidecar_mode ==> {
            let after = monitor_started(monitor, url, sidecar_mode);
            &&& after.target is Some && after.target->0.url.text == url.text
            &&& start_of(monitor, url, sidecar_mode) is Kept <==> monitor.target is Some
                && monitor.target->0.url.text == url.text
            &&& start_of(monitor, url, sidecar_mode) is Kept ==> after == monitor
            &&& !(start_of(monitor, url, sidecar_mode) is Kept) ==> {
                &&& after.thread_started
                &&& after.target->0.url == url
                &&& after.target->0.attempt == 0
                &&& after.target->0.last_verdict == "probing…"@
                &&& !after.target->0.on_stub
                &&& after.target->0.non_loopback == !splash::is_loopback(url)
                &&& start_of(monitor, url, sidecar_mode) is StartThread
                    <==> !monitor.thread_started
            }
        },
{
}

/// A server that answers at all is alive, from the bytes of the answer's text
/// on: whatever the three digits of its status line are and whatever follows,
/// the verdict is alive and tells the code.
pub proof fn law_every_answer_with_a_status_line_is_alive(
    version: Seq<char>,
    a: char,
    b: char,
    c: char,
    reason: Seq<char>,
    more: Seq<char>,
)
    requires
        version.len() > 0 && 48 <= version[0] as int <= 57,
        !version.contains(' ') && !version.contains('\n') && !reason.contains('\n'),
        48 <= a as int <= 57,
        48 <= b as int <= 57,
        48 <= c as int <= 57,
    ensures
        ({
            let line = "HTTP/"@ + version + seq![' ', a, b, c] + reason;
            let code = 100 * (a as int - 48) + 10 * (b as int - 48) + (c as int - 48);
            let alive = VerdictView {
                alive: true,
                detail: "HTTP "@ + text::decimal(code as nat) + " response"@,
            };
            &&& answer_verdict(line) == alive
            &&& answer_verdict(line + seq!['\r', '\n'] + more) == alive
        }),
{
    let line = "HTTP/"@ + version + seq![' ', a, b, c] + reason;
    law_every_status_line_tells_its_code(version, a, b, c, reason);
    assert(!line.contains('\n')) by {
        reveal_strlit("HTTP/");
        assert forall|i: int| 0 <= i < line.len() implies line[i] != '\n' by {
            let n = version.len();
            if i < 5 {
                assert(line[i] == "HTTP/"@[i]);
            } else if i < 5 + n {
                assert(line[i] == version[i - 5]);
                assert(version.contains(version[i - 5]));
            } else if i < 9 + n {
                assert(line[i] == seq![' ', a, b, c][i - 5 - n]);
            } else {
                assert(line[i] == reason[i - 9 - n]);
                assert(reason.contains(reason[i - 9 - n]));
            }
        }
    }
    text::law_first_line(line, more);
}

/// A window on the page of the server leaves it only when the server is dead,
/// for the page that says so, and comes back only when it is alive, to the very
/// URL that is watched.
pub proof fn law_the_window_goes_back_and_forth(target: TargetView, verdict: VerdictView)
    ensures
        !target.on_stub && verdict.alive ==> navigation(target, verdict) is None,
        !target.on_stub && !verdict.alive ==> navigation(target, verdict) == Some(
            "tauri://localhost/unreachable.html"@,
        ),
        target.on_stub && verdict.alive ==> navigation(target, verdict) == Some(target.url.text),
        target.on_stub && !verdict.alive ==> navigation(target, verdict) is None,
{
}

/// A verdict of the probe thread counts exactly if it is on the watched URL; one
/// on another URL is stale, and where nothing is watched the thread ends. A
/// manual retry sends the window to the watched URL exactly if that is what was
/// probed and it is alive.
pub proof fn law_only_the_watched_url_moves_the_window(
    monitor: MonitorView,
    url: UrlView,
    verdict: VerdictView,
)
    ensures
        step_of(monitor, url, verdict) is Exit <==> monitor.target is None,
        retry_page(monitor, url, verdict) matches Some(page) ==> page == url.text,
        monitor.target is None ==> retry_page(monitor, url, verdict) is None,
        monitor.target matches Some(target) ==> {
            &&& target.url.text == url.text ==> step_of(monitor, url, verdict) == (
            StepView::Applied { navigate: navigation(target, verdict) })
            &&& target.url.text != url.text ==> step_of(monitor, url, verdict) is Stale
            &&& retry_page(monitor, url, verdict) is Some <==> verdict.alive && target.url.text
                == url.text
        },
{
}

} // verus!
