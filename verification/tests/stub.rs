//! Probing a server, and the stub page for one that cannot be reached.
use dsh_desktop::stub::{
    backoff_delay_ms, classify_connect, judge_answer, parse_status_line, probe_once, retry_target,
    start_monitor, stub_diagnostics, stub_retry, verdict_label, ConnectOutcome, HttpRead,
    MonitorStart, ProbeAction, ProbeEvent, ProbeMonitor, ProbeStep, ProbeVerdict, RetryReply,
    SocketFault, StubDiagnostics, STUB_PAGE,
};
use dsh_desktop::web_url::Url;

fn url(text: &str) -> Url {
    Url::parse(text).expect("test URL")
}

fn verdict(alive: bool, detail: &str) -> ProbeVerdict {
    ProbeVerdict {
        alive,
        detail: detail.to_string(),
    }
}

fn watching(text: &str) -> ProbeMonitor {
    let mut monitor = ProbeMonitor::empty();
    assert_eq!(start_monitor(&mut monitor, url(text), false), MonitorStart::StartThread);
    monitor
}

#[test]
fn backoff_schedule_steps_up_and_caps() {
    // 1s, 2s, 4s, 8s, then capped at 15s forever.
    let expected = [1_000, 2_000, 4_000, 8_000, 15_000, 15_000, 15_000];
    for (index, &milliseconds) in expected.iter().enumerate() {
        assert_eq!(
            backoff_delay_ms(index as u32 + 1),
            milliseconds,
            "attempt {}",
            index + 1
        );
    }
    // Far-future attempts stay capped, never overflow.
    assert_eq!(backoff_delay_ms(1_000), 15_000);
    assert_eq!(backoff_delay_ms(u32::MAX), 15_000);
}

#[test]
fn backoff_attempt_zero_is_first_step() {
    // An attempt of 0 (no failure recorded yet) must not panic or wrap.
    assert_eq!(backoff_delay_ms(0), 1_000);
}

#[test]
fn status_line_parsing() {
    assert_eq!(parse_status_line("HTTP/1.1 200 OK"), Some(200));
    assert_eq!(parse_status_line("HTTP/1.0 404 Not Found"), Some(404));
    assert_eq!(parse_status_line("HTTP/2 500"), Some(500));
    assert_eq!(parse_status_line("HTTP/1.1 100 Continue"), Some(100));
    assert_eq!(parse_status_line(""), None);
    assert_eq!(parse_status_line("GET / HTTP/1.1"), None);
    assert_eq!(parse_status_line("HTTP/1.1 abc"), None);
    assert_eq!(parse_status_line("HTTP/1.1 20"), None);
}

#[test]
fn verdict_classification_covers_all_outcomes() {
    // ANY HTTP status is alive — 4xx/5xx included, per the ticket.
    for code in [200u16, 301, 401, 404, 500, 503] {
        let verdict = classify_connect(&ConnectOutcome::Connected(HttpRead::Status(code)));
        assert!(verdict.alive, "HTTP {code} must count as alive");
    }
    assert!(classify_connect(&ConnectOutcome::Connected(HttpRead::TlsAccepted)).alive);
    assert!(
        !classify_connect(&ConnectOutcome::Connected(HttpRead::NoStatus(
            "unexpected response \"\"".into()
        )))
        .alive
    );
    assert_eq!(
        classify_connect(&ConnectOutcome::Refused),
        ProbeVerdict {
            alive: false,
            detail: "connection refused".into()
        }
    );
    assert!(!classify_connect(&ConnectOutcome::Timeout).alive);
    assert!(!classify_connect(&ConnectOutcome::Unresolved).alive);
    assert!(!classify_connect(&ConnectOutcome::Io("broken pipe".into())).alive);
}

#[test]
fn verdict_labels_for_diagnostics() {
    let alive = verdict_label(&ProbeVerdict {
        alive: true,
        detail: "HTTP 200 response".into(),
    });
    assert_eq!(alive, "alive (HTTP 200 response)");
    let dead = verdict_label(&ProbeVerdict {
        alive: false,
        detail: "connection refused".into(),
    });
    assert_eq!(dead, "dead — connection refused");
}

#[test]
fn a_status_line_needs_a_version_and_three_digits() {
    assert_eq!(parse_status_line("HTTP/ 200"), None);
    assert_eq!(parse_status_line("HTTP/x 200"), None);
    assert_eq!(parse_status_line("HTTP/1.1  200"), None);
    assert_eq!(parse_status_line("HTTP/1.1\t200"), None);
    assert_eq!(parse_status_line("HTTP/1.1 2ü0"), None);
    assert_eq!(parse_status_line("http/1.1 200"), None);
    assert_eq!(parse_status_line("HTTP/1.1 000"), Some(0));
    assert_eq!(parse_status_line("HTTP/1.1 9999"), Some(999));
}

#[test]
fn details_tell_what_a_probe_found() {
    let detail = |outcome: ConnectOutcome| classify_connect(&outcome).detail;
    assert_eq!(detail(ConnectOutcome::Connected(HttpRead::Status(7))), "HTTP 7 response");
    assert_eq!(
        detail(ConnectOutcome::Connected(HttpRead::TlsAccepted)),
        "TLS port accepting connections"
    );
    assert_eq!(
        detail(ConnectOutcome::Connected(HttpRead::NoStatus("x".into()))),
        "no HTTP status (x)"
    );
    assert_eq!(detail(ConnectOutcome::Timeout), "timeout");
    assert_eq!(detail(ConnectOutcome::Unresolved), "host could not be resolved");
    assert_eq!(detail(ConnectOutcome::Io("broken pipe".into())), "error: broken pipe");
}

#[test]
fn a_probe_of_http_asks_and_reads_the_status() {
    let target = url("http://h:3080/x?token=a");
    assert_eq!(
        probe_once(&target, ProbeEvent::Begin),
        ProbeAction::Connect {
            host: "h".to_string(),
            port: 3080,
        }
    );
    assert_eq!(
        probe_once(&target, ProbeEvent::Connected),
        ProbeAction::Ask {
            request: "GET / HTTP/1.0\r\nHost: h:3080\r\n\r\n".to_string(),
        }
    );
    assert_eq!(
        probe_once(&target, ProbeEvent::Received(b"HTTP/1.1 503 Busy\r\nA: b\r\n".to_vec())),
        ProbeAction::Finish(verdict(true, "HTTP 503 response"))
    );
    assert_eq!(
        probe_once(&target, ProbeEvent::Received(b"SSH-2.0\xff\r\n".to_vec())),
        ProbeAction::Finish(verdict(
            false,
            "no HTTP status (unexpected response \"SSH-2.0\u{fffd}\")"
        ))
    );
    assert_eq!(
        probe_once(&target, ProbeEvent::Received(Vec::new())),
        ProbeAction::Finish(verdict(false, "no HTTP status (unexpected response \"\")"))
    );
}

#[test]
fn a_probe_of_https_is_over_with_the_connection() {
    let target = url("https://h");
    assert_eq!(
        probe_once(&target, ProbeEvent::Begin),
        ProbeAction::Connect {
            host: "h".to_string(),
            port: 443,
        }
    );
    assert_eq!(
        probe_once(&target, ProbeEvent::Connected),
        ProbeAction::Finish(verdict(true, "TLS port accepting connections"))
    );
}

#[test]
fn failures_of_a_probe_are_told_apart() {
    let target = url("http://h");
    let finish = |event: ProbeEvent| match probe_once(&target, event) {
        ProbeAction::Finish(verdict) => verdict,
        other => panic!("{other:?}"),
    };
    let text = || "broken".to_string();
    assert_eq!(finish(ProbeEvent::NoAddress), verdict(false, "host could not be resolved"));
    assert_eq!(
        finish(ProbeEvent::ConnectFailed(SocketFault::Refused, text())),
        verdict(false, "connection refused")
    );
    for fault in [SocketFault::TimedOut, SocketFault::WouldBlock] {
        assert_eq!(finish(ProbeEvent::ConnectFailed(fault, text())), verdict(false, "timeout"));
        assert_eq!(finish(ProbeEvent::ReadFailed(fault, text())), verdict(false, "timeout"));
    }
    assert_eq!(
        finish(ProbeEvent::ConnectFailed(SocketFault::Other, text())),
        verdict(false, "error: broken")
    );
    for fault in [SocketFault::Refused, SocketFault::Other] {
        assert_eq!(
            finish(ProbeEvent::ReadFailed(fault, text())),
            verdict(false, "error: broken")
        );
    }
    assert_eq!(finish(ProbeEvent::WriteFailed(text())), verdict(false, "error: broken"));

    assert_eq!(
        probe_once(&url("mailto:x"), ProbeEvent::Begin),
        ProbeAction::Finish(verdict(false, "host could not be resolved"))
    );
}

#[test]
fn an_answer_is_judged_by_its_first_line() {
    assert_eq!(judge_answer("HTTP/1.1 204\nHTTP/1.1 500"), verdict(true, "HTTP 204 response"));
    assert_eq!(
        judge_answer("a\"b\r\nHTTP/1.1 200 OK"),
        verdict(false, "no HTTP status (unexpected response \"a\\\"b\")")
    );
}

#[test]
fn delays_never_shrink() {
    let mut last = 0;
    for attempt in 0..40 {
        let delay = backoff_delay_ms(attempt);
        assert!(last <= delay && (1_000..=15_000).contains(&delay));
        last = delay;
    }
}

#[test]
fn nothing_is_watched_in_sidecar_mode() {
    let mut monitor = ProbeMonitor::empty();
    assert_eq!(
        start_monitor(&mut monitor, url("http://h"), true),
        MonitorStart::SidecarMode
    );
    assert_eq!(monitor, ProbeMonitor::empty());
    assert_eq!(monitor.sample(), None);
    assert_eq!(monitor.sleep_ms(false), None);
    assert_eq!(stub_diagnostics(&monitor), None);
    assert_eq!(retry_target(&monitor), Err("no monitored server".to_string()));
}

#[test]
fn the_same_target_keeps_its_history_and_another_one_starts_afresh() {
    let mut monitor = watching("http://h:1");
    monitor.apply_probe(&url("http://h:1"), &verdict(false, "x"));
    assert_eq!(start_monitor(&mut monitor, url("http://h:1/"), false), MonitorStart::Kept);
    assert_eq!(stub_diagnostics(&monitor).unwrap().attempt, 1);
    assert_eq!(
        start_monitor(&mut monitor, url("http://localhost:2"), false),
        MonitorStart::Retargeted
    );
    assert_eq!(
        stub_diagnostics(&monitor),
        Some(StubDiagnostics {
            url: "http://localhost:2/".to_string(),
            verdict: "probing…".to_string(),
            attempt: 0,
            next_retry_ms: 0,
            on_stub: false,
            non_loopback: false,
        })
    );
}

#[test]
fn the_window_follows_the_verdicts() {
    let mut monitor = watching("http://h:1");
    let target = url("http://h:1");
    let applied = |navigate: Option<&str>| ProbeStep::Applied {
        navigate: navigate.map(|page| page.to_string()),
    };
    assert_eq!(monitor.sample(), Some(target.clone()));
    assert_eq!(monitor.apply_probe(&target, &verdict(true, "a")), applied(None));
    assert_eq!(monitor.sleep_ms(true), Some(10_000));
    assert_eq!(monitor.apply_probe(&target, &verdict(false, "b")), applied(Some(STUB_PAGE)));
    assert_eq!(monitor.apply_probe(&target, &verdict(false, "c")), applied(None));
    assert_eq!(
        monitor.apply_probe(&target, &verdict(true, "d")),
        applied(Some("http://h:1/"))
    );
    assert_eq!(
        stub_diagnostics(&monitor),
        Some(StubDiagnostics {
            url: "http://h:1/".to_string(),
            verdict: "alive (d)".to_string(),
            attempt: 0,
            next_retry_ms: 0,
            on_stub: false,
            non_loopback: true,
        })
    );
}

#[test]
fn failures_in_a_row_are_counted_and_page_and_thread_agree() {
    let mut monitor = watching("http://h:1");
    let target = url("http://h:1");
    for (count, delay) in [(1, 1_000), (2, 2_000), (3, 4_000), (4, 8_000), (5, 15_000), (6, 15_000)] {
        monitor.apply_probe(&target, &verdict(false, "x"));
        let shown = stub_diagnostics(&monitor).unwrap();
        assert_eq!(shown.attempt, count);
        assert_eq!(shown.next_retry_ms, delay);
        assert_eq!(monitor.sleep_ms(false), Some(delay));
        assert_eq!(shown.verdict, "dead — x");
        assert!(shown.on_stub);
    }
    monitor.apply_probe(&target, &verdict(true, "y"));
    assert_eq!(stub_diagnostics(&monitor).unwrap().attempt, 0);
    monitor.apply_probe(&target, &verdict(false, "x"));
    assert_eq!(stub_diagnostics(&monitor).unwrap().attempt, 1);
}

#[test]
fn the_counter_stays_at_its_end() {
    let mut monitor = watching("http://h:1");
    monitor.target.as_mut().unwrap().attempt = u32::MAX;
    monitor.apply_probe(&url("http://h:1"), &verdict(false, "x"));
    assert_eq!(stub_diagnostics(&monitor).unwrap().attempt, u32::MAX);
}

#[test]
fn late_verdicts_are_dropped() {
    let mut monitor = watching("http://h:2");
    let before = monitor.clone();
    assert_eq!(
        monitor.apply_probe(&url("http://h:1"), &verdict(false, "x")),
        ProbeStep::Stale
    );
    assert_eq!(
        stub_retry(&mut monitor, &url("http://h:1"), &verdict(true, "x")),
        Ok(RetryReply {
            alive: true,
            navigate: None,
        })
    );
    assert_eq!(monitor, before);
    let mut none = ProbeMonitor::empty();
    assert_eq!(
        none.apply_probe(&url("http://h:1"), &verdict(true, "x")),
        ProbeStep::Exit
    );
}

#[test]
fn a_retry_counts_or_brings_the_window_back() {
    let mut monitor = watching("http://h:1");
    let target = retry_target(&monitor).expect("target");
    monitor.apply_probe(&target, &verdict(false, "x"));
    assert_eq!(
        stub_retry(&mut monitor, &target, &verdict(false, "y")),
        Ok(RetryReply {
            alive: false,
            navigate: None,
        })
    );
    let shown = stub_diagnostics(&monitor).unwrap();
    assert_eq!((shown.attempt, shown.on_stub), (2, true));
    assert_eq!(
        stub_retry(&mut monitor, &target, &verdict(true, "z")),
        Ok(RetryReply {
            alive: true,
            navigate: Some("http://h:1/".to_string()),
        })
    );
    let shown = stub_diagnostics(&monitor).unwrap();
    assert_eq!((shown.attempt, shown.on_stub), (0, false));
    assert_eq!(
        stub_retry(&mut ProbeMonitor::empty(), &target, &verdict(true, "z")),
        Err("no monitored server".to_string())
    );
}
