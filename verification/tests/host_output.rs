//! The sidecar's output: redaction, and the ready line.
use dsh_desktop::host_output::{
    log_redacted, navigation_notice, parse_url_line, read_host_line, redact_token,
};
use dsh_desktop::web_url::Url;

#[test]
fn redacts_the_token_value() {
    assert_eq!(
        redact_token("dsh web: http://127.0.0.1:3080?token=abc123"),
        "dsh web: http://127.0.0.1:3080?token=[redacted]"
    );
    // A trailing LAN suffix (whitespace delimiter) is left untouched.
    assert_eq!(
        redact_token("dsh web: http://127.0.0.1:3080?token=abc123 (LAN: http://192.168.1.2:3080)"),
        "dsh web: http://127.0.0.1:3080?token=[redacted] (LAN: http://192.168.1.2:3080)"
    );
}

#[test]
fn leaves_lines_without_a_query_untouched() {
    assert_eq!(
        redact_token("dsh web: http://127.0.0.1:3080"),
        "dsh web: http://127.0.0.1:3080"
    );
    assert_eq!(redact_token("some other log line"), "some other log line");
    assert_eq!(redact_token(""), "");
}

#[test]
fn redacts_every_token_and_honors_the_query_delimiter() {
    // Multiple occurrences, and `&` ends the value so remaining query
    // parameters survive.
    assert_eq!(
        redact_token("GET /?token=abc&next=1 x token=def"),
        "GET /?token=[redacted]&next=1 x token=[redacted]"
    );
}

#[test]
fn any_white_space_ends_a_token() {
    assert_eq!(redact_token("token=abc\tnext"), "token=[redacted]\tnext");
    assert_eq!(redact_token("token=abc\nnext"), "token=[redacted]\nnext");
    assert_eq!(redact_token("token=abc\u{a0}next"), "token=[redacted]\u{a0}next");
}

#[test]
fn tokens_without_a_value_and_nested_markers_are_redacted_too() {
    assert_eq!(redact_token("token="), "token=[redacted]");
    assert_eq!(redact_token("token=&token="), "token=[redacted]&token=[redacted]");
    assert_eq!(redact_token("token=token=abc"), "token=[redacted]");
    assert_eq!(redact_token("totoken=abc"), "totoken=[redacted]");
}

#[test]
fn redaction_is_idempotent() {
    let once = redact_token("a?token=x&b token=y\tz");
    assert_eq!(redact_token(&once), once);
}

#[test]
fn no_raw_launch_token_survives_the_logging_boundary() {
    let raw_token = "Zm9vYmFyYmF6cXV4cXV1eA_x-1";
    let ready = format!("dsh web: http://127.0.0.1:3080/?token={raw_token}");
    let url = parse_url_line(&ready).expect("a ready line");
    assert_eq!(url.split("token=").nth(1), Some(raw_token));
    let redacted_ready = redact_token(&format!("dsh web: {url}"));
    assert!(
        redacted_ready.contains("token=[redacted]"),
        "the ready line must redact: {redacted_ready}"
    );
    for line in [
        ready.clone(),
        format!("GET /?token={raw_token}&x=1 200"),
        format!("boot {raw_token_field} (LAN: http://10.0.0.1?token={raw_token})", raw_token_field = "ok"),
    ] {
        assert!(line.contains(raw_token), "vacuous: {line}");
        assert!(
            !log_redacted(&line).contains(raw_token),
            "a raw launch token survived the redaction boundary"
        );
    }
}

#[test]
fn host_lines_are_logged_with_their_origin() {
    assert_eq!(log_redacted("ready"), "[host] ready");
    assert_eq!(log_redacted("?token=a b"), "[host] ?token=[redacted] b");
}

#[test]
fn parses_the_url_line() {
    assert_eq!(
        parse_url_line("dsh web: http://127.0.0.1:3080"),
        Some("http://127.0.0.1:3080".to_string())
    );
    assert_eq!(
        parse_url_line("dsh web: http://127.0.0.1:41237 (LAN: http://192.168.1.2:41237)"),
        Some("http://127.0.0.1:41237".to_string())
    );
    // Legacy no-query strings parse exactly as before.
    assert_eq!(
        parse_url_line("dsh web: http://127.0.0.1:2060"),
        Some("http://127.0.0.1:2060".to_string())
    );
}

#[test]
fn keeps_the_whole_tokenized_url_and_drops_the_lan_suffix() {
    // The full URL, query (launch token) included, is preserved verbatim.
    assert_eq!(
        parse_url_line("dsh web: http://127.0.0.1:3080?token=abc123"),
        Some("http://127.0.0.1:3080?token=abc123".to_string())
    );
    // A trailing LAN suffix is whitespace-separated and dropped.
    assert_eq!(
        parse_url_line(
            "dsh web: http://127.0.0.1:41237?token=xyz (LAN: http://192.168.1.2:41237)"
        ),
        Some("http://127.0.0.1:41237?token=xyz".to_string())
    );
}

#[test]
fn ignores_other_lines() {
    assert_eq!(parse_url_line("some other log line"), None);
    assert_eq!(parse_url_line(""), None);
    // Missing port digit.
    assert_eq!(parse_url_line("dsh web: http://127.0.0.1:"), None);
    // Non-loopback authorities are rejected, tokenized or not.
    assert_eq!(parse_url_line("dsh web: http://0.0.0.0:3080"), None);
    assert_eq!(parse_url_line("dsh web: http://0.0.0.0:3080?token=abc"), None);
    assert_eq!(parse_url_line("dsh web: http://192.168.1.2:3080?token=abc"), None);
    assert_eq!(parse_url_line("dsh web: http://localhost:3080?token=abc"), None);
}

#[test]
fn an_at_sign_in_the_authority_names_another_host() {
    assert_eq!(parse_url_line("dsh web: http://127.0.0.1:80@example.com/"), None);
    assert_eq!(parse_url_line("dsh web: http://127.0.0.1:80@example.com"), None);
    assert_eq!(
        parse_url_line("dsh web: http://127.0.0.1:80/a@b?c=@#@"),
        Some("http://127.0.0.1:80/a@b?c=@#@".to_string())
    );
    assert_eq!(
        parse_url_line("dsh web: http://127.0.0.1:80?token=a@b"),
        Some("http://127.0.0.1:80?token=a@b".to_string())
    );
}

#[test]
fn a_ready_line_may_stand_behind_noise() {
    assert_eq!(
        parse_url_line("  [web] dsh web: http://127.0.0.1:1/x\ty "),
        Some("http://127.0.0.1:1/x".to_string())
    );
    assert_eq!(parse_url_line("dsh web: http://127.0.0.1: 80"), None);
}

#[test]
fn a_host_line_is_logged_and_its_url_is_parsed() {
    let line = read_host_line("dsh web: http://127.0.0.1:3080?token=abc");
    assert_eq!(line.log, "[host] dsh web: http://127.0.0.1:3080?token=[redacted]");
    let url = line.ready.expect("ready").expect("parsed");
    assert_eq!(url.text, "http://127.0.0.1:3080/?token=abc");
    assert_eq!(url.port, Some(3080));
    assert_eq!(
        navigation_notice(&url),
        "[host] navigating to http://127.0.0.1:3080/?token=[redacted]"
    );

    assert_eq!(read_host_line("boot").ready, None);
    assert_eq!(
        read_host_line("dsh web: http://127.0.0.1:99999").ready,
        Some(Err("invalid port number".to_string()))
    );
    assert_eq!(
        read_host_line("dsh web: http://127.0.0.1:80").ready,
        Some(Url::parse("http://127.0.0.1"))
    );
}

#[test]
fn a_ready_url_is_read_back_and_what_follows_it_has_no_say() {
    for line in [
        "dsh web: http://127.0.0.1:3080?token=abc",
        " x dsh web: http://127.0.0.1:1/a  ",
        "dsh web: http://127.0.0.1:80 (LAN: dsh web: http://127.0.0.1:81)",
    ] {
        let url = parse_url_line(line).expect("a ready line");
        let own = format!("dsh web: {url}");
        assert!(line.contains(&own));
        assert_eq!(parse_url_line(&own), Some(url.clone()));
        for more in ["", "x", "dsh web: http://127.0.0.1:9", "\n"] {
            assert_eq!(parse_url_line(&format!("{line} {more}")), Some(url.clone()));
            assert_eq!(parse_url_line(&format!("{line}\t{more}")), Some(url.clone()));
        }
    }
}
