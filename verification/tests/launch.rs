//! Which server a launch shows.
use dsh_desktop::launch::{
    accept_attach_url, attach_signal, blank_variable_notice, launch_refusal, mode_for,
    parse_attach_arg, parse_attach_url, refuse_argument, refuse_forwarded, refuse_variable,
    relaunch_refusal,
    resolve_launch_mode, resolve_relaunch_attach, AttachSignal, LaunchMode, ATTACH_URL_ENV,
};
use dsh_desktop::web_url::Url;

fn args(list: &[&str]) -> Vec<String> {
    std::iter::once("dsh-desktop")
        .chain(list.iter().copied())
        .map(String::from)
        .collect()
}

fn attach(url: &str) -> LaunchMode {
    LaunchMode::Attach {
        url: Url::parse(url).expect("test URL"),
    }
}

#[test]
fn defaults_to_sidecar_without_any_signal() {
    assert_eq!(resolve_launch_mode(None, &args(&[])), LaunchMode::Sidecar);
    assert_eq!(
        resolve_launch_mode(None, &args(&["--verbose", "file.txt"])),
        LaunchMode::Sidecar,
        "unknown/unrelated arguments are ignored"
    );
}

#[test]
fn attaches_from_a_valid_env_value() {
    assert_eq!(
        resolve_launch_mode(Some("http://127.0.0.1:3080?token=abc"), &args(&[])),
        attach("http://127.0.0.1:3080?token=abc"),
    );
    assert_eq!(
        resolve_launch_mode(Some("https://dsh.example.com"), &args(&[])),
        attach("https://dsh.example.com"),
    );
}

#[test]
fn trims_surrounding_whitespace_from_the_env_value() {
    assert_eq!(
        resolve_launch_mode(Some("  http://127.0.0.1:3080 \n"), &args(&[])),
        attach("http://127.0.0.1:3080"),
    );
}

#[test]
fn treats_a_whitespace_only_env_value_as_no_signal() {
    assert_eq!(
        resolve_launch_mode(Some("   "), &args(&[])),
        LaunchMode::Sidecar
    );
    assert_eq!(
        resolve_launch_mode(Some("   "), &args(&["--attach-url", "http://h:1"])),
        attach("http://h:1"),
        "an empty env value falls through to argv",
    );
}

#[test]
fn rejects_invalid_or_non_http_env_values_into_sidecar() {
    for bad in [
        "not a url",
        "ftp://127.0.0.1:3080",
        "file:///etc/passwd",
        "http://",
    ] {
        assert_eq!(
            resolve_launch_mode(Some(bad), &args(&[])),
            LaunchMode::Sidecar,
            "env value {bad:?} must not navigate"
        );
    }
}

#[test]
fn an_invalid_env_value_does_not_fall_through_to_argv() {
    assert_eq!(
        resolve_launch_mode(Some("ftp://x"), &args(&["--attach-url", "http://h:1"])),
        LaunchMode::Sidecar,
        "env takes precedence even when invalid",
    );
}

#[test]
fn env_takes_precedence_over_a_valid_argv_signal() {
    assert_eq!(
        resolve_launch_mode(
            Some("http://from-env:1"),
            &args(&["--attach-url", "http://from-argv:2"])
        ),
        attach("http://from-env:1"),
    );
}

#[test]
fn attaches_from_space_separated_argv() {
    assert_eq!(
        resolve_launch_mode(None, &args(&["--attach-url", "http://127.0.0.1:41237"])),
        attach("http://127.0.0.1:41237"),
    );
}

#[test]
fn attaches_from_equals_form_argv() {
    assert_eq!(
        resolve_launch_mode(None, &args(&["--attach-url=http://127.0.0.1:41237"])),
        attach("http://127.0.0.1:41237"),
    );
    assert_eq!(
        resolve_launch_mode(None, &args(&["--attach-url=  https://h:9  "])),
        attach("https://h:9"),
        "the equals form is trimmed too",
    );
}

#[test]
fn rejects_argv_flag_without_a_value() {
    assert_eq!(
        resolve_launch_mode(None, &args(&["--attach-url"])),
        LaunchMode::Sidecar,
    );
}

#[test]
fn rejects_invalid_or_non_http_argv_values_into_sidecar() {
    for bad in ["--attach-url=javascript:alert(1)", "--attach-url=nope"] {
        assert_eq!(
            resolve_launch_mode(None, &args(&[bad])),
            LaunchMode::Sidecar
        );
    }
    assert_eq!(
        resolve_launch_mode(None, &args(&["--attach-url", "https://"])),
        LaunchMode::Sidecar,
    );
}

#[test]
fn uses_the_first_attach_flag_only() {
    assert_eq!(
        resolve_launch_mode(
            None,
            &args(&[
                "--attach-url",
                "http://first:1",
                "--attach-url",
                "http://second:2"
            ])
        ),
        attach("http://first:1"),
    );
}

#[test]
fn env_constant_matches_the_documented_name() {
    assert_eq!(ATTACH_URL_ENV, "DSH_DESKTOP_ATTACH_URL");
}

#[test]
fn relaunch_forwarding_extracts_a_valid_attach_url() {
    assert_eq!(
        resolve_relaunch_attach(&args(&["--attach-url", "http://127.0.0.1:41237"])),
        Some(Url::parse("http://127.0.0.1:41237").expect("test URL")),
    );
    assert_eq!(
        resolve_relaunch_attach(&args(&["--attach-url=https://h:9"])),
        Some(Url::parse("https://h:9").expect("test URL")),
    );
}

#[test]
fn relaunch_forwarding_ignores_unrelated_or_invalid_argv() {
    // No attach flag at all: plain relaunch keeps the current target.
    assert_eq!(resolve_relaunch_attach(&args(&[])), None);
    assert_eq!(
        resolve_relaunch_attach(&args(&["--verbose"])),
        None,
        "unrelated arguments are not a forward request"
    );
    // An invalid URL must never navigate the running instance anywhere.
    assert_eq!(
        resolve_relaunch_attach(&args(&["--attach-url=javascript:alert(1)"])),
        None,
    );
    assert_eq!(
        resolve_relaunch_attach(&args(&["--attach-url"])),
        None
    );
}

#[test]
fn the_first_entry_is_the_program_and_no_argument() {
    let only: Vec<String> = vec!["--attach-url=http://h:1".to_string()];
    assert_eq!(resolve_launch_mode(None, &only), LaunchMode::Sidecar);
    assert_eq!(resolve_launch_mode(None, &[]), LaunchMode::Sidecar);
}

#[test]
fn refused_arguments_say_why() {
    assert_eq!(
        parse_attach_arg(&args(&["--attach-url"])),
        Some(Err("flag given without a value".to_string()))
    );
    assert_eq!(
        parse_attach_arg(&args(&["--attach-url", " \t"])),
        Some(Err("flag given with an empty value".to_string()))
    );
    assert_eq!(
        parse_attach_arg(&args(&["--attach-url="])),
        Some(Err("flag given with an empty value".to_string()))
    );
    assert_eq!(
        parse_attach_arg(&args(&["--attach-url=ftp://h"])),
        Some(Err(
            "unsupported scheme \"ftp\": only http:// and https:// are accepted".to_string()
        ))
    );
    assert_eq!(
        parse_attach_arg(&args(&["--attach-url=nope"])),
        Some(Err("not a valid URL: relative URL without a base".to_string()))
    );
    assert_eq!(parse_attach_arg(&args(&["--attach-urls=http://h"])), None);
}

#[test]
fn a_parsed_url_is_accepted_by_its_scheme() {
    let url = Url::parse("https://h").expect("url");
    assert_eq!(accept_attach_url(Ok(url.clone())), Ok(url.clone()));
    assert_eq!(
        accept_attach_url(Err("x".to_string())),
        Err("not a valid URL: x".to_string())
    );
    assert_eq!(
        parse_attach_url("http://"),
        Err("not a valid URL: empty host".to_string())
    );
    assert_eq!(mode_for(Some(Ok(url.clone()))), LaunchMode::Attach { url });
    assert_eq!(mode_for(Some(Err("x".to_string()))), LaunchMode::Sidecar);
    assert_eq!(mode_for(None), LaunchMode::Sidecar);
}

#[test]
fn signals_are_told_apart_before_any_url_is_parsed() {
    assert_eq!(attach_signal(None, &args(&[])), AttachSignal::Absent);
    assert_eq!(
        attach_signal(Some(" nope "), &args(&["--attach-url", "http://h"])),
        AttachSignal::Candidate("nope".to_string())
    );
    assert_eq!(
        attach_signal(Some("\u{3000}"), &args(&["x", "--attach-url= y "])),
        AttachSignal::Candidate("y".to_string())
    );
    assert_eq!(
        attach_signal(None, &args(&["--attach-url"])),
        AttachSignal::Refused("flag given without a value".to_string())
    );
}

#[test]
fn the_first_flag_takes_the_next_argument_whatever_it_is() {
    assert_eq!(
        attach_signal(None, &args(&["--attach-url", "--attach-url=http://h"])),
        AttachSignal::Candidate("--attach-url=http://h".to_string())
    );
}

#[test]
fn a_refused_attach_is_explained() {
    let flag = args(&["--attach-url", "nope"]);
    assert_eq!(
        launch_refusal(Some(" ftp://x "), &flag),
        Some(
            "[launch] invalid DSH_DESKTOP_ATTACH_URL value \" ftp://x \": unsupported scheme \"ftp\": \
             only http:// and https:// are accepted; falling back to sidecar launch"
                .to_string()
        )
    );
    assert_eq!(
        launch_refusal(Some("  "), &flag),
        Some(
            "[launch] invalid --attach-url argument: not a valid URL: relative URL without a base; \
             falling back to sidecar launch"
                .to_string()
        )
    );
    assert_eq!(launch_refusal(Some("http://h"), &flag), None);
    assert_eq!(launch_refusal(None, &args(&["--attach-url=http://h"])), None);
    assert_eq!(launch_refusal(None, &args(&["--verbose"])), None);
    assert_eq!(
        relaunch_refusal(&args(&["--attach-url"])),
        Some(
            "[launch] ignoring invalid relaunch --attach-url argument: flag given without a value"
                .to_string()
        )
    );
    assert_eq!(relaunch_refusal(&args(&["--attach-url=http://h"])), None);
    assert_eq!(relaunch_refusal(&args(&[])), None);
}

#[test]
fn refusals_repeat_the_verdict() {
    assert_eq!(refuse_variable("x", Ok(Url::parse("http://h").expect("url"))), None);
    assert_eq!(
        refuse_variable("a\"b", Err("why".to_string())),
        Some(
            "[launch] invalid DSH_DESKTOP_ATTACH_URL value \"a\\\"b\": why; falling back to sidecar launch"
                .to_string()
        )
    );
    assert_eq!(
        refuse_argument(Some(Err("why".to_string()))),
        Some("[launch] invalid --attach-url argument: why; falling back to sidecar launch".to_string())
    );
    assert_eq!(refuse_argument(None), None);
    assert_eq!(
        refuse_forwarded(Some(Err("why".to_string()))),
        Some("[launch] ignoring invalid relaunch --attach-url argument: why".to_string())
    );
    assert_eq!(refuse_forwarded(None), None);
}

#[test]
fn a_blank_variable_is_noticed() {
    assert_eq!(
        blank_variable_notice(Some(" \t")),
        Some("[launch] DSH_DESKTOP_ATTACH_URL is empty; ignoring it".to_string())
    );
    assert_eq!(blank_variable_notice(Some("x")), None);
    assert_eq!(blank_variable_notice(None), None);
}
