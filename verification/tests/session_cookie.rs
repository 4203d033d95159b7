//! Minting the browser-session cookie, and handing the window over.
use dsh_desktop::cookie_proxy::{rewrite_head, sidecar_authority};
use dsh_desktop::session_cookie::{
    extract_set_cookie_pair, go_to_proxy, judge_auth_answer, mint_browser_session_cookie,
    mint_request, navigate_through_cookie_proxy, read_mint_answer, verify_proxy_auth,
    HandoverAction, HandoverEvent, VERIFY_REQUEST,
};
use dsh_desktop::web_url::Url;

const CANNED_303: &str = "HTTP/1.1 303 See Other\r\n\
     cache-control: no-store\r\n\
     location: /\r\n\
     set-cookie: dsh-auth-AbCd=v1.cGF5bG9hZA.wijd; Max-Age=86400; Path=/; HttpOnly; SameSite=Strict\r\n\
     \r\n";

fn pair(name: &str, value: &str) -> (String, String) {
    (name.to_string(), value.to_string())
}

#[test]
fn extracts_the_name_value_pair_cut_before_attributes() {
    let headers = "cache-control: no-store\r\n\
         set-cookie: dsh-auth-AbCd=v1.cGF5bG9hZA.wijd; Max-Age=86400; Path=/; HttpOnly\r\n";
    assert_eq!(
        extract_set_cookie_pair(headers),
        Some(("dsh-auth-AbCd".to_string(), "v1.cGF5bG9hZA.wijd".to_string()))
    );
}

#[test]
fn matches_the_header_name_case_insensitively() {
    let headers = "SET-COOKIE: dsh-auth-x=v1.a.sig\r\n";
    assert_eq!(
        extract_set_cookie_pair(headers),
        Some(("dsh-auth-x".to_string(), "v1.a.sig".to_string()))
    );
}

#[test]
fn returns_none_without_a_set_cookie_header() {
    assert_eq!(extract_set_cookie_pair("location: /\r\n\r\n"), None);
}

#[test]
fn the_first_set_cookie_decides() {
    assert_eq!(
        extract_set_cookie_pair("no colon\r\n Set-Cookie : a = b=c ;x\r\nset-cookie: d=e\r\n"),
        Some(pair("a", "b=c"))
    );
    assert_eq!(extract_set_cookie_pair("set-cookie: bare\r\nset-cookie: d=e\r\n"), None);
    assert_eq!(extract_set_cookie_pair("set-cookie: bare; Path=/\r\n"), None);
    assert_eq!(extract_set_cookie_pair("set-cookie: a=\r\n"), Some(pair("a", "")));
    assert_eq!(extract_set_cookie_pair(""), None);
}

#[test]
fn attributes_have_no_say_in_the_pair() {
    assert_eq!(
        extract_set_cookie_pair("set-cookie: a=b"),
        extract_set_cookie_pair("set-cookie: a=b; c=d; e")
    );
}

#[test]
fn mints_from_a_canned_303_over_a_real_socket() {
    let url = Url::parse("http://127.0.0.1:41237/?token=abc").expect("url");
    let mint = mint_request(&url).expect("request");
    assert_eq!(mint.host, "127.0.0.1");
    assert_eq!(mint.port, 41237);
    assert!(mint.request.starts_with("GET /?token=abc HTTP/1.1\r\n"), "{:?}", mint.request);
    assert!(mint.request.contains("Connection: close"), "{:?}", mint.request);
    assert_eq!(
        mint.request,
        "GET /?token=abc HTTP/1.1\r\nHost: 127.0.0.1:41237\r\nConnection: close\r\n\r\n"
    );
    assert_eq!(
        mint_browser_session_cookie(CANNED_303.as_bytes()),
        Ok(("dsh-auth-AbCd".to_string(), "v1.cGF5bG9hZA.wijd".to_string()))
    );
}

#[test]
fn refuses_a_non_303_answer() {
    let answer = b"HTTP/1.1 401 Unauthorized\r\ncontent-length: 0\r\n\r\n";
    assert!(mint_browser_session_cookie(answer).is_err());
}

#[test]
fn a_request_without_a_query_asks_for_the_path() {
    let url = Url::parse("http://localhost/a/b").expect("url");
    assert_eq!(
        mint_request(&url).expect("request").request,
        "GET /a/b HTTP/1.1\r\nHost: localhost:80\r\nConnection: close\r\n\r\n"
    );
    let hostless = Url::parse("mailto:someone").expect("url");
    assert_eq!(mint_request(&hostless), Err("ready URL carries no host".to_string()));
}

#[test]
fn every_refusal_of_an_answer_says_why() {
    assert_eq!(read_mint_answer("no line break"), Err("malformed response".to_string()));
    assert_eq!(read_mint_answer(""), Err("malformed response".to_string()));
    assert_eq!(
        read_mint_answer("HTTP/1.1 401 Unauthorized\r\n\r\n"),
        Err("expected a 303, got HTTP/1.1 401 Unauthorized".to_string())
    );
    assert_eq!(
        read_mint_answer("HTTP/1.1 500 äääääääääääääääääääääääääääääää\r\n\r\n"),
        Err("expected a 303, got HTTP/1.1 500 äääääääääääääääääää".to_string())
    );
    assert_eq!(
        read_mint_answer("HTTP/1.1 200 OK 303\r\nset-cookie: a=b\r\n\r\n"),
        Err("expected a 303, got HTTP/1.1 200 OK 303".to_string())
    );
    assert_eq!(
        read_mint_answer("HTTP/1.1 303 See Other\r\nlocation: /\r\n\r\n"),
        Err("the 303 carried no Set-Cookie".to_string())
    );
}

#[test]
fn a_minted_cookie_is_one_line() {
    let (name, value) = read_mint_answer(CANNED_303).expect("minted");
    assert!(!format!("{name}={value}").contains("\r\n"));
}

#[test]
fn a_minted_cookie_reaches_the_sidecar() {
    let (name, value) = read_mint_answer(CANNED_303).expect("minted");
    let head = "GET / HTTP/1.1\r\nCookie: other=1\r\n\r\n";
    let out = rewrite_head(head, &format!("{name}={value}"), &sidecar_authority(53544), false);
    let out = String::from_utf8(out).expect("utf8");
    let cookies: Vec<&str> = out
        .split("\r\n")
        .filter(|line| line.to_ascii_lowercase().starts_with("cookie:"))
        .collect();
    assert_eq!(cookies, vec!["Cookie: dsh-auth-AbCd=v1.cGF5bG9hZA.wijd"]);
}

#[test]
fn ill_formed_bytes_in_an_answer_are_replaced() {
    assert_eq!(
        mint_browser_session_cookie(b"HTTP/1.1 303 \xff\r\nset-cookie: a=\xff\r\n\r\n"),
        Ok(pair("a", "\u{fffd}"))
    );
    assert_eq!(
        verify_proxy_auth(b"\xff"),
        Err("unexpected answer: \u{fffd}".to_string())
    );
}

#[test]
fn verification_passes_on_a_200_answer() {
    let answer = "HTTP/1.1 200 OK\r\ncontent-length: 0\r\n\r\n";
    assert_eq!(verify_proxy_auth(answer.as_bytes()), Ok(()));
}

#[test]
fn verification_fails_loudly_on_a_non_200_answer() {
    let answer = "HTTP/1.1 401 Unauthorized\r\ncontent-length: 0\r\n\r\n";
    let error = verify_proxy_auth(answer.as_bytes()).expect_err("must fail");
    assert!(error.contains("401"), "{error}");
}

#[test]
fn only_the_status_code_counts_in_a_verification() {
    assert_eq!(
        judge_auth_answer("HTTP/1.1 401 not 200\r\n"),
        Err("unexpected answer: HTTP/1.1 401 not 200".to_string())
    );
    assert_eq!(judge_auth_answer(""), Err("unexpected answer: ".to_string()));
    assert_eq!(judge_auth_answer("HTTP/2 200\n"), Ok(()));
    assert_eq!(
        VERIFY_REQUEST,
        "GET / HTTP/1.1\r\nHost: 127.0.0.1\r\nConnection: close\r\n\r\n"
    );
}

#[test]
fn the_window_is_handed_over_step_by_step() {
    let url = Url::parse("http://127.0.0.1:3080/?token=abc").expect("url");
    assert_eq!(
        navigate_through_cookie_proxy(&url, HandoverEvent::Begin),
        HandoverAction::Mint
    );
    assert_eq!(
        navigate_through_cookie_proxy(&url, HandoverEvent::Minted(Ok(pair("n", "v")))),
        HandoverAction::StartProxy {
            sidecar_port: 3080,
            cookie_pair: "n=v".to_string(),
        }
    );
    assert_eq!(
        navigate_through_cookie_proxy(&url, HandoverEvent::ProxyStarted(Ok(55687))),
        HandoverAction::Verify { proxy_port: 55687 }
    );
    assert_eq!(
        navigate_through_cookie_proxy(&url, HandoverEvent::Verified(55687, Ok(()))),
        HandoverAction::Navigate {
            target: Url::parse("http://127.0.0.1:55687/").expect("url"),
            warning: None,
        }
    );
    assert_eq!(
        navigate_through_cookie_proxy(&url, HandoverEvent::Navigated(Ok(()))),
        HandoverAction::Done
    );
}

#[test]
fn every_failure_falls_back_to_the_ready_url() {
    let url = Url::parse("http://127.0.0.1:3080/?token=abc").expect("url");
    let error = || "x".to_string();
    for (event, warning) in [
        (
            HandoverEvent::Minted(Err(error())),
            "[host] browser-session cookie not minted: x",
        ),
        (
            HandoverEvent::ProxyStarted(Err(error())),
            "[host] cookie proxy not started: x",
        ),
        (
            HandoverEvent::Navigated(Err(error())),
            "[host] proxied navigation failed: x",
        ),
    ] {
        assert_eq!(
            navigate_through_cookie_proxy(&url, event),
            HandoverAction::FallBack {
                url: url.clone(),
                warning: Some(warning.to_string()),
            }
        );
    }
    assert_eq!(
        go_to_proxy(&url, Err(error()), Ok(())),
        HandoverAction::FallBack {
            url: url.clone(),
            warning: None,
        }
    );
}

#[test]
fn a_failed_verification_only_warns() {
    let url = Url::parse("http://127.0.0.1:3080/?token=abc").expect("url");
    assert_eq!(
        navigate_through_cookie_proxy(
            &url,
            HandoverEvent::Verified(1, Err("unexpected answer: ".to_string()))
        ),
        HandoverAction::Navigate {
            target: Url::parse("http://127.0.0.1:1/").expect("url"),
            warning: Some(
                "[host] auth verification failed; continuing with proxied navigation: unexpected answer: "
                    .to_string()
            ),
        }
    );
}
