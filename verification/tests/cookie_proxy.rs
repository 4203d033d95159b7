//! The cookie proxy: request heads, as they arrive and as they are forwarded.
use dsh_desktop::cookie_proxy::{
    forwarded_request, head_end, is_upgrade_request, read_head, rewrite_head, sidecar_authority,
    HeadProgress, HEAD_LIMIT,
};

#[test]
fn injects_the_cookie_pins_host_and_forces_close_on_plain_requests() {
    let head = "GET / HTTP/1.1\r\nHost: 127.0.0.1:55687\r\nConnection: keep-alive\r\n\r\n";
    let out = String::from_utf8(rewrite_head(head, "dsh-auth-x=v1.a.sig", "127.0.0.1:53544", false))
        .expect("utf8");
    assert!(out.starts_with("GET / HTTP/1.1\r\n"));
    assert!(out.contains("Host: 127.0.0.1:53544\r\n"), "{out}");
    assert!(!out.contains("55687"), "the proxy port must not leak: {out}");
    assert!(!out.contains("keep-alive"));
    assert!(out.contains("Connection: close\r\n"));
    assert!(out.contains("Cookie: dsh-auth-x=v1.a.sig\r\n"));
    assert!(out.ends_with("\r\n\r\n"));
}

#[test]
fn drops_client_cookies_so_the_proxy_owns_authentication() {
    let head = "GET / HTTP/1.1\r\nCookie: tracker=1\r\n\r\n";
    let out = String::from_utf8(rewrite_head(head, "dsh-auth-x=v1.a.sig", "127.0.0.1:53544", false))
        .expect("utf8");
    assert!(!out.contains("tracker=1"));
    assert!(out.contains("Cookie: dsh-auth-x=v1.a.sig\r\n"));
}

#[test]
fn keeps_upgrade_connection_semantics_for_websockets() {
    let head = "GET /api/events HTTP/1.1\r\nHost: 127.0.0.1:55687\r\nUpgrade: websocket\r\nConnection: Upgrade\r\n\r\n";
    let out = String::from_utf8(rewrite_head(head, "dsh-auth-x=v1.a.sig", "127.0.0.1:53544", true))
        .expect("utf8");
    assert!(out.contains("Connection: Upgrade\r\n"));
    assert!(!out.contains("Connection: close"));
    assert!(out.contains("Host: 127.0.0.1:53544\r\n"));
    assert!(out.contains("Cookie: dsh-auth-x=v1.a.sig\r\n"));
}

#[test]
fn tolerates_a_head_without_trailing_blank_line() {
    let head = "GET / HTTP/1.1\r\nHost: h";
    let out = String::from_utf8(rewrite_head(head, "c=v", "127.0.0.1:53544", false)).expect("utf8");
    assert!(out.contains("Cookie: c=v\r\n"));
    assert!(out.contains("Host: 127.0.0.1:53544\r\n"));
    assert!(out.ends_with("\r\n\r\n"));
}

#[test]
fn rewrites_a_whole_head_to_the_byte() {
    let head = "POST /api?x=1 HTTP/1.1\r\nhOsT:  127.0.0.1:9 \r\nORIGIN: http://127.0.0.1:9\r\n\
                Referer: http://127.0.0.1:9/?back=127.0.0.1:9\r\nCOOKIE: a=1\r\n\
                connection: keep-alive\r\nX-Note: 127.0.0.1:9 ü\r\n\r\n";
    let out = rewrite_head(head, "c=v", "127.0.0.1:53544", false);
    let expected = "POST /api?x=1 HTTP/1.1\r\nORIGIN: http://127.0.0.1:53544\r\n\
                    Referer: http://127.0.0.1:53544/?back=127.0.0.1:9\r\nX-Note: 127.0.0.1:9 ü\r\n\
                    Host: 127.0.0.1:53544\r\nCookie: c=v\r\nConnection: close\r\n\r\n";
    assert_eq!(String::from_utf8(out).expect("utf8"), expected);
}

#[test]
fn a_head_without_host_leaves_origin_as_it_is() {
    let head = "GET / HTTP/1.1\r\nOrigin: http://a:1\r\n\r\n";
    let out = rewrite_head(head, "c=v", "127.0.0.1:2", true);
    assert_eq!(
        String::from_utf8(out).expect("utf8"),
        "GET / HTTP/1.1\r\nOrigin: http://a:1\r\nHost: 127.0.0.1:2\r\nCookie: c=v\r\n\r\n"
    );
}

#[test]
fn each_field_of_the_proxy_stands_once_whatever_the_client_sends() {
    let head = "GET / HTTP/1.1\r\nHost: a\r\nhost: b\r\nCookie: x\r\ncookie: y\r\n\
                Connection: 1\r\nCONNECTION: 2\r\n\r\n";
    let out = String::from_utf8(rewrite_head(head, "c=v", "127.0.0.1:2", false)).expect("utf8");
    for field in ["host:", "cookie:", "connection:"] {
        let count = out
            .split("\r\n")
            .filter(|line| line.to_ascii_lowercase().starts_with(field))
            .count();
        assert_eq!(count, 1, "{field} in {out}");
    }
    assert_eq!(out.split("\r\n").next(), Some("GET / HTTP/1.1"));
}

#[test]
fn the_sidecar_reads_the_lines_that_were_written() {
    let head = "GET / HTTP/1.1\r\nA: 1\r\nB: 2\r\n\r\n";
    let out = String::from_utf8(rewrite_head(head, "c=v", "127.0.0.1:2", false)).expect("utf8");
    let lines: Vec<&str> = out.split("\r\n").collect();
    assert_eq!(
        lines,
        vec![
            "GET / HTTP/1.1",
            "A: 1",
            "B: 2",
            "Host: 127.0.0.1:2",
            "Cookie: c=v",
            "Connection: close",
            "",
            "",
        ]
    );
}

#[test]
fn upgrade_requests_are_told_by_their_header() {
    assert!(is_upgrade_request("GET / HTTP/1.1\r\nUPGRADE: WebSocket\r\n\r\n"));
    assert!(!is_upgrade_request("GET / HTTP/1.1\r\nUpgrade:websocket\r\n\r\n"));
    assert!(!is_upgrade_request("GET / HTTP/1.1\r\nHost: h\r\n\r\n"));
    assert!(!is_upgrade_request(""));
}

#[test]
fn the_authority_of_the_sidecar_names_its_port() {
    assert_eq!(sidecar_authority(0), "127.0.0.1:0");
    assert_eq!(sidecar_authority(53544), "127.0.0.1:53544");
    assert_eq!(sidecar_authority(u16::MAX), "127.0.0.1:65535");
}

#[test]
fn a_forwarded_request_ends_with_what_came_behind_the_head() {
    let out = forwarded_request("GET / HTTP/1.1\r\nHost: p\r\n\r\n", &[0, 255, 13], "c=v", 80);
    let mut expected =
        b"GET / HTTP/1.1\r\nHost: 127.0.0.1:80\r\nCookie: c=v\r\nConnection: close\r\n\r\n".to_vec();
    expected.extend_from_slice(&[0, 255, 13]);
    assert_eq!(out, expected);

    let upgrade = forwarded_request(
        "GET / HTTP/1.1\r\nUpgrade: websocket\r\nConnection: Upgrade\r\n\r\n",
        &[],
        "c=v",
        80,
    );
    assert_eq!(
        upgrade,
        b"GET / HTTP/1.1\r\nUpgrade: websocket\r\nConnection: Upgrade\r\nHost: 127.0.0.1:80\r\nCookie: c=v\r\n\r\n"
            .to_vec()
    );
}

#[test]
fn a_head_is_read_up_to_its_first_blank_line() {
    let mut raw = Vec::new();
    assert_eq!(read_head(&mut raw, Some(b"GET / HTTP/1.1\r\nA: 1\r\n")), HeadProgress::ReadMore);
    assert_eq!(
        read_head(&mut raw, Some(b"\r\nbody\r\n\r\nmore")),
        HeadProgress::Complete {
            head: "GET / HTTP/1.1\r\nA: 1\r\n\r\n".to_string(),
            rest: b"body\r\n\r\nmore".to_vec(),
        }
    );
}

#[test]
fn ill_formed_bytes_in_a_head_become_replacement_characters() {
    let mut raw = Vec::new();
    assert_eq!(
        read_head(&mut raw, Some(b"GET /\xff HTTP/1.1\r\n\r\n")),
        HeadProgress::Complete {
            head: "GET /\u{fffd} HTTP/1.1\r\n\r\n".to_string(),
            rest: Vec::new(),
        }
    );
}

#[test]
fn a_head_that_cannot_be_completed_is_given_up() {
    let mut raw = b"GET /".to_vec();
    assert_eq!(read_head(&mut raw, Some(b"")), HeadProgress::GiveUp);
    assert_eq!(read_head(&mut raw, None), HeadProgress::GiveUp);
    assert_eq!(raw, b"GET /".to_vec());

    let mut full = vec![65u8; HEAD_LIMIT - 1];
    assert_eq!(read_head(&mut full, Some(b"A")), HeadProgress::ReadMore);
    assert_eq!(read_head(&mut full, Some(b"A")), HeadProgress::GiveUp);
    assert!(matches!(
        read_head(&mut full, Some(b"\r\n\r\n")),
        HeadProgress::Complete { .. }
    ));
}

#[test]
fn later_bytes_leave_the_end_of_the_head() {
    assert_eq!(head_end(b"\r\n\r\n"), Some(4));
    assert_eq!(head_end(b"a\r\n\r\nb\r\n\r\n"), Some(5));
    assert_eq!(head_end(b"\r\n\r"), None);
    assert_eq!(head_end(b"\r\n \r\n"), None);
}

#[test]
fn rewriting_a_rewritten_head_changes_nothing() {
    for head in [
        "GET / HTTP/1.1\r\nHost: 127.0.0.1:9\r\nOrigin: http://127.0.0.1:9\r\nCookie: a=1\r\n\r\n",
        "GET / HTTP/1.1\r\n\r\nHost: h\r\n\r\n",
        "",
        "\0\0",
    ] {
        for is_upgrade in [false, true] {
            let once = rewrite_head(head, "c=v", "127.0.0.1:53544", is_upgrade);
            let text = String::from_utf8(once.clone()).expect("utf8");
            assert_eq!(rewrite_head(&text, "c=v", "127.0.0.1:53544", is_upgrade), once, "{head:?}");
        }
    }
}

#[test]
fn rewriting_twice_is_rewriting_once_whatever_the_cookie_ends_with() {
    for cookie in ["", "c=v\0", "\0\0", "c=v\r"] {
        for is_upgrade in [false, true] {
            let head = "GET / HTTP/1.1\r\nHost: h\r\nA: b\r\n\r\n";
            let once = rewrite_head(head, cookie, "127.0.0.1:53544", is_upgrade);
            let text = String::from_utf8(once.clone()).expect("utf8");
            assert_eq!(rewrite_head(&text, cookie, "127.0.0.1:53544", is_upgrade), once, "{cookie:?}");
        }
    }
}

#[test]
fn client_cookies_have_no_say() {
    let with = |first: &str, second: &str| {
        format!("GET / HTTP/1.1\r\nHost: h\r\nCOOKIE:{first}\r\nA: b\r\ncookie:{second}\r\n\r\n")
    };
    for is_upgrade in [false, true] {
        let plain = rewrite_head(&with("", ""), "c=v", "127.0.0.1:2", is_upgrade);
        for (first, second) in [(" a=1", "x"), ("host: evil", " b=2; c"), ("ü", "")] {
            let out = rewrite_head(&with(first, second), "c=v", "127.0.0.1:2", is_upgrade);
            assert_eq!(out, plain);
        }
    }
}
