//! The connect form and what it remembers.
use dsh_desktop::paths::{PathBase, PathPlan};
use dsh_desktop::splash::{
    accept_typed_url, clear_remembered, is_loopback_url, read_remembered_url, record_for,
    remembered_server_file, remembered_warning, splash_connect, splash_forget, splash_get_remembered,
    validate_attach_url, ConnectPlan, RememberedServer, RemoveOutcome, StoreAction, StoreRead,
    STORE_VERSION,
};
use dsh_desktop::web_url::Url;

fn entry(version: u32, url: &str) -> StoreRead {
    StoreRead::Entry(RememberedServer {
        version,
        url: url.to_string(),
    })
}

#[test]
fn validate_accepts_http_and_https() {
    assert_eq!(
        validate_attach_url("http://127.0.0.1:3080")
            .unwrap()
            .as_str(),
        "http://127.0.0.1:3080/"
    );
    assert!(validate_attach_url("  https://dsh.example.com  ").is_ok());
}

#[test]
fn validate_rejects_non_http_schemes_and_garbage() {
    for bad in [
        "ftp://127.0.0.1:3080",
        "file:///etc/passwd",
        "javascript:alert(1)",
        "127.0.0.1:3080",
        "not a url",
        "",
        "   ",
    ] {
        assert!(
            validate_attach_url(bad).is_err(),
            "expected reject: {bad:?}"
        );
    }
}

#[test]
fn loopback_detection() {
    assert!(is_loopback_url(
        &validate_attach_url("http://127.0.0.1:3080").unwrap()
    ));
    assert!(is_loopback_url(
        &validate_attach_url("http://localhost:3080").unwrap()
    ));
    assert!(is_loopback_url(
        &validate_attach_url("http://[::1]:3080").unwrap()
    ));
    assert!(!is_loopback_url(
        &validate_attach_url("http://192.168.1.10:3080").unwrap()
    ));
    assert!(!is_loopback_url(
        &validate_attach_url("https://dsh.example.com").unwrap()
    ));
}

#[test]
fn loopback_is_a_whole_network_and_one_name() {
    for (url, loopback) in [
        ("http://127.255.0.9", true),
        ("http://LOCALHOST", true),
        ("http://128.0.0.1", false),
        ("http://localhost.example", false),
        ("http://[::2]", false),
        ("http://[1::1]", false),
        ("http://[::ffff:127.0.0.1]", false),
    ] {
        assert_eq!(is_loopback_url(&Url::parse(url).unwrap()), loopback, "{url}");
    }
    assert!(!is_loopback_url(&Url::parse("mailto:localhost").unwrap()));
}

#[test]
fn refusals_of_a_typed_address_say_why() {
    let refusal = |input: &str| validate_attach_url(input).expect_err("refused");
    assert_eq!(refusal(" \n"), "URL is empty");
    assert_eq!(refusal("not a url"), "invalid URL: relative URL without a base");
    assert_eq!(
        refusal("javascript:alert(1)"),
        "unsupported scheme \"javascript\": only http/https are allowed"
    );
    let mut hostless = Url::parse("http://h").unwrap();
    hostless.host = None;
    assert_eq!(accept_typed_url(Ok(hostless)), Err("URL has no host".to_string()));
}

#[test]
fn remember_roundtrip_and_clear() {
    let saved = record_for("http://127.0.0.1:3080/");
    assert_eq!(saved.version, STORE_VERSION);
    assert_eq!(saved.url, "http://127.0.0.1:3080/");
    assert_eq!(
        read_remembered_url(StoreRead::Entry(saved)).as_deref(),
        Some("http://127.0.0.1:3080/")
    );

    let path = "desktop/attach-server.json";
    assert!(clear_remembered(RemoveOutcome::Removed, path).is_ok());
    // Clearing twice is fine: the second is already "cleared".
    assert!(clear_remembered(RemoveOutcome::NotFound, path).is_ok());
    assert_eq!(
        clear_remembered(RemoveOutcome::Failed("denied".to_string()), path),
        Err("cannot remove desktop/attach-server.json: denied".to_string())
    );
}

#[test]
fn remembered_read_tolerates_missing_and_corrupt_file() {
    assert_eq!(read_remembered_url(StoreRead::Missing), None);
    assert_eq!(read_remembered_url(StoreRead::Corrupt("x".to_string())), None);
    assert_eq!(read_remembered_url(StoreRead::Unreadable("x".to_string())), None);
    // Foreign version is ignored, not guessed.
    assert_eq!(read_remembered_url(entry(99, "http://127.0.0.1:9")), None);
    // Valid entry survives and comes back normalized.
    assert_eq!(
        read_remembered_url(entry(STORE_VERSION, "http://127.0.0.1:3080")).as_deref(),
        Some("http://127.0.0.1:3080/")
    );
    // Stored URL that no longer validates (e.g. file edited by hand) -> None.
    assert_eq!(read_remembered_url(entry(STORE_VERSION, "ftp://x")), None);
    assert_eq!(
        splash_get_remembered(entry(STORE_VERSION, " https://h ")).as_deref(),
        Some("https://h/")
    );
}

#[test]
fn the_checkbox_is_the_whole_truth_after_a_connect() {
    let url = Url::parse("http://10.0.0.1:3080/").unwrap();
    assert_eq!(
        splash_connect(" http://10.0.0.1:3080 ", true, true),
        Ok(ConnectPlan {
            url: url.clone(),
            store: StoreAction::Save(RememberedServer {
                version: 1,
                url: "http://10.0.0.1:3080/".to_string(),
            }),
            non_loopback: true,
        })
    );
    assert_eq!(
        splash_connect("http://10.0.0.1:3080", false, true),
        Ok(ConnectPlan {
            url,
            store: StoreAction::Clear,
            non_loopback: true,
        })
    );
    let local = splash_connect("http://127.0.0.1", false, true).unwrap();
    assert!(!local.non_loopback);
}

#[test]
fn a_saved_address_is_read_back() {
    for input in ["HTTP://h", "https://user@h:8/a b?c=d e#f g", "http://[::1]:3080/%20?token=x"] {
        let plan = splash_connect(input, true, true).expect("accepted");
        let StoreAction::Save(saved) = plan.store else {
            panic!("not saved");
        };
        assert_eq!(
            read_remembered_url(StoreRead::Entry(saved)),
            Some(plan.url.text)
        );
    }
}

#[test]
fn a_connect_is_refused_for_its_address_first() {
    assert_eq!(splash_connect("", true, false), Err("URL is empty".to_string()));
    let no_store = "no home directory: cannot locate the remember store".to_string();
    assert_eq!(splash_connect("http://h", true, false), Err(no_store.clone()));
    assert_eq!(splash_forget(false), Err(no_store));
    assert_eq!(splash_forget(true), Ok(()));
}

#[test]
fn the_store_lies_in_the_data_home() {
    let tail = |list: &[&str]| list.iter().map(|part| part.to_string()).collect::<Vec<_>>();
    assert_eq!(
        remembered_server_file(Some("/data"), Some("/home")),
        Some(PathPlan {
            base: PathBase::Given("/data"),
            tail: tail(&["desktop", "attach-server.json"]),
        })
    );
    assert_eq!(
        remembered_server_file(None, Some("/home")),
        Some(PathPlan {
            base: PathBase::Given("/home"),
            tail: tail(&[".dsh", "desktop", "attach-server.json"]),
        })
    );
    assert_eq!(remembered_server_file::<&str>(None, None), None);
}

#[test]
fn a_broken_store_is_warned_of() {
    let warning = |read: StoreRead| remembered_warning(&read, "/d/s.json");
    assert_eq!(warning(StoreRead::Missing), None);
    assert_eq!(warning(entry(STORE_VERSION, "http://h")), None);
    assert_eq!(
        warning(StoreRead::Unreadable("denied".to_string())),
        Some("[splash] cannot read /d/s.json: denied".to_string())
    );
    assert_eq!(
        warning(StoreRead::Corrupt("expected value".to_string())),
        Some("[splash] corrupt remembered-server file /d/s.json: expected value".to_string())
    );
    assert_eq!(
        warning(entry(99, "http://h")),
        Some("[splash] ignoring remembered server with unknown version 99".to_string())
    );
    assert_eq!(
        warning(entry(STORE_VERSION, "ftp://x")),
        Some(
            "[splash] remembered URL no longer valid: unsupported scheme \"ftp\": only http/https are allowed"
                .to_string()
        )
    );
}

#[test]
fn an_address_that_is_not_its_own_normal_form_is_not_read_back() {
    let label: String = (0..1000u32)
        .map(|k| char::from_u32(0x4e00 + 20 * k).expect("character"))
        .collect();
    let plan = splash_connect(&format!("http://{label}"), true, true).expect("accepted");
    let StoreAction::Save(saved) = plan.store else {
        panic!("not saved");
    };
    assert_eq!(saved.url, plan.url.text);
    assert!(validate_attach_url(&saved.url).is_err());
    assert_eq!(read_remembered_url(StoreRead::Entry(saved)), None);
}
