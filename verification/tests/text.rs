//! Text and addresses.
use dsh_desktop::text::{
    chars_of, decimal_text, find_last_text, find_text, is_whitespace, line_one, split_at_char,
    split_at_text, string_of, strip_trailing, to_lower, trimmed,
};
use dsh_desktop::web_url::{HostKind, Url};

fn chars(s: &str) -> Vec<char> {
    s.chars().collect()
}

fn strings(pieces: Vec<Vec<char>>) -> Vec<String> {
    pieces.iter().map(|piece| piece.iter().collect()).collect()
}

#[test]
fn white_space_is_what_unicode_says() {
    for c in '\0'..=char::MAX {
        assert_eq!(is_whitespace(c), c.is_whitespace(), "{c:?}");
    }
}

#[test]
fn text_is_turned_into_characters_and_back() {
    assert_eq!(chars_of("aü😀"), vec!['a', 'ü', '😀']);
    assert_eq!(string_of(&chars("aü😀")), "aü😀");
    assert_eq!(trimmed(&chars("\u{3000} a b\t\n")), &chars("a b")[..]);
    assert!(trimmed(&chars(" \n")).is_empty());
    assert_eq!(to_lower(&chars("AZaz@[Ä")), chars("azaz@[Ä"));
}

#[test]
fn searching_finds_the_first_and_the_last() {
    assert_eq!(find_text(&chars("abab"), &chars("ab")), Some(0));
    assert_eq!(find_text(&chars("abab"), &chars("ba")), Some(1));
    assert_eq!(find_text(&chars("ab"), &chars("abc")), None);
    assert_eq!(find_text(&chars("ab"), &[]), Some(0));
    assert_eq!(find_last_text(&chars("aaa"), &chars("aa")), Some(1));
    assert_eq!(find_last_text(&chars("b"), &chars("a")), None);
}

#[test]
fn splitting_gives_the_pieces_between() {
    assert_eq!(strings(split_at_char(&chars("a::b"), ':')), vec!["a", "", "b"]);
    assert_eq!(strings(split_at_char(&[], ':')), vec![""]);
    assert_eq!(
        strings(split_at_text(&chars("a\r\n\r\nb\r"), &chars("\r\n"))),
        vec!["a", "", "b\r"]
    );
    assert_eq!(strip_trailing(&chars("a\r\n\r\n"), &chars("\r\n")), &chars("a")[..]);
}

#[test]
fn the_first_line_is_that_of_std() {
    for s in ["", "a", "a\nb", "a\r\nb", "\r\n", "a\r", "\n", "a\rb\nc"] {
        let expected = s.lines().next().unwrap_or_default();
        assert_eq!(line_one(&chars(s)), &chars(expected)[..], "{s:?}");
    }
}

#[test]
fn numbers_are_written_in_decimal() {
    for n in [0, 9, 10, 99, 100, 65_535, u64::MAX] {
        assert_eq!(decimal_text(n), n.to_string());
    }
}

#[test]
fn a_url_is_read_part_by_part() {
    let url = Url::parse("HTTP://User@EXAMPLE.com:8080/a/../b?c=d#e").expect("url");
    assert_eq!(url.as_str(), "http://User@example.com:8080/b?c=d#e");
    assert_eq!(url.scheme, "http");
    let host = url.host.clone().expect("host");
    assert_eq!(host.text, "example.com");
    assert_eq!(host.kind, HostKind::Domain);
    assert_eq!(url.port, Some(8080));
    assert_eq!(url.path, "/b");
    assert_eq!(url.query.as_deref(), Some("c=d"));
    assert!(url.is_web());
    assert_eq!(url.clone(), url);
}

#[test]
fn hosts_of_every_kind_are_told_apart() {
    let kind = |text: &str| Url::parse(text).expect("url").host.map(|host| (host.text, host.kind));
    assert_eq!(
        kind("https://127.1"),
        Some(("127.0.0.1".to_string(), HostKind::Ipv4([127, 0, 0, 1])))
    );
    assert_eq!(
        kind("https://[2001:db8::1]"),
        Some((
            "[2001:db8::1]".to_string(),
            HostKind::Ipv6([0x2001, 0xdb8, 0, 0, 0, 0, 0, 1])
        ))
    );
    assert_eq!(kind("mailto:x"), None);
    assert!(!Url::parse("mailto:x").expect("url").is_web());
    assert_eq!(Url::parse("ftp://h").expect("url").port, Some(21));
    assert_eq!(Url::parse("mailto:x").expect("url").port, None);
}

#[test]
fn a_web_url_parses_to_itself() {
    for text in [
        "http://h",
        " http://h/ a\tb\n",
        "https://ü.example/ü?ü#ü",
        "http://1.2.3.4:80/%2e%2e/x",
        "http:\\\\h\\a",
        "http://u:p@[::1]/;x?y z",
    ] {
        let url = Url::parse(text).expect("url");
        assert_eq!(Url::parse(url.as_str()), Ok(url.clone()), "{text}");
        assert!(!url.text.chars().any(char::is_whitespace), "{text}");
        assert!(url.port.is_some() && url.host.is_some());
    }
    assert_eq!(Url::parse("http://"), Err("empty host".to_string()));
    assert_eq!(Url::parse("x"), Err("relative URL without a base".to_string()));
}
