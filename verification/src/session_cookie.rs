//! The browser-session cookie: how the shell mints it from the tokenized URL,
//! proves that it works, and hands the window to the proxy that carries it.
//!
//! The sidecar answers the tokenized root request with a 303 that sets the
//! cookie. The shell makes that request itself, follows no redirect, and keeps
//! the cookie's pair for the proxy. The pair is a secret and is never logged.
use vstd::prelude::*;
use vstd::slice::slice_subrange;
use vstd::string::StringExecFns;
use vstd::utf8::{decode_utf8, valid_utf8};

use crate::bytes;
use crate::cookie_proxy;
use crate::stub;
use crate::text;
use crate::web_url;
use crate::web_url::{Url, UrlView};

verus! {

/// How long a request of the shell waits to read or to write, in milliseconds.
pub const REQUEST_TIMEOUT_MS: u64 = 3_000;

/// How many bytes of the minting answer are read.
pub const MINT_ANSWER_LIMIT: u64 = 65_536;

/// How many bytes of the verifying answer are read.
pub const VERIFY_ANSWER_LIMIT: u64 = 16_384;

/// The request that proves the whole chain.
pub const VERIFY_REQUEST: &'static str =
    "GET / HTTP/1.1\r\nHost: 127.0.0.1\r\nConnection: close\r\n\r\n";

/// The name and value of a cookie.
pub open spec fn pair_view(pair: Option<(String, String)>) -> Option<(Seq<char>, Seq<char>)> {
    match pair {
        Some((name, value)) => Some((name@, value@)),
        None => None,
    }
}

/// The view of the outcome of minting.
pub open spec fn mint_view(outcome: Result<(String, String), String>) -> Result<
    (Seq<char>, Seq<char>),
    Seq<char>,
> {
    match outcome {
        Ok((name, value)) => Ok((name@, value@)),
        Err(error) => Err(error@),
    }
}

// ── the cookie in an answer ────────────────────────────────────────────────

/// What a header line says, if it is a `Set-Cookie`.
pub open spec fn set_cookie_value(line: Seq<char>) -> Option<Seq<char>> {
    match text::cut(line, ':') {
        Some((field, value)) => if text::lower(text::trim(field)) == "set-cookie"@ {
            Some(value)
        } else {
            None
        },
        None => None,
    }
}

/// The pair in the value of a `Set-Cookie`: what stands before the first
/// attribute, parted at its first `=`.
pub open spec fn cookie_pair(value: Seq<char>) -> Option<(Seq<char>, Seq<char>)> {
    match text::cut(value.take(text::index_where(value, text::is_char(';'))), '=') {
        Some((name, content)) => Some((text::trim(name), text::trim(content))),
        None => None,
    }
}

/// The pair in the first `Set-Cookie` among header lines.
pub open spec fn first_cookie(lines: Seq<Seq<char>>) -> Option<(Seq<char>, Seq<char>)>
    decreases lines.len(),
{
    if lines.len() == 0 {
        None
    } else {
        match set_cookie_value(lines[0]) {
            Some(value) => cookie_pair(value),
            None => first_cookie(lines.drop_first()),
        }
    }
}

/// The pair that a block of headers sets.
pub open spec fn header_cookie(headers: Seq<char>) -> Option<(Seq<char>, Seq<char>)> {
    first_cookie(text::split_text(headers, text::crlf()))
}

/// `set_cookie_value`, executed.
fn value_of_set_cookie<'a>(line: &'a [char]) -> (r: Option<&'a [char]>)
    ensures
        match r {
            Some(value) => set_cookie_value(line@) == Some(value@),
            None => set_cookie_value(line@) is None,
        },
{
    match text::split_once(line, ':') {
        Some((field, value)) => {
            let name = text::to_lower(text::trimmed(field));
            if text::same(name.as_slice(), text::chars_of("set-cookie").as_slice()) {
                Some(value)
            } else {
                None
            }
        },
        None => None,
    }
}

/// `cookie_pair`, executed.
fn pair_of_cookie(value: &[char]) -> (r: Option<(String, String)>)
    ensures
        pair_view(r) == cookie_pair(value@),
{
    let end = text::find_char(value, ';');
    let body = slice_subrange(value, 0, end);
    assert(body@ =~= value@.take(end as int));
    match text::split_once(body, '=') {
        Some((name, content)) => Some(
            (text::string_of(text::trimmed(name)), text::string_of(text::trimmed(content))),
        ),
        None => None,
    }
}

/// The name and value that the first `Set-Cookie` of a block of headers sets,
/// without its attributes.
pub fn extract_set_cookie_pair(headers: &str) -> (r: Option<(String, String)>)
    ensures
        pair_view(r) == header_cookie(headers@),
{
    let chars = text::chars_of(headers);
    let line_break: Vec<char> = vec!['\r', '\n'];
    assert(line_break@ =~= text::crlf());
    let lines = text::split_at_text(chars.as_slice(), line_break.as_slice());
    let ghost all = text::pieces(lines@);
    let mut i: usize = 0;
    assert(all.skip(0) =~= all);
    while i < lines.len()
        invariant
            i <= lines.len(),
            all == text::pieces(lines@),
            first_cookie(all.skip(i as int)) == header_cookie(headers@),
        decreases lines.len() - i,
    {
        let line = lines[i].as_slice();
        assert(all.skip(i as int)[0] == line@);
        if let Some(value) = value_of_set_cookie(line) {
            return pair_of_cookie(value);
        }
        assert(all.skip(i as int).drop_first() =~= all.skip(i + 1));
        i += 1;
    }
    None
}

// ── minting ────────────────────────────────────────────────────────────────

/// The minting request, and where it goes.
#[derive(Debug, Clone, PartialEq, Eq)]
pub struct MintRequest {
    pub host: String,
    pub port: u16,
    pub request: String,
}

/// The path of a URL with its query.
pub open spec fn path_with_query(url: UrlView) -> Seq<char> {
    match url.query {
        Some(query) => url.path + "?"@ + query,
        None => url.path,
    }
}

/// The text of the minting request. Its `Host` is the authority that the
/// cookie is signed for.
pub open spec fn mint_request_text(url: UrlView, host: Seq<char>) -> Seq<char> {
    "GET "@ + path_with_query(url) + " HTTP/1.1\r\nHost: "@ + host + ":"@ + text::decimal(
        stub::probe_port(url) as nat,
    ) + "\r\nConnection: close\r\n\r\n"@
}

/// What minting for a ready URL asks whom: host, port and text of the request.
pub open spec fn mint_parts(url: UrlView) -> Option<(Seq<char>, u16, Seq<char>)> {
    if url.host is Some && url.host->0.text.len() > 0 {
        Some(
            (
                url.host->0.text,
                stub::probe_port(url),
                mint_request_text(url, url.host->0.text),
            ),
        )
    } else {
        None
    }
}

/// The minting request for a ready URL; a URL without a host has none.
pub fn mint_request(url: &Url) -> (r: Result<MintRequest, String>)
    ensures
        match r {
            Ok(mint) => {
                &&& url@.host is Some && url@.host->0.text.len() > 0
                &&& mint.host@ == url@.host->0.text
                &&& mint.port == stub::probe_port(url@)
                &&& mint.request@ == mint_request_text(url@, mint.host@)
            },
            Err(error) => {
                &&& url@.host is None || url@.host->0.text.len() == 0
                &&& error@ == "ready URL carries no host"@
            },
        },
        match r {
            Ok(mint) => mint_parts(url@) == Some((mint.host@, mint.port, mint.request@)),
            Err(_) => mint_parts(url@) is None,
        },
{
    let host = match &url.host {
        Some(host) => host.text.clone(),
        None => String::new(),
    };
    if text::chars_of(host.as_str()).len() == 0 {
        return Err("ready URL carries no host".to_string());
    }
    let port: u16 = match url.port {
        Some(port) => port,
        None => 80,
    };
    let mut request = "GET ".to_string();
    request.append(url.path.as_str());
    if let Some(query) = &url.query {
        request.append("?");
        request.append(query.as_str());
    }
    assert(request@ =~= "GET "@ + path_with_query(url@));
    request.append(" HTTP/1.1\r\nHost: ");
    request.append(host.as_str());
    request.append(":");
    request.append(text::decimal_text(port as u64).as_str());
    request.append("\r\nConnection: close\r\n\r\n");
    Ok(MintRequest { host, port, request })
}

/// The cookie in the answer to the minting request: the answer has to be a 303
/// that sets one.
pub open spec fn minted(answer: Seq<char>) -> Result<(Seq<char>, Seq<char>), Seq<char>> {
    match text::find(answer, text::crlf()) {
        Some(k) => {
            let status_line = answer.take(k);
            if stub::status_code(status_line) != Some(303int) {
                Err(
                    "expected a 303, got "@ + status_line.take(
                        if status_line.len() < 32 {
                            status_line.len() as int
                        } else {
                            32
                        },
                    ),
                )
            } else {
                match header_cookie(answer.skip(k + 2)) {
                    Some(pair) => Ok(pair),
                    None => Err("the 303 carried no Set-Cookie"@),
                }
            }
        },
        None => Err("malformed response"@),
    }
}

/// Reads the cookie in the text of the answer to the minting request.
pub fn read_mint_answer(answer: &str) -> (r: Result<(String, String), String>)
    ensures
        mint_view(r) == minted(answer@),
{
    let chars = text::chars_of(answer);
    let line_break: Vec<char> = vec!['\r', '\n'];
    assert(line_break@ =~= text::crlf());
    let n = chars.len();
    let k = match text::find_text(chars.as_slice(), line_break.as_slice()) {
        Some(k) => k,
        None => {
            return Err("malformed response".to_string());
        },
    };
    let status_line = slice_subrange(chars.as_slice(), 0, k);
    assert(status_line@ =~= answer@.take(k as int));
    let headers = slice_subrange(chars.as_slice(), k + 2, n);
    assert(headers@ =~= answer@.skip(k + 2));
    let code = stub::parse_status_line(text::string_of(status_line).as_str());
    let is_303 = match code {
        Some(code) => code == 303,
        None => false,
    };
    if !is_303 {
        let shown = if status_line.len() < 32 {
            status_line.len()
        } else {
            32
        };
        let mut error = "expected a 303, got ".to_string();
        let shown_part = slice_subrange(status_line, 0, shown);
        assert(shown_part@ =~= status_line@.take(shown as int));
        error.append(text::string_of(shown_part).as_str());
        return Err(error);
    }
    match extract_set_cookie_pair(text::string_of(headers).as_str()) {
        Some(pair) => Ok(pair),
        None => Err("the 303 carried no Set-Cookie".to_string()),
    }
}

/// Reads the cookie in the answer to the minting request.
pub fn mint_browser_session_cookie(answer: &[u8]) -> (r: Result<(String, String), String>)
    ensures
        mint_view(r) == minted(bytes::utf8_lossy(answer@)),
        valid_utf8(answer@) ==> bytes::utf8_lossy(answer@) == decode_utf8(answer@),
{
    read_mint_answer(bytes::lossy_text(answer).as_str())
}

// ── proving that it works ──────────────────────────────────────────────────

/// The verdict on the answer to the verifying request: it has to be a 200.
pub open spec fn auth_verdict(answer: Seq<char>) -> Result<(), Seq<char>> {
    let line = text::first_line(answer);
    if stub::status_code(line) == Some(200int) {
        Ok(())
    } else {
        Err("unexpected answer: "@ + line)
    }
}

/// The view of an outcome without a value.
pub open spec fn unit_view(outcome: Result<(), String>) -> Result<(), Seq<char>> {
    match outcome {
        Ok(_) => Ok(()),
        Err(error) => Err(error@),
    }
}

/// Judges the text of the answer to the verifying request.
pub fn judge_auth_answer(answer: &str) -> (r: Result<(), String>)
    ensures
        unit_view(r) == auth_verdict(answer@),
{
    let chars = text::chars_of(answer);
    let line = text::string_of(text::line_one(chars.as_slice()));
    let verified = match stub::parse_status_line(line.as_str()) {
        Some(code) => code == 200,
        None => false,
    };
    if verified {
        Ok(())
    } else {
        let mut error = "unexpected answer: ".to_string();
        error.append(line.as_str());
        Err(error)
    }
}

/// Judges the answer to the verifying request: a plain request through the
/// proxy has to come back 200.
pub fn verify_proxy_auth(answer: &[u8]) -> (r: Result<(), String>)
    ensures
        unit_view(r) == auth_verdict(bytes::utf8_lossy(answer@)),
        valid_utf8(answer@) ==> bytes::utf8_lossy(answer@) == decode_utf8(answer@),
{
    judge_auth_answer(bytes::lossy_text(answer).as_str())
}

// ── handing the window over ────────────────────────────────────────────────

/// What happened on the way to the proxied window.
#[derive(Debug, PartialEq, Eq)]
pub enum HandoverEvent {
    /// The ready URL is known.
    Begin,
    /// The cookie was minted, or not.
    Minted(Result<(String, String), String>),
    /// The proxy listens on a port, or was not started.
    ProxyStarted(Result<u16, String>),
    /// The proxy on this port was verified, or not.
    Verified(u16, Result<(), String>),
    /// The window was sent to the proxy, or not.
    Navigated(Result<(), String>),
}

/// What to do next.
#[derive(Debug, Clone, PartialEq, Eq)]
pub enum HandoverAction {
    /// Mint the cookie.
    Mint,
    /// Start the proxy in front of this port, with this cookie.
    StartProxy { sidecar_port: u16, cookie_pair: String },
    /// Verify the proxy on this port.
    Verify { proxy_port: u16 },
    /// Send the window to the proxy; log the warning first, if there is one.
    Navigate { target: Url, warning: Option<String> },
    /// The window shows the proxy.
    Done,
    /// Log the warning, and send the window to the ready URL itself.
    FallBack { url: Url, warning: Option<String> },
}

/// `HandoverAction` as a mathematical value.
pub enum HandoverView {
    Mint,
    StartProxy { sidecar_port: u16, cookie_pair: Seq<char> },
    Verify { proxy_port: u16 },
    Navigate { target: UrlView, warning: Option<Seq<char>> },
    Done,
    FallBack { url: UrlView, warning: Option<Seq<char>> },
}

impl View for HandoverAction {
    type V = HandoverView;

    open spec fn view(&self) -> HandoverView {
        match self {
            HandoverAction::Mint => HandoverView::Mint,
            HandoverAction::StartProxy { sidecar_port, cookie_pair } => HandoverView::StartProxy {
                sidecar_port: *sidecar_port,
                cookie_pair: cookie_pair@,
            },
            HandoverAction::Verify { proxy_port } => HandoverView::Verify {
                proxy_port: *proxy_port,
            },
            HandoverAction::Navigate { target, warning } => HandoverView::Navigate {
                target: target@,
                warning: text::text_view(*warning),
            },
            HandoverAction::Done => HandoverView::Done,
            HandoverAction::FallBack { url, warning } => HandoverView::FallBack {
                url: url@,
                warning: text::text_view(*warning),
            },
        }
    }
}

/// The root of the proxy.
pub open spec fn proxy_root(port: u16) -> Seq<char> {
    "http://127.0.0.1:"@ + text::decimal(port as nat) + "/"@
}

/// The step that sends the window to the proxy, once its URL is parsed.
pub open spec fn proxied(
    url: UrlView,
    parsed: Result<UrlView, Seq<char>>,
    verified: Result<(), Seq<char>>,
) -> HandoverView {
    let warning = match verified {
        Ok(_) => None,
        Err(error) => Some(
            "[host] auth verification failed; continuing with proxied navigation: "@ + error,
        ),
    };
    match parsed {
        Ok(target) => HandoverView::Navigate { target, warning },
        Err(_) => HandoverView::FallBack { url, warning },
    }
}

/// What to do about an event on the way to the proxied window.
pub open spec fn handover(url: UrlView, event: HandoverEvent) -> HandoverView {
    match event {
        HandoverEvent::Begin => HandoverView::Mint,
        HandoverEvent::Minted(outcome) => match outcome {
            Ok((name, value)) => HandoverView::StartProxy {
                sidecar_port: stub::probe_port(url),
                cookie_pair: name@ + "="@ + value@,
            },
            Err(error) => HandoverView::FallBack {
                url,
                warning: Some("[host] browser-session cookie not minted: "@ + error@),
            },
        },
        HandoverEvent::ProxyStarted(outcome) => match outcome {
            Ok(proxy_port) => HandoverView::Verify { proxy_port },
            Err(error) => HandoverView::FallBack {
                url,
                warning: Some("[host] cookie proxy not started: "@ + error@),
            },
        },
        HandoverEvent::Verified(proxy_port, outcome) => proxied(
            url,
            web_url::parsed_url(proxy_root(proxy_port)),
            unit_view(outcome),
        ),
        HandoverEvent::Navigated(outcome) => match outcome {
            Ok(_) => HandoverView::Done,
            Err(error) => HandoverView::FallBack {
                url,
                warning: Some("[host] proxied navigation failed: "@ + error@),
            },
        },
    }
}

/// A message and its cause.
fn message(head: &str, cause: &str) -> (r: String)
    ensures
        r@ == head@ + cause@,
{
    let mut out = head.to_string();
    out.append(cause);
    out
}

/// Sends the window to the proxy whose URL was parsed, whether or not the
/// verification succeeded.
pub fn go_to_proxy(url: &Url, parsed: Result<Url, String>, verified: Result<(), String>) -> (r:
    HandoverAction)
    ensures
        r@ == proxied(url@, web_url::parse_view(parsed), unit_view(verified)),
{
    let warning = match verified {
        Ok(_) => None,
        Err(error) => Some(
            message(
                "[host] auth verification failed; continuing with proxied navigation: ",
                error.as_str(),
            ),
        ),
    };
    match parsed {
        Ok(target) => HandoverAction::Navigate { target, warning },
        Err(_) => HandoverAction::FallBack { url: url.clone(), warning },
    }
}

/// Hands the window to the cookie proxy in front of the sidecar, driven by what
/// happens: begin with [`HandoverEvent::Begin`], perform the action, and hand
/// back what came of it. Whatever fails, the window falls back to the tokenized
/// URL, except that a failed verification only warns.
pub fn navigate_through_cookie_proxy(url: &Url, event: HandoverEvent) -> (r: HandoverAction)
    ensures
        r@ == handover(url@, event),
{
    match event {
        HandoverEvent::Begin => HandoverAction::Mint,
        HandoverEvent::Minted(outcome) => match outcome {
            Ok((name, value)) => {
                let sidecar_port: u16 = match url.port {
                    Some(port) => port,
                    None => 80,
                };
                let mut cookie_pair = name;
                cookie_pair.append("=");
                cookie_pair.append(value.as_str());
                HandoverAction::StartProxy { sidecar_port, cookie_pair }
            },
            Err(error) => HandoverAction::FallBack {
                url: url.clone(),
                warning: Some(
                    message("[host] browser-session cookie not minted: ", error.as_str()),
                ),
            },
        },
        HandoverEvent::ProxyStarted(outcome) => match outcome {
            Ok(proxy_port) => HandoverAction::Verify { proxy_port },
            Err(error) => HandoverAction::FallBack {
                url: url.clone(),
                warning: Some(message("[host] cookie proxy not started: ", error.as_str())),
            },
        },
        HandoverEvent::Verified(proxy_port, outcome) => {
            let mut root = "http://127.0.0.1:".to_string();
            root.append(text::decimal_text(proxy_port as u64).as_str());
            root.append("/");
            go_to_proxy(url, Url::parse(root.as_str()), outcome)
        },
        HandoverEvent::Navigated(outcome) => match outcome {
            Ok(_) => HandoverAction::Done,
            Err(error) => HandoverAction::FallBack {
                url: url.clone(),
                warning: Some(message("[host] proxied navigation failed: ", error.as_str())),
            },
        },
    }
}

// ── laws ───────────────────────────────────────────────────────────────────

/// Where a whole handover ends, given what came of each of its actions.
pub open spec fn handover_end(
    url: UrlView,
    minting: Result<(String, String), String>,
    start: Result<u16, String>,
    verification: Result<(), String>,
    navigation: Result<(), String>,
) -> HandoverView {
    match handover(url, HandoverEvent::Minted(minting)) {
        HandoverView::StartProxy { .. } => match handover(
            url,
            HandoverEvent::ProxyStarted(start),
        ) {
            HandoverView::Verify { proxy_port } => match handover(
                url,
                HandoverEvent::Verified(proxy_port, verification),
            ) {
                HandoverView::Navigate { .. } => handover(
                    url,
                    HandoverEvent::Navigated(navigation),
                ),
                end => end,
            },
            end => end,
        },
        end => end,
    }
}

/// The window never gets lost: a handover ends with the window at the proxy if
/// minting, starting and navigating succeeded, and otherwise back at the ready
/// URL as it was.
pub proof fn law_failures_fall_back_to_the_ready_url(
    url: UrlView,
    minting: Result<(String, String), String>,
    start: Result<u16, String>,
    verification: Result<(), String>,
    navigation: Result<(), String>,
)
    ensures
        ({
            let end = handover_end(url, minting, start, verification, navigation);
            if minting is Ok && start is Ok && web_url::parsed_url(proxy_root(start->Ok_0)) is Ok
                && navigation is Ok {
                end is Done
            } else {
                end matches HandoverView::FallBack { url: target, .. } && target == url
            }
        }),
{
}

/// Verification only warns: whatever it found, the window is sent to the same
/// place.
pub proof fn law_verification_only_warns(
    url: UrlView,
    parsed: Result<UrlView, Seq<char>>,
    one: Result<(), Seq<char>>,
    other: Result<(), Seq<char>>,
)
    ensures
        match (proxied(url, parsed, one), proxied(url, parsed, other)) {
            (
                HandoverView::Navigate { target: a, .. },
                HandoverView::Navigate { target: b, .. },
            ) => a == b,
            (HandoverView::FallBack { url: a, .. }, HandoverView::FallBack { url: b, .. }) => a
                == b,
            _ => false,
        },
{
}

/// Attributes have no say: whatever stands behind the first `;` of a
/// `Set-Cookie`, the pair is the same.
pub proof fn law_attributes_are_cut_off(pair: Seq<char>, attributes: Seq<char>)
    requires
        !pair.contains(';'),
    ensures
        cookie_pair(pair + seq![';'] + attributes) == cookie_pair(pair),
{
    let s = pair + seq![';'] + attributes;
    let n = pair.len() as int;
    assert forall|j: int| 0 <= j < n implies s[j] != ';' by {
        assert(s[j] == pair[j]);
    }
    text::lemma_index_where_is(s, text::is_char(';'), n);
    assert forall|j: int| 0 <= j < n implies pair[j] != ';' by {
        assert(pair.contains(pair[j]));
    }
    text::lemma_index_where_is(pair, text::is_char(';'), n);
    assert(s.take(n) =~= pair);
    assert(pair.take(n) =~= pair);
}

/// A minted cookie fits on one header line, so that the proxy can attach it to
/// a request head.
pub proof fn law_a_minted_cookie_is_one_line(answer: Seq<char>)
    ensures
        minted(answer) matches Ok(pair) ==> text::one_line(pair.0 + "="@ + pair.1),
{
    if let Ok(pair) = minted(answer) {
        let k = text::find(answer, text::crlf())->0;
        let headers = answer.skip(k + 2);
        text::lemma_pieces_are_lines(headers);
        lemma_first_cookie_is_one_line(text::split_text(headers, text::crlf()));
    }
}

/// The pair in lines without line breaks has none.
proof fn lemma_first_cookie_is_one_line(lines: Seq<Seq<char>>)
    requires
        forall|i: int| 0 <= i < lines.len() ==> text::one_line(#[trigger] lines[i]),
    ensures
        first_cookie(lines) matches Some(pair) ==> text::one_line(pair.0 + "="@ + pair.1),
    decreases lines.len(),
{
    if lines.len() > 0 {
        let line = lines[0];
        match set_cookie_value(line) {
            Some(value) => {
                if let Some(pair) = cookie_pair(value) {
                    let colon = text::index_where(line, text::is_char(':'));
                    text::lemma_index_where(line, text::is_char(':'));
                    let end = text::index_where(value, text::is_char(';'));
                    text::lemma_index_where(value, text::is_char(';'));
                    let body = value.take(end);
                    let eq = text::index_where(body, text::is_char('='));
                    text::lemma_index_where(body, text::is_char('='));
                    let a = colon + 1;
                    text::lemma_part_is_one_line(line, a, a + eq);
                    text::lemma_part_is_one_line(line, a + eq + 1, a + end);
                    assert(body.take(eq) =~= line.subrange(a, a + eq));
                    assert(body.skip(eq + 1) =~= line.subrange(a + eq + 1, a + end));
                    text::lemma_trimmed_is_one_line(body.take(eq));
                    text::lemma_trimmed_is_one_line(body.skip(eq + 1));
                    reveal_strlit("=");
                    text::lemma_joined_is_one_line("="@, pair.1);
                    lemma_name_and_rest(pair.0, "="@ + pair.1);
                    assert(pair.0 + "="@ + pair.1 =~= pair.0 + ("="@ + pair.1));
                }
            },
            None => {
                let tail = lines.drop_first();
                assert forall|i: int| 0 <= i < tail.len() implies text::one_line(
                    #[trigger] tail[i],
                ) by {
                    assert(tail[i] == lines[i + 1]);
                }
                lemma_first_cookie_is_one_line(tail);
            },
        }
    }
}

/// Two texts without line breaks make none where the second begins with `=`.
proof fn lemma_name_and_rest(name: Seq<char>, rest: Seq<char>)
    requires
        text::one_line(name),
        text::one_line(rest),
        rest.len() > 0,
        rest[0] == '=',
    ensures
        text::one_line(name + rest),
{
    let all = name + rest;
    let n = name.len() as int;
    assert forall|i: int| !#[trigger] text::occurs_at(all, text::crlf(), i) by {
        text::lemma_break_at(all, i);
        if text::occurs_at(all, text::crlf(), i) {
            if i + 1 < n {
                text::lemma_break_at(name, i);
                assert(!text::occurs_at(name, text::crlf(), i));
            } else if i + 1 == n {
                assert(all[i + 1] == rest[0]);
            } else {
                text::lemma_break_at(rest, i - n);
                assert(!text::occurs_at(rest, text::crlf(), i - n));
            }
        }
    }
}

/// A minted cookie reaches the sidecar: whatever head a client sends, and
/// whatever it holds, the head that the proxy forwards reads as the rewritten
/// lines and the blank line that ends it, and the minted pair is one of them.
pub proof fn law_a_minted_cookie_reaches_the_sidecar(
    answer: Seq<char>,
    head: Seq<char>,
    sidecar_port: u16,
    is_upgrade: bool,
)
    requires
        minted(answer) is Ok,
    ensures
        ({
            let pair = minted(answer)->Ok_0.0 + "="@ + minted(answer)->Ok_0.1;
            let authority = cookie_proxy::loopback_authority(sidecar_port);
            let lines = cookie_proxy::rewritten_lines(head, pair, authority, is_upgrade);
            let none = Seq::<char>::empty();
            &&& text::split_text(
                cookie_proxy::rewritten_head(head, pair, authority, is_upgrade),
                text::crlf(),
            ) == lines + seq![none, none]
            &&& lines.contains("Cookie: "@ + pair)
        }),
{
    let pair = minted(answer)->Ok_0.0 + "="@ + minted(answer)->Ok_0.1;
    let authority = cookie_proxy::loopback_authority(sidecar_port);
    law_a_minted_cookie_is_one_line(answer);
    cookie_proxy::lemma_authority_is_unbroken(sidecar_port);
    cookie_proxy::law_the_sidecar_reads_these_lines(head, pair, authority, is_upgrade);
    let lines = cookie_proxy::rewritten_lines(head, pair, authority, is_upgrade);
    let added = cookie_proxy::added_lines(pair, authority, is_upgrade);
    assert(lines[lines.len() - added.len() + 1] == "Cookie: "@ + pair);
}

/// A text has no white space at its ends.
pub open spec fn is_trim(s: Seq<char>) -> bool {
    s.len() > 0 ==> !text::is_white(s[0]) && !text::is_white(s.last())
}

/// A text is white space alone.
pub open spec fn is_blank(s: Seq<char>) -> bool {
    forall|i: int| 0 <= i < s.len() ==> text::is_white(#[trigger] s[i])
}

/// What is put together of texts without `c` is without it.
proof fn lemma_without(a: Seq<char>, b: Seq<char>, c: char)
    requires
        !a.contains(c),
        !b.contains(c),
    ensures
        !(a + b).contains(c),
{
    let s = a + b;
    if s.contains(c) {
        let i = choose|i: int| 0 <= i < s.len() && s[i] == c;
        if i < a.len() {
            assert(a[i] == c);
            assert(a.contains(c));
        } else {
            assert(b[i - a.len()] == c);
            assert(b.contains(c));
        }
    }
}

/// Blanks hold neither of the signs of a cookie.
proof fn lemma_blank_without(s: Seq<char>)
    requires
        is_blank(s),
    ensures
        !s.contains('='),
        !s.contains(';'),
        !s.contains(':'),
{
    assert forall|i: int| 0 <= i < s.len() implies s[i] != '=' && s[i] != ';' && s[i] != ':' by {
        assert(text::is_white(s[i]));
    }
}

/// A cookie is read whole: of `name=value`, with blanks around both and any
/// attributes behind a `;`, the pair is the name and the value as they stand.
/// The name is what stands before the first `=`, the value anything without
/// `;`. Without `=` before the first `;` there is no pair.
pub proof fn law_a_cookie_is_read_whole(
    before: Seq<char>,
    name: Seq<char>,
    between: Seq<char>,
    value: Seq<char>,
    end: Seq<char>,
    attributes: Seq<char>,
    bare: Seq<char>,
)
    requires
        is_blank(before) && is_blank(between) && is_blank(end),
        is_trim(name) && !name.contains('=') && !name.contains(';'),
        is_trim(value) && !value.contains(';'),
        !bare.contains(';'),
    ensures
        cookie_pair(before + name + seq!['='] + between + value + end) == Some((name, value)),
        cookie_pair(before + name + seq!['='] + between + value + end + seq![';'] + attributes)
            == Some((name, value)),
        cookie_pair(bare) is None <==> !bare.contains('='),
        cookie_pair(bare + seq![';'] + attributes) is None <==> !bare.contains('='),
{
    lemma_blank_without(before);
    lemma_blank_without(between);
    lemma_blank_without(end);
    let none = Seq::<char>::empty();
    let left = before + name;
    let right = between + value + end;
    lemma_without(before, name, '=');
    lemma_without(before, name, ';');
    lemma_without(between, value, ';');
    lemma_without(between + value, end, ';');
    assert(!seq!['='].contains(';'));
    lemma_without(left, seq!['='], ';');
    lemma_without(left + seq!['='], right, ';');
    let body = left + seq!['='] + right;
    assert(before + name + seq!['='] + between + value + end =~= body);
    text::law_cutting(body, ';', attributes, body);
    assert(body.take(body.len() as int) =~= body);
    text::law_cutting(left, '=', right, body);
    assert(left =~= before + name + none);
    text::law_trimming(before, name, none);
    text::law_trimming(between, value, end);
    law_attributes_are_cut_off(body, attributes);
    text::law_cutting(bare, ';', attributes, bare);
    assert(bare.take(bare.len() as int) =~= bare);
    text::law_cutting(none, '=', none, bare);
    law_attributes_are_cut_off(bare, attributes);
}

/// A line is a `Set-Cookie` exactly if what stands before its first colon is
/// that name, in any case and with blanks around it; it says what stands behind
/// the colon.
pub proof fn law_set_cookie_lines(
    before: Seq<char>,
    field: Seq<char>,
    end: Seq<char>,
    value: Seq<char>,
    other: Seq<char>,
)
    requires
        is_blank(before) && is_blank(end),
        is_trim(field) && !field.contains(':'),
        !other.contains(':'),
    ensures
        set_cookie_value(other) is None,
        set_cookie_value(before + field + end + seq![':'] + value) == if field.len() == 10
            && cookie_proxy::is_named(field, "set-cookie"@) {
            Some(value)
        } else {
            None
        },
{
    lemma_blank_without(before);
    lemma_blank_without(end);
    let none = Seq::<char>::empty();
    text::law_cutting(none, ':', none, other);
    lemma_without(before, field, ':');
    lemma_without(before + field, end, ':');
    text::law_cutting(before + field + end, ':', value, other);
    text::law_trimming(before, field, end);
    reveal_strlit("set-cookie");
    let name = "set-cookie"@;
    let l = text::lower(field);
    cookie_proxy::law_fields_are_told_by_their_names(field, name);
    text::law_occurrence(l, name, 0);
    if l == name {
        assert(field.len() == 10);
        assert(cookie_proxy::has_field(field, name));
    }
    if field.len() == 10 && cookie_proxy::is_named(field, name) {
        assert(l =~= name);
    }
}

/// The first `Set-Cookie` of a block of headers decides, and no other line has a
/// say; without one there is no cookie.
pub proof fn law_the_first_set_cookie_decides(
    before: Seq<Seq<char>>,
    line: Seq<char>,
    rest: Seq<char>,
)
    requires
        forall|i: int|
            0 <= i < before.len() ==> text::one_line(#[trigger] before[i]) && set_cookie_value(
                before[i],
            ) is None,
        text::one_line(line),
    ensures
        set_cookie_value(line) matches Some(value) ==> header_cookie(
            cookie_proxy::broken(before) + line + seq!['\r', '\n'] + rest,
        ) == cookie_pair(value),
        set_cookie_value(line) matches Some(value) ==> header_cookie(
            cookie_proxy::broken(before) + line,
        ) == cookie_pair(value),
        set_cookie_value(line) is None ==> header_cookie(cookie_proxy::broken(before) + line)
            is None,
{
    assert(text::crlf() =~= seq!['\r', '\n']);
    let tail = line + text::crlf() + rest;
    assert(cookie_proxy::broken(before) + line + seq!['\r', '\n'] + rest
        =~= cookie_proxy::broken(before) + tail);
    cookie_proxy::lemma_split_broken(before, tail);
    text::lemma_split_line(line, rest);
    let behind = text::split_text(rest, text::crlf());
    assert(before + (seq![line] + behind) =~= before + seq![line] + behind);
    lemma_first_cookie_skips(before, line, behind);
    cookie_proxy::lemma_split_broken(before, line);
    cookie_proxy::lemma_line_is_one_piece(line);
    let none = Seq::<Seq<char>>::empty();
    assert(before + seq![line] =~= before + seq![line] + none);
    lemma_first_cookie_skips(before, line, none);
    assert(first_cookie(none) is None);
}

/// Lines that are no `Set-Cookie` are passed over.
proof fn lemma_first_cookie_skips(
    before: Seq<Seq<char>>,
    line: Seq<char>,
    behind: Seq<Seq<char>>,
)
    requires
        forall|i: int| 0 <= i < before.len() ==> set_cookie_value(#[trigger] before[i]) is None,
    ensures
        first_cookie(before + seq![line] + behind) == match set_cookie_value(line) {
            Some(value) => cookie_pair(value),
            None => first_cookie(behind),
        },
    decreases before.len(),
{
    let all = before + seq![line] + behind;
    if before.len() == 0 {
        assert(all[0] == line);
        assert(all.drop_first() =~= behind);
    } else {
        assert(all[0] == before[0]);
        let tail = before.drop_first();
        assert(all.drop_first() =~= tail + seq![line] + behind);
        assert forall|i: int| 0 <= i < tail.len() implies set_cookie_value(
            #[trigger] tail[i],
        ) is None by {
            assert(tail[i] == before[i + 1]);
        }
        lemma_first_cookie_skips(tail, line, behind);
    }
}

/// An answer mints the cookie that its headers set exactly if its status line
/// tells 303; any other answer is refused with its reason.
pub proof fn law_a_303_mints_its_cookie(status: Seq<char>, headers: Seq<char>, other: Seq<char>)
    requires
        text::one_line(status),
        text::one_line(other),
    ensures
        stub::status_code(status) == Some(303int) ==> minted(
            status + seq!['\r', '\n'] + headers,
        ) == match header_cookie(headers) {
            Some(pair) => Ok(pair),
            None => Err("the 303 carried no Set-Cookie"@),
        },
        stub::status_code(status) != Some(303int) ==> minted(
            status + seq!['\r', '\n'] + headers,
        ) == Err::<(Seq<char>, Seq<char>), Seq<char>>(
            "expected a 303, got "@ + if status.len() <= 32 {
                status
            } else {
                status.take(32)
            },
        ),
        minted(other) == Err::<(Seq<char>, Seq<char>), Seq<char>>("malformed response"@),
{
    assert(text::crlf() =~= seq!['\r', '\n']);
    let all = status + text::crlf() + headers;
    let n = status.len() as int;
    text::lemma_break_at(all, n);
    assert forall|j: int| 0 <= j < n implies !text::occurs_at(all, text::crlf(), j) by {
        text::lemma_break_at(all, j);
        text::lemma_break_at(status, j);
        assert(!text::occurs_at(status, text::crlf(), j));
    }
    text::lemma_find_is(all, text::crlf(), n);
    assert(all.take(n) =~= status);
    assert(all.skip(n + 2) =~= headers);
    assert(status.take(status.len() as int) =~= status);
    text::lemma_find_from(other, text::crlf(), 0);
    if let Some(k) = text::find(other, text::crlf()) {
        assert(!text::occurs_at(other, text::crlf(), k));
    }
}

/// The proxy is verified exactly by an answer whose first line tells 200; any
/// other first line is repeated.
pub proof fn law_only_a_200_verifies(answer: Seq<char>)
    ensures
        auth_verdict(answer) is Ok <==> stub::status_code(text::first_line(answer)) == Some(
            200int,
        ),
        stub::status_code(text::first_line(answer)) != Some(200int) ==> auth_verdict(answer)
            == Err::<(), Seq<char>>("unexpected answer: "@ + text::first_line(answer)),
{
}

/// The minting request asks for the path of the ready URL with its query, names
/// the authority that the cookie is signed for, and closes.
pub proof fn law_the_minting_request_mirrors_the_ready_url(
    url: UrlView,
    host: Seq<char>,
    port: u16,
)
    requires
        port == (if url.port is Some {
            url.port->0
        } else {
            80
        }),
    ensures
        url.query is None ==> mint_request_text(url, host) == "GET "@ + url.path
            + " HTTP/1.1\r\nHost: "@ + host + ":"@ + text::decimal(port as nat)
            + "\r\nConnection: close\r\n\r\n"@,
        url.query matches Some(query) ==> mint_request_text(url, host) == "GET "@ + (url.path + "?"@
            + query) + " HTTP/1.1\r\nHost: "@ + host + ":"@ + text::decimal(port as nat)
            + "\r\nConnection: close\r\n\r\n"@,
{
}

/// The handover, step by step: mint; with the minted pair start the proxy in
/// front of the ready URL's port; verify it; send the window to its root; done.
pub proof fn law_the_handover_step_by_step(
    url: UrlView,
    name: String,
    value: String,
    port: u16,
    verified: Result<(), String>,
    error: String,
)
    ensures
        handover(url, HandoverEvent::Begin) is Mint,
        handover(url, HandoverEvent::Minted(Ok((name, value)))) == (HandoverView::StartProxy {
            sidecar_port: if url.port is Some {
                url.port->0
            } else {
                80
            },
            cookie_pair: name@ + "="@ + value@,
        }),
        handover(url, HandoverEvent::ProxyStarted(Ok(port))) == (HandoverView::Verify {
            proxy_port: port,
        }),
        web_url::parsed_url("http://127.0.0.1:"@ + text::decimal(port as nat) + "/"@) matches Ok(
            root,
        ) ==> {
            &&& handover(url, HandoverEvent::Verified(port, verified)) matches HandoverView::Navigate {
                target,
                warning,
            }
            &&& target == root
            &&& warning is None <==> verified is Ok
            &&& verified matches Err(why) ==> warning == Some(
                "[host] auth verification failed; continuing with proxied navigation: "@ + why@,
            )
        },
        handover(url, HandoverEvent::Navigated(Ok(()))) is Done,
        handover(url, HandoverEvent::Minted(Err(error))) == (HandoverView::FallBack {
            url,
            warning: Some("[host] browser-session cookie not minted: "@ + error@),
        }),
        handover(url, HandoverEvent::ProxyStarted(Err(error))) == (HandoverView::FallBack {
            url,
            warning: Some("[host] cookie proxy not started: "@ + error@),
        }),
        handover(url, HandoverEvent::Navigated(Err(error))) == (HandoverView::FallBack {
            url,
            warning: Some("[host] proxied navigation failed: "@ + error@),
        }),
{
}

/// The minted pair, from the bytes of the answer's text on: of a 303 whose first
/// `Set-Cookie` line says `name=value`, with attributes or without, the pair is
/// that name and that value, whatever other lines stand around it.
pub proof fn law_the_minted_pair_is_what_the_answer_sets(
    version: Seq<char>,
    reason: Seq<char>,
    before: Seq<Seq<char>>,
    field: Seq<char>,
    blank: Seq<char>,
    name: Seq<char>,
    value: Seq<char>,
    attributes: Seq<char>,
    rest: Seq<char>,
)
    requires
        version.len() > 0 && 48 <= version[0] as int <= 57 && !version.contains(' '),
        text::unbroken(version) && text::unbroken(reason),
        forall|i: int|
            0 <= i < before.len() ==> text::one_line(#[trigger] before[i]) && set_cookie_value(
                before[i],
            ) is None,
        field.len() == 10 && cookie_proxy::is_named(field, "set-cookie"@),
        is_blank(blank) && text::unbroken(blank),
        is_trim(name) && !name.contains('=') && !name.contains(';') && text::unbroken(name),
        is_trim(value) && !value.contains(';') && text::unbroken(value),
        text::unbroken(attributes),
    ensures
        ({
            let status = "HTTP/"@ + version + seq![' ', '3', '0', '3'] + reason;
            let set = field + seq![':'] + blank + name + seq!['='] + value;
            let front = status + seq!['\r', '\n'] + cookie_proxy::broken(before);
            let end = seq!['\r', '\n'] + rest;
            &&& minted(front + set + end) == Ok::<(Seq<char>, Seq<char>), Seq<char>>((name, value))
            &&& minted(front + (set + seq![';'] + attributes) + end) == Ok::<
                (Seq<char>, Seq<char>),
                Seq<char>,
            >((name, value))
        }),
{
    let none = Seq::<char>::empty();
    let status = "HTTP/"@ + version + seq![' ', '3', '0', '3'] + reason;
    let pair = blank + name + seq!['='] + value;
    let set = field + seq![':'] + blank + name + seq!['='] + value;
    let long = set + seq![';'] + attributes;
    let headers = cookie_proxy::broken(before);
    stub::law_every_status_line_tells_its_code(version, '3', '0', '3', reason);
    assert(stub::status_code(status) == Some(303int));
    assert(text::one_line(status)) by {
        reveal_strlit("HTTP/");
        assert forall|i: int| 0 <= i < status.len() implies #[trigger] status[i] != '\r'
            && status[i] != '\n' by {
            if i < 5 {
                assert(status[i] == "HTTP/"@[i]);
            } else if i < 5 + version.len() {
                assert(status[i] == version[i - 5]);
            } else if i < 9 + version.len() {
                assert(status[i] == seq![' ', '3', '0', '3'][i - 5 - version.len()]);
            } else {
                assert(status[i] == reason[i - 9 - version.len()]);
            }
        }
        text::lemma_unbroken_is_one_line(status);
    }
    lemma_named_field(field);
    law_set_cookie_lines(none, field, none, pair, none);
    assert(set =~= none + field + none + seq![':'] + pair);
    law_set_cookie_lines(none, field, none, pair + seq![';'] + attributes, none);
    assert(long =~= none + field + none + seq![':'] + (pair + seq![';'] + attributes));
    law_a_cookie_is_read_whole(blank, name, none, value, none, attributes, none);
    assert(blank + name + seq!['='] + none + value + none =~= pair);
    assert(text::unbroken(set)) by {
        assert forall|i: int| 0 <= i < set.len() implies #[trigger] set[i] != '\r' && set[i]
            != '\n' by {
            let n = field.len() as int;
            let m = n + 1 + blank.len();
            let k = m + name.len();
            if i < n {
                assert(set[i] == field[i]);
            } else if n < i < m {
                assert(set[i] == blank[i - n - 1]);
            } else if m <= i < k {
                assert(set[i] == name[i - m]);
            } else if k < i {
                assert(set[i] == value[i - k - 1]);
            }
        }
    }
    assert(text::unbroken(long)) by {
        assert forall|i: int| 0 <= i < long.len() implies #[trigger] long[i] != '\r' && long[i]
            != '\n' by {
            if i < set.len() {
                assert(long[i] == set[i]);
            } else if i > set.len() {
                assert(long[i] == attributes[i - set.len() - 1]);
            }
        }
    }
    text::lemma_unbroken_is_one_line(set);
    text::lemma_unbroken_is_one_line(long);
    law_the_first_set_cookie_decides(before, set, rest);
    law_the_first_set_cookie_decides(before, long, rest);
    let crlf = seq!['\r', '\n'];
    law_a_303_mints_its_cookie(status, headers + set + crlf + rest, none);
    law_a_303_mints_its_cookie(status, headers + long + crlf + rest, none);
    assert(status + crlf + headers + set + (crlf + rest) =~= status + crlf + (headers + set + crlf
        + rest));
    assert(status + crlf + headers + long + (crlf + rest) =~= status + crlf + (headers + long + crlf
        + rest));
}

/// A text named like the field has no white space at its ends, no colon, and no
/// line break.
proof fn lemma_named_field(field: Seq<char>)
    requires
        field.len() == 10 && cookie_proxy::is_named(field, "set-cookie"@),
    ensures
        is_trim(field),
        !field.contains(':'),
        text::unbroken(field),
{
    reveal_strlit("set-cookie");
    assert forall|i: int| 0 <= i < field.len() implies field[i] != ':' && field[i] != '\r'
        && field[i] != '\n' && !text::is_white(#[trigger] field[i]) by {
        assert(cookie_proxy::is_letter_of(field[i], "set-cookie"@[i]));
    }
    assert(!text::is_white(field[0]));
    assert(!text::is_white(field[9]));
}

/// Every ready URL with a host is minted for, at that host and at its port, or
/// at 80; one without is not.
pub proof fn law_every_ready_url_with_a_host_is_minted_for(url: UrlView, port: u16)
    requires
        port == (if url.port is Some {
            url.port->0
        } else {
            80
        }),
    ensures
        url.host matches Some(host) && host.text.len() > 0 ==> mint_parts(url) == Some(
            (url.host->0.text, port, mint_request_text(url, url.host->0.text)),
        ),
        url.host is None || url.host->0.text.len() == 0 ==> mint_parts(url) is None,
{
}

} // verus!
