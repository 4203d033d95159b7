//! The connect form: which addresses it accepts, what it remembers, and what a
//! launch reads back.
use vstd::prelude::*;
use vstd::string::StringExecFns;

use crate::launch;
use crate::paths;
use crate::paths::{PathBase, PathPlan};
use crate::text;
use crate::web_url;
use crate::web_url::{HostKind, Url, UrlView};

verus! {

/// The version of the record that holds the remembered server.
pub const STORE_VERSION: u32 = 1;

/// One remembered server. The version tells a record of another shape apart.
#[derive(Debug, Clone, PartialEq, Eq)]
pub struct RememberedServer {
    pub version: u32,
    pub url: String,
}

/// How reading the store went.
#[derive(Debug, Clone, PartialEq, Eq)]
pub enum StoreRead {
    /// There is no file, or no place where it could be.
    Missing,
    /// The file cannot be read; the text is the system's.
    Unreadable(String),
    /// The file holds no record; the text says why.
    Corrupt(String),
    /// The file holds this record.
    Entry(RememberedServer),
}

/// What a connect does to the store.
#[derive(Debug, Clone, PartialEq, Eq)]
pub enum StoreAction {
    /// Write this record.
    Save(RememberedServer),
    /// Remove the record.
    Clear,
}

/// A connect that goes ahead.
#[derive(Debug, Clone, PartialEq, Eq)]
pub struct ConnectPlan {
    /// The address to watch and to navigate to.
    pub url: Url,
    /// What to do to the store first.
    pub store: StoreAction,
    /// Whether the server has to trust a host that is not loopback.
    pub non_loopback: bool,
}

/// How removing the record's file went.
#[derive(Debug, Clone, PartialEq, Eq)]
pub enum RemoveOutcome {
    Removed,
    NotFound,
    Failed(String),
}

/// The verdict on a typed address once it is parsed.
pub open spec fn typed_verdict(parsed: Result<UrlView, Seq<char>>) -> Result<UrlView, Seq<char>> {
    match parsed {
        Ok(url) => if !web_url::is_web_scheme(url.scheme) {
            Err(
                "unsupported scheme "@ + text::debug_text(url.scheme)
                    + ": only http/https are allowed"@,
            )
        } else if url.host is None {
            Err("URL has no host"@)
        } else {
            Ok(url)
        },
        Err(error) => Err("invalid URL: "@ + error),
    }
}

/// The verdict on a typed address.
pub open spec fn validated(input: Seq<char>) -> Result<UrlView, Seq<char>> {
    if text::trim(input).len() == 0 {
        Err("URL is empty"@)
    } else {
        typed_verdict(web_url::parsed_url(text::trim(input)))
    }
}

/// The address that a read of the store gives back: that of a record of the
/// known version, in its normal form, if it is still valid.
pub open spec fn remembered(read: StoreRead) -> Option<Seq<char>> {
    match read {
        StoreRead::Entry(entry) => if entry.version == STORE_VERSION {
            match validated(entry.url@) {
                Ok(url) => Some(url.text),
                Err(_) => None,
            }
        } else {
            None
        },
        _ => None,
    }
}

/// A URL names the loopback host.
pub open spec fn is_loopback(url: UrlView) -> bool {
    match url.host {
        Some(host) => match host.kind {
            HostKind::Domain => host.text == "localhost"@,
            HostKind::Ipv4(octets) => octets@[0] == 127,
            HostKind::Ipv6(segments) => segments@ == seq![0u16, 0, 0, 0, 0, 0, 0, 1],
        },
        None => false,
    }
}

/// The normal form of a URL is its own normal form: its text parses to a web
/// URL with that text.
pub open spec fn settled(url: UrlView) -> bool {
    &&& typed_verdict(web_url::parsed_url(url.text)) matches Ok(again)
    &&& again.text == url.text
}

/// The message where there is no place for the store.
pub open spec fn no_store() -> Seq<char> {
    "no home directory: cannot locate the remember store"@
}

/// Where the file of the remembered server lies, if anywhere.
pub open spec fn store_parts<P>(dsh_home: Option<P>, user_home: Option<P>) -> Option<
    (PathBase<P>, Seq<Seq<char>>),
> {
    match paths::home_parts(dsh_home, user_home) {
        Some((base, tail)) => Some((base, tail.push("desktop"@).push("attach-server.json"@))),
        None => None,
    }
}

/// The file of the remembered server: `desktop/attach-server.json` in the data
/// home, outside what the sidecar stores. There is none where there is no home
/// at all.
pub fn remembered_server_file<P>(dsh_home: Option<P>, user_home: Option<P>) -> (r: Option<
    PathPlan<P>,
>)
    ensures
        match dsh_home {
            Some(home) => r is Some && r->0.is(
                PathBase::Given(home),
                seq!["desktop"@, "attach-server.json"@],
            ),
            None => match user_home {
                Some(home) => r is Some && r->0.is(
                    PathBase::Given(home),
                    seq![".dsh"@, "desktop"@, "attach-server.json"@],
                ),
                None => r is None,
            },
        },
        paths::parts_view(r) == store_parts(dsh_home, user_home),
{
    match paths::data_home(dsh_home, user_home) {
        Some(home) => {
            let r = home.join("desktop").join("attach-server.json");
            assert(Seq::<Seq<char>>::empty().push("desktop"@).push("attach-server.json"@) =~= seq![
                "desktop"@,
                "attach-server.json"@,
            ]);
            assert(seq![".dsh"@].push("desktop"@).push("attach-server.json"@) =~= seq![
                ".dsh"@,
                "desktop"@,
                "attach-server.json"@,
            ]);
            Some(r)
        },
        None => None,
    }
}

/// Accepts a parsed address, or says why not.
pub fn accept_typed_url(parsed: Result<Url, String>) -> (r: Result<Url, String>)
    ensures
        web_url::parse_view(r) == typed_verdict(web_url::parse_view(parsed)),
        r matches Ok(url) ==> parsed == Ok::<Url, String>(url),
{
    match parsed {
        Ok(url) => {
            if !url.is_web() {
                let mut message = "unsupported scheme ".to_string();
                message.append(text::quoted(url.scheme.as_str()).as_str());
                message.append(": only http/https are allowed");
                return Err(message);
            }
            if url.host.is_none() {
                return Err("URL has no host".to_string());
            }
            Ok(url)
        },
        Err(error) => {
            let mut message = "invalid URL: ".to_string();
            message.append(error.as_str());
            Err(message)
        },
    }
}

/// Validates a typed attach URL: `http` or `https`, with a host. It accepts
/// what the launch accepts of the same trimmed text.
pub fn validate_attach_url(input: &str) -> (r: Result<Url, String>)
    ensures
        web_url::parse_view(r) == validated(input@),
        r matches Ok(url) ==> web_url::well_parsed(url@),
        r is Ok <==> text::trim(input@).len() > 0 && launch::attach_verdict(
            web_url::parsed_url(text::trim(input@)),
        ) is Ok,
{
    let chars = text::chars_of(input);
    let inner = text::trimmed(chars.as_slice());
    if inner.len() == 0 {
        return Err("URL is empty".to_string());
    }
    accept_typed_url(Url::parse(text::string_of(inner).as_str()))
}

/// Whether a URL names the loopback host, where the server needs no
/// `--trusted-host`.
pub fn is_loopback_url(url: &Url) -> (r: bool)
    ensures
        r == is_loopback(url@),
{
    match &url.host {
        Some(host) => match host.kind {
            HostKind::Domain => text::same_text(host.text.as_str(), "localhost"),
            HostKind::Ipv4(octets) => octets[0] == 127,
            HostKind::Ipv6(segments) => {
                let r = segments[0] == 0 && segments[1] == 0 && segments[2] == 0 && segments[3] == 0
                    && segments[4] == 0 && segments[5] == 0 && segments[6] == 0 && segments[7] == 1;
                assert(r ==> segments@ =~= seq![0u16, 0, 0, 0, 0, 0, 0, 1]);
                r
            },
        },
        None => false,
    }
}

/// The remembered address for an automatic connect. Whatever is wrong with the
/// store, the answer is that nothing is remembered.
pub fn read_remembered_url(read: StoreRead) -> (r: Option<String>)
    ensures
        text::text_view(r) == remembered(read),
{
    match read {
        StoreRead::Entry(entry) => if entry.version == STORE_VERSION {
            match validate_attach_url(entry.url.as_str()) {
                Ok(url) => Some(url.text),
                Err(_) => None,
            }
        } else {
            None
        },
        StoreRead::Missing => None,
        StoreRead::Unreadable(_) => None,
        StoreRead::Corrupt(_) => None,
    }
}

/// Why the store gives nothing back, where it holds something.
pub open spec fn read_warning(read: StoreRead, path: Seq<char>) -> Option<Seq<char>> {
    match read {
        StoreRead::Missing => None,
        StoreRead::Unreadable(error) => Some("[splash] cannot read "@ + path + ": "@ + error@),
        StoreRead::Corrupt(error) => Some(
            "[splash] corrupt remembered-server file "@ + path + ": "@ + error@,
        ),
        StoreRead::Entry(entry) => if entry.version == STORE_VERSION {
            match validated(entry.url@) {
                Ok(_) => None,
                Err(error) => Some("[splash] remembered URL no longer valid: "@ + error),
            }
        } else {
            Some(
                "[splash] ignoring remembered server with unknown version "@ + text::decimal(
                    entry.version as nat,
                ),
            )
        },
    }
}

/// What is logged of a read of the store at `path`: why nothing is remembered,
/// unless there was nothing to read.
pub fn remembered_warning(read: &StoreRead, path: &str) -> (r: Option<String>)
    ensures
        text::text_view(r) == read_warning(*read, path@),
{
    match read {
        StoreRead::Missing => None,
        StoreRead::Unreadable(error) => {
            let mut out = "[splash] cannot read ".to_string();
            out.append(path);
            out.append(": ");
            out.append(error.as_str());
            Some(out)
        },
        StoreRead::Corrupt(error) => {
            let mut out = "[splash] corrupt remembered-server file ".to_string();
            out.append(path);
            out.append(": ");
            out.append(error.as_str());
            Some(out)
        },
        StoreRead::Entry(entry) => if entry.version == STORE_VERSION {
            match validate_attach_url(entry.url.as_str()) {
                Ok(_) => None,
                Err(error) => {
                    let mut out = "[splash] remembered URL no longer valid: ".to_string();
                    out.append(error.as_str());
                    Some(out)
                },
            }
        } else {
            let mut out = "[splash] ignoring remembered server with unknown version ".to_string();
            out.append(text::decimal_text(entry.version as u64).as_str());
            Some(out)
        },
    }
}

/// What the connect form is filled with: the remembered address, if there is
/// one.
pub fn splash_get_remembered(read: StoreRead) -> (r: Option<String>)
    ensures
        text::text_view(r) == remembered(read),
{
    read_remembered_url(read)
}

/// The record that remembers an address.
pub fn record_for(url: &str) -> (r: RememberedServer)
    ensures
        r.version == STORE_VERSION,
        r.url@ == url@,
{
    RememberedServer { version: STORE_VERSION, url: url.to_string() }
}

/// What a connect is judged to: the URL, and the text to remember, if any.
pub open spec fn connect_verdict(input: Seq<char>, remember: bool, store_found: bool) -> Result<
    (UrlView, Option<Seq<char>>),
    Seq<char>,
> {
    match validated(input) {
        Ok(url) => if !store_found {
            Err(no_store())
        } else if remember {
            Ok((url, Some(url.text)))
        } else {
            Ok((url, None))
        },
        Err(reason) => Err(reason),
    }
}

/// The view of a judged connect.
pub open spec fn connect_view(r: Result<ConnectPlan, String>) -> Result<
    (UrlView, Option<Seq<char>>),
    Seq<char>,
> {
    match r {
        Ok(plan) => Ok(
            (
                plan.url@,
                match plan.store {
                    StoreAction::Save(entry) => Some(entry.url@),
                    StoreAction::Clear => None,
                },
            ),
        ),
        Err(error) => Err(error@),
    }
}

/// Judges what the form sent. `store_found` says whether there is a place for
/// the store.
///
/// The checkbox is the whole truth after a connect: checked, the store holds
/// the address, and a later read gives it back if it is its own normal form;
/// unchecked, the store holds nothing.
pub fn splash_connect(input: &str, remember: bool, store_found: bool) -> (r: Result<
    ConnectPlan,
    String,
>)
    ensures
        match r {
            Ok(plan) => {
                &&& store_found
                &&& validated(input@) == Ok::<UrlView, Seq<char>>(plan.url@)
                &&& plan.non_loopback == !is_loopback(plan.url@)
                &&& match plan.store {
                    StoreAction::Save(entry) => {
                        &&& remember
                        &&& entry.version == STORE_VERSION
                        &&& entry.url@ == plan.url@.text
                        &&& remembered(StoreRead::Entry(entry)) == Some(plan.url@.text)
                            <==> settled(plan.url@)
                    },
                    StoreAction::Clear => !remember,
                }
            },
            Err(error) => match validated(input@) {
                Err(reason) => error@ == reason,
                Ok(_) => !store_found && error@ == no_store(),
            },
        },
        connect_view(r) == connect_verdict(input@, remember, store_found),
{
    let url = match validate_attach_url(input) {
        Ok(url) => url,
        Err(error) => {
            return Err(error);
        },
    };
    if !store_found {
        return Err("no home directory: cannot locate the remember store".to_string());
    }
    let non_loopback = !is_loopback_url(&url);
    let store = if remember {
        let entry = record_for(url.as_str());
        proof {
            law_a_saved_url_is_read_back(url@, entry);
        }
        StoreAction::Save(entry)
    } else {
        StoreAction::Clear
    };
    Ok(ConnectPlan { url, store, non_loopback })
}

/// Whether forgetting the server can go ahead.
pub fn splash_forget(store_found: bool) -> (r: Result<(), String>)
    ensures
        match r {
            Ok(_) => store_found,
            Err(error) => !store_found && error@ == no_store(),
        },
{
    if store_found {
        Ok(())
    } else {
        Err("no home directory: cannot locate the remember store".to_string())
    }
}

/// What clearing the store came to: a missing file is already cleared.
pub fn clear_remembered(outcome: RemoveOutcome, path: &str) -> (r: Result<(), String>)
    ensures
        match outcome {
            RemoveOutcome::Failed(error) => r is Err && r->Err_0@ == "cannot remove "@ + path@
                + ": "@ + error@,
            _ => r is Ok,
        },
{
    match outcome {
        RemoveOutcome::Removed => Ok(()),
        RemoveOutcome::NotFound => Ok(()),
        RemoveOutcome::Failed(error) => {
            let mut message = "cannot remove ".to_string();
            message.append(path);
            message.append(": ");
            message.append(error.as_str());
            Err(message)
        },
    }
}

// ── laws ───────────────────────────────────────────────────────────────────

/// Nothing is trimmed from a text without white space.
proof fn lemma_trim_of_solid_text(s: Seq<char>)
    requires
        forall|i: int| 0 <= i < s.len() ==> !text::is_white(#[trigger] s[i]),
    ensures
        text::trim(s) == s,
{
    if s.len() > 0 {
        assert(!text::is_white(s[0]));
        assert(!text::is_white(s[s.len() - 1]));
    }
}

/// The store gives back what a connect wrote: a record of a validated URL's
/// text is read back as that text exactly where that text is its own normal
/// form, so wherever parsing it gives the URL again.
pub proof fn law_a_saved_url_is_read_back(url: UrlView, entry: RememberedServer)
    requires
        web_url::is_web_scheme(url.scheme),
        web_url::well_parsed(url),
        entry.version == STORE_VERSION,
        entry.url@ == url.text,
    ensures
        remembered(StoreRead::Entry(entry)) == Some(url.text) <==> settled(url),
        web_url::parsed_url(url.text) == Ok::<UrlView, Seq<char>>(url) ==> settled(url),
{
    lemma_trim_of_solid_text(url.text);
}

/// A store that holds something and gives nothing back is warned of, and nothing
/// else is.
pub proof fn law_a_broken_store_is_warned_of(read: StoreRead, path: Seq<char>)
    ensures
        read_warning(read, path) is Some <==> remembered(read) is None && !(read is Missing),
{
}

/// What a read of the store gives back is valid, and is the normal form of what
/// the record holds.
pub proof fn law_only_valid_urls_are_read_back(entry: RememberedServer)
    ensures
        remembered(StoreRead::Entry(entry)) matches Some(url) ==> {
            &&& entry.version == STORE_VERSION
            &&& validated(entry.url@) matches Ok(parsed)
            &&& parsed.text == url
            &&& web_url::is_web_scheme(parsed.scheme)
            &&& parsed.host is Some
        },
{
}

/// A typed address is taken exactly if, without the white space around it, it
/// parses as an `http` or `https` URL with a host, and is then what it parses
/// to. Any other is refused with its reason.
pub proof fn law_every_web_address_is_taken(
    before: Seq<char>,
    address: Seq<char>,
    after: Seq<char>,
)
    requires
        forall|i: int| 0 <= i < before.len() ==> text::is_white(#[trigger] before[i]),
        forall|i: int| 0 <= i < after.len() ==> text::is_white(#[trigger] after[i]),
        address.len() > 0 && !text::is_white(address[0]) && !text::is_white(address.last()),
    ensures
        validated(before + after) == Err::<UrlView, Seq<char>>("URL is empty"@),
        web_url::parsed_url(address) matches Ok(url) ==> {
            let verdict = validated(before + address + after);
            let web = url.scheme == "http"@ || url.scheme == "https"@;
            &&& web && url.host is Some ==> verdict == Ok::<UrlView, Seq<char>>(url)
            &&& web && url.host is None ==> verdict == Err::<UrlView, Seq<char>>(
                "URL has no host"@,
            )
            &&& !web ==> verdict == Err::<UrlView, Seq<char>>(
                "unsupported scheme "@ + text::debug_text(url.scheme)
                    + ": only http/https are allowed"@,
            )
        },
        web_url::parsed_url(address) matches Err(error) ==> validated(before + address + after)
            == Err::<UrlView, Seq<char>>("invalid URL: "@ + error),
{
    text::law_trimming(before, address, after);
    let none = Seq::<char>::empty();
    text::law_trimming(before, none, after);
    assert(before + none + after =~= before + after);
}

/// The loopback host is `localhost`, every IPv4 address that begins with 127,
/// and the IPv6 address `::1`; no other host is, and neither is none.
pub proof fn law_loopback_hosts(url: UrlView)
    ensures
        url.host is None ==> !is_loopback(url),
        url.host matches Some(host) ==> {
            &&& host.kind is Domain ==> (is_loopback(url) <==> host.text == "localhost"@)
            &&& host.kind matches HostKind::Ipv4(octets) ==> (is_loopback(url) <==> octets@[0]
                == 127)
            &&& host.kind matches HostKind::Ipv6(segments) ==> (is_loopback(url) <==> segments@[7]
                == 1 && forall|i: int| 0 <= i < 7 ==> #[trigger] segments@[i] == 0)
        },
{
    if let Some(host) = url.host {
        if let HostKind::Ipv6(segments) = host.kind {
            let one = seq![0u16, 0, 0, 0, 0, 0, 0, 1];
            if segments@[7] == 1 && forall|i: int| 0 <= i < 7 ==> #[trigger] segments@[i] == 0 {
                assert forall|i: int| 0 <= i < 8 implies segments@[i] == one[i] by {}
                assert(segments@ =~= one);
            }
            if segments@ == one {
                assert forall|i: int| 0 <= i < 7 implies #[trigger] segments@[i] == 0 by {
                    assert(one[i] == 0);
                }
            }
        }
    }
}

/// A record of version one with a valid address gives that address back in its
/// normal form; every other read gives nothing, and says why unless there is no
/// record.
pub proof fn law_every_valid_record_is_read_back(
    entry: RememberedServer,
    error: String,
    path: Seq<char>,
)
    ensures
        entry.version == 1 ==> match validated(entry.url@) {
            Ok(url) => {
                &&& remembered(StoreRead::Entry(entry)) == Some(url.text)
                &&& read_warning(StoreRead::Entry(entry), path) is None
            },
            Err(reason) => {
                &&& remembered(StoreRead::Entry(entry)) is None
                &&& read_warning(StoreRead::Entry(entry), path) == Some(
                    "[splash] remembered URL no longer valid: "@ + reason,
                )
            },
        },
        entry.version != 1 ==> {
            &&& remembered(StoreRead::Entry(entry)) is None
            &&& read_warning(StoreRead::Entry(entry), path) == Some(
                "[splash] ignoring remembered server with unknown version "@ + text::decimal(
                    entry.version as nat,
                ),
            )
        },
        remembered(StoreRead::Missing) is None,
        read_warning(StoreRead::Missing, path) is None,
        remembered(StoreRead::Unreadable(error)) is None,
        read_warning(StoreRead::Unreadable(error), path) == Some(
            "[splash] cannot read "@ + path + ": "@ + error@,
        ),
        remembered(StoreRead::Corrupt(error)) is None,
        read_warning(StoreRead::Corrupt(error), path) == Some(
            "[splash] corrupt remembered-server file "@ + path + ": "@ + error@,
        ),
        no_store() == "no home directory: cannot locate the remember store"@,
{
}

/// The file of the remembered server lies in the data home, outside what the
/// sidecar stores, exactly where there is a data home.
pub proof fn law_the_store_lies_in_the_data_home<P>(dsh_home: Option<P>, user_home: Option<P>)
    ensures
        store_parts(dsh_home, user_home) is None <==> paths::home_parts(dsh_home, user_home)
            is None,
        paths::home_parts(dsh_home, user_home) matches Some((base, tail)) ==> store_parts(
            dsh_home,
            user_home,
        ) == Some((base, tail + seq!["desktop"@, "attach-server.json"@])),
{
    if let Some((base, tail)) = paths::home_parts(dsh_home, user_home) {
        assert(tail.push("desktop"@).push("attach-server.json"@) =~= tail + seq![
            "desktop"@,
            "attach-server.json"@,
        ]);
    }
}

/// A connect goes ahead exactly if the address is valid and there is a place for
/// the store; the checkbox alone decides whether the address is remembered, and
/// has no say in where the window goes. A bad address is told before a missing
/// store.
pub proof fn law_the_checkbox_decides_what_is_remembered(input: Seq<char>, remember: bool)
    ensures
        validated(input) matches Ok(url) ==> {
            &&& connect_verdict(input, true, true) == Ok::<
                (UrlView, Option<Seq<char>>),
                Seq<char>,
            >((url, Some(url.text)))
            &&& connect_verdict(input, false, true) == Ok::<
                (UrlView, Option<Seq<char>>),
                Seq<char>,
            >((url, None))
            &&& connect_verdict(input, remember, false) == Err::<
                (UrlView, Option<Seq<char>>),
                Seq<char>,
            >("no home directory: cannot locate the remember store"@)
        },
        validated(input) matches Err(reason) ==> {
            &&& connect_verdict(input, remember, true) == Err::<
                (UrlView, Option<Seq<char>>),
                Seq<char>,
            >(reason)
            &&& connect_verdict(input, remember, false) == Err::<
                (UrlView, Option<Seq<char>>),
                Seq<char>,
            >(reason)
        },
{
}

} // verus!
