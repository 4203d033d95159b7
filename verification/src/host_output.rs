//! What the sidecar prints: the lines that are logged, and the one that says
//! where it listens.
//!
//! The launch token in a ready line is a bearer secret. It is redacted in
//! everything that reaches the log; the whole URL serves navigation alone.
use vstd::prelude::*;
use vstd::slice::slice_subrange;
use vstd::string::StringExecFns;

use crate::launch;
use crate::text;
use crate::web_url;
use crate::web_url::{Url, UrlView};

verus! {

// ── redaction ──────────────────────────────────────────────────────────────

/// A character that ends the value of a token.
pub open spec fn ends_value(c: char) -> bool {
    c == '&' || text::is_white(c)
}

/// The predicate "ends the value of a token".
pub open spec fn ends_value_fn() -> spec_fn(char) -> bool {
    |c: char| ends_value(c)
}

/// Where the value at the start of a text ends.
pub open spec fn value_end(s: Seq<char>) -> int {
    text::index_where(s, ends_value_fn())
}

/// The parts of a line that are no token's value: each but the last ends with
/// `token=`.
pub open spec fn kept_parts(line: Seq<char>) -> Seq<Seq<char>>
    decreases line.len(),
{
    match text::find(line, "token="@) {
        Some(k) => {
            let rest = line.skip(k + "token="@.len());
            if 0 <= value_end(rest) <= rest.len() < line.len() {
                seq![line.take(k + "token="@.len())] + kept_parts(rest.skip(value_end(rest)))
            } else {
                seq![line]
            }
        },
        None => seq![line],
    }
}

/// Parts with a separator between them.
pub open spec fn joined(parts: Seq<Seq<char>>, separator: Seq<char>) -> Seq<char>
    decreases parts.len(),
{
    if parts.len() == 0 {
        Seq::empty()
    } else if parts.len() == 1 {
        parts[0]
    } else {
        parts[0] + separator + joined(parts.drop_first(), separator)
    }
}

/// A line with the value of every token replaced by `[redacted]`.
pub open spec fn redacted(line: Seq<char>) -> Seq<char> {
    joined(kept_parts(line), "[redacted]"@)
}

/// Where the value at the start of a text ends.
fn find_value_end(s: &[char]) -> (r: usize)
    ensures
        r == value_end(s@),
        r <= s.len(),
{
    let mut i: usize = 0;
    while i < s.len() && s[i] != '&' && !text::is_whitespace(s[i])
        invariant
            i <= s.len(),
            forall|j: int| 0 <= j < i ==> !ends_value(s@[j]),
        decreases s.len() - i,
    {
        i += 1;
    }
    proof {
        text::lemma_index_where_is(s@, ends_value_fn(), i as int);
    }
    i
}

/// One step of redaction: the first token's value gives way to `[redacted]`,
/// and the rest of the line is redacted on its own.
proof fn lemma_redacted_unfolds(line: Seq<char>)
    ensures
        kept_parts(line).len() > 0,
        match text::find(line, "token="@) {
            Some(k) => {
                let rest = line.skip(k + 6);
                &&& 0 <= k && k + 6 <= line.len()
                &&& text::occurs_at(line, "token="@, k)
                &&& 0 <= value_end(rest) <= rest.len()
                &&& kept_parts(line) == seq![line.take(k + 6)] + kept_parts(
                    rest.skip(value_end(rest)),
                )
                &&& redacted(line) == line.take(k + 6) + "[redacted]"@ + redacted(
                    rest.skip(value_end(rest)),
                )
            },
            None => kept_parts(line) == seq![line] && redacted(line) == line,
        },
    decreases line.len(),
{
    reveal_strlit("token=");
    text::lemma_find_from(line, "token="@, 0);
    match text::find(line, "token="@) {
        Some(k) => {
            let rest = line.skip(k + 6);
            text::lemma_index_where(rest, ends_value_fn());
            let after = rest.skip(value_end(rest));
            lemma_redacted_unfolds(after);
            let parts = kept_parts(line);
            assert(parts.drop_first() =~= kept_parts(after));
        },
        None => {},
    }
}

/// Replaces the value of every `token=<value>` in a line by `[redacted]`; a
/// value runs to the next `&`, white space, or the end.
pub fn redact_token(line: &str) -> (r: String)
    ensures
        r@ == redacted(line@),
{
    let chars = text::chars_of(line);
    let marker = text::chars_of("token=");
    let n = chars.len();
    let mut out = String::new();
    let mut i: usize = 0;
    proof {
        reveal_strlit("token=");
        assert(chars@.skip(0) =~= chars@);
    }
    loop
        invariant
            i <= n,
            n == chars.len(),
            chars@ == line@,
            marker@ == "token="@,
            marker.len() == 6,
            out@ + redacted(chars@.skip(i as int)) == redacted(line@),
        decreases n - i,
    {
        let rest = slice_subrange(chars.as_slice(), i, n);
        assert(rest@ =~= chars@.skip(i as int));
        proof {
            lemma_redacted_unfolds(rest@);
        }
        match text::find_text(rest, marker.as_slice()) {
            Some(k) => {
                let kept = slice_subrange(rest, 0, k + 6);
                let ghost before = out@;
                out.append(text::string_of(kept).as_str());
                out.append("[redacted]");
                let value = slice_subrange(rest, k + 6, rest.len());
                let end = find_value_end(value);
                assert(kept@ =~= rest@.take(k + 6));
                assert(value@ =~= rest@.skip(k + 6));
                assert(value@.skip(end as int) =~= chars@.skip(i + k + 6 + end));
                assert(before + (kept@ + "[redacted]"@ + redacted(value@.skip(end as int))) =~= out@
                    + redacted(value@.skip(end as int)));
                i = i + k + 6 + end;
            },
            None => {
                out.append(text::string_of(rest).as_str());
                return out;
            },
        }
    }
}

/// A line of the sidecar as it is logged.
pub open spec fn logged(line: Seq<char>) -> Seq<char> {
    "[host] "@ + redacted(line)
}

/// A line of the sidecar as it is logged: with its tokens redacted.
pub fn log_redacted(line: &str) -> (r: String)
    ensures
        r@ == logged(line@),
{
    let mut out = "[host] ".to_string();
    out.append(redact_token(line).as_str());
    out
}

// ── the ready line ─────────────────────────────────────────────────────────

/// A character that ends the authority of a URL.
pub open spec fn ends_authority(c: char) -> bool {
    c == '/' || c == '\\' || c == '?' || c == '#'
}

/// The predicate "ends the authority of a URL".
pub open spec fn ends_authority_fn() -> spec_fn(char) -> bool {
    |c: char| ends_authority(c)
}

/// What follows `http://127.0.0.1:` names a port of that host: it begins with a
/// digit, and no `@` in the authority makes another host of it.
pub open spec fn names_port(token: Seq<char>) -> bool {
    let authority = token.take(text::index_where(token, ends_authority_fn()));
    token.len() > 0 && text::is_digit(token[0]) && !authority.contains('@')
}

/// The URL in a ready line: what follows `dsh web: ` up to the next white
/// space, if it is `http://127.0.0.1:` and a port of that host.
pub open spec fn ready_url(line: Seq<char>) -> Option<Seq<char>> {
    let prefix = "dsh web: http://127.0.0.1:"@;
    let trimmed = text::trim(line);
    match text::find(trimmed, prefix) {
        Some(k) => {
            let rest = trimmed.skip(k + prefix.len());
            let token = rest.take(text::index_where(rest, text::is_white_fn()));
            if names_port(token) {
                Some("http://127.0.0.1:"@ + token)
            } else {
                None
            }
        },
        None => None,
    }
}

/// `names_port`, executed.
fn is_port_of_host(token: &[char]) -> (r: bool)
    ensures
        r == names_port(token@),
{
    if token.len() == 0 || !text::is_ascii_digit(token[0]) {
        return false;
    }
    let mut i: usize = 0;
    while i < token.len() && token[i] != '/' && token[i] != '\\' && token[i] != '?' && token[i] != '#'
        invariant
            i <= token.len(),
            forall|j: int| 0 <= j < i ==> !ends_authority(token@[j]),
        decreases token.len() - i,
    {
        i += 1;
    }
    proof {
        text::lemma_index_where_is(token@, ends_authority_fn(), i as int);
    }
    let authority = slice_subrange(token, 0, i);
    assert(authority@ =~= token@.take(i as int));
    let at = text::find_char(authority, '@');
    proof {
        text::lemma_index_where(authority@, text::is_char('@'));
        if at == authority.len() {
            let f = text::is_char('@');
            assert forall|j: int| 0 <= j < authority@.len() implies authority@[j] != '@' by {
                assert(!f(authority@[j]));
            }
        } else {
            assert(authority@[at as int] == '@');
        }
    }
    at == authority.len()
}

/// The loopback URL in a ready line, with its query and so with its token.
pub fn parse_url_line(line: &str) -> (r: Option<String>)
    ensures
        text::text_view(r) == ready_url(line@),
{
    let chars = text::chars_of(line);
    let trimmed = text::trimmed(chars.as_slice());
    let prefix = text::chars_of("dsh web: http://127.0.0.1:");
    let n = trimmed.len();
    match text::find_text(trimmed, prefix.as_slice()) {
        Some(k) => {
            let rest = slice_subrange(trimmed, k + prefix.len(), n);
            assert(rest@ =~= trimmed@.skip(k + prefix@.len()));
            let end = text::find_white(rest);
            let token = slice_subrange(rest, 0, end);
            assert(token@ =~= rest@.take(end as int));
            if !is_port_of_host(token) {
                return None;
            }
            let mut url = "http://127.0.0.1:".to_string();
            url.append(text::string_of(token).as_str());
            Some(url)
        },
        None => None,
    }
}

/// What a line of the sidecar amounts to.
#[derive(Debug, Clone, PartialEq, Eq)]
pub struct HostLine {
    /// What is logged of it.
    pub log: String,
    /// Where it is a ready line, what parsing its URL gave.
    pub ready: Option<Result<Url, String>>,
}

/// Reads a line that the sidecar printed.
pub fn read_host_line(line: &str) -> (r: HostLine)
    ensures
        r.log@ == logged(line@),
        launch::verdict_view(r.ready) == match ready_url(line@) {
            Some(url) => Some(web_url::parsed_url(url)),
            None => None::<Result<UrlView, Seq<char>>>,
        },
        r.ready matches Some(Ok(url)) ==> web_url::well_parsed(url@),
{
    let log = log_redacted(line);
    let ready = match parse_url_line(line) {
        Some(url) => Some(Url::parse(url.as_str())),
        None => None,
    };
    HostLine { log, ready }
}

/// What is logged before the window goes to a URL.
pub fn navigation_notice(url: &Url) -> (r: String)
    ensures
        r@ == "[host] navigating to "@ + redacted(url@.text),
{
    let mut out = "[host] navigating to ".to_string();
    out.append(redact_token(url.as_str()).as_str());
    out
}

// ── laws ───────────────────────────────────────────────────────────────────

/// A line without `token=` is left as it is.
pub proof fn law_lines_without_a_token_are_untouched(line: Seq<char>)
    requires
        !text::holds(line, "token="@),
    ensures
        redacted(line) == line,
{
    lemma_redacted_unfolds(line);
}

/// `token=` stands where its six characters do.
proof fn lemma_marker_at(s: Seq<char>, i: int)
    ensures
        text::occurs_at(s, "token="@, i) <==> {
            &&& 0 <= i && i + 6 <= s.len()
            &&& s[i] == 't' && s[i + 1] == 'o' && s[i + 2] == 'k'
            &&& s[i + 3] == 'e' && s[i + 4] == 'n' && s[i + 5] == '='
        },
{
    reveal_strlit("token=");
    if 0 <= i && i + 6 <= s.len() {
        let w = s.subrange(i, i + 6);
        assert(w[0] == s[i] && w[1] == s[i + 1] && w[2] == s[i + 2]);
        assert(w[3] == s[i + 3] && w[4] == s[i + 4] && w[5] == s[i + 5]);
        if s[i] == 't' && s[i + 1] == 'o' && s[i + 2] == 'k' && s[i + 3] == 'e' && s[i + 4] == 'n'
            && s[i + 5] == '=' {
            assert(w =~= "token="@);
        }
    }
}

/// A redacted line begins as the line does.
proof fn lemma_redacted_begins_as_the_line(line: Seq<char>)
    ensures
        line.len() == 0 <==> redacted(line).len() == 0,
        line.len() > 0 ==> redacted(line)[0] == line[0],
{
    lemma_redacted_unfolds(line);
    match text::find(line, "token="@) {
        Some(k) => {
            assert(line.take(k + 6)[0] == line[0]);
        },
        None => {},
    }
}

/// The value of the token whose marker stands at `i`.
pub open spec fn token_value(line: Seq<char>, i: int) -> Seq<char> {
    let rest = line.skip(i + 6);
    rest.take(value_end(rest))
}

/// No token survives: wherever `token=` stands in a redacted line, the value
/// behind it is `[redacted]`.
pub proof fn law_no_token_survives(line: Seq<char>, i: int)
    requires
        text::occurs_at(redacted(line), "token="@, i),
    ensures
        token_value(redacted(line), i) == "[redacted]"@,
    decreases line.len(),
{
    reveal_strlit("token=");
    reveal_strlit("[redacted]");
    lemma_redacted_unfolds(line);
    let out = redacted(line);
    lemma_marker_at(out, i);
    match text::find(line, "token="@) {
        Some(k) => {
            text::lemma_find_from(line, "token="@, 0);
            let rest = line.skip(k + 6);
            let after = rest.skip(value_end(rest));
            let tail = redacted(after);
            let head = line.take(k + 6);
            assert(out == head + "[redacted]"@ + tail);
            text::lemma_index_where(rest, ends_value_fn());
            if i + 6 <= k + 6 {
                assert(text::occurs_at(line, "token="@, i)) by {
                    lemma_marker_at(line, i);
                }
                assert(i == k);
                let value = out.skip(k + 6);
                lemma_redacted_begins_as_the_line(after);
                assert(value =~= "[redacted]"@ + tail);
                assert forall|j: int| 0 <= j < 10 implies !ends_value(#[trigger] value[j]) by {
                    assert(value[j] == "[redacted]"@[j]);
                }
                if value.len() > 10 {
                    assert(value[10] == tail[0]);
                    assert(after[0] == rest[value_end(rest)]);
                }
                text::lemma_index_where_is(value, ends_value_fn(), 10);
                assert(value.take(10) =~= "[redacted]"@);
            } else if i < k + 16 {
                // The marker would hold a bracket of `[redacted]`.
                if i < k + 6 {
                    assert(out[k + 6] == '[');
                } else {
                    assert(out[i] == "[redacted]"@[i - k - 6]);
                    if i == k + 13 {
                        assert(out[i + 1] == 'e');
                    }
                }
                assert(false);
            } else {
                let j = i - (k + 16);
                assert(tail.len() == out.len() - (k + 16));
                assert(forall|d: int| 0 <= d < 6 ==> out[i + d] == #[trigger] tail[j + d]);
                assert(tail[j + 0] == 't' && tail[j + 1] == 'o' && tail[j + 2] == 'k' && tail[j + 3]
                    == 'e' && tail[j + 4] == 'n' && tail[j + 5] == '=');
                lemma_marker_at(tail, j);
                law_no_token_survives(after, j);
                assert(out.skip(i + 6) =~= tail.skip(j + 6));
            }
        },
        None => {
            assert(text::holds(line, "token="@));
            text::lemma_find_from(line, "token="@, 0);
        },
    }
}

/// A line whose every token is redacted already is left as it is.
proof fn lemma_redacted_tokens_stay(line: Seq<char>)
    requires
        forall|i: int| #[trigger]
            text::occurs_at(line, "token="@, i) ==> token_value(line, i) == "[redacted]"@,
    ensures
        redacted(line) == line,
    decreases line.len(),
{
    reveal_strlit("token=");
    reveal_strlit("[redacted]");
    lemma_redacted_unfolds(line);
    match text::find(line, "token="@) {
        Some(k) => {
            let rest = line.skip(k + 6);
            assert(token_value(line, k) == "[redacted]"@);
            assert(rest.take(value_end(rest)).len() == 10);
            let after = rest.skip(10);
            assert forall|j: int| #[trigger]
                text::occurs_at(after, "token="@, j) implies token_value(after, j)
                == "[redacted]"@ by {
                let i = k + 16 + j;
                lemma_marker_at(after, j);
                assert(after =~= line.skip(k + 16));
                assert(forall|d: int| 0 <= d < 6 ==> #[trigger] after[j + d] == line[i + d]);
                assert(line[i + 0] == 't' && line[i + 1] == 'o' && line[i + 2] == 'k' && line[i + 3]
                    == 'e' && line[i + 4] == 'n' && line[i + 5] == '=') by {
                    assert(after[j + 0] == line[i + 0] && after[j + 1] == line[i + 1] && after[j
                        + 2] == line[i + 2] && after[j + 3] == line[i + 3] && after[j + 4]
                        == line[i + 4] && after[j + 5] == line[i + 5]);
                }
                lemma_marker_at(line, i);
                assert(token_value(line, i) == "[redacted]"@);
                assert(line.skip(i + 6) =~= after.skip(j + 6));
            }
            lemma_redacted_tokens_stay(after);
            assert(rest.take(10) =~= rest.take(value_end(rest)));
            assert(line.take(k + 6) + rest.take(10) + after =~= line);
        },
        None => {},
    }
}

/// Redacting a redacted line changes nothing.
pub proof fn law_redaction_is_idempotent(line: Seq<char>)
    ensures
        redacted(redacted(line)) == redacted(line),
{
    assert forall|i: int| #[trigger]
        text::occurs_at(redacted(line), "token="@, i) implies token_value(redacted(line), i)
        == "[redacted]"@ by {
        law_no_token_survives(line, i);
    }
    lemma_redacted_tokens_stay(redacted(line));
}

/// A secret that stands in a line only in the values of its tokens does not
/// stand in the redacted line. A secret here is a text without brackets that is
/// no part of the word `[redacted]` itself.
pub proof fn law_a_secret_does_not_survive(line: Seq<char>, secret: Seq<char>)
    requires
        secret.len() > 0,
        !secret.contains('['),
        !secret.contains(']'),
        !text::holds("[redacted]"@, secret),
        forall|p: int|
            0 <= p < kept_parts(line).len() ==> !text::holds(
                #[trigger] kept_parts(line)[p],
                secret,
            ),
    ensures
        !text::holds(redacted(line), secret),
    decreases line.len(),
{
    reveal_strlit("[redacted]");
    lemma_redacted_unfolds(line);
    let parts = kept_parts(line);
    assert(!text::holds(parts[0], secret));
    match text::find(line, "token="@) {
        Some(k) => {
            let mark = "[redacted]"@;
            let head = line.take(k + 6);
            let rest = line.skip(k + 6);
            let after = rest.skip(value_end(rest));
            let tail = redacted(after);
            let out = redacted(line);
            let n = secret.len() as int;
            let h = head.len() as int;
            assert(parts.drop_first() =~= kept_parts(after));
            assert forall|p: int| 0 <= p < kept_parts(after).len() implies !text::holds(
                #[trigger] kept_parts(after)[p],
                secret,
            ) by {
                assert(kept_parts(after)[p] == parts[p + 1]);
            }
            reveal_strlit("token=");
            law_a_secret_does_not_survive(after, secret);
            assert forall|i: int| !#[trigger] text::occurs_at(out, secret, i) by {
                if text::occurs_at(out, secret, i) {
                    assert(out == head + mark + tail);
                    let window = out.subrange(i, i + n);
                    if i + n <= h {
                        assert(head.subrange(i, i + n) =~= window);
                        assert(text::occurs_at(head, secret, i));
                    } else if i >= h + 10 {
                        let j = i - (h + 10);
                        assert(tail.subrange(j, j + n) =~= window);
                        assert(text::occurs_at(tail, secret, j));
                    } else if i < h {
                        assert(window[h - i] == '[');
                        assert(secret.contains('['));
                    } else if i + n > h + 10 {
                        assert(window[h + 9 - i] == ']');
                        assert(secret.contains(']'));
                    } else {
                        let j = i - h;
                        assert(mark.subrange(j, j + n) =~= window);
                        assert(text::occurs_at(mark, secret, j));
                    }
                }
            }
        },
        None => {},
    }
}

/// A ready URL is one on the loopback interface with a port: it begins with
/// `http://127.0.0.1:` and a digit, no `@` stands in its authority, and it holds
/// no white space.
pub proof fn law_ready_urls_are_on_loopback(line: Seq<char>)
    ensures
        ready_url(line) matches Some(url) ==> {
            &&& text::begins_with(url, "http://127.0.0.1:"@)
            &&& url.len() > 17 && text::is_digit(url[17])
            &&& forall|i: int|
                17 <= i < url.len() && #[trigger] url[i] == '@' ==> exists|j: int|
                    17 <= j < i && ends_authority(#[trigger] url[j])
            &&& forall|i: int| 0 <= i < url.len() ==> !text::is_white(#[trigger] url[i])
        },
{
    let prefix = "dsh web: http://127.0.0.1:"@;
    let trimmed = text::trim(line);
    if let Some(url) = ready_url(line) {
        reveal_strlit("http://127.0.0.1:");
        let k = text::find(trimmed, prefix)->0;
        let rest = trimmed.skip(k + prefix.len());
        text::lemma_index_where(rest, text::is_white_fn());
        let token = rest.take(text::index_where(rest, text::is_white_fn()));
        assert(url.subrange(0, 17) =~= "http://127.0.0.1:"@);
        assert forall|i: int| 0 <= i < url.len() implies !text::is_white(#[trigger] url[i]) by {
            if i >= 17 {
                assert(url[i] == rest[i - 17]);
                let f = text::is_white_fn();
                assert(!f(rest[i - 17]));
            } else {
                assert(url[i] == "http://127.0.0.1:"@[i]);
            }
        }
        let end = text::index_where(token, ends_authority_fn());
        text::lemma_index_where(token, ends_authority_fn());
        let authority = token.take(end);
        assert forall|i: int| 17 <= i < url.len() && #[trigger] url[i] == '@' implies exists|j: int|
            17 <= j < i && ends_authority(#[trigger] url[j]) by {
            assert(url[i] == token[i - 17]);
            if i - 17 < end {
                assert(authority[i - 17] == '@');
                assert(authority.contains('@'));
            }
            let f = ends_authority_fn();
            assert(f(token[end]));
            assert(url[end + 17] == token[end]);
            assert(end + 17 != i);
        }
    }
}

/// What is read of a trimmed line that begins, up to its first white space, with
/// what precedes a ready URL and that URL's token at `k`.
proof fn lemma_ready_at(trimmed: Seq<char>, k: int, token: Seq<char>)
    requires
        text::occurs_at(trimmed, "dsh web: http://127.0.0.1:"@, k),
        forall|j: int| 0 <= j < k ==> !text::occurs_at(trimmed, "dsh web: http://127.0.0.1:"@, j),
        forall|i: int| 0 <= i < token.len() ==> !text::is_white(#[trigger] token[i]),
        ({
            let rest = trimmed.skip(k + "dsh web: http://127.0.0.1:"@.len());
            &&& token.len() <= rest.len()
            &&& rest.take(token.len() as int) == token
            &&& token.len() < rest.len() ==> text::is_white(rest[token.len() as int])
        }),
        text::trim(trimmed) == trimmed,
        names_port(token),
    ensures
        ready_url(trimmed) == Some("http://127.0.0.1:"@ + token),
{
    let prefix = "dsh web: http://127.0.0.1:"@;
    let rest = trimmed.skip(k + prefix.len());
    text::lemma_find_is(trimmed, prefix, k);
    assert forall|j: int| 0 <= j < token.len() implies !text::is_white(#[trigger] rest[j]) by {
        assert(rest[j] == rest.take(token.len() as int)[j]);
        assert(!text::is_white(token[j]));
    }
    text::lemma_index_where_is(rest, text::is_white_fn(), token.len() as int);
}

/// The place and the token of the URL in a ready line.
proof fn lemma_ready_parts(line: Seq<char>) -> (parts: (int, Seq<char>))
    requires
        ready_url(line) is Some,
    ensures
        ({
            let (k, token) = parts;
            let trimmed = text::trim(line);
            let prefix = "dsh web: http://127.0.0.1:"@;
            let rest = trimmed.skip(k + prefix.len());
            &&& ready_url(line) == Some("http://127.0.0.1:"@ + token)
            &&& names_port(token)
            &&& text::occurs_at(trimmed, prefix, k)
            &&& forall|j: int| 0 <= j < k ==> !text::occurs_at(trimmed, prefix, j)
            &&& forall|i: int| 0 <= i < token.len() ==> !text::is_white(#[trigger] token[i])
            &&& token.len() <= rest.len()
            &&& rest.take(token.len() as int) == token
            &&& token.len() < rest.len() ==> text::is_white(rest[token.len() as int])
        }),
{
    let trimmed = text::trim(line);
    let prefix = "dsh web: http://127.0.0.1:"@;
    text::lemma_find_from(trimmed, prefix, 0);
    let k = text::find(trimmed, prefix)->0;
    let rest = trimmed.skip(k + prefix.len());
    text::lemma_index_where(rest, text::is_white_fn());
    let token = rest.take(text::index_where(rest, text::is_white_fn()));
    let f = text::is_white_fn();
    assert forall|i: int| 0 <= i < token.len() implies !text::is_white(#[trigger] token[i]) by {
        assert(!f(rest[i]));
    }
    if token.len() < rest.len() {
        assert(f(rest[token.len() as int]));
    }
    (k, token)
}

/// A ready URL stands in its line behind `dsh web: `, and is read back from a
/// ready line of its own.
pub proof fn law_a_ready_url_is_read_back(line: Seq<char>)
    requires
        ready_url(line) is Some,
    ensures
        text::holds(line, "dsh web: "@ + ready_url(line)->0),
        ready_url("dsh web: "@ + ready_url(line)->0) == ready_url(line),
{
    reveal_strlit("dsh web: ");
    reveal_strlit("http://127.0.0.1:");
    reveal_strlit("dsh web: http://127.0.0.1:");
    let prefix = "dsh web: http://127.0.0.1:"@;
    let trimmed = text::trim(line);
    let (k, token) = lemma_ready_parts(line);
    let own = "dsh web: "@ + ready_url(line)->0;
    assert("dsh web: "@ + "http://127.0.0.1:"@ =~= prefix);
    assert(own =~= prefix + token);
    let rest = trimmed.skip(k + prefix.len());
    let (before, after) = text::lemma_trim_parts(line);
    let at = before.len() + k;
    let n = own.len() as int;
    assert(line.subrange(at, at + n) =~= own) by {
        let found = trimmed.subrange(k, k + prefix.len());
        assert(found == prefix);
        assert forall|i: int| 0 <= i < n implies line.subrange(at, at + n)[i] == own[i] by {
            if i < prefix.len() {
                assert(line[at + i] == found[i]);
            } else {
                assert(line[at + i] == rest.take(token.len() as int)[i - prefix.len()]);
            }
        }
    }
    assert(text::occurs_at(line, own, at));
    assert(own.last() == token.last());
    assert(!text::is_white(token[token.len() - 1]));
    assert(own[0] == 'd');
    assert(text::trim(own) == own);
    assert(own.subrange(0, prefix.len() as int) =~= prefix);
    assert(own.skip(prefix.len() as int) =~= token);
    assert(token.take(token.len() as int) =~= token);
    lemma_ready_at(own, 0, token);
}

/// What follows a ready URL on its line has no say: behind white space anything
/// may stand.
pub proof fn law_what_follows_a_ready_url_has_no_say(
    line: Seq<char>,
    separator: char,
    more: Seq<char>,
)
    requires
        ready_url(line) is Some,
        text::is_white(separator),
    ensures
        ready_url(line + seq![separator] + more) == ready_url(line),
{
    reveal_strlit("dsh web: http://127.0.0.1:");
    let prefix = "dsh web: http://127.0.0.1:"@;
    let trimmed = text::trim(line);
    let (k, token) = lemma_ready_parts(line);
    let (before, after) = text::lemma_trim_parts(line);
    let none = Seq::<char>::empty();
    let longer = line + seq![separator] + more;
    let behind = after + seq![separator] + more;
    assert(longer =~= before + (trimmed + behind) + none);
    text::lemma_trim_of_padded(before, trimmed + behind, none);
    assert((trimmed + behind)[0] == trimmed[0]);
    assert(text::trim_start(trimmed + behind) == trimmed + behind);
    text::lemma_trim_end_stops(trimmed, behind);
    let kept = text::trim_end(behind);
    let all = trimmed + kept;
    assert(text::trim(longer) == all);
    assert(behind[0] == if after.len() > 0 {
        after[0]
    } else {
        separator
    });
    lemma_trim_end_is_prefix(behind);
    let rest = trimmed.skip(k + prefix.len());
    let longer_rest = all.skip(k + prefix.len());
    assert(longer_rest =~= rest + kept);
    assert(all.subrange(k, k + prefix.len()) =~= trimmed.subrange(k, k + prefix.len()));
    assert forall|j: int| 0 <= j < k implies !text::occurs_at(all, prefix, j) by {
        assert(!text::occurs_at(trimmed, prefix, j));
        assert(all.subrange(j, j + prefix.len()) =~= trimmed.subrange(j, j + prefix.len()));
    }
    assert(longer_rest.take(token.len() as int) =~= rest.take(token.len() as int));
    text::lemma_trim_parts(longer);
    assert(text::trim(all) == all);
    lemma_ready_at(all, k, token);
    assert(ready_url(longer) == ready_url(all));
}

/// Trimming the end leaves the beginning.
proof fn lemma_trim_end_is_prefix(s: Seq<char>)
    ensures
        text::trim_end(s).len() <= s.len(),
        text::trim_end(s) == s.take(text::trim_end(s).len() as int),
    decreases s.len(),
{
    if s.len() > 0 && text::is_white(s.last()) {
        lemma_trim_end_is_prefix(s.drop_last());
        assert(text::trim_end(s) =~= s.take(text::trim_end(s).len() as int));
    } else {
        assert(s.take(s.len() as int) =~= s);
    }
}

/// Every token in a line of the log is redacted: wherever `token=` stands,
/// `[redacted]` stands behind it, and behind that the line ends or `&`, white
/// space or a closing parenthesis follows.
pub open spec fn token_free(log: Seq<char>) -> bool {
    forall|i: int| #[trigger]
        text::occurs_at(log, "token="@, i) ==> {
            &&& text::occurs_at(log, "[redacted]"@, i + 6)
            &&& i + 16 == log.len() || ends_value(log[i + 16]) || log[i + 16] == ')'
        }
}

/// No `token=` begins in a text, whatever follows it.
pub open spec fn begins_no_marker(front: Seq<char>) -> bool {
    forall|i: int|
        0 <= i < front.len() && #[trigger] front[i] == 't' ==> {
            ||| i + 1 < front.len() && front[i + 1] != 'o'
            ||| i + 2 < front.len() && front[i + 2] != 'k'
        }
}

/// A redacted text keeps its tokens redacted between others.
pub proof fn lemma_framed_is_token_free(front: Seq<char>, s: Seq<char>, back: Seq<char>)
    requires
        begins_no_marker(front),
        back.len() == 0 || back == seq![')'],
    ensures
        token_free(front + redacted(s) + back),
{
    reveal_strlit("token=");
    reveal_strlit("[redacted]");
    let middle = redacted(s);
    let log = front + middle + back;
    let n = front.len() as int;
    assert forall|i: int| #[trigger] text::occurs_at(log, "token="@, i) implies {
        &&& text::occurs_at(log, "[redacted]"@, i + 6)
        &&& i + 16 == log.len() || ends_value(log[i + 16]) || log[i + 16] == ')'
    } by {
        lemma_marker_at(log, i);
        if i < n {
            assert(front[i] == log[i]);
            if i + 1 < n {
                assert(front[i + 1] == log[i + 1]);
            }
            if i + 2 < n {
                assert(front[i + 2] == log[i + 2]);
            }
        } else {
            let j = i - n;
            if j + 6 > middle.len() {
                assert(log.last() == ')');
                assert(log[i + 5] == '=');
                assert(false);
            }
            assert(middle[j] == log[i] && middle[j + 1] == log[i + 1] && middle[j + 2] == log[i + 2]
                && middle[j + 3] == log[i + 3] && middle[j + 4] == log[i + 4] && middle[j + 5]
                == log[i + 5]);
            lemma_marker_at(middle, j);
            law_no_token_survives(s, j);
            let rest = middle.skip(j + 6);
            text::lemma_index_where(rest, ends_value_fn());
            assert(value_end(rest) == token_value(middle, j).len());
            assert(rest.take(10) == "[redacted]"@);
            assert(log.subrange(i + 6, i + 16) =~= rest.take(10));
            if middle.len() > j + 16 {
                assert(log[i + 16] == rest[10]);
            }
        }
    }
}

/// The log never shows a token: neither in a line of the sidecar nor where the
/// shell says which URL it goes to.
pub proof fn law_the_log_shows_no_token(line: Seq<char>)
    ensures
        token_free(logged(line)),
        token_free("[host] navigating to "@ + redacted(line)),
{
    reveal_strlit("[host] ");
    reveal_strlit("[host] navigating to ");
    let none = Seq::<char>::empty();
    lemma_framed_is_token_free("[host] "@, line, none);
    assert("[host] "@ + redacted(line) + none =~= logged(line));
    lemma_framed_is_token_free("[host] navigating to "@, line, none);
    assert("[host] navigating to "@ + redacted(line) + none =~= "[host] navigating to "@ + redacted(
        line,
    ));
}

/// What follows a prefix names a port exactly by the part in front of its first
/// `/`, `\\`, `?` or `#`.
proof fn lemma_port_of_authority(authority: Seq<char>, path: Seq<char>)
    requires
        !authority.contains('/') && !authority.contains('\\') && !authority.contains('?')
            && !authority.contains('#'),
        path.len() > 0 ==> path[0] == '/' || path[0] == '\\' || path[0] == '?' || path[0] == '#',
    ensures
        names_port(authority + path) <==> authority.len() > 0 && 48 <= authority[0] as int <= 57
            && !authority.contains('@'),
{
    let token = authority + path;
    assert forall|i: int| 0 <= i < authority.len() implies !ends_authority(#[trigger] token[i]) by {
        assert(token[i] == authority[i]);
        assert(authority.contains(authority[i]));
    }
    if path.len() > 0 {
        assert(token[authority.len() as int] == path[0]);
    }
    text::lemma_index_where_is(token, ends_authority_fn(), authority.len() as int);
    assert(token.take(authority.len() as int) =~= authority);
    if authority.len() > 0 {
        assert(token[0] == authority[0]);
    } else if path.len() > 0 {
        assert(token[0] == path[0]);
    }
}

/// The first and the last character of a prefix and a token in a line stay when
/// the line is trimmed, and with them all that stands between.
proof fn lemma_trimmed_around(line: Seq<char>, first: int, last: int) -> (n: int)
    requires
        0 <= first <= last < line.len(),
        !text::is_white(line[first]),
        !text::is_white(line[last]),
    ensures
        0 <= n <= first,
        last < n + text::trim(line).len() <= line.len(),
        text::trim(line) == line.subrange(n, n + text::trim(line).len()),
{
    let trimmed = text::trim(line);
    let (front, back) = text::lemma_trim_parts(line);
    let n = front.len() as int;
    if first < n {
        assert(line[first] == front[first]);
    }
    if last >= n + trimmed.len() {
        assert(line[last] == back[last - n - trimmed.len()]);
    }
    assert(trimmed =~= line.subrange(n, n + trimmed.len()));
    n
}

/// The first place of a text in a line is its first place in a part of the line
/// around it.
proof fn lemma_first_in_part(line: Seq<char>, p: Seq<char>, at: int, from: int, to: int)
    requires
        0 <= from <= at,
        at + p.len() <= to <= line.len(),
        text::occurs_at(line, p, at),
        forall|j: int| 0 <= j < at ==> !#[trigger] text::occurs_at(line, p, j),
    ensures
        text::find(line.subrange(from, to), p) == Some(at - from),
{
    let part = line.subrange(from, to);
    let k = at - from;
    assert(part.subrange(k, k + p.len()) =~= line.subrange(at, at + p.len()));
    assert forall|j: int| 0 <= j < k implies !text::occurs_at(part, p, j) by {
        assert(!text::occurs_at(line, p, from + j));
        assert(line.subrange(from + j, from + j + p.len()) =~= part.subrange(j, j + p.len()));
    }
    text::lemma_find_is(part, p, k);
}

/// What is read of a line is decided by the token behind the first prefix.
proof fn lemma_ready_token(
    before: Seq<char>,
    token: Seq<char>,
    after: Seq<char>,
    line: Seq<char>,
)
    requires
        line == before + "dsh web: http://127.0.0.1:"@ + token + after,
        forall|j: int|
            0 <= j < before.len() ==> !#[trigger] text::occurs_at(
                line,
                "dsh web: http://127.0.0.1:"@,
                j,
            ),
        forall|i: int| 0 <= i < token.len() ==> !text::is_white(#[trigger] token[i]),
        after.len() == 0 || text::is_white(after[0]),
    ensures
        ready_url(line) == if names_port(token) {
            Some("http://127.0.0.1:"@ + token)
        } else {
            None
        },
{
    let prefix = "dsh web: http://127.0.0.1:"@;
    let p = prefix.len() as int;
    assert(p > 0 && !text::is_white(prefix[0]) && !text::is_white(prefix[p - 1])) by {
        reveal_strlit("dsh web: http://127.0.0.1:");
    }
    let at = before.len() as int;
    let trimmed = text::trim(line);
    let last = at + p + token.len() - 1;
    assert(line[at] == prefix[0]);
    assert(!text::is_white(line[last])) by {
        if token.len() == 0 {
            assert(line[last] == prefix[p - 1]);
        } else {
            assert(line[last] == token[token.len() - 1]);
        }
    }
    let n = lemma_trimmed_around(line, at, last);
    let k = at - n;
    assert(text::occurs_at(line, prefix, at)) by {
        assert(line.subrange(at, at + p) =~= prefix);
    }
    lemma_first_in_part(line, prefix, at, n, n + trimmed.len());
    let rest = trimmed.skip(k + p);
    let behind = rest.skip(token.len() as int);
    assert(rest =~= token + behind);
    assert(behind.len() > 0 ==> behind[0] == line[last + 1] && line[last + 1] == after[0]);
    assert(text::index_where(rest, text::is_white_fn()) == token.len()) by {
        text::law_first_white_space(token, behind);
    }
    assert(rest.take(token.len() as int) =~= token);
}

/// The ready line is recognised whatever the port and whatever follows it: from
/// a line with `dsh web: http://127.0.0.1:` and something behind it up to white
/// space or the end, the URL is read as it stands, exactly if that something
/// begins with a digit and has no `@` in front of its first `/`, `\\`, `?` or
/// `#`. The first such place on the line decides, and a line without one has no
/// URL.
pub proof fn law_every_ready_line_gives_its_url(
    before: Seq<char>,
    authority: Seq<char>,
    path: Seq<char>,
    after: Seq<char>,
    line: Seq<char>,
    other: Seq<char>,
)
    requires
        line == before + "dsh web: http://127.0.0.1:"@ + authority + path + after,
        forall|j: int|
            0 <= j < before.len() ==> !#[trigger] text::occurs_at(
                line,
                "dsh web: http://127.0.0.1:"@,
                j,
            ),
        forall|i: int| 0 <= i < authority.len() ==> !text::is_white(#[trigger] authority[i]),
        forall|i: int| 0 <= i < path.len() ==> !text::is_white(#[trigger] path[i]),
        !authority.contains('/') && !authority.contains('\\') && !authority.contains('?')
            && !authority.contains('#'),
        path.len() > 0 ==> path[0] == '/' || path[0] == '\\' || path[0] == '?' || path[0] == '#',
        after.len() == 0 || text::is_white(after[0]),
    ensures
        authority.len() > 0 && 48 <= authority[0] as int <= 57 && !authority.contains('@')
            ==> ready_url(line) == Some("http://127.0.0.1:"@ + authority + path),
        authority.len() == 0 || !(48 <= authority[0] as int <= 57) || authority.contains('@')
            ==> ready_url(line) is None,
        !text::holds(other, "dsh web: http://127.0.0.1:"@) ==> ready_url(other) is None,
{
    let prefix = "dsh web: http://127.0.0.1:"@;
    let token = authority + path;
    assert(line =~= before + prefix + token + after);
    assert forall|i: int| 0 <= i < token.len() implies !text::is_white(#[trigger] token[i]) by {
        if i < authority.len() {
            assert(token[i] == authority[i]);
        } else {
            assert(token[i] == path[i - authority.len()]);
        }
    }
    lemma_ready_token(before, token, after, line);
    lemma_port_of_authority(authority, path);
    assert("http://127.0.0.1:"@ + token =~= "http://127.0.0.1:"@ + authority + path);
    if !text::holds(other, prefix) {
        let inner = text::trim(other);
        let (front, back) = text::lemma_trim_parts(other);
        text::lemma_find_from(inner, prefix, 0);
        if let Some(j) = text::find(inner, prefix) {
            let m = front.len() + j;
            let n = prefix.len();
            assert(other.subrange(m, m + n) =~= inner.subrange(j, j + n));
            assert(text::occurs_at(other, prefix, m));
        }
    }
}

/// The first `token=` behind a text without one stands right behind it.
proof fn lemma_first_marker(front: Seq<char>, rest: Seq<char>)
    requires
        !text::holds(front, "token="@),
    ensures
        text::find(front + "token="@ + rest, "token="@) == Some(front.len() as int),
{
    let marker = "token="@;
    let line = front + marker + rest;
    let n = front.len() as int;
    assert(marker.len() == 6 && marker[0] == 't') by {
        reveal_strlit("token=");
    }
    assert(line[n] == 't') by {
        assert(line[n] == marker[0]);
    }
    assert(text::occurs_at(line, marker, n)) by {
        assert(line.subrange(n, n + 6) =~= marker);
    }
    assert forall|j: int| 0 <= j < n implies !text::occurs_at(line, marker, j) by {
        if j + 6 <= n {
            assert(front.subrange(j, j + 6) =~= line.subrange(j, j + 6));
            assert(!text::occurs_at(front, marker, j));
        } else {
            lemma_marker_at(line, j);
            assert(n == j + 1 || n == j + 2 || n == j + 3 || n == j + 4 || n == j + 5);
        }
    }
    text::lemma_find_is(line, marker, n);
}

/// Redaction, value by value: behind the first `token=` of a line everything up
/// to the next `&`, white space or the end gives way to `[redacted]`, what
/// stands before stays, and what follows is redacted in its turn.
pub proof fn law_each_value_is_redacted(front: Seq<char>, value: Seq<char>, back: Seq<char>)
    requires
        !text::holds(front, "token="@),
        !value.contains('&'),
        forall|i: int| 0 <= i < value.len() ==> !text::is_white(#[trigger] value[i]),
        back.len() > 0 ==> back[0] == '&' || text::is_white(back[0]),
    ensures
        redacted(front + "token="@ + value + back) == front + "token=[redacted]"@ + redacted(back),
        logged(back) == "[host] "@ + redacted(back),
{
    let line = front + "token="@ + value + back;
    let n = front.len() as int;
    let rest = line.skip(n + 6);
    assert("token="@.len() == 6) by {
        reveal_strlit("token=");
    }
    assert(text::find(line, "token="@) == Some(n)) by {
        lemma_first_marker(front, value + back);
        assert(line =~= front + "token="@ + (value + back));
    }
    lemma_redacted_unfolds(line);
    assert(value_end(rest) == value.len()) by {
        assert(rest =~= value + back);
        assert forall|i: int| 0 <= i < value.len() implies !ends_value(#[trigger] rest[i]) by {
            assert(rest[i] == value[i]);
            assert(value.contains(value[i]));
        }
        if back.len() > 0 {
            assert(rest[value.len() as int] == back[0]);
        }
        text::lemma_index_where_is(rest, ends_value_fn(), value.len() as int);
    }
    assert(rest.skip(value.len() as int) =~= back);
    assert(line.take(n + 6) =~= front + "token="@);
    assert("token="@ + "[redacted]"@ == "token=[redacted]"@) by {
        reveal_strlit("token=");
        reveal_strlit("[redacted]");
        reveal_strlit("token=[redacted]");
        assert("token="@ + "[redacted]"@ =~= "token=[redacted]"@);
    }
    let kept = redacted(back);
    assert(front + "token="@ + "[redacted]"@ + kept =~= front + ("token="@ + "[redacted]"@) + kept);
}

} // verus!
