//! The loopback proxy between the window and the sidecar: where a request head
//! ends, and what the sidecar is sent in its place.
//!
//! The proxy owns authentication. It attaches the minted session cookie to
//! every request head, pins `Host` to the sidecar's authority, re-points
//! `Origin` and `Referer` at it, and forces plain requests to
//! `Connection: close`; upgrade requests keep their connection headers.
use vstd::prelude::*;
use vstd::slice::slice_subrange;
use vstd::string::{StrSliceExecFns, StringExecFns};
use vstd::utf8::{decode_utf8, encode_utf8, valid_utf8};

use crate::bytes;
use crate::text;

verus! {

// ── reading a request head ─────────────────────────────────────────────────

/// How many bytes may arrive before a request head is complete.
pub const HEAD_LIMIT: usize = 65536;

/// The blank line that ends a head stands in the bytes at position `i`.
pub open spec fn blank_line_at(raw: Seq<u8>, i: int) -> bool {
    0 <= i && i + 4 <= raw.len() && raw[i] == 13 && raw[i + 1] == 10 && raw[i + 2] == 13 && raw[i
        + 3] == 10
}

/// The head ends at `end`: right behind the first blank line.
pub open spec fn head_ends_at(raw: Seq<u8>, end: int) -> bool {
    blank_line_at(raw, end - 4) && forall|j: int| j < end - 4 ==> !blank_line_at(raw, j)
}

/// The bytes hold a complete head.
pub open spec fn head_complete(raw: Seq<u8>) -> bool {
    exists|i: int| blank_line_at(raw, i)
}

/// What to do after a read from the client.
#[derive(Debug, Clone, PartialEq, Eq)]
pub enum HeadProgress {
    /// The head is complete; `rest` is what arrived behind it.
    Complete { head: String, rest: Vec<u8> },
    /// The client closed or failed, or sent too much without ending the head.
    GiveUp,
    /// Read again.
    ReadMore,
}

/// Reading goes on after a read, given all bytes so far and how many of them it
/// brought; `None` where it failed.
pub open spec fn goes_on(raw: Seq<u8>, received: Option<nat>) -> bool {
    received is Some && received->0 > 0 && !head_complete(raw) && raw.len() <= HEAD_LIMIT
}

/// The read completed the head.
pub open spec fn completes(raw: Seq<u8>, received: Option<nat>) -> bool {
    received is Some && received->0 > 0 && head_complete(raw)
}

/// How many bytes a read brought.
pub open spec fn received_count(chunk: Option<&[u8]>) -> Option<nat> {
    match chunk {
        Some(received) => Some(received@.len()),
        None => None,
    }
}

/// Takes what one read brought (`None` where it failed, no bytes where the
/// client closed) and says how reading the head goes on.
///
/// The head is everything up to and with the first blank line.
pub fn read_head(raw: &mut Vec<u8>, chunk: Option<&[u8]>) -> (r: HeadProgress)
    ensures
        final(raw)@ == match chunk {
            Some(received) => old(raw)@ + received@,
            None => old(raw)@,
        },
        match r {
            HeadProgress::Complete { head, rest } => {
                &&& chunk is Some && chunk->0@.len() > 0
                &&& exists|end: int|
                    {
                        &&& head_ends_at(final(raw)@, end)
                        &&& head@ == bytes::utf8_lossy(final(raw)@.take(end))
                        &&& valid_utf8(final(raw)@.take(end)) ==> head@ == decode_utf8(
                            final(raw)@.take(end),
                        )
                        &&& rest@ == final(raw)@.skip(end)
                    }
            },
            HeadProgress::GiveUp => {
                ||| chunk is None
                ||| chunk->0@.len() == 0
                ||| !head_complete(final(raw)@) && final(raw)@.len() > HEAD_LIMIT
            },
            HeadProgress::ReadMore => {
                &&& chunk is Some && chunk->0@.len() > 0
                &&& !head_complete(final(raw)@)
                &&& final(raw)@.len() <= HEAD_LIMIT
            },
        },
        r is ReadMore <==> goes_on(final(raw)@, received_count(chunk)),
        r is Complete <==> completes(final(raw)@, received_count(chunk)),
{
    let received = match chunk {
        Some(received) => received,
        None => {
            return HeadProgress::GiveUp;
        },
    };
    bytes::append_bytes(raw, received, 0);
    assert(received@.skip(0) =~= received@);
    if received.len() == 0 {
        return HeadProgress::GiveUp;
    }
    match head_end(raw.as_slice()) {
        Some(end) => {
            let head = bytes::lossy_text(slice_subrange(raw.as_slice(), 0, end));
            let rest = bytes::bytes_from(raw.as_slice(), end);
            assert(raw@.subrange(0, end as int) =~= raw@.take(end as int));
            HeadProgress::Complete { head, rest }
        },
        None => if raw.len() > HEAD_LIMIT {
            HeadProgress::GiveUp
        } else {
            HeadProgress::ReadMore
        },
    }
}

/// The position right behind the first blank line.
pub fn head_end(raw: &[u8]) -> (r: Option<usize>)
    ensures
        match r {
            Some(end) => head_ends_at(raw@, end as int) && end <= raw.len(),
            None => !head_complete(raw@),
        },
{
    if raw.len() < 4 {
        return None;
    }
    let mut i: usize = 0;
    while i <= raw.len() - 4
        invariant
            4 <= raw.len(),
            i <= raw.len() - 3,
            forall|j: int| j < i ==> !blank_line_at(raw@, j),
        decreases raw.len() - i,
    {
        if raw[i] == 13 && raw[i + 1] == 10 && raw[i + 2] == 13 && raw[i + 3] == 10 {
            assert(blank_line_at(raw@, i as int));
            return Some(i + 4);
        }
        i += 1;
    }
    None
}

// ── rewriting it ───────────────────────────────────────────────────────────

/// A line carries the header field whose lower-case name, with the colon, is
/// `field`.
pub open spec fn has_field(line: Seq<char>, field: Seq<char>) -> bool {
    text::begins_with(text::lower(line), field)
}

/// The lines of a head, without what ends it.
pub open spec fn head_lines(head: Seq<char>) -> Seq<Seq<char>> {
    text::split_text(text::strip_all(text::strip_all(head, text::crlf()), seq!['\0']), text::crlf())
}

/// The authority that the client addressed: the value of the first `Host`
/// line, or nothing.
pub open spec fn client_authority(lines: Seq<Seq<char>>) -> Seq<char>
    decreases lines.len(),
{
    if lines.len() == 0 {
        Seq::empty()
    } else if has_field(lines[0], "host:"@) {
        match text::cut(lines[0], ':') {
            Some((_, value)) => text::trim(value),
            None => Seq::empty(),
        }
    } else {
        client_authority(lines.drop_first())
    }
}

/// A client line that reaches the sidecar: no cookie, no `Host`, and on a
/// plain request no `Connection`.
pub open spec fn line_kept(line: Seq<char>, is_upgrade: bool) -> bool {
    &&& !has_field(line, "cookie:"@)
    &&& !has_field(line, "host:"@)
    &&& is_upgrade || !has_field(line, "connection:"@)
}

/// A text with its first occurrence of `from` replaced.
pub open spec fn replace_first(s: Seq<char>, from: Seq<char>, to: Seq<char>) -> Seq<char> {
    match text::find(s, from) {
        Some(k) => s.take(k) + to + s.skip(k + from.len()),
        None => s,
    }
}

/// A kept line as the sidecar gets it: `Origin` and `Referer` name the
/// sidecar where they named the proxy.
pub open spec fn line_forwarded(line: Seq<char>, from: Seq<char>, to: Seq<char>) -> Seq<char> {
    if from.len() > 0 && (has_field(line, "origin:"@) || has_field(line, "referer:"@)) {
        replace_first(line, from, to)
    } else {
        line
    }
}

/// The client's lines that reach the sidecar, in their order.
pub open spec fn forwarded_lines(
    lines: Seq<Seq<char>>,
    from: Seq<char>,
    to: Seq<char>,
    is_upgrade: bool,
) -> Seq<Seq<char>>
    decreases lines.len(),
{
    if lines.len() == 0 {
        Seq::empty()
    } else {
        let before = forwarded_lines(lines.drop_last(), from, to, is_upgrade);
        if line_kept(lines.last(), is_upgrade) {
            before.push(line_forwarded(lines.last(), from, to))
        } else {
            before
        }
    }
}

/// The lines that the proxy adds.
pub open spec fn added_lines(
    cookie_pair: Seq<char>,
    sidecar_authority: Seq<char>,
    is_upgrade: bool,
) -> Seq<Seq<char>> {
    let pinned = seq!["Host: "@ + sidecar_authority, "Cookie: "@ + cookie_pair];
    if is_upgrade {
        pinned
    } else {
        pinned.push("Connection: close"@)
    }
}

/// Lines with a line break behind each of them.
pub open spec fn broken(lines: Seq<Seq<char>>) -> Seq<char>
    decreases lines.len(),
{
    if lines.len() == 0 {
        Seq::empty()
    } else {
        broken(lines.drop_last()) + lines.last() + text::crlf()
    }
}

/// All lines of the rewritten head.
pub open spec fn rewritten_lines(
    head: Seq<char>,
    cookie_pair: Seq<char>,
    sidecar_authority: Seq<char>,
    is_upgrade: bool,
) -> Seq<Seq<char>> {
    forwarded_lines(
        head_lines(head),
        client_authority(head_lines(head)),
        sidecar_authority,
        is_upgrade,
    ) + added_lines(cookie_pair, sidecar_authority, is_upgrade)
}

/// The head that the sidecar gets.
pub open spec fn rewritten_head(
    head: Seq<char>,
    cookie_pair: Seq<char>,
    sidecar_authority: Seq<char>,
    is_upgrade: bool,
) -> Seq<char> {
    broken(rewritten_lines(head, cookie_pair, sidecar_authority, is_upgrade)) + text::crlf()
}

/// The head asks for a web socket.
pub open spec fn asks_upgrade(head: Seq<char>) -> bool {
    text::holds(text::lower(head), "upgrade: websocket"@)
}

/// The authority of the sidecar on a port.
pub open spec fn loopback_authority(port: u16) -> Seq<char> {
    "127.0.0.1:"@ + text::decimal(port as nat)
}

/// Whether a request head asks for a web socket.
pub fn is_upgrade_request(head: &str) -> (r: bool)
    ensures
        r == asks_upgrade(head@),
{
    let lowered = text::to_lower(text::chars_of(head).as_slice());
    text::contains_text(lowered.as_slice(), text::chars_of("upgrade: websocket").as_slice())
}

/// Whether a line carries a header field, named in lower case with its colon.
fn carries(line: &[char], field: &str) -> (r: bool)
    ensures
        r == has_field(line@, field@),
{
    text::starts_with(text::to_lower(line).as_slice(), text::chars_of(field).as_slice())
}

/// `client_authority`, executed.
fn addressed_authority(lines: &Vec<Vec<char>>) -> (r: Vec<char>)
    ensures
        r@ == client_authority(text::pieces(lines@)),
{
    let mut i: usize = 0;
    assert(text::pieces(lines@).skip(0) =~= text::pieces(lines@));
    while i < lines.len()
        invariant
            i <= lines.len(),
            client_authority(text::pieces(lines@).skip(i as int)) == client_authority(text::pieces(lines@)),
        decreases lines.len() - i,
    {
        let ghost rest = text::pieces(lines@).skip(i as int);
        let line = lines[i].as_slice();
        assert(rest[0] == line@);
        if carries(line, "host:") {
            return match text::split_once(line, ':') {
                Some((_, value)) => text::copy_of(text::trimmed(value)),
                None => Vec::new(),
            };
        }
        assert(rest.drop_first() =~= text::pieces(lines@).skip(i + 1));
        i += 1;
    }
    Vec::new()
}

/// `replace_first`, executed.
fn with_first_replaced(s: &[char], from: &[char], to: &str) -> (r: String)
    ensures
        r@ == replace_first(s@, from@, to@),
{
    let n = s.len();
    match text::find_text(s, from) {
        Some(k) => {
            let mut out = text::string_of(slice_subrange(s, 0, k));
            out.append(to);
            let tail = slice_subrange(s, k + from.len(), n);
            out.append(text::string_of(tail).as_str());
            assert(s@.subrange(0, k as int) =~= s@.take(k as int));
            assert(tail@ =~= s@.skip(k + from.len()));
            out
        },
        None => text::string_of(s),
    }
}

/// The rewritten head as text.
fn rewritten_text(
    head: &str,
    cookie_pair: &str,
    sidecar_authority: &str,
    is_upgrade: bool,
) -> (r: String)
    ensures
        r@ == rewritten_head(head@, cookie_pair@, sidecar_authority@, is_upgrade),
{
    let line_break: Vec<char> = vec!['\r', '\n'];
    let nul: Vec<char> = vec!['\0'];
    assert(line_break@ =~= text::crlf());
    assert(nul@ =~= seq!['\0']);
    let chars = text::chars_of(head);
    let body = text::strip_trailing(
        text::strip_trailing(chars.as_slice(), line_break.as_slice()),
        nul.as_slice(),
    );
    let lines = text::split_at_text(body, line_break.as_slice());
    let authority = addressed_authority(&lines);
    let ghost all = text::pieces(lines@);
    let ghost kept = |n: int|
        forwarded_lines(all.take(n), authority@, sidecar_authority@, is_upgrade);
    let mut out = String::new();
    let mut i: usize = 0;
    assert(all.take(0) =~= Seq::<Seq<char>>::empty());
    while i < lines.len()
        invariant
            i <= lines.len(),
            all == text::pieces(lines@),
            kept == (|n: int|
                forwarded_lines(all.take(n), authority@, sidecar_authority@, is_upgrade)),
            out@ == broken(kept(i as int)),
        decreases lines.len() - i,
    {
        let line = lines[i].as_slice();
        assert(all.take(i + 1).drop_last() =~= all.take(i as int));
        assert(all.take(i + 1).last() == line@);
        let dropped = carries(line, "cookie:") || (!is_upgrade && carries(line, "connection:"))
            || carries(line, "host:");
        if !dropped {
            let text = if authority.len() > 0 && (carries(line, "origin:") || carries(
                line,
                "referer:",
            )) {
                with_first_replaced(line, authority.as_slice(), sidecar_authority)
            } else {
                text::string_of(line)
            };
            out.append(text.as_str());
            out.push('\r');
            out.push('\n');
            proof {
                let before = kept(i as int);
                assert(kept(i + 1) =~= before.push(text@));
                assert(kept(i + 1).drop_last() =~= before);
                assert(broken(kept(i + 1)) =~= out@);
            }
        }
        i += 1;
    }
    assert(all.take(i as int) =~= all);
    let ghost client = kept(i as int);
    let ghost lines_out = client;
    out.append("Host: ");
    out.append(sidecar_authority);
    out.push('\r');
    out.push('\n');
    proof {
        lemma_broken_push(lines_out, "Host: "@ + sidecar_authority@);
        lines_out = lines_out.push("Host: "@ + sidecar_authority@);
        assert(out@ =~= broken(lines_out));
    }
    out.append("Cookie: ");
    out.append(cookie_pair);
    out.push('\r');
    out.push('\n');
    proof {
        lemma_broken_push(lines_out, "Cookie: "@ + cookie_pair@);
        lines_out = lines_out.push("Cookie: "@ + cookie_pair@);
        assert(out@ =~= broken(lines_out));
    }
    if !is_upgrade {
        out.append("Connection: close");
        out.push('\r');
        out.push('\n');
        proof {
            lemma_broken_push(lines_out, "Connection: close"@);
            lines_out = lines_out.push("Connection: close"@);
            assert(out@ =~= broken(lines_out));
        }
    }
    assert(lines_out =~= client + added_lines(cookie_pair@, sidecar_authority@, is_upgrade));
    out.push('\r');
    out.push('\n');
    assert(out@ =~= broken(lines_out) + text::crlf());
    out
}

/// One more line behind the others.
proof fn lemma_broken_push(lines: Seq<Seq<char>>, line: Seq<char>)
    ensures
        broken(lines.push(line)) == broken(lines) + line + text::crlf(),
{
    assert(lines.push(line).drop_last() =~= lines);
}

/// Rebuilds a request head for the sidecar: the client's lines that stay, with
/// `Origin` and `Referer` re-pointed, then `Host`, the session cookie and, on a
/// plain request, `Connection: close`.
pub fn rewrite_head(
    head: &str,
    cookie_pair: &str,
    sidecar_authority: &str,
    is_upgrade: bool,
) -> (r: Vec<u8>)
    ensures
        r@ == encode_utf8(rewritten_head(head@, cookie_pair@, sidecar_authority@, is_upgrade)),
{
    rewritten_text(head, cookie_pair, sidecar_authority, is_upgrade).as_str().as_bytes_vec()
}

/// The sidecar's authority on the loopback interface.
pub fn sidecar_authority(port: u16) -> (r: String)
    ensures
        r@ == loopback_authority(port),
{
    let mut out = "127.0.0.1:".to_string();
    out.append(text::decimal_text(port as u64).as_str());
    out
}

/// The first bytes that the sidecar is sent for a request.
pub open spec fn forwarded_bytes(
    head: Seq<char>,
    rest: Seq<u8>,
    cookie_pair: Seq<char>,
    sidecar_port: u16,
) -> Seq<u8> {
    encode_utf8(
        rewritten_head(
            head,
            cookie_pair,
            loopback_authority(sidecar_port),
            asks_upgrade(head),
        ),
    ) + rest
}

/// The first bytes that the sidecar is sent for a request: the rewritten head,
/// then whatever arrived behind the client's head.
pub fn forwarded_request(
    head: &str,
    rest: &[u8],
    cookie_pair: &str,
    sidecar_port: u16,
) -> (r: Vec<u8>)
    ensures
        r@ == encode_utf8(
            rewritten_head(
                head@,
                cookie_pair@,
                loopback_authority(sidecar_port),
                asks_upgrade(head@),
            ),
        ) + rest@,
        r@ == forwarded_bytes(head@, rest@, cookie_pair@, sidecar_port),
{
    let authority = sidecar_authority(sidecar_port);
    let mut out = rewrite_head(head, cookie_pair, authority.as_str(), is_upgrade_request(head));
    bytes::append_bytes(&mut out, rest, 0);
    assert(rest@.skip(0) =~= rest@);
    out
}

// ── laws ───────────────────────────────────────────────────────────────────

/// Once the head is complete, bytes that arrive later do not change it.
pub proof fn law_later_bytes_leave_the_head(raw: Seq<u8>, more: Seq<u8>, end: int)
    requires
        head_ends_at(raw, end),
    ensures
        head_ends_at(raw + more, end),
        (raw + more).take(end) == raw.take(end),
        (raw + more).skip(end) == raw.skip(end) + more,
{
    let all = raw + more;
    assert(blank_line_at(all, end - 4));
    assert forall|j: int| j < end - 4 implies !blank_line_at(all, j) by {
        assert(!blank_line_at(raw, j));
    }
    assert(all.take(end) =~= raw.take(end));
    assert(all.skip(end) =~= raw.skip(end) + more);
}

/// Broken lines split into the lines again.
pub proof fn lemma_split_broken(lines: Seq<Seq<char>>, rest: Seq<char>)
    requires
        forall|i: int| 0 <= i < lines.len() ==> text::one_line(#[trigger] lines[i]),
    ensures
        text::split_text(broken(lines) + rest, text::crlf()) == lines + text::split_text(rest, text::crlf()),
    decreases lines.len(),
{
    if lines.len() == 0 {
        assert(broken(lines) + rest =~= rest);
        assert(lines + text::split_text(rest, text::crlf()) =~= text::split_text(rest, text::crlf()));
    } else {
        let front = lines.drop_last();
        assert forall|i: int| 0 <= i < front.len() implies text::one_line(#[trigger] front[i]) by {
            assert(front[i] == lines[i]);
        }
        let tail = lines.last() + text::crlf() + rest;
        assert(broken(lines) + rest =~= broken(front) + tail);
        lemma_split_broken(front, tail);
        text::lemma_split_line(lines.last(), rest);
        assert(front + (seq![lines.last()] + text::split_text(rest, text::crlf())) =~= lines
            + text::split_text(rest, text::crlf()));
    }
}

/// Re-pointing a line at a non-empty authority adds no line break.
proof fn lemma_replaced_is_one_line(s: Seq<char>, from: Seq<char>, to: Seq<char>)
    requires
        text::one_line(s),
        text::unbroken(to),
        to.len() > 0,
    ensures
        text::one_line(replace_first(s, from, to)),
{
    text::lemma_find_from(s, from, 0);
    match text::find(s, from) {
        Some(k) => {
            let r = replace_first(s, from, to);
            let tail = s.skip(k + from.len());
            let n = to.len() as int;
            assert forall|i: int| !#[trigger] text::occurs_at(r, text::crlf(), i) by {
                text::lemma_break_at(r, i);
                if text::occurs_at(r, text::crlf(), i) {
                    if i + 1 < k {
                        text::lemma_break_at(s, i);
                        assert(r[i] == s[i] && r[i + 1] == s[i + 1]);
                        assert(!text::occurs_at(s, text::crlf(), i));
                    } else if i + 1 == k {
                        assert(r[i + 1] == to[0]);
                    } else if i < k + n {
                        assert(r[i] == to[i - k]);
                    } else {
                        let j = i - n + from.len();
                        text::lemma_break_at(s, j);
                        assert(r[i] == s[j] && r[i + 1] == s[j + 1]);
                        assert(!text::occurs_at(s, text::crlf(), j));
                    }
                }
            }
        },
        None => {},
    }
}

/// What reaches the sidecar of lines without line breaks has none.
proof fn lemma_forwarded_are_lines(
    lines: Seq<Seq<char>>,
    from: Seq<char>,
    to: Seq<char>,
    is_upgrade: bool,
)
    requires
        forall|i: int| 0 <= i < lines.len() ==> text::one_line(#[trigger] lines[i]),
        text::unbroken(to),
        to.len() > 0,
    ensures
        forall|i: int|
            0 <= i < forwarded_lines(lines, from, to, is_upgrade).len() ==> text::one_line(
                #[trigger] forwarded_lines(lines, from, to, is_upgrade)[i],
            ),
    decreases lines.len(),
{
    if lines.len() > 0 {
        let front = lines.drop_last();
        assert forall|i: int| 0 <= i < front.len() implies text::one_line(#[trigger] front[i]) by {
            assert(front[i] == lines[i]);
        }
        lemma_forwarded_are_lines(front, from, to, is_upgrade);
        assert(text::one_line(lines[lines.len() - 1]));
        lemma_replaced_is_one_line(lines.last(), from, to);
        let before = forwarded_lines(front, from, to, is_upgrade);
        let all = forwarded_lines(lines, from, to, is_upgrade);
        assert forall|i: int| 0 <= i < all.len() implies text::one_line(#[trigger] all[i]) by {
            if i < before.len() {
                assert(all[i] == before[i]);
            }
        }
    }
}

/// The sidecar's authority fits on a header line.
pub proof fn lemma_authority_is_unbroken(port: u16)
    ensures
        text::unbroken(loopback_authority(port)),
        loopback_authority(port).len() > 0,
{
    reveal_strlit("127.0.0.1:");
    text::lemma_decimal_is_digits(port as nat);
    let authority = loopback_authority(port);
    let front = "127.0.0.1:"@;
    assert forall|i: int| 0 <= i < authority.len() implies #[trigger] authority[i] != '\r'
        && authority[i] != '\n' by {
        if i < front.len() {
            assert(authority[i] == front[i]);
        } else {
            assert(authority[i] == text::decimal(port as nat)[i - front.len()]);
        }
    }
}

/// Read line by line, the rewritten head is the client's forwarded lines, the
/// lines that the proxy adds, and the blank line that ends it: nothing that the
/// client sent can end the head early or hide what the proxy added.
pub proof fn law_the_sidecar_reads_these_lines(
    head: Seq<char>,
    cookie_pair: Seq<char>,
    sidecar_authority: Seq<char>,
    is_upgrade: bool,
)
    requires
        text::one_line(cookie_pair),
        text::unbroken(sidecar_authority),
        sidecar_authority.len() > 0,
    ensures
        text::split_text(
            rewritten_head(head, cookie_pair, sidecar_authority, is_upgrade),
            text::crlf(),
        ) == rewritten_lines(head, cookie_pair, sidecar_authority, is_upgrade) + seq![
            Seq::<char>::empty(),
            Seq::<char>::empty(),
        ],
{
    reveal_strlit("Host: ");
    reveal_strlit("Cookie: ");
    reveal_strlit("Connection: close");
    let body = text::strip_all(text::strip_all(head, text::crlf()), seq!['\0']);
    let client = head_lines(head);
    text::lemma_pieces_are_lines(body);
    let from = client_authority(client);
    lemma_forwarded_are_lines(client, from, sidecar_authority, is_upgrade);
    let forwarded = forwarded_lines(client, from, sidecar_authority, is_upgrade);
    let added = added_lines(cookie_pair, sidecar_authority, is_upgrade);
    let all = forwarded + added;
    assert forall|i: int| 0 <= i < all.len() implies text::one_line(#[trigger] all[i]) by {
        if i >= forwarded.len() {
            assert(all[i] == added[i - forwarded.len()]);
            if i == forwarded.len() + 1 {
                text::lemma_joined_is_one_line("Cookie: "@, cookie_pair);
            } else {
                assert(text::unbroken(all[i]));
                text::lemma_unbroken_is_one_line(all[i]);
            }
        } else {
            assert(all[i] == forwarded[i]);
        }
    }
    let empty = Seq::<char>::empty();
    lemma_split_broken(all, text::crlf());
    assert(empty + text::crlf() + empty =~= text::crlf());
    assert(text::unbroken(empty));
    text::lemma_unbroken_is_one_line(empty);
    text::lemma_split_line(empty, empty);
    text::lemma_find_from(empty, text::crlf(), 0);
    assert(text::split_text(empty, text::crlf()) =~= seq![empty]);
    assert(text::split_text(text::crlf(), text::crlf()) =~= seq![empty, empty]);
}

/// A line that begins with a digit carries none of the fields that the proxy
/// sets, nor does one that begins as `Origin` and `Referer` do.
proof fn lemma_other_first_letter(line: Seq<char>)
    requires
        line.len() > 0,
        text::is_digit(line[0]) || text::lower_char(line[0]) == 'o' || text::lower_char(line[0])
            == 'r',
    ensures
        !has_field(line, "cookie:"@),
        !has_field(line, "host:"@),
        !has_field(line, "connection:"@),
{
    reveal_strlit("cookie:");
    reveal_strlit("host:");
    reveal_strlit("connection:");
    let l = text::lower(line);
    assert(l[0] == text::lower_char(line[0]));
    if has_field(line, "cookie:"@) {
        assert(l.subrange(0, 7)[0] == l[0]);
    }
    if has_field(line, "host:"@) {
        assert(l.subrange(0, 5)[0] == l[0]);
    }
    if has_field(line, "connection:"@) {
        assert(l.subrange(0, 11)[0] == l[0]);
    }
}

/// A forwarded client line carries none of the fields that the proxy sets.
proof fn lemma_forwarded_line_carries(
    line: Seq<char>,
    from: Seq<char>,
    to: Seq<char>,
    is_upgrade: bool,
)
    requires
        line_kept(line, is_upgrade),
        to.len() > 0,
        text::is_digit(to[0]),
    ensures
        line_kept(line_forwarded(line, from, to), is_upgrade),
{
    reveal_strlit("origin:");
    reveal_strlit("referer:");
    if from.len() > 0 && (has_field(line, "origin:"@) || has_field(line, "referer:"@)) {
        text::lemma_find_from(line, from, 0);
        let l = text::lower(line);
        if has_field(line, "origin:"@) {
            assert(l.subrange(0, 7)[0] == l[0]);
        } else {
            assert(l.subrange(0, 8)[0] == l[0]);
        }
        assert(l[0] == text::lower_char(line[0]));
        lemma_other_first_letter(line_forwarded(line, from, to));
    }
}

/// None of the forwarded client lines carries a field that the proxy sets.
proof fn lemma_forwarded_lines_carry(
    lines: Seq<Seq<char>>,
    from: Seq<char>,
    to: Seq<char>,
    is_upgrade: bool,
)
    requires
        to.len() > 0,
        text::is_digit(to[0]),
    ensures
        forall|i: int|
            0 <= i < forwarded_lines(lines, from, to, is_upgrade).len() ==> line_kept(
                #[trigger] forwarded_lines(lines, from, to, is_upgrade)[i],
                is_upgrade,
            ),
    decreases lines.len(),
{
    if lines.len() > 0 {
        let front = lines.drop_last();
        lemma_forwarded_lines_carry(front, from, to, is_upgrade);
        if line_kept(lines.last(), is_upgrade) {
            lemma_forwarded_line_carries(lines.last(), from, to, is_upgrade);
        }
        let before = forwarded_lines(front, from, to, is_upgrade);
        let all = forwarded_lines(lines, from, to, is_upgrade);
        assert forall|i: int| 0 <= i < all.len() implies line_kept(
            #[trigger] all[i],
            is_upgrade,
        ) by {
            if i < before.len() {
                assert(all[i] == before[i]);
            }
        }
    }
}

/// The proxy owns authentication: whatever the client sent, the one `Cookie`
/// line that reaches the sidecar is the minted one, the one `Host` line names
/// the sidecar, and on a plain request the one `Connection` line closes.
pub proof fn law_the_proxy_owns_authentication(
    head: Seq<char>,
    cookie_pair: Seq<char>,
    sidecar_port: u16,
    is_upgrade: bool,
)
    ensures
        ({
            let authority = loopback_authority(sidecar_port);
            let lines = rewritten_lines(head, cookie_pair, authority, is_upgrade);
            let n = forwarded_lines(
                head_lines(head),
                client_authority(head_lines(head)),
                authority,
                is_upgrade,
            ).len() as int;
            &&& lines[n] == "Host: "@ + authority
            &&& lines[n + 1] == "Cookie: "@ + cookie_pair
            &&& !is_upgrade ==> lines[n + 2] == "Connection: close"@
            &&& forall|i: int|
                0 <= i < lines.len() ==> {
                    &&& has_field(#[trigger] lines[i], "host:"@) <==> i == n
                    &&& has_field(lines[i], "cookie:"@) <==> i == n + 1
                    &&& !is_upgrade ==> (has_field(lines[i], "connection:"@) <==> i == n + 2)
                }
        }),
{
    let authority = loopback_authority(sidecar_port);
    reveal_strlit("127.0.0.1:");
    assert(authority[0] == '1');
    let client = head_lines(head);
    let from = client_authority(client);
    let forwarded = forwarded_lines(client, from, authority, is_upgrade);
    lemma_forwarded_lines_carry(client, from, authority, is_upgrade);
    reveal_strlit("Host: ");
    reveal_strlit("Cookie: ");
    reveal_strlit("Connection: close");
    reveal_strlit("host:");
    reveal_strlit("cookie:");
    reveal_strlit("connection:");
    let added = added_lines(cookie_pair, authority, is_upgrade);
    let host_line = "Host: "@ + authority;
    let cookie_line = "Cookie: "@ + cookie_pair;
    let close_line = "Connection: close"@;
    assert(text::lower(host_line).subrange(0, 5) =~= "host:"@);
    assert(text::lower(host_line).subrange(0, 7)[0] == 'h');
    assert(text::lower(host_line)[0] == 'h');
    assert(text::lower(cookie_line).subrange(0, 7) =~= "cookie:"@);
    assert(text::lower(cookie_line).subrange(0, 5)[0] == 'c');
    assert(text::lower(cookie_line)[2] == 'o');
    assert(text::lower(close_line).subrange(0, 11) =~= "connection:"@);
    assert(text::lower(close_line).subrange(0, 5)[0] == 'c');
    assert(text::lower(close_line).subrange(0, 7)[2] == 'n');
    assert(!has_field(host_line, "cookie:"@));
    assert(!has_field(cookie_line, "host:"@));
    assert(!has_field(close_line, "host:"@));
    assert(!has_field(close_line, "cookie:"@));
    if !is_upgrade {
        assert(!has_field(host_line, "connection:"@)) by {
            if has_field(host_line, "connection:"@) {
                assert(text::lower(host_line).subrange(0, 11)[0] == 'h');
            }
        }
        assert(!has_field(cookie_line, "connection:"@)) by {
            if has_field(cookie_line, "connection:"@) {
                assert(text::lower(cookie_line).subrange(0, 11)[2] == 'o');
            }
        }
    }
    let lines = forwarded + added;
    assert forall|i: int| 0 <= i < lines.len() implies {
        &&& has_field(#[trigger] lines[i], "host:"@) <==> i == forwarded.len()
        &&& has_field(lines[i], "cookie:"@) <==> i == forwarded.len() + 1
        &&& !is_upgrade ==> (has_field(lines[i], "connection:"@) <==> i == forwarded.len() + 2)
    } by {
        if i < forwarded.len() {
            assert(lines[i] == forwarded[i]);
        } else {
            assert(lines[i] == added[i - forwarded.len()]);
        }
    }
}

/// Every client line that is not dropped reaches the sidecar.
proof fn lemma_kept_lines_arrive(
    lines: Seq<Seq<char>>,
    from: Seq<char>,
    to: Seq<char>,
    is_upgrade: bool,
    i: int,
)
    requires
        0 <= i < lines.len(),
        line_kept(lines[i], is_upgrade),
    ensures
        forwarded_lines(lines, from, to, is_upgrade).contains(line_forwarded(lines[i], from, to)),
    decreases lines.len(),
{
    let front = lines.drop_last();
    let before = forwarded_lines(front, from, to, is_upgrade);
    let all = forwarded_lines(lines, from, to, is_upgrade);
    if i == lines.len() - 1 {
        assert(all.last() == line_forwarded(lines[i], from, to));
    } else {
        assert(front[i] == lines[i]);
        lemma_kept_lines_arrive(front, from, to, is_upgrade, i);
        let k = choose|k: int|
            0 <= k < before.len() && before[k] == line_forwarded(lines[i], from, to);
        assert(all[k] == before[k]);
    }
}

/// An upgrade request keeps its connection headers: each `Connection` line of
/// the client reaches the sidecar as it was.
pub proof fn law_upgrades_keep_their_connection_headers(
    head: Seq<char>,
    cookie_pair: Seq<char>,
    sidecar_authority: Seq<char>,
    i: int,
)
    requires
        0 <= i < head_lines(head).len(),
        has_field(head_lines(head)[i], "connection:"@),
    ensures
        rewritten_lines(head, cookie_pair, sidecar_authority, true).contains(head_lines(head)[i]),
{
    reveal_strlit("host:");
    reveal_strlit("cookie:");
    reveal_strlit("connection:");
    reveal_strlit("origin:");
    reveal_strlit("referer:");
    let client = head_lines(head);
    let line = client[i];
    let l = text::lower(line);
    assert(l.subrange(0, 11)[0] == l[0] && l.subrange(0, 11)[2] == l[2]);
    if has_field(line, "host:"@) {
        assert(l.subrange(0, 5)[0] == l[0]);
    }
    if has_field(line, "cookie:"@) {
        assert(l.subrange(0, 7)[2] == l[2]);
    }
    if has_field(line, "origin:"@) {
        assert(l.subrange(0, 7)[0] == l[0]);
    }
    if has_field(line, "referer:"@) {
        assert(l.subrange(0, 8)[0] == l[0]);
    }
    let from = client_authority(client);
    let forwarded = forwarded_lines(client, from, sidecar_authority, true);
    lemma_kept_lines_arrive(client, from, sidecar_authority, true, i);
    let k = choose|k: int| 0 <= k < forwarded.len() && forwarded[k] == line;
    assert(rewritten_lines(head, cookie_pair, sidecar_authority, true)[k] == line);
}

/// The first client line stays the first of those that are forwarded.
proof fn lemma_first_line_stays_first(
    lines: Seq<Seq<char>>,
    from: Seq<char>,
    to: Seq<char>,
    is_upgrade: bool,
)
    requires
        lines.len() > 0,
        line_kept(lines[0], is_upgrade),
    ensures
        forwarded_lines(lines, from, to, is_upgrade).len() > 0,
        forwarded_lines(lines, from, to, is_upgrade)[0] == line_forwarded(lines[0], from, to),
    decreases lines.len(),
{
    let front = lines.drop_last();
    if front.len() > 0 {
        assert(front[0] == lines[0]);
        lemma_first_line_stays_first(front, from, to, is_upgrade);
    } else {
        assert(forwarded_lines(front, from, to, is_upgrade).len() == 0);
    }
}

/// A head whose first line is a request line, and no header field, keeps it as
/// its first line.
pub proof fn law_the_request_line_comes_first(
    head: Seq<char>,
    cookie_pair: Seq<char>,
    sidecar_authority: Seq<char>,
    is_upgrade: bool,
)
    requires
        line_kept(head_lines(head)[0], is_upgrade),
        !has_field(head_lines(head)[0], "origin:"@),
        !has_field(head_lines(head)[0], "referer:"@),
    ensures
        rewritten_lines(head, cookie_pair, sidecar_authority, is_upgrade)[0] == head_lines(head)[0],
{
    lemma_first_line_stays_first(
        head_lines(head),
        client_authority(head_lines(head)),
        sidecar_authority,
        is_upgrade,
    );
}

/// A copy of `p` at the end of a text is stripped with the text's own.
proof fn lemma_strip_one_more(s: Seq<char>, p: Seq<char>)
    requires
        p.len() > 0,
    ensures
        text::strip_all(s + p, p) == text::strip_all(s, p),
{
    let all = s + p;
    assert(all.subrange(all.len() - p.len(), all.len() as int) =~= p);
    assert(all.take(all.len() - p.len()) =~= s);
}

/// Stripping copies of a `p` whose characters all are others than the last of a
/// text leaves that text alone.
proof fn lemma_strip_stops(s: Seq<char>, more: Seq<char>, p: Seq<char>)
    requires
        s.len() > 0,
        p.len() > 0,
        !p.contains(s.last()),
    ensures
        text::strip_all(s + more, p) == s + text::strip_all(more, p),
    decreases more.len(),
{
    let all = s + more;
    let n = p.len() as int;
    let at = all.len() - n;
    if more.len() >= n {
        assert(all.subrange(at, at + n) =~= more.subrange(more.len() - n, more.len() as int));
        if text::occurs_at(more, p, more.len() - n) {
            assert(all.take(at) =~= s + more.take(more.len() - n));
            lemma_strip_stops(s, more.take(more.len() - n), p);
        }
    } else if text::occurs_at(all, p, at) {
        let i = s.len() - 1 - at;
        assert(all.subrange(at, at + n)[i] == s.last());
        assert(p.contains(s.last()));
    }
}

/// Stripping adds no line break.
proof fn lemma_stripped_is_one_line(s: Seq<char>, p: Seq<char>)
    requires
        text::one_line(s),
    ensures
        text::one_line(text::strip_all(s, p)),
    decreases s.len(),
{
    if 0 < p.len() <= s.len() && text::occurs_at(s, p, s.len() - p.len()) {
        let front = s.take(s.len() - p.len());
        text::lemma_part_is_one_line(s, 0, s.len() - p.len());
        assert(front =~= s.subrange(0, s.len() - p.len()));
        lemma_stripped_is_one_line(front, p);
    }
}

/// One line is its own one piece.
pub proof fn lemma_line_is_one_piece(line: Seq<char>)
    requires
        text::one_line(line),
    ensures
        text::split_text(line, text::crlf()) == seq![line],
{
    text::lemma_find_from(line, text::crlf(), 0);
    match text::find(line, text::crlf()) {
        Some(k) => {
            assert(!text::occurs_at(line, text::crlf(), k));
        },
        None => {},
    }
}

/// Lines with line breaks between them, and a blank line behind the last, are
/// read as those lines, but for NULs at the end of the last.
proof fn lemma_lines_of_written_head(lines: Seq<Seq<char>>)
    requires
        lines.len() > 0,
        forall|i: int| 0 <= i < lines.len() ==> text::one_line(#[trigger] lines[i]),
        lines.last().len() > 0,
        lines.last()[0] != '\0',
    ensures
        head_lines(broken(lines) + text::crlf()) == lines.drop_last().push(
            text::strip_all(lines.last(), seq!['\0']),
        ),
{
    let front = lines.drop_last();
    let last = lines.last();
    let body = broken(front) + last;
    assert(text::one_line(lines[lines.len() - 1]));
    assert(broken(lines) + text::crlf() =~= (body + text::crlf()) + text::crlf());
    lemma_strip_one_more(body + text::crlf(), text::crlf());
    lemma_strip_one_more(body, text::crlf());
    assert(!text::occurs_at(body, text::crlf(), body.len() - 2)) by {
        text::lemma_break_at(body, body.len() - 2);
        if last.len() >= 2 {
            text::lemma_break_at(last, last.len() - 2);
            assert(!text::occurs_at(last, text::crlf(), last.len() - 2));
            assert(body[body.len() - 2] == last[last.len() - 2]);
            assert(body[body.len() - 1] == last[last.len() - 1]);
        } else if front.len() > 0 {
            assert(broken(front).last() == '\n');
            assert(body[body.len() - 2] == broken(front).last());
        } else {
            assert(broken(front).len() == 0);
        }
    }
    assert(text::strip_all(body, text::crlf()) == body);
    let nul = seq!['\0'];
    let first = seq![last[0]];
    let rest = last.skip(1);
    let kept = text::strip_all(last, nul);
    assert(first + rest =~= last);
    lemma_strip_stops(first, rest, nul);
    assert(body =~= (broken(front) + first) + rest);
    lemma_strip_stops(broken(front) + first, rest, nul);
    assert(text::strip_all(body, nul) =~= broken(front) + kept);
    lemma_stripped_is_one_line(last, nul);
    assert forall|i: int| 0 <= i < front.len() implies text::one_line(#[trigger] front[i]) by {
        assert(front[i] == lines[i]);
    }
    lemma_split_broken(front, kept);
    lemma_line_is_one_piece(kept);
    assert(front + seq![kept] =~= front.push(kept));
}

/// The lines that the proxy adds carry the fields that it sets.
proof fn lemma_added_fields(cookie_pair: Seq<char>, sidecar_authority: Seq<char>)
    ensures
        has_field("Host: "@ + sidecar_authority, "host:"@),
        has_field("Cookie: "@ + cookie_pair, "cookie:"@),
        has_field("Connection: close"@, "connection:"@),
{
    reveal_strlit("Host: ");
    reveal_strlit("Cookie: ");
    reveal_strlit("Connection: close");
    reveal_strlit("host:");
    reveal_strlit("cookie:");
    reveal_strlit("connection:");
    assert(text::lower("Host: "@ + sidecar_authority).subrange(0, 5) =~= "host:"@);
    assert(text::lower("Cookie: "@ + cookie_pair).subrange(0, 7) =~= "cookie:"@);
    assert(text::lower("Connection: close"@).subrange(0, 11) =~= "connection:"@);
}

/// Behind lines without `Host`, the authority is that of the `Host` line.
proof fn lemma_written_authority(
    lines: Seq<Seq<char>>,
    sidecar_authority: Seq<char>,
    rest: Seq<Seq<char>>,
)
    requires
        forall|i: int| 0 <= i < lines.len() ==> !has_field(#[trigger] lines[i], "host:"@),
        text::trim(sidecar_authority) == sidecar_authority,
    ensures
        client_authority(lines + seq!["Host: "@ + sidecar_authority] + rest) == sidecar_authority,
    decreases lines.len(),
{
    let host_line = "Host: "@ + sidecar_authority;
    let all = lines + seq![host_line] + rest;
    if lines.len() == 0 {
        lemma_added_fields(Seq::empty(), sidecar_authority);
        reveal_strlit("Host: ");
        assert(all[0] == host_line);
        text::lemma_index_where_is(host_line, text::is_char(':'), 4);
        let none = Seq::<char>::empty();
        assert(host_line.skip(5) =~= seq![' '] + sidecar_authority + none);
        text::lemma_trim_of_padded(seq![' '], sidecar_authority, none);
    } else {
        assert(all[0] == lines[0]);
        let tail = lines.drop_first();
        assert(all.drop_first() =~= tail + seq![host_line] + rest);
        assert forall|i: int| 0 <= i < tail.len() implies !has_field(
            #[trigger] tail[i],
            "host:"@,
        ) by {
            assert(tail[i] == lines[i + 1]);
        }
        lemma_written_authority(tail, sidecar_authority, rest);
    }
}

/// Lines that are kept and re-pointed at the authority that they name already
/// stay as they are.
proof fn lemma_settled_lines_stay(lines: Seq<Seq<char>>, authority: Seq<char>, is_upgrade: bool)
    requires
        forall|i: int| 0 <= i < lines.len() ==> line_kept(#[trigger] lines[i], is_upgrade),
    ensures
        forwarded_lines(lines, authority, authority, is_upgrade) == lines,
    decreases lines.len(),
{
    if lines.len() > 0 {
        let front = lines.drop_last();
        let last = lines.last();
        assert forall|i: int| 0 <= i < front.len() implies line_kept(
            #[trigger] front[i],
            is_upgrade,
        ) by {
            assert(front[i] == lines[i]);
        }
        lemma_settled_lines_stay(front, authority, is_upgrade);
        assert(line_kept(lines[lines.len() - 1], is_upgrade));
        text::lemma_find_from(last, authority, 0);
        if let Some(k) = text::find(last, authority) {
            assert(last.take(k) + authority + last.skip(k + authority.len()) =~= last);
        }
        assert(line_forwarded(last, authority, authority) == last);
        assert(front.push(last) =~= lines);
    } else {
        assert(forwarded_lines(lines, authority, authority, is_upgrade) =~= lines);
    }
}

/// Each client line, as the sidecar gets it, is one line and carries none of the
/// fields that the proxy sets.
pub open spec fn forwards_plain_lines(
    head: Seq<char>,
    sidecar_authority: Seq<char>,
    is_upgrade: bool,
) -> bool {
    let forwarded = forwarded_lines(
        head_lines(head),
        client_authority(head_lines(head)),
        sidecar_authority,
        is_upgrade,
    );
    forall|i: int|
        0 <= i < forwarded.len() ==> text::one_line(#[trigger] forwarded[i]) && line_kept(
            forwarded[i],
            is_upgrade,
        )
}

/// Rewriting a rewritten head changes nothing: fields are replaced and never
/// pile up, as long as no line turns into one of the proxy's fields by being
/// re-pointed.
pub proof fn law_rewriting_twice_is_rewriting_once(
    head: Seq<char>,
    cookie_pair: Seq<char>,
    sidecar_authority: Seq<char>,
    is_upgrade: bool,
)
    requires
        text::one_line(cookie_pair),
        text::unbroken(sidecar_authority),
        text::trim(sidecar_authority) == sidecar_authority,
        forwards_plain_lines(head, sidecar_authority, is_upgrade),
    ensures
        rewritten_head(
            rewritten_head(head, cookie_pair, sidecar_authority, is_upgrade),
            cookie_pair,
            sidecar_authority,
            is_upgrade,
        ) == rewritten_head(head, cookie_pair, sidecar_authority, is_upgrade),
{
    reveal_strlit("Host: ");
    reveal_strlit("Cookie: ");
    reveal_strlit("Connection: close");
    let client = head_lines(head);
    let forwarded = forwarded_lines(
        client,
        client_authority(client),
        sidecar_authority,
        is_upgrade,
    );
    let added = added_lines(cookie_pair, sidecar_authority, is_upgrade);
    let lines = forwarded + added;
    let host_line = "Host: "@ + sidecar_authority;
    let cookie_line = "Cookie: "@ + cookie_pair;
    lemma_added_fields(cookie_pair, sidecar_authority);
    text::lemma_joined_is_one_line("Cookie: "@, cookie_pair);
    assert forall|i: int| 0 <= i < lines.len() implies text::one_line(#[trigger] lines[i]) by {
        if i < forwarded.len() {
            assert(lines[i] == forwarded[i]);
        } else {
            assert(lines[i] == added[i - forwarded.len()]);
            if i != forwarded.len() + 1 {
                assert(text::unbroken(lines[i]));
                text::lemma_unbroken_is_one_line(lines[i]);
            }
        }
    }
    let nul = seq!['\0'];
    assert(lines.last() == added.last());
    lemma_lines_of_written_head(lines);
    let again = rewritten_head(head, cookie_pair, sidecar_authority, is_upgrade);
    let pair_read = if is_upgrade {
        text::strip_all(cookie_pair, nul)
    } else {
        cookie_pair
    };
    let cookie_read = "Cookie: "@ + pair_read;
    let close_line = "Connection: close"@;
    let read = if is_upgrade {
        forwarded.push(host_line).push(cookie_read)
    } else {
        forwarded.push(host_line).push(cookie_read).push(close_line)
    };
    assert(head_lines(again) == read) by {
        if is_upgrade {
            lemma_strip_stops("Cookie: "@, cookie_pair, nul);
            assert(lines.drop_last() =~= forwarded.push(host_line));
        } else {
            assert(close_line.last() == 'e');
            assert(!text::occurs_at(close_line, nul, close_line.len() - 1)) by {
                if text::occurs_at(close_line, nul, close_line.len() - 1) {
                    assert(close_line.subrange(
                        close_line.len() - 1,
                        close_line.len() as int,
                    )[0] == 'e');
                }
            }
            assert(lines.drop_last() =~= forwarded.push(host_line).push(cookie_read));
        }
    }
    assert forall|i: int| 0 <= i < forwarded.len() implies !has_field(
        #[trigger] forwarded[i],
        "host:"@,
    ) && line_kept(forwarded[i], is_upgrade) by {}
    let behind = read.skip(forwarded.len() as int + 1);
    lemma_written_authority(forwarded, sidecar_authority, behind);
    assert(forwarded + seq![host_line] + behind =~= read);
    lemma_settled_lines_stay(forwarded, sidecar_authority, is_upgrade);
    lemma_added_fields(pair_read, sidecar_authority);
    let a = sidecar_authority;
    let with_host = forwarded.push(host_line);
    let with_cookie = with_host.push(cookie_read);
    assert(with_host.drop_last() =~= forwarded);
    assert(forwarded_lines(with_host, a, a, is_upgrade) == forwarded);
    assert(with_cookie.drop_last() =~= with_host);
    assert(forwarded_lines(with_cookie, a, a, is_upgrade) == forwarded);
    if !is_upgrade {
        assert(read.drop_last() =~= with_cookie);
    }
    assert(forwarded_lines(read, a, a, is_upgrade) == forwarded);
}

/// The sidecar's authority holds no white space.
proof fn lemma_authority_is_trimmed(port: u16)
    ensures
        text::trim(loopback_authority(port)) == loopback_authority(port),
        text::is_digit(loopback_authority(port)[0]),
{
    reveal_strlit("127.0.0.1:");
    text::lemma_decimal_is_digits(port as nat);
    let authority = loopback_authority(port);
    assert(authority[0] == '1');
    assert(authority.last() == text::decimal(port as nat).last());
    assert(text::is_digit(authority.last())) by {
        assert(text::is_digit(text::decimal(port as nat)[text::decimal(port as nat).len() - 1]));
    }
}

/// Rewriting a head that was rewritten for the sidecar on the loopback interface
/// changes nothing, whatever the client sent.
pub proof fn law_fields_never_pile_up(
    head: Seq<char>,
    cookie_pair: Seq<char>,
    sidecar_port: u16,
    is_upgrade: bool,
)
    requires
        text::one_line(cookie_pair),
    ensures
        ({
            let authority = loopback_authority(sidecar_port);
            let once = rewritten_head(head, cookie_pair, authority, is_upgrade);
            rewritten_head(once, cookie_pair, authority, is_upgrade) == once
        }),
{
    let authority = loopback_authority(sidecar_port);
    let client = head_lines(head);
    let from = client_authority(client);
    lemma_authority_is_unbroken(sidecar_port);
    lemma_authority_is_trimmed(sidecar_port);
    text::lemma_pieces_are_lines(
        text::strip_all(text::strip_all(head, text::crlf()), seq!['\0']),
    );
    lemma_forwarded_are_lines(client, from, authority, is_upgrade);
    lemma_forwarded_lines_carry(client, from, authority, is_upgrade);
    law_rewriting_twice_is_rewriting_once(head, cookie_pair, authority, is_upgrade);
}

/// The lines of two heads are the same, but for what the `Cookie` lines say.
pub open spec fn alike_but_for_cookies(one: Seq<Seq<char>>, other: Seq<Seq<char>>) -> bool {
    &&& one.len() == other.len()
    &&& forall|i: int|
        0 <= i < one.len() ==> #[trigger] one[i] == other[i] || (has_field(one[i], "cookie:"@)
            && has_field(other[i], "cookie:"@))
}

/// A `Cookie` line is no `Host` line.
proof fn lemma_cookie_is_no_host(line: Seq<char>)
    requires
        has_field(line, "cookie:"@),
    ensures
        !has_field(line, "host:"@),
{
    reveal_strlit("cookie:");
    reveal_strlit("host:");
    let l = text::lower(line);
    assert(l.subrange(0, 7)[0] == l[0]);
    if has_field(line, "host:"@) {
        assert(l.subrange(0, 5)[0] == l[0]);
    }
}

/// Cookies have no say in the authority that the client addressed.
proof fn lemma_cookies_and_authority(one: Seq<Seq<char>>, other: Seq<Seq<char>>)
    requires
        alike_but_for_cookies(one, other),
    ensures
        client_authority(one) == client_authority(other),
    decreases one.len(),
{
    if one.len() > 0 {
        assert(one[0] == other[0] || (has_field(one[0], "cookie:"@) && has_field(
            other[0],
            "cookie:"@,
        )));
        if one[0] != other[0] {
            lemma_cookie_is_no_host(one[0]);
            lemma_cookie_is_no_host(other[0]);
        }
        let a = one.drop_first();
        let b = other.drop_first();
        assert forall|i: int| 0 <= i < a.len() implies #[trigger] a[i] == b[i] || (has_field(
            a[i],
            "cookie:"@,
        ) && has_field(b[i], "cookie:"@)) by {
            assert(a[i] == one[i + 1] && b[i] == other[i + 1]);
        }
        lemma_cookies_and_authority(a, b);
    }
}

/// Cookies have no say in the lines that reach the sidecar.
proof fn lemma_cookies_and_lines(
    one: Seq<Seq<char>>,
    other: Seq<Seq<char>>,
    from: Seq<char>,
    to: Seq<char>,
    is_upgrade: bool,
)
    requires
        alike_but_for_cookies(one, other),
    ensures
        forwarded_lines(one, from, to, is_upgrade) == forwarded_lines(other, from, to, is_upgrade),
    decreases one.len(),
{
    if one.len() > 0 {
        let a = one.drop_last();
        let b = other.drop_last();
        let last = one.len() - 1;
        assert(one[last] == other[last] || (has_field(one[last], "cookie:"@) && has_field(
            other[last],
            "cookie:"@,
        )));
        assert forall|i: int| 0 <= i < a.len() implies #[trigger] a[i] == b[i] || (has_field(
            a[i],
            "cookie:"@,
        ) && has_field(b[i], "cookie:"@)) by {
            assert(a[i] == one[i] && b[i] == other[i]);
        }
        lemma_cookies_and_lines(a, b, from, to, is_upgrade);
    }
}

/// Nothing of a client cookie reaches the sidecar: heads whose lines differ only
/// in what their `Cookie` lines say are rewritten alike.
pub proof fn law_client_cookies_have_no_say(
    one: Seq<char>,
    other: Seq<char>,
    cookie_pair: Seq<char>,
    sidecar_authority: Seq<char>,
    is_upgrade: bool,
)
    requires
        alike_but_for_cookies(head_lines(one), head_lines(other)),
    ensures
        rewritten_head(one, cookie_pair, sidecar_authority, is_upgrade) == rewritten_head(
            other,
            cookie_pair,
            sidecar_authority,
            is_upgrade,
        ),
{
    lemma_cookies_and_authority(head_lines(one), head_lines(other));
    lemma_cookies_and_lines(
        head_lines(one),
        head_lines(other),
        client_authority(head_lines(one)),
        sidecar_authority,
        is_upgrade,
    );
}

/// Text, a line break and more text split into the lines of both.
proof fn lemma_split_both(front: Seq<char>, rest: Seq<char>)
    ensures
        text::split_text(front + text::crlf() + rest, text::crlf()) == text::split_text(
            front,
            text::crlf(),
        ) + text::split_text(rest, text::crlf()),
    decreases front.len(),
{
    text::lemma_find_from(front, text::crlf(), 0);
    match text::find(front, text::crlf()) {
        Some(k) => {
            let line = front.take(k);
            let tail = front.skip(k + 2);
            assert forall|j: int| !#[trigger] text::occurs_at(line, text::crlf(), j) by {
                text::lemma_break_at(line, j);
                text::lemma_break_at(front, j);
                if text::occurs_at(line, text::crlf(), j) {
                    assert(!text::occurs_at(front, text::crlf(), j));
                }
            }
            text::lemma_break_at(front, k);
            assert(front + text::crlf() + rest =~= line + text::crlf() + (tail + text::crlf()
                + rest));
            text::lemma_split_line(line, tail + text::crlf() + rest);
            lemma_split_both(tail, rest);
            assert(seq![line] + (text::split_text(tail, text::crlf()) + text::split_text(
                rest,
                text::crlf(),
            )) =~= (seq![line] + text::split_text(tail, text::crlf())) + text::split_text(
                rest,
                text::crlf(),
            ));
        },
        None => {
            assert forall|j: int| !#[trigger] text::occurs_at(front, text::crlf(), j) by {
                if j < 0 {
                    assert(!text::occurs_at(front, text::crlf(), j));
                }
            }
            text::lemma_split_line(front, rest);
        },
    }
}

/// A text that is empty or begins with a line break stays so when line breaks
/// or NULs are stripped from its end.
proof fn lemma_stripped_begins_with_break(s: Seq<char>, p: Seq<char>)
    requires
        s.len() == 0 || text::begins_with(s, text::crlf()),
        p == text::crlf() || p == seq!['\0'],
    ensures
        text::strip_all(s, p).len() == 0 || text::begins_with(
            text::strip_all(s, p),
            text::crlf(),
        ),
    decreases s.len(),
{
    text::lemma_break_at(s, 0);
    if p.len() <= s.len() && text::occurs_at(s, p, s.len() - p.len()) {
        let n = s.len() - p.len();
        let front = s.take(n);
        assert(s.subrange(n, s.len() as int)[0] == s[n]);
        if n > 0 {
            if n == 1 {
                assert(s[1] == '\n');
                assert(p[0] == s[1]);
                assert(false);
            }
            text::lemma_break_at(front, 0);
        }
        lemma_stripped_begins_with_break(front, p);
    }
}

/// A head around one of its lines: the text before it and its line break, where
/// there is any, the line, and the text behind it.
pub open spec fn head_around(
    before: Option<Seq<char>>,
    line: Seq<char>,
    behind: Seq<char>,
) -> Seq<char> {
    match before {
        Some(front) => front + text::crlf() + line + behind,
        None => line + behind,
    }
}

/// A line without carriage return, line feed and NUL is one of the lines of the
/// head that it stands in, and has no say in the others.
proof fn lemma_line_in_head(before: Option<Seq<char>>, line: Seq<char>, behind: Seq<char>) -> (r: (
    Seq<Seq<char>>,
    Seq<Seq<char>>,
))
    requires
        line.len() > 0,
        text::unbroken(line),
        !line.contains('\0'),
        behind.len() == 0 || text::begins_with(behind, text::crlf()),
    ensures
        head_lines(head_around(before, line, behind)) == r.0 + seq![line] + r.1,
        r.0 == match before {
            Some(front) => text::split_text(front, text::crlf()),
            None => Seq::empty(),
        },
        r.1 == ({
            let kept = text::strip_all(text::strip_all(behind, text::crlf()), seq!['\0']);
            if kept.len() == 0 {
                Seq::empty()
            } else {
                text::split_text(kept.skip(2), text::crlf())
            }
        }),
{
    let nul = seq!['\0'];
    let crlf = text::crlf();
    let open = head_around(before, line, Seq::empty());
    let head = head_around(before, line, behind);
    assert(head =~= open + behind);
    assert(open.last() == line.last());
    assert(line[line.len() - 1] == line.last());
    assert(line.contains(line.last()));
    lemma_strip_stops(open, behind, crlf);
    let once = text::strip_all(behind, crlf);
    lemma_strip_stops(open, once, nul);
    let kept = text::strip_all(once, nul);
    lemma_stripped_begins_with_break(behind, crlf);
    lemma_stripped_begins_with_break(once, nul);
    assert(head_lines(head) == text::split_text(open + kept, crlf));
    text::lemma_unbroken_is_one_line(line);
    let after = if kept.len() == 0 {
        Seq::<Seq<char>>::empty()
    } else {
        text::split_text(kept.skip(2), crlf)
    };
    let tail = line + kept;
    assert(text::split_text(tail, crlf) =~= seq![line] + after) by {
        if kept.len() == 0 {
            assert(tail =~= line);
            lemma_line_is_one_piece(line);
        } else {
            text::lemma_break_at(kept, 0);
            assert(tail =~= line + crlf + kept.skip(2));
            text::lemma_split_line(line, kept.skip(2));
        }
    }
    match before {
        Some(front) => {
            assert(open + kept =~= front + crlf + tail);
            lemma_split_both(front, tail);
            let first = text::split_text(front, crlf);
            assert(first + (seq![line] + after) =~= first + seq![line] + after);
            (first, after)
        },
        None => {
            assert(open + kept =~= tail);
            let first = Seq::<Seq<char>>::empty();
            assert(seq![line] + after =~= first + seq![line] + after);
            (first, after)
        },
    }
}

/// A head says nothing to the sidecar by the value of a `Cookie` line: with any
/// other value in its place it is rewritten alike. The values hold no carriage
/// return, line feed or NUL.
pub proof fn law_a_cookie_value_has_no_say(
    before: Option<Seq<char>>,
    field: Seq<char>,
    one: Seq<char>,
    other: Seq<char>,
    behind: Seq<char>,
    cookie_pair: Seq<char>,
    sidecar_authority: Seq<char>,
    is_upgrade: bool,
)
    requires
        text::lower(field) == "cookie:"@,
        text::unbroken(one) && !one.contains('\0'),
        text::unbroken(other) && !other.contains('\0'),
        behind.len() == 0 || text::begins_with(behind, text::crlf()),
    ensures
        rewritten_head(
            head_around(before, field + one, behind),
            cookie_pair,
            sidecar_authority,
            is_upgrade,
        ) == rewritten_head(
            head_around(before, field + other, behind),
            cookie_pair,
            sidecar_authority,
            is_upgrade,
        ),
{
    lemma_cookie_line(field, one);
    lemma_cookie_line(field, other);
    let (first, after) = lemma_line_in_head(before, field + one, behind);
    lemma_line_in_head(before, field + other, behind);
    let a = head_around(before, field + one, behind);
    let b = head_around(before, field + other, behind);
    let x = head_lines(a);
    let y = head_lines(b);
    assert(x == first + seq![field + one] + after);
    assert(y == first + seq![field + other] + after);
    assert forall|i: int| 0 <= i < x.len() implies #[trigger] x[i] == y[i] || (has_field(
        x[i],
        "cookie:"@,
    ) && has_field(y[i], "cookie:"@)) by {
        if i == first.len() {
            assert(x[i] == field + one && y[i] == field + other);
        }
    }
    law_client_cookies_have_no_say(a, b, cookie_pair, sidecar_authority, is_upgrade);
}

/// The field name and a value make a `Cookie` line.
proof fn lemma_cookie_line(field: Seq<char>, value: Seq<char>)
    requires
        text::lower(field) == "cookie:"@,
        text::unbroken(value) && !value.contains('\0'),
    ensures
        has_field(field + value, "cookie:"@),
        (field + value).len() > 0,
        text::unbroken(field + value),
        !(field + value).contains('\0'),
{
    reveal_strlit("cookie:");
    let line = field + value;
    assert(field.len() == 7) by {
        assert(text::lower(field).len() == field.len());
    }
    assert forall|i: int| 0 <= i < 7 implies text::lower_char(#[trigger] field[i])
        == "cookie:"@[i] by {
        assert(text::lower(field)[i] == text::lower_char(field[i]));
    }
    assert(text::lower(line).subrange(0, 7) =~= "cookie:"@) by {
        assert forall|i: int| 0 <= i < 7 implies text::lower(line).subrange(0, 7)[i]
            == "cookie:"@[i] by {
            assert(line[i] == field[i]);
        }
    }
    assert forall|i: int| 0 <= i < line.len() implies #[trigger] line[i] != '\r' && line[i] != '\n'
        && line[i] != '\0' by {
        if i < 7 {
            assert(line[i] == field[i]);
            assert(text::lower_char(field[i]) == "cookie:"@[i]);
        } else {
            assert(line[i] == value[i - 7]);
            assert(value.contains(value[i - 7]));
        }
    }
}

/// A character of a header field's name, in either case.
pub open spec fn is_letter_of(c: char, lower: char) -> bool {
    c == lower || (97 <= lower as int <= 122 && c as int == lower as int - 32)
}

/// A line begins with a name in lower case, read without regard to case.
pub open spec fn is_named(line: Seq<char>, name: Seq<char>) -> bool {
    name.len() <= line.len() && forall|j: int|
        0 <= j < name.len() ==> is_letter_of(line[j], #[trigger] name[j])
}

/// A line carries a field exactly if it begins with the field's name and colon,
/// in any case.
pub proof fn law_fields_are_told_by_their_names(line: Seq<char>, name: Seq<char>)
    requires
        forall|j: int| 0 <= j < name.len() ==> !(65 <= #[trigger] name[j] as int <= 90),
    ensures
        has_field(line, name) <==> is_named(line, name),
{
    let l = text::lower(line);
    text::law_occurrence(l, name, 0);
    if name.len() <= line.len() {
        assert forall|j: int| 0 <= j < name.len() implies (l[j] == #[trigger] name[j]
            <==> is_letter_of(line[j], name[j])) by {
            text::law_lower_case(line, j);
            assert(!(65 <= name[j] as int <= 90));
        }
        if has_field(line, name) {
            assert forall|j: int| 0 <= j < name.len() implies is_letter_of(
                line[j],
                #[trigger] name[j],
            ) by {
                assert(l[j] == name[j]);
            }
        }
        if is_named(line, name) {
            assert forall|j: int| 0 <= j < name.len() implies l[j] == #[trigger] name[j] by {
                assert(is_letter_of(line[j], name[j]));
            }
        }
    }
}

/// The names of the fields that matter here hold no capitals.
proof fn lemma_names_are_lower()
    ensures
        forall|line: Seq<char>| #[trigger]
            has_field(line, "cookie:"@) <==> is_named(line, "cookie:"@),
        forall|line: Seq<char>| #[trigger]
            has_field(line, "host:"@) <==> is_named(line, "host:"@),
        forall|line: Seq<char>| #[trigger]
            has_field(line, "connection:"@) <==> is_named(line, "connection:"@),
        forall|line: Seq<char>| #[trigger]
            has_field(line, "origin:"@) <==> is_named(line, "origin:"@),
        forall|line: Seq<char>| #[trigger]
            has_field(line, "referer:"@) <==> is_named(line, "referer:"@),
{
    reveal_strlit("cookie:");
    reveal_strlit("host:");
    reveal_strlit("connection:");
    reveal_strlit("origin:");
    reveal_strlit("referer:");
    assert forall|line: Seq<char>| #[trigger]
        has_field(line, "cookie:"@) <==> is_named(line, "cookie:"@) by {
        law_fields_are_told_by_their_names(line, "cookie:"@);
    }
    assert forall|line: Seq<char>| #[trigger]
        has_field(line, "host:"@) <==> is_named(line, "host:"@) by {
        law_fields_are_told_by_their_names(line, "host:"@);
    }
    assert forall|line: Seq<char>| #[trigger]
        has_field(line, "connection:"@) <==> is_named(line, "connection:"@) by {
        law_fields_are_told_by_their_names(line, "connection:"@);
    }
    assert forall|line: Seq<char>| #[trigger]
        has_field(line, "origin:"@) <==> is_named(line, "origin:"@) by {
        law_fields_are_told_by_their_names(line, "origin:"@);
    }
    assert forall|line: Seq<char>| #[trigger]
        has_field(line, "referer:"@) <==> is_named(line, "referer:"@) by {
        law_fields_are_told_by_their_names(line, "referer:"@);
    }
}

/// Every line but those that the proxy sets is copied, in the client's order:
/// the rewritten lines are the client's without its `Cookie` and `Host` lines
/// and, on a plain request, its `Connection` lines, with only `Origin` and
/// `Referer` re-pointed; then come the lines that the proxy adds.
pub proof fn law_all_other_lines_are_copied(
    head: Seq<char>,
    cookie_pair: Seq<char>,
    sidecar_authority: Seq<char>,
    is_upgrade: bool,
)
    ensures
        ({
            let lines = head_lines(head);
            let from = client_authority(lines);
            let stays = |line: Seq<char>|
                !is_named(line, "cookie:"@) && !is_named(line, "host:"@) && (is_upgrade
                    || !is_named(line, "connection:"@));
            let arrives = |line: Seq<char>|
                if is_named(line, "origin:"@) || is_named(line, "referer:"@) {
                    line_forwarded(line, from, sidecar_authority)
                } else {
                    line
                };
            let added = if is_upgrade {
                seq!["Host: "@ + sidecar_authority, "Cookie: "@ + cookie_pair]
            } else {
                seq![
                    "Host: "@ + sidecar_authority,
                    "Cookie: "@ + cookie_pair,
                    "Connection: close"@,
                ]
            };
            rewritten_lines(head, cookie_pair, sidecar_authority, is_upgrade) == lines.filter(
                stays,
            ).map_values(arrives) + added
        }),
{
    let lines = head_lines(head);
    lemma_copied_lines(lines, client_authority(lines), sidecar_authority, is_upgrade);
    let added = added_lines(cookie_pair, sidecar_authority, is_upgrade);
    if is_upgrade {
        assert(added =~= seq!["Host: "@ + sidecar_authority, "Cookie: "@ + cookie_pair]);
    } else {
        assert(added =~= seq![
            "Host: "@ + sidecar_authority,
            "Cookie: "@ + cookie_pair,
            "Connection: close"@,
        ]);
    }
}

/// The client's part of what is copied.
proof fn lemma_copied_lines(
    lines: Seq<Seq<char>>,
    from: Seq<char>,
    to: Seq<char>,
    is_upgrade: bool,
)
    ensures
        ({
            let stays = |line: Seq<char>|
                !is_named(line, "cookie:"@) && !is_named(line, "host:"@) && (is_upgrade
                    || !is_named(line, "connection:"@));
            let arrives = |line: Seq<char>|
                if is_named(line, "origin:"@) || is_named(line, "referer:"@) {
                    line_forwarded(line, from, to)
                } else {
                    line
                };
            forwarded_lines(lines, from, to, is_upgrade) == lines.filter(stays).map_values(arrives)
        }),
    decreases lines.len(),
{
    lemma_names_are_lower();
    reveal(Seq::filter);
    let stays = |line: Seq<char>|
        !is_named(line, "cookie:"@) && !is_named(line, "host:"@) && (is_upgrade || !is_named(
            line,
            "connection:"@,
        ));
    let arrives = |line: Seq<char>|
        if is_named(line, "origin:"@) || is_named(line, "referer:"@) {
            line_forwarded(line, from, to)
        } else {
            line
        };
    if lines.len() > 0 {
        let front = lines.drop_last();
        let last = lines.last();
        lemma_copied_lines(front, from, to, is_upgrade);
        assert(line_kept(last, is_upgrade) == stays(last)) by {
            assert(has_field(last, "cookie:"@) <==> is_named(last, "cookie:"@));
            assert(has_field(last, "host:"@) <==> is_named(last, "host:"@));
            assert(has_field(last, "connection:"@) <==> is_named(last, "connection:"@));
        }
        assert(line_forwarded(last, from, to) == arrives(last)) by {
            assert(has_field(last, "origin:"@) <==> is_named(last, "origin:"@));
            assert(has_field(last, "referer:"@) <==> is_named(last, "referer:"@));
        }
        if stays(last) {
            assert(lines.filter(stays) =~= front.filter(stays).push(last));
            assert(lines.filter(stays).map_values(arrives) =~= front.filter(stays).map_values(
                arrives,
            ).push(arrives(last)));
        } else {
            assert(lines.filter(stays) =~= front.filter(stays));
        }
    } else {
        assert(forwarded_lines(lines, from, to, is_upgrade) =~= lines.filter(stays).map_values(
            arrives,
        ));
    }
}

/// A line that names neither `Origin` nor `Referer` is forwarded as it is. In
/// one that does, the first place of the authority that the client addressed is
/// replaced, and nothing else.
pub proof fn law_only_the_first_authority_is_replaced(
    front: Seq<char>,
    from: Seq<char>,
    back: Seq<char>,
    to: Seq<char>,
    line: Seq<char>,
)
    requires
        from.len() > 0,
        forall|j: int|
            0 <= j < front.len() ==> !#[trigger] text::occurs_at(front + from + back, from, j),
    ensures
        is_named(front + from + back, "origin:"@) || is_named(front + from + back, "referer:"@)
            ==> line_forwarded(front + from + back, from, to) == front + to + back,
        !is_named(line, "origin:"@) && !is_named(line, "referer:"@) ==> line_forwarded(
            line,
            from,
            to,
        ) == line,
        !text::holds(line, from) ==> line_forwarded(line, from, to) == line,
        line_forwarded(line, Seq::empty(), to) == line,
{
    lemma_names_are_lower();
    let all = front + from + back;
    let n = front.len() as int;
    assert(has_field(all, "origin:"@) <==> is_named(all, "origin:"@));
    assert(has_field(all, "referer:"@) <==> is_named(all, "referer:"@));
    assert(has_field(line, "origin:"@) <==> is_named(line, "origin:"@));
    assert(has_field(line, "referer:"@) <==> is_named(line, "referer:"@));
    assert(all.subrange(n, n + from.len()) =~= from);
    text::lemma_find_is(all, from, n);
    assert(all.take(n) =~= front);
    assert(all.skip(n + from.len()) =~= back);
    text::law_first_and_last(line, from, 0);
}

/// The client addressed what its first `Host` line says, without the white
/// space around it; without such a line it addressed nothing.
pub proof fn law_the_first_host_line_is_addressed(
    before: Seq<Seq<char>>,
    name: Seq<char>,
    pad: Seq<char>,
    authority: Seq<char>,
    end: Seq<char>,
    rest: Seq<Seq<char>>,
)
    requires
        forall|i: int| 0 <= i < before.len() ==> !is_named(#[trigger] before[i], "host:"@),
        name.len() == 5 && is_named(name, "host:"@),
        forall|i: int| 0 <= i < pad.len() ==> text::is_white(#[trigger] pad[i]),
        forall|i: int| 0 <= i < end.len() ==> text::is_white(#[trigger] end[i]),
        authority.len() > 0 ==> !text::is_white(authority[0]) && !text::is_white(authority.last()),
    ensures
        client_authority(before + seq![name + pad + authority + end] + rest) == authority,
        client_authority(before) == Seq::<char>::empty(),
    decreases before.len(),
{
    lemma_names_are_lower();
    let line = name + pad + authority + end;
    let all = before + seq![line] + rest;
    if before.len() == 0 {
        reveal_strlit("host:");
        assert forall|j: int| 0 <= j < 5 implies is_letter_of(line[j], #[trigger] "host:"@[j]) by {
            assert(line[j] == name[j]);
        }
        assert(is_named(line, "host:"@));
        assert(has_field(line, "host:"@));
        assert(all[0] == line);
        assert(is_letter_of(name[0], "host:"@[0]) && is_letter_of(name[1], "host:"@[1])
            && is_letter_of(name[2], "host:"@[2]) && is_letter_of(name[3], "host:"@[3])
            && is_letter_of(name[4], "host:"@[4]));
        let letters = name.take(4);
        assert(!letters.contains(':')) by {
            assert forall|j: int| 0 <= j < 4 implies letters[j] != ':' by {
                assert(letters[j] == name[j]);
                assert(is_letter_of(name[j], "host:"@[j]));
            }
        }
        let value = pad + authority + end;
        assert(line =~= letters + seq![':'] + value);
        text::law_cutting(letters, ':', value, line);
        text::law_trimming(pad, authority, end);
    } else {
        assert(all[0] == before[0]);
        assert(!is_named(before[0], "host:"@));
        assert(!has_field(before[0], "host:"@));
        let tail = before.drop_first();
        assert(all.drop_first() =~= tail + seq![line] + rest);
        assert forall|i: int| 0 <= i < tail.len() implies !is_named(
            #[trigger] tail[i],
            "host:"@,
        ) by {
            assert(tail[i] == before[i + 1]);
        }
        law_the_first_host_line_is_addressed(tail, name, pad, authority, end, rest);
    }
}

/// A head is read as the lines that it was written with, and a rewritten head is
/// written with its lines: each ended by a line break, and a blank line behind
/// the last.
pub proof fn law_heads_are_written_in_lines(
    lines: Seq<Seq<char>>,
    line: Seq<char>,
    head: Seq<char>,
    cookie_pair: Seq<char>,
    sidecar_authority: Seq<char>,
    is_upgrade: bool,
)
    requires
        forall|i: int| 0 <= i < lines.len() ==> text::one_line(#[trigger] lines[i]),
        text::one_line(line),
        line.len() > 0 && line[0] != '\0' && line.last() != '\0',
    ensures
        broken(Seq::empty()) == Seq::<char>::empty(),
        broken(lines.push(line)) == broken(lines) + line + seq!['\r', '\n'],
        head_lines(broken(lines.push(line)) + seq!['\r', '\n']) == lines.push(line),
        rewritten_head(head, cookie_pair, sidecar_authority, is_upgrade) == broken(
            rewritten_lines(head, cookie_pair, sidecar_authority, is_upgrade),
        ) + seq!['\r', '\n'],
{
    let all = lines.push(line);
    assert(text::crlf() == seq!['\r', '\n']) by {
        assert(text::crlf() =~= seq!['\r', '\n']);
    }
    assert(broken(all) == broken(lines) + line + text::crlf()) by {
        lemma_broken_push(lines, line);
    }
    assert(head_lines(broken(all) + text::crlf()) == all) by {
        assert forall|i: int| 0 <= i < all.len() implies text::one_line(#[trigger] all[i]) by {
            if i < lines.len() {
                assert(all[i] == lines[i]);
            }
        }
        assert(all.last() == line);
        assert(all.drop_last() =~= lines);
        lemma_lines_of_written_head(all);
        let nul = seq!['\0'];
        assert(!text::occurs_at(line, nul, line.len() - nul.len())) by {
            assert(line.subrange(line.len() - 1, line.len() as int)[0] == line.last());
            assert(nul[0] == '\0');
        }
        text::law_stripping(line, nul);
    }
}

/// How a head ends has no say: a line break more or less behind it changes no
/// line, nor does a NUL where no line break stands before it.
pub proof fn law_the_end_of_a_head_has_no_say(head: Seq<char>)
    ensures
        head_lines(head + seq!['\r', '\n']) == head_lines(head),
        !text::occurs_at(head, seq!['\r', '\n'], head.len() - 2) ==> head_lines(
            head + seq!['\0'],
        ) == head_lines(head),
{
    assert(text::crlf() =~= seq!['\r', '\n']);
    text::law_stripping(head, text::crlf());
    let nul = seq!['\0'];
    let longer = head + nul;
    text::law_stripping(head, nul);
    assert(!text::occurs_at(longer, text::crlf(), longer.len() - 2)) by {
        text::lemma_break_at(longer, longer.len() - 2);
        assert(longer.last() == '\0');
    }
}

/// A head asks for a web socket exactly if `upgrade: websocket` stands in it, in
/// any case.
pub proof fn law_upgrades_are_told_by_their_header(head: Seq<char>)
    ensures
        asks_upgrade(head) <==> exists|i: int|
            0 <= i <= head.len() && #[trigger] is_named(head.skip(i), "upgrade: websocket"@),
{
    reveal_strlit("upgrade: websocket");
    let name = "upgrade: websocket"@;
    let l = text::lower(head);
    assert forall|i: int| 0 <= i <= head.len() implies (#[trigger] is_named(head.skip(i), name)
        <==> text::occurs_at(l, name, i)) by {
        text::law_occurrence(l, name, i);
        let rest = head.skip(i);
        assert(text::lower(rest) =~= l.skip(i));
        law_fields_are_told_by_their_names(rest, name);
        text::law_occurrence(text::lower(rest), name, 0);
        if i + name.len() <= head.len() {
            assert forall|j: int| 0 <= j < name.len() implies text::lower(rest)[j] == l[i + j] by {}
            if text::begins_with(text::lower(rest), name) {
                assert forall|j: int| 0 <= j < name.len() implies l[i + j] == #[trigger] name[j] by {
                    assert(text::lower(rest)[j] == name[j]);
                }
            }
            if text::occurs_at(l, name, i) {
                assert forall|j: int| 0 <= j < name.len() implies text::lower(rest)[j]
                    == #[trigger] name[j] by {
                    assert(l[i + j] == name[j]);
                }
            }
        }
    }
    if asks_upgrade(head) {
        let i = choose|i: int| text::occurs_at(l, name, i);
        assert(is_named(head.skip(i), name));
    }
}

/// A head ends right behind the first carriage return, line feed, carriage
/// return, line feed; without these four bytes it is not complete.
pub proof fn law_the_blank_line_ends_the_head(
    front: Seq<u8>,
    begin: Seq<u8>,
    rest: Seq<u8>,
    raw: Seq<u8>,
)
    requires
        begin == front + seq![13u8, 10, 13, 10],
        forall|j: int|
            0 <= j < front.len() ==> #[trigger] begin.subrange(j, j + 4) != seq![13u8, 10, 13, 10],
    ensures
        head_ends_at(begin + rest, begin.len() as int),
        head_complete(begin + rest),
        head_complete(raw) <==> exists|i: int|
            0 <= i && i + 4 <= raw.len() && #[trigger] raw.subrange(i, i + 4) == seq![
                13u8,
                10,
                13,
                10,
            ],
{
    let mark = seq![13u8, 10, 13, 10];
    let all = begin + rest;
    let n = front.len() as int;
    assert(blank_line_at(all, n));
    assert forall|j: int| j < n implies !blank_line_at(all, j) by {
        if 0 <= j {
            assert(begin.subrange(j, j + 4) != mark);
            if blank_line_at(all, j) {
                assert(begin.subrange(j, j + 4) =~= mark);
            }
        }
    }
    assert forall|i: int| 0 <= i && i + 4 <= raw.len() implies (#[trigger] raw.subrange(i, i + 4)
        == mark <==> blank_line_at(raw, i)) by {
        let w = raw.subrange(i, i + 4);
        assert(w[0] == raw[i] && w[1] == raw[i + 1] && w[2] == raw[i + 2] && w[3] == raw[i + 3]);
        if blank_line_at(raw, i) {
            assert(w =~= mark);
        }
    }
    if head_complete(raw) {
        let i = choose|i: int| blank_line_at(raw, i);
        assert(raw.subrange(i, i + 4) == mark);
    }
}

/// Reading a head goes on exactly while bytes come, no blank line came, and no
/// more than 65536 bytes did; it is complete as soon as a read brings the blank
/// line.
pub proof fn law_reading_a_head_goes_on(raw: Seq<u8>, received: Option<nat>)
    ensures
        goes_on(raw, received) <==> {
            &&& received is Some && received->0 > 0
            &&& !head_complete(raw)
            &&& raw.len() <= 65536
        },
        completes(raw, received) <==> received is Some && received->0 > 0 && head_complete(raw),
{
}

/// What arrived behind the head is sent on byte for byte behind the rewritten
/// head, which names the sidecar's port and keeps an upgrade one.
pub proof fn law_bodies_travel_through(
    head: Seq<char>,
    rest: Seq<u8>,
    more: Seq<u8>,
    cookie_pair: Seq<char>,
    sidecar_port: u16,
)
    ensures
        forwarded_bytes(head, rest + more, cookie_pair, sidecar_port) == forwarded_bytes(
            head,
            rest,
            cookie_pair,
            sidecar_port,
        ) + more,
        forwarded_bytes(head, Seq::empty(), cookie_pair, sidecar_port) == encode_utf8(
            rewritten_head(
                head,
                cookie_pair,
                "127.0.0.1:"@ + text::decimal(sidecar_port as nat),
                asks_upgrade(head),
            ),
        ),
{
    let start = forwarded_bytes(head, Seq::empty(), cookie_pair, sidecar_port);
    assert(forwarded_bytes(head, rest + more, cookie_pair, sidecar_port) =~= forwarded_bytes(
        head,
        rest,
        cookie_pair,
        sidecar_port,
    ) + more);
    assert(start =~= encode_utf8(
        rewritten_head(
            head,
            cookie_pair,
            "127.0.0.1:"@ + text::decimal(sidecar_port as nat),
            asks_upgrade(head),
        ),
    ));
}

} // verus!
