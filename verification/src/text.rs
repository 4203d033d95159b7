//! Text as sequences of characters: searching, splitting, trimming, printing.
//!
//! The specification functions describe strings as `Seq<char>`; the executable
//! functions work on character slices and are proved against them.
use vstd::prelude::*;
use vstd::slice::slice_subrange;

verus! {

/// `String::push`: the character is appended and nothing else changes.
pub assume_specification[ String::push ](s: &mut String, c: char)
    ensures
        final(s)@ == old(s)@.push(c),
;

// ── conversions between strings and character vectors ──────────────────────

/// The characters of a string.
pub fn chars_of(s: &str) -> (r: Vec<char>)
    ensures
        r@ == s@,
{
    let mut out: Vec<char> = Vec::new();
    for c in it: s.chars()
        invariant
            it.seq() == s@,
            out@ == s@.take(it.index() as int),
    {
        out.push(c);
    }
    out
}

/// The string made of the given characters.
pub fn string_of(chars: &[char]) -> (r: String)
    ensures
        r@ == chars@,
{
    let mut out = String::new();
    let mut i: usize = 0;
    while i < chars.len()
        invariant
            i <= chars.len(),
            out@ == chars@.take(i as int),
        decreases chars.len() - i,
    {
        out.push(chars[i]);
        i += 1;
    }
    out
}

/// The views of a sequence of character vectors.
pub open spec fn pieces(v: Seq<Vec<char>>) -> Seq<Seq<char>> {
    v.map_values(|x: Vec<char>| x@)
}

/// The views of a sequence of strings.
pub open spec fn texts(v: Seq<String>) -> Seq<Seq<char>> {
    v.map_values(|x: String| x@)
}

/// The view of an optional string.
pub open spec fn text_view(o: Option<String>) -> Option<Seq<char>> {
    match o {
        Some(s) => Some(s@),
        None => None,
    }
}

// ── characters ─────────────────────────────────────────────────────────────

/// The Unicode `White_Space` property.
pub open spec fn is_white(c: char) -> bool {
    ||| '\u{9}' <= c <= '\u{d}'
    ||| c == '\u{20}'
    ||| c == '\u{85}'
    ||| c == '\u{a0}'
    ||| c == '\u{1680}'
    ||| '\u{2000}' <= c <= '\u{200a}'
    ||| c == '\u{2028}'
    ||| c == '\u{2029}'
    ||| c == '\u{202f}'
    ||| c == '\u{205f}'
    ||| c == '\u{3000}'
}

/// Whether a character has the Unicode `White_Space` property.
pub fn is_whitespace(c: char) -> (r: bool)
    ensures
        r == is_white(c),
{
    ('\u{9}' <= c && c <= '\u{d}') || c == '\u{20}' || c == '\u{85}' || c == '\u{a0}' || c
        == '\u{1680}' || ('\u{2000}' <= c && c <= '\u{200a}') || c == '\u{2028}' || c == '\u{2029}'
        || c == '\u{202f}' || c == '\u{205f}' || c == '\u{3000}'
}

/// An ASCII decimal digit.
pub open spec fn is_digit(c: char) -> bool {
    '0' <= c <= '9'
}

/// Whether a character is an ASCII decimal digit.
pub fn is_ascii_digit(c: char) -> (r: bool)
    ensures
        r == is_digit(c),
{
    '0' <= c && c <= '9'
}

/// The lower-case form of an ASCII letter; every other character is itself.
pub open spec fn lower_char(c: char) -> char {
    if 'A' <= c <= 'Z' {
        (c as u32 + 32) as char
    } else {
        c
    }
}

/// `lower_char`, executed.
pub fn ascii_lower(c: char) -> (r: char)
    ensures
        r == lower_char(c),
{
    if 'A' <= c && c <= 'Z' {
        (c as u8 + 32) as char
    } else {
        c
    }
}

/// A text with its ASCII letters in lower case.
pub open spec fn lower(s: Seq<char>) -> Seq<char> {
    s.map_values(|c: char| lower_char(c))
}

/// `lower`, executed.
pub fn to_lower(s: &[char]) -> (r: Vec<char>)
    ensures
        r@ == lower(s@),
{
    let mut out: Vec<char> = Vec::new();
    let mut i: usize = 0;
    while i < s.len()
        invariant
            i <= s.len(),
            out@ == lower(s@.take(i as int)),
        decreases s.len() - i,
    {
        out.push(ascii_lower(s[i]));
        i += 1;
        assert(out@ =~= lower(s@.take(i as int)));
    }
    assert(s@.take(i as int) =~= s@);
    out
}

// ── equality and prefixes ──────────────────────────────────────────────────

/// Whether two texts are the same.
pub fn same(a: &[char], b: &[char]) -> (r: bool)
    ensures
        r == (a@ == b@),
{
    if a.len() != b.len() {
        return false;
    }
    let mut i: usize = 0;
    while i < a.len()
        invariant
            i <= a.len(),
            a.len() == b.len(),
            forall|j: int| 0 <= j < i ==> a@[j] == b@[j],
        decreases a.len() - i,
    {
        if a[i] != b[i] {
            return false;
        }
        i += 1;
    }
    assert(a@ =~= b@);
    true
}

/// Whether a string has the given text.
pub fn same_text(a: &str, b: &str) -> (r: bool)
    ensures
        r == (a@ == b@),
{
    same(chars_of(a).as_slice(), chars_of(b).as_slice())
}

/// `p` stands in `s` at position `i`.
pub open spec fn occurs_at(s: Seq<char>, p: Seq<char>, i: int) -> bool {
    0 <= i && i + p.len() <= s.len() && s.subrange(i, i + p.len()) == p
}

/// `occurs_at`, executed.
pub fn stands_at(s: &[char], p: &[char], i: usize) -> (r: bool)
    ensures
        r == occurs_at(s@, p@, i as int),
{
    if i > s.len() || p.len() > s.len() - i {
        return false;
    }
    same(slice_subrange(s, i, i + p.len()), p)
}

/// `s` begins with `p`.
pub open spec fn begins_with(s: Seq<char>, p: Seq<char>) -> bool {
    occurs_at(s, p, 0)
}

/// `begins_with`, executed.
pub fn starts_with(s: &[char], p: &[char]) -> (r: bool)
    ensures
        r == begins_with(s@, p@),
{
    stands_at(s, p, 0)
}

/// `p` stands somewhere in `s`.
pub open spec fn holds(s: Seq<char>, p: Seq<char>) -> bool {
    exists|i: int| occurs_at(s, p, i)
}

// ── searching ──────────────────────────────────────────────────────────────

/// The first position at or after `i` where `p` stands in `s`.
pub open spec fn find_from(s: Seq<char>, p: Seq<char>, i: int) -> Option<int>
    decreases s.len() + 1 - i,
{
    if i + p.len() > s.len() {
        None
    } else if occurs_at(s, p, i) {
        Some(i)
    } else {
        find_from(s, p, i + 1)
    }
}

/// The first position where `p` stands in `s`.
pub open spec fn find(s: Seq<char>, p: Seq<char>) -> Option<int> {
    find_from(s, p, 0)
}

/// What `find_from` returns is the first occurrence, and it returns `None`
/// only where there is none.
pub proof fn lemma_find_from(s: Seq<char>, p: Seq<char>, i: int)
    requires
        0 <= i,
    ensures
        match find_from(s, p, i) {
            Some(k) => i <= k && occurs_at(s, p, k) && forall|j: int|
                i <= j < k ==> !occurs_at(s, p, j),
            None => forall|j: int| i <= j ==> !occurs_at(s, p, j),
        },
    decreases s.len() + 1 - i,
{
    if i + p.len() <= s.len() && !occurs_at(s, p, i) {
        lemma_find_from(s, p, i + 1);
    }
}

/// The first occurrence, wherever it is known where that is.
pub proof fn lemma_find_is(s: Seq<char>, p: Seq<char>, k: int)
    requires
        occurs_at(s, p, k),
        forall|j: int| 0 <= j < k ==> !occurs_at(s, p, j),
    ensures
        find(s, p) == Some(k),
{
    lemma_find_from(s, p, 0);
}

/// `find`, executed.
pub fn find_text(s: &[char], p: &[char]) -> (r: Option<usize>)
    ensures
        match r {
            Some(k) => find(s@, p@) == Some(k as int) && occurs_at(s@, p@, k as int),
            None => find(s@, p@) is None,
        },
{
    let mut i: usize = 0;
    while i <= s.len() && p.len() <= s.len() - i
        invariant
            i <= s.len() + 1,
            find(s@, p@) == find_from(s@, p@, i as int),
        decreases s.len() + 1 - i,
    {
        if stands_at(s, p, i) {
            return Some(i);
        }
        if i == s.len() {
            assert(find_from(s@, p@, i + 1) is None);
            return None;
        }
        i += 1;
    }
    None
}

/// Whether `p` stands somewhere in `s`.
pub fn contains_text(s: &[char], p: &[char]) -> (r: bool)
    ensures
        r == holds(s@, p@),
{
    proof {
        lemma_find_from(s@, p@, 0);
    }
    match find_text(s, p) {
        Some(_) => true,
        None => {
            assert forall|i: int| !occurs_at(s@, p@, i) by {
                if i < 0 {
                    assert(!occurs_at(s@, p@, i));
                }
            }
            false
        },
    }
}

/// The last position not after `i` where `p` stands in `s`.
pub open spec fn find_back_from(s: Seq<char>, p: Seq<char>, i: int) -> Option<int>
    decreases i + 1,
{
    if i < 0 {
        None
    } else if occurs_at(s, p, i) {
        Some(i)
    } else {
        find_back_from(s, p, i - 1)
    }
}

/// The last position where `p` stands in `s`.
pub open spec fn find_last(s: Seq<char>, p: Seq<char>) -> Option<int> {
    find_back_from(s, p, s.len() as int)
}

/// What `find_back_from` returns is the last occurrence.
pub proof fn lemma_find_back_from(s: Seq<char>, p: Seq<char>, i: int)
    requires
        -1 <= i,
    ensures
        match find_back_from(s, p, i) {
            Some(k) => k <= i && occurs_at(s, p, k) && forall|j: int|
                k < j <= i ==> !occurs_at(s, p, j),
            None => forall|j: int| j <= i ==> !occurs_at(s, p, j),
        },
    decreases i + 1,
{
    if i >= 0 && !occurs_at(s, p, i) {
        lemma_find_back_from(s, p, i - 1);
    }
}

/// `find_last`, executed.
pub fn find_last_text(s: &[char], p: &[char]) -> (r: Option<usize>)
    ensures
        match r {
            Some(k) => find_last(s@, p@) == Some(k as int) && occurs_at(s@, p@, k as int),
            None => find_last(s@, p@) is None,
        },
{
    let mut i: usize = s.len();
    loop
        invariant
            i <= s.len(),
            find_last(s@, p@) == find_back_from(s@, p@, i as int),
        decreases i,
    {
        if stands_at(s, p, i) {
            return Some(i);
        }
        if i == 0 {
            assert(find_back_from(s@, p@, -1) is None);
            return None;
        }
        i -= 1;
    }
}

/// The position of the first character that satisfies `f`, or the length.
pub open spec fn index_where(s: Seq<char>, f: spec_fn(char) -> bool) -> int
    decreases s.len(),
{
    if s.len() == 0 || f(s[0]) {
        0
    } else {
        1 + index_where(s.drop_first(), f)
    }
}

/// `index_where` is a position of the text, no character before it satisfies
/// `f`, and the one at it does unless it is the length.
pub proof fn lemma_index_where(s: Seq<char>, f: spec_fn(char) -> bool)
    ensures
        0 <= index_where(s, f) <= s.len(),
        forall|j: int| 0 <= j < index_where(s, f) ==> !f(#[trigger] s[j]),
        index_where(s, f) < s.len() ==> f(s[index_where(s, f)]),
    decreases s.len(),
{
    if s.len() != 0 && !f(s[0]) {
        let t = s.drop_first();
        lemma_index_where(t, f);
        assert forall|j: int| 0 <= j < index_where(s, f) implies !f(#[trigger] s[j]) by {
            if j > 0 {
                assert(s[j] == t[j - 1]);
            }
        }
        if index_where(s, f) < s.len() {
            assert(s[index_where(s, f)] == t[index_where(t, f)]);
        }
    }
}

/// The one position with those properties is `index_where`.
pub proof fn lemma_index_where_is(s: Seq<char>, f: spec_fn(char) -> bool, k: int)
    requires
        0 <= k <= s.len(),
        forall|j: int| 0 <= j < k ==> !f(#[trigger] s[j]),
        k < s.len() ==> f(s[k]),
    ensures
        index_where(s, f) == k,
{
    lemma_index_where(s, f);
    let i = index_where(s, f);
    if i < k {
        assert(!f(s[i]));
    } else if k < i {
        assert(!f(s[k]));
    }
}

/// The predicate "is the character `c`".
pub open spec fn is_char(c: char) -> spec_fn(char) -> bool {
    |d: char| d == c
}

/// The position of the first `c`, or the length.
pub fn find_char(s: &[char], c: char) -> (r: usize)
    ensures
        r == index_where(s@, is_char(c)),
        r <= s.len(),
        r < s.len() ==> s@[r as int] == c,
{
    let mut i: usize = 0;
    while i < s.len() && s[i] != c
        invariant
            i <= s.len(),
            forall|j: int| 0 <= j < i ==> s@[j] != c,
        decreases s.len() - i,
    {
        i += 1;
    }
    proof {
        lemma_index_where_is(s@, is_char(c), i as int);
    }
    i
}

/// The predicate "is white space".
pub open spec fn is_white_fn() -> spec_fn(char) -> bool {
    |c: char| is_white(c)
}

/// The position of the first white-space character, or the length.
pub fn find_white(s: &[char]) -> (r: usize)
    ensures
        r == index_where(s@, is_white_fn()),
        r <= s.len(),
{
    let mut i: usize = 0;
    while i < s.len() && !is_whitespace(s[i])
        invariant
            i <= s.len(),
            forall|j: int| 0 <= j < i ==> !is_white(s@[j]),
        decreases s.len() - i,
    {
        i += 1;
    }
    proof {
        lemma_index_where_is(s@, is_white_fn(), i as int);
    }
    i
}

// ── splitting ──────────────────────────────────────────────────────────────

/// The text before the first `c` and the text after it.
pub open spec fn cut(s: Seq<char>, c: char) -> Option<(Seq<char>, Seq<char>)> {
    let k = index_where(s, is_char(c));
    if k < s.len() {
        Some((s.take(k), s.skip(k + 1)))
    } else {
        None
    }
}

/// `cut`, executed.
pub fn split_once<'a>(s: &'a [char], c: char) -> (r: Option<(&'a [char], &'a [char])>)
    ensures
        match r {
            Some((a, b)) => cut(s@, c) == Some((a@, b@)),
            None => cut(s@, c) is None,
        },
{
    let k = find_char(s, c);
    if k < s.len() {
        let a = slice_subrange(s, 0, k);
        let b = slice_subrange(s, k + 1, s.len());
        assert(a@ =~= s@.take(k as int));
        assert(b@ =~= s@.skip(k + 1));
        Some((a, b))
    } else {
        None
    }
}

/// The pieces of a text between the occurrences of `c`.
pub open spec fn split_char(s: Seq<char>, c: char) -> Seq<Seq<char>>
    decreases s.len(),
{
    let k = index_where(s, is_char(c));
    if 0 <= k < s.len() {
        seq![s.take(k)] + split_char(s.skip(k + 1), c)
    } else {
        seq![s]
    }
}

/// `split_char`, executed.
pub fn split_at_char(s: &[char], c: char) -> (r: Vec<Vec<char>>)
    ensures
        pieces(r@) == split_char(s@, c),
{
    let mut out: Vec<Vec<char>> = Vec::new();
    let mut i: usize = 0;
    assert(s@.skip(0) =~= s@);
    assert(pieces(out@) + split_char(s@, c) =~= split_char(s@, c));
    loop
        invariant
            i <= s.len(),
            pieces(out@) + split_char(s@.skip(i as int), c) == split_char(s@, c),
        decreases s.len() - i,
    {
        let rest = slice_subrange(s, i, s.len());
        assert(rest@ =~= s@.skip(i as int));
        let k = find_char(rest, c);
        let piece = slice_subrange(rest, 0, k);
        let ghost before = out@;
        out.push(copy_of(piece));
        assert(pieces(out@) =~= pieces(before).push(piece@));
        assert(piece@ =~= rest@.take(k as int));
        if k == rest.len() {
            assert(piece@ =~= rest@);
            assert(pieces(before) + seq![rest@] =~= pieces(out@));
            return out;
        }
        assert(rest@.skip(k + 1) =~= s@.skip(i + k + 1));
        assert(pieces(before) + (seq![rest@.take(k as int)] + split_char(s@.skip(i + k + 1), c))
            =~= pieces(out@) + split_char(s@.skip(i + k + 1), c));
        i = i + k + 1;
    }
}

/// A copy of the characters of a slice.
pub fn copy_of(s: &[char]) -> (r: Vec<char>)
    ensures
        r@ == s@,
{
    let mut out: Vec<char> = Vec::new();
    let mut i: usize = 0;
    while i < s.len()
        invariant
            i <= s.len(),
            out@ == s@.take(i as int),
        decreases s.len() - i,
    {
        out.push(s[i]);
        i += 1;
    }
    out
}

/// The pieces of a text between the occurrences of a non-empty `p`, taken
/// from left to right.
pub open spec fn split_text(s: Seq<char>, p: Seq<char>) -> Seq<Seq<char>>
    decreases s.len(),
{
    match find(s, p) {
        Some(k) => if 0 <= k <= s.len() && p.len() > 0 && k + p.len() <= s.len() {
            seq![s.take(k)] + split_text(s.skip(k + p.len()), p)
        } else {
            seq![s]
        },
        None => seq![s],
    }
}

/// `split_text`, executed.
pub fn split_at_text(s: &[char], p: &[char]) -> (r: Vec<Vec<char>>)
    requires
        p.len() > 0,
    ensures
        pieces(r@) == split_text(s@, p@),
{
    let mut out: Vec<Vec<char>> = Vec::new();
    let mut i: usize = 0;
    assert(s@.skip(0) =~= s@);
    assert(pieces(out@) + split_text(s@, p@) =~= split_text(s@, p@));
    loop
        invariant
            i <= s.len(),
            p.len() > 0,
            pieces(out@) + split_text(s@.skip(i as int), p@) == split_text(s@, p@),
        decreases s.len() - i,
    {
        let rest = slice_subrange(s, i, s.len());
        assert(rest@ =~= s@.skip(i as int));
        let ghost before = out@;
        match find_text(rest, p) {
            Some(k) => {
                let piece = slice_subrange(rest, 0, k);
                out.push(copy_of(piece));
                assert(pieces(out@) =~= pieces(before).push(piece@));
                assert(piece@ =~= rest@.take(k as int));
                let ghost next = i + k + p.len();
                assert(rest@.skip(k + p.len()) =~= s@.skip(next));
                assert(pieces(before) + (seq![rest@.take(k as int)] + split_text(s@.skip(next), p@))
                    =~= pieces(out@) + split_text(s@.skip(next), p@));
                i = i + k + p.len();
            },
            None => {
                out.push(copy_of(rest));
                assert(pieces(out@) =~= pieces(before) + seq![rest@]);
                return out;
            },
        }
    }
}

/// The first line of a text: what stands before the first line feed, without
/// the carriage return directly before that line feed.
pub open spec fn first_line(s: Seq<char>) -> Seq<char> {
    let k = index_where(s, is_char('\n'));
    if k < s.len() && k > 0 && s[k - 1] == '\r' {
        s.take(k - 1)
    } else {
        s.take(k)
    }
}

/// `first_line`, executed.
pub fn line_one<'a>(s: &'a [char]) -> (r: &'a [char])
    ensures
        r@ == first_line(s@),
{
    let k = find_char(s, '\n');
    if k < s.len() && k > 0 && s[k - 1] == '\r' {
        let r = slice_subrange(s, 0, k - 1);
        assert(r@ =~= s@.take(k - 1));
        r
    } else {
        let r = slice_subrange(s, 0, k);
        assert(r@ =~= s@.take(k as int));
        r
    }
}

// ── trimming ───────────────────────────────────────────────────────────────

/// A text without its leading white space.
pub open spec fn trim_start(s: Seq<char>) -> Seq<char>
    decreases s.len(),
{
    if s.len() > 0 && is_white(s[0]) {
        trim_start(s.drop_first())
    } else {
        s
    }
}

/// A text without its trailing white space.
pub open spec fn trim_end(s: Seq<char>) -> Seq<char>
    decreases s.len(),
{
    if s.len() > 0 && is_white(s.last()) {
        trim_end(s.drop_last())
    } else {
        s
    }
}

/// A text without the white space around it.
pub open spec fn trim(s: Seq<char>) -> Seq<char> {
    trim_end(trim_start(s))
}

/// `trim`, executed.
pub fn trimmed<'a>(s: &'a [char]) -> (r: &'a [char])
    ensures
        r@ == trim(s@),
{
    let mut i: usize = 0;
    assert(s@.skip(0) =~= s@);
    while i < s.len() && is_whitespace(s[i])
        invariant
            i <= s.len(),
            trim_start(s@.skip(i as int)) == trim_start(s@),
        decreases s.len() - i,
    {
        assert(s@.skip(i as int).drop_first() =~= s@.skip(i + 1));
        i += 1;
    }
    let ghost tail = s@.skip(i as int);
    let mut j: usize = s.len();
    assert(s@.subrange(i as int, j as int) =~= tail);
    while j > i && is_whitespace(s[j - 1])
        invariant
            i <= j <= s.len(),
            trim_end(s@.subrange(i as int, j as int)) == trim_end(tail),
        decreases j,
    {
        assert(s@.subrange(i as int, j as int).drop_last() =~= s@.subrange(i as int, j - 1));
        j -= 1;
    }
    slice_subrange(s, i, j)
}

/// White space before a text is trimmed with the text's own.
proof fn lemma_trim_start_of_padded(before: Seq<char>, s: Seq<char>)
    requires
        forall|i: int| 0 <= i < before.len() ==> is_white(#[trigger] before[i]),
    ensures
        trim_start(before + s) == trim_start(s),
    decreases before.len(),
{
    if before.len() == 0 {
        assert(before + s =~= s);
    } else {
        assert((before + s)[0] == before[0]);
        assert((before + s).drop_first() =~= before.drop_first() + s);
        lemma_trim_start_of_padded(before.drop_first(), s);
    }
}

/// White space behind a text is trimmed with the text's own.
proof fn lemma_trim_end_of_padded(s: Seq<char>, after: Seq<char>)
    requires
        forall|i: int| 0 <= i < after.len() ==> is_white(#[trigger] after[i]),
    ensures
        trim_end(s + after) == trim_end(s),
    decreases after.len(),
{
    if after.len() == 0 {
        assert(s + after =~= s);
    } else {
        assert((s + after).last() == after[after.len() - 1]);
        assert((s + after).drop_last() =~= s + after.drop_last());
        lemma_trim_end_of_padded(s, after.drop_last());
    }
}

/// White space behind a text is trimmed, wherever the text begins.
proof fn lemma_trim_of_ended(s: Seq<char>, after: Seq<char>)
    requires
        forall|i: int| 0 <= i < after.len() ==> is_white(#[trigger] after[i]),
    ensures
        trim(s + after) == trim(s),
    decreases s.len(),
{
    if s.len() == 0 {
        assert(s + after =~= after + s);
        lemma_trim_start_of_padded(after, s);
    } else {
        assert((s + after)[0] == s[0]);
        if is_white(s[0]) {
            assert((s + after).drop_first() =~= s.drop_first() + after);
            lemma_trim_of_ended(s.drop_first(), after);
        } else {
            lemma_trim_end_of_padded(s, after);
        }
    }
}

/// White space around a text has no say in what trimming leaves.
pub proof fn lemma_trim_of_padded(before: Seq<char>, s: Seq<char>, after: Seq<char>)
    requires
        forall|i: int| 0 <= i < before.len() ==> is_white(#[trigger] before[i]),
        forall|i: int| 0 <= i < after.len() ==> is_white(#[trigger] after[i]),
    ensures
        trim(before + s + after) == trim(s),
{
    assert(before + s + after =~= before + (s + after));
    lemma_trim_start_of_padded(before, s + after);
    lemma_trim_of_ended(s, after);
}

/// A text is what trimming leaves of it, with white space around that.
pub proof fn lemma_trim_parts(s: Seq<char>) -> (parts: (Seq<char>, Seq<char>))
    ensures
        s == parts.0 + trim(s) + parts.1,
        forall|i: int| 0 <= i < parts.0.len() ==> is_white(#[trigger] parts.0[i]),
        forall|i: int| 0 <= i < parts.1.len() ==> is_white(#[trigger] parts.1[i]),
        trim(s).len() > 0 ==> !is_white(trim(s)[0]) && !is_white(trim(s).last()),
{
    let before = lemma_trim_start_parts(s);
    let after = lemma_trim_end_parts(trim_start(s));
    if trim(s).len() > 0 {
        assert(trim(s)[0] == trim_start(s)[0]);
    }
    assert(s =~= before + trim(s) + after);
    (before, after)
}

/// The white space that `trim_start` takes away.
proof fn lemma_trim_start_parts(s: Seq<char>) -> (before: Seq<char>)
    ensures
        s == before + trim_start(s),
        forall|i: int| 0 <= i < before.len() ==> is_white(#[trigger] before[i]),
        trim_start(s).len() > 0 ==> !is_white(trim_start(s)[0]),
    decreases s.len(),
{
    if s.len() > 0 && is_white(s[0]) {
        let rest = lemma_trim_start_parts(s.drop_first());
        let before = seq![s[0]] + rest;
        assert(trim_start(s) == trim_start(s.drop_first()));
        assert(before + trim_start(s) =~= seq![s[0]] + (rest + trim_start(s.drop_first())));
        assert(seq![s[0]] + s.drop_first() =~= s);
        before
    } else {
        assert(s =~= Seq::<char>::empty() + s);
        Seq::empty()
    }
}

/// The white space that `trim_end` takes away.
proof fn lemma_trim_end_parts(s: Seq<char>) -> (after: Seq<char>)
    ensures
        s == trim_end(s) + after,
        forall|i: int| 0 <= i < after.len() ==> is_white(#[trigger] after[i]),
        trim_end(s).len() > 0 ==> !is_white(trim_end(s).last()),
    decreases s.len(),
{
    if s.len() > 0 && is_white(s.last()) {
        let rest = lemma_trim_end_parts(s.drop_last());
        let after = rest.push(s.last());
        assert(trim_end(s) == trim_end(s.drop_last()));
        assert(trim_end(s) + after =~= (trim_end(s.drop_last()) + rest).push(s.last()));
        assert(s.drop_last().push(s.last()) =~= s);
        after
    } else {
        assert(s =~= s + Seq::<char>::empty());
        Seq::empty()
    }
}

/// Trimming the end of a text stops at the last character that is not white.
pub proof fn lemma_trim_end_stops(s: Seq<char>, more: Seq<char>)
    requires
        s.len() > 0,
        !is_white(s.last()),
    ensures
        trim_end(s + more) == s + trim_end(more),
    decreases more.len(),
{
    if more.len() == 0 {
        assert(s + more =~= s);
        assert(s + trim_end(more) =~= s);
    } else {
        assert((s + more).last() == more.last());
        if is_white(more.last()) {
            assert((s + more).drop_last() =~= s + more.drop_last());
            lemma_trim_end_stops(s, more.drop_last());
        }
    }
}

/// A text without the copies of `p` at its end.
pub open spec fn strip_all(s: Seq<char>, p: Seq<char>) -> Seq<char>
    decreases s.len(),
{
    if 0 < p.len() <= s.len() && occurs_at(s, p, s.len() - p.len()) {
        strip_all(s.take(s.len() - p.len()), p)
    } else {
        s
    }
}

/// `strip_all`, executed.
pub fn strip_trailing<'a>(s: &'a [char], p: &[char]) -> (r: &'a [char])
    requires
        p.len() > 0,
    ensures
        r@ == strip_all(s@, p@),
{
    let mut n: usize = s.len();
    assert(s@.take(n as int) =~= s@);
    while n >= p.len() && stands_at(slice_subrange(s, 0, n), p, n - p.len())
        invariant
            n <= s.len(),
            p.len() > 0,
            strip_all(s@.take(n as int), p@) == strip_all(s@, p@),
        decreases n,
    {
        assert(s@.subrange(0, n as int) =~= s@.take(n as int));
        assert(s@.take(n as int).take(n - p.len()) =~= s@.take(n - p.len()));
        n -= p.len();
    }
    assert(s@.subrange(0, n as int) =~= s@.take(n as int));
    slice_subrange(s, 0, n)
}

// ── lines ──────────────────────────────────────────────────────────────────

/// The line break of HTTP.
pub open spec fn crlf() -> Seq<char> {
    seq!['\r', '\n']
}

/// A text without carriage returns and line feeds.
pub open spec fn unbroken(s: Seq<char>) -> bool {
    forall|i: int| 0 <= i < s.len() ==> #[trigger] s[i] != '\r' && s[i] != '\n'
}

/// A text in which no line break stands.
pub open spec fn one_line(s: Seq<char>) -> bool {
    forall|i: int| !#[trigger] occurs_at(s, crlf(), i)
}

/// A line break stands where a carriage return precedes a line feed.
pub proof fn lemma_break_at(s: Seq<char>, i: int)
    ensures
        occurs_at(s, crlf(), i) <==> 0 <= i && i + 2 <= s.len() && s[i] == '\r' && s[i + 1]
            == '\n',
{
    if 0 <= i && i + 2 <= s.len() {
        let w = s.subrange(i, i + 2);
        assert(w[0] == s[i] && w[1] == s[i + 1]);
        if s[i] == '\r' && s[i + 1] == '\n' {
            assert(w =~= crlf());
        }
    }
}

/// The pieces between the line breaks of a text hold none.
pub proof fn lemma_pieces_are_lines(s: Seq<char>)
    ensures
        forall|i: int|
            0 <= i < split_text(s, crlf()).len() ==> one_line(
                #[trigger] split_text(s, crlf())[i],
            ),
    decreases s.len(),
{
    lemma_find_from(s, crlf(), 0);
    let all = split_text(s, crlf());
    match find(s, crlf()) {
        Some(k) => {
            let first = s.take(k);
            let rest = split_text(s.skip(k + 2), crlf());
            assert(all == seq![first] + rest);
            assert forall|j: int| !#[trigger] occurs_at(first, crlf(), j) by {
                lemma_break_at(first, j);
                lemma_break_at(s, j);
                if occurs_at(first, crlf(), j) {
                    assert(!occurs_at(s, crlf(), j));
                }
            }
            lemma_pieces_are_lines(s.skip(k + 2));
            assert forall|i: int| 0 <= i < all.len() implies one_line(#[trigger] all[i]) by {
                if i > 0 {
                    assert(all[i] == rest[i - 1]);
                }
            }
        },
        None => {
            assert forall|j: int| !#[trigger] occurs_at(s, crlf(), j) by {
                if j < 0 {
                    assert(!occurs_at(s, crlf(), j));
                }
            }
        },
    }
}

/// A line, its line break and more text split into that line and the rest.
pub proof fn lemma_split_line(line: Seq<char>, rest: Seq<char>)
    requires
        one_line(line),
    ensures
        split_text(line + crlf() + rest, crlf()) == seq![line] + split_text(
            rest,
            crlf(),
        ),
{
    let s = line + crlf() + rest;
    let n = line.len() as int;
    lemma_break_at(s, n);
    assert forall|j: int| 0 <= j < n implies !occurs_at(s, crlf(), j) by {
        lemma_break_at(s, j);
        lemma_break_at(line, j);
        assert(!occurs_at(line, crlf(), j));
    }
    lemma_find_is(s, crlf(), n);
    assert(s.take(n) =~= line);
    assert(s.skip(n + 2) =~= rest);
}

/// An unbroken text holds no line break.
pub proof fn lemma_unbroken_is_one_line(s: Seq<char>)
    requires
        unbroken(s),
    ensures
        one_line(s),
{
    assert forall|i: int| !#[trigger] occurs_at(s, crlf(), i) by {
        lemma_break_at(s, i);
    }
}

/// A part of a text without line breaks has none.
pub proof fn lemma_part_is_one_line(s: Seq<char>, a: int, b: int)
    requires
        one_line(s),
        0 <= a <= b <= s.len(),
    ensures
        one_line(s.subrange(a, b)),
{
    let part = s.subrange(a, b);
    assert forall|i: int| !#[trigger] occurs_at(part, crlf(), i) by {
        lemma_break_at(part, i);
        lemma_break_at(s, a + i);
        assert(!occurs_at(s, crlf(), a + i));
    }
}

/// Trimming adds no line break.
pub proof fn lemma_trimmed_is_one_line(s: Seq<char>)
    requires
        one_line(s),
    ensures
        one_line(trim(s)),
{
    lemma_trim_start_is_one_line(s);
    lemma_trim_end_is_one_line(trim_start(s));
}

proof fn lemma_trim_start_is_one_line(s: Seq<char>)
    requires
        one_line(s),
    ensures
        one_line(trim_start(s)),
    decreases s.len(),
{
    if s.len() > 0 && is_white(s[0]) {
        lemma_part_is_one_line(s, 1, s.len() as int);
        assert(s.drop_first() =~= s.subrange(1, s.len() as int));
        lemma_trim_start_is_one_line(s.drop_first());
    }
}

proof fn lemma_trim_end_is_one_line(s: Seq<char>)
    requires
        one_line(s),
    ensures
        one_line(trim_end(s)),
    decreases s.len(),
{
    if s.len() > 0 && is_white(s.last()) {
        lemma_part_is_one_line(s, 0, s.len() - 1);
        assert(s.drop_last() =~= s.subrange(0, s.len() - 1));
        lemma_trim_end_is_one_line(s.drop_last());
    }
}

/// A text without line breaks behind an unbroken one has none.
pub proof fn lemma_joined_is_one_line(front: Seq<char>, s: Seq<char>)
    requires
        unbroken(front),
        one_line(s),
    ensures
        one_line(front + s),
{
    let all = front + s;
    let n = front.len() as int;
    assert forall|i: int| !#[trigger] occurs_at(all, crlf(), i) by {
        lemma_break_at(all, i);
        if occurs_at(all, crlf(), i) {
            if i < n {
                assert(all[i] == front[i]);
            } else {
                lemma_break_at(s, i - n);
                assert(!occurs_at(s, crlf(), i - n));
            }
        }
    }
}

// ── quoting ────────────────────────────────────────────────────────────────

/// The notation that the `Debug` implementation of `str` gives a text.
pub uninterp spec fn debug_text(s: Seq<char>) -> Seq<char>;

/// The `Debug` implementation of `str`: the text between double quotes, with
/// escapes where it has them. The notation is a function of the text, named
/// `debug_text`; which characters are escaped, and how, is left unsaid.
#[verifier::external_body]
pub(crate) fn quoted(s: &str) -> (r: String)
    ensures
        r@ == debug_text(s@),
{
    format!("{s:?}")
}

// ── numbers ────────────────────────────────────────────────────────────────

/// The decimal digit of a number below ten.
pub open spec fn digit(d: nat) -> char {
    ('0' as u32 + d) as char
}

/// The decimal notation of a number, without leading zeros.
pub open spec fn decimal(n: nat) -> Seq<char>
    decreases n,
{
    if n < 10 {
        seq![digit(n)]
    } else {
        decimal(n / 10).push(digit(n % 10))
    }
}

/// Decimal notation is not empty, and holds digits alone.
pub proof fn lemma_decimal_is_digits(n: nat)
    ensures
        decimal(n).len() > 0,
        forall|i: int| 0 <= i < decimal(n).len() ==> is_digit(#[trigger] decimal(n)[i]),
    decreases n,
{
    if n >= 10 {
        lemma_decimal_is_digits(n / 10);
        let front = decimal(n / 10);
        assert forall|i: int| 0 <= i < decimal(n).len() implies is_digit(
            #[trigger] decimal(n)[i],
        ) by {
            if i < front.len() {
                assert(decimal(n)[i] == front[i]);
            }
        }
    }
}

/// `decimal`, executed.
pub fn decimal_text(n: u64) -> (r: String)
    ensures
        r@ == decimal(n as nat),
    decreases n,
{
    let d: u8 = (n % 10) as u8;
    let c: char = (48u8 + d) as char;
    let mut out = if n < 10 {
        String::new()
    } else {
        decimal_text(n / 10)
    };
    out.push(c);
    assert(n < 10 ==> out@ =~= seq![digit(n as nat)]);
    out
}

// ── laws ───────────────────────────────────────────────────────────────────

/// The decimal digits are the ten characters from `0` to `9`.
pub proof fn law_digits(c: char)
    ensures
        is_digit(c) <==> {
            ||| c == '0' || c == '1' || c == '2' || c == '3' || c == '4'
            ||| c == '5' || c == '6' || c == '7' || c == '8' || c == '9'
        },
{
}

/// Lower case moves the letters from `A` to `Z` by the distance to their lower
/// forms, and nothing else.
pub proof fn law_lower_case(s: Seq<char>, i: int)
    requires
        0 <= i < s.len(),
    ensures
        lower(s).len() == s.len(),
        65 <= s[i] as int <= 90 ==> lower(s)[i] as int == s[i] as int + 32,
        !(65 <= s[i] as int <= 90) ==> lower(s)[i] == s[i],
{
}

/// A text stands in another where its characters do, one by one.
pub proof fn law_occurrence(s: Seq<char>, p: Seq<char>, i: int)
    ensures
        occurs_at(s, p, i) <==> {
            &&& 0 <= i && i + p.len() <= s.len()
            &&& forall|j: int| 0 <= j < p.len() ==> s[i + j] == #[trigger] p[j]
        },
        begins_with(s, p) <==> p.len() <= s.len() && forall|j: int|
            0 <= j < p.len() ==> s[j] == #[trigger] p[j],
{
    if 0 <= i && i + p.len() <= s.len() {
        let w = s.subrange(i, i + p.len());
        assert(forall|j: int| 0 <= j < p.len() ==> w[j] == s[i + j]);
        if forall|j: int| 0 <= j < p.len() ==> s[i + j] == #[trigger] p[j] {
            assert(w =~= p);
        }
    }
    if p.len() <= s.len() {
        let w = s.subrange(0, p.len() as int);
        assert(forall|j: int| 0 <= j < p.len() ==> w[j] == s[j]);
        if forall|j: int| 0 <= j < p.len() ==> s[j] == #[trigger] p[j] {
            assert(w =~= p);
        }
    }
}

/// A text holds what it is put together around, begins with what it is put
/// together behind, and nothing else: what it holds can be cut out of it.
pub proof fn law_holding(before: Seq<char>, p: Seq<char>, after: Seq<char>, s: Seq<char>)
    ensures
        holds(before + p + after, p),
        begins_with(p + after, p),
        begins_with(s, p) ==> s == p + s.skip(p.len() as int),
        holds(s, p) <==> exists|i: int|
            0 <= i && i + p.len() <= s.len() && s == #[trigger] s.take(i) + p + s.skip(
                i + p.len(),
            ),
{
    let all = before + p + after;
    assert(all.subrange(before.len() as int, before.len() as int + p.len()) =~= p);
    assert(occurs_at(all, p, before.len() as int));
    assert((p + after).subrange(0, p.len() as int) =~= p);
    if begins_with(s, p) {
        assert(s =~= s.subrange(0, p.len() as int) + s.skip(p.len() as int));
    }
    if holds(s, p) {
        let i = choose|i: int| occurs_at(s, p, i);
        assert(s =~= s.take(i) + s.subrange(i, i + p.len()) + s.skip(i + p.len()));
        assert(s == s.take(i) + p + s.skip(i + p.len()));
    }
    if exists|i: int|
        0 <= i && i + p.len() <= s.len() && s == #[trigger] s.take(i) + p + s.skip(i + p.len()) {
        let i = choose|i: int|
            0 <= i && i + p.len() <= s.len() && s == #[trigger] s.take(i) + p + s.skip(
                i + p.len(),
            );
        let cut = s.take(i) + p + s.skip(i + p.len());
        assert(cut.subrange(i, i + p.len()) =~= p);
        assert(occurs_at(s, p, i));
    }
}

/// The first place of a text is where it stands and does not stand before; the
/// last is where it does not stand behind; and there is none only where it does
/// not stand at all.
pub proof fn law_first_and_last(s: Seq<char>, p: Seq<char>, k: int)
    ensures
        find(s, p) == Some(k) <==> occurs_at(s, p, k) && forall|j: int|
            j < k ==> !occurs_at(s, p, j),
        find_last(s, p) == Some(k) <==> occurs_at(s, p, k) && forall|j: int|
            j > k ==> !occurs_at(s, p, j),
        find(s, p) is None <==> !holds(s, p),
        find_last(s, p) is None <==> !holds(s, p),
{
    lemma_find_from(s, p, 0);
    lemma_find_back_from(s, p, s.len() as int);
    assert(forall|j: int| j < 0 || j > s.len() ==> !occurs_at(s, p, j));
    if holds(s, p) {
        let i = choose|i: int| occurs_at(s, p, i);
        assert(occurs_at(s, p, i));
    }
}

/// A text is parted at the first `c`; one without `c` is not parted.
pub proof fn law_cutting(before: Seq<char>, c: char, after: Seq<char>, s: Seq<char>)
    requires
        !before.contains(c),
    ensures
        cut(before + seq![c] + after, c) == Some((before, after)),
        index_where(before + seq![c] + after, is_char(c)) == before.len(),
        cut(s, c) is None <==> !s.contains(c),
        !s.contains(c) ==> index_where(s, is_char(c)) == s.len(),
{
    let all = before + seq![c] + after;
    let n = before.len() as int;
    assert forall|j: int| 0 <= j < n implies all[j] != c by {
        assert(all[j] == before[j]);
        assert(before.contains(before[j]));
    }
    lemma_index_where_is(all, is_char(c), n);
    assert(all.take(n) =~= before);
    assert(all.skip(n + 1) =~= after);
    lemma_index_where(s, is_char(c));
    let f = is_char(c);
    let k = index_where(s, f);
    if k < s.len() {
        assert(f(s[k]));
        assert(s.contains(c));
    } else if s.contains(c) {
        let j = choose|j: int| 0 <= j < s.len() && s[j] == c;
        assert(!f(s[j]));
    }
}

/// The first white space of a text ends what stands before it.
pub proof fn law_first_white_space(before: Seq<char>, after: Seq<char>)
    requires
        forall|i: int| 0 <= i < before.len() ==> !is_white(#[trigger] before[i]),
        after.len() == 0 || is_white(after[0]),
    ensures
        index_where(before + after, is_white_fn()) == before.len(),
{
    let all = before + after;
    assert forall|j: int| 0 <= j < before.len() implies !is_white(#[trigger] all[j]) by {
        assert(all[j] == before[j]);
    }
    lemma_index_where_is(all, is_white_fn(), before.len() as int);
}

/// Splitting at `c` takes off what stands before the first `c`, and goes on
/// behind it; a text without `c` is one piece.
pub proof fn law_splitting_at_a_character(before: Seq<char>, c: char, after: Seq<char>)
    requires
        !before.contains(c),
    ensures
        split_char(before, c) == seq![before],
        split_char(before + seq![c] + after, c) == seq![before] + split_char(after, c),
{
    law_cutting(before, c, after, before);
    let all = before + seq![c] + after;
    assert(all.take(before.len() as int) =~= before);
    assert(all.skip(before.len() as int + 1) =~= after);
}

/// Splitting at a text takes off what stands before its first place, and goes on
/// behind it; a text in which it does not stand is one piece.
pub proof fn law_splitting_at_a_text(before: Seq<char>, p: Seq<char>, after: Seq<char>)
    requires
        p.len() > 0,
        forall|j: int| 0 <= j < before.len() ==> !#[trigger] occurs_at(before + p + after, p, j),
    ensures
        split_text(before + p + after, p) == seq![before] + split_text(after, p),
        !holds(after, p) ==> split_text(after, p) == seq![after],
{
    let all = before + p + after;
    let n = before.len() as int;
    assert(all.subrange(n, n + p.len()) =~= p);
    assert(occurs_at(all, p, n));
    lemma_find_is(all, p, n);
    assert(all.take(n) =~= before);
    assert(all.skip(n + p.len()) =~= after);
    law_first_and_last(after, p, 0);
}

/// The first line stands before the first line feed, without a carriage return
/// directly before that; a text without line feed is one line.
pub proof fn law_first_line(line: Seq<char>, rest: Seq<char>)
    requires
        !line.contains('\n'),
    ensures
        first_line(line) == line,
        line.len() == 0 || line.last() != '\r' ==> first_line(line + seq!['\n'] + rest) == line,
        first_line(line + seq!['\r', '\n'] + rest) == line,
{
    law_cutting(line, '\n', rest, line);
    assert(line.take(line.len() as int) =~= line);
    let plain = line + seq!['\n'] + rest;
    assert(plain.take(line.len() as int) =~= line);
    if line.len() > 0 {
        assert(plain[line.len() - 1] == line.last());
    }
    let with_return = line.push('\r');
    let other = line + seq!['\r', '\n'] + rest;
    assert(!with_return.contains('\n')) by {
        if with_return.contains('\n') {
            let j = choose|j: int| 0 <= j < with_return.len() && with_return[j] == '\n';
            assert(line[j] == '\n');
            assert(line.contains('\n'));
        }
    }
    assert(other =~= with_return + seq!['\n'] + rest);
    law_cutting(with_return, '\n', rest, line);
    assert(other.take(line.len() as int) =~= line);
}

/// Trimming takes the white space at both ends, all of it, and nothing else.
pub proof fn law_trimming(before: Seq<char>, s: Seq<char>, after: Seq<char>)
    requires
        forall|i: int| 0 <= i < before.len() ==> is_white(#[trigger] before[i]),
        forall|i: int| 0 <= i < after.len() ==> is_white(#[trigger] after[i]),
        s.len() > 0 ==> !is_white(s[0]) && !is_white(s.last()),
    ensures
        trim(before + s + after) == s,
{
    lemma_trim_of_padded(before, s, after);
}

/// Stripping takes every copy of a text at the end, and nothing else.
pub proof fn law_stripping(s: Seq<char>, p: Seq<char>)
    requires
        p.len() > 0,
    ensures
        strip_all(s + p, p) == strip_all(s, p),
        !occurs_at(s, p, s.len() - p.len()) ==> strip_all(s, p) == s,
{
    let all = s + p;
    assert(all.subrange(all.len() - p.len(), all.len() as int) =~= p);
    assert(all.take(all.len() - p.len()) =~= s);
}

/// The number that decimal digits write.
pub open spec fn written_number(s: Seq<char>) -> int
    decreases s.len(),
{
    if s.len() == 0 {
        0
    } else {
        10 * written_number(s.drop_last()) + (s.last() as int - 48)
    }
}

/// A number is written in digits that write that number, the first of them no
/// zero unless it is the only one.
pub proof fn law_decimal(n: nat)
    ensures
        written_number(decimal(n)) == n,
        decimal(n).len() > 0,
        decimal(n).len() > 1 ==> decimal(n)[0] != '0',
        forall|i: int| 0 <= i < decimal(n).len() ==> 48 <= #[trigger] decimal(n)[i] as int <= 57,
    decreases n,
{
    if n < 10 {
        let s = seq![digit(n)];
        assert(s.drop_last() =~= Seq::<char>::empty());
        assert(written_number(s.drop_last()) == 0);
        assert(s.last() == digit(n));
    } else {
        law_decimal(n / 10);
        let front = decimal(n / 10);
        let s = decimal(n);
        assert(s.drop_last() =~= front);
        assert(s.last() == digit(n % 10));
        assert(s[0] == front[0]);
        if front.len() == 1 && front[0] == '0' {
            assert(front.drop_last() =~= Seq::<char>::empty());
            assert(front.last() == '0');
            assert(written_number(front.drop_last()) == 0);
            assert(written_number(front) == 0);
        }
        assert forall|i: int| 0 <= i < s.len() implies 48 <= #[trigger] s[i] as int <= 57 by {
            if i < front.len() {
                assert(s[i] == front[i]);
            }
        }
    }
}

/// A line break is a carriage return and a line feed; one line has none of them,
/// an unbroken text neither of the two.
pub proof fn law_line_breaks(s: Seq<char>)
    ensures
        crlf() == seq!['\r', '\n'],
        one_line(s) <==> forall|i: int|
            0 <= i && i + 1 < s.len() && #[trigger] s[i] == '\r' ==> s[i + 1] != '\n',
        unbroken(s) <==> !s.contains('\r') && !s.contains('\n'),
{
    if one_line(s) {
        assert forall|i: int|
            0 <= i && i + 1 < s.len() && #[trigger] s[i] == '\r' implies s[i + 1] != '\n' by {
            lemma_break_at(s, i);
            assert(!occurs_at(s, crlf(), i));
        }
    }
    if forall|i: int|
        0 <= i && i + 1 < s.len() && #[trigger] s[i] == '\r' ==> s[i + 1] != '\n' {
        assert forall|i: int| !#[trigger] occurs_at(s, crlf(), i) by {
            lemma_break_at(s, i);
        }
    }
    if unbroken(s) {
        assert(!s.contains('\r') && !s.contains('\n'));
    } else {
        let i = choose|i: int| 0 <= i < s.len() && !(#[trigger] s[i] != '\r' && s[i] != '\n');
        assert(s.contains(s[i]));
    }
}

/// White space is the twenty-five characters that Unicode gives that property:
/// the five controls from the tab to the carriage return, the space, the next
/// line, and the wider and narrower spaces and separators.
pub proof fn law_white_space(c: char)
    ensures
        is_white(c) <==> {
            let n = c as int;
            ||| n == 0x9 || n == 0xa || n == 0xb || n == 0xc || n == 0xd || n == 0x20
            ||| n == 0x85 || n == 0xa0 || n == 0x1680
            ||| n == 0x2000 || n == 0x2001 || n == 0x2002 || n == 0x2003 || n == 0x2004
            ||| n == 0x2005 || n == 0x2006 || n == 0x2007 || n == 0x2008 || n == 0x2009
            ||| n == 0x200a || n == 0x2028 || n == 0x2029 || n == 0x202f || n == 0x205f
            ||| n == 0x3000
        },
{
}

} // verus!
