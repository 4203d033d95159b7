//! The bundled host: where it lies, which release it is, and which files of it
//! are run.
use vstd::prelude::*;
use vstd::slice::slice_subrange;
use vstd::string::StringExecFns;

use crate::paths;
use crate::paths::{PathBase, PathPlan};
use crate::text;

verus! {

// ── where it lies ──────────────────────────────────────────────────────────

/// A directory that a host may lie under.
#[derive(Debug, Clone, Copy, PartialEq, Eq)]
pub enum HostRoot {
    /// The resource directory of the installed application.
    Resources,
    /// The source tree that the application was built from.
    Checkout,
}

/// The bases and components of plans.
pub open spec fn plan_views<P>(plans: Seq<PathPlan<P>>) -> Seq<(PathBase<P>, Seq<Seq<char>>)> {
    plans.map_values(|plan: PathPlan<P>| (plan.base, text::texts(plan.tail@)))
}

/// Where a host may lie, in the order of preference.
pub open spec fn host_dirs(resources_known: bool) -> Seq<(PathBase<HostRoot>, Seq<Seq<char>>)> {
    let checkout = (PathBase::Given(HostRoot::Checkout), seq!["resources"@, "host"@]);
    if resources_known {
        seq![
            (PathBase::Given(HostRoot::Resources), seq!["host"@]),
            (PathBase::Given(HostRoot::Resources), seq!["resources"@, "host"@]),
            checkout,
        ]
    } else {
        seq![checkout]
    }
}

/// Where a host may lie: in the resource directory, where it is known, and in
/// the source tree.
pub fn resolve_host_dirs(resources_known: bool) -> (r: Vec<PathPlan<HostRoot>>)
    ensures
        plan_views(r@) == host_dirs(resources_known),
{
    let mut dirs: Vec<PathPlan<HostRoot>> = Vec::new();
    let ghost flat = Seq::<Seq<char>>::empty().push("host"@);
    let ghost nested = Seq::<Seq<char>>::empty().push("resources"@).push("host"@);
    assert(flat =~= seq!["host"@]);
    assert(nested =~= seq!["resources"@, "host"@]);
    if resources_known {
        dirs.push(paths::at(PathBase::Given(HostRoot::Resources)).join("host"));
        dirs.push(paths::at(PathBase::Given(HostRoot::Resources)).join("resources").join("host"));
    }
    dirs.push(paths::at(PathBase::Given(HostRoot::Checkout)).join("resources").join("host"));
    assert(plan_views(dirs@) =~= host_dirs(resources_known));
    dirs
}

/// The first directory that holds the host's entry file.
pub fn find_host_dir<F: Fn(&PathPlan<HostRoot>) -> bool>(
    dirs: &[PathPlan<HostRoot>],
    has_entry: F,
) -> (r: Option<usize>)
    requires
        forall|plan: PathPlan<HostRoot>| #[trigger] call_requires(has_entry, (&plan,)),
    ensures
        match r {
            Some(i) => {
                &&& i < dirs.len()
                &&& call_ensures(has_entry, (&dirs@[i as int],), true)
                &&& forall|j: int|
                    0 <= j < i ==> call_ensures(has_entry, (&#[trigger] dirs@[j],), false)
            },
            None => forall|j: int|
                0 <= j < dirs.len() ==> call_ensures(has_entry, (&#[trigger] dirs@[j],), false),
        },
{
    let mut i: usize = 0;
    while i < dirs.len()
        invariant
            i <= dirs.len(),
            forall|plan: PathPlan<HostRoot>| #[trigger] call_requires(has_entry, (&plan,)),
            forall|j: int| 0 <= j < i ==> call_ensures(has_entry, (&#[trigger] dirs@[j],), false),
        decreases dirs.len() - i,
    {
        if has_entry(&dirs[i]) {
            return Some(i);
        }
        i += 1;
    }
    None
}

/// Texts with a comma and a space between them.
pub open spec fn listed(items: Seq<Seq<char>>) -> Seq<char>
    decreases items.len(),
{
    if items.len() == 0 {
        Seq::empty()
    } else if items.len() == 1 {
        items[0]
    } else {
        listed(items.drop_last()) + ", "@ + items.last()
    }
}

/// The message where no directory holds a host.
pub fn missing_host_notice(dirs: &[String]) -> (r: String)
    ensures
        r@ == "[host] bundled host missing under any of: "@ + listed(text::texts(dirs@)),
{
    let mut out = "[host] bundled host missing under any of: ".to_string();
    let ghost head = out@;
    let ghost all = text::texts(dirs@);
    let mut i: usize = 0;
    assert(all.take(0).len() == 0);
    assert(head + listed(all.take(0)) =~= head);
    while i < dirs.len()
        invariant
            i <= dirs.len(),
            all == text::texts(dirs@),
            out@ == head + listed(all.take(i as int)),
        decreases dirs.len() - i,
    {
        let ghost before = out@;
        if i > 0 {
            out.append(", ");
        }
        out.append(dirs[i].as_str());
        proof {
            let items = all.take(i + 1);
            assert(items.drop_last() =~= all.take(i as int));
            assert(items.last() == all[i as int]);
            if i > 0 {
                assert(out@ =~= head + listed(items));
            } else {
                assert(before =~= head);
                assert(listed(items) == items[0]);
            }
        }
        i += 1;
    }
    assert(all.take(i as int) =~= all);
    out
}

/// The bundled Node program in a host directory.
pub fn host_node_binary(host_dir: &PathPlan<HostRoot>, windows: bool) -> (r: PathPlan<HostRoot>)
    ensures
        r.is(
            host_dir.base,
            text::texts(host_dir.tail@) + if windows {
                seq!["node"@, "node.exe"@]
            } else {
                seq!["node"@, "bin"@, "node"@]
            },
        ),
{
    let node = host_dir.child("node");
    let ghost tail = text::texts(host_dir.tail@);
    if windows {
        let r = node.join("node.exe");
        assert(tail.push("node"@).push("node.exe"@) =~= tail + seq!["node"@, "node.exe"@]);
        r
    } else {
        let r = node.join("bin").join("node");
        assert(tail.push("node"@).push("bin"@).push("node"@) =~= tail + seq![
            "node"@,
            "bin"@,
            "node"@,
        ]);
        r
    }
}

/// The manifest of the bundled release in a host directory.
pub fn manifest_file(host_dir: &PathPlan<HostRoot>) -> (r: PathPlan<HostRoot>)
    ensures
        r.is(
            host_dir.base,
            text::texts(host_dir.tail@) + seq![
                "node_modules"@,
                "@deepseek-ai/dsh"@,
                "package.json"@,
            ],
        ),
{
    let r = host_dir.child("node_modules").join("@deepseek-ai/dsh").join("package.json");
    let ghost tail = text::texts(host_dir.tail@);
    assert(tail.push("node_modules"@).push("@deepseek-ai/dsh"@).push("package.json"@) =~= tail
        + seq!["node_modules"@, "@deepseek-ai/dsh"@, "package.json"@]);
    r
}

/// A Windows path without the extended-length prefix `\\?\`, which Node does
/// not understand. `None` leaves the path as it is.
pub open spec fn plain_path(path: Seq<char>, windows: bool) -> Option<Seq<char>> {
    let prefix = seq!['\\', '\\', '?', '\\'];
    if windows && text::begins_with(path, prefix) {
        Some(path.skip(4))
    } else {
        None
    }
}

/// The path without the extended-length prefix, where it has one on Windows.
pub fn strip_verbatim_prefix(path: &str, windows: bool) -> (r: Option<String>)
    ensures
        text::text_view(r) == plain_path(path@, windows),
{
    if !windows {
        return None;
    }
    let chars = text::chars_of(path);
    let prefix: Vec<char> = vec!['\\', '\\', '?', '\\'];
    assert(prefix@ =~= seq!['\\', '\\', '?', '\\']);
    let n = chars.len();
    if text::starts_with(chars.as_slice(), prefix.as_slice()) {
        let rest = slice_subrange(chars.as_slice(), 4, n);
        assert(rest@ =~= path@.skip(4));
        Some(text::string_of(rest))
    } else {
        None
    }
}

// ── which release it is ────────────────────────────────────────────────────

/// The text at a member of the object that a JSON document is. There is none
/// where the document is not JSON or no object, or where the member is missing
/// or no string.
pub uninterp spec fn json_text_member(document: Seq<char>, member: Seq<char>) -> Option<Seq<char>>;

/// `serde_json::from_str` into a `serde_json::Value`, then `Value::get` and
/// `Value::as_str`. The outcome is a function of the document and the member's
/// name, named `json_text_member`; how JSON is read is left unsaid.
#[verifier::external_body]
fn member_text(document: &str, member: &str) -> (r: Option<String>)
    ensures
        text::text_view(r) == json_text_member(document@, member@),
{
    let value: serde_json::Value = serde_json::from_str(document).ok()?;
    value.get(member)?.as_str().map(|text| text.to_string())
}

/// A version is worth telling if it is not empty.
pub open spec fn told_version(version: Option<Seq<char>>) -> Option<Seq<char>> {
    match version {
        Some(text) => if text.len() > 0 {
            Some(text)
        } else {
            None
        },
        None => None,
    }
}

/// Takes the version that a manifest holds, unless it is empty.
pub fn accept_version(version: Option<String>) -> (r: Option<String>)
    ensures
        text::text_view(r) == told_version(text::text_view(version)),
{
    match version {
        Some(text) => if text::chars_of(text.as_str()).len() > 0 {
            Some(text)
        } else {
            None
        },
        None => None,
    }
}

/// The version of the bundled release: the top-level member `version` of its
/// manifest. A manifest that is missing or cannot be read (`None`), is not
/// JSON, or has no version yields none.
pub fn bundled_host_version(manifest: Option<&str>) -> (r: Option<String>)
    ensures
        text::text_view(r) == match manifest {
            Some(document) => told_version(json_text_member(document@, "version"@)),
            None => None,
        },
{
    match manifest {
        Some(document) => accept_version(member_text(document, "version")),
        None => None,
    }
}

/// The line that tells the version.
pub fn version_notice(version: Option<&str>) -> (r: String)
    ensures
        r@ == "[host] bundled harness version: "@ + match version {
            Some(text) => text@,
            None => "unknown"@,
        },
{
    let mut out = "[host] bundled harness version: ".to_string();
    match version {
        Some(text) => out.append(text),
        None => out.append("unknown"),
    }
    out
}

/// A character that may stand in the version on the loading screen.
pub open spec fn is_plain(c: char) -> bool {
    ||| '0' <= c <= '9'
    ||| 'A' <= c <= 'Z'
    ||| 'a' <= c <= 'z'
    ||| c == '.' || c == '-' || c == '+' || c == '_'
}

/// The plain characters of a text, in their order.
pub open spec fn plain(s: Seq<char>) -> Seq<char> {
    s.filter(|c: char| is_plain(c))
}

/// The script that writes a version on the loading screen.
pub open spec fn version_script(version: Seq<char>) -> Seq<char> {
    "const s = document.getElementById('status'); if (s) { s.textContent = 'Starting the sidecar host v"@
        + plain(version) + "…'; }"@
}

/// The script that writes the version of the bundled release on the loading
/// screen: only plain characters of it get into the script.
pub fn surface_version(version: &str) -> (r: String)
    ensures
        r@ == version_script(version@),
{
    let chars = text::chars_of(version);
    let mut out =
        "const s = document.getElementById('status'); if (s) { s.textContent = 'Starting the sidecar host v".to_string();
    let ghost head = out@;
    let mut i: usize = 0;
    proof {
        assert(chars@.take(0) =~= Seq::empty());
        reveal(Seq::filter);
        assert(plain(chars@.take(0)) =~= Seq::empty());
        assert(head + plain(chars@.take(0)) =~= head);
    }
    while i < chars.len()
        invariant
            i <= chars.len(),
            out@ == head + plain(chars@.take(i as int)),
        decreases chars.len() - i,
    {
        let c = chars[i];
        let keep = ('0' <= c && c <= '9') || ('A' <= c && c <= 'Z') || ('a' <= c && c <= 'z') || c
            == '.' || c == '-' || c == '+' || c == '_';
        let ghost before = out@;
        if keep {
            out.push(c);
        }
        proof {
            let next = chars@.take(i + 1);
            assert(next.drop_last() =~= chars@.take(i as int));
            assert(next.last() == c);
            reveal(Seq::filter);
            assert(plain(next) =~= if keep {
                plain(chars@.take(i as int)).push(c)
            } else {
                plain(chars@.take(i as int))
            });
            assert(out@ =~= head + plain(next));
        }
        i += 1;
    }
    assert(chars@.take(i as int) =~= chars@);
    out.append("…'; }");
    out
}

// ── laws ───────────────────────────────────────────────────────────────────

/// A version cannot leave its place in the script: of whatever it holds, only
/// letters, digits and `.`, `-`, `+`, `_` get there.
pub proof fn law_the_version_stays_inert(version: Seq<char>)
    ensures
        forall|i: int| 0 <= i < plain(version).len() ==> is_plain(#[trigger] plain(version)[i]),
    decreases version.len(),
{
    reveal(Seq::filter);
    if version.len() > 0 {
        law_the_version_stays_inert(version.drop_last());
        let before = plain(version.drop_last());
        let all = plain(version);
        assert forall|i: int| 0 <= i < all.len() implies is_plain(#[trigger] all[i]) by {
            if i < before.len() {
                assert(all[i] == before[i]);
            }
        }
    }
}

/// Where a host may lie: below the resources of the installed application,
/// flat or nested, where those are known, and then, in any case, in the source
/// tree.
pub proof fn law_the_installed_host_is_preferred()
    ensures
        host_dirs(false) == seq![
            (PathBase::Given(HostRoot::Checkout), seq!["resources"@, "host"@]),
        ],
        host_dirs(true) == seq![
            (PathBase::Given(HostRoot::Resources), seq!["host"@]),
            (PathBase::Given(HostRoot::Resources), seq!["resources"@, "host"@]),
        ] + host_dirs(false),
{
    assert(host_dirs(true) =~= seq![
        (PathBase::Given(HostRoot::Resources), seq!["host"@]),
        (PathBase::Given(HostRoot::Resources), seq!["resources"@, "host"@]),
    ] + host_dirs(false));
}

/// Directories are listed in their order with a comma and a space between two.
pub proof fn law_directories_are_listed_in_order(items: Seq<Seq<char>>, item: Seq<char>)
    ensures
        listed(Seq::<Seq<char>>::empty()) == Seq::<char>::empty(),
        items.len() == 0 ==> listed(items.push(item)) == item,
        items.len() > 0 ==> listed(items.push(item)) == listed(items) + seq![',', ' '] + item,
{
    let more = items.push(item);
    assert(more.drop_last() =~= items);
    assert(more.last() == item);
    reveal_strlit(", ");
    assert(", "@ =~= seq![',', ' ']);
    if items.len() == 0 {
        assert(more[0] == item);
    }
}

/// On Windows the extended-length prefix is taken off, once, and what follows it
/// stays; any other path, and every path elsewhere, is left as it is.
pub proof fn law_only_the_verbatim_prefix_is_taken_off(rest: Seq<char>, other: Seq<char>)
    requires
        other.len() < 4 || other.take(4) != seq!['\\', '\\', '?', '\\'],
    ensures
        plain_path(seq!['\\', '\\', '?', '\\'] + rest, true) == Some(rest),
        plain_path(seq!['\\', '\\', '?', '\\'] + rest, false) is None,
        plain_path(other, true) is None,
        plain_path(other, false) is None,
{
    let prefix = seq!['\\', '\\', '?', '\\'];
    let path = prefix + rest;
    assert(path.subrange(0, 4) =~= prefix);
    assert(path.skip(4) =~= rest);
    if text::begins_with(other, prefix) {
        assert(other.take(4) =~= other.subrange(0, 4));
    }
}

/// Every version is told as it stands, unless it is empty.
pub proof fn law_every_version_is_told(version: Seq<char>)
    ensures
        version.len() > 0 ==> told_version(Some(version)) == Some(version),
        version.len() == 0 ==> told_version(Some(version)) is None,
        told_version(None) is None,
{
}

/// The letters, digits and `.`, `-`, `+`, `_` of a version all reach the loading
/// screen, in their order and nothing between them; no other character does.
pub proof fn law_the_plain_characters_are_kept(version: Seq<char>, c: char)
    ensures
        plain(Seq::<char>::empty()) == Seq::<char>::empty(),
        ({
            let n = c as int;
            let kept = 48 <= n <= 57 || 65 <= n <= 90 || 97 <= n <= 122 || c == '.' || c == '-' || c
                == '+' || c == '_';
            plain(version.push(c)) == if kept {
                plain(version).push(c)
            } else {
                plain(version)
            }
        }),
        version_script(version)
            == "const s = document.getElementById('status'); if (s) { s.textContent = 'Starting the sidecar host v"@
            + plain(version) + "…'; }"@,
{
    reveal(Seq::filter);
    assert(plain(Seq::<char>::empty()) =~= Seq::<char>::empty());
    let more = version.push(c);
    assert(more.drop_last() =~= version);
    assert(more.last() == c);
}

} // verus!
