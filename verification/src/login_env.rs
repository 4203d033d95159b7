//! The environment of the sidecar: what the login shell exports, laid over
//! what the process inherited.
//!
//! A process that a desktop starts inherits next to nothing of what the user's
//! profile exports. The login shell is asked to print its environment behind a
//! marker; whatever goes wrong, the inherited environment is kept.
use vstd::prelude::*;
use vstd::slice::slice_subrange;
use vstd::string::StringExecFns;
use vstd::utf8::{decode_utf8, valid_utf8};

use crate::bytes;
use crate::paths;
use crate::paths::{PathBase, PathPlan};
use crate::text;

verus! {

/// What the shell prints before its environment.
pub const SHELL_ENV_MARKER: &'static str = "__DSH_ENV__";

/// How long the shell may take, in milliseconds.
pub const SHELL_ENV_PROBE_TIMEOUT_MS: u64 = 5_000;

/// How long to sleep between two looks at the shell, in milliseconds.
pub const SHELL_ENV_POLL_MS: u64 = 25;

/// How many bytes of the shell's output are read.
pub const SHELL_ENV_MAX_OUTPUT_BYTES: u64 = 65_536;

/// The names and values of a list of variables.
pub open spec fn pairs(vars: Seq<(String, String)>) -> Seq<(Seq<char>, Seq<char>)> {
    vars.map_values(|v: (String, String)| (v.0@, v.1@))
}

/// The view of an optional list of variables.
pub open spec fn pairs_view(vars: Option<Vec<(String, String)>>) -> Option<
    Seq<(Seq<char>, Seq<char>)>,
> {
    match vars {
        Some(list) => Some(pairs(list@)),
        None => None,
    }
}

// ── asking the shell ───────────────────────────────────────────────────────

/// The arguments that make a login shell print its environment.
pub fn probe_arguments() -> (r: Vec<String>)
    ensures
        text::texts(r@) == seq!["-ilc"@, "printf '"@ + SHELL_ENV_MARKER@ + "'; env -0"@],
{
    let mut script = "printf '".to_string();
    script.append(SHELL_ENV_MARKER);
    script.append("'; env -0");
    let mut out: Vec<String> = Vec::new();
    out.push("-ilc".to_string());
    out.push(script);
    assert(text::texts(out@) =~= seq!["-ilc"@, "printf '"@ + SHELL_ENV_MARKER@ + "'; env -0"@]);
    out
}

/// What a look at the shell found.
#[derive(Debug, Clone, Copy, PartialEq, Eq)]
pub enum ShellState {
    Exited,
    Running,
    /// Looking failed.
    Unknown,
}

/// What to do about the shell.
#[derive(Debug, Clone, Copy, PartialEq, Eq)]
pub enum ShellStep {
    /// Read what it printed.
    Drain,
    /// Look again after this many milliseconds.
    Sleep(u64),
    /// Kill and reap it, and keep the inherited environment.
    GiveUp,
}

/// What a look at the shell leads to.
pub open spec fn step_after(state: ShellState, elapsed_ms: u64) -> ShellStep {
    match state {
        ShellState::Exited => ShellStep::Drain,
        ShellState::Running => if elapsed_ms >= SHELL_ENV_PROBE_TIMEOUT_MS {
            ShellStep::GiveUp
        } else {
            ShellStep::Sleep(SHELL_ENV_POLL_MS)
        },
        ShellState::Unknown => ShellStep::GiveUp,
    }
}

/// What to do about the shell after a look at it, `elapsed_ms` after it was
/// started: a profile that hangs must not hold up the launch.
pub fn shell_step(state: ShellState, elapsed_ms: u64) -> (r: ShellStep)
    ensures
        r == match state {
            ShellState::Exited => ShellStep::Drain,
            ShellState::Running => if elapsed_ms >= SHELL_ENV_PROBE_TIMEOUT_MS {
                ShellStep::GiveUp
            } else {
                ShellStep::Sleep(SHELL_ENV_POLL_MS)
            },
            ShellState::Unknown => ShellStep::GiveUp,
        },
        r == step_after(state, elapsed_ms),
{
    match state {
        ShellState::Exited => ShellStep::Drain,
        ShellState::Running => if elapsed_ms >= SHELL_ENV_PROBE_TIMEOUT_MS {
            ShellStep::GiveUp
        } else {
            ShellStep::Sleep(SHELL_ENV_POLL_MS)
        },
        ShellState::Unknown => ShellStep::GiveUp,
    }
}

// ── reading its answer ─────────────────────────────────────────────────────

/// The assignment in a segment of the shell's output: a name that is not empty,
/// `=`, and a value.
pub open spec fn assignment(segment: Seq<char>) -> Option<(Seq<char>, Seq<char>)> {
    match text::cut(segment, '=') {
        Some((name, value)) => if name.len() > 0 {
            Some((name, value))
        } else {
            None
        },
        None => None,
    }
}

/// The assignments among segments, in their order.
pub open spec fn assignments(segments: Seq<Seq<char>>) -> Seq<(Seq<char>, Seq<char>)>
    decreases segments.len(),
{
    if segments.len() == 0 {
        Seq::empty()
    } else {
        let before = assignments(segments.drop_last());
        match assignment(segments.last()) {
            Some(pair) => before.push(pair),
            None => before,
        }
    }
}

/// The segments of a payload: what stands between its NULs, but not the noise
/// behind the last of them. Without a NUL the payload is one segment.
pub open spec fn segments_of(payload: Seq<char>) -> Seq<Seq<char>> {
    let pieces = text::split_char(payload, '\0');
    if pieces.len() > 1 {
        pieces.drop_last()
    } else {
        pieces
    }
}

/// The environment that the shell printed: the assignments behind the last
/// marker, set apart by NUL. There is none where the marker is missing or no
/// assignment follows it.
pub open spec fn printed_env(payload: Seq<char>) -> Option<Seq<(Seq<char>, Seq<char>)>> {
    match text::find_last(payload, SHELL_ENV_MARKER@) {
        Some(k) => {
            let found = assignments(segments_of(payload.skip(k + SHELL_ENV_MARKER@.len())));
            if found.len() > 0 {
                Some(found)
            } else {
                None
            }
        },
        None => None,
    }
}

/// Reads the variables that the shell printed behind the last marker. Segments
/// that assign nothing are skipped, and so is what stands behind the last NUL.
pub fn extract_probe_env(payload: &str) -> (r: Option<Vec<(String, String)>>)
    ensures
        pairs_view(r) == printed_env(payload@),
{
    let chars = text::chars_of(payload);
    let marker = text::chars_of(SHELL_ENV_MARKER);
    let n = chars.len();
    let start = match text::find_last_text(chars.as_slice(), marker.as_slice()) {
        Some(k) => k + marker.len(),
        None => {
            return None;
        },
    };
    let behind = slice_subrange(chars.as_slice(), start, n);
    assert(behind@ =~= payload@.skip(start as int));
    let segments = text::split_at_char(behind, '\0');
    let ghost all = text::pieces(segments@);
    let mut vars: Vec<(String, String)> = Vec::new();
    let mut i: usize = 0;
    assert(all.len() > 0);
    let end = if segments.len() > 1 {
        segments.len() - 1
    } else {
        segments.len()
    };
    assert(all.take(0) =~= Seq::<Seq<char>>::empty());
    assert(pairs(vars@) =~= assignments(all.take(0)));
    while i < end
        invariant
            i <= end <= segments.len(),
            all == text::pieces(segments@),
            pairs(vars@) == assignments(all.take(i as int)),
        decreases end - i,
    {
        let segment = segments[i].as_slice();
        assert(all.take(i + 1).drop_last() =~= all.take(i as int));
        assert(all.take(i + 1).last() == segment@);
        if let Some((name, value)) = text::split_once(segment, '=') {
            if name.len() > 0 {
                let ghost before = vars@;
                vars.push((text::string_of(name), text::string_of(value)));
                assert(pairs(vars@) =~= pairs(before).push((name@, value@)));
            }
        }
        i += 1;
    }
    assert(all.take(i as int) =~= segments_of(behind@));
    if vars.len() == 0 {
        assert(pairs(vars@).len() == 0);
        None
    } else {
        assert(pairs(vars@).len() > 0);
        Some(vars)
    }
}

/// Reads the variables in what the shell printed.
pub fn restore_login_shell_env(output: &[u8]) -> (r: Option<Vec<(String, String)>>)
    ensures
        pairs_view(r) == printed_env(bytes::utf8_lossy(output@)),
        valid_utf8(output@) ==> bytes::utf8_lossy(output@) == decode_utf8(output@),
{
    extract_probe_env(bytes::lossy_text(output).as_str())
}

// ── layers ─────────────────────────────────────────────────────────────────

/// A list of variables as a map: of two with one name, the later counts.
pub open spec fn env_map(vars: Seq<(Seq<char>, Seq<char>)>) -> Map<Seq<char>, Seq<char>>
    decreases vars.len(),
{
    if vars.len() == 0 {
        Map::empty()
    } else {
        env_map(vars.drop_last()).insert(vars.last().0, vars.last().1)
    }
}

/// No name occurs twice.
pub open spec fn distinct_names(vars: Seq<(Seq<char>, Seq<char>)>) -> bool {
    forall|i: int, j: int|
        0 <= i < j < vars.len() ==> (#[trigger] vars[i]).0 != (#[trigger] vars[j]).0
}

/// The environment of the sidecar: what was inherited, under what the login
/// shell exports, under what the sidecar is promised.
pub open spec fn layered(
    ambient: Map<Seq<char>, Seq<char>>,
    login: Map<Seq<char>, Seq<char>>,
) -> Map<Seq<char>, Seq<char>> {
    ambient.union_prefer_right(login).insert("DSH_DESKTOP_PORT"@, "0"@)
}

/// The value of the first variable with a name.
pub open spec fn lookup(vars: Seq<(Seq<char>, Seq<char>)>, name: Seq<char>) -> Option<Seq<char>>
    decreases vars.len(),
{
    if vars.len() == 0 {
        None
    } else if vars[0].0 == name {
        Some(vars[0].1)
    } else {
        lookup(vars.drop_first(), name)
    }
}

/// The value of a variable.
pub fn lookup_var<'a>(vars: &'a [(String, String)], key: &str) -> (r: Option<&'a str>)
    ensures
        match r {
            Some(value) => lookup(pairs(vars@), key@) == Some(value@),
            None => lookup(pairs(vars@), key@) is None,
        },
{
    let ghost all = pairs(vars@);
    let mut i: usize = 0;
    assert(all.skip(0) =~= all);
    while i < vars.len()
        invariant
            i <= vars.len(),
            all == pairs(vars@),
            lookup(all.skip(i as int), key@) == lookup(all, key@),
        decreases vars.len() - i,
    {
        assert(all.skip(i as int)[0] == (vars@[i as int].0@, vars@[i as int].1@));
        if text::same_text(vars[i].0.as_str(), key) {
            return Some(vars[i].1.as_str());
        }
        assert(all.skip(i as int).drop_first() =~= all.skip(i + 1));
        i += 1;
    }
    None
}

/// In a map of distinct variables each name has the value that stands with it.
proof fn lemma_env_map(vars: Seq<(Seq<char>, Seq<char>)>)
    ensures
        forall|name: Seq<char>|
            env_map(vars).contains_key(name) <==> exists|i: int|
                0 <= i < vars.len() && (#[trigger] vars[i]).0 == name,
        distinct_names(vars) ==> forall|i: int|
            0 <= i < vars.len() ==> env_map(vars)[(#[trigger] vars[i]).0] == vars[i].1,
    decreases vars.len(),
{
    if vars.len() > 0 {
        let front = vars.drop_last();
        lemma_env_map(front);
        assert forall|name: Seq<char>|
            env_map(vars).contains_key(name) <==> exists|i: int|
                0 <= i < vars.len() && (#[trigger] vars[i]).0 == name by {
            if env_map(front).contains_key(name) {
                let i = choose|i: int| 0 <= i < front.len() && (#[trigger] front[i]).0 == name;
                assert(vars[i].0 == name);
            }
            if name == vars.last().0 {
                assert(vars[vars.len() - 1].0 == name);
            }
            if exists|i: int| 0 <= i < vars.len() && (#[trigger] vars[i]).0 == name {
                let i = choose|i: int| 0 <= i < vars.len() && (#[trigger] vars[i]).0 == name;
                if i < front.len() {
                    assert(front[i].0 == name);
                }
            }
        }
        if distinct_names(vars) {
            assert forall|i: int, j: int| 0 <= i < j < front.len() implies (#[trigger] front[i]).0
                != (#[trigger] front[j]).0 by {
                assert(front[i] == vars[i] && front[j] == vars[j]);
            }
            assert forall|i: int| 0 <= i < vars.len() implies env_map(vars)[(
            #[trigger] vars[i]).0] == vars[i].1 by {
                if i < front.len() {
                    assert(front[i] == vars[i]);
                    assert(vars[i].0 != vars[vars.len() - 1].0);
                }
            }
        }
    }
}

/// Changing the value that stands with a name changes the map there.
proof fn lemma_env_map_update(vars: Seq<(Seq<char>, Seq<char>)>, i: int, value: Seq<char>)
    requires
        0 <= i < vars.len(),
        distinct_names(vars),
    ensures
        distinct_names(vars.update(i, (vars[i].0, value))),
        env_map(vars.update(i, (vars[i].0, value))) == env_map(vars).insert(vars[i].0, value),
{
    let new = vars.update(i, (vars[i].0, value));
    assert(distinct_names(new)) by {
        assert forall|a: int, b: int| 0 <= a < b < new.len() implies (#[trigger] new[a]).0 != (
        #[trigger] new[b]).0 by {
            assert(vars[a].0 != vars[b].0);
        }
    }
    lemma_env_map(vars);
    lemma_env_map(new);
    let m = env_map(new);
    let e = env_map(vars).insert(vars[i].0, value);
    assert forall|name: Seq<char>| m.contains_key(name) <==> e.contains_key(name) by {
        if m.contains_key(name) {
            let k = choose|k: int| 0 <= k < new.len() && (#[trigger] new[k]).0 == name;
            assert(vars[k].0 == name);
        }
        if e.contains_key(name) {
            if env_map(vars).contains_key(name) {
                let k = choose|k: int| 0 <= k < vars.len() && (#[trigger] vars[k]).0 == name;
                assert(new[k].0 == name);
            } else {
                assert(vars[i].0 == name);
            }
        }
    }
    assert forall|name: Seq<char>| m.contains_key(name) implies m[name] == e[name] by {
        let k = choose|k: int| 0 <= k < new.len() && (#[trigger] new[k]).0 == name;
        assert(m[new[k].0] == new[k].1);
        if k != i {
            assert(vars[k] == new[k]);
            assert(env_map(vars)[vars[k].0] == vars[k].1);
            if vars[k].0 == vars[i].0 {
                if k < i {
                    assert(vars[k].0 != vars[i].0);
                } else {
                    assert(vars[i].0 != vars[k].0);
                }
            }
        }
    }
    assert(m =~= e);
}

/// Sets a variable: the value of the one with this name, or a new one.
fn set_var(vars: &mut Vec<(String, String)>, key: &str, value: &str)
    requires
        distinct_names(pairs(old(vars)@)),
    ensures
        distinct_names(pairs(final(vars)@)),
        env_map(pairs(final(vars)@)) == env_map(pairs(old(vars)@)).insert(key@, value@),
{
    let ghost before = pairs(vars@);
    let mut i: usize = 0;
    while i < vars.len()
        invariant
            i <= vars.len(),
            vars@ == old(vars)@,
            before == pairs(vars@),
            distinct_names(before),
            forall|j: int| 0 <= j < i ==> (#[trigger] before[j]).0 != key@,
        decreases vars.len() - i,
    {
        assert(before[i as int] == (vars@[i as int].0@, vars@[i as int].1@));
        if text::same_text(vars[i].0.as_str(), key) {
            vars.set(i, (key.to_string(), value.to_string()));
            proof {
                lemma_env_map_update(before, i as int, value@);
                assert(pairs(vars@) =~= before.update(i as int, (before[i as int].0, value@)));
            }
            return;
        }
        i += 1;
    }
    vars.push((key.to_string(), value.to_string()));
    let ghost after = pairs(vars@);
    assert(after =~= before.push((key@, value@)));
    assert(after.drop_last() =~= before);
    assert(distinct_names(after)) by {
        assert forall|a: int, b: int| 0 <= a < b < after.len() implies (#[trigger] after[a]).0 != (
        #[trigger] after[b]).0 by {
            assert(after[a] == before[a]);
            if b < before.len() {
                assert(after[b] == before[b]);
            }
        }
    }
}

/// Sets the variables of a list, one after the other.
fn set_vars(vars: &mut Vec<(String, String)>, layer: &[(String, String)])
    requires
        distinct_names(pairs(old(vars)@)),
    ensures
        distinct_names(pairs(final(vars)@)),
        env_map(pairs(final(vars)@)) == env_map(pairs(old(vars)@)).union_prefer_right(
            env_map(pairs(layer@)),
        ),
{
    let ghost start = env_map(pairs(vars@));
    let ghost all = pairs(layer@);
    let mut i: usize = 0;
    assert(all.take(0).len() == 0);
    assert(start.union_prefer_right(env_map(all.take(0))) =~= start);
    while i < layer.len()
        invariant
            i <= layer.len(),
            all == pairs(layer@),
            distinct_names(pairs(vars@)),
            env_map(pairs(vars@)) == start.union_prefer_right(env_map(all.take(i as int))),
        decreases layer.len() - i,
    {
        let ghost name = layer@[i as int].0@;
        let ghost value = layer@[i as int].1@;
        set_var(vars, layer[i].0.as_str(), layer[i].1.as_str());
        proof {
            assert(all.take(i + 1).drop_last() =~= all.take(i as int));
            assert(all.take(i + 1).last() == (name, value));
            assert(start.union_prefer_right(env_map(all.take(i as int))).insert(name, value)
                =~= start.union_prefer_right(env_map(all.take(i as int)).insert(name, value)));
        }
        i += 1;
    }
    assert(all.take(i as int) =~= all);
}

/// The environment of the sidecar, each name once: what the process inherited,
/// then what the login shell exports, then what the sidecar is promised. Later
/// layers win; a name that no later layer sets keeps its inherited value.
pub fn sidecar_env(ambient: &[(String, String)], login: &[(String, String)]) -> (r: Vec<
    (String, String),
>)
    ensures
        distinct_names(pairs(r@)),
        env_map(pairs(r@)) == layered(env_map(pairs(ambient@)), env_map(pairs(login@))),
{
    let mut vars: Vec<(String, String)> = Vec::new();
    assert(pairs(vars@) =~= Seq::<(Seq<char>, Seq<char>)>::empty());
    assert(Map::<Seq<char>, Seq<char>>::empty().union_prefer_right(env_map(pairs(ambient@)))
        =~= env_map(pairs(ambient@)));
    set_vars(&mut vars, ambient);
    set_vars(&mut vars, login);
    set_var(&mut vars, "DSH_DESKTOP_PORT", "0");
    vars
}

// ── what may be said of it ─────────────────────────────────────────────────

/// The names of variables, set apart by spaces.
pub open spec fn names_listed(vars: Seq<(Seq<char>, Seq<char>)>) -> Seq<char>
    decreases vars.len(),
{
    if vars.len() == 0 {
        Seq::empty()
    } else if vars.len() == 1 {
        vars[0].0
    } else {
        names_listed(vars.drop_last()) + " "@ + vars.last().0
    }
}

/// The line that says how many variables were restored.
pub fn count_notice(vars: &[(String, String)]) -> (r: String)
    ensures
        r@ == "[host] restored login-shell environment ("@ + text::decimal(vars@.len()) + " vars)"@,
{
    let mut out = "[host] restored login-shell environment (".to_string();
    out.append(text::decimal_text(vars.len() as u64).as_str());
    out.append(" vars)");
    out
}

/// The line that names the restored variables. No value stands in it.
pub fn names_notice(vars: &[(String, String)]) -> (r: String)
    ensures
        r@ == "[host] login-shell environment names: "@ + names_listed(pairs(vars@)),
{
    let mut out = "[host] login-shell environment names: ".to_string();
    let ghost head = out@;
    let ghost all = pairs(vars@);
    let mut i: usize = 0;
    assert(all.take(0).len() == 0);
    assert(head + names_listed(all.take(0)) =~= head);
    while i < vars.len()
        invariant
            i <= vars.len(),
            all == pairs(vars@),
            out@ == head + names_listed(all.take(i as int)),
        decreases vars.len() - i,
    {
        let ghost before = out@;
        if i > 0 {
            out.append(" ");
        }
        out.append(vars[i].0.as_str());
        proof {
            let listed = all.take(i + 1);
            assert(listed.drop_last() =~= all.take(i as int));
            assert(listed.last() == all[i as int]);
            if i > 0 {
                assert(out@ =~= head + names_listed(listed));
            } else {
                assert(before =~= head);
                assert(names_listed(listed) == listed[0].0);
            }
        }
        i += 1;
    }
    assert(all.take(i as int) =~= all);
    out
}

// ── finding Node ───────────────────────────────────────────────────────────

/// The plan joins a program's name to an entry of a search path.
pub open spec fn candidate(plan: PathPlan<String>, entry: Seq<char>, binary: Seq<char>) -> bool {
    &&& plan.base matches PathBase::Given(dir)
    &&& dir@ == entry
    &&& text::texts(plan.tail@) == seq![binary]
}

/// The entry was tried, and no executable file was found there.
pub open spec fn rejected<F: Fn(&PathPlan<String>) -> bool>(
    is_executable_file: F,
    entry: Seq<char>,
    binary: Seq<char>,
) -> bool {
    exists|plan: PathPlan<String>|
        candidate(plan, entry, binary) && call_ensures(is_executable_file, (&plan,), false)
}

/// The outcome of a search along a path: the first entry that is not empty and
/// where an executable file was found, or nothing where there is none.
pub open spec fn first_in_path<F: Fn(&PathPlan<String>) -> bool>(
    path_value: Seq<char>,
    binary: Seq<char>,
    is_executable_file: F,
    outcome: Option<PathPlan<String>>,
) -> bool {
    let entries = text::split_char(path_value, ':');
    match outcome {
        Some(plan) => exists|i: int|
            #![trigger entries[i]]
            {
                &&& 0 <= i < entries.len()
                &&& entries[i].len() > 0
                &&& candidate(plan, entries[i], binary)
                &&& call_ensures(is_executable_file, (&plan,), true)
                &&& forall|j: int|
                    #![trigger entries[j]]
                    0 <= j < i && entries[j].len() > 0 ==> rejected(
                        is_executable_file,
                        entries[j],
                        binary,
                    )
            },
        None => forall|j: int|
            #![trigger entries[j]]
            0 <= j < entries.len() && entries[j].len() > 0 ==> rejected(
                is_executable_file,
                entries[j],
                binary,
            ),
    }
}

/// Looks for a program along a search path: the first entry that is not empty
/// and that holds an executable file of this name.
pub fn resolve_in_path<F: Fn(&PathPlan<String>) -> bool>(
    path_value: &str,
    binary: &str,
    is_executable_file: F,
) -> (r: Option<PathPlan<String>>)
    requires
        forall|plan: PathPlan<String>| #[trigger] call_requires(is_executable_file, (&plan,)),
    ensures
        first_in_path(path_value@, binary@, is_executable_file, r),
{
    let chars = text::chars_of(path_value);
    let entries = text::split_at_char(chars.as_slice(), ':');
    let ghost all = text::pieces(entries@);
    let mut i: usize = 0;
    while i < entries.len()
        invariant
            i <= entries.len(),
            all == text::pieces(entries@),
            all == text::split_char(path_value@, ':'),
            forall|plan: PathPlan<String>| #[trigger] call_requires(is_executable_file, (&plan,)),
            forall|j: int|
                0 <= j < i && all[j].len() > 0 ==> rejected(
                    is_executable_file,
                    #[trigger] all[j],
                    binary@,
                ),
        decreases entries.len() - i,
    {
        let entry = entries[i].as_slice();
        assert(all[i as int] == entry@);
        if entry.len() > 0 {
            let plan = paths::at(PathBase::Given(text::string_of(entry))).join(binary);
            assert(text::texts(plan.tail@) =~= seq![binary@]);
            assert(candidate(plan, all[i as int], binary@));
            if is_executable_file(&plan) {
                return Some(plan);
            }
        }
        i += 1;
    }
    None
}

/// The Node program to run where none is bundled.
#[derive(Debug, Clone, PartialEq, Eq)]
pub enum NodeProgram {
    /// This file.
    File(PathPlan<String>),
    /// The bare name `node`, for the system to look up.
    Bare,
}

/// The Node program where none is bundled: on a Unix system the first along the
/// restored search path, and otherwise the bare name.
pub fn fallback_node_binary<F: Fn(&PathPlan<String>) -> bool>(
    restored_path: Option<&str>,
    unix: bool,
    is_executable_file: F,
) -> (r: NodeProgram)
    requires
        forall|plan: PathPlan<String>| #[trigger] call_requires(is_executable_file, (&plan,)),
    ensures
        if unix && restored_path is Some {
            first_in_path(
                restored_path->0@,
                "node"@,
                is_executable_file,
                match r {
                    NodeProgram::File(plan) => Some(plan),
                    NodeProgram::Bare => None,
                },
            )
        } else {
            r is Bare
        },
{
    match restored_path {
        Some(value) => if unix {
            match resolve_in_path(value, "node", is_executable_file) {
                Some(plan) => NodeProgram::File(plan),
                None => NodeProgram::Bare,
            }
        } else {
            NodeProgram::Bare
        },
        None => NodeProgram::Bare,
    }
}

// ── laws ───────────────────────────────────────────────────────────────────

/// Later layers win: the promised port beats every profile, an export of the
/// login shell beats what was inherited, and a name that neither sets keeps its
/// inherited value.
pub proof fn law_later_layers_win(
    ambient: Map<Seq<char>, Seq<char>>,
    login: Map<Seq<char>, Seq<char>>,
    name: Seq<char>,
)
    ensures
        layered(ambient, login).contains_key("DSH_DESKTOP_PORT"@),
        layered(ambient, login)["DSH_DESKTOP_PORT"@] == "0"@,
        name != "DSH_DESKTOP_PORT"@ ==> if login.contains_key(name) {
            layered(ambient, login).contains_key(name) && layered(ambient, login)[name]
                == login[name]
        } else if ambient.contains_key(name) {
            layered(ambient, login).contains_key(name) && layered(ambient, login)[name]
                == ambient[name]
        } else {
            !layered(ambient, login).contains_key(name)
        },
{
}

/// In an environment that holds each name once, looking a name up gives the
/// value that the environment has for it.
pub proof fn law_lookup_reads_the_environment(
    vars: Seq<(Seq<char>, Seq<char>)>,
    name: Seq<char>,
)
    requires
        distinct_names(vars),
    ensures
        lookup(vars, name) == if env_map(vars).contains_key(name) {
            Some(env_map(vars)[name])
        } else {
            None
        },
{
    lemma_env_map(vars);
    lemma_lookup(vars, name);
    match lookup(vars, name) {
        Some(value) => {
            let i = choose|i: int|
                0 <= i < vars.len() && (#[trigger] vars[i]).0 == name && vars[i].1 == value;
            assert(env_map(vars)[vars[i].0] == vars[i].1);
        },
        None => {},
    }
}

/// What a lookup returns stands in the list.
pub proof fn lemma_lookup(vars: Seq<(Seq<char>, Seq<char>)>, name: Seq<char>)
    ensures
        match lookup(vars, name) {
            Some(value) => exists|i: int|
                0 <= i < vars.len() && (#[trigger] vars[i]).0 == name && vars[i].1 == value,
            None => forall|i: int| 0 <= i < vars.len() ==> (#[trigger] vars[i]).0 != name,
        },
    decreases vars.len(),
{
    if vars.len() > 0 && vars[0].0 != name {
        let tail = vars.drop_first();
        lemma_lookup(tail, name);
        match lookup(tail, name) {
            Some(value) => {
                let i = choose|i: int|
                    0 <= i < tail.len() && (#[trigger] tail[i]).0 == name && tail[i].1 == value;
                assert(vars[i + 1] == tail[i]);
            },
            None => {
                assert forall|i: int| 0 <= i < vars.len() implies (#[trigger] vars[i]).0
                    != name by {
                    if i > 0 {
                        assert(vars[i] == tail[i - 1]);
                    }
                }
            },
        }
    } else if vars.len() > 0 {
        assert(vars[0].0 == name);
    }
}

/// Values are not told: two environments with the same names are listed alike.
pub proof fn law_only_names_are_listed(
    vars: Seq<(Seq<char>, Seq<char>)>,
    other: Seq<(Seq<char>, Seq<char>)>,
)
    requires
        vars.len() == other.len(),
        forall|i: int| 0 <= i < vars.len() ==> (#[trigger] vars[i]).0 == other[i].0,
    ensures
        names_listed(vars) == names_listed(other),
    decreases vars.len(),
{
    if vars.len() > 0 {
        assert(vars[vars.len() - 1].0 == other[vars.len() - 1].0);
        assert forall|i: int| 0 <= i < vars.drop_last().len() implies (
        #[trigger] vars.drop_last()[i]).0 == other.drop_last()[i].0 by {
            assert(vars[i].0 == other[i].0);
        }
        law_only_names_are_listed(vars.drop_last(), other.drop_last());
    }
}

/// What a shell prints of variables: each as `name=value`, and NUL behind it.
pub open spec fn printed(vars: Seq<(Seq<char>, Seq<char>)>) -> Seq<char>
    decreases vars.len(),
{
    if vars.len() == 0 {
        Seq::empty()
    } else {
        vars[0].0 + seq!['='] + vars[0].1 + seq!['\0'] + printed(vars.drop_first())
    }
}

/// Variables that a system can hold: a name is not empty and has no `=`, and
/// NUL occurs nowhere.
pub open spec fn possible(vars: Seq<(Seq<char>, Seq<char>)>) -> bool {
    forall|i: int|
        0 <= i < vars.len() ==> {
            &&& (#[trigger] vars[i]).0.len() > 0
            &&& !vars[i].0.contains('=')
            &&& !vars[i].0.contains('\0')
            &&& !vars[i].1.contains('\0')
        }
}

/// A piece without `c`, then `c`, then more text splits into that piece and the
/// pieces of the rest.
proof fn lemma_split_piece(piece: Seq<char>, c: char, rest: Seq<char>)
    requires
        !piece.contains(c),
    ensures
        text::split_char(piece + seq![c] + rest, c) == seq![piece] + text::split_char(rest, c),
{
    let s = piece + seq![c] + rest;
    let n = piece.len() as int;
    assert forall|j: int| 0 <= j < n implies s[j] != c by {
        assert(s[j] == piece[j]);
    }
    text::lemma_index_where_is(s, text::is_char(c), n);
    assert(s.take(n) =~= piece);
    assert(s.skip(n + 1) =~= rest);
}

/// The assignment of the first segment comes first.
proof fn lemma_assignments_of_first(first: Seq<char>, rest: Seq<Seq<char>>)
    ensures
        assignments(seq![first] + rest) == (match assignment(first) {
            Some(pair) => seq![pair],
            None => Seq::empty(),
        }) + assignments(rest),
    decreases rest.len(),
{
    let all = seq![first] + rest;
    let head = match assignment(first) {
        Some(pair) => seq![pair],
        None => Seq::empty(),
    };
    if rest.len() == 0 {
        assert(all.drop_last() =~= Seq::empty());
        assert(all.last() == first);
        assert(assignments(all.drop_last()) =~= Seq::empty());
        assert(assignments(all) =~= head + assignments(rest));
    } else {
        assert(all.drop_last() =~= seq![first] + rest.drop_last());
        lemma_assignments_of_first(first, rest.drop_last());
        assert(assignments(all) =~= head + assignments(rest));
    }
}

/// Two texts with `c` between them split into the pieces of both.
proof fn lemma_split_both(a: Seq<char>, c: char, b: Seq<char>)
    ensures
        text::split_char(a + seq![c] + b, c) == text::split_char(a, c) + text::split_char(b, c),
    decreases a.len(),
{
    text::lemma_index_where(a, text::is_char(c));
    let k = text::index_where(a, text::is_char(c));
    if k < a.len() {
        let piece = a.take(k);
        let rest = a.skip(k + 1);
        let f = text::is_char(c);
        assert forall|j: int| 0 <= j < piece.len() implies piece[j] != c by {
            assert(!f(a[j]));
        }
        lemma_split_piece(piece, c, rest + seq![c] + b);
        assert(a + seq![c] + b =~= piece + seq![c] + (rest + seq![c] + b));
        lemma_split_both(rest, c, b);
        assert(seq![piece] + (text::split_char(rest, c) + text::split_char(b, c)) =~= (seq![piece]
            + text::split_char(rest, c)) + text::split_char(b, c));
    } else {
        let f = text::is_char(c);
        assert forall|j: int| 0 <= j < a.len() implies a[j] != c by {
            assert(!f(a[j]));
        }
        lemma_split_piece(a, c, b);
    }
}

/// A text without `c` is its own one piece.
proof fn lemma_one_piece(s: Seq<char>, c: char)
    requires
        !s.contains(c),
    ensures
        text::split_char(s, c) == seq![s],
{
    assert forall|j: int| 0 <= j < s.len() implies s[j] != c by {
        assert(s.contains(s[j]));
    }
    text::lemma_index_where_is(s, text::is_char(c), s.len() as int);
}

/// What stands behind the last NUL has no say.
pub proof fn law_noise_behind_the_last_nul_is_skipped(body: Seq<char>, noise: Seq<char>)
    requires
        !noise.contains('\0'),
    ensures
        segments_of(body + seq!['\0'] + noise) == text::split_char(body, '\0'),
{
    lemma_split_both(body, '\0', noise);
    lemma_one_piece(noise, '\0');
    assert((text::split_char(body, '\0') + seq![noise]).drop_last() =~= text::split_char(
        body,
        '\0',
    ));
}

/// Printed variables are read as those variables, whatever follows them.
proof fn lemma_printed_assignments(vars: Seq<(Seq<char>, Seq<char>)>, noise: Seq<char>)
    requires
        possible(vars),
        !noise.contains('\0'),
    ensures
        assignments(text::split_char(printed(vars) + noise, '\0').drop_last()) == vars,
    decreases vars.len(),
{
    if vars.len() == 0 {
        assert(printed(vars) + noise =~= noise);
        lemma_one_piece(noise, '\0');
        assert(text::split_char(noise, '\0').drop_last() =~= Seq::empty());
        assert(assignments(text::split_char(noise, '\0').drop_last()) =~= vars);
    } else {
        let (name, value) = vars[0];
        let tail = vars.drop_first();
        let segment = name + seq!['='] + value;
        assert(!vars[0].0.contains('='));
        assert forall|i: int| 0 <= i < segment.len() implies segment[i] != '\0' by {
            if i < name.len() {
                assert(segment[i] == name[i]);
                assert(name.contains(name[i]));
            } else if i > name.len() {
                assert(segment[i] == value[i - name.len() - 1]);
                assert(value.contains(value[i - name.len() - 1]));
            }
        }
        let rest = printed(tail) + noise;
        assert(printed(vars) + noise =~= segment + seq!['\0'] + rest);
        lemma_split_piece(segment, '\0', rest);
        let pieces = text::split_char(rest, '\0');
        assert(pieces.len() > 0);
        assert((seq![segment] + pieces).drop_last() =~= seq![segment] + pieces.drop_last());
        assert forall|j: int| 0 <= j < name.len() implies segment[j] != '=' by {
            assert(segment[j] == name[j]);
            assert(name.contains(name[j]));
        }
        text::lemma_index_where_is(segment, text::is_char('='), name.len() as int);
        assert(segment.take(name.len() as int) =~= name);
        assert(segment.skip(name.len() as int + 1) =~= value);
        assert(assignment(segment) == Some((name, value)));
        lemma_assignments_of_first(segment, pieces.drop_last());
        assert forall|i: int| 0 <= i < tail.len() implies {
            &&& (#[trigger] tail[i]).0.len() > 0
            &&& !tail[i].0.contains('=')
            &&& !tail[i].0.contains('\0')
            &&& !tail[i].1.contains('\0')
        } by {
            assert(tail[i] == vars[i + 1]);
        }
        lemma_printed_assignments(tail, noise);
        assert(seq![(name, value)] + tail =~= vars);
    }
}

/// What stands before the last marker has no say: only what is printed behind
/// it is read.
pub proof fn law_the_last_payload_wins(noise: Seq<char>, payload: Seq<char>)
    requires
        forall|i: int|
            0 < i ==> !text::occurs_at(SHELL_ENV_MARKER@ + payload, SHELL_ENV_MARKER@, i),
    ensures
        printed_env(noise + SHELL_ENV_MARKER@ + payload) == ({
            let found = assignments(segments_of(payload));
            if found.len() > 0 {
                Some(found)
            } else {
                None
            }
        }),
{
    let marker = SHELL_ENV_MARKER@;
    let s = noise + marker + payload;
    let n = noise.len() as int;
    let m = marker.len() as int;
    text::lemma_find_back_from(s, marker, s.len() as int);
    assert(s.subrange(n, n + m) =~= marker);
    assert(text::occurs_at(s, marker, n));
    assert forall|i: int| n < i implies !text::occurs_at(s, marker, i) by {
        let j = i - n;
        assert(!text::occurs_at(marker + payload, marker, j));
        if text::occurs_at(s, marker, i) {
            assert((marker + payload).subrange(j, j + m) =~= s.subrange(i, i + m));
        }
    }
    assert(text::find_last(s, marker) == Some(n));
    assert(s.skip(n + m) =~= payload);
}

/// The environment that the shell prints is the one that is read, whatever the
/// profile prints before it and, without NUL, behind it, as long as the marker
/// does not stand in what follows it.
pub proof fn law_the_printed_environment_is_read_back(
    before: Seq<char>,
    vars: Seq<(Seq<char>, Seq<char>)>,
    behind: Seq<char>,
)
    requires
        possible(vars),
        vars.len() > 0,
        !behind.contains('\0'),
        forall|i: int|
            0 < i ==> !text::occurs_at(
                SHELL_ENV_MARKER@ + (printed(vars) + behind),
                SHELL_ENV_MARKER@,
                i,
            ),
    ensures
        printed_env(before + SHELL_ENV_MARKER@ + (printed(vars) + behind)) == Some(vars),
{
    lemma_printed_assignments(vars, behind);
    let pieces = text::split_char(printed(vars) + behind, '\0');
    assert(pieces.drop_last().len() > 0) by {
        if pieces.drop_last().len() == 0 {
            assert(assignments(pieces.drop_last()) =~= Seq::empty());
        }
    }
    law_the_last_payload_wins(before, printed(vars) + behind);
}

/// The shell has five seconds, and is looked at every twenty-five milliseconds;
/// once it exited it is read, however long it took.
pub proof fn law_the_shell_has_five_seconds(elapsed_ms: u64)
    ensures
        step_after(ShellState::Exited, elapsed_ms) == ShellStep::Drain,
        step_after(ShellState::Unknown, elapsed_ms) == ShellStep::GiveUp,
        elapsed_ms < 5_000 ==> step_after(ShellState::Running, elapsed_ms) == ShellStep::Sleep(25),
        elapsed_ms >= 5_000 ==> step_after(ShellState::Running, elapsed_ms) == ShellStep::GiveUp,
        SHELL_ENV_MAX_OUTPUT_BYTES == 64 * 1024,
        SHELL_ENV_MARKER@ == "__DSH_ENV__"@,
{
}

/// A segment assigns exactly if a name stands before its first `=`: then what
/// stands behind is the value, whatever it holds.
pub proof fn law_assignments_are_read_whole(
    name: Seq<char>,
    value: Seq<char>,
    bare: Seq<char>,
)
    requires
        !name.contains('='),
        !bare.contains('='),
    ensures
        name.len() > 0 ==> assignment(name + seq!['='] + value) == Some((name, value)),
        assignment(seq!['='] + value) is None,
        assignment(bare) is None,
{
    text::law_cutting(name, '=', value, bare);
    let none = Seq::<char>::empty();
    text::law_cutting(none, '=', value, bare);
    assert(none + seq!['='] + value =~= seq!['='] + value);
}

/// A payload is read segment by segment, in order: each adds its assignment,
/// where it has one. Behind the last NUL nothing is read, and a payload without
/// NUL is one segment.
pub proof fn law_a_payload_is_read_segment_by_segment(
    segment: Seq<char>,
    rest: Seq<char>,
    noise: Seq<char>,
)
    requires
        !segment.contains('\0'),
        !noise.contains('\0'),
    ensures
        assignments(segments_of(segment + seq!['\0'] + (rest + seq!['\0'] + noise))) == (
        match assignment(segment) {
            Some(pair) => seq![pair],
            None => Seq::empty(),
        }) + assignments(segments_of(rest + seq!['\0'] + noise)),
        assignments(segments_of(segment + seq!['\0'] + noise)) == match assignment(segment) {
            Some(pair) => seq![pair],
            None => Seq::empty(),
        },
        assignments(segments_of(segment)) == match assignment(segment) {
            Some(pair) => seq![pair],
            None => Seq::empty(),
        },
{
    let nul = seq!['\0'];
    let none = Seq::<Seq<char>>::empty();
    let body = segment + nul + rest;
    assert(segment + nul + (rest + nul + noise) =~= body + nul + noise);
    law_noise_behind_the_last_nul_is_skipped(body, noise);
    law_noise_behind_the_last_nul_is_skipped(rest, noise);
    lemma_split_piece(segment, '\0', rest);
    lemma_assignments_of_first(segment, text::split_char(rest, '\0'));
    law_noise_behind_the_last_nul_is_skipped(segment, noise);
    lemma_one_piece(segment, '\0');
    lemma_assignments_of_first(segment, none);
    assert(seq![segment] + none =~= seq![segment]);
    assert(assignments(none) =~= Seq::empty());
}

/// Without the marker nothing is read.
pub proof fn law_without_the_marker_nothing_is_read(payload: Seq<char>)
    requires
        !text::holds(payload, "__DSH_ENV__"@),
    ensures
        printed_env(payload) is None,
{
    text::law_first_and_last(payload, SHELL_ENV_MARKER@, 0);
}

/// Of several variables with one name the last one counts in an environment,
/// and a name that none has is not in it.
pub proof fn law_the_last_value_counts(vars: Seq<(Seq<char>, Seq<char>)>, i: int, other: Seq<char>)
    requires
        0 <= i < vars.len(),
        forall|j: int| i < j < vars.len() ==> (#[trigger] vars[j]).0 != vars[i].0,
        forall|j: int| 0 <= j < vars.len() ==> (#[trigger] vars[j]).0 != other,
    ensures
        env_map(vars).contains_key(vars[i].0),
        env_map(vars)[vars[i].0] == vars[i].1,
        !env_map(vars).contains_key(other),
    decreases vars.len(),
{
    let before = vars.drop_last();
    assert forall|j: int| 0 <= j < before.len() implies (#[trigger] before[j]).0 != other by {
        assert(before[j] == vars[j]);
    }
    if i < before.len() {
        assert forall|j: int| i < j < before.len() implies (#[trigger] before[j]).0
            != before[i].0 by {
            assert(before[j] == vars[j]);
        }
        assert(before[i] == vars[i]);
        assert(vars.last() == vars[vars.len() - 1]);
        law_the_last_value_counts(before, i, other);
    } else {
        lemma_absent(before, other);
        assert(vars.last() == vars[vars.len() - 1]);
    }
}

/// A name that no variable has is not in the environment.
proof fn lemma_absent(vars: Seq<(Seq<char>, Seq<char>)>, other: Seq<char>)
    requires
        forall|j: int| 0 <= j < vars.len() ==> (#[trigger] vars[j]).0 != other,
    ensures
        !env_map(vars).contains_key(other),
    decreases vars.len(),
{
    if vars.len() > 0 {
        let before = vars.drop_last();
        assert forall|j: int| 0 <= j < before.len() implies (#[trigger] before[j]).0 != other by {
            assert(before[j] == vars[j]);
        }
        assert(vars.last() == vars[vars.len() - 1]);
        lemma_absent(before, other);
    }
}

/// A lookup gives the first value that a name has.
pub proof fn lemma_first_lookup(vars: Seq<(Seq<char>, Seq<char>)>, i: int)
    requires
        0 <= i < vars.len(),
        forall|j: int| 0 <= j < i ==> (#[trigger] vars[j]).0 != vars[i].0,
    ensures
        lookup(vars, vars[i].0) == Some(vars[i].1),
    decreases vars.len(),
{
    if i > 0 {
        let tail = vars.drop_first();
        assert(vars[0].0 != vars[i].0);
        assert(tail[i - 1] == vars[i]);
        assert forall|j: int| 0 <= j < i - 1 implies (#[trigger] tail[j]).0 != tail[i - 1].0 by {
            assert(tail[j] == vars[j + 1]);
        }
        lemma_first_lookup(tail, i - 1);
    }
}

/// A lookup gives the first value that a name has in a list, and nothing for a
/// name that is not in it.
pub proof fn law_lookup_gives_the_first_value(
    vars: Seq<(Seq<char>, Seq<char>)>,
    i: int,
    other: Seq<char>,
)
    requires
        0 <= i < vars.len(),
        forall|j: int| 0 <= j < i ==> (#[trigger] vars[j]).0 != vars[i].0,
        forall|j: int| 0 <= j < vars.len() ==> (#[trigger] vars[j]).0 != other,
    ensures
        lookup(vars, vars[i].0) == Some(vars[i].1),
        lookup(vars, other) is None,
{
    lemma_lookup(vars, other);
    lemma_first_lookup(vars, i);
}

/// Names are listed in their order with one space between two.
pub proof fn law_names_are_listed_in_order(
    vars: Seq<(Seq<char>, Seq<char>)>,
    name: Seq<char>,
    value: Seq<char>,
)
    ensures
        names_listed(Seq::<(Seq<char>, Seq<char>)>::empty()) == Seq::<char>::empty(),
        vars.len() == 0 ==> names_listed(vars.push((name, value))) == name,
        vars.len() > 0 ==> names_listed(vars.push((name, value))) == names_listed(vars) + seq![' ']
            + name,
{
    let more = vars.push((name, value));
    assert(more.drop_last() =~= vars);
    assert(more.last() == (name, value));
    reveal_strlit(" ");
    assert(" "@ =~= seq![' ']);
    if vars.len() == 0 {
        assert(more[0] == (name, value));
    }
}

/// The search along a path ends at its first hit: where the program in some
/// entry is never rejected, the search finds one, in that entry or before it;
/// what it finds was found to be executable, and lies directly in a directory of
/// the path that is not empty.
pub proof fn law_the_search_ends_at_its_first_hit<F: Fn(&PathPlan<String>) -> bool>(
    path_value: Seq<char>,
    binary: Seq<char>,
    is_executable_file: F,
    outcome: Option<PathPlan<String>>,
    i: int,
)
    requires
        first_in_path(path_value, binary, is_executable_file, outcome),
        0 <= i < text::split_char(path_value, ':').len(),
        text::split_char(path_value, ':')[i].len() > 0,
        forall|plan: PathPlan<String>|
            #![trigger call_ensures(is_executable_file, (&plan,), false)]
            plan.base is Given && plan.base->Given_0@ == text::split_char(path_value, ':')[i]
                && text::texts(plan.tail@) == seq![binary] ==> !call_ensures(
                is_executable_file,
                (&plan,),
                false,
            ),
    ensures
        outcome matches Some(plan) && {
            &&& call_ensures(is_executable_file, (&plan,), true)
            &&& text::texts(plan.tail@) == seq![binary]
            &&& plan.base matches PathBase::Given(dir) && dir@.len() > 0 && exists|j: int|
                0 <= j <= i && dir@ == #[trigger] text::split_char(path_value, ':')[j]
        },
{
    let entries = text::split_char(path_value, ':');
    if rejected(is_executable_file, entries[i], binary) {
        let plan = choose|plan: PathPlan<String>|
            candidate(plan, entries[i], binary) && call_ensures(
                is_executable_file,
                (&plan,),
                false,
            );
        assert(!call_ensures(is_executable_file, (&plan,), false));
    }
}

/// What the search finds, no entry before it offered: each of those that is not
/// empty was tried and rejected. Where it finds nothing, all of them were.
pub proof fn law_every_entry_before_the_hit_was_tried<F: Fn(&PathPlan<String>) -> bool>(
    path_value: Seq<char>,
    binary: Seq<char>,
    is_executable_file: F,
    outcome: Option<PathPlan<String>>,
    i: int,
)
    requires
        first_in_path(path_value, binary, is_executable_file, outcome),
        0 <= i < text::split_char(path_value, ':').len(),
        text::split_char(path_value, ':')[i].len() > 0,
        outcome matches Some(found) ==> forall|j: int|
            0 <= j <= i ==> found.base->Given_0@ != #[trigger] text::split_char(
                path_value,
                ':',
            )[j],
    ensures
        exists|plan: PathPlan<String>|
            {
                &&& plan.base is Given
                &&& plan.base->Given_0@ == text::split_char(path_value, ':')[i]
                &&& text::texts(plan.tail@) == seq![binary]
                &&& #[trigger] call_ensures(is_executable_file, (&plan,), false)
            },
{
    let entries = text::split_char(path_value, ':');
    assert(entries[i].len() > 0);
    assert(rejected(is_executable_file, entries[i], binary));
    let plan = choose|plan: PathPlan<String>|
        candidate(plan, entries[i], binary) && call_ensures(is_executable_file, (&plan,), false);
    assert(call_ensures(is_executable_file, (&plan,), false));
}

} // verus!
