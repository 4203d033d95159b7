//! The login shell's environment, and the sidecar's.
use dsh_desktop::login_env::{
    count_notice, extract_probe_env, fallback_node_binary, lookup_var, names_notice,
    probe_arguments, resolve_in_path, restore_login_shell_env, shell_step, sidecar_env,
    NodeProgram, ShellState, ShellStep,
};
use dsh_desktop::paths::{PathBase, PathPlan};

fn vars(list: &[(&str, &str)]) -> Vec<(String, String)> {
    list.iter()
        .map(|(key, value)| (key.to_string(), value.to_string()))
        .collect()
}

fn file(dir: &str, name: &str) -> PathPlan<String> {
    PathPlan {
        base: PathBase::Given(dir.to_string()),
        tail: vec![name.to_string()],
    }
}

#[test]
fn extracts_entries_past_profile_startup_noise() {
    let payload = "Last login: Fri Aug 26 on ttys000\nloading nvm...\
         \n__DSH_ENV__DSH_HOME=/Users/me/dsh\0HTTP_PROXY=http://127.0.0.1:7890\0PATH=/opt/homebrew/bin:/usr/bin\0";
    assert_eq!(
        extract_probe_env(payload),
        Some(vec![
            ("DSH_HOME".to_string(), "/Users/me/dsh".to_string()),
            ("HTTP_PROXY".to_string(), "http://127.0.0.1:7890".to_string()),
            ("PATH".to_string(), "/opt/homebrew/bin:/usr/bin".to_string()),
        ]),
    );
}

#[test]
fn repeated_marker_means_the_last_payload_wins() {
    let payload = "__DSH_ENV__STALE=1\0noise\n__DSH_ENV__FRESH=2\0";
    assert_eq!(
        extract_probe_env(payload),
        Some(vec![("FRESH".to_string(), "2".to_string())]),
    );
}

#[test]
fn values_keep_equals_signs_and_may_be_empty() {
    let payload = "__DSH_ENV__EQ=a=b=c\0EMPTY=\0";
    assert_eq!(
        extract_probe_env(payload),
        Some(vec![
            ("EQ".to_string(), "a=b=c".to_string()),
            ("EMPTY".to_string(), String::new()),
        ]),
    );
}

#[test]
fn skips_empty_and_garbage_segments() {
    let payload = "__DSH_ENV__GOOD=1\0\0\0no_assignment\0=orphan_value\0TAIL=2\0trailing noise";
    assert_eq!(
        extract_probe_env(payload),
        Some(vec![
            ("GOOD".to_string(), "1".to_string()),
            ("TAIL".to_string(), "2".to_string()),
        ]),
    );
}

#[test]
fn rejects_missing_marker_or_marker_without_entries() {
    assert_eq!(extract_probe_env("profile printed nothing useful"), None);
    assert_eq!(extract_probe_env("__DSH_ENV__"), None);
    assert_eq!(extract_probe_env("__DSH_ENV__\0\0"), None);
    assert_eq!(extract_probe_env("__DSH_ENV__nothing useful printed"), None);
}

#[test]
fn login_wins_ambient_only_is_kept_login_only_is_added() {
    let env = sidecar_env(
        &vars(&[("PATH", "/usr/bin"), ("AMBIENT_ONLY", "keep"), ("DSH_HOME", "/stub")]),
        &[
            ("DSH_HOME".to_string(), "/Users/me/dsh".to_string()),
            ("HTTP_PROXY".to_string(), "http://127.0.0.1:7890".to_string()),
        ],
    );
    assert_eq!(lookup_var(&env, "DSH_HOME"), Some("/Users/me/dsh"), "login beats ambient");
    assert_eq!(lookup_var(&env, "AMBIENT_ONLY"), Some("keep"), "process-only survives");
    assert_eq!(lookup_var(&env, "HTTP_PROXY"), Some("http://127.0.0.1:7890"), "login-only is added");
}

#[test]
fn mandated_port_contract_beats_every_profile() {
    let env = sidecar_env(
        &vars(&[("DSH_DESKTOP_PORT", "4242")]),
        &[("DSH_DESKTOP_PORT".to_string(), "9999".to_string())],
    );
    assert_eq!(
        lookup_var(&env, "DSH_DESKTOP_PORT"),
        Some("0"),
        "a profile must not intercept the sidecar port contract",
    );
}

#[test]
fn each_name_stands_once_in_the_environment() {
    let env = sidecar_env(
        &vars(&[("A", "1"), ("A", "2"), ("B", "3")]),
        &vars(&[("B", "4"), ("C", "5"), ("B", "6")]),
    );
    assert_eq!(
        env,
        vars(&[("A", "2"), ("B", "6"), ("C", "5"), ("DSH_DESKTOP_PORT", "0")])
    );
    assert_eq!(sidecar_env(&[], &[]), vars(&[("DSH_DESKTOP_PORT", "0")]));
}

#[test]
fn a_lookup_takes_the_first_of_a_name() {
    let list = vars(&[("A", "1"), ("A", "2")]);
    assert_eq!(lookup_var(&list, "A"), Some("1"));
    assert_eq!(lookup_var(&list, "a"), None);
    assert_eq!(lookup_var(&[], "A"), None);
}

#[test]
fn what_a_shell_prints_is_read_back() {
    let list = [("A", "1"), ("B", ""), ("C", "x=y z\n")];
    let mut printed = "noise __DSH_ENV__OLD=1\0\n__DSH_ENV__".to_string();
    for (name, value) in list {
        printed.push_str(name);
        printed.push('=');
        printed.push_str(value);
        printed.push('\0');
    }
    assert_eq!(restore_login_shell_env(printed.as_bytes()), Some(vars(&list)));
}

#[test]
fn ill_formed_output_is_read_with_replacement_characters() {
    assert_eq!(
        restore_login_shell_env(b"\xff__DSH_ENV__A=\xfe\0"),
        Some(vars(&[("A", "\u{fffd}")]))
    );
    assert_eq!(restore_login_shell_env(b""), None);
}

#[test]
fn the_shell_is_asked_for_its_environment() {
    assert_eq!(
        probe_arguments(),
        vec!["-ilc".to_string(), "printf '__DSH_ENV__'; env -0".to_string()]
    );
}

#[test]
fn the_shell_is_given_five_seconds() {
    assert_eq!(shell_step(ShellState::Running, 0), ShellStep::Sleep(25));
    assert_eq!(shell_step(ShellState::Running, 4_999), ShellStep::Sleep(25));
    assert_eq!(shell_step(ShellState::Running, 5_000), ShellStep::GiveUp);
    assert_eq!(shell_step(ShellState::Exited, 9_999), ShellStep::Drain);
    assert_eq!(shell_step(ShellState::Unknown, 0), ShellStep::GiveUp);
}

#[test]
fn notices_tell_names_and_never_values() {
    let list = vars(&[("A", "secret"), ("B", "hidden")]);
    assert_eq!(count_notice(&list), "[host] restored login-shell environment (2 vars)");
    assert_eq!(names_notice(&list), "[host] login-shell environment names: A B");
    assert_eq!(names_notice(&[]), "[host] login-shell environment names: ");
    assert_eq!(names_notice(&list), names_notice(&vars(&[("A", ""), ("B", "x")])));
}

#[test]
fn resolves_the_binary_through_path_order() {
    let earlier = "/scratch/earlier";
    let later = "/scratch/later";
    let executable = file(later, "bd");
    let path_value = format!("{earlier}:{later}");
    assert_eq!(
        resolve_in_path(&path_value, "bd", |plan| *plan == executable),
        Some(file(later, "bd"))
    );
}

#[test]
fn skips_non_executable_files_directory_decoys_and_misses() {
    let carries_it = file("/scratch/carries-it", "bd");
    let path_value = "/scratch/plain-only:/scratch/decoy-dirs:/scratch/carries-it";
    assert_eq!(
        resolve_in_path(path_value, "bd", |plan| *plan == carries_it),
        Some(file("/scratch/carries-it", "bd")),
        "a non-executable file and a same-named directory must not win over PATH order",
    );
    assert_eq!(
        resolve_in_path("/scratch/plain-only", "absent", |plan| *plan == carries_it),
        None
    );
}

#[test]
fn the_first_entry_wins_and_empty_ones_are_skipped() {
    assert_eq!(resolve_in_path("::/a:/b", "x", |_| true), Some(file("/a", "x")));
    assert_eq!(resolve_in_path("", "x", |_| true), None);
    assert_eq!(resolve_in_path(":::", "x", |_| true), None);
}

#[test]
fn node_falls_back_to_its_bare_name() {
    assert_eq!(
        fallback_node_binary(Some("/usr/bin"), true, |_| true),
        NodeProgram::File(file("/usr/bin", "node"))
    );
    assert_eq!(fallback_node_binary(Some("/usr/bin"), true, |_| false), NodeProgram::Bare);
    assert_eq!(fallback_node_binary(Some("/usr/bin"), false, |_| true), NodeProgram::Bare);
    assert_eq!(fallback_node_binary(None, true, |_| true), NodeProgram::Bare);
}

#[test]
fn noise_behind_the_last_nul_is_skipped() {
    assert_eq!(
        extract_probe_env("__DSH_ENV__A=1\0logout code=0"),
        Some(vars(&[("A", "1")]))
    );
    // Without a NUL there is nothing behind the last one.
    assert_eq!(extract_probe_env("__DSH_ENV__A=1"), Some(vars(&[("A", "1")])));
    assert_eq!(
        extract_probe_env("x=y __DSH_ENV__A=1\0B=2\0\nbye=1"),
        Some(vars(&[("A", "1"), ("B", "2")]))
    );
}
