//! The bundled host, and how it is started.
use dsh_desktop::bundle::{
    accept_version, bundled_host_version, find_host_dir, host_node_binary, manifest_file,
    missing_host_notice, resolve_host_dirs, strip_verbatim_prefix, surface_version,
    version_notice, HostRoot,
};
use dsh_desktop::host::{plan_spawn, HostManager, NodeChoice};
use dsh_desktop::login_env::{lookup_var, NodeProgram};
use dsh_desktop::paths::{data_home, workspace_dir, PathBase, PathPlan};

fn plan<P>(base: P, tail: &[&str]) -> PathPlan<P> {
    PathPlan {
        base: PathBase::Given(base),
        tail: tail.iter().map(|part| part.to_string()).collect(),
    }
}

#[test]
fn extracts_the_bundled_manifest_version() {
    assert_eq!(
        bundled_host_version(Some(r#"{"name":"@deepseek-ai/dsh","version":"1.2.3-beta.4"}"#)),
        Some("1.2.3-beta.4".to_string())
    );
}

#[test]
fn ignores_nested_version_fields() {
    // Only the manifest's top-level `version` field counts: a nested
    // key (here a devDependencies-style object) must not be picked up
    // no matter where it sits in the document.
    assert_eq!(
        bundled_host_version(Some(
            r#"{"devDependencies":{"version":"2.0.0-rc.1"},"version":"1.2.3"}"#
        )),
        Some("1.2.3".to_string())
    );
}

#[test]
fn parses_the_manifest_regardless_of_field_spacing() {
    assert_eq!(
        bundled_host_version(Some(r#"{ "name" : "@deepseek-ai/dsh" , "version" : "1.2.3" }"#)),
        Some("1.2.3".to_string())
    );
}

#[test]
fn returns_none_for_a_non_json_manifest() {
    assert_eq!(bundled_host_version(Some("not json at all")), None);
}

#[test]
fn returns_none_when_the_manifest_is_missing() {
    assert_eq!(bundled_host_version(None), None);
}

#[test]
fn returns_none_for_an_empty_version_value() {
    assert_eq!(
        bundled_host_version(Some(r#"{"name":"@deepseek-ai/dsh","version":""}"#)),
        None
    );
}

#[test]
fn a_version_has_to_be_a_string_of_the_manifest_itself() {
    assert_eq!(bundled_host_version(Some(r#"{"version":1}"#)), None);
    assert_eq!(bundled_host_version(Some(r#"{"version":null}"#)), None);
    assert_eq!(bundled_host_version(Some(r#"["version"]"#)), None);
    assert_eq!(bundled_host_version(Some(r#"{"Version":"1"}"#)), None);
    assert_eq!(accept_version(Some("1".to_string())), Some("1".to_string()));
    assert_eq!(accept_version(Some(String::new())), None);
    assert_eq!(accept_version(None), None);
}

#[test]
fn the_version_is_told_and_stays_inert() {
    assert_eq!(version_notice(Some("1.2.3")), "[host] bundled harness version: 1.2.3");
    assert_eq!(version_notice(None), "[host] bundled harness version: unknown");
    assert_eq!(
        surface_version("1.2.3-beta+x_Y'; alert(\"ü\")//"),
        "const s = document.getElementById('status'); \
         if (s) { s.textContent = 'Starting the sidecar host v1.2.3-beta+x_Yalert…'; }"
    );
}

#[test]
fn hosts_are_looked_for_in_order() {
    let dirs = resolve_host_dirs(true);
    assert_eq!(
        dirs,
        vec![
            plan(HostRoot::Resources, &["host"]),
            plan(HostRoot::Resources, &["resources", "host"]),
            plan(HostRoot::Checkout, &["resources", "host"]),
        ]
    );
    assert_eq!(
        resolve_host_dirs(false),
        vec![plan(HostRoot::Checkout, &["resources", "host"])]
    );
    assert_eq!(find_host_dir(&dirs, |dir| dir.tail.len() == 2), Some(1));
    assert_eq!(find_host_dir(&dirs, |_| true), Some(0));
    assert_eq!(find_host_dir(&dirs, |_| false), None);
}

#[test]
fn a_missing_host_is_reported_with_every_directory() {
    assert_eq!(
        missing_host_notice(&["/a".to_string(), "/b".to_string()]),
        "[host] bundled host missing under any of: /a, /b"
    );
    assert_eq!(missing_host_notice(&[]), "[host] bundled host missing under any of: ");
}

#[test]
fn files_of_a_host_lie_under_it() {
    let dir = plan(HostRoot::Resources, &["host"]);
    assert_eq!(
        host_node_binary(&dir, true),
        plan(HostRoot::Resources, &["host", "node", "node.exe"])
    );
    assert_eq!(
        host_node_binary(&dir, false),
        plan(HostRoot::Resources, &["host", "node", "bin", "node"])
    );
    assert_eq!(
        manifest_file(&dir),
        plan(
            HostRoot::Resources,
            &["host", "node_modules", "@deepseek-ai/dsh", "package.json"]
        )
    );
}

#[test]
fn the_extended_length_prefix_is_stripped_on_windows() {
    assert_eq!(
        strip_verbatim_prefix(r"\\?\C:\a\node.exe", true),
        Some(r"C:\a\node.exe".to_string())
    );
    assert_eq!(strip_verbatim_prefix(r"C:\a", true), None);
    assert_eq!(strip_verbatim_prefix(r"\\?\C:\a", false), None);
    assert_eq!(strip_verbatim_prefix(r"\\?", true), None);
}

#[test]
fn the_workspace_lies_in_the_data_home() {
    assert_eq!(workspace_dir(Some("/d"), Some("/h")), plan("/d", &["workspace"]));
    assert_eq!(workspace_dir(None, Some("/h")), plan("/h", &[".dsh", "workspace"]));
    assert_eq!(
        workspace_dir::<&str>(None, None),
        PathPlan {
            base: PathBase::Here,
            tail: vec!["workspace".to_string()],
        }
    );
    assert_eq!(data_home(Some("/d"), Some("/h")), Some(plan("/d", &[])));
    assert_eq!(data_home(None, Some("/h")), Some(plan("/h", &[".dsh"])));
    assert_eq!(data_home::<&str>(None, None), None);
}

#[test]
fn the_bundled_node_runs_where_it_exists() {
    let dir = plan(HostRoot::Resources, &["host"]);
    let ambient = vec![("PATH".to_string(), "/stub".to_string())];
    let login = vec![("PATH".to_string(), "/a:/b".to_string())];
    let bundled = plan_spawn(
        &dir,
        true,
        false,
        true,
        &ambient,
        Some(login.clone()),
        Some("/d"),
        None,
        |_| true,
    );
    assert_eq!(
        bundled.node,
        NodeChoice::Bundled(plan(HostRoot::Resources, &["host", "node", "bin", "node"]))
    );
    assert_eq!(bundled.entry, plan(HostRoot::Resources, &["host", "main.mjs"]));
    assert_eq!(bundled.workspace, plan("/d", &["workspace"]));
    assert_eq!(lookup_var(&bundled.env, "PATH"), Some("/a:/b"));
    assert_eq!(lookup_var(&bundled.env, "DSH_DESKTOP_PORT"), Some("0"));

    let found = plan_spawn(
        &dir,
        false,
        false,
        true,
        &ambient,
        Some(login),
        None,
        Some("/h"),
        |file| file.base == PathBase::Given("/b".to_string()),
    );
    assert_eq!(
        found.node,
        NodeChoice::Fallback(NodeProgram::File(plan("/b".to_string(), &["node"])))
    );

    let bare = plan_spawn(&dir, false, true, false, &ambient, None, None::<&str>, None, |_| true);
    assert_eq!(bare.node, NodeChoice::Fallback(NodeProgram::Bare));
    assert_eq!(lookup_var(&bare.env, "PATH"), Some("/stub"));
}

#[test]
fn a_sidecar_is_stopped_once() {
    let mut manager = HostManager::spawn(Ok::<u32, String>(7));
    assert_eq!(manager.stop(), Some(7));
    assert_eq!(manager.stop(), None);
    let mut failed = HostManager::spawn(Err::<u32, String>("no".to_string()));
    assert_eq!(failed.stop(), None);
}
