//! The sidecar process: what is started, and that it is stopped once.
use vstd::prelude::*;

use crate::bundle;
use crate::bundle::HostRoot;
use crate::login_env;
use crate::login_env::NodeProgram;
use crate::paths;
use crate::paths::{PathBase, PathPlan};
use crate::text;

verus! {

/// The Node program that runs the host.
#[derive(Debug, Clone, PartialEq, Eq)]
pub enum NodeChoice {
    /// The one in the bundle.
    Bundled(PathPlan<HostRoot>),
    /// Another one.
    Fallback(NodeProgram),
}

/// How the sidecar is started.
#[derive(Debug, Clone, PartialEq, Eq)]
pub struct SpawnPlan<P> {
    /// The program.
    pub node: NodeChoice,
    /// Its one argument, the host's entry file.
    pub entry: PathPlan<HostRoot>,
    /// Its working directory.
    pub workspace: PathPlan<P>,
    /// Its environment.
    pub env: Vec<(String, String)>,
}

/// The search path that the login shell exports.
pub open spec fn login_path(login: Option<Seq<(Seq<char>, Seq<char>)>>) -> Option<Seq<char>> {
    match login {
        Some(vars) => login_env::lookup(vars, "PATH"@),
        None => None,
    }
}

/// The variables that the login shell exports, or none.
pub open spec fn login_layer(login: Option<Seq<(Seq<char>, Seq<char>)>>) -> Seq<
    (Seq<char>, Seq<char>),
> {
    match login {
        Some(vars) => vars,
        None => Seq::empty(),
    }
}

/// Plans how to start the sidecar that lies in `host_dir`.
///
/// The bundled Node is run where it exists. The environment is what the process
/// inherited under what the login shell exports, with the promised port.
pub fn plan_spawn<P, F: Fn(&PathPlan<String>) -> bool>(
    host_dir: &PathPlan<HostRoot>,
    bundled_node_exists: bool,
    windows: bool,
    unix: bool,
    ambient: &[(String, String)],
    login: Option<Vec<(String, String)>>,
    dsh_home: Option<P>,
    user_home: Option<P>,
    is_executable_file: F,
) -> (r: SpawnPlan<P>)
    requires
        forall|plan: PathPlan<String>| #[trigger] call_requires(is_executable_file, (&plan,)),
    ensures
        r.entry.is(host_dir.base, text::texts(host_dir.tail@).push("main.mjs"@)),
        match r.node {
            NodeChoice::Bundled(node) => {
                &&& bundled_node_exists
                &&& node.is(
                    host_dir.base,
                    text::texts(host_dir.tail@) + if windows {
                        seq!["node"@, "node.exe"@]
                    } else {
                        seq!["node"@, "bin"@, "node"@]
                    },
                )
            },
            NodeChoice::Fallback(program) => {
                &&& !bundled_node_exists
                &&& if unix && login_path(login_env::pairs_view(login)) is Some {
                    login_env::first_in_path(
                        login_path(login_env::pairs_view(login))->0,
                        "node"@,
                        is_executable_file,
                        match program {
                            NodeProgram::File(plan) => Some(plan),
                            NodeProgram::Bare => None,
                        },
                    )
                } else {
                    program is Bare
                }
            },
        },
        match dsh_home {
            Some(home) => r.workspace.is(PathBase::Given(home), seq!["workspace"@]),
            None => match user_home {
                Some(home) => r.workspace.is(PathBase::Given(home), seq![".dsh"@, "workspace"@]),
                None => r.workspace.is(PathBase::Here, seq!["workspace"@]),
            },
        },
        login_env::distinct_names(login_env::pairs(r.env@)),
        login_env::env_map(login_env::pairs(r.env@)) == login_env::layered(
            login_env::env_map(login_env::pairs(ambient@)),
            login_env::env_map(login_layer(login_env::pairs_view(login))),
        ),
{
    let node = if bundled_node_exists {
        NodeChoice::Bundled(bundle::host_node_binary(host_dir, windows))
    } else {
        let restored_path = match &login {
            Some(vars) => login_env::lookup_var(vars.as_slice(), "PATH"),
            None => None,
        };
        NodeChoice::Fallback(
            login_env::fallback_node_binary(restored_path, unix, is_executable_file),
        )
    };
    let env = match &login {
        Some(vars) => login_env::sidecar_env(ambient, vars.as_slice()),
        None => {
            let none: Vec<(String, String)> = Vec::new();
            assert(login_env::pairs(none@) =~= Seq::empty());
            login_env::sidecar_env(ambient, none.as_slice())
        },
    };
    SpawnPlan {
        node,
        entry: host_dir.child("main.mjs"),
        workspace: paths::workspace_dir(dsh_home, user_home),
        env,
    }
}

/// Owns the sidecar process, once it was started and until it is stopped.
#[derive(Debug, PartialEq, Eq)]
pub struct HostManager<C> {
    pub child: Option<C>,
}

/// A manager whose process was stopped.
pub open spec fn stopped<C>(manager: HostManager<C>) -> HostManager<C> {
    HostManager { child: None }
}

impl<C> HostManager<C> {
    /// The manager of a process that was started, or could not be: in that case
    /// it owns nothing, and the launch goes on.
    pub fn spawn<E>(started: Result<C, E>) -> (r: Self)
        ensures
            r.child == match started {
                Ok(child) => Some(child),
                Err(_) => None,
            },
    {
        match started {
            Ok(child) => HostManager { child: Some(child) },
            Err(_) => HostManager { child: None },
        }
    }

    /// Gives the process up to be killed and reaped; a second time there is
    /// none.
    pub fn stop(&mut self) -> (r: Option<C>)
        ensures
            r == old(self).child,
            *final(self) == stopped(*old(self)),
    {
        self.child.take()
    }
}

/// Stopping twice is stopping once: after a stop no process is left to give up,
/// and another stop changes nothing.
pub proof fn law_stop_is_idempotent<C>(manager: HostManager<C>)
    ensures
        stopped(manager).child is None,
        stopped(stopped(manager)) == stopped(manager),
{
}

/// The search path is the first `PATH` that the login shell exports; without a
/// login shell there is none, and nothing is layered over what was inherited.
pub proof fn law_the_login_shell_tells_the_search_path(
    vars: Seq<(Seq<char>, Seq<char>)>,
    i: int,
    other: Seq<(Seq<char>, Seq<char>)>,
)
    requires
        0 <= i < vars.len(),
        vars[i].0 == "PATH"@,
        forall|j: int| 0 <= j < i ==> (#[trigger] vars[j]).0 != "PATH"@,
        forall|j: int| 0 <= j < other.len() ==> (#[trigger] other[j]).0 != "PATH"@,
    ensures
        login_path(Some(vars)) == Some(vars[i].1),
        login_path(Some(other)) is None,
        login_path(None) is None,
        login_layer(Some(vars)) == vars,
        login_layer(None).len() == 0,
{
    login_env::lemma_first_lookup(vars, i);
    login_env::lemma_lookup(other, "PATH"@);
}

} // verus!
