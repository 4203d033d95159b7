//! Where the shell keeps and finds its files.
//!
//! A [`PathPlan`] names a base directory and what to join to it; joining and
//! touching the disk is left to the caller, so a base can be any type that
//! holds a path.
use vstd::prelude::*;

use crate::text;

verus! {

/// The directory that a path starts from.
#[derive(Debug, Clone, Copy, PartialEq, Eq)]
pub enum PathBase<P> {
    /// A directory that the caller supplied.
    Given(P),
    /// The current directory, `.`.
    Here,
}

/// A path: a base and the components to join to it, in order.
#[derive(Debug, Clone, PartialEq, Eq)]
pub struct PathPlan<P> {
    pub base: PathBase<P>,
    pub tail: Vec<String>,
}

impl<P> PathPlan<P> {
    /// The plan has this base and these components.
    pub open spec fn is(self, base: PathBase<P>, tail: Seq<Seq<char>>) -> bool {
        self.base == base && text::texts(self.tail@) == tail
    }

    /// The base and the components.
    pub open spec fn parts(self) -> (PathBase<P>, Seq<Seq<char>>) {
        (self.base, text::texts(self.tail@))
    }

    /// Joins one more component.
    pub fn join(self, component: &str) -> (r: PathPlan<P>)
        ensures
            r.is(self.base, text::texts(self.tail@).push(component@)),
    {
        let base = self.base;
        let mut tail = self.tail;
        let ghost before = tail@;
        tail.push(component.to_string());
        assert(text::texts(tail@) =~= text::texts(before).push(component@));
        PathPlan { base, tail }
    }
}

impl<P: Copy> PathPlan<P> {
    /// A plan with one more component; this one stays as it is.
    pub fn child(&self, component: &str) -> (r: PathPlan<P>)
        ensures
            r.is(self.base, text::texts(self.tail@).push(component@)),
    {
        let mut tail: Vec<String> = Vec::new();
        let mut i: usize = 0;
        assert(text::texts(tail@) =~= text::texts(self.tail@).take(0));
        while i < self.tail.len()
            invariant
                i <= self.tail.len(),
                text::texts(tail@) == text::texts(self.tail@).take(i as int),
            decreases self.tail.len() - i,
        {
            let ghost before = tail@;
            tail.push(self.tail[i].clone());
            assert(text::texts(tail@) =~= text::texts(before).push(self.tail@[i as int]@));
            i += 1;
            assert(text::texts(tail@) =~= text::texts(self.tail@).take(i as int));
        }
        let ghost before = tail@;
        tail.push(component.to_string());
        assert(text::texts(tail@) =~= text::texts(before).push(component@));
        assert(text::texts(self.tail@).take(i as int) =~= text::texts(self.tail@));
        PathPlan { base: self.base, tail }
    }
}

/// A plan without components.
pub fn at<P>(base: PathBase<P>) -> (r: PathPlan<P>)
    ensures
        r.is(base, Seq::empty()),
{
    let r = PathPlan { base, tail: Vec::new() };
    assert(text::texts(r.tail@) =~= Seq::empty());
    r
}

/// The parts of an optional plan.
pub open spec fn parts_view<P>(plan: Option<PathPlan<P>>) -> Option<
    (PathBase<P>, Seq<Seq<char>>),
> {
    match plan {
        Some(found) => Some(found.parts()),
        None => None,
    }
}

/// Where the data home lies, if anywhere.
pub open spec fn home_parts<P>(dsh_home: Option<P>, user_home: Option<P>) -> Option<
    (PathBase<P>, Seq<Seq<char>>),
> {
    match dsh_home {
        Some(home) => Some((PathBase::Given(home), Seq::empty())),
        None => match user_home {
            Some(home) => Some((PathBase::Given(home), seq![".dsh"@])),
            None => None,
        },
    }
}

/// Where the working directory lies.
pub open spec fn workspace_parts<P>(dsh_home: Option<P>, user_home: Option<P>) -> (
    PathBase<P>,
    Seq<Seq<char>>,
) {
    match home_parts(dsh_home, user_home) {
        Some((base, tail)) => (base, tail.push("workspace"@)),
        None => (PathBase::Here, seq!["workspace"@]),
    }
}

/// The data home: `DSH_HOME` where it is set, else `.dsh` in the user's home.
pub fn data_home<P>(dsh_home: Option<P>, user_home: Option<P>) -> (r: Option<PathPlan<P>>)
    ensures
        match dsh_home {
            Some(home) => r is Some && r->0.is(PathBase::Given(home), Seq::empty()),
            None => match user_home {
                Some(home) => r is Some && r->0.is(PathBase::Given(home), seq![".dsh"@]),
                None => r is None,
            },
        },
        parts_view(r) == home_parts(dsh_home, user_home),
{
    match dsh_home {
        Some(home) => Some(at(PathBase::Given(home))),
        None => match user_home {
            Some(home) => {
                let r = at(PathBase::Given(home)).join(".dsh");
                assert(text::texts(r.tail@) =~= seq![".dsh"@]);
                Some(r)
            },
            None => None,
        },
    }
}

/// The working directory of desktop sessions: `workspace` in the data home,
/// and in the current directory where there is no home at all.
pub fn workspace_dir<P>(dsh_home: Option<P>, user_home: Option<P>) -> (r: PathPlan<P>)
    ensures
        match dsh_home {
            Some(home) => r.is(PathBase::Given(home), seq!["workspace"@]),
            None => match user_home {
                Some(home) => r.is(PathBase::Given(home), seq![".dsh"@, "workspace"@]),
                None => r.is(PathBase::Here, seq!["workspace"@]),
            },
        },
        r.parts() == workspace_parts(dsh_home, user_home),
{
    let home = match data_home(dsh_home, user_home) {
        Some(plan) => plan,
        None => at(PathBase::Here),
    };
    let r = home.join("workspace");
    assert(Seq::<Seq<char>>::empty().push("workspace"@) =~= seq!["workspace"@]);
    assert(seq![".dsh"@].push("workspace"@) =~= seq![".dsh"@, "workspace"@]);
    r
}

/// `DSH_HOME` is the data home wherever it is set, whatever the user's home;
/// without it the data home is `.dsh` in the user's home, and without either
/// there is none. The working directory is `workspace` in the data home, or in
/// the current directory where there is none.
pub proof fn law_the_workspace_lies_in_the_data_home<P>(
    home: P,
    dsh_home: Option<P>,
    user_home: Option<P>,
)
    ensures
        home_parts(Some(home), user_home) == Some(
            (PathBase::Given(home), Seq::<Seq<char>>::empty()),
        ),
        home_parts(None, Some(home)) == Some((PathBase::Given(home), seq![".dsh"@])),
        home_parts::<P>(None, None) is None,
        home_parts(dsh_home, user_home) matches Some((base, tail)) ==> workspace_parts(
            dsh_home,
            user_home,
        ) == (base, tail + seq!["workspace"@]),
        home_parts(dsh_home, user_home) is None ==> workspace_parts(dsh_home, user_home) == (
            PathBase::<P>::Here,
            seq!["workspace"@],
        ),
{
    if let Some((base, tail)) = home_parts(dsh_home, user_home) {
        assert(tail.push("workspace"@) =~= tail + seq!["workspace"@]);
    }
}

} // verus!
