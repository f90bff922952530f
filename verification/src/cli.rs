//! What the user asks for.

use vstd::prelude::*;

use crate::backend::BumpKind;
use crate::session::Model;

verus! {

/// Which number of the version to raise.
#[derive(Debug, Clone, Copy, PartialEq, Eq, Structural)]
pub enum BumpArg {
    Patch,
    Minor,
    Major,
}

/// The package managers.
#[derive(Debug, Clone, Copy, PartialEq, Eq, Structural)]
pub enum BackendName {
    Cargo,
    Pnpm,
    Bun,
    Go,
    Dotnet,
    Julia,
    Uv,
}

impl Model for BackendName {
    type M = BackendName;

    open spec fn model(&self) -> BackendName {
        *self
    }
}

/// Bump the version in a project's manifest, commit, tag, push and optionally
/// publish.
#[derive(Debug)]
pub struct Cli {
    /// The kind of bump to apply.
    pub bump: BumpArg,
    /// Skip publishing.
    pub no_publish: bool,
    /// Only run the publish step; skip version bump, commit, tag and push.
    pub only_publish: bool,
    /// Print the actions that would be performed without making any changes.
    pub dry_run: bool,
    /// Override automatic backend detection.
    pub backend: Option<BackendName>,
}

/// The kind of bump that an argument names.
pub open spec fn kind_of(arg: BumpArg) -> BumpKind {
    match arg {
        BumpArg::Patch => BumpKind::Patch,
        BumpArg::Minor => BumpKind::Minor,
        BumpArg::Major => BumpKind::Major,
    }
}

impl From<BumpArg> for BumpKind {
    fn from(arg: BumpArg) -> (r: BumpKind) {
        match arg {
            BumpArg::Patch => BumpKind::Patch,
            BumpArg::Minor => BumpKind::Minor,
            BumpArg::Major => BumpKind::Major,
        }
    }
}

impl vstd::std_specs::convert::FromSpecImpl<BumpArg> for BumpKind {
    open spec fn obeys_from_spec() -> bool {
        true
    }

    open spec fn from_spec(arg: BumpArg) -> BumpKind {
        kind_of(arg)
    }
}

} // verus!
