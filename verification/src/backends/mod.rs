//! The package managers.

pub mod bun;
pub mod bun_lock;
pub mod bun_publish;
pub mod bun_sync;
pub mod cargo;
pub mod cargo_deps;
pub mod cargo_preview;
pub mod cargo_publish;
pub mod cargo_roundtrip;
pub mod cargo_toml;
pub mod dotnet;
pub mod dotnet_roundtrip;
pub mod dotnet_search;
pub mod dotnet_text;
pub mod go;
pub mod julia;
pub mod package_roundtrip;
pub mod pnpm;
pub mod pnpm_publish;
pub mod pnpm_workspace;
pub mod staging;
pub mod toml_roundtrip;
pub mod uv;
pub mod workspace;

use vstd::prelude::*;

use crate::backend::Backend;
use crate::cli::BackendName;
use crate::error::Error;
use crate::error::ErrorView;
use crate::session;
use crate::session::Answer;
use crate::session::Cursor;
use crate::session::Next;
use crate::session::Session;
use crate::session::Step;
use crate::text::list1;

verus! {

/// Make sure that the user is logged in to the npm registry: if the program
/// does not know them, run `npm login`.
pub open spec fn login_step(c: Cursor, program: Seq<char>, args: Seq<Seq<char>>) -> Next<
    Result<(), ErrorView>,
> {
    c.probe(program, args).and_ok(
        |known: bool, c: Cursor|
            if known {
                Next::Done(Ok(()), c)
            } else {
                c.warn("not logged in to npm registry; running `npm login`"@).and(
                    |u: (), c: Cursor| c.run(""@, "npm"@, seq!["login"@]),
                )
            },
    )
}

/// Make sure that the user is logged in to the npm registry.
pub fn ensure_npm_login(s: &mut Session<'_>, program: &str, args: Vec<String>) -> (r: Step<
    Result<(), Error>,
>)
    ensures
        session::step(r, final(s)@) == login_step(old(s)@, program@, args.deep_view()),
{
    match s.probe(program, args)? {
        Ok(true) => Ok(Ok(())),
        Ok(false) => {
            s.warn("not logged in to npm registry; running `npm login`")?;
            s.run("", "npm", list1("login"))
        },
        Err(e) => Ok(Err(e)),
    }
}

/// One of the package managers.
pub enum AnyBackend {
    Cargo(cargo::Cargo),
    Pnpm(pnpm::Pnpm),
    Bun(bun::Bun),
    Go(go::Go),
    Dotnet(dotnet::Dotnet),
    Julia(julia::Julia),
    Uv(uv::Uv),
}

/// The package manager with this name.
pub open spec fn backend_of(name: BackendName) -> AnyBackend {
    match name {
        BackendName::Cargo => AnyBackend::Cargo(cargo::Cargo),
        BackendName::Pnpm => AnyBackend::Pnpm(pnpm::Pnpm),
        BackendName::Bun => AnyBackend::Bun(bun::Bun),
        BackendName::Go => AnyBackend::Go(go::Go),
        BackendName::Dotnet => AnyBackend::Dotnet(dotnet::Dotnet),
        BackendName::Julia => AnyBackend::Julia(julia::Julia),
        BackendName::Uv => AnyBackend::Uv(uv::Uv),
    }
}

/// The package manager with this name.
pub fn make(name: BackendName) -> (r: AnyBackend)
    ensures
        r == backend_of(name),
{
    match name {
        BackendName::Cargo => AnyBackend::Cargo(cargo::Cargo),
        BackendName::Pnpm => AnyBackend::Pnpm(pnpm::Pnpm),
        BackendName::Bun => AnyBackend::Bun(bun::Bun),
        BackendName::Go => AnyBackend::Go(go::Go),
        BackendName::Dotnet => AnyBackend::Dotnet(dotnet::Dotnet),
        BackendName::Julia => AnyBackend::Julia(julia::Julia),
        BackendName::Uv => AnyBackend::Uv(uv::Uv),
    }
}

impl Backend for AnyBackend {
    open spec fn called(&self) -> Seq<char> {
        match self {
            AnyBackend::Cargo(b) => b.called(),
            AnyBackend::Pnpm(b) => b.called(),
            AnyBackend::Bun(b) => b.called(),
            AnyBackend::Go(b) => b.called(),
            AnyBackend::Dotnet(b) => b.called(),
            AnyBackend::Julia(b) => b.called(),
            AnyBackend::Uv(b) => b.called(),
        }
    }

    open spec fn read_step(&self, c: Cursor) -> Next<Result<Seq<char>, ErrorView>> {
        match self {
            AnyBackend::Cargo(b) => b.read_step(c),
            AnyBackend::Pnpm(b) => b.read_step(c),
            AnyBackend::Bun(b) => b.read_step(c),
            AnyBackend::Go(b) => b.read_step(c),
            AnyBackend::Dotnet(b) => b.read_step(c),
            AnyBackend::Julia(b) => b.read_step(c),
            AnyBackend::Uv(b) => b.read_step(c),
        }
    }

    open spec fn write_step(&self, c: Cursor, new: Seq<char>) -> Next<Result<(), ErrorView>> {
        match self {
            AnyBackend::Cargo(b) => b.write_step(c, new),
            AnyBackend::Pnpm(b) => b.write_step(c, new),
            AnyBackend::Bun(b) => b.write_step(c, new),
            AnyBackend::Go(b) => b.write_step(c, new),
            AnyBackend::Dotnet(b) => b.write_step(c, new),
            AnyBackend::Julia(b) => b.write_step(c, new),
            AnyBackend::Uv(b) => b.write_step(c, new),
        }
    }

    open spec fn lock_step(&self, c: Cursor) -> Next<Result<(), ErrorView>> {
        match self {
            AnyBackend::Cargo(b) => b.lock_step(c),
            AnyBackend::Pnpm(b) => b.lock_step(c),
            AnyBackend::Bun(b) => b.lock_step(c),
            AnyBackend::Go(b) => b.lock_step(c),
            AnyBackend::Dotnet(b) => b.lock_step(c),
            AnyBackend::Julia(b) => b.lock_step(c),
            AnyBackend::Uv(b) => b.lock_step(c),
        }
    }

    open spec fn lock_command(&self) -> Option<Seq<char>> {
        match self {
            AnyBackend::Cargo(b) => b.lock_command(),
            AnyBackend::Pnpm(b) => b.lock_command(),
            AnyBackend::Bun(b) => b.lock_command(),
            AnyBackend::Go(b) => b.lock_command(),
            AnyBackend::Dotnet(b) => b.lock_command(),
            AnyBackend::Julia(b) => b.lock_command(),
            AnyBackend::Uv(b) => b.lock_command(),
        }
    }

    open spec fn stage_step(&self, c: Cursor) -> Next<Seq<Seq<char>>> {
        match self {
            AnyBackend::Cargo(b) => b.stage_step(c),
            AnyBackend::Pnpm(b) => b.stage_step(c),
            AnyBackend::Bun(b) => b.stage_step(c),
            AnyBackend::Go(b) => b.stage_step(c),
            AnyBackend::Dotnet(b) => b.stage_step(c),
            AnyBackend::Julia(b) => b.stage_step(c),
            AnyBackend::Uv(b) => b.stage_step(c),
        }
    }

    open spec fn publish_step(&self, c: Cursor) -> Next<Result<(), ErrorView>> {
        match self {
            AnyBackend::Cargo(b) => b.publish_step(c),
            AnyBackend::Pnpm(b) => b.publish_step(c),
            AnyBackend::Bun(b) => b.publish_step(c),
            AnyBackend::Go(b) => b.publish_step(c),
            AnyBackend::Dotnet(b) => b.publish_step(c),
            AnyBackend::Julia(b) => b.publish_step(c),
            AnyBackend::Uv(b) => b.publish_step(c),
        }
    }

    open spec fn publish_preview_step(&self, c: Cursor) -> Next<
        Result<Option<Seq<char>>, ErrorView>,
    > {
        match self {
            AnyBackend::Cargo(b) => b.publish_preview_step(c),
            AnyBackend::Pnpm(b) => b.publish_preview_step(c),
            AnyBackend::Bun(b) => b.publish_preview_step(c),
            AnyBackend::Go(b) => b.publish_preview_step(c),
            AnyBackend::Dotnet(b) => b.publish_preview_step(c),
            AnyBackend::Julia(b) => b.publish_preview_step(c),
            AnyBackend::Uv(b) => b.publish_preview_step(c),
        }
    }

    open spec fn writes_preview_step(&self, c: Cursor, new: Seq<char>) -> Next<
        Result<Seq<Seq<char>>, ErrorView>,
    > {
        match self {
            AnyBackend::Cargo(b) => b.writes_preview_step(c, new),
            AnyBackend::Pnpm(b) => b.writes_preview_step(c, new),
            AnyBackend::Bun(b) => b.writes_preview_step(c, new),
            AnyBackend::Go(b) => b.writes_preview_step(c, new),
            AnyBackend::Dotnet(b) => b.writes_preview_step(c, new),
            AnyBackend::Julia(b) => b.writes_preview_step(c, new),
            AnyBackend::Uv(b) => b.writes_preview_step(c, new),
        }
    }

    open spec fn publishable_step(&self, c: Cursor) -> Next<Result<bool, ErrorView>> {
        match self {
            AnyBackend::Cargo(b) => b.publishable_step(c),
            AnyBackend::Pnpm(b) => b.publishable_step(c),
            AnyBackend::Bun(b) => b.publishable_step(c),
            AnyBackend::Go(b) => b.publishable_step(c),
            AnyBackend::Dotnet(b) => b.publishable_step(c),
            AnyBackend::Julia(b) => b.publishable_step(c),
            AnyBackend::Uv(b) => b.publishable_step(c),
        }
    }

    proof fn law_asks(&self, c: Cursor, new: Seq<char>) {
        match self {
            AnyBackend::Cargo(b) => b.law_asks(c, new),
            AnyBackend::Pnpm(b) => b.law_asks(c, new),
            AnyBackend::Bun(b) => b.law_asks(c, new),
            AnyBackend::Go(b) => b.law_asks(c, new),
            AnyBackend::Dotnet(b) => b.law_asks(c, new),
            AnyBackend::Julia(b) => b.law_asks(c, new),
            AnyBackend::Uv(b) => b.law_asks(c, new),
        }
    }

    proof fn law_kept(&self, c: Cursor, new: Seq<char>, more: Seq<Answer>) {
        match self {
            AnyBackend::Cargo(b) => b.law_kept(c, new, more),
            AnyBackend::Pnpm(b) => b.law_kept(c, new, more),
            AnyBackend::Bun(b) => b.law_kept(c, new, more),
            AnyBackend::Go(b) => b.law_kept(c, new, more),
            AnyBackend::Dotnet(b) => b.law_kept(c, new, more),
            AnyBackend::Julia(b) => b.law_kept(c, new, more),
            AnyBackend::Uv(b) => b.law_kept(c, new, more),
        }
    }

    fn name(&self) -> (r: &'static str) {
        match self {
            AnyBackend::Cargo(b) => b.name(),
            AnyBackend::Pnpm(b) => b.name(),
            AnyBackend::Bun(b) => b.name(),
            AnyBackend::Go(b) => b.name(),
            AnyBackend::Dotnet(b) => b.name(),
            AnyBackend::Julia(b) => b.name(),
            AnyBackend::Uv(b) => b.name(),
        }
    }

    fn read_version(&self, s: &mut Session<'_>) -> (r: Step<Result<String, Error>>) {
        match self {
            AnyBackend::Cargo(b) => b.read_version(s),
            AnyBackend::Pnpm(b) => b.read_version(s),
            AnyBackend::Bun(b) => b.read_version(s),
            AnyBackend::Go(b) => b.read_version(s),
            AnyBackend::Dotnet(b) => b.read_version(s),
            AnyBackend::Julia(b) => b.read_version(s),
            AnyBackend::Uv(b) => b.read_version(s),
        }
    }

    fn write_version(&self, s: &mut Session<'_>, new: &str) -> (r: Step<Result<(), Error>>) {
        match self {
            AnyBackend::Cargo(b) => b.write_version(s, new),
            AnyBackend::Pnpm(b) => b.write_version(s, new),
            AnyBackend::Bun(b) => b.write_version(s, new),
            AnyBackend::Go(b) => b.write_version(s, new),
            AnyBackend::Dotnet(b) => b.write_version(s, new),
            AnyBackend::Julia(b) => b.write_version(s, new),
            AnyBackend::Uv(b) => b.write_version(s, new),
        }
    }

    fn update_lockfile(&self, s: &mut Session<'_>) -> (r: Step<Result<(), Error>>) {
        match self {
            AnyBackend::Cargo(b) => b.update_lockfile(s),
            AnyBackend::Pnpm(b) => b.update_lockfile(s),
            AnyBackend::Bun(b) => b.update_lockfile(s),
            AnyBackend::Go(b) => b.update_lockfile(s),
            AnyBackend::Dotnet(b) => b.update_lockfile(s),
            AnyBackend::Julia(b) => b.update_lockfile(s),
            AnyBackend::Uv(b) => b.update_lockfile(s),
        }
    }

    fn lockfile_command_preview(&self) -> (r: Option<String>) {
        match self {
            AnyBackend::Cargo(b) => b.lockfile_command_preview(),
            AnyBackend::Pnpm(b) => b.lockfile_command_preview(),
            AnyBackend::Bun(b) => b.lockfile_command_preview(),
            AnyBackend::Go(b) => b.lockfile_command_preview(),
            AnyBackend::Dotnet(b) => b.lockfile_command_preview(),
            AnyBackend::Julia(b) => b.lockfile_command_preview(),
            AnyBackend::Uv(b) => b.lockfile_command_preview(),
        }
    }

    fn files_to_stage(&self, s: &mut Session<'_>) -> (r: Step<Vec<String>>) {
        match self {
            AnyBackend::Cargo(b) => b.files_to_stage(s),
            AnyBackend::Pnpm(b) => b.files_to_stage(s),
            AnyBackend::Bun(b) => b.files_to_stage(s),
            AnyBackend::Go(b) => b.files_to_stage(s),
            AnyBackend::Dotnet(b) => b.files_to_stage(s),
            AnyBackend::Julia(b) => b.files_to_stage(s),
            AnyBackend::Uv(b) => b.files_to_stage(s),
        }
    }

    fn publish(&self, s: &mut Session<'_>) -> (r: Step<Result<(), Error>>) {
        match self {
            AnyBackend::Cargo(b) => b.publish(s),
            AnyBackend::Pnpm(b) => b.publish(s),
            AnyBackend::Bun(b) => b.publish(s),
            AnyBackend::Go(b) => b.publish(s),
            AnyBackend::Dotnet(b) => b.publish(s),
            AnyBackend::Julia(b) => b.publish(s),
            AnyBackend::Uv(b) => b.publish(s),
        }
    }

    fn publish_command_preview(&self, s: &mut Session<'_>) -> (r: Step<
        Result<Option<String>, Error>,
    >) {
        match self {
            AnyBackend::Cargo(b) => b.publish_command_preview(s),
            AnyBackend::Pnpm(b) => b.publish_command_preview(s),
            AnyBackend::Bun(b) => b.publish_command_preview(s),
            AnyBackend::Go(b) => b.publish_command_preview(s),
            AnyBackend::Dotnet(b) => b.publish_command_preview(s),
            AnyBackend::Julia(b) => b.publish_command_preview(s),
            AnyBackend::Uv(b) => b.publish_command_preview(s),
        }
    }

    fn additional_write_previews(&self, s: &mut Session<'_>, new: &str) -> (r: Step<
        Result<Vec<String>, Error>,
    >) {
        match self {
            AnyBackend::Cargo(b) => b.additional_write_previews(s, new),
            AnyBackend::Pnpm(b) => b.additional_write_previews(s, new),
            AnyBackend::Bun(b) => b.additional_write_previews(s, new),
            AnyBackend::Go(b) => b.additional_write_previews(s, new),
            AnyBackend::Dotnet(b) => b.additional_write_previews(s, new),
            AnyBackend::Julia(b) => b.additional_write_previews(s, new),
            AnyBackend::Uv(b) => b.additional_write_previews(s, new),
        }
    }

    fn is_publishable(&self, s: &mut Session<'_>) -> (r: Step<Result<bool, Error>>) {
        match self {
            AnyBackend::Cargo(b) => b.is_publishable(s),
            AnyBackend::Pnpm(b) => b.is_publishable(s),
            AnyBackend::Bun(b) => b.is_publishable(s),
            AnyBackend::Go(b) => b.is_publishable(s),
            AnyBackend::Dotnet(b) => b.is_publishable(s),
            AnyBackend::Julia(b) => b.is_publishable(s),
            AnyBackend::Uv(b) => b.is_publishable(s),
        }
    }
}

} // verus!
