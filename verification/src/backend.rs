//! What a package manager has to be able to do.

use vstd::prelude::*;

use crate::error::Error;
use crate::error::ErrorView;
use crate::session;
use crate::session::Answer;
use crate::session::Cursor;
use crate::session::Model;
use crate::session::Next;
use crate::session::Session;
use crate::session::Step;

verus! {

/// Which number of a version to raise.
#[derive(Debug, Clone, Copy, PartialEq, Eq, Structural)]
pub enum BumpKind {
    Patch,
    Minor,
    Major,
}

/// A backend knows how to read and write the version in a project's manifest,
/// update its lockfile (if any) and publish the package (if applicable).
pub trait Backend {
    /// The name, as the user gives it.
    spec fn called(&self) -> Seq<char>;

    /// Read the current version.
    spec fn read_step(&self, c: Cursor) -> Next<Result<Seq<char>, ErrorView>>;

    /// Write a version.
    spec fn write_step(&self, c: Cursor, new: Seq<char>) -> Next<Result<(), ErrorView>>;

    /// Update the lockfile.
    spec fn lock_step(&self, c: Cursor) -> Next<Result<(), ErrorView>>;

    /// The command that updates the lockfile, if there is one.
    spec fn lock_command(&self) -> Option<Seq<char>>;

    /// The files to stage.
    spec fn stage_step(&self, c: Cursor) -> Next<Seq<Seq<char>>>;

    /// Publish.
    spec fn publish_step(&self, c: Cursor) -> Next<Result<(), ErrorView>>;

    /// The command that publishes, if there is one.
    spec fn publish_preview_step(&self, c: Cursor) -> Next<Result<Option<Seq<char>>, ErrorView>>;

    /// The files beside the main manifest that writing a version would write.
    spec fn writes_preview_step(&self, c: Cursor, new: Seq<char>) -> Next<
        Result<Seq<Seq<char>>, ErrorView>,
    >;

    /// Whether there is anything to publish.
    spec fn publishable_step(&self, c: Cursor) -> Next<Result<bool, ErrorView>>;

    /// What a step may ask for. To read, to stage, to preview and to tell
    /// whether there is anything to publish is harmless. To publish leaves the
    /// files and the repository as they are. To write runs no program, and to
    /// lock runs none but the command that is shown for it.
    proof fn law_asks(&self, c: Cursor, new: Seq<char>)
        ensures
            self.read_step(c).calm(),
            self.stage_step(c).calm(),
            self.publish_preview_step(c).calm(),
            self.writes_preview_step(c, new).calm(),
            self.publishable_step(c).calm(),
            self.publish_step(c).keeps(),
            self.write_step(c, new).runs_only(None),
            self.lock_step(c).runs_only(self.lock_command()),
    ;

    /// A step that has ended stays as it ended when there are further answers,
    /// and leaves those to the steps that follow.
    proof fn law_kept(&self, c: Cursor, new: Seq<char>, more: Seq<Answer>)
        ensures
            self.read_step(c).kept(self.read_step(c.with(more)), more),
            self.write_step(c, new).kept(self.write_step(c.with(more), new), more),
            self.lock_step(c).kept(self.lock_step(c.with(more)), more),
            self.stage_step(c).kept(self.stage_step(c.with(more)), more),
            self.publish_step(c).kept(self.publish_step(c.with(more)), more),
            self.publish_preview_step(c).kept(self.publish_preview_step(c.with(more)), more),
            self.writes_preview_step(c, new).kept(
                self.writes_preview_step(c.with(more), new),
                more,
            ),
            self.publishable_step(c).kept(self.publishable_step(c.with(more)), more),
    ;

    /// Human-readable name, as the user gives it.
    fn name(&self) -> (r: &'static str)
        ensures
            r@ == self.called(),
    ;

    /// Read the current version from the manifest.
    fn read_version(&self, s: &mut Session<'_>) -> (r: Step<Result<String, Error>>)
        ensures
            session::step(r, final(s)@) == self.read_step(old(s)@),
    ;

    /// Write `new` as the version in the manifest.
    fn write_version(&self, s: &mut Session<'_>, new: &str) -> (r: Step<Result<(), Error>>)
        ensures
            session::step(r, final(s)@) == self.write_step(old(s)@, new@),
    ;

    /// Update the lockfile, if any.
    fn update_lockfile(&self, s: &mut Session<'_>) -> (r: Step<Result<(), Error>>)
        ensures
            session::step(r, final(s)@) == self.lock_step(old(s)@),
    ;

    /// The lockfile command, to be shown. `None` if there is none.
    fn lockfile_command_preview(&self) -> (r: Option<String>)
        ensures
            r.model() == self.lock_command(),
    ;

    /// The files to stage after a bump.
    fn files_to_stage(&self, s: &mut Session<'_>) -> (r: Step<Vec<String>>)
        ensures
            session::step(r, final(s)@) == self.stage_step(old(s)@),
    ;

    /// Run the publish step.
    fn publish(&self, s: &mut Session<'_>) -> (r: Step<Result<(), Error>>)
        ensures
            session::step(r, final(s)@) == self.publish_step(old(s)@),
    ;

    /// The publish command, to be shown. `None` if there is none.
    fn publish_command_preview(&self, s: &mut Session<'_>) -> (r: Step<
        Result<Option<String>, Error>,
    >)
        ensures
            session::step(r, final(s)@) == self.publish_preview_step(old(s)@),
    ;

    /// The files beside the main manifest that `write_version` would write.
    fn additional_write_previews(&self, s: &mut Session<'_>, new: &str) -> (r: Step<
        Result<Vec<String>, Error>,
    >)
        ensures
            session::step(r, final(s)@) == self.writes_preview_step(old(s)@, new@),
    ;

    /// Whether there is anything to publish: manifests can say of a package
    /// that it must not be.
    fn is_publishable(&self, s: &mut Session<'_>) -> (r: Step<Result<bool, Error>>)
        ensures
            session::step(r, final(s)@) == self.publishable_step(old(s)@),
    ;
}

/// A step that does nothing.
pub open spec fn idle(c: Cursor) -> Next<Result<(), ErrorView>> {
    Next::Done(Ok(()), c)
}

} // verus!
