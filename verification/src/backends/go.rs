//! Go modules.

use vstd::prelude::*;

use crate::backend;
use crate::backend::Backend;
use crate::error::Error;
use crate::error::ErrorView;
use crate::git;
use crate::session;
use crate::session::Answer;
use crate::session::Cursor;
use crate::session::Next;
use crate::session::Session;
use crate::session::Step;
use crate::text::list0;
use crate::text::own;

verus! {

/// Go modules store no version: it is that of the latest `v*` tag. So there is
/// nothing to write, to lock or to publish, only to tag and push.
pub struct Go;

impl Backend for Go {
    open spec fn called(&self) -> Seq<char> {
        "go"@
    }

    open spec fn read_step(&self, c: Cursor) -> Next<Result<Seq<char>, ErrorView>> {
        git::latest_tag_step(c).and_ok(
            |tag: Option<Seq<char>>, c: Cursor|
                match tag {
                    Some(version) => Next::Done(Ok(version), c),
                    None => Next::Done(Ok("0.0.0"@), c),
                },
        )
    }

    open spec fn write_step(&self, c: Cursor, new: Seq<char>) -> Next<Result<(), ErrorView>> {
        backend::idle(c)
    }

    open spec fn lock_step(&self, c: Cursor) -> Next<Result<(), ErrorView>> {
        backend::idle(c)
    }

    open spec fn lock_command(&self) -> Option<Seq<char>> {
        None
    }

    open spec fn stage_step(&self, c: Cursor) -> Next<Seq<Seq<char>>> {
        Next::Done(Seq::empty(), c)
    }

    open spec fn publish_step(&self, c: Cursor) -> Next<Result<(), ErrorView>> {
        backend::idle(c)
    }

    open spec fn publish_preview_step(&self, c: Cursor) -> Next<
        Result<Option<Seq<char>>, ErrorView>,
    > {
        Next::Done(Ok(None), c)
    }

    open spec fn writes_preview_step(&self, c: Cursor, new: Seq<char>) -> Next<
        Result<Seq<Seq<char>>, ErrorView>,
    > {
        Next::Done(Ok(Seq::empty()), c)
    }

    open spec fn publishable_step(&self, c: Cursor) -> Next<Result<bool, ErrorView>> {
        Next::Done(Ok(true), c)
    }

    proof fn law_asks(&self, c: Cursor, new: Seq<char>) {
    }

    proof fn law_kept(&self, c: Cursor, new: Seq<char>, more: Seq<Answer>) {
        broadcast use session::lemma_past_with;

    }

    fn name(&self) -> (r: &'static str) {
        "go"
    }

    fn read_version(&self, s: &mut Session<'_>) -> (r: Step<Result<String, Error>>) {
        match git::latest_v_tag(s)? {
            Ok(Some(version)) => Ok(Ok(version)),
            Ok(None) => Ok(Ok(own("0.0.0"))),
            Err(e) => Ok(Err(e)),
        }
    }

    fn write_version(&self, s: &mut Session<'_>, new: &str) -> (r: Step<Result<(), Error>>) {
        Ok(Ok(()))
    }

    fn update_lockfile(&self, s: &mut Session<'_>) -> (r: Step<Result<(), Error>>) {
        Ok(Ok(()))
    }

    fn lockfile_command_preview(&self) -> (r: Option<String>) {
        None
    }

    fn files_to_stage(&self, s: &mut Session<'_>) -> (r: Step<Vec<String>>) {
        Ok(list0())
    }

    fn publish(&self, s: &mut Session<'_>) -> (r: Step<Result<(), Error>>) {
        Ok(Ok(()))
    }

    fn publish_command_preview(&self, s: &mut Session<'_>) -> (r: Step<
        Result<Option<String>, Error>,
    >) {
        Ok(Ok(None))
    }

    fn additional_write_previews(&self, s: &mut Session<'_>, new: &str) -> (r: Step<
        Result<Vec<String>, Error>,
    >) {
        Ok(Ok(list0()))
    }

    fn is_publishable(&self, s: &mut Session<'_>) -> (r: Step<Result<bool, Error>>) {
        Ok(Ok(true))
    }
}

} // verus!
