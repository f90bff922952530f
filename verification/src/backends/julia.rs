//! Julia packages.

use vstd::prelude::*;

use crate::backend;
use crate::backend::Backend;
use crate::data;
use crate::data::Entries;
use crate::data::Entry;
use crate::error::Error;
use crate::error::ErrorOf;
use crate::error::ErrorView;
use crate::session;
use crate::session::Answer;
use crate::session::AskOf;
use crate::session::Cursor;
use crate::session::Model;
use crate::session::Next;
use crate::session::Session;
use crate::session::Step;
use crate::text::list0;
use crate::text::list1;
use crate::text::own;
use crate::toml;

verus! {

/// The version of a julia package is the top-level `version` of its
/// `Project.toml`. There is nothing to lock or to publish.
pub struct Julia;

/// There is no version.
pub open spec fn no_version() -> ErrorView {
    ErrorOf::Absent("no top-level `version` in Project.toml"@)
}

/// The version in a `Project.toml`.
pub open spec fn version_in(entries: Entries) -> Result<Seq<char>, ErrorView> {
    match data::text_in(entries, "version"@) {
        Some(version) => Ok(version),
        None => Err(no_version()),
    }
}

/// The text of a `Project.toml` with another version. It must have had one.
pub open spec fn with_version(t: Seq<char>, entries: Entries, new: Seq<char>) -> Result<
    Seq<char>,
    ErrorView,
> {
    if data::find(entries, "version"@) is Some {
        Ok(toml::toml_with(t, seq!["version"@], new))
    } else {
        Err(no_version())
    }
}

/// The text is that of a `Project.toml` with this version.
pub open spec fn reads_as(t: Seq<char>, version: Seq<char>) -> bool {
    toml::entries_in(t) matches Ok(entries) && version_in(entries) == Ok::<Seq<char>, ErrorView>(
        version,
    )
}

/// The text of a `Project.toml` with another version has that version.
pub proof fn law_written_text_reads_back(t: Seq<char>, entries: Entries, new: Seq<char>)
    requires
        toml::is_faithful(),
        toml::entries_in(t) == Ok::<Entries, Seq<char>>(entries),
    ensures
        with_version(t, entries, new) matches Ok(after) ==> reads_as(after, new),
{
    let node = toml::toml_read(t)->Ok_0;
    toml::lemma_way_one(node, "version"@);
    let after = toml::toml_read(toml::toml_with(t, seq!["version"@], new))->Ok_0;
    toml::lemma_put_one(node, after, "version"@, new);
}

/// The version in a `Project.toml`.
pub fn find_version(entries: &Vec<Entry>) -> (r: Result<String, Error>)
    ensures
        r.model() == version_in(data::seen_entries(entries@)),
{
    match data::find_text(entries, "version") {
        Some(version) => Ok(version),
        None => Err(ErrorOf::Absent(own("no top-level `version` in Project.toml"))),
    }
}

/// Put another version into the text of a `Project.toml`. What is put there
/// reads back.
pub fn replace_version(doc: &toml::Doc, new: &str) -> (r: Result<String, Error>)
    ensures
        r.model() == with_version(doc.model().0, doc.model().1, new@),
        r matches Ok(t) ==> reads_as(t@, new@),
{
    match data::find_entry(doc.entries(), "version") {
        Some(_) => {
            let t = toml::put_one(doc.text(), "version", new);
            proof {
                toml::lemma_put_one(
                    toml::toml_read(doc.model().0)->Ok_0,
                    toml::toml_read(t@)->Ok_0,
                    "version"@,
                    new@,
                );
            }
            Ok(t)
        },
        None => Err(ErrorOf::Absent(own("no top-level `version` in Project.toml"))),
    }
}

impl Backend for Julia {
    open spec fn called(&self) -> Seq<char> {
        "julia"@
    }

    open spec fn read_step(&self, c: Cursor) -> Next<Result<Seq<char>, ErrorView>> {
        toml::doc_step(c, "Project.toml"@).and_ok(
            |doc: (Seq<char>, Entries), c: Cursor| Next::Done(version_in(doc.1), c),
        )
    }

    open spec fn write_step(&self, c: Cursor, new: Seq<char>) -> Next<Result<(), ErrorView>> {
        toml::doc_step(c, "Project.toml"@).and_ok(
            |doc: (Seq<char>, Entries), c: Cursor|
                match with_version(doc.0, doc.1, new) {
                    Ok(t) => c.write("Project.toml"@, t),
                    Err(e) => Next::Done(Err(e), c),
                },
        )
    }

    open spec fn lock_step(&self, c: Cursor) -> Next<Result<(), ErrorView>> {
        backend::idle(c)
    }

    open spec fn lock_command(&self) -> Option<Seq<char>> {
        None
    }

    open spec fn stage_step(&self, c: Cursor) -> Next<Seq<Seq<char>>> {
        Next::Done(seq!["Project.toml"@], c)
    }

    open spec fn publish_step(&self, c: Cursor) -> Next<Result<(), ErrorView>> {
        backend::idle(c)
    }

    open spec fn publish_preview_step(&self, c: Cursor) -> Next<
        Result<Option<Seq<char>>, ErrorView>,
    > {
        Next::Done(Ok(None), c)
    }

    open spec fn writes_preview_step(&self, c: Cursor, new: Seq<char>) -> Next<
        Result<Seq<Seq<char>>, ErrorView>,
    > {
        Next::Done(Ok(Seq::empty()), c)
    }

    open spec fn publishable_step(&self, c: Cursor) -> Next<Result<bool, ErrorView>> {
        Next::Done(Ok(true), c)
    }

    proof fn law_asks(&self, c: Cursor, new: Seq<char>) {
    }

    proof fn law_kept(&self, c: Cursor, new: Seq<char>, more: Seq<Answer>) {
        broadcast use session::lemma_past_with;

    }

    fn name(&self) -> (r: &'static str) {
        "julia"
    }

    fn read_version(&self, s: &mut Session<'_>) -> (r: Step<Result<String, Error>>) {
        match toml::read_doc(s, "Project.toml")? {
            Ok(doc) => Ok(find_version(doc.entries())),
            Err(e) => Ok(Err(e)),
        }
    }

    /// The text that is to be written has the new version.
    fn write_version(&self, s: &mut Session<'_>, new: &str) -> (r: Step<Result<(), Error>>)
        ensures
            r matches Err(AskOf::Write(_, t)) ==> reads_as(t@, new@),
    {
        match toml::read_doc(s, "Project.toml")? {
            Ok(doc) => match replace_version(&doc, new) {
                Ok(t) => s.write("Project.toml", &t),
                Err(e) => Ok(Err(e)),
            },
            Err(e) => Ok(Err(e)),
        }
    }

    fn update_lockfile(&self, s: &mut Session<'_>) -> (r: Step<Result<(), Error>>) {
        Ok(Ok(()))
    }

    fn lockfile_command_preview(&self) -> (r: Option<String>) {
        None
    }

    fn files_to_stage(&self, s: &mut Session<'_>) -> (r: Step<Vec<String>>) {
        Ok(list1("Project.toml"))
    }

    fn publish(&self, s: &mut Session<'_>) -> (r: Step<Result<(), Error>>) {
        Ok(Ok(()))
    }

    fn publish_command_preview(&self, s: &mut Session<'_>) -> (r: Step<
        Result<Option<String>, Error>,
    >) {
        Ok(Ok(None))
    }

    fn additional_write_previews(&self, s: &mut Session<'_>, new: &str) -> (r: Step<
        Result<Vec<String>, Error>,
    >) {
        Ok(Ok(list0()))
    }

    fn is_publishable(&self, s: &mut Session<'_>) -> (r: Step<Result<bool, Error>>) {
        Ok(Ok(true))
    }
}

} // verus!
