//! Python projects managed by uv.

use vstd::prelude::*;

use crate::backend::Backend;
use crate::backends::workspace;
use crate::data;
use crate::data::Entries;
use crate::data::Entry;
use crate::error;
use crate::error::Error;
use crate::error::ErrorOf;
use crate::error::ErrorView;
use crate::session;
use crate::session::during;
use crate::session::Answer;
use crate::session::AskOf;
use crate::session::Cursor;
use crate::session::Model;
use crate::session::Next;
use crate::session::Session;
use crate::session::Step;
use crate::text::append;
use crate::text::list0;
use crate::text::list1;
use crate::text::own;
use crate::text::plus;
use crate::text::plus3;
use crate::text::put;
use crate::toml;

verus! {

/// The version of a uv project is `[project].version` of its `pyproject.toml`.
/// The members of a workspace are listed under `[tool.uv.workspace]` and get
/// the same version.
pub struct Uv;

/// The version in a `pyproject.toml`.
pub open spec fn version_in(entries: Entries) -> Result<Seq<char>, ErrorView> {
    match data::table_in(entries, "project"@) {
        Some(project) => match data::text_in(project, "version"@) {
            Some(version) => Ok(version),
            None => Err(ErrorOf::Absent("no [project].version in pyproject.toml"@)),
        },
        None => Err(ErrorOf::Absent("no [project].version in pyproject.toml"@)),
    }
}

/// The patterns of the workspace members.
pub open spec fn members_in(entries: Entries) -> Seq<Seq<char>> {
    match data::table_in(entries, "tool"@) {
        Some(tool) => match data::table_in(tool, "uv"@) {
            Some(uv) => match data::table_in(uv, "workspace"@) {
                Some(workspace) => data::texts_in(workspace, "members"@),
                None => Seq::empty(),
            },
            None => Seq::empty(),
        },
        None => Seq::empty(),
    }
}

/// The text of the main `pyproject.toml` with another version.
pub open spec fn with_version(t: Seq<char>, entries: Entries, new: Seq<char>) -> Result<
    Seq<char>,
    ErrorView,
> {
    if data::table_in(entries, "project"@) is Some {
        Ok(toml::toml_with(t, seq!["project"@, "version"@], new))
    } else {
        Err(ErrorOf::Absent("no [project] table in pyproject.toml"@))
    }
}

/// The text of a member's `pyproject.toml` with another version, `None` if it
/// has no version.
pub open spec fn member_with_version(t: Seq<char>, entries: Entries, new: Seq<char>) -> Option<
    Seq<char>,
> {
    match data::table_in(entries, "project"@) {
        Some(project) => if data::find(project, "version"@) is Some {
            Some(toml::toml_with(t, seq!["project"@, "version"@], new))
        } else {
            None
        },
        None => None,
    }
}

/// A member's `pyproject.toml` has a version to write.
pub open spec fn versioned(entries: Entries) -> bool {
    data::table_in(entries, "project"@) matches Some(project) && data::find(
        project,
        "version"@,
    ) is Some
}

/// Add those of the members' manifests from the one at `i` on that have a
/// version to write.
pub open spec fn preview_members_step(
    c: Cursor,
    members: Seq<Seq<char>>,
    i: int,
    out: Seq<Seq<char>>,
) -> Next<Result<Seq<Seq<char>>, ErrorView>>
    decreases members.len() - i,
{
    if i >= members.len() {
        Next::Done(Ok(out), c)
    } else {
        toml::doc_step(c, members[i]).and_ok(
            |doc: (Seq<char>, Entries), c: Cursor|
                preview_members_step(
                    c,
                    members,
                    i + 1,
                    if versioned(doc.1) {
                        out.push(members[i])
                    } else {
                        out
                    },
                ),
        )
    }
}

/// To look for members to write is harmless.
pub broadcast proof fn lemma_preview_members_calm(
    c: Cursor,
    members: Seq<Seq<char>>,
    i: int,
    out: Seq<Seq<char>>,
)
    ensures
        (#[trigger] preview_members_step(c, members, i, out)).calm(),
    decreases members.len() - i,
{
    if i < members.len() {
        if let Next::Done(Ok(doc), c2) = toml::doc_step(c, members[i]) {
            lemma_preview_members_calm(c2, members, i + 1, out);
            lemma_preview_members_calm(c2, members, i + 1, out.push(members[i]));
        }
    }
}

/// Further answers change nothing in what has ended.
pub broadcast proof fn lemma_preview_members_kept(
    c: Cursor,
    members: Seq<Seq<char>>,
    i: int,
    out: Seq<Seq<char>>,
    more: Seq<Answer>,
)
    ensures
        preview_members_step(c, members, i, out).kept(
            #[trigger] preview_members_step(c.with(more), members, i, out),
            more,
        ),
    decreases members.len() - i,
{
    broadcast use session::lemma_past_with;

    if i < members.len() {
        if let Next::Done(Ok(doc), c2) = toml::doc_step(c, members[i]) {
            lemma_preview_members_kept(c2, members, i + 1, out, more);
            lemma_preview_members_kept(c2, members, i + 1, out.push(members[i]), more);
        }
    }
}

/// Write a version into the manifest of a member, if it has one.
pub open spec fn write_member_step(c: Cursor, path: Seq<char>, new: Seq<char>) -> Next<
    Result<(), ErrorView>,
> {
    toml::doc_step(c, path).and_ok(
        |doc: (Seq<char>, Entries), c: Cursor|
            match member_with_version(doc.0, doc.1, new) {
                Some(t) => c.write(path, t),
                None => Next::Done(Ok(()), c),
            },
    )
}

/// Write a version into the manifests of the members from the one at `i` on.
pub open spec fn write_members_step(
    c: Cursor,
    members: Seq<Seq<char>>,
    i: int,
    new: Seq<char>,
) -> Next<Result<(), ErrorView>>
    decreases members.len() - i,
{
    if i >= members.len() {
        Next::Done(Ok(()), c)
    } else {
        write_member_step(c, members[i], new).during("update member "@ + members[i]).and_ok(
            |u: (), c: Cursor| write_members_step(c, members, i + 1, new),
        )
    }
}

/// A member's manifest is written exactly if it is listed beforehand.
pub proof fn law_preview_lists_what_is_written(
    c: Cursor,
    members: Seq<Seq<char>>,
    i: int,
    new: Seq<char>,
    out: Seq<Seq<char>>,
)
    requires
        0 <= i < members.len(),
        toml::doc_step(c, members[i]) matches Next::Done(Ok(_), c2) && !c2.answered(),
    ensures
        ({
            let c2 = toml::doc_step(c, members[i])->Done_1;
            let written = write_members_step(c, members, i, new) matches Next::Ask(
                AskOf::Write(path, _),
            ) && path == members[i];
            preview_members_step(c, members, i, out) == preview_members_step(
                c2,
                members,
                i + 1,
                if written {
                    out.push(members[i])
                } else {
                    out
                },
            )
        }),
{
    if let Next::Done(Ok(doc), c2) = toml::doc_step(c, members[i]) {
        if !versioned(doc.1) && i + 1 < members.len() {
            assert(write_members_step(c2, members, i + 1, new) == Next::<
                Result<(), ErrorView>,
            >::Ask(AskOf::Read(members[i + 1])));
        }
    }
}

/// To write a version into the members runs no program.
pub broadcast proof fn lemma_write_members_asks(
    c: Cursor,
    members: Seq<Seq<char>>,
    i: int,
    new: Seq<char>,
)
    ensures
        (#[trigger] write_members_step(c, members, i, new)).runs_only(None),
    decreases members.len() - i,
{
    if i < members.len() {
        if let Next::Done(Ok(u), c2) = write_member_step(c, members[i], new) {
            lemma_write_members_asks(c2, members, i + 1, new);
        }
    }
}

/// Further answers change nothing in what has ended.
pub broadcast proof fn lemma_write_members_kept(
    c: Cursor,
    members: Seq<Seq<char>>,
    i: int,
    new: Seq<char>,
    more: Seq<Answer>,
)
    ensures
        write_members_step(c, members, i, new).kept(
            #[trigger] write_members_step(c.with(more), members, i, new),
            more,
        ),
    decreases members.len() - i,
{
    broadcast use session::lemma_past_with;

    if i < members.len() {
        if let Next::Done(Ok(u), c2) = write_member_step(c, members[i], new) {
            lemma_write_members_kept(c2, members, i + 1, new, more);
        }
    }
}

/// The manifests of the members, none if there are no patterns.
pub open spec fn members_step(c: Cursor, entries: Entries) -> Next<
    Result<Seq<Seq<char>>, ErrorView>,
> {
    if members_in(entries).len() == 0 {
        Next::Done(Ok(Seq::empty()), c)
    } else {
        workspace::children_step(c, members_in(entries), "pyproject.toml"@)
    }
}

/// The manifests to stage. What cannot be read is left out with a warning.
pub open spec fn manifests_step(c: Cursor) -> Next<Seq<Seq<char>>> {
    toml::doc_step(c, "pyproject.toml"@).and(
        |doc: Result<(Seq<char>, Entries), ErrorView>, c: Cursor|
            match doc {
                Ok(doc) => members_step(c, doc.1).and(
                    |members: Result<Seq<Seq<char>>, ErrorView>, c: Cursor|
                        match members {
                            Ok(members) => Next::Done(seq!["pyproject.toml"@] + members, c),
                            Err(e) => c.warn(
                                "warning: failed to expand uv workspace members at "@ + c.root
                                    + ": "@ + error::message_of(e),
                            ).and(|u: (), c: Cursor| Next::Done(seq!["pyproject.toml"@], c)),
                        },
                ),
                Err(e) => c.warn(
                    "warning: failed to read pyproject.toml at "@ + c.root + ": "@
                        + error::message_of(e),
                ).and(|u: (), c: Cursor| Next::Done(seq!["pyproject.toml"@], c)),
            },
    )
}

/// The text is that of a `pyproject.toml` with this version.
pub open spec fn reads_as(t: Seq<char>, version: Seq<char>) -> bool {
    toml::entries_in(t) matches Ok(entries) && version_in(entries) == Ok::<Seq<char>, ErrorView>(
        version,
    )
}

/// The text of a `pyproject.toml` with another version has that version.
pub proof fn law_written_text_reads_back(t: Seq<char>, entries: Entries, new: Seq<char>)
    requires
        toml::is_faithful(),
        toml::entries_in(t) == Ok::<Entries, Seq<char>>(entries),
    ensures
        with_version(t, entries, new) matches Ok(after) ==> reads_as(after, new),
        member_with_version(t, entries, new) matches Some(after) ==> reads_as(after, new),
{
    if data::table_in(entries, "project"@) is Some {
        let node = toml::toml_read(t)->Ok_0;
        let slot = seq!["project"@, "version"@];
        toml::lemma_way_one(node, "project"@);
        toml::lemma_way_push(node, seq!["project"@], "version"@);
        assert(slot =~= seq!["project"@].push("version"@));
        let after = toml::toml_read(toml::toml_with(t, slot, new))->Ok_0;
        toml::lemma_put_two(node, after, "project"@, "version"@, new);
    }
}

/// The version in a `pyproject.toml`.
pub fn find_version(entries: &Vec<Entry>) -> (r: Result<String, Error>)
    ensures
        r.model() == version_in(data::seen_entries(entries@)),
{
    if let Some(project) = data::find_table(entries, "project") {
        if let Some(version) = data::find_text(project, "version") {
            return Ok(version);
        }
    }
    Err(ErrorOf::Absent(own("no [project].version in pyproject.toml")))
}

/// The patterns of the workspace members.
pub fn workspace_members(entries: &Vec<Entry>) -> (r: Vec<String>)
    ensures
        r.deep_view() == members_in(data::seen_entries(entries@)),
{
    if let Some(tool) = data::find_table(entries, "tool") {
        if let Some(uv) = data::find_table(tool, "uv") {
            if let Some(workspace) = data::find_table(uv, "workspace") {
                return data::find_texts(workspace, "members");
            }
        }
    }
    list0()
}

/// Put another version into the text of the main `pyproject.toml`. What is put
/// there reads back.
pub fn replace_version(doc: &toml::Doc, new: &str) -> (r: Result<String, Error>)
    ensures
        r.model() == with_version(doc.model().0, doc.model().1, new@),
        r matches Ok(t) ==> reads_as(t@, new@),
{
    match data::find_table(doc.entries(), "project") {
        Some(_) => {
            let t = toml::put_two(doc.text(), "project", "version", new);
            proof {
                toml::lemma_put_two(
                    toml::toml_read(doc.model().0)->Ok_0,
                    toml::toml_read(t@)->Ok_0,
                    "project"@,
                    "version"@,
                    new@,
                );
            }
            Ok(t)
        },
        None => Err(ErrorOf::Absent(own("no [project] table in pyproject.toml"))),
    }
}

/// Put another version into the text of a member's `pyproject.toml`. What is
/// put there reads back.
pub fn replace_member_version(doc: &toml::Doc, new: &str) -> (r: Option<String>)
    ensures
        r.model() == member_with_version(doc.model().0, doc.model().1, new@),
        r matches Some(t) ==> reads_as(t@, new@),
{
    if let Some(project) = data::find_table(doc.entries(), "project") {
        if let Some(_) = data::find_entry(project, "version") {
            return match replace_version(doc, new) {
                Ok(t) => Some(t),
                Err(_) => None,
            };
        }
    }
    None
}

fn write_member(s: &mut Session<'_>, path: &str, new: &str) -> (r: Step<Result<(), Error>>)
    ensures
        session::step(r, final(s)@) == write_member_step(old(s)@, path@, new@),
        r matches Err(AskOf::Write(_, t)) ==> reads_as(t@, new@),
{
    match toml::read_doc(s, path)? {
        Ok(doc) => match replace_member_version(&doc, new) {
            Some(t) => s.write(path, &t),
            None => Ok(Ok(())),
        },
        Err(e) => Ok(Err(e)),
    }
}

fn write_members(s: &mut Session<'_>, members: &Vec<String>, new: &str) -> (r: Step<
    Result<(), Error>,
>)
    ensures
        session::step(r, final(s)@) == write_members_step(
            old(s)@,
            members.deep_view(),
            0,
            new@,
        ),
        r matches Err(AskOf::Write(_, t)) ==> reads_as(t@, new@),
{
    let ghost all = members.deep_view();
    let ghost whole = write_members_step(s@, all, 0, new@);
    let mut i: usize = 0;
    while i < members.len()
        invariant
            i <= members.len(),
            all == members.deep_view(),
            whole == write_members_step(old(s)@, all, 0, new@),
            whole == write_members_step(s@, all, i as int, new@),
        decreases members.len() - i,
    {
        assert(all[i as int] == members@[i as int]@);
        let ghost here = s@;
        let written = write_member(s, &members[i], new);
        let told = during(written, &plus("update member ", &members[i]));
        assert(session::step(told, s@) == write_member_step(here, all[i as int], new@).during(
            "update member "@ + all[i as int],
        ));
        if let Err(e) = told? {
            return Ok(Err(e));
        }
        i = i + 1;
    }
    Ok(Ok(()))
}

/// Whether a member's `pyproject.toml` has a version to write.
fn is_versioned(entries: &Vec<Entry>) -> (r: bool)
    ensures
        r == versioned(data::seen_entries(entries@)),
{
    match data::find_table(entries, "project") {
        Some(project) => data::find_entry(project, "version").is_some(),
        None => false,
    }
}

fn preview_members(s: &mut Session<'_>, members: &Vec<String>) -> (r: Step<
    Result<Vec<String>, Error>,
>)
    ensures
        session::step(r, final(s)@) == preview_members_step(
            old(s)@,
            members.deep_view(),
            0,
            Seq::empty(),
        ),
{
    let ghost all = members.deep_view();
    let ghost whole = preview_members_step(s@, all, 0, Seq::empty());
    let mut out = list0();
    let mut i: usize = 0;
    while i < members.len()
        invariant
            i <= members.len(),
            all == members.deep_view(),
            whole == preview_members_step(old(s)@, all, 0, Seq::empty()),
            whole == preview_members_step(s@, all, i as int, out.deep_view()),
        decreases members.len() - i,
    {
        assert(all[i as int] == members@[i as int]@);
        match toml::read_doc(s, &members[i])? {
            Ok(doc) => {
                if is_versioned(doc.entries()) {
                    put(&mut out, members[i].clone());
                }
            },
            Err(e) => {
                return Ok(Err(e));
            },
        }
        i = i + 1;
    }
    Ok(Ok(out))
}

fn member_manifests(s: &mut Session<'_>, entries: &Vec<Entry>) -> (r: Step<
    Result<Vec<String>, Error>,
>)
    ensures
        session::step(r, final(s)@) == members_step(old(s)@, data::seen_entries(entries@)),
{
    let patterns = workspace_members(entries);
    assert(patterns.deep_view().len() == patterns.len());
    if patterns.len() == 0 {
        return Ok(Ok(list0()));
    }
    workspace::child_manifests(s, &patterns, "pyproject.toml")
}

fn manifests(s: &mut Session<'_>) -> (r: Step<Vec<String>>)
    ensures
        session::step(r, final(s)@) == manifests_step(old(s)@),
{
    match toml::read_doc(s, "pyproject.toml")? {
        Ok(doc) => match member_manifests(s, doc.entries())? {
            Ok(members) => {
                let mut all = list1("pyproject.toml");
                append(&mut all, members);
                return Ok(all);
            },
            Err(e) => {
                s.warn(
                    &plus(
                        &plus3(
                            "warning: failed to expand uv workspace members at ",
                            s.root(),
                            ": ",
                        ),
                        &e.message(),
                    ),
                )?;
            },
        },
        Err(e) => {
            s.warn(
                &plus(
                    &plus3("warning: failed to read pyproject.toml at ", s.root(), ": "),
                    &e.message(),
                ),
            )?;
        },
    }
    Ok(list1("pyproject.toml"))
}

impl Backend for Uv {
    open spec fn called(&self) -> Seq<char> {
        "uv"@
    }

    open spec fn read_step(&self, c: Cursor) -> Next<Result<Seq<char>, ErrorView>> {
        toml::doc_step(c, "pyproject.toml"@).and_ok(
            |doc: (Seq<char>, Entries), c: Cursor| Next::Done(version_in(doc.1), c),
        )
    }

    open spec fn write_step(&self, c: Cursor, new: Seq<char>) -> Next<Result<(), ErrorView>> {
        toml::doc_step(c, "pyproject.toml"@).and_ok(
            |doc: (Seq<char>, Entries), c: Cursor|
                match with_version(doc.0, doc.1, new) {
                    Ok(t) => c.write("pyproject.toml"@, t).and_ok(
                        |u: (), c: Cursor|
                            members_step(c, doc.1).and_ok(
                                |members: Seq<Seq<char>>, c: Cursor|
                                    write_members_step(c, members, 0, new),
                            ),
                    ),
                    Err(e) => Next::Done(Err(e), c),
                },
        )
    }

    open spec fn lock_step(&self, c: Cursor) -> Next<Result<(), ErrorView>> {
        c.run(""@, "uv"@, seq!["lock"@])
    }

    open spec fn lock_command(&self) -> Option<Seq<char>> {
        Some("uv lock"@)
    }

    open spec fn stage_step(&self, c: Cursor) -> Next<Seq<Seq<char>>> {
        manifests_step(c).and(
            |files: Seq<Seq<char>>, c: Cursor|
                c.is_file("uv.lock"@).and(
                    |lock: bool, c: Cursor|
                        Next::Done(
                            if lock {
                                files.push("uv.lock"@)
                            } else {
                                files
                            },
                            c,
                        ),
                ),
        )
    }

    open spec fn publish_step(&self, c: Cursor) -> Next<Result<(), ErrorView>> {
        c.run(""@, "uv"@, seq!["publish"@])
    }

    open spec fn publish_preview_step(&self, c: Cursor) -> Next<
        Result<Option<Seq<char>>, ErrorView>,
    > {
        Next::Done(Ok(Some("uv publish"@)), c)
    }

    open spec fn writes_preview_step(&self, c: Cursor, new: Seq<char>) -> Next<
        Result<Seq<Seq<char>>, ErrorView>,
    > {
        toml::doc_step(c, "pyproject.toml"@).and_ok(
            |doc: (Seq<char>, Entries), c: Cursor|
                members_step(c, doc.1).and_ok(
                    |members: Seq<Seq<char>>, c: Cursor|
                        preview_members_step(c, members, 0, Seq::empty()),
                ),
        )
    }

    open spec fn publishable_step(&self, c: Cursor) -> Next<Result<bool, ErrorView>> {
        Next::Done(Ok(true), c)
    }

    proof fn law_asks(&self, c: Cursor, new: Seq<char>) {
        broadcast use {
            workspace::lemma_patterns_calm,
            lemma_preview_members_calm,
            lemma_write_members_asks,
        };

        assert(self.lock_command() == Some(
            error::command_line("uv"@, seq!["lock"@]),
        )) by {
            reveal_strlit("uv");
            reveal_strlit(" ");
            reveal_strlit("lock");
            reveal_strlit("uv lock");
            assert(self.lock_command()->0 =~= error::command_line("uv"@, seq!["lock"@]));
        }
    }

    proof fn law_kept(&self, c: Cursor, new: Seq<char>, more: Seq<Answer>) {
        broadcast use {
            session::lemma_past_with,
            workspace::lemma_patterns_kept,
            lemma_preview_members_kept,
            lemma_write_members_kept,
        };
    }

    fn name(&self) -> (r: &'static str) {
        "uv"
    }

    fn read_version(&self, s: &mut Session<'_>) -> (r: Step<Result<String, Error>>) {
        match toml::read_doc(s, "pyproject.toml")? {
            Ok(doc) => Ok(find_version(doc.entries())),
            Err(e) => Ok(Err(e)),
        }
    }

    /// Each text that is to be written has the new version.
    fn write_version(&self, s: &mut Session<'_>, new: &str) -> (r: Step<Result<(), Error>>)
        ensures
            r matches Err(AskOf::Write(_, t)) ==> reads_as(t@, new@),
    {
        let doc = match toml::read_doc(s, "pyproject.toml")? {
            Ok(doc) => doc,
            Err(e) => {
                return Ok(Err(e));
            },
        };
        let t = match replace_version(&doc, new) {
            Ok(t) => t,
            Err(e) => {
                return Ok(Err(e));
            },
        };
        if let Err(e) = s.write("pyproject.toml", &t)? {
            return Ok(Err(e));
        }
        proof {
            broadcast use workspace::lemma_patterns_calm;

        }
        match member_manifests(s, doc.entries())? {
            Ok(members) => write_members(s, &members, new),
            Err(e) => Ok(Err(e)),
        }
    }

    fn update_lockfile(&self, s: &mut Session<'_>) -> (r: Step<Result<(), Error>>) {
        s.run("", "uv", list1("lock"))
    }

    fn lockfile_command_preview(&self) -> (r: Option<String>) {
        Some(own("uv lock"))
    }

    fn files_to_stage(&self, s: &mut Session<'_>) -> (r: Step<Vec<String>>) {
        let mut files = manifests(s)?;
        if s.is_file("uv.lock")? {
            put(&mut files, own("uv.lock"));
        }
        Ok(files)
    }

    fn publish(&self, s: &mut Session<'_>) -> (r: Step<Result<(), Error>>) {
        s.run("", "uv", list1("publish"))
    }

    fn publish_command_preview(&self, s: &mut Session<'_>) -> (r: Step<
        Result<Option<String>, Error>,
    >) {
        Ok(Ok(Some(own("uv publish"))))
    }

    fn additional_write_previews(&self, s: &mut Session<'_>, new: &str) -> (r: Step<
        Result<Vec<String>, Error>,
    >) {
        let doc = match toml::read_doc(s, "pyproject.toml")? {
            Ok(doc) => doc,
            Err(e) => {
                return Ok(Err(e));
            },
        };
        match member_manifests(s, doc.entries())? {
            Ok(members) => preview_members(s, &members),
            Err(e) => Ok(Err(e)),
        }
    }

    fn is_publishable(&self, s: &mut Session<'_>) -> (r: Step<Result<bool, Error>>) {
        Ok(Ok(true))
    }
}

} // verus!
