//! Rust packages managed by cargo.

use vstd::prelude::*;

use crate::backend::Backend;
use crate::backends::cargo_toml;
use crate::backends::cargo_toml::LayoutOf;
use crate::backends::workspace;
use crate::data::Entries;
use crate::error;
use crate::error::Error;
use crate::error::ErrorOf;
use crate::error::ErrorView;
use crate::packages;
use crate::packages::sort_packages;
use crate::packages::Package;
use crate::packages::PackageView;
use crate::session;
use crate::session::Answer;
use crate::session::AskOf;
use crate::session::Cursor;
use crate::session::Model;
use crate::session::Next;
use crate::session::Session;
use crate::session::Step;
use crate::text;
use crate::text::append;
use crate::text::join;
use crate::text::list0;
use crate::text::list1;
use crate::text::list3;
use crate::text::own;
use crate::text::plus;
use crate::text::plus3;
use crate::text::put;
use crate::text::put_new;
use crate::toml;

verus! {

/// The version of a Rust package is `[package].version` of its `Cargo.toml`.
/// In a workspace it is `[workspace.package].version`, for the members to
/// inherit, or else that of each member.
pub struct Cargo;

// ---------------------------------------------------------------------------
// The members
// ---------------------------------------------------------------------------

/// The manifests of the members.
pub open spec fn members_step(c: Cursor, patterns: Seq<Seq<char>>) -> Next<
    Result<Seq<Seq<char>>, ErrorView>,
> {
    workspace::children_step(c, patterns, "Cargo.toml"@)
}

/// Add the names of the packages of the manifests from the one at `i` on.
pub open spec fn names_step(
    c: Cursor,
    manifests: Seq<Seq<char>>,
    i: int,
    names: Set<Seq<char>>,
) -> Next<Result<Set<Seq<char>>, ErrorView>>
    decreases manifests.len() - i,
{
    if i >= manifests.len() {
        Next::Done(Ok(names), c)
    } else {
        toml::doc_step(c, manifests[i]).and_ok(
            |doc: (Seq<char>, Entries), c: Cursor|
                names_step(c, manifests, i + 1, with_name(names, doc.1)),
        )
    }
}

/// Names, with that of the package of a manifest, if it has one.
pub open spec fn with_name(names: Set<Seq<char>>, entries: Entries) -> Set<Seq<char>> {
    match cargo_toml::name_in(entries) {
        Some(name) => names.insert(name),
        None => names,
    }
}

/// A workspace: the manifests of its members, and the names of its packages.
pub struct MembersView {
    pub manifests: Seq<Seq<char>>,
    pub names: Set<Seq<char>>,
}

/// A workspace, given by what its root manifest says and by the patterns of its
/// members.
pub open spec fn workspace_step(c: Cursor, entries: Entries, patterns: Seq<Seq<char>>) -> Next<
    Result<MembersView, ErrorView>,
> {
    members_step(c, patterns).and_ok(
        |manifests: Seq<Seq<char>>, c: Cursor|
            names_step(c, manifests, 0, Set::empty()).and_ok(
                |names: Set<Seq<char>>, c: Cursor|
                    Next::Done(
                        Ok(MembersView { manifests, names: with_name(names, entries) }),
                        c,
                    ),
            ),
    )
}

/// A workspace.
pub struct Members {
    pub manifests: Vec<String>,
    pub names: Vec<String>,
}

impl Model for Members {
    type M = MembersView;

    open spec fn model(&self) -> MembersView {
        MembersView {
            manifests: self.manifests.deep_view(),
            names: self.names.deep_view().to_set(),
        }
    }
}

/// To look up the names of packages is harmless.
pub broadcast proof fn lemma_names_calm(
    c: Cursor,
    manifests: Seq<Seq<char>>,
    i: int,
    names: Set<Seq<char>>,
)
    ensures
        (#[trigger] names_step(c, manifests, i, names)).calm(),
    decreases manifests.len() - i,
{
    if i < manifests.len() {
        if let Next::Done(Ok(doc), c2) = toml::doc_step(c, manifests[i]) {
            lemma_names_calm(c2, manifests, i + 1, with_name(names, doc.1));
        }
    }
}

/// Further answers change nothing in what has ended.
pub broadcast proof fn lemma_names_kept(
    c: Cursor,
    manifests: Seq<Seq<char>>,
    i: int,
    names: Set<Seq<char>>,
    more: Seq<Answer>,
)
    ensures
        names_step(c, manifests, i, names).kept(
            #[trigger] names_step(c.with(more), manifests, i, names),
            more,
        ),
    decreases manifests.len() - i,
{
    broadcast use session::lemma_past_with;

    if i < manifests.len() {
        if let Next::Done(Ok(doc), c2) = toml::doc_step(c, manifests[i]) {
            lemma_names_kept(c2, manifests, i + 1, with_name(names, doc.1), more);
        }
    }
}

fn member_manifests(s: &mut Session<'_>, patterns: &Vec<String>) -> (r: Step<
    Result<Vec<String>, Error>,
>)
    ensures
        session::step(r, final(s)@) == members_step(old(s)@, patterns.deep_view()),
{
    workspace::child_manifests(s, patterns, "Cargo.toml")
}

fn manifests_and_member_names(
    s: &mut Session<'_>,
    root: &toml::Doc,
    patterns: &Vec<String>,
) -> (r: Step<Result<Members, Error>>)
    ensures
        session::step(r, final(s)@) == workspace_step(
            old(s)@,
            root.model().1,
            patterns.deep_view(),
        ),
{
    let manifests = match member_manifests(s, patterns)? {
        Ok(manifests) => manifests,
        Err(e) => {
            return Ok(Err(e));
        },
    };
    let ghost all = manifests.deep_view();
    let ghost here = s@;
    let ghost whole = names_step(here, all, 0, Set::empty());
    let mut names = list0();
    let mut i: usize = 0;
    assert(names.deep_view().to_set() =~= Set::empty());
    while i < manifests.len()
        invariant
            i <= manifests.len(),
            all == manifests.deep_view(),
            members_step(old(s)@, patterns.deep_view()) == Next::Done(
                Ok::<Seq<Seq<char>>, ErrorView>(all),
                here,
            ),
            whole == names_step(here, all, 0, Set::empty()),
            whole == names_step(s@, all, i as int, names.deep_view().to_set()),
        decreases manifests.len() - i,
    {
        assert(all[i as int] == manifests@[i as int]@);
        match toml::read_doc(s, &manifests[i])? {
            Ok(doc) => {
                if let Some(name) = cargo_toml::package_name(doc.entries()) {
                    put_new(&mut names, name);
                }
            },
            Err(e) => {
                return Ok(Err(e));
            },
        }
        i = i + 1;
    }
    if let Some(name) = cargo_toml::package_name(root.entries()) {
        put_new(&mut names, name);
    }
    Ok(Ok(Members { manifests, names }))
}

// ---------------------------------------------------------------------------
// Reading and writing the version
// ---------------------------------------------------------------------------

/// The first version in the manifests from the one at `i` on.
pub open spec fn first_version_step(c: Cursor, manifests: Seq<Seq<char>>, i: int) -> Next<
    Result<Seq<char>, ErrorView>,
>
    decreases manifests.len() - i,
{
    if i >= manifests.len() {
        Next::Done(
            Err(ErrorOf::Absent("no [package].version found in workspace root or any member"@)),
            c,
        )
    } else {
        toml::doc_step(c, manifests[i]).and_ok(
            |doc: (Seq<char>, Entries), c: Cursor|
                match cargo_toml::version_in(doc.1) {
                    Some(version) => Next::Done(Ok(version), c),
                    None => first_version_step(c, manifests, i + 1),
                },
        )
    }
}

/// Read the version, given the root manifest.
pub open spec fn read_root_step(c: Cursor, entries: Entries) -> Next<
    Result<Seq<char>, ErrorView>,
> {
    match cargo_toml::layout_of(entries) {
        LayoutOf::WorkspacePackage => match cargo_toml::shared_version_in(entries) {
            Some(version) => Next::Done(Ok(version), c),
            None => Next::Done(
                Err(ErrorOf::Absent("no [workspace.package].version in Cargo.toml"@)),
                c,
            ),
        },
        LayoutOf::Package => match cargo_toml::version_in(entries) {
            Some(version) => Next::Done(Ok(version), c),
            None => Next::Done(Err(ErrorOf::Absent("no [package].version in Cargo.toml"@)), c),
        },
        LayoutOf::VirtualOrMembers(patterns) => match cargo_toml::version_in(entries) {
            Some(version) => Next::Done(Ok(version), c),
            None => members_step(c, patterns).and_ok(
                |manifests: Seq<Seq<char>>, c: Cursor| first_version_step(c, manifests, 0),
            ),
        },
    }
}

/// A member's manifest is to be written: for its dependencies alone, where the
/// version is inherited, or also for its own version.
pub open spec fn member_changes(
    entries: Entries,
    names: Set<Seq<char>>,
    inherited: bool,
    new: Seq<char>,
) -> bool {
    if inherited {
        cargo_toml::deps_change(entries, names, new)
    } else {
        cargo_toml::lockstep_changes(entries, names, new)
    }
}

/// The text of a member's manifest, if it is to be written.
pub open spec fn member_changed(
    t: Seq<char>,
    entries: Entries,
    names: Set<Seq<char>>,
    inherited: bool,
    new: Seq<char>,
) -> Option<Seq<char>> {
    if inherited {
        cargo_toml::deps_changed(t, entries, names, new)
    } else {
        cargo_toml::lockstep_changed(t, entries, names, new)
    }
}

/// Nothing is written yet: the root manifest is next, given what it says.
pub open spec fn root_is_next(c: Cursor, entries: Entries) -> bool {
    match cargo_toml::layout_of(entries) {
        LayoutOf::Package => true,
        LayoutOf::WorkspacePackage => found_all(
            workspace_step(c, entries, cargo_toml::members_in(entries)),
        ),
        LayoutOf::VirtualOrMembers(patterns) => found_all(workspace_step(c, entries, patterns)),
    }
}

/// The members are known, and there is no further answer.
pub open spec fn found_all(members: Next<Result<MembersView, ErrorView>>) -> bool {
    members matches Next::Done(Ok(_), c) && !c.answered()
}

/// The text that is to be written has the new version, as far as a version is
/// read from it. The root manifest is written first, if at all. Each other
/// manifest is written right after it was read.
pub open spec fn writes_version(c: Cursor, t: Seq<char>, new: Seq<char>) -> bool {
    toml::doc_step(c, "Cargo.toml"@) matches Next::Done(Ok(root), c2) && (toml::entries_in(
        t,
    ) matches Ok(after) && if root_is_next(c2, root.1) {
        cargo_toml::renewed_root(root.1, after, new)
    } else {
        cargo_toml::layout_of(root.1) is WorkspacePackage || renews_last(c, after, new)
    })
}

/// The manifest that was read last gets the new version.
pub open spec fn renews_last(c: Cursor, after: Entries, new: Seq<char>) -> bool {
    c.answers.len() > 0 && (c.answers.last() matches Answer::Text(t) && (toml::entries_in(
        t@,
    ) matches Ok(before) && cargo_toml::renewed_own(before, after, new)))
}

/// Write a version into the manifests of the members from the one at `i` on in
/// which something changes.
pub open spec fn write_members_step(
    c: Cursor,
    members: MembersView,
    i: int,
    inherited: bool,
    new: Seq<char>,
) -> Next<Result<(), ErrorView>>
    decreases members.manifests.len() - i,
{
    if i >= members.manifests.len() {
        Next::Done(Ok(()), c)
    } else {
        toml::doc_step(c, members.manifests[i]).and_ok(
            |doc: (Seq<char>, Entries), c: Cursor|
                match member_changed(doc.0, doc.1, members.names, inherited, new) {
                    Some(t) => c.write(members.manifests[i], t).and_ok(
                        |u: (), c: Cursor| write_members_step(c, members, i + 1, inherited, new),
                    ),
                    None => write_members_step(c, members, i + 1, inherited, new),
                },
        )
    }
}

/// Write a version, given the root manifest.
pub open spec fn write_root_step(c: Cursor, t: Seq<char>, entries: Entries, new: Seq<char>) -> Next<
    Result<(), ErrorView>,
> {
    match cargo_toml::layout_of(entries) {
        LayoutOf::WorkspacePackage => workspace_step(
            c,
            entries,
            cargo_toml::members_in(entries),
        ).and_ok(
            |members: MembersView, c: Cursor|
                c.write(
                    "Cargo.toml"@,
                    cargo_toml::with_all(
                        t,
                        cargo_toml::shared_slots(entries, members.names),
                        new,
                    ),
                ).and_ok(|u: (), c: Cursor| write_members_step(c, members, 0, true, new)),
        ),
        LayoutOf::Package => match cargo_toml::package_changed(t, entries, new) {
            Some(after) => c.write("Cargo.toml"@, after),
            None => Next::Done(Err(ErrorOf::Absent("[package] missing in Cargo.toml"@)), c),
        },
        LayoutOf::VirtualOrMembers(patterns) => workspace_step(c, entries, patterns).and_ok(
            |members: MembersView, c: Cursor|
                match cargo_toml::lockstep_changed(t, entries, members.names, new) {
                    Some(after) => c.write("Cargo.toml"@, after).and_ok(
                        |u: (), c: Cursor| write_members_step(c, members, 0, false, new),
                    ),
                    None => write_members_step(c, members, 0, false, new),
                },
        ),
    }
}

/// Add those of the members' manifests from the one at `i` on in which
/// something changes.
pub open spec fn preview_members_step(
    c: Cursor,
    members: MembersView,
    i: int,
    inherited: bool,
    new: Seq<char>,
    out: Seq<Seq<char>>,
) -> Next<Result<Seq<Seq<char>>, ErrorView>>
    decreases members.manifests.len() - i,
{
    if i >= members.manifests.len() {
        Next::Done(Ok(out), c)
    } else {
        toml::doc_step(c, members.manifests[i]).and_ok(
            |doc: (Seq<char>, Entries), c: Cursor|
                preview_members_step(
                    c,
                    members,
                    i + 1,
                    inherited,
                    new,
                    if member_changes(doc.1, members.names, inherited, new) {
                        out.push(members.manifests[i])
                    } else {
                        out
                    },
                ),
        )
    }
}

/// The manifests of members that a new version changes.
pub open spec fn previews_step(c: Cursor, entries: Entries, new: Seq<char>) -> Next<
    Result<Seq<Seq<char>>, ErrorView>,
> {
    match cargo_toml::layout_of(entries) {
        LayoutOf::Package => Next::Done(Ok(Seq::empty()), c),
        LayoutOf::WorkspacePackage => workspace_step(
            c,
            entries,
            cargo_toml::members_in(entries),
        ).and_ok(
            |members: MembersView, c: Cursor|
                preview_members_step(c, members, 0, true, new, Seq::empty()),
        ),
        LayoutOf::VirtualOrMembers(patterns) => workspace_step(c, entries, patterns).and_ok(
            |members: MembersView, c: Cursor|
                preview_members_step(c, members, 0, false, new, Seq::empty()),
        ),
    }
}

/// To look for a version is harmless.
pub broadcast proof fn lemma_first_version_calm(c: Cursor, manifests: Seq<Seq<char>>, i: int)
    ensures
        (#[trigger] first_version_step(c, manifests, i)).calm(),
    decreases manifests.len() - i,
{
    if i < manifests.len() {
        if let Next::Done(Ok(doc), c2) = toml::doc_step(c, manifests[i]) {
            lemma_first_version_calm(c2, manifests, i + 1);
        }
    }
}

/// Further answers change nothing in what has ended.
pub broadcast proof fn lemma_first_version_kept(
    c: Cursor,
    manifests: Seq<Seq<char>>,
    i: int,
    more: Seq<Answer>,
)
    ensures
        first_version_step(c, manifests, i).kept(
            #[trigger] first_version_step(c.with(more), manifests, i),
            more,
        ),
    decreases manifests.len() - i,
{
    broadcast use session::lemma_past_with;

    if i < manifests.len() {
        if let Next::Done(Ok(doc), c2) = toml::doc_step(c, manifests[i]) {
            lemma_first_version_kept(c2, manifests, i + 1, more);
        }
    }
}

/// To write a version into the members runs no program.
pub broadcast proof fn lemma_write_members_asks(
    c: Cursor,
    members: MembersView,
    i: int,
    inherited: bool,
    new: Seq<char>,
)
    ensures
        (#[trigger] write_members_step(c, members, i, inherited, new)).runs_only(None),
    decreases members.manifests.len() - i,
{
    if i < members.manifests.len() {
        if let Next::Done(Ok(doc), c2) = toml::doc_step(c, members.manifests[i]) {
            lemma_write_members_asks(c2, members, i + 1, inherited, new);
            lemma_write_members_asks(c2.past(), members, i + 1, inherited, new);
        }
    }
}

/// Further answers change nothing in what has ended.
pub broadcast proof fn lemma_write_members_kept(
    c: Cursor,
    members: MembersView,
    i: int,
    inherited: bool,
    new: Seq<char>,
    more: Seq<Answer>,
)
    ensures
        write_members_step(c, members, i, inherited, new).kept(
            #[trigger] write_members_step(c.with(more), members, i, inherited, new),
            more,
        ),
    decreases members.manifests.len() - i,
{
    broadcast use session::lemma_past_with;

    if i < members.manifests.len() {
        if let Next::Done(Ok(doc), c2) = toml::doc_step(c, members.manifests[i]) {
            lemma_write_members_kept(c2, members, i + 1, inherited, new, more);
            lemma_write_members_kept(c2.past(), members, i + 1, inherited, new, more);
        }
    }
}

/// To look for the manifests that would change is harmless.
pub broadcast proof fn lemma_preview_members_calm(
    c: Cursor,
    members: MembersView,
    i: int,
    inherited: bool,
    new: Seq<char>,
    out: Seq<Seq<char>>,
)
    ensures
        (#[trigger] preview_members_step(c, members, i, inherited, new, out)).calm(),
    decreases members.manifests.len() - i,
{
    if i < members.manifests.len() {
        let more = out.push(members.manifests[i]);
        if let Next::Done(Ok(doc), c2) = toml::doc_step(c, members.manifests[i]) {
            lemma_preview_members_calm(c2, members, i + 1, inherited, new, out);
            lemma_preview_members_calm(c2, members, i + 1, inherited, new, more);
        }
    }
}

/// Further answers change nothing in what has ended.
pub broadcast proof fn lemma_preview_members_kept(
    c: Cursor,
    members: MembersView,
    i: int,
    inherited: bool,
    new: Seq<char>,
    out: Seq<Seq<char>>,
    more: Seq<Answer>,
)
    ensures
        preview_members_step(c, members, i, inherited, new, out).kept(
            #[trigger] preview_members_step(c.with(more), members, i, inherited, new, out),
            more,
        ),
    decreases members.manifests.len() - i,
{
    broadcast use session::lemma_past_with;

    if i < members.manifests.len() {
        let longer = out.push(members.manifests[i]);
        if let Next::Done(Ok(doc), c2) = toml::doc_step(c, members.manifests[i]) {
            lemma_preview_members_kept(c2, members, i + 1, inherited, new, out, more);
            lemma_preview_members_kept(c2, members, i + 1, inherited, new, longer, more);
        }
    }
}

fn first_version(s: &mut Session<'_>, manifests: &Vec<String>) -> (r: Step<Result<String, Error>>)
    ensures
        session::step(r, final(s)@) == first_version_step(old(s)@, manifests.deep_view(), 0),
{
    let ghost all = manifests.deep_view();
    let ghost whole = first_version_step(s@, all, 0);
    let mut i: usize = 0;
    while i < manifests.len()
        invariant
            i <= manifests.len(),
            all == manifests.deep_view(),
            whole == first_version_step(old(s)@, all, 0),
            whole == first_version_step(s@, all, i as int),
        decreases manifests.len() - i,
    {
        assert(all[i as int] == manifests@[i as int]@);
        match toml::read_doc(s, &manifests[i])? {
            Ok(doc) => {
                if let Some(version) = cargo_toml::package_version(doc.entries()) {
                    return Ok(Ok(version));
                }
            },
            Err(e) => {
                return Ok(Err(e));
            },
        }
        i = i + 1;
    }
    Ok(
        Err(
            ErrorOf::Absent(own("no [package].version found in workspace root or any member")),
        ),
    )
}

fn rewrite_member(doc: &toml::Doc, names: &Vec<String>, inherited: bool, new: &str) -> (r: Option<
    String,
>)
    ensures
        r.model() == member_changed(
            doc.model().0,
            doc.model().1,
            names.deep_view().to_set(),
            inherited,
            new@,
        ),
        r matches Some(t) ==> toml::entries_in(t@) matches Ok(after) && (!inherited
            ==> cargo_toml::renewed_own(doc.model().1, after, new@)),
{
    if inherited {
        cargo_toml::rewrite_intra_workspace_dep_versions(doc, names, new)
    } else {
        cargo_toml::rewrite_in_lockstep(doc, names, new)
    }
}

/// Write the members' manifests in which something changes. Where the version
/// is not inherited, each of them has the new version if it had one.
fn write_members(s: &mut Session<'_>, members: &Members, inherited: bool, new: &str) -> (r: Step<
    Result<(), Error>,
>)
    ensures
        session::step(r, final(s)@) == write_members_step(
            old(s)@,
            members.model(),
            0,
            inherited,
            new@,
        ),
        r matches Err(AskOf::Write(_, t)) ==> toml::entries_in(t@) matches Ok(after) && (
        !inherited ==> renews_last(old(s)@, after, new@)),
        r is Err ==> old(s)@.answered() || (r matches Err(AskOf::Read(_))),
{
    let ghost all = members.model();
    let ghost whole = write_members_step(s@, all, 0, inherited, new@);
    let mut i: usize = 0;
    assert(all.manifests.len() == members.manifests.len());
    while i < members.manifests.len()
        invariant
            i <= members.manifests.len(),
            all == members.model(),
            all.manifests.len() == members.manifests.len(),
            whole == write_members_step(old(s)@, all, 0, inherited, new@),
            whole == write_members_step(s@, all, i as int, inherited, new@),
            s@.answers == old(s)@.answers,
            s@.at >= old(s)@.at,
            s@.at > old(s)@.at ==> old(s)@.answered(),
        decreases members.manifests.len() - i,
    {
        let path = &members.manifests[i];
        assert(all.manifests[i as int] == path@);
        let doc = match toml::read_doc(s, path)? {
            Ok(doc) => doc,
            Err(e) => {
                return Ok(Err(e));
            },
        };
        if let Some(t) = rewrite_member(&doc, &members.names, inherited, new) {
            if let Err(e) = s.write(path, &t)? {
                return Ok(Err(e));
            }
        }
        i = i + 1;
    }
    Ok(Ok(()))
}

fn preview_members(s: &mut Session<'_>, members: &Members, inherited: bool, new: &str) -> (r: Step<
    Result<Vec<String>, Error>,
>)
    ensures
        session::step(r, final(s)@) == preview_members_step(
            old(s)@,
            members.model(),
            0,
            inherited,
            new@,
            Seq::empty(),
        ),
{
    let ghost all = members.model();
    let ghost whole = preview_members_step(s@, all, 0, inherited, new@, Seq::empty());
    let mut out = list0();
    let mut i: usize = 0;
    assert(all.manifests.len() == members.manifests.len());
    while i < members.manifests.len()
        invariant
            i <= members.manifests.len(),
            all == members.model(),
            all.manifests.len() == members.manifests.len(),
            whole == preview_members_step(old(s)@, all, 0, inherited, new@, Seq::empty()),
            whole == preview_members_step(s@, all, i as int, inherited, new@, out.deep_view()),
        decreases members.manifests.len() - i,
    {
        let path = &members.manifests[i];
        assert(all.manifests[i as int] == path@);
        let doc = match toml::read_doc(s, path)? {
            Ok(doc) => doc,
            Err(e) => {
                return Ok(Err(e));
            },
        };
        let changes = if inherited {
            cargo_toml::do_deps_change(doc.entries(), &members.names, new)
        } else {
            cargo_toml::does_lockstep_change(doc.entries(), &members.names, new)
        };
        if changes {
            put(&mut out, path.clone());
        }
        i = i + 1;
    }
    Ok(Ok(out))
}

/// Write a version that members inherit. The root manifest, which is written
/// first, has the new version.
fn write_shared(s: &mut Session<'_>, root: &toml::Doc, new: &str) -> (r: Step<Result<(), Error>>)
    requires
        cargo_toml::layout_of(root.model().1) is WorkspacePackage,
    ensures
        session::step(r, final(s)@) == write_root_step(
            old(s)@,
            root.model().0,
            root.model().1,
            new@,
        ),
        r matches Err(AskOf::Write(_, t)) ==> toml::entries_in(t@) matches Ok(after) && (
        root_is_next(old(s)@, root.model().1) ==> cargo_toml::renewed_root(
            root.model().1,
            after,
            new@,
        )),
{
    broadcast use {workspace::lemma_patterns_calm, lemma_names_calm};

    let patterns = cargo_toml::workspace_members(root.entries());
    let members = match manifests_and_member_names(s, root, &patterns)? {
        Ok(members) => members,
        Err(e) => {
            return Ok(Err(e));
        },
    };
    let t = cargo_toml::rewrite_shared(root, &members.names, new);
    match s.write("Cargo.toml", &t)? {
        Ok(()) => write_members(s, &members, true, new),
        Err(e) => Ok(Err(e)),
    }
}

/// Write a version into all manifests. Each of them has the new version if it
/// had one.
fn write_lockstep(
    s: &mut Session<'_>,
    root: &toml::Doc,
    patterns: &Vec<String>,
    new: &str,
) -> (r: Step<Result<(), Error>>)
    requires
        cargo_toml::layout_of(root.model().1) == (LayoutOf::VirtualOrMembers(
            patterns.deep_view(),
        )),
    ensures
        session::step(r, final(s)@) == write_root_step(
            old(s)@,
            root.model().0,
            root.model().1,
            new@,
        ),
        r matches Err(AskOf::Write(_, t)) ==> toml::entries_in(t@) matches Ok(after) && if (
        root_is_next(old(s)@, root.model().1)) {
            cargo_toml::renewed_root(root.model().1, after, new@)
        } else {
            renews_last(old(s)@, after, new@)
        },
{
    broadcast use {workspace::lemma_patterns_calm, lemma_names_calm};

    proof {
        lemma_workspace_answers(s@, root.model().1, patterns.deep_view());
    }
    let members = match manifests_and_member_names(s, root, patterns)? {
        Ok(members) => members,
        Err(e) => {
            return Ok(Err(e));
        },
    };
    if let Some(t) = cargo_toml::rewrite_in_lockstep(root, &members.names, new) {
        if let Err(e) = s.write("Cargo.toml", &t)? {
            return Ok(Err(e));
        }
    }
    write_members(s, &members, false, new)
}

// ---------------------------------------------------------------------------
// Publishing
// ---------------------------------------------------------------------------

/// A member, with all that it depends on.
pub open spec fn member(manifest: Seq<char>, entries: Entries) -> PackageView {
    PackageView {
        place: manifest,
        name: cargo_toml::name_in(entries),
        intra_deps: cargo_toml::dep_names_in(entries),
    }
}

/// Add the packages of the manifests from the one at `i` on.
pub open spec fn packages_step(
    c: Cursor,
    manifests: Seq<Seq<char>>,
    i: int,
    out: Seq<PackageView>,
) -> Next<Result<Seq<PackageView>, ErrorView>>
    decreases manifests.len() - i,
{
    if i >= manifests.len() {
        Next::Done(Ok(out), c)
    } else {
        toml::doc_step(c, manifests[i]).and_ok(
            |doc: (Seq<char>, Entries), c: Cursor|
                packages_step(c, manifests, i + 1, out.push(member(manifests[i], doc.1))),
        )
    }
}

/// Packages, each after those that it depends on.
pub open spec fn ordered(pkgs: Seq<PackageView>) -> Result<Seq<PackageView>, ErrorView> {
    match packages::publish_order(pkgs, false) {
        Ok(sorted) => Ok(sorted),
        Err(stuck) => Err(ErrorOf::Cycle("members"@, stuck)),
    }
}

/// The members, each after those that it depends on.
pub open spec fn ordered_step(c: Cursor, patterns: Seq<Seq<char>>) -> Next<
    Result<Seq<PackageView>, ErrorView>,
> {
    members_step(c, patterns).and_ok(
        |manifests: Seq<Seq<char>>, c: Cursor|
            packages_step(c, manifests, 0, Seq::empty()).and_ok(
                |pkgs: Seq<PackageView>, c: Cursor| Next::Done(ordered(pkgs), c),
            ),
    )
}

/// Publish the packages from the one at `i` on. One without a name is skipped
/// with a warning.
pub open spec fn publish_each_step(c: Cursor, pkgs: Seq<PackageView>, i: int) -> Next<
    Result<(), ErrorView>,
>
    decreases pkgs.len() - i,
{
    if i >= pkgs.len() {
        Next::Done(Ok(()), c)
    } else {
        match pkgs[i].name {
            None => c.warn(
                "warning: skipping publish of "@ + pkgs[i].place + " (no [package].name)"@,
            ).and(|u: (), c: Cursor| publish_each_step(c, pkgs, i + 1)),
            Some(name) => c.run(""@, "cargo"@, seq!["publish"@, "-p"@, name]).and_ok(
                |u: (), c: Cursor| publish_each_step(c, pkgs, i + 1),
            ),
        }
    }
}

/// Publish the members.
pub open spec fn publish_members_step(c: Cursor, patterns: Seq<Seq<char>>) -> Next<
    Result<(), ErrorView>,
> {
    ordered_step(c, patterns).and_ok(
        |pkgs: Seq<PackageView>, c: Cursor| publish_each_step(c, pkgs, 0),
    )
}

/// How publishing the first `n` packages is shown.
pub open spec fn commands_of(pkgs: Seq<PackageView>, n: int) -> Seq<Seq<char>>
    decreases n,
{
    if n <= 0 {
        Seq::empty()
    } else {
        match pkgs[n - 1].name {
            Some(name) => commands_of(pkgs, n - 1).push("cargo publish -p "@ + name),
            None => commands_of(pkgs, n - 1),
        }
    }
}

/// How publishing packages is shown.
pub open spec fn shown_commands(pkgs: Seq<PackageView>) -> Seq<char> {
    let commands = commands_of(pkgs, pkgs.len() as int);
    if commands.len() == 0 {
        "cargo publish"@
    } else {
        text::joined(commands, " && "@)
    }
}

/// How publishing the members is shown.
pub open spec fn preview_publish_step(c: Cursor, patterns: Seq<Seq<char>>) -> Next<
    Result<Option<Seq<char>>, ErrorView>,
> {
    ordered_step(c, patterns).and_ok(
        |pkgs: Seq<PackageView>, c: Cursor| Next::Done(Ok(Some(shown_commands(pkgs))), c),
    )
}

/// Whether a member from the one at `i` on can be published. `refused` tells
/// whether one before must not be; members without a name do not count.
pub open spec fn some_publishable_step(
    c: Cursor,
    manifests: Seq<Seq<char>>,
    i: int,
    refused: bool,
) -> Next<Result<bool, ErrorView>>
    decreases manifests.len() - i,
{
    if i >= manifests.len() {
        Next::Done(Ok(!refused), c)
    } else {
        toml::doc_step(c, manifests[i]).and_ok(
            |doc: (Seq<char>, Entries), c: Cursor|
                if cargo_toml::name_in(doc.1) is None {
                    some_publishable_step(c, manifests, i + 1, refused)
                } else if cargo_toml::opts_out(doc.1) {
                    some_publishable_step(c, manifests, i + 1, true)
                } else {
                    Next::Done(Ok(true), c)
                },
        )
    }
}

/// Whether the members can be published: not if all that have a name say
/// `publish = false`.
pub open spec fn members_publishable_step(c: Cursor, patterns: Seq<Seq<char>>) -> Next<
    Result<bool, ErrorView>,
> {
    members_step(c, patterns).and_ok(
        |manifests: Seq<Seq<char>>, c: Cursor| some_publishable_step(c, manifests, 0, false),
    )
}

/// To look for packages is harmless.
pub broadcast proof fn lemma_packages_calm(
    c: Cursor,
    manifests: Seq<Seq<char>>,
    i: int,
    out: Seq<PackageView>,
)
    ensures
        (#[trigger] packages_step(c, manifests, i, out)).calm(),
    decreases manifests.len() - i,
{
    if i < manifests.len() {
        if let Next::Done(Ok(doc), c2) = toml::doc_step(c, manifests[i]) {
            lemma_packages_calm(c2, manifests, i + 1, out.push(member(manifests[i], doc.1)));
        }
    }
}

/// Further answers change nothing in what has ended.
pub broadcast proof fn lemma_packages_kept(
    c: Cursor,
    manifests: Seq<Seq<char>>,
    i: int,
    out: Seq<PackageView>,
    more: Seq<Answer>,
)
    ensures
        packages_step(c, manifests, i, out).kept(
            #[trigger] packages_step(c.with(more), manifests, i, out),
            more,
        ),
    decreases manifests.len() - i,
{
    broadcast use session::lemma_past_with;

    if i < manifests.len() {
        if let Next::Done(Ok(doc), c2) = toml::doc_step(c, manifests[i]) {
            lemma_packages_kept(c2, manifests, i + 1, out.push(member(manifests[i], doc.1)), more);
        }
    }
}

/// To publish leaves the files and the repository as they are.
pub broadcast proof fn lemma_publish_each_keeps(c: Cursor, pkgs: Seq<PackageView>, i: int)
    ensures
        (#[trigger] publish_each_step(c, pkgs, i)).keeps(),
    decreases pkgs.len() - i,
{
    if i < pkgs.len() {
        lemma_publish_each_keeps(c.past(), pkgs, i + 1);
    }
}

/// Further answers change nothing in what has ended.
pub broadcast proof fn lemma_publish_each_kept(
    c: Cursor,
    pkgs: Seq<PackageView>,
    i: int,
    more: Seq<Answer>,
)
    ensures
        publish_each_step(c, pkgs, i).kept(
            #[trigger] publish_each_step(c.with(more), pkgs, i),
            more,
        ),
    decreases pkgs.len() - i,
{
    broadcast use session::lemma_past_with;

    if i < pkgs.len() {
        lemma_publish_each_kept(c.past(), pkgs, i + 1, more);
    }
}

/// To look for a package to publish is harmless.
pub broadcast proof fn lemma_some_publishable_calm(
    c: Cursor,
    manifests: Seq<Seq<char>>,
    i: int,
    refused: bool,
)
    ensures
        (#[trigger] some_publishable_step(c, manifests, i, refused)).calm(),
    decreases manifests.len() - i,
{
    if i < manifests.len() {
        if let Next::Done(Ok(doc), c2) = toml::doc_step(c, manifests[i]) {
            lemma_some_publishable_calm(c2, manifests, i + 1, refused);
            lemma_some_publishable_calm(c2, manifests, i + 1, true);
        }
    }
}

/// Further answers change nothing in what has ended.
pub broadcast proof fn lemma_some_publishable_kept(
    c: Cursor,
    manifests: Seq<Seq<char>>,
    i: int,
    refused: bool,
    more: Seq<Answer>,
)
    ensures
        some_publishable_step(c, manifests, i, refused).kept(
            #[trigger] some_publishable_step(c.with(more), manifests, i, refused),
            more,
        ),
    decreases manifests.len() - i,
{
    broadcast use session::lemma_past_with;

    if i < manifests.len() {
        if let Next::Done(Ok(doc), c2) = toml::doc_step(c, manifests[i]) {
            lemma_some_publishable_kept(c2, manifests, i + 1, refused, more);
            lemma_some_publishable_kept(c2, manifests, i + 1, true, more);
        }
    }
}

/// Order packages so that each comes after those that it depends on.
pub fn topo_sort_members(pkgs: &Vec<Package>) -> (r: Result<Vec<Package>, Error>)
    ensures
        r.model() == ordered(pkgs.model()),
{
    match sort_packages(pkgs, false) {
        Ok(sorted) => Ok(sorted),
        Err(stuck) => Err(ErrorOf::Cycle(own("members"), stuck)),
    }
}

/// The members, each after those that it depends on.
pub fn ordered_member_names(s: &mut Session<'_>, patterns: &Vec<String>) -> (r: Step<
    Result<Vec<Package>, Error>,
>)
    ensures
        session::step(r, final(s)@) == ordered_step(old(s)@, patterns.deep_view()),
{
    let manifests = match member_manifests(s, patterns)? {
        Ok(manifests) => manifests,
        Err(e) => {
            return Ok(Err(e));
        },
    };
    let ghost all = manifests.deep_view();
    let ghost here = s@;
    let ghost whole = packages_step(here, all, 0, Seq::empty());
    let mut pkgs: Vec<Package> = Vec::new();
    let mut i: usize = 0;
    assert(pkgs.model() =~= Seq::empty());
    while i < manifests.len()
        invariant
            i <= manifests.len(),
            all == manifests.deep_view(),
            members_step(old(s)@, patterns.deep_view()) == Next::Done(
                Ok::<Seq<Seq<char>>, ErrorView>(all),
                here,
            ),
            whole == packages_step(here, all, 0, Seq::empty()),
            whole == packages_step(s@, all, i as int, pkgs.model()),
        decreases manifests.len() - i,
    {
        assert(all[i as int] == manifests@[i as int]@);
        let doc = match toml::read_doc(s, &manifests[i])? {
            Ok(doc) => doc,
            Err(e) => {
                return Ok(Err(e));
            },
        };
        let ghost before = pkgs.model();
        let pkg = Package {
            place: manifests[i].clone(),
            name: cargo_toml::package_name(doc.entries()),
            intra_deps: cargo_toml::member_dep_names(doc.entries()),
        };
        assert(pkg.model() == member(all[i as int], doc.model().1));
        pkgs.push(pkg);
        assert(pkgs.model() =~= before.push(pkg.model()));
        i = i + 1;
    }
    Ok(topo_sort_members(&pkgs))
}

fn publish_each_member(s: &mut Session<'_>, patterns: &Vec<String>) -> (r: Step<
    Result<(), Error>,
>)
    ensures
        session::step(r, final(s)@) == publish_members_step(old(s)@, patterns.deep_view()),
{
    let pkgs = match ordered_member_names(s, patterns)? {
        Ok(pkgs) => pkgs,
        Err(e) => {
            return Ok(Err(e));
        },
    };
    let ghost all = pkgs.model();
    let ghost here = s@;
    let ghost whole = publish_each_step(here, all, 0);
    let mut i: usize = 0;
    while i < pkgs.len()
        invariant
            i <= pkgs.len(),
            all == pkgs.model(),
            publish_members_step(old(s)@, patterns.deep_view()) == whole,
            whole == publish_each_step(s@, all, i as int),
        decreases pkgs.len() - i,
    {
        assert(all[i as int] == pkgs@[i as int].model());
        match &pkgs[i].name {
            None => {
                s.warn(
                    &plus3(
                        "warning: skipping publish of ",
                        &pkgs[i].place,
                        " (no [package].name)",
                    ),
                )?;
            },
            Some(name) => {
                if let Err(e) = s.run("", "cargo", list3("publish", "-p", name))? {
                    return Ok(Err(e));
                }
            },
        }
        i = i + 1;
    }
    Ok(Ok(()))
}

/// How publishing packages is shown.
pub fn preview(pkgs: &Vec<Package>) -> (r: String)
    ensures
        r@ == shown_commands(pkgs.model()),
{
    let ghost all = pkgs.model();
    let mut commands = list0();
    let mut i: usize = 0;
    while i < pkgs.len()
        invariant
            i <= pkgs.len(),
            all == pkgs.model(),
            commands.deep_view() == commands_of(all, i as int),
        decreases pkgs.len() - i,
    {
        assert(all[i as int] == pkgs@[i as int].model());
        if let Some(name) = &pkgs[i].name {
            put(&mut commands, plus("cargo publish -p ", name));
        }
        i = i + 1;
    }
    assert(commands.deep_view().len() == commands.len());
    if commands.len() == 0 {
        own("cargo publish")
    } else {
        join(&commands, " && ")
    }
}

fn member_publish_preview(s: &mut Session<'_>, patterns: &Vec<String>) -> (r: Step<
    Result<Option<String>, Error>,
>)
    ensures
        session::step(r, final(s)@) == preview_publish_step(old(s)@, patterns.deep_view()),
{
    match ordered_member_names(s, patterns)? {
        Ok(pkgs) => Ok(Ok(Some(preview(&pkgs)))),
        Err(e) => Ok(Err(e)),
    }
}

fn members_publishable(s: &mut Session<'_>, patterns: &Vec<String>) -> (r: Step<
    Result<bool, Error>,
>)
    ensures
        session::step(r, final(s)@) == members_publishable_step(old(s)@, patterns.deep_view()),
{
    let manifests = match member_manifests(s, patterns)? {
        Ok(manifests) => manifests,
        Err(e) => {
            return Ok(Err(e));
        },
    };
    let ghost all = manifests.deep_view();
    let ghost whole = some_publishable_step(s@, all, 0, false);
    let mut refused = false;
    let mut i: usize = 0;
    while i < manifests.len()
        invariant
            i <= manifests.len(),
            all == manifests.deep_view(),
            members_publishable_step(old(s)@, patterns.deep_view()) == whole,
            whole == some_publishable_step(s@, all, i as int, refused),
        decreases manifests.len() - i,
    {
        assert(all[i as int] == manifests@[i as int]@);
        match toml::read_doc(s, &manifests[i])? {
            Ok(doc) => {
                if let Some(_) = cargo_toml::package_name(doc.entries()) {
                    if !cargo_toml::is_opted_out(doc.entries()) {
                        return Ok(Ok(true));
                    }
                    refused = true;
                }
            },
            Err(e) => {
                return Ok(Err(e));
            },
        }
        i = i + 1;
    }
    Ok(Ok(!refused))
}

// ---------------------------------------------------------------------------
// cargo
// ---------------------------------------------------------------------------

/// The patterns of the members, if the manifest is that of a workspace.
pub open spec fn patterns_in(entries: Entries) -> Option<Seq<Seq<char>>> {
    match cargo_toml::layout_of(entries) {
        LayoutOf::Package => None,
        LayoutOf::WorkspacePackage => Some(cargo_toml::members_in(entries)),
        LayoutOf::VirtualOrMembers(patterns) => Some(patterns),
    }
}

/// The manifests to stage. What cannot be read is left out with a warning.
pub open spec fn manifests_step(c: Cursor) -> Next<Seq<Seq<char>>> {
    toml::doc_step(c, "Cargo.toml"@).and(
        |doc: Result<(Seq<char>, Entries), ErrorView>, c: Cursor|
            match doc {
                Ok(doc) => match patterns_in(doc.1) {
                    None => Next::Done(seq!["Cargo.toml"@], c),
                    Some(patterns) => members_step(c, patterns).and(
                        |members: Result<Seq<Seq<char>>, ErrorView>, c: Cursor|
                            match members {
                                Ok(members) => Next::Done(seq!["Cargo.toml"@] + members, c),
                                Err(e) => c.warn(
                                    "warning: failed to expand cargo workspace members at "@
                                        + c.root + ": "@ + error::message_of(e),
                                ).and(|u: (), c: Cursor| Next::Done(seq!["Cargo.toml"@], c)),
                            },
                    ),
                },
                Err(e) => c.warn(
                    "warning: failed to read Cargo.toml at "@ + c.root + ": "@
                        + error::message_of(e),
                ).and(|u: (), c: Cursor| Next::Done(seq!["Cargo.toml"@], c)),
            },
    )
}

/// Publish, given the root manifest.
pub open spec fn publish_root_step(c: Cursor, entries: Entries) -> Next<Result<(), ErrorView>> {
    match cargo_toml::layout_of(entries) {
        LayoutOf::WorkspacePackage => match cargo_toml::name_in(entries) {
            Some(name) => c.run(""@, "cargo"@, seq!["publish"@, "-p"@, name]),
            None => publish_members_step(c, cargo_toml::members_in(entries)),
        },
        LayoutOf::Package => c.run(""@, "cargo"@, seq!["publish"@]),
        LayoutOf::VirtualOrMembers(patterns) => publish_members_step(c, patterns),
    }
}

/// How publishing is shown, given the root manifest.
pub open spec fn preview_root_step(c: Cursor, entries: Entries) -> Next<
    Result<Option<Seq<char>>, ErrorView>,
> {
    match cargo_toml::layout_of(entries) {
        LayoutOf::WorkspacePackage => match cargo_toml::name_in(entries) {
            Some(name) => Next::Done(Ok(Some("cargo publish -p "@ + name)), c),
            None => preview_publish_step(c, cargo_toml::members_in(entries)),
        },
        LayoutOf::Package => Next::Done(Ok(Some("cargo publish"@)), c),
        LayoutOf::VirtualOrMembers(patterns) => preview_publish_step(c, patterns),
    }
}

/// Whether there is anything to publish, given the root manifest: not if what
/// would be published says `publish = false`.
pub open spec fn publishable_root_step(c: Cursor, entries: Entries) -> Next<
    Result<bool, ErrorView>,
> {
    match cargo_toml::layout_of(entries) {
        LayoutOf::WorkspacePackage => match cargo_toml::name_in(entries) {
            Some(_) => Next::Done(Ok(!cargo_toml::opts_out(entries)), c),
            None => members_publishable_step(c, cargo_toml::members_in(entries)),
        },
        LayoutOf::Package => Next::Done(Ok(!cargo_toml::opts_out(entries)), c),
        LayoutOf::VirtualOrMembers(patterns) => members_publishable_step(c, patterns),
    }
}

fn workspace_patterns(root: &toml::Doc) -> (r: Option<Vec<String>>)
    ensures
        r.model() == patterns_in(root.model().1),
{
    match cargo_toml::classify(root.entries()) {
        LayoutOf::Package => None,
        LayoutOf::WorkspacePackage => Some(cargo_toml::workspace_members(root.entries())),
        LayoutOf::VirtualOrMembers(patterns) => Some(patterns),
    }
}

fn manifests(s: &mut Session<'_>) -> (r: Step<Vec<String>>)
    ensures
        session::step(r, final(s)@) == manifests_step(old(s)@),
{
    match toml::read_doc(s, "Cargo.toml")? {
        Ok(doc) => {
            let patterns = match workspace_patterns(&doc) {
                Some(patterns) => patterns,
                None => {
                    return Ok(list1("Cargo.toml"));
                },
            };
            match member_manifests(s, &patterns)? {
                Ok(members) => {
                    let mut all = list1("Cargo.toml");
                    append(&mut all, members);
                    return Ok(all);
                },
                Err(e) => {
                    s.warn(
                        &plus(
                            &plus3(
                                "warning: failed to expand cargo workspace members at ",
                                s.root(),
                                ": ",
                            ),
                            &e.message(),
                        ),
                    )?;
                },
            }
        },
        Err(e) => {
            s.warn(
                &plus(
                    &plus3("warning: failed to read Cargo.toml at ", s.root(), ": "),
                    &e.message(),
                ),
            )?;
        },
    }
    Ok(list1("Cargo.toml"))
}

/// To look for a workspace leaves the answers as they are.
proof fn lemma_workspace_answers(c: Cursor, entries: Entries, patterns: Seq<Seq<char>>)
    ensures
        workspace_step(c, entries, patterns) matches Next::Done(_, c2) ==> c2.answers
            == c.answers,
{
    workspace::lemma_patterns_answers(c, patterns, 0, Seq::empty(), "Cargo.toml"@);
    if let Next::Done(Ok(manifests), c2) = members_step(c, patterns) {
        lemma_names_answers(c2, manifests, 0, Set::empty());
    }
}

proof fn lemma_names_answers(
    c: Cursor,
    manifests: Seq<Seq<char>>,
    i: int,
    names: Set<Seq<char>>,
)
    ensures
        names_step(c, manifests, i, names) matches Next::Done(_, c2) ==> c2.answers == c.answers,
    decreases manifests.len() - i,
{
    if i < manifests.len() {
        if let Next::Done(Ok(doc), c2) = toml::doc_step(c, manifests[i]) {
            lemma_names_answers(c2, manifests, i + 1, with_name(names, doc.1));
        }
    }
}

/// A member's manifest, as it was before and as it is after a version was
/// written: with that version if it had one, or as it was.
pub open spec fn renewed_answer(before: Answer, after: Answer, new: Seq<char>) -> bool {
    match (before, after) {
        (Answer::Text(s), Answer::Text(t)) => toml::entries_in(s@) matches Ok(e) ==> (
        toml::entries_in(t@) matches Ok(f) && cargo_toml::renewed_own(e, f, new)),
        _ => before == after,
    }
}

/// The root manifest, before and after a version was written.
pub open spec fn renewed_first(before: Answer, after: Answer, new: Seq<char>) -> bool {
    match (before, after) {
        (Answer::Text(s), Answer::Text(t)) => toml::entries_in(s@) matches Ok(e) ==> (
        toml::entries_in(t@) matches Ok(f) && cargo_toml::renewed_root(e, f, new)),
        _ => before == after,
    }
}

/// Where a version could be read before another one was written, that is the
/// one that is read afterwards. `c` has the host's answers to the first
/// reading, `d` those to the second one: what the root manifest and those of
/// the members say has changed as writing the version changes it.
pub proof fn law_read_after_write(cargo: Cargo, c: Cursor, d: Cursor, new: Seq<char>)
    requires
        c.root == d.root,
        c.sep == d.sep,
        c.at == d.at,
        c.answers.len() == d.answers.len(),
        c.answered(),
        renewed_first(c.answer(), d.answer(), new),
        forall|i: int|
            c.at < i < c.answers.len() ==> renewed_answer(
                #[trigger] c.answers[i],
                d.answers[i],
                new,
            ),
        cargo.read_step(c) matches Next::Done(Ok(_), _),
    ensures
        cargo.read_step(d) matches Next::Done(Ok(v), _) && v == new,
{
    if let Next::Done(Ok(doc), c2) = toml::doc_step(c, "Cargo.toml"@) {
        let after = toml::doc_step(d, "Cargo.toml"@)->Done_0->Ok_0;
        assert(cargo_toml::renewed_root(doc.1, after.1, new));
        if let LayoutOf::VirtualOrMembers(patterns) = cargo_toml::layout_of(doc.1) {
            if cargo_toml::version_in(doc.1) is None && cargo_toml::version_in(after.1) is None {
                let d2 = d.past();
                assert forall|i: int| c2.at <= i < c2.answers.len() implies workspace::alike(
                    #[trigger] c2.answers[i],
                    d2.answers[i],
                ) by {
                    assert(renewed_answer(c.answers[i], d.answers[i], new));
                }
                workspace::lemma_patterns_alike(
                    c2,
                    d2,
                    patterns,
                    0,
                    Seq::empty(),
                    "Cargo.toml"@,
                );
                if let Next::Done(Ok(manifests), c3) = members_step(c2, patterns) {
                    let d3 = members_step(d2, patterns)->Done_1;
                    lemma_first_version_renewed(c3, d3, manifests, 0, new);
                }
            }
        }
    }
}

proof fn lemma_first_version_renewed(
    c: Cursor,
    d: Cursor,
    manifests: Seq<Seq<char>>,
    i: int,
    new: Seq<char>,
)
    requires
        c.at == d.at,
        c.answers.len() == d.answers.len(),
        forall|k: int|
            c.at <= k < c.answers.len() ==> renewed_answer(
                #[trigger] c.answers[k],
                d.answers[k],
                new,
            ),
        first_version_step(c, manifests, i) matches Next::Done(Ok(_), _),
    ensures
        first_version_step(d, manifests, i) matches Next::Done(Ok(v), _) && v == new,
    decreases manifests.len() - i,
{
    if i < manifests.len() {
        if let Next::Done(Ok(doc), c2) = toml::doc_step(c, manifests[i]) {
            assert(renewed_answer(c.answers[c.at as int], d.answers[c.at as int], new));
            if cargo_toml::version_in(doc.1) is None {
                let d2 = d.past();
                lemma_first_version_renewed(c2, d2, manifests, i + 1, new);
            }
        }
    }
}

/// A member's manifest that is not written has no version that could be read.
pub proof fn law_unwritten_has_no_version(
    t: Seq<char>,
    entries: Entries,
    names: Set<Seq<char>>,
    new: Seq<char>,
)
    requires
        member_changed(t, entries, names, false, new) is None,
    ensures
        cargo_toml::renewed_own(entries, entries, new),
{
}

/// The root manifest alone decides where it has a version.
pub proof fn law_root_version_is_read(cargo: Cargo, c: Cursor, version: Seq<char>)
    requires
        c.answered(),
        c.answer() matches Answer::Text(t) && (cargo_toml::reads_shared(t@, version) || (
        toml::entries_in(t@) matches Ok(entries) && !(cargo_toml::layout_of(
            entries,
        ) is WorkspacePackage) && cargo_toml::version_in(entries) == Some(version))),
    ensures
        cargo.read_step(c) == Next::Done(Ok::<Seq<char>, ErrorView>(version), c.past()),
{
}

impl Backend for Cargo {
    open spec fn called(&self) -> Seq<char> {
        "cargo"@
    }

    open spec fn read_step(&self, c: Cursor) -> Next<Result<Seq<char>, ErrorView>> {
        toml::doc_step(c, "Cargo.toml"@).and_ok(
            |doc: (Seq<char>, Entries), c: Cursor| read_root_step(c, doc.1),
        )
    }

    open spec fn write_step(&self, c: Cursor, new: Seq<char>) -> Next<Result<(), ErrorView>> {
        toml::doc_step(c, "Cargo.toml"@).and_ok(
            |doc: (Seq<char>, Entries), c: Cursor| write_root_step(c, doc.0, doc.1, new),
        )
    }

    open spec fn lock_step(&self, c: Cursor) -> Next<Result<(), ErrorView>> {
        c.run(""@, "cargo"@, seq!["generate-lockfile"@])
    }

    open spec fn lock_command(&self) -> Option<Seq<char>> {
        Some("cargo generate-lockfile"@)
    }

    open spec fn stage_step(&self, c: Cursor) -> Next<Seq<Seq<char>>> {
        manifests_step(c).and(
            |files: Seq<Seq<char>>, c: Cursor|
                c.is_file("Cargo.lock"@).and(
                    |lock: bool, c: Cursor|
                        Next::Done(
                            if lock {
                                files.push("Cargo.lock"@)
                            } else {
                                files
                            },
                            c,
                        ),
                ),
        )
    }

    open spec fn publish_step(&self, c: Cursor) -> Next<Result<(), ErrorView>> {
        toml::doc_step(c, "Cargo.toml"@).and_ok(
            |doc: (Seq<char>, Entries), c: Cursor| publish_root_step(c, doc.1),
        )
    }

    open spec fn publish_preview_step(&self, c: Cursor) -> Next<
        Result<Option<Seq<char>>, ErrorView>,
    > {
        toml::doc_step(c, "Cargo.toml"@).and_ok(
            |doc: (Seq<char>, Entries), c: Cursor| preview_root_step(c, doc.1),
        )
    }

    open spec fn writes_preview_step(&self, c: Cursor, new: Seq<char>) -> Next<
        Result<Seq<Seq<char>>, ErrorView>,
    > {
        toml::doc_step(c, "Cargo.toml"@).and_ok(
            |doc: (Seq<char>, Entries), c: Cursor| previews_step(c, doc.1, new),
        )
    }

    open spec fn publishable_step(&self, c: Cursor) -> Next<Result<bool, ErrorView>> {
        toml::doc_step(c, "Cargo.toml"@).and_ok(
            |doc: (Seq<char>, Entries), c: Cursor| publishable_root_step(c, doc.1),
        )
    }

    proof fn law_asks(&self, c: Cursor, new: Seq<char>) {
        broadcast use {
            workspace::lemma_patterns_calm,
            lemma_names_calm,
            lemma_first_version_calm,
            lemma_write_members_asks,
            lemma_preview_members_calm,
            lemma_packages_calm,
            lemma_publish_each_keeps,
            lemma_some_publishable_calm,
        };

        assert(self.lock_command() == Some(
            error::command_line("cargo"@, seq!["generate-lockfile"@]),
        )) by {
            reveal_strlit("cargo");
            reveal_strlit(" ");
            reveal_strlit("generate-lockfile");
            reveal_strlit("cargo generate-lockfile");
            assert(self.lock_command()->0 =~= error::command_line(
                "cargo"@,
                seq!["generate-lockfile"@],
            ));
        }
    }

    proof fn law_kept(&self, c: Cursor, new: Seq<char>, more: Seq<Answer>) {
        broadcast use {
            session::lemma_past_with,
            workspace::lemma_patterns_kept,
            lemma_names_kept,
            lemma_first_version_kept,
            lemma_write_members_kept,
            lemma_preview_members_kept,
            lemma_packages_kept,
            lemma_publish_each_kept,
            lemma_some_publishable_kept,
        };
    }

    fn name(&self) -> (r: &'static str) {
        "cargo"
    }

    fn read_version(&self, s: &mut Session<'_>) -> (r: Step<Result<String, Error>>) {
        let doc = match toml::read_doc(s, "Cargo.toml")? {
            Ok(doc) => doc,
            Err(e) => {
                return Ok(Err(e));
            },
        };
        match cargo_toml::classify(doc.entries()) {
            LayoutOf::WorkspacePackage => match cargo_toml::shared_version(doc.entries()) {
                Some(version) => Ok(Ok(version)),
                None => Ok(
                    Err(ErrorOf::Absent(own("no [workspace.package].version in Cargo.toml"))),
                ),
            },
            LayoutOf::Package => match cargo_toml::package_version(doc.entries()) {
                Some(version) => Ok(Ok(version)),
                None => Ok(Err(ErrorOf::Absent(own("no [package].version in Cargo.toml")))),
            },
            LayoutOf::VirtualOrMembers(patterns) => match cargo_toml::package_version(
                doc.entries(),
            ) {
                Some(version) => Ok(Ok(version)),
                None => match member_manifests(s, &patterns)? {
                    Ok(members) => first_version(s, &members),
                    Err(e) => Ok(Err(e)),
                },
            },
        }
    }

    /// Each text that is to be written has the new version where a version is
    /// read from it.
    fn write_version(&self, s: &mut Session<'_>, new: &str) -> (r: Step<Result<(), Error>>)
        ensures
            r matches Err(AskOf::Write(_, t)) ==> writes_version(old(s)@, t@, new@),
    {
        let doc = match toml::read_doc(s, "Cargo.toml")? {
            Ok(doc) => doc,
            Err(e) => {
                return Ok(Err(e));
            },
        };
        match cargo_toml::classify(doc.entries()) {
            LayoutOf::WorkspacePackage => write_shared(s, &doc, new),
            LayoutOf::Package => match cargo_toml::rewrite_package(&doc, new) {
                Some(t) => s.write("Cargo.toml", &t),
                None => Ok(Err(ErrorOf::Absent(own("[package] missing in Cargo.toml")))),
            },
            LayoutOf::VirtualOrMembers(patterns) => write_lockstep(s, &doc, &patterns, new),
        }
    }

    fn update_lockfile(&self, s: &mut Session<'_>) -> (r: Step<Result<(), Error>>) {
        s.run("", "cargo", list1("generate-lockfile"))
    }

    fn lockfile_command_preview(&self) -> (r: Option<String>) {
        Some(own("cargo generate-lockfile"))
    }

    fn files_to_stage(&self, s: &mut Session<'_>) -> (r: Step<Vec<String>>) {
        let mut files = manifests(s)?;
        if s.is_file("Cargo.lock")? {
            put(&mut files, own("Cargo.lock"));
        }
        Ok(files)
    }

    fn publish(&self, s: &mut Session<'_>) -> (r: Step<Result<(), Error>>) {
        let doc = match toml::read_doc(s, "Cargo.toml")? {
            Ok(doc) => doc,
            Err(e) => {
                return Ok(Err(e));
            },
        };
        match cargo_toml::classify(doc.entries()) {
            LayoutOf::WorkspacePackage => match cargo_toml::package_name(doc.entries()) {
                Some(name) => s.run("", "cargo", list3("publish", "-p", &name)),
                None => publish_each_member(
                    s,
                    &cargo_toml::workspace_members(doc.entries()),
                ),
            },
            LayoutOf::Package => s.run("", "cargo", list1("publish")),
            LayoutOf::VirtualOrMembers(patterns) => publish_each_member(s, &patterns),
        }
    }

    fn publish_command_preview(&self, s: &mut Session<'_>) -> (r: Step<
        Result<Option<String>, Error>,
    >) {
        let doc = match toml::read_doc(s, "Cargo.toml")? {
            Ok(doc) => doc,
            Err(e) => {
                return Ok(Err(e));
            },
        };
        match cargo_toml::classify(doc.entries()) {
            LayoutOf::WorkspacePackage => match cargo_toml::package_name(doc.entries()) {
                Some(name) => Ok(Ok(Some(plus("cargo publish -p ", &name)))),
                None => member_publish_preview(
                    s,
                    &cargo_toml::workspace_members(doc.entries()),
                ),
            },
            LayoutOf::Package => Ok(Ok(Some(own("cargo publish")))),
            LayoutOf::VirtualOrMembers(patterns) => member_publish_preview(s, &patterns),
        }
    }

    fn additional_write_previews(&self, s: &mut Session<'_>, new: &str) -> (r: Step<
        Result<Vec<String>, Error>,
    >) {
        let doc = match toml::read_doc(s, "Cargo.toml")? {
            Ok(doc) => doc,
            Err(e) => {
                return Ok(Err(e));
            },
        };
        let (patterns, inherited) = match cargo_toml::classify(doc.entries()) {
            LayoutOf::Package => {
                return Ok(Ok(list0()));
            },
            LayoutOf::WorkspacePackage => (cargo_toml::workspace_members(doc.entries()), true),
            LayoutOf::VirtualOrMembers(patterns) => (patterns, false),
        };
        match manifests_and_member_names(s, &doc, &patterns)? {
            Ok(members) => preview_members(s, &members, inherited, new),
            Err(e) => Ok(Err(e)),
        }
    }

    fn is_publishable(&self, s: &mut Session<'_>) -> (r: Step<Result<bool, Error>>) {
        let doc = match toml::read_doc(s, "Cargo.toml")? {
            Ok(doc) => doc,
            Err(e) => {
                return Ok(Err(e));
            },
        };
        match cargo_toml::classify(doc.entries()) {
            LayoutOf::WorkspacePackage => match cargo_toml::package_name(doc.entries()) {
                Some(_) => Ok(Ok(!cargo_toml::is_opted_out(doc.entries()))),
                None => members_publishable(
                    s,
                    &cargo_toml::workspace_members(doc.entries()),
                ),
            },
            LayoutOf::Package => Ok(Ok(!cargo_toml::is_opted_out(doc.entries()))),
            LayoutOf::VirtualOrMembers(patterns) => members_publishable(s, &patterns),
        }
    }
}

} // verus!
