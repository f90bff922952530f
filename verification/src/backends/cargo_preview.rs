//! What is shown of a new version in a Cargo project is what is written.

use vstd::prelude::*;

use crate::backend::Backend;
use crate::backends::cargo;
use crate::backends::cargo::Cargo;
use crate::backends::cargo::MembersView;
use crate::backends::cargo_toml;
use crate::backends::cargo_toml::LayoutOf;
use crate::backends::workspace;
use crate::conversation;
use crate::data::Entries;
use crate::error::ErrorOf;
use crate::error::ErrorView;
use crate::session::Answer;
use crate::session::AskOf;
use crate::session::AskView;
use crate::session::Cursor;
use crate::session::Next;
use crate::toml;
use crate::toml::manifest_of;

verus! {

// ---------------------------------------------------------------------------
// The workspace
// ---------------------------------------------------------------------------

/// The names of the packages of the manifests from the one at `i` on; `None`
/// if one of these cannot be read.
pub open spec fn names_by(
    host: spec_fn(AskView) -> Answer,
    manifests: Seq<Seq<char>>,
    i: int,
    names: Set<Seq<char>>,
) -> Option<Set<Seq<char>>>
    decreases manifests.len() - i,
{
    if i >= manifests.len() {
        Some(names)
    } else {
        match manifest_of(host(AskOf::Read(manifests[i]))) {
            Some(doc) => names_by(host, manifests, i + 1, cargo::with_name(names, doc.1)),
            None => None,
        }
    }
}

/// The workspace that a host lets find.
pub open spec fn workspace_by(
    host: spec_fn(AskView) -> Answer,
    sep: char,
    entries: Entries,
    patterns: Seq<Seq<char>>,
) -> Option<MembersView> {
    match workspace::members_by(host, sep, patterns, 0, Seq::empty(), "Cargo.toml"@) {
        Some(manifests) => match names_by(host, manifests, 0, Set::empty()) {
            Some(names) => Some(
                MembersView { manifests, names: cargo::with_name(names, entries) },
            ),
            None => None,
        },
        None => None,
    }
}

spec fn names_flow<T>(
    manifests: Seq<Seq<char>>,
    i: int,
    names: Set<Seq<char>>,
    then_do: spec_fn(Set<Seq<char>>, Cursor) -> Next<Result<T, ErrorView>>,
) -> spec_fn(Cursor) -> Next<Result<T, ErrorView>> {
    |c: Cursor| cargo::names_step(c, manifests, i, names).and_ok(then_do)
}

proof fn lemma_names_talk<T>(
    c: Cursor,
    host: spec_fn(AskView) -> Answer,
    manifests: Seq<Seq<char>>,
    i: int,
    names: Set<Seq<char>>,
    then_do: spec_fn(Set<Seq<char>>, Cursor) -> Next<Result<T, ErrorView>>,
) -> (r: (Cursor, ErrorView))
    requires
        conversation::waiting(c),
    ensures
        conversation::waiting(r.0),
        r.0.sep == c.sep,
        conversation::reaches(
            names_flow(manifests, i, names, then_do),
            c,
            conversation::onward(then_do, names_by(host, manifests, i, names), r.1),
            r.0,
            host,
        ),
    decreases manifests.len() - i,
{
    let f = names_flow(manifests, i, names, then_do);
    let all = names_by(host, manifests, i, names);
    if i >= manifests.len() {
        let e = ErrorOf::Absent(Seq::empty());
        conversation::lemma_same(f, conversation::onward(then_do, all, e), c, host);
        (c, e)
    } else {
        let q: AskView = AskOf::Read(manifests[i]);
        let c2 = conversation::told(c, host(q));
        conversation::lemma_told(c, host(q));
        match manifest_of(host(q)) {
            Some(doc) => {
                let more = cargo::with_name(names, doc.1);
                let g = names_flow(manifests, i + 1, more, then_do);
                conversation::lemma_asks(f, g, c, host, q);
                let (d, e) = lemma_names_talk(c2, host, manifests, i + 1, more, then_do);
                let end = conversation::onward(then_do, all, e);
                conversation::lemma_reaches_on(f, c, g, c2, end, d, host);
                (d, e)
            },
            None => {
                let e = toml::unread(c, manifests[i], host(q));
                conversation::lemma_asks(f, conversation::onward(then_do, all, e), c, host, q);
                (c2, e)
            },
        }
    }
}

/// Look for the workspace, then go on with it.
pub open spec fn workspace_flow<T>(
    entries: Entries,
    patterns: Seq<Seq<char>>,
    then_do: spec_fn(MembersView, Cursor) -> Next<Result<T, ErrorView>>,
) -> spec_fn(Cursor) -> Next<Result<T, ErrorView>> {
    |c: Cursor| cargo::workspace_step(c, entries, patterns).and_ok(then_do)
}

/// A conversation about a workspace comes to the one that the host lets find,
/// or ends with an error.
pub proof fn lemma_workspace_talk<T>(
    c: Cursor,
    host: spec_fn(AskView) -> Answer,
    entries: Entries,
    patterns: Seq<Seq<char>>,
    then_do: spec_fn(MembersView, Cursor) -> Next<Result<T, ErrorView>>,
) -> (r: (Cursor, ErrorView))
    requires
        conversation::waiting(c),
    ensures
        conversation::waiting(r.0),
        r.0.sep == c.sep,
        conversation::reaches(
            workspace_flow(entries, patterns, then_do),
            c,
            conversation::onward(then_do, workspace_by(host, c.sep, entries, patterns), r.1),
            r.0,
            host,
        ),
{
    let f = workspace_flow(entries, patterns, then_do);
    let with_names = |manifests: Seq<Seq<char>>|
        |names: Set<Seq<char>>, c: Cursor|
            then_do(MembersView { manifests, names: cargo::with_name(names, entries) }, c);
    let with_manifests = |manifests: Seq<Seq<char>>, c: Cursor|
        cargo::names_step(c, manifests, 0, Set::empty()).and_ok(with_names(manifests));
    let g = workspace::patterns_flow(patterns, 0, Seq::empty(), "Cargo.toml"@, with_manifests);
    assert forall|more: Seq<Answer>| f(#[trigger] c.with(more)) == g(c.with(more)) by {
        let d = c.with(more);
        if let Next::Done(Ok(manifests), d2) = cargo::members_step(d, patterns) {
            let end = with_names(manifests);
            assert(with_manifests(manifests, d2) == cargo::names_step(
                d2,
                manifests,
                0,
                Set::empty(),
            ).and_ok(end));
        }
    }
    conversation::lemma_same(f, g, c, host);
    let (d, e) = workspace::lemma_patterns_talk(
        c,
        host,
        patterns,
        0,
        Seq::empty(),
        "Cargo.toml"@,
        with_manifests,
    );
    let found = workspace::members_by(host, c.sep, patterns, 0, Seq::empty(), "Cargo.toml"@);
    let all = workspace_by(host, c.sep, entries, patterns);
    let h = conversation::onward(with_manifests, found, e);
    conversation::lemma_reaches_on(f, c, g, c, h, d, host);
    match found {
        Some(manifests) => {
            let k = names_flow(manifests, 0, Set::empty(), with_names(manifests));
            conversation::lemma_same(h, k, d, host);
            conversation::lemma_reaches_on(f, c, h, d, k, d, host);
            let (d2, e2) = lemma_names_talk(
                d,
                host,
                manifests,
                0,
                Set::empty(),
                with_names(manifests),
            );
            let names = names_by(host, manifests, 0, Set::empty());
            let x = conversation::onward(with_names(manifests), names, e2);
            let y = conversation::onward(then_do, all, e2);
            conversation::lemma_reaches_on(f, c, k, d, x, d2, host);
            conversation::lemma_same(x, y, d2, host);
            conversation::lemma_reaches_on(f, c, x, d2, y, d2, host);
            (d2, e2)
        },
        None => {
            let y = conversation::onward(then_do, all, e);
            conversation::lemma_same(h, y, d, host);
            conversation::lemma_reaches_on(f, c, h, d, y, d, host);
            (d, e)
        },
    }
}

// ---------------------------------------------------------------------------
// The members
// ---------------------------------------------------------------------------

/// The manifests from the one at `i` on that are to be written.
spec fn to_write(
    host: spec_fn(AskView) -> Answer,
    members: MembersView,
    i: int,
    inherited: bool,
    new: Seq<char>,
) -> Seq<Seq<char>>
    decreases members.manifests.len() - i,
{
    if i >= members.manifests.len() {
        Seq::empty()
    } else {
        match manifest_of(host(AskOf::Read(members.manifests[i]))) {
            Some(doc) => (if cargo::member_changes(doc.1, members.names, inherited, new) {
                seq![members.manifests[i]]
            } else {
                Seq::empty()
            }) + to_write(host, members, i + 1, inherited, new),
            None => Seq::empty(),
        }
    }
}

spec fn preview_flow(
    members: MembersView,
    i: int,
    inherited: bool,
    new: Seq<char>,
    out: Seq<Seq<char>>,
) -> spec_fn(Cursor) -> Next<Result<Seq<Seq<char>>, ErrorView>> {
    |c: Cursor| cargo::preview_members_step(c, members, i, inherited, new, out)
}

proof fn lemma_preview_talk(
    c: Cursor,
    host: spec_fn(AskView) -> Answer,
    members: MembersView,
    i: int,
    inherited: bool,
    new: Seq<char>,
    out: Seq<Seq<char>>,
    n: nat,
)
    requires
        conversation::waiting(c),
        conversation::stands(
            preview_flow(members, i, inherited, new, out),
            c,
            host,
            n,
        ) matches Next::Done(Ok(_), _),
    ensures
        conversation::stands(
            preview_flow(members, i, inherited, new, out),
            c,
            host,
            n,
        ) matches Next::Done(Ok(all), _) && all == out + to_write(
            host,
            members,
            i,
            inherited,
            new,
        ),
    decreases members.manifests.len() - i,
{
    let f = preview_flow(members, i, inherited, new, out);
    if i >= members.manifests.len() {
        conversation::lemma_silent(f, c, host, n);
        assert(out + Seq::empty() =~= out);
    } else {
        let path = members.manifests[i];
        let q: AskView = AskOf::Read(path);
        let c2 = conversation::told(c, host(q));
        conversation::lemma_told(c, host(q));
        match manifest_of(host(q)) {
            Some(doc) => {
                let changes = cargo::member_changes(doc.1, members.names, inherited, new);
                let longer = if changes {
                    out.push(path)
                } else {
                    out
                };
                let g = preview_flow(members, i + 1, inherited, new, longer);
                conversation::lemma_asks(f, g, c, host, q);
                let m = conversation::lemma_came_through(f, c, g, c2, host, n);
                lemma_preview_talk(c2, host, members, i + 1, inherited, new, longer, m);
                let rest = to_write(host, members, i + 1, inherited, new);
                assert(longer + rest =~= out + to_write(host, members, i, inherited, new));
            },
            None => {
                conversation::lemma_ends(f, c, host, q, n);
            },
        }
    }
}

/// Write the manifests from the one at `i` on.
pub open spec fn write_flow(
    members: MembersView,
    i: int,
    inherited: bool,
    new: Seq<char>,
) -> spec_fn(Cursor) -> Next<Result<(), ErrorView>> {
    |c: Cursor| cargo::write_members_step(c, members, i, inherited, new)
}

/// Write a file, then the manifests from the one at `i` on.
pub open spec fn file_flow(
    path: Seq<char>,
    t: Seq<char>,
    members: MembersView,
    i: int,
    inherited: bool,
    new: Seq<char>,
) -> spec_fn(Cursor) -> Next<Result<(), ErrorView>> {
    |c: Cursor|
        c.write(path, t).and_ok(
            |u: (), c: Cursor| cargo::write_members_step(c, members, i, inherited, new),
        )
}

/// The file is written, and then the manifests.
proof fn lemma_file_talk(
    c: Cursor,
    host: spec_fn(AskView) -> Answer,
    path: Seq<char>,
    t: Seq<char>,
    members: MembersView,
    i: int,
    inherited: bool,
    new: Seq<char>,
    n: nat,
)
    requires
        conversation::waiting(c),
        conversation::stands(
            file_flow(path, t, members, i, inherited, new),
            c,
            host,
            n,
        ) matches Next::Done(Ok(_), _),
    ensures
        conversation::written(
            conversation::asked(file_flow(path, t, members, i, inherited, new), c, host, n),
        ) == seq![path] + to_write(host, members, i, inherited, new),
    decreases members.manifests.len() - i, 1int,
{
    let f = file_flow(path, t, members, i, inherited, new);
    let q: AskView = AskOf::Write(path, t);
    let a = host(q);
    let c2 = conversation::told(c, a);
    conversation::lemma_told(c, a);
    if a is Yes {
        let g = write_flow(members, i, inherited, new);
        if n == 0 {
            assert(c.with(Seq::empty()) =~= c);
        }
        let m = (n - 1) as nat;
        conversation::lemma_goes_on(f, g, c, host, q, n);
        conversation::lemma_written_first(q, conversation::asked(g, c2, host, m));
        lemma_write_talk(c2, host, members, i, inherited, new, m);
    } else {
        conversation::lemma_ends(f, c, host, q, n);
    }
}

proof fn lemma_write_talk(
    c: Cursor,
    host: spec_fn(AskView) -> Answer,
    members: MembersView,
    i: int,
    inherited: bool,
    new: Seq<char>,
    n: nat,
)
    requires
        conversation::waiting(c),
        conversation::stands(write_flow(members, i, inherited, new), c, host, n) matches Next::Done(
            Ok(_),
            _,
        ),
    ensures
        conversation::written(
            conversation::asked(write_flow(members, i, inherited, new), c, host, n),
        ) == to_write(host, members, i, inherited, new),
    decreases members.manifests.len() - i, 0int,
{
    let f = write_flow(members, i, inherited, new);
    if i >= members.manifests.len() {
        conversation::lemma_silent(f, c, host, n);
    } else {
        let path = members.manifests[i];
        let q: AskView = AskOf::Read(path);
        let c2 = conversation::told(c, host(q));
        conversation::lemma_told(c, host(q));
        match manifest_of(host(q)) {
            Some(doc) => match cargo::member_changed(
                doc.0,
                doc.1,
                members.names,
                inherited,
                new,
            ) {
                Some(t) => {
                    let g = file_flow(path, t, members, i + 1, inherited, new);
                    conversation::lemma_asks(f, g, c, host, q);
                    let m = conversation::lemma_came_through(f, c, g, c2, host, n);
                    lemma_file_talk(c2, host, path, t, members, i + 1, inherited, new, m);
                },
                None => {
                    let g = write_flow(members, i + 1, inherited, new);
                    conversation::lemma_asks(f, g, c, host, q);
                    let m = conversation::lemma_came_through(f, c, g, c2, host, n);
                    lemma_write_talk(c2, host, members, i + 1, inherited, new, m);
                    assert(Seq::<Seq<char>>::empty() + to_write(
                        host,
                        members,
                        i + 1,
                        inherited,
                        new,
                    ) =~= to_write(host, members, i + 1, inherited, new));
                },
            },
            None => {
                conversation::lemma_ends(f, c, host, q, n);
            },
        }
    }
}

// ---------------------------------------------------------------------------
// The whole
// ---------------------------------------------------------------------------

/// Show what a new version would be written into.
pub open spec fn shown(cargo: Cargo, new: Seq<char>) -> spec_fn(Cursor) -> Next<
    Result<Seq<Seq<char>>, ErrorView>,
> {
    |c: Cursor| cargo.writes_preview_step(c, new)
}

/// Write a new version.
pub open spec fn carried_out(cargo: Cargo, new: Seq<char>) -> spec_fn(Cursor) -> Next<
    Result<(), ErrorView>,
> {
    |c: Cursor| cargo.write_step(c, new)
}

spec fn shown_for(entries: Entries, new: Seq<char>) -> spec_fn(Cursor) -> Next<
    Result<Seq<Seq<char>>, ErrorView>,
> {
    |c: Cursor| cargo::previews_step(c, entries, new)
}

/// Write a new version, given the root manifest.
pub open spec fn carried_out_for(
    t: Seq<char>,
    entries: Entries,
    new: Seq<char>,
) -> spec_fn(Cursor) -> Next<Result<(), ErrorView>> {
    |c: Cursor| cargo::write_root_step(c, t, entries, new)
}

/// What is shown before a new version is written is what is then written
/// besides the root manifest, by one and the same host: the same files, in the
/// same order.
pub proof fn law_preview_lists_what_is_written(
    cargo: Cargo,
    c: Cursor,
    host: spec_fn(AskView) -> Answer,
    new: Seq<char>,
    n: nat,
    m: nat,
)
    requires
        conversation::waiting(c),
        conversation::stands(shown(cargo, new), c, host, n) matches Next::Done(Ok(_), _),
        conversation::stands(carried_out(cargo, new), c, host, m) matches Next::Done(Ok(_), _),
    ensures
        ({
            let out = conversation::stands(shown(cargo, new), c, host, n)->Done_0->Ok_0;
            let files = conversation::written(
                conversation::asked(carried_out(cargo, new), c, host, m),
            );
            files == out || files == seq!["Cargo.toml"@] + out
        }),
{
    let q: AskView = AskOf::Read("Cargo.toml"@);
    let a = host(q);
    let c2 = conversation::told(c, a);
    let f = shown(cargo, new);
    let w = carried_out(cargo, new);
    conversation::lemma_told(c, a);
    match manifest_of(a) {
        None => {
            conversation::lemma_ends(f, c, host, q, n);
        },
        Some(doc) => {
            let (t, entries) = doc;
            let g = shown_for(entries, new);
            let x = carried_out_for(t, entries, new);
            conversation::lemma_asks(f, g, c, host, q);
            conversation::lemma_asks(w, x, c, host, q);
            let i = conversation::lemma_came_through(f, c, g, c2, host, n);
            let j = conversation::lemma_came_through(w, c, x, c2, host, m);
            lemma_listed(c2, host, t, entries, new, i, j);
        },
    }
}

proof fn lemma_listed(
    c: Cursor,
    host: spec_fn(AskView) -> Answer,
    t: Seq<char>,
    entries: Entries,
    new: Seq<char>,
    n: nat,
    m: nat,
)
    requires
        conversation::waiting(c),
        conversation::stands(shown_for(entries, new), c, host, n) matches Next::Done(Ok(_), _),
        conversation::stands(carried_out_for(t, entries, new), c, host, m) matches Next::Done(
            Ok(_),
            _,
        ),
    ensures
        ({
            let out = conversation::stands(shown_for(entries, new), c, host, n)->Done_0->Ok_0;
            let files = conversation::written(
                conversation::asked(carried_out_for(t, entries, new), c, host, m),
            );
            files == out || files == seq!["Cargo.toml"@] + out
        }),
{
    let g = shown_for(entries, new);
    let x = carried_out_for(t, entries, new);
    match cargo_toml::layout_of(entries) {
        LayoutOf::Package => {
            conversation::lemma_silent(g, c, host, n);
            match cargo_toml::package_changed(t, entries, new) {
                Some(after) => {
                    let q: AskView = AskOf::Write("Cargo.toml"@, after);
                    conversation::lemma_told(c, host(q));
                    if m == 0 {
                        assert(c.with(Seq::empty()) =~= c);
                    }
                    let end = |d: Cursor| Next::Done(x(c.with(seq![host(q)]))->Done_0, d);
                    conversation::lemma_goes_on(x, end, c, host, q, m);
                    let c2 = conversation::told(c, host(q));
                    conversation::lemma_silent(end, c2, host, (m - 1) as nat);
                    conversation::lemma_written_first(q, Seq::empty());
                    assert(seq!["Cargo.toml"@] + Seq::<Seq<char>>::empty() =~= seq![
                        "Cargo.toml"@,
                    ]);
                },
                None => {
                    conversation::lemma_silent(x, c, host, m);
                },
            }
        },
        LayoutOf::WorkspacePackage => {
            let patterns = cargo_toml::members_in(entries);
            let members = workspace_by(host, c.sep, entries, patterns)->0;
            let show = |members: MembersView, c: Cursor|
                cargo::preview_members_step(c, members, 0, true, new, Seq::empty());
            let write = |members: MembersView, c: Cursor|
                c.write(
                    "Cargo.toml"@,
                    cargo_toml::with_all(
                        t,
                        cargo_toml::shared_slots(entries, members.names),
                        new,
                    ),
                ).and_ok(
                    |u: (), c: Cursor| cargo::write_members_step(c, members, 0, true, new),
                );
            lemma_show(c, host, entries, patterns, true, new, show, g, n);
            let after = cargo_toml::with_all(
                t,
                cargo_toml::shared_slots(entries, members.names),
                new,
            );
            let (d, k) = lemma_to_members(c, host, entries, patterns, write, x, m);
            let y = conversation::given(write, members);
            let z = file_flow("Cargo.toml"@, after, members, 0, true, new);
            conversation::lemma_same(y, z, d, host);
            let l = conversation::lemma_came_through(y, d, z, d, host, k);
            lemma_file_talk(d, host, "Cargo.toml"@, after, members, 0, true, new, l);
        },
        LayoutOf::VirtualOrMembers(patterns) => {
            let members = workspace_by(host, c.sep, entries, patterns)->0;
            let show = |members: MembersView, c: Cursor|
                cargo::preview_members_step(c, members, 0, false, new, Seq::empty());
            let write = |members: MembersView, c: Cursor|
                match cargo_toml::lockstep_changed(t, entries, members.names, new) {
                    Some(after) => c.write("Cargo.toml"@, after).and_ok(
                        |u: (), c: Cursor| cargo::write_members_step(c, members, 0, false, new),
                    ),
                    None => cargo::write_members_step(c, members, 0, false, new),
                };
            lemma_show(c, host, entries, patterns, false, new, show, g, n);
            let (d, k) = lemma_to_members(c, host, entries, patterns, write, x, m);
            let y = conversation::given(write, members);
            match cargo_toml::lockstep_changed(t, entries, members.names, new) {
                Some(after) => {
                    let z = file_flow("Cargo.toml"@, after, members, 0, false, new);
                    conversation::lemma_same(y, z, d, host);
                    let l = conversation::lemma_came_through(y, d, z, d, host, k);
                    lemma_file_talk(d, host, "Cargo.toml"@, after, members, 0, false, new, l);
                },
                None => {
                    let z = write_flow(members, 0, false, new);
                    conversation::lemma_same(y, z, d, host);
                    let l = conversation::lemma_came_through(y, d, z, d, host, k);
                    lemma_write_talk(d, host, members, 0, false, new, l);
                },
            }
        },
    }
}

/// On the way to the members, nothing is written.
proof fn lemma_to_members<T>(
    c: Cursor,
    host: spec_fn(AskView) -> Answer,
    entries: Entries,
    patterns: Seq<Seq<char>>,
    then_do: spec_fn(MembersView, Cursor) -> Next<Result<T, ErrorView>>,
    f: spec_fn(Cursor) -> Next<Result<T, ErrorView>>,
    n: nat,
) -> (r: (Cursor, nat))
    requires
        conversation::waiting(c),
        conversation::stands(f, c, host, n) matches Next::Done(Ok(_), _),
        forall|more: Seq<Answer>|
            f(#[trigger] c.with(more)) == workspace_flow(entries, patterns, then_do)(c.with(more)),
    ensures
        conversation::waiting(r.0),
        ({
            let found = workspace_by(host, c.sep, entries, patterns);
            let g = conversation::given(then_do, found->0);
            &&& found is Some
            &&& conversation::stands(g, r.0, host, r.1) == conversation::stands(f, c, host, n)
            &&& conversation::written(conversation::asked(g, r.0, host, r.1))
                == conversation::written(conversation::asked(f, c, host, n))
        }),
{
    let ws = workspace_flow(entries, patterns, then_do);
    let found = workspace_by(host, c.sep, entries, patterns);
    conversation::lemma_same(f, ws, c, host);
    let m = conversation::lemma_came_through(f, c, ws, c, host, n);
    let (d, e) = lemma_workspace_talk(c, host, entries, patterns, then_do);
    let g = conversation::onward(then_do, found, e);
    let k = conversation::lemma_came_through(ws, c, g, d, host, m);
    if found is None {
        conversation::lemma_silent(g, d, host, k);
    }
    let h = conversation::given(then_do, found->0);
    conversation::lemma_same(g, h, d, host);
    let l = conversation::lemma_came_through(g, d, h, d, host, k);
    (d, l)
}

/// What is shown of the members.
proof fn lemma_show(
    c: Cursor,
    host: spec_fn(AskView) -> Answer,
    entries: Entries,
    patterns: Seq<Seq<char>>,
    inherited: bool,
    new: Seq<char>,
    show: spec_fn(MembersView, Cursor) -> Next<Result<Seq<Seq<char>>, ErrorView>>,
    g: spec_fn(Cursor) -> Next<Result<Seq<Seq<char>>, ErrorView>>,
    n: nat,
)
    requires
        conversation::waiting(c),
        conversation::stands(g, c, host, n) matches Next::Done(Ok(_), _),
        show == (|members: MembersView, c: Cursor|
            cargo::preview_members_step(c, members, 0, inherited, new, Seq::empty())),
        forall|more: Seq<Answer>|
            g(#[trigger] c.with(more)) == workspace_flow(entries, patterns, show)(c.with(more)),
    ensures
        conversation::stands(g, c, host, n) matches Next::Done(Ok(out), _) && out == to_write(
            host,
            workspace_by(host, c.sep, entries, patterns)->0,
            0,
            inherited,
            new,
        ),
{
    let members = workspace_by(host, c.sep, entries, patterns)->0;
    let (d, k) = lemma_to_members(c, host, entries, patterns, show, g, n);
    let y = conversation::given(show, members);
    let z = preview_flow(members, 0, inherited, new, Seq::empty());
    conversation::lemma_same(y, z, d, host);
    let l = conversation::lemma_came_through(y, d, z, d, host, k);
    lemma_preview_talk(d, host, members, 0, inherited, new, Seq::empty(), l);
    assert(Seq::<Seq<char>>::empty() + to_write(host, members, 0, inherited, new) =~= to_write(
        host,
        members,
        0,
        inherited,
        new,
    ));
}

} // verus!
