//! What is staged for the commit of a release.

use vstd::prelude::*;

use crate::backend::Backend;
use crate::backends::bun;
use crate::backends::bun::Bun;
use crate::backends::cargo;
use crate::backends::cargo::Cargo;
use crate::backends::cargo_roundtrip;
use crate::backends::cargo_toml;
use crate::backends::package_roundtrip;
use crate::backends::package_roundtrip::bun_members_by;
use crate::backends::package_roundtrip::lemma_bun_search;
use crate::backends::package_roundtrip::lemma_pnpm_search;
use crate::backends::package_roundtrip::pnpm_members_by;
use crate::backends::package_roundtrip::version_at;
use crate::backends::pnpm;
use crate::backends::pnpm::Pnpm;
use crate::backends::toml_roundtrip;
use crate::backends::uv;
use crate::backends::uv::Uv;
use crate::backends::workspace;
use crate::conversation;
use crate::data;
use crate::data::Entries;
use crate::data::Node;
use crate::error;
use crate::error::ErrorView;
use crate::session::Answer;
use crate::session::AskOf;
use crate::session::AskView;
use crate::session::Cursor;
use crate::session::Next;

verus! {

/// Files, with another one if the host has it.
pub open spec fn with_file(
    host: spec_fn(AskView) -> Answer,
    files: Seq<Seq<char>>,
    path: Seq<char>,
) -> Seq<Seq<char>> {
    if host(AskOf::IsFile(path)) is Yes {
        files.push(path)
    } else {
        files
    }
}

/// Look for a file that is staged with the others.
spec fn lock_flow(files: Seq<Seq<char>>, path: Seq<char>) -> spec_fn(Cursor) -> Next<
    Seq<Seq<char>>,
> {
    |c: Cursor|
        c.is_file(path).and(
            |there: bool, c: Cursor|
                Next::Done(
                    if there {
                        files.push(path)
                    } else {
                        files
                    },
                    c,
                ),
        )
}

spec fn end_with(files: Seq<Seq<char>>) -> spec_fn(Cursor) -> Next<Seq<Seq<char>>> {
    |c: Cursor| Next::Done(files, c)
}

proof fn lemma_lock(
    c: Cursor,
    host: spec_fn(AskView) -> Answer,
    files: Seq<Seq<char>>,
    path: Seq<char>,
) -> (d: Cursor)
    requires
        conversation::waiting(c),
    ensures
        conversation::reaches(
            lock_flow(files, path),
            c,
            end_with(with_file(host, files, path)),
            d,
            host,
        ),
{
    let q: AskView = AskOf::IsFile(path);
    conversation::lemma_told(c, host(q));
    conversation::lemma_asks(
        lock_flow(files, path),
        end_with(with_file(host, files, path)),
        c,
        host,
        q,
    );
    conversation::told(c, host(q))
}

// ---------------------------------------------------------------------------
// cargo
// ---------------------------------------------------------------------------

/// Stage a Cargo project.
pub open spec fn staging_cargo(cargo: Cargo) -> spec_fn(Cursor) -> Next<Seq<Seq<char>>> {
    |c: Cursor| cargo.stage_step(c)
}

spec fn cargo_lock() -> spec_fn(Seq<Seq<char>>, Cursor) -> Next<Seq<Seq<char>>> {
    |files: Seq<Seq<char>>, c: Cursor| lock_flow(files, "Cargo.lock"@)(c)
}

spec fn cargo_found() -> spec_fn(Result<Seq<Seq<char>>, ErrorView>, Cursor) -> Next<
    Seq<Seq<char>>,
> {
    |members: Result<Seq<Seq<char>>, ErrorView>, c: Cursor|
        (match members {
            Ok(members) => Next::Done(seq!["Cargo.toml"@] + members, c),
            Err(e) => c.warn(
                "warning: failed to expand cargo workspace members at "@ + c.root + ": "@
                    + error::message_of(e),
            ).and(|u: (), c: Cursor| Next::Done(seq!["Cargo.toml"@], c)),
        }).and(cargo_lock())
}

/// Of a Cargo workspace the root manifest, those of all members and the lockfile,
/// if there is one, are staged; of a single package, its manifest and the
/// lockfile.
pub proof fn law_cargo_stages_all_manifests(
    cargo: Cargo,
    c: Cursor,
    host: spec_fn(AskView) -> Answer,
    t: Seq<char>,
    entries: Entries,
    n: nat,
)
    requires
        conversation::waiting(c),
        cargo_roundtrip::doc_of(host, "Cargo.toml"@) == Some((t, entries)),
        conversation::stands(staging_cargo(cargo), c, host, n) is Done,
    ensures
        ({
            let root = Node::Table(entries);
            let staged = conversation::stands(staging_cargo(cargo), c, host, n)->Done_0;
            &&& data::at(root, seq!["workspace"@]) is None ==> staged == with_file(
                host,
                seq!["Cargo.toml"@],
                "Cargo.lock"@,
            )
            &&& (data::at(root, seq!["workspace"@]) matches Some(Node::Table(_))) ==> (
            cargo_roundtrip::manifests_by(host, c.sep, root) matches Some(files) ==> staged
                == with_file(host, files, "Cargo.lock"@))
        }),
{
    let root = Node::Table(entries);
    cargo_roundtrip::lemma_own(entries);
    cargo_toml::lemma_at_two(root, "workspace"@, "members"@);
    if data::at(root, seq!["workspace"@]) is None {
        lemma_single(cargo, c, host, t, entries, n);
    } else if (data::at(root, seq!["workspace"@]) matches Some(Node::Table(_)))
        && cargo_roundtrip::manifests_by(host, c.sep, root) is Some {
        let patterns = cargo_roundtrip::member_patterns(root);
        assert(cargo::patterns_in(entries) == Some(patterns));
        lemma_workspace(cargo, c, host, t, entries, patterns, n);
    }
}

proof fn lemma_single(
    cargo: Cargo,
    c: Cursor,
    host: spec_fn(AskView) -> Answer,
    t: Seq<char>,
    entries: Entries,
    n: nat,
)
    requires
        conversation::waiting(c),
        cargo_roundtrip::doc_of(host, "Cargo.toml"@) == Some((t, entries)),
        cargo::patterns_in(entries) is None,
        conversation::stands(staging_cargo(cargo), c, host, n) is Done,
    ensures
        conversation::stands(staging_cargo(cargo), c, host, n)->Done_0 == with_file(
            host,
            seq!["Cargo.toml"@],
            "Cargo.lock"@,
        ),
{
    let f = staging_cargo(cargo);
    let q: AskView = AskOf::Read("Cargo.toml"@);
    let c2 = conversation::told(c, host(q));
    conversation::lemma_told(c, host(q));
    let g = lock_flow(seq!["Cargo.toml"@], "Cargo.lock"@);
    conversation::lemma_asks(f, g, c, host, q);
    let d = lemma_lock(c2, host, seq!["Cargo.toml"@], "Cargo.lock"@);
    let end = end_with(with_file(host, seq!["Cargo.toml"@], "Cargo.lock"@));
    conversation::lemma_reaches_on(f, c, g, c2, end, d, host);
    let m = conversation::lemma_came_through(f, c, end, d, host, n);
    conversation::lemma_silent(end, d, host, m);
}

proof fn lemma_workspace(
    cargo: Cargo,
    c: Cursor,
    host: spec_fn(AskView) -> Answer,
    t: Seq<char>,
    entries: Entries,
    patterns: Seq<Seq<char>>,
    n: nat,
)
    requires
        conversation::waiting(c),
        cargo_roundtrip::doc_of(host, "Cargo.toml"@) == Some((t, entries)),
        cargo::patterns_in(entries) == Some(patterns),
        conversation::stands(staging_cargo(cargo), c, host, n) is Done,
        workspace::members_by(host, c.sep, patterns, 0, Seq::empty(), "Cargo.toml"@) is Some,
    ensures
        workspace::members_by(
            host,
            c.sep,
            patterns,
            0,
            Seq::empty(),
            "Cargo.toml"@,
        ) matches Some(members) && conversation::stands(
            staging_cargo(cargo),
            c,
            host,
            n,
        )->Done_0 == with_file(host, seq!["Cargo.toml"@] + members, "Cargo.lock"@),
{
    let f = staging_cargo(cargo);
    let q: AskView = AskOf::Read("Cargo.toml"@);
    let c2 = conversation::told(c, host(q));
    conversation::lemma_told(c, host(q));
    let search = workspace::children_flow(patterns, "Cargo.toml"@);
    let g = conversation::continued(search, cargo_found());
    conversation::lemma_asks(f, g, c, host, q);
    let (d, e) = workspace::lemma_children_flow(c2, host, patterns, "Cargo.toml"@);
    let found = workspace::members_by(host, c.sep, patterns, 0, Seq::empty(), "Cargo.toml"@);
    let members = found->0;
    let v = Ok::<Seq<Seq<char>>, ErrorView>(members);
    let ended = |x: Cursor| Next::Done(v, x);
    let settled = conversation::settled(found, e);
    conversation::lemma_same(settled, ended, d, host);
    conversation::lemma_reaches_on(search, c2, settled, d, ended, d, host);
    conversation::lemma_then(search, cargo_found(), c2, v, d, host);
    let h = |x: Cursor| cargo_found()(v, x);
    conversation::lemma_reaches_on(f, c, g, c2, h, d, host);
    let files = seq!["Cargo.toml"@] + members;
    let l = lock_flow(files, "Cargo.lock"@);
    conversation::lemma_same(h, l, d, host);
    conversation::lemma_reaches_on(f, c, h, d, l, d, host);
    let d2 = lemma_lock(d, host, files, "Cargo.lock"@);
    let end = end_with(with_file(host, files, "Cargo.lock"@));
    conversation::lemma_reaches_on(f, c, l, d, end, d2, host);
    let m = conversation::lemma_came_through(f, c, end, d2, host, n);
    conversation::lemma_silent(end, d2, host, m);
}

// ---------------------------------------------------------------------------
// uv
// ---------------------------------------------------------------------------

/// Stage a uv project.
pub open spec fn staging_uv(uv: Uv) -> spec_fn(Cursor) -> Next<Seq<Seq<char>>> {
    |c: Cursor| uv.stage_step(c)
}

spec fn uv_found() -> spec_fn(Result<Seq<Seq<char>>, ErrorView>, Cursor) -> Next<
    Seq<Seq<char>>,
> {
    |members: Result<Seq<Seq<char>>, ErrorView>, c: Cursor|
        (match members {
            Ok(members) => Next::Done(seq!["pyproject.toml"@] + members, c),
            Err(e) => c.warn(
                "warning: failed to expand uv workspace members at "@ + c.root + ": "@
                    + error::message_of(e),
            ).and(|u: (), c: Cursor| Next::Done(seq!["pyproject.toml"@], c)),
        }).and(|files: Seq<Seq<char>>, c: Cursor| lock_flow(files, "uv.lock"@)(c))
}

/// Of a uv project the main manifest, those of all members and the lockfile, if
/// there is one, are staged.
pub proof fn law_uv_stages_all_manifests(
    uv: Uv,
    c: Cursor,
    host: spec_fn(AskView) -> Answer,
    t: Seq<char>,
    entries: Entries,
    n: nat,
)
    requires
        conversation::waiting(c),
        toml_roundtrip::doc_of(host, "pyproject.toml"@) == Some((t, entries)),
        conversation::stands(staging_uv(uv), c, host, n) is Done,
    ensures
        ({
            let staged = conversation::stands(staging_uv(uv), c, host, n)->Done_0;
            workspace::members_by(
                host,
                c.sep,
                toml_roundtrip::member_patterns(Node::Table(entries)),
                0,
                Seq::empty(),
                "pyproject.toml"@,
            ) matches Some(members) ==> staged == with_file(
                host,
                seq!["pyproject.toml"@] + members,
                "uv.lock"@,
            )
        }),
{
    let f = staging_uv(uv);
    let q: AskView = AskOf::Read("pyproject.toml"@);
    let c2 = conversation::told(c, host(q));
    conversation::lemma_told(c, host(q));
    toml_roundtrip::lemma_patterns(entries);
    let (d, found, e) = toml_roundtrip::lemma_search(c2, host, entries);
    if let Some(members) = found {
        let g = conversation::continued(toml_roundtrip::search_flow(entries), uv_found());
        let files = seq!["pyproject.toml"@] + members;
        let l = lock_flow(files, "uv.lock"@);
        lemma_uv_asks(uv, c, host, t, entries);
        lemma_uv_found(c2, host, entries, members, e, d);
        conversation::lemma_reaches_on(f, c, g, c2, l, d, host);
        let d2 = lemma_lock(d, host, files, "uv.lock"@);
        let end = end_with(with_file(host, files, "uv.lock"@));
        conversation::lemma_reaches_on(f, c, l, d, end, d2, host);
        let m = conversation::lemma_came_through(f, c, end, d2, host, n);
        conversation::lemma_silent(end, d2, host, m);
    }
}

proof fn lemma_uv_asks(
    uv: Uv,
    c: Cursor,
    host: spec_fn(AskView) -> Answer,
    t: Seq<char>,
    entries: Entries,
)
    requires
        conversation::waiting(c),
        toml_roundtrip::doc_of(host, "pyproject.toml"@) == Some((t, entries)),
    ensures
        conversation::reaches(
            staging_uv(uv),
            c,
            conversation::continued(toml_roundtrip::search_flow(entries), uv_found()),
            conversation::told(c, host(AskOf::Read("pyproject.toml"@))),
            host,
        ),
{
    let q: AskView = AskOf::Read("pyproject.toml"@);
    let g = conversation::continued(toml_roundtrip::search_flow(entries), uv_found());
    conversation::lemma_told(c, host(q));
    conversation::lemma_asks(staging_uv(uv), g, c, host, q);
}

proof fn lemma_uv_found(
    c: Cursor,
    host: spec_fn(AskView) -> Answer,
    entries: Entries,
    members: Seq<Seq<char>>,
    e: ErrorView,
    d: Cursor,
)
    requires
        conversation::reaches(
            toml_roundtrip::search_flow(entries),
            c,
            conversation::settled(Some(members), e),
            d,
            host,
        ),
    ensures
        conversation::reaches(
            conversation::continued(toml_roundtrip::search_flow(entries), uv_found()),
            c,
            lock_flow(seq!["pyproject.toml"@] + members, "uv.lock"@),
            d,
            host,
        ),
{
    let search = toml_roundtrip::search_flow(entries);
    let g = conversation::continued(search, uv_found());
    let v = Ok::<Seq<Seq<char>>, ErrorView>(members);
    let ended = |x: Cursor| Next::Done(v, x);
    let settled = conversation::settled(Some(members), e);
    conversation::lemma_same(settled, ended, d, host);
    conversation::lemma_reaches_on(search, c, settled, d, ended, d, host);
    conversation::lemma_then(search, uv_found(), c, v, d, host);
    let h = |x: Cursor| uv_found()(v, x);
    let l = lock_flow(seq!["pyproject.toml"@] + members, "uv.lock"@);
    conversation::lemma_same(h, l, d, host);
    conversation::lemma_reaches_on(g, c, h, d, l, d, host);
}

// ---------------------------------------------------------------------------
// pnpm and bun
// ---------------------------------------------------------------------------

/// Those of the files from the one at `i` on that have a version.
pub open spec fn versioned(
    host: spec_fn(AskView) -> Answer,
    files: Seq<Seq<char>>,
    i: int,
) -> Seq<Seq<char>>
    decreases files.len() - i,
{
    if i >= files.len() {
        Seq::empty()
    } else {
        (if version_at(host, files[i]) is Some {
            seq![files[i]]
        } else {
            Seq::empty()
        }) + versioned(host, files, i + 1)
    }
}

spec fn versioned_flow(files: Seq<Seq<char>>, i: int, out: Seq<Seq<char>>) -> spec_fn(
    Cursor,
) -> Next<Seq<Seq<char>>> {
    |c: Cursor| pnpm::versioned_step(c, files, i, out)
}

spec fn unread_flow(files: Seq<Seq<char>>, i: int, out: Seq<Seq<char>>, line: Seq<char>) -> spec_fn(
    Cursor,
) -> Next<Seq<Seq<char>>> {
    |c: Cursor| c.warn(line).and(|u: (), c: Cursor| pnpm::versioned_step(c, files, i + 1, out))
}

proof fn lemma_versioned_talk(
    c: Cursor,
    host: spec_fn(AskView) -> Answer,
    files: Seq<Seq<char>>,
    i: int,
    out: Seq<Seq<char>>,
) -> (d: Cursor)
    requires
        conversation::waiting(c),
        0 <= i,
    ensures
        conversation::waiting(d),
        conversation::reaches(
            versioned_flow(files, i, out),
            c,
            end_with(out + versioned(host, files, i)),
            d,
            host,
        ),
    decreases files.len() - i,
{
    let f = versioned_flow(files, i, out);
    let end = end_with(out + versioned(host, files, i));
    if i >= files.len() {
        assert(out + versioned(host, files, i) =~= out);
        conversation::lemma_same(f, end, c, host);
        c
    } else {
        let q: AskView = AskOf::Read(files[i]);
        let a = host(q);
        let c2 = conversation::told(c, a);
        conversation::lemma_told(c, a);
        let more = if version_at(host, files[i]) is Some {
            out.push(files[i])
        } else {
            out
        };
        assert(more + versioned(host, files, i + 1) =~= out + versioned(host, files, i));
        let next = versioned_flow(files, i + 1, more);
        if package_roundtrip::doc_of(host, files[i]) is Some {
            conversation::lemma_asks(f, next, c, host, q);
            let d = lemma_versioned_talk(c2, host, files, i + 1, more);
            conversation::lemma_reaches_on(f, c, next, c2, end, d, host);
            d
        } else {
            let e = pnpm::version_opt_step(c.with(seq![a]), files[i])->Done_0->Err_0;
            let line = "warning: failed to read "@ + files[i] + ": "@ + error::message_of(e);
            let g = unread_flow(files, i, out, line);
            conversation::lemma_asks(f, g, c, host, q);
            let w: AskView = AskOf::Warn(line);
            let c3 = conversation::told(c2, host(w));
            conversation::lemma_told(c2, host(w));
            conversation::lemma_asks(g, next, c2, host, w);
            conversation::lemma_reaches_on(f, c, g, c2, next, c3, host);
            let d = lemma_versioned_talk(c3, host, files, i + 1, more);
            conversation::lemma_reaches_on(f, c, next, c3, end, d, host);
            d
        }
    }
}

/// The main `package.json`, if it has a version.
spec fn root_of(host: spec_fn(AskView) -> Answer) -> Seq<Seq<char>> {
    if version_at(host, "package.json"@) is Some {
        seq!["package.json"@]
    } else {
        Seq::empty()
    }
}

spec fn root_flow() -> spec_fn(Cursor) -> Next<Seq<Seq<char>>> {
    |c: Cursor| pnpm::stage_root_step(c)
}

proof fn lemma_root_talk(c: Cursor, host: spec_fn(AskView) -> Answer) -> (d: Cursor)
    requires
        conversation::waiting(c),
    ensures
        conversation::waiting(d),
        d.sep == c.sep,
        conversation::reaches(root_flow(), c, end_with(root_of(host)), d, host),
{
    let f = root_flow();
    let q: AskView = AskOf::Read("package.json"@);
    let a = host(q);
    let c2 = conversation::told(c, a);
    let end = end_with(root_of(host));
    conversation::lemma_told(c, a);
    if package_roundtrip::doc_of(host, "package.json"@) is Some {
        conversation::lemma_asks(f, end, c, host, q);
        c2
    } else {
        let e = pnpm::version_opt_step(c.with(seq![a]), "package.json"@)->Done_0->Err_0;
        let line = "warning: failed to read root package.json at "@ + c.root + ": "@
            + error::message_of(e);
        let none = Seq::<Seq<char>>::empty();
        let g = |c: Cursor| c.warn(line).and(|u: (), c: Cursor| Next::Done(none, c));
        conversation::lemma_asks(f, g, c, host, q);
        let w: AskView = AskOf::Warn(line);
        let c3 = conversation::told(c2, host(w));
        conversation::lemma_told(c2, host(w));
        conversation::lemma_asks(g, end, c2, host, w);
        conversation::lemma_reaches_on(f, c, g, c2, end, c3, host);
        c3
    }
}

spec fn found_flow(out: Seq<Seq<char>>, kind: Seq<char>) -> spec_fn(
    Result<Seq<Seq<char>>, ErrorView>,
    Cursor,
) -> Next<Seq<Seq<char>>> {
    |files: Result<Seq<Seq<char>>, ErrorView>, c: Cursor|
        match files {
            Ok(files) => pnpm::versioned_step(c, files, 0, out),
            Err(e) => c.warn(
                "warning: failed to expand "@ + kind + " workspace children at "@ + c.root + ": "@
                    + error::message_of(e),
            ).and(|u: (), c: Cursor| Next::Done(out, c)),
        }
}

spec fn files_flow(
    children: spec_fn(Cursor) -> Next<Result<Seq<Seq<char>>, ErrorView>>,
    kind: Seq<char>,
) -> spec_fn(Cursor) -> Next<Seq<Seq<char>>> {
    |c: Cursor| pnpm::stage_files_step(c, children, kind)
}

/// The `package.json` files that have a version, the main one first.
pub open spec fn staged_by(
    host: spec_fn(AskView) -> Answer,
    members: Seq<Seq<char>>,
) -> Seq<Seq<char>> {
    versioned(host, seq!["package.json"@] + members, 0)
}

proof fn lemma_versioned_skip(
    host: spec_fn(AskView) -> Answer,
    first: Seq<char>,
    files: Seq<Seq<char>>,
    i: int,
)
    requires
        0 <= i,
    ensures
        versioned(host, seq![first] + files, i + 1) == versioned(host, files, i),
    decreases files.len() - i,
{
    if i < files.len() {
        assert((seq![first] + files)[i + 1] == files[i]);
        lemma_versioned_skip(host, first, files, i + 1);
    }
}

proof fn lemma_files_talk(
    c: Cursor,
    host: spec_fn(AskView) -> Answer,
    children: spec_fn(Cursor) -> Next<Result<Seq<Seq<char>>, ErrorView>>,
    kind: Seq<char>,
    members: Seq<Seq<char>>,
    c2: Cursor,
    c3: Cursor,
    e: ErrorView,
) -> (d: Cursor)
    requires
        conversation::waiting(c3),
        conversation::reaches(root_flow(), c, end_with(root_of(host)), c2, host),
        conversation::reaches(
            children,
            c2,
            conversation::settled(Some(members), e),
            c3,
            host,
        ),
    ensures
        conversation::waiting(d),
        conversation::reaches(
            files_flow(children, kind),
            c,
            end_with(staged_by(host, members)),
            d,
            host,
        ),
{
    let f = files_flow(children, kind);
    let out = root_of(host);
    let behind = |out: Seq<Seq<char>>, c: Cursor| children(c).and(found_flow(out, kind));
    let g = conversation::continued(root_flow(), behind);
    conversation::lemma_same(f, g, c, host);
    conversation::lemma_then(root_flow(), behind, c, out, c2, host);
    let h = |x: Cursor| behind(out, x);
    conversation::lemma_reaches_on(f, c, g, c, h, c2, host);
    let k = conversation::continued(children, found_flow(out, kind));
    conversation::lemma_same(h, k, c2, host);
    conversation::lemma_reaches_on(f, c, h, c2, k, c2, host);
    let v = Ok::<Seq<Seq<char>>, ErrorView>(members);
    let ended = |x: Cursor| Next::Done(v, x);
    let settled = conversation::settled(Some(members), e);
    conversation::lemma_same(settled, ended, c3, host);
    conversation::lemma_reaches_on(children, c2, settled, c3, ended, c3, host);
    conversation::lemma_then(children, found_flow(out, kind), c2, v, c3, host);
    let l = |x: Cursor| found_flow(out, kind)(v, x);
    conversation::lemma_reaches_on(f, c, k, c2, l, c3, host);
    let o = versioned_flow(members, 0, out);
    conversation::lemma_same(l, o, c3, host);
    conversation::lemma_reaches_on(f, c, l, c3, o, c3, host);
    let d = lemma_versioned_talk(c3, host, members, 0, out);
    lemma_versioned_skip(host, "package.json"@, members, 0);
    assert(out + versioned(host, members, 0) =~= staged_by(host, members));
    let end = end_with(staged_by(host, members));
    conversation::lemma_reaches_on(f, c, o, c3, end, d, host);
    d
}

/// Stage a pnpm project.
pub open spec fn staging_pnpm(pnpm: Pnpm) -> spec_fn(Cursor) -> Next<Seq<Seq<char>>> {
    |c: Cursor| pnpm.stage_step(c)
}

/// Stage a bun project.
pub open spec fn staging_bun(bun: Bun) -> spec_fn(Cursor) -> Next<Seq<Seq<char>>> {
    |c: Cursor| bun.stage_step(c)
}

/// Of a pnpm project the `package.json` files that have a version, the main one
/// and those of the members, and the lockfile, if there is one, are staged.
pub proof fn law_pnpm_stages_all_versions(
    pnpm: Pnpm,
    c: Cursor,
    host: spec_fn(AskView) -> Answer,
    n: nat,
)
    requires
        conversation::waiting(c),
        conversation::stands(staging_pnpm(pnpm), c, host, n) is Done,
        pnpm_members_by(host, c.sep) is Some,
    ensures
        pnpm_members_by(host, c.sep) matches Some(members) && conversation::stands(
            staging_pnpm(pnpm),
            c,
            host,
            n,
        )->Done_0 == with_file(host, staged_by(host, members), "pnpm-lock.yaml"@),
{
    let f = staging_pnpm(pnpm);
    let children = |c: Cursor| pnpm::pnpm_children_step(c);
    let lock = |files: Seq<Seq<char>>, c: Cursor| lock_flow(files, "pnpm-lock.yaml"@)(c);
    let stage = files_flow(children, "pnpm"@);
    let g = conversation::continued(stage, lock);
    conversation::lemma_same(f, g, c, host);
    let c2 = lemma_root_talk(c, host);
    let (c3, e) = lemma_pnpm_search(c2, host);
    let members = pnpm_members_by(host, c.sep)->0;
    let d = lemma_files_talk(c, host, children, "pnpm"@, members, c2, c3, e);
    let files = staged_by(host, members);
    let ended = |x: Cursor| Next::Done(files, x);
    conversation::lemma_same(end_with(files), ended, d, host);
    conversation::lemma_reaches_on(stage, c, end_with(files), d, ended, d, host);
    conversation::lemma_then(stage, lock, c, files, d, host);
    let h = |x: Cursor| lock(files, x);
    conversation::lemma_reaches_on(f, c, g, c, h, d, host);
    let l = lock_flow(files, "pnpm-lock.yaml"@);
    conversation::lemma_same(h, l, d, host);
    conversation::lemma_reaches_on(f, c, h, d, l, d, host);
    let d2 = lemma_lock(d, host, files, "pnpm-lock.yaml"@);
    let end = end_with(with_file(host, files, "pnpm-lock.yaml"@));
    conversation::lemma_reaches_on(f, c, l, d, end, d2, host);
    let m = conversation::lemma_came_through(f, c, end, d2, host, n);
    conversation::lemma_silent(end, d2, host, m);
}

/// Of a bun project the `package.json` files that have a version, the main one
/// and those of the members, and the lockfiles that there are, are staged.
pub proof fn law_bun_stages_all_versions(
    bun: Bun,
    c: Cursor,
    host: spec_fn(AskView) -> Answer,
    n: nat,
)
    requires
        conversation::waiting(c),
        conversation::stands(staging_bun(bun), c, host, n) is Done,
        bun_members_by(host, c.sep) is Some,
    ensures
        bun_members_by(host, c.sep) matches Some(members) && conversation::stands(
            staging_bun(bun),
            c,
            host,
            n,
        )->Done_0 == with_file(
            host,
            with_file(host, staged_by(host, members), "bun.lock"@),
            "bun.lockb"@,
        ),
{
    let f = staging_bun(bun);
    let children = |c: Cursor| bun::bun_children_step(c);
    let lock = |files: Seq<Seq<char>>, c: Cursor| bun_locks(files)(c);
    let stage = files_flow(children, "bun"@);
    let g = conversation::continued(stage, lock);
    conversation::lemma_same(f, g, c, host);
    let c2 = lemma_root_talk(c, host);
    let (c3, e) = lemma_bun_search(c2, host);
    let members = bun_members_by(host, c.sep)->0;
    let d = lemma_files_talk(c, host, children, "bun"@, members, c2, c3, e);
    let files = staged_by(host, members);
    let ended = |x: Cursor| Next::Done(files, x);
    conversation::lemma_same(end_with(files), ended, d, host);
    conversation::lemma_reaches_on(stage, c, end_with(files), d, ended, d, host);
    conversation::lemma_then(stage, lock, c, files, d, host);
    let h = |x: Cursor| lock(files, x);
    conversation::lemma_reaches_on(f, c, g, c, h, d, host);
    let l = bun_locks(files);
    conversation::lemma_same(h, l, d, host);
    conversation::lemma_reaches_on(f, c, h, d, l, d, host);
    let d2 = lemma_bun_locks(d, host, files);
    let both = with_file(host, with_file(host, files, "bun.lock"@), "bun.lockb"@);
    conversation::lemma_reaches_on(f, c, l, d, end_with(both), d2, host);
    let m = conversation::lemma_came_through(f, c, end_with(both), d2, host, n);
    conversation::lemma_silent(end_with(both), d2, host, m);
}

/// Look for the lockfiles of bun.
spec fn bun_locks(files: Seq<Seq<char>>) -> spec_fn(Cursor) -> Next<Seq<Seq<char>>> {
    |c: Cursor|
        c.is_file("bun.lock"@).and(
            |text: bool, c: Cursor|
                c.is_file("bun.lockb"@).and(
                    |binary: bool, c: Cursor|
                        Next::Done(
                            files + (if text {
                                seq!["bun.lock"@]
                            } else {
                                seq![]
                            }) + (if binary {
                                seq!["bun.lockb"@]
                            } else {
                                seq![]
                            }),
                            c,
                        ),
                ),
        )
}

proof fn lemma_bun_locks(
    c: Cursor,
    host: spec_fn(AskView) -> Answer,
    files: Seq<Seq<char>>,
) -> (d: Cursor)
    requires
        conversation::waiting(c),
    ensures
        conversation::reaches(
            bun_locks(files),
            c,
            end_with(with_file(host, with_file(host, files, "bun.lock"@), "bun.lockb"@)),
            d,
            host,
        ),
{
    let f = bun_locks(files);
    let q: AskView = AskOf::IsFile("bun.lock"@);
    let text = with_file(host, files, "bun.lock"@);
    let l = lock_flow(text, "bun.lockb"@);
    let c2 = conversation::told(c, host(q));
    let none = Seq::<Seq<char>>::empty();
    conversation::lemma_told(c, host(q));
    assert(files + none =~= files);
    assert(files + seq!["bun.lock"@] =~= files.push("bun.lock"@));
    assert(text + none =~= text);
    assert(text + seq!["bun.lockb"@] =~= text.push("bun.lockb"@));
    conversation::lemma_asks(f, l, c, host, q);
    let d = lemma_lock(c2, host, text, "bun.lockb"@);
    let end = end_with(with_file(host, text, "bun.lockb"@));
    conversation::lemma_reaches_on(f, c, l, c2, end, d, host);
    d
}

} // verus!
