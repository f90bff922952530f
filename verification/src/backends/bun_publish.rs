//! What publishing a bun workspace runs.

use vstd::prelude::*;

use crate::backend::Backend;
use crate::backends;
use crate::backends::bun;
use crate::backends::bun::Bun;
use crate::backends::package_roundtrip::bun_members_by;
use crate::backends::package_roundtrip::doc_of;
use crate::backends::package_roundtrip::lemma_bun_search;
use crate::backends::package_roundtrip::version_text;
use crate::backends::pnpm;
use crate::conversation;
use crate::data;
use crate::data::Node;
use crate::error::ErrorView;
use crate::graph;
use crate::memory;
use crate::packages;
use crate::packages::PackageView;
use crate::paths;
use crate::session;
use crate::session::Answer;
use crate::session::AskOf;
use crate::session::AskView;
use crate::session::Cursor;
use crate::session::Next;
use crate::text;

verus! {

/// A package may be published: it has a version and is not private.
pub open spec fn may_publish(node: Node) -> bool {
    version_text(node) is Some && data::field(node, "private"@) != Some(Node::Flag(true))
}

/// The name of a package.
pub open spec fn name_in(node: Node) -> Option<Seq<char>> {
    match data::field(node, "name"@) {
        Some(Node::Text(name)) => Some(name),
        _ => None,
    }
}

/// The package has a dependency of this kind on one with this name.
pub open spec fn names_under(node: Node, kind: Seq<char>, name: Seq<char>) -> bool {
    data::field(node, kind) matches Some(Node::Table(entries)) && data::find(entries, name) is Some
}

/// The package depends on one with this name, for running, for development, as
/// a peer or optionally.
pub open spec fn depends_on(node: Node, name: Seq<char>) -> bool {
    ||| names_under(node, "dependencies"@, name)
    ||| names_under(node, "devDependencies"@, name)
    ||| names_under(node, "peerDependencies"@, name)
    ||| names_under(node, "optionalDependencies"@, name)
}

/// The `package.json` files of a workspace: the main one, if there is one, and
/// those of the members.
pub open spec fn files_by(host: spec_fn(AskView) -> Answer, sep: char) -> Option<Seq<Seq<char>>> {
    match bun_members_by(host, sep) {
        Some(members) => Some(
            if host(AskOf::IsFile("package.json"@)) is Yes {
                seq!["package.json"@] + members
            } else {
                members
            },
        ),
        None => None,
    }
}

/// Those of the files from the one at `i` on whose packages may be published;
/// `None` if one of these cannot be read.
pub open spec fn publishable_by(
    host: spec_fn(AskView) -> Answer,
    files: Seq<Seq<char>>,
    i: int,
) -> Option<Seq<Seq<char>>>
    decreases files.len() - i,
{
    if i >= files.len() {
        Some(Seq::empty())
    } else {
        match (doc_of(host, files[i]), publishable_by(host, files, i + 1)) {
            (Some(doc), Some(rest)) => Some(
                if may_publish(doc.1) {
                    seq![files[i]] + rest
                } else {
                    rest
                },
            ),
            _ => None,
        }
    }
}

/// The packages of these files.
spec fn packages_of(host: spec_fn(AskView) -> Answer, sep: char, files: Seq<Seq<char>>) -> Seq<
    PackageView,
> {
    Seq::new(
        files.len(),
        |k: int|
            {
                let (_, node) = doc_of(host, files[k])->0;
                bun::candidate(paths::parent(files[k], sep), node)
            },
    )
}

spec fn candidates_flow(files: Seq<Seq<char>>, i: int, out: Seq<PackageView>) -> spec_fn(
    Cursor,
) -> Next<Result<Seq<PackageView>, ErrorView>> {
    |c: Cursor| bun::candidates_step(c, files, i, out)
}

/// The packages to publish that a host lets find.
spec fn candidates_by(
    host: spec_fn(AskView) -> Answer,
    sep: char,
    files: Seq<Seq<char>>,
    i: int,
    out: Seq<PackageView>,
) -> Option<Seq<PackageView>> {
    match publishable_by(host, files, i) {
        Some(list) => Some(out + packages_of(host, sep, list)),
        None => None,
    }
}

proof fn lemma_may_publish(node: Node)
    ensures
        may_publish(node) == pnpm::publishable(node),
{
}

proof fn lemma_candidates_talk(
    c: Cursor,
    host: spec_fn(AskView) -> Answer,
    files: Seq<Seq<char>>,
    i: int,
    out: Seq<PackageView>,
) -> (r: (Cursor, ErrorView))
    requires
        conversation::waiting(c),
        0 <= i,
    ensures
        conversation::waiting(r.0),
        conversation::reaches(
            candidates_flow(files, i, out),
            c,
            conversation::settled(candidates_by(host, c.sep, files, i, out), r.1),
            r.0,
            host,
        ),
    decreases files.len() - i,
{
    let f = candidates_flow(files, i, out);
    let all = candidates_by(host, c.sep, files, i, out);
    if i >= files.len() {
        let e = arbitrary();
        assert(out + packages_of(host, c.sep, Seq::empty()) =~= out);
        conversation::lemma_same(f, conversation::settled(all, e), c, host);
        (c, e)
    } else {
        let path = files[i];
        let q: AskView = AskOf::Read(path);
        let c2 = conversation::told(c, host(q));
        conversation::lemma_told(c, host(q));
        match doc_of(host, path) {
            Some(doc) => {
                lemma_may_publish(doc.1);
                let more = if may_publish(doc.1) {
                    out.push(bun::candidate(paths::parent(path, c.sep), doc.1))
                } else {
                    out
                };
                let g = candidates_flow(files, i + 1, more);
                conversation::lemma_asks(f, g, c, host, q);
                let (d, e) = lemma_candidates_talk(c2, host, files, i + 1, more);
                let rest = candidates_by(host, c.sep, files, i + 1, more);
                if let Some(list) = publishable_by(host, files, i + 1) {
                    let longer = publishable_by(host, files, i)->0;
                    assert(more + packages_of(host, c.sep, list) =~= out + packages_of(
                        host,
                        c.sep,
                        longer,
                    ));
                }
                assert(rest == all);
                let end = conversation::settled(all, e);
                conversation::lemma_reaches_on(f, c, g, c2, end, d, host);
                (d, e)
            },
            None => {
                let e = f(c.with(seq![host(q)]))->Done_0->Err_0;
                conversation::lemma_asks(f, conversation::settled(all, e), c, host, q);
                (c2, e)
            },
        }
    }
}

/// The packages to publish, with what they depend on, that a host lets find.
spec fn collected_by(host: spec_fn(AskView) -> Answer, sep: char) -> Option<Seq<PackageView>> {
    match files_by(host, sep) {
        Some(files) => match candidates_by(host, sep, files, 0, Seq::empty()) {
            Some(pkgs) => Some(bun::publishable_packages(pkgs)),
            None => None,
        },
        None => None,
    }
}

/// The directories to publish that a host lets find.
spec fn dirs_by(host: spec_fn(AskView) -> Answer, sep: char) -> Option<Seq<Seq<char>>> {
    match collected_by(host, sep) {
        Some(pkgs) => match bun::ordered_dirs(pkgs) {
            Ok(dirs) => Some(dirs),
            Err(_) => None,
        },
        None => None,
    }
}

spec fn behind_search(there: bool) -> spec_fn(Seq<Seq<char>>, Cursor) -> Next<
    Result<Seq<PackageView>, ErrorView>,
> {
    |children: Seq<Seq<char>>, c: Cursor|
        bun::candidates_step(
            c,
            if there {
                seq!["package.json"@] + children
            } else {
                children
            },
            0,
            Seq::empty(),
        ).and_ok(
            |pkgs: Seq<PackageView>, c: Cursor| Next::Done(Ok(bun::publishable_packages(pkgs)), c),
        )
}

spec fn search_flow() -> spec_fn(Cursor) -> Next<Result<Seq<Seq<char>>, ErrorView>> {
    |c: Cursor| bun::bun_children_step(c)
}

spec fn collect_flow() -> spec_fn(Cursor) -> Next<Result<Seq<PackageView>, ErrorView>> {
    |c: Cursor| bun::collect_step(c)
}

spec fn dirs_flow() -> spec_fn(Cursor) -> Next<Result<Seq<Seq<char>>, ErrorView>> {
    |c: Cursor| bun::publish_dirs_step(c)
}

proof fn lemma_collect_talk(c: Cursor, host: spec_fn(AskView) -> Answer) -> (r: (
    Cursor,
    ErrorView,
))
    requires
        conversation::waiting(c),
    ensures
        conversation::waiting(r.0),
        conversation::reaches(
            collect_flow(),
            c,
            conversation::settled(collected_by(host, c.sep), r.1),
            r.0,
            host,
        ),
{
    let f = collect_flow();
    let all = collected_by(host, c.sep);
    let q: AskView = AskOf::IsFile("package.json"@);
    let c2 = conversation::told(c, host(q));
    conversation::lemma_told(c, host(q));
    let there = session::says_yes(host(q));
    let then_do = behind_search(there);
    let g = conversation::followed(search_flow(), then_do);
    conversation::lemma_asks(f, g, c, host, q);
    let (d, e) = lemma_bun_search(c2, host);
    let found = bun_members_by(host, c.sep);
    conversation::lemma_follows(search_flow(), then_do, c2, found, e, d, host);
    let h = conversation::onward(then_do, found, e);
    conversation::lemma_reaches_on(f, c, g, c2, h, d, host);
    match found {
        None => {
            let end = conversation::settled(all, e);
            conversation::lemma_same(h, end, d, host);
            conversation::lemma_reaches_on(f, c, h, d, end, d, host);
            (d, e)
        },
        Some(children) => {
            let files = files_by(host, c.sep)->0;
            let none = Seq::<PackageView>::empty();
            let last = |pkgs: Seq<PackageView>, c: Cursor|
                Next::Done(Ok::<_, ErrorView>(bun::publishable_packages(pkgs)), c);
            let flow = candidates_flow(files, 0, none);
            let k = conversation::followed(flow, last);
            conversation::lemma_same(h, k, d, host);
            conversation::lemma_reaches_on(f, c, h, d, k, d, host);
            let (d2, e2) = lemma_candidates_talk(d, host, files, 0, none);
            let pkgs = candidates_by(host, c.sep, files, 0, none);
            conversation::lemma_follows(flow, last, d, pkgs, e2, d2, host);
            let l = conversation::onward(last, pkgs, e2);
            conversation::lemma_reaches_on(f, c, k, d, l, d2, host);
            let end = conversation::settled(all, e2);
            conversation::lemma_same(l, end, d2, host);
            conversation::lemma_reaches_on(f, c, l, d2, end, d2, host);
            (d2, e2)
        },
    }
}

proof fn lemma_dirs_talk(c: Cursor, host: spec_fn(AskView) -> Answer) -> (r: (Cursor, ErrorView))
    requires
        conversation::waiting(c),
    ensures
        conversation::waiting(r.0),
        conversation::reaches(
            dirs_flow(),
            c,
            conversation::settled(dirs_by(host, c.sep), r.1),
            r.0,
            host,
        ),
{
    let f = dirs_flow();
    let order = |pkgs: Seq<PackageView>, c: Cursor| Next::Done(bun::ordered_dirs(pkgs), c);
    let g = conversation::followed(collect_flow(), order);
    conversation::lemma_same(f, g, c, host);
    let (d, e) = lemma_collect_talk(c, host);
    let pkgs = collected_by(host, c.sep);
    conversation::lemma_follows(collect_flow(), order, c, pkgs, e, d, host);
    let h = conversation::onward(order, pkgs, e);
    conversation::lemma_reaches_on(f, c, g, c, h, d, host);
    let e2 = match pkgs {
        Some(pkgs) => bun::ordered_dirs(pkgs)->Err_0,
        None => e,
    };
    let end = conversation::settled(dirs_by(host, c.sep), e2);
    conversation::lemma_same(h, end, d, host);
    conversation::lemma_reaches_on(f, c, h, d, end, d, host);
    (d, e2)
}

// ---------------------------------------------------------------------------
// The order
// ---------------------------------------------------------------------------

/// The name of the package of a file, if it has one.
pub open spec fn name_of(host: spec_fn(AskView) -> Answer, path: Seq<char>) -> Option<Seq<char>> {
    match doc_of(host, path) {
        Some(doc) => name_in(doc.1),
        None => None,
    }
}

/// No file behind the one at `j` has a package of the same name.
pub open spec fn is_last_of_its_name(
    host: spec_fn(AskView) -> Answer,
    files: Seq<Seq<char>>,
    j: int,
) -> bool {
    forall|k: int|
        j < k < files.len() ==> name_of(host, #[trigger] files[k]) != name_of(host, files[j])
}

/// The order has every file once, and each behind those whose packages it
/// depends on.
pub open spec fn is_publish_order(
    host: spec_fn(AskView) -> Answer,
    files: Seq<Seq<char>>,
    order: Seq<usize>,
) -> bool {
    &&& packages::permutes(order, files.len())
    &&& forall|p: int, q: int|
        #![trigger order[p], order[q]]
        0 <= p < order.len() && 0 <= q < order.len() && p != q && (name_of(
            host,
            files[order[q] as int],
        ) matches Some(name) && name_of(host, files[order[p] as int]) != Some(name)
            && is_last_of_its_name(host, files, order[q] as int) && (doc_of(
            host,
            files[order[p] as int],
        ) matches Some(doc) && depends_on(doc.1, name))) ==> q < p
}

proof fn lemma_depends(node: Node, name: Seq<char>)
    requires
        depends_on(node, name),
    ensures
        bun::dep_names_in(node).contains(name),
{
    let k: int = if names_under(node, "dependencies"@, name) {
        0
    } else if names_under(node, "devDependencies"@, name) {
        1
    } else if names_under(node, "peerDependencies"@, name) {
        2
    } else {
        3
    };
    let kind = bun::dep_keys()[k];
    assert(names_under(node, kind, name));
    if let Some(Node::Table(entries)) = data::field(node, kind) {
        let i = data::lemma_find(entries, name);
        assert(data::keys_of(entries)[i] == name);
        assert(bun::names_in(node, kind).contains(name));
    }
}

/// Directories of these files, in this order.
pub open spec fn dirs_along(files: Seq<Seq<char>>, order: Seq<usize>, sep: char) -> Seq<Seq<char>> {
    Seq::new(order.len(), |k: int| paths::parent(files[order[k] as int], sep))
}

proof fn lemma_publishable_read(
    host: spec_fn(AskView) -> Answer,
    files: Seq<Seq<char>>,
    i: int,
)
    requires
        0 <= i,
    ensures
        publishable_by(host, files, i) matches Some(list) ==> forall|k: int|
            0 <= k < list.len() ==> doc_of(host, #[trigger] list[k]) is Some,
    decreases files.len() - i,
{
    if i < files.len() {
        lemma_publishable_read(host, files, i + 1);
        if let Some(list) = publishable_by(host, files, i) {
            let rest = publishable_by(host, files, i + 1)->0;
            assert forall|k: int| 0 <= k < list.len() implies doc_of(
                host,
                #[trigger] list[k],
            ) is Some by {
                if list.len() > rest.len() && k > 0 {
                    assert(list[k] == rest[k - 1]);
                } else if list.len() == rest.len() {
                    assert(list[k] == rest[k]);
                }
            }
        }
    }
}

/// The order of the packages is one in which they can be published.
proof fn lemma_order(host: spec_fn(AskView) -> Answer, sep: char, files: Seq<Seq<char>>) -> (order:
    Seq<usize>)
    requires
        files.len() <= usize::MAX,
        forall|k: int| 0 <= k < files.len() ==> doc_of(host, #[trigger] files[k]) is Some,
        bun::ordered_dirs(bun::publishable_packages(packages_of(host, sep, files))) is Ok,
    ensures
        is_publish_order(host, files, order),
        bun::ordered_dirs(bun::publishable_packages(packages_of(host, sep, files)))->Ok_0
            == dirs_along(files, order, sep),
{
    let all = packages_of(host, sep, files);
    let pkgs = bun::publishable_packages(all);
    let order = packages::law_order_is_sound(pkgs, true);
    let dirs = bun::ordered_dirs(pkgs)->Ok_0;
    assert(dirs =~= dirs_along(files, order, sep)) by {
        assert forall|k: int| 0 <= k < order.len() implies dirs[k] == paths::parent(
            files[order[k] as int],
            sep,
        ) by {
            assert(pkgs[order[k] as int].place == all[order[k] as int].place);
        }
    }
    assert forall|p: int, q: int|
        #![trigger order[p], order[q]]
        0 <= p < order.len() && 0 <= q < order.len() && p != q && (name_of(
            host,
            files[order[q] as int],
        ) matches Some(name) && name_of(host, files[order[p] as int]) != Some(name)
            && is_last_of_its_name(host, files, order[q] as int) && (doc_of(
            host,
            files[order[p] as int],
        ) matches Some(doc) && depends_on(doc.1, name))) implies q < p by {
        let (i, j) = (order[p] as int, order[q] as int);
        let name = name_of(host, files[j])->0;
        let doc = doc_of(host, files[i])->0;
        lemma_depends(doc.1, name);
        assert(all[j].name == Some(name));
        assert(bun::is_name(all, name));
        assert(all[i].intra_deps.contains(name));
        assert(pkgs[i].intra_deps.contains(name));
        assert(packages::is_last_named(pkgs, j)) by {
            assert(pkgs[j].name == all[j].name);
            assert forall|k: int| j < k < pkgs.len() implies (#[trigger] pkgs[k]).name
                != pkgs[j].name by {
                assert(pkgs[k].name == all[k].name);
                assert(doc_of(host, files[k]) is Some);
                assert(name_of(host, files[k]) != name_of(host, files[j]));
            }
        }
    }
    order
}

// ---------------------------------------------------------------------------
// The commands
// ---------------------------------------------------------------------------

/// The requests to publish these directories.
pub open spec fn publish_asks(dirs: Seq<Seq<char>>) -> Seq<AskView> {
    Seq::new(dirs.len(), |i: int| AskOf::Run(dirs[i], "bun"@, seq!["publish"@]))
}

/// Does the registry know the user?
pub open spec fn whoami_ask() -> AskView {
    AskOf::Probe("bun"@, seq!["pm"@, "whoami"@])
}

/// Log in to the registry.
pub open spec fn login_ask() -> AskView {
    AskOf::Run(""@, "npm"@, seq!["login"@])
}

spec fn each_flow(dirs: Seq<Seq<char>>, i: int) -> spec_fn(Cursor) -> Next<Result<(), ErrorView>> {
    |c: Cursor| bun::publish_each_step(c, dirs, i)
}

proof fn lemma_each(
    c: Cursor,
    host: spec_fn(Seq<AskView>, AskView) -> Answer,
    past: Seq<AskView>,
    dirs: Seq<Seq<char>>,
    i: int,
    n: nat,
)
    requires
        conversation::waiting(c),
        0 <= i <= dirs.len(),
        memory::ends(each_flow(dirs, i), c, host, past, n) matches Some((Ok(_), _)),
    ensures
        ({
            let (_, later) = memory::ends(each_flow(dirs, i), c, host, past, n)->0;
            later == past + publish_asks(dirs).skip(i)
        }),
    decreases dirs.len() - i,
{
    let f = each_flow(dirs, i);
    let (_, later) = memory::ends(f, c, host, past, n)->0;
    let all = publish_asks(dirs);
    if i >= dirs.len() {
        assert(past + all.skip(i) =~= past);
    } else {
        let g = each_flow(dirs, i + 1);
        let q: AskView = AskOf::Run(dirs[i], "bun"@, seq!["publish"@]);
        let a = host(past, q);
        let c2 = conversation::told(c, a);
        conversation::lemma_told(c, a);
        if a is Yes {
            memory::lemma_one(f, g, c, host, past, q, n);
            lemma_each(c2, host, past.push(q), dirs, i + 1, (n - 1) as nat);
            assert(past.push(q) + all.skip(i + 1) =~= past + all.skip(i));
        } else {
            let e = f(c.with(seq![a]))->Done_0->Err_0;
            let h = |c: Cursor| Next::Done(Err::<(), ErrorView>(e), c);
            memory::lemma_one(f, h, c, host, past, q, n);
            assert(h(c2) is Done);
        }
    }
}

spec fn login_flow(dirs: Seq<Seq<char>>) -> spec_fn(Cursor) -> Next<Result<(), ErrorView>> {
    |c: Cursor|
        backends::login_step(c, "bun"@, seq!["pm"@, "whoami"@]).and_ok(
            |u: (), c: Cursor| bun::publish_each_step(c, dirs, 0),
        )
}

/// Log in, unless the registry knows the user, and publish.
proof fn lemma_login(
    c: Cursor,
    host: spec_fn(Seq<AskView>, AskView) -> Answer,
    past: Seq<AskView>,
    dirs: Seq<Seq<char>>,
    n: nat,
)
    requires
        conversation::waiting(c),
        memory::ends(login_flow(dirs), c, host, past, n) matches Some((Ok(_), _)),
    ensures
        ({
            let (_, later) = memory::ends(login_flow(dirs), c, host, past, n)->0;
            later == past.push(whoami_ask()) + (if host(past, whoami_ask()) is Yes {
                Seq::empty()
            } else {
                seq![
                    AskOf::Warn("not logged in to npm registry; running `npm login`"@),
                    login_ask(),
                ]
            }) + publish_asks(dirs)
        }),
{
    let f = login_flow(dirs);
    let g = each_flow(dirs, 0);
    let q = whoami_ask();
    let a = host(past, q);
    let c2 = conversation::told(c, a);
    let past2 = past.push(q);
    let all = publish_asks(dirs);
    conversation::lemma_told(c, a);
    assert(all.skip(0) =~= all);
    if a is Yes {
        memory::lemma_one(f, g, c, host, past, q, n);
        lemma_each(c2, host, past2, dirs, 0, (n - 1) as nat);
        assert(past2 + all =~= past2 + Seq::<AskView>::empty() + all);
    } else if a is Failed {
        let e = f(c.with(seq![a]))->Done_0->Err_0;
        let h = |c: Cursor| Next::Done(Err::<(), ErrorView>(e), c);
        memory::lemma_one(f, h, c, host, past, q, n);
        assert(h(c2) is Done);
    } else {
        let each = |u: (), c: Cursor| bun::publish_each_step(c, dirs, 0);
        let run = |c: Cursor| c.run(""@, "npm"@, seq!["login"@]).and_ok(each);
        let warn = |c: Cursor|
            c.warn("not logged in to npm registry; running `npm login`"@).and(
                |u: (), c: Cursor| c.run(""@, "npm"@, seq!["login"@]),
            ).and_ok(each);
        memory::lemma_one(f, warn, c, host, past, q, n);
        let m = (n - 1) as nat;
        let w: AskView = AskOf::Warn("not logged in to npm registry; running `npm login`"@);
        let b = host(past2, w);
        let c3 = conversation::told(c2, b);
        let past3 = past2.push(w);
        conversation::lemma_told(c2, b);
        memory::lemma_one(warn, run, c2, host, past2, w, m);
        let l = (m - 1) as nat;
        let x = login_ask();
        let y = host(past3, x);
        let c4 = conversation::told(c3, y);
        let past4 = past3.push(x);
        conversation::lemma_told(c3, y);
        if y is Yes {
            memory::lemma_one(run, g, c3, host, past3, x, l);
            lemma_each(c4, host, past4, dirs, 0, (l - 1) as nat);
            assert(past4 + all =~= past2 + seq![w, x] + all);
        } else {
            let e = run(c3.with(seq![y]))->Done_0->Err_0;
            let h = |c: Cursor| Next::Done(Err::<(), ErrorView>(e), c);
            memory::lemma_one(run, h, c3, host, past3, x, l);
            assert(h(c4) is Done);
        }
    }
}

/// Publish a bun workspace.
pub open spec fn publishing(bun: Bun) -> spec_fn(Cursor) -> Next<Result<(), ErrorView>> {
    |c: Cursor| bun.publish_step(c)
}

/// Show what publishing a bun workspace would run.
pub open spec fn showing(bun: Bun) -> spec_fn(Cursor) -> Next<
    Result<Option<Seq<char>>, ErrorView>,
> {
    |c: Cursor| bun.publish_preview_step(c)
}

/// Tell whether there is anything to publish.
pub open spec fn telling(bun: Bun) -> spec_fn(Cursor) -> Next<Result<bool, ErrorView>> {
    |c: Cursor| bun.publishable_step(c)
}

/// The files whose packages may be published, by the host.
pub open spec fn chosen_by(host: spec_fn(AskView) -> Answer, sep: char) -> Option<Seq<Seq<char>>> {
    match files_by(host, sep) {
        Some(files) => publishable_by(host, files, 0),
        None => None,
    }
}

/// What is chosen, in the order in which it is published.
proof fn lemma_chosen(host: spec_fn(AskView) -> Answer, sep: char) -> (order: Seq<usize>)
    requires
        dirs_by(host, sep) is Some,
        chosen_by(host, sep) matches Some(files) ==> files.len() <= usize::MAX,
    ensures
        chosen_by(host, sep) matches Some(files) && is_publish_order(host, files, order) && dirs_by(
            host,
            sep,
        ) == Some(dirs_along(files, order, sep)),
{
    let all = files_by(host, sep)->0;
    let files = publishable_by(host, all, 0)->0;
    lemma_publishable_read(host, all, 0);
    assert(Seq::<PackageView>::empty() + packages_of(host, sep, files) =~= packages_of(
        host,
        sep,
        files,
    ));
    lemma_order(host, sep, files)
}

/// Publishing a bun workspace publishes, each in its directory, the packages
/// that have a version and are not private, the main one and the members, once
/// each, and each behind those that it depends on. Nothing else is run but `npm
/// login`, if the registry does not know the user; where there is nothing to
/// publish, nothing is run at all.
pub proof fn law_packages_are_published_in_order(
    bun: Bun,
    c: Cursor,
    host: spec_fn(Seq<AskView>, AskView) -> Answer,
    same: spec_fn(Seq<char>, Seq<char>) -> bool,
    past: Seq<AskView>,
    n: nat,
) -> (r: (Seq<Seq<char>>, Seq<usize>, Seq<AskView>))
    requires
        memory::remembers(host, same),
        conversation::waiting(c),
        memory::ends(publishing(bun), c, host, past, n) matches Some((Ok(_), _)),
        chosen_by(memory::now(host, past), c.sep) matches Some(files) ==> files.len()
            <= usize::MAX,
    ensures
        ({
            let first = memory::now(host, past);
            let (_, later) = memory::ends(publishing(bun), c, host, past, n)->0;
            let (files, order, mid) = r;
            &&& chosen_by(first, c.sep) == Some(files)
            &&& is_publish_order(first, files, order)
            &&& memory::looked_on(past, mid)
            &&& later == (if files.len() == 0 {
                mid
            } else {
                mid.push(whoami_ask()) + (if host(mid, whoami_ask()) is Yes {
                    Seq::empty()
                } else {
                    seq![
                        AskOf::Warn("not logged in to npm registry; running `npm login`"@),
                        login_ask(),
                    ]
                }) + publish_asks(dirs_along(files, order, c.sep))
            })
        }),
{
    let f = publishing(bun);
    let first = memory::now(host, past);
    let publish = |dirs: Seq<Seq<char>>, c: Cursor|
        if dirs.len() == 0 {
            Next::Done(Ok::<(), ErrorView>(()), c)
        } else {
            login_flow(dirs)(c)
        };
    let g = conversation::followed(dirs_flow(), publish);
    conversation::lemma_same(f, g, c, first);
    let (d, e) = lemma_dirs_talk(c, first);
    let found = dirs_by(first, c.sep);
    conversation::lemma_follows(dirs_flow(), publish, c, found, e, d, first);
    let h = conversation::onward(publish, found, e);
    conversation::lemma_reaches_on(f, c, g, c, h, d, first);
    let (mid, m) = memory::lemma_through(f, c, h, d, host, same, past, n);
    if found is None {
        assert(h(d) is Done);
    }
    let order = lemma_chosen(first, c.sep);
    let files = chosen_by(first, c.sep)->0;
    let dirs = found->0;
    if files.len() == 0 {
        assert(h(d) is Done);
    } else {
        memory::lemma_same_end(h, d, login_flow(dirs), d, host, mid, m);
        lemma_login(d, host, mid, dirs, m);
    }
    (files, order, mid)
}

/// How publishing these directories is shown.
pub open spec fn shown_as(dirs: Seq<Seq<char>>) -> Option<Seq<char>> {
    if dirs.len() == 0 {
        None
    } else if dirs.len() == 1 && dirs[0].len() == 0 {
        Some("bun publish"@)
    } else {
        Some(
            text::joined(
                Seq::new(
                    dirs.len(),
                    |k: int|
                        if dirs[k].len() == 0 {
                            "(cd . && bun publish)"@
                        } else {
                            "(cd "@ + dirs[k] + " && bun publish)"@
                        },
                ),
                " && "@,
            ),
        )
    }
}

proof fn lemma_shown(dirs: Seq<Seq<char>>)
    ensures
        bun::shown_commands(dirs) == shown_as(dirs),
{
    reveal_strlit("(cd ");
    reveal_strlit(".");
    reveal_strlit(" && bun publish)");
    reveal_strlit("(cd . && bun publish)");
    assert("(cd "@ + "."@ + " && bun publish)"@ =~= "(cd . && bun publish)"@);
    let list = Seq::new(
        dirs.len(),
        |k: int|
            if dirs[k].len() == 0 {
                "(cd . && bun publish)"@
            } else {
                "(cd "@ + dirs[k] + " && bun publish)"@
            },
    );
    assert(Seq::new(dirs.len(), |i: int| bun::shown_command(dirs[i])) =~= list);
}

/// What comes of a step that goes by the directories to publish.
proof fn lemma_by_dirs<T>(
    f: spec_fn(Cursor) -> Next<Result<T, ErrorView>>,
    value: spec_fn(Seq<Seq<char>>) -> T,
    c: Cursor,
    host: spec_fn(AskView) -> Answer,
    n: nat,
)
    requires
        conversation::waiting(c),
        forall|x: Cursor|
            #[trigger] f(x) == bun::publish_dirs_step(x).and_ok(
                |dirs: Seq<Seq<char>>, x: Cursor| Next::Done(Ok::<_, ErrorView>(value(dirs)), x),
            ),
        conversation::stands(f, c, host, n) matches Next::Done(Ok(_), _),
    ensures
        dirs_by(host, c.sep) matches Some(dirs) && (conversation::stands(
            f,
            c,
            host,
            n,
        ) matches Next::Done(Ok(v), _) && v == value(dirs)),
{
    let (d, e) = lemma_dirs_talk(c, host);
    let found = dirs_by(host, c.sep);
    let then_do = |dirs: Seq<Seq<char>>, x: Cursor|
        Next::Done(Ok::<_, ErrorView>(value(dirs)), x);
    let g = conversation::followed(dirs_flow(), then_do);
    conversation::lemma_same(f, g, c, host);
    conversation::lemma_follows(dirs_flow(), then_do, c, found, e, d, host);
    let h = conversation::onward(then_do, found, e);
    conversation::lemma_reaches_on(f, c, g, c, h, d, host);
    let m = conversation::lemma_came_through(f, c, h, d, host, n);
    conversation::lemma_silent(h, d, host, m);
}

/// What is shown of publishing a bun workspace are the packages that publishing
/// it publishes, in an order in which it can be done.
pub proof fn law_preview_shows_what_is_run(
    bun: Bun,
    c: Cursor,
    host: spec_fn(AskView) -> Answer,
    n: nat,
) -> (order: Seq<usize>)
    requires
        conversation::waiting(c),
        chosen_by(host, c.sep) matches Some(files) ==> files.len() <= usize::MAX,
        conversation::stands(showing(bun), c, host, n) matches Next::Done(Ok(_), _),
    ensures
        chosen_by(host, c.sep) matches Some(files) && is_publish_order(host, files, order) && (
        conversation::stands(showing(bun), c, host, n) matches Next::Done(Ok(shown), _) && shown
            == shown_as(dirs_along(files, order, c.sep))),
{
    let value = |dirs: Seq<Seq<char>>| bun::shown_commands(dirs);
    lemma_by_dirs(showing(bun), value, c, host, n);
    let order = lemma_chosen(host, c.sep);
    let files = chosen_by(host, c.sep)->0;
    lemma_shown(dirs_along(files, order, c.sep));
    order
}

/// There is something to publish exactly if some package has a version and is
/// not private.
pub proof fn law_publishable_if_any_is(
    bun: Bun,
    c: Cursor,
    host: spec_fn(AskView) -> Answer,
    n: nat,
)
    requires
        conversation::waiting(c),
        chosen_by(host, c.sep) matches Some(files) ==> files.len() <= usize::MAX,
        conversation::stands(telling(bun), c, host, n) matches Next::Done(Ok(_), _),
    ensures
        chosen_by(host, c.sep) matches Some(files) && (conversation::stands(
            telling(bun),
            c,
            host,
            n,
        ) matches Next::Done(Ok(any), _) && any == (files.len() > 0)),
{
    let value = |dirs: Seq<Seq<char>>| dirs.len() > 0;
    lemma_by_dirs(telling(bun), value, c, host, n);
    lemma_chosen(host, c.sep);
}

/// A package that stands alone is published, also if it names itself among its
/// dependencies.
pub proof fn law_alone_is_published(pkg: PackageView)
    ensures
        bun::ordered_dirs(bun::publishable_packages(seq![pkg])) == Ok::<
            Seq<Seq<char>>,
            ErrorView,
        >(seq![pkg.place]),
{
    let one = seq![pkg];
    let pkgs = bun::publishable_packages(one);
    let deps = packages::dependencies(pkgs, true);
    assert(pkgs.len() == 1 && pkgs[0].place == pkg.place && pkgs[0].name == pkg.name);
    assert forall|w: int| !#[trigger] graph::needs(deps, 0, w) by {
        if graph::needs(deps, 0, w) {
            assert(deps[0].contains(w as usize));
            assert(packages::depends(pkgs, true, 0, w));
            assert(w == 0);
        }
    }
    assert forall|s: Set<int>| !(#[trigger] s.contains(0int) && graph::circular(deps, s)) by {
        if s.contains(0int) && graph::circular(deps, s) {
            assert(graph::needs_some(deps, 0, s));
        }
    }
    assert(!graph::blocked(deps, 0));
    reveal_with_fuel(graph::blocked_below, 2);
    assert(graph::blocked_below(deps, 1).len() == 0);
    let order = packages::law_order_is_sound(pkgs, true);
    assert(order[0] == 0);
    assert(Seq::new(pkgs.len(), |i: int| packages::publish_order(pkgs, true)->Ok_0[i].place)
        =~= seq![pkg.place]);
}

} // verus!
