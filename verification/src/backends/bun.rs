//! JavaScript packages managed by bun.

use vstd::prelude::*;

use crate::backend::Backend;
use crate::backends;
use crate::backends::bun_lock;
use crate::backends::pnpm;
use crate::backends::workspace;
use crate::data;
use crate::data::Data;
use crate::data::Node;
use crate::error;
use crate::error::Error;
use crate::error::ErrorOf;
use crate::error::ErrorView;
use crate::json;
use crate::packages;
use crate::packages::sort_packages;
use crate::packages::Package;
use crate::packages::PackageView;
use crate::paths;
use crate::session;
use crate::session::Answer;
use crate::session::AskOf;
use crate::session::Cursor;
use crate::session::Model;
use crate::session::Next;
use crate::session::Session;
use crate::session::Step;
use crate::text;
use crate::text::chars_of;
use crate::text::join;
use crate::text::list0;
use crate::text::list1;
use crate::text::list2;
use crate::text::own;
use crate::text::plus3;
use crate::text::put;
use crate::text::put_new;
use crate::text::same;

verus! {

/// The version of a JavaScript package is the `"version"` of its
/// `package.json`. The members of a bun workspace are listed in the main
/// `package.json` and get the same version.
pub struct Bun;

// ---------------------------------------------------------------------------
// The members
// ---------------------------------------------------------------------------

/// The patterns of the workspace members in a `package.json`: the list
/// `"workspaces"` or the list `"packages"` in the object `"workspaces"`.
pub open spec fn patterns_in(node: Node) -> Seq<Seq<char>> {
    match data::field(node, "workspaces"@) {
        Some(Node::List(list)) => data::texts_among(list),
        Some(ws) => match data::field(ws, "packages"@) {
            Some(Node::List(list)) => data::texts_among(list),
            _ => Seq::empty(),
        },
        None => Seq::empty(),
    }
}

/// The `package.json` files of the members of a bun workspace.
pub open spec fn bun_children_step(c: Cursor) -> Next<Result<Seq<Seq<char>>, ErrorView>> {
    c.is_file("package.json"@).and(
        |there: bool, c: Cursor|
            if there {
                json::doc_step(c, "package.json"@).and_ok(
                    |doc: (Seq<char>, Node), c: Cursor|
                        workspace::children_step(c, patterns_in(doc.1), "package.json"@),
                )
            } else {
                Next::Done(Ok(Seq::empty()), c)
            },
    )
}

/// The patterns of the workspace members in a `package.json`.
pub fn extract_workspace_patterns(data: &Data) -> (r: Vec<String>)
    ensures
        r.deep_view() == patterns_in(data.seen()),
{
    match data::find_field(data, "workspaces") {
        Some(Data::List(list)) => data::texts_of(list),
        Some(ws) => match data::find_field(ws, "packages") {
            Some(Data::List(list)) => data::texts_of(list),
            _ => list0(),
        },
        None => list0(),
    }
}

/// The `package.json` files of the members of a bun workspace.
pub fn bun_child_package_jsons(s: &mut Session<'_>) -> (r: Step<Result<Vec<String>, Error>>)
    ensures
        session::step(r, final(s)@) == bun_children_step(old(s)@),
{
    if !s.is_file("package.json")? {
        return Ok(Ok(list0()));
    }
    match json::read_doc(s, "package.json")? {
        Ok(doc) => workspace::child_package_jsons(s, &extract_workspace_patterns(doc.data())),
        Err(e) => Ok(Err(e)),
    }
}

// ---------------------------------------------------------------------------
// What to publish, and in which order
// ---------------------------------------------------------------------------

/// The objects of a `package.json` whose keys name other packages.
pub open spec fn dep_keys() -> Seq<Seq<char>> {
    seq!["dependencies"@, "devDependencies"@, "peerDependencies"@, "optionalDependencies"@]
}

/// The package names that a `package.json` depends on.
pub open spec fn dep_names_in(node: Node) -> Set<Seq<char>> {
    Set::new(
        |name: Seq<char>|
            exists|k: int|
                0 <= k < dep_keys().len() && names_in(
                    node,
                    #[trigger] dep_keys()[k],
                ).contains(name),
    )
}

/// The keys of the object in the field with this key.
pub open spec fn names_in(node: Node, key: Seq<char>) -> Seq<Seq<char>> {
    match data::field(node, key) {
        Some(Node::Table(entries)) => data::keys_of(entries),
        _ => Seq::empty(),
    }
}

/// A package of the workspace, with all that it depends on.
pub open spec fn candidate(dir: Seq<char>, node: Node) -> PackageView {
    PackageView {
        place: dir,
        name: data::text_field(node, "name"@),
        intra_deps: dep_names_in(node),
    }
}

/// Add the packages of the manifests from the one at `i` on that can be
/// published.
pub open spec fn candidates_step(
    c: Cursor,
    manifests: Seq<Seq<char>>,
    i: int,
    out: Seq<PackageView>,
) -> Next<Result<Seq<PackageView>, ErrorView>>
    decreases manifests.len() - i,
{
    if i >= manifests.len() {
        Next::Done(Ok(out), c)
    } else {
        json::doc_step(c, manifests[i]).and_ok(
            |doc: (Seq<char>, Node), c: Cursor|
                candidates_step(
                    c,
                    manifests,
                    i + 1,
                    if pnpm::publishable(doc.1) {
                        out.push(candidate(paths::parent(manifests[i], c.sep), doc.1))
                    } else {
                        out
                    },
                ),
        )
    }
}

/// A package among these has this name.
pub open spec fn is_name(pkgs: Seq<PackageView>, name: Seq<char>) -> bool {
    exists|i: int| 0 <= i < pkgs.len() && (#[trigger] pkgs[i]).name == Some(name)
}

/// A package, with those of its dependencies that are other packages among
/// these.
pub open spec fn among(pkgs: Seq<PackageView>, pkg: PackageView) -> PackageView {
    PackageView {
        intra_deps: pkg.intra_deps.filter(
            |d: Seq<char>| is_name(pkgs, d) && pkg.name != Some(d),
        ),
        ..pkg
    }
}

/// The packages of the workspace that can be published, with the dependencies
/// among them.
pub open spec fn publishable_packages(pkgs: Seq<PackageView>) -> Seq<PackageView> {
    Seq::new(pkgs.len(), |i: int| among(pkgs, pkgs[i]))
}

/// The packages of the workspace that can be published: the main one, if there
/// is one, and the members.
pub open spec fn collect_step(c: Cursor) -> Next<Result<Seq<PackageView>, ErrorView>> {
    c.is_file("package.json"@).and(
        |there: bool, c: Cursor|
            bun_children_step(c).and_ok(
                |children: Seq<Seq<char>>, c: Cursor|
                    candidates_step(
                        c,
                        if there {
                            seq!["package.json"@] + children
                        } else {
                            children
                        },
                        0,
                        Seq::empty(),
                    ).and_ok(
                        |pkgs: Seq<PackageView>, c: Cursor|
                            Next::Done(Ok(publishable_packages(pkgs)), c),
                    ),
            ),
    )
}

/// The directories of packages, each after those that it depends on.
pub open spec fn ordered_dirs(pkgs: Seq<PackageView>) -> Result<Seq<Seq<char>>, ErrorView> {
    match packages::publish_order(pkgs, true) {
        Ok(sorted) => Ok(Seq::new(sorted.len(), |i: int| sorted[i].place)),
        Err(stuck) => Err(ErrorOf::Cycle("packages"@, stuck)),
    }
}

/// The directories to publish, in their order.
pub open spec fn publish_dirs_step(c: Cursor) -> Next<Result<Seq<Seq<char>>, ErrorView>> {
    collect_step(c).and_ok(
        |pkgs: Seq<PackageView>, c: Cursor| Next::Done(ordered_dirs(pkgs), c),
    )
}

/// To look for packages is harmless.
pub broadcast proof fn lemma_candidates_calm(
    c: Cursor,
    manifests: Seq<Seq<char>>,
    i: int,
    out: Seq<PackageView>,
)
    ensures
        (#[trigger] candidates_step(c, manifests, i, out)).calm(),
    decreases manifests.len() - i,
{
    if i < manifests.len() {
        if let Next::Done(Ok(doc), c2) = json::doc_step(c, manifests[i]) {
            lemma_candidates_calm(c2, manifests, i + 1, out);
            lemma_candidates_calm(
                c2,
                manifests,
                i + 1,
                out.push(candidate(paths::parent(manifests[i], c.sep), doc.1)),
            );
        }
    }
}

/// Further answers change nothing in what has ended.
pub broadcast proof fn lemma_candidates_kept(
    c: Cursor,
    manifests: Seq<Seq<char>>,
    i: int,
    out: Seq<PackageView>,
    more: Seq<Answer>,
)
    ensures
        candidates_step(c, manifests, i, out).kept(
            #[trigger] candidates_step(c.with(more), manifests, i, out),
            more,
        ),
    decreases manifests.len() - i,
{
    broadcast use session::lemma_past_with;

    if i < manifests.len() {
        if let Next::Done(Ok(doc), c2) = json::doc_step(c, manifests[i]) {
            lemma_candidates_kept(c2, manifests, i + 1, out, more);
            lemma_candidates_kept(
                c2,
                manifests,
                i + 1,
                out.push(candidate(paths::parent(manifests[i], c.sep), doc.1)),
                more,
            );
        }
    }
}

/// Add the keys of the object in the field with this key.
fn add_names(data: &Data, key: &str, out: Vec<String>) -> (r: Vec<String>)
    ensures
        r.deep_view().to_set() == out.deep_view().to_set().union(
            names_in(data.seen(), key@).to_set(),
        ),
{
    let mut all = out;
    let ghost before = out.deep_view();
    if let Some(Data::Table(entries)) = data::find_field(data, key) {
        let ghost keys = data::keys_of(data::seen_entries(entries@));
        proof {
            data::lemma_seen_entries(entries@);
        }
        let mut i: usize = 0;
        assert(all.deep_view().to_set() =~= before.to_set().union(keys.take(0).to_set()));
        while i < entries.len()
            invariant
                i <= entries.len(),
                keys.len() == entries.len(),
                forall|k: int| 0 <= k < entries.len() ==> #[trigger] keys[k] == entries@[k].key@,
                all.deep_view().to_set() == before.to_set().union(keys.take(i as int).to_set()),
            decreases entries.len() - i,
        {
            let key = &entries[i].key;
            put_new(&mut all, key.clone());
            proof {
                let shorter = keys.take(i as int);
                let longer = keys.take(i + 1);
                assert(longer =~= shorter.push(key@));
                text::lemma_push_to_set(shorter, key@);
                assert(all.deep_view().to_set() =~= before.to_set().union(longer.to_set()));
            }
            i = i + 1;
        }
        assert(keys.take(i as int) =~= keys);
    }
    assert(all.deep_view().to_set() =~= before.to_set().union(
        names_in(data.seen(), key@).to_set(),
    ));
    all
}

/// The package names that a `package.json` depends on, each once.
pub fn dep_names(data: &Data) -> (r: Vec<String>)
    ensures
        r.deep_view().to_set() == dep_names_in(data.seen()),
{
    let a = add_names(data, "dependencies", list0());
    let b = add_names(data, "devDependencies", a);
    let c = add_names(data, "peerDependencies", b);
    let d = add_names(data, "optionalDependencies", c);
    proof {
        let node = data.seen();
        assert forall|name: Seq<char>| d.deep_view().to_set().contains(name) == dep_names_in(
            node,
        ).contains(name) by {
            assert(dep_keys()[0] == "dependencies"@);
            assert(dep_keys()[1] == "devDependencies"@);
            assert(dep_keys()[2] == "peerDependencies"@);
            assert(dep_keys()[3] == "optionalDependencies"@);
            if d.deep_view().to_set().contains(name) {
                assert(names_in(node, dep_keys()[0]).contains(name) || names_in(
                    node,
                    dep_keys()[1],
                ).contains(name) || names_in(node, dep_keys()[2]).contains(name) || names_in(
                    node,
                    dep_keys()[3],
                ).contains(name));
            }
        }
        assert(d.deep_view().to_set() =~= dep_names_in(node));
    }
    d
}

/// Collect the packages of these manifests that can be published.
fn candidates(s: &mut Session<'_>, manifests: &Vec<String>) -> (r: Step<
    Result<Vec<Package>, Error>,
>)
    ensures
        session::step(r, final(s)@) == candidates_step(
            old(s)@,
            manifests.deep_view(),
            0,
            Seq::empty(),
        ),
{
    let ghost all = manifests.deep_view();
    let ghost whole = candidates_step(s@, all, 0, Seq::empty());
    let mut out: Vec<Package> = Vec::new();
    let mut i: usize = 0;
    assert(out.model() =~= Seq::empty());
    while i < manifests.len()
        invariant
            i <= manifests.len(),
            all == manifests.deep_view(),
            whole == candidates_step(old(s)@, all, 0, Seq::empty()),
            whole == candidates_step(s@, all, i as int, out.model()),
        decreases manifests.len() - i,
    {
        assert(all[i as int] == manifests@[i as int]@);
        let doc = match json::read_doc(s, &manifests[i])? {
            Ok(doc) => doc,
            Err(e) => {
                return Ok(Err(e));
            },
        };
        let ghost before = out.model();
        if pnpm::is_publishable_json(doc.data()) {
            let pkg = Package {
                place: paths::parent_of(&manifests[i], s.separator()),
                name: data::find_text_field(doc.data(), "name"),
                intra_deps: dep_names(doc.data()),
            };
            assert(pkg.model() == candidate(paths::parent(all[i as int], s@.sep), doc.model().1));
            out.push(pkg);
            assert(out.model() =~= before.push(pkg.model()));
        }
        i = i + 1;
    }
    Ok(Ok(out))
}

/// The name is that of a package among these.
fn names_package(pkgs: &Vec<Package>, name: &str) -> (r: bool)
    ensures
        r == is_name(pkgs.model(), name@),
{
    let ghost all = pkgs.model();
    let mut i: usize = 0;
    while i < pkgs.len()
        invariant
            i <= pkgs.len(),
            all == pkgs.model(),
            forall|k: int| 0 <= k < i ==> (#[trigger] all[k]).name != Some(name@),
        decreases pkgs.len() - i,
    {
        assert(all[i as int] == pkgs@[i as int].model());
        if let Some(n) = &pkgs[i].name {
            if same(n, name) {
                return true;
            }
        }
        i = i + 1;
    }
    false
}

/// A package, with those of its dependencies that are other packages among
/// these.
fn restrict(pkgs: &Vec<Package>, pkg: &Package) -> (r: Package)
    ensures
        r.model() == among(pkgs.model(), pkg.model()),
{
    let ghost all = pkgs.model();
    let deps = &pkg.intra_deps;
    let ghost wanted = deps.deep_view();
    let mut kept = list0();
    let mut i: usize = 0;
    let ghost keep = |d: Seq<char>| is_name(all, d) && pkg.model().name != Some(d);
    assert(kept.deep_view().to_set() =~= wanted.take(0).to_set().filter(keep));
    while i < deps.len()
        invariant
            i <= deps.len(),
            all == pkgs.model(),
            deps == pkg.intra_deps,
            wanted == deps.deep_view(),
            keep == (|d: Seq<char>| is_name(all, d) && pkg.model().name != Some(d)),
            kept.deep_view().to_set() == wanted.take(i as int).to_set().filter(keep),
        decreases deps.len() - i,
    {
        let ghost before = kept.deep_view();
        assert(wanted[i as int] == deps@[i as int]@);
        let own_name = match &pkg.name {
            Some(n) => same(n, &deps[i]),
            None => false,
        };
        if names_package(pkgs, &deps[i]) && !own_name {
            put(&mut kept, deps[i].clone());
        }
        proof {
            let d = wanted[i as int];
            text::lemma_push_to_set(wanted.take(i as int), d);
            text::lemma_push_to_set(before, d);
            assert(wanted.take(i + 1) =~= wanted.take(i as int).push(d));
            assert(kept.deep_view().to_set() =~= wanted.take(i + 1).to_set().filter(keep));
        }
        i = i + 1;
    }
    assert(wanted.take(i as int) =~= wanted);
    let name = match &pkg.name {
        Some(n) => Some(n.clone()),
        None => None,
    };
    let r = Package { place: pkg.place.clone(), name, intra_deps: kept };
    assert(r.model() =~= among(all, pkg.model()));
    r
}

/// The packages of the workspace that can be published.
pub fn collect_publishable_packages(s: &mut Session<'_>) -> (r: Step<Result<Vec<Package>, Error>>)
    ensures
        session::step(r, final(s)@) == collect_step(old(s)@),
{
    let there = s.is_file("package.json")?;
    let children = match bun_child_package_jsons(s)? {
        Ok(children) => children,
        Err(e) => {
            return Ok(Err(e));
        },
    };
    let mut manifests = if there {
        list1("package.json")
    } else {
        list0()
    };
    let ghost first = manifests.deep_view();
    let ghost rest = children.deep_view();
    text::append(&mut manifests, children);
    assert(!there ==> first + rest =~= rest);
    let pkgs = match candidates(s, &manifests)? {
        Ok(pkgs) => pkgs,
        Err(e) => {
            return Ok(Err(e));
        },
    };
    let ghost all = pkgs.model();
    let mut out: Vec<Package> = Vec::new();
    let mut i: usize = 0;
    let ghost here = s@;
    while i < pkgs.len()
        invariant
            i <= pkgs.len(),
            all == pkgs.model(),
            s@ == here,
            out.len() == i,
            forall|k: int| 0 <= k < i ==> (#[trigger] out@[k]).model() == among(all, all[k]),
        decreases pkgs.len() - i,
    {
        assert(all[i as int] == pkgs@[i as int].model());
        out.push(restrict(&pkgs, &pkgs[i]));
        i = i + 1;
    }
    assert(out.model() =~= publishable_packages(all));
    Ok(Ok(out))
}

/// The directories of packages, each after those that it depends on.
pub fn topo_sort_dirs(pkgs: &Vec<Package>) -> (r: Result<Vec<String>, Error>)
    ensures
        r.model() == ordered_dirs(pkgs.model()),
{
    match sort_packages(pkgs, true) {
        Ok(sorted) => {
            let mut dirs = list0();
            let mut i: usize = 0;
            let ghost all = sorted.model();
            assert(dirs.deep_view() =~= Seq::new(0, |i: int| all[i].place));
            while i < sorted.len()
                invariant
                    i <= sorted.len(),
                    all == sorted.model(),
                    dirs.deep_view() == Seq::new(i as nat, |i: int| all[i].place),
                decreases sorted.len() - i,
            {
                assert(all[i as int] == sorted@[i as int].model());
                put(&mut dirs, sorted[i].place.clone());
                i = i + 1;
                assert(dirs.deep_view() =~= Seq::new(i as nat, |i: int| all[i].place));
            }
            Ok(dirs)
        },
        Err(stuck) => Err(ErrorOf::Cycle(own("packages"), stuck)),
    }
}

/// The directories to publish, in their order.
pub fn publish_dirs(s: &mut Session<'_>) -> (r: Step<Result<Vec<String>, Error>>)
    ensures
        session::step(r, final(s)@) == publish_dirs_step(old(s)@),
{
    match collect_publishable_packages(s)? {
        Ok(pkgs) => Ok(topo_sort_dirs(&pkgs)),
        Err(e) => Ok(Err(e)),
    }
}

// ---------------------------------------------------------------------------
// The lockfile
// ---------------------------------------------------------------------------

/// Put the versions of the members from the one at `i` on into the lockfile.
/// What is in the main directory or has no version is left out.
pub open spec fn lock_members_step(
    c: Cursor,
    members: Seq<Seq<char>>,
    i: int,
    lock: Seq<char>,
) -> Next<Result<Seq<char>, ErrorView>>
    decreases members.len() - i,
{
    if i >= members.len() {
        Next::Done(Ok(lock), c)
    } else {
        let key = paths::slashed(paths::parent(members[i], c.sep));
        if key.len() == 0 {
            lock_members_step(c, members, i + 1, lock)
        } else {
            json::doc_step(c, members[i]).and_ok(
                |doc: (Seq<char>, Node), c: Cursor|
                    match pnpm::version_in(doc.1) {
                        None => lock_members_step(c, members, i + 1, lock),
                        Some(version) => match bun_lock::with_version(lock, key, version) {
                            Ok(lock) => lock_members_step(c, members, i + 1, lock),
                            Err(e) => Next::Done(Err(e), c),
                        },
                    },
            )
        }
    }
}

/// Put the version of the main `package.json`, if there is one, into the
/// lockfile.
pub open spec fn lock_root_step(c: Cursor, lock: Seq<char>) -> Next<Result<Seq<char>, ErrorView>> {
    c.is_file("package.json"@).and(
        |there: bool, c: Cursor|
            if there {
                json::doc_step(c, "package.json"@).and_ok(
                    |doc: (Seq<char>, Node), c: Cursor|
                        match pnpm::version_in(doc.1) {
                            Some(version) => Next::Done(
                                bun_lock::with_version(lock, ""@, version),
                                c,
                            ),
                            None => Next::Done(Ok(lock), c),
                        },
                )
            } else {
                Next::Done(Ok(lock), c)
            },
    )
}

/// Put the versions of the workspace's packages into its `bun.lock`, if there
/// is one.
pub open spec fn sync_lock_step(c: Cursor) -> Next<Result<(), ErrorView>> {
    c.is_file("bun.lock"@).and(
        |there: bool, c: Cursor|
            if there {
                c.read("bun.lock"@).and_ok(
                    |lock: Seq<char>, c: Cursor|
                        lock_root_step(c, lock).and_ok(
                            |lock: Seq<char>, c: Cursor|
                                bun_children_step(c).and_ok(
                                    |members: Seq<Seq<char>>, c: Cursor|
                                        lock_members_step(c, members, 0, lock).and_ok(
                                            |lock: Seq<char>, c: Cursor|
                                                c.write("bun.lock"@, lock),
                                        ),
                                ),
                        ),
                )
            } else {
                Next::Done(Ok(()), c)
            },
    )
}

/// To look up the versions of the members is harmless.
pub broadcast proof fn lemma_lock_members_calm(
    c: Cursor,
    members: Seq<Seq<char>>,
    i: int,
    lock: Seq<char>,
)
    ensures
        (#[trigger] lock_members_step(c, members, i, lock)).calm(),
    decreases members.len() - i,
{
    if i < members.len() {
        let key = paths::slashed(paths::parent(members[i], c.sep));
        lemma_lock_members_calm(c, members, i + 1, lock);
        if let Next::Done(Ok(doc), c2) = json::doc_step(c, members[i]) {
            lemma_lock_members_calm(c2, members, i + 1, lock);
            if let Some(version) = pnpm::version_in(doc.1) {
                if let Ok(changed) = bun_lock::with_version(lock, key, version) {
                    lemma_lock_members_calm(c2, members, i + 1, changed);
                }
            }
        }
    }
}

/// Further answers change nothing in what has ended.
pub broadcast proof fn lemma_lock_members_kept(
    c: Cursor,
    members: Seq<Seq<char>>,
    i: int,
    lock: Seq<char>,
    more: Seq<Answer>,
)
    ensures
        lock_members_step(c, members, i, lock).kept(
            #[trigger] lock_members_step(c.with(more), members, i, lock),
            more,
        ),
    decreases members.len() - i,
{
    broadcast use session::lemma_past_with;

    if i < members.len() {
        let key = paths::slashed(paths::parent(members[i], c.sep));
        lemma_lock_members_kept(c, members, i + 1, lock, more);
        if let Next::Done(Ok(doc), c2) = json::doc_step(c, members[i]) {
            lemma_lock_members_kept(c2, members, i + 1, lock, more);
            if let Some(version) = pnpm::version_in(doc.1) {
                if let Ok(changed) = bun_lock::with_version(lock, key, version) {
                    lemma_lock_members_kept(c2, members, i + 1, changed, more);
                }
            }
        }
    }
}

fn lock_members(s: &mut Session<'_>, members: &Vec<String>, lock: String) -> (r: Step<
    Result<String, Error>,
>)
    ensures
        session::step(r, final(s)@) == lock_members_step(
            old(s)@,
            members.deep_view(),
            0,
            lock@,
        ),
{
    let ghost all = members.deep_view();
    let ghost whole = lock_members_step(s@, all, 0, lock@);
    let mut content = lock;
    let mut i: usize = 0;
    while i < members.len()
        invariant
            i <= members.len(),
            all == members.deep_view(),
            whole == lock_members_step(old(s)@, all, 0, lock@),
            whole == lock_members_step(s@, all, i as int, content@),
        decreases members.len() - i,
    {
        assert(all[i as int] == members@[i as int]@);
        let key = paths::with_slashes(&paths::parent_of(&members[i], s.separator()));
        if chars_of(&key).len() == 0 {
            i = i + 1;
            continue;
        }
        let doc = match json::read_doc(s, &members[i])? {
            Ok(doc) => doc,
            Err(e) => {
                return Ok(Err(e));
            },
        };
        if let Some(version) = data::find_text_field(doc.data(), "version") {
            match bun_lock::replace_workspace_version_in_lockfile(&content, &key, &version) {
                Ok(t) => {
                    content = t;
                },
                Err(e) => {
                    return Ok(Err(e));
                },
            }
        }
        i = i + 1;
    }
    Ok(Ok(content))
}

fn lock_root(s: &mut Session<'_>, lock: String) -> (r: Step<Result<String, Error>>)
    ensures
        session::step(r, final(s)@) == lock_root_step(old(s)@, lock@),
{
    if !s.is_file("package.json")? {
        return Ok(Ok(lock));
    }
    match json::read_doc(s, "package.json")? {
        Ok(doc) => match data::find_text_field(doc.data(), "version") {
            Some(version) => Ok(
                bun_lock::replace_workspace_version_in_lockfile(&lock, "", &version),
            ),
            None => Ok(Ok(lock)),
        },
        Err(e) => Ok(Err(e)),
    }
}

/// Put the versions of the workspace's packages into its `bun.lock`, if there
/// is one: `bun install` leaves them as they are, and what is published would
/// refer to them.
pub fn sync_bun_lockfile_workspace_versions(s: &mut Session<'_>) -> (r: Step<Result<(), Error>>)
    ensures
        session::step(r, final(s)@) == sync_lock_step(old(s)@),
{
    if !s.is_file("bun.lock")? {
        return Ok(Ok(()));
    }
    let lock = match s.read("bun.lock")? {
        Ok(lock) => lock,
        Err(e) => {
            return Ok(Err(e));
        },
    };
    let lock = match lock_root(s, lock)? {
        Ok(lock) => lock,
        Err(e) => {
            return Ok(Err(e));
        },
    };
    let members = match bun_child_package_jsons(s)? {
        Ok(members) => members,
        Err(e) => {
            return Ok(Err(e));
        },
    };
    match lock_members(s, &members, lock)? {
        Ok(lock) => s.write("bun.lock", &lock),
        Err(e) => Ok(Err(e)),
    }
}

// ---------------------------------------------------------------------------
// bun
// ---------------------------------------------------------------------------

/// Publish the directories from the one at `i` on.
pub open spec fn publish_each_step(c: Cursor, dirs: Seq<Seq<char>>, i: int) -> Next<
    Result<(), ErrorView>,
>
    decreases dirs.len() - i,
{
    if i >= dirs.len() {
        Next::Done(Ok(()), c)
    } else {
        c.run(dirs[i], "bun"@, seq!["publish"@]).and_ok(
            |u: (), c: Cursor| publish_each_step(c, dirs, i + 1),
        )
    }
}

/// To publish leaves the files and the repository as they are.
pub broadcast proof fn lemma_publish_each_keeps(c: Cursor, dirs: Seq<Seq<char>>, i: int)
    ensures
        (#[trigger] publish_each_step(c, dirs, i)).keeps(),
    decreases dirs.len() - i,
{
    if i < dirs.len() {
        lemma_publish_each_keeps(c.past(), dirs, i + 1);
    }
}

/// Further answers change nothing in what has ended.
pub broadcast proof fn lemma_publish_each_kept(
    c: Cursor,
    dirs: Seq<Seq<char>>,
    i: int,
    more: Seq<Answer>,
)
    ensures
        publish_each_step(c, dirs, i).kept(
            #[trigger] publish_each_step(c.with(more), dirs, i),
            more,
        ),
    decreases dirs.len() - i,
{
    broadcast use session::lemma_past_with;

    if i < dirs.len() {
        lemma_publish_each_kept(c.past(), dirs, i + 1, more);
    }
}

/// How publishing a directory is shown.
pub open spec fn shown_command(dir: Seq<char>) -> Seq<char> {
    "(cd "@ + (if dir.len() == 0 {
        "."@
    } else {
        dir
    }) + " && bun publish)"@
}

/// How publishing directories is shown.
pub open spec fn shown_commands(dirs: Seq<Seq<char>>) -> Option<Seq<char>> {
    if dirs.len() == 0 {
        None
    } else if dirs.len() == 1 && dirs[0].len() == 0 {
        Some("bun publish"@)
    } else {
        Some(text::joined(Seq::new(dirs.len(), |i: int| shown_command(dirs[i])), " && "@))
    }
}

/// How publishing directories is shown.
pub fn preview(dirs: &Vec<String>) -> (r: Option<String>)
    ensures
        r.model() == shown_commands(dirs.deep_view()),
{
    let ghost all = dirs.deep_view();
    assert(all.len() == dirs.len());
    if dirs.len() == 0 {
        return None;
    }
    assert(all[0] == dirs@[0]@);
    if dirs.len() == 1 && chars_of(&dirs[0]).len() == 0 {
        return Some(own("bun publish"));
    }
    let mut parts = list0();
    let mut i: usize = 0;
    assert(parts.deep_view() =~= Seq::new(0, |i: int| shown_command(all[i])));
    while i < dirs.len()
        invariant
            i <= dirs.len(),
            all == dirs.deep_view(),
            parts.deep_view() == Seq::new(i as nat, |i: int| shown_command(all[i])),
        decreases dirs.len() - i,
    {
        assert(all[i as int] == dirs@[i as int]@);
        if chars_of(&dirs[i]).len() == 0 {
            put(&mut parts, plus3("(cd ", ".", " && bun publish)"));
        } else {
            put(&mut parts, plus3("(cd ", &dirs[i], " && bun publish)"));
        }
        i = i + 1;
        assert(parts.deep_view() =~= Seq::new(i as nat, |i: int| shown_command(all[i])));
    }
    Some(join(&parts, " && "))
}

fn publish_each(s: &mut Session<'_>, dirs: &Vec<String>) -> (r: Step<Result<(), Error>>)
    ensures
        session::step(r, final(s)@) == publish_each_step(old(s)@, dirs.deep_view(), 0),
{
    let ghost all = dirs.deep_view();
    let ghost whole = publish_each_step(s@, all, 0);
    let mut i: usize = 0;
    while i < dirs.len()
        invariant
            i <= dirs.len(),
            all == dirs.deep_view(),
            whole == publish_each_step(old(s)@, all, 0),
            whole == publish_each_step(s@, all, i as int),
        decreases dirs.len() - i,
    {
        assert(all[i as int] == dirs@[i as int]@);
        if let Err(e) = s.run(&dirs[i], "bun", list1("publish"))? {
            return Ok(Err(e));
        }
        i = i + 1;
    }
    Ok(Ok(()))
}

proof fn lemma_manifests_kept(b: Bun, c: Cursor, new: Seq<char>, more: Seq<Answer>)
    ensures
        b.read_step(c).kept(b.read_step(c.with(more)), more),
        b.write_step(c, new).kept(b.write_step(c.with(more), new), more),
        b.stage_step(c).kept(b.stage_step(c.with(more)), more),
{
    broadcast use {
        session::lemma_past_with,
        workspace::lemma_patterns_kept,
        pnpm::lemma_first_version_kept,
        pnpm::lemma_versioned_kept,
        pnpm::lemma_write_files_kept,
    };

}

proof fn lemma_writes_preview_kept(b: Bun, c: Cursor, new: Seq<char>, more: Seq<Answer>)
    ensures
        b.writes_preview_step(c, new).kept(b.writes_preview_step(c.with(more), new), more),
{
    broadcast use {
        session::lemma_past_with,
        workspace::lemma_patterns_kept,
        pnpm::lemma_preview_files_kept,
    };

}

proof fn lemma_lock_kept(b: Bun, c: Cursor, more: Seq<Answer>)
    ensures
        b.lock_step(c).kept(b.lock_step(c.with(more)), more),
{
    broadcast use {
        session::lemma_past_with,
        workspace::lemma_patterns_kept,
        lemma_lock_members_kept,
    };

}

proof fn lemma_publish_dirs_kept(c: Cursor, more: Seq<Answer>)
    ensures
        publish_dirs_step(c).kept(publish_dirs_step(c.with(more)), more),
{
    broadcast use {
        session::lemma_past_with,
        workspace::lemma_patterns_kept,
        lemma_candidates_kept,
    };

}

proof fn lemma_publish_kept(b: Bun, c: Cursor, more: Seq<Answer>)
    ensures
        b.publish_step(c).kept(b.publish_step(c.with(more)), more),
        b.publish_preview_step(c).kept(b.publish_preview_step(c.with(more)), more),
        b.publishable_step(c).kept(b.publishable_step(c.with(more)), more),
{
    lemma_publish_dirs_kept(c, more);
    if let Next::Done(Ok(dirs), c2) = publish_dirs_step(c) {
        let args = seq!["pm"@, "whoami"@];
        assert(backends::login_step(c2, "bun"@, args).kept(
            backends::login_step(c2.with(more), "bun"@, args),
            more,
        )) by {
            broadcast use session::lemma_past_with;

        }
        if let Next::Done(Ok(u), c3) = backends::login_step(c2, "bun"@, args) {
            lemma_publish_each_kept(c3, dirs, 0, more);
        }
    }
}

/// Where each `package.json` that is read has the version that was written, or
/// none, that is the version that is read.
pub proof fn law_written_version_is_read(bun: Bun, c: Cursor, version: Seq<char>)
    requires
        forall|k: int| 0 <= k < c.answers.len() ==> pnpm::fresh(#[trigger] c.answers[k], version),
    ensures
        bun.read_step(c) matches Next::Done(Ok(v), _) ==> v == version,
{
    if let Next::Done(Ok(found), c2) = pnpm::version_opt_step(c, "package.json"@) {
        assert(pnpm::fresh(c.answers[c.at as int], version));
        lemma_children_answers(c2);
        if let Next::Done(Ok(files), c3) = bun_children_step(c2) {
            pnpm::lemma_first_version_fresh(c3, files, 0, version);
        }
    }
}

/// To look for members leaves the answers as they are.
proof fn lemma_children_answers(c: Cursor)
    ensures
        bun_children_step(c) matches Next::Done(_, c2) ==> c2.answers == c.answers,
{
    if let Next::Done(Ok(doc), c2) = json::doc_step(c.past(), "package.json"@) {
        workspace::lemma_patterns_answers(
            c2,
            patterns_in(doc.1),
            0,
            Seq::empty(),
            "package.json"@,
        );
    }
}

/// A preview of publishing is shown exactly where there is something to
/// publish. It is plain `bun publish` where that is the project's directory
/// alone.
pub proof fn law_preview_where_publishable(bun: Bun, c: Cursor)
    ensures
        match (bun.publishable_step(c), bun.publish_preview_step(c)) {
            (Next::Done(Ok(publishable), _), Next::Done(Ok(shown), _)) => {
                &&& publishable == shown is Some
                &&& publish_dirs_step(c) matches Next::Done(Ok(dirs), _) && (dirs == seq![
                    Seq::<char>::empty(),
                ] ==> shown == Some("bun publish"@))
            },
            (Next::Done(Err(e), _), Next::Done(Err(f), _)) => e == f,
            (Next::Ask(q), Next::Ask(r)) => q == r,
            _ => false,
        },
{
}

impl Backend for Bun {
    open spec fn called(&self) -> Seq<char> {
        "bun"@
    }

    open spec fn read_step(&self, c: Cursor) -> Next<Result<Seq<char>, ErrorView>> {
        pnpm::read_with_fallback_step(c, |c: Cursor| bun_children_step(c))
    }

    open spec fn write_step(&self, c: Cursor, new: Seq<char>) -> Next<Result<(), ErrorView>> {
        pnpm::write_all_step(c, |c: Cursor| bun_children_step(c), new)
    }

    open spec fn lock_step(&self, c: Cursor) -> Next<Result<(), ErrorView>> {
        sync_lock_step(c).and_ok(|u: (), c: Cursor| c.run(""@, "bun"@, seq!["install"@]))
    }

    open spec fn lock_command(&self) -> Option<Seq<char>> {
        Some("bun install"@)
    }

    open spec fn stage_step(&self, c: Cursor) -> Next<Seq<Seq<char>>> {
        pnpm::stage_files_step(c, |c: Cursor| bun_children_step(c), "bun"@).and(
            |files: Seq<Seq<char>>, c: Cursor|
                c.is_file("bun.lock"@).and(
                    |text: bool, c: Cursor|
                        c.is_file("bun.lockb"@).and(
                            |binary: bool, c: Cursor|
                                Next::Done(
                                    files + (if text {
                                        seq!["bun.lock"@]
                                    } else {
                                        seq![]
                                    }) + (if binary {
                                        seq!["bun.lockb"@]
                                    } else {
                                        seq![]
                                    }),
                                    c,
                                ),
                        ),
                ),
        )
    }

    open spec fn publish_step(&self, c: Cursor) -> Next<Result<(), ErrorView>> {
        publish_dirs_step(c).and_ok(
            |dirs: Seq<Seq<char>>, c: Cursor|
                if dirs.len() == 0 {
                    Next::Done(Ok(()), c)
                } else {
                    backends::login_step(c, "bun"@, seq!["pm"@, "whoami"@]).and_ok(
                        |u: (), c: Cursor| publish_each_step(c, dirs, 0),
                    )
                },
        )
    }

    open spec fn publish_preview_step(&self, c: Cursor) -> Next<
        Result<Option<Seq<char>>, ErrorView>,
    > {
        publish_dirs_step(c).and_ok(
            |dirs: Seq<Seq<char>>, c: Cursor| Next::Done(Ok(shown_commands(dirs)), c),
        )
    }

    open spec fn writes_preview_step(&self, c: Cursor, new: Seq<char>) -> Next<
        Result<Seq<Seq<char>>, ErrorView>,
    > {
        pnpm::preview_all_step(c, |c: Cursor| bun_children_step(c))
    }

    open spec fn publishable_step(&self, c: Cursor) -> Next<Result<bool, ErrorView>> {
        publish_dirs_step(c).and_ok(
            |dirs: Seq<Seq<char>>, c: Cursor| Next::Done(Ok(dirs.len() > 0), c),
        )
    }

    proof fn law_asks(&self, c: Cursor, new: Seq<char>) {
        broadcast use {
            workspace::lemma_patterns_calm,
            pnpm::lemma_first_version_calm,
            pnpm::lemma_versioned_calm,
            pnpm::lemma_preview_files_calm,
            pnpm::lemma_write_files_asks,
            lemma_candidates_calm,
            lemma_lock_members_calm,
            lemma_publish_each_keeps,
        };

        assert(self.lock_command() == Some(
            error::command_line("bun"@, seq!["install"@]),
        )) by {
            reveal_strlit("bun");
            reveal_strlit(" ");
            reveal_strlit("install");
            reveal_strlit("bun install");
            assert(self.lock_command()->0 =~= error::command_line("bun"@, seq!["install"@]));
        }
    }

    proof fn law_kept(&self, c: Cursor, new: Seq<char>, more: Seq<Answer>) {
        lemma_manifests_kept(*self, c, new, more);
        lemma_writes_preview_kept(*self, c, new, more);
        lemma_lock_kept(*self, c, more);
        lemma_publish_kept(*self, c, more);
    }

    fn name(&self) -> (r: &'static str) {
        "bun"
    }

    fn read_version(&self, s: &mut Session<'_>) -> (r: Step<Result<String, Error>>) {
        match pnpm::read_package_json_version_opt(s, "package.json")? {
            Ok(Some(version)) => Ok(Ok(version)),
            Ok(None) => match bun_child_package_jsons(s)? {
                Ok(files) => pnpm::first_version(s, &files),
                Err(e) => Ok(Err(e)),
            },
            Err(e) => Ok(Err(e)),
        }
    }

    /// Each text that is to be written has the new version, and nothing else in
    /// it changes.
    fn write_version(&self, s: &mut Session<'_>, new: &str) -> (r: Step<Result<(), Error>>)
        ensures
            r matches Err(AskOf::Write(_, t)) ==> pnpm::reads_version(t@, new@)
                && pnpm::renews_last(old(s)@, t@, new@),
    {
        if let Err(e) = pnpm::write_package_json_version_if_present(s, "package.json", new)? {
            return Ok(Err(e));
        }
        proof {
            broadcast use workspace::lemma_patterns_calm;

            lemma_children_answers(s@);
        }
        match bun_child_package_jsons(s)? {
            Ok(files) => pnpm::write_files(s, &files, new),
            Err(e) => Ok(Err(e)),
        }
    }

    fn update_lockfile(&self, s: &mut Session<'_>) -> (r: Step<Result<(), Error>>) {
        match sync_bun_lockfile_workspace_versions(s)? {
            Ok(()) => s.run("", "bun", list1("install")),
            Err(e) => Ok(Err(e)),
        }
    }

    fn lockfile_command_preview(&self) -> (r: Option<String>) {
        Some(own("bun install"))
    }

    fn files_to_stage(&self, s: &mut Session<'_>) -> (r: Step<Vec<String>>) {
        let root = pnpm::stage_root(s)?;
        let mut files = match bun_child_package_jsons(s)? {
            Ok(children) => pnpm::add_versioned(s, &children, root)?,
            Err(e) => {
                pnpm::warn_unexpanded(s, "bun", &e)?;
                root
            },
        };
        let ghost before = files.deep_view();
        let text = s.is_file("bun.lock")?;
        let binary = s.is_file("bun.lockb")?;
        if text {
            put(&mut files, own("bun.lock"));
        }
        if binary {
            put(&mut files, own("bun.lockb"));
        }
        assert(files.deep_view() =~= before + (if text {
            seq!["bun.lock"@]
        } else {
            seq![]
        }) + (if binary {
            seq!["bun.lockb"@]
        } else {
            seq![]
        }));
        Ok(files)
    }

    fn publish(&self, s: &mut Session<'_>) -> (r: Step<Result<(), Error>>) {
        let dirs = match publish_dirs(s)? {
            Ok(dirs) => dirs,
            Err(e) => {
                return Ok(Err(e));
            },
        };
        assert(dirs.deep_view().len() == dirs.len());
        if dirs.len() == 0 {
            return Ok(Ok(()));
        }
        match backends::ensure_npm_login(s, "bun", list2("pm", "whoami"))? {
            Ok(()) => publish_each(s, &dirs),
            Err(e) => Ok(Err(e)),
        }
    }

    fn publish_command_preview(&self, s: &mut Session<'_>) -> (r: Step<
        Result<Option<String>, Error>,
    >) {
        match publish_dirs(s)? {
            Ok(dirs) => Ok(Ok(preview(&dirs))),
            Err(e) => Ok(Err(e)),
        }
    }

    fn additional_write_previews(&self, s: &mut Session<'_>, new: &str) -> (r: Step<
        Result<Vec<String>, Error>,
    >) {
        match bun_child_package_jsons(s)? {
            Ok(files) => pnpm::preview_files(s, &files),
            Err(e) => Ok(Err(e)),
        }
    }

    fn is_publishable(&self, s: &mut Session<'_>) -> (r: Step<Result<bool, Error>>) {
        match publish_dirs(s)? {
            Ok(dirs) => {
                assert(dirs.deep_view().len() == dirs.len());
                Ok(Ok(dirs.len() > 0))
            },
            Err(e) => Ok(Err(e)),
        }
    }
}

/// The patterns of the members are the texts of the list `workspaces` or, if
/// that is an object, of its list `packages`; what is no text does not count.
pub proof fn law_patterns_are_listed(node: Node)
    ensures
        patterns_in(node) == (match data::at(node, seq!["workspaces"@]) {
            Some(Node::List(list)) => data::texts_among(list),
            _ => match data::at(node, seq!["workspaces"@, "packages"@]) {
                Some(Node::List(list)) => data::texts_among(list),
                _ => Seq::empty(),
            },
        }),
{
    let one = seq!["workspaces"@];
    let two = seq!["workspaces"@, "packages"@];
    assert(one.skip(1) =~= Seq::empty());
    assert(two.skip(1) =~= seq!["packages"@]);
    assert(seq!["packages"@].skip(1) =~= Seq::empty());
    reveal_with_fuel(data::at, 3);
}

} // verus!
