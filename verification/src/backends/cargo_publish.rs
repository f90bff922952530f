//! What publishing a Cargo workspace runs.

use vstd::prelude::*;

use crate::backend::Backend;
use crate::backends::cargo;
use crate::backends::cargo::Cargo;
use crate::backends::cargo_deps;
use crate::backends::cargo_roundtrip;
use crate::backends::cargo_roundtrip::doc_of;
use crate::backends::cargo_toml;
use crate::backends::cargo_toml::LayoutOf;
use crate::backends::cargo_toml::Path;
use crate::backends::workspace;
use crate::conversation;
use crate::data;
use crate::data::Entries;
use crate::data::Node;
use crate::error::ErrorView;
use crate::memory;
use crate::packages;
use crate::packages::PackageView;
use crate::session::Answer;
use crate::session::AskOf;
use crate::session::AskView;
use crate::session::Cursor;
use crate::session::Next;
use crate::text;
use crate::toml;
use crate::toml::manifest_of;

verus! {

// ---------------------------------------------------------------------------
// What depends on what
// ---------------------------------------------------------------------------

/// The manifest has a dependency on this package, of its own or of a target.
pub open spec fn depends_on(node: Node, name: Seq<char>) -> bool {
    exists|table: Path, key: Seq<char>| #[trigger] has_dependency(node, table, key, name)
}

/// The manifest has a dependency on this package with this key in this table.
pub open spec fn has_dependency(
    node: Node,
    table: Path,
    key: Seq<char>,
    name: Seq<char>,
) -> bool {
    &&& cargo_deps::is_dep_path(table)
    &&& table != seq!["workspace"@, "dependencies"@]
    &&& cargo_deps::is_table_path(node, table)
    &&& data::at(node, table.push(key)) matches Some(entry) && cargo_deps::package_of(key, entry)
        == name
}

proof fn lemma_names_among(entries: Entries, n: int, i: int)
    requires
        0 <= i < n <= entries.len(),
        data::find(entries, entries[i].0) is Some,
    ensures
        cargo_toml::names_among(entries, n).contains(
            cargo_toml::real_name(entries[i].0, data::find(entries, entries[i].0)->0),
        ),
    decreases n,
{
    if i < n - 1 {
        lemma_names_among(entries, n - 1, i);
    }
}

proof fn lemma_names_under(
    node: Node,
    base: Path,
    entries: Entries,
    kind: Seq<char>,
    key: Seq<char>,
)
    requires
        data::at(node, base) == Some(Node::Table(entries)),
        data::table_in(entries, kind) is Some,
        data::at(node, base.push(kind).push(key)) is Some,
        cargo_deps::is_kind(kind),
    ensures
        cargo_toml::names_in_tables(entries).contains(
            cargo_deps::package_of(key, data::at(node, base.push(kind).push(key))->0),
        ),
{
    let table = data::table_in(entries, kind)->0;
    toml::lemma_at_push(node, base, kind);
    toml::lemma_at_push(node, base.push(kind), key);
    let i = data::lemma_find(table, key);
    lemma_names_among(table, table.len() as int, i);
    assert(cargo_toml::names_under(entries, kind).contains(
        cargo_deps::package_of(key, data::at(node, base.push(kind).push(key))->0),
    ));
}

proof fn lemma_target_names(targets: Entries, n: int, i: int, name: Seq<char>)
    requires
        0 <= i < n <= targets.len(),
        data::table_in(targets, targets[i].0) matches Some(cfg) && cargo_toml::names_in_tables(
            cfg,
        ).contains(name),
    ensures
        cargo_toml::target_names(targets, n).contains(name),
    decreases n,
{
    if i < n - 1 {
        lemma_target_names(targets, n - 1, i, name);
    }
}

/// Every package that a manifest depends on is among those that its order goes
/// by.
pub proof fn law_all_dependencies_count(entries: Entries, name: Seq<char>)
    requires
        depends_on(Node::Table(entries), name),
    ensures
        cargo_toml::dep_names_in(entries).contains(name),
{
    let node = Node::Table(entries);
    let none = Seq::<Seq<char>>::empty();
    let (table, key) = choose|table: Path, key: Seq<char>| #[trigger]
        has_dependency(node, table, key, name);
    assert(data::at(node, table.take(1)) matches Some(Node::Table(_)));
    assert(table.take(1) =~= seq![table[0]]);
    toml::lemma_way_one(node, table[0]);
    if table.len() == 1 {
        assert(table =~= none.push(table[0]));
        lemma_names_under(node, none, entries, table[0], key);
    } else {
        let targets = data::table_in(entries, "target"@)->0;
        let base = seq!["target"@, table[1]];
        assert(data::at(node, table.take(2)) matches Some(Node::Table(_)));
        assert(table.take(2) =~= base);
        assert(base =~= seq!["target"@].push(table[1]));
        toml::lemma_at_push(node, seq!["target"@], table[1]);
        let cfg = data::table_in(targets, table[1])->0;
        assert(data::at(node, table.take(3)) matches Some(Node::Table(_)));
        assert(table.take(3) =~= table);
        assert(table =~= base.push(table[2]));
        toml::lemma_at_push(node, base, table[2]);
        lemma_names_under(node, base, cfg, table[2], key);
        let i = data::lemma_find(targets, table[1]);
        lemma_target_names(targets, targets.len() as int, i, name);
    }
}

// ---------------------------------------------------------------------------
// The members in their order
// ---------------------------------------------------------------------------

/// The packages of the manifests from the one at `i` on; `None` if one of these
/// cannot be read.
spec fn packages_by(
    host: spec_fn(AskView) -> Answer,
    manifests: Seq<Seq<char>>,
    i: int,
    out: Seq<PackageView>,
) -> Option<Seq<PackageView>>
    decreases manifests.len() - i,
{
    if i >= manifests.len() {
        Some(out)
    } else {
        match doc_of(host, manifests[i]) {
            Some(doc) => packages_by(
                host,
                manifests,
                i + 1,
                out.push(cargo::member(manifests[i], doc.1)),
            ),
            None => None,
        }
    }
}

/// The package is that of this manifest.
spec fn describes(host: spec_fn(AskView) -> Answer, path: Seq<char>, pkg: PackageView) -> bool {
    doc_of(host, path) matches Some(doc) && pkg == cargo::member(path, doc.1)
}

proof fn lemma_packages_by(
    host: spec_fn(AskView) -> Answer,
    manifests: Seq<Seq<char>>,
    i: int,
    out: Seq<PackageView>,
)
    requires
        0 <= i <= manifests.len(),
        out.len() == i,
    ensures
        packages_by(host, manifests, i, out) matches Some(all) ==> {
            &&& all.len() == manifests.len()
            &&& forall|k: int| 0 <= k < i ==> #[trigger] all[k] == out[k]
            &&& forall|k: int|
                i <= k < manifests.len() ==> describes(host, manifests[k], #[trigger] all[k])
        },
    decreases manifests.len() - i,
{
    if i < manifests.len() {
        if let Some(doc) = doc_of(host, manifests[i]) {
            let more = out.push(cargo::member(manifests[i], doc.1));
            lemma_packages_by(host, manifests, i + 1, more);
            if let Some(all) = packages_by(host, manifests, i, out) {
                assert(all[i] == more[i]);
                assert(describes(host, manifests[i], all[i]));
                assert forall|k: int| 0 <= k < i implies #[trigger] all[k] == out[k] by {
                    assert(all[k] == more[k]);
                }
            }
        }
    }
}

spec fn packages_flow(manifests: Seq<Seq<char>>, i: int, out: Seq<PackageView>) -> spec_fn(
    Cursor,
) -> Next<Result<Seq<PackageView>, ErrorView>> {
    |c: Cursor| cargo::packages_step(c, manifests, i, out)
}

proof fn lemma_packages_talk(
    c: Cursor,
    host: spec_fn(AskView) -> Answer,
    manifests: Seq<Seq<char>>,
    i: int,
    out: Seq<PackageView>,
) -> (r: (Cursor, ErrorView))
    requires
        conversation::waiting(c),
    ensures
        conversation::waiting(r.0),
        conversation::reaches(
            packages_flow(manifests, i, out),
            c,
            conversation::settled(packages_by(host, manifests, i, out), r.1),
            r.0,
            host,
        ),
    decreases manifests.len() - i,
{
    let f = packages_flow(manifests, i, out);
    let all = packages_by(host, manifests, i, out);
    if i >= manifests.len() {
        let e = arbitrary();
        conversation::lemma_same(f, conversation::settled(all, e), c, host);
        (c, e)
    } else {
        let q: AskView = AskOf::Read(manifests[i]);
        let c2 = conversation::told(c, host(q));
        conversation::lemma_told(c, host(q));
        match manifest_of(host(q)) {
            Some(doc) => {
                let more = out.push(cargo::member(manifests[i], doc.1));
                let g = packages_flow(manifests, i + 1, more);
                conversation::lemma_asks(f, g, c, host, q);
                let (d, e) = lemma_packages_talk(c2, host, manifests, i + 1, more);
                let end = conversation::settled(all, e);
                conversation::lemma_reaches_on(f, c, g, c2, end, d, host);
                (d, e)
            },
            None => {
                let e = toml::unread(c, manifests[i], host(q));
                conversation::lemma_asks(f, conversation::settled(all, e), c, host, q);
                (c2, e)
            },
        }
    }
}

/// The packages of the members that a host lets find, in their order; `None` if
/// there is none.
spec fn ordered_by(
    host: spec_fn(AskView) -> Answer,
    sep: char,
    patterns: Seq<Seq<char>>,
) -> Option<Seq<PackageView>> {
    match workspace::members_by(host, sep, patterns, 0, Seq::empty(), "Cargo.toml"@) {
        Some(manifests) => match packages_by(host, manifests, 0, Seq::empty()) {
            Some(pkgs) => match packages::publish_order(pkgs, false) {
                Ok(sorted) => Some(sorted),
                Err(_) => None,
            },
            None => None,
        },
        None => None,
    }
}

spec fn ordered_flow(patterns: Seq<Seq<char>>) -> spec_fn(Cursor) -> Next<
    Result<Seq<PackageView>, ErrorView>,
> {
    |c: Cursor| cargo::ordered_step(c, patterns)
}

proof fn lemma_ordered_talk(
    c: Cursor,
    host: spec_fn(AskView) -> Answer,
    patterns: Seq<Seq<char>>,
) -> (r: (Cursor, ErrorView))
    requires
        conversation::waiting(c),
    ensures
        conversation::waiting(r.0),
        conversation::reaches(
            ordered_flow(patterns),
            c,
            conversation::settled(ordered_by(host, c.sep, patterns), r.1),
            r.0,
            host,
        ),
{
    let f = ordered_flow(patterns);
    let all = ordered_by(host, c.sep, patterns);
    let order = |pkgs: Seq<PackageView>, c: Cursor| Next::Done(cargo::ordered(pkgs), c);
    let read = |manifests: Seq<Seq<char>>, c: Cursor|
        cargo::packages_step(c, manifests, 0, Seq::empty()).and_ok(order);
    let search = workspace::children_flow(patterns, "Cargo.toml"@);
    let g = conversation::followed(search, read);
    conversation::lemma_same(f, g, c, host);
    let (d, e) = workspace::lemma_children_flow(c, host, patterns, "Cargo.toml"@);
    let found = workspace::members_by(host, c.sep, patterns, 0, Seq::empty(), "Cargo.toml"@);
    conversation::lemma_follows(search, read, c, found, e, d, host);
    let h = conversation::onward(read, found, e);
    conversation::lemma_reaches_on(f, c, g, c, h, d, host);
    match found {
        None => {
            let end = conversation::settled(all, e);
            conversation::lemma_same(h, end, d, host);
            conversation::lemma_reaches_on(f, c, h, d, end, d, host);
            (d, e)
        },
        Some(manifests) => {
            let none = Seq::<PackageView>::empty();
            let k = conversation::followed(packages_flow(manifests, 0, none), order);
            conversation::lemma_same(h, k, d, host);
            conversation::lemma_reaches_on(f, c, h, d, k, d, host);
            let (d2, e2) = lemma_packages_talk(d, host, manifests, 0, none);
            let pkgs = packages_by(host, manifests, 0, none);
            let flow = packages_flow(manifests, 0, none);
            conversation::lemma_follows(flow, order, d, pkgs, e2, d2, host);
            let l = conversation::onward(order, pkgs, e2);
            conversation::lemma_reaches_on(f, c, k, d, l, d2, host);
            let e3 = match pkgs {
                Some(pkgs) => cargo::ordered(pkgs)->Err_0,
                None => e2,
            };
            let end = conversation::settled(all, e3);
            conversation::lemma_same(l, end, d2, host);
            conversation::lemma_reaches_on(f, c, l, d2, end, d2, host);
            (d2, e3)
        },
    }
}

// ---------------------------------------------------------------------------
// The commands
// ---------------------------------------------------------------------------

/// The request to publish one package of a workspace.
pub open spec fn publish_ask(name: Seq<char>) -> AskView {
    AskOf::Run(""@, "cargo"@, seq!["publish"@, "-p"@, name])
}

/// The names of the packages from the one at `i` on.
spec fn names_from(pkgs: Seq<PackageView>, i: int) -> Seq<Seq<char>>
    decreases pkgs.len() - i,
{
    if i >= pkgs.len() {
        Seq::empty()
    } else {
        (match pkgs[i].name {
            Some(name) => seq![name],
            None => Seq::empty(),
        }) + names_from(pkgs, i + 1)
    }
}

/// Publish these, one after the other.
pub open spec fn publish_asks(names: Seq<Seq<char>>) -> Seq<AskView> {
    Seq::new(names.len(), |i: int| publish_ask(names[i]))
}

spec fn each_flow(pkgs: Seq<PackageView>, i: int) -> spec_fn(Cursor) -> Next<
    Result<(), ErrorView>,
> {
    |c: Cursor| cargo::publish_each_step(c, pkgs, i)
}

/// From `past` to `later` the host was asked to publish these, and did.
pub open spec fn published(
    host: spec_fn(Seq<AskView>, AskView) -> Answer,
    past: Seq<AskView>,
    later: Seq<AskView>,
    names: Seq<Seq<char>>,
) -> bool {
    &&& past.is_prefix_of(later)
    &&& memory::runs(later.skip(past.len() as int)) == publish_asks(names)
    &&& forall|i: int|
        past.len() <= i < later.len() && (#[trigger] later[i]) is Run ==> host(
            later.take(i),
            later[i],
        ) is Yes
}

proof fn lemma_each(
    c: Cursor,
    host: spec_fn(Seq<AskView>, AskView) -> Answer,
    past: Seq<AskView>,
    pkgs: Seq<PackageView>,
    i: int,
    n: nat,
)
    requires
        conversation::waiting(c),
        0 <= i <= pkgs.len(),
        memory::ends(each_flow(pkgs, i), c, host, past, n) matches Some((Ok(_), _)),
    ensures
        ({
            let (_, later) = memory::ends(each_flow(pkgs, i), c, host, past, n)->0;
            published(host, past, later, names_from(pkgs, i))
        }),
    decreases pkgs.len() - i,
{
    let f = each_flow(pkgs, i);
    let (_, later) = memory::ends(f, c, host, past, n)->0;
    let none = Seq::<AskView>::empty();
    if i >= pkgs.len() {
        assert(later.skip(past.len() as int) =~= none);
        assert(publish_asks(names_from(pkgs, i)) =~= none);
    } else {
        let g = each_flow(pkgs, i + 1);
        let q: AskView = match pkgs[i].name {
            Some(name) => publish_ask(name),
            None => AskOf::Warn(
                "warning: skipping publish of "@ + pkgs[i].place + " (no [package].name)"@,
            ),
        };
        let a = host(past, q);
        let c2 = conversation::told(c, a);
        conversation::lemma_told(c, a);
        if pkgs[i].name is Some && !(a is Yes) {
            let e = f(c.with(seq![a]))->Done_0->Err_0;
            let h = |c: Cursor| Next::Done(Err::<(), ErrorView>(e), c);
            memory::lemma_one(f, h, c, host, past, q, n);
            assert(h(c2) is Done);
        } else {
            memory::lemma_one(f, g, c, host, past, q, n);
            lemma_each(c2, host, past.push(q), pkgs, i + 1, (n - 1) as nat);
            let rest = later.skip(past.push(q).len() as int);
            assert(past.push(q) == later.take(past.len() as int + 1));
            assert(later[past.len() as int] == later.take(past.len() as int + 1)[past.len() as int]);
            assert(later.take(past.len() as int) =~= later.take(past.len() as int + 1).take(
                past.len() as int,
            ));
            assert(past.push(q).take(past.len() as int) =~= past);
            assert(later.skip(past.len() as int) =~= seq![q] + rest);
            memory::lemma_runs(seq![q], rest);
            assert(seq![q].drop_last() =~= none);
            assert(seq![q].last() == q);
            assert(memory::runs(none) =~= none);
            assert(memory::runs(seq![q]) =~= if q is Run {
                seq![q]
            } else {
                none
            });
            assert(publish_asks(names_from(pkgs, i)) =~= memory::runs(seq![q]) + publish_asks(
                names_from(pkgs, i + 1),
            ));
        }
    }
}

// ---------------------------------------------------------------------------
// The whole
// ---------------------------------------------------------------------------

/// Publish.
pub open spec fn publishing(cargo: Cargo) -> spec_fn(Cursor) -> Next<Result<(), ErrorView>> {
    |c: Cursor| cargo.publish_step(c)
}

/// Show what publishing would run.
pub open spec fn showing(cargo: Cargo) -> spec_fn(Cursor) -> Next<
    Result<Option<Seq<char>>, ErrorView>,
> {
    |c: Cursor| cargo.publish_preview_step(c)
}

/// The root manifest is that of a workspace, and has no package of its own.
pub open spec fn is_virtual(node: Node) -> bool {
    &&& data::at(node, seq!["workspace"@]) matches Some(Node::Table(_))
    &&& data::at(node, seq!["package"@]) is None
}

/// The name of the package of a manifest, if it has one.
pub open spec fn name_of(host: spec_fn(AskView) -> Answer, path: Seq<char>) -> Option<Seq<char>> {
    match doc_of(host, path) {
        Some(doc) => match (
            data::at(Node::Table(doc.1), seq!["package"@]),
            data::at(Node::Table(doc.1), seq!["package"@, "name"@]),
        ) {
            (Some(Node::Table(_)), Some(Node::Text(name))) => Some(name),
            _ => None,
        },
        None => None,
    }
}

/// The names of the packages of these manifests, in this order, without those
/// that have none.
pub open spec fn names_along(
    host: spec_fn(AskView) -> Answer,
    files: Seq<Seq<char>>,
    order: Seq<usize>,
    n: int,
) -> Seq<Seq<char>>
    decreases n,
{
    if n <= 0 {
        Seq::empty()
    } else {
        names_along(host, files, order, n - 1) + (match name_of(
            host,
            files[order[n - 1] as int],
        ) {
            Some(name) => seq![name],
            None => Seq::empty(),
        })
    }
}

/// No manifest behind the one at `j` has a package of the same name.
pub open spec fn is_last_of_its_name(
    host: spec_fn(AskView) -> Answer,
    files: Seq<Seq<char>>,
    j: int,
) -> bool {
    forall|k: int|
        j < k < files.len() ==> name_of(host, #[trigger] files[k]) != name_of(host, files[j])
}

/// The order has every manifest once, and each behind those whose packages it
/// depends on.
pub open spec fn is_publish_order(
    host: spec_fn(AskView) -> Answer,
    files: Seq<Seq<char>>,
    order: Seq<usize>,
) -> bool {
    &&& packages::permutes(order, files.len())
    &&& forall|p: int, q: int|
        #![trigger order[p], order[q]]
        0 <= p < order.len() && 0 <= q < order.len() && p != q && (name_of(
            host,
            files[order[q] as int],
        ) matches Some(name) && is_last_of_its_name(host, files, order[q] as int) && (doc_of(
            host,
            files[order[p] as int],
        ) matches Some(doc) && depends_on(Node::Table(doc.1), name))) ==> q < p
}

proof fn lemma_name(host: spec_fn(AskView) -> Answer, path: Seq<char>, pkg: PackageView)
    requires
        describes(host, path, pkg),
    ensures
        pkg.name == name_of(host, path),
{
    let doc = doc_of(host, path)->0;
    cargo_toml::lemma_at_two(Node::Table(doc.1), "package"@, "name"@);
}

proof fn lemma_along(
    host: spec_fn(AskView) -> Answer,
    files: Seq<Seq<char>>,
    pkgs: Seq<PackageView>,
    order: Seq<usize>,
    n: int,
)
    requires
        0 <= n <= order.len(),
        packages::permutes(order, files.len()),
        pkgs.len() == files.len(),
        forall|k: int| 0 <= k < files.len() ==> describes(host, files[k], #[trigger] pkgs[k]),
    ensures
        ({
            let sorted = Seq::new(order.len(), |k: int| pkgs[order[k] as int]);
            names_along(host, files, order, order.len() as int) == names_along(
                host,
                files,
                order,
                n,
            ) + names_from(sorted, n)
        }),
    decreases order.len() - n,
{
    let sorted = Seq::new(order.len(), |k: int| pkgs[order[k] as int]);
    let all = names_along(host, files, order, order.len() as int);
    if n == order.len() {
        assert(all + Seq::<Seq<char>>::empty() =~= all);
    } else {
        let i = order[n] as int;
        assert(describes(host, files[i], pkgs[i]));
        lemma_name(host, files[i], pkgs[i]);
        lemma_along(host, files, pkgs, order, n + 1);
        assert(names_along(host, files, order, n + 1) + names_from(sorted, n + 1)
            =~= names_along(host, files, order, n) + names_from(sorted, n));
    }
}

/// The order of the members is one in which they can be published.
proof fn lemma_order(
    host: spec_fn(AskView) -> Answer,
    files: Seq<Seq<char>>,
    pkgs: Seq<PackageView>,
) -> (order: Seq<usize>)
    requires
        files.len() <= usize::MAX,
        packages_by(host, files, 0, Seq::empty()) == Some(pkgs),
        packages::publish_order(pkgs, false) is Ok,
    ensures
        is_publish_order(host, files, order),
        names_from(packages::publish_order(pkgs, false)->Ok_0, 0) == names_along(
            host,
            files,
            order,
            files.len() as int,
        ),
{
    lemma_packages_by(host, files, 0, Seq::empty());
    let order = packages::law_order_is_sound(pkgs, false);
    lemma_along(host, files, pkgs, order, 0);
    let sorted = Seq::new(order.len(), |k: int| pkgs[order[k] as int]);
    assert(names_along(host, files, order, 0) + names_from(sorted, 0) =~= names_from(sorted, 0));
    assert forall|p: int, q: int|
        #![trigger order[p], order[q]]
        0 <= p < order.len() && 0 <= q < order.len() && p != q && (name_of(
            host,
            files[order[q] as int],
        ) matches Some(name) && is_last_of_its_name(host, files, order[q] as int) && (doc_of(
            host,
            files[order[p] as int],
        ) matches Some(doc) && depends_on(Node::Table(doc.1), name))) implies q < p by {
        let (i, j) = (order[p] as int, order[q] as int);
        assert(describes(host, files[i], pkgs[i]));
        assert(describes(host, files[j], pkgs[j]));
        lemma_name(host, files[j], pkgs[j]);
        let name = name_of(host, files[j])->0;
        let doc = doc_of(host, files[i])->0;
        law_all_dependencies_count(doc.1, name);
        assert(packages::is_last_named(pkgs, j)) by {
            assert forall|k: int| j < k < pkgs.len() implies (#[trigger] pkgs[k]).name
                != pkgs[j].name by {
                assert(describes(host, files[k], pkgs[k]));
                lemma_name(host, files[k], pkgs[k]);
                assert(name_of(host, files[k]) != name_of(host, files[j]));
            }
        }
    }
    order
}

/// A workspace without a package of its own is published member by member.
proof fn lemma_root(entries: Entries)
    requires
        is_virtual(Node::Table(entries)),
    ensures
        cargo_toml::name_in(entries) is None,
        !(cargo_toml::layout_of(entries) is Package),
        cargo_toml::layout_of(entries) matches LayoutOf::VirtualOrMembers(patterns) ==> patterns
            == cargo_roundtrip::member_patterns(Node::Table(entries)),
        cargo_toml::members_in(entries) == cargo_roundtrip::member_patterns(Node::Table(entries)),
{
    let node = Node::Table(entries);
    cargo_toml::lemma_at_two(node, "package"@, "name"@);
    cargo_toml::lemma_at_two(node, "workspace"@, "members"@);
}

spec fn members_flow(patterns: Seq<Seq<char>>) -> spec_fn(Cursor) -> Next<Result<(), ErrorView>> {
    |c: Cursor| cargo::publish_members_step(c, patterns)
}

spec fn shown_flow(patterns: Seq<Seq<char>>) -> spec_fn(Cursor) -> Next<
    Result<Option<Seq<char>>, ErrorView>,
> {
    |c: Cursor| cargo::preview_publish_step(c, patterns)
}

/// Publishing a workspace whose root has no package runs `cargo publish -p` for
/// each member that has a name, once for each, and nothing else; each member
/// comes behind those that it depends on, and every run has succeeded. It is so
/// whether the version is shared or not.
pub proof fn law_members_are_published_in_order(
    cargo: Cargo,
    c: Cursor,
    host: spec_fn(Seq<AskView>, AskView) -> Answer,
    same: spec_fn(Seq<char>, Seq<char>) -> bool,
    past: Seq<AskView>,
    t: Seq<char>,
    entries: Entries,
    n: nat,
) -> (r: (Seq<Seq<char>>, Seq<usize>))
    requires
        memory::remembers(host, same),
        conversation::waiting(c),
        memory::ends(publishing(cargo), c, host, past, n) matches Some((Ok(_), _)),
        doc_of(memory::now(host, past), "Cargo.toml"@) == Some((t, entries)),
        is_virtual(Node::Table(entries)),
        workspace::members_by(
            memory::now(host, past),
            c.sep,
            cargo_roundtrip::member_patterns(Node::Table(entries)),
            0,
            Seq::empty(),
            "Cargo.toml"@,
        ) matches Some(files) ==> files.len() <= usize::MAX,
    ensures
        ({
            let first = memory::now(host, past);
            let (_, later) = memory::ends(publishing(cargo), c, host, past, n)->0;
            let (files, order) = r;
            &&& workspace::members_by(
                first,
                c.sep,
                cargo_roundtrip::member_patterns(Node::Table(entries)),
                0,
                Seq::empty(),
                "Cargo.toml"@,
            ) == Some(files)
            &&& is_publish_order(first, files, order)
            &&& published(
                host,
                past,
                later,
                names_along(first, files, order, files.len() as int),
            )
        }),
{
    let f = publishing(cargo);
    let first = memory::now(host, past);
    let q: AskView = AskOf::Read("Cargo.toml"@);
    let a = host(past, q);
    let c2 = conversation::told(c, a);
    let past2 = past.push(q);
    let here = memory::now(host, past2);
    let patterns = cargo_roundtrip::member_patterns(Node::Table(entries));
    let g = members_flow(patterns);
    lemma_root(entries);
    conversation::lemma_told(c, a);
    memory::lemma_one(f, g, c, host, past, q, n);
    memory::lemma_looked(host, same, past, q);
    let (past3, d, l) = lemma_to_each(c2, host, same, past2, patterns, (n - 1) as nat);
    lemma_ordered_same(here, first, c.sep, patterns);
    let sorted = ordered_by(first, c.sep, patterns)->0;
    lemma_each(d, host, past3, sorted, 0, l);
    let files = workspace::members_by(
        first,
        c.sep,
        patterns,
        0,
        Seq::empty(),
        "Cargo.toml"@,
    )->0;
    let pkgs = packages_by(first, files, 0, Seq::empty())->0;
    let order = lemma_order(first, files, pkgs);
    let (_, later) = memory::ends(f, c, host, past, n)->0;
    lemma_published_before(host, past, past3, later, names_from(sorted, 0), q);
    (files, order)
}

/// What was looked at before makes no difference to what was published.
proof fn lemma_published_before(
    host: spec_fn(Seq<AskView>, AskView) -> Answer,
    past: Seq<AskView>,
    mid: Seq<AskView>,
    later: Seq<AskView>,
    names: Seq<Seq<char>>,
    q: AskView,
)
    requires
        q.harmless(),
        memory::looked_on(past.push(q), mid),
        published(host, mid, later, names),
    ensures
        published(host, past, later, names),
{
    let k = past.len() as int;
    let looks = mid.skip(k);
    let rest = later.skip(mid.len() as int);
    assert(mid.take(k) =~= mid.take(k + 1).take(k));
    assert(past.push(q).take(k) =~= past);
    assert(mid.take(k) == past);
    assert(later.take(mid.len() as int) == mid);
    assert(later.take(k) =~= later.take(mid.len() as int).take(k));
    assert(later.skip(k) =~= looks + rest);
    assert forall|i: int| 0 <= i < looks.len() implies (#[trigger] looks[i]).harmless() by {
        if i > 0 {
            assert(looks[i] == mid.skip(k + 1)[i - 1]);
        } else {
            assert(looks[0] == mid.take(k + 1)[k]);
        }
    }
    memory::lemma_runs(looks, rest);
    memory::lemma_looks_run_nothing(looks);
    assert(Seq::<AskView>::empty() + memory::runs(rest) =~= memory::runs(rest));
    assert forall|i: int| past.len() <= i < later.len() && (#[trigger] later[i]) is Run implies host(
        later.take(i),
        later[i],
    ) is Yes by {
        if i < mid.len() {
            assert(later[i] == later.take(mid.len() as int)[i]);
            assert(looks[i - k] == mid[i]);
            assert(looks[i - k].harmless());
        }
    }
}

proof fn lemma_ordered_same(
    a: spec_fn(AskView) -> Answer,
    b: spec_fn(AskView) -> Answer,
    sep: char,
    patterns: Seq<Seq<char>>,
)
    requires
        memory::same_looks(a, b),
    ensures
        ordered_by(a, sep, patterns) == ordered_by(b, sep, patterns),
{
    memory::lemma_same_files(a, b);
    workspace::lemma_members_same(b, a, sep, patterns, 0, Seq::empty(), "Cargo.toml"@);
    if let Some(manifests) = workspace::members_by(
        a,
        sep,
        patterns,
        0,
        Seq::empty(),
        "Cargo.toml"@,
    ) {
        lemma_packages_same(a, b, manifests, 0, Seq::empty());
    }
}

proof fn lemma_packages_same(
    a: spec_fn(AskView) -> Answer,
    b: spec_fn(AskView) -> Answer,
    manifests: Seq<Seq<char>>,
    i: int,
    out: Seq<PackageView>,
)
    requires
        memory::same_looks(a, b),
    ensures
        packages_by(a, manifests, i, out) == packages_by(b, manifests, i, out),
    decreases manifests.len() - i,
{
    if i < manifests.len() {
        let q: AskView = AskOf::Read(manifests[i]);
        assert(a(q) == b(q));
        if let Some(doc) = doc_of(a, manifests[i]) {
            lemma_packages_same(
                a,
                b,
                manifests,
                i + 1,
                out.push(cargo::member(manifests[i], doc.1)),
            );
        }
    }
}

/// How publishing these is shown: the commands in their order.
pub open spec fn shown_as(names: Seq<Seq<char>>) -> Seq<char> {
    if names.len() == 0 {
        "cargo publish"@
    } else {
        text::joined(
            Seq::new(names.len(), |i: int| "cargo publish -p "@ + names[i]),
            " && "@,
        )
    }
}

proof fn lemma_commands(pkgs: Seq<PackageView>, n: int)
    requires
        0 <= n <= pkgs.len(),
    ensures
        ({
            let names = names_from(pkgs, n);
            let before = cargo::commands_of(pkgs, n);
            cargo::commands_of(pkgs, pkgs.len() as int) == before + Seq::new(
                names.len(),
                |i: int| "cargo publish -p "@ + names[i],
            )
        }),
    decreases pkgs.len() - n,
{
    let names = names_from(pkgs, n);
    let rest = Seq::new(names.len(), |i: int| "cargo publish -p "@ + names[i]);
    if n == pkgs.len() {
        assert(cargo::commands_of(pkgs, n) + rest =~= cargo::commands_of(pkgs, n));
    } else {
        lemma_commands(pkgs, n + 1);
        let later = names_from(pkgs, n + 1);
        let more = Seq::new(later.len(), |i: int| "cargo publish -p "@ + later[i]);
        assert(cargo::commands_of(pkgs, n + 1) + more =~= cargo::commands_of(pkgs, n) + rest);
    }
}

/// What is shown before a workspace without a package of its own is published
/// are the commands that publishing it runs, in the same order.
pub proof fn law_preview_shows_what_is_run(
    cargo: Cargo,
    c: Cursor,
    host: spec_fn(Seq<AskView>, AskView) -> Answer,
    same: spec_fn(Seq<char>, Seq<char>) -> bool,
    past: Seq<AskView>,
    t: Seq<char>,
    entries: Entries,
    n: nat,
    k: nat,
) -> (names: Seq<Seq<char>>)
    requires
        memory::remembers(host, same),
        conversation::waiting(c),
        memory::ends(publishing(cargo), c, host, past, n) matches Some((Ok(_), _)),
        conversation::stands(showing(cargo), c, memory::now(host, past), k) is Done,
        doc_of(memory::now(host, past), "Cargo.toml"@) == Some((t, entries)),
        is_virtual(Node::Table(entries)),
        workspace::members_by(
            memory::now(host, past),
            c.sep,
            cargo_roundtrip::member_patterns(Node::Table(entries)),
            0,
            Seq::empty(),
            "Cargo.toml"@,
        ) matches Some(files) ==> files.len() <= usize::MAX,
    ensures
        ({
            let (_, later) = memory::ends(publishing(cargo), c, host, past, n)->0;
            &&& published(host, past, later, names)
            &&& conversation::stands(
                showing(cargo),
                c,
                memory::now(host, past),
                k,
            )->Done_0 == Ok::<_, ErrorView>(Some(shown_as(names)))
        }),
{
    let first = memory::now(host, past);
    let (files, order) = law_members_are_published_in_order(
        cargo,
        c,
        host,
        same,
        past,
        t,
        entries,
        n,
    );
    let names = names_along(first, files, order, files.len() as int);
    let patterns = cargo_roundtrip::member_patterns(Node::Table(entries));
    let f = showing(cargo);
    let q: AskView = AskOf::Read("Cargo.toml"@);
    let a = first(q);
    let c2 = conversation::told(c, a);
    let g = shown_flow(patterns);
    lemma_root(entries);
    conversation::lemma_told(c, a);
    conversation::lemma_asks(f, g, c, first, q);
    let show = |pkgs: Seq<PackageView>, c: Cursor|
        Next::Done(Ok::<_, ErrorView>(Some(cargo::shown_commands(pkgs))), c);
    let h = conversation::followed(ordered_flow(patterns), show);
    conversation::lemma_same(g, h, c2, first);
    conversation::lemma_reaches_on(f, c, g, c2, h, c2, first);
    let (d, e) = lemma_ordered_talk(c2, first, patterns);
    let found = ordered_by(first, c.sep, patterns);
    conversation::lemma_follows(ordered_flow(patterns), show, c2, found, e, d, first);
    let l = conversation::onward(show, found, e);
    conversation::lemma_reaches_on(f, c, h, c2, l, d, first);
    let m = conversation::lemma_came_through(f, c, l, d, first, k);
    conversation::lemma_silent(l, d, first, m);
    let (_, later) = memory::ends(publishing(cargo), c, host, past, n)->0;
    let sorted = lemma_same_names(cargo, c, host, same, past, t, entries, n, names);
    lemma_commands(sorted, 0);
    let list = Seq::new(names.len(), |i: int| "cargo publish -p "@ + names[i]);
    assert(cargo::commands_of(sorted, 0) + list =~= list);
    names
}

/// Requests to publish tell what is published.
proof fn lemma_asks_tell(a: Seq<Seq<char>>, b: Seq<Seq<char>>)
    requires
        publish_asks(a) == publish_asks(b),
    ensures
        a == b,
{
    assert(publish_asks(a).len() == a.len());
    assert(publish_asks(b).len() == b.len());
    assert(a.len() == b.len());
    assert forall|i: int| 0 <= i < a.len() implies a[i] == b[i] by {
        assert(publish_asks(a)[i] == publish_ask(a[i]));
        assert(publish_asks(b)[i] == publish_ask(b[i]));
        let (x, y) = (seq!["publish"@, "-p"@, a[i]], seq!["publish"@, "-p"@, b[i]]);
        assert(x == y);
        assert(x[2] == a[i] && y[2] == b[i]);
    }
    assert(a =~= b);
}

/// The names that are published are those of the members in their order.
proof fn lemma_same_names(
    cargo: Cargo,
    c: Cursor,
    host: spec_fn(Seq<AskView>, AskView) -> Answer,
    same: spec_fn(Seq<char>, Seq<char>) -> bool,
    past: Seq<AskView>,
    t: Seq<char>,
    entries: Entries,
    n: nat,
    names: Seq<Seq<char>>,
) -> (sorted: Seq<PackageView>)
    requires
        memory::remembers(host, same),
        conversation::waiting(c),
        memory::ends(publishing(cargo), c, host, past, n) matches Some((Ok(_), _)),
        doc_of(memory::now(host, past), "Cargo.toml"@) == Some((t, entries)),
        is_virtual(Node::Table(entries)),
        ({
            let (_, later) = memory::ends(publishing(cargo), c, host, past, n)->0;
            published(host, past, later, names)
        }),
    ensures
        ordered_by(
            memory::now(host, past),
            c.sep,
            cargo_roundtrip::member_patterns(Node::Table(entries)),
        ) == Some(sorted),
        names_from(sorted, 0) == names,
{
    let f = publishing(cargo);
    let first = memory::now(host, past);
    let q: AskView = AskOf::Read("Cargo.toml"@);
    let a = host(past, q);
    let c2 = conversation::told(c, a);
    let past2 = past.push(q);
    let here = memory::now(host, past2);
    let patterns = cargo_roundtrip::member_patterns(Node::Table(entries));
    let g = members_flow(patterns);
    lemma_root(entries);
    conversation::lemma_told(c, a);
    memory::lemma_one(f, g, c, host, past, q, n);
    memory::lemma_looked(host, same, past, q);
    let (past3, d, l) = lemma_to_each(c2, host, same, past2, patterns, (n - 1) as nat);
    lemma_ordered_same(here, first, c.sep, patterns);
    let sorted = ordered_by(first, c.sep, patterns)->0;
    lemma_each(d, host, past3, sorted, 0, l);
    let (_, later) = memory::ends(f, c, host, past, n)->0;
    lemma_published_before(host, past, past3, later, names_from(sorted, 0), q);
    lemma_asks_tell(names, names_from(sorted, 0));
    sorted
}

/// The members are found and ordered, and then published one by one.
proof fn lemma_to_each(
    c: Cursor,
    host: spec_fn(Seq<AskView>, AskView) -> Answer,
    same: spec_fn(Seq<char>, Seq<char>) -> bool,
    past: Seq<AskView>,
    patterns: Seq<Seq<char>>,
    n: nat,
) -> (r: (Seq<AskView>, Cursor, nat))
    requires
        memory::remembers(host, same),
        conversation::waiting(c),
        memory::ends(members_flow(patterns), c, host, past, n) matches Some((Ok(_), _)),
    ensures
        conversation::waiting(r.1),
        memory::looked_on(past, r.0),
        ordered_by(memory::now(host, past), c.sep, patterns) matches Some(sorted) && memory::ends(
            members_flow(patterns),
            c,
            host,
            past,
            n,
        ) == memory::ends(each_flow(sorted, 0), r.1, host, r.0, r.2),
{
    let g = members_flow(patterns);
    let here = memory::now(host, past);
    let each = |pkgs: Seq<PackageView>, c: Cursor| cargo::publish_each_step(c, pkgs, 0);
    let h = conversation::followed(ordered_flow(patterns), each);
    conversation::lemma_same(g, h, c, here);
    let (d, e) = lemma_ordered_talk(c, here, patterns);
    let found = ordered_by(here, c.sep, patterns);
    conversation::lemma_follows(ordered_flow(patterns), each, c, found, e, d, here);
    let k = conversation::onward(each, found, e);
    conversation::lemma_reaches_on(g, c, h, c, k, d, here);
    let (past2, l) = memory::lemma_through(g, c, k, d, host, same, past, n);
    if found is None {
        assert(k(d) is Done);
    }
    memory::lemma_same_end(k, d, each_flow(found->0, 0), d, host, past2, l);
    (past2, d, l)
}

/// A package that is not part of a workspace is published with one plain
/// `cargo publish`, and so it is shown.
pub proof fn law_single_package_is_published(
    cargo: Cargo,
    c: Cursor,
    host: spec_fn(Seq<AskView>, AskView) -> Answer,
    past: Seq<AskView>,
    t: Seq<char>,
    entries: Entries,
    n: nat,
    k: nat,
)
    requires
        conversation::waiting(c),
        memory::ends(publishing(cargo), c, host, past, n) matches Some((Ok(_), _)),
        doc_of(memory::now(host, past), "Cargo.toml"@) == Some((t, entries)),
        data::at(Node::Table(entries), seq!["workspace"@]) is None,
    ensures
        memory::ends(publishing(cargo), c, host, past, n) == Some(
            (
                Ok::<(), ErrorView>(()),
                past.push(AskOf::Read("Cargo.toml"@)).push(
                    AskOf::Run(""@, "cargo"@, seq!["publish"@]),
                ),
            ),
        ),
        conversation::stands(showing(cargo), c, memory::now(host, past), k) matches Next::Done(
            v,
            _,
        ) ==> v == Ok::<_, ErrorView>(Some("cargo publish"@)),
{
    let node = Node::Table(entries);
    cargo_toml::lemma_at_two(node, "workspace"@, "package"@);
    let f = publishing(cargo);
    let q: AskView = AskOf::Read("Cargo.toml"@);
    let a = host(past, q);
    let c2 = conversation::told(c, a);
    let past2 = past.push(q);
    conversation::lemma_told(c, a);
    let g = |c: Cursor| c.run(""@, "cargo"@, seq!["publish"@]);
    memory::lemma_one(f, g, c, host, past, q, n);
    let w: AskView = AskOf::Run(""@, "cargo"@, seq!["publish"@]);
    let b = host(past2, w);
    let r = g(c2.with(seq![b]))->Done_0;
    let h = |c: Cursor| Next::Done(r, c);
    conversation::lemma_told(c2, b);
    memory::lemma_one(g, h, c2, host, past2, w, (n - 1) as nat);
    assert(h(conversation::told(c2, b)) is Done);
    let first = memory::now(host, past);
    let end = |c: Cursor| Next::Done(Ok::<_, ErrorView>(Some("cargo publish"@)), c);
    conversation::lemma_asks(showing(cargo), end, c, first, q);
    if conversation::stands(showing(cargo), c, first, k) is Done {
        let m = conversation::lemma_came_through(showing(cargo), c, end, c2, first, k);
        conversation::lemma_silent(end, c2, first, m);
    }
}

// ---------------------------------------------------------------------------
// Whether there is anything to publish
// ---------------------------------------------------------------------------

/// Tell whether there is anything to publish.
pub open spec fn telling(cargo: Cargo) -> spec_fn(Cursor) -> Next<Result<bool, ErrorView>> {
    |c: Cursor| cargo.publishable_step(c)
}

/// The manifest says `publish = false` of its package.
pub open spec fn says_no(node: Node) -> bool {
    &&& data::at(node, seq!["package"@]) matches Some(Node::Table(_))
    &&& data::at(node, seq!["package"@, "publish"@]) == Some(Node::Flag(false))
}

/// The manifest is that of a package with a name that may be published.
pub open spec fn offers(host: spec_fn(AskView) -> Answer, path: Seq<char>) -> bool {
    name_of(host, path) is Some && (doc_of(host, path) matches Some(doc) && !says_no(
        Node::Table(doc.1),
    ))
}

proof fn lemma_says_no(entries: Entries)
    ensures
        says_no(Node::Table(entries)) <==> cargo_toml::opts_out(entries),
{
    cargo_toml::lemma_at_two(Node::Table(entries), "package"@, "publish"@);
}

spec fn some_flow(manifests: Seq<Seq<char>>, i: int, refused: bool) -> spec_fn(Cursor) -> Next<
    Result<bool, ErrorView>,
> {
    |c: Cursor| cargo::some_publishable_step(c, manifests, i, refused)
}

/// What is told of the manifests from the one at `i` on.
spec fn tells(
    host: spec_fn(AskView) -> Answer,
    files: Seq<Seq<char>>,
    i: int,
    refused: bool,
    v: Result<bool, ErrorView>,
) -> bool {
    v matches Ok(any) ==> (if any {
        (exists|k: int| i <= k < files.len() && offers(host, #[trigger] files[k])) || (!refused
            && forall|k: int| i <= k < files.len() ==> name_of(host, #[trigger] files[k]) is None)
    } else {
        &&& forall|k: int| i <= k < files.len() ==> !offers(host, #[trigger] files[k])
        &&& refused || exists|k: int|
            i <= k < files.len() && name_of(host, #[trigger] files[k]) is Some
    })
}

proof fn lemma_some_talk(
    c: Cursor,
    host: spec_fn(AskView) -> Answer,
    files: Seq<Seq<char>>,
    i: int,
    refused: bool,
) -> (r: (Cursor, Result<bool, ErrorView>))
    requires
        conversation::waiting(c),
        0 <= i,
    ensures
        conversation::reaches(
            some_flow(files, i, refused),
            c,
            |x: Cursor| Next::Done(r.1, x),
            r.0,
            host,
        ),
        tells(host, files, i, refused, r.1),
    decreases files.len() - i,
{
    let f = some_flow(files, i, refused);
    if i >= files.len() {
        let v = Ok(!refused);
        conversation::lemma_same(f, |x: Cursor| Next::Done(v, x), c, host);
        (c, v)
    } else {
        let path = files[i];
        let q: AskView = AskOf::Read(path);
        let c2 = conversation::told(c, host(q));
        conversation::lemma_told(c, host(q));
        match manifest_of(host(q)) {
            None => {
                let v = f(c.with(seq![host(q)]))->Done_0;
                conversation::lemma_asks(f, |x: Cursor| Next::Done(v, x), c, host, q);
                (c2, v)
            },
            Some(doc) => {
                lemma_says_no(doc.1);
                let node = Node::Table(doc.1);
                cargo_toml::lemma_at_two(node, "package"@, "name"@);
                assert(name_of(host, path) == cargo_toml::name_in(doc.1));
                if name_of(host, path) is Some && !says_no(node) {
                    let v = Ok(true);
                    conversation::lemma_asks(f, |x: Cursor| Next::Done(v, x), c, host, q);
                    assert(offers(host, files[i]));
                    (c2, v)
                } else {
                    let more = refused || name_of(host, path) is Some;
                    let g = some_flow(files, i + 1, more);
                    conversation::lemma_asks(f, g, c, host, q);
                    let (d, v) = lemma_some_talk(c2, host, files, i + 1, more);
                    let end = |x: Cursor| Next::Done(v, x);
                    conversation::lemma_reaches_on(f, c, g, c2, end, d, host);
                    assert(!offers(host, files[i]));
                    if v == Ok::<bool, ErrorView>(false) && !refused && name_of(
                        host,
                        files[i],
                    ) is None {
                        let k = choose|k: int|
                            i + 1 <= k < files.len() && name_of(host, #[trigger] files[k]) is Some;
                        assert(name_of(host, files[k]) is Some);
                    }
                    (d, v)
                }
            },
        }
    }
}

/// A package outside of a workspace can be published unless it says `publish =
/// false`.
pub proof fn law_single_package_may_refuse(
    cargo: Cargo,
    c: Cursor,
    host: spec_fn(AskView) -> Answer,
    t: Seq<char>,
    entries: Entries,
    n: nat,
)
    requires
        conversation::waiting(c),
        doc_of(host, "Cargo.toml"@) == Some((t, entries)),
        data::at(Node::Table(entries), seq!["workspace"@]) is None,
    ensures
        conversation::stands(telling(cargo), c, host, n) matches Next::Done(v, _) ==> v == Ok::<
            bool,
            ErrorView,
        >(!says_no(Node::Table(entries))),
{
    let node = Node::Table(entries);
    cargo_toml::lemma_at_two(node, "workspace"@, "package"@);
    lemma_says_no(entries);
    let f = telling(cargo);
    let q: AskView = AskOf::Read("Cargo.toml"@);
    let v = Ok::<bool, ErrorView>(!says_no(node));
    let end = |x: Cursor| Next::Done(v, x);
    conversation::lemma_told(c, host(q));
    conversation::lemma_asks(f, end, c, host, q);
    if conversation::stands(f, c, host, n) is Done {
        let d = conversation::told(c, host(q));
        let m = conversation::lemma_came_through(f, c, end, d, host, n);
        conversation::lemma_silent(end, d, host, m);
    }
}

/// A workspace without a package of its own can be published unless all of its
/// members that have a name, and there is one, say `publish = false`.
#[verifier::rlimit(40)]
pub proof fn law_members_may_refuse(
    cargo: Cargo,
    c: Cursor,
    host: spec_fn(AskView) -> Answer,
    t: Seq<char>,
    entries: Entries,
    n: nat,
)
    requires
        conversation::waiting(c),
        doc_of(host, "Cargo.toml"@) == Some((t, entries)),
        is_virtual(Node::Table(entries)),
        conversation::stands(telling(cargo), c, host, n) matches Next::Done(Ok(_), _),
    ensures
        ({
            let any = conversation::stands(telling(cargo), c, host, n)->Done_0->Ok_0;
            workspace::members_by(
                host,
                c.sep,
                cargo_roundtrip::member_patterns(Node::Table(entries)),
                0,
                Seq::empty(),
                "Cargo.toml"@,
            ) matches Some(files) && (any <==> (exists|k: int|
                0 <= k < files.len() && offers(host, #[trigger] files[k])) || (forall|k: int|
                0 <= k < files.len() ==> name_of(host, #[trigger] files[k]) is None))
        }),
{
    lemma_root(entries);
    let patterns = cargo_roundtrip::member_patterns(Node::Table(entries));
    let f = telling(cargo);
    let q: AskView = AskOf::Read("Cargo.toml"@);
    let c2 = conversation::told(c, host(q));
    conversation::lemma_told(c, host(q));
    let tell = |files: Seq<Seq<char>>, c: Cursor| cargo::some_publishable_step(c, files, 0, false);
    let search = workspace::children_flow(patterns, "Cargo.toml"@);
    let g = conversation::followed(search, tell);
    conversation::lemma_asks(f, g, c, host, q);
    let (d, e) = workspace::lemma_children_flow(c2, host, patterns, "Cargo.toml"@);
    let found = workspace::members_by(host, c.sep, patterns, 0, Seq::empty(), "Cargo.toml"@);
    conversation::lemma_follows(search, tell, c2, found, e, d, host);
    let h = conversation::onward(tell, found, e);
    conversation::lemma_reaches_on(f, c, g, c2, h, d, host);
    match found {
        None => {
            let m = conversation::lemma_came_through(f, c, h, d, host, n);
            conversation::lemma_silent(h, d, host, m);
        },
        Some(files) => {
            let k = some_flow(files, 0, false);
            conversation::lemma_same(h, k, d, host);
            conversation::lemma_reaches_on(f, c, h, d, k, d, host);
            let (d2, v) = lemma_some_talk(d, host, files, 0, false);
            let end = |x: Cursor| Next::Done(v, x);
            conversation::lemma_reaches_on(f, c, k, d, end, d2, host);
            let m = conversation::lemma_came_through(f, c, end, d2, host, n);
            conversation::lemma_silent(end, d2, host, m);
        },
    }
}

} // verus!
