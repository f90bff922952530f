//! Which dependencies of a Cargo manifest follow a new version.

use vstd::prelude::*;

use crate::backends::cargo_toml;
use crate::backends::cargo_toml::Path;
use crate::data;
use crate::data::Entries;
use crate::data::Node;
use crate::toml;

verus! {

/// The key is that of a table of dependencies.
pub open spec fn is_kind(key: Seq<char>) -> bool {
    key == "dependencies"@ || key == "dev-dependencies"@ || key == "build-dependencies"@
}

/// The path is that of a table of dependencies: a manifest's own, one of a
/// target, or the one that members inherit from.
pub open spec fn is_dep_path(table: Path) -> bool {
    ||| table.len() == 1 && is_kind(table[0])
    ||| table.len() == 3 && table[0] == "target"@ && is_kind(table[2])
    ||| table == seq!["workspace"@, "dependencies"@]
}

/// Each part of the path leads to a table that is no inline one.
pub open spec fn is_table_path(node: Node, table: Path) -> bool {
    forall|k: int|
        0 <= k <= table.len() ==> (#[trigger] data::at(node, table.take(k))) matches Some(
            Node::Table(_),
        )
}

/// The package that an entry stands for: the one that it names, or its key.
pub open spec fn package_of(key: Seq<char>, entry: Node) -> Seq<char> {
    match data::field(entry, "package"@) {
        Some(Node::Text(name)) => name,
        _ => key,
    }
}

/// There is a dependency with this key, on one of these packages, that says
/// which version it wants.
pub open spec fn wants(node: Node, names: Set<Seq<char>>, table: Path, key: Seq<char>) -> bool {
    &&& is_dep_path(table)
    &&& is_table_path(node, table)
    &&& data::at(node, table.push(key)) matches Some(entry) && names.contains(
        package_of(key, entry),
    ) && (entry is Text || data::field(entry, "version"@) is Some)
}

/// What the dependency with this key wants.
pub open spec fn wanted(node: Node, table: Path, key: Seq<char>) -> Option<Node> {
    match data::at(node, table.push(key)) {
        Some(Node::Text(t)) => Some(Node::Text(t)),
        Some(entry) => data::field(entry, "version"@),
        None => None,
    }
}

/// All dependencies on these packages that say which version they want, want
/// this one.
pub open spec fn all_want(node: Node, names: Set<Seq<char>>, new: Seq<char>) -> bool {
    forall|table: Path, key: Seq<char>| #[trigger]
        wants(node, names, table, key) ==> wanted(node, table, key) == Some(Node::Text(new))
}

/// Where the wanted version stands.
spec fn slot_of(node: Node, table: Path, key: Seq<char>) -> Path {
    if data::at(node, table.push(key)) matches Some(Node::Text(_)) {
        table.push(key)
    } else {
        table.push(key).push("version"@)
    }
}

proof fn lemma_among_has(base: Path, entries: Entries, names: Set<Seq<char>>, n: int, i: int)
    requires
        0 <= i < n <= entries.len(),
        data::find(entries, entries[i].0) matches Some(node) && cargo_toml::entry_slot(
            base,
            entries[i].0,
            node,
            names,
        ) is Some,
    ensures
        cargo_toml::slots_among(base, entries, names, n).contains(
            cargo_toml::entry_slot(
                base,
                entries[i].0,
                data::find(entries, entries[i].0)->0,
                names,
            )->0,
        ),
    decreases n,
{
    let slot = cargo_toml::entry_slot(
        base,
        entries[i].0,
        data::find(entries, entries[i].0)->0,
        names,
    )->0;
    let all = cargo_toml::slots_among(base, entries, names, n);
    let before = cargo_toml::slots_among(base, entries, names, n - 1);
    if i < n - 1 {
        lemma_among_has(base, entries, names, n - 1, i);
        let k = choose|k: int| 0 <= k < before.len() && before[k] == slot;
        assert(all[k] == slot);
    } else {
        assert(all[before.len() as int] == slot);
    }
}

/// A dependency in the table with this key has its slot there.
proof fn lemma_under_has(
    node: Node,
    base: Path,
    entries: Entries,
    kind: Seq<char>,
    names: Set<Seq<char>>,
    key: Seq<char>,
)
    requires
        data::at(node, base) == Some(Node::Table(entries)),
        data::table_in(entries, kind) is Some,
        data::at(node, base.push(kind).push(key)) matches Some(entry) && names.contains(
            package_of(key, entry),
        ) && (entry is Text || data::field(entry, "version"@) is Some),
    ensures
        cargo_toml::slots_under(base, entries, kind, names).contains(
            slot_of(node, base.push(kind), key),
        ),
{
    let table = data::table_in(entries, kind)->0;
    toml::lemma_at_push(node, base, kind);
    toml::lemma_at_push(node, base.push(kind), key);
    let i = data::lemma_find(table, key);
    lemma_among_has(base.push(kind), table, names, table.len() as int, i);
}

proof fn lemma_in_sum(a: Seq<Path>, b: Seq<Path>, x: Path)
    requires
        a.contains(x) || b.contains(x),
    ensures
        (a + b).contains(x),
{
    if a.contains(x) {
        let i = choose|i: int| 0 <= i < a.len() && a[i] == x;
        assert((a + b)[i] == x);
    } else {
        let i = choose|i: int| 0 <= i < b.len() && b[i] == x;
        assert((a + b)[a.len() + i] == x);
    }
}

proof fn lemma_tables_have(
    node: Node,
    base: Path,
    entries: Entries,
    kind: Seq<char>,
    names: Set<Seq<char>>,
    key: Seq<char>,
)
    requires
        is_kind(kind),
        data::at(node, base) == Some(Node::Table(entries)),
        data::table_in(entries, kind) is Some,
        data::at(node, base.push(kind).push(key)) matches Some(entry) && names.contains(
            package_of(key, entry),
        ) && (entry is Text || data::field(entry, "version"@) is Some),
    ensures
        cargo_toml::slots_in_tables(base, entries, names).contains(
            slot_of(node, base.push(kind), key),
        ),
{
    let x = slot_of(node, base.push(kind), key);
    let a = cargo_toml::slots_under(base, entries, "dependencies"@, names);
    let b = cargo_toml::slots_under(base, entries, "dev-dependencies"@, names);
    let c = cargo_toml::slots_under(base, entries, "build-dependencies"@, names);
    lemma_under_has(node, base, entries, kind, names, key);
    if a.contains(x) || b.contains(x) {
        lemma_in_sum(a, b, x);
    }
    lemma_in_sum(a + b, c, x);
}

proof fn lemma_targets_have(
    node: Node,
    targets: Entries,
    names: Set<Seq<char>>,
    n: int,
    i: int,
    x: Path,
)
    requires
        0 <= i < n <= targets.len(),
        data::table_in(targets, targets[i].0) matches Some(cfg) && cargo_toml::slots_in_tables(
            seq!["target"@, targets[i].0],
            cfg,
            names,
        ).contains(x),
    ensures
        cargo_toml::target_slots(targets, names, n).contains(x),
    decreases n,
{
    let before = cargo_toml::target_slots(targets, names, n - 1);
    let key = targets[n - 1].0;
    if i < n - 1 {
        lemma_targets_have(node, targets, names, n - 1, i, x);
    }
    if let Some(cfg) = data::table_in(targets, key) {
        let more = cargo_toml::slots_in_tables(seq!["target"@, key], cfg, names);
        lemma_in_sum(before, more, x);
    }
}

/// Each dependency on a member that says which version it wants has its slot
/// among those that change.
proof fn lemma_slot_is_listed(
    entries: Entries,
    names: Set<Seq<char>>,
    table: Path,
    key: Seq<char>,
)
    requires
        wants(Node::Table(entries), names, table, key),
    ensures
        cargo_toml::dep_slots(entries, names).contains(
            slot_of(Node::Table(entries), table, key),
        ),
{
    let node = Node::Table(entries);
    let x = slot_of(node, table, key);
    let none = Seq::<Seq<char>>::empty();
    let a = cargo_toml::slots_in_tables(none, entries, names);
    let b = match data::table_in(entries, "target"@) {
        Some(targets) => cargo_toml::target_slots(targets, names, targets.len() as int),
        None => Seq::empty(),
    };
    let c = match data::table_in(entries, "workspace"@) {
        Some(workspace) => cargo_toml::slots_under(
            seq!["workspace"@],
            workspace,
            "dependencies"@,
            names,
        ),
        None => Seq::empty(),
    };
    assert(data::at(node, table.take(1)) matches Some(Node::Table(_)));
    assert(table.take(1) =~= seq![table[0]]);
    toml::lemma_way_one(node, table[0]);
    if table.len() == 1 {
        assert(table =~= none.push(table[0]));
        lemma_tables_have(node, none, entries, table[0], names, key);
        lemma_in_sum(a, b, x);
    } else if table.len() == 3 {
        let targets = data::table_in(entries, "target"@)->0;
        let base = seq!["target"@, table[1]];
        assert(data::at(node, table.take(2)) matches Some(Node::Table(_)));
        assert(table.take(2) =~= base);
        assert(base =~= seq!["target"@].push(table[1]));
        toml::lemma_at_push(node, seq!["target"@], table[1]);
        let cfg = data::table_in(targets, table[1])->0;
        assert(data::at(node, table.take(3)) matches Some(Node::Table(_)));
        assert(table.take(3) =~= table);
        assert(table =~= base.push(table[2]));
        toml::lemma_at_push(node, base, table[2]);
        lemma_tables_have(node, base, cfg, table[2], names, key);
        let i = data::lemma_find(targets, table[1]);
        lemma_targets_have(node, targets, names, targets.len() as int, i, x);
        lemma_in_sum(a, b, x);
    } else {
        let workspace = data::table_in(entries, "workspace"@)->0;
        let base = seq!["workspace"@];
        assert(data::at(node, table.take(2)) matches Some(Node::Table(_)));
        assert(table.take(2) =~= table);
        assert(table =~= base.push("dependencies"@));
        toml::lemma_at_push(node, base, "dependencies"@);
        lemma_under_has(node, base, workspace, "dependencies"@, names, key);
    }
    lemma_in_sum(a + b, c, x);
}

/// Wherever a new version is put into a manifest, every dependency on a member
/// that says which version it wants then wants the new one: in all tables of
/// dependencies, those of targets, and those that members inherit from.
pub proof fn law_every_member_dependency_follows(
    entries: Entries,
    names: Set<Seq<char>>,
    after: Node,
    new: Seq<char>,
    table: Path,
    key: Seq<char>,
)
    requires
        cargo_toml::puts_all(
            Node::Table(entries),
            after,
            cargo_toml::dep_slots(entries, names),
            new,
        ) || cargo_toml::puts_all(
            Node::Table(entries),
            after,
            cargo_toml::lockstep_slots(entries, names),
            new,
        ) || cargo_toml::puts_all(
            Node::Table(entries),
            after,
            cargo_toml::shared_slots(entries, names),
            new,
        ),
        wants(Node::Table(entries), names, table, key),
    ensures
        wanted(after, table, key) == Some(Node::Text(new)),
{
    let node = Node::Table(entries);
    let deps = cargo_toml::dep_slots(entries, names);
    let x = slot_of(node, table, key);
    lemma_slot_is_listed(entries, names, table, key);
    let own = cargo_toml::lockstep_slots(entries, names);
    let shared = cargo_toml::shared_slots(entries, names);
    assert(own.contains(x)) by {
        lemma_in_sum(
            if cargo_toml::version_in(entries) is Some {
                seq![seq!["package"@, "version"@]]
            } else {
                Seq::empty()
            },
            deps,
            x,
        );
    }
    lemma_in_sum(seq![seq!["workspace"@, "package"@, "version"@]], deps, x);
    let slots = if cargo_toml::puts_all(node, after, deps, new) {
        deps
    } else if cargo_toml::puts_all(node, after, own, new) {
        own
    } else {
        shared
    };
    let i = choose|i: int| 0 <= i < slots.len() && slots[i] == x;
    assert(data::at(after, slots[i]) == Some(Node::Text(new)));
    toml::lemma_at_push(after, table.push(key), "version"@);
    let entry = data::at(node, table.push(key))->0;
    if !(entry is Text) {
        if let Some(Node::Text(t)) = data::at(after, table.push(key)) {
        }
    }
}

/// The slots of a manifest that are not those of dependencies.
spec fn is_own_slot(slot: Path) -> bool {
    slot == seq!["package"@, "version"@] || slot == seq!["workspace"@, "package"@, "version"@]
}

/// Slots of dependencies, and perhaps one of the manifest's own.
spec fn are_known(node: Node, names: Set<Seq<char>>, slots: Seq<Path>) -> bool {
    forall|i: int|
        0 <= i < slots.len() ==> is_own_slot(#[trigger] slots[i]) || cargo_toml::is_slot(
            node,
            names,
            slots[i],
        )
}

proof fn lemma_known(entries: Entries, names: Set<Seq<char>>)
    ensures
        are_known(Node::Table(entries), names, cargo_toml::dep_slots(entries, names)),
        are_known(Node::Table(entries), names, cargo_toml::lockstep_slots(entries, names)),
        are_known(Node::Table(entries), names, cargo_toml::shared_slots(entries, names)),
{
    let node = Node::Table(entries);
    let deps = cargo_toml::dep_slots(entries, names);
    cargo_toml::lemma_dep_slots(node, entries, names);
    assert forall|i: int| 0 <= i < deps.len() implies cargo_toml::is_slot(
        node,
        names,
        #[trigger] deps[i],
    ) by {}
    let own = cargo_toml::lockstep_slots(entries, names);
    assert forall|i: int| 0 <= i < own.len() implies is_own_slot(#[trigger] own[i])
        || cargo_toml::is_slot(node, names, own[i]) by {
        let k = own.len() - deps.len();
        if i >= k {
            assert(own[i] == deps[i - k]);
        }
    }
    let shared = cargo_toml::shared_slots(entries, names);
    assert forall|i: int| 0 <= i < shared.len() implies is_own_slot(#[trigger] shared[i])
        || cargo_toml::is_slot(node, names, shared[i]) by {
        if i >= 1 {
            assert(shared[i] == deps[i - 1]);
        }
    }
}

/// The keys that begin or tell apart the paths of a manifest.
proof fn lemma_keys()
    ensures
        forall|k: Seq<char>| #[trigger] is_kind(k) ==> k != "package"@ && k != "target"@ && k
            != "workspace"@,
        "package"@ != "target"@,
        "package"@ != "workspace"@,
        "package"@ != "version"@,
        "package"@ != "dependencies"@,
        "target"@ != "workspace"@,
{
    reveal_strlit("dependencies");
    reveal_strlit("dev-dependencies");
    reveal_strlit("build-dependencies");
    reveal_strlit("package");
    reveal_strlit("target");
    reveal_strlit("workspace");
    reveal_strlit("version");
    assert("package"@.len() == 7 && "version"@.len() == 7);
    assert("target"@.len() == 6 && "workspace"@.len() == 9);
    assert("dependencies"@.len() == 12);
    assert("dev-dependencies"@.len() == 16);
    assert("build-dependencies"@.len() == 18);
    assert("package"@[0] != "version"@[0]);
}

/// How a slot lies to a path into a table of dependencies.
proof fn lemma_slot_and_path(
    node: Node,
    names: Set<Seq<char>>,
    slot: Path,
    table: Path,
    key: Seq<char>,
)
    requires
        is_dep_path(table),
        is_own_slot(slot) || cargo_toml::is_slot(node, names, slot),
    ensures
        forall|k: int| 0 <= k <= table.len() ==> !slot.is_prefix_of(#[trigger] table.take(k)),
        slot.is_prefix_of(table.push(key)) ==> slot == table.push(key) && (data::at(
            node,
            slot,
        ) matches Some(Node::Text(_))),
        table.push(key).is_prefix_of(slot) ==> slot == table.push(key) || slot == table.push(
            key,
        ).push("version"@) && toml::has_way(node, slot),
        slot != table.push(key) ==> !toml::nested(slot, table.push(key).push("package"@)),
        slot.is_prefix_of(table.push(key).push("version"@)) && slot != table.push(key) ==> slot
            == table.push(key).push("version"@) && data::at(node, slot) is Some,
{
    lemma_keys();
    let q = table.push(key);
    assert(q[0] == table[0]);
    assert(table.len() > 1 ==> q[1] == table[1]);
    assert(cargo_toml::longest(table[0]) == table.len() + 2) by {
        if table.len() == 1 {
            assert(is_kind(table[0]));
        }
    }
    assert forall|k: int| 0 <= k <= table.len() implies !slot.is_prefix_of(
        #[trigger] table.take(k),
    ) by {
        if slot.is_prefix_of(table.take(k)) {
            lemma_prefix_first(slot, table.take(k));
            assert(table.take(k)[0] == table[0]);
            if k > 1 {
                assert(table.take(k)[1] == table[1]);
            }
        }
    }
    if slot.is_prefix_of(q) {
        lemma_prefix_first(slot, q);
        if slot.len() == q.len() {
            assert(q.take(slot.len() as int) =~= q);
        }
    }
    let v = q.push("version"@);
    let p = q.push("package"@);
    assert(v[0] == table[0] && p[0] == table[0]);
    assert(v[1] == q[1] && p[1] == q[1]);
    if q.is_prefix_of(slot) {
        lemma_prefix_first(q, slot);
        assert(slot.take(q.len() as int) =~= q);
        if slot.len() == q.len() {
            assert(slot =~= q);
        } else {
            assert(slot =~= v);
        }
    }
    if slot.is_prefix_of(v) {
        lemma_prefix_first(slot, v);
        if slot.len() == v.len() {
            assert(v.take(slot.len() as int) =~= v);
        } else {
            assert(v.take(slot.len() as int) =~= q.take(slot.len() as int));
            if slot.len() == q.len() {
                assert(q.take(slot.len() as int) =~= q);
            }
        }
    }
    if slot != q {
        if slot.is_prefix_of(p) {
            lemma_prefix_first(slot, p);
            if slot.len() == p.len() {
                assert(p.take(slot.len() as int) =~= p);
                assert(slot.last() == "package"@);
            } else {
                assert(p.take(slot.len() as int) =~= q.take(slot.len() as int));
                if slot.len() == q.len() {
                    assert(q.take(slot.len() as int) =~= q);
                }
            }
        }
        if p.is_prefix_of(slot) {
            lemma_prefix_first(p, slot);
            assert(slot.take(p.len() as int) =~= slot);
            assert(slot.last() == "package"@);
        }
    }
}

/// A path begins as what it leads through.
proof fn lemma_prefix_first(p: Path, q: Path)
    requires
        p.is_prefix_of(q),
    ensures
        p.len() <= q.len(),
        p == q.take(p.len() as int),
        p.len() > 0 ==> p[0] == q[0],
        p.len() > 1 ==> p[1] == q[1],
{
}

/// A dependency of a manifest into which a new version was put wanted some
/// version before.
proof fn lemma_wanted_before(
    entries: Entries,
    names: Set<Seq<char>>,
    slots: Seq<Path>,
    after: Node,
    new: Seq<char>,
    table: Path,
    key: Seq<char>,
)
    requires
        cargo_toml::puts_all(Node::Table(entries), after, slots, new),
        are_known(Node::Table(entries), names, slots),
        wants(after, names, table, key),
    ensures
        wants(Node::Table(entries), names, table, key),
{
    let node = Node::Table(entries);
    let q = table.push(key);
    let v = q.push("version"@);
    let p = q.push("package"@);
    assert forall|i: int| 0 <= i < slots.len() implies {
        let slot = #[trigger] slots[i];
        &&& forall|k: int| 0 <= k <= table.len() ==> !slot.is_prefix_of(#[trigger] table.take(k))
        &&& slot.is_prefix_of(q) ==> slot == q && (data::at(node, slot) matches Some(
            Node::Text(_),
        ))
        &&& q.is_prefix_of(slot) ==> slot == q || slot == v && toml::has_way(node, slot)
        &&& slot != q ==> !toml::nested(slot, p)
        &&& slot.is_prefix_of(v) && slot != q ==> slot == v && data::at(node, slot) is Some
    } by {
        lemma_slot_and_path(node, names, slots[i], table, key);
    }
    assert forall|k: int| 0 <= k <= table.len() implies (#[trigger] data::at(
        node,
        table.take(k),
    )) matches Some(Node::Table(_)) by {
        let part = table.take(k);
        assert(cargo_toml::before_slots(slots, part)) by {
            assert forall|i: int| 0 <= i < slots.len() implies !(#[trigger] slots[i]).is_prefix_of(
                part,
            ) by {}
        }
        assert(cargo_toml::same_kind(node, after, part));
        assert(data::at(after, part) matches Some(Node::Table(_)));
        assert(cargo_toml::is_table_at(node, part));
    }
    let entry = data::at(after, q)->0;
    toml::lemma_at_push(after, q, "version"@);
    toml::lemma_at_push(node, q, "version"@);
    toml::lemma_at_push(after, q, "package"@);
    toml::lemma_at_push(node, q, "package"@);
    if slots.contains(q) {
        let i = choose|i: int| 0 <= i < slots.len() && slots[i] == q;
        assert(slots[i].is_prefix_of(q)) by {
            assert(q.take(q.len() as int) =~= q);
        }
        assert(data::at(after, slots[i]) == Some(Node::Text(new)));
    } else {
        assert forall|i: int| 0 <= i < slots.len() implies (#[trigger] slots[i]) != q by {
            assert(slots.contains(slots[i]));
        }
        assert(cargo_toml::before_slots(slots, q));
        assert(cargo_toml::same_kind(node, after, q));
        if cargo_toml::off_way(slots, q) {
            assert(data::at(after, q) == data::at(node, q));
        } else {
            let i = choose|i: int| 0 <= i < slots.len() && toml::nested(#[trigger] slots[i], q);
            assert(q.is_prefix_of(slots[i]));
            assert(slots[i] == v);
            assert(toml::has_way(node, v));
            assert(v.take(q.len() as int) =~= q);
            assert(data::at(node, v.take(q.len() as int)) is Some);
            assert(cargo_toml::has_fields_at(node, q));
            assert(cargo_toml::has_fields_at(after, q));
            assert(cargo_toml::off_way(slots, p));
            assert(data::at(after, p) == data::at(node, p));
            assert(data::at(node, slots[i]) is Some) by {
                assert(slots[i].is_prefix_of(v)) by {
                    assert(v.take(v.len() as int) =~= v);
                }
            }
        }
    }
}

/// A manifest into which a new version was put has no dependency on a member
/// that wants another one.
pub proof fn lemma_all_want(
    entries: Entries,
    names: Set<Seq<char>>,
    after: Node,
    new: Seq<char>,
)
    requires
        cargo_toml::puts_all(
            Node::Table(entries),
            after,
            cargo_toml::dep_slots(entries, names),
            new,
        ) || cargo_toml::puts_all(
            Node::Table(entries),
            after,
            cargo_toml::lockstep_slots(entries, names),
            new,
        ) || cargo_toml::puts_all(
            Node::Table(entries),
            after,
            cargo_toml::shared_slots(entries, names),
            new,
        ),
    ensures
        all_want(after, names, new),
{
    let node = Node::Table(entries);
    let deps = cargo_toml::dep_slots(entries, names);
    let own = cargo_toml::lockstep_slots(entries, names);
    let shared = cargo_toml::shared_slots(entries, names);
    lemma_known(entries, names);
    let slots = if cargo_toml::puts_all(node, after, deps, new) {
        deps
    } else if cargo_toml::puts_all(node, after, own, new) {
        own
    } else {
        shared
    };
    assert forall|table: Path, key: Seq<char>| #[trigger]
        wants(after, names, table, key) implies wanted(after, table, key) == Some(
        Node::Text(new),
    ) by {
        lemma_wanted_before(entries, names, slots, after, new, table, key);
        law_every_member_dependency_follows(entries, names, after, new, table, key);
    }
}

/// A manifest in which no dependency changes has none that wants another
/// version.
pub proof fn lemma_none_stale(entries: Entries, names: Set<Seq<char>>, new: Seq<char>)
    requires
        !cargo_toml::deps_change(entries, names, new),
    ensures
        all_want(Node::Table(entries), names, new),
{
    let node = Node::Table(entries);
    let deps = cargo_toml::dep_slots(entries, names);
    assert forall|table: Path, key: Seq<char>| #[trigger]
        wants(node, names, table, key) implies wanted(node, table, key) == Some(
        Node::Text(new),
    ) by {
        let x = slot_of(node, table, key);
        lemma_slot_is_listed(entries, names, table, key);
        let i = choose|i: int| 0 <= i < deps.len() && deps[i] == x;
        assert(data::at(node, deps[i]) == Some(Node::Text(new)));
        toml::lemma_at_push(node, table.push(key), "version"@);
    }
}

/// The text of a manifest that gets the version itself, or is not written, has
/// no dependency on a member that wants another version.
pub proof fn law_lockstep_dependencies_follow(
    t: Seq<char>,
    entries: Entries,
    names: Set<Seq<char>>,
    new: Seq<char>,
)
    requires
        toml::is_faithful(),
        toml::entries_in(t) == Ok::<Entries, Seq<char>>(entries),
    ensures
        match cargo_toml::lockstep_changed(t, entries, names, new) {
            Some(t2) => toml::entries_in(t2) matches Ok(after) && all_want(
                Node::Table(after),
                names,
                new,
            ),
            None => all_want(Node::Table(entries), names, new),
        },
{
    let slots = cargo_toml::lockstep_slots(entries, names);
    cargo_toml::lemma_lockstep_ready(entries, names);
    cargo_toml::lemma_with_all(t, entries, slots, new);
    let after = toml::toml_read(cargo_toml::with_all(t, slots, new))->Ok_0;
    lemma_all_want(entries, names, after, new);
    if !cargo_toml::deps_change(entries, names, new) {
        lemma_none_stale(entries, names, new);
    }
}

/// The text of a manifest whose dependencies alone change, or that is not
/// written, has no dependency on a member that wants another version.
pub proof fn law_inherited_dependencies_follow(
    t: Seq<char>,
    entries: Entries,
    names: Set<Seq<char>>,
    new: Seq<char>,
)
    requires
        toml::is_faithful(),
        toml::entries_in(t) == Ok::<Entries, Seq<char>>(entries),
    ensures
        match cargo_toml::deps_changed(t, entries, names, new) {
            Some(t2) => toml::entries_in(t2) matches Ok(after) && all_want(
                Node::Table(after),
                names,
                new,
            ),
            None => all_want(Node::Table(entries), names, new),
        },
{
    let slots = cargo_toml::dep_slots(entries, names);
    cargo_toml::lemma_deps_ready(entries, names);
    cargo_toml::lemma_with_all(t, entries, slots, new);
    let after = toml::toml_read(cargo_toml::with_all(t, slots, new))->Ok_0;
    lemma_all_want(entries, names, after, new);
    if !cargo_toml::deps_change(entries, names, new) {
        lemma_none_stale(entries, names, new);
    }
}

/// The text of the manifest whose version members inherit has no dependency on
/// a member that wants another version.
pub proof fn law_shared_dependencies_follow(
    t: Seq<char>,
    entries: Entries,
    names: Set<Seq<char>>,
    new: Seq<char>,
)
    requires
        toml::is_faithful(),
        toml::entries_in(t) == Ok::<Entries, Seq<char>>(entries),
        cargo_toml::layout_of(entries) is WorkspacePackage,
    ensures
        toml::entries_in(
            cargo_toml::with_all(t, cargo_toml::shared_slots(entries, names), new),
        ) matches Ok(after) && all_want(Node::Table(after), names, new),
{
    let slots = cargo_toml::shared_slots(entries, names);
    cargo_toml::lemma_shared_ready(entries, names);
    cargo_toml::lemma_with_all(t, entries, slots, new);
    let after = toml::toml_read(cargo_toml::with_all(t, slots, new))->Ok_0;
    lemma_all_want(entries, names, after, new);
}

} // verus!
