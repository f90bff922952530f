//! What a `Cargo.toml` says, and what a new version changes in it.

use vstd::prelude::*;

use crate::data;
use crate::data::Data;
use crate::data::Entries;
use crate::data::Entry;
use crate::data::Node;
use crate::session::Model;
use crate::text::copies;
use crate::text::list0;
use crate::text::list1;
use crate::text::list2;
use crate::text::list3;
use crate::text::listed;
use crate::text::own;
use crate::text::put;
use crate::text::same;
use crate::text::put_new;
use crate::toml;

verus! {

pub type Path = Seq<Seq<char>>;

// ---------------------------------------------------------------------------
// Reading
// ---------------------------------------------------------------------------

/// The name of the package, if the manifest has one.
pub open spec fn name_in(entries: Entries) -> Option<Seq<char>> {
    match data::table_in(entries, "package"@) {
        Some(package) => data::text_in(package, "name"@),
        None => None,
    }
}

/// The version of the package, if the manifest has one.
pub open spec fn version_in(entries: Entries) -> Option<Seq<char>> {
    match data::table_in(entries, "package"@) {
        Some(package) => data::text_in(package, "version"@),
        None => None,
    }
}

/// The table `[workspace.package]`.
pub open spec fn shared_in(entries: Entries) -> Option<Entries> {
    match data::table_in(entries, "workspace"@) {
        Some(workspace) => data::table_in(workspace, "package"@),
        None => None,
    }
}

/// The version that members inherit.
pub open spec fn shared_version_in(entries: Entries) -> Option<Seq<char>> {
    match shared_in(entries) {
        Some(shared) => data::text_in(shared, "version"@),
        None => None,
    }
}

/// The patterns of the workspace members.
pub open spec fn members_in(entries: Entries) -> Seq<Seq<char>> {
    match data::table_in(entries, "workspace"@) {
        Some(workspace) => data::texts_in(workspace, "members"@),
        None => Seq::empty(),
    }
}

/// The manifest says `publish = false`.
pub open spec fn opts_out(entries: Entries) -> bool {
    match data::table_in(entries, "package"@) {
        Some(package) => data::flag_in(package, "publish"@) == Some(false),
        None => false,
    }
}

/// How a manifest decides where the version stands.
pub enum LayoutOf<L> {
    /// In `[package]`: there is no workspace.
    Package,
    /// In `[workspace.package]`, for the members to inherit.
    WorkspacePackage,
    /// In each member, given by its pattern, and in the root package, if there
    /// is one.
    VirtualOrMembers(L),
}

pub type Layout = LayoutOf<Vec<String>>;

pub type LayoutView = LayoutOf<Seq<Seq<char>>>;

/// The layout of a manifest.
pub open spec fn layout_of(entries: Entries) -> LayoutView {
    if shared_in(entries) matches Some(shared) && data::find(shared, "version"@) is Some {
        LayoutOf::WorkspacePackage
    } else if data::find(entries, "workspace"@) is Some {
        LayoutOf::VirtualOrMembers(members_in(entries))
    } else {
        LayoutOf::Package
    }
}

impl Model for LayoutOf<Vec<String>> {
    type M = LayoutView;

    open spec fn model(&self) -> LayoutView {
        match self {
            LayoutOf::Package => LayoutOf::Package,
            LayoutOf::WorkspacePackage => LayoutOf::WorkspacePackage,
            LayoutOf::VirtualOrMembers(l) => LayoutOf::VirtualOrMembers(l.deep_view()),
        }
    }
}

pub fn package_name(entries: &Vec<Entry>) -> (r: Option<String>)
    ensures
        r.model() == name_in(data::seen_entries(entries@)),
{
    match data::find_table(entries, "package") {
        Some(package) => data::find_text(package, "name"),
        None => None,
    }
}

pub fn package_version(entries: &Vec<Entry>) -> (r: Option<String>)
    ensures
        r.model() == version_in(data::seen_entries(entries@)),
{
    match data::find_table(entries, "package") {
        Some(package) => data::find_text(package, "version"),
        None => None,
    }
}

pub fn shared_version(entries: &Vec<Entry>) -> (r: Option<String>)
    ensures
        r.model() == shared_version_in(data::seen_entries(entries@)),
{
    if let Some(workspace) = data::find_table(entries, "workspace") {
        if let Some(shared) = data::find_table(workspace, "package") {
            return data::find_text(shared, "version");
        }
    }
    None
}

pub fn workspace_members(entries: &Vec<Entry>) -> (r: Vec<String>)
    ensures
        r.deep_view() == members_in(data::seen_entries(entries@)),
{
    match data::find_table(entries, "workspace") {
        Some(workspace) => data::find_texts(workspace, "members"),
        None => list0(),
    }
}

pub fn is_opted_out(entries: &Vec<Entry>) -> (r: bool)
    ensures
        r == opts_out(data::seen_entries(entries@)),
{
    match data::find_table(entries, "package") {
        Some(package) => match data::find_flag(package, "publish") {
            Some(b) => !b,
            None => false,
        },
        None => false,
    }
}

fn has_workspace_package_version(entries: &Vec<Entry>) -> (r: bool)
    ensures
        r == (shared_in(data::seen_entries(entries@)) matches Some(shared) && data::find(
            shared,
            "version"@,
        ) is Some),
{
    if let Some(workspace) = data::find_table(entries, "workspace") {
        if let Some(shared) = data::find_table(workspace, "package") {
            return match data::find_entry(shared, "version") {
                Some(_) => true,
                None => false,
            };
        }
    }
    false
}

/// The layout of a manifest.
pub fn classify(entries: &Vec<Entry>) -> (r: Layout)
    ensures
        r.model() == layout_of(data::seen_entries(entries@)),
{
    if has_workspace_package_version(entries) {
        return LayoutOf::WorkspacePackage;
    }
    match data::find_entry(entries, "workspace") {
        Some(_) => LayoutOf::VirtualOrMembers(workspace_members(entries)),
        None => LayoutOf::Package,
    }
}

// ---------------------------------------------------------------------------
// Dependencies
// ---------------------------------------------------------------------------

/// The name of the package that an entry of a dependency table stands for: its
/// key, unless it is renamed with `package = "..."`.
pub open spec fn real_name(key: Seq<char>, node: Node) -> Seq<char> {
    match data::text_field(node, "package"@) {
        Some(name) => name,
        None => key,
    }
}

/// The names in the first `n` entries of a dependency table.
pub open spec fn names_among(entries: Entries, n: int) -> Set<Seq<char>>
    decreases n,
{
    if n <= 0 {
        Set::empty()
    } else {
        let key = entries[n - 1].0;
        match data::find(entries, key) {
            Some(node) => names_among(entries, n - 1).insert(real_name(key, node)),
            None => names_among(entries, n - 1),
        }
    }
}

/// The names in the dependency table with this key.
pub open spec fn names_under(entries: Entries, key: Seq<char>) -> Set<Seq<char>> {
    match data::table_in(entries, key) {
        Some(table) => names_among(table, table.len() as int),
        None => Set::empty(),
    }
}

/// The names in the regular, development and build dependencies.
pub open spec fn names_in_tables(entries: Entries) -> Set<Seq<char>> {
    names_under(entries, "dependencies"@).union(
        names_under(entries, "dev-dependencies"@),
    ).union(names_under(entries, "build-dependencies"@))
}

/// The names in the dependencies of the first `n` targets.
pub open spec fn target_names(targets: Entries, n: int) -> Set<Seq<char>>
    decreases n,
{
    if n <= 0 {
        Set::empty()
    } else {
        match data::table_in(targets, targets[n - 1].0) {
            Some(cfg) => target_names(targets, n - 1).union(names_in_tables(cfg)),
            None => target_names(targets, n - 1),
        }
    }
}

/// The names of all packages that a manifest depends on, on some target or on
/// all.
pub open spec fn dep_names_in(entries: Entries) -> Set<Seq<char>> {
    names_in_tables(entries).union(
        match data::table_in(entries, "target"@) {
            Some(targets) => target_names(targets, targets.len() as int),
            None => Set::empty(),
        },
    )
}

/// The name of the package that an entry of a dependency table stands for.
fn find_real_name(key: &str, value: &Data) -> (r: String)
    ensures
        r@ == real_name(key@, value.seen()),
{
    match data::find_text_field(value, "package") {
        Some(name) => name,
        None => own(key),
    }
}

/// Add the names in a dependency table.
pub fn collect_dep_names(table: &Vec<Entry>, out: &mut Vec<String>)
    ensures
        final(out).deep_view().to_set() == old(out).deep_view().to_set().union(
            names_among(data::seen_entries(table@), table@.len() as int),
        ),
{
    let ghost all = data::seen_entries(table@);
    let ghost before = out.deep_view().to_set();
    proof {
        data::lemma_seen_entries(table@);
    }
    let mut i: usize = 0;
    assert(before =~= before.union(Set::empty()));
    while i < table.len()
        invariant
            i <= table.len(),
            all == data::seen_entries(table@),
            all.len() == table.len(),
            forall|k: int|
                0 <= k < table.len() ==> #[trigger] all[k] == (
                    table@[k].key@,
                    table@[k].value.seen(),
                ),
            out.deep_view().to_set() == before.union(names_among(all, i as int)),
        decreases table.len() - i,
    {
        let key = &table[i].key;
        assert(all[i as int].0 == key@);
        if let Some(value) = data::find_entry(table, key) {
            put_new(out, find_real_name(key, value));
        }
        i = i + 1;
        assert(out.deep_view().to_set() =~= before.union(names_among(all, i as int)));
    }
}

fn collect_under(entries: &Vec<Entry>, key: &str, out: &mut Vec<String>)
    ensures
        final(out).deep_view().to_set() == old(out).deep_view().to_set().union(
            names_under(data::seen_entries(entries@), key@),
        ),
{
    let ghost before = out.deep_view().to_set();
    if let Some(table) = data::find_table(entries, key) {
        proof {
            data::lemma_seen_entries(table@);
        }
        collect_dep_names(table, out);
    } else {
        assert(before =~= before.union(Set::empty()));
    }
}

fn collect_tables(entries: &Vec<Entry>, out: &mut Vec<String>)
    ensures
        final(out).deep_view().to_set() == old(out).deep_view().to_set().union(
            names_in_tables(data::seen_entries(entries@)),
        ),
{
    let ghost before = out.deep_view().to_set();
    collect_under(entries, "dependencies", out);
    collect_under(entries, "dev-dependencies", out);
    collect_under(entries, "build-dependencies", out);
    assert(out.deep_view().to_set() =~= before.union(
        names_in_tables(data::seen_entries(entries@)),
    ));
}

/// The names of all packages that a manifest depends on.
pub fn member_dep_names(entries: &Vec<Entry>) -> (r: Vec<String>)
    ensures
        r.deep_view().to_set() == dep_names_in(data::seen_entries(entries@)),
{
    let ghost all = data::seen_entries(entries@);
    let mut out = list0();
    collect_tables(entries, &mut out);
    let ghost first = names_in_tables(all);
    assert(out.deep_view().to_set() =~= first);
    if let Some(targets) = data::find_table(entries, "target") {
        let ghost ts = data::seen_entries(targets@);
        proof {
            data::lemma_seen_entries(targets@);
        }
        let mut i: usize = 0;
        assert(first =~= first.union(Set::empty()));
        while i < targets.len()
            invariant
                i <= targets.len(),
                ts == data::seen_entries(targets@),
                ts.len() == targets.len(),
                forall|k: int|
                    0 <= k < targets.len() ==> #[trigger] ts[k] == (
                        targets@[k].key@,
                        targets@[k].value.seen(),
                    ),
                out.deep_view().to_set() == first.union(target_names(ts, i as int)),
            decreases targets.len() - i,
        {
            let key = &targets[i].key;
            assert(ts[i as int].0 == key@);
            if let Some(cfg) = data::find_table(targets, key) {
                collect_tables(cfg, &mut out);
            }
            i = i + 1;
            assert(out.deep_view().to_set() =~= first.union(target_names(ts, i as int)));
        }
    } else {
        assert(first =~= first.union(Set::empty()));
    }
    out
}

// ---------------------------------------------------------------------------
// What a new version changes
// ---------------------------------------------------------------------------

/// The slot of an entry of a dependency table that holds the version of a
/// workspace member: the entry itself, if it is just a version, or its field
/// `version`, if it has one.
pub open spec fn entry_slot(
    base: Path,
    key: Seq<char>,
    node: Node,
    members: Set<Seq<char>>,
) -> Option<Path> {
    if !members.contains(real_name(key, node)) {
        None
    } else if node is Text {
        Some(base.push(key))
    } else if data::field(node, "version"@) is Some {
        Some(base.push(key).push("version"@))
    } else {
        None
    }
}

/// The slots in the first `n` entries of the dependency table at `base`.
pub open spec fn slots_among(
    base: Path,
    entries: Entries,
    members: Set<Seq<char>>,
    n: int,
) -> Seq<Path>
    decreases n,
{
    if n <= 0 {
        Seq::empty()
    } else {
        let key = entries[n - 1].0;
        let before = slots_among(base, entries, members, n - 1);
        match data::find(entries, key) {
            Some(node) => match entry_slot(base, key, node, members) {
                Some(slot) => before.push(slot),
                None => before,
            },
            None => before,
        }
    }
}

/// The slots in the dependency table with this key in the table at `base`.
pub open spec fn slots_under(
    base: Path,
    entries: Entries,
    key: Seq<char>,
    members: Set<Seq<char>>,
) -> Seq<Path> {
    match data::table_in(entries, key) {
        Some(table) => slots_among(base.push(key), table, members, table.len() as int),
        None => Seq::empty(),
    }
}

/// The slots in the dependency tables of the table at `base`.
pub open spec fn slots_in_tables(base: Path, entries: Entries, members: Set<Seq<char>>) -> Seq<
    Path,
> {
    slots_under(base, entries, "dependencies"@, members) + slots_under(
        base,
        entries,
        "dev-dependencies"@,
        members,
    ) + slots_under(base, entries, "build-dependencies"@, members)
}

/// The slots in the dependency tables of the first `n` targets.
pub open spec fn target_slots(targets: Entries, members: Set<Seq<char>>, n: int) -> Seq<Path>
    decreases n,
{
    if n <= 0 {
        Seq::empty()
    } else {
        let key = targets[n - 1].0;
        match data::table_in(targets, key) {
            Some(cfg) => target_slots(targets, members, n - 1) + slots_in_tables(
                seq!["target"@, key],
                cfg,
                members,
            ),
            None => target_slots(targets, members, n - 1),
        }
    }
}

/// The slots of a manifest that hold the version of a workspace member, in all
/// of its dependency tables: its own, those of targets, and those that members
/// inherit.
pub open spec fn dep_slots(entries: Entries, members: Set<Seq<char>>) -> Seq<Path> {
    slots_in_tables(Seq::empty(), entries, members) + (match data::table_in(
        entries,
        "target"@,
    ) {
        Some(targets) => target_slots(targets, members, targets.len() as int),
        None => Seq::empty(),
    }) + (match data::table_in(entries, "workspace"@) {
        Some(workspace) => slots_under(
            seq!["workspace"@],
            workspace,
            "dependencies"@,
            members,
        ),
        None => Seq::empty(),
    })
}

/// The slots that change in a manifest that gets the version itself: that of
/// its own version, if it has one, and those of workspace members.
pub open spec fn lockstep_slots(entries: Entries, members: Set<Seq<char>>) -> Seq<Path> {
    (if version_in(entries) is Some {
        seq![seq!["package"@, "version"@]]
    } else {
        Seq::empty()
    }) + dep_slots(entries, members)
}

/// The slots that change in the manifest whose version members inherit.
pub open spec fn shared_slots(entries: Entries, members: Set<Seq<char>>) -> Seq<Path> {
    seq![seq!["workspace"@, "package"@, "version"@]] + dep_slots(entries, members)
}

/// The text of a manifest with a text in each of these slots.
pub open spec fn with_all(t: Seq<char>, slots: Seq<Path>, new: Seq<char>) -> Seq<char>
    decreases slots.len(),
{
    if slots.len() == 0 {
        t
    } else {
        toml::toml_with(with_all(t, slots.drop_last(), new), slots.last(), new)
    }
}

/// How long a path to a slot can be, by its first key.
pub open spec fn longest(first: Seq<char>) -> int {
    if first == "target"@ {
        5
    } else if first == "workspace"@ {
        4
    } else {
        3
    }
}

/// The path leads to a place in an entry of a dependency table that names one
/// of these packages.
pub open spec fn of_member(node: Node, members: Set<Seq<char>>, path: Path) -> bool {
    let n = longest(path[0]) - 1;
    &&& 0 < n <= path.len()
    &&& data::at(node, path.take(n)) matches Some(entry) && members.contains(
        real_name(path[n - 1], entry),
    )
}

/// The path leads to a slot of a dependency table.
pub open spec fn is_slot(node: Node, members: Set<Seq<char>>, path: Path) -> bool {
    &&& of_member(node, members, path)
    &&& toml::has_way(node, path)
    &&& data::at(node, path) is Some
    &&& path.len() <= longest(path[0])
    &&& path[0] != "package"@
    &&& path[0] == "workspace"@ ==> path.len() >= 2 && path[1] == "dependencies"@
    &&& path.len() == longest(path[0]) && path.last() == "version"@ || (path.len() + 1 == longest(
        path[0],
    ) && (data::at(node, path) matches Some(Node::Text(_))))
}

/// The path leads to a dependency table.
spec fn is_dep_table(node: Node, base: Path, table: Entries) -> bool {
    &&& toml::has_way(node, base)
    &&& data::at(node, base) == Some(Node::Table(table))
    &&& base.len() + 2 == longest(base[0])
    &&& base[0] != "package"@
    &&& base[0] == "workspace"@ ==> base.len() >= 2 && base[1] == "dependencies"@
}

proof fn lemma_slots_among(
    node: Node,
    base: Path,
    table: Entries,
    members: Set<Seq<char>>,
    n: int,
)
    requires
        is_dep_table(node, base, table),
        0 <= n <= table.len(),
    ensures
        forall|i: int|
            0 <= i < slots_among(base, table, members, n).len() ==> is_slot(
                node, members,
                #[trigger] slots_among(base, table, members, n)[i],
            ),
    decreases n,
{
    if n > 0 {
        lemma_slots_among(node, base, table, members, n - 1);
        let key = table[n - 1].0;
        if let Some(inner) = data::find(table, key) {
            if let Some(slot) = entry_slot(base, key, inner, members) {
                toml::lemma_way_push(node, base, key);
                let p = base.push(key);
                assert(p[0] == base[0]);
                assert(base.len() >= 2 ==> p[1] == base[1]);
                if !(inner is Text) {
                    toml::lemma_way_push(node, p, "version"@);
                    let q = p.push("version"@);
                    assert(q[0] == base[0]);
                    assert(base.len() >= 2 ==> q[1] == base[1]);
                }
                assert(slot.take(p.len() as int) =~= p);
                assert(slot[p.len() - 1] == key);
                assert(is_slot(node, members, slot));
                let before = slots_among(base, table, members, n - 1);
                let all = slots_among(base, table, members, n);
                assert forall|i: int| 0 <= i < all.len() implies is_slot(
                    node, members,
                    #[trigger] all[i],
                ) by {
                    if i < before.len() {
                        assert(is_slot(node, members, before[i]));
                    }
                }
            }
        }
    }
}

/// Each path in the list leads to a slot of a dependency table.
pub open spec fn are_slots(node: Node, members: Set<Seq<char>>, slots: Seq<Path>) -> bool {
    forall|i: int| 0 <= i < slots.len() ==> is_slot(node, members, #[trigger] slots[i])
}

proof fn lemma_slots_under(
    node: Node,
    base: Path,
    entries: Entries,
    key: Seq<char>,
    members: Set<Seq<char>>,
)
    requires
        data::at(node, base) == Some(Node::Table(entries)),
        base.len() > 0 ==> toml::has_way(node, base),
        base.len() + 3 == longest(base.push(key)[0]),
        base.push(key)[0] != "package"@,
        base.push(key)[0] == "workspace"@ ==> base.len() == 1 && key == "dependencies"@,
    ensures
        are_slots(node, members, slots_under(base, entries, key, members)),
{
    if let Some(table) = data::table_in(entries, key) {
        let longer = base.push(key);
        if base.len() == 0 {
            toml::lemma_way_one(node, key);
            assert(longer =~= seq![key]);
        } else {
            toml::lemma_way_push(node, base, key);
        }
        lemma_slots_among(node, longer, table, members, table.len() as int);
    }
}

proof fn lemma_slots_in_tables(
    node: Node,
    base: Path,
    entries: Entries,
    members: Set<Seq<char>>,
)
    requires
        data::at(node, base) == Some(Node::Table(entries)),
        base.len() > 0 ==> toml::has_way(node, base),
        base.len() == 0 || (base.len() == 2 && base[0] == "target"@),
    ensures
        are_slots(node, members, slots_in_tables(base, entries, members)),
{
    reveal_strlit("dependencies");
    reveal_strlit("dev-dependencies");
    reveal_strlit("build-dependencies");
    reveal_strlit("target");
    reveal_strlit("workspace");
    reveal_strlit("package");
    let a = "dependencies"@;
    let b = "dev-dependencies"@;
    let c = "build-dependencies"@;
    assert(base.push(a)[0] == if base.len() == 0 { a } else { base[0] });
    assert(base.push(b)[0] == if base.len() == 0 { b } else { base[0] });
    assert(base.push(c)[0] == if base.len() == 0 { c } else { base[0] });
    lemma_slots_under(node, base, entries, a, members);
    lemma_slots_under(node, base, entries, b, members);
    lemma_slots_under(node, base, entries, c, members);
    lemma_slots_join(
        node, members,
        slots_under(base, entries, a, members),
        slots_under(base, entries, b, members),
    );
    lemma_slots_join(
        node, members,
        slots_under(base, entries, a, members) + slots_under(base, entries, b, members),
        slots_under(base, entries, c, members),
    );
}

proof fn lemma_slots_join(node: Node, members: Set<Seq<char>>, a: Seq<Path>, b: Seq<Path>)
    requires
        are_slots(node, members, a),
        are_slots(node, members, b),
    ensures
        are_slots(node, members, a + b),
{
    assert forall|i: int| 0 <= i < (a + b).len() implies is_slot(
        node,
        members,
        #[trigger] (a + b)[i],
    ) by {
        if i < a.len() {
            assert(is_slot(node, members, a[i]));
        } else {
            assert(is_slot(node, members, b[i - a.len()]));
        }
    }
}

proof fn lemma_target_slots(
    node: Node,
    entries: Entries,
    targets: Entries,
    members: Set<Seq<char>>,
    n: int,
)
    requires
        node == Node::Table(entries),
        data::table_in(entries, "target"@) == Some(targets),
        0 <= n <= targets.len(),
    ensures
        are_slots(node, members, target_slots(targets, members, n)),
    decreases n,
{
    if n > 0 {
        lemma_target_slots(node, entries, targets, members, n - 1);
        let key = targets[n - 1].0;
        if let Some(cfg) = data::table_in(targets, key) {
            toml::lemma_way_one(node, "target"@);
            toml::lemma_way_push(node, seq!["target"@], key);
            let base = seq!["target"@, key];
            assert(base =~= seq!["target"@].push(key));
            lemma_slots_in_tables(node, base, cfg, members);
            lemma_slots_join(
                node, members,
                target_slots(targets, members, n - 1),
                slots_in_tables(base, cfg, members),
            );
        }
    }
}

/// The slots that change lead to dependency tables.
pub proof fn lemma_dep_slots(node: Node, entries: Entries, members: Set<Seq<char>>)
    requires
        node == Node::Table(entries),
    ensures
        are_slots(node, members, dep_slots(entries, members)),
{
    let none = Seq::<Seq<char>>::empty();
    let a = slots_in_tables(none, entries, members);
    lemma_slots_in_tables(node, none, entries, members);
    let b = match data::table_in(entries, "target"@) {
        Some(targets) => target_slots(targets, members, targets.len() as int),
        None => Seq::empty(),
    };
    if let Some(targets) = data::table_in(entries, "target"@) {
        lemma_target_slots(node, entries, targets, members, targets.len() as int);
    }
    let c = match data::table_in(entries, "workspace"@) {
        Some(workspace) => slots_under(seq!["workspace"@], workspace, "dependencies"@, members),
        None => Seq::empty(),
    };
    if let Some(workspace) = data::table_in(entries, "workspace"@) {
        reveal_strlit("target");
        reveal_strlit("workspace");
        reveal_strlit("package");
        toml::lemma_way_one(node, "workspace"@);
        assert(seq!["workspace"@].push("dependencies"@)[0] == "workspace"@);
        lemma_slots_under(node, seq!["workspace"@], workspace, "dependencies"@, members);
    }
    lemma_slots_join(node, members, a, b);
    lemma_slots_join(node, members, a + b, c);
}

/// No path leads through the end of another one.
pub open spec fn apart(slots: Seq<Path>) -> bool {
    forall|i: int, j: int|
        0 <= i < slots.len() && 0 <= j < slots.len() && (#[trigger] slots[i]).is_prefix_of(
            #[trigger] slots[j],
        ) ==> slots[i] == slots[j]
}

/// There is a way to each of the slots.
pub open spec fn have_ways(node: Node, slots: Seq<Path>) -> bool {
    forall|i: int| 0 <= i < slots.len() ==> toml::has_way(node, #[trigger] slots[i])
}

proof fn lemma_slots_apart(node: Node, members: Set<Seq<char>>, p: Path, q: Path)
    requires
        is_slot(node, members, p),
        is_slot(node, members, q),
        p.is_prefix_of(q),
    ensures
        p == q,
{
    if p.len() < q.len() {
        let k = p.len() as int;
        assert(q.take(k) =~= p);
        assert(data::at(node, q.take(k)) is Some);
        assert(q[0] == p[0]) by {
            assert(q.take(k)[0] == q[0]);
        }
    } else {
        assert(p =~= q);
    }
}

/// A slot with another first or second key, in front of slots of dependency
/// tables.
proof fn lemma_first_apart(node: Node, members: Set<Seq<char>>, first: Path, slots: Seq<Path>)
    requires
        are_slots(node, members, slots),
        toml::has_way(node, first),
        first.len() > 0 && first[0] == "package"@ || first.len() > 1 && first[0] == "workspace"@
            && first[1] == "package"@,
    ensures
        apart(seq![first] + slots),
        have_ways(node, seq![first] + slots),
{
    let all = seq![first] + slots;
    reveal_strlit("dependencies");
    reveal_strlit("package");
    assert("package"@.len() != "dependencies"@.len());
    assert forall|i: int| 0 < i < all.len() implies is_slot(node, members, #[trigger] all[i])
        && !toml::nested(first, all[i]) by {
        assert(all[i] == slots[i - 1]);
        if first[0] == all[i][0] {
            toml::lemma_part(first, all[i], 1);
        } else {
            toml::lemma_part(first, all[i], 0);
        }
    }
    assert forall|i: int, j: int|
        0 <= i < all.len() && 0 <= j < all.len() && (#[trigger] all[i]).is_prefix_of(
            #[trigger] all[j],
        ) implies all[i] == all[j] by {
        if i > 0 && j > 0 {
            lemma_slots_apart(node, members, all[i], all[j]);
        }
    }
    assert forall|i: int| 0 <= i < all.len() implies toml::has_way(node, #[trigger] all[i]) by {
        if i > 0 {
            assert(is_slot(node, members, all[i]));
        }
    }
}

proof fn lemma_all_apart(node: Node, members: Set<Seq<char>>, slots: Seq<Path>)
    requires
        are_slots(node, members, slots),
    ensures
        apart(slots),
        have_ways(node, slots),
{
    assert forall|i: int, j: int|
        0 <= i < slots.len() && 0 <= j < slots.len() && (#[trigger] slots[i]).is_prefix_of(
            #[trigger] slots[j],
        ) implies slots[i] == slots[j] by {
        lemma_slots_apart(node, members, slots[i], slots[j]);
    }
}

/// No slot is on the way to `q` or behind it.
pub open spec fn off_way(slots: Seq<Path>, q: Path) -> bool {
    forall|i: int| 0 <= i < slots.len() ==> !toml::nested(#[trigger] slots[i], q)
}

/// `q` does not lead through a slot.
pub open spec fn before_slots(slots: Seq<Path>, q: Path) -> bool {
    forall|i: int| 0 <= i < slots.len() ==> !(#[trigger] slots[i]).is_prefix_of(q)
}

/// At `q` there is a table that is no inline one.
pub open spec fn is_table_at(node: Node, q: Path) -> bool {
    data::at(node, q) matches Some(Node::Table(_))
}

/// At `q` there is a table of either kind.
pub open spec fn has_fields_at(node: Node, q: Path) -> bool {
    data::at(node, q) matches Some(n) && data::fields(n) is Some
}

/// At `q` there is a table, of the same kind, in both documents or in none, and
/// something in both or in none.
pub open spec fn same_kind(a: Node, b: Node, q: Path) -> bool {
    &&& data::at(a, q) is Some <==> data::at(b, q) is Some
    &&& is_table_at(a, q) <==> is_table_at(b, q)
    &&& has_fields_at(a, q) <==> has_fields_at(b, q)
}

/// `after` is what `before` becomes when a text is put into each of the slots:
/// that text is there, and nothing else changes.
pub open spec fn puts_all(before: Node, after: Node, slots: Seq<Path>, new: Seq<char>) -> bool {
    &&& after is Table
    &&& forall|i: int|
        0 <= i < slots.len() ==> data::at(after, #[trigger] slots[i]) == Some(Node::Text(new))
    &&& forall|q: Path|
        off_way(slots, q) ==> #[trigger] data::at(after, q) == data::at(before, q)
    &&& forall|q: Path| before_slots(slots, q) ==> #[trigger] same_kind(before, after, q)
}

/// One step of putting a text into each of the slots.
proof fn lemma_puts_next(
    start: Node,
    before: Node,
    after: Node,
    slots: Seq<Path>,
    n: int,
    new: Seq<char>,
)
    requires
        0 <= n < slots.len(),
        apart(slots),
        puts_all(start, before, slots.take(n), new),
        toml::put_at(before, after, slots[n], new),
        forall|j: int| n <= j < slots.len() ==> toml::has_way(before, #[trigger] slots[j]),
    ensures
        puts_all(start, after, slots.take(n + 1), new),
        forall|j: int| n < j < slots.len() ==> toml::has_way(after, #[trigger] slots[j]),
{
    let p = slots[n];
    let had = slots.take(n);
    let have = slots.take(n + 1);
    assert(toml::has_way(before, slots[n]));
    // The root stays a table.
    let none = Seq::<Seq<char>>::empty();
    assert(p.take(0) =~= none);
    assert(data::at(after, none) == Some(after));
    assert(data::at(before, none) == Some(before));
    assert(data::at(after, p.take(0)) is Some);
    assert forall|i: int| 0 <= i < have.len() implies data::at(after, #[trigger] have[i]) == Some(
        Node::Text(new),
    ) by {
        assert(have[i] == slots[i]);
        if i < n {
            assert(had[i] == slots[i]);
            if slots[i] != p {
                assert(!toml::nested(p, slots[i]));
            }
        }
    }
    assert forall|q: Path| off_way(have, q) implies #[trigger] data::at(after, q) == data::at(
        start,
        q,
    ) by {
        assert(have[n] == p);
        assert(off_way(had, q)) by {
            assert forall|i: int| 0 <= i < had.len() implies !toml::nested(
                #[trigger] had[i],
                q,
            ) by {
                assert(have[i] == had[i]);
            }
        }
        assert(data::at(before, q) == data::at(start, q));
    }
    assert forall|q: Path| before_slots(have, q) implies #[trigger] same_kind(start, after, q) by {
        assert(have[n] == p);
        assert(before_slots(had, q)) by {
            assert forall|i: int| 0 <= i < had.len() implies !(#[trigger] had[i]).is_prefix_of(
                q,
            ) by {
                assert(have[i] == had[i]);
            }
        }
        assert(same_kind(start, before, q));
        lemma_same_kind_step(before, after, p, new, q);
    }
    assert forall|j: int| n < j < slots.len() implies toml::has_way(after, #[trigger] slots[j]) by {
        let r = slots[j];
        assert(toml::has_way(before, r));
        assert forall|k: int| 0 <= k < r.len() implies (#[trigger] data::at(
            after,
            r.take(k),
        ) matches Some(m) && data::fields(m) is Some) by {
            let q = r.take(k);
            assert(data::at(before, q) is Some);
            if p.is_prefix_of(q) {
                assert(p.is_prefix_of(r)) by {
                    assert(r.take(p.len() as int) =~= q.take(p.len() as int));
                }
                assert(slots[n] == slots[j]);
            } else {
                lemma_same_kind_step(before, after, p, new, q);
            }
        }
    }
}

proof fn lemma_same_kind_step(before: Node, after: Node, p: Path, new: Seq<char>, q: Path)
    requires
        toml::has_way(before, p),
        toml::put_at(before, after, p, new),
        !p.is_prefix_of(q),
    ensures
        same_kind(before, after, q),
{
    toml::lemma_kind_kept(before, after, p, new, q);
    if q.is_prefix_of(p) {
        let k = q.len() as int;
        assert(p.take(k) =~= q);
        if k == p.len() {
            assert(p =~= q);
        }
        assert(data::at(after, p.take(k)) is Some);
        assert(data::at(before, p.take(k)) is Some);
    }
}

/// Put a text into each of the slots of a manifest.
fn put_all(t: &str, slots: &Vec<Vec<String>>, new: &str) -> (r: String)
    requires
        toml::toml_read(t@) matches Ok(node) && node is Table && have_ways(
            node,
            slots.deep_view(),
        ),
        apart(slots.deep_view()),
    ensures
        r@ == with_all(t@, slots.deep_view(), new@),
        toml::toml_read(r@) matches Ok(after) && puts_all(
            toml::toml_read(t@)->Ok_0,
            after,
            slots.deep_view(),
            new@,
        ),
{
    let ghost all = slots.deep_view();
    let ghost start = toml::toml_read(t@)->Ok_0;
    let mut cur = own(t);
    let mut i: usize = 0;
    assert(all.len() == slots.len());
    assert(all.take(0) =~= Seq::empty());
    while i < slots.len()
        invariant
            i <= slots.len(),
            all == slots.deep_view(),
            all.len() == slots.len(),
            apart(all),
            cur@ == with_all(t@, all.take(i as int), new@),
            toml::toml_read(cur@) matches Ok(node) && puts_all(
                start,
                node,
                all.take(i as int),
                new@,
            ) && forall|j: int| i <= j < all.len() ==> toml::has_way(node, #[trigger] all[j]),
        decreases slots.len() - i,
    {
        assert(all[i as int] == slots@[i as int].deep_view());
        let ghost before = toml::toml_read(cur@)->Ok_0;
        let next = toml::with_text(&cur, &slots[i], new);
        proof {
            let after = toml::toml_read(next@)->Ok_0;
            lemma_puts_next(start, before, after, all, i as int, new@);
            assert(all.take(i + 1).drop_last() =~= all.take(i as int));
            assert(all.take(i + 1).last() == all[i as int]);
        }
        cur = next;
        i = i + 1;
    }
    assert(all.take(i as int) =~= all);
    cur
}

/// A path with one more key.
fn longer(base: &Vec<String>, key: &str) -> (r: Vec<String>)
    ensures
        r.deep_view() == base.deep_view().push(key@),
{
    let mut r = copies(base);
    put(&mut r, own(key));
    r
}

fn add_slot(slots: &mut Vec<Vec<String>>, slot: Vec<String>)
    ensures
        final(slots).deep_view() == old(slots).deep_view().push(slot.deep_view()),
{
    let ghost before = slots.deep_view();
    slots.push(slot);
    assert(slots.deep_view() =~= before.push(slot.deep_view()));
}

/// The slot of an entry of a dependency table that holds the version of a
/// workspace member.
fn find_slot(base: &Vec<String>, key: &str, value: &Data, members: &Vec<String>) -> (r: Option<
    Vec<String>,
>)
    ensures
        r.model() == entry_slot(
            base.deep_view(),
            key@,
            value.seen(),
            members.deep_view().to_set(),
        ),
{
    if !listed(members, &find_real_name(key, value)) {
        return None;
    }
    if let Data::Text(_) = value {
        return Some(longer(base, key));
    }
    match data::find_field(value, "version") {
        Some(_) => Some(longer(&longer(base, key), "version")),
        None => None,
    }
}

/// Add the slots of the dependency table at `base`.
fn add_table_slots(
    base: &Vec<String>,
    table: &Vec<Entry>,
    members: &Vec<String>,
    slots: &mut Vec<Vec<String>>,
)
    ensures
        final(slots).deep_view() == old(slots).deep_view() + slots_among(
            base.deep_view(),
            data::seen_entries(table@),
            members.deep_view().to_set(),
            table@.len() as int,
        ),
{
    let ghost all = data::seen_entries(table@);
    let ghost names = members.deep_view().to_set();
    let ghost path = base.deep_view();
    let ghost before = slots.deep_view();
    proof {
        data::lemma_seen_entries(table@);
    }
    let mut i: usize = 0;
    assert(before =~= before + slots_among(path, all, names, 0));
    while i < table.len()
        invariant
            i <= table.len(),
            all == data::seen_entries(table@),
            all.len() == table.len(),
            forall|k: int|
                0 <= k < table.len() ==> #[trigger] all[k] == (
                    table@[k].key@,
                    table@[k].value.seen(),
                ),
            names == members.deep_view().to_set(),
            path == base.deep_view(),
            slots.deep_view() == before + slots_among(path, all, names, i as int),
        decreases table.len() - i,
    {
        let key = &table[i].key;
        assert(all[i as int].0 == key@);
        if let Some(value) = data::find_entry(table, key) {
            if let Some(slot) = find_slot(base, key, value, members) {
                add_slot(slots, slot);
            }
        }
        i = i + 1;
        assert(slots.deep_view() =~= before + slots_among(path, all, names, i as int));
    }
}

/// Add the slots of the dependency table with this key.
fn add_slots_under(
    base: &Vec<String>,
    entries: &Vec<Entry>,
    key: &str,
    members: &Vec<String>,
    slots: &mut Vec<Vec<String>>,
)
    ensures
        final(slots).deep_view() == old(slots).deep_view() + slots_under(
            base.deep_view(),
            data::seen_entries(entries@),
            key@,
            members.deep_view().to_set(),
        ),
{
    let ghost before = slots.deep_view();
    if let Some(table) = data::find_table(entries, key) {
        proof {
            data::lemma_seen_entries(table@);
        }
        add_table_slots(&longer(base, key), table, members, slots);
    } else {
        assert(before =~= before + Seq::<Path>::empty());
    }
}

/// Add the slots of the dependency tables of the table at `base`.
fn add_slots_in_tables(
    base: &Vec<String>,
    entries: &Vec<Entry>,
    members: &Vec<String>,
    slots: &mut Vec<Vec<String>>,
)
    ensures
        final(slots).deep_view() == old(slots).deep_view() + slots_in_tables(
            base.deep_view(),
            data::seen_entries(entries@),
            members.deep_view().to_set(),
        ),
{
    let ghost before = slots.deep_view();
    add_slots_under(base, entries, "dependencies", members, slots);
    add_slots_under(base, entries, "dev-dependencies", members, slots);
    add_slots_under(base, entries, "build-dependencies", members, slots);
    assert(slots.deep_view() =~= before + slots_in_tables(
        base.deep_view(),
        data::seen_entries(entries@),
        members.deep_view().to_set(),
    ));
}

/// Add the slots of the dependency tables of targets.
fn add_target_slots(
    targets: &Vec<Entry>,
    members: &Vec<String>,
    slots: &mut Vec<Vec<String>>,
)
    ensures
        final(slots).deep_view() == old(slots).deep_view() + target_slots(
            data::seen_entries(targets@),
            members.deep_view().to_set(),
            targets@.len() as int,
        ),
{
    let ghost all = data::seen_entries(targets@);
    let ghost names = members.deep_view().to_set();
    let ghost before = slots.deep_view();
    proof {
        data::lemma_seen_entries(targets@);
    }
    let mut i: usize = 0;
    assert(before =~= before + target_slots(all, names, 0));
    while i < targets.len()
        invariant
            i <= targets.len(),
            all == data::seen_entries(targets@),
            all.len() == targets.len(),
            forall|k: int|
                0 <= k < targets.len() ==> #[trigger] all[k] == (
                    targets@[k].key@,
                    targets@[k].value.seen(),
                ),
            names == members.deep_view().to_set(),
            slots.deep_view() == before + target_slots(all, names, i as int),
        decreases targets.len() - i,
    {
        let key = &targets[i].key;
        assert(all[i as int].0 == key@);
        if let Some(cfg) = data::find_table(targets, key) {
            add_slots_in_tables(&list2("target", key), cfg, members, slots);
        }
        i = i + 1;
        assert(slots.deep_view() =~= before + target_slots(all, names, i as int));
    }
}

/// Add the slots of a manifest that hold the version of a workspace member.
fn add_dep_slots(entries: &Vec<Entry>, members: &Vec<String>, slots: &mut Vec<Vec<String>>)
    ensures
        final(slots).deep_view() == old(slots).deep_view() + dep_slots(
            data::seen_entries(entries@),
            members.deep_view().to_set(),
        ),
{
    let ghost before = slots.deep_view();
    let ghost all = data::seen_entries(entries@);
    let ghost names = members.deep_view().to_set();
    add_slots_in_tables(&list0(), entries, members, slots);
    if let Some(targets) = data::find_table(entries, "target") {
        proof {
            data::lemma_seen_entries(targets@);
        }
        add_target_slots(targets, members, slots);
    }
    if let Some(workspace) = data::find_table(entries, "workspace") {
        add_slots_under(&list1("workspace"), workspace, "dependencies", members, slots);
    }
    assert(slots.deep_view() =~= before + dep_slots(all, names));
}

/// The slots of a manifest that hold the version of a workspace member.
pub fn find_dep_slots(entries: &Vec<Entry>, members: &Vec<String>) -> (r: Vec<Vec<String>>)
    ensures
        r.deep_view() == dep_slots(data::seen_entries(entries@), members.deep_view().to_set()),
{
    let mut slots: Vec<Vec<String>> = Vec::new();
    add_dep_slots(entries, members, &mut slots);
    assert(Seq::<Path>::empty() + dep_slots(
        data::seen_entries(entries@),
        members.deep_view().to_set(),
    ) =~= slots.deep_view());
    slots
}

/// The slots that change in a manifest that gets the version itself.
pub fn find_lockstep_slots(entries: &Vec<Entry>, members: &Vec<String>) -> (r: Vec<Vec<String>>)
    ensures
        r.deep_view() == lockstep_slots(
            data::seen_entries(entries@),
            members.deep_view().to_set(),
        ),
{
    let mut slots: Vec<Vec<String>> = Vec::new();
    assert(slots.deep_view() =~= Seq::empty());
    if let Some(_) = package_version(entries) {
        add_slot(&mut slots, list2("package", "version"));
        assert(slots.deep_view() =~= seq![seq!["package"@, "version"@]]);
    }
    add_dep_slots(entries, members, &mut slots);
    slots
}

/// A new version goes only where there is one, and only into dependencies on
/// workspace members.
pub proof fn law_slots_of_members(entries: Entries, members: Set<Seq<char>>)
    ensures
        forall|i: int|
            0 <= i < dep_slots(entries, members).len() ==> {
                let slot = #[trigger] dep_slots(entries, members)[i];
                data::at(Node::Table(entries), slot) is Some && of_member(
                    Node::Table(entries),
                    members,
                    slot,
                )
            },
{
    let node = Node::Table(entries);
    let slots = dep_slots(entries, members);
    lemma_dep_slots(node, entries, members);
    assert forall|i: int| 0 <= i < slots.len() implies data::at(
        node,
        #[trigger] slots[i],
    ) is Some && of_member(node, members, slots[i]) by {
        assert(is_slot(node, members, slots[i]));
    }
}

/// The path leads to an entry of a dependency table.
pub open spec fn is_dependency(q: Path) -> bool {
    &&& q.len() > 0
    &&& q.len() + 1 == longest(q[0])
    &&& q[0] != "package"@
    &&& q[0] == "workspace"@ ==> q[1] == "dependencies"@
}

/// Dependencies on anything but workspace members stay as they are, whatever
/// else a manifest gets a new version in.
pub proof fn law_other_dependencies_stay(
    entries: Entries,
    members: Set<Seq<char>>,
    after: Node,
    new: Seq<char>,
    q: Path,
)
    requires
        is_dependency(q),
        data::at(Node::Table(entries), q) matches Some(entry) && !members.contains(
            real_name(q.last(), entry),
        ),
        puts_all(Node::Table(entries), after, dep_slots(entries, members), new) || puts_all(
            Node::Table(entries),
            after,
            lockstep_slots(entries, members),
            new,
        ) || puts_all(Node::Table(entries), after, shared_slots(entries, members), new),
    ensures
        data::at(after, q) == data::at(Node::Table(entries), q),
{
    let node = Node::Table(entries);
    let deps = dep_slots(entries, members);
    lemma_dep_slots(node, entries, members);
    assert forall|i: int| 0 <= i < deps.len() implies !toml::nested(#[trigger] deps[i], q) by {
        let p = deps[i];
        assert(is_slot(node, members, p));
        if toml::nested(p, q) {
            if p[0] != q[0] {
                toml::lemma_part(p, q, 0);
            }
            let n = q.len() as int;
            if q.is_prefix_of(p) {
                assert(p.take(n) =~= q);
            } else {
                assert(p =~= q);
                assert(p.take(n) =~= q);
            }
            assert(p[n - 1] == p.take(n)[n - 1]);
            assert(p[n - 1] == q.last());
        }
    }
    assert(off_way(deps, q));
    reveal_strlit("dependencies");
    reveal_strlit("package");
    assert("package"@.len() != "dependencies"@.len());
    let own = seq!["package"@, "version"@];
    let shared = seq!["workspace"@, "package"@, "version"@];
    toml::lemma_part(own, q, 0);
    if q[0] == "workspace"@ {
        toml::lemma_part(shared, q, 1);
    } else {
        toml::lemma_part(shared, q, 0);
    }
    lemma_off_way_too(own, deps, q);
    lemma_off_way_too(shared, deps, q);
    assert(Seq::<Path>::empty() + deps =~= deps);
    assert(off_way(lockstep_slots(entries, members), q));
    assert(off_way(shared_slots(entries, members), q));
}

/// A member that inherits its version, or has one of its own in a workspace
/// whose version is shared, keeps what its `[package]` says.
pub proof fn law_inherited_version_stays(
    entries: Entries,
    members: Set<Seq<char>>,
    after: Node,
    new: Seq<char>,
    key: Seq<char>,
)
    requires
        puts_all(Node::Table(entries), after, dep_slots(entries, members), new),
    ensures
        data::at(after, seq!["package"@, key]) == data::at(
            Node::Table(entries),
            seq!["package"@, key],
        ),
{
    let node = Node::Table(entries);
    let deps = dep_slots(entries, members);
    let q = seq!["package"@, key];
    lemma_dep_slots(node, entries, members);
    assert forall|i: int| 0 <= i < deps.len() implies !toml::nested(#[trigger] deps[i], q) by {
        assert(is_slot(node, members, deps[i]));
        toml::lemma_part(deps[i], q, 0);
    }
    assert(off_way(deps, q));
}

proof fn lemma_off_way_too(first: Path, slots: Seq<Path>, q: Path)
    requires
        off_way(slots, q),
        !toml::nested(first, q),
    ensures
        off_way(seq![first] + slots, q),
{
    let all = seq![first] + slots;
    assert forall|i: int| 0 <= i < all.len() implies !toml::nested(#[trigger] all[i], q) by {
        if i > 0 {
            assert(all[i] == slots[i - 1]);
        }
    }
}

// ---------------------------------------------------------------------------
// Writing
// ---------------------------------------------------------------------------

/// A new version changes what stands in one of these slots.
pub open spec fn stale(entries: Entries, slots: Seq<Path>, new: Seq<char>) -> bool {
    exists|i: int|
        0 <= i < slots.len() && data::at(Node::Table(entries), #[trigger] slots[i]) != Some(
            Node::Text(new),
        )
}

/// A new version changes a dependency on a workspace member.
pub open spec fn deps_change(entries: Entries, members: Set<Seq<char>>, new: Seq<char>) -> bool {
    stale(entries, dep_slots(entries, members), new)
}

/// A manifest that gets the version itself is to be written: it has a version
/// of its own, or a dependency changes.
pub open spec fn lockstep_changes(
    entries: Entries,
    members: Set<Seq<char>>,
    new: Seq<char>,
) -> bool {
    version_in(entries) is Some || deps_change(entries, members, new)
}

/// The text of a manifest with a new version in its dependencies on workspace
/// members, `None` if that changes none.
pub open spec fn deps_changed(
    t: Seq<char>,
    entries: Entries,
    members: Set<Seq<char>>,
    new: Seq<char>,
) -> Option<Seq<char>> {
    if deps_change(entries, members, new) {
        Some(with_all(t, dep_slots(entries, members), new))
    } else {
        None
    }
}

/// The text of a manifest that gets the version itself, `None` if it is not to
/// be written.
pub open spec fn lockstep_changed(
    t: Seq<char>,
    entries: Entries,
    members: Set<Seq<char>>,
    new: Seq<char>,
) -> Option<Seq<char>> {
    if lockstep_changes(entries, members, new) {
        Some(with_all(t, lockstep_slots(entries, members), new))
    } else {
        None
    }
}

/// What has the new version already is not written again.
pub proof fn law_nothing_new_nothing_written(
    t: Seq<char>,
    entries: Entries,
    members: Set<Seq<char>>,
    new: Seq<char>,
)
    requires
        forall|i: int|
            0 <= i < dep_slots(entries, members).len() ==> data::at(
                Node::Table(entries),
                #[trigger] dep_slots(entries, members)[i],
            ) == Some(Node::Text(new)),
    ensures
        deps_changed(t, entries, members, new) is None,
{
}

/// Whether a new version changes what stands in one of these slots.
fn is_stale(entries: &Vec<Entry>, slots: &Vec<Vec<String>>, new: &str) -> (r: bool)
    requires
        forall|i: int|
            0 <= i < slots.deep_view().len() ==> (#[trigger] slots.deep_view()[i]).len() > 0,
    ensures
        r == stale(data::seen_entries(entries@), slots.deep_view(), new@),
{
    let ghost all = slots.deep_view();
    let ghost node = Node::Table(data::seen_entries(entries@));
    assert(all.len() == slots.len());
    let mut i: usize = 0;
    while i < slots.len()
        invariant
            i <= slots.len(),
            all == slots.deep_view(),
            all.len() == slots.len(),
            node == Node::Table(data::seen_entries(entries@)),
            forall|k: int| 0 <= k < all.len() ==> (#[trigger] all[k]).len() > 0,
            forall|k: int|
                0 <= k < i ==> data::at(node, #[trigger] all[k]) == Some(Node::Text(new@)),
        decreases slots.len() - i,
    {
        assert(all[i as int] == slots@[i as int].deep_view());
        let same_text = match data::find_at(entries, &slots[i]) {
            Some(Data::Text(t)) => same(t, new),
            _ => false,
        };
        if !same_text {
            assert(data::at(node, all[i as int]) != Some(Node::Text(new@)));
            return true;
        }
        i = i + 1;
    }
    false
}

proof fn lemma_slots_not_empty(node: Node, members: Set<Seq<char>>, slots: Seq<Path>)
    requires
        are_slots(node, members, slots),
    ensures
        forall|i: int| 0 <= i < slots.len() ==> (#[trigger] slots[i]).len() > 0,
{
    assert forall|i: int| 0 <= i < slots.len() implies (#[trigger] slots[i]).len() > 0 by {
        assert(is_slot(node, members, slots[i]));
    }
}

/// Whether a new version changes a dependency on a workspace member.
pub fn do_deps_change(entries: &Vec<Entry>, members: &Vec<String>, new: &str) -> (r: bool)
    ensures
        r == deps_change(data::seen_entries(entries@), members.deep_view().to_set(), new@),
{
    let slots = find_dep_slots(entries, members);
    proof {
        let node = Node::Table(data::seen_entries(entries@));
        let names = members.deep_view().to_set();
        lemma_dep_slots(node, data::seen_entries(entries@), names);
        lemma_slots_not_empty(node, names, slots.deep_view());
    }
    is_stale(entries, &slots, new)
}

/// Whether a manifest that gets the version itself is to be written.
pub fn does_lockstep_change(entries: &Vec<Entry>, members: &Vec<String>, new: &str) -> (r: bool)
    ensures
        r == lockstep_changes(data::seen_entries(entries@), members.deep_view().to_set(), new@),
{
    match package_version(entries) {
        Some(_) => true,
        None => do_deps_change(entries, members, new),
    }
}

/// The text says what the manifest says, with a new version in these slots.
pub open spec fn reads_changed(
    t: Seq<char>,
    entries: Entries,
    slots: Seq<Path>,
    new: Seq<char>,
) -> bool {
    toml::toml_read(t) matches Ok(after) && puts_all(Node::Table(entries), after, slots, new)
}

/// `after` is what a manifest of a workspace member becomes with a new version
/// of its own: it has that version if it had one before.
pub open spec fn renewed_own(before: Entries, after: Entries, new: Seq<char>) -> bool {
    &&& version_in(before) is Some ==> version_in(after) == Some(new)
    &&& version_in(after) matches Some(v) ==> v == new
}

/// `after` is what the root manifest becomes with a new version: that stands
/// where it stood before.
pub open spec fn renewed_root(before: Entries, after: Entries, new: Seq<char>) -> bool {
    &&& layout_of(after) == layout_of(before)
    &&& if layout_of(before) is WorkspacePackage {
        shared_version_in(after) == Some(new)
    } else {
        renewed_own(before, after, new)
    }
}

/// The text reads as a manifest with this version for members to inherit.
pub open spec fn reads_shared(t: Seq<char>, version: Seq<char>) -> bool {
    toml::entries_in(t) matches Ok(entries) && layout_of(entries) is WorkspacePackage
        && shared_version_in(entries) == Some(version)
}

/// Put a new version into the dependencies on workspace members. Everything
/// else stays as it is.
pub fn rewrite_intra_workspace_dep_versions(
    doc: &toml::Doc,
    members: &Vec<String>,
    new: &str,
) -> (r: Option<String>)
    ensures
        r.model() == deps_changed(
            doc.model().0,
            doc.model().1,
            members.deep_view().to_set(),
            new@,
        ),
        r matches Some(t) ==> reads_changed(
            t@,
            doc.model().1,
            dep_slots(doc.model().1, members.deep_view().to_set()),
            new@,
        ),
{
    let t = doc.text();
    let slots = find_dep_slots(doc.entries(), members);
    proof {
        lemma_deps_ready(doc.model().1, members.deep_view().to_set());
    }
    if !do_deps_change(doc.entries(), members, new) {
        return None;
    }
    Some(put_all(t, &slots, new))
}

/// Two keys on.
pub proof fn lemma_at_two(node: Node, a: Seq<char>, b: Seq<char>)
    requires
        node is Table,
    ensures
        data::at(node, seq![a]) == data::find(data::top(node), a),
        data::at(node, seq![a, b]) == (match data::find(data::top(node), a) {
            Some(n) => data::field(n, b),
            None => None,
        }),
{
    toml::lemma_way_one(node, a);
    toml::lemma_at_push(node, seq![a], b);
    assert(seq![a].push(b) =~= seq![a, b]);
}

/// Three keys on.
pub proof fn lemma_at_three(node: Node, a: Seq<char>, b: Seq<char>, c: Seq<char>)
    requires
        node is Table,
    ensures
        data::at(node, seq![a, b, c]) == (match data::at(node, seq![a, b]) {
            Some(n) => data::field(n, c),
            None => None,
        }),
{
    toml::lemma_at_push(node, seq![a, b], c);
    assert(seq![a, b].push(c) =~= seq![a, b, c]);
}

/// The layout is decided by what kind of things stand at three places.
proof fn lemma_layout_kept(before: Node, after: Node)
    requires
        before is Table,
        after is Table,
        same_kind(before, after, seq!["workspace"@]),
        same_kind(before, after, seq!["workspace"@, "package"@]),
        same_kind(before, after, seq!["workspace"@, "package"@, "version"@]),
        data::at(before, seq!["workspace"@, "members"@]) == data::at(
            after,
            seq!["workspace"@, "members"@],
        ),
    ensures
        layout_of(data::top(before)) == layout_of(data::top(after)),
        shared_in(data::top(before)) is Some <==> shared_in(data::top(after)) is Some,
{
    let w = "workspace"@;
    let p = "package"@;
    let v = "version"@;
    lemma_at_two(before, w, "members"@);
    lemma_at_two(after, w, "members"@);
    lemma_at_two(before, w, p);
    lemma_at_two(after, w, p);
    lemma_at_three(before, w, p, v);
    lemma_at_three(after, w, p, v);
    assert(is_table_at(before, seq![w]) <==> is_table_at(after, seq![w]));
    assert(is_table_at(before, seq![w, p]) <==> is_table_at(after, seq![w, p]));
}

/// Slots of dependency tables do not lie on the way to the version.
proof fn lemma_clear_of_slots(node: Node, members: Set<Seq<char>>, slots: Seq<Path>, q: Path)
    requires
        are_slots(node, members, slots),
        q.len() > 0,
        q[0] == "package"@ || q[0] == "workspace"@ && (q.len() == 1 || q[1] == "package"@),
    ensures
        before_slots(slots, q),
{
    reveal_strlit("dependencies");
    reveal_strlit("package");
    assert("package"@.len() != "dependencies"@.len());
    assert forall|i: int| 0 <= i < slots.len() implies !(#[trigger] slots[i]).is_prefix_of(q) by {
        assert(is_slot(node, members, slots[i]));
        let p = slots[i];
        if p.is_prefix_of(q) {
            assert(q.take(p.len() as int)[0] == q[0]);
            assert(p[0] == q[0]);
            if p.len() >= 2 {
                assert(q.take(p.len() as int)[1] == q[1]);
            }
        }
    }
}

/// A slot in front of others does not lie on the way to `q` if it is not a
/// beginning of `q`.
proof fn lemma_clear_with_first(first: Path, slots: Seq<Path>, q: Path)
    requires
        before_slots(slots, q),
        first.len() > q.len(),
    ensures
        before_slots(seq![first] + slots, q),
{
    let all = seq![first] + slots;
    assert forall|i: int| 0 <= i < all.len() implies !(#[trigger] all[i]).is_prefix_of(q) by {
        if i > 0 {
            assert(all[i] == slots[i - 1]);
        }
    }
}

/// Put a new version into a manifest of its own version and into its
/// dependencies on workspace members. The version reads back, and where it
/// stands is decided as before.
pub fn rewrite_in_lockstep(doc: &toml::Doc, members: &Vec<String>, new: &str) -> (r: Option<
    String,
>)
    ensures
        r.model() == lockstep_changed(
            doc.model().0,
            doc.model().1,
            members.deep_view().to_set(),
            new@,
        ),
        r matches Some(t) ==> reads_changed(
            t@,
            doc.model().1,
            lockstep_slots(doc.model().1, members.deep_view().to_set()),
            new@,
        ),
        r matches Some(t) ==> toml::entries_in(t@) matches Ok(after) && layout_of(after)
            == layout_of(doc.model().1) && version_in(after) == (match version_in(doc.model().1) {
            Some(_) => Some(new@),
            None => None,
        }),
{
    let t = doc.text();
    let slots = find_lockstep_slots(doc.entries(), members);
    let ghost entries = doc.model().1;
    let ghost names = members.deep_view().to_set();
    proof {
        lemma_lockstep_ready(entries, names);
    }
    if !does_lockstep_change(doc.entries(), members, new) {
        return None;
    }
    let after = put_all(t, &slots, new);
    proof {
        lemma_lockstep_done(entries, names, toml::toml_read(after@)->Ok_0, new@);
    }
    Some(after)
}

/// A text can be put into each slot of a manifest that gets the version itself.
pub proof fn lemma_lockstep_ready(entries: Entries, names: Set<Seq<char>>)
    ensures
        have_ways(Node::Table(entries), lockstep_slots(entries, names)),
        apart(lockstep_slots(entries, names)),
{
    let node = Node::Table(entries);
    let deps = dep_slots(entries, names);
    let own_slot = seq!["package"@, "version"@];
    lemma_dep_slots(node, entries, names);
    if version_in(entries) is Some {
        toml::lemma_way_one(node, "package"@);
        toml::lemma_way_push(node, seq!["package"@], "version"@);
        assert(own_slot =~= seq!["package"@].push("version"@));
        lemma_first_apart(node, names, own_slot, deps);
    } else {
        lemma_all_apart(node, names, deps);
        assert(Seq::<Path>::empty() + deps =~= deps);
    }
}

/// A manifest that gets the version itself has it then, if it had one before,
/// and where it stands is decided as before.
proof fn lemma_lockstep_done(entries: Entries, names: Set<Seq<char>>, node2: Node, new: Seq<char>)
    requires
        puts_all(Node::Table(entries), node2, lockstep_slots(entries, names), new),
    ensures
        layout_of(data::top(node2)) == layout_of(entries),
        version_in(data::top(node2)) == (match version_in(entries) {
            Some(_) => Some(new),
            None => None,
        }),
{
    let node = Node::Table(entries);
    let deps = dep_slots(entries, names);
    let all = lockstep_slots(entries, names);
    let own_slot = seq!["package"@, "version"@];
    let w = seq!["workspace"@];
    let wp = seq!["workspace"@, "package"@];
    let wpv = seq!["workspace"@, "package"@, "version"@];
    let p = seq!["package"@];
    lemma_dep_slots(node, entries, names);
    lemma_clear_of_slots(node, names, deps, w);
    lemma_clear_of_slots(node, names, deps, wp);
    lemma_clear_of_slots(node, names, deps, wpv);
    lemma_clear_of_slots(node, names, deps, p);
    if version_in(entries) is Some {
        lemma_clear_with_own(own_slot, deps, w);
        lemma_clear_with_own(own_slot, deps, wp);
        lemma_clear_with_own(own_slot, deps, wpv);
        lemma_clear_with_first(own_slot, deps, p);
        assert(all[0] == own_slot);
        lemma_at_two(node, "package"@, "version"@);
        lemma_at_two(node2, "package"@, "version"@);
        assert(same_kind(node, node2, p));
        assert(is_table_at(node, p) <==> is_table_at(node2, p));
    } else {
        assert(Seq::<Path>::empty() + deps =~= deps);
        lemma_version_still_absent(node, node2, names, new);
    }
    assert(same_kind(node, node2, w));
    assert(same_kind(node, node2, wp));
    assert(same_kind(node, node2, wpv));
    lemma_patterns_off_way(node, names, deps);
    if version_in(entries) is Some {
        reveal_strlit("package");
        reveal_strlit("workspace");
        assert("package"@.len() != "workspace"@.len());
        toml::lemma_part(own_slot, seq!["workspace"@, "members"@], 0);
        lemma_off_way_too(own_slot, deps, seq!["workspace"@, "members"@]);
    }
    assert(off_way(all, seq!["workspace"@, "members"@]));
    lemma_layout_kept(node, node2);
}

/// A text can be put into each slot of a dependency on a workspace member.
pub proof fn lemma_deps_ready(entries: Entries, names: Set<Seq<char>>)
    ensures
        have_ways(Node::Table(entries), dep_slots(entries, names)),
        apart(dep_slots(entries, names)),
{
    lemma_dep_slots(Node::Table(entries), entries, names);
    lemma_all_apart(Node::Table(entries), names, dep_slots(entries, names));
}

/// With its dependencies alone, a manifest keeps its version, the one for
/// members to inherit, and its layout.
proof fn lemma_deps_done(entries: Entries, names: Set<Seq<char>>, node2: Node, new: Seq<char>)
    requires
        puts_all(Node::Table(entries), node2, dep_slots(entries, names), new),
    ensures
        layout_of(data::top(node2)) == layout_of(entries),
        version_in(data::top(node2)) == version_in(entries),
        shared_version_in(data::top(node2)) == shared_version_in(entries),
{
    let node = Node::Table(entries);
    let deps = dep_slots(entries, names);
    let w = seq!["workspace"@];
    let wp = seq!["workspace"@, "package"@];
    let wpv = seq!["workspace"@, "package"@, "version"@];
    let p = seq!["package"@];
    lemma_dep_slots(node, entries, names);
    lemma_clear_of_slots(node, names, deps, w);
    lemma_clear_of_slots(node, names, deps, wp);
    lemma_clear_of_slots(node, names, deps, wpv);
    lemma_clear_of_slots(node, names, deps, p);
    assert(same_kind(node, node2, w));
    assert(same_kind(node, node2, wp));
    assert(same_kind(node, node2, wpv));
    assert(same_kind(node, node2, p));
    lemma_patterns_off_way(node, names, deps);
    lemma_layout_kept(node, node2);
    law_inherited_version_stays(entries, names, node2, new, "version"@);
    lemma_at_two(node, "package"@, "version"@);
    lemma_at_two(node2, "package"@, "version"@);
    assert(is_table_at(node, p) <==> is_table_at(node2, p));
    lemma_shared_off_way(node, names, deps);
    assert(data::at(node2, wpv) == data::at(node, wpv));
    lemma_at_two(node, "workspace"@, "package"@);
    lemma_at_two(node2, "workspace"@, "package"@);
    lemma_at_three(node, "workspace"@, "package"@, "version"@);
    lemma_at_three(node2, "workspace"@, "package"@, "version"@);
    assert(is_table_at(node, w) <==> is_table_at(node2, w));
    assert(is_table_at(node, wp) <==> is_table_at(node2, wp));
}

/// Slots of dependency tables have nothing to do with the version for members
/// to inherit.
proof fn lemma_shared_off_way(node: Node, members: Set<Seq<char>>, slots: Seq<Path>)
    requires
        are_slots(node, members, slots),
    ensures
        off_way(slots, seq!["workspace"@, "package"@, "version"@]),
{
    reveal_strlit("dependencies");
    reveal_strlit("package");
    assert("package"@.len() != "dependencies"@.len());
    let q = seq!["workspace"@, "package"@, "version"@];
    assert forall|i: int| 0 <= i < slots.len() implies !toml::nested(#[trigger] slots[i], q) by {
        let p = slots[i];
        assert(is_slot(node, members, p));
        if p[0] == "workspace"@ {
            toml::lemma_part(p, q, 1);
        } else {
            toml::lemma_part(p, q, 0);
        }
    }
}

/// Slots of dependency tables have nothing to do with the members' patterns.
proof fn lemma_patterns_off_way(node: Node, members: Set<Seq<char>>, slots: Seq<Path>)
    requires
        are_slots(node, members, slots),
    ensures
        off_way(slots, seq!["workspace"@, "members"@]),
{
    reveal_strlit("dependencies");
    reveal_strlit("members");
    assert("members"@.len() != "dependencies"@.len());
    let q = seq!["workspace"@, "members"@];
    assert forall|i: int| 0 <= i < slots.len() implies !toml::nested(#[trigger] slots[i], q) by {
        let p = slots[i];
        assert(is_slot(node, members, p));
        if p[0] == "workspace"@ {
            toml::lemma_part(p, q, 1);
        } else {
            toml::lemma_part(p, q, 0);
        }
    }
}

/// A manifest that has no version of its own gets none with its dependencies.
proof fn lemma_version_still_absent(
    before: Node,
    after: Node,
    members: Set<Seq<char>>,
    new: Seq<char>,
)
    requires
        before is Table,
        after is Table,
        version_in(data::top(before)) is None,
        puts_all(before, after, dep_slots(data::top(before), members), new),
    ensures
        version_in(data::top(after)) is None,
{
    let entries = data::top(before);
    let deps = dep_slots(entries, members);
    let p = seq!["package"@];
    lemma_dep_slots(before, entries, members);
    lemma_clear_of_slots(before, members, deps, p);
    law_inherited_version_stays(entries, members, after, new, "version"@);
    assert(same_kind(before, after, p));
    lemma_at_two(before, "package"@, "version"@);
    lemma_at_two(after, "package"@, "version"@);
    assert(is_table_at(before, p) <==> is_table_at(after, p));
}

/// The slot of the package's own version is not on the way into the workspace.
proof fn lemma_clear_with_own(first: Path, slots: Seq<Path>, q: Path)
    requires
        first == seq!["package"@, "version"@],
        before_slots(slots, q),
        q.len() > 0 && q[0] == "workspace"@,
    ensures
        before_slots(seq![first] + slots, q),
{
    reveal_strlit("package");
    reveal_strlit("workspace");
    assert("package"@.len() != "workspace"@.len());
    let all = seq![first] + slots;
    assert forall|i: int| 0 <= i < all.len() implies !(#[trigger] all[i]).is_prefix_of(q) by {
        if i > 0 {
            assert(all[i] == slots[i - 1]);
        } else if first.is_prefix_of(q) {
            assert(q.take(2)[0] == q[0]);
        }
    }
}

/// Put a new version into the manifest whose version members inherit, and into
/// its dependencies on workspace members. The version reads back, and where it
/// stands is decided as before.
pub fn rewrite_shared(doc: &toml::Doc, members: &Vec<String>, new: &str) -> (r: String)
    requires
        layout_of(doc.model().1) is WorkspacePackage,
    ensures
        r@ == with_all(
            doc.model().0,
            shared_slots(doc.model().1, members.deep_view().to_set()),
            new@,
        ),
        reads_changed(
            r@,
            doc.model().1,
            shared_slots(doc.model().1, members.deep_view().to_set()),
            new@,
        ),
        toml::entries_in(r@) matches Ok(after) && layout_of(after) is WorkspacePackage
            && shared_version_in(after) == Some(new@),
{
    let t = doc.text();
    let ghost entries = doc.model().1;
    let ghost names = members.deep_view().to_set();
    let mut slots: Vec<Vec<String>> = Vec::new();
    add_slot(&mut slots, list3("workspace", "package", "version"));
    assert(slots.deep_view() =~= seq![seq!["workspace"@, "package"@, "version"@]]);
    add_dep_slots(doc.entries(), members, &mut slots);
    proof {
        lemma_shared_ready(entries, names);
    }
    let after = put_all(t, &slots, new);
    proof {
        lemma_shared_done(entries, names, toml::toml_read(after@)->Ok_0, new@);
    }
    after
}

/// A text can be put into each slot of the manifest whose version members
/// inherit.
pub proof fn lemma_shared_ready(entries: Entries, names: Set<Seq<char>>)
    requires
        layout_of(entries) is WorkspacePackage,
    ensures
        have_ways(Node::Table(entries), shared_slots(entries, names)),
        apart(shared_slots(entries, names)),
{
    let node = Node::Table(entries);
    let deps = dep_slots(entries, names);
    let w = seq!["workspace"@];
    let wp = seq!["workspace"@, "package"@];
    let wpv = seq!["workspace"@, "package"@, "version"@];
    lemma_dep_slots(node, entries, names);
    lemma_at_two(node, "workspace"@, "package"@);
    lemma_at_three(node, "workspace"@, "package"@, "version"@);
    toml::lemma_way_one(node, "workspace"@);
    toml::lemma_way_push(node, w, "package"@);
    assert(wp =~= w.push("package"@));
    toml::lemma_way_push(node, wp, "version"@);
    assert(wpv =~= wp.push("version"@));
    lemma_first_apart(node, names, wpv, deps);
}

/// The manifest whose version members inherit has the new one.
proof fn lemma_shared_done(entries: Entries, names: Set<Seq<char>>, node2: Node, new: Seq<char>)
    requires
        layout_of(entries) is WorkspacePackage,
        puts_all(Node::Table(entries), node2, shared_slots(entries, names), new),
    ensures
        layout_of(data::top(node2)) is WorkspacePackage,
        shared_version_in(data::top(node2)) == Some(new),
        version_in(data::top(node2)) == version_in(entries),
{
    let node = Node::Table(entries);
    let deps = dep_slots(entries, names);
    let all = shared_slots(entries, names);
    let w = seq!["workspace"@];
    let wp = seq!["workspace"@, "package"@];
    let wpv = seq!["workspace"@, "package"@, "version"@];
    lemma_dep_slots(node, entries, names);
    lemma_at_two(node, "workspace"@, "package"@);
    lemma_at_three(node, "workspace"@, "package"@, "version"@);
    lemma_clear_of_slots(node, names, deps, w);
    lemma_clear_of_slots(node, names, deps, wp);
    lemma_clear_with_first(wpv, deps, w);
    lemma_clear_with_first(wpv, deps, wp);
    assert(all[0] == wpv);
    assert(data::at(node2, wpv) == Some(Node::Text(new)));
    assert(same_kind(node, node2, w));
    assert(same_kind(node, node2, wp));
    lemma_at_two(node2, "workspace"@, "package"@);
    lemma_at_three(node2, "workspace"@, "package"@, "version"@);
    assert(is_table_at(node, w) <==> is_table_at(node2, w));
    assert(is_table_at(node, wp) <==> is_table_at(node2, wp));
    let p = seq!["package"@];
    let pv = seq!["package"@, "version"@];
    reveal_strlit("package");
    reveal_strlit("workspace");
    assert("package"@.len() != "workspace"@.len());
    lemma_clear_of_slots(node, names, deps, p);
    lemma_clear_with_first(wpv, deps, p);
    assert(same_kind(node, node2, p));
    assert(is_table_at(node, p) <==> is_table_at(node2, p));
    assert forall|i: int| 0 <= i < deps.len() implies !toml::nested(#[trigger] deps[i], pv) by {
        assert(is_slot(node, names, deps[i]));
        toml::lemma_part(deps[i], pv, 0);
    }
    toml::lemma_part(wpv, pv, 0);
    lemma_off_way_too(wpv, deps, pv);
    lemma_at_two(node, "package"@, "version"@);
    lemma_at_two(node2, "package"@, "version"@);
}

/// The text of the manifest of a single package with a new version, `None` if
/// it has no `[package]`.
pub open spec fn package_changed(t: Seq<char>, entries: Entries, new: Seq<char>) -> Option<
    Seq<char>,
> {
    if data::table_in(entries, "package"@) is Some {
        Some(toml::toml_with(t, seq!["package"@, "version"@], new))
    } else {
        None
    }
}

/// Put a new version into the manifest of a single package. The version reads
/// back, and where it stands is decided as before.
pub fn rewrite_package(doc: &toml::Doc, new: &str) -> (r: Option<String>)
    ensures
        r.model() == package_changed(doc.model().0, doc.model().1, new@),
        r matches Some(t) ==> toml::entries_in(t@) matches Ok(after) && version_in(after) == Some(
            new@,
        ) && layout_of(after) == layout_of(doc.model().1),
{
    let t = doc.text();
    if let None = data::find_table(doc.entries(), "package") {
        return None;
    }
    let after = toml::put_two(t, "package", "version", new);
    proof {
        lemma_package_done(toml::toml_read(t@)->Ok_0, toml::toml_read(after@)->Ok_0, new@);
    }
    Some(after)
}

/// The manifest of a single package has the new version, and where it stands is
/// decided as before.
proof fn lemma_package_done(before: Node, after: Node, new: Seq<char>)
    requires
        before is Table,
        data::table_in(data::top(before), "package"@) is Some,
        toml::put_at(before, after, seq!["package"@, "version"@], new),
    ensures
        after is Table,
        version_in(data::top(after)) == Some(new),
        layout_of(data::top(after)) == layout_of(data::top(before)),
{
    toml::lemma_put_two(before, after, "package"@, "version"@, new);
    reveal_strlit("package");
    reveal_strlit("workspace");
    assert("package"@.len() != "workspace"@.len());
    assert(data::find(data::top(after), "workspace"@) == data::find(
        data::top(before),
        "workspace"@,
    ));
}

// ---------------------------------------------------------------------------
// What is written is what is read
// ---------------------------------------------------------------------------

proof fn lemma_with_some(t: Seq<char>, slots: Seq<Path>, n: int, new: Seq<char>)
    requires
        toml::is_faithful(),
        0 <= n <= slots.len(),
        toml::toml_read(t) matches Ok(node) && node is Table && have_ways(node, slots),
        apart(slots),
    ensures
        toml::toml_read(with_all(t, slots.take(n), new)) matches Ok(after) && puts_all(
            toml::toml_read(t)->Ok_0,
            after,
            slots.take(n),
            new,
        ) && forall|j: int| n <= j < slots.len() ==> toml::has_way(after, #[trigger] slots[j]),
    decreases n,
{
    if n > 0 {
        lemma_with_some(t, slots, n - 1, new);
        let start = toml::toml_read(t)->Ok_0;
        let had = slots.take(n - 1);
        let mid = with_all(t, had, new);
        assert(slots.take(n).drop_last() =~= had);
        assert(slots.take(n).last() == slots[n - 1]);
        let before = toml::toml_read(mid)->Ok_0;
        assert(toml::has_way(before, slots[n - 1]));
        let after = toml::toml_read(toml::toml_with(mid, slots[n - 1], new))->Ok_0;
        lemma_puts_next(start, before, after, slots, n - 1, new);
    } else {
        assert(slots.take(0) =~= Seq::empty());
    }
}

/// A manifest with a text in each of its slots reads as such.
pub proof fn lemma_with_all(t: Seq<char>, entries: Entries, slots: Seq<Path>, new: Seq<char>)
    requires
        toml::is_faithful(),
        toml::entries_in(t) == Ok::<Entries, Seq<char>>(entries),
        have_ways(Node::Table(entries), slots),
        apart(slots),
    ensures
        reads_changed(with_all(t, slots, new), entries, slots, new),
{
    lemma_with_some(t, slots, slots.len() as int, new);
    assert(slots.take(slots.len() as int) =~= slots);
}

/// The text of a manifest that gets the version itself has it, if there was one
/// before.
pub proof fn law_lockstep_reads_back(
    t: Seq<char>,
    entries: Entries,
    names: Set<Seq<char>>,
    new: Seq<char>,
)
    requires
        toml::is_faithful(),
        toml::entries_in(t) == Ok::<Entries, Seq<char>>(entries),
    ensures
        lockstep_changed(t, entries, names, new) matches Some(t2) ==> (toml::entries_in(
            t2,
        ) matches Ok(after) && layout_of(after) == layout_of(entries) && version_in(after) == (
        match version_in(entries) {
            Some(_) => Some(new),
            None => None,
        })),
{
    let slots = lockstep_slots(entries, names);
    lemma_lockstep_ready(entries, names);
    lemma_with_all(t, entries, slots, new);
    lemma_lockstep_done(entries, names, toml::toml_read(with_all(t, slots, new))->Ok_0, new);
}

/// The text of a manifest in which only dependencies change keeps the versions
/// and the layout.
pub proof fn law_dependencies_read_back(
    t: Seq<char>,
    entries: Entries,
    names: Set<Seq<char>>,
    new: Seq<char>,
)
    requires
        toml::is_faithful(),
        toml::entries_in(t) == Ok::<Entries, Seq<char>>(entries),
    ensures
        deps_changed(t, entries, names, new) matches Some(t2) ==> (toml::entries_in(t2) matches Ok(
            after,
        ) && layout_of(after) == layout_of(entries) && version_in(after) == version_in(entries)
            && shared_version_in(after) == shared_version_in(entries)),
{
    let slots = dep_slots(entries, names);
    lemma_deps_ready(entries, names);
    lemma_with_all(t, entries, slots, new);
    lemma_deps_done(entries, names, toml::toml_read(with_all(t, slots, new))->Ok_0, new);
}

/// The text of a manifest whose version members inherit has the new one.
pub proof fn law_shared_reads_back(
    t: Seq<char>,
    entries: Entries,
    names: Set<Seq<char>>,
    new: Seq<char>,
)
    requires
        toml::is_faithful(),
        toml::entries_in(t) == Ok::<Entries, Seq<char>>(entries),
        layout_of(entries) is WorkspacePackage,
    ensures
        reads_shared(with_all(t, shared_slots(entries, names), new), new),
        toml::entries_in(with_all(t, shared_slots(entries, names), new)) matches Ok(after)
            && version_in(after) == version_in(entries),
{
    let slots = shared_slots(entries, names);
    lemma_shared_ready(entries, names);
    lemma_with_all(t, entries, slots, new);
    lemma_shared_done(entries, names, toml::toml_read(with_all(t, slots, new))->Ok_0, new);
}

/// The text of the manifest of a single package has the new version.
pub proof fn law_package_reads_back(t: Seq<char>, entries: Entries, new: Seq<char>)
    requires
        toml::is_faithful(),
        toml::entries_in(t) == Ok::<Entries, Seq<char>>(entries),
    ensures
        package_changed(t, entries, new) matches Some(t2) ==> (toml::entries_in(t2) matches Ok(
            after,
        ) && version_in(after) == Some(new) && layout_of(after) == layout_of(entries)),
{
    if package_changed(t, entries, new) is Some {
        let node = toml::toml_read(t)->Ok_0;
        let slot = seq!["package"@, "version"@];
        toml::lemma_way_one(node, "package"@);
        toml::lemma_way_push(node, seq!["package"@], "version"@);
        assert(slot =~= seq!["package"@].push("version"@));
        let after = toml::toml_read(toml::toml_with(t, slot, new))->Ok_0;
        lemma_package_done(node, after, new);
    }
}

} // verus!
