//! The packages of a workspace, in the order in which they can be published.

use vstd::prelude::*;

use crate::graph;
use crate::session::Model;
use crate::text::copies;
use crate::text::put;
use crate::text::same;

verus! {

/// A package of a workspace.
pub struct Package {
    /// Where it is, relative to the project's directory.
    pub place: String,
    /// Its name. Nothing can depend on a package without one.
    pub name: Option<String>,
    /// The names of the packages that it depends on.
    pub intra_deps: Vec<String>,
}

/// A package as a mathematical value.
#[verifier::ext_equal]
pub struct PackageView {
    pub place: Seq<char>,
    pub name: Option<Seq<char>>,
    pub intra_deps: Set<Seq<char>>,
}

impl Model for Package {
    type M = PackageView;

    open spec fn model(&self) -> PackageView {
        PackageView {
            place: self.place@,
            name: self.name.model(),
            intra_deps: self.intra_deps.deep_view().to_set(),
        }
    }
}

impl Model for Vec<Package> {
    type M = Seq<PackageView>;

    open spec fn model(&self) -> Seq<PackageView> {
        Seq::new(self@.len(), |i: int| self@[i].model())
    }
}

/// The last package with this name.
pub open spec fn last_named(pkgs: Seq<PackageView>, name: Seq<char>) -> Option<int>
    decreases pkgs.len(),
{
    if pkgs.len() == 0 {
        None
    } else if pkgs.last().name == Some(name) {
        Some(pkgs.len() - 1)
    } else {
        last_named(pkgs.drop_last(), name)
    }
}

/// The package at `i` depends on the one at `j`: it names it among its
/// dependencies. `own` tells whether a package can depend on itself.
pub open spec fn depends(pkgs: Seq<PackageView>, own: bool, i: int, j: int) -> bool {
    &&& 0 <= j < pkgs.len()
    &&& pkgs[j].name matches Some(name) && pkgs[i].intra_deps.contains(name) && last_named(
        pkgs,
        name,
    ) == Some(j)
    &&& own || i != j
}

/// What each package depends on, by position.
pub open spec fn dependencies(pkgs: Seq<PackageView>, own: bool) -> Seq<Set<usize>> {
    Seq::new(pkgs.len(), |i: int| Set::new(|j: usize| depends(pkgs, own, i, j as int)))
}

/// How a package is called: by its name or, without one, by its place.
pub open spec fn label(pkg: PackageView) -> Seq<char> {
    match pkg.name {
        Some(name) => name,
        None => pkg.place,
    }
}

/// The packages, each after those that it depends on; or what those are called
/// for which that is impossible.
pub open spec fn publish_order(pkgs: Seq<PackageView>, own: bool) -> Result<
    Seq<PackageView>,
    Seq<Seq<char>>,
> {
    let deps = dependencies(pkgs, own);
    let stuck = graph::blocked_below(deps, pkgs.len() as int);
    if stuck.len() > 0 {
        Err(Seq::new(stuck.len(), |k: int| label(pkgs[stuck[k] as int])))
    } else {
        let order = graph::arrangement(deps);
        Ok(Seq::new(order.len(), |k: int| pkgs[order[k] as int]))
    }
}

/// All packages are in the order, none of them twice, and each comes after
/// every one that it depends on.
pub proof fn law_dependencies_come_first(pkgs: Seq<PackageView>, own: bool, p: int, j: usize)
    requires
        pkgs.len() <= usize::MAX,
        publish_order(pkgs, own) is Ok,
        0 <= p < pkgs.len(),
        depends(pkgs, own, graph::arrangement(dependencies(pkgs, own))[p] as int, j as int),
    ensures
        graph::arranges(dependencies(pkgs, own), graph::arrangement(dependencies(pkgs, own))),
        publish_order(pkgs, own) matches Ok(sorted) && sorted.len() == pkgs.len() && sorted.take(
            p,
        ).contains(pkgs[j as int]),
{
    let deps = dependencies(pkgs, own);
    let order = graph::arrangement(deps);
    let sorted = publish_order(pkgs, own)->Ok_0;
    graph::law_arrangement_exists(deps);
    assert(graph::complete(order, p, deps[order[p] as int]));
    assert(deps[order[p] as int].contains(j));
    let q = choose|q: int| 0 <= q < order.take(p).len() && order.take(p)[q] == j;
    assert(sorted.take(p)[q] == pkgs[j as int]);
}

proof fn lemma_last_named(pkgs: Seq<PackageView>, name: Seq<char>)
    ensures
        match last_named(pkgs, name) {
            Some(j) => 0 <= j < pkgs.len() && pkgs[j].name == Some(name),
            None => true,
        },
    decreases pkgs.len(),
{
    if pkgs.len() > 0 {
        lemma_last_named(pkgs.drop_last(), name);
    }
}

/// The package has this name.
fn is_named(pkg: &Package, name: &str) -> (r: bool)
    ensures
        r == (pkg.model().name == Some(name@)),
{
    match &pkg.name {
        Some(n) => same(n, name),
        None => false,
    }
}

/// The position of the last package with this name.
fn find_named(pkgs: &Vec<Package>, name: &str) -> (r: Option<usize>)
    ensures
        match r {
            Some(j) => last_named(pkgs.model(), name@) == Some(j as int),
            None => last_named(pkgs.model(), name@) is None,
        },
{
    let ghost all = pkgs.model();
    let mut i: usize = pkgs.len();
    assert(all.take(i as int) =~= all);
    while i > 0
        invariant
            i <= pkgs.len(),
            all == pkgs.model(),
            last_named(all, name@) == last_named(all.take(i as int), name@),
        decreases i,
    {
        i = i - 1;
        let ghost part = all.take(i + 1);
        assert(part.drop_last() =~= all.take(i as int));
        assert(part.last() == pkgs@[i as int].model());
        if is_named(&pkgs[i], name) {
            return Some(i);
        }
    }
    None
}

/// What one package depends on, by position.
fn positions(pkgs: &Vec<Package>, own: bool, i: usize) -> (r: Vec<usize>)
    requires
        i < pkgs.len(),
    ensures
        graph::distinct_below(pkgs@.len(), r@),
        r@.to_set() == dependencies(pkgs.model(), own)[i as int],
{
    let ghost all = pkgs.model();
    let mut out: Vec<usize> = Vec::new();
    let wanted = &pkgs[i].intra_deps;
    let mut k: usize = 0;
    while k < wanted.len()
        invariant
            i < pkgs.len(),
            all == pkgs.model(),
            wanted == pkgs@[i as int].intra_deps,
            k <= wanted.len(),
            graph::distinct_below(pkgs@.len(), out@),
            forall|j: usize| #[trigger]
                out@.contains(j) <==> (own || j != i) && exists|m: int|
                    0 <= m < k && last_named(all, #[trigger] wanted.deep_view()[m]) == Some(
                        j as int,
                    ),
        decreases wanted.len() - k,
    {
        let ghost before = out@;
        let ghost names = wanted.deep_view();
        assert(names[k as int] == wanted@[k as int]@);
        proof {
            lemma_last_named(all, names[k as int]);
        }
        let found = find_named(pkgs, &wanted[k]);
        if let Some(j) = found {
            if (own || j != i) && !graph::holds(&out, j) {
                out.push(j);
                proof {
                    assert(out@[before.len() as int] == j);
                    assert forall|x: usize| x != j implies (before.contains(x)
                        <==> #[trigger] out@.contains(x)) by {
                        if before.contains(x) {
                            let p = choose|p: int| 0 <= p < before.len() && before[p] == x;
                            assert(out@[p] == x);
                        }
                        if out@.contains(x) {
                            let p = choose|p: int| 0 <= p < out@.len() && out@[p] == x;
                            assert(before[p] == x);
                        }
                    }
                }
            }
        }
        proof {
            assert forall|j: usize| #[trigger] out@.contains(j) implies (own || j != i)
                && exists|m: int|
                0 <= m < k + 1 && last_named(all, #[trigger] names[m]) == Some(j as int) by {
                if before.contains(j) {
                    let m = choose|m: int|
                        0 <= m < k && last_named(all, #[trigger] names[m]) == Some(j as int);
                    assert(last_named(all, names[m]) == Some(j as int));
                } else {
                    assert(last_named(all, names[k as int]) == Some(j as int));
                }
            }
            assert forall|j: usize, m: int|
                (own || j != i) && 0 <= m < k + 1 && last_named(all, #[trigger] names[m]) == Some(
                    j as int,
                ) implies #[trigger] out@.contains(j) by {
                if m < k {
                    assert(before.contains(j));
                }
            }
        }
        k = k + 1;
    }
    proof {
        let want = dependencies(all, own)[i as int];
        let names = wanted.deep_view();
        assert forall|j: usize| out@.to_set().contains(j) <==> #[trigger] want.contains(j) by {
            if out@.contains(j) {
                let m = choose|m: int|
                    0 <= m < names.len() && last_named(all, #[trigger] names[m]) == Some(j as int);
                lemma_last_named(all, names[m]);
                assert(names.contains(names[m]));
            }
            if want.contains(j) {
                let name = all[j as int].name->0;
                assert(names.to_set().contains(name));
                let m = choose|m: int| 0 <= m < names.len() && names[m] == name;
                assert(last_named(all, names[m]) == Some(j as int));
            }
        }
        assert(out@.to_set() =~= want);
    }
    out
}

/// How a package is called.
fn label_of(pkg: &Package) -> (r: String)
    ensures
        r@ == label(pkg.model()),
{
    match &pkg.name {
        Some(name) => name.clone(),
        None => pkg.place.clone(),
    }
}

/// A package of the same kind.
fn copy_of(pkg: &Package) -> (r: Package)
    ensures
        r.model() == pkg.model(),
{
    let name = match &pkg.name {
        Some(name) => Some(name.clone()),
        None => None,
    };
    Package { place: pkg.place.clone(), name, intra_deps: copies(&pkg.intra_deps) }
}

/// Order packages so that each comes after those that it depends on. Only the
/// names of packages in the list constrain the order. If there is a cycle, the
/// result is what those are called that it concerns.
pub fn sort_packages(pkgs: &Vec<Package>, own: bool) -> (r: Result<Vec<Package>, Vec<String>>)
    ensures
        match r {
            Ok(sorted) => publish_order(pkgs.model(), own) == Ok::<
                Seq<PackageView>,
                Seq<Seq<char>>,
            >(sorted.model()),
            Err(stuck) => publish_order(pkgs.model(), own) == Err::<
                Seq<PackageView>,
                Seq<Seq<char>>,
            >(stuck.deep_view()),
        },
        r is Ok ==> graph::arranges(
            dependencies(pkgs.model(), own),
            graph::arrangement(dependencies(pkgs.model(), own)),
        ),
        r matches Err(stuck) ==> stuck.len() > 0,
{
    let ghost all = pkgs.model();
    let mut deps: Vec<Vec<usize>> = Vec::new();
    let mut i: usize = 0;
    while i < pkgs.len()
        invariant
            i <= pkgs.len(),
            all == pkgs.model(),
            deps.len() == i,
            forall|v: int|
                0 <= v < i ==> graph::distinct_below(pkgs@.len(), #[trigger] deps@[v]@)
                    && deps@[v]@.to_set() == dependencies(all, own)[v],
        decreases pkgs.len() - i,
    {
        let list = positions(pkgs, own, i);
        deps.push(list);
        i = i + 1;
    }
    proof {
        assert forall|v: int| 0 <= v < graph::lists(deps).len() implies graph::distinct_below(
            graph::lists(deps).len(),
            #[trigger] graph::lists(deps)[v],
        ) by {
            assert(graph::lists(deps)[v] == deps@[v]@);
        }
        assert forall|v: int| 0 <= v < deps@.len() implies #[trigger] graph::sets(
            graph::lists(deps),
        )[v] == dependencies(all, own)[v] by {
            assert(graph::lists(deps)[v] == deps@[v]@);
        }
        assert(graph::sets(graph::lists(deps)) =~= dependencies(all, own));
    }
    match graph::arrange(&deps) {
        Ok(order) => {
            let mut sorted: Vec<Package> = Vec::new();
            let mut k: usize = 0;
            while k < order.len()
                invariant
                    all == pkgs.model(),
                    k <= order.len(),
                    graph::distinct_below(pkgs@.len(), order@),
                    sorted.len() == k,
                    forall|x: int|
                        0 <= x < k ==> (#[trigger] sorted@[x]).model() == all[order@[x] as int],
                decreases order.len() - k,
            {
                sorted.push(copy_of(&pkgs[order[k]]));
                k = k + 1;
            }
            assert(sorted.model() =~= Seq::new(order@.len(), |k: int| all[order@[k] as int]));
            Ok(sorted)
        },
        Err(stuck) => {
            let mut labels: Vec<String> = Vec::new();
            let mut k: usize = 0;
            proof {
                lemma_blocked_below_bound(dependencies(all, own), all.len() as int);
            }
            assert(labels.deep_view() =~= Seq::empty());
            while k < stuck.len()
                invariant
                    all == pkgs.model(),
                    k <= stuck.len(),
                    forall|x: int| 0 <= x < stuck.len() ==> (#[trigger] stuck@[x]) < pkgs.len(),
                    labels.deep_view() == Seq::new(k as nat, |x: int| label(all[stuck@[x] as int])),
                decreases stuck.len() - k,
            {
                let ghost before = labels.deep_view();
                put(&mut labels, label_of(&pkgs[stuck[k]]));
                k = k + 1;
                assert(labels.deep_view() =~= Seq::new(
                    k as nat,
                    |x: int| label(all[stuck@[x] as int]),
                ));
            }
            Err(labels)
        },
    }
}

proof fn lemma_blocked_below_bound(deps: Seq<Set<usize>>, n: int)
    requires
        n <= usize::MAX,
    ensures
        forall|x: int|
            0 <= x < graph::blocked_below(deps, n).len() ==> (#[trigger] graph::blocked_below(
                deps,
                n,
            )[x]) < n,
    decreases n,
{
    if n > 0 {
        lemma_blocked_below_bound(deps, n - 1);
        let less = graph::blocked_below(deps, n - 1);
        assert forall|x: int| 0 <= x < graph::blocked_below(deps, n).len() implies (
        #[trigger] graph::blocked_below(deps, n)[x]) < n by {
            if x < less.len() {
                assert(less[x] < n - 1);
            }
        }
    }
}

/// The list has each of the numbers below `n` once.
pub open spec fn permutes(order: Seq<usize>, n: nat) -> bool {
    &&& order.len() == n
    &&& order.no_duplicates()
    &&& forall|k: int| 0 <= k < n ==> (#[trigger] order[k]) < n
}

/// The package at `j` is the last one with its name.
pub open spec fn is_last_named(pkgs: Seq<PackageView>, j: int) -> bool {
    &&& 0 <= j < pkgs.len()
    &&& pkgs[j].name is Some
    &&& forall|k: int| j < k < pkgs.len() ==> (#[trigger] pkgs[k]).name != pkgs[j].name
}

proof fn lemma_is_last_named(pkgs: Seq<PackageView>, j: int)
    requires
        is_last_named(pkgs, j),
    ensures
        last_named(pkgs, pkgs[j].name->0) == Some(j),
    decreases pkgs.len(),
{
    if j < pkgs.len() - 1 {
        let fewer = pkgs.drop_last();
        assert(pkgs[pkgs.len() - 1].name != pkgs[j].name);
        assert(is_last_named(fewer, j)) by {
            assert forall|k: int| j < k < fewer.len() implies (#[trigger] fewer[k]).name
                != fewer[j].name by {
                assert(pkgs[k].name != pkgs[j].name);
            }
        }
        lemma_is_last_named(fewer, j);
    }
}

/// Packages that can be ordered are all in the order, each once, and one that
/// names another among its dependencies comes behind it. Of packages with the
/// same name the last one is meant.
pub proof fn law_order_is_sound(pkgs: Seq<PackageView>, own: bool) -> (order: Seq<usize>)
    requires
        pkgs.len() <= usize::MAX,
        publish_order(pkgs, own) is Ok,
    ensures
        permutes(order, pkgs.len()),
        publish_order(pkgs, own)->Ok_0 == Seq::new(order.len(), |k: int| pkgs[order[k] as int]),
        forall|p: int, q: int|
            #![trigger order[p], order[q]]
            0 <= p < order.len() && 0 <= q < order.len() && p != q && is_last_named(
                pkgs,
                order[q] as int,
            ) && pkgs[order[p] as int].intra_deps.contains(pkgs[order[q] as int].name->0) ==> q < p,
{
    let deps = dependencies(pkgs, own);
    let order = graph::arrangement(deps);
    graph::law_arrangement_exists(deps);
    assert forall|p: int, q: int|
        #![trigger order[p], order[q]]
        0 <= p < order.len() && 0 <= q < order.len() && p != q && is_last_named(
            pkgs,
            order[q] as int,
        ) && pkgs[order[p] as int].intra_deps.contains(pkgs[order[q] as int].name->0) implies q
        < p by {
        let (i, j) = (order[p] as int, order[q] as int);
        lemma_is_last_named(pkgs, j);
        assert(i != j);
        assert(depends(pkgs, own, i, j));
        assert(deps[i].contains(order[q]));
        assert(graph::complete(order, p, deps[order[p] as int]));
        let k = choose|k: int| 0 <= k < order.take(p).len() && order.take(p)[k] == order[q];
        assert(order[k] == order[q]);
    }
    order
}

/// The package at `i` names the one at `j` among its dependencies. `own` tells
/// whether that can be itself.
pub open spec fn waits_for(pkgs: Seq<PackageView>, own: bool, i: int, j: int) -> bool {
    (own || i != j) && is_last_named(pkgs, j) && pkgs[i].intra_deps.contains(pkgs[j].name->0)
}

/// The package at `i` names one of `s` among its dependencies.
pub open spec fn waits_for_some(
    pkgs: Seq<PackageView>,
    own: bool,
    i: int,
    s: Set<int>,
) -> bool {
    exists|j: int| s.contains(j) && #[trigger] waits_for(pkgs, own, i, j)
}

/// Packages that stand in each other's way: each of them names one of them among
/// its dependencies.
pub open spec fn in_circles(pkgs: Seq<PackageView>, own: bool, s: Set<int>) -> bool {
    forall|i: int|
        s.contains(i) ==> 0 <= i < pkgs.len() && #[trigger] waits_for_some(pkgs, own, i, s)
}

/// The package is called `name`, by its name or, without one, by its place.
pub open spec fn goes_by(pkg: PackageView, name: Seq<char>) -> bool {
    match pkg.name {
        Some(own) => name == own,
        None => name == pkg.place,
    }
}

proof fn lemma_listed(deps: Seq<Set<usize>>, n: int)
    requires
        0 <= n <= usize::MAX,
    ensures
        forall|v: int|
            0 <= v < n && #[trigger] graph::blocked(deps, v) ==> graph::blocked_below(
                deps,
                n,
            ).contains(v as usize),
        forall|k: int|
            0 <= k < graph::blocked_below(deps, n).len() ==> graph::blocked(
                deps,
                #[trigger] graph::blocked_below(deps, n)[k] as int,
            ) && graph::blocked_below(deps, n)[k] < n,
    decreases n,
{
    if n > 0 {
        lemma_listed(deps, n - 1);
        let fewer = graph::blocked_below(deps, n - 1);
        let all = graph::blocked_below(deps, n);
        assert forall|v: int| 0 <= v < n && #[trigger] graph::blocked(
            deps,
            v,
        ) implies all.contains(v as usize) by {
            if v == n - 1 {
                assert(all[fewer.len() as int] == v as usize);
            } else {
                let k = choose|k: int| 0 <= k < fewer.len() && fewer[k] == v as usize;
                assert(all[k] == v as usize);
            }
        }
    }
}

proof fn lemma_waits(pkgs: Seq<PackageView>, own: bool, i: int, j: int)
    requires
        pkgs.len() <= usize::MAX,
        0 <= i < pkgs.len(),
        waits_for(pkgs, own, i, j),
    ensures
        graph::needs(dependencies(pkgs, own), i, j),
{
    lemma_is_last_named(pkgs, j);
    assert(depends(pkgs, own, i, j));
    assert(dependencies(pkgs, own)[i].contains(j as usize));
}

/// Packages that stand in each other's way cannot be ordered, and the error
/// tells what each of them is called.
pub proof fn law_circles_are_told(pkgs: Seq<PackageView>, own: bool, s: Set<int>, i: int)
    requires
        pkgs.len() <= usize::MAX,
        in_circles(pkgs, own, s),
        s.contains(i),
    ensures
        publish_order(pkgs, own) matches Err(names) && exists|k: int|
            0 <= k < names.len() && goes_by(pkgs[i], #[trigger] names[k]),
{
    let deps = dependencies(pkgs, own);
    assert forall|v: int| s.contains(v) implies #[trigger] graph::needs_some(deps, v, s) by {
        assert(waits_for_some(pkgs, own, v, s));
        let j = choose|j: int| s.contains(j) && #[trigger] waits_for(pkgs, own, v, j);
        lemma_waits(pkgs, own, v, j);
        assert(graph::needs(deps, v, j));
    }
    assert(graph::circular(deps, s));
    assert(graph::blocked(deps, i));
    assert(waits_for_some(pkgs, own, i, s));
    let stuck = graph::blocked_below(deps, pkgs.len() as int);
    lemma_listed(deps, pkgs.len() as int);
    assert(stuck.contains(i as usize));
    let k = choose|k: int| 0 <= k < stuck.len() && stuck[k] == i as usize;
    let names = publish_order(pkgs, own)->Err_0;
    assert(goes_by(pkgs[i], names[k]));
}

} // verus!
