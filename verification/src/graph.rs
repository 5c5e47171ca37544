use vstd::prelude::*;
use vstd::string::StringExecFns;

use crate::appmap::AppMap;
use crate::appmap::contains_name;
use crate::appmap::idx_of;
use crate::appmap::lemma_idx_of_unique;
use crate::appmap::unique_names;
use crate::config::AppView;
use crate::config::DepView;
use crate::config::Dependency;
use crate::error::YethError;
use crate::fstree::FsEntryView;
use crate::fstree::FsSnapshot;
use crate::fstree::contains_path;

verus! {

/// One dependency declaration is invalid when an application edge names an
/// application absent from the map, or a path edge names a path absent
/// from the snapshot.
pub open spec fn dep_invalid(apps: Seq<AppView>, fs: Seq<FsEntryView>, d: DepView) -> bool {
    match d {
        DepView::App(n) => !contains_name(apps, n),
        DepView::Path(p) => !contains_path(fs, p),
    }
}

/// Every dependency of every application is valid.
pub open spec fn deps_valid(apps: Seq<AppView>, fs: Seq<FsEntryView>) -> bool {
    forall|i: int, k: int|
        0 <= i < apps.len() && 0 <= k < apps[i].dependencies.len() ==> !dep_invalid(
            apps,
            fs,
            #[trigger] apps[i].dependencies[k],
        )
}

/// Validation walks the applications in map order and each application's
/// declarations in order; this says that it stops at `(i, k)`.
pub open spec fn first_invalid_at(apps: Seq<AppView>, fs: Seq<FsEntryView>, i: int, k: int) -> bool {
    &&& 0 <= i < apps.len()
    &&& 0 <= k < apps[i].dependencies.len()
    &&& dep_invalid(apps, fs, apps[i].dependencies[k])
    &&& forall|i2: int, k2: int|
        0 <= i2 < i && 0 <= k2 < apps[i2].dependencies.len() ==> !dep_invalid(
            apps,
            fs,
            #[trigger] apps[i2].dependencies[k2],
        )
    &&& forall|k2: int|
        0 <= k2 < k ==> !dep_invalid(apps, fs, #[trigger] apps[i].dependencies[k2])
}

/// The application at index `v` depends on the one at index `u` through an
/// application edge.
pub open spec fn depends_on(apps: Seq<AppView>, v: int, u: int) -> bool {
    &&& 0 <= v < apps.len()
    &&& 0 <= u < apps.len()
    &&& exists|k: int|
        0 <= k < apps[v].dependencies.len() && #[trigger] apps[v].dependencies[k] == DepView::App(
            apps[u].name,
        )
}

/// A dependency cycle: each application depends on the next, and the last
/// depends on the first.
pub open spec fn is_cycle(apps: Seq<AppView>, c: Seq<int>) -> bool {
    &&& c.len() > 0
    &&& forall|j: int| 0 <= j < c.len() - 1 ==> depends_on(apps, #[trigger] c[j], c[j + 1])
    &&& depends_on(apps, c[c.len() - 1], c[0])
}

/// The application-to-application dependency graph contains a cycle.
pub open spec fn has_cycle(apps: Seq<AppView>) -> bool {
    exists|c: Seq<int>| is_cycle(apps, c)
}

/// Dependencies come before dependents: wherever `v` depends on `u`, the
/// name of `u` stands before the name of `v` in the order.
pub open spec fn respects_deps(apps: Seq<AppView>, order: Seq<Seq<char>>) -> bool {
    forall|v: int, u: int|
        #[trigger] depends_on(apps, v, u) ==> order.index_of(apps[u].name) < order.index_of(
            apps[v].name,
        )
}

/// An order that respects the dependency edges rules out any cycle.
pub proof fn lemma_respects_deps_acyclic(apps: Seq<AppView>, order: Seq<Seq<char>>)
    requires
        respects_deps(apps, order),
    ensures
        !has_cycle(apps),
{
    if has_cycle(apps) {
        let c = choose|c: Seq<int>| is_cycle(apps, c);
        lemma_cycle_positions(apps, order, c, c.len() - 1);
        assert(depends_on(apps, c[c.len() - 1], c[0]));
        assert(order.index_of(apps[c[0] as int].name) < order.index_of(
            apps[c[c.len() - 1] as int].name,
        ));
    }
}

/// Along a cycle the position of each name drops by at least one per step,
/// which is what makes a full order impossible.
proof fn lemma_cycle_positions(apps: Seq<AppView>, order: Seq<Seq<char>>, c: Seq<int>, j: int)
    requires
        respects_deps(apps, order),
        is_cycle(apps, c),
        0 <= j < c.len(),
    ensures
        order.index_of(apps[c[j] as int].name) <= order.index_of(apps[c[0] as int].name) - j,
    decreases j,
{
    if j > 0 {
        lemma_cycle_positions(apps, order, c, j - 1);
        assert(depends_on(apps, c[j - 1], c[j]));
        assert(order.index_of(apps[c[j] as int].name) < order.index_of(
            apps[c[j - 1] as int].name,
        ));
    }
}

/// Whether a declaration is an application edge, as a relation value.
pub open spec fn dep_is_app_fn() -> spec_fn(DepView) -> bool {
    |d: DepView| d is App
}

/// The map index that an application edge resolves to, as a function
/// value.
pub open spec fn dep_to_idx_fn(apps: Seq<AppView>) -> spec_fn(DepView) -> int {
    |d: DepView| idx_of(apps, d->App_0)
}

/// The indices of an application's application dependencies, with
/// multiplicity, in declaration order.
pub open spec fn dep_indices(apps: Seq<AppView>, v: int) -> Seq<int> {
    apps[v].dependencies.filter(dep_is_app_fn()).map_values(dep_to_idx_fn(apps))
}

/// Under unique names and validated declarations, the dependency index
/// list names exactly the applications that `v` depends on.
proof fn lemma_dep_indices_characterize(apps: Seq<AppView>, fs: Seq<FsEntryView>, v: int, u: int)
    requires
        unique_names(apps),
        0 <= v < apps.len(),
        forall|k: int|
            0 <= k < apps[v].dependencies.len() ==> !dep_invalid(
                apps,
                fs,
                #[trigger] apps[v].dependencies[k],
            ),
    ensures
        dep_indices(apps, v).contains(u) <==> depends_on(apps, v, u),
{
    let is_app = dep_is_app_fn();
    let to_idx = dep_to_idx_fn(apps);
    let filtered = apps[v].dependencies.filter(is_app);
    if dep_indices(apps, v).contains(u) {
        let j = choose|j: int| 0 <= j < dep_indices(apps, v).len() && dep_indices(apps, v)[j] == u;
        assert(is_app(filtered[j]) && to_idx(filtered[j]) == u) by {
            apps[v].dependencies.lemma_filter_pred(is_app, j);
        }
        crate::sequtil::lemma_filter_elem_from(apps[v].dependencies, is_app, j);
        let k = choose|k: int|
            0 <= k < apps[v].dependencies.len() && apps[v].dependencies[k] == filtered[j] && is_app(
                #[trigger] apps[v].dependencies[k],
            );
        let name = filtered[j]->App_0;
        assert(!dep_invalid(apps, fs, apps[v].dependencies[k]));
        assert(contains_name(apps, name));
        let w = idx_of(apps, name);
        assert(0 <= w < apps.len() && apps[w].name == name);
        assert(w == u);
        assert(apps[v].dependencies[k] == DepView::App(apps[u].name));
        assert(depends_on(apps, v, u));
    }
    if depends_on(apps, v, u) {
        let k = choose|k: int|
            0 <= k < apps[v].dependencies.len() && #[trigger] apps[v].dependencies[k]
                == DepView::App(apps[u].name);
        assert(is_app(apps[v].dependencies[k]));
        apps[v].dependencies.lemma_filter_contains(is_app, k);
        let d = apps[v].dependencies[k];
        let j = choose|j: int| 0 <= j < filtered.len() && filtered[j] == d;
        lemma_idx_of_unique(apps, apps[u].name, u);
        assert(to_idx(d) == u);
        assert(dep_indices(apps, v)[j] == u);
        assert(dep_indices(apps, v).contains(u));
    }
}

/// The integer values of a sequence of indices.
spec fn to_ints(s: Seq<usize>) -> Seq<int> {
    s.map_values(|x: usize| x as int)
}

/// Tests whether every listed index is marked.
fn all_marked(dlist: &Vec<usize>, done: &Vec<bool>) -> (r: bool)
    requires
        forall|k: int| 0 <= k < dlist@.len() ==> (#[trigger] dlist@[k]) < done@.len(),
    ensures
        r == (forall|k: int| 0 <= k < dlist@.len() ==> done@[#[trigger] dlist@[k] as int]),
{
    let n = dlist.len();
    let mut k: usize = 0;
    while k < n
        invariant
            0 <= k <= n,
            n == dlist@.len(),
            forall|k2: int| 0 <= k2 < dlist@.len() ==> (#[trigger] dlist@[k2]) < done@.len(),
            forall|k2: int| 0 <= k2 < k ==> done@[#[trigger] dlist@[k2] as int],
        decreases n - k,
    {
        if !done[dlist[k]] {
            return false;
        }
        k = k + 1;
    }
    true
}

/// Builds a chain of given length through applications that all still wait
/// on another waiting application: each element depends on the next.
proof fn lemma_build_chain(apps: Seq<AppView>, blocked: Set<int>, v0: int, m: nat) -> (c: Seq<int>)
    requires
        blocked.contains(v0),
        forall|v: int| #[trigger] blocked.contains(v) ==> 0 <= v < apps.len(),
        forall|v: int|
            #[trigger] blocked.contains(v) ==> exists|u: int|
                blocked.contains(u) && depends_on(apps, v, u),
    ensures
        c.len() == m + 1,
        c[0] == v0,
        forall|j: int| 0 <= j < c.len() ==> blocked.contains(#[trigger] c[j]),
        forall|j: int| 0 <= j < c.len() - 1 ==> depends_on(apps, #[trigger] c[j], c[j + 1]),
    decreases m,
{
    if m == 0 {
        let c = seq![v0];
        c
    } else {
        let u = choose|u: int| blocked.contains(u) && depends_on(apps, v0, u);
        let rest = lemma_build_chain(apps, blocked, u, (m - 1) as nat);
        let c = seq![v0] + rest;
        assert(c[0] == v0);
        assert forall|j: int| 0 <= j < c.len() - 1 implies depends_on(
            apps,
            #[trigger] c[j],
            c[j + 1],
        ) by {
            if j == 0 {
                assert(c[1] == rest[0]);
            } else {
                assert(c[j] == rest[j - 1]);
                assert(c[j + 1] == rest[j]);
            }
        }
        c
    }
}

/// When every waiting application depends on another waiting application,
/// the graph has a cycle.
proof fn lemma_blocked_implies_cycle(apps: Seq<AppView>, blocked: Set<int>, v0: int)
    requires
        blocked.contains(v0),
        forall|v: int| #[trigger] blocked.contains(v) ==> 0 <= v < apps.len(),
        forall|v: int|
            #[trigger] blocked.contains(v) ==> exists|u: int|
                blocked.contains(u) && depends_on(apps, v, u),
    ensures
        has_cycle(apps),
{
    let n = apps.len() as int;
    let c = lemma_build_chain(apps, blocked, v0, n as nat);
    // a chain of n + 1 nodes out of n must revisit one
    assert(exists|a: int, b: int| 0 <= a < b < c.len() && c[a] == c[b]) by {
        if forall|a: int, b: int| 0 <= a < b < c.len() ==> c[a] != c[b] {
            assert(c.no_duplicates()) by {
                assert forall|a: int, b: int|
                    0 <= a < c.len() && 0 <= b < c.len() && a != b implies c[a] != c[b] by {
                    if a < b {
                        assert(c[a] != c[b]);
                    } else {
                        assert(c[b] != c[a]);
                    }
                }
            }
            assert forall|j: int| 0 <= j < c.len() implies 0 <= #[trigger] c[j] < n by {
                assert(blocked.contains(c[j]));
            }
            crate::sequtil::lemma_distinct_bounded(c, n);
        }
    }
    let (a, b) = choose|a: int, b: int| 0 <= a < b < c.len() && c[a] == c[b];
    let cyc = c.subrange(a, b);
    assert(cyc.len() == b - a > 0);
    assert forall|j: int| 0 <= j < cyc.len() - 1 implies depends_on(
        apps,
        #[trigger] cyc[j],
        cyc[j + 1],
    ) by {
        assert(cyc[j] == c[a + j]);
        assert(cyc[j + 1] == c[a + j + 1]);
        assert(depends_on(apps, c[a + j], c[a + j + 1]));
    }
    assert(depends_on(apps, cyc[cyc.len() - 1], cyc[0])) by {
        assert(cyc[cyc.len() - 1] == c[b - 1]);
        assert(depends_on(apps, c[b - 1], c[b]));
        assert(cyc[0] == c[a]);
        assert(c[a] == c[b]);
    }
    assert(is_cycle(apps, cyc));
}

/// Builds the application dependency graph and returns a topologically
/// sorted list of names. Every application edge must name an application
/// of the map and every path edge an existing path; the order then exists
/// exactly when the application edges form no cycle, and it lists every
/// application once, dependencies first. Among applications that are
/// ready at the same time the one inserted into the map first is placed
/// first, so the output is reproducible.
#[verifier::loop_isolation(false)]
#[verifier::rlimit(60)]
pub fn topological_sort(apps: &AppMap, fs: &FsSnapshot) -> (r: Result<Vec<String>, YethError>)
    requires
        apps.wf(),
        fs.wf(),
    ensures
        (r is Ok) == (deps_valid(apps@, fs@) && !has_cycle(apps@)),
        match r {
            Ok(order) => {
                &&& order.deep_view().len() == apps@.len()
                &&& order.deep_view().no_duplicates()
                &&& forall|x: Seq<char>|
                    #[trigger] order.deep_view().contains(x) <==> contains_name(apps@, x)
                &&& respects_deps(apps@, order.deep_view())
            },
            Err(e) => match e {
                YethError::CircularDependency => deps_valid(apps@, fs@) && has_cycle(apps@),
                YethError::DependencyNotFound(d, o) => exists|i: int, k: int|
                    first_invalid_at(apps@, fs@, i, k) && #[trigger] apps@[i].dependencies[k]
                        == DepView::App(d@) && o@ == apps@[i].name,
                YethError::PathDependencyNotFound(p, o) => exists|i: int, k: int|
                    first_invalid_at(apps@, fs@, i, k) && #[trigger] apps@[i].dependencies[k]
                        == DepView::Path(p@) && o@ == apps@[i].name,
                _ => false,
            },
        },
{
    let ghost is_app = dep_is_app_fn();
    let ghost to_idx = dep_to_idx_fn(apps@);
    let n = apps.len();
    // validate every declaration and resolve application edges to indices
    let mut dep_idx: Vec<Vec<usize>> = Vec::new();
    let mut i: usize = 0;
    while i < n
        invariant
            0 <= i <= n,
            dep_idx@.len() == i,
            forall|v: int| 0 <= v < i ==> to_ints((#[trigger] dep_idx@[v])@) == dep_indices(
                apps@,
                v,
            ),
            forall|v: int, k: int|
                0 <= v < i && 0 <= k < apps@[v].dependencies.len() ==> !dep_invalid(
                    apps@,
                    fs@,
                    #[trigger] apps@[v].dependencies[k],
                ),
        decreases n - i,
    {
        let app = apps.get_at(i);
        let ghost deps = apps@[i as int].dependencies;
        let m = app.dependencies.len();
        let mut dlist: Vec<usize> = Vec::new();
        let mut k: usize = 0;
        proof {
            assert(deps.take(0) =~= Seq::<DepView>::empty());
            assert(to_ints(dlist@) =~= deps.take(0).filter(is_app).map_values(to_idx));
        }
        while k < m
            invariant
                0 <= k <= m,
                to_ints(dlist@) == deps.take(k as int).filter(is_app).map_values(to_idx),
                forall|k2: int|
                    0 <= k2 < k ==> !dep_invalid(apps@, fs@, #[trigger] deps[k2]),
            decreases m - k,
        {
            proof {
                assert(app.dependencies.deep_view()[k as int] == app.dependencies[k as int]@);
                assert(deps[k as int] == app.dependencies[k as int]@);
                assert(deps.take(k as int + 1) =~= deps.take(k as int).push(deps[k as int]));
                crate::sequtil::lemma_filter_push(deps.take(k as int), deps[k as int], is_app);
            }
            match &app.dependencies[k] {
                Dependency::App(name) => {
                    match apps.find_index(name.as_str()) {
                        Some(j) => {
                            let ghost pre = dlist@;
                            dlist.push(j);
                            proof {
                                assert(to_ints(dlist@) =~= to_ints(pre).push(j as int));
                                assert(deps[k as int] == DepView::App(name@));
                                assert(to_idx(deps[k as int]) == j as int);
                                assert(deps.take(k as int + 1).filter(is_app) == deps.take(
                                    k as int,
                                ).filter(is_app).push(deps[k as int]));
                                assert(deps.take(k as int).filter(is_app).push(
                                    deps[k as int],
                                ).map_values(to_idx) =~= deps.take(k as int).filter(
                                    is_app,
                                ).map_values(to_idx).push(to_idx(deps[k as int])));
                                assert(deps.take(k as int + 1).filter(is_app).map_values(to_idx)
                                    =~= to_ints(dlist@));
                            }
                        },
                        None => {
                            proof {
                                assert(dep_invalid(apps@, fs@, deps[k as int]));
                                assert(first_invalid_at(apps@, fs@, i as int, k as int));
                            }
                            return Err(
                                YethError::DependencyNotFound(name.clone(), app.name.clone()),
                            );
                        },
                    }
                },
                Dependency::Path(p) => {
                    if !fs.path_exists(p.as_str()) {
                        proof {
                            assert(deps[k as int] == DepView::Path(p@));
                            assert(dep_invalid(apps@, fs@, deps[k as int]));
                            assert(first_invalid_at(apps@, fs@, i as int, k as int));
                        }
                        return Err(YethError::PathDependencyNotFound(p.clone(), app.name.clone()));
                    }
                    proof {
                        assert(!is_app(deps[k as int]));
                        assert(deps.take(k as int + 1).filter(is_app) == deps.take(k as int).filter(
                            is_app,
                        ));
                        assert(deps.take(k as int + 1).filter(is_app).map_values(to_idx)
                            =~= to_ints(dlist@));
                    }
                },
            }
            k = k + 1;
        }
        let ghost pre_di = dep_idx@;
        let ghost dl = dlist@;
        dep_idx.push(dlist);
        proof {
            assert(dep_idx@ =~= pre_di.push(dep_idx@[i as int]));
            assert(dep_idx@[i as int]@ == dl);
            assert(deps.take(m as int) =~= deps);
            assert(to_ints(dep_idx@[i as int]@) == dep_indices(apps@, i as int));
        }
        i = i + 1;
    }
    proof {
        assert(deps_valid(apps@, fs@));
        // every listed dependency index is in range
        assert forall|v: int, k: int|
            0 <= v < n && 0 <= k < dep_idx@[v]@.len() implies (#[trigger] dep_idx@[v]@[k])
            < n by {
            assert(to_ints(dep_idx@[v]@)[k] == dep_idx@[v]@[k] as int);
            assert(dep_indices(apps@, v).contains(dep_idx@[v]@[k] as int));
            lemma_dep_indices_characterize(apps@, fs@, v, dep_idx@[v]@[k] as int);
        }
    }
    // repeatedly place an application whose dependencies are all placed
    let mut done: Vec<bool> = Vec::new();
    let mut q: usize = 0;
    while q < n
        invariant
            0 <= q <= n,
            done@.len() == q,
            forall|v: int| 0 <= v < q ==> !(#[trigger] done@[v]),
        decreases n - q,
    {
        done.push(false);
        q = q + 1;
    }
    let mut order: Vec<usize> = Vec::new();
    loop
        invariant
            done@.len() == n,
            to_ints(order@).no_duplicates(),
            forall|j: int| 0 <= j < order@.len() ==> (#[trigger] order@[j]) < n,
            forall|v: int| 0 <= v < n ==> (#[trigger] done@[v]) == to_ints(order@).contains(v),
            forall|j: int, u: int|
                0 <= j < order@.len() && #[trigger] depends_on(apps@, order@[j] as int, u)
                    ==> exists|j2: int| 0 <= j2 < j && order@[j2] == u,
        decreases n - order@.len(),
    {
        let mut picked: usize = n;
        let mut v: usize = 0;
        while v < n
            invariant
                0 <= v <= n,
                picked == n || (picked < n && !done@[picked as int] && forall|k: int|
                    0 <= k < dep_idx@[picked as int]@.len()
                        ==> done@[#[trigger] dep_idx@[picked as int]@[k] as int]),
                picked == n ==> forall|v2: int|
                    0 <= v2 < v ==> (done@[v2] || exists|k: int|
                        0 <= k < dep_idx@[v2]@.len()
                            && !done@[#[trigger] dep_idx@[v2]@[k] as int]),
            decreases n - v,
        {
            if !done[v] {
                if all_marked(&dep_idx[v], &done) {
                    picked = v;
                    break ;
                }
            }
            v = v + 1;
        }
        if picked < n {
            let ghost pre_order = order@;
            let ghost pre_done = done@;
            proof {
                assert(!to_ints(order@).contains(picked as int));
                assert(to_ints(order@).push(picked as int).no_duplicates());
                assert forall|j: int|
                    0 <= j < to_ints(order@).push(picked as int).len() implies 0 <= #[trigger] to_ints(
                    order@,
                ).push(picked as int)[j] < n by {
                    if j < order@.len() {
                        assert(to_ints(order@)[j] == order@[j] as int);
                    }
                }
                crate::sequtil::lemma_distinct_bounded(
                    to_ints(order@).push(picked as int),
                    n as int,
                );
                assert(order@.len() < n);
            }
            order.push(picked);
            done.remove(picked);
            done.insert(picked, true);
            proof {
                assert(to_ints(order@) =~= to_ints(pre_order).push(picked as int));
                assert(done@ =~= pre_done.update(picked as int, true));
                assert forall|v2: int| 0 <= v2 < n implies (#[trigger] done@[v2]) == to_ints(
                    order@,
                ).contains(v2) by {
                    if v2 == picked as int {
                        assert(to_ints(order@)[order@.len() - 1] == picked as int);
                    } else {
                        assert(done@[v2] == pre_done[v2]);
                        if to_ints(order@).contains(v2) {
                            let j = choose|j: int|
                                0 <= j < to_ints(order@).len() && to_ints(order@)[j] == v2;
                            assert(to_ints(pre_order)[j] == v2);
                        }
                        if to_ints(pre_order).contains(v2) {
                            let j = choose|j: int|
                                0 <= j < to_ints(pre_order).len() && to_ints(pre_order)[j] == v2;
                            assert(to_ints(order@)[j] == v2);
                        }
                    }
                }
                assert forall|j: int, u: int|
                    0 <= j < order@.len() && #[trigger] depends_on(apps@, order@[j] as int, u)
                        implies exists|j2: int| 0 <= j2 < j && order@[j2] == u by {
                    if j < order@.len() - 1 {
                        assert(pre_order[j] == order@[j]);
                        assert(depends_on(apps@, pre_order[j] as int, u));
                        let j2 = choose|j2: int| 0 <= j2 < j && pre_order[j2] == u;
                        assert(order@[j2] == u);
                    } else {
                        // the picked application: all its dependencies are done
                        assert(order@[j] == picked);
                        lemma_dep_indices_characterize(apps@, fs@, picked as int, u);
                        assert(dep_indices(apps@, picked as int).contains(u));
                        let k = choose|k: int|
                            0 <= k < dep_indices(apps@, picked as int).len() && dep_indices(
                                apps@,
                                picked as int,
                            )[k] == u;
                        assert(to_ints(dep_idx@[picked as int]@)[k] == u);
                        assert(dep_idx@[picked as int]@[k] as int == u);
                        assert(pre_done[u]);
                        assert(to_ints(pre_order).contains(u));
                        let j2 = choose|j2: int|
                            0 <= j2 < to_ints(pre_order).len() && to_ints(pre_order)[j2] == u;
                        assert(order@[j2] == u);
                    }
                }
            }
        } else {
            break ;
        }
    }
    if order.len() != n {
        proof {
            // nothing was ready, yet something is unplaced: a cycle
            let blocked = Set::new(|v: int| 0 <= v < n && !to_ints(order@).contains(v));
            assert(exists|v: int| 0 <= v < n && !to_ints(order@).contains(v)) by {
                crate::sequtil::lemma_distinct_bounded(to_ints(order@), n as int);
                if forall|v: int| 0 <= v < n ==> to_ints(order@).contains(v) {
                    // the incomplete order would already hold n distinct values
                    let s = to_ints(order@);
                    assert(s.len() < n);
                    s.unique_seq_to_set();
                    vstd::set_lib::lemma_int_range(0, n as int);
                    assert(vstd::set_lib::set_int_range(0, n as int).subset_of(s.to_set())) by {
                        assert forall|x: int|
                            vstd::set_lib::set_int_range(0, n as int).contains(
                                x,
                            ) implies s.to_set().contains(x) by {
                            assert(s.contains(x));
                        }
                    }
                    vstd::set_lib::lemma_len_subset(
                        vstd::set_lib::set_int_range(0, n as int),
                        s.to_set(),
                    );
                }
            }
            let v0 = choose|v: int| 0 <= v < n && !to_ints(order@).contains(v);
            assert forall|v: int| #[trigger] blocked.contains(v) implies exists|u: int|
                blocked.contains(u) && depends_on(apps@, v, u) by {
                assert(!done@[v]);
                let k = choose|k: int|
                    0 <= k < dep_idx@[v]@.len() && !done@[#[trigger] dep_idx@[v]@[k] as int];
                let u = dep_idx@[v]@[k] as int;
                assert(to_ints(dep_idx@[v]@)[k] == u);
                assert(dep_indices(apps@, v).contains(u));
                lemma_dep_indices_characterize(apps@, fs@, v, u);
                assert(depends_on(apps@, v, u));
                assert(0 <= u < n);
                assert(blocked.contains(u));
            }
            assert(blocked.contains(v0));
            lemma_blocked_implies_cycle(apps@, blocked, v0);
        }
        return Err(YethError::CircularDependency);
    }
    // turn the index order into a name order
    let mut names: Vec<String> = Vec::new();
    let mut t: usize = 0;
    while t < n
        invariant
            0 <= t <= n,
            names.deep_view().len() == t,
            forall|j: int| 0 <= j < t ==> (#[trigger] names.deep_view()[j]) == apps@[order@[j]
                as int].name,
        decreases n - t,
    {
        let app = apps.get_at(order[t]);
        let ghost pre = names.deep_view();
        names.push(app.name.clone());
        proof {
            assert(names.deep_view() =~= pre.push(apps@[order@[t as int] as int].name));
        }
        t = t + 1;
    }
    proof {
        let nv = names.deep_view();
        // distinct indices carry distinct names
        assert forall|a: int, b: int|
            0 <= a < nv.len() && 0 <= b < nv.len() && a != b implies nv[a] != nv[b] by {
            assert(to_ints(order@)[a] != to_ints(order@)[b]);
            if order@[a] < order@[b] {
                assert(apps@[order@[a] as int].name != apps@[order@[b] as int].name);
            } else {
                assert(apps@[order@[b] as int].name != apps@[order@[a] as int].name);
            }
        }
        assert(nv.no_duplicates());
        // the order holds exactly the application names
        assert forall|x: Seq<char>| #[trigger] nv.contains(x) implies contains_name(apps@, x) by {
            let j = choose|j: int| 0 <= j < nv.len() && nv[j] == x;
            assert(apps@[order@[j] as int].name == x);
        }
        assert forall|x: Seq<char>| contains_name(apps@, x) implies #[trigger] nv.contains(x) by {
            let w = choose|w: int| 0 <= w < apps@.len() && (#[trigger] apps@[w].name) == x;
            crate::sequtil::lemma_distinct_complete(to_ints(order@), n as int, w);
            let j = choose|j: int| 0 <= j < to_ints(order@).len() && to_ints(order@)[j] == w;
            assert(nv[j] == x);
        }
        // dependencies precede dependents
        assert forall|v: int, u: int| #[trigger] depends_on(apps@, v, u) implies nv.index_of(
            apps@[u].name,
        ) < nv.index_of(apps@[v].name) by {
            crate::sequtil::lemma_distinct_complete(to_ints(order@), n as int, v);
            let jv = choose|j: int| 0 <= j < to_ints(order@).len() && to_ints(order@)[j] == v;
            assert(order@[jv] as int == v);
            assert(depends_on(apps@, order@[jv] as int, u));
            let ju = choose|j2: int| 0 <= j2 < jv && order@[j2] == u;
            lemma_index_of_unique(nv, apps@[v].name, jv);
            lemma_index_of_unique(nv, apps@[u].name, ju);
        }
        lemma_respects_deps_acyclic(apps@, nv);
    }
    Ok(names)
}

/// In a duplicate-free sequence, `index_of` denotes the one position that
/// holds the needle.
pub proof fn lemma_index_of_unique(s: Seq<Seq<char>>, x: Seq<char>, j: int)
    requires
        s.no_duplicates(),
        0 <= j < s.len(),
        s[j] == x,
    ensures
        s.index_of(x) == j,
{
    assert(exists|i: int| 0 <= i < s.len() && s[i] == x);
    let i = s.index_of(x);
    assert(0 <= i < s.len() && s[i] == x);
    if i != j {
        assert(s[i] != s[j]);
    }
}

} // verus!
