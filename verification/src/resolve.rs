use vstd::prelude::*;
use vstd::string::StringExecFns;

use crate::appmap::AppMap;
use crate::appmap::contains_name;
use crate::appmap::lookup;
use crate::config::AppView;
use crate::config::DepView;
use crate::config::Dependency;
use crate::error::YethError;

verus! {

broadcast use vstd::set::group_set_axioms, vstd::seq_lib::seq_to_set_is_finite;

/// The set of application names in the map.
pub open spec fn names_set(apps: Seq<AppView>) -> Set<Seq<char>> {
    Set::new(|x: Seq<char>| contains_name(apps, x))
}

/// The application names that a traversal has not pushed onto its stack
/// yet: the measure that bounds the depth of the resolver's descent.
pub open spec fn unvisited_count(apps: Seq<AppView>, stack: Seq<Seq<char>>) -> nat {
    names_set(apps).difference(stack.to_set()).len()
}

/// The names set is the set of the name sequence, hence finite.
proof fn lemma_names_set_finite(apps: Seq<AppView>)
    ensures
        names_set(apps).finite(),
{
    let names = apps.map_values(|a: AppView| a.name);
    assert(names_set(apps) =~= names.to_set()) by {
        assert forall|x: Seq<char>| names_set(apps).contains(x) implies names.to_set().contains(
            x,
        ) by {
            let i = choose|i: int| 0 <= i < apps.len() && (#[trigger] apps[i].name) == x;
            assert(names[i] == x);
            assert(names.contains(x));
        }
        assert forall|x: Seq<char>| names.to_set().contains(x) implies names_set(apps).contains(
            x,
        ) by {
            let i = choose|i: int| 0 <= i < names.len() && names[i] == x;
            assert(apps[i].name == x);
        }
    }
}

/// Pushing a known, not-yet-stacked name onto the stack strictly shrinks
/// the measure.
proof fn lemma_push_decreases(apps: Seq<AppView>, stack: Seq<Seq<char>>, c: Seq<char>)
    requires
        contains_name(apps, c),
        !stack.contains(c),
    ensures
        unvisited_count(apps, stack.push(c)) < unvisited_count(apps, stack),
{
    lemma_names_set_finite(apps);
    let before = names_set(apps).difference(stack.to_set());
    let after = names_set(apps).difference(stack.push(c).to_set());
    assert(stack.push(c).to_set() =~= stack.to_set().insert(c)) by {
        assert forall|x: Seq<char>| stack.push(c).to_set().contains(x) implies stack.to_set().insert(
            c,
        ).contains(x) by {
            let i = choose|i: int| 0 <= i < stack.push(c).len() && stack.push(c)[i] == x;
            if i < stack.len() {
                assert(stack[i] == x);
            }
        }
        assert forall|x: Seq<char>| stack.to_set().insert(c).contains(x) implies stack.push(
            c,
        ).to_set().contains(x) by {
            if x == c {
                assert(stack.push(c)[stack.len() as int] == c);
            } else {
                let i = choose|i: int| 0 <= i < stack.len() && stack[i] == x;
                assert(stack.push(c)[i] == x);
            }
        }
    }
    assert(after =~= before.remove(c));
    assert(before.contains(c)) by {
        if stack.to_set().contains(c) {
            assert(stack.contains(c));
        }
    }
    assert(before.finite());
    assert(after.len() == before.len() - 1);
}

/// What resolving one name adds to the result: nothing if the name is on
/// the stack (a cycle is abandoned silently) or already resolved;
/// otherwise its application dependencies are resolved first, depth first
/// in declaration order, and then the name itself is appended.
pub open spec fn dfs_spec(
    apps: Seq<AppView>,
    current: Seq<char>,
    stack: Seq<Seq<char>>,
    result: Seq<Seq<char>>,
) -> Seq<Seq<char>>
    decreases unvisited_count(apps, stack), 0int, 0int,
        via dfs_spec_dec
{
    if stack.contains(current) || result.contains(current) {
        result
    } else {
        let after_deps = if contains_name(apps, current) {
            dfs_deps_spec(
                apps,
                lookup(apps, current)->Some_0.dependencies,
                stack.push(current),
                result,
            )
        } else {
            result
        };
        after_deps.push(current)
    }
}

/// Resolves a dependency list in order: application edges descend, path
/// edges end their branch.
pub open spec fn dfs_deps_spec(
    apps: Seq<AppView>,
    deps: Seq<DepView>,
    stack: Seq<Seq<char>>,
    result: Seq<Seq<char>>,
) -> Seq<Seq<char>>
    decreases unvisited_count(apps, stack), 1int, deps.len(),
        via dfs_deps_spec_dec
{
    if deps.len() == 0 {
        result
    } else {
        let r1 = match deps.first() {
            DepView::App(nm) => dfs_spec(apps, nm, stack, result),
            DepView::Path(_) => result,
        };
        dfs_deps_spec(apps, deps.drop_first(), stack, r1)
    }
}

#[via_fn]
proof fn dfs_spec_dec(
    apps: Seq<AppView>,
    current: Seq<char>,
    stack: Seq<Seq<char>>,
    result: Seq<Seq<char>>,
) {
    if !stack.contains(current) && !result.contains(current) && contains_name(apps, current) {
        lemma_push_decreases(apps, stack, current);
    }
}

#[via_fn]
proof fn dfs_deps_spec_dec(
    apps: Seq<AppView>,
    deps: Seq<DepView>,
    stack: Seq<Seq<char>>,
    result: Seq<Seq<char>>,
) {
}

/// The resolved order for one target: the names visited by a depth-first
/// post-order walk of the application edges from the target.
pub open spec fn resolve_order(apps: Seq<AppView>, target: Seq<char>) -> Seq<Seq<char>> {
    dfs_spec(apps, target, Seq::<Seq<char>>::empty(), Seq::<Seq<char>>::empty())
}

/// Whether this list of strings holds the given string.
fn contains_str(v: &Vec<String>, s: &str) -> (r: bool)
    ensures
        r == v.deep_view().contains(s@),
{
    let n = v.len();
    let mut i: usize = 0;
    while i < n
        invariant
            0 <= i <= n,
            n == v.deep_view().len(),
            forall|j: int| 0 <= j < i ==> (#[trigger] v.deep_view()[j]) != s@,
        decreases n - i,
    {
        if crate::order::str_eq(v[i].as_str(), s) {
            proof {
                assert(v.deep_view()[i as int] == s@);
            }
            return true;
        }
        i = i + 1;
    }
    false
}

/// One step of the resolver's depth-first walk; `stack` holds the names
/// currently being descended through and comes back unchanged.
#[verifier::loop_isolation(false)]
fn dfs(apps: &AppMap, current: &str, stack: &mut Vec<String>, result: &mut Vec<String>)
    requires
        apps.wf(),
    ensures
        final(stack).deep_view() == old(stack).deep_view(),
        final(result).deep_view() == dfs_spec(
            apps@,
            current@,
            old(stack).deep_view(),
            old(result).deep_view(),
        ),
    decreases unvisited_count(apps@, old(stack).deep_view()),
{
    let ghost stack0 = stack.deep_view();
    let ghost result0 = result.deep_view();
    if contains_str(stack, current) {
        return ;
    }
    if contains_str(result, current) {
        return ;
    }
    stack.push(String::from_str(current));
    proof {
        assert(stack.deep_view() =~= stack0.push(current@));
    }
    match apps.get(current) {
        Some(app) => {
            proof {
                lemma_push_decreases(apps@, stack0, current@);
            }
            let ghost deps = app@.dependencies;
            let ghost stack1 = stack.deep_view();
            let m = app.dependencies.len();
            let mut k: usize = 0;
            proof {
                assert(deps.skip(0) =~= deps);
            }
            while k < m
                invariant
                    0 <= k <= m,
                    m == deps.len(),
                    stack.deep_view() == stack1,
                    dfs_deps_spec(apps@, deps, stack1, result0) == dfs_deps_spec(
                        apps@,
                        deps.skip(k as int),
                        stack1,
                        result.deep_view(),
                    ),
                decreases m - k,
            {
                proof {
                    assert(app.dependencies.deep_view()[k as int] == app.dependencies[k as int]@);
                    assert(deps.skip(k as int).first() == deps[k as int]);
                    assert(deps.skip(k as int).drop_first() =~= deps.skip(k as int + 1));
                }
                match &app.dependencies[k] {
                    Dependency::App(nm) => {
                        dfs(apps, nm.as_str(), stack, result);
                    },
                    Dependency::Path(_) => {},
                }
                k = k + 1;
            }
            proof {
                assert(deps.skip(m as int) =~= Seq::<DepView>::empty());
            }
        },
        None => {},
    }
    let ghost pre_pop_vec = stack@;
    let ghost pre_pop = stack.deep_view();
    stack.pop();
    proof {
        assert(stack@ =~= pre_pop_vec.drop_last());
        assert forall|j: int| 0 <= j < stack@.len() implies #[trigger] stack.deep_view()[j]
            == pre_pop[j] by {
            assert(stack@[j] == pre_pop_vec[j]);
        }
        assert(pre_pop =~= stack0.push(current@));
        assert(stack.deep_view() =~= stack0);
    }
    let ghost pre = result.deep_view();
    result.push(String::from_str(current));
    proof {
        assert(result.deep_view() =~= pre.push(current@));
    }
}

/// Find all dependencies for a specific app (including transitive
/// dependencies): the target's dependency closure in dependency-first
/// order, by a depth-first walk that follows application edges only and
/// abandons a branch silently when it returns to a name already on its
/// descent stack — unlike the whole-map sorter, a cycle is not an error
/// here, a deliberate asymmetry. Fails exactly when the target is not in
/// the map.
pub fn find_app_dependencies(app_name: &str, apps: &AppMap) -> (r: Result<Vec<String>, YethError>)
    requires
        apps.wf(),
    ensures
        match r {
            Ok(order) => contains_name(apps@, app_name@) && order.deep_view() == resolve_order(
                apps@,
                app_name@,
            ),
            Err(e) => !contains_name(apps@, app_name@) && (e matches YethError::AppNotFound(n)
                && n@ == app_name@),
        },
{
    if !apps.contains_key(app_name) {
        return Err(YethError::AppNotFound(String::from_str(app_name)));
    }
    let mut stack: Vec<String> = Vec::new();
    let mut result: Vec<String> = Vec::new();
    proof {
        assert(stack.deep_view() =~= Seq::<Seq<char>>::empty());
        assert(result.deep_view() =~= Seq::<Seq<char>>::empty());
    }
    dfs(apps, app_name, &mut stack, &mut result);
    Ok(result)
}

/// Application `x` declares an application edge to `y`, by name.
pub open spec fn name_dep(apps: Seq<AppView>, x: Seq<char>, y: Seq<char>) -> bool {
    contains_name(apps, x) && exists|k: int|
        0 <= k < lookup(apps, x)->Some_0.dependencies.len() && #[trigger] lookup(
            apps,
            x,
        )->Some_0.dependencies[k] == DepView::App(y)
}

/// Every application in the order has each of its application
/// dependencies somewhere before it.
pub open spec fn deps_precede(apps: Seq<AppView>, r: Seq<Seq<char>>) -> bool {
    forall|t: int, y: Seq<char>|
        0 <= t < r.len() && #[trigger] name_dep(apps, r[t], y) ==> exists|t2: int|
            0 <= t2 < t && r[t2] == y
}

/// A closed walk along application edges is a dependency cycle.
proof fn lemma_name_cycle(apps: Seq<AppView>, names: Seq<Seq<char>>)
    requires
        crate::appmap::unique_names(apps),
        names.len() > 0,
        forall|i: int| 0 <= i < names.len() - 1 ==> name_dep(apps, #[trigger] names[i], names[i + 1]),
        name_dep(apps, names.last(), names.first()),
    ensures
        crate::graph::has_cycle(apps),
{
    // every element is the source of some edge, so it is in the map
    assert forall|i: int| 0 <= i < names.len() implies contains_name(
        apps,
        #[trigger] names[i],
    ) by {
        if i < names.len() - 1 {
            assert(name_dep(apps, names[i], names[i + 1]));
        } else {
            assert(names[i] == names.last());
            assert(name_dep(apps, names.last(), names.first()));
        }
    }
    let c = Seq::new(names.len(), |i: int| crate::appmap::idx_of(apps, names[i]));
    assert forall|i: int| 0 <= i < names.len() implies 0 <= #[trigger] c[i] < apps.len()
        && apps[c[i]].name == names[i] by {
        let w = crate::appmap::idx_of(apps, names[i]);
        assert(0 <= w < apps.len() && apps[w].name == names[i]);
    }
    assert forall|j: int| 0 <= j < c.len() - 1 implies crate::graph::depends_on(
        apps,
        #[trigger] c[j],
        c[j + 1],
    ) by {
        assert(name_dep(apps, names[j], names[j + 1]));
        let k = choose|k: int|
            0 <= k < lookup(apps, names[j])->Some_0.dependencies.len() && #[trigger] lookup(
                apps,
                names[j],
            )->Some_0.dependencies[k] == DepView::App(names[j + 1]);
        crate::appmap::lemma_idx_of_unique(apps, names[j], c[j]);
        assert(apps[c[j]].dependencies[k] == DepView::App(apps[c[j + 1]].name));
    }
    assert(crate::graph::depends_on(apps, c[c.len() - 1], c[0])) by {
        assert(name_dep(apps, names[names.len() - 1], names[0]));
        let k = choose|k: int|
            0 <= k < lookup(apps, names[names.len() - 1])->Some_0.dependencies.len()
                && #[trigger] lookup(apps, names[names.len() - 1])->Some_0.dependencies[k]
                == DepView::App(names[0]);
        crate::appmap::lemma_idx_of_unique(apps, names[names.len() - 1], c[c.len() - 1]);
        assert(apps[c[c.len() - 1]].dependencies[k] == DepView::App(apps[c[0]].name));
    }
    assert(crate::graph::is_cycle(apps, c));
}

/// In a graph without cycles the resolver's walk keeps dependencies ahead
/// of dependents: what one visit adds to a well-ordered result is again
/// well ordered, and the visited name ends up in the result unless the
/// walk was already descending through it.
proof fn lemma_dfs_precede(
    apps: Seq<AppView>,
    current: Seq<char>,
    stack: Seq<Seq<char>>,
    result: Seq<Seq<char>>,
)
    requires
        crate::appmap::unique_names(apps),
        !crate::graph::has_cycle(apps),
        forall|i: int| 0 <= i < stack.len() - 1 ==> name_dep(apps, #[trigger] stack[i], stack[i + 1]),
        stack.len() > 0 ==> name_dep(apps, stack.last(), current),
        deps_precede(apps, result),
    ensures
        result.is_prefix_of(dfs_spec(apps, current, stack, result)),
        deps_precede(apps, dfs_spec(apps, current, stack, result)),
        dfs_spec(apps, current, stack, result).contains(current) || stack.contains(current),
    decreases unvisited_count(apps, stack), 0int, 0int,
{
    let out = dfs_spec(apps, current, stack, result);
    if stack.contains(current) || result.contains(current) {
        assert(result.is_prefix_of(out)) by {
            assert(out =~= result);
        }
    } else if contains_name(apps, current) {
        lemma_push_decreases(apps, stack, current);
        let stack2 = stack.push(current);
        let deps = lookup(apps, current)->Some_0.dependencies;
        assert forall|i: int| 0 <= i < stack2.len() - 1 implies name_dep(
            apps,
            #[trigger] stack2[i],
            stack2[i + 1],
        ) by {
            if i < stack.len() - 1 {
                assert(stack2[i] == stack[i]);
                assert(stack2[i + 1] == stack[i + 1]);
            } else {
                assert(stack2[i] == stack.last());
                assert(stack2[i + 1] == current);
            }
        }
        assert forall|d: DepView| deps.contains(d) && d is App implies name_dep(
            apps,
            stack2.last(),
            d->App_0,
        ) by {
            let k = choose|k: int| 0 <= k < deps.len() && deps[k] == d;
            assert(lookup(apps, current)->Some_0.dependencies[k] == DepView::App(d->App_0));
        }
        lemma_dfs_deps_precede(apps, deps, stack2, result);
        let mid = dfs_deps_spec(apps, deps, stack2, result);
        let t_new = mid.len() as int;
        assert(out =~= mid.push(current));
        // the freshly appended name has all its dependencies in the part
        // before it
        assert forall|y: Seq<char>| name_dep(apps, current, y) implies exists|t2: int|
            0 <= t2 < t_new && mid[t2] == y by {
            let k = choose|k: int|
                0 <= k < lookup(apps, current)->Some_0.dependencies.len() && #[trigger] lookup(
                    apps,
                    current,
                )->Some_0.dependencies[k] == DepView::App(y);
            let d = deps[k];
            assert(deps.contains(d));
            assert(mid.contains(y) || stack2.contains(y));
            if stack2.contains(y) {
                // the walk would have closed a cycle through the stack
                let j = choose|j: int| 0 <= j < stack2.len() && stack2[j] == y;
                let names = stack2.subrange(j, stack2.len() as int);
                assert(names.len() > 0);
                assert forall|i: int| 0 <= i < names.len() - 1 implies name_dep(
                    apps,
                    #[trigger] names[i],
                    names[i + 1],
                ) by {
                    assert(names[i] == stack2[j + i]);
                    assert(names[i + 1] == stack2[j + i + 1]);
                }
                assert(names.last() == stack2[stack2.len() - 1]);
                assert(stack2.last() == current);
                assert(names.first() == y);
                assert(name_dep(apps, names.last(), names.first()));
                lemma_name_cycle(apps, names);
                assert(false);
            }
            let t2 = choose|t2: int| 0 <= t2 < mid.len() && mid[t2] == y;
            assert(mid[t2] == y);
        }
        assert forall|t: int, y: Seq<char>|
            0 <= t < out.len() && #[trigger] name_dep(apps, out[t], y) implies exists|t2: int|
            0 <= t2 < t && out[t2] == y by {
            if t < t_new {
                assert(out[t] == mid[t]);
                assert(name_dep(apps, mid[t], y));
                let t2 = choose|t2: int| 0 <= t2 < t && mid[t2] == y;
                assert(out[t2] == y);
            } else {
                assert(out[t] == current);
                let t2 = choose|t2: int| 0 <= t2 < t_new && mid[t2] == y;
                assert(out[t2] == y);
            }
        }
        assert(result.is_prefix_of(mid));
        assert(result.is_prefix_of(out)) by {
            assert(result =~= out.subrange(0, result.len() as int));
        }
        assert(out[out.len() - 1] == current);
        assert(out.contains(current));
    } else {
        // an unknown name is recorded as a leaf
        assert(out =~= result.push(current));
        assert forall|t: int, y: Seq<char>|
            0 <= t < out.len() && #[trigger] name_dep(apps, out[t], y) implies exists|t2: int|
            0 <= t2 < t && out[t2] == y by {
            assert(t < result.len());
            assert(out[t] == result[t]);
            assert(name_dep(apps, result[t], y));
            let t2 = choose|t2: int| 0 <= t2 < t && result[t2] == y;
            assert(out[t2] == y);
        }
        assert(result.is_prefix_of(out)) by {
            assert(result =~= out.subrange(0, result.len() as int));
        }
        assert(out[out.len() - 1] == current);
        assert(out.contains(current));
    }
}

/// The dependency-list walk preserves good ordering and leaves every
/// application edge's target either resolved or on the descent stack.
proof fn lemma_dfs_deps_precede(
    apps: Seq<AppView>,
    deps: Seq<DepView>,
    stack: Seq<Seq<char>>,
    result: Seq<Seq<char>>,
)
    requires
        crate::appmap::unique_names(apps),
        !crate::graph::has_cycle(apps),
        forall|i: int| 0 <= i < stack.len() - 1 ==> name_dep(apps, #[trigger] stack[i], stack[i + 1]),
        forall|d: DepView|
            deps.contains(d) && d is App ==> stack.len() > 0 && name_dep(
                apps,
                stack.last(),
                d->App_0,
            ),
        deps_precede(apps, result),
    ensures
        result.is_prefix_of(dfs_deps_spec(apps, deps, stack, result)),
        deps_precede(apps, dfs_deps_spec(apps, deps, stack, result)),
        forall|d: DepView|
            deps.contains(d) && d is App ==> dfs_deps_spec(apps, deps, stack, result).contains(
                d->App_0,
            ) || stack.contains(d->App_0),
    decreases unvisited_count(apps, stack), 1int, deps.len(),
{
    let out = dfs_deps_spec(apps, deps, stack, result);
    if deps.len() == 0 {
        assert(result.is_prefix_of(out)) by {
            assert(out =~= result);
        }
    } else {
        let head = deps.first();
        let rest = deps.drop_first();
        let r1 = match head {
            DepView::App(nm) => dfs_spec(apps, nm, stack, result),
            DepView::Path(_) => result,
        };
        match head {
            DepView::App(nm) => {
                assert(deps.contains(head)) by {
                    assert(deps[0] == head);
                }
                assert(name_dep(apps, stack.last(), nm));
                lemma_dfs_precede(apps, nm, stack, result);
            },
            DepView::Path(_) => {},
        }
        assert(result.is_prefix_of(r1));
        assert(deps_precede(apps, r1));
        assert forall|d: DepView| rest.contains(d) && d is App implies stack.len() > 0
            && name_dep(apps, stack.last(), d->App_0) by {
            let k = choose|k: int| 0 <= k < rest.len() && rest[k] == d;
            assert(deps[k + 1] == d);
            assert(deps.contains(d));
        }
        lemma_dfs_deps_precede(apps, rest, stack, r1);
        assert(out == dfs_deps_spec(apps, rest, stack, r1));
        assert(result.is_prefix_of(out)) by {
            assert(r1.is_prefix_of(out));
            assert(result =~= out.subrange(0, result.len() as int));
        }
        assert forall|d: DepView| deps.contains(d) && d is App implies out.contains(d->App_0)
            || stack.contains(d->App_0) by {
            let k = choose|k: int| 0 <= k < deps.len() && deps[k] == d;
            if k == 0 {
                assert(d == head);
                match head {
                    DepView::App(nm) => {
                        assert(r1.contains(nm) || stack.contains(nm));
                        if r1.contains(nm) {
                            let t = choose|t: int| 0 <= t < r1.len() && r1[t] == nm;
                            assert(r1.is_prefix_of(out));
                            assert(out[t] == nm);
                            assert(out.contains(nm));
                        }
                    },
                    DepView::Path(_) => {},
                }
            } else {
                assert(rest[k - 1] == d);
                assert(rest.contains(d));
            }
        }
    }
}

/// In a graph without cycles the resolver's order is dependency first:
/// every application dependency of a resolved application stands before
/// it. (With a cycle the silently abandoned branch places one member of
/// the cycle after its dependent, which is the documented exception.)
pub proof fn lemma_resolve_order_deps_precede(apps: Seq<AppView>, target: Seq<char>)
    requires
        crate::appmap::unique_names(apps),
        !crate::graph::has_cycle(apps),
    ensures
        deps_precede(apps, resolve_order(apps, target)),
{
    lemma_dfs_precede(apps, target, Seq::<Seq<char>>::empty(), Seq::<Seq<char>>::empty());
}

} // verus!
