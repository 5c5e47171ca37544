use vstd::prelude::*;
use vstd::hash_map::StringHashMap;

use crate::appmap::AppMap;
use crate::appmap::contains_name;
use crate::appmap::lookup;
use crate::config::AppView;
use crate::config::Config;
use crate::config::DepView;
use crate::config::Dependency;
use crate::config::PatView;
use crate::error::YethError;
use crate::fstree::FsEntryView;
use crate::fstree::FsSnapshot;
use crate::fstree::bytes_at;
use crate::fstree::is_dir_at;
use crate::fstree::is_file_at;
use crate::hash::compute_final_hash;
use crate::hash::dir_hash_input;
use crate::hash::final_hash_input;
use crate::hash::hash_directory;
use crate::hash::hash_path;
use crate::hash::sha256_hex;
use crate::resolve::find_app_dependencies;
use crate::resolve::resolve_order;

verus! {

/// Why composing hashes over an order stops early.
pub ghost enum HashErr {
    /// An application edge pointed at a hash not computed yet: the order
    /// violates dependency precedence.
    IncorrectOrder,
    /// A path dependency is neither a file nor a directory.
    NorFileOrDirectory(Seq<char>),
}

/// The hash of one path dependency: a file by its bytes, a directory by
/// its contributing files under the owner's exclusions.
pub open spec fn path_hash_spec(fs: Seq<FsEntryView>, p: Seq<char>, pats: Seq<PatView>) -> Result<
    Seq<char>,
    HashErr,
> {
    if is_file_at(fs, p) {
        Ok(sha256_hex(bytes_at(fs, p)))
    } else if is_dir_at(fs, p) {
        Ok(sha256_hex(dir_hash_input(fs, p, pats)))
    } else {
        Err(HashErr::NorFileOrDirectory(p))
    }
}

/// The hash one dependency contributes: an application edge re-uses the
/// already computed final hash of that application, a path edge is hashed
/// afresh.
pub open spec fn dep_hash_spec(
    fs: Seq<FsEntryView>,
    hashes: Map<Seq<char>, Seq<char>>,
    app: AppView,
    d: DepView,
) -> Result<Seq<char>, HashErr> {
    match d {
        DepView::App(nm) => if hashes.contains_key(nm) {
            Ok(hashes[nm])
        } else {
            Err(HashErr::IncorrectOrder)
        },
        DepView::Path(p) => path_hash_spec(fs, p, app.exclude_patterns),
    }
}

/// The hashes of an application's first `k` dependencies, in declaration
/// order; the leftmost failure wins.
pub open spec fn dep_hashes_spec(
    fs: Seq<FsEntryView>,
    hashes: Map<Seq<char>, Seq<char>>,
    app: AppView,
    k: int,
) -> Result<Seq<Seq<char>>, HashErr>
    decreases k,
{
    if k <= 0 {
        Ok(Seq::<Seq<char>>::empty())
    } else {
        match dep_hashes_spec(fs, hashes, app, k - 1) {
            Err(e) => Err(e),
            Ok(hs) => match dep_hash_spec(fs, hashes, app, app.dependencies[k - 1]) {
                Err(e) => Err(e),
                Ok(h) => Ok(hs.push(h)),
            },
        }
    }
}

/// An application's own content hash: its directory under its own
/// exclusions.
pub open spec fn own_hash_spec(fs: Seq<FsEntryView>, app: AppView) -> Seq<char> {
    sha256_hex(dir_hash_input(fs, app.dir, app.exclude_patterns))
}

/// An application's final hash: the own hash composed with the dependency
/// hashes in declaration order.
pub open spec fn app_final_hash_spec(
    fs: Seq<FsEntryView>,
    hashes: Map<Seq<char>, Seq<char>>,
    app: AppView,
) -> Result<Seq<char>, HashErr> {
    match dep_hashes_spec(fs, hashes, app, app.dependencies.len() as int) {
        Ok(dhs) => Ok(sha256_hex(final_hash_input(own_hash_spec(fs, app), dhs))),
        Err(e) => Err(e),
    }
}

/// The final hashes after processing the order strictly left to right:
/// each application's hash is composed from the map built so far.
/// Meaningful when every name of the order is in the application map.
pub open spec fn hashes_after(
    apps: Seq<AppView>,
    fs: Seq<FsEntryView>,
    order: Seq<Seq<char>>,
) -> Result<Map<Seq<char>, Seq<char>>, HashErr>
    decreases order.len(),
{
    if order.len() == 0 {
        Ok(Map::<Seq<char>, Seq<char>>::empty())
    } else {
        match hashes_after(apps, fs, order.drop_last()) {
            Err(e) => Err(e),
            Ok(m) => {
                let app = lookup(apps, order.last())->Some_0;
                match app_final_hash_spec(fs, m, app) {
                    Ok(h) => Ok(m.insert(order.last(), h)),
                    Err(e) => Err(e),
                }
            },
        }
    }
}

/// The computed map carries exactly the digests of the ghost map, and
/// every value has the 64-character lowercase-hex shape of a hash.
pub open spec fn digests_match(m: Map<Seq<char>, String>, s: Map<Seq<char>, Seq<char>>) -> bool {
    &&& m.dom() == s.dom()
    &&& forall|k: Seq<char>|
        s.contains_key(k) ==> (#[trigger] m[k])@ == s[k] && crate::hash::is_hash_text(m[k]@)
}

/// The returned error carries the failure that the specification names.
pub open spec fn err_corresponds(e: YethError, he: HashErr) -> bool {
    match he {
        HashErr::IncorrectOrder => e is IncorrectOrder,
        HashErr::NorFileOrDirectory(p) => e matches YethError::NorFileOrDirectory(q) && q@ == p,
    }
}

/// Once the dependency walk fails, taking more dependencies keeps the
/// same failure.
proof fn lemma_dep_hashes_err_persists(
    fs: Seq<FsEntryView>,
    hashes: Map<Seq<char>, Seq<char>>,
    app: AppView,
    k0: int,
    k1: int,
)
    requires
        0 <= k0 <= k1,
        dep_hashes_spec(fs, hashes, app, k0) is Err,
    ensures
        dep_hashes_spec(fs, hashes, app, k1) == dep_hashes_spec(fs, hashes, app, k0),
    decreases k1 - k0,
{
    if k1 > k0 {
        lemma_dep_hashes_err_persists(fs, hashes, app, k0, k1 - 1);
    }
}

/// Once processing an order fails, processing more of it keeps the same
/// failure.
proof fn lemma_hashes_after_err_persists(
    apps: Seq<AppView>,
    fs: Seq<FsEntryView>,
    order: Seq<Seq<char>>,
    i: int,
    j: int,
)
    requires
        0 <= i <= j <= order.len(),
        hashes_after(apps, fs, order.take(i)) is Err,
    ensures
        hashes_after(apps, fs, order.take(j)) == hashes_after(apps, fs, order.take(i)),
    decreases j - i,
{
    if j > i {
        lemma_hashes_after_err_persists(apps, fs, order, i, j - 1);
        assert(order.take(j).drop_last() =~= order.take(j - 1));
        assert(order.take(j).len() > 0);
    }
}

/// Calculate hashes for a list of ordered applications: walks the order
/// left to right, hashes each application's directory, composes it with
/// the dependency hashes, and records the final hash under the
/// application's name. Fails with `IncorrectOrder` exactly where an
/// application edge points at a hash not computed yet, and with
/// `NorFileOrDirectory` where a path dependency does not exist.
#[verifier::loop_isolation(false)]
#[verifier::rlimit(30)]
pub fn calculate_hashes(ordered_apps: Vec<String>, apps: &AppMap, fs: &FsSnapshot) -> (r: Result<
    StringHashMap<String>,
    YethError,
>)
    requires
        apps.wf(),
        fs.wf(),
        forall|j: int|
            0 <= j < ordered_apps.deep_view().len() ==> contains_name(
                apps@,
                #[trigger] ordered_apps.deep_view()[j],
            ),
    ensures
        match r {
            Ok(m) => hashes_after(apps@, fs@, ordered_apps.deep_view()) matches Ok(s)
                && digests_match(m@, s),
            Err(e) => hashes_after(apps@, fs@, ordered_apps.deep_view()) matches Err(he)
                && err_corresponds(e, he),
        },
{
    let ghost ord = ordered_apps.deep_view();
    let mut hashes: StringHashMap<String> = StringHashMap::new();
    let ghost mut s = Map::<Seq<char>, Seq<char>>::empty();
    let n = ordered_apps.len();
    let mut i: usize = 0;
    proof {
        assert(ord.take(0) =~= Seq::<Seq<char>>::empty());
        assert(hashes@.dom() =~= s.dom());
    }
    while i < n
        invariant
            0 <= i <= n,
            n == ord.len(),
            hashes_after(apps@, fs@, ord.take(i as int)) == Ok::<
                Map<Seq<char>, Seq<char>>,
                HashErr,
            >(s),
            digests_match(hashes@, s),
        decreases n - i,
    {
        let name = &ordered_apps[i];
        proof {
            assert(ord[i as int] == name@);
            assert(contains_name(apps@, name@));
        }
        let app = match apps.get(name.as_str()) {
            Some(a) => a,
            None => {
                proof {
                    assert(false);
                }
                vstd::pervasive::unreached()
            },
        };
        let ghost happ = app@;
        let own_hash = hash_directory(fs, app.dir.as_str(), &app.exclude_patterns);
        let mut dep_hashes_owned: Vec<String> = Vec::new();
        let m = app.dependencies.len();
        let mut k: usize = 0;
        proof {
            assert(dep_hashes_owned.deep_view() =~= Seq::<Seq<char>>::empty());
        }
        while k < m
            invariant
                0 <= k <= m,
                m == happ.dependencies.len(),
                dep_hashes_spec(fs@, s, happ, k as int) == Ok::<Seq<Seq<char>>, HashErr>(
                    dep_hashes_owned.deep_view(),
                ),
            decreases m - k,
        {
            proof {
                assert(app.dependencies.deep_view()[k as int] == app.dependencies[k as int]@);
                assert(happ.dependencies[k as int] == app.dependencies[k as int]@);
            }
            match &app.dependencies[k] {
                Dependency::App(dep_name) => {
                    match hashes.get(dep_name.as_str()) {
                        Some(h) => {
                            let ghost pre = dep_hashes_owned.deep_view();
                            let hc = h.clone();
                            dep_hashes_owned.push(hc);
                            proof {
                                assert(s.contains_key(dep_name@));
                                assert(s[dep_name@] == h@);
                                assert(dep_hash_spec(fs@, s, happ, happ.dependencies[k as int])
                                    == Ok::<Seq<char>, HashErr>(h@));
                                assert(dep_hashes_owned.deep_view() =~= pre.push(h@));
                            }
                        },
                        None => {
                            proof {
                                assert(!s.contains_key(dep_name@));
                                assert(dep_hashes_spec(fs@, s, happ, k as int + 1) == Err::<
                                    Seq<Seq<char>>,
                                    HashErr,
                                >(HashErr::IncorrectOrder));
                                lemma_dep_hashes_err_persists(
                                    fs@,
                                    s,
                                    happ,
                                    k as int + 1,
                                    m as int,
                                );
                                assert(app_final_hash_spec(fs@, s, happ) == Err::<
                                    Seq<char>,
                                    HashErr,
                                >(HashErr::IncorrectOrder));
                                assert(ord.take(i as int + 1).drop_last() =~= ord.take(i as int));
                                assert(ord.take(i as int + 1).last() == ord[i as int]);
                                assert(lookup(apps@, ord[i as int]) == Some(happ));
                                assert(hashes_after(apps@, fs@, ord.take(i as int + 1)) == Err::<
                                    Map<Seq<char>, Seq<char>>,
                                    HashErr,
                                >(HashErr::IncorrectOrder));
                                lemma_hashes_after_err_persists(
                                    apps@,
                                    fs@,
                                    ord,
                                    i as int + 1,
                                    n as int,
                                );
                                assert(ord.take(n as int) =~= ord);
                            }
                            return Err(YethError::IncorrectOrder);
                        },
                    }
                },
                Dependency::Path(path) => {
                    match hash_path(fs, path.as_str(), &app.exclude_patterns) {
                        Ok(h) => {
                            let ghost pre = dep_hashes_owned.deep_view();
                            proof {
                                assert(dep_hash_spec(fs@, s, happ, happ.dependencies[k as int])
                                    == Ok::<Seq<char>, HashErr>(h@));
                            }
                            dep_hashes_owned.push(h);
                            proof {
                                assert(dep_hashes_owned.deep_view() =~= pre.push(
                                    dep_hashes_owned.deep_view().last(),
                                ));
                            }
                        },
                        Err(e) => {
                            proof {
                                assert(dep_hash_spec(fs@, s, happ, happ.dependencies[k as int])
                                    == Err::<Seq<char>, HashErr>(
                                    HashErr::NorFileOrDirectory(path@),
                                ));
                                assert(dep_hashes_spec(fs@, s, happ, k as int + 1) == Err::<
                                    Seq<Seq<char>>,
                                    HashErr,
                                >(HashErr::NorFileOrDirectory(path@)));
                                lemma_dep_hashes_err_persists(
                                    fs@,
                                    s,
                                    happ,
                                    k as int + 1,
                                    m as int,
                                );
                                assert(ord.take(i as int + 1).drop_last() =~= ord.take(i as int));
                                assert(ord.take(i as int + 1).last() == ord[i as int]);
                                assert(lookup(apps@, ord[i as int]) == Some(happ));
                                assert(hashes_after(apps@, fs@, ord.take(i as int + 1)) == Err::<
                                    Map<Seq<char>, Seq<char>>,
                                    HashErr,
                                >(HashErr::NorFileOrDirectory(path@)));
                                lemma_hashes_after_err_persists(
                                    apps@,
                                    fs@,
                                    ord,
                                    i as int + 1,
                                    n as int,
                                );
                                assert(ord.take(n as int) =~= ord);
                            }
                            return Err(e);
                        },
                    }
                },
            }
            k = k + 1;
        }
        // compose the final hash from the own hash and the ordered
        // dependency hashes
        let mut dep_hash_refs: Vec<&str> = Vec::new();
        let dh = dep_hashes_owned.len();
        let mut t: usize = 0;
        proof {
            assert(dep_hash_refs.deep_view() =~= dep_hashes_owned.deep_view().take(0));
        }
        while t < dh
            invariant
                0 <= t <= dh,
                dh == dep_hashes_owned.deep_view().len(),
                dep_hash_refs.deep_view() == dep_hashes_owned.deep_view().take(t as int),
            decreases dh - t,
        {
            let ghost pre = dep_hash_refs.deep_view();
            dep_hash_refs.push(dep_hashes_owned[t].as_str());
            proof {
                assert(dep_hash_refs.deep_view() =~= pre.push(dep_hashes_owned.deep_view()[
                    t as int]));
                assert(dep_hashes_owned.deep_view().take(t as int + 1) =~= pre.push(
                    dep_hashes_owned.deep_view()[t as int],
                ));
            }
            t = t + 1;
        }
        proof {
            assert(dep_hashes_owned.deep_view().take(dh as int) =~= dep_hashes_owned.deep_view());
        }
        let final_hash = compute_final_hash(own_hash.as_str(), &dep_hash_refs);
        let ghost pre_s = s;
        let ghost pre_hashes = hashes@;
        proof {
            assert(app_final_hash_spec(fs@, s, happ) == Ok::<Seq<char>, HashErr>(final_hash@));
            s = s.insert(ord[i as int], final_hash@);
        }
        hashes.insert(name.clone(), final_hash);
        proof {
            assert(ord.take(i as int + 1).drop_last() =~= ord.take(i as int));
            assert(ord.take(i as int + 1).last() == ord[i as int]);
            assert(lookup(apps@, ord[i as int]) == Some(happ));
            assert(hashes_after(apps@, fs@, ord.take(i as int + 1)) == Ok::<
                Map<Seq<char>, Seq<char>>,
                HashErr,
            >(s));
            assert(hashes@.dom() =~= s.dom());
            assert forall|x: Seq<char>| s.contains_key(x) implies (#[trigger] hashes@[x])@
                == s[x] by {
                if x != ord[i as int] {
                    assert(pre_hashes[x] == hashes@[x]);
                    assert(pre_s[x] == s[x]);
                }
            }
        }
        i = i + 1;
    }
    proof {
        assert(ord.take(n as int) =~= ord);
    }
    Ok(hashes)
}

/// Calculate hashes for a specific app and its dependencies: resolves the
/// target's dependency closure and then composes hashes over it.
pub fn calculate_hashes_for_app(app_name: &str, apps: &AppMap, fs: &FsSnapshot) -> (r: Result<
    StringHashMap<String>,
    YethError,
>)
    requires
        apps.wf(),
        fs.wf(),
        contains_name(apps@, app_name@) ==> forall|j: int|
            0 <= j < resolve_order(apps@, app_name@).len() ==> contains_name(
                apps@,
                #[trigger] resolve_order(apps@, app_name@)[j],
            ),
    ensures
        match r {
            Ok(m) => contains_name(apps@, app_name@) && (hashes_after(
                apps@,
                fs@,
                resolve_order(apps@, app_name@),
            ) matches Ok(s) && digests_match(m@, s)),
            Err(e) => (!contains_name(apps@, app_name@) && (e matches YethError::AppNotFound(nm)
                && nm@ == app_name@)) || (contains_name(apps@, app_name@) && (hashes_after(
                apps@,
                fs@,
                resolve_order(apps@, app_name@),
            ) matches Err(he) && err_corresponds(e, he))),
        },
{
    match find_app_dependencies(app_name, apps) {
        Err(e) => Err(e),
        Ok(dependency_order) => calculate_hashes(dependency_order, apps, fs),
    }
}

/// With every dependency of the application valid and already available,
/// the dependency walk succeeds.
proof fn lemma_dep_hashes_ok(
    fs: Seq<FsEntryView>,
    m: Map<Seq<char>, Seq<char>>,
    app: AppView,
    k: int,
)
    requires
        0 <= k <= app.dependencies.len(),
        forall|k2: int|
            0 <= k2 < k ==> match #[trigger] app.dependencies[k2] {
                DepView::App(nm) => m.contains_key(nm),
                DepView::Path(p) => is_file_at(fs, p) || is_dir_at(fs, p),
            },
    ensures
        dep_hashes_spec(fs, m, app, k) is Ok,
    decreases k,
{
    if k > 0 {
        lemma_dep_hashes_ok(fs, m, app, k - 1);
    }
}

/// Processing a prefix of a dependency-first order succeeds and records
/// exactly the names processed so far.
proof fn lemma_ordered_hashes_ok_upto(
    apps: Seq<AppView>,
    fs: Seq<FsEntryView>,
    order: Seq<Seq<char>>,
    i: int,
)
    requires
        crate::appmap::unique_names(apps),
        crate::fstree::unique_paths(fs),
        crate::graph::deps_valid(apps, fs),
        order.no_duplicates(),
        forall|j: int| 0 <= j < order.len() ==> contains_name(apps, #[trigger] order[j]),
        forall|x: Seq<char>| contains_name(apps, x) ==> order.contains(x),
        crate::graph::respects_deps(apps, order),
        0 <= i <= order.len(),
    ensures
        hashes_after(apps, fs, order.take(i)) matches Ok(m) && m.dom() == order.take(i).to_set(),
    decreases i,
{
    if i == 0 {
        assert(order.take(0) =~= Seq::<Seq<char>>::empty());
        assert(Map::<Seq<char>, Seq<char>>::empty().dom() =~= order.take(0).to_set());
    } else {
        lemma_ordered_hashes_ok_upto(apps, fs, order, i - 1);
        let m0 = hashes_after(apps, fs, order.take(i - 1))->Ok_0;
        let name = order[i - 1];
        assert(contains_name(apps, name));
        let v = crate::appmap::idx_of(apps, name);
        assert(0 <= v < apps.len() && apps[v].name == name);
        crate::appmap::lemma_idx_of_unique(apps, name, v);
        let app = lookup(apps, name)->Some_0;
        assert(app == apps[v]);
        // each dependency of the application is available
        assert forall|k2: int| 0 <= k2 < app.dependencies.len() implies match #[trigger] app.dependencies[k2] {
            DepView::App(nm) => m0.contains_key(nm),
            DepView::Path(p) => is_file_at(fs, p) || is_dir_at(fs, p),
        } by {
            assert(!crate::graph::dep_invalid(apps, fs, apps[v].dependencies[k2]));
            match app.dependencies[k2] {
                DepView::App(nm) => {
                    assert(contains_name(apps, nm));
                    let u = crate::appmap::idx_of(apps, nm);
                    assert(0 <= u < apps.len() && apps[u].name == nm);
                    assert(crate::graph::depends_on(apps, v, u)) by {
                        assert(apps[v].dependencies[k2] == DepView::App(apps[u].name));
                    }
                    assert(order.index_of(apps[u].name) < order.index_of(apps[v].name));
                    crate::graph::lemma_index_of_unique(order, name, i - 1);
                    assert(order.contains(nm));
                    let p = choose|p: int| 0 <= p < order.len() && order[p] == nm;
                    crate::graph::lemma_index_of_unique(order, nm, p);
                    assert(p < i - 1);
                    assert(order.take(i - 1)[p] == nm);
                    assert(order.take(i - 1).contains(nm));
                    assert(m0.contains_key(nm));
                },
                DepView::Path(p) => {
                    assert(crate::fstree::contains_path(fs, p));
                    let w = crate::fstree::idx_of_path(fs, p);
                    assert(0 <= w < fs.len() && fs[w].path == p);
                    crate::fstree::lemma_idx_of_path_unique(fs, p, w);
                    assert(is_file_at(fs, p) || is_dir_at(fs, p));
                },
            }
        }
        lemma_dep_hashes_ok(fs, m0, app, app.dependencies.len() as int);
        assert(order.take(i).drop_last() =~= order.take(i - 1));
        assert(order.take(i).last() == name);
        assert(hashes_after(apps, fs, order.take(i)) is Ok);
        let m1 = hashes_after(apps, fs, order.take(i))->Ok_0;
        assert(m1 == m0.insert(name, app_final_hash_spec(fs, m0, app)->Ok_0));
        assert(m1.dom() =~= order.take(i).to_set()) by {
            assert forall|x: Seq<char>| m1.dom().contains(x) implies order.take(i).to_set().contains(
                x,
            ) by {
                if x == name {
                    assert(order.take(i)[i - 1] == name);
                    assert(order.take(i).contains(x));
                } else {
                    assert(m0.dom().contains(x));
                    assert(order.take(i - 1).contains(x));
                    let p = choose|p: int|
                        0 <= p < order.take(i - 1).len() && #[trigger] order.take(i - 1)[p] == x;
                    assert(order.take(i)[p] == x);
                    assert(order.take(i).contains(x));
                }
            }
            assert forall|x: Seq<char>| order.take(i).to_set().contains(x) implies m1.dom().contains(
                x,
            ) by {
                assert(order.take(i).contains(x));
                let p = choose|p: int| 0 <= p < order.take(i).len() && order.take(i)[p] == x;
                if p == i - 1 {
                    assert(x == name);
                } else {
                    assert(order.take(i - 1)[p] == x);
                    assert(order.take(i - 1).contains(x));
                    assert(m0.dom().contains(x));
                }
            }
        }
    }
}

/// An order that lists every application once, dependencies first — what
/// the topological sorter returns — always hashes successfully: composing
/// over it meets no missing dependency hash and no missing path.
pub proof fn lemma_sorted_order_hashes_ok(
    apps: Seq<AppView>,
    fs: Seq<FsEntryView>,
    order: Seq<Seq<char>>,
)
    requires
        crate::appmap::unique_names(apps),
        crate::fstree::unique_paths(fs),
        crate::graph::deps_valid(apps, fs),
        order.no_duplicates(),
        forall|j: int| 0 <= j < order.len() ==> contains_name(apps, #[trigger] order[j]),
        forall|x: Seq<char>| contains_name(apps, x) ==> order.contains(x),
        crate::graph::respects_deps(apps, order),
    ensures
        hashes_after(apps, fs, order) is Ok,
{
    lemma_ordered_hashes_ok_upto(apps, fs, order, order.len() as int);
    assert(order.take(order.len() as int) =~= order);
}

/// One run of the fingerprinting engine, carrying its configuration.
pub struct YethEngine {
    /// Where the run is rooted; discovery under this directory is the
    /// caller's side of the work.
    pub config: Config,
}

impl YethEngine {
    /// Wraps a configuration into an engine.
    pub fn new(config: Config) -> (r: YethEngine)
        ensures
            r.config == config,
    {
        YethEngine { config }
    }

    /// Find all dependencies for a specific app (including transitive
    /// dependencies); see [`find_app_dependencies`].
    pub fn find_app_dependencies(&self, app_name: &str, apps: &AppMap) -> (r: Result<
        Vec<String>,
        YethError,
    >)
        requires
            apps.wf(),
        ensures
            match r {
                Ok(order) => contains_name(apps@, app_name@) && order.deep_view() == resolve_order(
                    apps@,
                    app_name@,
                ),
                Err(e) => !contains_name(apps@, app_name@) && (e
                    matches YethError::AppNotFound(n) && n@ == app_name@),
            },
    {
        find_app_dependencies(app_name, apps)
    }

    /// Orders the applications dependencies-first; see
    /// [`crate::graph::topological_sort`].
    pub fn topological_sort(&self, apps: &AppMap, fs: &FsSnapshot) -> (r: Result<
        Vec<String>,
        YethError,
    >)
        requires
            apps.wf(),
            fs.wf(),
        ensures
            (r is Ok) == (crate::graph::deps_valid(apps@, fs@) && !crate::graph::has_cycle(apps@)),
            match r {
                Ok(order) => {
                    &&& order.deep_view().len() == apps@.len()
                    &&& order.deep_view().no_duplicates()
                    &&& forall|x: Seq<char>|
                        #[trigger] order.deep_view().contains(x) <==> contains_name(apps@, x)
                    &&& crate::graph::respects_deps(apps@, order.deep_view())
                },
                Err(e) => match e {
                    YethError::CircularDependency => crate::graph::deps_valid(apps@, fs@)
                        && crate::graph::has_cycle(apps@),
                    YethError::DependencyNotFound(d, o) => exists|i: int, k: int|
                        crate::graph::first_invalid_at(apps@, fs@, i, k)
                            && #[trigger] apps@[i].dependencies[k] == DepView::App(d@) && o@
                            == apps@[i].name,
                    YethError::PathDependencyNotFound(p, o) => exists|i: int, k: int|
                        crate::graph::first_invalid_at(apps@, fs@, i, k)
                            && #[trigger] apps@[i].dependencies[k] == DepView::Path(p@) && o@
                            == apps@[i].name,
                    _ => false,
                },
            },
    {
        crate::graph::topological_sort(apps, fs)
    }

    /// Composes final hashes over a precomputed order; see
    /// [`calculate_hashes`].
    pub fn calculate_hashes(
        &self,
        ordered_apps: Vec<String>,
        apps: &AppMap,
        fs: &FsSnapshot,
    ) -> (r: Result<StringHashMap<String>, YethError>)
        requires
            apps.wf(),
            fs.wf(),
            forall|j: int|
                0 <= j < ordered_apps.deep_view().len() ==> contains_name(
                    apps@,
                    #[trigger] ordered_apps.deep_view()[j],
                ),
        ensures
            match r {
                Ok(m) => hashes_after(apps@, fs@, ordered_apps.deep_view()) matches Ok(s)
                    && digests_match(m@, s),
                Err(e) => hashes_after(apps@, fs@, ordered_apps.deep_view()) matches Err(he)
                    && err_corresponds(e, he),
            },
    {
        calculate_hashes(ordered_apps, apps, fs)
    }

    /// Resolves one application's closure and hashes it; see
    /// [`calculate_hashes_for_app`].
    pub fn calculate_hashes_for_app(&self, app_name: &str, apps: &AppMap, fs: &FsSnapshot) -> (r:
        Result<StringHashMap<String>, YethError>)
        requires
            apps.wf(),
            fs.wf(),
            contains_name(apps@, app_name@) ==> forall|j: int|
                0 <= j < resolve_order(apps@, app_name@).len() ==> contains_name(
                    apps@,
                    #[trigger] resolve_order(apps@, app_name@)[j],
                ),
        ensures
            match r {
                Ok(m) => contains_name(apps@, app_name@) && (hashes_after(
                    apps@,
                    fs@,
                    resolve_order(apps@, app_name@),
                ) matches Ok(s) && digests_match(m@, s)),
                Err(e) => (!contains_name(apps@, app_name@) && (e
                    matches YethError::AppNotFound(nm) && nm@ == app_name@)) || (contains_name(
                    apps@,
                    app_name@,
                ) && (hashes_after(apps@, fs@, resolve_order(apps@, app_name@)) matches Err(he)
                    && err_corresponds(e, he))),
            },
    {
        calculate_hashes_for_app(app_name, apps, fs)
    }
}

} // verus!
