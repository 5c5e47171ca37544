use vstd::prelude::*;

use crate::config::App;
use crate::config::AppView;

verus! {

/// True when every application in the sequence has a distinct name.
pub open spec fn unique_names(apps: Seq<AppView>) -> bool {
    forall|i: int, j: int|
        0 <= i < j < apps.len() ==> (#[trigger] apps[i].name) != (#[trigger] apps[j].name)
}

/// True when some application in the sequence carries this name.
pub open spec fn contains_name(apps: Seq<AppView>, name: Seq<char>) -> bool {
    exists|i: int| 0 <= i < apps.len() && (#[trigger] apps[i].name) == name
}

/// The index of the application carrying this name; meaningful when
/// [`contains_name`] holds and the names are unique.
pub open spec fn idx_of(apps: Seq<AppView>, name: Seq<char>) -> int {
    choose|i: int| 0 <= i < apps.len() && (#[trigger] apps[i].name) == name
}

/// The application carrying this name, if any.
pub open spec fn lookup(apps: Seq<AppView>, name: Seq<char>) -> Option<AppView> {
    if contains_name(apps, name) {
        Some(apps[idx_of(apps, name)])
    } else {
        None
    }
}

/// When names are unique, any index whose application carries the name is
/// the index that [`idx_of`] denotes.
pub proof fn lemma_idx_of_unique(apps: Seq<AppView>, name: Seq<char>, i: int)
    requires
        unique_names(apps),
        0 <= i < apps.len(),
        apps[i].name == name,
    ensures
        idx_of(apps, name) == i,
        lookup(apps, name) == Some(apps[i]),
{
    assert(contains_name(apps, name));
    let j = idx_of(apps, name);
    if i < j {
        assert(apps[i].name != apps[j].name);
    } else if j < i {
        assert(apps[j].name != apps[i].name);
    }
}

/// The applications of one run, keyed by name. Insertion order is kept and
/// is the order in which whole-run operations walk the applications.
pub struct AppMap {
    apps: Vec<App>,
}

impl View for AppMap {
    type V = Seq<AppView>;

    closed spec fn view(&self) -> Seq<AppView> {
        self.apps.deep_view()
    }
}

/// What inserting an application means: a new name is appended, a known
/// name has its application replaced in place.
pub open spec fn insert_spec(apps: Seq<AppView>, app: AppView) -> Seq<AppView> {
    if contains_name(apps, app.name) {
        apps.update(idx_of(apps, app.name), app)
    } else {
        apps.push(app)
    }
}

impl AppMap {
    /// Every application in the map has a distinct name. Constructors
    /// establish this and [`AppMap::insert`] preserves it.
    pub open spec fn wf(&self) -> bool {
        unique_names(self@)
    }

    /// An empty map.
    pub fn new() -> (r: Self)
        ensures
            r@ == Seq::<AppView>::empty(),
            r.wf(),
    {
        let r = AppMap { apps: Vec::new() };
        proof {
            assert(r@ =~= Seq::<AppView>::empty());
        }
        r
    }

    /// How many applications the map holds.
    pub fn len(&self) -> (r: usize)
        ensures
            r == self@.len(),
    {
        self.apps.len()
    }

    /// Whether the map holds an application by this name.
    pub fn contains_key(&self, name: &str) -> (r: bool)
        ensures
            r == contains_name(self@, name@),
    {
        let n = self.apps.len();
        let mut i: usize = 0;
        while i < n
            invariant
                0 <= i <= n,
                n == self@.len(),
                forall|j: int| 0 <= j < i ==> (#[trigger] self@[j].name) != name@,
            decreases n - i,
        {
            if crate::order::str_eq(self.apps[i].name.as_str(), name) {
                proof {
                    assert(self@[i as int].name == name@);
                }
                return true;
            }
            i = i + 1;
        }
        false
    }

    /// The application by this name, if the map holds one.
    pub fn get(&self, name: &str) -> (r: Option<&App>)
        requires
            self.wf(),
        ensures
            match r {
                Some(app) => lookup(self@, name@) == Some(app@) && contains_name(self@, name@),
                None => !contains_name(self@, name@),
            },
    {
        let n = self.apps.len();
        let mut i: usize = 0;
        while i < n
            invariant
                unique_names(self@),
                0 <= i <= n,
                n == self@.len(),
                forall|j: int| 0 <= j < i ==> (#[trigger] self@[j].name) != name@,
            decreases n - i,
        {
            if crate::order::str_eq(self.apps[i].name.as_str(), name) {
                proof {
                    assert(self@[i as int].name == name@);
                    lemma_idx_of_unique(self@, name@, i as int);
                }
                return Some(&self.apps[i]);
            }
            i = i + 1;
        }
        None
    }

    /// The position of the application carrying this name, if any.
    pub fn find_index(&self, name: &str) -> (r: Option<usize>)
        requires
            self.wf(),
        ensures
            match r {
                Some(i) => i < self@.len() && self@[i as int].name == name@ && idx_of(self@, name@)
                    == i as int && contains_name(self@, name@),
                None => !contains_name(self@, name@),
            },
    {
        let n = self.apps.len();
        let mut i: usize = 0;
        while i < n
            invariant
                unique_names(self@),
                0 <= i <= n,
                n == self@.len(),
                forall|j: int| 0 <= j < i ==> (#[trigger] self@[j].name) != name@,
            decreases n - i,
        {
            if crate::order::str_eq(self.apps[i].name.as_str(), name) {
                proof {
                    assert(self@[i as int].name == name@);
                    lemma_idx_of_unique(self@, name@, i as int);
                }
                return Some(i);
            }
            i = i + 1;
        }
        None
    }

    /// The application at this position, in insertion order.
    pub fn get_at(&self, i: usize) -> (r: &App)
        requires
            i < self@.len(),
        ensures
            r@ == self@[i as int],
    {
        &self.apps[i]
    }

    /// Inserts an application under its own name: a new name is appended,
    /// a known name has its application replaced.
    pub fn insert(&mut self, app: App)
        requires
            old(self).wf(),
        ensures
            final(self)@ == insert_spec(old(self)@, app@),
            final(self).wf(),
    {
        let n = self.apps.len();
        let mut i: usize = 0;
        while i < n
            invariant
                unique_names(self@),
                0 <= i <= n,
                n == self@.len(),
                self@ == old(self)@,
                forall|j: int| 0 <= j < i ==> (#[trigger] self@[j].name) != app@.name,
            decreases n - i,
        {
            if crate::order::str_eq(self.apps[i].name.as_str(), app.name.as_str()) {
                proof {
                    assert(self@[i as int].name == app@.name);
                    lemma_idx_of_unique(self@, app@.name, i as int);
                }
                let ghost pre = self@;
                self.apps.remove(i);
                self.apps.insert(i, app);
                proof {
                    assert(self@ =~= pre.update(i as int, app@));
                    assert forall|p: int, q: int|
                        0 <= p < q < self@.len() implies (#[trigger] self@[p].name)
                        != (#[trigger] self@[q].name) by {
                        assert(pre[p].name != pre[q].name);
                        if p != i && q != i {
                            assert(self@[p] == pre[p]);
                            assert(self@[q] == pre[q]);
                        }
                    }
                }
                return ;
            }
            i = i + 1;
        }
        let ghost pre = self@;
        self.apps.push(app);
        proof {
            assert(self@ =~= pre.push(app@));
            assert(!contains_name(pre, app@.name));
            assert forall|p: int, q: int|
                0 <= p < q < self@.len() implies (#[trigger] self@[p].name)
                != (#[trigger] self@[q].name) by {
                if q < pre.len() {
                    assert(pre[p].name != pre[q].name);
                } else {
                    assert(self@[q] == app@);
                    assert(pre[p].name != app@.name);
                }
            }
        }
    }
}

} // verus!
