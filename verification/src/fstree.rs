use vstd::prelude::*;

verus! {

/// The mathematical shape of one filesystem entry.
pub ghost struct FsEntryView {
    pub path: Seq<char>,
    pub is_file: bool,
    pub bytes: Seq<u8>,
}

/// One filesystem entry: a regular file with its contents, or a directory.
/// Paths are absolute, `/`-separated, without a trailing separator.
#[derive(Debug, Clone)]
pub struct FsEntry {
    pub path: String,
    pub is_file: bool,
    pub bytes: Vec<u8>,
}

impl View for FsEntry {
    type V = FsEntryView;

    open spec fn view(&self) -> FsEntryView {
        FsEntryView { path: self.path@, is_file: self.is_file, bytes: self.bytes@ }
    }
}

impl DeepView for FsEntry {
    type V = FsEntryView;

    open spec fn deep_view(&self) -> FsEntryView {
        self.view()
    }
}

/// True when every entry in the sequence has a distinct path.
pub open spec fn unique_paths(fs: Seq<FsEntryView>) -> bool {
    forall|i: int, j: int|
        0 <= i < j < fs.len() ==> (#[trigger] fs[i].path) != (#[trigger] fs[j].path)
}

/// True when some entry carries this path.
pub open spec fn contains_path(fs: Seq<FsEntryView>, path: Seq<char>) -> bool {
    exists|i: int| 0 <= i < fs.len() && (#[trigger] fs[i].path) == path
}

/// The index of the entry carrying this path; meaningful when
/// [`contains_path`] holds and the paths are unique.
pub open spec fn idx_of_path(fs: Seq<FsEntryView>, path: Seq<char>) -> int {
    choose|i: int| 0 <= i < fs.len() && (#[trigger] fs[i].path) == path
}

/// The entry carrying this path, if any.
pub open spec fn lookup_entry(fs: Seq<FsEntryView>, path: Seq<char>) -> Option<FsEntryView> {
    if contains_path(fs, path) {
        Some(fs[idx_of_path(fs, path)])
    } else {
        None
    }
}

/// This path names a regular file of the snapshot.
pub open spec fn is_file_at(fs: Seq<FsEntryView>, path: Seq<char>) -> bool {
    lookup_entry(fs, path) matches Some(e) && e.is_file
}

/// This path names a directory of the snapshot.
pub open spec fn is_dir_at(fs: Seq<FsEntryView>, path: Seq<char>) -> bool {
    lookup_entry(fs, path) matches Some(e) && !e.is_file
}

/// The bytes of the file at this path; meaningful when [`is_file_at`]
/// holds.
pub open spec fn bytes_at(fs: Seq<FsEntryView>, path: Seq<char>) -> Seq<u8> {
    lookup_entry(fs, path)->Some_0.bytes
}

/// When paths are unique, any index whose entry carries the path is the
/// index that [`idx_of_path`] denotes.
pub proof fn lemma_idx_of_path_unique(fs: Seq<FsEntryView>, path: Seq<char>, i: int)
    requires
        unique_paths(fs),
        0 <= i < fs.len(),
        fs[i].path == path,
    ensures
        idx_of_path(fs, path) == i,
        lookup_entry(fs, path) == Some(fs[i]),
{
    assert(contains_path(fs, path));
    let j = idx_of_path(fs, path);
    if i < j {
        assert(fs[i].path != fs[j].path);
    } else if j < i {
        assert(fs[j].path != fs[i].path);
    }
}

/// An in-memory listing of a filesystem subtree: which paths are regular
/// files (with their contents) and which are directories. The library does
/// no I/O of its own; a caller walks the real tree once and hands the
/// listing in.
pub struct FsSnapshot {
    entries: Vec<FsEntry>,
}

impl View for FsSnapshot {
    type V = Seq<FsEntryView>;

    closed spec fn view(&self) -> Seq<FsEntryView> {
        self.entries.deep_view()
    }
}

/// What adding an entry means: a new path is appended, a known path has
/// its entry replaced in place.
pub open spec fn add_spec(fs: Seq<FsEntryView>, e: FsEntryView) -> Seq<FsEntryView> {
    if contains_path(fs, e.path) {
        fs.update(idx_of_path(fs, e.path), e)
    } else {
        fs.push(e)
    }
}

impl FsSnapshot {
    /// Every entry of the snapshot has a distinct path. Constructors
    /// establish this and the `add` methods preserve it.
    pub open spec fn wf(&self) -> bool {
        unique_paths(self@)
    }

    /// An empty snapshot.
    pub fn new() -> (r: Self)
        ensures
            r@ == Seq::<FsEntryView>::empty(),
            r.wf(),
    {
        let r = FsSnapshot { entries: Vec::new() };
        proof {
            assert(r@ =~= Seq::<FsEntryView>::empty());
        }
        r
    }

    /// How many entries the snapshot holds.
    pub fn len(&self) -> (r: usize)
        ensures
            r == self@.len(),
    {
        self.entries.len()
    }

    /// The entry at this position.
    pub fn get_at(&self, i: usize) -> (r: &FsEntry)
        requires
            i < self@.len(),
        ensures
            r@ == self@[i as int],
    {
        &self.entries[i]
    }

    /// Records an entry; a previous entry under the same path is replaced.
    fn add_entry(&mut self, entry: FsEntry)
        requires
            old(self).wf(),
        ensures
            final(self)@ == add_spec(old(self)@, entry@),
            final(self).wf(),
    {
        let n = self.entries.len();
        let mut i: usize = 0;
        while i < n
            invariant
                unique_paths(self@),
                0 <= i <= n,
                n == self@.len(),
                self@ == old(self)@,
                forall|j: int| 0 <= j < i ==> (#[trigger] self@[j].path) != entry@.path,
            decreases n - i,
        {
            if crate::order::str_eq(self.entries[i].path.as_str(), entry.path.as_str()) {
                proof {
                    assert(self@[i as int].path == entry@.path);
                    lemma_idx_of_path_unique(self@, entry@.path, i as int);
                }
                let ghost pre = self@;
                self.entries.remove(i);
                self.entries.insert(i, entry);
                proof {
                    assert(self@ =~= pre.update(i as int, entry@));
                    assert forall|p: int, q: int|
                        0 <= p < q < self@.len() implies (#[trigger] self@[p].path)
                        != (#[trigger] self@[q].path) by {
                        assert(pre[p].path != pre[q].path);
                        if p != i && q != i {
                            assert(self@[p] == pre[p]);
                            assert(self@[q] == pre[q]);
                        }
                    }
                }
                return ;
            }
            i = i + 1;
        }
        let ghost pre = self@;
        self.entries.push(entry);
        proof {
            assert(self@ =~= pre.push(entry@));
            assert(!contains_path(pre, entry@.path));
            assert forall|p: int, q: int|
                0 <= p < q < self@.len() implies (#[trigger] self@[p].path)
                != (#[trigger] self@[q].path) by {
                if q < pre.len() {
                    assert(pre[p].path != pre[q].path);
                } else {
                    assert(self@[q] == entry@);
                    assert(pre[p].path != entry@.path);
                }
            }
        }
    }

    /// Records a regular file and its contents.
    pub fn add_file(&mut self, path: String, bytes: Vec<u8>)
        requires
            old(self).wf(),
        ensures
            final(self)@ == add_spec(
                old(self)@,
                FsEntryView { path: path@, is_file: true, bytes: bytes@ },
            ),
            final(self).wf(),
    {
        self.add_entry(FsEntry { path, is_file: true, bytes });
    }

    /// Records a directory.
    pub fn add_dir(&mut self, path: String)
        requires
            old(self).wf(),
        ensures
            final(self)@ == add_spec(
                old(self)@,
                FsEntryView { path: path@, is_file: false, bytes: Seq::<u8>::empty() },
            ),
            final(self).wf(),
    {
        let bytes: Vec<u8> = Vec::new();
        proof {
            assert(bytes@ =~= Seq::<u8>::empty());
        }
        self.add_entry(FsEntry { path, is_file: false, bytes });
    }

    /// Whether this path names a regular file.
    pub fn is_file(&self, path: &str) -> (r: bool)
        requires
            self.wf(),
        ensures
            r == is_file_at(self@, path@),
    {
        match self.find(path) {
            Some(e) => e.is_file,
            None => false,
        }
    }

    /// Whether this path names a directory.
    pub fn is_dir(&self, path: &str) -> (r: bool)
        requires
            self.wf(),
        ensures
            r == is_dir_at(self@, path@),
    {
        match self.find(path) {
            Some(e) => !e.is_file,
            None => false,
        }
    }

    /// Whether this path exists at all in the snapshot.
    pub fn path_exists(&self, path: &str) -> (r: bool)
        requires
            self.wf(),
        ensures
            r == contains_path(self@, path@),
    {
        self.find(path).is_some()
    }

    /// The contents of the file at this path, if it is a regular file.
    pub fn read_file(&self, path: &str) -> (r: Option<&Vec<u8>>)
        requires
            self.wf(),
        ensures
            match r {
                Some(b) => is_file_at(self@, path@) && b@ == bytes_at(self@, path@),
                None => !is_file_at(self@, path@),
            },
    {
        match self.find(path) {
            Some(e) => {
                if e.is_file {
                    Some(&e.bytes)
                } else {
                    None
                }
            },
            None => None,
        }
    }

    /// The entry at this path, if any.
    fn find(&self, path: &str) -> (r: Option<&FsEntry>)
        requires
            self.wf(),
        ensures
            match r {
                Some(e) => lookup_entry(self@, path@) == Some(e@) && contains_path(self@, path@),
                None => !contains_path(self@, path@),
            },
    {
        let n = self.entries.len();
        let mut i: usize = 0;
        while i < n
            invariant
                unique_paths(self@),
                0 <= i <= n,
                n == self@.len(),
                forall|j: int| 0 <= j < i ==> (#[trigger] self@[j].path) != path@,
            decreases n - i,
        {
            if crate::order::str_eq(self.entries[i].path.as_str(), path) {
                proof {
                    assert(self@[i as int].path == path@);
                    lemma_idx_of_path_unique(self@, path@, i as int);
                }
                return Some(&self.entries[i]);
            }
            i = i + 1;
        }
        None
    }
}

} // verus!
