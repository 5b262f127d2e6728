//! Snapshots: what a directory tree held, and how large it was.
use vstd::prelude::*;

use crate::path;
use crate::path::{chop_path_root, FsPath, PathStep, StepView};

verus! {

/// A directory as it was found: how large all that is below it was, and those of its
/// entries that were recorded, in the order in which they were found.
#[derive(Debug)]
pub struct DirSnapshot {
    pub size: u64,
    pub files: Vec<(String, FSEntrySnapshot)>,
}

/// A file as it was found.
#[derive(Debug, Clone, Copy)]
pub struct FileSnapshot {
    pub size: u64,
}

/// A file or a directory as it was found.
#[derive(Debug)]
pub enum FSEntrySnapshot {
    File(FileSnapshot),
    Directory(DirSnapshot),
}

/// A snapshot, and the second since the Unix epoch at which it was taken.
#[derive(Debug)]
pub struct FSSnapshot {
    pub root: FSEntrySnapshot,
    pub time: u64,
}

/// What an [`FSEntrySnapshot`] holds.
#[verifier::ext_equal]
pub ghost enum EntryView {
    File(FileSnapshot),
    Directory(DirView),
}

/// What a [`DirSnapshot`] holds.
#[verifier::ext_equal]
pub ghost struct DirView {
    pub size: u64,
    pub files: Seq<(Seq<char>, EntryView)>,
}

/// What an [`FSSnapshot`] holds.
#[verifier::ext_equal]
pub ghost struct SnapshotView {
    pub root: EntryView,
    pub time: u64,
}

/// The recorded entries of a directory, by name.
pub type Files = Seq<(Seq<char>, EntryView)>;

impl EntryView {
    /// How large the file, or all that is below the directory, was.
    pub open spec fn size(self) -> u64 {
        match self {
            EntryView::File(file) => file.size,
            EntryView::Directory(dir) => dir.size,
        }
    }
}

impl FSEntrySnapshot {
    /// What the snapshot holds.
    pub open spec fn tree(&self) -> EntryView
        decreases self,
    {
        match self {
            FSEntrySnapshot::File(file) => EntryView::File(*file),
            FSEntrySnapshot::Directory(dir) => EntryView::Directory(dir.tree()),
        }
    }
}

impl DirSnapshot {
    /// What the snapshot holds.
    pub open spec fn tree(&self) -> DirView
        decreases self,
    {
        DirView {
            size: self.size,
            files: Seq::new(
                self.files@.len(),
                |i: int|
                    if 0 <= i < self.files@.len() {
                        (self.files@[i].0@, self.files@[i].1.tree())
                    } else {
                        arbitrary()
                    },
            ),
        }
    }
}

impl View for FSEntrySnapshot {
    type V = EntryView;

    open spec fn view(&self) -> EntryView {
        self.tree()
    }
}

impl View for DirSnapshot {
    type V = DirView;

    open spec fn view(&self) -> DirView {
        self.tree()
    }
}

impl View for FSSnapshot {
    type V = SnapshotView;

    open spec fn view(&self) -> SnapshotView {
        SnapshotView { root: self.root@, time: self.time }
    }
}

/// What each of a sequence of recorded entries holds.
pub open spec fn file_views(files: Seq<(String, FSEntrySnapshot)>) -> Files {
    Seq::new(files.len(), |i: int| (files[i].0@, files[i].1@))
}

/// Whether entry `i` is the first one called `name`.
pub open spec fn is_file_index(files: Files, name: Seq<char>, i: int) -> bool {
    &&& 0 <= i < files.len()
    &&& files[i].0 == name
    &&& forall|j: int| 0 <= j < i ==> (#[trigger] files[j]).0 != name
}

/// The first entry called `name`.
pub open spec fn found_file(files: Files, name: Seq<char>) -> Option<EntryView> {
    if exists|i: int| is_file_index(files, name, i) {
        Some(files[choose|i: int| is_file_index(files, name, i)].1)
    } else {
        None
    }
}

/// Pins down the first entry of a name.
pub proof fn lemma_found_file(files: Files, name: Seq<char>, i: int)
    requires
        is_file_index(files, name, i),
    ensures
        found_file(files, name) == Some(files[i].1),
{
    let k = choose|k: int| is_file_index(files, name, k);
    assert(is_file_index(files, name, k));
    if k < i {
        assert(files[k].0 != name);
    } else if i < k {
        assert(files[i].0 != name);
    }
}

/// An entry is found exactly when one has the name.
pub proof fn lemma_file_is_found(files: Files, name: Seq<char>)
    ensures
        found_file(files, name) is Some <==> exists|i: int|
            0 <= i < files.len() && (#[trigger] files[i]).0 == name,
{
    if exists|i: int| 0 <= i < files.len() && (#[trigger] files[i]).0 == name {
        let i = choose|i: int| 0 <= i < files.len() && (#[trigger] files[i]).0 == name;
        lemma_first_file(files, name, i);
    }
    if found_file(files, name) is Some {
        let k = choose|k: int| is_file_index(files, name, k);
        assert(files[k].0 == name);
    }
}

/// A name that an entry has is the name of a first entry.
proof fn lemma_first_file(files: Files, name: Seq<char>, i: int)
    requires
        0 <= i < files.len(),
        files[i].0 == name,
    ensures
        exists|k: int| is_file_index(files, name, k),
    decreases i,
{
    if exists|j: int| 0 <= j < i && (#[trigger] files[j]).0 == name {
        let j = choose|j: int| 0 <= j < i && (#[trigger] files[j]).0 == name;
        lemma_first_file(files, name, j);
    } else {
        assert(is_file_index(files, name, i));
    }
}

/// The name under which the first component of a path is displayed. A path without
/// components has the empty name there.
pub open spec fn root_name(path: Seq<StepView>) -> Seq<char> {
    if path.len() == 0 {
        Seq::empty()
    } else {
        path[0].shown
    }
}

/// What stands at `path` below an entry. An empty path leads to the entry itself.
pub open spec fn found_at(entry: EntryView, path: Seq<StepView>) -> Option<EntryView>
    decreases path.len(), 2nat,
{
    if path.len() == 0 {
        Some(entry)
    } else {
        match entry {
            EntryView::File(_) => None,
            EntryView::Directory(dir) => found_in(dir.files, path),
        }
    }
}

/// What stands at `path` below a directory with these entries. The first component
/// of the path is always looked up, so nothing but an entry with an empty name
/// stands at an empty path.
pub open spec fn found_in(files: Files, path: Seq<StepView>) -> Option<EntryView>
    decreases path.len(), 1nat,
{
    match found_file(files, root_name(path)) {
        None => None,
        Some(entry) => if path::path_rest(path).len() == 0 {
            Some(entry)
        } else {
            found_at(entry, path::path_rest(path))
        },
    }
}

/// How many levels there are below an entry.
pub open spec fn entry_depth(entry: EntryView) -> nat
    decreases entry, 0nat,
{
    match entry {
        EntryView::File(_) => 0,
        EntryView::Directory(dir) => files_depth(dir.files, dir.files.len()),
    }
}

/// How many levels there are below a directory whose entries are the first `n` of
/// `files`: one more than below the deepest of them.
pub open spec fn files_depth(files: Files, n: nat) -> nat
    decreases files, n,
{
    if n == 0 || n > files.len() {
        0
    } else {
        larger(files_depth(files, (n - 1) as nat), 1 + entry_depth(files[n - 1].1))
    }
}

/// What is left of an entry when nothing more than `depth` levels below it is kept. How
/// large it is stays.
pub open spec fn limited(entry: EntryView, depth: nat) -> EntryView
    decreases depth,
{
    match entry {
        EntryView::File(_) => entry,
        EntryView::Directory(dir) => EntryView::Directory(
            DirView {
                size: dir.size,
                files: if depth == 0 {
                    Seq::empty()
                } else {
                    Seq::new(
                        dir.files.len(),
                        |i: int| (dir.files[i].0, limited(dir.files[i].1, (depth - 1) as nat)),
                    )
                },
            },
        ),
    }
}

/// The larger of two numbers.
pub open spec fn larger(a: nat, b: nat) -> nat {
    if a < b {
        b
    } else {
        a
    }
}

/// A number of levels as a `u32`, unless it is more than that can count.
pub open spec fn counted(levels: nat) -> Option<u32> {
    if levels <= u32::MAX {
        Some(levels as u32)
    } else {
        None
    }
}

/// The depth of the first entries is no more than that of all.
pub proof fn lemma_files_depth_grows(files: Files, m: nat, n: nat)
    requires
        m <= n <= files.len(),
    ensures
        files_depth(files, m) <= files_depth(files, n),
    decreases n - m,
{
    if m < n {
        lemma_files_depth_grows(files, m, (n - 1) as nat);
    }
}

impl DirSnapshot {
    /// The first recorded entry that is called `filename`.
    pub fn get_file_snapshot(&self, filename: &String) -> (res: Option<&FSEntrySnapshot>)
        ensures
            match found_file(self@.files, filename@) {
                Some(entry) => res matches Some(found) && found@ == entry,
                None => res is None,
            },
    {
        let mut i: usize = 0;
        while i < self.files.len()
            invariant
                i <= self.files@.len(),
                forall|j: int| 0 <= j < i ==> (#[trigger] self@.files[j]).0 != filename@,
            decreases self.files@.len() - i,
        {
            let file = &self.files[i];
            assert(self@.files[i as int] == (file.0@, file.1@));
            if file.0 == *filename {
                proof {
                    lemma_found_file(self@.files, filename@, i as int);
                }
                return Some(&file.1);
            }
            i = i + 1;
        }
        proof {
            lemma_file_is_found(self@.files, filename@);
        }
        None
    }

    /// What stands at `path` below the directory.
    pub fn find_by_path(&self, path: &FsPath) -> (res: Option<&FSEntrySnapshot>)
        ensures
            match found_in(self@.files, path@.steps) {
                Some(entry) => res matches Some(found) && found@ == entry,
                None => res is None,
            },
    {
        self.find_by_steps(path.steps.as_slice())
    }

    /// What stands below the directory at the path that these steps lead along.
    pub fn find_by_steps(&self, path: &[PathStep]) -> (res: Option<&FSEntrySnapshot>)
        ensures
            match found_in(self@.files, path::step_views(path@)) {
                Some(entry) => res matches Some(found) && found@ == entry,
                None => res is None,
            },
        decreases path@.len(), 1nat,
    {
        let (_, rest) = chop_path_root(path);
        let name = if path.len() == 0 {
            String::new()
        } else {
            path[0].shown.clone()
        };
        assert(name@ == root_name(path::step_views(path@)));
        match self.get_file_snapshot(&name) {
            None => None,
            Some(file) => if rest.len() == 0 {
                Some(file)
            } else {
                file.find_by_steps(rest)
            },
        }
    }

    /// How many levels there are below the directory.
    pub fn depth(&self) -> (res: u32)
        requires
            entry_depth(EntryView::Directory(self@)) <= u32::MAX,
        ensures
            res == entry_depth(EntryView::Directory(self@)),
    {
        self.checked_depth().unwrap()
    }

    /// How many levels there are below the directory, unless they are more than `u32`
    /// can count.
    pub fn checked_depth(&self) -> (res: Option<u32>)
        ensures
            res == counted(entry_depth(EntryView::Directory(self@))),
        decreases self,
    {
        let ghost files = self@.files;
        let mut deepest: u32 = 0;
        let mut i: usize = 0;
        while i < self.files.len()
            invariant
                i <= self.files@.len(),
                files == self@.files,
                deepest == files_depth(files, i as nat),
            decreases self.files@.len() - i,
        {
            let file = &self.files[i];
            assert(files[i as int] == (file.0@, file.1@));
            proof {
                lemma_files_depth_grows(files, (i + 1) as nat, files.len());
            }
            let depth = match file.1.checked_depth() {
                Some(depth) => depth.checked_add(1),
                None => None,
            };
            match depth {
                None => {
                    return None;
                },
                Some(depth) => {
                    deepest = deepest.max(depth);
                },
            }
            i = i + 1;
        }
        Some(deepest)
    }
}

impl FSEntrySnapshot {
    /// What stands at `path` below the entry. An empty path leads to the entry itself.
    pub fn find_by_path(&self, path: &FsPath) -> (res: Option<&Self>)
        ensures
            match found_at(self@, path@.steps) {
                Some(entry) => res matches Some(found) && found@ == entry,
                None => res is None,
            },
    {
        self.find_by_steps(path.steps.as_slice())
    }

    /// What stands below the entry at the path that these steps lead along.
    pub fn find_by_steps(&self, path: &[PathStep]) -> (res: Option<&Self>)
        ensures
            match found_at(self@, path::step_views(path@)) {
                Some(entry) => res matches Some(found) && found@ == entry,
                None => res is None,
            },
        decreases path@.len(), 2nat,
    {
        if path.len() == 0 {
            Some(self)
        } else {
            match self {
                FSEntrySnapshot::File(_) => None,
                FSEntrySnapshot::Directory(dir) => dir.find_by_steps(path),
            }
        }
    }

    /// The snapshot with nothing more than `depth` levels below it.
    pub fn limited_to(self, depth: u32) -> (res: Self)
        ensures
            res@ == limited(self@, depth as nat),
        decreases depth,
    {
        match self {
            FSEntrySnapshot::File(file) => FSEntrySnapshot::File(file),
            FSEntrySnapshot::Directory(dir) => {
                let ghost before = dir@;
                let mut files: Vec<(String, FSEntrySnapshot)> = Vec::new();
                if depth > 0 {
                    let ghost all = dir.files@;
                    assert(before.files =~= file_views(all));
                    for file in it: dir.files.into_iter()
                        invariant
                            depth > 0,
                            it.seq() == all,
                            before.files == file_views(all),
                            files@.len() == it.index(),
                            forall|j: int|
                                0 <= j < files@.len() ==> (#[trigger] files@[j]).0@
                                    == before.files[j].0 && files@[j].1@ == limited(
                                    before.files[j].1,
                                    (depth - 1) as nat,
                                ),
                    {
                        assert(before.files[it.index() as int] == (file.0@, file.1@));
                        files.push((file.0, file.1.limited_to(depth - 1)));
                    }
                }
                let res = FSEntrySnapshot::Directory(DirSnapshot { size: dir.size, files });
                assert(res@->Directory_0.files =~= limited(
                    EntryView::Directory(before),
                    depth as nat,
                )->Directory_0.files);
                res
            },
        }
    }

    /// How large the file, or all that is below the directory, was.
    pub fn size(&self) -> (res: u64)
        ensures
            res == self@.size(),
    {
        match self {
            FSEntrySnapshot::File(snapshot) => snapshot.size,
            FSEntrySnapshot::Directory(snapshot) => snapshot.size,
        }
    }

    /// How many levels there are below the entry.
    pub fn depth(&self) -> (res: u32)
        requires
            entry_depth(self@) <= u32::MAX,
        ensures
            res == entry_depth(self@),
    {
        self.checked_depth().unwrap()
    }

    /// How many levels there are below the entry, unless they are more than `u32` can
    /// count.
    pub fn checked_depth(&self) -> (res: Option<u32>)
        ensures
            res == counted(entry_depth(self@)),
        decreases self,
    {
        match self {
            FSEntrySnapshot::File(_) => Some(0),
            FSEntrySnapshot::Directory(snapshot) => snapshot.checked_depth(),
        }
    }
}

impl Clone for FSEntrySnapshot {
    fn clone(&self) -> (res: Self)
        ensures
            res@ == self@,
        decreases self,
    {
        match self {
            FSEntrySnapshot::File(file) => FSEntrySnapshot::File(*file),
            FSEntrySnapshot::Directory(dir) => FSEntrySnapshot::Directory(dir.clone()),
        }
    }
}

impl Clone for DirSnapshot {
    fn clone(&self) -> (res: Self)
        ensures
            res@ == self@,
        decreases self,
    {
        let mut files: Vec<(String, FSEntrySnapshot)> = Vec::new();
        let mut i: usize = 0;
        while i < self.files.len()
            invariant
                i <= self.files@.len(),
                files@.len() == i,
                forall|j: int|
                    0 <= j < i ==> (#[trigger] files@[j]).0@ == self.files@[j].0@ && files@[j].1@
                        == self.files@[j].1@,
            decreases self.files@.len() - i,
        {
            let file = &self.files[i];
            files.push((file.0.clone(), file.1.clone()));
            i = i + 1;
        }
        let res = DirSnapshot { size: self.size, files };
        assert(res@.files =~= self@.files);
        res
    }
}

impl Clone for FSSnapshot {
    fn clone(&self) -> (res: Self)
        ensures
            res@ == self@,
    {
        FSSnapshot { root: self.root.clone(), time: self.time }
    }
}

} // verus!
