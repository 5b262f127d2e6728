//! Differences between two snapshots.
use vstd::prelude::*;

use crate::snapshot;
use crate::snapshot::{
    DirSnapshot, DirView, EntryView, FSEntrySnapshot, FileSnapshot, Files,
};

verus! {

/// A size that changed.
#[derive(Debug, Clone, Copy, PartialEq, Eq, Structural)]
pub struct SizeDiff {
    pub old_size: u64,
    pub new_size: u64,
}

/// What changed about a file.
pub struct FileSnapshotDiff {
    pub size_diff: Option<SizeDiff>,
}

/// What changed about a directory.
pub struct DirSnapshotDiff {
    pub size_diff: Option<SizeDiff>,
    pub file_diffs: Vec<(String, FSEntrySnapshotDiff)>,
    pub new_files: Vec<(String, FSEntrySnapshot)>,
    pub deleted_files: Vec<(String, FSEntrySnapshot)>,
}

/// What changed about a file or a directory.
pub enum FSEntrySnapshotDiff {
    File(FileSnapshotDiff),
    Directory(DirSnapshotDiff),
}

/// What an [`FSEntrySnapshotDiff`] holds.
#[verifier::ext_equal]
pub ghost enum DiffView {
    File(Option<SizeDiff>),
    Directory(DirDiffView),
}

/// What a [`DirSnapshotDiff`] holds.
#[verifier::ext_equal]
pub ghost struct DirDiffView {
    pub size_diff: Option<SizeDiff>,
    pub file_diffs: Seq<(Seq<char>, DiffView)>,
    pub new_files: Files,
    pub deleted_files: Files,
}

/// Differences of the entries of a directory, by name.
pub type FileDiffs = Seq<(Seq<char>, DiffView)>;

impl FSEntrySnapshotDiff {
    /// What the difference holds.
    pub open spec fn tree(&self) -> DiffView
        decreases self,
    {
        match self {
            FSEntrySnapshotDiff::File(file) => DiffView::File(file.size_diff),
            FSEntrySnapshotDiff::Directory(dir) => DiffView::Directory(dir.tree()),
        }
    }
}

impl DirSnapshotDiff {
    /// What the difference holds.
    pub open spec fn tree(&self) -> DirDiffView
        decreases self,
    {
        DirDiffView {
            size_diff: self.size_diff,
            file_diffs: Seq::new(
                self.file_diffs@.len(),
                |i: int|
                    if 0 <= i < self.file_diffs@.len() {
                        (self.file_diffs@[i].0@, self.file_diffs@[i].1.tree())
                    } else {
                        arbitrary()
                    },
            ),
            new_files: snapshot::file_views(self.new_files@),
            deleted_files: snapshot::file_views(self.deleted_files@),
        }
    }
}

impl View for FSEntrySnapshotDiff {
    type V = DiffView;

    open spec fn view(&self) -> DiffView {
        self.tree()
    }
}

impl View for DirSnapshotDiff {
    type V = DirDiffView;

    open spec fn view(&self) -> DirDiffView {
        self.tree()
    }
}

/// What each of a sequence of differences holds.
pub open spec fn diff_views(diffs: Seq<(String, FSEntrySnapshotDiff)>) -> FileDiffs {
    Seq::new(diffs.len(), |i: int| (diffs[i].0@, diffs[i].1@))
}

/// The change from one size to another, if it is one.
pub open spec fn size_change(old: u64, new: u64) -> Option<SizeDiff> {
    if old != new {
        Some(SizeDiff { old_size: old, new_size: new })
    } else {
        None
    }
}

impl DiffView {
    /// The change of the size, if it changed.
    pub open spec fn size_diff(self) -> Option<SizeDiff> {
        match self {
            DiffView::File(size_diff) => size_diff,
            DiffView::Directory(dir) => dir.size_diff,
        }
    }

    /// Whether anything changed.
    pub open spec fn has_changes(self) -> bool {
        match self {
            DiffView::File(size_diff) => size_diff is Some,
            DiffView::Directory(dir) => dir.has_changes(),
        }
    }
}

impl DirDiffView {
    /// Whether anything changed.
    pub open spec fn has_changes(self) -> bool {
        ||| self.size_diff is Some
        ||| self.new_files.len() > 0
        ||| self.deleted_files.len() > 0
        ||| self.file_diffs.len() > 0
    }
}

/// Whether two snapshots can be compared: nothing that has a name in both is a file in
/// one and a directory in the other.
pub open spec fn comparable(old: EntryView, new: EntryView) -> bool
    decreases old,
{
    match (old, new) {
        (EntryView::File(_), EntryView::File(_)) => true,
        (EntryView::Directory(old), EntryView::Directory(new)) => forall|i: int|
            #![trigger old.files[i]]
            0 <= i < old.files.len() ==> match snapshot::found_file(new.files, old.files[i].0) {
                Some(entry) => comparable(old.files[i].1, entry),
                None => true,
            },
        _ => false,
    }
}

/// Holds of the entries whose name is not among `files`.
pub open spec fn absent_from(files: Files) -> spec_fn((Seq<char>, EntryView)) -> bool {
    |file: (Seq<char>, EntryView)| snapshot::found_file(files, file.0) is None
}

/// Those entries of `files` whose name is not among `others`.
pub open spec fn only_in(files: Files, others: Files) -> Files {
    files.filter(absent_from(others))
}

/// The difference between two snapshots that can be compared.
pub open spec fn entry_diff(old: EntryView, new: EntryView) -> DiffView
    decreases old, 0nat,
{
    match (old, new) {
        (EntryView::File(old), EntryView::File(new)) => DiffView::File(
            size_change(old.size, new.size),
        ),
        (EntryView::Directory(old), EntryView::Directory(new)) => DiffView::Directory(
            dir_diff(old, new),
        ),
        _ => arbitrary(),
    }
}

/// The difference between two directories.
pub open spec fn dir_diff(old: DirView, new: DirView) -> DirDiffView
    decreases old, 1nat,
{
    DirDiffView {
        size_diff: size_change(old.size, new.size),
        file_diffs: changed_files(old.files, new.files, old.files.len()),
        new_files: only_in(new.files, old.files),
        deleted_files: only_in(old.files, new.files),
    }
}

/// The differences, where there are any, between the first `n` entries of `old` and
/// those of the same name in `new`.
pub open spec fn changed_files(old: Files, new: Files, n: nat) -> FileDiffs
    decreases old, n,
{
    if n == 0 || n > old.len() {
        Seq::empty()
    } else {
        let before = changed_files(old, new, (n - 1) as nat);
        let (name, entry) = old[n - 1];
        match snapshot::found_file(new, name) {
            None => before,
            Some(other) => {
                let diff = entry_diff(entry, other);
                if diff.has_changes() {
                    before.push((name, diff))
                } else {
                    before
                }
            },
        }
    }
}

/// How many levels there are below a difference.
pub open spec fn diff_depth(diff: DiffView) -> nat
    decreases diff, 0nat,
{
    match diff {
        DiffView::File(_) => 0,
        DiffView::Directory(dir) => dir_diff_depth(dir),
    }
}

/// How many levels there are below the difference of a directory: as many as below the
/// deepest of the three lists that it holds.
pub open spec fn dir_diff_depth(dir: DirDiffView) -> nat
    decreases dir, 1nat,
{
    let changed = file_diffs_depth(dir.file_diffs, dir.file_diffs.len());
    let created = snapshot::files_depth(dir.new_files, dir.new_files.len());
    let deleted = snapshot::files_depth(dir.deleted_files, dir.deleted_files.len());
    snapshot::larger(snapshot::larger(changed, created), deleted)
}

/// How many levels there are below the first `n` differences: one more than below the
/// deepest of them.
pub open spec fn file_diffs_depth(diffs: FileDiffs, n: nat) -> nat
    decreases diffs, n,
{
    if n == 0 || n > diffs.len() {
        0
    } else {
        snapshot::larger(
            file_diffs_depth(diffs, (n - 1) as nat),
            1 + diff_depth(diffs[n - 1].1),
        )
    }
}

/// The depth of the first differences is no more than that of all.
pub proof fn lemma_file_diffs_depth_grows(diffs: FileDiffs, m: nat, n: nat)
    requires
        m <= n <= diffs.len(),
    ensures
        file_diffs_depth(diffs, m) <= file_diffs_depth(diffs, n),
    decreases n - m,
{
    if m < n {
        lemma_file_diffs_depth_grows(diffs, m, (n - 1) as nat);
    }
}

impl SizeDiff {
    /// The change from one size to another, if it is one.
    pub fn compute(old: u64, new: u64) -> (res: Option<Self>)
        ensures
            res == size_change(old, new),
    {
        if old != new {
            Some(SizeDiff { old_size: old, new_size: new })
        } else {
            None
        }
    }
}

impl FileSnapshotDiff {
    /// The difference between two files.
    pub fn compute(old: &FileSnapshot, new: &FileSnapshot) -> (res: Self)
        ensures
            res.size_diff == size_change(old.size, new.size),
    {
        FileSnapshotDiff { size_diff: SizeDiff::compute(old.size, new.size) }
    }

    /// Whether anything changed.
    pub fn has_changes(&self) -> (res: bool)
        ensures
            res == (self.size_diff is Some),
    {
        self.size_diff.is_some()
    }
}

impl DirSnapshotDiff {
    /// The difference between two directories.
    pub fn compute(old: &DirSnapshot, new: &DirSnapshot) -> (res: Self)
        requires
            comparable(EntryView::Directory(old@), EntryView::Directory(new@)),
        ensures
            res@ == dir_diff(old@, new@),
        decreases old, 1nat,
    {
        let ghost old_files = old@.files;
        let ghost new_files = new@.files;
        let mut file_diffs: Vec<(String, FSEntrySnapshotDiff)> = Vec::new();
        let mut created: Vec<(String, FSEntrySnapshot)> = Vec::new();
        let mut deleted: Vec<(String, FSEntrySnapshot)> = Vec::new();

        assert(old_files.take(0) =~= Files::empty());
        assert(new_files.take(0) =~= Files::empty());
        let mut i: usize = 0;
        while i < old.files.len()
            invariant
                i <= old.files@.len(),
                old_files == old@.files,
                new_files == new@.files,
                comparable(EntryView::Directory(old@), EntryView::Directory(new@)),
                diff_views(file_diffs@) == changed_files(old_files, new_files, i as nat),
                snapshot::file_views(deleted@) == only_in(old_files.take(i as int), new_files),
            decreases old.files@.len() - i,
        {
            let file = &old.files[i];
            assert(old_files[i as int] == (file.0@, file.1@));
            assert(old_files.take(i + 1).drop_last() =~= old_files.take(i as int));
            assert(old_files.take(i + 1).last() == old_files[i as int]);
            reveal(Seq::filter);
            match new.get_file_snapshot(&file.0) {
                Some(other) => {
                    proof {
                        lemma_entries_comparable(old@, new@, i as int);
                    }
                    let diff = FSEntrySnapshotDiff::compute(&file.1, other);
                    if diff.has_changes() {
                        let ghost before = file_diffs@;
                        file_diffs.push((file.0.clone(), diff));
                        assert(diff_views(file_diffs@) =~= diff_views(before).push(
                            (file.0@, diff@),
                        ));
                    }
                },
                None => {
                    let ghost before = deleted@;
                    deleted.push((file.0.clone(), file.1.clone()));
                    assert(snapshot::file_views(deleted@) =~= snapshot::file_views(before).push(
                        (file.0@, file.1@),
                    ));
                },
            }
            i = i + 1;
        }
        assert(old_files.take(old_files.len() as int) =~= old_files);

        let mut k: usize = 0;
        while k < new.files.len()
            invariant
                k <= new.files@.len(),
                old_files == old@.files,
                new_files == new@.files,
                snapshot::file_views(created@) == only_in(new_files.take(k as int), old_files),
            decreases new.files@.len() - k,
        {
            let file = &new.files[k];
            assert(new_files[k as int] == (file.0@, file.1@));
            assert(new_files.take(k + 1).drop_last() =~= new_files.take(k as int));
            assert(new_files.take(k + 1).last() == new_files[k as int]);
            reveal(Seq::filter);
            if old.get_file_snapshot(&file.0).is_none() {
                let ghost before = created@;
                created.push((file.0.clone(), file.1.clone()));
                assert(snapshot::file_views(created@) =~= snapshot::file_views(before).push(
                    (file.0@, file.1@),
                ));
            }
            k = k + 1;
        }
        assert(new_files.take(new_files.len() as int) =~= new_files);

        let res = DirSnapshotDiff {
            size_diff: SizeDiff::compute(old.size, new.size),
            file_diffs,
            new_files: created,
            deleted_files: deleted,
        };
        assert(res@.file_diffs =~= diff_views(file_diffs@));
        res
    }

    /// Whether anything changed.
    pub fn has_changes(&self) -> (res: bool)
        ensures
            res == self@.has_changes(),
    {
        self.size_diff.is_some() || !self.new_files.is_empty() || !self.deleted_files.is_empty()
            || !self.file_diffs.is_empty()
    }
}

/// How many levels there are below recorded entries, unless they are more than `u32`
/// can count.
fn checked_files_depth(files: &Vec<(String, FSEntrySnapshot)>) -> (res: Option<u32>)
    ensures
        res == snapshot::counted(
            snapshot::files_depth(snapshot::file_views(files@), files@.len()),
        ),
{
    let ghost views = snapshot::file_views(files@);
    let mut deepest: u32 = 0;
    let mut i: usize = 0;
    while i < files.len()
        invariant
            i <= files@.len(),
            views == snapshot::file_views(files@),
            deepest == snapshot::files_depth(views, i as nat),
        decreases files@.len() - i,
    {
        let file = &files[i];
        assert(views[i as int] == (file.0@, file.1@));
        proof {
            snapshot::lemma_files_depth_grows(views, (i + 1) as nat, views.len());
        }
        let depth = match file.1.checked_depth() {
            Some(depth) => depth.checked_add(1),
            None => None,
        };
        match depth {
            None => {
                return None;
            },
            Some(depth) => {
                deepest = deepest.max(depth);
            },
        }
        i = i + 1;
    }
    Some(deepest)
}

impl DirSnapshotDiff {
    /// How many levels there are below the difference.
    pub fn depth(&self) -> (res: u32)
        requires
            dir_diff_depth(self@) <= u32::MAX,
        ensures
            res == dir_diff_depth(self@),
    {
        self.checked_depth().unwrap()
    }

    /// How many levels there are below the difference, unless they are more than `u32`
    /// can count.
    pub fn checked_depth(&self) -> (res: Option<u32>)
        ensures
            res == snapshot::counted(dir_diff_depth(self@)),
        decreases self,
    {
        let ghost diffs = self@.file_diffs;
        let mut deepest: u32 = 0;
        let mut i: usize = 0;
        while i < self.file_diffs.len()
            invariant
                i <= self.file_diffs@.len(),
                diffs == self@.file_diffs,
                deepest == file_diffs_depth(diffs, i as nat),
            decreases self.file_diffs@.len() - i,
        {
            let file = &self.file_diffs[i];
            assert(diffs[i as int] == (file.0@, file.1@));
            proof {
                lemma_file_diffs_depth_grows(diffs, (i + 1) as nat, diffs.len());
            }
            let depth = match file.1.checked_depth() {
                Some(depth) => depth.checked_add(1),
                None => None,
            };
            match depth {
                None => {
                    return None;
                },
                Some(depth) => {
                    deepest = deepest.max(depth);
                },
            }
            i = i + 1;
        }
        match (checked_files_depth(&self.new_files), checked_files_depth(&self.deleted_files)) {
            (Some(created), Some(deleted)) => Some(deepest.max(created).max(deleted)),
            _ => None,
        }
    }

    /// Whether there is anything below the difference.
    pub fn has_contents(&self) -> (res: bool)
        ensures
            res == (dir_diff_depth(self@) != 0),
    {
        !(self.file_diffs.is_empty() && self.new_files.is_empty() && self.deleted_files.is_empty())
    }
}

/// What two directories that can be compared hold under one name can be compared.
pub proof fn lemma_entries_comparable(old: DirView, new: DirView, i: int)
    requires
        comparable(EntryView::Directory(old), EntryView::Directory(new)),
        0 <= i < old.files.len(),
    ensures
        snapshot::found_file(new.files, old.files[i].0) matches Some(entry) ==> comparable(
            old.files[i].1,
            entry,
        ),
{
    let old_entry = EntryView::Directory(old);
    let new_entry = EntryView::Directory(new);
    assert(old_entry->Directory_0.files[i] == old.files[i]);
    assert(new_entry->Directory_0.files == new.files);
}

impl FSEntrySnapshotDiff {
    /// The difference between two snapshots.
    pub fn compute(old: &FSEntrySnapshot, new: &FSEntrySnapshot) -> (res: Self)
        requires
            comparable(old@, new@),
        ensures
            res@ == entry_diff(old@, new@),
        decreases old, 0nat,
    {
        match (old, new) {
            (FSEntrySnapshot::File(old), FSEntrySnapshot::File(new)) => {
                FSEntrySnapshotDiff::File(FileSnapshotDiff::compute(old, new))
            },
            (FSEntrySnapshot::Directory(old), FSEntrySnapshot::Directory(new)) => {
                FSEntrySnapshotDiff::Directory(DirSnapshotDiff::compute(old, new))
            },
            _ => vstd::pervasive::unreached(),
        }
    }

    /// The change of the size, if it changed.
    pub fn size_diff(&self) -> (res: Option<SizeDiff>)
        ensures
            res == self@.size_diff(),
    {
        match self {
            FSEntrySnapshotDiff::File(file_diff) => file_diff.size_diff,
            FSEntrySnapshotDiff::Directory(dir_diff) => dir_diff.size_diff,
        }
    }

    /// Whether anything changed.
    pub fn has_changes(&self) -> (res: bool)
        ensures
            res == self@.has_changes(),
    {
        match self {
            FSEntrySnapshotDiff::File(file_diff) => file_diff.has_changes(),
            FSEntrySnapshotDiff::Directory(dir_diff) => dir_diff.has_changes(),
        }
    }

    /// How many levels there are below the difference.
    pub fn depth(&self) -> (res: u32)
        requires
            diff_depth(self@) <= u32::MAX,
        ensures
            res == diff_depth(self@),
    {
        self.checked_depth().unwrap()
    }

    /// How many levels there are below the difference, unless they are more than `u32`
    /// can count.
    pub fn checked_depth(&self) -> (res: Option<u32>)
        ensures
            res == snapshot::counted(diff_depth(self@)),
        decreases self,
    {
        match self {
            FSEntrySnapshotDiff::File(_) => Some(0),
            FSEntrySnapshotDiff::Directory(dir_diff) => dir_diff.checked_depth(),
        }
    }

    /// Whether there is anything below the difference.
    pub fn has_contents(&self) -> (res: bool)
        ensures
            res == (diff_depth(self@) != 0),
    {
        match self {
            FSEntrySnapshotDiff::File(_) => false,
            FSEntrySnapshotDiff::Directory(dir_diff) => dir_diff.has_contents(),
        }
    }

    /// Whether two snapshots can be compared.
    pub fn comparable(old: &FSEntrySnapshot, new: &FSEntrySnapshot) -> (res: bool)
        ensures
            res == comparable(old@, new@),
        decreases old,
    {
        match (old, new) {
            (FSEntrySnapshot::File(_), FSEntrySnapshot::File(_)) => true,
            (FSEntrySnapshot::Directory(old_dir), FSEntrySnapshot::Directory(new_dir)) => {
                let mut i: usize = 0;
                while i < old_dir.files.len()
                    invariant
                        i <= old_dir.files@.len(),
                        forall|j: int|
                            #![trigger old_dir@.files[j]]
                            0 <= j < i ==> match snapshot::found_file(
                                new_dir@.files,
                                old_dir@.files[j].0,
                            ) {
                                Some(entry) => comparable(old_dir@.files[j].1, entry),
                                None => true,
                            },
                        decreases_to!(old => old_dir),
                        *old == FSEntrySnapshot::Directory(*old_dir),
                        *new == FSEntrySnapshot::Directory(*new_dir),
                    decreases old_dir.files@.len() - i,
                {
                    let file = &old_dir.files[i];
                    assert(old_dir@.files[i as int] == (file.0@, file.1@));
                    match new_dir.get_file_snapshot(&file.0) {
                        Some(other) => {
                            if !FSEntrySnapshotDiff::comparable(&file.1, other) {
                                assert(!comparable(old@, new@)) by {
                                    if comparable(old@, new@) {
                                        lemma_entries_comparable(old_dir@, new_dir@, i as int);
                                    }
                                }
                                return false;
                            }
                        },
                        None => {},
                    }
                    i = i + 1;
                }
                true
            },
            _ => false,
        }
    }

    /// Whether it is the difference of a file.
    pub fn is_file(&self) -> (res: bool)
        ensures
            res == (self@ is File),
    {
        matches!(self, FSEntrySnapshotDiff::File(_))
    }

    /// Whether it is the difference of a directory.
    pub fn is_dir(&self) -> (res: bool)
        ensures
            res == (self@ is Directory),
    {
        matches!(self, FSEntrySnapshotDiff::Directory(_))
    }
}

} // verus!
