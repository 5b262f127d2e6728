use file_trackr::diff::{
    DirSnapshotDiff, FSEntrySnapshotDiff, FileSnapshotDiff, SizeDiff,
};
use file_trackr::snapshot::{DirSnapshot, FSEntrySnapshot, FileSnapshot};

fn file(size: u64) -> FSEntrySnapshot {
    FSEntrySnapshot::File(FileSnapshot { size })
}

fn dir_of(size: u64, files: Vec<(&str, FSEntrySnapshot)>) -> DirSnapshot {
    DirSnapshot {
        size,
        files: files.into_iter().map(|(name, entry)| (name.to_string(), entry)).collect(),
    }
}

fn dir(size: u64, files: Vec<(&str, FSEntrySnapshot)>) -> FSEntrySnapshot {
    FSEntrySnapshot::Directory(dir_of(size, files))
}

fn names<T>(entries: &[(String, T)]) -> Vec<&str> {
    entries.iter().map(|(name, _)| name.as_str()).collect()
}

fn before() -> FSEntrySnapshot {
    dir(
        10,
        vec![("same", file(1)), ("grown", file(2)), ("gone", file(3)), ("d", dir(4, vec![("x", file(4))]))],
    )
}

fn after() -> FSEntrySnapshot {
    dir(
        16,
        vec![("d", dir(6, vec![("x", file(6))])), ("same", file(1)), ("grown", file(5)), ("born", file(4))],
    )
}

fn difference(old: &FSEntrySnapshot, new: &FSEntrySnapshot) -> DirSnapshotDiff {
    assert!(FSEntrySnapshotDiff::comparable(old, new));
    match FSEntrySnapshotDiff::compute(old, new) {
        FSEntrySnapshotDiff::Directory(diff) => diff,
        FSEntrySnapshotDiff::File(_) => unreachable!(),
    }
}

#[test]
fn size_diff_is_there_when_sizes_differ() {
    assert_eq!(SizeDiff::compute(1, 1), None);
    assert_eq!(SizeDiff::compute(1, 2), Some(SizeDiff { old_size: 1, new_size: 2 }));
}

#[test]
fn file_changes_with_its_size() {
    let diff = FileSnapshotDiff::compute(&FileSnapshot { size: 1 }, &FileSnapshot { size: 3 });
    assert!(diff.has_changes());
    let none = FileSnapshotDiff::compute(&FileSnapshot { size: 1 }, &FileSnapshot { size: 1 });
    assert!(!none.has_changes());
}

#[test]
fn directory_lists_changes_by_kind() {
    let diff = difference(&before(), &after());
    assert_eq!(diff.size_diff, Some(SizeDiff { old_size: 10, new_size: 16 }));
    assert_eq!(names(&diff.file_diffs), vec!["grown", "d"]);
    assert_eq!(names(&diff.new_files), vec!["born"]);
    assert_eq!(names(&diff.deleted_files), vec!["gone"]);
    assert!(diff.has_changes());
}

#[test]
fn reverse_swaps_new_and_deleted() {
    let diff = difference(&after(), &before());
    assert_eq!(names(&diff.new_files), vec!["gone"]);
    assert_eq!(names(&diff.deleted_files), vec!["born"]);
    assert_eq!(diff.size_diff, Some(SizeDiff { old_size: 16, new_size: 10 }));
}

#[test]
fn same_snapshot_has_no_changes() {
    let diff = FSEntrySnapshotDiff::compute(&before(), &before());
    assert!(!diff.has_changes());
    assert_eq!(diff.size_diff(), None);
    assert_eq!(diff.depth(), 0);
    assert!(!diff.has_contents());
}

#[test]
fn diff_depth_counts_levels() {
    let diff = FSEntrySnapshotDiff::compute(&before(), &after());
    assert_eq!(diff.depth(), 2);
    assert_eq!(diff.checked_depth(), Some(2));
    assert!(diff.has_contents());
    let files = FSEntrySnapshotDiff::compute(&file(1), &file(2));
    assert_eq!(files.depth(), 0);
    assert!(files.is_file());
    assert!(!files.is_dir());
    assert!(diff.is_dir());
}

#[test]
fn new_directory_counts_with_its_depth() {
    let empty = dir(0, vec![]);
    let full = dir(1, vec![("a", dir(1, vec![("b", file(1))]))]);
    assert_eq!(FSEntrySnapshotDiff::compute(&empty, &full).depth(), 2);
    assert_eq!(FSEntrySnapshotDiff::compute(&full, &empty).depth(), 2);
}

#[test]
fn file_cannot_be_compared_with_directory() {
    assert!(!FSEntrySnapshotDiff::comparable(&file(1), &dir(1, vec![])));
    let with_file = dir(1, vec![("a", file(1))]);
    let with_dir = dir(1, vec![("a", dir(1, vec![]))]);
    assert!(!FSEntrySnapshotDiff::comparable(&with_file, &with_dir));
    assert!(FSEntrySnapshotDiff::comparable(&with_file, &dir(1, vec![("b", dir(1, vec![]))])));
}

#[test]
fn size_alone_is_a_change_of_a_directory() {
    let diff = FSEntrySnapshotDiff::compute(&dir(1, vec![]), &dir(2, vec![]));
    assert!(diff.has_changes());
    assert_eq!(diff.size_diff(), Some(SizeDiff { old_size: 1, new_size: 2 }));
}

#[test]
fn directories_are_compared() {
    let diff = DirSnapshotDiff::compute(&dir_of(1, vec![]), &dir_of(1, vec![("a", file(0))]));
    assert!(diff.has_changes());
    assert_eq!(diff.depth(), 1);
    assert_eq!(diff.size_diff, None);
}

#[test]
fn reverse_lists_same_changes() {
    let there = difference(&before(), &after());
    let back = difference(&after(), &before());
    let mut there = names(&there.file_diffs);
    let mut back = names(&back.file_diffs);
    there.sort();
    back.sort();
    assert_eq!(there, back);
}

#[test]
fn same_sizes_in_another_order_are_no_changes() {
    let a = dir(3, vec![("x", file(1)), ("y", dir(2, vec![("z", file(2))]))]);
    let b = dir(3, vec![("y", dir(2, vec![("z", file(2))])), ("x", file(1))]);
    assert!(FSEntrySnapshotDiff::comparable(&a, &b));
    assert!(!FSEntrySnapshotDiff::compute(&a, &b).has_changes());
}
