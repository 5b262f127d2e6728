use file_trackr::path::FsPath;
use file_trackr::snapshot::{DirSnapshot, FSEntrySnapshot, FSSnapshot, FileSnapshot};

fn file(size: u64) -> FSEntrySnapshot {
    FSEntrySnapshot::File(FileSnapshot { size })
}

fn dir(size: u64, files: Vec<(&str, FSEntrySnapshot)>) -> DirSnapshot {
    DirSnapshot {
        size,
        files: files.into_iter().map(|(name, entry)| (name.to_string(), entry)).collect(),
    }
}

fn sample() -> FSEntrySnapshot {
    let inner = FSEntrySnapshot::Directory(dir(5, vec![("c", file(5))]));
    FSEntrySnapshot::Directory(dir(7, vec![("a", file(2)), ("b", inner)]))
}

fn size_at(entry: &FSEntrySnapshot, path: &str) -> Option<u64> {
    entry.find_by_path(&FsPath::parse(path)).map(|found| found.size())
}

#[test]
fn size_is_that_of_the_entry() {
    assert_eq!(file(3).size(), 3);
    assert_eq!(sample().size(), 7);
}

#[test]
fn depth_counts_levels() {
    assert_eq!(file(3).depth(), 0);
    assert_eq!(FSEntrySnapshot::Directory(dir(0, vec![])).depth(), 0);
    assert_eq!(sample().depth(), 2);
    assert_eq!(sample().checked_depth(), Some(2));
    assert_eq!(dir(1, vec![("a", file(1))]).depth(), 1);
}

#[test]
fn entries_are_found_by_path() {
    let root = sample();
    assert_eq!(size_at(&root, "a"), Some(2));
    assert_eq!(size_at(&root, "b"), Some(5));
    assert_eq!(size_at(&root, "b/c"), Some(5));
    assert_eq!(size_at(&root, "b/./c/"), Some(5));
    assert_eq!(size_at(&root, "c"), None);
    assert_eq!(size_at(&root, "a/c"), None);
    assert_eq!(size_at(&root, "b/c/d"), None);
}

#[test]
fn paths_compose() {
    let root = sample();
    let inner = root.find_by_path(&FsPath::parse("b")).unwrap();
    assert_eq!(size_at(inner, "c"), size_at(&root, "b/c"));
}

#[test]
fn file_has_nothing_below_it() {
    assert!(file(1).find_by_path(&FsPath::parse("a")).is_none());
}

#[test]
fn first_of_a_name_is_found() {
    let twice = dir(3, vec![("a", file(1)), ("a", file(2))]);
    assert_eq!(twice.get_file_snapshot(&"a".to_string()).unwrap().size(), 1);
    assert!(twice.get_file_snapshot(&"b".to_string()).is_none());
}

#[test]
fn clone_holds_the_same() {
    let snapshot = FSSnapshot { root: sample(), time: 9 };
    let copy = snapshot.clone();
    assert_eq!(copy.time, 9);
    assert_eq!(size_at(&copy.root, "b/c"), Some(5));
}

#[test]
fn limited_snapshot_keeps_its_size() {
    let limited = sample().limited_to(1);
    assert_eq!(limited.depth(), 1);
    assert_eq!(limited.size(), 7);
    assert_eq!(size_at(&limited, "b"), Some(5));
    assert_eq!(size_at(&limited, "b/c"), None);
    assert_eq!(sample().limited_to(0).depth(), 0);
    assert_eq!(size_at(&sample().limited_to(9), "b/c"), Some(5));
    assert_eq!(file(3).limited_to(0).size(), 3);
}

#[test]
fn some_path_is_as_long_as_depth() {
    let root = sample();
    assert_eq!(root.depth(), 2);
    assert_eq!(size_at(&root, "b/c"), Some(5));
}
