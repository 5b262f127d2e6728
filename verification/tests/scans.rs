use file_trackr::path::{FsPath, OsName};
use file_trackr::rules::{PathPattern, SnapshotRule, SnapshotRuleSet};
use file_trackr::scan::{
    dir_size, take_next, take_snapshot, RawContent, RawDir, RawEntry, ScanError, SnapshotWorkerMessage,
    TakenSnapshot,
};
use file_trackr::snapshot::{DirSnapshot, FSEntrySnapshot};

fn entry(name: &str, path: &str, content: RawContent) -> RawEntry {
    RawEntry { name: OsName::Text(name.to_string()), path: path.to_string(), content }
}

fn raw(entries: Vec<RawEntry>) -> RawDir {
    RawDir { entries, failure: None }
}

fn broken(entries: Vec<RawEntry>, reason: &str) -> RawDir {
    RawDir { entries, failure: Some(reason.to_string()) }
}

fn depth(levels: u32) -> SnapshotRuleSet {
    let mut rules = SnapshotRuleSet::new();
    rules.add_rule(PathPattern::Wildcard, SnapshotRule::Single(levels));
    rules
}

/// a (3 bytes), d/b (4 bytes), d/e/c (5 bytes), a link
fn tree() -> RawDir {
    let e = raw(vec![entry("c", "/r/d/e/c", RawContent::File(5))]);
    let d = raw(vec![
        entry("b", "/r/d/b", RawContent::File(4)),
        entry("e", "/r/d/e", RawContent::Directory(e)),
    ]);
    raw(vec![
        entry("a", "/r/a", RawContent::File(3)),
        entry("d", "/r/d", RawContent::Directory(d)),
        entry("l", "/r/l", RawContent::Other),
    ])
}

fn outcome(taken: TakenSnapshot) -> FSEntrySnapshot {
    match taken.outcome {
        Ok(snapshot) => snapshot,
        Err(_) => panic!("no snapshot"),
    }
}

fn found(snapshot: &FSEntrySnapshot, path: &str) -> Option<u64> {
    snapshot.find_by_path(&FsPath::parse(path)).map(|entry| entry.size())
}

fn told(messages: &[SnapshotWorkerMessage]) -> Vec<String> {
    messages
        .iter()
        .map(|message| match message {
            SnapshotWorkerMessage::Trace(path) => format!("trace {}", path),
            SnapshotWorkerMessage::Error(error) => format!("error {}", error),
        })
        .collect()
}

#[test]
fn sizes_below_are_added_up() {
    assert!(matches!(dir_size(&tree()), Ok(12)));
    assert!(matches!(dir_size(&raw(vec![])), Ok(0)));
}

#[test]
fn unreadable_directory_has_no_size() {
    let dir = broken(vec![entry("a", "/r/a", RawContent::File(1))], "denied");
    assert!(matches!(dir_size(&dir), Err(ScanError::Io(reason)) if reason == "denied"));
}

#[test]
fn sizes_can_be_too_large() {
    let dir = raw(vec![
        entry("a", "/r/a", RawContent::File(u64::MAX)),
        entry("b", "/r/b", RawContent::File(1)),
    ]);
    assert!(matches!(dir_size(&dir), Err(ScanError::Overflow)));
    assert!(matches!(take_snapshot(&dir, &depth(1)).outcome, Err(ScanError::Overflow)));
}

#[test]
fn rules_decide_what_is_recorded() {
    let shallow = outcome(take_snapshot(&tree(), &depth(0)));
    assert_eq!(shallow.size(), 12);
    assert_eq!(found(&shallow, "d"), Some(9));
    assert_eq!(found(&shallow, "d/b"), None);
    let deep = outcome(take_snapshot(&tree(), &depth(2)));
    assert_eq!(deep.size(), 12);
    assert_eq!(found(&deep, "d/b"), Some(4));
    assert_eq!(found(&deep, "d/e/c"), Some(5));
}

#[test]
fn nothing_is_recorded_without_rules() {
    let snapshot = outcome(take_snapshot(&tree(), &SnapshotRuleSet::new()));
    assert_eq!(snapshot.size(), 12);
    assert_eq!(snapshot.depth(), 0);
}

#[test]
fn links_are_not_recorded() {
    let snapshot = outcome(take_snapshot(&tree(), &depth(3)));
    assert_eq!(found(&snapshot, "l"), None);
    match &snapshot {
        FSEntrySnapshot::Directory(dir) => assert_eq!(dir.files.len(), 2),
        FSEntrySnapshot::File(_) => unreachable!(),
    }
}

#[test]
fn entries_one_level_above_the_end_are_traced() {
    let taken = take_snapshot(&tree(), &depth(1));
    assert_eq!(told(&taken.messages), vec!["trace /r/a", "trace /r/d", "trace /r/l"]);
    let deeper = take_snapshot(&tree(), &depth(2));
    assert_eq!(told(&deeper.messages), vec!["trace /r/d/b", "trace /r/d/e"]);
}

#[test]
fn unreadable_directory_is_left_out() {
    let dir = raw(vec![
        entry("a", "/r/a", RawContent::File(3)),
        entry("d", "/r/d", RawContent::Directory(broken(vec![], "denied"))),
    ]);
    let taken = take_snapshot(&dir, &depth(0));
    assert_eq!(told(&taken.messages), vec!["error Failed to snap /r/d: denied"]);
    let snapshot = outcome(taken);
    assert_eq!(snapshot.size(), 3);
    assert_eq!(found(&snapshot, "d"), None);
}

#[test]
fn unreadable_root_is_an_error() {
    let taken = take_snapshot(&broken(vec![], "missing"), &depth(0));
    assert!(matches!(taken.outcome, Err(ScanError::Io(reason)) if reason == "missing"));
    assert!(taken.messages.is_empty());
}

#[test]
fn unreadable_directory_without_a_rule_fails_its_parent() {
    let dir = raw(vec![entry("d", "/r/d", RawContent::Directory(broken(vec![], "denied")))]);
    let taken = take_snapshot(&dir, &SnapshotRuleSet::new());
    assert!(matches!(taken.outcome, Err(ScanError::Io(reason)) if reason == "denied"));
}

#[test]
fn names_that_are_no_text_are_shown() {
    let name = OsName::Raw { shown: "\u{fffd}".to_string(), bytes: vec![0xff] };
    let dir = raw(vec![RawEntry {
        name,
        path: "/r/\u{fffd}".to_string(),
        content: RawContent::File(1),
    }]);
    let snapshot = outcome(take_snapshot(&dir, &depth(0)));
    assert_eq!(found(&snapshot, "\u{fffd}"), Some(1));
}

#[test]
fn snapshot_is_taken_entry_by_entry() {
    let rules = depth(1);
    let whole = take_snapshot(&tree(), &rules);
    let mut so_far = DirSnapshot { size: 0, files: Vec::new() };
    let mut messages = Vec::new();
    for entry in &tree().entries {
        let taken = take_next(so_far, entry, &rules);
        messages.extend(taken.messages);
        so_far = match taken.outcome {
            Ok(more) => more,
            Err(_) => panic!("no snapshot"),
        };
    }
    assert_eq!(told(&messages), told(&whole.messages));
    let taken = FSEntrySnapshot::Directory(so_far);
    let whole = outcome(whole);
    assert_eq!(taken.size(), whole.size());
    for path in ["a", "d", "d/b", "d/e", "l"] {
        assert_eq!(found(&taken, path), found(&whole, path));
    }
}

#[test]
fn entry_can_be_too_large() {
    let so_far = DirSnapshot { size: u64::MAX, files: Vec::new() };
    let taken = take_next(so_far, &entry("a", "/r/a", RawContent::File(1)), &depth(0));
    assert!(matches!(taken.outcome, Err(ScanError::Overflow)));
}
