use file_trackr::path::FsPath;
use file_trackr::rules::{PathPattern, SnapshotRule, SnapshotRuleSet};
use file_trackr::snapshot::{FSEntrySnapshot, FSSnapshot, FileSnapshot};
use file_trackr::track::FSTrack;

fn snapshot(size: u64, time: u64) -> FSSnapshot {
    FSSnapshot { root: FSEntrySnapshot::File(FileSnapshot { size }), time }
}

fn track() -> FSTrack {
    FSTrack::new(FsPath::parse("/r"), SnapshotRuleSet::initial())
}

#[test]
fn new_track_has_no_snapshots() {
    let track = track();
    assert_eq!(track.count_snapshots(), 0);
    assert!(track.latest_snapshot().is_none());
    assert!(track.get_snapshot(0).is_none());
    assert_eq!(track.root_path().display(), "/r");
    assert_eq!(track.snapshot_ruleset().iter_rules().count(), 1);
}

#[test]
fn snapshots_are_numbered_from_the_oldest() {
    let mut track = track();
    track.add_snapshot(snapshot(1, 10));
    track.add_snapshot(snapshot(2, 10));
    track.add_snapshot(snapshot(3, 20));
    assert_eq!(track.count_snapshots(), 3);
    assert_eq!(track.get_snapshot(0).unwrap().root.size(), 1);
    assert_eq!(track.get_snapshot(2).unwrap().root.size(), 3);
    assert!(track.get_snapshot(3).is_none());
    assert_eq!(track.latest_snapshot().unwrap().root.size(), 3);
    assert!(track.snapshots().windows(2).all(|pair| pair[0].time <= pair[1].time));
}

#[test]
fn older_snapshots_are_outdated() {
    let mut track = track();
    assert!(!track.is_outdated(0));
    track.add_snapshot(snapshot(1, 10));
    assert!(track.is_outdated(9));
    assert!(!track.is_outdated(10));
}

#[test]
fn rules_of_a_track_can_be_changed() {
    let mut track = track();
    track.snapshot_ruleset_mut().add_rule(PathPattern::parse("a"), SnapshotRule::Single(1));
    assert_eq!(track.snapshot_ruleset().iter_rules().count(), 2);
}

#[test]
fn restored_track_holds_what_it_is_given() {
    let track = FSTrack::restore(
        FsPath::parse("/x"),
        SnapshotRuleSet::new(),
        vec![snapshot(1, 5), snapshot(2, 6)],
    );
    assert_eq!(track.count_snapshots(), 2);
    assert_eq!(track.latest_snapshot().unwrap().time, 6);
    let copy = track.clone();
    assert_eq!(copy.root_path().display(), "/x");
    assert_eq!(copy.count_snapshots(), 2);
}
