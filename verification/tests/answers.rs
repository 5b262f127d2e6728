use file_trackr::commands::{
    compare, compare_at, head_comparison, list_snapshots, rule, show, show_at, snap, tell, to_patterns, Comparison,
    RuleCommand, RuleOutcome, SnapOutcome,
};
use file_trackr::dispatch::{
    dispatch, dispatch_words, find_by_name, find_command, CommandNames, Dispatch,
};
use file_trackr::path::{FsPath, OsName, PathComponent, PathStep};
use file_trackr::report::{into_lines, Row, Style};
use file_trackr::rules::{PathPattern, SnapshotRule, SnapshotRuleSet};
use file_trackr::scan::{ScanError, SnapshotWorkerMessage};
use file_trackr::snapshot::{DirSnapshot, FSEntrySnapshot, FileSnapshot};
use file_trackr::track::FSTrack;

fn file(size: u64) -> FSEntrySnapshot {
    FSEntrySnapshot::File(FileSnapshot { size })
}

fn dir(size: u64, files: Vec<(&str, FSEntrySnapshot)>) -> FSEntrySnapshot {
    FSEntrySnapshot::Directory(DirSnapshot {
        size,
        files: files.into_iter().map(|(name, entry)| (name.to_string(), entry)).collect(),
    })
}

fn lines(rows: Vec<Row>) -> Vec<String> {
    into_lines(rows).into_iter().map(|line| format!("{}{}", line.indent, line.text)).collect()
}

fn empty_track() -> FSTrack {
    FSTrack::new(FsPath::parse("/r"), SnapshotRuleSet::initial())
}

/// Two snapshots: d/x grows from 3 to 5, f stays.
fn track() -> FSTrack {
    let mut track = empty_track();
    let old = dir(4, vec![("d", dir(3, vec![("x", file(3))])), ("f", file(1))]);
    let new = dir(6, vec![("d", dir(5, vec![("x", file(5))])), ("f", file(1))]);
    assert!(matches!(snap(&mut track, Ok(old), 100, None), SnapOutcome::Added));
    assert!(matches!(snap(&mut track, Ok(new), 200, None), SnapOutcome::Added));
    track
}

fn some(text: &str) -> Option<String> {
    Some(text.to_string())
}

#[test]
fn snapshots_are_listed_by_number() {
    assert_eq!(lines(list_snapshots(&vec![])), vec!["No snapshots taken"]);
    let times = vec!["Mon".to_string(), "Tue".to_string()];
    assert_eq!(lines(list_snapshots(&times)), vec!["0: Mon", "1: Tue"]);
}

#[test]
fn newest_snapshot_is_shown() {
    assert_eq!(
        lines(show(&track(), None, None, None)),
        vec!["/r: 6 B", "    d: 5 B", "        x: 5 B", "    f: 1 B"]
    );
}

#[test]
fn snapshot_is_shown_by_number_and_depth() {
    assert_eq!(
        lines(show(&track(), Some(0), None, Some(1))),
        vec!["/r: 4 B", "    d: 3 B", "    f: 1 B"]
    );
}

#[test]
fn part_of_snapshot_is_shown() {
    assert_eq!(lines(show(&track(), None, some("d"), None)), vec!["/r/d: 5 B", "    x: 5 B"]);
    assert_eq!(
        lines(show_at(&track(), None, Some(FsPath::parse("d/x")), 0)),
        vec!["/r/d/x: 5 B"]
    );
}

#[test]
fn missing_snapshot_is_not_shown() {
    assert_eq!(lines(show(&empty_track(), None, None, None)), vec!["No snapshots taken"]);
    assert_eq!(lines(show(&track(), Some(2), None, None)), vec!["Snapshot 2 does not exist"]);
    assert_eq!(
        lines(show(&track(), None, some("a/b"), None)),
        vec!["Failed to find snapshot of `a/b`"]
    );
}

fn message(comparison: Comparison) -> String {
    match comparison {
        Comparison::Message(message) => message,
        _ => panic!("no message"),
    }
}

#[test]
fn newest_snapshots_are_compared() {
    match compare(&track(), None, None, None, None) {
        Comparison::Changed { old_time, new_time, rows } => {
            assert_eq!((old_time, new_time), (100, 200));
            assert_eq!(
                lines(rows),
                vec![
                    "/r: 4 B -> 6 B: +2 B",
                    "    d: 3 B -> 5 B: +2 B",
                    "        x: 3 B -> 5 B: +2 B",
                ]
            );
        }
        _ => panic!("no changes"),
    }
}

#[test]
fn part_of_snapshots_is_compared_under_the_root() {
    match compare(&track(), Some(0), Some(1), Some(0), some("d")) {
        Comparison::Changed { old_time, new_time, rows } => {
            assert_eq!((old_time, new_time), (200, 100));
            assert_eq!(lines(rows), vec!["/r: 5 B -> 3 B: -2 B"]);
        }
        _ => panic!("no changes"),
    }
}

#[test]
fn snapshot_compared_with_itself_has_no_changes() {
    assert_eq!(message(compare(&track(), None, Some(1), Some(1), None)), "No changes");
    assert_eq!(message(compare(&track(), None, None, None, some("f"))), "No changes");
}

#[test]
fn what_is_missing_cannot_be_compared() {
    let track = track();
    assert_eq!(
        message(compare(&track, None, Some(1), None, None)),
        "Both snapshot IDs are required for comparison"
    );
    assert_eq!(
        message(compare(&empty_track(), None, None, None, None)),
        "Atleast 2 snapshots are required for comparison"
    );
    assert_eq!(
        message(compare(&track, None, Some(7), Some(0), None)),
        "Snapshot 7 does not exist"
    );
    assert_eq!(
        message(compare(&track, None, Some(0), Some(8), None)),
        "Snapshot 8 does not exist"
    );
    assert_eq!(
        message(compare(&track, None, None, None, some("z"))),
        "Failed to find snapshot of `z` in previous snapshot"
    );
}

#[test]
fn what_is_new_cannot_be_compared_by_path() {
    let mut track = track();
    let with_z = dir(7, vec![("z", file(7))]);
    assert!(matches!(snap(&mut track, Ok(with_z), 300, None), SnapOutcome::Added));
    assert_eq!(
        message(compare_at(&track, 9, None, None, Some(FsPath::parse("f")))),
        "Failed to find snapshot of `f` in current snapshot"
    );
}

#[test]
fn file_that_became_directory_is_incomparable() {
    let mut track = track();
    let with_dir = dir(0, vec![("f", dir(0, vec![]))]);
    assert!(matches!(snap(&mut track, Ok(with_dir), 300, None), SnapOutcome::Added));
    assert!(matches!(compare(&track, None, None, None, None), Comparison::Incomparable));
}

#[test]
fn failed_snapshot_is_not_added() {
    let mut track = track();
    match snap(&mut track, Err(ScanError::Io("denied".to_string())), 300, None) {
        SnapOutcome::Failed(row) => {
            assert_eq!(row.style, Style::Red);
            assert_eq!(row.into_line().text, "Failed to take snapshot: denied");
        }
        _ => panic!("no failure"),
    }
    assert!(matches!(snap(&mut track, Err(ScanError::Overflow), 300, None), SnapOutcome::TooLarge));
    assert!(matches!(snap(&mut track, Ok(file(1)), 199, None), SnapOutcome::Outdated));
    assert_eq!(track.count_snapshots(), 2);
}

#[test]
fn messages_are_told() {
    let trace = tell(&SnapshotWorkerMessage::Trace("/r/a".to_string()));
    assert_eq!(trace.style, Style::Plain);
    assert_eq!(trace.into_line().text, "/r/a");
    let error = tell(&SnapshotWorkerMessage::Error("bad".to_string()));
    assert_eq!(error.style, Style::Red);
    assert_eq!(error.into_line().text, "ERROR: bad");
}

fn answer(track: &mut FSTrack, command: RuleCommand) -> Vec<String> {
    match rule(track, &command) {
        RuleOutcome::Rows(rows) => lines(rows),
        RuleOutcome::EmptyPath => panic!("empty path"),
        RuleOutcome::TooDeep => panic!("too deep"),
    }
}

#[test]
fn rules_are_added_and_shown() {
    let mut track = empty_track();
    let added = answer(&mut track, RuleCommand::Add { path: FsPath::parse("a/*"), depth: 4 });
    assert!(added.is_empty());
    assert_eq!(answer(&mut track, RuleCommand::Show), vec!["*: 2", "a: ", "    *: 4"]);
}

#[test]
fn rules_are_removed() {
    let mut track = empty_track();
    let path = || FsPath::parse("*");
    assert_eq!(
        answer(&mut track, RuleCommand::Remove { path: path() }),
        vec!["Rule removed successfully"]
    );
    assert_eq!(
        answer(&mut track, RuleCommand::Remove { path: path() }),
        vec!["Failed to remove rule: ()"]
    );
    assert!(answer(&mut track, RuleCommand::Show).is_empty());
}

#[test]
fn rules_are_simplified() {
    let mut track = empty_track();
    answer(&mut track, RuleCommand::Add { path: FsPath::parse("a/*"), depth: 4 });
    answer(&mut track, RuleCommand::Add { path: FsPath::parse("b/*"), depth: 1 });
    assert_eq!(
        answer(&mut track, RuleCommand::Simplify(Some(FsPath::parse("a")))),
        vec!["Rule simplified successfully"]
    );
    assert_eq!(
        answer(&mut track, RuleCommand::Show),
        vec!["*: 2", "a: 5", "b: ", "    *: 1"]
    );
    assert_eq!(
        answer(&mut track, RuleCommand::Simplify(Some(FsPath::parse("x")))),
        vec!["Failed to simplify rule: ()"]
    );
    assert_eq!(
        answer(&mut track, RuleCommand::Simplify(None)),
        vec!["Ruleset simplified successfully"]
    );
    assert_eq!(answer(&mut track, RuleCommand::Show), vec!["*: 2", "a: 5", "b: 2"]);
}

#[test]
fn rules_need_a_path() {
    let mut track = empty_track();
    let empty = || FsPath::parse("");
    assert!(matches!(
        rule(&mut track, &RuleCommand::Add { path: empty(), depth: 1 }),
        RuleOutcome::EmptyPath
    ));
    assert!(matches!(
        rule(&mut track, &RuleCommand::Remove { path: empty() }),
        RuleOutcome::EmptyPath
    ));
    assert!(matches!(
        rule(&mut track, &RuleCommand::Simplify(Some(empty()))),
        RuleOutcome::EmptyPath
    ));
    assert_eq!(answer(&mut track, RuleCommand::Show), vec!["*: 2"]);
}

#[test]
fn deepest_rules_are_left_alone() {
    let mut track = empty_track();
    answer(&mut track, RuleCommand::Add { path: FsPath::parse("a/*"), depth: u32::MAX });
    assert!(matches!(rule(&mut track, &RuleCommand::Simplify(None)), RuleOutcome::TooDeep));
    assert!(matches!(
        rule(&mut track, &RuleCommand::Simplify(Some(FsPath::parse("a")))),
        RuleOutcome::TooDeep
    ));
    assert_eq!(
        answer(&mut track, RuleCommand::Show),
        vec!["*: 2", "a: ", "    *: 4294967295"]
    );
}

fn raw_path() -> FsPath {
    let name = || OsName::Raw { shown: "\u{fffd}".to_string(), bytes: vec![0xff] };
    FsPath {
        text: name(),
        components: vec![PathComponent::normal(name())],
        steps: vec![PathStep {
            root: vec![PathComponent::normal(name())],
            shown: "\u{fffd}".to_string(),
            count: 1,
        }],
    }
}

#[test]
fn paths_that_are_no_text_have_no_patterns() {
    let mut track = empty_track();
    assert_eq!(
        answer(&mut track, RuleCommand::Add { path: raw_path(), depth: 1 }),
        vec!["Failed to parse path pattern"]
    );
    assert_eq!(
        answer(&mut track, RuleCommand::Remove { path: raw_path() }),
        vec!["Failed to parse path pattern"]
    );
    assert_eq!(
        answer(&mut track, RuleCommand::Simplify(Some(raw_path()))),
        vec!["Ruleset simplified successfully"]
    );
    assert_eq!(answer(&mut track, RuleCommand::Show), vec!["*: 2"]);
}

#[test]
fn path_is_read_as_patterns() {
    let patterns = to_patterns(&FsPath::parse("a/*/b")).unwrap();
    assert_eq!(patterns.len(), 3);
    assert!(patterns[0] == PathPattern::parse("a"));
    assert!(patterns[1] == PathPattern::Wildcard);
    assert!(to_patterns(&raw_path()).is_err());
    let mut track = empty_track();
    answer(&mut track, RuleCommand::Add { path: FsPath::parse("a/*/b"), depth: 3 });
    assert!(matches!(
        track.snapshot_ruleset().find_rule_path(&patterns),
        Some(SnapshotRule::Single(3))
    ));
}

fn names(name: &str, aliases: &[&str]) -> CommandNames {
    CommandNames {
        name: name.to_string(),
        aliases: aliases.iter().map(|alias| alias.to_string()).collect(),
    }
}

fn known() -> Vec<CommandNames> {
    vec![names("list", &[]), names("exit", &["quit"]), names("quit", &[])]
}

#[test]
fn commands_are_found_by_name_or_alias() {
    assert_eq!(find_command(&known(), &"list".to_string()), Some(0));
    assert_eq!(find_command(&known(), &"quit".to_string()), Some(1));
    assert_eq!(find_command(&known(), &"lis".to_string()), None);
    assert_eq!(find_by_name(&known(), &"quit".to_string()), Some(2));
    assert_eq!(find_by_name(&known(), &"none".to_string()), None);
}

#[test]
fn words_call_for_commands() {
    assert!(matches!(dispatch_words(&known(), vec![]), Dispatch::Nothing));
    let words = vec!["quit".to_string(), "now".to_string()];
    match dispatch_words(&known(), words) {
        Dispatch::Run { command, words } => {
            assert_eq!(command, 1);
            assert_eq!(words, vec!["quit", "now"]);
        }
        _ => panic!("no command"),
    }
    match dispatch_words(&known(), vec!["fly".to_string()]) {
        Dispatch::Unknown(message) => assert_eq!(message, "Command 'fly' not found"),
        _ => panic!("a command"),
    }
}

#[test]
fn line_is_parted_like_in_a_shell() {
    match dispatch(&known(), "list 'a b' c\\ d") {
        Dispatch::Run { command, words } => {
            assert_eq!(command, 0);
            assert_eq!(words, vec!["list", "a b", "c d"]);
        }
        _ => panic!("no command"),
    }
    assert!(matches!(dispatch(&known(), ""), Dispatch::Nothing));
    assert!(matches!(dispatch(&known(), "   "), Dispatch::Nothing));
}

#[test]
fn open_quote_is_malformed() {
    match dispatch(&known(), "list 'a") {
        Dispatch::Malformed(message) => {
            assert_eq!(message, "Failed to parse command: missing closing quote");
        }
        _ => panic!("a command"),
    }
}

#[test]
fn commands_keep_one_rule_for_a_pattern() {
    let mut track = empty_track();
    for depth in [3, 4, 5] {
        answer(&mut track, RuleCommand::Add { path: FsPath::parse("a/b"), depth });
        answer(&mut track, RuleCommand::Add { path: FsPath::parse("a/c"), depth });
    }
    assert_eq!(
        answer(&mut track, RuleCommand::Show),
        vec!["*: 2", "a: ", "    b: 5", "    c: 5"]
    );
}

#[test]
fn snapshot_is_added_down_to_depth() {
    let mut track = empty_track();
    let root = dir(4, vec![("d", dir(3, vec![("x", file(3))])), ("f", file(1))]);
    assert!(matches!(snap(&mut track, Ok(root), 100, Some(1)), SnapOutcome::Added));
    assert_eq!(
        lines(show(&track, None, None, None)),
        vec!["/r: 4 B", "    d: 3 B", "    f: 1 B"]
    );
}

#[test]
fn comparison_is_headed_by_times() {
    let row = head_comparison("Mon", "Tue");
    assert_eq!(row.style, Style::Plain);
    assert_eq!(row.into_line().text, "Mon -> Tue");
}

#[test]
fn part_of_snapshot_is_found_however_it_is_written() {
    assert_eq!(lines(show(&track(), None, some("./d"), Some(0))).len(), 1);
    assert_eq!(lines(show(&track(), None, some("d//./x/"), None)), vec!["/r/d//./x/: 5 B"]);
}
