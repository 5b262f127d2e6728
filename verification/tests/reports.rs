use file_trackr::diff::{FSEntrySnapshotDiff, SizeDiff};
use file_trackr::order::order_for_display;
use file_trackr::path::FsPath;
use file_trackr::report::{
    fs_entry_snapshot_diff_rows, fs_entry_snapshot_rows, has_rows_below, into_lines, ruleset_rows, to_change_words,
    to_indentation, to_size_words, Label, Row, Style,
};
use file_trackr::rules::{PathPattern, SnapshotRule, SnapshotRuleSet};
use file_trackr::snapshot::{DirSnapshot, FSEntrySnapshot, FileSnapshot};
use file_trackr::text::{enclose, to_decimal};

fn file(size: u64) -> FSEntrySnapshot {
    FSEntrySnapshot::File(FileSnapshot { size })
}

fn dir(size: u64, files: Vec<(&str, FSEntrySnapshot)>) -> FSEntrySnapshot {
    FSEntrySnapshot::Directory(DirSnapshot {
        size,
        files: files.into_iter().map(|(name, entry)| (name.to_string(), entry)).collect(),
    })
}

fn lines(rows: Vec<Row>) -> Vec<String> {
    into_lines(rows).into_iter().map(|line| format!("{}{}", line.indent, line.text)).collect()
}

fn styles(rows: &[Row]) -> Vec<Style> {
    rows.iter().map(|row| row.style).collect()
}

fn tree() -> FSEntrySnapshot {
    dir(
        2048,
        vec![
            ("small", file(1)),
            ("big", dir(2000, vec![("x", file(2000))])),
            ("mid", file(47)),
        ],
    )
}

#[test]
fn numbers_are_written_in_decimal() {
    assert_eq!(to_decimal(0), "0");
    assert_eq!(to_decimal(9), "9");
    assert_eq!(to_decimal(10), "10");
    assert_eq!(to_decimal(120), "120");
    assert_eq!(to_decimal(u64::MAX), format!("{}", u64::MAX));
}

#[test]
fn text_is_enclosed() {
    assert_eq!(enclose("<", "a", ">"), "<a>");
}

#[test]
fn larger_keys_are_shown_first() {
    assert_eq!(order_for_display(&vec![]), Vec::<usize>::new());
    assert_eq!(order_for_display(&vec![1, 3, 2]), vec![1, 2, 0]);
    assert_eq!(order_for_display(&vec![5, -1, 0]), vec![0, 2, 1]);
}

#[test]
fn of_equal_keys_the_later_is_shown_first() {
    assert_eq!(order_for_display(&vec![2, 2, 2]), vec![2, 1, 0]);
    assert_eq!(order_for_display(&vec![1, 2, 1, 2]), vec![3, 1, 2, 0]);
}

#[test]
fn order_is_that_of_a_stable_sort_reversed() {
    let keys: Vec<i128> = vec![4, 1, 4, -3, 0, 1, 4, 9, -3];
    let mut expected: Vec<usize> = (0..keys.len()).collect();
    expected.sort_by_key(|&i| keys[i]);
    expected.reverse();
    assert_eq!(order_for_display(&keys), expected);
}

#[test]
fn indentation_is_four_spaces_a_level() {
    assert_eq!(to_indentation(0), "");
    assert_eq!(to_indentation(2), "        ");
}

#[test]
fn snapshot_is_shown_by_size() {
    let rows = fs_entry_snapshot_rows("root", &tree(), 0, u32::MAX, Style::Plain);
    assert_eq!(
        lines(rows),
        vec![
            "root: 2.00 KiB",
            "    big: 1.95 KiB",
            "        x: 1.95 KiB",
            "    mid: 47 B",
            "    small: 1 B",
        ]
    );
}

#[test]
fn snapshot_is_shown_down_to_depth() {
    let rows = fs_entry_snapshot_rows("root", &tree(), 0, 1, Style::Red);
    assert_eq!(rows.len(), 4);
    assert!(rows.iter().all(|row| row.style == Style::Red));
    let rows = fs_entry_snapshot_rows("root", &tree(), 0, 0, Style::Plain);
    assert_eq!(lines(rows), vec!["root: 2.00 KiB"]);
}

#[test]
fn depth_beyond_the_tree_adds_nothing() {
    let at_depth = fs_entry_snapshot_rows("root", &tree(), 1, tree().depth(), Style::Plain);
    let beyond = fs_entry_snapshot_rows("root", &tree(), 1, 50, Style::Plain);
    assert_eq!(lines(at_depth), lines(beyond));
}

#[test]
fn every_entry_has_a_row() {
    let rows = fs_entry_snapshot_rows("root", &tree(), 0, 1, Style::Plain);
    for name in ["small", "big", "mid"] {
        assert!(rows
            .iter()
            .any(|row| matches!(&row.label, Label::Entry { name: shown, .. } if shown == name)));
    }
}

fn changed(old: &FSEntrySnapshot, new: &FSEntrySnapshot) -> FSEntrySnapshotDiff {
    FSEntrySnapshotDiff::compute(old, new)
}

#[test]
fn grown_file_is_red() {
    let rows = fs_entry_snapshot_diff_rows("f", &changed(&file(1), &file(3)), 0, 5);
    assert_eq!(styles(&rows), vec![Style::Red]);
    assert_eq!(lines(rows), vec!["f: 1 B -> 3 B: +2 B"]);
}

#[test]
fn shrunk_file_is_green() {
    let rows = fs_entry_snapshot_diff_rows("f", &changed(&file(1536), &file(512)), 1, 5);
    assert_eq!(styles(&rows), vec![Style::Green]);
    assert_eq!(lines(rows), vec!["    f: 1.50 KiB -> 512 B: -1.00 KiB"]);
}

#[test]
fn same_size_is_yellow() {
    let old = dir(3, vec![("a", file(3))]);
    let new = dir(3, vec![("b", file(3))]);
    let rows = fs_entry_snapshot_diff_rows("d", &changed(&old, &new), 0, 5);
    assert_eq!(
        styles(&rows),
        vec![
            Style::Yellow,
            Style::BrightRedBold,
            Style::BrightRedBold,
            Style::Plain,
            Style::BrightGreenBold,
            Style::BrightGreenBold,
        ]
    );
    assert_eq!(
        lines(rows),
        vec!["d", "    New Files:", "        b: 3 B", "", "    Deleted files:", "        a: 3 B"]
    );
}

#[test]
fn changes_are_shown_by_growth() {
    let old = dir(30, vec![("a", file(10)), ("b", file(10)), ("c", file(10))]);
    let new = dir(28, vec![("a", file(11)), ("b", file(4)), ("c", file(13))]);
    let rows = fs_entry_snapshot_diff_rows("d", &changed(&old, &new), 0, 5);
    assert_eq!(
        lines(rows),
        vec![
            "d: 30 B -> 28 B: -2 B",
            "    c: 10 B -> 13 B: +3 B",
            "    a: 10 B -> 11 B: +1 B",
            "    b: 10 B -> 4 B: -6 B",
        ]
    );
}

fn mixed() -> FSEntrySnapshotDiff {
    let old = dir(9, vec![("e", dir(3, vec![("x", file(3))])), ("f", file(3)), ("g", file(3))]);
    let new = dir(16, vec![("e", dir(7, vec![("x", file(7))])), ("f", file(5)), ("g", file(4))]);
    changed(&old, &new)
}

#[test]
fn directories_with_contents_are_set_off() {
    let rows = fs_entry_snapshot_diff_rows("d", &mixed(), 0, 2);
    assert_eq!(
        lines(rows),
        vec![
            "d: 9 B -> 16 B: +7 B",
            "    e: 3 B -> 7 B: +4 B",
            "        x: 3 B -> 7 B: +4 B",
            "",
            "    f: 3 B -> 5 B: +2 B",
            "    g: 3 B -> 4 B: +1 B",
        ]
    );
}

#[test]
fn nothing_is_set_off_without_levels_below() {
    let rows = fs_entry_snapshot_diff_rows("d", &mixed(), 0, 1);
    assert_eq!(
        lines(rows),
        vec![
            "d: 9 B -> 16 B: +7 B",
            "    e: 3 B -> 7 B: +4 B",
            "    f: 3 B -> 5 B: +2 B",
            "    g: 3 B -> 4 B: +1 B",
        ]
    );
    let rows = fs_entry_snapshot_diff_rows("d", &mixed(), 0, 0);
    assert_eq!(lines(rows), vec!["d: 9 B -> 16 B: +7 B"]);
}

#[test]
fn depth_beyond_the_difference_adds_nothing() {
    let at_depth = fs_entry_snapshot_diff_rows("d", &mixed(), 0, mixed().depth());
    let beyond = fs_entry_snapshot_diff_rows("d", &mixed(), 0, 99);
    assert_eq!(lines(at_depth), lines(beyond));
}

#[test]
fn new_and_deleted_stand_below_changes() {
    let old = dir(4, vec![("a", file(1)), ("gone", file(3))]);
    let new = dir(9, vec![("a", file(2)), ("n", dir(5, vec![("y", file(5))])), ("m", file(2))]);
    let rows = fs_entry_snapshot_diff_rows("d", &changed(&old, &new), 0, 3);
    assert_eq!(
        lines(rows),
        vec![
            "d: 4 B -> 9 B: +5 B",
            "    a: 1 B -> 2 B: +1 B",
            "",
            "    New Files:",
            "        n: 5 B",
            "            y: 5 B",
            "        m: 2 B",
            "",
            "    Deleted files:",
            "        gone: 3 B",
        ]
    );
}

#[test]
fn every_change_has_a_row() {
    let rows = fs_entry_snapshot_diff_rows("d", &mixed(), 0, 1);
    for name in ["e", "f", "g"] {
        assert!(rows
            .iter()
            .any(|row| matches!(&row.label, Label::Change { name: shown, .. } if shown == name)));
    }
}

#[test]
fn words_are_put_together() {
    assert_eq!(to_size_words("a", "1 B"), "a: 1 B");
    assert_eq!(to_change_words("a", "1 B", "2 B", true, "1 B"), "a: 1 B -> 2 B: +1 B");
    assert_eq!(to_change_words("a", "2 B", "1 B", false, "1 B"), "a: 2 B -> 1 B: -1 B");
}

#[test]
fn sizes_are_written_for_people() {
    let row = |size| Row {
        indent: String::new(),
        label: Label::Entry { name: "f".to_string(), size },
        style: Style::Plain,
    };
    assert_eq!(row(0).into_line().text, "f: 0 B");
    assert_eq!(row(1023).into_line().text, "f: 1023 B");
    assert_eq!(row(1024).into_line().text, "f: 1.00 KiB");
    assert_eq!(row(1 << 30).into_line().text, "f: 1.00 GiB");
    assert_eq!(row(1_610_612_736).into_line().text, "f: 1.50 GiB");
}

#[test]
fn largest_sizes_are_compared() {
    let row = Row {
        indent: String::new(),
        label: Label::Change {
            name: "f".to_string(),
            size_diff: SizeDiff { old_size: u64::MAX, new_size: 0 },
        },
        style: Style::Green,
    };
    assert_eq!(row.into_line().text, "f: 16.00 EiB -> 0 B: -16.00 EiB");
}

#[test]
fn rules_are_shown_as_a_tree() {
    let mut rules = SnapshotRuleSet::new();
    rules.add_rule(PathPattern::Wildcard, SnapshotRule::Single(2));
    let path: Vec<PathPattern> = vec![PathPattern::Exact(FsPath::parse("a")), PathPattern::parse("b")];
    rules.add_rule_path(&path, SnapshotRule::Single(13));
    assert_eq!(lines(ruleset_rows(&rules, 0)), vec!["*: 2", "a: ", "    b: 13"]);
    assert_eq!(lines(ruleset_rows(&rules, 1)), vec!["    *: 2", "    a: ", "        b: 13"]);
    assert!(ruleset_rows(&SnapshotRuleSet::new(), 0).is_empty());
}

#[test]
fn rows_below_are_told() {
    assert!(has_rows_below(&mixed(), 1));
    assert!(!has_rows_below(&mixed(), 0));
    assert!(!has_rows_below(&changed(&file(1), &file(2)), 3));
    assert!(!has_rows_below(&changed(&dir(1, vec![]), &dir(2, vec![])), 3));
    for max_depth in 0..3 {
        let rows = fs_entry_snapshot_diff_rows("d", &mixed(), 0, max_depth);
        assert_eq!(rows.len() > 1, has_rows_below(&mixed(), max_depth));
    }
}
