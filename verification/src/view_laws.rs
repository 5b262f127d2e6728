//! Laws of views: what is said of a value is what it holds, part for part and in order.
use vstd::prelude::*;

use crate::commands;
use crate::commands::{
    Comparison, ComparisonView, RuleCommand, RuleCommandView, RuleOutcome, RuleOutcomeView,
    SnapOutcome, SnapOutcomeView,
};
use crate::diff;
use crate::diff::{DiffView, DirSnapshotDiff, FSEntrySnapshotDiff, FileSnapshotDiff, SizeDiff};
use crate::dispatch;
use crate::dispatch::CommandNames;
use crate::path;
use crate::path::{FsPath, NameView, OsName, PathComponent, PathPrefix, PathStep};
use crate::report;
use crate::report::{Label, LabelView, Line, Row};
use crate::rule_model::{PatternView, RuleView};
use crate::rules;
use crate::rules::{PathPattern, SnapshotRule, SnapshotRuleSet};
use crate::scan;
use crate::scan::{
    MessageView, RawContent, RawContentView, RawDir, RawEntry, ScanError, ScanErrorView,
    SnapshotWorkerMessage,
};
use crate::snapshot;
use crate::snapshot::{DirSnapshot, EntryView, FSEntrySnapshot, FSSnapshot, FileSnapshot};
use crate::track;

verus! {

/// A name is viewed as the text, or the bytes, that it is.
pub proof fn law_name_is_viewed(text: String, bytes: Vec<u8>)
    ensures
        OsName::Text(text)@ == NameView::Text(text@),
        (OsName::Raw { shown: text, bytes })@ == (NameView::Raw { shown: text@, bytes: bytes@ }),
{
}

/// A path is viewed as it is written, with all its components and steps.
pub proof fn law_path_is_viewed(path: FsPath, i: int)
    ensures
        path@.text == path.text@,
        path@.components.len() == path.components@.len(),
        0 <= i < path.components@.len() ==> path@.components[i] == path.components@[i]@,
        path@.steps.len() == path.steps@.len(),
        0 <= i < path.steps@.len() ==> path@.steps[i] == path.steps@[i]@,
        commands::path_view(Some(path)) == Some(path@),
        commands::path_view(None) is None,
{
}

/// A component is viewed with its kind, its name and its prefix, if it has one.
pub proof fn law_component_is_viewed(component: PathComponent, prefix: PathPrefix, i: int)
    ensures
        component@.kind == component.kind,
        component@.name == component.name@,
        component.prefix is None ==> component@.prefix is None,
        component.prefix == Some(prefix) ==> component@.prefix == Some(prefix@),
        prefix@.kind == prefix.kind,
        prefix@.parts.len() == prefix.parts@.len(),
        0 <= i < prefix.parts@.len() ==> prefix@.parts[i] == prefix.parts@[i]@,
{
}

/// A step is viewed with all that it stands for.
pub proof fn law_step_is_viewed(step: PathStep, i: int)
    ensures
        step@.root.len() == step.root@.len(),
        0 <= i < step.root@.len() ==> step@.root[i] == step.root@[i]@,
        step@.shown == step.shown@,
        step@.count == step.count,
{
}

/// Components, steps and patterns are viewed in their order.
pub proof fn law_parts_of_paths_are_viewed_in_order(
    components: Seq<PathComponent>,
    steps: Seq<PathStep>,
    patterns: Seq<PathPattern>,
    i: int,
)
    ensures
        path::component_views(components).len() == components.len(),
        0 <= i < components.len() ==> path::component_views(components)[i] == components[i]@,
        path::step_views(steps).len() == steps.len(),
        0 <= i < steps.len() ==> path::step_views(steps)[i] == steps[i]@,
        rules::pattern_views(patterns).len() == patterns.len(),
        0 <= i < patterns.len() ==> rules::pattern_views(patterns)[i] == patterns[i]@,
{
}

/// Patterns and rules are viewed as what they are.
pub proof fn law_rule_is_viewed(path: FsPath, set: SnapshotRuleSet, depth: u32)
    ensures
        PathPattern::Wildcard@ == PatternView::Wildcard,
        PathPattern::Exact(path)@ == PatternView::Exact(path@),
        SnapshotRule::Single(depth)@ == RuleView::Single(depth),
        SnapshotRule::RuleSet(set)@ == RuleView::RuleSet(set@),
{
}

/// Rules are viewed in their order, each with its pattern.
pub proof fn law_rules_are_viewed_in_order(entries: Seq<(PathPattern, SnapshotRule)>, i: int)
    ensures
        rules::entry_views(entries).len() == entries.len(),
        0 <= i < entries.len() ==> rules::entry_views(entries)[i] == (
            entries[i].0@,
            entries[i].1@,
        ),
{
}

/// A snapshot is viewed with its size, and of a directory with all its entries.
pub proof fn law_snapshot_is_viewed(
    snapshot: FSSnapshot,
    file: FileSnapshot,
    dir: DirSnapshot,
    i: int,
)
    ensures
        snapshot@.root == snapshot.root@,
        snapshot@.time == snapshot.time,
        FSEntrySnapshot::File(file)@ == EntryView::File(file),
        FSEntrySnapshot::Directory(dir)@ == EntryView::Directory(dir@),
        dir@.size == dir.size,
        dir@.files.len() == dir.files@.len(),
        0 <= i < dir.files@.len() ==> dir@.files[i] == (dir.files@[i].0@, dir.files@[i].1@),
{
}

/// Entries and snapshots are viewed in their order.
pub proof fn law_snapshots_are_viewed_in_order(
    files: Seq<(String, FSEntrySnapshot)>,
    snapshots: Seq<FSSnapshot>,
    i: int,
)
    ensures
        snapshot::file_views(files).len() == files.len(),
        0 <= i < files.len() ==> snapshot::file_views(files)[i] == (files[i].0@, files[i].1@),
        track::snapshot_views(snapshots).len() == snapshots.len(),
        0 <= i < snapshots.len() ==> track::snapshot_views(snapshots)[i] == snapshots[i]@,
{
}

/// A difference is viewed with the change of size, and of a directory with all that is in
/// its lists.
pub proof fn law_diff_is_viewed(file: FileSnapshotDiff, dir: DirSnapshotDiff, i: int)
    ensures
        FSEntrySnapshotDiff::File(file)@ == DiffView::File(file.size_diff),
        FSEntrySnapshotDiff::Directory(dir)@ == DiffView::Directory(dir@),
        dir@.size_diff == dir.size_diff,
        dir@.file_diffs.len() == dir.file_diffs@.len(),
        0 <= i < dir.file_diffs@.len() ==> dir@.file_diffs[i] == (
            dir.file_diffs@[i].0@,
            dir.file_diffs@[i].1@,
        ),
        dir@.new_files.len() == dir.new_files@.len(),
        0 <= i < dir.new_files@.len() ==> dir@.new_files[i] == (
            dir.new_files@[i].0@,
            dir.new_files@[i].1@,
        ),
        dir@.deleted_files.len() == dir.deleted_files@.len(),
        0 <= i < dir.deleted_files@.len() ==> dir@.deleted_files[i] == (
            dir.deleted_files@[i].0@,
            dir.deleted_files@[i].1@,
        ),
{
}

/// Differences are viewed in their order.
pub proof fn law_diffs_are_viewed_in_order(diffs: Seq<(String, FSEntrySnapshotDiff)>, i: int)
    ensures
        diff::diff_views(diffs).len() == diffs.len(),
        0 <= i < diffs.len() ==> diff::diff_views(diffs)[i] == (diffs[i].0@, diffs[i].1@),
{
}

/// What was read is viewed with all its entries, and with the failure that ended the
/// reading.
pub proof fn law_raw_directory_is_viewed(dir: RawDir, entry: RawEntry, len: u64, i: int)
    ensures
        dir@.entries.len() == dir.entries@.len(),
        0 <= i < dir.entries@.len() ==> dir@.entries[i] == dir.entries@[i]@,
        dir.failure is None ==> dir@.failure is None,
        dir.failure matches Some(failure) ==> dir@.failure == Some(failure@),
        entry@.name == entry.name@,
        entry@.path == entry.path@,
        entry@.content == entry.content@,
        RawContent::File(len)@ == RawContentView::File(len),
        RawContent::Directory(dir)@ == RawContentView::Directory(dir@),
        RawContent::Other@ == RawContentView::Other,
{
}

/// Messages and errors are viewed as what they say, and messages in their order.
pub proof fn law_messages_are_viewed(
    text: String,
    messages: Seq<SnapshotWorkerMessage>,
    i: int,
)
    ensures
        ScanError::Io(text)@ == ScanErrorView::Io(text@),
        ScanError::Overflow@ == ScanErrorView::Overflow,
        SnapshotWorkerMessage::Trace(text)@ == MessageView::Trace(text@),
        SnapshotWorkerMessage::Error(text)@ == MessageView::Error(text@),
        scan::message_views(messages).len() == messages.len(),
        0 <= i < messages.len() ==> scan::message_views(messages)[i] == messages[i]@,
{
}

/// What was taken is viewed as that, or as why it was not.
pub proof fn law_taken_snapshot_is_viewed(entry: FSEntrySnapshot, error: ScanError)
    ensures
        commands::taken_view(Ok(entry)) == Ok::<EntryView, ScanErrorView>(entry@),
        commands::taken_view(Err(error)) == Err::<EntryView, ScanErrorView>(error@),
{
}

/// Rows and lines are viewed as what they say, and how they are indented and painted.
pub proof fn law_row_is_viewed(
    row: Row,
    line: Line,
    name: String,
    size: u64,
    size_diff: SizeDiff,
)
    ensures
        row@.indent == row.indent@,
        row@.label == row.label@,
        row@.style == row.style,
        line@.indent == line.indent@,
        line@.text == line.text@,
        line@.style == line.style,
        Label::Text(name)@ == LabelView::Text(name@),
        (Label::Entry { name, size })@ == (LabelView::Entry { name: name@, size }),
        (Label::Change { name, size_diff })@ == (LabelView::Change { name: name@, size_diff }),
{
}

/// Rows and lines are viewed in their order.
pub proof fn law_rows_are_viewed_in_order(rows: Seq<Row>, lines: Seq<Line>, i: int)
    ensures
        report::row_views(rows).len() == rows.len(),
        0 <= i < rows.len() ==> report::row_views(rows)[i] == rows[i]@,
        report::line_views(lines).len() == lines.len(),
        0 <= i < lines.len() ==> report::line_views(lines)[i] == lines[i]@,
{
}

/// What is asked about rules is viewed as what is asked.
pub proof fn law_rule_command_is_viewed(path: FsPath, depth: u32)
    ensures
        RuleCommand::Show@ == RuleCommandView::Show,
        (RuleCommand::Add { path, depth })@ == (RuleCommandView::Add { path: path@, depth }),
        (RuleCommand::Remove { path })@ == (RuleCommandView::Remove { path: path@ }),
        RuleCommand::Simplify(Some(path))@ == RuleCommandView::Simplify(Some(path@)),
        RuleCommand::Simplify(None)@ == RuleCommandView::Simplify(None),
{
}

/// What came of a command is viewed as that.
pub proof fn law_outcomes_are_viewed(
    rows: Vec<Row>,
    row: Row,
    message: String,
    old_time: u64,
    new_time: u64,
)
    ensures
        RuleOutcome::Rows(rows)@ == RuleOutcomeView::Rows(report::row_views(rows@)),
        RuleOutcome::EmptyPath@ == RuleOutcomeView::EmptyPath,
        RuleOutcome::TooDeep@ == RuleOutcomeView::TooDeep,
        SnapOutcome::Added@ == SnapOutcomeView::Added,
        SnapOutcome::Failed(row)@ == SnapOutcomeView::Failed(row@),
        SnapOutcome::TooLarge@ == SnapOutcomeView::TooLarge,
        SnapOutcome::Outdated@ == SnapOutcomeView::Outdated,
        Comparison::Message(message)@ == ComparisonView::Message(message@),
        Comparison::Incomparable@ == ComparisonView::Incomparable,
        Comparison::TooDeep@ == ComparisonView::TooDeep,
        (Comparison::Changed { old_time, new_time, rows })@ == (ComparisonView::Changed {
            old_time,
            new_time,
            rows: report::row_views(rows@),
        }),
{
}

/// Commands are viewed in their order, each with all its names, and words in theirs.
pub proof fn law_names_are_viewed_in_order(
    commands: Seq<CommandNames>,
    words: Seq<String>,
    names: CommandNames,
    i: int,
)
    ensures
        dispatch::names_views(commands).len() == commands.len(),
        0 <= i < commands.len() ==> dispatch::names_views(commands)[i] == commands[i]@,
        dispatch::word_views(words).len() == words.len(),
        0 <= i < words.len() ==> dispatch::word_views(words)[i] == words[i]@,
        names@.name == names.name@,
        names@.aliases.len() == names.aliases@.len(),
        0 <= i < names.aliases@.len() ==> names@.aliases[i] == names.aliases@[i]@,
{
}

} // verus!
