//! The commands that a track answers.
use vstd::prelude::*;

use crate::diff;
use crate::diff::FSEntrySnapshotDiff;
use crate::path;
use crate::path::{ComponentView, FsPath, NameView, OsName, PathView};
use crate::report;
use crate::report::{
    fs_entry_snapshot_diff_rows, fs_entry_snapshot_rows, ruleset_rows, Label, Row, RowView, Style,
};
use crate::rule_model;
use crate::rule_model::{PatternView, RuleTable, RuleView};
use crate::rules;
use crate::rules::{PathPattern, SnapshotRule, SnapshotRuleSet};
use crate::scan::{MessageView, ScanError, ScanErrorView, SnapshotWorkerMessage};
use crate::snapshot;
use crate::snapshot::{EntryView, FSEntrySnapshot, FSSnapshot, SnapshotView};
use crate::text;
use crate::text::{enclose, to_decimal};
use crate::track;
use crate::track::{FSTrack, TrackView};

verus! {

/// A row that is a message.
pub open spec fn message_row(message: Seq<char>, style: Style) -> RowView {
    report::text_row(Seq::empty(), message, style)
}

/// What an optional path holds.
pub open spec fn path_view(path: Option<FsPath>) -> Option<PathView> {
    match path {
        Some(path) => Some(path@),
        None => None,
    }
}

/// A path written as text, where there is one.
pub open spec fn written_path(text: Option<String>) -> Option<PathView> {
    match text {
        Some(text) => Some(
            PathView {
                text: NameView::Text(text@),
                components: path::read_components(text@),
                steps: path::path_steps(text@),
            },
        ),
        None => None,
    }
}

/// A row that is a message.
fn to_message(message: String, style: Style) -> (res: Row)
    ensures
        res@ == message_row(message@, style),
{
    let indent = "".to_owned();
    proof {
        reveal_strlit("");
        assert(indent@ =~= Seq::<char>::empty());
    }
    Row { indent, label: Label::Text(message), style }
}

/// Rows of nothing but a message.
fn just_message(message: String) -> (res: Vec<Row>)
    ensures
        report::row_views(res@) == seq![message_row(message@, Style::Plain)],
{
    let mut rows: Vec<Row> = Vec::new();
    rows.push(to_message(message, Style::Plain));
    assert(report::row_views(rows@) =~= seq![message_row(rows@[0]@.label->Text_0, Style::Plain)]);
    rows
}

/// The path written as text, where there is one.
fn parse_path(text: Option<String>) -> (res: Option<FsPath>)
    ensures
        path_view(res) == written_path(text),
{
    match text {
        Some(text) => Some(FsPath::parse(text.as_str())),
        None => None,
    }
}

/// What the list of snapshots says of the one with the number `id`.
pub open spec fn listed(id: nat, time: Seq<char>) -> RowView {
    message_row(text::decimal(id) + ": "@ + time, Style::Plain)
}

/// The list of snapshots, by the times at which they were taken.
pub open spec fn snapshot_list(times: Seq<String>) -> Seq<RowView> {
    if times.len() == 0 {
        seq![message_row("No snapshots taken"@, Style::Plain)]
    } else {
        Seq::new(times.len(), |i: int| listed(i as nat, times[i]@))
    }
}

/// Lists the snapshots, by the times at which they were taken, as they are written for
/// people.
pub fn list_snapshots(times: &Vec<String>) -> (res: Vec<Row>)
    ensures
        report::row_views(res@) == snapshot_list(times@),
{
    if times.len() == 0 {
        return just_message("No snapshots taken".to_owned());
    }
    let mut rows: Vec<Row> = Vec::new();
    let mut i: usize = 0;
    while i < times.len()
        invariant
            i <= times@.len(),
            rows@.len() == i,
            forall|j: int| 0 <= j < i ==> (#[trigger] rows@[j])@ == listed(j as nat, times@[j]@),
        decreases times@.len() - i,
    {
        let id = to_decimal(i as u64);
        rows.push(to_message(enclose(id.as_str(), ": ", times[i].as_str()), Style::Plain));
        i = i + 1;
    }
    assert(report::row_views(rows@) =~= snapshot_list(times@));
    rows
}

/// The message that there is no snapshot with the number `id`.
pub open spec fn no_snapshot(id: u32) -> Seq<char> {
    "Snapshot "@ + text::decimal(id as nat) + " does not exist"@
}

/// The snapshot with the number `id`, or else the newest, or why there is none.
pub open spec fn chosen_snapshot(track: TrackView, id: Option<u32>) -> Result<
    SnapshotView,
    Seq<char>,
> {
    match id {
        Some(id) => if id < track.snapshots.len() {
            Ok(track.snapshots[id as int])
        } else {
            Err(no_snapshot(id))
        },
        None => if track.snapshots.len() > 0 {
            Ok(track.snapshots.last())
        } else {
            Err("No snapshots taken"@)
        },
    }
}

/// What is shown of a snapshot: all of it, or what is at a path, down to `max_depth`
/// levels.
pub open spec fn snapshot_shown(
    track: TrackView,
    id: Option<u32>,
    path: Option<PathView>,
    max_depth: nat,
) -> Seq<RowView> {
    match chosen_snapshot(track, id) {
        Err(message) => seq![message_row(message, Style::Plain)],
        Ok(chosen) => match path {
            None => report::entry_rows(
                track.root.text.shown(),
                chosen.root,
                Seq::empty(),
                max_depth,
                Style::Plain,
            ),
            Some(path) => match snapshot::found_at(chosen.root, path.steps) {
                None => seq![
                    message_row(
                        "Failed to find snapshot of `"@ + path.text.shown() + "`"@,
                        Style::Plain,
                    ),
                ],
                Some(entry) => report::entry_rows(
                    path::joined_path(track.root.text.shown(), path.text.shown()),
                    entry,
                    Seq::empty(),
                    max_depth,
                    Style::Plain,
                ),
            },
        },
    }
}

/// The message that there is no snapshot with the number `id`.
fn to_no_snapshot(id: u32) -> (res: String)
    ensures
        res@ == no_snapshot(id),
{
    let shown = to_decimal(id as u64);
    enclose("Snapshot ", shown.as_str(), " does not exist")
}

/// The snapshot with the number `id`, or else the newest, or why there is none.
fn choose_snapshot(track: &FSTrack, id: Option<u32>) -> (res: Result<&FSSnapshot, String>)
    ensures
        match chosen_snapshot(track@, id) {
            Ok(chosen) => res matches Ok(found) && found@ == chosen,
            Err(message) => res matches Err(text) && text@ == message,
        },
{
    match id {
        Some(id) => match track.get_snapshot(id) {
            Some(found) => Ok(found),
            None => Err(to_no_snapshot(id)),
        },
        None => match track.latest_snapshot() {
            Some(found) => Ok(found),
            None => Err("No snapshots taken".to_owned()),
        },
    }
}

/// Shows a snapshot, the newest unless a number is given: all of it, or what is at
/// `path`, down to `max_depth` levels.
pub fn show_at(
    track: &FSTrack,
    id: Option<u32>,
    path: Option<FsPath>,
    max_depth: u32,
) -> (res: Vec<Row>)
    ensures
        report::row_views(res@) == snapshot_shown(track@, id, path_view(path), max_depth as nat),
{
    let chosen = match choose_snapshot(track, id) {
        Ok(chosen) => chosen,
        Err(message) => {
            return just_message(message);
        },
    };
    let (name, entry) = match &path {
        Some(path) => match chosen.root.find_by_path(path) {
            Some(entry) => (track.root_path().display_under(path), entry),
            None => {
                let shown = path.display();
                return just_message(
                    enclose("Failed to find snapshot of `", shown.as_str(), "`"),
                );
            },
        },
        None => (track.root_path().display(), &chosen.root),
    };
    fs_entry_snapshot_rows(name.as_str(), entry, 0, max_depth, Style::Plain)
}

/// The depth that was asked for; without one everything is shown.
pub open spec fn depth_asked(depth: Option<u32>) -> u32 {
    match depth {
        Some(depth) => depth,
        None => u32::MAX,
    }
}

/// The depth that was asked for.
fn to_depth(depth: Option<u32>) -> (res: u32)
    ensures
        res == depth_asked(depth),
{
    match depth {
        Some(depth) => depth,
        None => u32::MAX,
    }
}

/// Shows a snapshot, the newest unless a number is given: all of it, or what is at the
/// path written as `path`, down to `depth` levels where that is given.
pub fn show(
    track: &FSTrack,
    id: Option<u32>,
    path: Option<String>,
    depth: Option<u32>,
) -> (res: Vec<Row>)
    ensures
        report::row_views(res@) == snapshot_shown(
            track@,
            id,
            written_path(path),
            depth_asked(depth) as nat,
        ),
{
    show_at(track, id, parse_path(path), to_depth(depth))
}

/// What came of comparing two snapshots.
#[derive(Debug)]
pub enum Comparison {
    /// There is nothing to show but this message.
    Message(String),
    /// What is a file in one is a directory in the other.
    Incomparable,
    /// There are more levels below the difference than `u32` can count.
    TooDeep,
    /// The difference, between snapshots that were taken at these times.
    Changed { old_time: u64, new_time: u64, rows: Vec<Row> },
}

/// What a [`Comparison`] holds.
#[verifier::ext_equal]
pub ghost enum ComparisonView {
    Message(Seq<char>),
    Incomparable,
    TooDeep,
    Changed { old_time: u64, new_time: u64, rows: Seq<RowView> },
}

impl View for Comparison {
    type V = ComparisonView;

    open spec fn view(&self) -> ComparisonView {
        match self {
            Comparison::Message(message) => ComparisonView::Message(message@),
            Comparison::Incomparable => ComparisonView::Incomparable,
            Comparison::TooDeep => ComparisonView::TooDeep,
            Comparison::Changed { old_time, new_time, rows } => ComparisonView::Changed {
                old_time: *old_time,
                new_time: *new_time,
                rows: report::row_views(rows@),
            },
        }
    }
}

/// The snapshots with the numbers `a` and `b`, or else the two newest, or why there are
/// not two.
pub open spec fn chosen_pair(track: TrackView, a: Option<u32>, b: Option<u32>) -> Result<
    (SnapshotView, SnapshotView),
    Seq<char>,
> {
    let count = track.snapshots.len();
    match (a, b) {
        (Some(a), Some(b)) => if a >= count {
            Err(no_snapshot(a))
        } else if b >= count {
            Err(no_snapshot(b))
        } else {
            Ok((track.snapshots[a as int], track.snapshots[b as int]))
        },
        (None, None) => if count < 2 {
            Err("Atleast 2 snapshots are required for comparison"@)
        } else {
            Ok((track.snapshots[count - 2], track.snapshots[count - 1]))
        },
        _ => Err("Both snapshot IDs are required for comparison"@),
    }
}

/// What is at a path in both snapshots, or why it is not in both.
pub open spec fn chosen_roots(
    old: EntryView,
    new: EntryView,
    path: Option<PathView>,
) -> Result<(EntryView, EntryView), Seq<char>> {
    match path {
        None => Ok((old, new)),
        Some(path) => match snapshot::found_at(old, path.steps) {
            None => Err(
                "Failed to find snapshot of `"@ + path.text.shown() + "` in previous snapshot"@,
            ),
            Some(old_root) => match snapshot::found_at(new, path.steps) {
                None => Err(
                    "Failed to find snapshot of `"@ + path.text.shown() + "` in current snapshot"@,
                ),
                Some(new_root) => Ok((old_root, new_root)),
            },
        },
    }
}

/// The difference between two entries, as it is shown under the name `root`: down to
/// `depth` levels, or as far as there are any.
pub open spec fn compared(
    root: Seq<char>,
    old: SnapshotView,
    new: SnapshotView,
    old_root: EntryView,
    new_root: EntryView,
    depth: nat,
) -> ComparisonView {
    if !diff::comparable(old_root, new_root) {
        ComparisonView::Incomparable
    } else {
        let difference = diff::entry_diff(old_root, new_root);
        let levels = diff::diff_depth(difference);
        if !difference.has_changes() {
            ComparisonView::Message("No changes"@)
        } else if levels > u32::MAX {
            ComparisonView::TooDeep
        } else {
            ComparisonView::Changed {
                old_time: old.time,
                new_time: new.time,
                rows: report::diff_rows(
                    root,
                    difference,
                    Seq::empty(),
                    if depth < levels {
                        depth
                    } else {
                        levels
                    },
                ),
            }
        }
    }
}

/// What comes of comparing two snapshots of a track: all of them, or what is at a path.
pub open spec fn comparison(
    track: TrackView,
    depth: nat,
    a: Option<u32>,
    b: Option<u32>,
    path: Option<PathView>,
) -> ComparisonView {
    match chosen_pair(track, a, b) {
        Err(message) => ComparisonView::Message(message),
        Ok((old, new)) => match chosen_roots(old.root, new.root, path) {
            Err(message) => ComparisonView::Message(message),
            Ok((old_root, new_root)) => compared(
                track.root.text.shown(),
                old,
                new,
                old_root,
                new_root,
                depth,
            ),
        },
    }
}

/// The snapshots with the numbers `a` and `b`, or else the two newest, or why there are
/// not two.
fn choose_pair(track: &FSTrack, a: Option<u32>, b: Option<u32>) -> (res: Result<
    (&FSSnapshot, &FSSnapshot),
    String,
>)
    ensures
        match chosen_pair(track@, a, b) {
            Ok((old, new)) => res matches Ok(found) && found.0@ == old && found.1@ == new,
            Err(message) => res matches Err(text) && text@ == message,
        },
{
    match (a, b) {
        (Some(a), Some(b)) => {
            let old = match track.get_snapshot(a) {
                Some(old) => old,
                None => {
                    return Err(to_no_snapshot(a));
                },
            };
            let new = match track.get_snapshot(b) {
                Some(new) => new,
                None => {
                    return Err(to_no_snapshot(b));
                },
            };
            Ok((old, new))
        },
        (None, None) => {
            let count: usize = track.count_snapshots();
            if count < 2 {
                return Err("Atleast 2 snapshots are required for comparison".to_owned());
            }
            let snapshots = track.snapshots();
            assert(track::snapshot_views(snapshots@).len() == count);
            Ok((&snapshots[count - 2], &snapshots[count - 1]))
        },
        _ => Err("Both snapshot IDs are required for comparison".to_owned()),
    }
}

/// Compares two snapshots, the two newest unless numbers are given: all of them, or what
/// is at `path`.
pub fn compare_at(
    track: &FSTrack,
    depth: u32,
    a: Option<u32>,
    b: Option<u32>,
    path: Option<FsPath>,
) -> (res: Comparison)
    ensures
        res@ == comparison(track@, depth as nat, a, b, path_view(path)),
{
    let (old, new) = match choose_pair(track, a, b) {
        Ok(pair) => pair,
        Err(message) => {
            return Comparison::Message(message);
        },
    };
    let (old_root, new_root) = match &path {
        Some(path) => {
            let old_root = match old.root.find_by_path(path) {
                Some(old_root) => old_root,
                None => {
                    let shown = path.display();
                    return Comparison::Message(
                        enclose(
                            "Failed to find snapshot of `",
                            shown.as_str(),
                            "` in previous snapshot",
                        ),
                    );
                },
            };
            let new_root = match new.root.find_by_path(path) {
                Some(new_root) => new_root,
                None => {
                    let shown = path.display();
                    return Comparison::Message(
                        enclose(
                            "Failed to find snapshot of `",
                            shown.as_str(),
                            "` in current snapshot",
                        ),
                    );
                },
            };
            (old_root, new_root)
        },
        None => (&old.root, &new.root),
    };
    if !FSEntrySnapshotDiff::comparable(old_root, new_root) {
        return Comparison::Incomparable;
    }
    let difference = FSEntrySnapshotDiff::compute(old_root, new_root);
    if !difference.has_changes() {
        return Comparison::Message("No changes".to_owned());
    }
    let levels: u32 = match difference.checked_depth() {
        Some(levels) => levels,
        None => {
            return Comparison::TooDeep;
        },
    };
    let max_depth: u32 = if depth < levels {
        depth
    } else {
        levels
    };
    let name = track.root_path().display();
    let rows = fs_entry_snapshot_diff_rows(name.as_str(), &difference, 0, max_depth);
    Comparison::Changed { old_time: old.time, new_time: new.time, rows }
}

/// Compares two snapshots, the two newest unless numbers are given: all of them, or what
/// is at the path written as `path`, down to `depth` levels where that is given.
pub fn compare(
    track: &FSTrack,
    depth: Option<u32>,
    a: Option<u32>,
    b: Option<u32>,
    path: Option<String>,
) -> (res: Comparison)
    ensures
        res@ == comparison(track@, depth_asked(depth) as nat, a, b, written_path(path)),
{
    compare_at(track, to_depth(depth), a, b, parse_path(path))
}

/// The heading of a comparison, by the times at which the two snapshots were taken.
pub open spec fn comparison_heading(old_time: Seq<char>, new_time: Seq<char>) -> RowView {
    message_row(old_time + " -> "@ + new_time, Style::Plain)
}

/// Heads a comparison with the times at which the two snapshots were taken, as they are
/// written for people.
pub fn head_comparison(old_time: &str, new_time: &str) -> (res: Row)
    ensures
        res@ == comparison_heading(old_time@, new_time@),
{
    to_message(enclose(old_time, " -> ", new_time), Style::Plain)
}

/// What is said of a message about a snapshot that is taken.
pub open spec fn told(message: MessageView) -> RowView {
    match message {
        MessageView::Trace(path) => message_row(path, Style::Plain),
        MessageView::Error(error) => message_row("ERROR: "@ + error, Style::Red),
    }
}

/// What is said of a message about a snapshot that is taken.
pub fn tell(message: &SnapshotWorkerMessage) -> (res: Row)
    ensures
        res@ == told(message@),
{
    match message {
        SnapshotWorkerMessage::Trace(path) => to_message(path.clone(), Style::Plain),
        SnapshotWorkerMessage::Error(error) => {
            let mut text = "ERROR: ".to_owned();
            text.append(error.as_str());
            to_message(text, Style::Red)
        },
    }
}

/// What came of adding a snapshot to a track.
#[derive(Debug)]
pub enum SnapOutcome {
    Added,
    /// It could not be taken, as this row says.
    Failed(Row),
    /// What there is, is larger than `u64` can count.
    TooLarge,
    /// It is older than the newest that there is.
    Outdated,
}

/// What a [`SnapOutcome`] holds.
#[verifier::ext_equal]
pub ghost enum SnapOutcomeView {
    Added,
    Failed(RowView),
    TooLarge,
    Outdated,
}

impl View for SnapOutcome {
    type V = SnapOutcomeView;

    open spec fn view(&self) -> SnapOutcomeView {
        match self {
            SnapOutcome::Added => SnapOutcomeView::Added,
            SnapOutcome::Failed(row) => SnapOutcomeView::Failed(row@),
            SnapOutcome::TooLarge => SnapOutcomeView::TooLarge,
            SnapOutcome::Outdated => SnapOutcomeView::Outdated,
        }
    }
}

/// What is kept of a snapshot: nothing more than `depth` levels below it, where that is
/// given.
pub open spec fn kept(root: EntryView, depth: Option<u32>) -> EntryView {
    match depth {
        Some(depth) => snapshot::limited(root, depth as nat),
        None => root,
    }
}

/// What comes of adding to a track what was taken at `time`, and the track after that.
pub open spec fn snapped(
    track: TrackView,
    taken: Result<EntryView, ScanErrorView>,
    time: u64,
    depth: Option<u32>,
) -> (SnapOutcomeView, TrackView) {
    match taken {
        Err(ScanErrorView::Io(reason)) => (
            SnapOutcomeView::Failed(
                message_row("Failed to take snapshot: "@ + reason, Style::Red),
            ),
            track,
        ),
        Err(ScanErrorView::Overflow) => (SnapOutcomeView::TooLarge, track),
        Ok(root) => if track.snapshots.len() > 0 && track.snapshots.last().time > time {
            (SnapOutcomeView::Outdated, track)
        } else {
            (
                SnapOutcomeView::Added,
                TrackView {
                    snapshots: track.snapshots.push(SnapshotView { root: kept(root, depth), time }),
                    ..track
                },
            )
        },
    }
}

/// What came of taking a snapshot.
pub open spec fn taken_view(taken: Result<FSEntrySnapshot, ScanError>) -> Result<
    EntryView,
    ScanErrorView,
> {
    match taken {
        Ok(entry) => Ok(entry@),
        Err(error) => Err(error@),
    }
}

/// Adds to a track what was taken at `time`, down to `depth` levels where that is given.
pub fn snap(
    track: &mut FSTrack,
    taken: Result<FSEntrySnapshot, ScanError>,
    time: u64,
    depth: Option<u32>,
) -> (res: SnapOutcome)
    ensures
        (res@, final(track)@) == snapped(old(track)@, taken_view(taken), time, depth),
        track::in_order(old(track)@.snapshots) ==> track::in_order(final(track)@.snapshots),
{
    match taken {
        Err(ScanError::Io(reason)) => {
            let mut text = "Failed to take snapshot: ".to_owned();
            text.append(reason.as_str());
            SnapOutcome::Failed(to_message(text, Style::Red))
        },
        Err(ScanError::Overflow) => SnapOutcome::TooLarge,
        Ok(root) => {
            if track.is_outdated(time) {
                SnapOutcome::Outdated
            } else {
                let root = match depth {
                    Some(depth) => root.limited_to(depth),
                    None => root,
                };
                track.add_snapshot(FSSnapshot { root, time });
                SnapOutcome::Added
            }
        },
    }
}

/// What is asked about the rules of a track.
#[derive(Debug)]
pub enum RuleCommand {
    /// To show them.
    Show,
    /// To grant `depth` levels below a path.
    Add { path: FsPath, depth: u32 },
    /// To remove the rule for a path.
    Remove { path: FsPath },
    /// To simplify the rule for a path, or all of them.
    Simplify(Option<FsPath>),
}

/// What a [`RuleCommand`] holds.
#[verifier::ext_equal]
pub ghost enum RuleCommandView {
    Show,
    Add { path: PathView, depth: u32 },
    Remove { path: PathView },
    Simplify(Option<PathView>),
}

impl View for RuleCommand {
    type V = RuleCommandView;

    open spec fn view(&self) -> RuleCommandView {
        match self {
            RuleCommand::Show => RuleCommandView::Show,
            RuleCommand::Add { path, depth } => RuleCommandView::Add {
                path: path@,
                depth: *depth,
            },
            RuleCommand::Remove { path } => RuleCommandView::Remove { path: path@ },
            RuleCommand::Simplify(path) => RuleCommandView::Simplify(path_view(*path)),
        }
    }
}

/// What came of asking about rules.
#[derive(Debug)]
pub enum RuleOutcome {
    /// This is to be shown.
    Rows(Vec<Row>),
    /// The path has no components, so that there can be no rule for it.
    EmptyPath,
    /// A simplified rule would be deeper than `u32` can count.
    TooDeep,
}

/// What a [`RuleOutcome`] holds.
#[verifier::ext_equal]
pub ghost enum RuleOutcomeView {
    Rows(Seq<RowView>),
    EmptyPath,
    TooDeep,
}

impl View for RuleOutcome {
    type V = RuleOutcomeView;

    open spec fn view(&self) -> RuleOutcomeView {
        match self {
            RuleOutcome::Rows(rows) => RuleOutcomeView::Rows(report::row_views(rows@)),
            RuleOutcome::EmptyPath => RuleOutcomeView::EmptyPath,
            RuleOutcome::TooDeep => RuleOutcomeView::TooDeep,
        }
    }
}

/// The pattern that a component of a path is read as, if it is text.
pub open spec fn component_pattern(component: ComponentView) -> Option<PatternView> {
    match component.name {
        NameView::Text(text) => Some(rules::written_pattern(text)),
        NameView::Raw { .. } => None,
    }
}

/// Whether every component of a path is text.
pub open spec fn is_textual(path: Seq<ComponentView>) -> bool {
    forall|i: int| 0 <= i < path.len() ==> component_pattern(#[trigger] path[i]) is Some
}

/// The patterns that a path is read as: one for each component.
pub open spec fn path_patterns(path: Seq<ComponentView>) -> Option<Seq<PatternView>> {
    if is_textual(path) {
        Some(Seq::new(path.len(), |i: int| component_pattern(path[i])->0))
    } else {
        None
    }
}

/// The rows of nothing but a message.
pub open spec fn said(message: Seq<char>) -> RuleOutcomeView {
    RuleOutcomeView::Rows(seq![message_row(message, Style::Plain)])
}

/// What comes of granting `depth` levels below a path, and the rules after that.
pub open spec fn rule_added(table: RuleTable, path: PathView, depth: u32) -> (
    RuleOutcomeView,
    RuleTable,
) {
    match path_patterns(path.components) {
        None => (said("Failed to parse path pattern"@), table),
        Some(patterns) => match rule_model::nested(patterns, RuleView::Single(depth)) {
            RuleView::Single(_) => (RuleOutcomeView::EmptyPath, table),
            RuleView::RuleSet(added) => (
                RuleOutcomeView::Rows(Seq::empty()),
                rule_model::merged(table, added),
            ),
        },
    }
}

/// What comes of removing the rule for a path, and the rules after that.
pub open spec fn rule_removed(table: RuleTable, path: PathView) -> (RuleOutcomeView, RuleTable) {
    match path_patterns(path.components) {
        None => (said("Failed to parse path pattern"@), table),
        Some(patterns) => if patterns.len() == 0 {
            (RuleOutcomeView::EmptyPath, table)
        } else if rule_model::rule_at(table, patterns) is Some {
            (
                said("Rule removed successfully"@),
                rule_model::without_rule_at(table, patterns),
            )
        } else {
            (said("Failed to remove rule: ()"@), table)
        },
    }
}

/// What comes of simplifying all rules, and the rules after that.
pub open spec fn rules_simplified(table: RuleTable) -> (RuleOutcomeView, RuleTable) {
    if rule_model::can_simplify_table(table) {
        (said("Ruleset simplified successfully"@), rule_model::simplified_table(table))
    } else {
        (RuleOutcomeView::TooDeep, table)
    }
}

/// What comes of simplifying the rule for a path, and the rules after that. Without a
/// path of text all rules are simplified.
pub open spec fn rule_simplified(table: RuleTable, path: Option<PathView>) -> (
    RuleOutcomeView,
    RuleTable,
) {
    match path {
        None => rules_simplified(table),
        Some(path) => match path_patterns(path.components) {
            None => rules_simplified(table),
            Some(patterns) => if patterns.len() == 0 {
                (RuleOutcomeView::EmptyPath, table)
            } else {
                match rule_model::rule_at(table, patterns) {
                    None => (said("Failed to simplify rule: ()"@), table),
                    Some(rule) => if rule_model::can_simplify(rule) {
                        (
                            said("Rule simplified successfully"@),
                            rule_model::simplified_at(table, patterns),
                        )
                    } else {
                        (RuleOutcomeView::TooDeep, table)
                    },
                }
            },
        },
    }
}

/// What comes of asking about rules, and the rules after that.
pub open spec fn ruled(table: RuleTable, command: RuleCommandView) -> (RuleOutcomeView, RuleTable) {
    match command {
        RuleCommandView::Show => (
            RuleOutcomeView::Rows(report::rule_rows(table, table.len(), Seq::empty())),
            table,
        ),
        RuleCommandView::Add { path, depth } => rule_added(table, path, depth),
        RuleCommandView::Remove { path } => rule_removed(table, path),
        RuleCommandView::Simplify(path) => rule_simplified(table, path),
    }
}

/// The patterns that a path is read as: one for each component.
pub fn to_patterns(path: &FsPath) -> (res: Result<Vec<PathPattern>, ()>)
    ensures
        match path_patterns(path@.components) {
            Some(patterns) => res matches Ok(found) && rules::pattern_views(found@) == patterns,
            None => res is Err,
        },
{
    let ghost components = path@.components;
    let mut patterns: Vec<PathPattern> = Vec::new();
    let mut i: usize = 0;
    while i < path.components.len()
        invariant
            i <= path.components@.len(),
            patterns@.len() == i,
            components == path@.components,
            forall|j: int|
                0 <= j < i ==> component_pattern(#[trigger] components[j]) == Some(
                    patterns@[j]@,
                ),
        decreases path.components@.len() - i,
    {
        assert(components[i as int] == path.components@[i as int]@);
        match &path.components[i].name {
            OsName::Text(text) => {
                patterns.push(PathPattern::parse(text.as_str()));
            },
            OsName::Raw { .. } => {
                assert(component_pattern(components[i as int]) is None);
                return Err(());
            },
        }
        i = i + 1;
    }
    assert(rules::pattern_views(patterns@) =~= path_patterns(components)->0);
    Ok(patterns)
}

/// What is said where a path is no path of patterns.
fn no_patterns() -> (res: RuleOutcome)
    ensures
        res@ == said("Failed to parse path pattern"@),
{
    RuleOutcome::Rows(just_message("Failed to parse path pattern".to_owned()))
}

/// Grants `depth` levels below a path.
fn add_rule(ruleset: &mut SnapshotRuleSet, path: &FsPath, depth: u32) -> (res: RuleOutcome)
    ensures
        (res@, final(ruleset)@) == rule_added(old(ruleset)@, path@, depth),
{
    let patterns = match to_patterns(path) {
        Ok(patterns) => patterns,
        Err(_) => {
            return no_patterns();
        },
    };
    if patterns.len() == 0 {
        return RuleOutcome::EmptyPath;
    }
    ruleset.add_rule_path(patterns.as_slice(), SnapshotRule::Single(depth));
    let rows: Vec<Row> = Vec::new();
    assert(report::row_views(rows@) =~= Seq::<RowView>::empty());
    RuleOutcome::Rows(rows)
}

/// Removes the rule for a path.
fn remove_rule(ruleset: &mut SnapshotRuleSet, path: &FsPath) -> (res: RuleOutcome)
    ensures
        (res@, final(ruleset)@) == rule_removed(old(ruleset)@, path@),
{
    let patterns = match to_patterns(path) {
        Ok(patterns) => patterns,
        Err(_) => {
            return no_patterns();
        },
    };
    if patterns.len() == 0 {
        return RuleOutcome::EmptyPath;
    }
    let message = match ruleset.remove_rule_path(patterns.as_slice()) {
        Ok(()) => "Rule removed successfully",
        Err(()) => "Failed to remove rule: ()",
    };
    RuleOutcome::Rows(just_message(message.to_owned()))
}

/// Simplifies all rules.
fn simplify_rules(ruleset: &mut SnapshotRuleSet) -> (res: RuleOutcome)
    ensures
        (res@, final(ruleset)@) == rules_simplified(old(ruleset)@),
{
    if !ruleset.can_simplify() {
        return RuleOutcome::TooDeep;
    }
    ruleset.simplify();
    RuleOutcome::Rows(just_message("Ruleset simplified successfully".to_owned()))
}

/// Simplifies the rule for a path, or all of them.
fn simplify_rule(ruleset: &mut SnapshotRuleSet, path: &Option<FsPath>) -> (res: RuleOutcome)
    ensures
        (res@, final(ruleset)@) == rule_simplified(old(ruleset)@, path_view(*path)),
{
    let patterns = match path {
        None => {
            return simplify_rules(ruleset);
        },
        Some(path) => match to_patterns(path) {
            Ok(patterns) => patterns,
            Err(_) => {
                return simplify_rules(ruleset);
            },
        },
    };
    if patterns.len() == 0 {
        return RuleOutcome::EmptyPath;
    }
    let fits = match ruleset.find_rule_path(patterns.as_slice()) {
        Some(rule) => rule.can_simplify(),
        None => true,
    };
    if !fits {
        return RuleOutcome::TooDeep;
    }
    let message = match ruleset.simplify_path(patterns.as_slice()) {
        Ok(()) => "Rule simplified successfully",
        Err(()) => "Failed to simplify rule: ()",
    };
    RuleOutcome::Rows(just_message(message.to_owned()))
}

/// Shows the rules of a track, or changes them.
pub fn rule(track: &mut FSTrack, command: &RuleCommand) -> (res: RuleOutcome)
    ensures
        res@ == ruled(old(track)@.rules, command@).0,
        final(track)@ == (TrackView { rules: ruled(old(track)@.rules, command@).1, ..old(track)@ }),
{
    match command {
        RuleCommand::Show => RuleOutcome::Rows(ruleset_rows(track.snapshot_ruleset(), 0)),
        RuleCommand::Add { path, depth } => add_rule(track.snapshot_ruleset_mut(), path, *depth),
        RuleCommand::Remove { path } => remove_rule(track.snapshot_ruleset_mut(), path),
        RuleCommand::Simplify(path) => simplify_rule(track.snapshot_ruleset_mut(), path),
    }
}

} // verus!
