//! Laws of commands.
use vstd::prelude::*;

use crate::commands;
use crate::commands::{ComparisonView, RuleCommandView, RuleOutcomeView, SnapOutcomeView};
use crate::diff;
use crate::diff_laws;
use crate::diff_laws::law_same_snapshot_has_no_changes;
use crate::dispatch;
use crate::dispatch::{Dispatch, NamesView};
use crate::path;
use crate::path::{ComponentView, NameView, PathView};
use crate::report;
use crate::report::{LabelView, RowView, Style};
use crate::report_laws::law_no_rows_below_diff;
use crate::rule_laws;
use crate::rule_laws::{law_added_path_is_found, law_removed_path_is_gone};
use crate::rule_model;
use crate::rule_model::{PatternView, RuleTable, RuleView};
use crate::rules;
use crate::scan::{MessageView, ScanErrorView};
use crate::snapshot;
use crate::snapshot::{EntryView, SnapshotView};
use crate::text;
use crate::track;
use crate::track::TrackView;

verus! {

/// A snapshot that was added is the newest, and those that there were keep their
/// numbers.
pub proof fn law_added_snapshot_is_newest(
    track: TrackView,
    taken: Result<EntryView, ScanErrorView>,
    time: u64,
    depth: Option<u32>,
    id: u32,
)
    requires
        commands::snapped(track, taken, time, depth).0 is Added,
    ensures
        ({
            let after = commands::snapped(track, taken, time, depth).1;
            &&& taken matches Ok(root) && commands::chosen_snapshot(after, None) == Ok::<
                SnapshotView,
                Seq<char>,
            >(SnapshotView { root: commands::kept(root, depth), time })
            &&& id < track.snapshots.len() ==> commands::chosen_snapshot(after, Some(id))
                == commands::chosen_snapshot(track, Some(id))
        }),
{
}

/// What could not be added leaves the track as it was.
pub proof fn law_failed_snap_changes_nothing(
    track: TrackView,
    taken: Result<EntryView, ScanErrorView>,
    time: u64,
    depth: Option<u32>,
)
    requires
        !(commands::snapped(track, taken, time, depth).0 is Added),
    ensures
        commands::snapped(track, taken, time, depth).1 == track,
{
}

/// Once a snapshot was added to others, comparing without numbers compares it with the
/// one that was the newest before.
pub proof fn law_newest_are_compared(
    track: TrackView,
    taken: Result<EntryView, ScanErrorView>,
    time: u64,
    depth: Option<u32>,
)
    requires
        commands::snapped(track, taken, time, depth).0 is Added,
        track.snapshots.len() > 0,
    ensures
        taken matches Ok(root) && commands::chosen_pair(
            commands::snapped(track, taken, time, depth).1,
            None,
            None,
        ) == Ok::<(SnapshotView, SnapshotView), Seq<char>>(
            (track.snapshots.last(), SnapshotView { root: commands::kept(root, depth), time }),
        ),
{
}

/// A snapshot in which no directory lists a name twice, compared with itself, shows no
/// changes.
pub proof fn law_snapshot_compared_with_itself(track: TrackView, depth: nat, id: u32)
    requires
        id < track.snapshots.len(),
        diff_laws::distinct_names(track.snapshots[id as int].root),
    ensures
        commands::comparison(track, depth, Some(id), Some(id), None) == ComparisonView::Message(
            "No changes"@,
        ),
{
    law_same_snapshot_has_no_changes(track.snapshots[id as int].root);
}

/// After a depth was granted below a path it is the rule there.
pub proof fn law_granted_depth_is_the_rule(table: RuleTable, path: PathView, depth: u32)
    requires
        commands::path_patterns(path.components) matches Some(patterns) && patterns.len() > 0,
    ensures
        rule_model::rule_at(
            commands::ruled(table, RuleCommandView::Add { path, depth }).1,
            commands::path_patterns(path.components)->0,
        ) == Some(RuleView::Single(depth)),
{
    law_added_path_is_found(table, commands::path_patterns(path.components)->0, depth);
}

/// Whether a path is as one that was written as text is read: its components are text.
pub open spec fn is_written(path: PathView) -> bool {
    forall|i: int|
        0 <= i < path.components.len() ==> (#[trigger] path.components[i]).name is Text
}

/// To grant a depth below a path that was written as text, and is not empty, always
/// succeeds.
pub proof fn law_written_path_is_granted(table: RuleTable, path: PathView, depth: u32)
    requires
        is_written(path),
        path.components.len() > 0,
    ensures
        commands::path_patterns(path.components) is Some,
        commands::ruled(table, RuleCommandView::Add { path, depth }).0 == RuleOutcomeView::Rows(
            Seq::empty(),
        ),
        rule_model::rule_at(
            commands::ruled(table, RuleCommandView::Add { path, depth }).1,
            commands::path_patterns(path.components)->0,
        ) == Some(RuleView::Single(depth)),
{
    assert forall|i: int| 0 <= i < path.components.len() implies commands::component_pattern(
        #[trigger] path.components[i],
    ) is Some by {
        assert(path.components[i].name is Text);
    }
    law_granted_depth_is_the_rule(table, path, depth);
}

/// A rule that was removed is gone, so that it cannot be removed again.
pub proof fn law_removed_rule_cannot_be_removed_again(table: RuleTable, path: PathView)
    requires
        commands::ruled(table, RuleCommandView::Remove { path }).0 == commands::said(
            "Rule removed successfully"@,
        ),
    ensures
        ({
            let after = commands::ruled(table, RuleCommandView::Remove { path }).1;
            commands::ruled(after, RuleCommandView::Remove { path }) == (
                commands::said("Failed to remove rule: ()"@),
                after,
            )
        }),
{
    reveal_strlit("Rule removed successfully");
    reveal_strlit("Failed to remove rule: ()");
    reveal_strlit("Failed to parse path pattern");
    let patterns = commands::path_patterns(path.components);
    let removed = seq![
        commands::message_row("Rule removed successfully"@, crate::report::Style::Plain),
    ];
    assert(commands::said("Rule removed successfully"@) == RuleOutcomeView::Rows(removed));
    assert(removed[0].label->Text_0[0] == 'R');
    let failed = seq![
        commands::message_row("Failed to remove rule: ()"@, crate::report::Style::Plain),
    ];
    assert(commands::said("Failed to remove rule: ()"@) == RuleOutcomeView::Rows(failed));
    assert(failed[0].label->Text_0[0] == 'F');
    let unread = seq![
        commands::message_row("Failed to parse path pattern"@, crate::report::Style::Plain),
    ];
    assert(commands::said("Failed to parse path pattern"@) == RuleOutcomeView::Rows(unread));
    assert(unread[0].label->Text_0[0] == 'F');
    law_removed_path_is_gone(table, patterns->0);
}

/// Whatever is asked about rules that keep every pattern to one rule, they do so
/// afterwards.
pub proof fn law_commands_keep_patterns_distinct(table: RuleTable, command: RuleCommandView)
    requires
        rule_model::distinct_patterns(table),
    ensures
        rule_model::distinct_patterns(commands::ruled(table, command).1),
{
    match command {
        RuleCommandView::Show => {},
        RuleCommandView::Add { path, depth } => {
            let patterns = commands::path_patterns(path.components);
            if patterns is Some {
                let rule = RuleView::Single(depth);
                rule_laws::law_nested_is_distinct(patterns->0, rule);
                let nested = rule_model::nested(patterns->0, rule);
                if nested is RuleSet {
                    rule_laws::law_merge_keeps_patterns_distinct(table, nested->RuleSet_0);
                }
            }
        },
        RuleCommandView::Remove { path } => {
            let patterns = commands::path_patterns(path.components);
            if patterns is Some && patterns->0.len() > 0 {
                rule_laws::law_remove_path_keeps_patterns_distinct(table, patterns->0);
            }
        },
        RuleCommandView::Simplify(path) => {
            rule_laws::law_simplify_keeps_patterns_distinct(table);
            if path is Some {
                let patterns = commands::path_patterns(path->0.components);
                if patterns is Some {
                    rule_laws::law_simplify_path_keeps_patterns_distinct(table, patterns->0);
                }
            }
        },
    }
}

/// To show the rules does not change them, and shows all of them.
pub proof fn law_showing_rules_keeps_them(table: RuleTable)
    ensures
        commands::ruled(table, RuleCommandView::Show).1 == table,
        commands::ruled(table, RuleCommandView::Show).0 matches RuleOutcomeView::Rows(rows) && rows
            == report::rule_rows(table, table.len(), Seq::empty()),
{
}

/// A line calls for one command at most.
pub proof fn law_one_command_is_called(
    commands: Seq<NamesView>,
    word: Seq<char>,
    i: int,
    j: int,
)
    requires
        dispatch::is_command(commands, word, i),
        dispatch::is_command(commands, word, j),
    ensures
        i == j,
{
}

/// Whether rows are nothing but a plain message.
pub open spec fn is_message(rows: Seq<RowView>, message: Seq<char>) -> bool {
    &&& rows.len() == 1
    &&& rows[0].indent.len() == 0
    &&& rows[0].label == LabelView::Text(message)
    &&& rows[0].style == Style::Plain
}

/// A path is read as patterns exactly when its components are text: as many as there are,
/// each as it is written, in their order.
pub proof fn law_path_is_read_as_patterns(path: Seq<ComponentView>, i: int)
    ensures
        commands::path_patterns(path) is Some <==> forall|j: int|
            0 <= j < path.len() ==> (#[trigger] path[j]).name is Text,
        commands::path_patterns(path) matches Some(patterns) ==> patterns.len() == path.len() && (0
            <= i < path.len() ==> patterns[i] == rules::written_pattern(path[i].name->Text_0)),
{
    if commands::path_patterns(path) is Some {
        assert forall|j: int| 0 <= j < path.len() implies (#[trigger] path[j]).name is Text by {
            assert(commands::component_pattern(path[j]) is Some);
        }
        if 0 <= i < path.len() {
            assert(path[i].name is Text);
        }
    }
    if forall|j: int| 0 <= j < path.len() ==> (#[trigger] path[j]).name is Text {
        assert forall|j: int| 0 <= j < path.len() implies commands::component_pattern(
            #[trigger] path[j],
        ) is Some by {
            assert(path[j].name is Text);
        }
    }
}

/// To grant a depth below a path says nothing, puts the depth at the end of the path, and
/// leaves every other rule as it was: those for other patterns in their places, and those
/// at paths that part from it, but for the wildcard that a depth on the way becomes the
/// default of.
pub proof fn law_add_disturbs_no_other_rule(
    table: RuleTable,
    path: PathView,
    depth: u32,
    other: Seq<PatternView>,
    level: int,
    i: int,
)
    requires
        commands::path_patterns(path.components) matches Some(patterns) && patterns.len() > 0,
    ensures
        ({
            let patterns = commands::path_patterns(path.components)->0;
            let outcome = commands::ruled(table, RuleCommandView::Add { path, depth }).0;
            let after = commands::ruled(table, RuleCommandView::Add { path, depth }).1;
            &&& outcome matches RuleOutcomeView::Rows(rows) && rows.len() == 0
            &&& rule_model::rule_at(after, patterns) == Some(RuleView::Single(depth))
            &&& after.len() >= table.len()
            &&& 0 <= i < table.len() ==> after[i].0 == table[i].0
            &&& 0 <= i < table.len() && !table[i].0.same(patterns[0]) ==> after[i] == table[i]
            &&& rule_laws::part_at(patterns, other, level) && !(other.len() == level + 1
                && other[level] is Wildcard && rule_laws::gets_default_at(table, patterns, level))
                ==> rule_model::rule_at(after, other) == rule_model::rule_at(table, other)
        }),
{
    let patterns = commands::path_patterns(path.components)->0;
    let rule = RuleView::Single(depth);
    law_added_path_is_found(table, patterns, depth);
    let below = patterns.drop_first();
    let entry = (patterns[0], rule_model::nested(below, rule));
    assert(rule_model::nested(patterns, rule) == RuleView::RuleSet(seq![entry]));
    rule_laws::lemma_merged_one(table, entry);
    rule_laws::law_add_keeps_places(
        table,
        patterns[0],
        rule_model::merged_rule(rule_model::found_rule(table, patterns[0]), entry.1),
        i,
    );
    if rule_laws::part_at(patterns, other, level) && !(other.len() == level + 1
        && other[level] is Wildcard && rule_laws::gets_default_at(table, patterns, level)) {
        rule_laws::law_add_path_keeps_other_paths(table, patterns, depth, other, level);
    }
}

/// A path that cannot be read as patterns, or is empty, changes no rule.
pub proof fn law_unreadable_path_changes_no_rule(table: RuleTable, path: PathView, depth: u32)
    ensures
        commands::path_patterns(path.components) is None ==> {
            &&& commands::ruled(table, RuleCommandView::Add { path, depth }).1 == table
            &&& commands::ruled(table, RuleCommandView::Remove { path }).1 == table
            &&& commands::ruled(
                table,
                RuleCommandView::Add { path, depth },
            ).0 matches RuleOutcomeView::Rows(rows) && is_message(
                rows,
                "Failed to parse path pattern"@,
            )
            &&& commands::ruled(
                table,
                RuleCommandView::Remove { path },
            ).0 matches RuleOutcomeView::Rows(rows) && is_message(
                rows,
                "Failed to parse path pattern"@,
            )
        },
        path.components.len() == 0 ==> {
            &&& commands::ruled(table, RuleCommandView::Add { path, depth }) == (
                RuleOutcomeView::EmptyPath,
                table,
            )
            &&& commands::ruled(table, RuleCommandView::Remove { path }) == (
                RuleOutcomeView::EmptyPath,
                table,
            )
            &&& commands::ruled(table, RuleCommandView::Simplify(Some(path))) == (
                RuleOutcomeView::EmptyPath,
                table,
            )
        },
{
}

/// To remove a rule succeeds exactly when there is one at the end of the whole path. It is
/// then gone, while every set on the way stays, and the rule at every path that parts from
/// it is as it was. Else nothing changes.
pub proof fn law_remove_disturbs_no_other_rule(
    table: RuleTable,
    path: PathView,
    other: Seq<PatternView>,
    level: int,
    k: int,
)
    requires
        commands::path_patterns(path.components) matches Some(patterns) && patterns.len() > 0,
    ensures
        ({
            let patterns = commands::path_patterns(path.components)->0;
            let outcome = commands::ruled(table, RuleCommandView::Remove { path }).0;
            let after = commands::ruled(table, RuleCommandView::Remove { path }).1;
            &&& outcome is Rows
            &&& rule_model::rule_at(table, patterns) is Some ==> {
                &&& is_message(outcome->Rows_0, "Rule removed successfully"@)
                &&& rule_model::rule_at(after, patterns) is None
                &&& 0 < k < patterns.len() ==> (rule_model::rule_at(
                    after,
                    patterns.take(k),
                ) matches Some(RuleView::RuleSet(_)))
            }
            &&& rule_model::rule_at(table, patterns) is None ==> {
                &&& is_message(outcome->Rows_0, "Failed to remove rule: ()"@)
                &&& after == table
            }
            &&& rule_laws::part_at(patterns, other, level) ==> rule_model::rule_at(after, other)
                == rule_model::rule_at(table, other)
        }),
{
    let patterns = commands::path_patterns(path.components)->0;
    law_removed_path_is_gone(table, patterns);
    if rule_model::rule_at(table, patterns) is Some && 0 < k < patterns.len() {
        rule_laws::law_remove_path_keeps_sets_on_the_way(table, patterns, k);
    }
    if rule_laws::part_at(patterns, other, level) {
        rule_laws::law_remove_path_keeps_other_paths(table, patterns, other, level);
    }
}

/// To remove the rule for a pattern takes just that one out, and the others keep their
/// order.
pub proof fn law_remove_takes_one_rule_out(table: RuleTable, path: PathView, i: int)
    requires
        rule_model::distinct_patterns(table),
        commands::path_patterns(path.components) matches Some(patterns) && patterns.len() == 1
            && 0 <= i < table.len() && table[i].0.same(patterns[0]),
    ensures
        commands::ruled(table, RuleCommandView::Remove { path }).1 == table.take(i) + table.skip(
            i + 1,
        ),
{
    let patterns = commands::path_patterns(path.components)->0;
    rule_laws::law_remove_takes_one_rule_out(table, patterns[0], i);
    assert forall|j: int| 0 <= j < i implies !(#[trigger] table[j]).0.same(patterns[0]) by {
        assert(!table[j].0.same(table[i].0));
        rule_laws::law_same_pattern(table[j].0, patterns[0], table[i].0);
        rule_laws::law_same_pattern(table[i].0, patterns[0], patterns[0]);
    }
    rule_laws::law_first_rule_is_found(table, patterns[0], i);
}

/// To simplify the rule for a path succeeds exactly when there is one at its end that can
/// be. It is then simplified, and the rule at every path that parts from it is as it was.
/// Else nothing changes.
pub proof fn law_simplify_disturbs_no_other_rule(
    table: RuleTable,
    path: PathView,
    other: Seq<PatternView>,
    level: int,
)
    requires
        commands::path_patterns(path.components) matches Some(patterns) && patterns.len() > 0,
    ensures
        ({
            let patterns = commands::path_patterns(path.components)->0;
            let outcome = commands::ruled(table, RuleCommandView::Simplify(Some(path))).0;
            let after = commands::ruled(table, RuleCommandView::Simplify(Some(path))).1;
            &&& match rule_model::rule_at(table, patterns) {
                None => after == table && outcome is Rows && is_message(
                    outcome->Rows_0,
                    "Failed to simplify rule: ()"@,
                ),
                Some(rule) => if rule_model::can_simplify(rule) {
                    &&& outcome is Rows
                    &&& is_message(outcome->Rows_0, "Rule simplified successfully"@)
                    &&& rule_model::rule_at(after, patterns) == Some(rule_model::simplified(rule))
                } else {
                    after == table && outcome is TooDeep
                },
            }
            &&& rule_laws::part_at(patterns, other, level) ==> rule_model::rule_at(after, other)
                == rule_model::rule_at(table, other)
        }),
{
    let patterns = commands::path_patterns(path.components)->0;
    rule_laws::law_simplified_path_is_simplified(table, patterns);
    if rule_laws::part_at(patterns, other, level) {
        rule_laws::law_simplify_path_keeps_other_paths(table, patterns, other, level);
    }
}

/// To simplify all rules, which a path that cannot be read as patterns does too, simplifies
/// each in its place, if all can be, and else nothing changes.
pub proof fn law_simplify_all_rules(table: RuleTable, path: Option<PathView>, i: int)
    requires
        path matches Some(path) ==> commands::path_patterns(path.components) is None,
    ensures
        ({
            let outcome = commands::ruled(table, RuleCommandView::Simplify(path)).0;
            let after = commands::ruled(table, RuleCommandView::Simplify(path)).1;
            if forall|j: int|
                0 <= j < table.len() ==> rule_model::can_simplify((#[trigger] table[j]).1) {
                &&& outcome is Rows
                &&& is_message(outcome->Rows_0, "Ruleset simplified successfully"@)
                &&& after.len() == table.len()
                &&& 0 <= i < table.len() ==> after[i] == (
                    table[i].0,
                    rule_model::simplified(table[i].1),
                )
            } else {
                after == table && outcome is TooDeep
            }
        }),
{
}

/// The depth that is asked for is the one that is given. Without one, all levels are.
pub proof fn law_depth_asked(depth: u32)
    ensures
        commands::depth_asked(Some(depth)) == depth,
        commands::depth_asked(None) >= depth,
        commands::depth_asked(None) == u32::MAX,
{
}

/// A path that is written is read as it is written, and none as none.
pub proof fn law_written_path(text: String)
    ensures
        commands::written_path(None) is None,
        commands::written_path(Some(text)) matches Some(path) && path.text == NameView::Text(
            text@,
        ) && path.components == path::read_components(text@) && path.steps == path::path_steps(
            text@,
        ),
{
}

/// What is shown of the snapshot with a number are the rows of that snapshot: of its root
/// under the tracked directory, or of what stands at a path in that root, under the path
/// in that directory.
pub proof fn law_numbered_snapshot_is_shown(
    track: TrackView,
    id: u32,
    path: PathView,
    max_depth: nat,
)
    requires
        id < track.snapshots.len(),
    ensures
        commands::snapshot_shown(track, Some(id), None, max_depth) == report::entry_rows(
            track.root.text.shown(),
            track.snapshots[id as int].root,
            Seq::empty(),
            max_depth,
            Style::Plain,
        ),
        match snapshot::found_at(track.snapshots[id as int].root, path.steps) {
            None => is_message(
                commands::snapshot_shown(track, Some(id), Some(path), max_depth),
                "Failed to find snapshot of `"@ + path.text.shown() + "`"@,
            ),
            Some(entry) => commands::snapshot_shown(track, Some(id), Some(path), max_depth)
                == report::entry_rows(
                path::joined_path(track.root.text.shown(), path.text.shown()),
                entry,
                Seq::empty(),
                max_depth,
                Style::Plain,
            ),
        },
{
}

/// What is shown with a number does not depend on any other snapshot.
pub proof fn law_shown_snapshot_is_the_only_one_that_counts(
    track: TrackView,
    other: TrackView,
    id: u32,
    path: Option<PathView>,
    max_depth: nat,
)
    requires
        id < track.snapshots.len(),
        id < other.snapshots.len(),
        track.root == other.root,
        track.snapshots[id as int].root == other.snapshots[id as int].root,
    ensures
        commands::snapshot_shown(track, Some(id), path, max_depth) == commands::snapshot_shown(
            other,
            Some(id),
            path,
            max_depth,
        ),
{
}

/// Without a number the newest snapshot is shown, as with its number.
pub proof fn law_newest_snapshot_is_shown(
    track: TrackView,
    path: Option<PathView>,
    max_depth: nat,
)
    requires
        0 < track.snapshots.len() <= u32::MAX,
    ensures
        commands::snapshot_shown(track, None, path, max_depth) == commands::snapshot_shown(
            track,
            Some((track.snapshots.len() - 1) as u32),
            path,
            max_depth,
        ),
{
}

/// Where there is no snapshot to show, that is said.
pub proof fn law_missing_snapshot_is_not_shown(
    track: TrackView,
    id: u32,
    path: Option<PathView>,
    max_depth: nat,
)
    ensures
        id >= track.snapshots.len() ==> is_message(
            commands::snapshot_shown(track, Some(id), path, max_depth),
            "Snapshot "@ + text::decimal(id as nat) + " does not exist"@,
        ),
        track.snapshots.len() == 0 ==> is_message(
            commands::snapshot_shown(track, None, path, max_depth),
            "No snapshots taken"@,
        ),
{
}

/// Snapshots are listed each with its number and its time, in their order. Without any,
/// that is said.
pub proof fn law_snapshots_are_listed(times: Seq<String>, i: int)
    ensures
        times.len() == 0 ==> is_message(commands::snapshot_list(times), "No snapshots taken"@),
        times.len() > 0 ==> commands::snapshot_list(times).len() == times.len(),
        0 <= i < times.len() ==> {
            let row = commands::snapshot_list(times)[i];
            &&& row.indent.len() == 0
            &&& row.style == Style::Plain
            &&& row.label == LabelView::Text(text::decimal(i as nat) + ": "@ + times[i]@)
        },
{
}

/// The two entries of which a comparison of snapshots `a` and `b` of a track is one.
pub open spec fn compared_entries(
    track: TrackView,
    a: int,
    b: int,
    path: Option<PathView>,
) -> Option<(EntryView, EntryView)> {
    match path {
        None => Some((track.snapshots[a].root, track.snapshots[b].root)),
        Some(path) => match (
            snapshot::found_at(track.snapshots[a].root, path.steps),
            snapshot::found_at(track.snapshots[b].root, path.steps),
        ) {
            (Some(old), Some(new)) => Some((old, new)),
            _ => None,
        },
    }
}

/// Comparing two snapshots by number compares the first as the old with the second as the
/// new one: all of them, or what stands at a path in each. What is shown are the changes
/// from the one to the other, under the tracked directory and down to the depth that is
/// asked for, with the times at which the two were taken.
pub proof fn law_numbered_snapshots_are_compared(
    track: TrackView,
    depth: nat,
    a: u32,
    b: u32,
    path: Option<PathView>,
)
    requires
        a < track.snapshots.len(),
        b < track.snapshots.len(),
        compared_entries(track, a as int, b as int, path) is Some,
    ensures
        ({
            let (old, new) = compared_entries(track, a as int, b as int, path)->0;
            let res = commands::comparison(track, depth, Some(a), Some(b), path);
            if !diff::comparable(old, new) {
                res is Incomparable
            } else if !diff::entry_diff(old, new).has_changes() {
                res == ComparisonView::Message("No changes"@)
            } else if diff::diff_depth(diff::entry_diff(old, new)) > u32::MAX {
                res is TooDeep
            } else {
                &&& res is Changed
                &&& res->old_time == track.snapshots[a as int].time
                &&& res->new_time == track.snapshots[b as int].time
                &&& res->rows == report::diff_rows(
                    track.root.text.shown(),
                    diff::entry_diff(old, new),
                    Seq::empty(),
                    depth,
                )
            }
        }),
{
    let (old, new) = compared_entries(track, a as int, b as int, path)->0;
    let difference = diff::entry_diff(old, new);
    if depth >= diff::diff_depth(difference) {
        law_no_rows_below_diff(track.root.text.shown(), difference, Seq::empty(), depth);
    }
}

/// Without numbers the newest snapshot is compared with the one before it, as with their
/// numbers.
pub proof fn law_two_newest_are_compared(track: TrackView, depth: nat, path: Option<PathView>)
    requires
        2 <= track.snapshots.len() <= u32::MAX,
    ensures
        commands::comparison(track, depth, None, None, path) == commands::comparison(
            track,
            depth,
            Some((track.snapshots.len() - 2) as u32),
            Some((track.snapshots.len() - 1) as u32),
            path,
        ),
{
}

/// What cannot be compared for want of a snapshot, or of something at the path in one, is
/// said.
pub proof fn law_missing_snapshots_are_not_compared(
    track: TrackView,
    depth: nat,
    a: u32,
    b: u32,
    path: Option<PathView>,
)
    ensures
        commands::comparison(track, depth, Some(a), None, path) == ComparisonView::Message(
            "Both snapshot IDs are required for comparison"@,
        ),
        commands::comparison(track, depth, None, Some(b), path) == ComparisonView::Message(
            "Both snapshot IDs are required for comparison"@,
        ),
        track.snapshots.len() < 2 ==> commands::comparison(track, depth, None, None, path)
            == ComparisonView::Message("Atleast 2 snapshots are required for comparison"@),
        a >= track.snapshots.len() ==> commands::comparison(track, depth, Some(a), Some(b), path)
            == ComparisonView::Message(
            "Snapshot "@ + text::decimal(a as nat) + " does not exist"@,
        ),
        a < track.snapshots.len() && b >= track.snapshots.len() ==> commands::comparison(
            track,
            depth,
            Some(a),
            Some(b),
            path,
        ) == ComparisonView::Message("Snapshot "@ + text::decimal(b as nat) + " does not exist"@),
        a < track.snapshots.len() && b < track.snapshots.len() && path is Some ==> {
            let res = commands::comparison(track, depth, Some(a), Some(b), path);
            let shown = path->0.text.shown();
            &&& snapshot::found_at(track.snapshots[a as int].root, path->0.steps) is None ==> res
                == ComparisonView::Message(
                "Failed to find snapshot of `"@ + shown + "` in previous snapshot"@,
            )
            &&& snapshot::found_at(track.snapshots[a as int].root, path->0.steps) is Some
                && snapshot::found_at(track.snapshots[b as int].root, path->0.steps) is None ==> res
                == ComparisonView::Message(
                "Failed to find snapshot of `"@ + shown + "` in current snapshot"@,
            )
        },
{
}

/// A comparison is headed by the older time, an arrow and the newer.
pub proof fn law_comparison_is_headed(old_time: Seq<char>, new_time: Seq<char>)
    ensures
        is_message(
            seq![commands::comparison_heading(old_time, new_time)],
            old_time + " -> "@ + new_time,
        ),
{
}

/// What is recorded is told by its path, and an error in red.
pub proof fn law_messages_are_told(text: Seq<char>)
    ensures
        is_message(seq![commands::told(MessageView::Trace(text))], text),
        ({
            let row = commands::told(MessageView::Error(text));
            &&& row.indent.len() == 0
            &&& row.label == LabelView::Text("ERROR: "@ + text)
            &&& row.style == Style::Red
        }),
{
}

/// What was taken is added behind the snapshots that there are, unless it is older than
/// the newest. Nothing else about the track changes.
pub proof fn law_taken_snapshot_is_added(
    track: TrackView,
    root: EntryView,
    time: u64,
    depth: Option<u32>,
)
    ensures
        ({
            let outcome = commands::snapped(track, Ok(root), time, depth).0;
            let after = commands::snapped(track, Ok(root), time, depth).1;
            &&& after.root == track.root
            &&& after.rules == track.rules
            &&& if track.snapshots.len() > 0 && track.snapshots.last().time > time {
                outcome is Outdated && after.snapshots == track.snapshots
            } else {
                &&& outcome is Added
                &&& after.snapshots.len() == track.snapshots.len() + 1
                &&& after.snapshots.drop_last() == track.snapshots
                &&& after.snapshots.last().time == time
                &&& depth is None ==> after.snapshots.last().root == root
                &&& depth matches Some(levels) ==> after.snapshots.last().root
                    == snapshot::limited(root, levels as nat)
            }
        }),
{
    let after = commands::snapped(track, Ok(root), time, depth).1;
    if !(track.snapshots.len() > 0 && track.snapshots.last().time > time) {
        assert(after.snapshots.drop_last() =~= track.snapshots);
    }
}

/// What could not be taken is said, in red, with the reason.
pub proof fn law_failed_snapshot_is_told(
    track: TrackView,
    reason: Seq<char>,
    time: u64,
    depth: Option<u32>,
)
    ensures
        commands::snapped(
            track,
            Err(ScanErrorView::Io(reason)),
            time,
            depth,
        ).0 matches SnapOutcomeView::Failed(row) && row.indent.len() == 0 && row.label
            == LabelView::Text("Failed to take snapshot: "@ + reason) && row.style == Style::Red,
        commands::snapped(track, Err(ScanErrorView::Overflow), time, depth).0 is TooLarge,
{
}

/// A command answers to its name and to its aliases, and to nothing else.
pub proof fn law_command_answers(names: NamesView, word: Seq<char>)
    ensures
        names.answers_to(word) <==> names.name == word || exists|i: int|
            0 <= i < names.aliases.len() && #[trigger] names.aliases[i] == word,
{
    if names.aliases.contains(word) {
        let i = choose|i: int| 0 <= i < names.aliases.len() && names.aliases[i] == word;
        assert(names.aliases[i] == word);
    }
}

/// What words call for: the first command that answers to the first of them is run on all
/// of them, in their order. If none does, that is said. No words call for nothing.
pub proof fn law_words_call_for_first_command(
    commands: Seq<NamesView>,
    words: Seq<Seq<char>>,
    called: Dispatch,
)
    requires
        dispatch::is_called_for(commands, words, called),
    ensures
        called is Nothing <==> words.len() == 0,
        called matches Dispatch::Run { command, words: passed } ==> {
            &&& command < commands.len()
            &&& commands[command as int].answers_to(words[0])
            &&& forall|j: int|
                0 <= j < command ==> !(#[trigger] commands[j]).answers_to(words[0])
            &&& passed@.len() == words.len()
            &&& forall|j: int| 0 <= j < words.len() ==> (#[trigger] passed@[j])@ == words[j]
        },
        called matches Dispatch::Unknown(message) ==> {
            &&& message@ == "Command '"@ + words[0] + "' not found"@
            &&& forall|j: int|
                0 <= j < commands.len() ==> !(#[trigger] commands[j]).answers_to(words[0])
        },
        !(called is Malformed),
{
    if let Dispatch::Run { command, words: passed } = called {
        assert forall|j: int| 0 <= j < words.len() implies (#[trigger] passed@[j])@ == words[j] by {
            assert(dispatch::word_views(passed@)[j] == words[j]);
        }
    }
}

/// Where no snapshot is older than the one before it, that is still so once one more was
/// taken, whatever came of it.
pub proof fn law_snapshots_stay_in_order(
    track: TrackView,
    taken: Result<EntryView, ScanErrorView>,
    time: u64,
    depth: Option<u32>,
)
    requires
        forall|i: int, j: int|
            0 <= i < j < track.snapshots.len() ==> (#[trigger] track.snapshots[i]).time <= (
            #[trigger] track.snapshots[j]).time,
    ensures
        track::in_order(track.snapshots),
        track::in_order(commands::snapped(track, taken, time, depth).1.snapshots),
        ({
            let after = commands::snapped(track, taken, time, depth).1.snapshots;
            forall|i: int, j: int|
                0 <= i < j < after.len() ==> (#[trigger] after[i]).time <= (
                #[trigger] after[j]).time
        }),
{
}

/// Snapshots are in order exactly when no later one has an earlier time.
pub proof fn law_order_of_snapshots(snapshots: Seq<SnapshotView>)
    ensures
        track::in_order(snapshots) <==> !exists|i: int, j: int|
            0 <= i < j < snapshots.len() && (#[trigger] snapshots[j]).time < (
            #[trigger] snapshots[i]).time,
{
}

} // verus!
