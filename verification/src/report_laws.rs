//! Laws of reports.
use vstd::prelude::*;

use crate::diff;
use crate::diff::{DiffView, FileDiffs, SizeDiff};
use crate::order;
use crate::order::law_display_order;
use crate::report;
use crate::report::{LabelView, RowView, Style};
use crate::rule_model::{PatternView, RuleTable, RuleView};
use crate::snapshot;
use crate::snapshot::{EntryView, Files};
use crate::text;

verus! {

/// Shown no levels deep, a snapshot is one row.
pub proof fn law_snapshot_without_levels_is_a_row(
    name: Seq<char>,
    entry: EntryView,
    indent: Seq<char>,
    style: Style,
)
    ensures
        report::entry_rows(name, entry, indent, 0, style) == seq![
            report::entry_row(indent, name, entry.size(), style),
        ],
{
}

/// Shown no levels deep, a difference is one row.
pub proof fn law_diff_without_levels_is_a_row(name: Seq<char>, diff: DiffView, indent: Seq<char>)
    ensures
        report::diff_rows(name, diff, indent, 0) == seq![
            report::size_row(indent, name, diff.size_diff()),
        ],
{
}

/// The depth of an entry of a directory is less than that of the directory.
proof fn lemma_file_is_less_deep(files: Files, i: int)
    requires
        0 <= i < files.len(),
    ensures
        snapshot::entry_depth(files[i].1) < snapshot::files_depth(files, files.len()),
{
    snapshot::lemma_files_depth_grows(files, (i + 1) as nat, files.len());
}

/// The depth of a difference in a directory is less than that of all there.
proof fn lemma_diff_is_less_deep(diffs: FileDiffs, i: int)
    requires
        0 <= i < diffs.len(),
    ensures
        diff::diff_depth(diffs[i].1) < diff::file_diffs_depth(diffs, diffs.len()),
{
    diff::lemma_file_diffs_depth_grows(diffs, (i + 1) as nat, diffs.len());
}

/// To show a snapshot deeper than it is adds nothing.
pub proof fn law_no_rows_below_snapshot(
    name: Seq<char>,
    entry: EntryView,
    indent: Seq<char>,
    max_depth: nat,
    style: Style,
)
    requires
        max_depth >= snapshot::entry_depth(entry),
    ensures
        report::entry_rows(name, entry, indent, max_depth, style) == report::entry_rows(
            name,
            entry,
            indent,
            snapshot::entry_depth(entry),
            style,
        ),
{
    lemma_entry_rows_alike(name, entry, indent, max_depth, snapshot::entry_depth(entry), style);
}

/// All depths from that of the snapshot on give the same rows.
proof fn lemma_entry_rows_alike(
    name: Seq<char>,
    entry: EntryView,
    indent: Seq<char>,
    a: nat,
    b: nat,
    style: Style,
)
    requires
        a >= snapshot::entry_depth(entry),
        b >= snapshot::entry_depth(entry),
    ensures
        report::entry_rows(name, entry, indent, a, style) == report::entry_rows(
            name,
            entry,
            indent,
            b,
            style,
        ),
    decreases entry, 0nat,
{
    match entry {
        EntryView::File(_) => {},
        EntryView::Directory(dir) => {
            let files = dir.files;
            let inner = report::deeper(indent);
            if files.len() > 0 {
                lemma_file_is_less_deep(files, 0);
                lemma_file_rows_alike(
                    files,
                    files.len(),
                    inner,
                    (a - 1) as nat,
                    (b - 1) as nat,
                    style,
                );
            } else {
                let own = seq![report::entry_row(indent, name, entry.size(), style)];
                assert(own + Seq::<RowView>::empty() =~= own);
            }
        },
    }
}

/// All depths from that of the deepest entry on give the same rows.
proof fn lemma_file_rows_alike(
    files: Files,
    n: nat,
    indent: Seq<char>,
    a: nat,
    b: nat,
    style: Style,
)
    requires
        n <= files.len(),
        a + 1 >= snapshot::files_depth(files, files.len()),
        b + 1 >= snapshot::files_depth(files, files.len()),
    ensures
        report::file_rows(files, n, indent, a, style) == report::file_rows(
            files,
            n,
            indent,
            b,
            style,
        ),
    decreases files, n,
{
    if n > 0 {
        law_display_order(report::file_sizes(files));
        let i = report::file_order(files)[n - 1];
        lemma_file_is_less_deep(files, i);
        lemma_file_rows_alike(files, (n - 1) as nat, indent, a, b, style);
        assert(decreases_to!(files => files[i]));
        assert(decreases_to!(files[i] => files[i].1));
        lemma_entry_rows_alike(files[i].0, files[i].1, indent, a, b, style);
    }
}

/// To show a difference deeper than it is adds nothing.
pub proof fn law_no_rows_below_diff(
    name: Seq<char>,
    diff: DiffView,
    indent: Seq<char>,
    max_depth: nat,
)
    requires
        max_depth >= diff::diff_depth(diff),
    ensures
        report::diff_rows(name, diff, indent, max_depth) == report::diff_rows(
            name,
            diff,
            indent,
            diff::diff_depth(diff),
        ),
{
    lemma_diff_rows_alike(name, diff, indent, max_depth, diff::diff_depth(diff));
}

/// All depths from that of the difference on give the same rows.
proof fn lemma_diff_rows_alike(
    name: Seq<char>,
    diff: DiffView,
    indent: Seq<char>,
    a: nat,
    b: nat,
)
    requires
        a >= diff::diff_depth(diff),
        b >= diff::diff_depth(diff),
    ensures
        report::diff_rows(name, diff, indent, a) == report::diff_rows(name, diff, indent, b),
    decreases diff, 0nat,
{
    match diff {
        DiffView::File(_) => {},
        DiffView::Directory(dir) => {
            let inner = report::deeper(indent);
            let innermost = report::deeper(inner);
            if dir.file_diffs.len() > 0 {
                lemma_diff_is_less_deep(dir.file_diffs, 0);
            }
            if dir.new_files.len() > 0 {
                lemma_file_is_less_deep(dir.new_files, 0);
            }
            if dir.deleted_files.len() > 0 {
                lemma_file_is_less_deep(dir.deleted_files, 0);
            }
            let own = seq![report::size_row(indent, name, diff.size_diff())];
            if diff::diff_depth(diff) == 0 {
                assert(own + Seq::<RowView>::empty() + Seq::<RowView>::empty() + Seq::<
                    RowView,
                >::empty() =~= own);
            } else {
                let a1 = (a - 1) as nat;
                let b1 = (b - 1) as nat;
                lemma_changed_rows_alike(
                    dir.file_diffs,
                    dir.file_diffs.len(),
                    inner,
                    a1,
                    b1,
                );
                lemma_file_rows_alike(
                    dir.new_files,
                    dir.new_files.len(),
                    innermost,
                    a1,
                    b1,
                    Style::BrightRedBold,
                );
                lemma_file_rows_alike(
                    dir.deleted_files,
                    dir.deleted_files.len(),
                    innermost,
                    a1,
                    b1,
                    Style::BrightGreenBold,
                );
            }
        },
    }
}

/// All depths from that of the deepest difference on give the same rows.
proof fn lemma_changed_rows_alike(diffs: FileDiffs, n: nat, indent: Seq<char>, a: nat, b: nat)
    requires
        n <= diffs.len(),
        a + 1 >= diff::file_diffs_depth(diffs, diffs.len()),
        b + 1 >= diff::file_diffs_depth(diffs, diffs.len()),
    ensures
        report::changed_rows(diffs, n, indent, a) == report::changed_rows(diffs, n, indent, b),
    decreases diffs, n,
{
    if n > 0 {
        law_display_order(report::growths(diffs));
        let at = report::diff_order(diffs);
        let i = at[n - 1];
        lemma_diff_is_less_deep(diffs, i);
        if n > 1 {
            lemma_diff_is_less_deep(diffs, at[n - 2]);
        }
        lemma_changed_rows_alike(diffs, (n - 1) as nat, indent, a, b);
        assert(decreases_to!(diffs => diffs[i]));
        assert(decreases_to!(diffs[i] => diffs[i].1));
        lemma_diff_rows_alike(diffs[i].0, diffs[i].1, indent, a, b);
    }
}

/// The rows of a difference are more than its own exactly when it has contents and is
/// shown at least one level deep.
pub proof fn law_rows_below_diff(
    name: Seq<char>,
    diff: DiffView,
    indent: Seq<char>,
    max_depth: nat,
)
    ensures
        report::diff_rows(name, diff, indent, max_depth).len() > 1 <==> max_depth != 0
            && diff::diff_depth(diff) != 0,
{
    match diff {
        DiffView::File(_) => {},
        DiffView::Directory(dir) => {
            if max_depth > 0 {
                if dir.file_diffs.len() > 0 {
                    lemma_diff_is_less_deep(dir.file_diffs, 0);
                    law_every_change_is_shown(name, dir, indent, max_depth, 0);
                    lemma_diff_has_row(
                        dir.file_diffs,
                        0,
                        report::deeper(indent),
                        (max_depth - 1) as nat,
                    );
                }
                if dir.new_files.len() > 0 {
                    lemma_file_is_less_deep(dir.new_files, 0);
                }
                if dir.deleted_files.len() > 0 {
                    lemma_file_is_less_deep(dir.deleted_files, 0);
                }
            }
        },
    }
}

/// The rows of the first entries stand among those of all.
proof fn lemma_file_rows_grow(
    files: Files,
    m: nat,
    n: nat,
    indent: Seq<char>,
    max_depth: nat,
    style: Style,
    row: RowView,
)
    requires
        m <= n,
        report::file_rows(files, m, indent, max_depth, style).contains(row),
    ensures
        report::file_rows(files, n, indent, max_depth, style).contains(row),
    decreases n - m,
{
    if m < n {
        lemma_file_rows_grow(files, m, (n - 1) as nat, indent, max_depth, style, row);
        let before = report::file_rows(files, (n - 1) as nat, indent, max_depth, style);
        let after = report::file_rows(files, n, indent, max_depth, style);
        let p = choose|p: int| 0 <= p < before.len() && before[p] == row;
        assert(after[p] == row);
    }
}

/// Every entry of a list that is shown has its row.
proof fn lemma_file_has_row(
    files: Files,
    i: int,
    indent: Seq<char>,
    max_depth: nat,
    style: Style,
)
    requires
        0 <= i < files.len(),
    ensures
        report::file_rows(files, files.len(), indent, max_depth, style).contains(
            report::entry_row(indent, files[i].0, files[i].1.size(), style),
        ),
{
    let keys = report::file_sizes(files);
    law_display_order(keys);
    let shown = report::file_order(files);
    assert(order::display_order(keys).contains(i));
    let p = choose|p: int| 0 <= p < shown.len() && shown[p] == i;
    let row = report::entry_row(indent, files[i].0, files[i].1.size(), style);
    let before = report::file_rows(files, p as nat, indent, max_depth, style);
    let own = report::entry_rows(files[i].0, files[i].1, indent, max_depth, style);
    let after = report::file_rows(files, (p + 1) as nat, indent, max_depth, style);
    assert(after == before + own);
    assert(own[0] == row);
    assert(after[before.len() as int] == row);
    lemma_file_rows_grow(files, (p + 1) as nat, files.len(), indent, max_depth, style, row);
}

/// Every recorded entry of a directory that is shown at least one level deep has a row
/// of its own, one level below that of the directory.
pub proof fn law_every_file_is_shown(
    name: Seq<char>,
    dir: snapshot::DirView,
    indent: Seq<char>,
    max_depth: nat,
    style: Style,
    i: int,
)
    requires
        max_depth > 0,
        0 <= i < dir.files.len(),
    ensures
        report::entry_rows(name, EntryView::Directory(dir), indent, max_depth, style).contains(
            report::entry_row(
                report::deeper(indent),
                dir.files[i].0,
                dir.files[i].1.size(),
                style,
            ),
        ),
{
    let inner = report::deeper(indent);
    let below = (max_depth - 1) as nat;
    lemma_file_has_row(dir.files, i, inner, below, style);
    let row = report::entry_row(inner, dir.files[i].0, dir.files[i].1.size(), style);
    let rows = report::file_rows(dir.files, dir.files.len(), inner, below, style);
    let all = report::entry_rows(name, EntryView::Directory(dir), indent, max_depth, style);
    let p = choose|p: int| 0 <= p < rows.len() && rows[p] == row;
    assert(all[p + 1] == row);
}

/// The rows of the first differences stand among those of all.
proof fn lemma_changed_rows_grow(
    diffs: FileDiffs,
    m: nat,
    n: nat,
    indent: Seq<char>,
    max_depth: nat,
    row: RowView,
)
    requires
        m <= n,
        report::changed_rows(diffs, m, indent, max_depth).contains(row),
    ensures
        report::changed_rows(diffs, n, indent, max_depth).contains(row),
    decreases n - m,
{
    if m < n {
        lemma_changed_rows_grow(diffs, m, (n - 1) as nat, indent, max_depth, row);
        let before = report::changed_rows(diffs, (n - 1) as nat, indent, max_depth);
        let after = report::changed_rows(diffs, n, indent, max_depth);
        let p = choose|p: int| 0 <= p < before.len() && before[p] == row;
        assert(after[p] == row);
    }
}

/// Every difference of a list has its row.
proof fn lemma_diff_has_row(diffs: FileDiffs, i: int, indent: Seq<char>, max_depth: nat)
    requires
        0 <= i < diffs.len(),
    ensures
        report::changed_rows(diffs, diffs.len(), indent, max_depth).contains(
            report::size_row(indent, diffs[i].0, diffs[i].1.size_diff()),
        ),
{
    let keys = report::growths(diffs);
    law_display_order(keys);
    let at = report::diff_order(diffs);
    assert(order::display_order(keys).contains(i));
    let p = choose|p: int| 0 <= p < at.len() && at[p] == i;
    let row = report::size_row(indent, diffs[i].0, diffs[i].1.size_diff());
    let n = (p + 1) as nat;
    let before = report::changed_rows(diffs, p as nat, indent, max_depth) + report::blank_if(
        n > 1 && max_depth > 0 && (report::set_off(diffs[at[n - 2]].1) || report::set_off(
            diffs[i].1,
        )),
    );
    let own = report::diff_rows(diffs[i].0, diffs[i].1, indent, max_depth);
    let after = report::changed_rows(diffs, n, indent, max_depth);
    assert(after == before + own);
    assert(own[0] == row);
    assert(after[before.len() as int] == row);
    lemma_changed_rows_grow(diffs, n, diffs.len(), indent, max_depth, row);
}

/// Every change in a directory that is shown at least one level deep has a row of its
/// own: what changed stands one level below the directory, what is new or gone two.
pub proof fn law_every_change_is_shown(
    name: Seq<char>,
    dir: diff::DirDiffView,
    indent: Seq<char>,
    max_depth: nat,
    i: int,
)
    requires
        max_depth > 0,
    ensures
        ({
            let rows = report::diff_rows(name, DiffView::Directory(dir), indent, max_depth);
            let inner = report::deeper(indent);
            let innermost = report::deeper(inner);
            &&& 0 <= i < dir.file_diffs.len() ==> rows.contains(
                report::size_row(inner, dir.file_diffs[i].0, dir.file_diffs[i].1.size_diff()),
            )
            &&& 0 <= i < dir.new_files.len() ==> rows.contains(
                report::entry_row(
                    innermost,
                    dir.new_files[i].0,
                    dir.new_files[i].1.size(),
                    Style::BrightRedBold,
                ),
            )
            &&& 0 <= i < dir.deleted_files.len() ==> rows.contains(
                report::entry_row(
                    innermost,
                    dir.deleted_files[i].0,
                    dir.deleted_files[i].1.size(),
                    Style::BrightGreenBold,
                ),
            )
        }),
{
    let rows = report::diff_rows(name, DiffView::Directory(dir), indent, max_depth);
    let inner = report::deeper(indent);
    let innermost = report::deeper(inner);
    let below = (max_depth - 1) as nat;
    let own = seq![report::size_row(indent, name, dir.size_diff)];
    let changed = report::changed_rows(dir.file_diffs, dir.file_diffs.len(), inner, below);
    let created = report::created_rows(dir, indent, below);
    let deleted = report::deleted_rows(dir, indent, below);
    assert(rows == own + changed + created + deleted);
    if 0 <= i < dir.file_diffs.len() {
        lemma_diff_has_row(dir.file_diffs, i, inner, below);
        let row = report::size_row(inner, dir.file_diffs[i].0, dir.file_diffs[i].1.size_diff());
        let p = choose|p: int| 0 <= p < changed.len() && changed[p] == row;
        assert(rows[p + 1] == row);
    }
    if 0 <= i < dir.new_files.len() {
        lemma_headed_has_row(
            dir.new_files,
            i,
            dir.file_diffs.len() > 0,
            "New Files:"@,
            indent,
            below,
            Style::BrightRedBold,
        );
        let row = report::entry_row(
            innermost,
            dir.new_files[i].0,
            dir.new_files[i].1.size(),
            Style::BrightRedBold,
        );
        let p = choose|p: int| 0 <= p < created.len() && created[p] == row;
        assert(rows[1 + changed.len() + p] == row);
    }
    if 0 <= i < dir.deleted_files.len() {
        lemma_headed_has_row(
            dir.deleted_files,
            i,
            dir.file_diffs.len() > 0 || dir.new_files.len() > 0,
            "Deleted files:"@,
            indent,
            below,
            Style::BrightGreenBold,
        );
        let row = report::entry_row(
            innermost,
            dir.deleted_files[i].0,
            dir.deleted_files[i].1.size(),
            Style::BrightGreenBold,
        );
        let p = choose|p: int| 0 <= p < deleted.len() && deleted[p] == row;
        assert(rows[1 + changed.len() + created.len() + p] == row);
    }
}

/// Every entry of a list under a heading has its row.
proof fn lemma_headed_has_row(
    files: Files,
    i: int,
    below_others: bool,
    heading: Seq<char>,
    indent: Seq<char>,
    max_depth: nat,
    style: Style,
)
    requires
        0 <= i < files.len(),
    ensures
        report::headed_rows(files, below_others, heading, indent, max_depth, style).contains(
            report::entry_row(
                report::deeper(report::deeper(indent)),
                files[i].0,
                files[i].1.size(),
                style,
            ),
        ),
{
    let innermost = report::deeper(report::deeper(indent));
    lemma_file_has_row(files, i, innermost, max_depth, style);
    let row = report::entry_row(innermost, files[i].0, files[i].1.size(), style);
    let rows = report::file_rows(files, files.len(), innermost, max_depth, style);
    let all = report::headed_rows(files, below_others, heading, indent, max_depth, style);
    let p = choose|p: int| 0 <= p < rows.len() && rows[p] == row;
    let above = report::blank_if(below_others).len() + 1;
    assert(all[above + p] == row);
}

/// One level deeper are four more blanks, and a level is that many times as deep.
pub proof fn law_indentation(indent: Seq<char>, level: nat, i: int)
    ensures
        report::deeper(indent).len() == indent.len() + 4,
        0 <= i < indent.len() ==> report::deeper(indent)[i] == indent[i],
        indent.len() <= i < indent.len() + 4 ==> report::deeper(indent)[i] == ' ',
        report::indentation(level).len() == 4 * level,
        0 <= i < 4 * level ==> report::indentation(level)[i] == ' ',
    decreases level,
{
    reveal_strlit("    ");
    if level > 0 {
        law_indentation(indent, (level - 1) as nat, i);
    }
}

/// The first row of a snapshot says its name and size. A file has no other, and neither
/// has anything that is shown no levels deep.
pub proof fn law_first_row_of_snapshot(
    name: Seq<char>,
    entry: EntryView,
    indent: Seq<char>,
    max_depth: nat,
    style: Style,
)
    ensures
        ({
            let rows = report::entry_rows(name, entry, indent, max_depth, style);
            &&& rows.len() > 0
            &&& rows[0].indent == indent
            &&& rows[0].label == (LabelView::Entry { name, size: entry.size() })
            &&& rows[0].style == style
            &&& entry is File || max_depth == 0 ==> rows.len() == 1
        }),
{
}

/// The rows of recorded entries are those of one entry after the other.
proof fn lemma_file_rows_in_order(
    files: Files,
    order: Seq<int>,
    n: nat,
    indent: Seq<char>,
    max_depth: nat,
    style: Style,
)
    requires
        order == report::file_order(files),
        n <= files.len(),
    ensures
        report::file_rows(files, n, indent, max_depth, style) == Seq::new(
            n,
            |p: int|
                report::entry_rows(
                    files[order[p]].0,
                    files[order[p]].1,
                    indent,
                    max_depth,
                    style,
                ),
        ).flatten(),
    decreases n,
{
    let block = |p: int|
        report::entry_rows(files[order[p]].0, files[order[p]].1, indent, max_depth, style);
    if n > 0 {
        let m = (n - 1) as nat;
        lemma_file_rows_in_order(files, order, m, indent, max_depth, style);
        assert(Seq::new(n, block) =~= Seq::new(m, block).push(block(n - 1)));
        Seq::new(m, block).lemma_flatten_push(block(n - 1));
    }
}

/// The rows of a directory are its own and those of the entries in it, each with one level
/// less and one level deeper, the largest first, and of two that are equally large the one
/// that was recorded later.
pub proof fn law_largest_files_are_shown_first(
    name: Seq<char>,
    dir: snapshot::DirView,
    indent: Seq<char>,
    max_depth: nat,
    style: Style,
    order: Seq<int>,
)
    requires
        max_depth > 0,
        order::is_in_order(
            Seq::new(dir.files.len(), |i: int| dir.files[i].1.size() as int),
            order,
        ),
    ensures
        report::entry_rows(name, EntryView::Directory(dir), indent, max_depth, style) == seq![
            RowView { indent, label: LabelView::Entry { name, size: dir.size }, style },
        ] + Seq::new(
            dir.files.len(),
            |p: int|
                report::entry_rows(
                    dir.files[order[p]].0,
                    dir.files[order[p]].1,
                    indent + "    "@,
                    (max_depth - 1) as nat,
                    style,
                ),
        ).flatten(),
{
    let sizes = Seq::new(dir.files.len(), |i: int| dir.files[i].1.size() as int);
    assert(sizes =~= report::file_sizes(dir.files));
    order::law_display_order_is_the_only_one(sizes, order);
    lemma_file_rows_in_order(
        dir.files,
        order,
        dir.files.len(),
        indent + "    "@,
        (max_depth - 1) as nat,
        style,
    );
}

/// The first row of a difference says by how much the size changed: in red, or in green
/// where it shrank. Where it did not change, it says the name, in yellow. The difference of
/// a file has no other row, and neither has one that is shown no levels deep.
pub proof fn law_first_row_of_diff(
    name: Seq<char>,
    diff: DiffView,
    indent: Seq<char>,
    max_depth: nat,
)
    ensures
        ({
            let rows = report::diff_rows(name, diff, indent, max_depth);
            &&& rows.len() > 0
            &&& rows[0].indent == indent
            &&& match diff.size_diff() {
                None => rows[0].label == LabelView::Text(name) && rows[0].style == Style::Yellow,
                Some(size_diff) => {
                    &&& rows[0].label == (LabelView::Change { name, size_diff })
                    &&& rows[0].style == if size_diff.new_size < size_diff.old_size {
                        Style::Green
                    } else {
                        Style::Red
                    }
                },
            }
            &&& diff is File || max_depth == 0 ==> rows.len() == 1
        }),
{
}

/// By how much something grew is the new size less the old one, as it comes out in 64 bits.
pub proof fn law_growth(size_diff: SizeDiff)
    ensures
        report::growth(None) == 0,
        i64::MIN <= report::growth(Some(size_diff)) <= i64::MAX,
        exists|k: int|
            report::growth(Some(size_diff)) == size_diff.new_size - size_diff.old_size + #[trigger] (
            k * 0x1_0000_0000_0000_0000),
        size_diff.old_size <= i64::MAX && size_diff.new_size <= i64::MAX ==> report::growth(
            Some(size_diff),
        ) == size_diff.new_size - size_diff.old_size,
{
    let by = size_diff.new_size - size_diff.old_size;
    let res = report::growth(Some(size_diff));
    let k: int = if res == by {
        0
    } else if res == by + 0x1_0000_0000_0000_0000 {
        1
    } else {
        -1
    };
    assert(res == by + k * 0x1_0000_0000_0000_0000);
}

/// Whether there is anything in the difference of a directory.
pub open spec fn has_contents(diff: DiffView) -> bool {
    match diff {
        DiffView::File(_) => false,
        DiffView::Directory(dir) => dir.file_diffs.len() + dir.new_files.len()
            + dir.deleted_files.len() > 0,
    }
}

/// A row without anything on it.
pub open spec fn is_blank(row: RowView) -> bool {
    &&& row.indent.len() == 0
    &&& row.label matches LabelView::Text(text) && text.len() == 0
    &&& row.style == Style::Plain
}

/// A difference is set off from those around it exactly when there is anything in it, and
/// what sets it off is a row without anything on it.
pub proof fn law_contents_are_set_off(diff: DiffView)
    ensures
        report::set_off(diff) <==> has_contents(diff),
        is_blank(report::blank_row()),
        report::blank_if(true) == seq![report::blank_row()],
        report::blank_if(false) == Seq::<RowView>::empty(),
{
    if let DiffView::Directory(dir) = diff {
        if dir.file_diffs.len() > 0 {
            lemma_diff_is_less_deep(dir.file_diffs, 0);
        }
        if dir.new_files.len() > 0 {
            lemma_file_is_less_deep(dir.new_files, 0);
        }
        if dir.deleted_files.len() > 0 {
            lemma_file_is_less_deep(dir.deleted_files, 0);
        }
    }
}

/// The rows of one of the differences in a directory, after a blank row where it or the
/// one before it is set off.
pub open spec fn change_block(
    diffs: FileDiffs,
    order: Seq<int>,
    p: int,
    indent: Seq<char>,
    max_depth: nat,
) -> Seq<RowView> {
    report::blank_if(
        p > 0 && max_depth > 0 && (has_contents(diffs[order[p - 1]].1) || has_contents(
            diffs[order[p]].1,
        )),
    ) + report::diff_rows(diffs[order[p]].0, diffs[order[p]].1, indent, max_depth)
}

/// The rows of differences are those of one difference after the other.
proof fn lemma_changed_rows_in_order(
    diffs: FileDiffs,
    order: Seq<int>,
    n: nat,
    indent: Seq<char>,
    max_depth: nat,
)
    requires
        order == report::diff_order(diffs),
        n <= diffs.len(),
    ensures
        report::changed_rows(diffs, n, indent, max_depth) == Seq::new(
            n,
            |p: int| change_block(diffs, order, p, indent, max_depth),
        ).flatten(),
    decreases n,
{
    let block = |p: int| change_block(diffs, order, p, indent, max_depth);
    if n > 0 {
        let m = (n - 1) as nat;
        lemma_changed_rows_in_order(diffs, order, m, indent, max_depth);
        assert(Seq::new(n, block) =~= Seq::new(m, block).push(block(n - 1)));
        Seq::new(m, block).lemma_flatten_push(block(n - 1));
        law_contents_are_set_off(diffs[order[n - 1]].1);
        law_contents_are_set_off(diffs[order[n - 2]].1);
        assert(report::changed_rows(diffs, n, indent, max_depth) =~= report::changed_rows(
            diffs,
            m,
            indent,
            max_depth,
        ) + block(n - 1));
    }
}

/// The rows of the difference of a directory are its own, those of what changed in it, one
/// level deeper and what grew most first, those of what is new and those of what is gone.
pub proof fn law_largest_growth_is_shown_first(
    name: Seq<char>,
    dir: diff::DirDiffView,
    indent: Seq<char>,
    max_depth: nat,
    order: Seq<int>,
)
    requires
        max_depth > 0,
        order::is_in_order(
            Seq::new(
                dir.file_diffs.len(),
                |i: int| report::growth(dir.file_diffs[i].1.size_diff()),
            ),
            order,
        ),
    ensures
        ({
            let rows = report::diff_rows(name, DiffView::Directory(dir), indent, max_depth);
            let below = (max_depth - 1) as nat;
            rows == seq![rows[0]] + Seq::new(
                dir.file_diffs.len(),
                |p: int| change_block(dir.file_diffs, order, p, indent + "    "@, below),
            ).flatten() + report::created_rows(dir, indent, below) + report::deleted_rows(
                dir,
                indent,
                below,
            )
        }),
{
    let keys = Seq::new(
        dir.file_diffs.len(),
        |i: int| report::growth(dir.file_diffs[i].1.size_diff()),
    );
    assert(keys =~= report::growths(dir.file_diffs));
    order::law_display_order_is_the_only_one(keys, order);
    lemma_changed_rows_in_order(
        dir.file_diffs,
        order,
        dir.file_diffs.len(),
        indent + "    "@,
        (max_depth - 1) as nat,
    );
}

/// Whether rows are those of a list of entries under a heading, the largest first, after a
/// blank row where they stand below others.
pub open spec fn is_list(
    rows: Seq<RowView>,
    files: Files,
    order: Seq<int>,
    below_others: bool,
    heading: Seq<char>,
    indent: Seq<char>,
    max_depth: nat,
    style: Style,
) -> bool {
    let above = if below_others {
        1int
    } else {
        0
    };
    &&& rows.len() > above
    &&& below_others ==> is_blank(rows[0])
    &&& rows[above] == (RowView { indent: indent + "    "@, label: LabelView::Text(heading), style })
    &&& rows.skip(above + 1) == Seq::new(
        files.len(),
        |p: int|
            report::entry_rows(
                files[order[p]].0,
                files[order[p]].1,
                indent + "    "@ + "    "@,
                max_depth,
                style,
            ),
    ).flatten()
}

/// What is new in a directory is listed in bright red below what changed.
pub proof fn law_new_files_are_listed(
    dir: diff::DirDiffView,
    indent: Seq<char>,
    max_depth: nat,
    order: Seq<int>,
)
    requires
        order::is_in_order(
            Seq::new(dir.new_files.len(), |i: int| dir.new_files[i].1.size() as int),
            order,
        ),
    ensures
        dir.new_files.len() == 0 ==> report::created_rows(dir, indent, max_depth).len() == 0,
        dir.new_files.len() > 0 ==> is_list(
            report::created_rows(dir, indent, max_depth),
            dir.new_files,
            order,
            dir.file_diffs.len() > 0,
            "New Files:"@,
            indent,
            max_depth,
            Style::BrightRedBold,
        ),
{
    lemma_headed_rows_in_order(
        dir.new_files,
        order,
        dir.file_diffs.len() > 0,
        "New Files:"@,
        indent,
        max_depth,
        Style::BrightRedBold,
    );
}

/// What is no longer in a directory is listed in bright green below what changed and what
/// is new.
pub proof fn law_deleted_files_are_listed(
    dir: diff::DirDiffView,
    indent: Seq<char>,
    max_depth: nat,
    order: Seq<int>,
)
    requires
        order::is_in_order(
            Seq::new(dir.deleted_files.len(), |i: int| dir.deleted_files[i].1.size() as int),
            order,
        ),
    ensures
        dir.deleted_files.len() == 0 ==> report::deleted_rows(dir, indent, max_depth).len() == 0,
        dir.deleted_files.len() > 0 ==> is_list(
            report::deleted_rows(dir, indent, max_depth),
            dir.deleted_files,
            order,
            dir.file_diffs.len() + dir.new_files.len() > 0,
            "Deleted files:"@,
            indent,
            max_depth,
            Style::BrightGreenBold,
        ),
{
    lemma_headed_rows_in_order(
        dir.deleted_files,
        order,
        dir.file_diffs.len() + dir.new_files.len() > 0,
        "Deleted files:"@,
        indent,
        max_depth,
        Style::BrightGreenBold,
    );
}

/// The rows under a heading are those of a list.
proof fn lemma_headed_rows_in_order(
    files: Files,
    order: Seq<int>,
    below_others: bool,
    heading: Seq<char>,
    indent: Seq<char>,
    max_depth: nat,
    style: Style,
)
    requires
        order::is_in_order(Seq::new(files.len(), |i: int| files[i].1.size() as int), order),
    ensures
        files.len() > 0 ==> is_list(
            report::headed_rows(files, below_others, heading, indent, max_depth, style),
            files,
            order,
            below_others,
            heading,
            indent,
            max_depth,
            style,
        ),
{
    if files.len() > 0 {
        let sizes = Seq::new(files.len(), |i: int| files[i].1.size() as int);
        assert(sizes =~= report::file_sizes(files));
        order::law_display_order_is_the_only_one(sizes, order);
        let innermost = indent + "    "@ + "    "@;
        lemma_file_rows_in_order(files, order, files.len(), innermost, max_depth, style);
        let rows = report::headed_rows(files, below_others, heading, indent, max_depth, style);
        let listed = report::file_rows(files, files.len(), innermost, max_depth, style);
        let above = if below_others {
            1int
        } else {
            0
        };
        assert(rows.skip(above + 1) =~= listed);
    }
}

/// The rows of one rule: what it is for, and behind that the depth, or below that the rules
/// that it holds.
pub open spec fn is_rule_block(
    rows: Seq<RowView>,
    pattern: PatternView,
    rule: RuleView,
    indent: Seq<char>,
) -> bool {
    let written = match pattern {
        PatternView::Wildcard => "*"@,
        PatternView::Exact(path) => path.text.shown(),
    };
    &&& rows.len() > 0
    &&& rows[0].indent == indent
    &&& rows[0].style == Style::Plain
    &&& match rule {
        RuleView::Single(depth) => rows.len() == 1 && rows[0].label == LabelView::Text(
            written + ": "@ + text::decimal(depth as nat),
        ),
        RuleView::RuleSet(inner) => rows[0].label == LabelView::Text(written + ": "@)
            && rows.drop_first() == report::rule_rows(inner, inner.len(), indent + "    "@),
    }
}

/// The rules of a table are shown one after the other, in their order: the rows of the
/// first of them are followed by those of the next, and there are no others.
pub proof fn law_rules_are_shown_in_order(table: RuleTable, n: nat, indent: Seq<char>)
    ensures
        report::rule_rows(table, 0, indent).len() == 0,
        n < table.len() ==> {
            let before = report::rule_rows(table, n, indent);
            let after = report::rule_rows(table, n + 1, indent);
            &&& before.len() <= after.len()
            &&& after.take(before.len() as int) == before
            &&& is_rule_block(
                after.skip(before.len() as int),
                table[n as int].0,
                table[n as int].1,
                indent,
            )
        },
{
    if n < table.len() {
        let before = report::rule_rows(table, n, indent);
        let after = report::rule_rows(table, n + 1, indent);
        let (pattern, rule) = table[n as int];
        let written = report::shown_pattern(pattern) + ": "@;
        assert(after.take(before.len() as int) =~= before);
        match rule {
            RuleView::Single(depth) => {
                assert(after.skip(before.len() as int) =~= seq![
                    report::text_row(
                        indent,
                        written + text::decimal(depth as nat),
                        Style::Plain,
                    ),
                ]);
            },
            RuleView::RuleSet(inner) => {
                assert(decreases_to!(table => table[n as int]));
                assert(decreases_to!(table[n as int] => table[n as int].1));
                let listed = report::rule_rows(inner, inner.len(), report::deeper(indent));
                assert(after.skip(before.len() as int) =~= seq![
                    report::text_row(indent, written, Style::Plain),
                ] + listed);
                assert(after.skip(before.len() as int).drop_first() =~= listed);
            },
        }
    }
}

/// Sizes below a kibibyte are written without decimals, and others with two where they are
/// whole in their unit.
pub proof fn law_bytes_have_no_decimals(size: u64)
    ensures
        size < 1024 ==> report::human_readable_size(size) == report::formatted_size(size, 0),
        size >= 1024 ==> report::human_readable_size(size) == report::formatted_size(size, 2),
{
}

/// What a row that says something is shown as: what it says.
pub proof fn law_text_is_shown(text: Seq<char>)
    ensures
        report::label_words(LabelView::Text(text)) == text,
{
}

/// What a row for a size is shown as: the name, and the size behind it.
pub proof fn law_size_is_shown(name: Seq<char>, size: u64)
    ensures
        report::label_words(LabelView::Entry { name, size }) == name + ": "@
            + report::human_readable_size(size),
{
}

/// What a row for a change is shown as: the name, the old size, the new one and by how
/// much they differ, with a plus where the new one is larger and a minus elsewhere.
pub proof fn law_change_is_shown(name: Seq<char>, size_diff: SizeDiff, by: u64)
    requires
        size_diff.old_size + by == size_diff.new_size || size_diff.new_size + by
            == size_diff.old_size,
    ensures
        report::label_words(LabelView::Change { name, size_diff }) == name + ": "@
            + report::human_readable_size(size_diff.old_size) + " -> "@
            + report::human_readable_size(size_diff.new_size) + ": "@ + (if by > 0
            && size_diff.old_size + by == size_diff.new_size {
            "+"@
        } else {
            "-"@
        }) + report::human_readable_size(by),
{
    assert(report::changed_by(size_diff) == by);
}

/// Every row is shown, as a line that is indented and painted like it, in its place.
pub proof fn law_rows_are_shown_in_order(rows: Seq<RowView>, i: int)
    ensures
        report::shown_rows(rows).len() == rows.len(),
        0 <= i < rows.len() ==> {
            let line = report::shown_rows(rows)[i];
            &&& line.indent == rows[i].indent
            &&& line.text == report::label_words(rows[i].label)
            &&& line.style == rows[i].style
        },
{
}

/// How sizes are put into words: the name, and behind it the size, or the two sizes and by
/// how much they differ, with a plus where it grew and else a minus.
pub proof fn law_words_for_sizes(
    name: Seq<char>,
    old_size: Seq<char>,
    new_size: Seq<char>,
    by: Seq<char>,
)
    ensures
        report::size_words(name, new_size) == name + ": "@ + new_size,
        report::change_words(name, old_size, new_size, true, by) == name + ": "@ + old_size
            + " -> "@ + new_size + ": "@ + "+"@ + by,
        report::change_words(name, old_size, new_size, false, by) == name + ": "@ + old_size
            + " -> "@ + new_size + ": "@ + "-"@ + by,
{
}

} // verus!
