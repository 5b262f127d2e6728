//! What snapshots, differences and rules look like when they are shown.
//!
//! A report is built in two steps: the rows, which say what stands where, and the lines,
//! in which sizes are written out for people.
use vstd::prelude::*;

use crate::diff;
use crate::diff::{DiffView, DirDiffView, FSEntrySnapshotDiff, FileDiffs, SizeDiff};
use crate::order;
use crate::order::order_for_display;
use crate::rule_model::{PatternView, RuleTable, RuleView};
use crate::rules;
use crate::rules::{PathPattern, SnapshotRule, SnapshotRuleSet};
use crate::snapshot;
use crate::snapshot::{EntryView, FSEntrySnapshot, Files};
use crate::text;
use crate::text::{enclose, to_decimal};

verus! {

/// How a row is painted.
#[derive(Debug, Clone, Copy, PartialEq, Eq, Structural)]
pub enum Style {
    Plain,
    Red,
    Green,
    Yellow,
    BrightRedBold,
    BrightGreenBold,
}

/// What a row says.
#[derive(Debug)]
pub enum Label {
    /// Just this.
    Text(String),
    /// How large something is.
    Entry { name: String, size: u64 },
    /// How the size of something changed.
    Change { name: String, size_diff: SizeDiff },
}

/// A row of a report. The indentation is not painted.
#[derive(Debug)]
pub struct Row {
    pub indent: String,
    pub label: Label,
    pub style: Style,
}

/// A row as it is shown. The indentation is not painted.
#[derive(Debug)]
pub struct Line {
    pub indent: String,
    pub text: String,
    pub style: Style,
}

/// What a [`Label`] holds.
#[verifier::ext_equal]
pub ghost enum LabelView {
    Text(Seq<char>),
    Entry { name: Seq<char>, size: u64 },
    Change { name: Seq<char>, size_diff: SizeDiff },
}

/// What a [`Row`] holds.
#[verifier::ext_equal]
pub ghost struct RowView {
    pub indent: Seq<char>,
    pub label: LabelView,
    pub style: Style,
}

/// What a [`Line`] holds.
#[verifier::ext_equal]
pub ghost struct LineView {
    pub indent: Seq<char>,
    pub text: Seq<char>,
    pub style: Style,
}

impl View for Label {
    type V = LabelView;

    open spec fn view(&self) -> LabelView {
        match self {
            Label::Text(text) => LabelView::Text(text@),
            Label::Entry { name, size } => LabelView::Entry { name: name@, size: *size },
            Label::Change { name, size_diff } => LabelView::Change {
                name: name@,
                size_diff: *size_diff,
            },
        }
    }
}

impl View for Row {
    type V = RowView;

    open spec fn view(&self) -> RowView {
        RowView { indent: self.indent@, label: self.label@, style: self.style }
    }
}

impl View for Line {
    type V = LineView;

    open spec fn view(&self) -> LineView {
        LineView { indent: self.indent@, text: self.text@, style: self.style }
    }
}

/// What each of a sequence of rows holds.
pub open spec fn row_views(rows: Seq<Row>) -> Seq<RowView> {
    Seq::new(rows.len(), |i: int| rows[i]@)
}

/// What each of a sequence of lines holds.
pub open spec fn line_views(lines: Seq<Line>) -> Seq<LineView> {
    Seq::new(lines.len(), |i: int| lines[i]@)
}

/// The indentation one level below another.
pub open spec fn deeper(indent: Seq<char>) -> Seq<char> {
    indent + "    "@
}

/// The indentation of a level.
pub open spec fn indentation(level: nat) -> Seq<char>
    decreases level,
{
    if level == 0 {
        Seq::empty()
    } else {
        deeper(indentation((level - 1) as nat))
    }
}

/// A row that just says something.
pub open spec fn text_row(indent: Seq<char>, text: Seq<char>, style: Style) -> RowView {
    RowView { indent, label: LabelView::Text(text), style }
}

/// A row that says how large something is.
pub open spec fn entry_row(indent: Seq<char>, name: Seq<char>, size: u64, style: Style) -> RowView {
    RowView { indent, label: LabelView::Entry { name, size }, style }
}

/// A row without anything on it.
pub open spec fn blank_row() -> RowView {
    text_row(Seq::empty(), Seq::empty(), Style::Plain)
}

/// The row for what changed about the size of something: red, or green where it shrank.
/// Where the size is the same there is just the name, in yellow.
pub open spec fn size_row(indent: Seq<char>, name: Seq<char>, size_diff: Option<SizeDiff>) -> RowView {
    match size_diff {
        Some(size_diff) => RowView {
            indent,
            label: LabelView::Change { name, size_diff },
            style: if size_diff.new_size < size_diff.old_size {
                Style::Green
            } else {
                Style::Red
            },
        },
        None => text_row(indent, name, Style::Yellow),
    }
}

/// The sizes of recorded entries.
pub open spec fn file_sizes(files: Files) -> Seq<int> {
    Seq::new(files.len(), |i: int| files[i].1.size() as int)
}

/// The order in which recorded entries are shown: the largest first.
pub open spec fn file_order(files: Files) -> Seq<int> {
    order::display_order(file_sizes(files))
}

/// The rows of a snapshot: one for itself, and where it is a directory those of what it
/// holds, down to `max_depth` levels below it.
pub open spec fn entry_rows(
    name: Seq<char>,
    entry: EntryView,
    indent: Seq<char>,
    max_depth: nat,
    style: Style,
) -> Seq<RowView>
    decreases max_depth, 0nat,
{
    let own = seq![entry_row(indent, name, entry.size(), style)];
    match entry {
        EntryView::Directory(dir) if max_depth > 0 => own + file_rows(
            dir.files,
            dir.files.len(),
            deeper(indent),
            (max_depth - 1) as nat,
            style,
        ),
        _ => own,
    }
}

/// The rows of the first `n` recorded entries that are shown.
pub open spec fn file_rows(
    files: Files,
    n: nat,
    indent: Seq<char>,
    max_depth: nat,
    style: Style,
) -> Seq<RowView>
    decreases max_depth, n,
{
    if n == 0 {
        Seq::empty()
    } else {
        let (name, entry) = files[file_order(files)[n - 1]];
        file_rows(files, (n - 1) as nat, indent, max_depth, style) + entry_rows(
            name,
            entry,
            indent,
            max_depth,
            style,
        )
    }
}

/// A size as a signed number of 64 bits.
pub open spec fn signed(size: u64) -> int {
    if size <= i64::MAX {
        size as int
    } else {
        size - 0x1_0000_0000_0000_0000
    }
}

/// By how much a size grew, in signed numbers of 64 bits.
pub open spec fn growth(size_diff: Option<SizeDiff>) -> int {
    match size_diff {
        Some(size_diff) => {
            let by = signed(size_diff.new_size) - signed(size_diff.old_size);
            if by > i64::MAX {
                by - 0x1_0000_0000_0000_0000
            } else if by < i64::MIN {
                by + 0x1_0000_0000_0000_0000
            } else {
                by
            }
        },
        None => 0,
    }
}

/// By how much entries grew.
pub open spec fn growths(diffs: FileDiffs) -> Seq<int> {
    Seq::new(diffs.len(), |i: int| growth(diffs[i].1.size_diff()))
}

/// The order in which differences are shown: what grew most first.
pub open spec fn diff_order(diffs: FileDiffs) -> Seq<int> {
    order::display_order(growths(diffs))
}

/// Whether a difference is set off from those around it. A directory without contents
/// is shown like a file.
pub open spec fn set_off(diff: DiffView) -> bool {
    diff::diff_depth(diff) != 0
}

/// The blank row, where there is one.
pub open spec fn blank_if(there: bool) -> Seq<RowView> {
    if there {
        seq![blank_row()]
    } else {
        Seq::empty()
    }
}

/// The rows of a difference: one for itself, and where it is a directory those of what
/// changed in it, down to `max_depth` levels below it.
pub open spec fn diff_rows(
    name: Seq<char>,
    diff: DiffView,
    indent: Seq<char>,
    max_depth: nat,
) -> Seq<RowView>
    decreases max_depth, 0nat,
{
    let own = seq![size_row(indent, name, diff.size_diff())];
    match diff {
        DiffView::Directory(dir) if max_depth > 0 => {
            own + changed_rows(
                dir.file_diffs,
                dir.file_diffs.len(),
                deeper(indent),
                (max_depth - 1) as nat,
            ) + created_rows(dir, indent, (max_depth - 1) as nat) + deleted_rows(
                dir,
                indent,
                (max_depth - 1) as nat,
            )
        },
        _ => own,
    }
}

/// The rows of the first `n` differences that are shown, each down to `max_depth` levels
/// below it. Where levels below are shown, a blank row parts a directory that has
/// contents from what stands next to it.
pub open spec fn changed_rows(
    diffs: FileDiffs,
    n: nat,
    indent: Seq<char>,
    max_depth: nat,
) -> Seq<RowView>
    decreases max_depth, n,
{
    if n == 0 {
        Seq::empty()
    } else {
        let at = diff_order(diffs);
        let (name, diff) = diffs[at[n - 1]];
        changed_rows(diffs, (n - 1) as nat, indent, max_depth) + blank_if(
            n > 1 && max_depth > 0 && (set_off(diffs[at[n - 2]].1) || set_off(diff)),
        ) + diff_rows(name, diff, indent, max_depth)
    }
}

/// The rows of the entries that are new in a directory.
pub open spec fn created_rows(dir: DirDiffView, indent: Seq<char>, max_depth: nat) -> Seq<RowView> {
    headed_rows(
        dir.new_files,
        dir.file_diffs.len() > 0,
        "New Files:"@,
        indent,
        max_depth,
        Style::BrightRedBold,
    )
}

/// The rows of the entries that are no longer in a directory.
pub open spec fn deleted_rows(dir: DirDiffView, indent: Seq<char>, max_depth: nat) -> Seq<RowView> {
    headed_rows(
        dir.deleted_files,
        dir.file_diffs.len() > 0 || dir.new_files.len() > 0,
        "Deleted files:"@,
        indent,
        max_depth,
        Style::BrightGreenBold,
    )
}

/// The rows of a list of entries under a heading, after a blank row where something
/// stands above. An empty list has none.
pub open spec fn headed_rows(
    files: Files,
    below_others: bool,
    heading: Seq<char>,
    indent: Seq<char>,
    max_depth: nat,
    style: Style,
) -> Seq<RowView> {
    if files.len() == 0 {
        Seq::empty()
    } else {
        blank_if(below_others) + seq![text_row(deeper(indent), heading, style)] + file_rows(
            files,
            files.len(),
            deeper(deeper(indent)),
            max_depth,
            style,
        )
    }
}

/// How a pattern is written.
pub open spec fn shown_pattern(pattern: PatternView) -> Seq<char> {
    match pattern {
        PatternView::Exact(path) => path.text.shown(),
        PatternView::Wildcard => "*"@,
    }
}

/// The rows of the first `n` rules of a table: the depth behind the pattern, or the
/// rules below it.
pub open spec fn rule_rows(table: RuleTable, n: nat, indent: Seq<char>) -> Seq<RowView>
    decreases table, n,
{
    if n == 0 || n > table.len() {
        Seq::empty()
    } else {
        let (pattern, rule) = table[n - 1];
        let written = shown_pattern(pattern) + ": "@;
        rule_rows(table, (n - 1) as nat, indent) + match rule {
            RuleView::Single(depth) => seq![
                text_row(indent, written + text::decimal(depth as nat), Style::Plain),
            ],
            RuleView::RuleSet(inner) => seq![text_row(indent, written, Style::Plain)] + rule_rows(
                inner,
                inner.len(),
                deeper(indent),
            ),
        }
    }
}

/// Rows behind others.
proof fn lemma_pushed(rows: Seq<Row>, row: Row)
    ensures
        row_views(rows.push(row)) == row_views(rows) + seq![row@],
{
    assert(row_views(rows.push(row)) =~= row_views(rows) + seq![row@]);
}

/// The indentation one level below another.
fn deeper_indent(indent: &str) -> (res: String)
    ensures
        res@ == deeper(indent@),
{
    let mut res = indent.to_owned();
    res.append("    ");
    res
}

/// The indentation of a level.
pub fn to_indentation(level: u32) -> (res: String)
    ensures
        res@ == indentation(level as nat),
{
    let mut res = "".to_owned();
    proof {
        reveal_strlit("");
        assert(res@ =~= Seq::<char>::empty());
    }
    let mut i: u32 = 0;
    while i < level
        invariant
            i <= level,
            res@ == indentation(i as nat),
        decreases level - i,
    {
        res.append("    ");
        i = i + 1;
    }
    res
}

/// Adds a blank row.
fn push_blank(rows: &mut Vec<Row>)
    ensures
        row_views(final(rows)@) == row_views(old(rows)@) + seq![blank_row()],
{
    let indent = "".to_owned();
    let text = "".to_owned();
    proof {
        reveal_strlit("");
        assert(text@ =~= Seq::<char>::empty());
        assert(indent@ =~= Seq::<char>::empty());
    }
    let row = Row { indent, label: Label::Text(text), style: Style::Plain };
    proof {
        lemma_pushed(rows@, row);
    }
    rows.push(row);
}

/// Adds a row that just says something.
fn push_text(rows: &mut Vec<Row>, indent: &str, text: &str, style: Style)
    ensures
        row_views(final(rows)@) == row_views(old(rows)@) + seq![text_row(indent@, text@, style)],
{
    let row = Row { indent: indent.to_owned(), label: Label::Text(text.to_owned()), style };
    proof {
        lemma_pushed(rows@, row);
    }
    rows.push(row);
}

/// Adds the rows of a snapshot.
fn push_entry(
    name: &str,
    snapshot: &FSEntrySnapshot,
    indent: &str,
    max_depth: u32,
    style: Style,
    rows: &mut Vec<Row>,
)
    ensures
        row_views(final(rows)@) == row_views(old(rows)@) + entry_rows(
            name@,
            snapshot@,
            indent@,
            max_depth as nat,
            style,
        ),
    decreases max_depth, 0nat,
{
    let row = Row {
        indent: indent.to_owned(),
        label: Label::Entry { name: name.to_owned(), size: snapshot.size() },
        style,
    };
    proof {
        lemma_pushed(rows@, row);
    }
    let ghost before = row_views(rows@);
    rows.push(row);
    match snapshot {
        FSEntrySnapshot::File(_) => {},
        FSEntrySnapshot::Directory(dir) => {
            if max_depth != 0 {
                let inner = deeper_indent(indent);
                push_files(&dir.files, inner.as_str(), max_depth - 1, style, rows);
                proof {
                    assert(dir@.files =~= snapshot::file_views(dir.files@));
                    assert(row_views(rows@) =~= before + entry_rows(
                        name@,
                        snapshot@,
                        indent@,
                        max_depth as nat,
                        style,
                    ));
                }
            }
        },
    }
}

/// Adds the rows of recorded entries, the largest first.
fn push_files(
    files: &Vec<(String, FSEntrySnapshot)>,
    indent: &str,
    max_depth: u32,
    style: Style,
    rows: &mut Vec<Row>,
)
    ensures
        row_views(final(rows)@) == row_views(old(rows)@) + file_rows(
            snapshot::file_views(files@),
            files@.len(),
            indent@,
            max_depth as nat,
            style,
        ),
    decreases max_depth, 1nat,
{
    let ghost views = snapshot::file_views(files@);
    let mut keys: Vec<i128> = Vec::new();
    let mut i: usize = 0;
    while i < files.len()
        invariant
            i <= files@.len(),
            keys@.len() == i,
            forall|j: int| 0 <= j < i ==> #[trigger] keys@[j] == files@[j].1@.size(),
        decreases files@.len() - i,
    {
        keys.push(files[i].1.size() as i128);
        i = i + 1;
    }
    proof {
        assert(order::key_values(keys@) =~= file_sizes(views));
    }
    let shown = order_for_display(&keys);
    let ghost before = row_views(rows@);
    assert(before + Seq::<RowView>::empty() =~= before);
    let mut n: usize = 0;
    while n < shown.len()
        invariant
            n <= shown@.len(),
            shown@.len() == files@.len(),
            views == snapshot::file_views(files@),
            order::index_values(shown@) == file_order(views),
            forall|p: int| 0 <= p < shown@.len() ==> #[trigger] shown@[p] < files@.len(),
            row_views(rows@) == before + file_rows(
                views,
                n as nat,
                indent@,
                max_depth as nat,
                style,
            ),
        decreases shown@.len() - n,
    {
        let at: usize = shown[n];
        assert(order::index_values(shown@)[n as int] == at);
        assert(views[at as int] == (files@[at as int].0@, files@[at as int].1@));
        push_entry(files[at].0.as_str(), &files[at].1, indent, max_depth, style, rows);
        assert(row_views(rows@) =~= before + file_rows(
            views,
            (n + 1) as nat,
            indent@,
            max_depth as nat,
            style,
        ));
        n = n + 1;
    }
}

/// By how much a size grew, in signed numbers of 64 bits.
fn growth_of(size_diff: &Option<SizeDiff>) -> (res: i128)
    ensures
        res == growth(*size_diff),
{
    match size_diff {
        Some(size_diff) => {
            let by: i128 = to_signed(size_diff.new_size) - to_signed(size_diff.old_size);
            if by > 0x7fff_ffff_ffff_ffffi128 {
                by - 0x1_0000_0000_0000_0000i128
            } else if by < -0x8000_0000_0000_0000i128 {
                by + 0x1_0000_0000_0000_0000i128
            } else {
                by
            }
        },
        None => 0,
    }
}

/// A size as a signed number of 64 bits.
fn to_signed(size: u64) -> (res: i128)
    ensures
        res == signed(size),
        -0x8000_0000_0000_0000 <= res <= 0x7fff_ffff_ffff_ffff,
{
    if size <= 0x7fff_ffff_ffff_ffffu64 {
        size as i128
    } else {
        size as i128 - 0x1_0000_0000_0000_0000i128
    }
}

/// Adds the rows of a list of entries under a heading.
fn push_headed(
    files: &Vec<(String, FSEntrySnapshot)>,
    below_others: bool,
    heading: &str,
    indent: &str,
    max_depth: u32,
    style: Style,
    rows: &mut Vec<Row>,
)
    ensures
        row_views(final(rows)@) == row_views(old(rows)@) + headed_rows(
            snapshot::file_views(files@),
            below_others,
            heading@,
            indent@,
            max_depth as nat,
            style,
        ),
{
    let ghost before = row_views(rows@);
    if files.len() > 0 {
        if below_others {
            push_blank(rows);
        }
        let inner = deeper_indent(indent);
        push_text(rows, inner.as_str(), heading, style);
        let innermost = deeper_indent(inner.as_str());
        push_files(files, innermost.as_str(), max_depth, style, rows);
    }
    assert(row_views(rows@) =~= before + headed_rows(
        snapshot::file_views(files@),
        below_others,
        heading@,
        indent@,
        max_depth as nat,
        style,
    ));
}

/// Adds the row for what changed about the size of something.
fn push_size(rows: &mut Vec<Row>, indent: &str, name: &str, size_diff: Option<SizeDiff>)
    ensures
        row_views(final(rows)@) == row_views(old(rows)@) + seq![size_row(indent@, name@, size_diff)],
{
    match size_diff {
        Some(size_diff) => {
            let style = if size_diff.new_size < size_diff.old_size {
                Style::Green
            } else {
                Style::Red
            };
            let row = Row {
                indent: indent.to_owned(),
                label: Label::Change { name: name.to_owned(), size_diff },
                style,
            };
            proof {
                lemma_pushed(rows@, row);
            }
            rows.push(row);
        },
        None => {
            push_text(rows, indent, name, Style::Yellow);
        },
    }
}

/// Adds the rows of a difference.
fn push_diff(
    name: &str,
    diff: &FSEntrySnapshotDiff,
    indent: &str,
    max_depth: u32,
    rows: &mut Vec<Row>,
)
    ensures
        row_views(final(rows)@) == row_views(old(rows)@) + diff_rows(
            name@,
            diff@,
            indent@,
            max_depth as nat,
        ),
    decreases max_depth, 0nat,
{
    let ghost before = row_views(rows@);
    push_size(rows, indent, name, diff.size_diff());
    if max_depth == 0 {
        return;
    }
    match diff {
        FSEntrySnapshotDiff::File(_) => {},
        FSEntrySnapshotDiff::Directory(dir) => {
            let below: u32 = max_depth - 1;
            let inner = deeper_indent(indent);
            push_changed(&dir.file_diffs, inner.as_str(), below, rows);
            let changed = dir.file_diffs.len() > 0;
            push_headed(
                &dir.new_files,
                changed,
                "New Files:",
                indent,
                below,
                Style::BrightRedBold,
                rows,
            );
            let changed_or_created = changed || dir.new_files.len() > 0;
            push_headed(
                &dir.deleted_files,
                changed_or_created,
                "Deleted files:",
                indent,
                below,
                Style::BrightGreenBold,
                rows,
            );
            proof {
                assert(dir@.file_diffs =~= diff::diff_views(dir.file_diffs@));
                assert(row_views(rows@) =~= before + diff_rows(
                    name@,
                    diff@,
                    indent@,
                    max_depth as nat,
                ));
            }
        },
    }
}

/// Adds the rows of differences, what grew most first.
fn push_changed(
    diffs: &Vec<(String, FSEntrySnapshotDiff)>,
    indent: &str,
    max_depth: u32,
    rows: &mut Vec<Row>,
)
    ensures
        row_views(final(rows)@) == row_views(old(rows)@) + changed_rows(
            diff::diff_views(diffs@),
            diffs@.len(),
            indent@,
            max_depth as nat,
        ),
    decreases max_depth, 1nat,
{
    let ghost views = diff::diff_views(diffs@);
    let mut keys: Vec<i128> = Vec::new();
    let mut i: usize = 0;
    while i < diffs.len()
        invariant
            i <= diffs@.len(),
            keys@.len() == i,
            forall|j: int|
                0 <= j < i ==> #[trigger] keys@[j] == growth(diffs@[j].1@.size_diff()),
        decreases diffs@.len() - i,
    {
        keys.push(growth_of(&diffs[i].1.size_diff()));
        i = i + 1;
    }
    proof {
        assert(order::key_values(keys@) =~= growths(views));
    }
    let shown = order_for_display(&keys);
    let ghost before = row_views(rows@);
    assert(before + Seq::<RowView>::empty() =~= before);
    let mut previous_set_off = false;
    let mut n: usize = 0;
    while n < shown.len()
        invariant
            n <= shown@.len(),
            shown@.len() == diffs@.len(),
            views == diff::diff_views(diffs@),
            order::index_values(shown@) == diff_order(views),
            forall|p: int| 0 <= p < shown@.len() ==> #[trigger] shown@[p] < diffs@.len(),
            n > 0 ==> previous_set_off == set_off(views[diff_order(views)[n - 1]].1),
            row_views(rows@) == before + changed_rows(
                views,
                n as nat,
                indent@,
                max_depth as nat,
            ),
        decreases shown@.len() - n,
    {
        let at: usize = shown[n];
        assert(order::index_values(shown@)[n as int] == at);
        assert(views[at as int] == (diffs@[at as int].0@, diffs@[at as int].1@));
        let is_set_off = diffs[at].1.has_contents();
        if n > 0 && max_depth != 0 && (previous_set_off || is_set_off) {
            push_blank(rows);
        }
        push_diff(diffs[at].0.as_str(), &diffs[at].1, indent, max_depth, rows);
        assert(row_views(rows@) =~= before + changed_rows(
            views,
            (n + 1) as nat,
            indent@,
            max_depth as nat,
        ));
        previous_set_off = is_set_off;
        n = n + 1;
    }
}

/// The rows of a snapshot under a name: one for itself, and where it is a directory
/// those of what it holds, down to `max_depth` levels below it, the largest first.
pub fn fs_entry_snapshot_rows(
    name: &str,
    snapshot: &FSEntrySnapshot,
    indent: u32,
    max_depth: u32,
    style: Style,
) -> (res: Vec<Row>)
    ensures
        row_views(res@) == entry_rows(
            name@,
            snapshot@,
            indentation(indent as nat),
            max_depth as nat,
            style,
        ),
{
    let mut rows: Vec<Row> = Vec::new();
    let indent = to_indentation(indent);
    push_entry(name, snapshot, indent.as_str(), max_depth, style, &mut rows);
    assert(row_views(rows@) =~= entry_rows(name@, snapshot@, indent@, max_depth as nat, style));
    rows
}

/// The rows of a difference under a name: one for itself, and where it is a directory
/// those of what changed in it, of what is new and of what is gone, down to `max_depth`
/// levels below it.
pub fn fs_entry_snapshot_diff_rows(
    name: &str,
    diff: &FSEntrySnapshotDiff,
    indent: u32,
    max_depth: u32,
) -> (res: Vec<Row>)
    ensures
        row_views(res@) == diff_rows(
            name@,
            diff@,
            indentation(indent as nat),
            max_depth as nat,
        ),
{
    let mut rows: Vec<Row> = Vec::new();
    let indent = to_indentation(indent);
    push_diff(name, diff, indent.as_str(), max_depth, &mut rows);
    assert(row_views(rows@) =~= diff_rows(name@, diff@, indent@, max_depth as nat));
    rows
}

/// Whether a difference that is shown `max_depth` levels deep has rows below its own.
pub fn has_rows_below(diff: &FSEntrySnapshotDiff, max_depth: u32) -> (res: bool)
    ensures
        res == (max_depth != 0 && diff::diff_depth(diff@) != 0),
{
    max_depth != 0 && diff.has_contents()
}

/// How a pattern is written.
fn pattern_text(pattern: &PathPattern) -> (res: String)
    ensures
        res@ == shown_pattern(pattern@),
{
    match pattern {
        PathPattern::Exact(path) => path.display(),
        PathPattern::Wildcard => "*".to_owned(),
    }
}

/// Adds the rows of a set of rules.
fn push_rules(ruleset: &SnapshotRuleSet, indent: &str, rows: &mut Vec<Row>)
    ensures
        row_views(final(rows)@) == row_views(old(rows)@) + rule_rows(
            ruleset@,
            ruleset@.len(),
            indent@,
        ),
    decreases ruleset@,
{
    let ghost table = ruleset@;
    let ghost before = row_views(rows@);
    assert(before + Seq::<RowView>::empty() =~= before);
    let listed = ruleset.iter_rules();
    let ghost entries = vstd::std_specs::iter::IteratorSpec::remaining(&listed).unref();
    assert(rules::entry_views(entries) == table);
    let ghost mut n: nat = 0;
    for entry in it: listed
        invariant
            n == it.index(),
            it.seq().len() == table.len(),
            table == ruleset@,
            forall|i: int|
                0 <= i < table.len() ==> table[i] == ((#[trigger] it.seq()[i]).0@, it.seq()[i].1@),
            row_views(rows@) == before + rule_rows(table, n, indent@),
    {
        assert(table[n as int] == (entry.0@, entry.1@));
        let mut written = pattern_text(&entry.0);
        written.append(": ");
        match &entry.1 {
            SnapshotRule::Single(depth) => {
                let shown = to_decimal(*depth as u64);
                written.append(shown.as_str());
                push_text(rows, indent, written.as_str(), Style::Plain);
            },
            SnapshotRule::RuleSet(inner) => {
                push_text(rows, indent, written.as_str(), Style::Plain);
                let inner_indent = deeper_indent(indent);
                assert(decreases_to!(table => table[n as int]));
                assert(decreases_to!(table[n as int] => table[n as int].1));
                assert(decreases_to!(table[n as int].1 => table[n as int].1->RuleSet_0));
                push_rules(inner, inner_indent.as_str(), rows);
            },
        }
        assert(row_views(rows@) =~= before + rule_rows(table, n + 1, indent@));
        proof {
            n = n + 1;
        }
    }
}

/// The rows of a set of rules: each with the depth behind the pattern, or with the rules
/// below it.
pub fn ruleset_rows(ruleset: &SnapshotRuleSet, indent: u32) -> (res: Vec<Row>)
    ensures
        row_views(res@) == rule_rows(ruleset@, ruleset@.len(), indentation(indent as nat)),
{
    let mut rows: Vec<Row> = Vec::new();
    let indent = to_indentation(indent);
    push_rules(ruleset, indent.as_str(), &mut rows);
    assert(row_views(rows@) =~= rule_rows(ruleset@, ruleset@.len(), indent@));
    rows
}

/// How many decimals a size that is whole in its unit is written with: none where it is
/// in bytes, and two in larger units.
pub open spec fn whole_size_decimals(size: u64) -> usize {
    if size < 1024 {
        0
    } else {
        2
    }
}

/// A number of bytes as it is written for people in binary units, with `decimal_zeroes`
/// decimals where it is whole in its unit.
pub uninterp spec fn formatted_size(size: u64, decimal_zeroes: usize) -> Seq<char>;

/// Writes a number of bytes for people, with [`humansize::format_size`] in the format
/// [`humansize::BINARY`] with another number of `decimal_zeroes`.
///
/// Claimed of it: the text depends on nothing but the two numbers. How the size is
/// scaled and rounded is left to the crate. More decimals than a precision in a format
/// string can have are left out.
#[verifier::external_body]
fn format_size(size: u64, decimal_zeroes: usize) -> (res: String)
    requires
        decimal_zeroes <= 0xffff,
    ensures
        res@ == formatted_size(size, decimal_zeroes),
{
    humansize::format_size(size, humansize::BINARY.decimal_zeroes(decimal_zeroes))
}

/// A number of bytes as it is shown.
pub open spec fn human_readable_size(size: u64) -> Seq<char> {
    formatted_size(size, whole_size_decimals(size))
}

/// Writes a number of bytes as it is shown.
pub fn to_human_readable_size(size: u64) -> (res: String)
    ensures
        res@ == human_readable_size(size),
{
    let decimals: usize = if size < 1024 {
        0
    } else {
        2
    };
    format_size(size, decimals)
}

/// How large something is, in words.
pub open spec fn size_words(name: Seq<char>, size: Seq<char>) -> Seq<char> {
    name + ": "@ + size
}

/// How the size of something changed, in words.
pub open spec fn change_words(
    name: Seq<char>,
    old_size: Seq<char>,
    new_size: Seq<char>,
    grew: bool,
    by: Seq<char>,
) -> Seq<char> {
    name + ": "@ + old_size + " -> "@ + new_size + ": "@ + if grew {
        "+"@
    } else {
        "-"@
    } + by
}

/// By how much a size changed.
pub open spec fn changed_by(size_diff: SizeDiff) -> u64 {
    if size_diff.old_size < size_diff.new_size {
        (size_diff.new_size - size_diff.old_size) as u64
    } else {
        (size_diff.old_size - size_diff.new_size) as u64
    }
}

/// What a row says, in words.
pub open spec fn label_words(label: LabelView) -> Seq<char> {
    match label {
        LabelView::Text(text) => text,
        LabelView::Entry { name, size } => size_words(name, human_readable_size(size)),
        LabelView::Change { name, size_diff } => change_words(
            name,
            human_readable_size(size_diff.old_size),
            human_readable_size(size_diff.new_size),
            size_diff.old_size < size_diff.new_size,
            human_readable_size(changed_by(size_diff)),
        ),
    }
}

/// A row as it is shown.
pub open spec fn shown_row(row: RowView) -> LineView {
    LineView { indent: row.indent, text: label_words(row.label), style: row.style }
}

/// Rows as they are shown.
pub open spec fn shown_rows(rows: Seq<RowView>) -> Seq<LineView> {
    Seq::new(rows.len(), |i: int| shown_row(rows[i]))
}

/// How large something is, in words.
pub fn to_size_words(name: &str, size: &str) -> (res: String)
    ensures
        res@ == size_words(name@, size@),
{
    enclose(name, ": ", size)
}

/// How the size of something changed, in words.
pub fn to_change_words(
    name: &str,
    old_size: &str,
    new_size: &str,
    grew: bool,
    by: &str,
) -> (res: String)
    ensures
        res@ == change_words(name@, old_size@, new_size@, grew, by@),
{
    let mut res = enclose(name, ": ", old_size);
    res.append(" -> ");
    res.append(new_size);
    res.append(": ");
    if grew {
        res.append("+");
    } else {
        res.append("-");
    }
    res.append(by);
    res
}

impl Row {
    /// The row as it is shown.
    pub fn into_line(self) -> (res: Line)
        ensures
            res@ == shown_row(self@),
    {
        let text = match self.label {
            Label::Text(text) => text,
            Label::Entry { name, size } => {
                let size = to_human_readable_size(size);
                to_size_words(name.as_str(), size.as_str())
            },
            Label::Change { name, size_diff } => {
                let grew = size_diff.old_size < size_diff.new_size;
                let by: u64 = if grew {
                    size_diff.new_size - size_diff.old_size
                } else {
                    size_diff.old_size - size_diff.new_size
                };
                let old_size = to_human_readable_size(size_diff.old_size);
                let new_size = to_human_readable_size(size_diff.new_size);
                let by = to_human_readable_size(by);
                to_change_words(
                    name.as_str(),
                    old_size.as_str(),
                    new_size.as_str(),
                    grew,
                    by.as_str(),
                )
            },
        };
        Line { indent: self.indent, text, style: self.style }
    }
}

/// The rows as they are shown.
pub fn into_lines(rows: Vec<Row>) -> (res: Vec<Line>)
    ensures
        line_views(res@) == shown_rows(row_views(rows@)),
{
    let ghost views = row_views(rows@);
    let mut lines: Vec<Line> = Vec::new();
    for row in it: rows
        invariant
            lines@.len() == it.index(),
            it.seq().len() == views.len(),
            forall|i: int| 0 <= i < views.len() ==> views[i] == (#[trigger] it.seq()[i])@,
            forall|i: int|
                0 <= i < lines@.len() ==> (#[trigger] lines@[i])@ == shown_row(views[i]),
    {
        lines.push(row.into_line());
    }
    assert(line_views(lines@) =~= shown_rows(views));
    lines
}

} // verus!
