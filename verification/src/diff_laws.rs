//! Laws of differences: what a comparison reports, and when it reports nothing.
use vstd::prelude::*;

use crate::diff;
use crate::diff::{DiffView, FileDiffs, SizeDiff};
use crate::path;
use crate::path::StepView;
use crate::snapshot;
use crate::snapshot::{DirView, EntryView, Files};
use crate::snapshot_laws;

verus! {

/// Whether no two entries of a directory have one name, all the way down.
pub open spec fn distinct_names(entry: EntryView) -> bool
    decreases entry,
{
    match entry {
        EntryView::File(_) => true,
        EntryView::Directory(dir) => {
            &&& forall|i: int, j: int|
                0 <= i < j < dir.files.len() ==> (#[trigger] dir.files[i]).0 != (
                #[trigger] dir.files[j]).0
            &&& forall|i: int|
                0 <= i < dir.files.len() ==> distinct_names((#[trigger] dir.files[i]).1)
        },
    }
}

/// Where names are distinct, an entry is what its name finds.
pub proof fn lemma_distinct_file_is_found(files: Files, i: int)
    requires
        0 <= i < files.len(),
        forall|j: int, k: int|
            0 <= j < k < files.len() ==> (#[trigger] files[j]).0 != (#[trigger] files[k]).0,
    ensures
        snapshot::found_file(files, files[i].0) == Some(files[i].1),
{
    assert(snapshot::is_file_index(files, files[i].0, i));
    snapshot::lemma_found_file(files, files[i].0, i);
}

/// A list holds exactly the entries whose name is not among the others.
proof fn lemma_only_in(files: Files, others: Files)
    ensures
        forall|k: int|
            0 <= k < diff::only_in(files, others).len() ==> snapshot::found_file(
                others,
                (#[trigger] diff::only_in(files, others)[k]).0,
            ) is None && files.contains(diff::only_in(files, others)[k]),
        forall|i: int|
            0 <= i < files.len() && snapshot::found_file(others, (#[trigger] files[i]).0) is None
                ==> diff::only_in(files, others).contains(files[i]),
{
    let keep = diff::absent_from(others);
    let list = diff::only_in(files, others);
    assert forall|k: int| 0 <= k < list.len() implies snapshot::found_file(
        others,
        (#[trigger] list[k]).0,
    ) is None && files.contains(list[k]) by {
        files.lemma_filter_pred(keep, k);
        files.lemma_filter_contains_rev(keep, list[k]);
    }
    assert forall|i: int|
        0 <= i < files.len() && snapshot::found_file(others, (#[trigger] files[i]).0)
            is None implies list.contains(files[i]) by {
        files.lemma_filter_contains(keep, i);
    }
}

/// Whether a list of entries mentions a name.
pub open spec fn lists_name(files: Files, name: Seq<char>) -> bool {
    exists|i: int| 0 <= i < files.len() && (#[trigger] files[i]).0 == name
}

/// A name is reported as new exactly when only the new directory has it, and as deleted
/// exactly when only the old one does.
pub proof fn law_new_and_deleted_by_name(old: DirView, new: DirView, name: Seq<char>)
    ensures
        lists_name(diff::dir_diff(old, new).new_files, name) <==> lists_name(new.files, name)
            && !lists_name(old.files, name),
        lists_name(diff::dir_diff(old, new).deleted_files, name) <==> lists_name(old.files, name)
            && !lists_name(new.files, name),
{
    lemma_only_in_by_name(new.files, old.files, name);
    lemma_only_in_by_name(old.files, new.files, name);
}

proof fn lemma_only_in_by_name(files: Files, others: Files, name: Seq<char>)
    ensures
        lists_name(diff::only_in(files, others), name) <==> lists_name(files, name)
            && !lists_name(others, name),
{
    let list = diff::only_in(files, others);
    lemma_only_in(files, others);
    snapshot::lemma_file_is_found(others, name);
    if lists_name(list, name) {
        let k = choose|k: int| 0 <= k < list.len() && (#[trigger] list[k]).0 == name;
        assert(files.contains(list[k]));
        let i = choose|i: int| 0 <= i < files.len() && files[i] == list[k];
        assert(files[i].0 == name);
    }
    if lists_name(files, name) && !lists_name(others, name) {
        let i = choose|i: int| 0 <= i < files.len() && (#[trigger] files[i]).0 == name;
        assert(list.contains(files[i]));
        let k = choose|k: int| 0 <= k < list.len() && list[k] == files[i];
        assert(list[k].0 == name);
    }
}

/// Comparing the other way round swaps what is new and what is deleted.
pub proof fn law_reverse_swaps_new_and_deleted(old: DirView, new: DirView)
    ensures
        diff::dir_diff(new, old).new_files == diff::dir_diff(old, new).deleted_files,
        diff::dir_diff(new, old).deleted_files == diff::dir_diff(old, new).new_files,
{
}

/// Whether entry `i` of `old` is called `name`, and `diff` is how it differs from what
/// has that name in `new`.
pub open spec fn differs_at(
    old: Files,
    new: Files,
    name: Seq<char>,
    diff: DiffView,
    i: int,
) -> bool {
    &&& 0 <= i < old.len()
    &&& old[i].0 == name
    &&& snapshot::found_file(new, name) matches Some(other) && diff == diff::entry_diff(
        old[i].1,
        other,
    )
    &&& diff.has_changes()
}

/// What is listed as changed is what has one name in both directories and differs.
pub proof fn law_changed_by_name(old: DirView, new: DirView, name: Seq<char>, diff: DiffView)
    ensures
        diff::dir_diff(old, new).file_diffs.contains((name, diff)) <==> exists|i: int|
            differs_at(old.files, new.files, name, diff, i),
{
    lemma_changed_by_name(old.files, new.files, old.files.len(), name, diff);
}

/// What is listed as changed of the first `n` entries is what differs of them.
proof fn lemma_changed_by_name(
    old: Files,
    new: Files,
    n: nat,
    name: Seq<char>,
    diff: DiffView,
)
    requires
        n <= old.len(),
    ensures
        diff::changed_files(old, new, n).contains((name, diff)) <==> exists|i: int|
            i < n && differs_at(old, new, name, diff, i),
    decreases n,
{
    let all = diff::changed_files(old, new, n);
    if n > 0 {
        lemma_changed_by_name(old, new, (n - 1) as nat, name, diff);
        let before = diff::changed_files(old, new, (n - 1) as nat);
        let listed = all.contains((name, diff));
        if before.contains((name, diff)) {
            let p = choose|p: int| 0 <= p < before.len() && before[p] == (name, diff);
            assert(all[p] == (name, diff));
        }
        if differs_at(old, new, name, diff, n - 1) {
            assert(all == before.push((name, diff)));
            assert(all[before.len() as int] == (name, diff));
        }
        if listed && !before.contains((name, diff)) {
            let p = choose|p: int| 0 <= p < all.len() && all[p] == (name, diff);
            if p < before.len() {
                assert(before[p] == (name, diff));
            }
            assert(differs_at(old, new, name, diff, n - 1));
        }
    }
}

/// Nothing is listed as changed exactly when nothing of one name in both changed.
proof fn lemma_changed_files(old: Files, new: Files, n: nat)
    requires
        n <= old.len(),
    ensures
        diff::changed_files(old, new, n).len() == 0 <==> forall|i: int|
            0 <= i < n ==> (snapshot::found_file(new, (#[trigger] old[i]).0) matches Some(other)
                ==> !diff::entry_diff(old[i].1, other).has_changes()),
    decreases n,
{
    if n > 0 {
        lemma_changed_files(old, new, (n - 1) as nat);
        let before = diff::changed_files(old, new, (n - 1) as nat);
        if diff::changed_files(old, new, n).len() == 0 {
            assert(before.len() == 0);
        }
    }
}

/// A snapshot compared with itself shows no changes.
pub proof fn law_same_snapshot_has_no_changes(entry: EntryView)
    requires
        distinct_names(entry),
    ensures
        diff::comparable(entry, entry),
        !diff::entry_diff(entry, entry).has_changes(),
    decreases entry,
{
    match entry {
        EntryView::File(_) => {},
        EntryView::Directory(dir) => {
            let files = dir.files;
            assert forall|i: int| 0 <= i < files.len() implies snapshot::found_file(
                files,
                (#[trigger] files[i]).0,
            ) == Some(files[i].1) && diff::comparable(files[i].1, files[i].1)
                && !diff::entry_diff(files[i].1, files[i].1).has_changes() by {
                lemma_distinct_file_is_found(files, i);
                assert(decreases_to!(files => files[i]));
                assert(distinct_names(files[i].1));
                law_same_snapshot_has_no_changes(files[i].1);
            }
            lemma_changed_files(files, files, files.len());
            lemma_only_in(files, files);
            let list = diff::only_in(files, files);
            if list.len() > 0 {
                assert(files.contains(list[0]));
            }
        },
    }
}

/// Where a comparison shows no changes, the same paths lead somewhere in both snapshots,
/// and to things of the same size.
pub proof fn law_no_changes_means_same_sizes(
    old: EntryView,
    new: EntryView,
    path: Seq<StepView>,
)
    requires
        diff::comparable(old, new),
        !diff::entry_diff(old, new).has_changes(),
    ensures
        match (snapshot::found_at(old, path), snapshot::found_at(new, path)) {
            (Some(a), Some(b)) => a.size() == b.size() && (a is File <==> b is File),
            (None, None) => true,
            _ => false,
        },
    decreases path.len(),
{
    if path.len() > 0 {
        match (old, new) {
            (EntryView::Directory(old_dir), EntryView::Directory(new_dir)) => {
                let name = snapshot::root_name(path);
                lemma_no_changes_inside(old_dir, new_dir, name);
                match snapshot::found_file(old_dir.files, name) {
                    None => {},
                    Some(a) => {
                        let b = snapshot::found_file(new_dir.files, name).unwrap();
                        law_no_changes_means_same_sizes(a, b, path::path_rest(path));
                        law_no_changes_means_same_sizes(a, b, Seq::empty());
                    },
                }
            },
            _ => {},
        }
    }
}

/// Whether a path leads somewhere in both snapshots or in neither, and to two files or two
/// directories of the same size.
pub open spec fn alike_at(old: EntryView, new: EntryView, path: Seq<StepView>) -> bool {
    match (snapshot::found_at(old, path), snapshot::found_at(new, path)) {
        (Some(a), Some(b)) => a.size() == b.size() && (a is File <==> b is File),
        (None, None) => true,
        _ => false,
    }
}

/// Where all paths lead to things of the same size in both snapshots, or to nothing in
/// either, a comparison shows no changes.
pub proof fn law_same_sizes_mean_no_changes(old: EntryView, new: EntryView)
    requires
        distinct_names(old),
        forall|path: Seq<StepView>| #[trigger] alike_at(old, new, path),
    ensures
        diff::comparable(old, new),
        !diff::entry_diff(old, new).has_changes(),
    decreases old,
{
    assert(alike_at(old, new, Seq::empty()));
    match (old, new) {
        (EntryView::Directory(old_dir), EntryView::Directory(new_dir)) => {
            let a = old_dir.files;
            let b = new_dir.files;
            assert forall|i: int| 0 <= i < a.len() implies (snapshot::found_file(
                b,
                (#[trigger] a[i]).0,
            ) matches Some(other) && diff::comparable(a[i].1, other) && !diff::entry_diff(
                a[i].1,
                other,
            ).has_changes()) by {
                lemma_distinct_file_is_found(a, i);
                lemma_alike_below(old_dir, new_dir, a[i].0);
                let other = snapshot::found_file(b, a[i].0)->0;
                assert(decreases_to!(a => a[i]));
                assert(distinct_names(a[i].1));
                law_same_sizes_mean_no_changes(a[i].1, other);
            }
            assert forall|j: int| 0 <= j < b.len() implies snapshot::found_file(
                a,
                (#[trigger] b[j]).0,
            ) is Some by {
                lemma_alike_below(old_dir, new_dir, b[j].0);
                snapshot::lemma_file_is_found(b, b[j].0);
            }
            lemma_changed_files(a, b, a.len());
            lemma_only_in(a, b);
            lemma_only_in(b, a);
            let gone = diff::only_in(a, b);
            let born = diff::only_in(b, a);
            if gone.len() > 0 {
                assert(a.contains(gone[0]));
            }
            if born.len() > 0 {
                assert(b.contains(born[0]));
            }
        },
        _ => {},
    }
}

/// What holds of all paths below two directories holds of those below what has one name in
/// both.
proof fn lemma_alike_below(old: DirView, new: DirView, name: Seq<char>)
    requires
        forall|path: Seq<StepView>| #[trigger]
            alike_at(EntryView::Directory(old), EntryView::Directory(new), path),
    ensures
        match (snapshot::found_file(old.files, name), snapshot::found_file(new.files, name)) {
            (Some(a), Some(b)) => forall|path: Seq<StepView>| #[trigger] alike_at(a, b, path),
            (None, None) => true,
            _ => false,
        },
{
    let step = StepView { root: Seq::empty(), shown: name, count: 1 };
    let first = seq![step];
    let old_root = EntryView::Directory(old);
    let new_root = EntryView::Directory(new);
    assert(path::path_rest(first).len() == 0);
    assert(alike_at(old_root, new_root, first));
    match (snapshot::found_file(old.files, name), snapshot::found_file(new.files, name)) {
        (Some(a), Some(b)) => {
            assert forall|path: Seq<StepView>| #[trigger] alike_at(a, b, path) by {
                assert(alike_at(old_root, new_root, first + path));
                snapshot_laws::law_paths_compose(old_root, first, path);
                snapshot_laws::law_paths_compose(new_root, first, path);
            }
        },
        _ => {},
    }
}

/// Directories without changes have the same names, for things without changes.
proof fn lemma_no_changes_inside(old: DirView, new: DirView, name: Seq<char>)
    requires
        diff::comparable(EntryView::Directory(old), EntryView::Directory(new)),
        !diff::dir_diff(old, new).has_changes(),
    ensures
        match (snapshot::found_file(old.files, name), snapshot::found_file(new.files, name)) {
            (Some(a), Some(b)) => diff::comparable(a, b) && !diff::entry_diff(a, b).has_changes(),
            (None, None) => true,
            _ => false,
        },
{
    let changes = diff::dir_diff(old, new);
    snapshot::lemma_file_is_found(old.files, name);
    snapshot::lemma_file_is_found(new.files, name);
    law_new_and_deleted_by_name(old, new, name);
    assert(!lists_name(changes.new_files, name));
    assert(!lists_name(changes.deleted_files, name));
    if snapshot::found_file(old.files, name) is Some {
        snapshot_laws::law_found_file_is_an_entry(old.files, name);
        let a = snapshot::found_file(old.files, name).unwrap();
        let i = choose|i: int|
            0 <= i < old.files.len() && #[trigger] old.files[i] == (name, a);
        diff::lemma_entries_comparable(old, new, i);
        lemma_changed_files(old.files, new.files, old.files.len());
        assert(old.files[i].0 == name);
    }
}

/// Snapshots with distinct names can be compared either way round, with changes both ways
/// or neither, and with the sizes swapped.
pub proof fn law_reverse_shows_changes_too(old: EntryView, new: EntryView)
    requires
        distinct_names(old),
        distinct_names(new),
        diff::comparable(old, new),
    ensures
        diff::comparable(new, old),
        diff::entry_diff(new, old).has_changes() == diff::entry_diff(old, new).has_changes(),
        diff::entry_diff(new, old).size_diff() == match diff::entry_diff(old, new).size_diff() {
            Some(change) => Some(
                SizeDiff { old_size: change.new_size, new_size: change.old_size },
            ),
            None => None,
        },
    decreases old,
{
    match (old, new) {
        (EntryView::Directory(old_dir), EntryView::Directory(new_dir)) => {
            let a = old_dir.files;
            let b = new_dir.files;
            assert forall|i: int, j: int|
                0 <= i < a.len() && 0 <= j < b.len() && (#[trigger] a[i]).0 == (
                #[trigger] b[j]).0 implies alike_both_ways(a, b, i, j) by {
                lemma_distinct_file_is_found(a, i);
                lemma_distinct_file_is_found(b, j);
                diff::lemma_entries_comparable(old_dir, new_dir, i);
                assert(decreases_to!(a => a[i]));
                assert(distinct_names(a[i].1));
                assert(distinct_names(b[j].1));
                law_reverse_shows_changes_too(a[i].1, b[j].1);
            }
            assert forall|i: int, j: int|
                0 <= i < b.len() && 0 <= j < a.len() && (#[trigger] b[i]).0 == (
                #[trigger] a[j]).0 implies snapshot::found_file(b, a[j].0) == Some(b[i].1)
                && diff::entry_diff(a[j].1, b[i].1).has_changes() == diff::entry_diff(
                b[i].1,
                a[j].1,
            ).has_changes() by {
                assert(alike_both_ways(a, b, j, i));
            }
            lemma_comparable_back(old_dir, new_dir);
            lemma_changed_swap(a, b);
            lemma_changed_swap(b, a);
            law_reverse_swaps_new_and_deleted(old_dir, new_dir);
        },
        _ => {},
    }
}

/// Whether a difference of this name is listed.
pub open spec fn lists_change(diffs: FileDiffs, name: Seq<char>) -> bool {
    exists|diff: DiffView| #[trigger] diffs.contains((name, diff))
}

/// Compared the other way round, directories with distinct names list the same names as
/// changed.
pub proof fn law_reverse_lists_same_changes(old: DirView, new: DirView, name: Seq<char>)
    requires
        distinct_names(EntryView::Directory(old)),
        distinct_names(EntryView::Directory(new)),
        diff::comparable(EntryView::Directory(old), EntryView::Directory(new)),
    ensures
        lists_change(diff::dir_diff(old, new).file_diffs, name) <==> lists_change(
            diff::dir_diff(new, old).file_diffs,
            name,
        ),
{
    law_reverse_shows_changes_too(EntryView::Directory(old), EntryView::Directory(new));
    if lists_change(diff::dir_diff(old, new).file_diffs, name) {
        lemma_change_is_listed_back(old, new, name);
    }
    if lists_change(diff::dir_diff(new, old).file_diffs, name) {
        lemma_change_is_listed_back(new, old, name);
    }
}

/// What is listed as changed is so the other way round.
proof fn lemma_change_is_listed_back(old: DirView, new: DirView, name: Seq<char>)
    requires
        distinct_names(EntryView::Directory(old)),
        distinct_names(EntryView::Directory(new)),
        diff::comparable(EntryView::Directory(old), EntryView::Directory(new)),
        lists_change(diff::dir_diff(old, new).file_diffs, name),
    ensures
        lists_change(diff::dir_diff(new, old).file_diffs, name),
{
    let a = old.files;
    let b = new.files;
    let change = choose|change: DiffView|
        #[trigger] diff::dir_diff(old, new).file_diffs.contains((name, change));
    law_changed_by_name(old, new, name, change);
    let i = choose|i: int| differs_at(a, b, name, change, i);
    let other = snapshot::found_file(b, name)->0;
    snapshot_laws::law_found_file_is_an_entry(b, name);
    let j = choose|j: int| 0 <= j < b.len() && #[trigger] b[j] == (name, other);
    lemma_distinct_file_is_found(a, i);
    diff::lemma_entries_comparable(old, new, i);
    assert(distinct_names(a[i].1));
    assert(distinct_names(b[j].1));
    law_reverse_shows_changes_too(a[i].1, other);
    let back = diff::entry_diff(other, a[i].1);
    assert(differs_at(b, a, name, back, j));
    law_changed_by_name(new, old, name, back);
    assert(diff::dir_diff(new, old).file_diffs.contains((name, back)));
}

/// Whether entries of one name find each other, can be compared back, and show changes
/// both ways or neither.
spec fn alike_both_ways(a: Files, b: Files, i: int, j: int) -> bool {
    &&& snapshot::found_file(b, a[i].0) == Some(b[j].1)
    &&& snapshot::found_file(a, b[j].0) == Some(a[i].1)
    &&& diff::comparable(b[j].1, a[i].1)
    &&& diff::entry_diff(b[j].1, a[i].1).has_changes() == diff::entry_diff(
        a[i].1,
        b[j].1,
    ).has_changes()
}

/// Directories whose entries can be compared back can be compared back themselves.
proof fn lemma_comparable_back(old: DirView, new: DirView)
    requires
        forall|i: int, j: int|
            0 <= i < old.files.len() && 0 <= j < new.files.len() && (#[trigger] old.files[i]).0
                == (#[trigger] new.files[j]).0 ==> alike_both_ways(old.files, new.files, i, j),
    ensures
        diff::comparable(EntryView::Directory(new), EntryView::Directory(old)),
{
    let a = old.files;
    let b = new.files;
    assert forall|j: int| 0 <= j < b.len() implies match snapshot::found_file(
        a,
        (#[trigger] b[j]).0,
    ) {
        Some(entry) => diff::comparable(b[j].1, entry),
        None => true,
    } by {
        if snapshot::found_file(a, b[j].0) is Some {
            snapshot_laws::law_found_file_is_an_entry(a, b[j].0);
            let entry = snapshot::found_file(a, b[j].0).unwrap();
            let i = choose|i: int| 0 <= i < a.len() && #[trigger] a[i] == (b[j].0, entry);
            assert(a[i].0 == b[j].0);
            assert(alike_both_ways(a, b, i, j));
        }
    }
}

/// If something changed one way round, something does the other.
proof fn lemma_changed_swap(a: Files, b: Files)
    requires
        forall|i: int, j: int|
            0 <= i < a.len() && 0 <= j < b.len() && (#[trigger] a[i]).0 == (#[trigger] b[j]).0
                ==> snapshot::found_file(a, b[j].0) == Some(a[i].1) && diff::entry_diff(
                b[j].1,
                a[i].1,
            ).has_changes() == diff::entry_diff(a[i].1, b[j].1).has_changes(),
    ensures
        diff::changed_files(b, a, b.len()).len() == 0 ==> diff::changed_files(
            a,
            b,
            a.len(),
        ).len() == 0,
{
    lemma_changed_files(a, b, a.len());
    lemma_changed_files(b, a, b.len());
    if diff::changed_files(b, a, b.len()).len() == 0 {
        assert forall|i: int| 0 <= i < a.len() implies (snapshot::found_file(
            b,
            (#[trigger] a[i]).0,
        ) matches Some(other) ==> !diff::entry_diff(a[i].1, other).has_changes()) by {
            if snapshot::found_file(b, a[i].0) is Some {
                snapshot_laws::law_found_file_is_an_entry(b, a[i].0);
                let other = snapshot::found_file(b, a[i].0).unwrap();
                let j = choose|j: int| 0 <= j < b.len() && #[trigger] b[j] == (a[i].0, other);
                assert(a[i].0 == b[j].0);
            }
        }
    }
}

/// A directory none of whose entries is deeper than a bound is not deeper itself.
proof fn lemma_files_depth_at_most(files: Files, n: nat, bound: nat)
    requires
        n <= files.len(),
        forall|i: int|
            0 <= i < files.len() ==> 1 + snapshot::entry_depth((#[trigger] files[i]).1) <= bound,
    ensures
        snapshot::files_depth(files, n) <= bound,
    decreases n,
{
    if n > 0 {
        lemma_files_depth_at_most(files, (n - 1) as nat, bound);
        assert(1 + snapshot::entry_depth(files[n - 1].1) <= bound);
    }
}

/// Leaving entries out makes a directory no deeper.
proof fn lemma_only_in_depth(files: Files, others: Files)
    ensures
        snapshot::files_depth(diff::only_in(files, others), diff::only_in(files, others).len())
            <= snapshot::files_depth(files, files.len()),
{
    let list = diff::only_in(files, others);
    let bound = snapshot::files_depth(files, files.len());
    lemma_only_in(files, others);
    snapshot_laws::law_depth_is_that_of_deepest(files);
    assert forall|k: int| 0 <= k < list.len() implies 1 + snapshot::entry_depth(
        (#[trigger] list[k]).1,
    ) <= bound by {
        assert(files.contains(list[k]));
        let i = choose|i: int| 0 <= i < files.len() && files[i] == list[k];
        assert(1 + snapshot::entry_depth(files[i].1) <= bound);
    }
    lemma_files_depth_at_most(list, list.len(), bound);
}

/// Differences none of which is deeper than a bound are not deeper together.
proof fn lemma_file_diffs_depth_at_most(diffs: FileDiffs, n: nat, bound: nat)
    requires
        n <= diffs.len(),
        forall|i: int|
            0 <= i < diffs.len() ==> 1 + diff::diff_depth((#[trigger] diffs[i]).1) <= bound,
    ensures
        diff::file_diffs_depth(diffs, n) <= bound,
    decreases n,
{
    if n > 0 {
        lemma_file_diffs_depth_at_most(diffs, (n - 1) as nat, bound);
        assert(1 + diff::diff_depth(diffs[n - 1].1) <= bound);
    }
}

/// Every listed difference is one between entries of one name.
proof fn lemma_changed_is_a_diff(old: Files, new: Files, n: nat, k: int)
    requires
        n <= old.len(),
        0 <= k < diff::changed_files(old, new, n).len(),
    ensures
        exists|i: int|
            0 <= i < n && snapshot::found_file(new, (#[trigger] old[i]).0) is Some
                && diff::changed_files(old, new, n)[k] == (
                old[i].0,
                diff::entry_diff(old[i].1, snapshot::found_file(new, old[i].0).unwrap()),
            ),
    decreases n,
{
    let before = diff::changed_files(old, new, (n - 1) as nat);
    if k < before.len() {
        lemma_changed_is_a_diff(old, new, (n - 1) as nat, k);
        let i = choose|i: int|
            0 <= i < n - 1 && snapshot::found_file(new, (#[trigger] old[i]).0) is Some
                && before[k] == (
                old[i].0,
                diff::entry_diff(old[i].1, snapshot::found_file(new, old[i].0).unwrap()),
            );
        assert(diff::changed_files(old, new, n)[k] == before[k]);
        assert(0 <= i < n && snapshot::found_file(new, old[i].0) is Some);
    } else {
        assert(snapshot::found_file(new, old[n - 1].0) is Some);
    }
}

/// A difference is no deeper than the deeper of the two snapshots.
pub proof fn law_diff_is_no_deeper_than_snapshots(old: EntryView, new: EntryView)
    requires
        diff::comparable(old, new),
    ensures
        diff::diff_depth(diff::entry_diff(old, new)) <= snapshot::larger(
            snapshot::entry_depth(old),
            snapshot::entry_depth(new),
        ),
    decreases old,
{
    match (old, new) {
        (EntryView::Directory(old_dir), EntryView::Directory(new_dir)) => {
            let a = old_dir.files;
            let b = new_dir.files;
            let bound = snapshot::larger(snapshot::entry_depth(old), snapshot::entry_depth(new));
            let list = diff::changed_files(a, b, a.len());
            lemma_only_in_depth(a, b);
            lemma_only_in_depth(b, a);
            snapshot_laws::law_depth_is_that_of_deepest(a);
            snapshot_laws::law_depth_is_that_of_deepest(b);
            assert forall|k: int| 0 <= k < list.len() implies 1 + diff::diff_depth(
                (#[trigger] list[k]).1,
            ) <= bound by {
                lemma_changed_is_a_diff(a, b, a.len(), k);
                let i = choose|i: int|
                    0 <= i < a.len() && snapshot::found_file(b, (#[trigger] a[i]).0) is Some
                        && list[k] == (
                        a[i].0,
                        diff::entry_diff(a[i].1, snapshot::found_file(b, a[i].0).unwrap()),
                    );
                let other = snapshot::found_file(b, a[i].0).unwrap();
                snapshot_laws::law_found_file_is_an_entry(b, a[i].0);
                let j = choose|j: int| 0 <= j < b.len() && #[trigger] b[j] == (a[i].0, other);
                diff::lemma_entries_comparable(old_dir, new_dir, i);
                assert(decreases_to!(a => a[i]));
                law_diff_is_no_deeper_than_snapshots(a[i].1, other);
                assert(1 + snapshot::entry_depth(a[i].1) <= bound);
                assert(1 + snapshot::entry_depth(b[j].1) <= bound);
            }
            lemma_file_diffs_depth_at_most(list, list.len(), bound);
        },
        _ => {},
    }
}

/// Whether a change of size is from one size to another: none if they are the same, and
/// else with both as they are.
pub open spec fn is_change(size_diff: Option<SizeDiff>, old_size: u64, new_size: u64) -> bool {
    match size_diff {
        None => old_size == new_size,
        Some(change) => old_size != new_size && change.old_size == old_size && change.new_size
            == new_size,
    }
}

/// The change of size in a difference is from the size of the old entry to that of the new
/// one, exactly as they are, and is there exactly when they are not the same.
pub proof fn law_size_diff_holds_both_sizes(old: EntryView, new: EntryView)
    requires
        diff::comparable(old, new),
    ensures
        is_change(diff::entry_diff(old, new).size_diff(), old.size(), new.size()),
        diff::entry_diff(old, new) is File <==> old is File,
{
}

/// Every difference that is listed in a directory is one between an old and a new entry of
/// its name: from the size of the one to that of the other.
pub proof fn law_listed_change_holds_both_sizes(
    old: DirView,
    new: DirView,
    name: Seq<char>,
    change: DiffView,
)
    requires
        diff::comparable(EntryView::Directory(old), EntryView::Directory(new)),
        diff::dir_diff(old, new).file_diffs.contains((name, change)),
    ensures
        exists|i: int, j: int|
            0 <= i < old.files.len() && 0 <= j < new.files.len() && (#[trigger] old.files[i]).0
                == name && (#[trigger] new.files[j]).0 == name && is_change(
                change.size_diff(),
                old.files[i].1.size(),
                new.files[j].1.size(),
            ),
{
    law_changed_by_name(old, new, name, change);
    let i = choose|i: int| differs_at(old.files, new.files, name, change, i);
    let other = snapshot::found_file(new.files, name)->0;
    snapshot_laws::law_found_file_is_an_entry(new.files, name);
    let j = choose|j: int| 0 <= j < new.files.len() && #[trigger] new.files[j] == (name, other);
    diff::lemma_entries_comparable(old, new, i);
    law_size_diff_holds_both_sizes(old.files[i].1, other);
    assert(old.files[i].0 == name && new.files[j].0 == name);
}

/// Where two entries of one name differ in size, the difference is listed under that name,
/// from the one size to the other.
pub proof fn law_changed_size_is_listed(old: DirView, new: DirView, i: int, j: int)
    requires
        diff::comparable(EntryView::Directory(old), EntryView::Directory(new)),
        distinct_names(EntryView::Directory(new)),
        0 <= i < old.files.len(),
        0 <= j < new.files.len(),
        old.files[i].0 == new.files[j].0,
        old.files[i].1.size() != new.files[j].1.size(),
    ensures
        exists|k: int|
            0 <= k < diff::dir_diff(old, new).file_diffs.len() && (
            #[trigger] diff::dir_diff(old, new).file_diffs[k]).0 == old.files[i].0 && (
            diff::dir_diff(old, new).file_diffs[k].1.size_diff() matches Some(change)
                && change.old_size == old.files[i].1.size() && change.new_size
                == new.files[j].1.size()),
{
    let name = old.files[i].0;
    lemma_distinct_file_is_found(new.files, j);
    diff::lemma_entries_comparable(old, new, i);
    law_size_diff_holds_both_sizes(old.files[i].1, new.files[j].1);
    let change = diff::entry_diff(old.files[i].1, new.files[j].1);
    assert(change.has_changes());
    assert(differs_at(old.files, new.files, name, change, i));
    law_changed_by_name(old, new, name, change);
    let list = diff::dir_diff(old, new).file_diffs;
    let k = choose|k: int| 0 <= k < list.len() && list[k] == (name, change);
    assert(list[k].0 == name);
}

/// What is listed as new are the new entries whose name the old directory does not have,
/// as they are. What is listed as deleted are the old entries whose name the new one does
/// not have.
pub proof fn law_new_and_deleted_entries(
    old: DirView,
    new: DirView,
    name: Seq<char>,
    entry: EntryView,
)
    ensures
        diff::dir_diff(old, new).new_files.contains((name, entry)) <==> new.files.contains(
            (name, entry),
        ) && !lists_name(old.files, name),
        diff::dir_diff(old, new).deleted_files.contains((name, entry)) <==> old.files.contains(
            (name, entry),
        ) && !lists_name(new.files, name),
{
    lemma_only_in_holds(new.files, old.files, name, entry);
    lemma_only_in_holds(old.files, new.files, name, entry);
}

proof fn lemma_only_in_holds(files: Files, others: Files, name: Seq<char>, entry: EntryView)
    ensures
        diff::only_in(files, others).contains((name, entry)) <==> files.contains((name, entry))
            && !lists_name(others, name),
{
    lemma_only_in(files, others);
    let list = diff::only_in(files, others);
    snapshot::lemma_file_is_found(others, name);
    if list.contains((name, entry)) {
        let k = choose|k: int| 0 <= k < list.len() && list[k] == (name, entry);
        assert(snapshot::found_file(others, list[k].0) is None);
        assert(files.contains(list[k]));
    }
    if files.contains((name, entry)) && !lists_name(others, name) {
        let i = choose|i: int| 0 <= i < files.len() && files[i] == (name, entry);
        if snapshot::found_file(others, files[i].0) is Some {
            snapshot_laws::law_found_file_is_an_entry(others, name);
        }
        assert(list.contains(files[i]));
    }
}

/// Whether the differences of the entries that a path is named after lead to one with this
/// change of size.
pub open spec fn shows_change(
    diff: DiffView,
    path: Seq<StepView>,
    old_size: u64,
    new_size: u64,
) -> bool
    decreases path.len(),
{
    if path.len() == 0 {
        diff.size_diff() matches Some(change) && change.old_size == old_size && change.new_size
            == new_size
    } else {
        diff matches DiffView::Directory(dir) && exists|k: int|
            0 <= k < dir.file_diffs.len() && (#[trigger] dir.file_diffs[k]).0 == path[0].shown
                && shows_change(dir.file_diffs[k].1, path.drop_first(), old_size, new_size)
    }
}

/// Whatever path leads to things of different sizes in two snapshots, their difference
/// shows the change there, from the one size to the other.
pub proof fn law_every_changed_size_is_shown(
    old: EntryView,
    new: EntryView,
    path: Seq<StepView>,
)
    requires
        diff::comparable(old, new),
        snapshot::found_at(old, path) matches Some(a) && snapshot::found_at(new, path) matches Some(
            b,
        ) && a.size() != b.size(),
    ensures
        shows_change(
            diff::entry_diff(old, new),
            path,
            snapshot::found_at(old, path)->0.size(),
            snapshot::found_at(new, path)->0.size(),
        ),
        diff::entry_diff(old, new).has_changes(),
    decreases path.len(),
{
    if path.len() > 0 {
        let old_dir = old->Directory_0;
        let new_dir = new->Directory_0;
        let a = old_dir.files;
        let b = new_dir.files;
        let name = path[0].shown;
        let rest = path::path_rest(path);
        snapshot_laws::law_found_file_is_an_entry(a, name);
        let inner = snapshot::found_file(a, name)->0;
        let other = snapshot::found_file(b, name)->0;
        let i = choose|i: int| 0 <= i < a.len() && #[trigger] a[i] == (name, inner);
        diff::lemma_entries_comparable(old_dir, new_dir, i);
        if rest.len() == 0 {
            assert(snapshot::found_at(inner, rest) == Some(inner));
            assert(snapshot::found_at(other, rest) == Some(other));
        }
        law_every_changed_size_is_shown(inner, other, rest);
        let change = diff::entry_diff(inner, other);
        assert(differs_at(a, b, name, change, i));
        law_changed_by_name(old_dir, new_dir, name, change);
        let list = diff::dir_diff(old_dir, new_dir).file_diffs;
        let k = choose|k: int| 0 <= k < list.len() && list[k] == (name, change);
        assert(list[k].0 == path[0].shown);
        assert(path.drop_first() =~= rest);
    }
}

/// Whether the differences of the entries that a path is named after lead to one that
/// lists this entry as new, under the name that the path ends with.
pub open spec fn shows_new(diff: DiffView, path: Seq<StepView>, entry: EntryView) -> bool
    decreases path.len(),
{
    if path.len() == 0 {
        false
    } else if path.len() == 1 {
        diff matches DiffView::Directory(dir) && dir.new_files.contains((path[0].shown, entry))
    } else {
        diff matches DiffView::Directory(dir) && exists|k: int|
            0 <= k < dir.file_diffs.len() && (#[trigger] dir.file_diffs[k]).0 == path[0].shown
                && shows_new(dir.file_diffs[k].1, path.drop_first(), entry)
    }
}

/// Whether the differences of the entries that a path is named after lead to one that
/// lists this entry as deleted, under the name that the path ends with.
pub open spec fn shows_deleted(diff: DiffView, path: Seq<StepView>, entry: EntryView) -> bool
    decreases path.len(),
{
    if path.len() == 0 {
        false
    } else if path.len() == 1 {
        diff matches DiffView::Directory(dir) && dir.deleted_files.contains((path[0].shown, entry))
    } else {
        diff matches DiffView::Directory(dir) && exists|k: int|
            0 <= k < dir.file_diffs.len() && (#[trigger] dir.file_diffs[k]).0 == path[0].shown
                && shows_deleted(dir.file_diffs[k].1, path.drop_first(), entry)
    }
}

/// Whatever stands in a directory that both snapshots have, but only in the new one, their
/// difference shows as new there.
pub proof fn law_everything_new_is_shown(old: EntryView, new: EntryView, path: Seq<StepView>)
    requires
        diff::comparable(old, new),
        path.len() > 0,
        snapshot::found_at(old, path.drop_last()) is Some,
        snapshot::found_at(old, path) is None,
        snapshot::found_at(new, path) is Some,
    ensures
        shows_new(diff::entry_diff(old, new), path, snapshot::found_at(new, path)->0),
        diff::entry_diff(old, new).has_changes(),
    decreases path.len(),
{
    let old_dir = old->Directory_0;
    let new_dir = new->Directory_0;
    let a = old_dir.files;
    let b = new_dir.files;
    let name = path[0].shown;
    let rest = path::path_rest(path);
    assert(new is Directory);
    assert(old is Directory);
    assert(rest.len() == path.len() - 1);
    snapshot_laws::law_found_file_is_an_entry(b, name);
    let other = snapshot::found_file(b, name)->0;
    let j = choose|j: int| 0 <= j < b.len() && #[trigger] b[j] == (name, other);
    if path.len() == 1 {
        assert(snapshot::found_at(new, path) == Some(other));
        snapshot::lemma_file_is_found(a, name);
        law_new_and_deleted_entries(old_dir, new_dir, name, other);
        assert(b.contains((name, other)));
        let list = diff::dir_diff(old_dir, new_dir).new_files;
        let k = choose|k: int| 0 <= k < list.len() && list[k] == (name, other);
        assert(list.len() > 0);
    } else {
        let upto = path.drop_last();
        assert(upto[0] == path[0]);
        assert(path::path_rest(upto) =~= rest.drop_last());
        snapshot_laws::law_found_file_is_an_entry(a, name);
        let inner = snapshot::found_file(a, name)->0;
        let i = choose|i: int| 0 <= i < a.len() && #[trigger] a[i] == (name, inner);
        diff::lemma_entries_comparable(old_dir, new_dir, i);
        if rest.drop_last().len() == 0 {
            assert(snapshot::found_at(inner, rest.drop_last()) == Some(inner));
        }
        law_everything_new_is_shown(inner, other, rest);
        let change = diff::entry_diff(inner, other);
        assert(differs_at(a, b, name, change, i));
        law_changed_by_name(old_dir, new_dir, name, change);
        let list = diff::dir_diff(old_dir, new_dir).file_diffs;
        let k = choose|k: int| 0 <= k < list.len() && list[k] == (name, change);
        assert(list[k].0 == path[0].shown);
        assert(path.drop_first() =~= rest);
    }
}

/// Whatever stands in a directory that both snapshots have, but only in the old one, their
/// difference shows as deleted there.
pub proof fn law_everything_deleted_is_shown(
    old: EntryView,
    new: EntryView,
    path: Seq<StepView>,
)
    requires
        diff::comparable(old, new),
        path.len() > 0,
        snapshot::found_at(new, path.drop_last()) is Some,
        snapshot::found_at(new, path) is None,
        snapshot::found_at(old, path) is Some,
    ensures
        shows_deleted(diff::entry_diff(old, new), path, snapshot::found_at(old, path)->0),
        diff::entry_diff(old, new).has_changes(),
    decreases path.len(),
{
    let old_dir = old->Directory_0;
    let new_dir = new->Directory_0;
    let a = old_dir.files;
    let b = new_dir.files;
    let name = path[0].shown;
    let rest = path::path_rest(path);
    assert(old is Directory);
    assert(new is Directory);
    assert(rest.len() == path.len() - 1);
    snapshot_laws::law_found_file_is_an_entry(a, name);
    let inner = snapshot::found_file(a, name)->0;
    let i = choose|i: int| 0 <= i < a.len() && #[trigger] a[i] == (name, inner);
    if path.len() == 1 {
        assert(snapshot::found_at(old, path) == Some(inner));
        snapshot::lemma_file_is_found(b, name);
        law_new_and_deleted_entries(old_dir, new_dir, name, inner);
        assert(a.contains((name, inner)));
        let list = diff::dir_diff(old_dir, new_dir).deleted_files;
        let k = choose|k: int| 0 <= k < list.len() && list[k] == (name, inner);
        assert(list.len() > 0);
    } else {
        let upto = path.drop_last();
        assert(upto[0] == path[0]);
        assert(path::path_rest(upto) =~= rest.drop_last());
        let other = snapshot::found_file(b, name)->0;
        diff::lemma_entries_comparable(old_dir, new_dir, i);
        if rest.drop_last().len() == 0 {
            assert(snapshot::found_at(other, rest.drop_last()) == Some(other));
        }
        law_everything_deleted_is_shown(inner, other, rest);
        let change = diff::entry_diff(inner, other);
        assert(differs_at(a, b, name, change, i));
        law_changed_by_name(old_dir, new_dir, name, change);
        let list = diff::dir_diff(old_dir, new_dir).file_diffs;
        let k = choose|k: int| 0 <= k < list.len() && list[k] == (name, change);
        assert(list[k].0 == path[0].shown);
        assert(path.drop_first() =~= rest);
    }
}

/// Whether a path leads to two files, to two directories, or nowhere in one of the
/// snapshots.
pub open spec fn same_kind_at(old: EntryView, new: EntryView, path: Seq<StepView>) -> bool {
    match (snapshot::found_at(old, path), snapshot::found_at(new, path)) {
        (Some(a), Some(b)) => a is File <==> b is File,
        _ => true,
    }
}

/// Snapshots that can be compared have the same kind of thing wherever a path leads in
/// both.
pub proof fn law_comparable_means_same_kinds(
    old: EntryView,
    new: EntryView,
    path: Seq<StepView>,
)
    requires
        diff::comparable(old, new),
    ensures
        same_kind_at(old, new, path),
    decreases path.len(),
{
    if path.len() > 0 && old is Directory {
        let a = old->Directory_0.files;
        let name = path[0].shown;
        let rest = path::path_rest(path);
        if snapshot::found_file(a, name) is Some && snapshot::found_file(
            new->Directory_0.files,
            name,
        ) is Some {
            snapshot_laws::law_found_file_is_an_entry(a, name);
            let inner = snapshot::found_file(a, name)->0;
            let other = snapshot::found_file(new->Directory_0.files, name)->0;
            let i = choose|i: int| 0 <= i < a.len() && #[trigger] a[i] == (name, inner);
            diff::lemma_entries_comparable(old->Directory_0, new->Directory_0, i);
            if rest.len() == 0 {
                assert(snapshot::found_at(inner, rest) == Some(inner));
                assert(snapshot::found_at(other, rest) == Some(other));
            }
            law_comparable_means_same_kinds(inner, other, rest);
        }
    }
}

/// Snapshots with the same kind of thing wherever a path leads in both can be compared.
pub proof fn law_same_kinds_mean_comparable(old: EntryView, new: EntryView)
    requires
        distinct_names(old),
        forall|path: Seq<StepView>| #[trigger] same_kind_at(old, new, path),
    ensures
        diff::comparable(old, new),
    decreases old,
{
    assert(same_kind_at(old, new, Seq::empty()));
    match (old, new) {
        (EntryView::Directory(old_dir), EntryView::Directory(new_dir)) => {
            let a = old_dir.files;
            let b = new_dir.files;
            assert forall|i: int|
                #![trigger a[i]]
                0 <= i < a.len() implies match snapshot::found_file(b, a[i].0) {
                Some(entry) => diff::comparable(a[i].1, entry),
                None => true,
            } by {
                if snapshot::found_file(b, a[i].0) is Some {
                    let other = snapshot::found_file(b, a[i].0)->0;
                    lemma_distinct_file_is_found(a, i);
                    assert(decreases_to!(a => a[i]));
                    assert(distinct_names(a[i].1));
                    let step = StepView { root: Seq::empty(), shown: a[i].0, count: 1 };
                    let first = seq![step];
                    assert(path::path_rest(first).len() == 0);
                    assert(snapshot::found_at(old, first) == Some(a[i].1));
                    assert(snapshot::found_at(new, first) == Some(other));
                    assert forall|path: Seq<StepView>| #[trigger]
                        same_kind_at(a[i].1, other, path) by {
                        assert(same_kind_at(old, new, first + path));
                        snapshot_laws::law_paths_compose(old, first, path);
                        snapshot_laws::law_paths_compose(new, first, path);
                    }
                    law_same_kinds_mean_comparable(a[i].1, other);
                }
            }
        },
        _ => {},
    }
}

/// The difference of a file has no levels below it. That of a directory has one more than
/// the deepest of what it lists as changed, new or deleted, and none if it lists nothing.
pub proof fn law_diff_depth_is_that_of_deepest(dir: diff::DirDiffView, change: Option<SizeDiff>)
    ensures
        diff::diff_depth(DiffView::File(change)) == 0,
        ({
            let depth = diff::diff_depth(DiffView::Directory(dir));
            &&& forall|i: int|
                0 <= i < dir.file_diffs.len() ==> diff::diff_depth((#[trigger] dir.file_diffs[i]).1)
                    < depth
            &&& forall|i: int|
                0 <= i < dir.new_files.len() ==> snapshot::entry_depth((
                #[trigger] dir.new_files[i]).1) < depth
            &&& forall|i: int|
                0 <= i < dir.deleted_files.len() ==> snapshot::entry_depth((
                #[trigger] dir.deleted_files[i]).1) < depth
            &&& depth > 0 ==> {
                ||| exists|i: int|
                    0 <= i < dir.file_diffs.len() && 1 + diff::diff_depth((
                    #[trigger] dir.file_diffs[i]).1) == depth
                ||| exists|i: int|
                    0 <= i < dir.new_files.len() && 1 + snapshot::entry_depth((
                    #[trigger] dir.new_files[i]).1) == depth
                ||| exists|i: int|
                    0 <= i < dir.deleted_files.len() && 1 + snapshot::entry_depth((
                    #[trigger] dir.deleted_files[i]).1) == depth
            }
        }),
{
    snapshot_laws::law_depth_is_that_of_deepest(dir.new_files);
    snapshot_laws::law_depth_is_that_of_deepest(dir.deleted_files);
    let diffs = dir.file_diffs;
    assert forall|i: int| 0 <= i < diffs.len() implies 1 + diff::diff_depth(
        (#[trigger] diffs[i]).1,
    ) <= diff::file_diffs_depth(diffs, diffs.len()) by {
        diff::lemma_file_diffs_depth_grows(diffs, (i + 1) as nat, diffs.len());
    }
    lemma_deepest_diff_exists(diffs, diffs.len());
    assert(diff::diff_depth(DiffView::Directory(dir)) == diff::dir_diff_depth(dir));
}

proof fn lemma_deepest_diff_exists(diffs: FileDiffs, n: nat)
    requires
        n <= diffs.len(),
    ensures
        diff::file_diffs_depth(diffs, n) > 0 ==> exists|i: int|
            0 <= i < n && 1 + diff::diff_depth((#[trigger] diffs[i]).1) == diff::file_diffs_depth(
                diffs,
                n,
            ),
    decreases n,
{
    if n > 0 {
        lemma_deepest_diff_exists(diffs, (n - 1) as nat);
        let before = diff::file_diffs_depth(diffs, (n - 1) as nat);
        if before >= 1 + diff::diff_depth(diffs[n - 1].1) {
            let i = choose|i: int|
                0 <= i < n - 1 && 1 + diff::diff_depth((#[trigger] diffs[i]).1) == before;
            assert(1 + diff::diff_depth(diffs[i].1) == diff::file_diffs_depth(diffs, n));
        } else {
            assert(1 + diff::diff_depth(diffs[n - 1].1) == diff::file_diffs_depth(diffs, n));
        }
    }
}

/// A difference has changes exactly when a size changed or something is listed.
pub proof fn law_changes_are_sizes_or_entries(dir: diff::DirDiffView, change: Option<SizeDiff>)
    ensures
        DiffView::File(change).has_changes() <==> change is Some,
        DiffView::File(change).size_diff() == change,
        DiffView::Directory(dir).size_diff() == dir.size_diff,
        DiffView::Directory(dir).has_changes() <==> dir.size_diff is Some || dir.file_diffs.len()
            > 0 || dir.new_files.len() > 0 || dir.deleted_files.len() > 0,
        dir.has_changes() == DiffView::Directory(dir).has_changes(),
{
}

/// Where no directory lists a name twice, the difference of two lists none twice either:
/// not among the changed, the new or the deleted, nor in two of these.
pub proof fn law_no_name_is_listed_twice(old: DirView, new: DirView, i: int, j: int)
    requires
        distinct_names(EntryView::Directory(old)),
        distinct_names(EntryView::Directory(new)),
    ensures
        ({
            let changes = diff::dir_diff(old, new);
            &&& 0 <= i < j < changes.file_diffs.len() ==> changes.file_diffs[i].0
                != changes.file_diffs[j].0
            &&& 0 <= i < j < changes.new_files.len() ==> changes.new_files[i].0
                != changes.new_files[j].0
            &&& 0 <= i < j < changes.deleted_files.len() ==> changes.deleted_files[i].0
                != changes.deleted_files[j].0
            &&& 0 <= i < changes.file_diffs.len() && 0 <= j < changes.new_files.len()
                ==> changes.file_diffs[i].0 != changes.new_files[j].0
            &&& 0 <= i < changes.file_diffs.len() && 0 <= j < changes.deleted_files.len()
                ==> changes.file_diffs[i].0 != changes.deleted_files[j].0
            &&& 0 <= i < changes.new_files.len() && 0 <= j < changes.deleted_files.len()
                ==> changes.new_files[i].0 != changes.deleted_files[j].0
        }),
{
    let changes = diff::dir_diff(old, new);
    lemma_names_differ(old);
    lemma_names_differ(new);
    assert(old.files.take(old.files.len() as int) =~= old.files);
    assert(new.files.take(new.files.len() as int) =~= new.files);
    lemma_changed_once(old.files, new.files, old.files.len());
    lemma_only_in_once(new.files, old.files, new.files);
    lemma_only_in_once(old.files, new.files, old.files);
    lemma_only_in(new.files, old.files);
    lemma_only_in(old.files, new.files);
    if 0 <= i < changes.file_diffs.len() {
        lemma_changed_is_a_diff(old.files, new.files, old.files.len(), i);
        let k = choose|k: int|
            0 <= k < old.files.len() && snapshot::found_file(
                new.files,
                (#[trigger] old.files[k]).0,
            ) is Some && changes.file_diffs[i].0 == old.files[k].0;
        lemma_distinct_file_is_found(old.files, k);
        if 0 <= j < changes.new_files.len() {
            assert(snapshot::found_file(old.files, changes.new_files[j].0) is None);
        }
        if 0 <= j < changes.deleted_files.len() {
            assert(snapshot::found_file(new.files, changes.deleted_files[j].0) is None);
        }
    }
    if 0 <= i < changes.new_files.len() && 0 <= j < changes.deleted_files.len() {
        assert(snapshot::found_file(old.files, changes.new_files[i].0) is None);
        assert(old.files.contains(changes.deleted_files[j]));
        let k = choose|k: int|
            0 <= k < old.files.len() && old.files[k] == changes.deleted_files[j];
        lemma_distinct_file_is_found(old.files, k);
    }
}

/// What distinct names are in one directory.
proof fn lemma_names_differ(dir: DirView)
    requires
        distinct_names(EntryView::Directory(dir)),
    ensures
        forall|j: int, k: int|
            0 <= j < k < dir.files.len() ==> (#[trigger] dir.files[j]).0 != (
            #[trigger] dir.files[k]).0,
{
    let entry = EntryView::Directory(dir);
    assert forall|j: int, k: int| 0 <= j < k < dir.files.len() implies (
    #[trigger] dir.files[j]).0 != (#[trigger] dir.files[k]).0 by {
        assert(entry->Directory_0.files[j].0 != entry->Directory_0.files[k].0);
    }
}

proof fn lemma_changed_once(old: Files, new: Files, n: nat)
    requires
        n <= old.len(),
        forall|j: int, k: int|
            0 <= j < k < old.len() ==> (#[trigger] old[j]).0 != (#[trigger] old[k]).0,
    ensures
        forall|i: int, j: int|
            0 <= i < j < diff::changed_files(old, new, n).len() ==> (
            #[trigger] diff::changed_files(old, new, n)[i]).0 != (
            #[trigger] diff::changed_files(old, new, n)[j]).0,
    decreases n,
{
    if n > 0 {
        lemma_changed_once(old, new, (n - 1) as nat);
        let before = diff::changed_files(old, new, (n - 1) as nat);
        assert forall|i: int| 0 <= i < before.len() implies (#[trigger] before[i]).0 != old[n
            - 1].0 by {
            lemma_changed_is_a_diff(old, new, (n - 1) as nat, i);
            let k = choose|k: int|
                0 <= k < n - 1 && snapshot::found_file(new, (#[trigger] old[k]).0) is Some
                    && before[i].0 == old[k].0;
            assert(old[k].0 != old[n - 1].0);
        }
        let all = diff::changed_files(old, new, n);
        assert forall|i: int, j: int| 0 <= i < j < all.len() implies (#[trigger] all[i]).0 != (
        #[trigger] all[j]).0 by {
            assert(all[i] == before[i]);
            if j < before.len() {
                assert(all[j] == before[j]);
                assert(before[i].0 != before[j].0);
            }
        }
    }
}

proof fn lemma_only_in_once(files: Files, others: Files, all: Files)
    requires
        files.len() <= all.len(),
        files == all.take(files.len() as int),
        forall|j: int, k: int|
            0 <= j < k < all.len() ==> (#[trigger] all[j]).0 != (#[trigger] all[k]).0,
    ensures
        forall|i: int, j: int|
            0 <= i < j < diff::only_in(files, others).len() ==> (
            #[trigger] diff::only_in(files, others)[i]).0 != (
            #[trigger] diff::only_in(files, others)[j]).0,
    decreases files.len(),
{
    reveal(Seq::filter);
    if files.len() > 0 {
        let init = files.drop_last();
        assert(init =~= all.take(files.len() - 1));
        lemma_only_in_once(init, others, all);
        let before = diff::only_in(init, others);
        lemma_only_in(init, others);
        let last = files.last();
        assert forall|i: int| 0 <= i < before.len() implies (#[trigger] before[i]).0
            != last.0 by {
            assert(init.contains(before[i]));
            let k = choose|k: int| 0 <= k < init.len() && init[k] == before[i];
            assert(all[k].0 != all[files.len() - 1].0);
        }
    }
}

/// What is new, what is deleted and what changed is listed in the order in which it stands
/// in the directories.
pub proof fn law_lists_keep_order(old: DirView, new: DirView, k: int, l: int)
    requires
        0 <= k < l,
    ensures
        l < diff::dir_diff(old, new).new_files.len() ==> exists|i: int, j: int|
            0 <= i < j < new.files.len() && #[trigger] new.files[i] == diff::dir_diff(
                old,
                new,
            ).new_files[k] && #[trigger] new.files[j] == diff::dir_diff(old, new).new_files[l],
        l < diff::dir_diff(old, new).deleted_files.len() ==> exists|i: int, j: int|
            0 <= i < j < old.files.len() && #[trigger] old.files[i] == diff::dir_diff(
                old,
                new,
            ).deleted_files[k] && #[trigger] old.files[j] == diff::dir_diff(
                old,
                new,
            ).deleted_files[l],
        l < diff::dir_diff(old, new).file_diffs.len() ==> exists|i: int, j: int|
            0 <= i < j < old.files.len() && (#[trigger] old.files[i]).0 == diff::dir_diff(
                old,
                new,
            ).file_diffs[k].0 && (#[trigger] old.files[j]).0 == diff::dir_diff(
                old,
                new,
            ).file_diffs[l].0,
{
    if l < diff::dir_diff(old, new).new_files.len() {
        lemma_filter_keeps_order(new.files, diff::absent_from(old.files), k, l);
    }
    if l < diff::dir_diff(old, new).deleted_files.len() {
        lemma_filter_keeps_order(old.files, diff::absent_from(new.files), k, l);
    }
    if l < diff::dir_diff(old, new).file_diffs.len() {
        lemma_changed_keep_order(old.files, new.files, old.files.len(), k, l);
    }
}

proof fn lemma_filter_keeps_order(
    files: Files,
    keep: spec_fn((Seq<char>, EntryView)) -> bool,
    k: int,
    l: int,
)
    requires
        0 <= k < l < files.filter(keep).len(),
    ensures
        exists|i: int, j: int|
            0 <= i < j < files.len() && #[trigger] files[i] == files.filter(keep)[k]
                && #[trigger] files[j] == files.filter(keep)[l],
    decreases files.len(),
{
    reveal(Seq::filter);
    let list = files.filter(keep);
    let first = files.drop_last();
    let before = first.filter(keep);
    if l < before.len() {
        lemma_filter_keeps_order(first, keep, k, l);
        let (i, j) = choose|i: int, j: int|
            0 <= i < j < first.len() && #[trigger] first[i] == before[k] && #[trigger] first[j]
                == before[l];
        assert(files[i] == list[k] && files[j] == list[l]);
    } else {
        first.lemma_filter_contains_rev(keep, before[k]);
        let i = choose|i: int| 0 <= i < first.len() && first[i] == before[k];
        let j = files.len() - 1;
        assert(files[i] == list[k] && files[j] == list[l]);
    }
}

proof fn lemma_changed_keep_order(old: Files, new: Files, n: nat, k: int, l: int)
    requires
        n <= old.len(),
        0 <= k < l < diff::changed_files(old, new, n).len(),
    ensures
        exists|i: int, j: int|
            0 <= i < j < n && (#[trigger] old[i]).0 == diff::changed_files(old, new, n)[k].0 && (
            #[trigger] old[j]).0 == diff::changed_files(old, new, n)[l].0,
    decreases n,
{
    let list = diff::changed_files(old, new, n);
    let m = (n - 1) as nat;
    let before = diff::changed_files(old, new, m);
    if l < before.len() {
        lemma_changed_keep_order(old, new, m, k, l);
        let (i, j) = choose|i: int, j: int|
            0 <= i < j < m && (#[trigger] old[i]).0 == before[k].0 && (#[trigger] old[j]).0
                == before[l].0;
        assert(old[i].0 == list[k].0 && old[j].0 == list[l].0);
    } else {
        let (name, change) = before[k];
        lemma_changed_by_name(old, new, m, name, change);
        assert(before.contains((name, change)));
        let i = choose|i: int| i < m && differs_at(old, new, name, change, i);
        assert(old[i].0 == list[k].0 && old[n - 1].0 == list[l].0);
    }
}

} // verus!
