//! Laws of snapshots: paths into them, and how deep they are.
use vstd::prelude::*;

use crate::diff_laws;
use crate::diff_laws::lemma_distinct_file_is_found;
use crate::path;
use crate::path::StepView;
use crate::snapshot;
use crate::snapshot::{EntryView, Files};

verus! {

/// What stands at a path of two parts stands at the second part below what stands at
/// the first.
pub proof fn law_paths_compose(
    entry: EntryView,
    first: Seq<StepView>,
    second: Seq<StepView>,
)
    ensures
        snapshot::found_at(entry, first + second) == match snapshot::found_at(entry, first) {
            Some(inner) => snapshot::found_at(inner, second),
            None => None,
        },
    decreases first.len(),
{
    let whole = first + second;
    if first.len() == 0 {
        assert(whole =~= second);
    } else {
        match entry {
            EntryView::File(_) => {},
            EntryView::Directory(dir) => {
                assert(whole[0] == first[0]);
                let rest = path::path_rest(first);
                assert(path::path_rest(whole) =~= rest + second);
                match snapshot::found_file(dir.files, snapshot::root_name(whole)) {
                    None => {},
                    Some(inner) => {
                        law_paths_compose(inner, rest, second);
                        if rest.len() == 0 {
                            assert(rest + second =~= second);
                        }
                    },
                }
            },
        }
    }
}

/// What can be found in a directory is one of its entries.
pub proof fn law_found_file_is_an_entry(files: Files, name: Seq<char>)
    ensures
        snapshot::found_file(files, name) matches Some(entry) ==> exists|i: int|
            0 <= i < files.len() && #[trigger] files[i] == (name, entry),
{
    if snapshot::found_file(files, name) is Some {
        let k = choose|k: int| snapshot::is_file_index(files, name, k);
        assert(snapshot::is_file_index(files, name, k));
        assert(files[k] == (name, files[k].1));
    }
}

/// The depth of a directory is one more than that of its deepest entry, and is 0 if it
/// has none.
pub proof fn law_depth_is_that_of_deepest(files: Files)
    ensures
        forall|i: int|
            0 <= i < files.len() ==> 1 + snapshot::entry_depth((#[trigger] files[i]).1)
                <= snapshot::files_depth(files, files.len()),
        files.len() == 0 ==> snapshot::files_depth(files, files.len()) == 0,
        files.len() > 0 ==> exists|i: int|
            0 <= i < files.len() && 1 + snapshot::entry_depth((#[trigger] files[i]).1)
                == snapshot::files_depth(files, files.len()),
{
    assert forall|i: int| 0 <= i < files.len() implies 1 + snapshot::entry_depth(
        (#[trigger] files[i]).1,
    ) <= snapshot::files_depth(files, files.len()) by {
        snapshot::lemma_files_depth_grows(files, (i + 1) as nat, files.len());
    }
    if files.len() > 0 {
        lemma_deepest_exists(files, files.len());
    }
}

proof fn lemma_deepest_exists(files: Files, n: nat)
    requires
        0 < n <= files.len(),
    ensures
        exists|i: int|
            0 <= i < n && 1 + snapshot::entry_depth((#[trigger] files[i]).1)
                == snapshot::files_depth(files, n),
    decreases n,
{
    let here = 1 + snapshot::entry_depth(files[n - 1].1);
    let before = snapshot::files_depth(files, (n - 1) as nat);
    if before < here || n == 1 {
        assert(snapshot::files_depth(files, n) == here);
    } else {
        lemma_deepest_exists(files, (n - 1) as nat);
        let i = choose|i: int|
            0 <= i < n - 1 && 1 + snapshot::entry_depth((#[trigger] files[i]).1) == before;
        assert(1 + snapshot::entry_depth(files[i].1) == snapshot::files_depth(files, n));
    }
}

/// No path with more components than a snapshot is deep leads anywhere in it.
pub proof fn law_paths_end_at_depth(entry: EntryView, path: Seq<StepView>)
    ensures
        snapshot::found_at(entry, path) matches Some(inner) ==> path.len()
            + snapshot::entry_depth(inner) <= snapshot::entry_depth(entry),
    decreases path.len(),
{
    if path.len() > 0 {
        match entry {
            EntryView::File(_) => {},
            EntryView::Directory(dir) => {
                let name = snapshot::root_name(path);
                match snapshot::found_file(dir.files, name) {
                    None => {},
                    Some(inner) => {
                        law_found_file_is_an_entry(dir.files, name);
                        law_depth_is_that_of_deepest(dir.files);
                        law_paths_end_at_depth(inner, path::path_rest(path));
                    },
                }
            },
        }
    }
}

/// Some path of as many steps as a snapshot is deep leads to something in it, where no
/// directory lists a name twice.
pub proof fn law_some_path_is_as_long_as_depth(entry: EntryView) -> (path: Seq<StepView>)
    requires
        diff_laws::distinct_names(entry),
    ensures
        path.len() == snapshot::entry_depth(entry),
        snapshot::found_at(entry, path) is Some,
    decreases entry,
{
    match entry {
        EntryView::File(_) => Seq::empty(),
        EntryView::Directory(dir) => {
            let files = dir.files;
            if files.len() == 0 {
                Seq::empty()
            } else {
                law_depth_is_that_of_deepest(files);
                let i = choose|i: int|
                    0 <= i < files.len() && 1 + snapshot::entry_depth((#[trigger] files[i]).1)
                        == snapshot::files_depth(files, files.len());
                assert(decreases_to!(files => files[i]));
                assert(diff_laws::distinct_names(files[i].1));
                let rest = law_some_path_is_as_long_as_depth(files[i].1);
                let step = StepView {
                    root: Seq::empty(),
                    shown: files[i].0,
                    count: rest.len() + 1,
                };
                let first = seq![step];
                lemma_distinct_file_is_found(files, i);
                assert(path::path_rest(first).len() == 0);
                assert(snapshot::found_at(entry, first) == Some(files[i].1));
                law_paths_compose(entry, first, rest);
                first + rest
            }
        },
    }
}

/// A snapshot that is limited to a depth is no deeper than that, as large as it was, and
/// the same as it was if it was no deeper.
pub proof fn law_limited_snapshot(entry: EntryView, depth: nat)
    ensures
        snapshot::entry_depth(snapshot::limited(entry, depth)) <= depth,
        snapshot::limited(entry, depth).size() == entry.size(),
        snapshot::entry_depth(entry) <= depth ==> snapshot::limited(entry, depth) == entry,
    decreases depth,
{
    match entry {
        EntryView::File(_) => {},
        EntryView::Directory(dir) => {
            let after = snapshot::limited(entry, depth)->Directory_0.files;
            law_depth_is_that_of_deepest(dir.files);
            law_depth_is_that_of_deepest(after);
            if depth > 0 {
                assert forall|i: int| 0 <= i < dir.files.len() implies 1
                    + snapshot::entry_depth((#[trigger] after[i]).1) <= depth && (
                snapshot::entry_depth(entry) <= depth ==> after[i] == dir.files[i]) by {
                    assert(1 + snapshot::entry_depth(dir.files[i].1) <= snapshot::files_depth(
                        dir.files,
                        dir.files.len(),
                    ));
                    law_limited_snapshot(dir.files[i].1, (depth - 1) as nat);
                }
            }
            if snapshot::entry_depth(entry) <= depth {
                assert(after =~= dir.files);
            }
        },
    }
}

/// A name finds the first entry that is called so.
pub proof fn law_name_finds_first_entry(files: Files, name: Seq<char>, i: int)
    requires
        0 <= i < files.len(),
        files[i].0 == name,
        forall|j: int| 0 <= j < i ==> (#[trigger] files[j]).0 != name,
    ensures
        snapshot::found_file(files, name) == Some(files[i].1),
{
    assert(snapshot::is_file_index(files, name, i));
    snapshot::lemma_found_file(files, name, i);
}

/// A name that no entry has finds nothing.
pub proof fn law_unknown_name_finds_nothing(files: Files, name: Seq<char>)
    requires
        forall|j: int| 0 <= j < files.len() ==> (#[trigger] files[j]).0 != name,
    ensures
        snapshot::found_file(files, name) is None,
{
    if snapshot::found_file(files, name) is Some {
        law_found_file_is_an_entry(files, name);
    }
}

/// A path leads from an entry to itself without steps, from a file nowhere with any, and
/// from a directory to where the other steps lead from the entry that the first is named
/// after.
pub proof fn law_path_leads_from_name_to_name(
    entry: EntryView,
    first: StepView,
    rest: Seq<StepView>,
)
    ensures
        snapshot::found_at(entry, Seq::empty()) == Some(entry),
        entry is File ==> snapshot::found_at(entry, seq![first] + rest) is None,
        entry is Directory ==> snapshot::found_at(entry, seq![first] + rest)
            == match snapshot::found_file(entry->Directory_0.files, first.shown) {
            Some(inner) => snapshot::found_at(inner, rest),
            None => None,
        },
{
    assert(path::path_rest(seq![first] + rest) =~= rest);
}

/// In the entries of a directory a path leads to where the other steps lead from the entry
/// that the first is named after. Without steps it leads to the entry without a name.
pub proof fn law_path_leads_into_directory(
    files: Files,
    first: StepView,
    rest: Seq<StepView>,
)
    ensures
        snapshot::found_in(files, seq![first] + rest) == match snapshot::found_file(
            files,
            first.shown,
        ) {
            Some(inner) => snapshot::found_at(inner, rest),
            None => None,
        },
        snapshot::found_in(files, Seq::empty()) == snapshot::found_file(files, Seq::empty()),
{
    assert(path::path_rest(seq![first] + rest) =~= rest);
    assert(path::path_rest(Seq::empty()) =~= Seq::empty());
}

/// An entry is as large as what it holds says, and as deep as its entries are; a file has
/// nothing below it.
pub proof fn law_size_and_depth(file: snapshot::FileSnapshot, dir: snapshot::DirView)
    ensures
        EntryView::File(file).size() == file.size,
        EntryView::Directory(dir).size() == dir.size,
        snapshot::entry_depth(EntryView::File(file)) == 0,
        forall|i: int|
            0 <= i < dir.files.len() ==> snapshot::entry_depth((#[trigger] dir.files[i]).1)
                < snapshot::entry_depth(EntryView::Directory(dir)),
        snapshot::entry_depth(EntryView::Directory(dir)) > 0 ==> exists|i: int|
            0 <= i < dir.files.len() && 1 + snapshot::entry_depth((#[trigger] dir.files[i]).1)
                == snapshot::entry_depth(EntryView::Directory(dir)),
{
    law_depth_is_that_of_deepest(dir.files);
}

/// In a snapshot that is limited to a depth, the paths with no more steps lead to what they
/// did, of the same size and limited to what is left of the depth. Longer ones lead
/// nowhere.
pub proof fn law_limited_snapshot_keeps_short_paths(
    entry: EntryView,
    depth: nat,
    path: Seq<StepView>,
)
    ensures
        path.len() > depth ==> snapshot::found_at(snapshot::limited(entry, depth), path) is None,
        path.len() <= depth ==> match snapshot::found_at(entry, path) {
            None => snapshot::found_at(snapshot::limited(entry, depth), path) is None,
            Some(inner) => {
                &&& snapshot::found_at(snapshot::limited(entry, depth), path) matches Some(kept)
                &&& kept == snapshot::limited(inner, (depth - path.len()) as nat)
                &&& kept.size() == inner.size()
                &&& kept is File <==> inner is File
            },
        },
    decreases path.len(),
{
    let after = snapshot::limited(entry, depth);
    if path.len() > 0 {
        match entry {
            EntryView::File(_) => {},
            EntryView::Directory(dir) => {
                let name = path[0].shown;
                let rest = path::path_rest(path);
                let kept = after->Directory_0.files;
                if depth == 0 {
                    law_unknown_name_finds_nothing(kept, name);
                } else {
                    let below = (depth - 1) as nat;
                    match snapshot::found_file(dir.files, name) {
                        None => {
                            snapshot::lemma_file_is_found(dir.files, name);
                            assert forall|j: int| 0 <= j < kept.len() implies (
                            #[trigger] kept[j]).0 != name by {
                                assert(dir.files[j].0 == kept[j].0);
                            }
                            law_unknown_name_finds_nothing(kept, name);
                        },
                        Some(inner) => {
                            let i = choose|i: int| snapshot::is_file_index(dir.files, name, i);
                            assert(snapshot::is_file_index(dir.files, name, i));
                            assert forall|j: int| 0 <= j < i implies (#[trigger] kept[j]).0
                                != name by {
                                assert(dir.files[j].0 == kept[j].0);
                            }
                            law_name_finds_first_entry(kept, name, i);
                            law_limited_snapshot_keeps_short_paths(inner, below, rest);
                        },
                    }
                }
            },
        }
    }
}

/// A number of levels is told exactly when `u32` can count it.
pub proof fn law_levels_are_counted(levels: nat)
    ensures
        levels <= u32::MAX ==> (snapshot::counted(levels) matches Some(count) && count == levels),
        levels > u32::MAX ==> snapshot::counted(levels) is None,
{
}

/// A snapshot that is limited to a depth has the same entries in the same places, each
/// limited to one level less. To no depth, it has none.
pub proof fn law_limited_snapshot_keeps_places(dir: snapshot::DirView, depth: nat, i: int)
    ensures
        ({
            let after = snapshot::limited(EntryView::Directory(dir), depth);
            &&& after matches EntryView::Directory(kept)
            &&& kept.size == dir.size
            &&& depth == 0 ==> kept.files.len() == 0
            &&& depth > 0 ==> kept.files.len() == dir.files.len() && (0 <= i < dir.files.len()
                ==> kept.files[i] == (
                dir.files[i].0,
                snapshot::limited(dir.files[i].1, (depth - 1) as nat),
            ))
        }),
{
}

} // verus!
