//! Laws of taking snapshots: what is counted, and what is recorded.
use vstd::prelude::*;

use crate::path;
use crate::path::{ComponentKind, ComponentView, NameView, StepView};
use crate::path_laws;
use crate::rule_model;
use crate::rule_model::RuleTable;
use crate::scan;
use crate::scan::{
    MessageView, RawContentView, RawDirView, RawEntryView, ScanError, ScanErrorView, ScanView,
};
use crate::snapshot;
use crate::snapshot::{DirSnapshot, DirView, EntryView, FileSnapshot, Files};
use crate::snapshot_laws::{
    law_name_finds_first_entry, law_path_leads_from_name_to_name, law_unknown_name_finds_nothing,
};

verus! {

/// How many bytes the files in the first `n` entries of a directory, and in the
/// directories below those, hold.
pub open spec fn bytes_below(dir: RawDirView, n: nat) -> nat
    decreases dir, n,
{
    if n == 0 || n > dir.entries.len() {
        0
    } else {
        bytes_below(dir, (n - 1) as nat) + content_bytes(dir.entries[n - 1].content)
    }
}

/// How many bytes the files in an entry of a directory hold.
pub open spec fn content_bytes(content: RawContentView) -> nat
    decreases content, 0nat,
{
    match content {
        RawContentView::File(len) => len as nat,
        RawContentView::Directory(dir) => bytes_below(dir, dir.entries.len()),
        RawContentView::Other => 0,
    }
}

/// Whether a directory, and every directory below it, was read without a failure.
pub open spec fn read_without_failure(dir: RawDirView) -> bool
    decreases dir,
{
    &&& dir.failure is None
    &&& forall|i: int|
        #![trigger dir.entries[i]]
        0 <= i < dir.entries.len() ==> match dir.entries[i].content {
            RawContentView::Directory(inner) => read_without_failure(inner),
            _ => true,
        }
}

/// The bytes of the first entries are no more than those of all.
proof fn lemma_bytes_grow(dir: RawDirView, m: nat, n: nat)
    requires
        m <= n <= dir.entries.len(),
    ensures
        bytes_below(dir, m) <= bytes_below(dir, n),
    decreases n - m,
{
    if m < n {
        lemma_bytes_grow(dir, m, (n - 1) as nat);
    }
}

/// The size of a directory that was read without a failure is the number of bytes that the
/// files below it hold.
pub proof fn law_size_is_bytes(dir: RawDirView)
    requires
        read_without_failure(dir),
        bytes_below(dir, dir.entries.len()) <= u64::MAX,
    ensures
        scan::total_size(dir) == Ok::<u64, ScanErrorView>(
            bytes_below(dir, dir.entries.len()) as u64,
        ),
    decreases dir, dir.entries.len() + 1,
{
    lemma_size_is_bytes_of(dir, dir.entries.len());
}

proof fn lemma_size_is_bytes_of(dir: RawDirView, n: nat)
    requires
        n <= dir.entries.len(),
        read_without_failure(dir),
        bytes_below(dir, dir.entries.len()) <= u64::MAX,
    ensures
        scan::total_size_of(dir, n) == Ok::<u64, ScanErrorView>(bytes_below(dir, n) as u64),
    decreases dir, n,
{
    if n > 0 {
        lemma_size_is_bytes_of(dir, (n - 1) as nat);
        lemma_bytes_grow(dir, n, dir.entries.len());
        lemma_content_size_is_bytes(dir, n - 1);
    }
}

proof fn lemma_content_size_is_bytes(dir: RawDirView, i: int)
    requires
        0 <= i < dir.entries.len(),
        read_without_failure(dir),
        bytes_below(dir, dir.entries.len()) <= u64::MAX,
    ensures
        scan::content_size(dir.entries[i].content) == Ok::<u64, ScanErrorView>(
            content_bytes(dir.entries[i].content) as u64,
        ),
        content_bytes(dir.entries[i].content) <= bytes_below(dir, dir.entries.len()),
    decreases dir, 0nat,
{
    lemma_bytes_grow(dir, (i + 1) as nat, dir.entries.len());
    let entry = dir.entries[i];
    assert(content_bytes(entry.content) <= bytes_below(dir, (i + 1) as nat));
    match entry.content {
        RawContentView::Directory(inner) => {
            assert(decreases_to!(dir.entries => dir.entries[i]));
            assert(read_without_failure(inner));
            law_size_is_bytes(inner);
        },
        _ => {},
    }
}

/// A snapshot of a directory that was read without a failure succeeds, tells of no error,
/// and is as large as the files below it together, whatever the rules record of them.
pub proof fn law_snapshot_size_is_bytes(
    dir: RawDirView,
    rules: RuleTable,
    prefix: Seq<ComponentView>,
)
    requires
        read_without_failure(dir),
        bytes_below(dir, dir.entries.len()) <= u64::MAX,
    ensures
        scan::scanned(dir, rules, prefix).outcome matches Ok(snapshot) && snapshot.size
            == bytes_below(dir, dir.entries.len()),
        forall|k: int|
            0 <= k < scan::scanned(dir, rules, prefix).messages.len() ==> (
            #[trigger] scan::scanned(dir, rules, prefix).messages[k]) is Trace,
    decreases dir, dir.entries.len() + 1,
{
    lemma_snapshot_size_is_bytes_of(dir, rules, prefix, dir.entries.len());
}

proof fn lemma_snapshot_size_is_bytes_of(
    dir: RawDirView,
    rules: RuleTable,
    prefix: Seq<ComponentView>,
    n: nat,
)
    requires
        n <= dir.entries.len(),
        read_without_failure(dir),
        bytes_below(dir, dir.entries.len()) <= u64::MAX,
    ensures
        scan::scanned_up_to(dir, rules, prefix, n).outcome matches Ok(snapshot) && snapshot.size
            == bytes_below(dir, n),
        forall|k: int|
            0 <= k < scan::scanned_up_to(dir, rules, prefix, n).messages.len() ==> (
            #[trigger] scan::scanned_up_to(dir, rules, prefix, n).messages[k]) is Trace,
    decreases dir, n,
{
    if n > 0 {
        let i = n - 1;
        lemma_snapshot_size_is_bytes_of(dir, rules, prefix, (n - 1) as nat);
        lemma_bytes_grow(dir, n, dir.entries.len());
        lemma_content_size_is_bytes(dir, i);
        let before = scan::scanned_up_to(dir, rules, prefix, (n - 1) as nat);
        let so_far = before.outcome->Ok_0;
        let entry = dir.entries[i];
        let path = prefix.push(scan::entry_component(entry.name));
        let taken = scan::scanned_entry(so_far, entry, rules, prefix);
        match entry.content {
            RawContentView::Directory(inner) => {
                assert(decreases_to!(dir.entries => dir.entries[i]));
                assert(read_without_failure(inner));
                law_snapshot_size_is_bytes(inner, rules, path);
            },
            _ => {},
        }
        assert(taken.outcome is Ok);
        assert forall|k: int| 0 <= k < taken.messages.len() implies (
        #[trigger] taken.messages[k]) is Trace by {}
        let all = scan::scanned_up_to(dir, rules, prefix, n).messages;
        assert(all == before.messages + taken.messages);
        assert forall|k: int| 0 <= k < all.len() implies (#[trigger] all[k]) is Trace by {
            if k < before.messages.len() {
                assert(all[k] == before.messages[k]);
            } else {
                assert(all[k] == taken.messages[k - before.messages.len()]);
            }
        }
    }
}

/// Rules do not change how large a directory is found to be, only what of it is recorded.
pub proof fn law_rules_do_not_change_size(
    dir: RawDirView,
    rules: RuleTable,
    other_rules: RuleTable,
    prefix: Seq<ComponentView>,
)
    requires
        read_without_failure(dir),
        bytes_below(dir, dir.entries.len()) <= u64::MAX,
    ensures
        match (
            scan::scanned(dir, rules, prefix).outcome,
            scan::scanned(dir, other_rules, prefix).outcome,
        ) {
            (Ok(a), Ok(b)) => a.size == b.size,
            _ => false,
        },
{
    law_snapshot_size_is_bytes(dir, rules, prefix);
    law_snapshot_size_is_bytes(dir, other_rules, prefix);
}

/// What is recorded of an entry of a directory: nothing unless the rules grant it
/// anything; of a file its size; of a directory what comes of recording it, if that
/// succeeds.
pub open spec fn recorded(
    entry: RawEntryView,
    rules: RuleTable,
    prefix: Seq<ComponentView>,
) -> Option<EntryView> {
    let path = prefix.push(scan::entry_component(entry.name));
    match (rule_model::table_grants(rules, path::plain_steps(path)), entry.content) {
        (None, _) => None,
        (Some(_), RawContentView::File(size)) => Some(EntryView::File(FileSnapshot { size })),
        (Some(_), RawContentView::Directory(dir)) => match scan::scanned(dir, rules, path).outcome {
            Ok(snapshot) => Some(EntryView::Directory(snapshot)),
            Err(_) => None,
        },
        (Some(_), RawContentView::Other) => None,
    }
}

/// What is recorded of the first `n` entries of a directory.
pub open spec fn recorded_files(
    dir: RawDirView,
    rules: RuleTable,
    prefix: Seq<ComponentView>,
    n: nat,
) -> Files
    decreases n,
{
    if n == 0 || n > dir.entries.len() {
        Seq::empty()
    } else {
        let before = recorded_files(dir, rules, prefix, (n - 1) as nat);
        let entry = dir.entries[n - 1];
        match recorded(entry, rules, prefix) {
            Some(file) => before.push((entry.name.shown(), file)),
            None => before,
        }
    }
}

/// A snapshot of a directory holds what is recorded of its entries, and nothing else, in
/// the order in which they were read.
pub proof fn law_snapshot_holds_recorded_entries(
    dir: RawDirView,
    rules: RuleTable,
    prefix: Seq<ComponentView>,
)
    ensures
        scan::scanned(dir, rules, prefix).outcome matches Ok(snapshot) ==> snapshot.files
            == recorded_files(dir, rules, prefix, dir.entries.len()),
{
    lemma_recorded_up_to(dir, rules, prefix, dir.entries.len());
}

proof fn lemma_recorded_up_to(
    dir: RawDirView,
    rules: RuleTable,
    prefix: Seq<ComponentView>,
    n: nat,
)
    requires
        n <= dir.entries.len(),
    ensures
        scan::scanned_up_to(dir, rules, prefix, n).outcome matches Ok(snapshot) ==> snapshot.files
            == recorded_files(dir, rules, prefix, n),
    decreases n,
{
    if n > 0 {
        lemma_recorded_up_to(dir, rules, prefix, (n - 1) as nat);
        let before = scan::scanned_up_to(dir, rules, prefix, (n - 1) as nat);
        if before.outcome is Ok {
            let taken = scan::scanned_entry(
                before.outcome->Ok_0,
                dir.entries[n - 1],
                rules,
                prefix,
            );
            assert(scan::scanned_up_to(dir, rules, prefix, n).outcome == taken.outcome);
        }
    }
}

/// An entry that the rules grant nothing is not recorded, nor is one that is neither a
/// file nor a directory; a file that they grant anything is.
pub proof fn law_rules_decide_what_is_recorded(
    entry: RawEntryView,
    rules: RuleTable,
    prefix: Seq<ComponentView>,
)
    ensures
        ({
            let granted = rule_model::table_grants(
                rules,
                path::plain_steps(prefix.push(scan::entry_component(entry.name))),
            );
            &&& recorded(entry, rules, prefix) is Some ==> granted is Some && !(
            entry.content is Other)
            &&& granted is Some && entry.content is File ==> recorded(entry, rules, prefix) is Some
        }),
{
}

/// Where everything was read without a failure, every directory that the rules grant
/// anything is recorded too.
pub proof fn law_readable_directories_are_recorded(
    dir: RawDirView,
    rules: RuleTable,
    prefix: Seq<ComponentView>,
    i: int,
)
    requires
        read_without_failure(dir),
        bytes_below(dir, dir.entries.len()) <= u64::MAX,
        0 <= i < dir.entries.len(),
        dir.entries[i].content is Directory,
    ensures
        recorded(dir.entries[i], rules, prefix) is Some <==> rule_model::table_grants(
            rules,
            path::plain_steps(prefix.push(scan::entry_component(dir.entries[i].name))),
        ) is Some,
{
    lemma_content_size_is_bytes(dir, i);
    let inner = dir.entries[i].content->Directory_0;
    assert(read_without_failure(inner));
    law_snapshot_size_is_bytes(
        inner,
        rules,
        prefix.push(scan::entry_component(dir.entries[i].name)),
    );
}

/// How large the first `n` recorded entries of a directory are together.
pub open spec fn recorded_size(files: Files, n: nat) -> nat
    decreases n,
{
    if n == 0 || n > files.len() {
        0
    } else {
        recorded_size(files, (n - 1) as nat) + files[n - 1].1.size() as nat
    }
}

/// The entries that a snapshot of a directory lists are together no larger than the
/// directory.
pub proof fn law_listed_entries_fit_in_size(
    dir: RawDirView,
    rules: RuleTable,
    prefix: Seq<ComponentView>,
)
    ensures
        scan::scanned(dir, rules, prefix).outcome matches Ok(snapshot) ==> recorded_size(
            snapshot.files,
            snapshot.files.len(),
        ) <= snapshot.size,
{
    lemma_listed_fit(dir, rules, prefix, dir.entries.len());
}

proof fn lemma_listed_fit(
    dir: RawDirView,
    rules: RuleTable,
    prefix: Seq<ComponentView>,
    n: nat,
)
    requires
        n <= dir.entries.len(),
    ensures
        scan::scanned_up_to(dir, rules, prefix, n).outcome matches Ok(snapshot) ==> recorded_size(
            snapshot.files,
            snapshot.files.len(),
        ) <= snapshot.size,
    decreases n,
{
    if n > 0 {
        lemma_listed_fit(dir, rules, prefix, (n - 1) as nat);
        let before = scan::scanned_up_to(dir, rules, prefix, (n - 1) as nat);
        if before.outcome is Ok {
            let so_far = before.outcome->Ok_0;
            let taken = scan::scanned_entry(so_far, dir.entries[n - 1], rules, prefix);
            if taken.outcome is Ok {
                let after = taken.outcome->Ok_0;
                if after.files.len() > so_far.files.len() {
                    assert(after.files.drop_last() =~= so_far.files);
                    lemma_recorded_size_prefix(so_far.files, after.files, so_far.files.len());
                }
            }
        }
    }
}

proof fn lemma_recorded_size_prefix(a: Files, b: Files, n: nat)
    requires
        n <= a.len() <= b.len(),
        forall|i: int| 0 <= i < n ==> a[i] == b[i],
    ensures
        recorded_size(a, n) == recorded_size(b, n),
    decreases n,
{
    if n > 0 {
        lemma_recorded_size_prefix(a, b, (n - 1) as nat);
    }
}

/// What a directory is recorded as comes of its entries, taken one after the other from
/// nothing up to the first that fails, and then of the failure that ended the reading.
pub proof fn law_snapshot_is_taken_entry_by_entry(
    dir: RawDirView,
    rules: RuleTable,
    prefix: Seq<ComponentView>,
    n: nat,
)
    ensures
        scan::scanned_up_to(dir, rules, prefix, 0) == (ScanView {
            outcome: Ok(DirView { size: 0, files: Seq::empty() }),
            messages: Seq::empty(),
        }),
        n < dir.entries.len() ==> scan::scanned_up_to(dir, rules, prefix, n + 1) == match (
        scan::scanned_up_to(dir, rules, prefix, n).outcome) {
            Err(_) => scan::scanned_up_to(dir, rules, prefix, n),
            Ok(so_far) => {
                let taken = scan::scanned_entry(so_far, dir.entries[n as int], rules, prefix);
                ScanView {
                    outcome: taken.outcome,
                    messages: scan::scanned_up_to(dir, rules, prefix, n).messages + taken.messages,
                }
            },
        },
        ({
            let all = scan::scanned_up_to(dir, rules, prefix, dir.entries.len());
            scan::scanned(dir, rules, prefix) == match (all.outcome, dir.failure) {
                (Ok(_), Some(failure)) => ScanView {
                    outcome: Err(ScanErrorView::Io(failure)),
                    messages: all.messages,
                },
                _ => all,
            }
        }),
{
}

/// The components that lead along names in a directory tree.
pub open spec fn components_of(names: Seq<NameView>) -> Seq<ComponentView> {
    Seq::new(
        names.len(),
        |i: int| ComponentView { kind: ComponentKind::Normal, name: names[i], prefix: None },
    )
}

/// Whether the rules grant something to what names lead to.
pub open spec fn is_granted(rules: RuleTable, names: Seq<NameView>) -> bool {
    rule_model::table_grants(rules, path::plain_steps(components_of(names))) is Some
}

/// Whether the rules grant something to everything that names lead through, behind those
/// that lead to where they begin.
pub open spec fn is_granted_along(
    rules: RuleTable,
    before: Seq<NameView>,
    names: Seq<NameView>,
) -> bool
    decreases names.len(),
{
    names.len() == 0 || (is_granted(rules, before.push(names[0])) && is_granted_along(
        rules,
        before.push(names[0]),
        names.drop_first(),
    ))
}

/// Whether names lead to this content in a directory tree that was read.
pub open spec fn leads_to(dir: RawDirView, names: Seq<NameView>, content: RawContentView) -> bool
    decreases names.len(),
{
    if names.len() == 0 {
        false
    } else if names.len() == 1 {
        exists|i: int|
            0 <= i < dir.entries.len() && (#[trigger] dir.entries[i]).name == names[0]
                && dir.entries[i].content == content
    } else {
        exists|i: int|
            0 <= i < dir.entries.len() && (#[trigger] dir.entries[i]).name == names[0] && (
            dir.entries[i].content matches RawContentView::Directory(inner) && leads_to(
                inner,
                names.drop_first(),
                content,
            ))
    }
}

/// Whether no two entries of a directory are displayed alike, all the way down.
pub open spec fn distinct_entries(dir: RawDirView) -> bool
    decreases dir,
{
    &&& forall|i: int, j: int|
        0 <= i < j < dir.entries.len() ==> (#[trigger] dir.entries[i]).name.shown() != (
        #[trigger] dir.entries[j]).name.shown()
    &&& forall|i: int|
        #![trigger dir.entries[i]]
        0 <= i < dir.entries.len() ==> match dir.entries[i].content {
            RawContentView::Directory(inner) => distinct_entries(inner),
            _ => true,
        }
}

/// What is found under the name of an entry is what is recorded of it.
proof fn lemma_recorded_is_found(
    dir: RawDirView,
    rules: RuleTable,
    prefix: Seq<ComponentView>,
    n: nat,
    i: int,
)
    requires
        n <= dir.entries.len(),
        0 <= i < dir.entries.len(),
        distinct_entries(dir),
    ensures
        snapshot::found_file(recorded_files(dir, rules, prefix, n), dir.entries[i].name.shown())
            == if i < n {
            recorded(dir.entries[i], rules, prefix)
        } else {
            None
        },
    decreases n,
{
    let name = dir.entries[i].name.shown();
    let files = recorded_files(dir, rules, prefix, n);
    if n == 0 {
        law_unknown_name_finds_nothing(files, name);
    } else {
        let before = recorded_files(dir, rules, prefix, (n - 1) as nat);
        lemma_recorded_is_found(dir, rules, prefix, (n - 1) as nat, i);
        let entry = dir.entries[n - 1];
        if i != n - 1 {
            assert(entry.name.shown() != name);
        }
        match recorded(entry, rules, prefix) {
            None => {},
            Some(file) => {
                snapshot::lemma_file_is_found(before, name);
                if snapshot::found_file(before, name) is Some {
                    let k = choose|k: int| snapshot::is_file_index(before, name, k);
                    assert(snapshot::is_file_index(before, name, k));
                    assert forall|j: int| 0 <= j < k implies (#[trigger] files[j]).0 != name by {
                        assert(before[j].0 != name);
                    }
                    law_name_finds_first_entry(files, name, k);
                } else if i == n - 1 {
                    assert forall|j: int| 0 <= j < n - 1 && j < before.len() implies (
                    #[trigger] files[j]).0 != name by {
                        assert(before[j].0 != name);
                    }
                    assert forall|j: int| 0 <= j < before.len() implies (#[trigger] files[j]).0
                        != name by {
                        assert(before[j].0 != name);
                    }
                    law_name_finds_first_entry(files, name, before.len() as int);
                } else {
                    assert forall|j: int| 0 <= j < files.len() implies (#[trigger] files[j]).0
                        != name by {
                        if j < before.len() {
                            assert(before[j].0 != name);
                        }
                    }
                    law_unknown_name_finds_nothing(files, name);
                }
            },
        }
    }
}

/// A snapshot of a directory tree that was read without a failure records what names lead
/// to exactly when the rules grant something to it and to every directory on the way, and
/// it is a file or a directory. It is then recorded as what it is, with the bytes in it.
pub proof fn law_snapshot_records_what_rules_grant(
    dir: RawDirView,
    rules: RuleTable,
    names: Seq<NameView>,
    content: RawContentView,
)
    requires
        read_without_failure(dir),
        bytes_below(dir, dir.entries.len()) <= u64::MAX,
        distinct_entries(dir),
        leads_to(dir, names, content),
    ensures
        scan::scanned(dir, rules, Seq::empty()).outcome matches Ok(snapshot)
            && match snapshot::found_at(
            EntryView::Directory(snapshot),
            path::plain_steps(components_of(names)),
        ) {
            None => content is Other || !is_granted_along(rules, Seq::empty(), names),
            Some(entry) => {
                &&& !(content is Other)
                &&& is_granted_along(rules, Seq::empty(), names)
                &&& entry is File <==> content is File
                &&& entry.size() == content_bytes(content)
            },
        },
{
    assert(components_of(Seq::empty()) =~= Seq::<ComponentView>::empty());
    lemma_records_below(dir, rules, Seq::empty(), names, content);
}

/// The same below names that lead to the directory.
proof fn lemma_records_below(
    dir: RawDirView,
    rules: RuleTable,
    before: Seq<NameView>,
    names: Seq<NameView>,
    content: RawContentView,
)
    requires
        read_without_failure(dir),
        bytes_below(dir, dir.entries.len()) <= u64::MAX,
        distinct_entries(dir),
        leads_to(dir, names, content),
    ensures
        scan::scanned(dir, rules, components_of(before)).outcome matches Ok(snapshot)
            && match snapshot::found_at(
            EntryView::Directory(snapshot),
            path::plain_steps(components_of(names)),
        ) {
            None => content is Other || !is_granted_along(rules, before, names),
            Some(entry) => {
                &&& !(content is Other)
                &&& is_granted_along(rules, before, names)
                &&& entry is File <==> content is File
                &&& entry.size() == content_bytes(content)
            },
        },
    decreases names.len(),
{
    let prefix = components_of(before);
    let below = components_of(before.push(names[0]));
    let rest = names.drop_first();
    let steps = path::plain_steps(components_of(names));
    law_snapshot_size_is_bytes(dir, rules, prefix);
    law_snapshot_holds_recorded_entries(dir, rules, prefix);
    let taken = scan::scanned(dir, rules, prefix).outcome->Ok_0;
    let i = if names.len() == 1 {
        choose|i: int|
            0 <= i < dir.entries.len() && (#[trigger] dir.entries[i]).name == names[0]
                && dir.entries[i].content == content
    } else {
        choose|i: int|
            0 <= i < dir.entries.len() && (#[trigger] dir.entries[i]).name == names[0] && (
            dir.entries[i].content matches RawContentView::Directory(inner) && leads_to(
                inner,
                rest,
                content,
            ))
    };
    let entry = dir.entries[i];
    lemma_recorded_is_found(dir, rules, prefix, dir.entries.len(), i);
    assert(prefix.push(scan::entry_component(entry.name)) =~= below);
    assert(is_granted(rules, before.push(names[0])) == (rule_model::table_grants(
        rules,
        path::plain_steps(below),
    ) is Some));
    lemma_content_size_is_bytes(dir, i);
    path_laws::law_rest_is_the_path_of_later_names(components_of(names));
    assert(components_of(names).drop_first() =~= components_of(rest));
    assert(steps[0].shown == names[0].shown());
    assert(steps =~= seq![steps[0]] + path::plain_steps(components_of(rest)));
    law_path_leads_from_name_to_name(
        EntryView::Directory(taken),
        steps[0],
        path::plain_steps(components_of(rest)),
    );
    match entry.content {
        RawContentView::Directory(inner) => {
            assert(read_without_failure(inner));
            assert(distinct_entries(inner));
            law_snapshot_size_is_bytes(inner, rules, below);
            if names.len() > 1 {
                lemma_records_below(inner, rules, before.push(names[0]), rest, content);
            }
        },
        _ => {},
    }
    if names.len() == 1 {
        assert(components_of(rest) =~= Seq::<ComponentView>::empty());
        assert(path::plain_steps(components_of(rest)) =~= Seq::<StepView>::empty());
        assert(is_granted_along(rules, before.push(names[0]), rest));
    }
}

/// How large a directory is, is known exactly when it, and every directory below it, was
/// read without a failure and `u64` can count the bytes: it is their number.
pub proof fn law_size_is_known(dir: RawDirView)
    ensures
        scan::total_size(dir) is Ok <==> read_without_failure(dir) && bytes_below(
            dir,
            dir.entries.len(),
        ) <= u64::MAX,
        scan::total_size(dir) matches Ok(size) ==> size == bytes_below(dir, dir.entries.len()),
{
    if scan::total_size(dir) is Ok {
        lemma_known_size(dir);
    }
    if read_without_failure(dir) && bytes_below(dir, dir.entries.len()) <= u64::MAX {
        law_size_is_bytes(dir);
    }
}

proof fn lemma_known_size(dir: RawDirView)
    requires
        scan::total_size(dir) is Ok,
    ensures
        read_without_failure(dir),
        bytes_below(dir, dir.entries.len()) == scan::total_size(dir)->Ok_0,
    decreases dir, dir.entries.len() + 1,
{
    lemma_known_size_of(dir, dir.entries.len());
    assert forall|i: int|
        #![trigger dir.entries[i]]
        0 <= i < dir.entries.len() implies match dir.entries[i].content {
        RawContentView::Directory(inner) => read_without_failure(inner),
        _ => true,
    } by {
        assert(readable(dir.entries[i].content));
    }
}

/// Whether content was read without a failure.
spec fn readable(content: RawContentView) -> bool {
    match content {
        RawContentView::Directory(inner) => read_without_failure(inner),
        _ => true,
    }
}

proof fn lemma_known_size_of(dir: RawDirView, n: nat)
    requires
        n <= dir.entries.len(),
        scan::total_size_of(dir, n) is Ok,
    ensures
        bytes_below(dir, n) == scan::total_size_of(dir, n)->Ok_0,
        forall|i: int| 0 <= i < n ==> readable((#[trigger] dir.entries[i]).content),
    decreases dir, n,
{
    if n > 0 {
        lemma_known_size_of(dir, (n - 1) as nat);
        let content = dir.entries[n - 1].content;
        assert(decreases_to!(dir.entries => dir.entries[n - 1]));
        match content {
            RawContentView::Directory(inner) => {
                lemma_known_size(inner);
            },
            _ => {},
        }
        assert(scan::content_size(content)->Ok_0 == content_bytes(content));
    }
}

/// An entry that the rules grant nothing counts for the size of its directory, is not
/// listed and not told about. If its size is not known, the directory is not recorded.
pub proof fn law_ungranted_entry_only_counts(
    so_far: DirView,
    entry: RawEntryView,
    rules: RuleTable,
    prefix: Seq<ComponentView>,
)
    requires
        rule_model::table_grants(
            rules,
            path::plain_steps(
                prefix.push(
                    ComponentView { kind: ComponentKind::Normal, name: entry.name, prefix: None },
                ),
            ),
        ) is None,
    ensures
        ({
            let taken = scan::scanned_entry(so_far, entry, rules, prefix);
            &&& taken.messages.len() == 0
            &&& match entry.content {
                RawContentView::File(len) => {
                    &&& so_far.size + len <= u64::MAX ==> (taken.outcome matches Ok(after)
                        && after.size == so_far.size + len && after.files == so_far.files)
                    &&& so_far.size + len > u64::MAX ==> taken.outcome == Err::<
                        DirView,
                        ScanErrorView,
                    >(ScanErrorView::Overflow)
                },
                RawContentView::Directory(dir) => match scan::total_size(dir) {
                    Ok(size) => {
                        &&& so_far.size + size <= u64::MAX ==> (taken.outcome matches Ok(after)
                            && after.size == so_far.size + size && after.files == so_far.files)
                        &&& so_far.size + size > u64::MAX ==> taken.outcome == Err::<
                            DirView,
                            ScanErrorView,
                        >(ScanErrorView::Overflow)
                    },
                    Err(error) => taken.outcome == Err::<DirView, ScanErrorView>(error),
                },
                RawContentView::Other => taken.outcome matches Ok(after) && after.size
                    == so_far.size && after.files == so_far.files,
            }
        }),
{
}

/// A file that the rules grant something is listed with its bytes and counts for the size
/// of its directory. It is told about exactly when one level below it is granted.
pub proof fn law_granted_file_is_listed(
    so_far: DirView,
    entry: RawEntryView,
    rules: RuleTable,
    prefix: Seq<ComponentView>,
    len: u64,
)
    requires
        entry.content == RawContentView::File(len),
        rule_model::table_grants(
            rules,
            path::plain_steps(
                prefix.push(
                    ComponentView { kind: ComponentKind::Normal, name: entry.name, prefix: None },
                ),
            ),
        ) is Some,
    ensures
        ({
            let taken = scan::scanned_entry(so_far, entry, rules, prefix);
            let depth = rule_model::table_grants(
                rules,
                path::plain_steps(
                    prefix.push(
                        ComponentView {
                            kind: ComponentKind::Normal,
                            name: entry.name,
                            prefix: None,
                        },
                    ),
                ),
            )->0;
            &&& depth == 1 ==> taken.messages == seq![MessageView::Trace(entry.path)]
            &&& depth != 1 ==> taken.messages.len() == 0
            &&& so_far.size + len <= u64::MAX ==> (taken.outcome matches Ok(after) && after.size
                == so_far.size + len && after.files == so_far.files.push(
                (entry.name.shown(), EntryView::File(FileSnapshot { size: len })),
            ))
            &&& so_far.size + len > u64::MAX ==> taken.outcome == Err::<DirView, ScanErrorView>(
                ScanErrorView::Overflow,
            )
        }),
{
}

/// A directory that the rules grant something is listed as what is recorded of it, and
/// counts with its size. If it cannot be read it is left out and told about. What is told
/// about it comes first exactly when one level below it is granted, and what is told about
/// what is in it follows.
pub proof fn law_granted_directory_is_listed(
    so_far: DirView,
    entry: RawEntryView,
    rules: RuleTable,
    prefix: Seq<ComponentView>,
    dir: RawDirView,
)
    requires
        entry.content == RawContentView::Directory(dir),
        rule_model::table_grants(
            rules,
            path::plain_steps(
                prefix.push(
                    ComponentView { kind: ComponentKind::Normal, name: entry.name, prefix: None },
                ),
            ),
        ) is Some,
    ensures
        ({
            let taken = scan::scanned_entry(so_far, entry, rules, prefix);
            let path = prefix.push(
                ComponentView { kind: ComponentKind::Normal, name: entry.name, prefix: None },
            );
            let depth = rule_model::table_grants(rules, path::plain_steps(path))->0;
            let inner = scan::scanned(dir, rules, path);
            let first = if depth == 1 {
                seq![MessageView::Trace(entry.path)]
            } else {
                Seq::empty()
            };
            match inner.outcome {
                Ok(snapshot) => {
                    &&& taken.messages == first + inner.messages
                    &&& so_far.size + snapshot.size <= u64::MAX ==> (taken.outcome matches Ok(
                        after,
                    ) && after.size == so_far.size + snapshot.size && after.files
                        == so_far.files.push(
                        (entry.name.shown(), EntryView::Directory(snapshot)),
                    ))
                    &&& so_far.size + snapshot.size > u64::MAX ==> taken.outcome == Err::<
                        DirView,
                        ScanErrorView,
                    >(ScanErrorView::Overflow)
                },
                Err(ScanErrorView::Io(reason)) => {
                    &&& taken.outcome == Ok::<DirView, ScanErrorView>(so_far)
                    &&& taken.messages == (first + inner.messages).push(
                        MessageView::Error("Failed to snap "@ + entry.path + ": "@ + reason),
                    )
                },
                Err(ScanErrorView::Overflow) => {
                    &&& taken.outcome == Err::<DirView, ScanErrorView>(ScanErrorView::Overflow)
                    &&& taken.messages == first + inner.messages
                },
            }
        }),
{
}

/// What is neither a file nor a directory is not recorded and counts for nothing. It is
/// told about exactly when it is granted one level.
pub proof fn law_other_entry_is_left_out(
    so_far: DirView,
    entry: RawEntryView,
    rules: RuleTable,
    prefix: Seq<ComponentView>,
)
    requires
        entry.content is Other,
    ensures
        scan::scanned_entry(so_far, entry, rules, prefix).outcome matches Ok(after) && after.size
            == so_far.size && after.files == so_far.files,
        ({
            let depth = rule_model::table_grants(
                rules,
                path::plain_steps(
                    prefix.push(
                        ComponentView {
                            kind: ComponentKind::Normal,
                            name: entry.name,
                            prefix: None,
                        },
                    ),
                ),
            );
            let messages = scan::scanned_entry(so_far, entry, rules, prefix).messages;
            &&& depth == Some(1u32) ==> messages == seq![MessageView::Trace(entry.path)]
            &&& depth != Some(1u32) ==> messages.len() == 0
        }),
{
}

/// A directory whose reading ended with a failure is not recorded, for that reason unless
/// an entry before gave another.
pub proof fn law_unreadable_directory_fails(
    dir: RawDirView,
    rules: RuleTable,
    prefix: Seq<ComponentView>,
    failure: Seq<char>,
)
    requires
        dir.failure == Some(failure),
    ensures
        scan::scanned(dir, rules, prefix).outcome is Err,
        scan::scanned_up_to(dir, rules, prefix, dir.entries.len()).outcome is Ok
            ==> scan::scanned(dir, rules, prefix).outcome == Err::<DirView, ScanErrorView>(
            ScanErrorView::Io(failure),
        ),
        scan::total_size(dir) is Err,
{
}

/// What is handed out is what was recorded, or why it was not.
pub proof fn law_outcome_is_handed_out(
    res: Result<DirSnapshot, ScanError>,
    outcome: Result<DirView, ScanErrorView>,
)
    ensures
        scan::is_outcome(res, outcome) <==> match (res, outcome) {
            (Ok(found), Ok(recorded)) => found@ == recorded,
            (Err(found), Err(error)) => found@ == error,
            _ => false,
        },
{
}

} // verus!
