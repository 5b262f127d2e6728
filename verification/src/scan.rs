//! Taking a snapshot of a directory tree that was read from disk.
use vstd::prelude::*;

use crate::path;
use crate::path::{
    clone_components, to_plain_steps, ComponentKind, ComponentView, NameView, OsName, PathComponent,
};
use crate::rule_model;
use crate::rule_model::RuleTable;
use crate::rules::SnapshotRuleSet;
use crate::snapshot::{
    DirSnapshot, DirView, EntryView, FSEntrySnapshot, FileSnapshot, Files,
};

verus! {

/// A directory as it was read: its entries, in the order in which they were read, up to
/// the failure that ended the reading, if one did.
#[derive(Debug)]
pub struct RawDir {
    pub entries: Vec<RawEntry>,
    pub failure: Option<String>,
}

/// An entry of a directory as it was read.
#[derive(Debug)]
pub struct RawEntry {
    /// What the entry is called in its directory.
    pub name: OsName,
    /// How the whole path of the entry is displayed.
    pub path: String,
    pub content: RawContent,
}

/// What an entry of a directory is.
#[derive(Debug)]
pub enum RawContent {
    /// A file of this many bytes.
    File(u64),
    Directory(RawDir),
    /// Something that is neither, such as a link.
    Other,
}

/// Why a directory could not be recorded.
#[derive(Debug)]
pub enum ScanError {
    /// It could not be read, for this reason.
    Io(String),
    /// What is in it is larger than `u64` can count.
    Overflow,
}

/// What is told about a snapshot while it is taken.
#[derive(Debug)]
pub enum SnapshotWorkerMessage {
    /// The entry at this path is being recorded.
    Trace(String),
    /// Something could not be recorded.
    Error(String),
}

/// What came of taking a snapshot, and what was told about it.
#[derive(Debug)]
pub struct TakenSnapshot {
    pub outcome: Result<FSEntrySnapshot, ScanError>,
    pub messages: Vec<SnapshotWorkerMessage>,
}

/// What a [`RawDir`] holds.
#[verifier::ext_equal]
pub ghost struct RawDirView {
    pub entries: Seq<RawEntryView>,
    pub failure: Option<Seq<char>>,
}

/// What a [`RawEntry`] holds.
#[verifier::ext_equal]
pub ghost struct RawEntryView {
    pub name: NameView,
    pub path: Seq<char>,
    pub content: RawContentView,
}

/// What a [`RawContent`] holds.
#[verifier::ext_equal]
pub ghost enum RawContentView {
    File(u64),
    Directory(RawDirView),
    Other,
}

/// What a [`ScanError`] holds.
#[verifier::ext_equal]
pub ghost enum ScanErrorView {
    Io(Seq<char>),
    Overflow,
}

/// What a [`SnapshotWorkerMessage`] holds.
#[verifier::ext_equal]
pub ghost enum MessageView {
    Trace(Seq<char>),
    Error(Seq<char>),
}

/// What came of recording a directory, and what was told about it.
#[verifier::ext_equal]
pub ghost struct ScanView {
    pub outcome: Result<DirView, ScanErrorView>,
    pub messages: Seq<MessageView>,
}

impl RawDir {
    /// What the directory holds.
    pub open spec fn tree(&self) -> RawDirView
        decreases self,
    {
        RawDirView {
            entries: Seq::new(
                self.entries@.len(),
                |i: int|
                    if 0 <= i < self.entries@.len() {
                        self.entries@[i].tree()
                    } else {
                        arbitrary()
                    },
            ),
            failure: match self.failure {
                Some(failure) => Some(failure@),
                None => None,
            },
        }
    }
}

impl RawEntry {
    /// What the entry holds.
    pub open spec fn tree(&self) -> RawEntryView
        decreases self,
    {
        RawEntryView { name: self.name@, path: self.path@, content: self.content.tree() }
    }
}

impl RawContent {
    /// What there is.
    pub open spec fn tree(&self) -> RawContentView
        decreases self,
    {
        match self {
            RawContent::File(len) => RawContentView::File(*len),
            RawContent::Directory(dir) => RawContentView::Directory(dir.tree()),
            RawContent::Other => RawContentView::Other,
        }
    }
}

impl View for RawDir {
    type V = RawDirView;

    open spec fn view(&self) -> RawDirView {
        self.tree()
    }
}

impl View for RawEntry {
    type V = RawEntryView;

    open spec fn view(&self) -> RawEntryView {
        self.tree()
    }
}

impl View for RawContent {
    type V = RawContentView;

    open spec fn view(&self) -> RawContentView {
        self.tree()
    }
}

impl View for ScanError {
    type V = ScanErrorView;

    open spec fn view(&self) -> ScanErrorView {
        match self {
            ScanError::Io(reason) => ScanErrorView::Io(reason@),
            ScanError::Overflow => ScanErrorView::Overflow,
        }
    }
}

impl View for SnapshotWorkerMessage {
    type V = MessageView;

    open spec fn view(&self) -> MessageView {
        match self {
            SnapshotWorkerMessage::Trace(path) => MessageView::Trace(path@),
            SnapshotWorkerMessage::Error(message) => MessageView::Error(message@),
        }
    }
}

/// What each of a sequence of messages holds.
pub open spec fn message_views(messages: Seq<SnapshotWorkerMessage>) -> Seq<MessageView> {
    Seq::new(messages.len(), |i: int| messages[i]@)
}

/// Two sizes together.
pub open spec fn added_sizes(a: u64, b: u64) -> Result<u64, ScanErrorView> {
    if a + b <= u64::MAX {
        Ok((a + b) as u64)
    } else {
        Err(ScanErrorView::Overflow)
    }
}

/// How large everything below a directory is.
pub open spec fn total_size(dir: RawDirView) -> Result<u64, ScanErrorView>
    decreases dir, dir.entries.len() + 1,
{
    match total_size_of(dir, dir.entries.len()) {
        Err(error) => Err(error),
        Ok(size) => match dir.failure {
            Some(failure) => Err(ScanErrorView::Io(failure)),
            None => Ok(size),
        },
    }
}

/// How large the first `n` entries of a directory are.
pub open spec fn total_size_of(dir: RawDirView, n: nat) -> Result<u64, ScanErrorView>
    decreases dir, n,
{
    if n == 0 || n > dir.entries.len() {
        Ok(0)
    } else {
        match total_size_of(dir, (n - 1) as nat) {
            Err(error) => Err(error),
            Ok(before) => match content_size(dir.entries[n - 1].content) {
                Err(error) => Err(error),
                Ok(size) => added_sizes(before, size),
            },
        }
    }
}

/// How large an entry is. What is neither a file nor a directory counts for nothing.
pub open spec fn content_size(content: RawContentView) -> Result<u64, ScanErrorView>
    decreases content, 0nat,
{
    match content {
        RawContentView::File(len) => Ok(len),
        RawContentView::Directory(dir) => total_size(dir),
        RawContentView::Other => Ok(0),
    }
}

/// The component that leads to an entry of a directory.
pub open spec fn entry_component(name: NameView) -> ComponentView {
    ComponentView { kind: ComponentKind::Normal, name, prefix: None }
}

/// The directory with its size raised.
pub open spec fn with_size(dir: DirView, size: u64) -> Result<DirView, ScanErrorView> {
    match added_sizes(dir.size, size) {
        Ok(size) => Ok(DirView { size, files: dir.files }),
        Err(error) => Err(error),
    }
}

/// The directory with one more entry recorded.
pub open spec fn with_file(dir: DirView, name: Seq<char>, entry: EntryView) -> Result<
    DirView,
    ScanErrorView,
> {
    match added_sizes(dir.size, entry.size()) {
        Ok(size) => Ok(DirView { size, files: dir.files.push((name, entry)) }),
        Err(error) => Err(error),
    }
}

/// The message about a directory that could not be recorded.
pub open spec fn failed_to_snap(path: Seq<char>, reason: Seq<char>) -> Seq<char> {
    "Failed to snap "@ + path + ": "@ + reason
}

/// What comes of recording a directory that `prefix` leads to by the rules.
pub open spec fn scanned(
    dir: RawDirView,
    rules: RuleTable,
    prefix: Seq<ComponentView>,
) -> ScanView
    decreases dir, dir.entries.len() + 1,
{
    let all = scanned_up_to(dir, rules, prefix, dir.entries.len());
    match (all.outcome, dir.failure) {
        (Ok(_), Some(failure)) => ScanView { outcome: Err(ScanErrorView::Io(failure)), ..all },
        _ => all,
    }
}

/// What comes of recording the first `n` entries of a directory.
pub open spec fn scanned_up_to(
    dir: RawDirView,
    rules: RuleTable,
    prefix: Seq<ComponentView>,
    n: nat,
) -> ScanView
    decreases dir, n,
{
    if n == 0 || n > dir.entries.len() {
        ScanView { outcome: Ok(DirView { size: 0, files: Seq::empty() }), messages: Seq::empty() }
    } else {
        let before = scanned_up_to(dir, rules, prefix, (n - 1) as nat);
        match before.outcome {
            Err(_) => before,
            Ok(so_far) => {
                let entry = scanned_entry(so_far, dir.entries[n - 1], rules, prefix);
                ScanView {
                    outcome: entry.outcome,
                    messages: before.messages + entry.messages,
                }
            },
        }
    }
}

/// What comes of recording one more entry of a directory.
///
/// What the rules grant nothing only counts for the size of the directory. A directory
/// in it that cannot be read is left out, and told about.
pub open spec fn scanned_entry(
    so_far: DirView,
    entry: RawEntryView,
    rules: RuleTable,
    prefix: Seq<ComponentView>,
) -> ScanView
    decreases entry, 0nat,
{
    let path = prefix.push(entry_component(entry.name));
    match rule_model::table_grants(rules, path::plain_steps(path)) {
        None => ScanView {
            outcome: match content_size(entry.content) {
                Ok(size) => with_size(so_far, size),
                Err(error) => Err(error),
            },
            messages: Seq::empty(),
        },
        Some(depth) => {
            let trace = if depth == 1 {
                seq![MessageView::Trace(entry.path)]
            } else {
                Seq::empty()
            };
            match entry.content {
                RawContentView::File(size) => ScanView {
                    outcome: with_file(
                        so_far,
                        entry.name.shown(),
                        EntryView::File(FileSnapshot { size }),
                    ),
                    messages: trace,
                },
                RawContentView::Directory(dir) => {
                    let inner = scanned(dir, rules, path);
                    match inner.outcome {
                        Ok(snapshot) => ScanView {
                            outcome: with_file(
                                so_far,
                                entry.name.shown(),
                                EntryView::Directory(snapshot),
                            ),
                            messages: trace + inner.messages,
                        },
                        Err(ScanErrorView::Io(reason)) => ScanView {
                            outcome: Ok(so_far),
                            messages: (trace + inner.messages).push(
                                MessageView::Error(failed_to_snap(entry.path, reason)),
                            ),
                        },
                        Err(ScanErrorView::Overflow) => ScanView {
                            outcome: Err(ScanErrorView::Overflow),
                            messages: trace + inner.messages,
                        },
                    }
                },
                RawContentView::Other => ScanView { outcome: Ok(so_far), messages: trace },
            }
        },
    }
}

/// Once the entries are too large, or one cannot be measured, what follows is not
/// looked at.
proof fn lemma_size_error_stays(dir: RawDirView, m: nat, n: nat)
    requires
        m <= n <= dir.entries.len(),
    ensures
        total_size_of(dir, m) is Err ==> total_size_of(dir, n) == total_size_of(dir, m),
    decreases n - m,
{
    if m < n {
        lemma_size_error_stays(dir, m, (n - 1) as nat);
    }
}

/// Once an entry ends the recording, what follows is not looked at.
proof fn lemma_scan_error_stays(
    dir: RawDirView,
    rules: RuleTable,
    prefix: Seq<ComponentView>,
    m: nat,
    n: nat,
)
    requires
        m <= n <= dir.entries.len(),
    ensures
        scanned_up_to(dir, rules, prefix, m).outcome is Err ==> scanned_up_to(
            dir,
            rules,
            prefix,
            n,
        ) == scanned_up_to(dir, rules, prefix, m),
    decreases n - m,
{
    if m < n {
        lemma_scan_error_stays(dir, rules, prefix, m, (n - 1) as nat);
    }
}

/// How large everything below a directory is.
pub fn dir_size(dir: &RawDir) -> (res: Result<u64, ScanError>)
    ensures
        match total_size(dir@) {
            Ok(size) => res matches Ok(found) && found == size,
            Err(error) => res matches Err(found) && found@ == error,
        },
    decreases dir,
{
    let mut total: u64 = 0;
    let mut i: usize = 0;
    while i < dir.entries.len()
        invariant
            i <= dir.entries@.len(),
            total_size_of(dir@, i as nat) == Ok::<u64, ScanErrorView>(total),
        decreases dir.entries@.len() - i,
    {
        let entry = &dir.entries[i];
        assert(dir@.entries[i as int] == entry@);
        // Named, so that the size of this entry is unfolded.
        let ghost measured = content_size(entry@.content);
        proof {
            lemma_size_error_stays(dir@, (i + 1) as nat, dir@.entries.len());
        }
        let size: u64 = match &entry.content {
            RawContent::File(len) => *len,
            RawContent::Directory(inner) => match dir_size(inner) {
                Ok(size) => size,
                Err(error) => {
                    return Err(error);
                },
            },
            RawContent::Other => 0,
        };
        match total.checked_add(size) {
            Some(sum) => {
                total = sum;
            },
            None => {
                return Err(ScanError::Overflow);
            },
        }
        i = i + 1;
    }
    match &dir.failure {
        Some(failure) => Err(ScanError::Io(failure.clone())),
        None => Ok(total),
    }
}

/// Whether the outcome of recording a directory is the one described.
pub open spec fn is_outcome(
    res: Result<DirSnapshot, ScanError>,
    outcome: Result<DirView, ScanErrorView>,
) -> bool {
    match outcome {
        Ok(snapshot) => res matches Ok(found) && found@ == snapshot,
        Err(error) => res matches Err(found) && found@ == error,
    }
}

/// The message about a directory that could not be recorded.
fn snap_failure(path: &String, reason: &String) -> (res: String)
    ensures
        res@ == failed_to_snap(path@, reason@),
{
    let mut res = "Failed to snap ".to_owned();
    res.append(path.as_str());
    res.append(": ");
    res.append(reason.as_str());
    res
}

/// Records one more entry of a directory that `prefix` leads to.
fn take_entry(
    so_far: DirSnapshot,
    entry: &RawEntry,
    ruleset: &SnapshotRuleSet,
    prefix: &Vec<PathComponent>,
    messages: &mut Vec<SnapshotWorkerMessage>,
) -> (res: Result<DirSnapshot, ScanError>)
    ensures
        ({
            let scan = scanned_entry(
                so_far@,
                entry@,
                ruleset@,
                path::component_views(prefix@),
            );
            &&& is_outcome(res, scan.outcome)
            &&& message_views(final(messages)@) == message_views(old(messages)@) + scan.messages
        }),
    decreases entry, 0nat,
{
    let ghost told = message_views(messages@);
    let ghost prefix_view = path::component_views(prefix@);
    let mut path = clone_components(prefix);
    let ghost copied = path@;
    path.push(PathComponent::normal(entry.name.clone()));
    assert(path::component_views(path@) =~= path::component_views(copied).push(
        entry_component(entry@.name),
    ));
    let mut snapshot = so_far;
    let depth: u32 = match ruleset.query_steps(to_plain_steps(&path).as_slice()) {
        Some(depth) => depth,
        None => {
            let size: u64 = match &entry.content {
                RawContent::File(len) => *len,
                RawContent::Directory(dir) => match dir_size(dir) {
                    Ok(size) => size,
                    Err(error) => {
                        return Err(error);
                    },
                },
                RawContent::Other => 0,
            };
            return match snapshot.size.checked_add(size) {
                Some(sum) => {
                    snapshot.size = sum;
                    Ok(snapshot)
                },
                None => Err(ScanError::Overflow),
            };
        },
    };

    if depth == 1 {
        messages.push(SnapshotWorkerMessage::Trace(entry.path.clone()));
    }
    let ghost trace = if depth == 1 {
        seq![MessageView::Trace(entry@.path)]
    } else {
        Seq::<MessageView>::empty()
    };
    assert(message_views(messages@) =~= told + trace);

    let file_snapshot = match &entry.content {
        RawContent::File(size) => FSEntrySnapshot::File(FileSnapshot { size: *size }),
        RawContent::Directory(dir) => match take_dir(dir, ruleset, &path, messages) {
            Ok(inner) => FSEntrySnapshot::Directory(inner),
            Err(ScanError::Io(reason)) => {
                let ghost before = messages@;
                messages.push(
                    SnapshotWorkerMessage::Error(snap_failure(&entry.path, &reason)),
                );
                assert(message_views(messages@) =~= message_views(before).push(
                    MessageView::Error(failed_to_snap(entry@.path, reason@)),
                ));
                return Ok(snapshot);
            },
            Err(ScanError::Overflow) => {
                return Err(ScanError::Overflow);
            },
        },
        RawContent::Other => {
            return Ok(snapshot);
        },
    };
    match snapshot.size.checked_add(file_snapshot.size()) {
        Some(sum) => {
            let ghost before = snapshot@.files;
            let ghost recorded = (entry@.name.shown(), file_snapshot@);
            snapshot.size = sum;
            snapshot.files.push((entry.name.display(), file_snapshot));
            assert(snapshot@.files =~= before.push(recorded));
            Ok(snapshot)
        },
        None => Err(ScanError::Overflow),
    }
}

/// Records a directory that `prefix` leads to.
fn take_dir(
    dir: &RawDir,
    ruleset: &SnapshotRuleSet,
    prefix: &Vec<PathComponent>,
    messages: &mut Vec<SnapshotWorkerMessage>,
) -> (res: Result<DirSnapshot, ScanError>)
    ensures
        ({
            let scan = scanned(dir@, ruleset@, path::component_views(prefix@));
            &&& is_outcome(res, scan.outcome)
            &&& message_views(final(messages)@) == message_views(old(messages)@) + scan.messages
        }),
    decreases dir, 1nat,
{
    let ghost told = message_views(messages@);
    let ghost prefix_view = path::component_views(prefix@);
    let mut snapshot = DirSnapshot { size: 0, files: Vec::new() };
    assert(snapshot@.files =~= Files::empty());
    assert(told + Seq::<MessageView>::empty() =~= told);
    let mut i: usize = 0;
    while i < dir.entries.len()
        invariant
            i <= dir.entries@.len(),
            prefix_view == path::component_views(prefix@),
            told == message_views(old(messages)@),
            scanned_up_to(dir@, ruleset@, prefix_view, i as nat).outcome == Ok::<
                DirView,
                ScanErrorView,
            >(snapshot@),
            message_views(messages@) == told + scanned_up_to(
                dir@,
                ruleset@,
                prefix_view,
                i as nat,
            ).messages,
        decreases dir.entries@.len() - i,
    {
        let entry = &dir.entries[i];
        assert(dir@.entries[i as int] == entry@);
        let ghost before = scanned_up_to(dir@, ruleset@, prefix_view, i as nat);
        let ghost scan = scanned_entry(snapshot@, entry@, ruleset@, prefix_view);
        proof {
            lemma_scan_error_stays(
                dir@,
                ruleset@,
                prefix_view,
                (i + 1) as nat,
                dir@.entries.len(),
            );
        }
        let taken = take_entry(snapshot, entry, ruleset, prefix, messages);
        assert(told + (before.messages + scan.messages) =~= (told + before.messages)
            + scan.messages);
        match taken {
            Ok(more) => {
                snapshot = more;
            },
            Err(error) => {
                assert(scanned_up_to(dir@, ruleset@, prefix_view, (i + 1) as nat) == ScanView {
                    outcome: scan.outcome,
                    messages: before.messages + scan.messages,
                });
                assert(scanned(dir@, ruleset@, prefix_view) == scanned_up_to(
                    dir@,
                    ruleset@,
                    prefix_view,
                    (i + 1) as nat,
                ));
                return Err(error);
            },
        }
        i = i + 1;
    }
    match &dir.failure {
        Some(failure) => Err(ScanError::Io(failure.clone())),
        None => Ok(snapshot),
    }
}

/// What came of recording one more entry of a directory, and what was told about it.
#[derive(Debug)]
pub struct TakenEntry {
    pub outcome: Result<DirSnapshot, ScanError>,
    pub messages: Vec<SnapshotWorkerMessage>,
}

/// Records one more entry of the directory that a snapshot is taken of, so that what is
/// told about it is there before the next is read.
pub fn take_next(so_far: DirSnapshot, entry: &RawEntry, ruleset: &SnapshotRuleSet) -> (res:
    TakenEntry)
    ensures
        ({
            let scan = scanned_entry(so_far@, entry@, ruleset@, Seq::empty());
            &&& is_outcome(res.outcome, scan.outcome)
            &&& message_views(res.messages@) == scan.messages
        }),
{
    let mut messages: Vec<SnapshotWorkerMessage> = Vec::new();
    let prefix: Vec<PathComponent> = Vec::new();
    assert(path::component_views(prefix@) =~= Seq::<ComponentView>::empty());
    let outcome = take_entry(so_far, entry, ruleset, &prefix, &mut messages);
    assert(message_views(messages@) =~= scanned_entry(
        so_far@,
        entry@,
        ruleset@,
        Seq::empty(),
    ).messages);
    TakenEntry { outcome, messages }
}

/// Takes a snapshot of a directory by the rules.
pub fn take_snapshot(dir: &RawDir, ruleset: &SnapshotRuleSet) -> (res: TakenSnapshot)
    ensures
        ({
            let scan = scanned(dir@, ruleset@, Seq::empty());
            &&& match scan.outcome {
                Ok(snapshot) => res.outcome matches Ok(found) && found@ == EntryView::Directory(
                    snapshot,
                ),
                Err(error) => res.outcome matches Err(found) && found@ == error,
            }
            &&& message_views(res.messages@) == scan.messages
        }),
{
    let mut messages: Vec<SnapshotWorkerMessage> = Vec::new();
    let prefix: Vec<PathComponent> = Vec::new();
    assert(path::component_views(prefix@) =~= Seq::<ComponentView>::empty());
    let taken = take_dir(dir, ruleset, &prefix, &mut messages);
    assert(message_views(messages@) =~= scanned(dir@, ruleset@, Seq::empty()).messages);
    let outcome = match taken {
        Ok(snapshot) => Ok(FSEntrySnapshot::Directory(snapshot)),
        Err(error) => Err(error),
    };
    TakenSnapshot { outcome, messages }
}

} // verus!
