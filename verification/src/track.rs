//! The track of a directory: its rules, and the snapshots taken of it.
use vstd::prelude::*;

use crate::path::{FsPath, PathView};
use crate::rule_model::RuleTable;
use crate::rules::SnapshotRuleSet;
use crate::snapshot::{FSSnapshot, SnapshotView};

verus! {

/// A directory that is tracked.
#[derive(Debug)]
pub struct FSTrack {
    root: FsPath,
    snapshot_ruleset: SnapshotRuleSet,
    snapshots: Vec<FSSnapshot>,
}

/// What an [`FSTrack`] holds.
#[verifier::ext_equal]
pub ghost struct TrackView {
    pub root: PathView,
    pub rules: RuleTable,
    pub snapshots: Seq<SnapshotView>,
}

/// What each of a sequence of snapshots holds.
pub open spec fn snapshot_views(snapshots: Seq<FSSnapshot>) -> Seq<SnapshotView> {
    Seq::new(snapshots.len(), |i: int| snapshots[i]@)
}

/// Whether no snapshot is older than the one before it.
pub open spec fn in_order(snapshots: Seq<SnapshotView>) -> bool {
    forall|i: int, j: int|
        0 <= i < j < snapshots.len() ==> (#[trigger] snapshots[i]).time <= (
        #[trigger] snapshots[j]).time
}

impl View for FSTrack {
    type V = TrackView;

    closed spec fn view(&self) -> TrackView {
        TrackView {
            root: self.root@,
            rules: self.snapshot_ruleset@,
            snapshots: snapshot_views(self.snapshots@),
        }
    }
}

impl FSTrack {
    /// The track of `root`, without snapshots.
    pub fn new(root: FsPath, snapshot_ruleset: SnapshotRuleSet) -> (res: Self)
        ensures
            res@ == (TrackView {
                root: root@,
                rules: snapshot_ruleset@,
                snapshots: Seq::empty(),
            }),
    {
        let res = FSTrack { root, snapshot_ruleset, snapshots: Vec::new() };
        assert(res@.snapshots =~= Seq::<SnapshotView>::empty());
        res
    }

    /// The track of `root` that `snapshots` were taken for.
    pub fn restore(
        root: FsPath,
        snapshot_ruleset: SnapshotRuleSet,
        snapshots: Vec<FSSnapshot>,
    ) -> (res: Self)
        ensures
            res@ == (TrackView {
                root: root@,
                rules: snapshot_ruleset@,
                snapshots: snapshot_views(snapshots@),
            }),
    {
        FSTrack { root, snapshot_ruleset, snapshots }
    }

    /// The directory that is tracked.
    pub fn root_path(&self) -> (res: &FsPath)
        ensures
            res@ == self@.root,
    {
        &self.root
    }

    /// The rules that snapshots are taken by.
    pub fn snapshot_ruleset(&self) -> (res: &SnapshotRuleSet)
        ensures
            res@ == self@.rules,
    {
        &self.snapshot_ruleset
    }

    /// The rules that snapshots are taken by, to be changed.
    pub fn snapshot_ruleset_mut(&mut self) -> (res: &mut SnapshotRuleSet)
        ensures
            res@ == old(self)@.rules,
            final(self)@ == (TrackView { rules: final(res)@, ..old(self)@ }),
    {
        &mut self.snapshot_ruleset
    }

    /// The snapshots, oldest first.
    pub fn snapshots(&self) -> (res: &[FSSnapshot])
        ensures
            snapshot_views(res@) == self@.snapshots,
    {
        self.snapshots.as_slice()
    }

    /// Adds a snapshot, which must not be older than those that there are.
    pub fn add_snapshot(&mut self, snapshot: FSSnapshot)
        requires
            old(self)@.snapshots.len() > 0 ==> old(self)@.snapshots.last().time <= snapshot@.time,
        ensures
            final(self)@ == (TrackView {
                snapshots: old(self)@.snapshots.push(snapshot@),
                ..old(self)@
            }),
            in_order(old(self)@.snapshots) ==> in_order(final(self)@.snapshots),
    {
        let ghost before = self.snapshots@;
        self.snapshots.push(snapshot);
        assert(snapshot_views(self.snapshots@) =~= snapshot_views(before).push(snapshot@));
    }

    /// Whether a snapshot taken at `time` would be older than the newest.
    pub fn is_outdated(&self, time: u64) -> (res: bool)
        ensures
            res == (self@.snapshots.len() > 0 && self@.snapshots.last().time > time),
    {
        match self.latest_snapshot() {
            Some(snapshot) => snapshot.time > time,
            None => false,
        }
    }

    /// How many snapshots there are.
    pub fn count_snapshots(&self) -> (res: usize)
        ensures
            res == self@.snapshots.len(),
    {
        self.snapshots.len()
    }

    /// The newest snapshot.
    pub fn latest_snapshot(&self) -> (res: Option<&FSSnapshot>)
        ensures
            if self@.snapshots.len() > 0 {
                res matches Some(snapshot) && snapshot@ == self@.snapshots.last()
            } else {
                res is None
            },
    {
        if self.snapshots.len() == 0 {
            None
        } else {
            Some(&self.snapshots[self.snapshots.len() - 1])
        }
    }

    /// The snapshot with the number `id`. They are numbered from 0, oldest first.
    pub fn get_snapshot(&self, id: u32) -> (res: Option<&FSSnapshot>)
        ensures
            if id < self@.snapshots.len() {
                res matches Some(snapshot) && snapshot@ == self@.snapshots[id as int]
            } else {
                res is None
            },
    {
        let index: usize = id as usize;
        if index < self.snapshots.len() {
            Some(&self.snapshots[index])
        } else {
            None
        }
    }
}

impl Clone for FSTrack {
    fn clone(&self) -> (res: Self)
        ensures
            res@ == self@,
    {
        let mut snapshots: Vec<FSSnapshot> = Vec::new();
        let mut i: usize = 0;
        while i < self.snapshots.len()
            invariant
                i <= self.snapshots@.len(),
                snapshots@.len() == i,
                forall|j: int| 0 <= j < i ==> (#[trigger] snapshots@[j])@ == self.snapshots@[j]@,
            decreases self.snapshots@.len() - i,
        {
            snapshots.push(self.snapshots[i].clone());
            i = i + 1;
        }
        assert(snapshot_views(snapshots@) =~= snapshot_views(self.snapshots@));
        FSTrack {
            root: self.root.clone(),
            snapshot_ruleset: self.snapshot_ruleset.clone(),
            snapshots,
        }
    }
}

} // verus!
