//! The rules that say how deep a snapshot goes.
//!
//! A set of rules maps patterns for the first component of a path to a depth, or
//! to a further set of rules for what follows that component.
use vstd::prelude::*;

use crate::path;
use crate::path::{chop_path_root, same_components, FsPath, PathComponent, PathStep, PathView};
use crate::rule_model;
use crate::rule_model::{PatternView, RuleTable, RuleView};

verus! {

/// What a rule is for.
#[derive(Debug)]
pub enum PathPattern {
    /// One path.
    Exact(FsPath),
    /// Any path.
    Wildcard,
}

impl View for PathPattern {
    type V = PatternView;

    open spec fn view(&self) -> PatternView {
        match self {
            PathPattern::Exact(path) => PatternView::Exact(path@),
            PathPattern::Wildcard => PatternView::Wildcard,
        }
    }
}

/// What each of a sequence of patterns holds.
pub open spec fn pattern_views(patterns: Seq<PathPattern>) -> Seq<PatternView> {
    Seq::new(patterns.len(), |i: int| patterns[i]@)
}

/// The pattern that is written as `text`: `*` is the wildcard, anything else is a
/// path.
pub open spec fn written_pattern(text: Seq<char>) -> PatternView {
    if text == "*"@ {
        PatternView::Wildcard
    } else {
        PatternView::Exact(
            PathView {
                text: path::NameView::Text(text),
                components: path::read_components(text),
                steps: path::path_steps(text),
            },
        )
    }
}

impl PathPattern {
    /// The pattern that is written as `text`.
    pub fn parse(text: &str) -> (res: PathPattern)
        ensures
            res@ == written_pattern(text@),
    {
        let owned = text.to_owned();
        let star = "*".to_owned();
        if owned == star {
            PathPattern::Wildcard
        } else {
            PathPattern::Exact(FsPath::parse(text))
        }
    }

    /// Whether the pattern stands for `path`.
    pub fn matches(&self, path: &FsPath) -> (res: bool)
        ensures
            res == self@.matches(path@.components),
    {
        self.matches_components(path.components.as_slice())
    }

    /// Whether the pattern stands for the path with these components.
    pub fn matches_components(&self, path: &[PathComponent]) -> (res: bool)
        ensures
            res == self@.matches(path::component_views(path@)),
    {
        match self {
            PathPattern::Exact(exact) => same_components(exact.components.as_slice(), path),
            PathPattern::Wildcard => true,
        }
    }

    /// Whether two patterns are equal.
    pub fn same_as(&self, other: &PathPattern) -> (res: bool)
        ensures
            res == self@.same(other@),
    {
        match (self, other) {
            (PathPattern::Exact(a), PathPattern::Exact(b)) => a.same_as(b),
            (PathPattern::Wildcard, PathPattern::Wildcard) => true,
            _ => false,
        }
    }
}

impl PartialEq for PathPattern {
    fn eq(&self, other: &PathPattern) -> (res: bool) {
        self.same_as(other)
    }
}

impl vstd::std_specs::cmp::PartialEqSpecImpl for PathPattern {
    open spec fn obeys_eq_spec() -> bool {
        true
    }

    open spec fn eq_spec(&self, other: &PathPattern) -> bool {
        self@.same(other@)
    }
}

impl Eq for PathPattern {

}

impl Clone for PathPattern {
    fn clone(&self) -> (res: Self)
        ensures
            res@ == self@,
    {
        match self {
            PathPattern::Exact(path) => PathPattern::Exact(path.clone()),
            PathPattern::Wildcard => PathPattern::Wildcard,
        }
    }
}

impl std::str::FromStr for PathPattern {
    type Err = ();

    fn from_str(s: &str) -> (res: Result<Self, ()>)
        ensures
            res matches Ok(pattern) && pattern@ == written_pattern(s@),
    {
        Ok(PathPattern::parse(s))
    }
}

/// How deep a snapshot goes below a path.
#[derive(Debug)]
pub enum SnapshotRule {
    /// It goes as deep as the rules for what follows say.
    RuleSet(SnapshotRuleSet),
    /// It goes this many levels deep.
    Single(u32),
}

/// Rules for what a directory holds. For a path the first rule counts that
/// grants it any depth.
#[derive(Debug)]
pub struct SnapshotRuleSet {
    rules: Vec<(PathPattern, SnapshotRule)>,
}

impl View for SnapshotRule {
    type V = RuleView;

    open spec fn view(&self) -> RuleView {
        self.tree()
    }
}

impl View for SnapshotRuleSet {
    type V = RuleTable;

    open spec fn view(&self) -> RuleTable {
        self.table()
    }
}

impl SnapshotRule {
    /// What the rule holds.
    pub open spec fn tree(&self) -> RuleView
        decreases self,
    {
        match self {
            SnapshotRule::RuleSet(set) => RuleView::RuleSet(set.table()),
            SnapshotRule::Single(depth) => RuleView::Single(*depth),
        }
    }
}

impl SnapshotRuleSet {
    /// What the set holds.
    pub closed spec fn table(&self) -> RuleTable
        decreases self,
    {
        Seq::new(
            self.rules@.len(),
            |i: int|
                if 0 <= i < self.rules@.len() {
                    (self.rules@[i].0@, self.rules@[i].1.tree())
                } else {
                    arbitrary()
                },
        )
    }
}

impl SnapshotRule {
    /// The depth, if the rule is one.
    pub fn single(self) -> (res: Option<u32>)
        ensures
            res == match self@ {
                RuleView::Single(depth) => Some(depth),
                RuleView::RuleSet(_) => None,
            },
    {
        match self {
            SnapshotRule::Single(depth) => Some(depth),
            SnapshotRule::RuleSet(_) => None,
        }
    }

    /// The set of rules, if the rule is one.
    pub fn ruleset(self) -> (res: Option<SnapshotRuleSet>)
        ensures
            match self@ {
                RuleView::Single(_) => res is None,
                RuleView::RuleSet(table) => res matches Some(set) && set@ == table,
            },
    {
        match self {
            SnapshotRule::RuleSet(set) => Some(set),
            SnapshotRule::Single(_) => None,
        }
    }

    /// How many levels the rule grants below `path`, if it grants any.
    pub fn query(&self, path: &FsPath) -> (res: Option<u32>)
        ensures
            res == rule_model::granted(self@, path@.steps),
    {
        self.query_steps(path.steps.as_slice())
    }

    /// How many levels the rule grants below the path that these steps lead along.
    pub fn query_steps(&self, path: &[PathStep]) -> (res: Option<u32>)
        ensures
            res == rule_model::granted(self@, path::step_views(path@)),
        decreases self,
    {
        match self {
            SnapshotRule::RuleSet(set) => set.query_steps(path),
            SnapshotRule::Single(depth) => {
                let count: usize = if path.len() == 0 {
                    0
                } else {
                    path[0].count
                };
                let path_depth: u32 = (count as u64 % 0x1_0000_0000u64) as u32;
                depth.checked_sub(path_depth)
            },
        }
    }

    /// Whether the rule can contribute to a snapshot. A set of rules that holds
    /// nothing but empty sets, for example, cannot, and need not be visited.
    pub fn should_visit(&self) -> (res: bool)
        ensures
            res == rule_model::contributes(self@),
        decreases self,
    {
        match self {
            SnapshotRule::Single(_) => true,
            SnapshotRule::RuleSet(set) => {
                proof {
                    rule_model::lemma_set_contributes(set@);
                }
                set.should_visit()
            },
        }
    }
}

impl SnapshotRuleSet {
    /// A set without rules.
    pub fn new() -> (res: Self)
        ensures
            res@ == RuleTable::empty(),
    {
        let res = SnapshotRuleSet { rules: Vec::new() };
        assert(res@ =~= RuleTable::empty());
        res
    }

    /// The set of these rules, tried in this order.
    pub fn restore(rules: Vec<(PathPattern, SnapshotRule)>) -> (res: Self)
        ensures
            res@ == entry_views(rules@),
    {
        let res = SnapshotRuleSet { rules };
        assert(res@ =~= entry_views(rules@));
        res
    }

    /// The rules that a new track starts with: whatever the directory holds, and two
    /// levels below that.
    pub fn initial() -> (res: Self)
        ensures
            res@ == seq![(PatternView::Wildcard, RuleView::Single(2))],
    {
        let mut res = SnapshotRuleSet::new();
        res.add_rule(PathPattern::Wildcard, SnapshotRule::Single(2));
        proof {
            rule_model::lemma_no_rule_index(RuleTable::empty(), PatternView::Wildcard);
        }
        assert(res@ =~= seq![(PatternView::Wildcard, RuleView::Single(2))]);
        res
    }

    /// Where the rule for `pattern` stands.
    fn rule_position(&self, pattern: &PathPattern) -> (res: Option<usize>)
        ensures
            match res {
                Some(i) => i < self.rules@.len() && rule_model::rule_index(self@, pattern@) == Some(
                    i as int,
                ),
                None => rule_model::rule_index(self@, pattern@) is None,
            },
    {
        let mut i: usize = 0;
        while i < self.rules.len()
            invariant
                i <= self.rules@.len(),
                self@.len() == self.rules@.len(),
                forall|j: int| 0 <= j < i ==> !(#[trigger] self@[j]).0.same(pattern@),
            decreases self.rules@.len() - i,
        {
            assert(self@[i as int].0 == self.rules@[i as int].0@);
            if self.rules[i].0.same_as(pattern) {
                proof {
                    rule_model::lemma_rule_index(self@, pattern@, i as int);
                }
                return Some(i);
            }
            i = i + 1;
        }
        proof {
            rule_model::lemma_no_rule_index(self@, pattern@);
        }
        None
    }

    /// The rule for `pattern`.
    pub fn find_rule(&self, pattern: &PathPattern) -> (res: Option<&SnapshotRule>)
        ensures
            match rule_model::found_rule(self@, pattern@) {
                Some(rule) => res matches Some(found) && found@ == rule,
                None => res is None,
            },
    {
        match self.rule_position(pattern) {
            Some(i) => {
                assert(self@[i as int].1 == self.rules@[i as int].1@);
                Some(&self.rules[i].1)
            },
            None => None,
        }
    }

    /// The rule for `pattern`, to be changed in place.
    pub fn find_rule_mut(&mut self, pattern: &PathPattern) -> (res: Option<&mut SnapshotRule>)
        ensures
            match rule_model::found_rule(old(self)@, pattern@) {
                Some(rule) => {
                    &&& res matches Some(found)
                    &&& found@ == rule
                    &&& final(self)@ == rule_model::with_rule(
                        old(self)@,
                        pattern@,
                        final(found)@,
                    )
                },
                None => res is None && final(self)@ == old(self)@,
            },
    {
        match self.rule_position(pattern) {
            Some(i) => {
                let entry = &mut self.rules[i];
                Some(&mut entry.1)
            },
            None => None,
        }
    }

    /// Makes `rule` the rule for `pattern`.
    pub fn add_rule(&mut self, pattern: PathPattern, rule: SnapshotRule)
        ensures
            final(self)@ == rule_model::with_rule(old(self)@, pattern@, rule@),
    {
        match self.rule_position(&pattern) {
            Some(i) => {
                self.rules[i].1 = rule;
            },
            None => {
                self.rules.push((pattern, rule));
            },
        }
    }

    /// How many levels the rules grant below `path`, if they grant any.
    pub fn query(&self, path: &FsPath) -> (res: Option<u32>)
        ensures
            res == rule_model::table_grants(self@, path@.steps),
    {
        self.query_steps(path.steps.as_slice())
    }

    /// How many levels the rules grant below the path that these steps lead along.
    pub fn query_steps(&self, path: &[PathStep]) -> (res: Option<u32>)
        ensures
            res == rule_model::table_grants(self@, path::step_views(path@)),
        decreases self,
    {
        let (root, new_path) = chop_path_root(path);
        let ghost views = path::step_views(path@);
        let mut i: usize = 0;
        while i < self.rules.len()
            invariant
                i <= self.rules@.len(),
                self@.len() == self.rules@.len(),
                views == path::step_views(path@),
                path::component_views(root@) == path::path_root(views),
                path::step_views(new_path@) == path::path_rest(views),
                rule_model::table_grants(self@, views) == rule_model::granted_from(
                    self@,
                    views,
                    i as nat,
                ),
            decreases self.rules@.len() - i,
        {
            let entry = &self.rules[i];
            assert(self@[i as int] == (entry.0@, entry.1@));
            // Named, so that what this rule grants is unfolded.
            let ghost granted_here = rule_model::granted_entry(self@[i as int], views);
            if entry.1.should_visit() && entry.0.matches_components(root) {
                let granted = entry.1.query_steps(new_path);
                if granted.is_some() {
                    return granted;
                }
            }
            i = i + 1;
        }
        None
    }

    /// Whether a rule of the set can contribute to a snapshot.
    pub fn should_visit(&self) -> (res: bool)
        ensures
            res == rule_model::table_contributes(self@),
        decreases self,
    {
        let mut i: usize = 0;
        while i < self.rules.len()
            invariant
                i <= self.rules@.len(),
                self@.len() == self.rules@.len(),
                forall|j: int| 0 <= j < i ==> !rule_model::contributes((#[trigger] self@[j]).1),
            decreases self.rules@.len() - i,
        {
            let entry = &self.rules[i];
            assert(self@[i as int].1 == entry.1@);
            if entry.1.should_visit() {
                assert(rule_model::contributes(self@[i as int].1));
                return true;
            }
            i = i + 1;
        }
        false
    }

    /// Removes the rule for `pattern`. It is an error if there is none.
    pub fn remove_rule(&mut self, pattern: &PathPattern) -> (res: Result<(), ()>)
        ensures
            final(self)@ == rule_model::without_rule(old(self)@, pattern@),
            res is Ok <==> rule_model::found_rule(old(self)@, pattern@) is Some,
            res is Err ==> final(self)@ == old(self)@,
    {
        let ghost table = self@;
        let ghost keep = rule_model::not_for(pattern@);
        let found = self.rule_position(pattern).is_some();
        let mut kept: Vec<(PathPattern, SnapshotRule)> = Vec::new();
        let mut rest: Vec<(PathPattern, SnapshotRule)> = Vec::new();
        std::mem::swap(&mut self.rules, &mut rest);
        let ghost all = rest@;
        assert(table.take(0) =~= RuleTable::empty());
        for entry in it: rest.into_iter()
            invariant
                it.seq() == all,
                table.len() == all.len(),
                forall|j: int|
                    0 <= j < all.len() ==> #[trigger] table[j] == (all[j].0@, all[j].1@),
                entry_views(kept@) == table.take(it.index() as int).filter(keep),
                keep == rule_model::not_for(pattern@),
        {
            let ghost i = it.index() as int;
            assert(entry == all[i]);
            assert(table.take(i + 1).drop_last() =~= table.take(i));
            assert(table.take(i + 1).last() == table[i]);
            reveal(Seq::filter);
            if !entry.0.same_as(pattern) {
                let ghost before = kept@;
                kept.push(entry);
                assert(entry_views(kept@) =~= entry_views(before).push((entry.0@, entry.1@)));
            }
        }
        assert(table.take(table.len() as int) =~= table);
        self.rules = kept;
        assert(self@ =~= entry_views(kept@));
        if found {
            Ok(())
        } else {
            proof {
                lemma_nothing_to_remove(table, pattern@);
            }
            Err(())
        }
    }

    /// Merges the rules of `other` into the set.
    ///
    /// Where both have rules below a pattern, those are merged. Where a depth stands
    /// for a pattern below which `other` has rules, it becomes the default of those
    /// rules: what they do not mention keeps it.
    pub fn update(&mut self, other: Self)
        ensures
            final(self)@ == rule_model::merged(old(self)@, other@),
        decreases other,
    {
        let ghost before = self@;
        let ghost added = other@;
        let ghost all = other.rules@;
        for entry in it: other.rules.into_iter()
            invariant
                it.seq() == all,
                added == entry_views(all),
                forall|j: int|
                    0 <= j < all.len() ==> decreases_to!(other => (#[trigger] all[j]).1),
                self@ == rule_model::merged_prefix(before, added, it.index() as nat),
        {
            assert(decreases_to!(other => all[it.index() as int].1));
            assert(added[it.index() as int] == (entry.0@, entry.1@));
            let ghost table = self@;
            let ghost merged = rule_model::merged_rule(
                rule_model::found_rule(table, entry.0@),
                entry.1@,
            );
            let ghost pattern_view = entry.0@;
            let (pattern, rule) = entry;
            match rule {
                SnapshotRule::Single(depth) => {
                    self.add_rule(pattern, SnapshotRule::Single(depth));
                },
                SnapshotRule::RuleSet(ruleset) => {
                    match self.find_rule_mut(&pattern) {
                        Some(existing) => match existing {
                            SnapshotRule::Single(depth) => {
                                let depth: u32 = *depth;
                                let mut set = SnapshotRuleSet::new();
                                set.update(ruleset);
                                set.add_default(depth);
                                *existing = SnapshotRule::RuleSet(set);
                            },
                            SnapshotRule::RuleSet(set) => {
                                set.update(ruleset);
                            },
                        },
                        None => {
                            self.add_rule(pattern, SnapshotRule::RuleSet(ruleset));
                        },
                    }
                },
            }
            assert(self@ == rule_model::with_rule(table, pattern_view, merged));
        }
    }

    /// Makes `depth` the default for what the rules do not mention: the wildcard rule.
    /// A depth that the wildcard has already stands, and below a set that it has, the
    /// default is put in there.
    fn add_default(&mut self, depth: u32)
        ensures
            final(self)@ == rule_model::with_default(old(self)@, depth),
        decreases *old(self),
    {
        match self.rule_position(&PathPattern::Wildcard) {
            None => {
                self.rules.push((PathPattern::Wildcard, SnapshotRule::Single(depth)));
            },
            Some(i) => {
                assert(self@[i as int].1 == self.rules@[i as int].1@);
                match &mut self.rules[i].1 {
                    SnapshotRule::Single(_) => {},
                    SnapshotRule::RuleSet(inner) => {
                        inner.add_default(depth);
                    },
                }
            },
        }
    }

    /// Puts `rule` under a path of patterns.
    pub fn add_rule_path(&mut self, patterns: &[PathPattern], rule: SnapshotRule)
        requires
            patterns@.len() > 0 || rule@ is RuleSet,
        ensures
            rule_model::nested(pattern_views(patterns@), rule@) matches RuleView::RuleSet(added)
                && final(self)@ == rule_model::merged(old(self)@, added),
    {
        let ghost views = pattern_views(patterns@);
        let ghost inner = rule@;
        let mut other = rule;
        let mut i: usize = patterns.len();
        assert(views.skip(views.len() as int) =~= Seq::<PatternView>::empty());
        while i > 0
            invariant
                i <= patterns@.len(),
                views == pattern_views(patterns@),
                other@ == rule_model::nested(views.skip(i as int), inner),
            decreases i,
        {
            i = i - 1;
            let mut ruleset = SnapshotRuleSet::new();
            ruleset.add_rule(patterns[i].clone(), other);
            other = SnapshotRule::RuleSet(ruleset);
            proof {
                let below = rule_model::nested(views.skip(i + 1), inner);
                rule_model::lemma_no_rule_index(RuleTable::empty(), views[i as int]);
                assert(ruleset@ =~= seq![(views[i as int], below)]);
                assert(views.skip(i as int).drop_first() =~= views.skip(i + 1));
            }
        }
        assert(views.skip(0) =~= views);
        match other.ruleset() {
            Some(set) => {
                self.update(set);
            },
            None => {
                assert(false);
            },
        }
    }

    /// Removes the rule at the end of a path of patterns. It is an error if there
    /// is none.
    pub fn remove_rule_path(&mut self, patterns: &[PathPattern]) -> (res: Result<(), ()>)
        requires
            patterns@.len() > 0,
        ensures
            res is Ok <==> rule_model::rule_at(old(self)@, pattern_views(patterns@)) is Some,
            res is Ok ==> final(self)@ == rule_model::without_rule_at(
                old(self)@,
                pattern_views(patterns@),
            ),
            res is Err ==> final(self)@ == old(self)@,
        decreases patterns@.len(),
    {
        let ghost views = pattern_views(patterns@);
        if patterns.len() == 1 {
            self.remove_rule(&patterns[0])
        } else {
            match self.find_rule_mut(&patterns[0]) {
                None => Err(()),
                Some(rule) => match rule {
                    SnapshotRule::Single(_) => Err(()),
                    SnapshotRule::RuleSet(ruleset) => {
                        let rest = &patterns[1..patterns.len()];
                        assert(pattern_views(rest@) =~= views.drop_first());
                        ruleset.remove_rule_path(rest)
                    },
                },
            }
        }
    }

    /// The rule at the end of a path of patterns.
    pub fn find_rule_path(&self, patterns: &[PathPattern]) -> (res: Option<&SnapshotRule>)
        ensures
            match rule_model::rule_at(self@, pattern_views(patterns@)) {
                Some(rule) => res matches Some(found) && found@ == rule,
                None => res is None,
            },
        decreases patterns@.len(),
    {
        let ghost views = pattern_views(patterns@);
        if patterns.len() == 0 {
            return None;
        }
        match self.find_rule(&patterns[0]) {
            None => None,
            Some(rule) => if patterns.len() == 1 {
                Some(rule)
            } else {
                match rule {
                    SnapshotRule::Single(_) => None,
                    SnapshotRule::RuleSet(ruleset) => {
                        let rest = &patterns[1..patterns.len()];
                        assert(pattern_views(rest@) =~= views.drop_first());
                        ruleset.find_rule_path(rest)
                    },
                }
            },
        }
    }

    /// Simplifies every rule of the set: a set of nothing but a wildcard with a depth
    /// is that depth and one level more.
    pub fn simplify(&mut self)
        requires
            rule_model::can_simplify_table(old(self)@),
        ensures
            final(self)@ == rule_model::simplified_table(old(self)@),
        decreases *old(self), 1nat,
    {
        let ghost before = self@;
        let ghost all = self.rules@;
        let mut i: usize = 0;
        while i < self.rules.len()
            invariant
                i <= self.rules@.len(),
                self.rules@.len() == all.len(),
                all == old(self).rules@,
                before == entry_views(all),
                rule_model::can_simplify_table(before),
                forall|j: int| i <= j < all.len() ==> #[trigger] self.rules@[j] == all[j],
                forall|j: int|
                    0 <= j < i ==> (#[trigger] self.rules@[j]).0@ == before[j].0
                        && self.rules@[j].1@ == rule_model::simplified(before[j].1),
            decreases self.rules@.len() - i,
        {
            assert(self.rules@[i as int] == all[i as int]);
            assert(before[i as int].1 == all[i as int].1@);
            Self::simplify_rule(&mut self.rules[i].1);
            i = i + 1;
        }
        assert(self@ =~= rule_model::simplified_table(before));
    }

    /// Simplifies one rule.
    fn simplify_rule(rule: &mut SnapshotRule)
        requires
            rule_model::can_simplify(old(rule)@),
        ensures
            final(rule)@ == rule_model::simplified(old(rule)@),
        decreases *old(rule), 0nat,
    {
        let ghost before = rule@;
        let mut depth_below: Option<u32> = None;
        match rule {
            SnapshotRule::Single(_) => {},
            SnapshotRule::RuleSet(ruleset) => {
                let ghost table = ruleset@;
                proof {
                    rule_model::lemma_can_simplify_inside(table);
                    rule_model::lemma_collapse_in_steps(table);
                }
                ruleset.simplify();
                depth_below = ruleset.lone_wildcard_depth();
            },
        }
        match depth_below {
            Some(depth) => {
                *rule = SnapshotRule::Single(depth + 1);
            },
            None => {},
        }
    }

    /// The depth of the set's wildcard, if that is the only rule and is a depth.
    fn lone_wildcard_depth(&self) -> (res: Option<u32>)
        ensures
            res == rule_model::lone_wildcard_depth(self@),
    {
        if self.rules.len() == 1 {
            assert(self@[0] == (self.rules@[0].0@, self.rules@[0].1@));
            match (&self.rules[0].0, &self.rules[0].1) {
                (PathPattern::Wildcard, SnapshotRule::Single(depth)) => Some(*depth),
                _ => None,
            }
        } else {
            None
        }
    }

    /// Simplifies the rule at the end of a path of patterns. It is an error if there
    /// is none.
    pub fn simplify_path(&mut self, patterns: &[PathPattern]) -> (res: Result<(), ()>)
        requires
            patterns@.len() > 0,
            rule_model::rule_at(old(self)@, pattern_views(patterns@)) matches Some(rule)
                ==> rule_model::can_simplify(rule),
        ensures
            res is Ok <==> rule_model::rule_at(old(self)@, pattern_views(patterns@)) is Some,
            res is Ok ==> final(self)@ == rule_model::simplified_at(
                old(self)@,
                pattern_views(patterns@),
            ),
            res is Err ==> final(self)@ == old(self)@,
        decreases patterns@.len(),
    {
        let ghost views = pattern_views(patterns@);
        match self.find_rule_mut(&patterns[0]) {
            None => Err(()),
            Some(rule) => if patterns.len() == 1 {
                Self::simplify_rule(rule);
                Ok(())
            } else {
                match rule {
                    SnapshotRule::Single(_) => Err(()),
                    SnapshotRule::RuleSet(set) => {
                        let rest = &patterns[1..patterns.len()];
                        assert(pattern_views(rest@) =~= views.drop_first());
                        set.simplify_path(rest)
                    },
                }
            },
        }
    }

    /// Whether every rule of the set can be simplified without a depth beyond `u32`.
    pub fn can_simplify(&self) -> (res: bool)
        ensures
            res == rule_model::can_simplify_table(self@),
        decreases self,
    {
        let mut i: usize = 0;
        while i < self.rules.len()
            invariant
                i <= self.rules@.len(),
                self@.len() == self.rules@.len(),
                forall|j: int| 0 <= j < i ==> rule_model::can_simplify((#[trigger] self@[j]).1),
            decreases self.rules@.len() - i,
        {
            let entry = &self.rules[i];
            assert(self@[i as int].1 == entry.1@);
            if !entry.1.can_simplify() {
                return false;
            }
            i = i + 1;
        }
        true
    }

    /// What the set amounts to, if it amounts to a depth: the depth, or `None` for one
    /// beyond `u32`.
    fn collapsed_depth(&self) -> (res: Option<Option<u32>>)
        ensures
            res == rule_model::as_depth(rule_model::collapsed(RuleView::RuleSet(self@))),
        decreases self,
    {
        if self.rules.len() == 1 {
            let entry = &self.rules[0];
            assert(self@[0] == (entry.0@, entry.1@));
            match &entry.0 {
                PathPattern::Exact(_) => None,
                PathPattern::Wildcard => match entry.1.collapsed_depth() {
                    Some(Some(depth)) => Some(depth.checked_add(1)),
                    Some(None) => Some(None),
                    None => None,
                },
            }
        } else {
            None
        }
    }

    /// The rules, in the order in which they are tried.
    pub fn iter_rules(&self) -> (res: std::slice::Iter<'_, (PathPattern, SnapshotRule)>)
        ensures
            entry_views(vstd::std_specs::iter::IteratorSpec::remaining(&res).unref()) == self@,
            vstd::std_specs::iter::IteratorSpec::decrease(&res) is Some,
            vstd::std_specs::iter::IteratorSpec::initial_value_relation(&res, &res),
    {
        let res = self.rules.iter();
        assert(vstd::std_specs::iter::IteratorSpec::remaining(&res).unref() =~= self.rules@);
        assert(entry_views(self.rules@) =~= self@);
        res
    }

    /// The rules, in the order in which they are tried, to be changed in place.
    pub fn iter_mut_rules(&mut self) -> (res: &mut [(PathPattern, SnapshotRule)])
        ensures
            entry_views(res@) == old(self)@,
            final(self)@ == entry_views(final(res)@),
    {
        assert(entry_views(self.rules@) =~= self@);
        self.rules.as_mut_slice()
    }
}

impl SnapshotRule {
    /// Whether the rule can be simplified without a depth beyond `u32`.
    pub fn can_simplify(&self) -> (res: bool)
        ensures
            res == rule_model::can_simplify(self@),
        decreases self,
    {
        match self.collapsed_depth() {
            Some(depth) => depth.is_some(),
            None => match self {
                SnapshotRule::Single(_) => true,
                SnapshotRule::RuleSet(set) => {
                    proof {
                        rule_model::lemma_can_simplify_set(set@);
                    }
                    set.can_simplify()
                },
            },
        }
    }

    /// What the rule amounts to, if it amounts to a depth: the depth, or `None` for one
    /// beyond `u32`.
    fn collapsed_depth(&self) -> (res: Option<Option<u32>>)
        ensures
            res == rule_model::as_depth(rule_model::collapsed(self@)),
        decreases self,
    {
        match self {
            SnapshotRule::Single(depth) => Some(Some(*depth)),
            SnapshotRule::RuleSet(set) => set.collapsed_depth(),
        }
    }
}

impl Default for SnapshotRuleSet {
    fn default() -> (res: Self)
        ensures
            res@ == RuleTable::empty(),
    {
        SnapshotRuleSet::new()
    }
}

impl Clone for SnapshotRule {
    fn clone(&self) -> (res: Self)
        ensures
            res@ == self@,
        decreases self,
    {
        match self {
            SnapshotRule::RuleSet(set) => SnapshotRule::RuleSet(set.clone()),
            SnapshotRule::Single(depth) => SnapshotRule::Single(*depth),
        }
    }
}

impl Clone for SnapshotRuleSet {
    fn clone(&self) -> (res: Self)
        ensures
            res@ == self@,
        decreases self,
    {
        let mut rules: Vec<(PathPattern, SnapshotRule)> = Vec::new();
        let mut i: usize = 0;
        while i < self.rules.len()
            invariant
                i <= self.rules@.len(),
                rules@.len() == i,
                forall|j: int|
                    0 <= j < i ==> (#[trigger] rules@[j]).0@ == self.rules@[j].0@ && rules@[j].1@
                        == self.rules@[j].1@,
            decreases self.rules@.len() - i,
        {
            let entry = &self.rules[i];
            rules.push((entry.0.clone(), entry.1.clone()));
            i = i + 1;
        }
        let res = SnapshotRuleSet { rules };
        assert(res@ =~= self@);
        res
    }
}

/// What each of a sequence of rules holds.
pub open spec fn entry_views(entries: Seq<(PathPattern, SnapshotRule)>) -> RuleTable {
    Seq::new(entries.len(), |i: int| (entries[i].0@, entries[i].1@))
}

/// A table without a rule for the pattern has none to lose.
proof fn lemma_nothing_to_remove(table: RuleTable, pattern: PatternView)
    requires
        rule_model::rule_index(table, pattern) is None,
    ensures
        rule_model::without_rule(table, pattern) == table,
{
    rule_model::lemma_absent(table, pattern);
    rule_model::lemma_filter_all(table, rule_model::not_for(pattern));
}

} // verus!
