//! Rule trees as mathematical values, and what each operation makes of them.
use vstd::prelude::*;

use crate::path;
use crate::path::{ComponentView, PathView, StepView};

verus! {

/// What a [`PathPattern`](crate::rules::PathPattern) holds.
#[verifier::ext_equal]
pub ghost enum PatternView {
    Exact(PathView),
    Wildcard,
}

/// What a [`SnapshotRule`](crate::rules::SnapshotRule) holds.
#[verifier::ext_equal]
pub ghost enum RuleView {
    RuleSet(Seq<(PatternView, RuleView)>),
    Single(u32),
}

/// What a [`SnapshotRuleSet`](crate::rules::SnapshotRuleSet) holds: its rules, in
/// the order in which they are tried.
pub type RuleTable = Seq<(PatternView, RuleView)>;

impl PatternView {
    /// Whether two patterns are equal. How an exact path is written does not
    /// count, its components do.
    pub open spec fn same(self, other: PatternView) -> bool {
        match (self, other) {
            (PatternView::Exact(a), PatternView::Exact(b)) => path::identities(a.components)
                == path::identities(b.components),
            (PatternView::Wildcard, PatternView::Wildcard) => true,
            _ => false,
        }
    }

    /// Whether the pattern stands for `path`.
    pub open spec fn matches(self, path: Seq<ComponentView>) -> bool {
        match self {
            PatternView::Exact(exact) => path::identities(exact.components) == path::identities(
                path,
            ),
            PatternView::Wildcard => true,
        }
    }
}

/// Whether rule `i` is the first one for `pattern`.
pub open spec fn is_rule_index(table: RuleTable, pattern: PatternView, i: int) -> bool {
    &&& 0 <= i < table.len()
    &&& table[i].0.same(pattern)
    &&& forall|j: int| 0 <= j < i ==> !(#[trigger] table[j]).0.same(pattern)
}

/// Where the rule for `pattern` stands.
pub open spec fn rule_index(table: RuleTable, pattern: PatternView) -> Option<int> {
    if exists|i: int| is_rule_index(table, pattern, i) {
        Some(choose|i: int| is_rule_index(table, pattern, i))
    } else {
        None
    }
}

/// The rule for `pattern`.
pub open spec fn found_rule(table: RuleTable, pattern: PatternView) -> Option<RuleView> {
    match rule_index(table, pattern) {
        Some(i) => Some(table[i].1),
        None => None,
    }
}

/// The table whose rule for `pattern` is `rule`: in the place of the rule that
/// was there, or else at the end.
pub open spec fn with_rule(table: RuleTable, pattern: PatternView, rule: RuleView) -> RuleTable {
    match rule_index(table, pattern) {
        Some(i) => table.update(i, (table[i].0, rule)),
        None => table.push((pattern, rule)),
    }
}

/// Holds of the rules that are not for `pattern`.
pub open spec fn not_for(pattern: PatternView) -> spec_fn((PatternView, RuleView)) -> bool {
    |entry: (PatternView, RuleView)| !entry.0.same(pattern)
}

/// The table without the rules for `pattern`.
pub open spec fn without_rule(table: RuleTable, pattern: PatternView) -> RuleTable {
    table.filter(not_for(pattern))
}

/// The table with the rules of `other` merged in, one after the other.
pub open spec fn merged(table: RuleTable, other: RuleTable) -> RuleTable
    decreases other, other.len() + 1,
{
    merged_prefix(table, other, other.len())
}

/// The table with the first `n` rules of `other` merged in.
pub open spec fn merged_prefix(table: RuleTable, other: RuleTable, n: nat) -> RuleTable
    decreases other, n,
{
    if n == 0 || n > other.len() {
        table
    } else {
        let before = merged_prefix(table, other, (n - 1) as nat);
        let (pattern, rule) = other[n - 1];
        with_rule(before, pattern, merged_rule(found_rule(before, pattern), rule))
    }
}

/// What becomes of the rule that a pattern has when another is merged in.
///
/// A depth replaces whatever rule there was. A set of rules is merged into the set
/// that there was; where there was a depth, it becomes the default of the set.
pub open spec fn merged_rule(existing: Option<RuleView>, rule: RuleView) -> RuleView
    decreases rule, 0nat,
{
    match rule {
        RuleView::Single(_) => rule,
        RuleView::RuleSet(rules) => match existing {
            None => rule,
            Some(RuleView::Single(depth)) => RuleView::RuleSet(
                with_default(merged(Seq::empty(), rules), depth),
            ),
            Some(RuleView::RuleSet(inner)) => RuleView::RuleSet(merged(inner, rules)),
        },
    }
}

/// The table with `depth` as the default for what its rules do not mention: a wildcard
/// rule with that depth. A depth that the wildcard has already stands, and below a set
/// that it has, the default is put in there.
pub open spec fn with_default(table: RuleTable, depth: u32) -> RuleTable
    decreases table,
{
    match rule_index(table, PatternView::Wildcard) {
        None => table.push((PatternView::Wildcard, RuleView::Single(depth))),
        Some(i) => match table[i].1 {
            RuleView::Single(_) => table,
            RuleView::RuleSet(inner) => {
                proof {
                    assert(is_rule_index(table, PatternView::Wildcard, i));
                    assert(decreases_to!(table => table[i]));
                    assert(decreases_to!(table[i] => table[i].1));
                }
                table.update(i, (table[i].0, RuleView::RuleSet(with_default(inner, depth))))
            },
        },
    }
}

/// The rule that puts `rule` under a path of patterns.
pub open spec fn nested(patterns: Seq<PatternView>, rule: RuleView) -> RuleView
    decreases patterns.len(),
{
    if patterns.len() == 0 {
        rule
    } else {
        RuleView::RuleSet(seq![(patterns[0], nested(patterns.drop_first(), rule))])
    }
}

/// The rule at the end of a path of patterns.
pub open spec fn rule_at(table: RuleTable, patterns: Seq<PatternView>) -> Option<RuleView>
    decreases patterns.len(),
{
    if patterns.len() == 0 {
        None
    } else {
        match found_rule(table, patterns[0]) {
            None => None,
            Some(rule) => if patterns.len() == 1 {
                Some(rule)
            } else {
                match rule {
                    RuleView::Single(_) => None,
                    RuleView::RuleSet(inner) => rule_at(inner, patterns.drop_first()),
                }
            },
        }
    }
}

/// The table without the rule at the end of a path of patterns.
pub open spec fn without_rule_at(table: RuleTable, patterns: Seq<PatternView>) -> RuleTable
    decreases patterns.len(),
{
    if patterns.len() <= 1 {
        without_rule(table, patterns[0])
    } else {
        match found_rule(table, patterns[0]) {
            Some(RuleView::RuleSet(inner)) => with_rule(
                table,
                patterns[0],
                RuleView::RuleSet(without_rule_at(inner, patterns.drop_first())),
            ),
            _ => table,
        }
    }
}

/// The depth that a rule amounts to, if it amounts to one: a depth does, and so does
/// a set of nothing but a wildcard rule that does, to one level more.
pub open spec fn collapsed(rule: RuleView) -> Option<nat>
    decreases rule,
{
    match rule {
        RuleView::Single(depth) => Some(depth as nat),
        RuleView::RuleSet(table) => if table.len() == 1 && table[0].0 is Wildcard {
            match collapsed(table[0].1) {
                Some(depth) => Some(depth + 1),
                None => None,
            }
        } else {
            None
        },
    }
}

/// Whether the rule can be simplified: no depth that comes out of it, at any level,
/// is beyond `u32`.
pub open spec fn can_simplify(rule: RuleView) -> bool
    decreases rule,
{
    match collapsed(rule) {
        Some(depth) => depth <= u32::MAX,
        None => match rule {
            RuleView::Single(_) => true,
            RuleView::RuleSet(table) => forall|i: int|
                0 <= i < table.len() ==> can_simplify((#[trigger] table[i]).1),
        },
    }
}

/// Whether every rule of the table can be simplified.
pub open spec fn can_simplify_table(table: RuleTable) -> bool {
    forall|i: int| 0 <= i < table.len() ==> can_simplify((#[trigger] table[i]).1)
}

/// The rule, with every set that amounts to a depth replaced by that depth.
pub open spec fn simplified(rule: RuleView) -> RuleView
    decreases rule, 0nat,
{
    match collapsed(rule) {
        Some(depth) => RuleView::Single(depth as u32),
        None => match rule {
            RuleView::Single(_) => rule,
            RuleView::RuleSet(table) => RuleView::RuleSet(simplified_table(table)),
        },
    }
}

/// The table with every rule simplified.
pub open spec fn simplified_table(table: RuleTable) -> RuleTable
    decreases table, 1nat,
{
    Seq::new(
        table.len(),
        |i: int|
            if 0 <= i < table.len() {
                (table[i].0, simplified(table[i].1))
            } else {
                table[i]
            },
    )
}

/// The table with the rule at the end of a path of patterns simplified.
pub open spec fn simplified_at(table: RuleTable, patterns: Seq<PatternView>) -> RuleTable
    decreases patterns.len(),
{
    if patterns.len() == 0 {
        table
    } else {
        match found_rule(table, patterns[0]) {
            None => table,
            Some(rule) => if patterns.len() == 1 {
                with_rule(table, patterns[0], simplified(rule))
            } else {
                match rule {
                    RuleView::Single(_) => table,
                    RuleView::RuleSet(inner) => with_rule(
                        table,
                        patterns[0],
                        RuleView::RuleSet(simplified_at(inner, patterns.drop_first())),
                    ),
                }
            },
        }
    }
}

/// Whether the rule can contribute to a snapshot: a depth can, and a set can
/// when one of its rules can.
pub open spec fn contributes(rule: RuleView) -> bool
    decreases rule,
{
    match rule {
        RuleView::Single(_) => true,
        RuleView::RuleSet(table) => exists|i: int|
            0 <= i < table.len() && contributes((#[trigger] table[i]).1),
    }
}

/// Whether a rule of the table can contribute to a snapshot.
pub open spec fn table_contributes(table: RuleTable) -> bool {
    exists|i: int| 0 <= i < table.len() && contributes((#[trigger] table[i]).1)
}

/// How many levels are left of `depth` below a path of `len` components. The
/// number of components counts modulo 2^32.
pub open spec fn levels_left(depth: u32, len: nat) -> Option<u32> {
    let used = len % 0x1_0000_0000;
    if used <= depth {
        Some((depth - used) as u32)
    } else {
        None
    }
}

/// How many levels the rule grants below `path`, and whether it grants any.
pub open spec fn granted(rule: RuleView, path: Seq<StepView>) -> Option<u32>
    decreases rule, 0nat,
{
    match rule {
        RuleView::Single(depth) => levels_left(depth, path::path_count(path)),
        RuleView::RuleSet(table) => granted_from(table, path, 0),
    }
}

/// What one rule of a table grants to `path`: nothing unless it can contribute and
/// its pattern stands for the root of the path.
pub open spec fn granted_entry(
    entry: (PatternView, RuleView),
    path: Seq<StepView>,
) -> Option<u32>
    decreases entry, 1nat,
{
    if contributes(entry.1) && entry.0.matches(path::path_root(path)) {
        granted(entry.1, path::path_rest(path))
    } else {
        None
    }
}

/// What the rules from the `start`th on grant to `path`: what the first of them
/// that grants anything does.
pub open spec fn granted_from(table: RuleTable, path: Seq<StepView>, start: nat) -> Option<
    u32,
>
    decreases table, table.len() - start,
{
    if start >= table.len() {
        None
    } else {
        match granted_entry(table[start as int], path) {
            Some(depth) => Some(depth),
            None => granted_from(table, path, start + 1),
        }
    }
}

/// What the table grants to `path`.
pub open spec fn table_grants(table: RuleTable, path: Seq<StepView>) -> Option<u32> {
    granted_from(table, path, 0)
}

/// Whether no two rules of a table, at any level, are for one pattern.
pub open spec fn distinct_patterns(table: RuleTable) -> bool
    decreases table,
{
    &&& forall|i: int, j: int|
        0 <= i < j < table.len() ==> !(#[trigger] table[i]).0.same((#[trigger] table[j]).0)
    &&& forall|i: int|
        #![trigger table[i]]
        0 <= i < table.len() ==> match table[i].1 {
            RuleView::Single(_) => true,
            RuleView::RuleSet(inner) => distinct_patterns(inner),
        }
}

/// Pins down where the rule for a pattern stands.
pub proof fn lemma_rule_index(table: RuleTable, pattern: PatternView, i: int)
    requires
        is_rule_index(table, pattern, i),
    ensures
        rule_index(table, pattern) == Some(i),
{
    let k = choose|k: int| is_rule_index(table, pattern, k);
    assert(is_rule_index(table, pattern, k));
    if k < i {
        assert(!table[k].0.same(pattern));
    } else if i < k {
        assert(!table[i].0.same(pattern));
    }
}

/// A table without a rule for the pattern.
pub proof fn lemma_no_rule_index(table: RuleTable, pattern: PatternView)
    requires
        forall|j: int| 0 <= j < table.len() ==> !(#[trigger] table[j]).0.same(pattern),
    ensures
        rule_index(table, pattern) is None,
{
    if exists|i: int| is_rule_index(table, pattern, i) {
        let k = choose|k: int| is_rule_index(table, pattern, k);
        assert(is_rule_index(table, pattern, k));
        assert(!table[k].0.same(pattern));
    }
}

/// A pattern without a rule is none of the patterns of the table.
pub proof fn lemma_absent(table: RuleTable, pattern: PatternView)
    requires
        rule_index(table, pattern) is None,
    ensures
        forall|j: int| 0 <= j < table.len() ==> !(#[trigger] table[j]).0.same(pattern),
{
    assert forall|j: int| 0 <= j < table.len() implies !(#[trigger] table[j]).0.same(pattern) by {
        lemma_absent_up_to(table, pattern, j + 1);
    }
}

proof fn lemma_absent_up_to(table: RuleTable, pattern: PatternView, n: int)
    requires
        rule_index(table, pattern) is None,
        0 <= n <= table.len(),
    ensures
        forall|j: int| 0 <= j < n ==> !(#[trigger] table[j]).0.same(pattern),
    decreases n,
{
    if n > 0 {
        lemma_absent_up_to(table, pattern, n - 1);
        if table[n - 1].0.same(pattern) {
            assert(is_rule_index(table, pattern, n - 1));
        }
    }
}

/// A set of rules contributes when its table does.
pub proof fn lemma_set_contributes(table: RuleTable)
    ensures
        contributes(RuleView::RuleSet(table)) == table_contributes(table),
{
    let rule = RuleView::RuleSet(table);
    if table_contributes(table) {
        let i = choose|i: int| 0 <= i < table.len() && contributes((#[trigger] table[i]).1);
        assert(contributes(rule->RuleSet_0[i].1));
    }
    if contributes(rule) {
        let i = choose|i: int|
            0 <= i < rule->RuleSet_0.len() && contributes((#[trigger] rule->RuleSet_0[i]).1);
        assert(contributes(table[i].1));
    }
}

/// The depth of the wildcard of a table, if that is its only rule and is a depth.
pub open spec fn lone_wildcard_depth(table: RuleTable) -> Option<u32> {
    if table.len() == 1 && table[0].0 is Wildcard {
        match table[0].1 {
            RuleView::Single(depth) => Some(depth),
            RuleView::RuleSet(_) => None,
        }
    } else {
        None
    }
}

/// A set of rules that can be simplified holds rules that can.
pub proof fn lemma_can_simplify_inside(table: RuleTable)
    requires
        can_simplify(RuleView::RuleSet(table)),
    ensures
        can_simplify_table(table),
{
    let rule = RuleView::RuleSet(table);
    assert forall|i: int| 0 <= i < table.len() implies can_simplify((#[trigger] table[i]).1) by {
        if collapsed(rule) is Some {
            assert(i == 0);
            assert(collapsed(table[0].1) is Some);
        } else {
            assert(can_simplify(rule->RuleSet_0[i].1));
        }
    }
}

/// A set amounts to a depth when its rules, once simplified, are a lone wildcard
/// with a depth.
pub proof fn lemma_collapse_in_steps(table: RuleTable)
    requires
        can_simplify(RuleView::RuleSet(table)),
    ensures
        collapsed(RuleView::RuleSet(table)) == match lone_wildcard_depth(simplified_table(table)) {
            Some(depth) => Some((depth + 1) as nat),
            None => None,
        },
{
    lemma_can_simplify_inside(table);
    if table.len() == 1 && table[0].0 is Wildcard {
        assert(can_simplify(table[0].1));
        assert(simplified_table(table)[0] == (table[0].0, simplified(table[0].1)));
    }
}

/// A depth as a `u32`, or `None` for one beyond that.
pub open spec fn as_depth(depth: Option<nat>) -> Option<Option<u32>> {
    match depth {
        Some(depth) => Some(
            if depth <= u32::MAX {
                Some(depth as u32)
            } else {
                None
            },
        ),
        None => None,
    }
}

/// A set that amounts to no depth can be simplified when its rules can.
pub proof fn lemma_can_simplify_set(table: RuleTable)
    ensures
        collapsed(RuleView::RuleSet(table)) is None ==> can_simplify(RuleView::RuleSet(table))
            == can_simplify_table(table),
{
    let rule = RuleView::RuleSet(table);
    if collapsed(rule) is None {
        if can_simplify_table(table) {
            assert forall|i: int| 0 <= i < rule->RuleSet_0.len() implies can_simplify(
                (#[trigger] rule->RuleSet_0[i]).1,
            ) by {
                assert(can_simplify(table[i].1));
            }
        }
        if can_simplify(rule) {
            lemma_can_simplify_inside(table);
        }
    }
}

/// Keeping everything changes nothing.
pub proof fn lemma_filter_all(table: RuleTable, keep: spec_fn((PatternView, RuleView)) -> bool)
    requires
        forall|j: int| 0 <= j < table.len() ==> keep(#[trigger] table[j]),
    ensures
        table.filter(keep) == table,
    decreases table.len(),
{
    reveal(Seq::filter);
    if table.len() > 0 {
        lemma_filter_all(table.drop_last(), keep);
        assert(table.drop_last().push(table.last()) =~= table);
    }
}

} // verus!
