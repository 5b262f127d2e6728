//! Laws of rule tables: what adding, removing, merging and simplifying rules keeps.
use vstd::prelude::*;

use crate::path;
use crate::path::{ComponentView, PathView};
use crate::rule_model;
use crate::rule_model::{PatternView, RuleTable, RuleView};

verus! {

/// Equality of patterns is an equivalence.
pub proof fn law_same_pattern(a: PatternView, b: PatternView, c: PatternView)
    ensures
        a.same(a),
        a.same(b) == b.same(a),
        a.same(b) && b.same(c) ==> a.same(c),
{
}

/// Equal patterns find the same rule.
pub proof fn law_same_pattern_same_rule(table: RuleTable, p: PatternView, q: PatternView)
    requires
        p.same(q),
    ensures
        rule_model::rule_index(table, p) == rule_model::rule_index(table, q),
        rule_model::found_rule(table, p) == rule_model::found_rule(table, q),
{
    assert forall|i: int|
        rule_model::is_rule_index(table, p, i) == rule_model::is_rule_index(table, q, i) by {
        if rule_model::is_rule_index(table, p, i) {
            assert forall|j: int| 0 <= j < i implies !(#[trigger] table[j]).0.same(q) by {
                assert(!table[j].0.same(p));
            }
        }
        if rule_model::is_rule_index(table, q, i) {
            assert forall|j: int| 0 <= j < i implies !(#[trigger] table[j]).0.same(p) by {
                assert(!table[j].0.same(q));
            }
        }
    }
    match rule_model::rule_index(table, p) {
        Some(i) => {
            assert(rule_model::is_rule_index(table, p, i));
            rule_model::lemma_rule_index(table, q, i);
        },
        None => {
            if rule_model::rule_index(table, q) is Some {
                let i = rule_model::rule_index(table, q).unwrap();
                assert(rule_model::is_rule_index(table, q, i));
                assert(rule_model::is_rule_index(table, p, i));
            }
        },
    }
}

/// The rule that was added for a pattern is the one found for it.
pub proof fn law_added_rule_is_found(table: RuleTable, pattern: PatternView, rule: RuleView)
    ensures
        rule_model::found_rule(rule_model::with_rule(table, pattern, rule), pattern) == Some(rule),
{
    let after = rule_model::with_rule(table, pattern, rule);
    match rule_model::rule_index(table, pattern) {
        Some(i) => {
            assert(rule_model::is_rule_index(table, pattern, i));
            assert forall|j: int| 0 <= j < i implies !(#[trigger] after[j]).0.same(pattern) by {
                assert(!table[j].0.same(pattern));
            }
            rule_model::lemma_rule_index(after, pattern, i);
        },
        None => {
            rule_model::lemma_absent(table, pattern);
            let i = table.len() as int;
            assert forall|j: int| 0 <= j < i implies !(#[trigger] after[j]).0.same(pattern) by {
                assert(!table[j].0.same(pattern));
            }
            rule_model::lemma_rule_index(after, pattern, i);
        },
    }
}

/// Adding a rule for one pattern leaves the rules for the others as they were.
pub proof fn law_add_keeps_other_rules(
    table: RuleTable,
    pattern: PatternView,
    rule: RuleView,
    other: PatternView,
)
    requires
        !other.same(pattern),
    ensures
        rule_model::found_rule(rule_model::with_rule(table, pattern, rule), other)
            == rule_model::found_rule(table, other),
{
    let after = rule_model::with_rule(table, pattern, rule);
    match rule_model::rule_index(table, other) {
        Some(k) => {
            assert(rule_model::is_rule_index(table, other, k));
            if rule_model::rule_index(table, pattern) is Some {
                let i = rule_model::rule_index(table, pattern).unwrap();
                assert(rule_model::is_rule_index(table, pattern, i));
                assert(i != k);
            }
            assert forall|j: int| 0 <= j < k implies !(#[trigger] after[j]).0.same(other) by {
                assert(!table[j].0.same(other));
            }
            rule_model::lemma_rule_index(after, other, k);
        },
        None => {
            rule_model::lemma_absent(table, other);
            if rule_model::rule_index(table, pattern) is Some {
                let i = rule_model::rule_index(table, pattern).unwrap();
                assert(rule_model::is_rule_index(table, pattern, i));
            }
            assert forall|j: int| 0 <= j < after.len() implies !(#[trigger] after[j]).0.same(
                other,
            ) by {
                if j < table.len() {
                    assert(!table[j].0.same(other));
                }
            }
            rule_model::lemma_no_rule_index(after, other);
        },
    }
}

/// Once the rules for a pattern are removed, none is found for it.
pub proof fn law_removed_rule_is_gone(table: RuleTable, pattern: PatternView)
    ensures
        rule_model::found_rule(rule_model::without_rule(table, pattern), pattern) is None,
{
    let keep = rule_model::not_for(pattern);
    let after = rule_model::without_rule(table, pattern);
    assert forall|j: int| 0 <= j < after.len() implies !(#[trigger] after[j]).0.same(pattern) by {
        table.lemma_filter_pred(keep, j);
    }
    rule_model::lemma_no_rule_index(after, pattern);
}

/// Removing the rules for one pattern leaves the rules for the others as they were.
pub proof fn law_remove_keeps_other_rules(
    table: RuleTable,
    pattern: PatternView,
    other: PatternView,
)
    requires
        !other.same(pattern),
    ensures
        rule_model::found_rule(rule_model::without_rule(table, pattern), other)
            == rule_model::found_rule(table, other),
    decreases table.len(),
{
    reveal(Seq::filter);
    let after = rule_model::without_rule(table, pattern);
    if table.len() == 0 {
        assert(after =~= table);
    } else {
        let init = table.drop_last();
        law_remove_keeps_other_rules(init, pattern, other);
        let init_after = rule_model::without_rule(init, pattern);
        lemma_found_in_push(init, table.last(), other);
        assert(init.push(table.last()) =~= table);
        if !table.last().0.same(pattern) {
            lemma_found_in_push(init_after, table.last(), other);
        }
    }
}

/// A rule at the end of a table counts when none before it is for the pattern.
proof fn lemma_found_in_push(
    table: RuleTable,
    entry: (PatternView, RuleView),
    pattern: PatternView,
)
    ensures
        rule_model::found_rule(table.push(entry), pattern) == match rule_model::found_rule(
            table,
            pattern,
        ) {
            Some(rule) => Some(rule),
            None => if entry.0.same(pattern) {
                Some(entry.1)
            } else {
                None
            },
        },
{
    let after = table.push(entry);
    match rule_model::rule_index(table, pattern) {
        Some(i) => {
            assert(rule_model::is_rule_index(table, pattern, i));
            assert forall|j: int| 0 <= j < i implies !(#[trigger] after[j]).0.same(pattern) by {
                assert(!table[j].0.same(pattern));
            }
            rule_model::lemma_rule_index(after, pattern, i);
        },
        None => {
            rule_model::lemma_absent(table, pattern);
            assert forall|j: int| 0 <= j < table.len() implies !(#[trigger] after[j]).0.same(
                pattern,
            ) by {
                assert(!table[j].0.same(pattern));
            }
            if entry.0.same(pattern) {
                rule_model::lemma_rule_index(after, pattern, table.len() as int);
            } else {
                rule_model::lemma_no_rule_index(after, pattern);
            }
        },
    }
}

/// Removing a rule that was added for a new pattern gives back the table.
pub proof fn law_remove_undoes_add(table: RuleTable, pattern: PatternView, rule: RuleView)
    requires
        rule_model::found_rule(table, pattern) is None,
    ensures
        rule_model::without_rule(rule_model::with_rule(table, pattern, rule), pattern) == table,
{
    reveal(Seq::filter);
    let keep = rule_model::not_for(pattern);
    rule_model::lemma_absent(table, pattern);
    let after = rule_model::with_rule(table, pattern, rule);
    assert(after.drop_last() =~= table);
    rule_model::lemma_filter_all(table, keep);
}

/// Merging in a single rule is merging in the table that holds only it.
pub proof fn lemma_merged_one(table: RuleTable, entry: (PatternView, RuleView))
    ensures
        rule_model::merged(table, seq![entry]) == rule_model::with_rule(
            table,
            entry.0,
            rule_model::merged_rule(rule_model::found_rule(table, entry.0), entry.1),
        ),
{
    let one = seq![entry];
    assert(rule_model::merged(table, one) == rule_model::merged_prefix(table, one, 1));
    assert(rule_model::merged_prefix(table, one, 0) == table);
}

/// A single rule merged into an empty table is all that it holds.
proof fn lemma_merged_into_empty(entry: (PatternView, RuleView))
    ensures
        rule_model::merged(RuleTable::empty(), seq![entry]) == seq![entry],
{
    lemma_merged_one(RuleTable::empty(), entry);
    rule_model::lemma_no_rule_index(RuleTable::empty(), entry.0);
    assert(RuleTable::empty().push(entry) =~= seq![entry]);
}

/// What a table of one rule finds.
proof fn lemma_found_in_one(entry: (PatternView, RuleView), pattern: PatternView)
    ensures
        rule_model::found_rule(seq![entry], pattern) == if entry.0.same(pattern) {
            Some(entry.1)
        } else {
            None
        },
{
    let one = seq![entry];
    if entry.0.same(pattern) {
        rule_model::lemma_rule_index(one, pattern, 0);
    } else {
        rule_model::lemma_no_rule_index(one, pattern);
    }
}

/// The rules that a path of patterns nests a rule in.
spec fn nested_table(patterns: Seq<PatternView>, rule: RuleView) -> RuleTable {
    seq![(patterns[0], rule_model::nested(patterns.drop_first(), rule))]
}

/// A nested rule stands at the end of its path.
proof fn lemma_nested_rule_is_found(patterns: Seq<PatternView>, rule: RuleView)
    requires
        patterns.len() > 0,
    ensures
        rule_model::rule_at(nested_table(patterns, rule), patterns) == Some(rule),
    decreases patterns.len(),
{
    let below = patterns.drop_first();
    lemma_found_in_one((patterns[0], rule_model::nested(below, rule)), patterns[0]);
    if patterns.len() > 1 {
        lemma_nested_rule_is_found(below, rule);
    }
}

/// Whether two paths of patterns part at `level`: they agree up to there.
pub open spec fn part_at(p: Seq<PatternView>, q: Seq<PatternView>, level: int) -> bool {
    &&& 0 <= level < p.len()
    &&& level < q.len()
    &&& !q[level].same(p[level])
    &&& forall|k: int| 0 <= k < level ==> (#[trigger] q[k]).same(p[k])
}

/// Nothing but the nested rule stands in its path.
proof fn lemma_nested_rule_is_alone(
    patterns: Seq<PatternView>,
    rule: RuleView,
    other: Seq<PatternView>,
    level: int,
)
    requires
        part_at(patterns, other, level),
    ensures
        rule_model::rule_at(nested_table(patterns, rule), other) is None,
    decreases level,
{
    let below = patterns.drop_first();
    lemma_found_in_one((patterns[0], rule_model::nested(below, rule)), other[0]);
    if level > 0 {
        assert(other[0].same(patterns[0]));
        assert(part_at(below, other.drop_first(), level - 1)) by {
            assert forall|k: int| 0 <= k < level - 1 implies (#[trigger] other.drop_first()[k]).same(
                below[k],
            ) by {
                assert(other[k + 1].same(patterns[k + 1]));
            }
        }
        lemma_nested_rule_is_alone(below, rule, other.drop_first(), level - 1);
    }
}

/// What a table with a default has for the wildcard, as a rule that was added.
proof fn lemma_default_is_a_rule(table: RuleTable, depth: u32)
    ensures
        rule_model::with_default(table, depth) == match rule_model::found_rule(
            table,
            PatternView::Wildcard,
        ) {
            None => rule_model::with_rule(table, PatternView::Wildcard, RuleView::Single(depth)),
            Some(RuleView::Single(_)) => table,
            Some(RuleView::RuleSet(inner)) => rule_model::with_rule(
                table,
                PatternView::Wildcard,
                RuleView::RuleSet(rule_model::with_default(inner, depth)),
            ),
        },
{
}

/// What is found in a table with a default: for the wildcard the default, or what there
/// was with the default inside, and for any other pattern what there was.
proof fn lemma_found_with_default(table: RuleTable, depth: u32, pattern: PatternView)
    ensures
        rule_model::found_rule(rule_model::with_default(table, depth), pattern) == if pattern
            is Wildcard {
            match rule_model::found_rule(table, pattern) {
                None => Some(RuleView::Single(depth)),
                Some(RuleView::Single(there)) => Some(RuleView::Single(there)),
                Some(RuleView::RuleSet(inner)) => Some(
                    RuleView::RuleSet(rule_model::with_default(inner, depth)),
                ),
            }
        } else {
            rule_model::found_rule(table, pattern)
        },
{
    lemma_default_is_a_rule(table, depth);
    let wildcard = PatternView::Wildcard;
    let rule = match rule_model::found_rule(table, wildcard) {
        Some(RuleView::RuleSet(inner)) => RuleView::RuleSet(rule_model::with_default(inner, depth)),
        _ => RuleView::Single(depth),
    };
    law_added_rule_is_found(table, wildcard, rule);
    if !(pattern is Wildcard) {
        law_add_keeps_other_rules(table, wildcard, rule, pattern);
    }
}

/// A default changes no depth that stands at the end of a path of patterns.
pub proof fn law_default_keeps_depths(table: RuleTable, depth: u32, patterns: Seq<PatternView>)
    ensures
        rule_model::rule_at(table, patterns) matches Some(RuleView::Single(there))
            ==> rule_model::rule_at(rule_model::with_default(table, depth), patterns) == Some(
            RuleView::Single(there),
        ),
    decreases patterns.len(),
{
    if patterns.len() > 0 {
        lemma_found_with_default(table, depth, patterns[0]);
        match rule_model::found_rule(table, patterns[0]) {
            Some(RuleView::RuleSet(inner)) => {
                law_default_keeps_depths(inner, depth, patterns.drop_first());
            },
            _ => {},
        }
    }
}

/// Whether nothing but wildcards stands in the first `n` places of a path of patterns.
pub open spec fn only_wildcards(patterns: Seq<PatternView>, n: int) -> bool {
    forall|k: int| 0 <= k < n && k < patterns.len() ==> (#[trigger] patterns[k]) is Wildcard
}

/// A default is all that a nested rule gets beside it, behind the wildcards that its
/// path begins with.
proof fn lemma_default_beside_nested(
    patterns: Seq<PatternView>,
    rule: RuleView,
    depth: u32,
    other: Seq<PatternView>,
    level: int,
)
    requires
        part_at(patterns, other, level),
        other.len() == level + 1 && other[level] is Wildcard ==> !only_wildcards(patterns, level),
    ensures
        rule_model::rule_at(
            rule_model::with_default(nested_table(patterns, rule), depth),
            other,
        ) is None,
    decreases level,
{
    let below = patterns.drop_first();
    let other_below = other.drop_first();
    let entry = (patterns[0], rule_model::nested(below, rule));
    lemma_found_in_one(entry, other[0]);
    lemma_found_with_default(nested_table(patterns, rule), depth, other[0]);
    if level == 0 {
        assert(only_wildcards(patterns, 0));
    } else {
        assert(other[0].same(patterns[0]));
        assert(part_at(below, other_below, level - 1)) by {
            assert forall|k: int| 0 <= k < level - 1 implies (#[trigger] other_below[k]).same(
                below[k],
            ) by {
                assert(other[k + 1].same(patterns[k + 1]));
            }
        }
        assert(entry.1 == RuleView::RuleSet(nested_table(below, rule)));
        if patterns[0] is Wildcard {
            if only_wildcards(below, level - 1) {
                assert forall|k: int| 0 <= k < level && k < patterns.len() implies (
                #[trigger] patterns[k]) is Wildcard by {
                    if k > 0 {
                        assert(below[k - 1] is Wildcard);
                    }
                }
            }
            lemma_default_beside_nested(below, rule, depth, other_below, level - 1);
        } else {
            lemma_nested_rule_is_alone(below, rule, other_below, level - 1);
        }
    }
}

/// Whether a path of patterns runs through a depth, and behind that through nothing but
/// wildcards up to `level`. When a rule is added under the path, the depth becomes the
/// default there.
pub open spec fn gets_default_at(
    table: RuleTable,
    patterns: Seq<PatternView>,
    level: int,
) -> bool
    decreases patterns.len(),
{
    if level <= 0 || patterns.len() == 0 {
        false
    } else {
        match rule_model::found_rule(table, patterns[0]) {
            None => false,
            Some(RuleView::Single(_)) => only_wildcards(patterns.drop_first(), level - 1),
            Some(RuleView::RuleSet(inner)) => gets_default_at(
                inner,
                patterns.drop_first(),
                level - 1,
            ),
        }
    }
}

/// A depth that was added under a path of patterns is the rule at its end.
pub proof fn law_added_path_is_found(table: RuleTable, patterns: Seq<PatternView>, depth: u32)
    requires
        patterns.len() > 0,
    ensures
        rule_model::nested(patterns, RuleView::Single(depth)) matches RuleView::RuleSet(added)
            && rule_model::rule_at(rule_model::merged(table, added), patterns) == Some(
            RuleView::Single(depth),
        ),
    decreases patterns.len(),
{
    let rule = RuleView::Single(depth);
    let added = nested_table(patterns, rule);
    assert(rule_model::nested(patterns, rule) == RuleView::RuleSet(added));
    let below = patterns.drop_first();
    let entry = (patterns[0], rule_model::nested(below, rule));
    lemma_merged_one(table, entry);
    let set = rule_model::merged_rule(rule_model::found_rule(table, patterns[0]), entry.1);
    law_added_rule_is_found(table, patterns[0], set);
    if patterns.len() > 1 {
        let inner_added = nested_table(below, rule);
        let inner_entry = (below[0], rule_model::nested(below.drop_first(), rule));
        assert(entry.1 == RuleView::RuleSet(inner_added));
        match rule_model::found_rule(table, patterns[0]) {
            None => {
                lemma_nested_rule_is_found(below, rule);
            },
            Some(RuleView::Single(old_depth)) => {
                lemma_merged_into_empty(inner_entry);
                let inner = rule_model::with_default(inner_added, old_depth);
                assert(set == RuleView::RuleSet(inner));
                lemma_nested_rule_is_found(below, rule);
                law_default_keeps_depths(inner_added, old_depth, below);
            },
            Some(RuleView::RuleSet(existing)) => {
                assert(set == RuleView::RuleSet(rule_model::merged(existing, inner_added)));
                law_added_path_is_found(existing, below, depth);
            },
        }
    }
}

/// Adding a depth under one path of patterns leaves the rule at the end of any path
/// that parts from it as it was, unless the other path ends where they part in the
/// wildcard that a depth before it becomes the default of.
pub proof fn law_add_path_keeps_other_paths(
    table: RuleTable,
    patterns: Seq<PatternView>,
    depth: u32,
    other: Seq<PatternView>,
    level: int,
)
    requires
        part_at(patterns, other, level),
        other.len() == level + 1 && other[level] is Wildcard ==> !gets_default_at(
            table,
            patterns,
            level,
        ),
    ensures
        rule_model::nested(patterns, RuleView::Single(depth)) matches RuleView::RuleSet(added)
            && rule_model::rule_at(rule_model::merged(table, added), other) == rule_model::rule_at(
            table,
            other,
        ),
    decreases level,
{
    let rule = RuleView::Single(depth);
    let added = nested_table(patterns, rule);
    assert(rule_model::nested(patterns, rule) == RuleView::RuleSet(added));
    let below = patterns.drop_first();
    let other_below = other.drop_first();
    let entry = (patterns[0], rule_model::nested(below, rule));
    lemma_merged_one(table, entry);
    let set = rule_model::merged_rule(rule_model::found_rule(table, patterns[0]), entry.1);
    let after = rule_model::with_rule(table, patterns[0], set);
    law_added_rule_is_found(table, patterns[0], set);
    if level == 0 {
        law_add_keeps_other_rules(table, patterns[0], set, other[0]);
    } else {
        assert(other[0].same(patterns[0]));
        law_same_pattern_same_rule(table, other[0], patterns[0]);
        law_same_pattern_same_rule(after, other[0], patterns[0]);
        assert(part_at(below, other_below, level - 1)) by {
            assert forall|k: int| 0 <= k < level - 1 implies (#[trigger] other_below[k]).same(
                below[k],
            ) by {
                assert(other[k + 1].same(patterns[k + 1]));
            }
        }
        let inner_added = nested_table(below, rule);
        let inner_entry = (below[0], rule_model::nested(below.drop_first(), rule));
        assert(entry.1 == RuleView::RuleSet(inner_added));
        match rule_model::found_rule(table, patterns[0]) {
            None => {
                lemma_nested_rule_is_alone(below, rule, other_below, level - 1);
            },
            Some(RuleView::Single(old_depth)) => {
                lemma_merged_into_empty(inner_entry);
                assert(set == RuleView::RuleSet(rule_model::with_default(inner_added, old_depth)));
                lemma_default_beside_nested(below, rule, old_depth, other_below, level - 1);
            },
            Some(RuleView::RuleSet(existing)) => {
                assert(set == RuleView::RuleSet(rule_model::merged(existing, inner_added)));
                law_add_path_keeps_other_paths(existing, below, depth, other_below, level - 1);
            },
        }
    }
}

/// Once the rule at the end of a path of patterns is removed, none stands there.
pub proof fn law_removed_path_is_gone(table: RuleTable, patterns: Seq<PatternView>)
    requires
        patterns.len() > 0,
    ensures
        rule_model::rule_at(rule_model::without_rule_at(table, patterns), patterns) is None,
    decreases patterns.len(),
{
    if patterns.len() == 1 {
        law_removed_rule_is_gone(table, patterns[0]);
    } else {
        match rule_model::found_rule(table, patterns[0]) {
            Some(RuleView::RuleSet(inner)) => {
                let below = patterns.drop_first();
                law_removed_path_is_gone(inner, below);
                law_added_rule_is_found(
                    table,
                    patterns[0],
                    RuleView::RuleSet(rule_model::without_rule_at(inner, below)),
                );
            },
            _ => {},
        }
    }
}

/// Removing the rule at the end of one path of patterns leaves the rule at the end of
/// any path that parts from it as it was.
pub proof fn law_remove_path_keeps_other_paths(
    table: RuleTable,
    patterns: Seq<PatternView>,
    other: Seq<PatternView>,
    level: int,
)
    requires
        part_at(patterns, other, level),
    ensures
        rule_model::rule_at(rule_model::without_rule_at(table, patterns), other)
            == rule_model::rule_at(table, other),
    decreases level,
{
    let after = rule_model::without_rule_at(table, patterns);
    let below = patterns.drop_first();
    let other_below = other.drop_first();
    if patterns.len() == 1 {
        law_remove_keeps_other_rules(table, patterns[0], other[0]);
    } else {
        match rule_model::found_rule(table, patterns[0]) {
            Some(RuleView::RuleSet(inner)) => {
                let rule = RuleView::RuleSet(rule_model::without_rule_at(inner, below));
                if level == 0 {
                    law_add_keeps_other_rules(table, patterns[0], rule, other[0]);
                } else {
                    assert(other[0].same(patterns[0]));
                    law_same_pattern_same_rule(table, other[0], patterns[0]);
                    law_same_pattern_same_rule(after, other[0], patterns[0]);
                    law_added_rule_is_found(table, patterns[0], rule);
                    assert(part_at(below, other_below, level - 1)) by {
                        assert forall|k: int|
                            0 <= k < level - 1 implies (#[trigger] other_below[k]).same(
                            below[k],
                        ) by {
                            assert(other[k + 1].same(patterns[k + 1]));
                        }
                    }
                    law_remove_path_keeps_other_paths(inner, below, other_below, level - 1);
                }
            },
            _ => {},
        }
    }
}

/// Merging leaves the rule of a pattern that the merged rules do not mention, and
/// merges the rule of one that they mention once, whatever else they hold.
pub proof fn law_merge_goes_by_pattern(table: RuleTable, other: RuleTable, pattern: PatternView)
    requires
        forall|i: int, j: int|
            0 <= i < j < other.len() ==> !(#[trigger] other[i]).0.same((#[trigger] other[j]).0),
    ensures
        rule_model::found_rule(rule_model::merged(table, other), pattern)
            == match rule_model::found_rule(other, pattern) {
            None => rule_model::found_rule(table, pattern),
            Some(rule) => Some(
                rule_model::merged_rule(rule_model::found_rule(table, pattern), rule),
            ),
        },
{
    lemma_merge_prefix_goes_by_pattern(table, other, pattern, other.len());
    assert(other.take(other.len() as int) =~= other);
}

proof fn lemma_merge_prefix_goes_by_pattern(
    table: RuleTable,
    other: RuleTable,
    pattern: PatternView,
    n: nat,
)
    requires
        n <= other.len(),
        forall|i: int, j: int|
            0 <= i < j < other.len() ==> !(#[trigger] other[i]).0.same((#[trigger] other[j]).0),
    ensures
        rule_model::found_rule(rule_model::merged_prefix(table, other, n), pattern)
            == match rule_model::found_rule(other.take(n as int), pattern) {
            None => rule_model::found_rule(table, pattern),
            Some(rule) => Some(
                rule_model::merged_rule(rule_model::found_rule(table, pattern), rule),
            ),
        },
    decreases n,
{
    if n == 0 {
        rule_model::lemma_no_rule_index(other.take(0), pattern);
    } else {
        let m = (n - 1) as nat;
        lemma_merge_prefix_goes_by_pattern(table, other, pattern, m);
        let before = rule_model::merged_prefix(table, other, m);
        let (p, rule) = other[n - 1];
        let set = rule_model::merged_rule(rule_model::found_rule(before, p), rule);
        assert(other.take(n as int) =~= other.take(m as int).push(other[n - 1]));
        lemma_found_in_push(other.take(m as int), other[n - 1], pattern);
        if p.same(pattern) {
            assert forall|j: int| 0 <= j < m implies !(#[trigger] other.take(m as int)[j]).0.same(
                pattern,
            ) by {
                assert(!other[j].0.same(other[n - 1].0));
            }
            rule_model::lemma_no_rule_index(other.take(m as int), pattern);
            law_same_pattern_same_rule(before, p, pattern);
            law_same_pattern_same_rule(rule_model::with_rule(before, p, set), p, pattern);
            law_added_rule_is_found(before, p, set);
        } else {
            law_add_keeps_other_rules(before, p, set, pattern);
        }
    }
}

/// Putting back the rule that a pattern has changes nothing.
proof fn lemma_same_rule(table: RuleTable, pattern: PatternView, rule: RuleView)
    requires
        rule_model::found_rule(table, pattern) == Some(rule),
    ensures
        rule_model::with_rule(table, pattern, rule) == table,
{
    let i = rule_model::rule_index(table, pattern)->0;
    assert(rule_model::is_rule_index(table, pattern, i));
    assert(table.update(i, (table[i].0, rule)) =~= table);
}

/// Whether merging in rule `i` of a table would change nothing.
spec fn is_absorbed(table: RuleTable, other: RuleTable, i: int) -> bool {
    rule_model::found_rule(table, other[i].0) matches Some(rule) && rule_model::merged_rule(
        Some(rule),
        other[i].1,
    ) == rule
}

/// Merging in rules each of which would change nothing changes nothing.
proof fn lemma_absorbed(table: RuleTable, other: RuleTable, n: nat)
    requires
        n <= other.len(),
        forall|i: int| 0 <= i < other.len() ==> #[trigger] is_absorbed(table, other, i),
    ensures
        rule_model::merged_prefix(table, other, n) == table,
    decreases n,
{
    if n > 0 {
        lemma_absorbed(table, other, (n - 1) as nat);
        assert(is_absorbed(table, other, n - 1));
        lemma_same_rule(
            table,
            other[n - 1].0,
            rule_model::found_rule(table, other[n - 1].0)->0,
        );
    }
}

/// Where every pattern has one rule, it is the one found for it.
proof fn lemma_own_rule_is_found(table: RuleTable, i: int)
    requires
        0 <= i < table.len(),
        rule_model::distinct_patterns(table),
    ensures
        rule_model::found_rule(table, table[i].0) == Some(table[i].1),
        distinct_inside(table[i].1),
{
    assert forall|j: int| 0 <= j < i implies !(#[trigger] table[j]).0.same(table[i].0) by {
        assert(!table[j].0.same(table[i].0));
    }
    rule_model::lemma_rule_index(table, table[i].0, i);
}

/// Merging rules into an empty table gives those rules.
pub proof fn law_merge_into_empty(table: RuleTable)
    requires
        rule_model::distinct_patterns(table),
    ensures
        rule_model::merged(RuleTable::empty(), table) == table,
{
    lemma_merge_prefix_into_empty(table, table.len());
    assert(table.take(table.len() as int) =~= table);
}

proof fn lemma_merge_prefix_into_empty(table: RuleTable, n: nat)
    requires
        n <= table.len(),
        rule_model::distinct_patterns(table),
    ensures
        rule_model::merged_prefix(RuleTable::empty(), table, n) == table.take(n as int),
    decreases n,
{
    if n == 0 {
        assert(table.take(0) =~= RuleTable::empty());
    } else {
        let before = table.take(n - 1);
        lemma_merge_prefix_into_empty(table, (n - 1) as nat);
        assert forall|j: int| 0 <= j < before.len() implies !(#[trigger] before[j]).0.same(
            table[n - 1].0,
        ) by {
            assert(!table[j].0.same(table[n - 1].0));
        }
        rule_model::lemma_no_rule_index(before, table[n - 1].0);
        assert(rule_model::merged_rule(None, table[n - 1].1) == table[n - 1].1);
        assert(table.take(n as int) =~= before.push((table[n - 1].0, table[n - 1].1)));
    }
}

/// Merging rules into themselves changes nothing.
pub proof fn law_merge_with_itself(table: RuleTable)
    requires
        rule_model::distinct_patterns(table),
    ensures
        rule_model::merged(table, table) == table,
    decreases table,
{
    assert forall|i: int| 0 <= i < table.len() implies #[trigger] is_absorbed(table, table, i) by {
        lemma_own_rule_is_found(table, i);
        assert(decreases_to!(table => table[i]));
        assert(decreases_to!(table[i] => table[i].1));
        match table[i].1 {
            RuleView::Single(_) => {},
            RuleView::RuleSet(inner) => {
                law_merge_with_itself(inner);
            },
        }
    }
    lemma_absorbed(table, table, table.len());
}

/// Merging rules again, once a depth became their default, changes nothing.
proof fn lemma_merge_below_default(table: RuleTable, depth: u32)
    requires
        rule_model::distinct_patterns(table),
    ensures
        rule_model::merged(rule_model::with_default(table, depth), table)
            == rule_model::with_default(table, depth),
    decreases table,
{
    let after = rule_model::with_default(table, depth);
    assert forall|i: int| 0 <= i < table.len() implies #[trigger] is_absorbed(after, table, i) by {
        lemma_own_rule_is_found(table, i);
        lemma_found_with_default(table, depth, table[i].0);
        assert(decreases_to!(table => table[i]));
        assert(decreases_to!(table[i] => table[i].1));
        match table[i].1 {
            RuleView::Single(_) => {},
            RuleView::RuleSet(inner) => {
                if table[i].0 is Wildcard {
                    lemma_merge_below_default(inner, depth);
                } else {
                    law_merge_with_itself(inner);
                }
            },
        }
    }
    lemma_absorbed(after, table, table.len());
}

/// Merging rules twice is merging them once.
pub proof fn law_merge_twice_is_once(table: RuleTable, other: RuleTable)
    requires
        rule_model::distinct_patterns(other),
    ensures
        rule_model::merged(rule_model::merged(table, other), other) == rule_model::merged(
            table,
            other,
        ),
    decreases other,
{
    let after = rule_model::merged(table, other);
    assert forall|i: int| 0 <= i < other.len() implies #[trigger] is_absorbed(after, other, i) by {
        let (pattern, rule) = other[i];
        lemma_own_rule_is_found(other, i);
        law_merge_goes_by_pattern(table, other, pattern);
        assert(decreases_to!(other => other[i]));
        assert(decreases_to!(other[i] => other[i].1));
        match rule {
            RuleView::Single(_) => {},
            RuleView::RuleSet(inner) => match rule_model::found_rule(table, pattern) {
                None => {
                    law_merge_with_itself(inner);
                },
                Some(RuleView::Single(depth)) => {
                    law_merge_into_empty(inner);
                    lemma_merge_below_default(inner, depth);
                },
                Some(RuleView::RuleSet(existing)) => {
                    law_merge_twice_is_once(existing, inner);
                },
            },
        }
    }
    lemma_absorbed(after, other, other.len());
}

/// Whether no two rules inside the rule are for one pattern.
pub open spec fn distinct_inside(rule: RuleView) -> bool {
    match rule {
        RuleView::Single(_) => true,
        RuleView::RuleSet(table) => rule_model::distinct_patterns(table),
    }
}

/// Adding a rule keeps every pattern to one rule.
pub proof fn law_add_keeps_patterns_distinct(
    table: RuleTable,
    pattern: PatternView,
    rule: RuleView,
)
    requires
        rule_model::distinct_patterns(table),
        distinct_inside(rule),
    ensures
        rule_model::distinct_patterns(rule_model::with_rule(table, pattern, rule)),
{
    let after = rule_model::with_rule(table, pattern, rule);
    match rule_model::rule_index(table, pattern) {
        Some(k) => {
            assert(rule_model::is_rule_index(table, pattern, k));
            assert forall|i: int, j: int| 0 <= i < j < after.len() implies !(
            #[trigger] after[i]).0.same((#[trigger] after[j]).0) by {
                assert(!table[i].0.same(table[j].0));
            }
            assert forall|i: int| 0 <= i < after.len() implies distinct_inside(
                (#[trigger] after[i]).1,
            ) by {
                if i != k {
                    assert(distinct_inside(table[i].1));
                }
            }
        },
        None => {
            rule_model::lemma_absent(table, pattern);
            assert forall|i: int, j: int| 0 <= i < j < after.len() implies !(
            #[trigger] after[i]).0.same((#[trigger] after[j]).0) by {
                if j < table.len() {
                    assert(!table[i].0.same(table[j].0));
                } else {
                    assert(!table[i].0.same(pattern));
                }
            }
            assert forall|i: int| 0 <= i < after.len() implies distinct_inside(
                (#[trigger] after[i]).1,
            ) by {
                if i < table.len() {
                    assert(distinct_inside(table[i].1));
                }
            }
        },
    }
    lemma_distinct(after);
}

/// A table keeps every pattern to one rule when its own patterns are distinct and
/// each of its rules does.
proof fn lemma_distinct(table: RuleTable)
    requires
        forall|i: int, j: int|
            0 <= i < j < table.len() ==> !(#[trigger] table[i]).0.same((#[trigger] table[j]).0),
        forall|i: int| 0 <= i < table.len() ==> distinct_inside((#[trigger] table[i]).1),
    ensures
        rule_model::distinct_patterns(table),
{
    assert forall|i: int| 0 <= i < table.len() implies (match (#[trigger] table[i]).1 {
        RuleView::Single(_) => true,
        RuleView::RuleSet(inner) => rule_model::distinct_patterns(inner),
    }) by {
        assert(distinct_inside(table[i].1));
    }
}

/// What a found rule holds is distinct too.
proof fn lemma_found_is_distinct(table: RuleTable, pattern: PatternView)
    requires
        rule_model::distinct_patterns(table),
    ensures
        rule_model::found_rule(table, pattern) matches Some(rule) ==> distinct_inside(rule),
{
    if rule_model::rule_index(table, pattern) is Some {
        let k = rule_model::rule_index(table, pattern).unwrap();
        assert(rule_model::is_rule_index(table, pattern, k));
        assert(distinct_inside(table[k].1));
    }
}

/// Removing a rule keeps every pattern to one rule.
pub proof fn law_remove_keeps_patterns_distinct(table: RuleTable, pattern: PatternView)
    requires
        rule_model::distinct_patterns(table),
    ensures
        rule_model::distinct_patterns(rule_model::without_rule(table, pattern)),
    decreases table.len(),
{
    reveal(Seq::filter);
    if table.len() > 0 {
        let init = table.drop_last();
        assert forall|i: int, j: int| 0 <= i < j < init.len() implies !(
        #[trigger] init[i]).0.same((#[trigger] init[j]).0) by {
            assert(!table[i].0.same(table[j].0));
        }
        assert forall|i: int| 0 <= i < init.len() implies distinct_inside(
            (#[trigger] init[i]).1,
        ) by {
            assert(distinct_inside(table[i].1));
        }
        lemma_distinct(init);
        law_remove_keeps_patterns_distinct(init, pattern);
        let rest = rule_model::without_rule(init, pattern);
        let last = table.last();
        assert forall|j: int| 0 <= j < init.len() implies !(#[trigger] init[j]).0.same(last.0) by {
            assert(!table[j].0.same(table[table.len() - 1].0));
        }
        rule_model::lemma_no_rule_index(init, last.0);
        if !last.0.same(pattern) {
            law_remove_keeps_other_rules(init, pattern, last.0);
            assert(rule_model::rule_index(rest, last.0) is None);
            assert(distinct_inside(table[table.len() - 1].1));
            law_add_keeps_patterns_distinct(rest, last.0, last.1);
        }
    }
}

/// Merging keeps every pattern to one rule.
pub proof fn law_merge_keeps_patterns_distinct(table: RuleTable, other: RuleTable)
    requires
        rule_model::distinct_patterns(table),
        rule_model::distinct_patterns(other),
    ensures
        rule_model::distinct_patterns(rule_model::merged(table, other)),
    decreases other, other.len() + 1,
{
    lemma_merge_prefix_keeps_distinct(table, other, other.len());
}

proof fn lemma_merge_prefix_keeps_distinct(table: RuleTable, other: RuleTable, n: nat)
    requires
        n <= other.len(),
        rule_model::distinct_patterns(table),
        rule_model::distinct_patterns(other),
    ensures
        rule_model::distinct_patterns(rule_model::merged_prefix(table, other, n)),
    decreases other, n,
{
    if n > 0 {
        let m = (n - 1) as nat;
        lemma_merge_prefix_keeps_distinct(table, other, m);
        let before = rule_model::merged_prefix(table, other, m);
        let (pattern, rule) = other[n - 1];
        lemma_found_is_distinct(before, pattern);
        assert(distinct_inside(rule)) by {
            assert(other[n - 1].1 == rule);
        }
        let existing = rule_model::found_rule(before, pattern);
        match rule {
            RuleView::Single(_) => {},
            RuleView::RuleSet(rules) => match existing {
                None => {},
                Some(RuleView::Single(depth)) => {
                    assert(rule_model::distinct_patterns(RuleTable::empty()));
                    law_merge_keeps_patterns_distinct(RuleTable::empty(), rules);
                    law_default_keeps_patterns_distinct(
                        rule_model::merged(RuleTable::empty(), rules),
                        depth,
                    );
                },
                Some(RuleView::RuleSet(inner)) => {
                    law_merge_keeps_patterns_distinct(inner, rules);
                },
            },
        }
        law_add_keeps_patterns_distinct(
            before,
            pattern,
            rule_model::merged_rule(existing, rule),
        );
    }
}

/// A default keeps every pattern to one rule.
pub proof fn law_default_keeps_patterns_distinct(table: RuleTable, depth: u32)
    requires
        rule_model::distinct_patterns(table),
    ensures
        rule_model::distinct_patterns(rule_model::with_default(table, depth)),
    decreases table,
{
    let wildcard = PatternView::Wildcard;
    lemma_default_is_a_rule(table, depth);
    lemma_found_is_distinct(table, wildcard);
    match rule_model::found_rule(table, wildcard) {
        None => {
            law_add_keeps_patterns_distinct(table, wildcard, RuleView::Single(depth));
        },
        Some(RuleView::Single(_)) => {},
        Some(RuleView::RuleSet(inner)) => {
            let i = rule_model::rule_index(table, wildcard)->0;
            assert(rule_model::is_rule_index(table, wildcard, i));
            assert(decreases_to!(table => table[i]));
            assert(decreases_to!(table[i] => table[i].1));
            law_default_keeps_patterns_distinct(inner, depth);
            law_add_keeps_patterns_distinct(
                table,
                wildcard,
                RuleView::RuleSet(rule_model::with_default(inner, depth)),
            );
        },
    }
}

/// Nesting a rule under a path of patterns keeps every pattern to one rule.
pub proof fn law_nested_is_distinct(patterns: Seq<PatternView>, rule: RuleView)
    requires
        distinct_inside(rule),
    ensures
        distinct_inside(rule_model::nested(patterns, rule)),
    decreases patterns.len(),
{
    if patterns.len() > 0 {
        law_nested_is_distinct(patterns.drop_first(), rule);
        lemma_distinct(nested_table(patterns, rule));
    }
}

/// Removing the rule at the end of a path keeps every pattern to one rule.
pub proof fn law_remove_path_keeps_patterns_distinct(
    table: RuleTable,
    patterns: Seq<PatternView>,
)
    requires
        patterns.len() > 0,
        rule_model::distinct_patterns(table),
    ensures
        rule_model::distinct_patterns(rule_model::without_rule_at(table, patterns)),
    decreases patterns.len(),
{
    if patterns.len() == 1 {
        law_remove_keeps_patterns_distinct(table, patterns[0]);
    } else {
        lemma_found_is_distinct(table, patterns[0]);
        match rule_model::found_rule(table, patterns[0]) {
            Some(RuleView::RuleSet(inner)) => {
                let below = patterns.drop_first();
                law_remove_path_keeps_patterns_distinct(inner, below);
                law_add_keeps_patterns_distinct(
                    table,
                    patterns[0],
                    RuleView::RuleSet(rule_model::without_rule_at(inner, below)),
                );
            },
            _ => {},
        }
    }
}

/// Once the rule at the end of a path of patterns is simplified, the simplified rule
/// stands there.
pub proof fn law_simplified_path_is_simplified(table: RuleTable, patterns: Seq<PatternView>)
    ensures
        rule_model::rule_at(table, patterns) matches Some(rule) ==> rule_model::rule_at(
            rule_model::simplified_at(table, patterns),
            patterns,
        ) == Some(rule_model::simplified(rule)),
    decreases patterns.len(),
{
    if patterns.len() > 0 {
        match rule_model::found_rule(table, patterns[0]) {
            None => {},
            Some(rule) => if patterns.len() == 1 {
                law_added_rule_is_found(table, patterns[0], rule_model::simplified(rule));
            } else if rule is RuleSet {
                let inner = rule->RuleSet_0;
                let below = patterns.drop_first();
                law_simplified_path_is_simplified(inner, below);
                law_added_rule_is_found(
                    table,
                    patterns[0],
                    RuleView::RuleSet(rule_model::simplified_at(inner, below)),
                );
            },
        }
    }
}

/// Simplifying the rule at the end of one path of patterns leaves the rule at the end of
/// any path that parts from it as it was.
pub proof fn law_simplify_path_keeps_other_paths(
    table: RuleTable,
    patterns: Seq<PatternView>,
    other: Seq<PatternView>,
    level: int,
)
    requires
        part_at(patterns, other, level),
    ensures
        rule_model::rule_at(rule_model::simplified_at(table, patterns), other)
            == rule_model::rule_at(table, other),
    decreases level,
{
    let after = rule_model::simplified_at(table, patterns);
    let below = patterns.drop_first();
    let other_below = other.drop_first();
    match rule_model::found_rule(table, patterns[0]) {
        None => {},
        Some(rule) => if patterns.len() == 1 {
            law_add_keeps_other_rules(
                table,
                patterns[0],
                rule_model::simplified(rule),
                other[0],
            );
        } else if rule is RuleSet {
            let inner = rule->RuleSet_0;
            let set = RuleView::RuleSet(rule_model::simplified_at(inner, below));
            if level == 0 {
                law_add_keeps_other_rules(table, patterns[0], set, other[0]);
            } else {
                assert(other[0].same(patterns[0]));
                law_same_pattern_same_rule(table, other[0], patterns[0]);
                law_same_pattern_same_rule(after, other[0], patterns[0]);
                law_added_rule_is_found(table, patterns[0], set);
                assert(part_at(below, other_below, level - 1)) by {
                    assert forall|k: int| 0 <= k < level - 1 implies (
                    #[trigger] other_below[k]).same(below[k]) by {
                        assert(other[k + 1].same(patterns[k + 1]));
                    }
                }
                law_simplify_path_keeps_other_paths(inner, below, other_below, level - 1);
            }
        },
    }
}

/// Simplifying the rule at the end of a path keeps every pattern to one rule.
pub proof fn law_simplify_path_keeps_patterns_distinct(
    table: RuleTable,
    patterns: Seq<PatternView>,
)
    requires
        rule_model::distinct_patterns(table),
    ensures
        rule_model::distinct_patterns(rule_model::simplified_at(table, patterns)),
    decreases patterns.len(),
{
    if patterns.len() > 0 {
        lemma_found_is_distinct(table, patterns[0]);
        match rule_model::found_rule(table, patterns[0]) {
            None => {},
            Some(rule) => if patterns.len() == 1 {
                if rule is RuleSet {
                    law_simplify_keeps_patterns_distinct(rule->RuleSet_0);
                }
                law_add_keeps_patterns_distinct(
                    table,
                    patterns[0],
                    rule_model::simplified(rule),
                );
            } else if rule is RuleSet {
                let inner = rule->RuleSet_0;
                let below = patterns.drop_first();
                law_simplify_path_keeps_patterns_distinct(inner, below);
                law_add_keeps_patterns_distinct(
                    table,
                    patterns[0],
                    RuleView::RuleSet(rule_model::simplified_at(inner, below)),
                );
            },
        }
    }
}

/// Simplifying keeps every pattern to one rule.
pub proof fn law_simplify_keeps_patterns_distinct(table: RuleTable)
    requires
        rule_model::distinct_patterns(table),
    ensures
        rule_model::distinct_patterns(rule_model::simplified_table(table)),
    decreases table,
{
    let after = rule_model::simplified_table(table);
    assert forall|i: int, j: int| 0 <= i < j < after.len() implies !(
    #[trigger] after[i]).0.same((#[trigger] after[j]).0) by {
        assert(!table[i].0.same(table[j].0));
    }
    assert forall|i: int| 0 <= i < after.len() implies distinct_inside(
        (#[trigger] after[i]).1,
    ) by {
        let rule = table[i].1;
        assert(decreases_to!(table => table[i]));
        match rule {
            RuleView::Single(_) => {},
            RuleView::RuleSet(inner) => {
                law_simplify_keeps_patterns_distinct(inner);
            },
        }
    }
    lemma_distinct(after);
}

/// The rule for a pattern is the first one whose pattern is equal to it.
pub proof fn law_first_rule_is_found(table: RuleTable, pattern: PatternView, i: int)
    ensures
        0 <= i < table.len() && table[i].0.same(pattern) && (forall|j: int|
            0 <= j < i ==> !(#[trigger] table[j]).0.same(pattern)) ==> rule_model::found_rule(
            table,
            pattern,
        ) == Some(table[i].1),
        (forall|j: int| 0 <= j < table.len() ==> !(#[trigger] table[j]).0.same(pattern))
            ==> rule_model::found_rule(table, pattern) is None,
{
    if 0 <= i < table.len() && table[i].0.same(pattern) && forall|j: int|
        0 <= j < i ==> !(#[trigger] table[j]).0.same(pattern) {
        rule_model::lemma_rule_index(table, pattern, i);
    }
    if forall|j: int| 0 <= j < table.len() ==> !(#[trigger] table[j]).0.same(pattern) {
        rule_model::lemma_no_rule_index(table, pattern);
    }
}

/// Wildcards are equal to each other, exact patterns when they are for the same path, and
/// a wildcard is never equal to an exact pattern. The wildcard stands for every path, and
/// an exact pattern for the same path.
pub proof fn law_patterns_by_path(a: PathView, b: PathView, path: Seq<ComponentView>)
    ensures
        PatternView::Wildcard.same(PatternView::Wildcard),
        !PatternView::Wildcard.same(PatternView::Exact(a)),
        !PatternView::Exact(a).same(PatternView::Wildcard),
        PatternView::Exact(a).same(PatternView::Exact(b)) <==> path::identities(a.components)
            == path::identities(b.components),
        PatternView::Wildcard.matches(path),
        PatternView::Exact(a).matches(path) <==> path::identities(a.components)
            == path::identities(path),
{
}

/// Adding a rule leaves every pattern in its place, and every rule but the one for the
/// pattern. A new pattern comes last.
pub proof fn law_add_keeps_places(
    table: RuleTable,
    pattern: PatternView,
    rule: RuleView,
    i: int,
)
    ensures
        ({
            let after = rule_model::with_rule(table, pattern, rule);
            &&& 0 <= i < table.len() ==> after[i].0 == table[i].0
            &&& 0 <= i < table.len() && !table[i].0.same(pattern) ==> after[i] == table[i]
            &&& rule_model::found_rule(table, pattern) is None ==> after.len() == table.len() + 1
                && after.last() == (pattern, rule)
            &&& rule_model::found_rule(table, pattern) is Some ==> after.len() == table.len()
        }),
{
    if rule_model::rule_index(table, pattern) is Some {
        assert(rule_model::is_rule_index(
            table,
            pattern,
            rule_model::rule_index(table, pattern)->0,
        ));
    }
}

/// Removing a rule leaves the others as they were, in their order.
pub proof fn law_remove_takes_one_rule_out(table: RuleTable, pattern: PatternView, i: int)
    requires
        rule_model::distinct_patterns(table),
        0 <= i < table.len(),
        table[i].0.same(pattern),
    ensures
        rule_model::without_rule(table, pattern) == table.take(i) + table.skip(i + 1),
{
    let keep = rule_model::not_for(pattern);
    let before = table.take(i);
    let behind = table.skip(i + 1);
    assert(table =~= before + seq![table[i]] + behind);
    assert forall|j: int| 0 <= j < before.len() implies keep(#[trigger] before[j]) by {
        assert(!table[j].0.same(table[i].0));
    }
    assert forall|j: int| 0 <= j < behind.len() implies keep(#[trigger] behind[j]) by {
        assert(!table[i].0.same(table[j + i + 1].0));
    }
    rule_model::lemma_filter_all(before, keep);
    rule_model::lemma_filter_all(behind, keep);
    Seq::filter_distributes_over_add(before + seq![table[i]], behind, keep);
    Seq::filter_distributes_over_add(before, seq![table[i]], keep);
    let one = seq![table[i]];
    if one.filter(keep).len() > 0 {
        one.lemma_filter_pred(keep, 0);
        one.lemma_filter_contains_rev(keep, one.filter(keep)[0]);
        let k = choose|k: int| 0 <= k < one.len() && one[k] == one.filter(keep)[0];
        assert(keep(one[k]));
    }
    assert((before + seq![table[i]]).filter(keep) =~= before);
}

/// The rule at a path of one pattern is the one found for it. At a longer path it is the
/// one at the rest of the path in the set that is found for the first pattern.
pub proof fn law_rule_at_path(table: RuleTable, first: PatternView, rest: Seq<PatternView>)
    ensures
        rest.len() == 0 ==> rule_model::rule_at(table, seq![first] + rest)
            == rule_model::found_rule(table, first),
        rest.len() > 0 ==> rule_model::rule_at(table, seq![first] + rest)
            == match rule_model::found_rule(table, first) {
            Some(RuleView::RuleSet(inner)) => rule_model::rule_at(inner, rest),
            _ => None,
        },
{
    assert((seq![first] + rest).drop_first() =~= rest);
}

/// Once a rule at the end of a path was removed, every set on the way to it is still one.
pub proof fn law_remove_path_keeps_sets_on_the_way(
    table: RuleTable,
    patterns: Seq<PatternView>,
    k: int,
)
    requires
        0 < k < patterns.len(),
        rule_model::rule_at(table, patterns) is Some,
    ensures
        rule_model::rule_at(table, patterns.take(k)) matches Some(RuleView::RuleSet(_)),
        rule_model::rule_at(
            rule_model::without_rule_at(table, patterns),
            patterns.take(k),
        ) matches Some(RuleView::RuleSet(_)),
    decreases patterns.len(),
{
    let inner = rule_model::found_rule(table, patterns[0])->0->RuleSet_0;
    let below = patterns.drop_first();
    let upto = patterns.take(k);
    assert(rule_model::found_rule(table, patterns[0]) == Some(RuleView::RuleSet(inner)));
    law_added_rule_is_found(
        table,
        patterns[0],
        RuleView::RuleSet(rule_model::without_rule_at(inner, below)),
    );
    assert(upto[0] == patterns[0]);
    if k > 1 {
        assert(upto.drop_first() =~= below.take(k - 1));
        law_remove_path_keeps_sets_on_the_way(inner, below, k - 1);
    }
}

/// Where a depth stands on the way of a path that is added, it becomes the rule of the
/// wildcard beside what the path goes on with, unless that is the wildcard.
pub proof fn law_depth_on_the_way_becomes_default(
    table: RuleTable,
    pattern: PatternView,
    below: Seq<PatternView>,
    depth: u32,
    there: u32,
)
    requires
        below.len() > 0,
        !(below[0] is Wildcard),
        rule_model::found_rule(table, pattern) == Some(RuleView::Single(there)),
    ensures
        rule_model::nested(
            seq![pattern] + below,
            RuleView::Single(depth),
        ) matches RuleView::RuleSet(added) && rule_model::rule_at(
            rule_model::merged(table, added),
            seq![pattern, PatternView::Wildcard],
        ) == Some(RuleView::Single(there)),
{
    let patterns = seq![pattern] + below;
    let rule = RuleView::Single(depth);
    let added = nested_table(patterns, rule);
    assert(patterns.drop_first() =~= below);
    assert(rule_model::nested(patterns, rule) == RuleView::RuleSet(added));
    let entry = (pattern, rule_model::nested(below, rule));
    let inner_added = nested_table(below, rule);
    let inner_entry = (below[0], rule_model::nested(below.drop_first(), rule));
    assert(entry.1 == RuleView::RuleSet(inner_added));
    lemma_merged_one(table, entry);
    lemma_merged_into_empty(inner_entry);
    let inner = rule_model::with_default(inner_added, there);
    let set = rule_model::merged_rule(Some(RuleView::Single(there)), entry.1);
    assert(set == RuleView::RuleSet(inner));
    law_added_rule_is_found(table, pattern, set);
    lemma_found_in_one(inner_entry, PatternView::Wildcard);
    lemma_found_with_default(inner_added, there, PatternView::Wildcard);
    let path = seq![pattern, PatternView::Wildcard];
    let end = seq![PatternView::Wildcard];
    assert(path.drop_first() =~= end);
    assert(rule_model::rule_at(inner, end) == Some(RuleView::Single(there)));
    let after = rule_model::merged(table, added);
    assert(rule_model::found_rule(after, path[0]) == Some(RuleView::RuleSet(inner)));
    assert(rule_model::rule_at(after, path) == rule_model::rule_at(inner, end));
}

/// Merging a depth in makes it the rule for its pattern. Merging a set in where there is
/// no rule makes it that, where there is a set merges the two, and where there is a depth
/// makes that the default of the set.
pub proof fn law_merge_by_what_is_there(
    table: RuleTable,
    pattern: PatternView,
    depth: u32,
    rules: RuleTable,
)
    requires
        rule_model::distinct_patterns(rules),
    ensures
        rule_model::merged(table, seq![(pattern, RuleView::Single(depth))])
            == rule_model::with_rule(table, pattern, RuleView::Single(depth)),
        rule_model::merged(table, seq![(pattern, RuleView::RuleSet(rules))])
            == rule_model::with_rule(
            table,
            pattern,
            match rule_model::found_rule(table, pattern) {
                None => RuleView::RuleSet(rules),
                Some(RuleView::RuleSet(there)) => RuleView::RuleSet(
                    rule_model::merged(there, rules),
                ),
                Some(RuleView::Single(there)) => RuleView::RuleSet(
                    rule_model::with_default(rules, there),
                ),
            },
        ),
{
    lemma_merged_one(table, (pattern, RuleView::Single(depth)));
    lemma_merged_one(table, (pattern, RuleView::RuleSet(rules)));
    law_merge_into_empty(rules);
    assert(rule_model::merged_rule(
        rule_model::found_rule(table, pattern),
        RuleView::Single(depth),
    ) == RuleView::Single(depth));
    let merged = rule_model::merged_rule(
        rule_model::found_rule(table, pattern),
        RuleView::RuleSet(rules),
    );
}

/// A default is the depth of the wildcard where there was none. A depth that the wildcard
/// has stays, and in a set that it has the default is put in. All other rules stay.
pub proof fn law_default_by_what_is_there(
    table: RuleTable,
    depth: u32,
    pattern: PatternView,
)
    ensures
        match rule_model::found_rule(table, PatternView::Wildcard) {
            None => rule_model::found_rule(
                rule_model::with_default(table, depth),
                PatternView::Wildcard,
            ) == Some(RuleView::Single(depth)),
            Some(RuleView::Single(there)) => rule_model::found_rule(
                rule_model::with_default(table, depth),
                PatternView::Wildcard,
            ) == Some(RuleView::Single(there)),
            Some(RuleView::RuleSet(inner)) => rule_model::found_rule(
                rule_model::with_default(table, depth),
                PatternView::Wildcard,
            ) == Some(RuleView::RuleSet(rule_model::with_default(inner, depth))),
        },
        pattern is Exact ==> rule_model::found_rule(
            rule_model::with_default(table, depth),
            pattern,
        ) == rule_model::found_rule(table, pattern),
{
    lemma_found_with_default(table, depth, PatternView::Wildcard);
    lemma_found_with_default(table, depth, pattern);
}

/// A simplified table has the same patterns in the same places, each with its rule
/// simplified.
pub proof fn law_simplify_keeps_places(table: RuleTable, i: int)
    ensures
        rule_model::simplified_table(table).len() == table.len(),
        0 <= i < table.len() ==> rule_model::simplified_table(table)[i] == (
            table[i].0,
            rule_model::simplified(table[i].1),
        ),
{
}

/// A depth is as simple as it is. A set whose rules, simplified, are nothing but a wildcard
/// with a depth is one level more than that. Any other set holds its rules simplified.
pub proof fn law_simplify_from_inside(table: RuleTable, depth: u32)
    requires
        rule_model::can_simplify(RuleView::RuleSet(table)),
    ensures
        rule_model::simplified(RuleView::Single(depth)) == RuleView::Single(depth),
        ({
            let inside = rule_model::simplified_table(table);
            let after = rule_model::simplified(RuleView::RuleSet(table));
            if inside.len() == 1 && inside[0].0 is Wildcard && inside[0].1 is Single {
                inside[0].1->Single_0 < u32::MAX && after == RuleView::Single(
                    (inside[0].1->Single_0 + 1) as u32,
                )
            } else {
                after == RuleView::RuleSet(inside)
            }
        }),
{
    rule_model::lemma_collapse_in_steps(table);
}

/// A depth can be simplified. A set can exactly when its rules can and, if they are then
/// nothing but a wildcard with a depth, one level more can be counted.
pub proof fn law_can_simplify_from_inside(table: RuleTable, depth: u32)
    ensures
        rule_model::can_simplify(RuleView::Single(depth)),
        rule_model::can_simplify_table(table) <==> forall|i: int|
            0 <= i < table.len() ==> rule_model::can_simplify((#[trigger] table[i]).1),
        rule_model::can_simplify(RuleView::RuleSet(table)) <==> {
            &&& forall|i: int|
                0 <= i < table.len() ==> rule_model::can_simplify((#[trigger] table[i]).1)
            &&& !(table.len() == 1 && table[0].0 is Wildcard && rule_model::simplified(
                table[0].1,
            ) == RuleView::Single(u32::MAX))
        },
{
    let rule = RuleView::RuleSet(table);
    if rule_model::can_simplify(rule) {
        rule_model::lemma_can_simplify_inside(table);
        rule_model::lemma_collapse_in_steps(table);
        if table.len() == 1 && table[0].0 is Wildcard {
            assert(rule_model::simplified_table(table)[0] == (
                table[0].0,
                rule_model::simplified(table[0].1),
            ));
        }
    }
    if rule_model::can_simplify_table(table) {
        rule_model::lemma_can_simplify_set(table);
        if table.len() == 1 && table[0].0 is Wildcard {
            assert(rule_model::can_simplify(table[0].1));
        }
    }
}

/// No two rules are for one pattern exactly when that is so of the table, and of every set
/// in it.
pub proof fn law_distinct_patterns(table: RuleTable)
    ensures
        rule_model::distinct_patterns(table) <==> {
            &&& forall|i: int, j: int|
                0 <= i < j < table.len() ==> !(#[trigger] table[i]).0.same((#[trigger] table[j]).0)
            &&& forall|i: int|
                0 <= i < table.len() && (#[trigger] table[i]).1 is RuleSet
                    ==> rule_model::distinct_patterns(table[i].1->RuleSet_0)
        },
{
    if (forall|i: int, j: int|
        0 <= i < j < table.len() ==> !(#[trigger] table[i]).0.same((#[trigger] table[j]).0)) && (
    forall|i: int|
        0 <= i < table.len() && (#[trigger] table[i]).1 is RuleSet
            ==> rule_model::distinct_patterns(table[i].1->RuleSet_0)) {
        assert forall|i: int| 0 <= i < table.len() implies distinct_inside(
            (#[trigger] table[i]).1,
        ) by {
            assert(table[i].1 is RuleSet ==> rule_model::distinct_patterns(
                table[i].1->RuleSet_0,
            ));
        }
        lemma_distinct(table);
    }
    if rule_model::distinct_patterns(table) {
        assert forall|i: int|
            0 <= i < table.len() && (
            #[trigger] table[i]).1 is RuleSet implies rule_model::distinct_patterns(
            table[i].1->RuleSet_0,
        ) by {
            assert(decreases_to!(table => table[i]));
            assert(decreases_to!(table[i] => table[i].1));
        }
    }
}

/// A default leaves every pattern in its place, and every rule but that of the wildcard. A
/// new wildcard comes last.
pub proof fn law_default_keeps_places(table: RuleTable, depth: u32, i: int)
    ensures
        ({
            let after = rule_model::with_default(table, depth);
            &&& 0 <= i < table.len() ==> after[i].0 == table[i].0
            &&& 0 <= i < table.len() && table[i].0 is Exact ==> after[i] == table[i]
            &&& rule_model::found_rule(table, PatternView::Wildcard) is None ==> after.len()
                == table.len() + 1 && after.last() == (
                PatternView::Wildcard,
                RuleView::Single(depth),
            )
            &&& rule_model::found_rule(table, PatternView::Wildcard) is Some ==> after.len()
                == table.len()
        }),
{
    if rule_model::rule_index(table, PatternView::Wildcard) is Some {
        assert(rule_model::is_rule_index(
            table,
            PatternView::Wildcard,
            rule_model::rule_index(table, PatternView::Wildcard)->0,
        ));
    }
}

/// Merging rules in leaves every pattern in its place, and every rule whose pattern they do
/// not mention.
pub proof fn law_merge_keeps_places(table: RuleTable, other: RuleTable, i: int)
    requires
        0 <= i < table.len(),
    ensures
        rule_model::merged(table, other).len() >= table.len(),
        rule_model::merged(table, other)[i].0 == table[i].0,
        (forall|j: int| 0 <= j < other.len() ==> !table[i].0.same((#[trigger] other[j]).0))
            ==> rule_model::merged(table, other)[i] == table[i],
{
    lemma_merge_prefix_keeps_places(table, other, other.len(), i);
}

proof fn lemma_merge_prefix_keeps_places(table: RuleTable, other: RuleTable, n: nat, i: int)
    requires
        0 <= i < table.len(),
        n <= other.len(),
    ensures
        rule_model::merged_prefix(table, other, n).len() >= table.len(),
        rule_model::merged_prefix(table, other, n)[i].0 == table[i].0,
        (forall|j: int| 0 <= j < other.len() ==> !table[i].0.same((#[trigger] other[j]).0))
            ==> rule_model::merged_prefix(table, other, n)[i] == table[i],
    decreases n,
{
    if n > 0 {
        let m = (n - 1) as nat;
        lemma_merge_prefix_keeps_places(table, other, m, i);
        let before = rule_model::merged_prefix(table, other, m);
        let (pattern, rule) = other[n - 1];
        law_add_keeps_places(
            before,
            pattern,
            rule_model::merged_rule(rule_model::found_rule(before, pattern), rule),
            i,
        );
    }
}

/// Merging rules in one after the other is merging them in together.
pub proof fn law_merge_rule_by_rule(
    table: RuleTable,
    other: RuleTable,
    pattern: PatternView,
    rule: RuleView,
)
    ensures
        rule_model::merged(table, Seq::empty()) == table,
        rule_model::merged(table, other.push((pattern, rule))) == rule_model::merged(
            rule_model::merged(table, other),
            seq![(pattern, rule)],
        ),
{
    let all = other.push((pattern, rule));
    lemma_merged_prefix_alike(table, other, all, other.len());
    lemma_merged_one(rule_model::merged(table, other), (pattern, rule));
}

proof fn lemma_merged_prefix_alike(table: RuleTable, a: RuleTable, b: RuleTable, n: nat)
    requires
        n <= a.len() <= b.len(),
        forall|i: int| 0 <= i < n ==> a[i] == b[i],
    ensures
        rule_model::merged_prefix(table, a, n) == rule_model::merged_prefix(table, b, n),
    decreases n,
{
    if n > 0 {
        lemma_merged_prefix_alike(table, a, b, (n - 1) as nat);
    }
}

/// The rule at a path of one pattern is removed from the table, and one at a longer path
/// from the set that is found for the first pattern, which stays where it was.
pub proof fn law_remove_at_path(
    table: RuleTable,
    first: PatternView,
    rest: Seq<PatternView>,
    inner: RuleTable,
)
    ensures
        rest.len() == 0 ==> rule_model::without_rule_at(table, seq![first] + rest)
            == rule_model::without_rule(table, first),
        rest.len() > 0 && rule_model::found_rule(table, first) == Some(RuleView::RuleSet(inner))
            ==> rule_model::without_rule_at(table, seq![first] + rest) == rule_model::with_rule(
            table,
            first,
            RuleView::RuleSet(rule_model::without_rule_at(inner, rest)),
        ),
{
    assert((seq![first] + rest).drop_first() =~= rest);
}

/// The rule at a path of one pattern is simplified in the table, and one at a longer path
/// in the set that is found for the first pattern, which stays where it was.
pub proof fn law_simplify_at_path(
    table: RuleTable,
    first: PatternView,
    rest: Seq<PatternView>,
    rule: RuleView,
)
    requires
        rule_model::found_rule(table, first) == Some(rule),
    ensures
        rest.len() == 0 ==> rule_model::simplified_at(table, seq![first] + rest)
            == rule_model::with_rule(table, first, rule_model::simplified(rule)),
        rest.len() > 0 && rule is RuleSet ==> rule_model::simplified_at(table, seq![first] + rest)
            == rule_model::with_rule(
            table,
            first,
            RuleView::RuleSet(rule_model::simplified_at(rule->RuleSet_0, rest)),
        ),
{
    assert((seq![first] + rest).drop_first() =~= rest);
}

/// A rule that is put under a path of patterns stands at its end, and is alone on the way.
pub proof fn law_nested_rule_is_alone(patterns: Seq<PatternView>, rule: RuleView)
    ensures
        patterns.len() == 0 ==> rule_model::nested(patterns, rule) == rule,
        patterns.len() > 0 ==> {
            &&& rule_model::nested(patterns, rule) matches RuleView::RuleSet(table)
            &&& table.len() == 1
            &&& table[0].0 == patterns[0]
            &&& table[0].1 == rule_model::nested(patterns.drop_first(), rule)
            &&& rule_model::rule_at(table, patterns) == Some(rule)
        },
    decreases patterns.len(),
{
    if patterns.len() > 0 {
        let below = patterns.drop_first();
        law_nested_rule_is_alone(below, rule);
        let entry = (patterns[0], rule_model::nested(below, rule));
        law_same_pattern(patterns[0], patterns[0], patterns[0]);
        law_first_rule_is_found(seq![entry], patterns[0], 0);
    }
}

} // verus!
