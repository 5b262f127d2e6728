//! Laws of what rules grant to paths, and of what simplifying them keeps of it.
use vstd::prelude::*;

use crate::path;
use crate::path::{ComponentView, PathView, StepView};
use crate::path_laws;
use crate::rule_laws::{law_add_keeps_other_rules, lemma_merged_one};
use crate::rule_model;
use crate::rule_model::{PatternView, RuleTable, RuleView};

verus! {

/// What a table grants to a path is what the first of its rules does that grants it
/// anything.
pub proof fn law_first_granting_rule_counts(table: RuleTable, path: Seq<StepView>, i: int)
    requires
        0 <= i < table.len(),
        rule_model::granted_entry(table[i], path) is Some,
        forall|j: int| 0 <= j < i ==> rule_model::granted_entry(#[trigger] table[j], path) is None,
    ensures
        rule_model::table_grants(table, path) == rule_model::granted_entry(table[i], path),
{
    lemma_skip_to(table, path, 0, i as nat);
}

proof fn lemma_skip_to(table: RuleTable, path: Seq<StepView>, start: nat, i: nat)
    requires
        start <= i < table.len(),
        forall|j: int|
            start <= j < i ==> rule_model::granted_entry(#[trigger] table[j], path) is None,
    ensures
        rule_model::granted_from(table, path, start) == rule_model::granted_from(table, path, i),
    decreases i - start,
{
    if start < i {
        assert(rule_model::granted_entry(table[start as int], path) is None);
        lemma_skip_to(table, path, start + 1, i);
    }
}

/// A table none of whose rules grants a path anything does not either.
pub proof fn law_no_granting_rule(table: RuleTable, path: Seq<StepView>)
    requires
        forall|j: int|
            0 <= j < table.len() ==> rule_model::granted_entry(#[trigger] table[j], path) is None,
    ensures
        rule_model::table_grants(table, path) is None,
{
    lemma_none_from(table, path, 0);
}

proof fn lemma_none_from(table: RuleTable, path: Seq<StepView>, start: nat)
    requires
        forall|j: int|
            start <= j < table.len() ==> rule_model::granted_entry(#[trigger] table[j], path)
                is None,
    ensures
        rule_model::granted_from(table, path, start) is None,
    decreases table.len() - start,
{
    if start < table.len() {
        assert(rule_model::granted_entry(table[start as int], path) is None);
        lemma_none_from(table, path, start + 1);
    }
}

/// A rule that cannot contribute to a snapshot grants nothing to any path, so it need
/// not be visited.
pub proof fn law_unvisited_rule_grants_nothing(rule: RuleView, path: Seq<StepView>)
    requires
        !rule_model::contributes(rule),
    ensures
        rule_model::granted(rule, path) is None,
{
    match rule {
        RuleView::Single(_) => {},
        RuleView::RuleSet(table) => {
            rule_model::lemma_set_contributes(table);
            law_unvisited_set_grants_nothing(table, path);
        },
    }
}

/// A set of rules that cannot contribute to a snapshot grants nothing to any path.
pub proof fn law_unvisited_set_grants_nothing(table: RuleTable, path: Seq<StepView>)
    requires
        !rule_model::table_contributes(table),
    ensures
        rule_model::table_grants(table, path) is None,
{
    assert forall|j: int| 0 <= j < table.len() implies rule_model::granted_entry(
        #[trigger] table[j],
        path,
    ) is None by {
        assert(!rule_model::contributes(table[j].1));
    }
    law_no_granting_rule(table, path);
}

/// The rest of a path whose steps are its components is such a path, of one less.
proof fn lemma_plain_rest(path: Seq<StepView>)
    requires
        path::is_plain(path),
    ensures
        path::is_plain(path::path_rest(path)),
        path::path_count(path) == path.len(),
{
    let rest = path::path_rest(path);
    assert forall|i: int| 0 <= i < rest.len() implies (#[trigger] rest[i]).count == rest.len()
        - i by {
        assert(path[i + 1].count == path.len() - (i + 1));
    }
    if path.len() > 0 {
        assert(path[0].count == path.len());
    }
}

/// The steps along names in a directory tree are the components of their path.
pub proof fn law_names_lead_along_plain_path(names: Seq<ComponentView>)
    ensures
        path::is_plain(path::plain_steps(names)),
        path::is_plain(path::path_rest(path::plain_steps(names))),
{
    assert(path::is_plain(path::plain_steps(names)));
    lemma_plain_rest(path::plain_steps(names));
}

/// A lone wildcard with depth `depth` grants every path down to `depth` levels below the
/// entries of the directory, and one level less with each component.
pub proof fn law_wildcard_reaches_depth(depth: u32, path: Seq<StepView>)
    requires
        0 < path.len() <= u32::MAX,
        path::is_plain(path::path_rest(path)),
    ensures
        rule_model::table_grants(seq![(PatternView::Wildcard, RuleView::Single(depth))], path)
            == if path.len() <= depth + 1 {
            Some((depth + 1 - path.len()) as u32)
        } else {
            None
        },
{
    let entry = (PatternView::Wildcard, RuleView::Single(depth));
    let table = seq![entry];
    let rest = path::path_rest(path);
    assert(rest.len() == path.len() - 1);
    lemma_plain_rest(rest);
    assert(rule_model::granted_entry(entry, path) == rule_model::levels_left(depth, rest.len()));
    if rule_model::granted_entry(entry, path) is Some {
        law_first_granting_rule_counts(table, path, 0);
    } else {
        law_no_granting_rule(table, path);
    }
}

/// Whether a rule has no more than `levels` sets of rules inside each other.
pub open spec fn nests_within(rule: RuleView, levels: nat) -> bool
    decreases rule,
{
    match rule {
        RuleView::Single(_) => true,
        RuleView::RuleSet(table) => {
            &&& levels > 0
            &&& forall|i: int|
                0 <= i < table.len() ==> nests_within((#[trigger] table[i]).1, (levels - 1) as nat)
        },
    }
}

/// What grants of a rule and of the rule it is simplified to have in common: both grant
/// something or neither does, the simplified one no less, and the same where the path is
/// no shorter than the rule is nested.
pub open spec fn grants_alike(
    before: Option<u32>,
    after: Option<u32>,
    same: bool,
) -> bool {
    &&& before is Some <==> after is Some
    &&& before is Some ==> before.unwrap() <= after.unwrap()
    &&& same ==> before == after
}

/// A rule that amounts to a depth can contribute to a snapshot.
proof fn lemma_collapsed_contributes(rule: RuleView)
    requires
        rule_model::collapsed(rule) is Some,
    ensures
        rule_model::contributes(rule),
    decreases rule,
{
    match rule {
        RuleView::Single(_) => {},
        RuleView::RuleSet(table) => {
            assert(decreases_to!(table => table[0]));
            lemma_collapsed_contributes(table[0].1);
            rule_model::lemma_set_contributes(table);
            assert(rule_model::contributes(table[0].1));
        },
    }
}

/// Simplifying a rule does not change whether it can contribute to a snapshot.
pub proof fn law_simplify_keeps_contribution(rule: RuleView)
    requires
        rule_model::can_simplify(rule),
    ensures
        rule_model::contributes(rule_model::simplified(rule)) == rule_model::contributes(rule),
    decreases rule,
{
    if rule_model::collapsed(rule) is Some {
        lemma_collapsed_contributes(rule);
    } else {
        let table = rule->RuleSet_0;
        rule_model::lemma_can_simplify_inside(table);
        let after = rule_model::simplified_table(table);
        rule_model::lemma_set_contributes(table);
        rule_model::lemma_set_contributes(after);
        assert forall|i: int| 0 <= i < table.len() implies rule_model::contributes(
            (#[trigger] table[i]).1,
        ) == rule_model::contributes(after[i].1) by {
            assert(decreases_to!(table => table[i]));
            law_simplify_keeps_contribution(table[i].1);
        }
        if rule_model::table_contributes(table) {
            let i = choose|i: int|
                0 <= i < table.len() && rule_model::contributes((#[trigger] table[i]).1);
            assert(rule_model::contributes(after[i].1));
        }
        if rule_model::table_contributes(after) {
            let i = choose|i: int|
                0 <= i < after.len() && rule_model::contributes((#[trigger] after[i]).1);
            assert(rule_model::contributes(table[i].1));
        }
    }
}

/// Simplifying a rule keeps which paths it grants anything. What it grants stays the same
/// for paths with no fewer components than the rule has levels; for shorter ones it may
/// be more.
pub proof fn law_simplify_keeps_grants(rule: RuleView, path: Seq<StepView>, levels: nat)
    requires
        rule_model::can_simplify(rule),
        path.len() <= u32::MAX,
        path::is_plain(path),
    ensures
        grants_alike(
            rule_model::granted(rule, path),
            rule_model::granted(rule_model::simplified(rule), path),
            nests_within(rule, levels) && levels <= path.len(),
        ),
    decreases rule, 0nat,
{
    lemma_plain_rest(path);
    match rule {
        RuleView::Single(_) => {},
        RuleView::RuleSet(table) => {
            rule_model::lemma_can_simplify_inside(table);
            if rule_model::collapsed(rule) is Some {
                lemma_plain_rest(path::path_rest(path));
                let depth = rule_model::collapsed(rule).unwrap();
                let inner = table[0].1;
                assert(decreases_to!(table => table[0]));
                lemma_collapsed_contributes(inner);
                let rest = path::path_rest(path);
                let below = if levels > 0 {
                    (levels - 1) as nat
                } else {
                    0
                };
                law_simplify_keeps_grants(inner, rest, below);
                assert(rule_model::simplified(inner) == RuleView::Single((depth - 1) as u32));
                assert(rule_model::granted_entry(table[0], path) == rule_model::granted(
                    inner,
                    rest,
                ));
                if rule_model::granted_entry(table[0], path) is Some {
                    law_first_granting_rule_counts(table, path, 0);
                } else {
                    law_no_granting_rule(table, path);
                }
                if nests_within(rule, levels) {
                    assert(nests_within(table[0].1, below));
                }
            } else {
                lemma_simplify_keeps_table_grants(table, path, levels, 0);
            }
        },
    }
}

proof fn lemma_simplify_keeps_table_grants(
    table: RuleTable,
    path: Seq<StepView>,
    levels: nat,
    start: nat,
)
    requires
        rule_model::can_simplify_table(table),
        path.len() <= u32::MAX,
        path::is_plain(path::path_rest(path)),
    ensures
        grants_alike(
            rule_model::granted_from(table, path, start),
            rule_model::granted_from(rule_model::simplified_table(table), path, start),
            nests_within(RuleView::RuleSet(table), levels) && levels <= path.len(),
        ),
    decreases table, table.len() - start,
{
    let after = rule_model::simplified_table(table);
    if start < table.len() {
        let i = start as int;
        lemma_simplify_keeps_table_grants(table, path, levels, start + 1);
        let below = if levels > 0 {
            (levels - 1) as nat
        } else {
            0
        };
        assert(decreases_to!(table => table[i]));
        assert(rule_model::can_simplify(table[i].1));
        law_simplify_keeps_grants(table[i].1, path::path_rest(path), below);
        law_simplify_keeps_contribution(table[i].1);
        assert(after[i] == (table[i].0, rule_model::simplified(table[i].1)));
        // Named, so that what each of the two rules grants is unfolded.
        let before_entry = rule_model::granted_entry(table[i], path);
        let after_entry = rule_model::granted_entry(after[i], path);
        if nests_within(RuleView::RuleSet(table), levels) {
            let rule = RuleView::RuleSet(table);
            assert(nests_within(rule->RuleSet_0[i].1, below));
        }
    }
}

/// Simplifying a set of rules keeps which paths it grants anything, and what it grants
/// to paths with no fewer components than the set has levels.
pub proof fn law_simplify_keeps_set_grants(
    table: RuleTable,
    path: Seq<StepView>,
    levels: nat,
)
    requires
        rule_model::can_simplify_table(table),
        path.len() <= u32::MAX,
        path::is_plain(path::path_rest(path)),
    ensures
        grants_alike(
            rule_model::table_grants(table, path),
            rule_model::table_grants(rule_model::simplified_table(table), path),
            nests_within(RuleView::RuleSet(table), levels) && levels <= path.len(),
        ),
{
    lemma_simplify_keeps_table_grants(table, path, levels, 0);
}

/// Simplifying does not change the depth that a rule amounts to.
proof fn lemma_simplified_amounts_to_same(rule: RuleView)
    requires
        rule_model::can_simplify(rule),
    ensures
        rule_model::collapsed(rule_model::simplified(rule)) == rule_model::collapsed(rule),
    decreases rule,
{
    match rule {
        RuleView::Single(_) => {},
        RuleView::RuleSet(table) => {
            if rule_model::collapsed(rule) is None {
                rule_model::lemma_can_simplify_inside(table);
                let after = rule_model::simplified_table(table);
                if table.len() == 1 && table[0].0 is Wildcard {
                    assert(decreases_to!(table => table[0]));
                    assert(rule_model::can_simplify(table[0].1));
                    lemma_simplified_amounts_to_same(table[0].1);
                    assert(after[0] == (table[0].0, rule_model::simplified(table[0].1)));
                }
            }
        },
    }
}

/// A simplified rule is as simple as it gets.
pub proof fn law_simplify_twice_is_once(rule: RuleView)
    requires
        rule_model::can_simplify(rule),
    ensures
        rule_model::can_simplify(rule_model::simplified(rule)),
        rule_model::simplified(rule_model::simplified(rule)) == rule_model::simplified(rule),
    decreases rule,
{
    match rule {
        RuleView::Single(_) => {},
        RuleView::RuleSet(table) => {
            lemma_simplified_amounts_to_same(rule);
            if rule_model::collapsed(rule) is None {
                rule_model::lemma_can_simplify_inside(table);
                let after = rule_model::simplified_table(table);
                assert forall|i: int| 0 <= i < table.len() implies rule_model::can_simplify(
                    (#[trigger] after[i]).1,
                ) && rule_model::simplified(after[i].1) == after[i].1 by {
                    assert(decreases_to!(table => table[i]));
                    assert(rule_model::can_simplify(table[i].1));
                    law_simplify_twice_is_once(table[i].1);
                }
                rule_model::lemma_can_simplify_set(after);
                assert(rule_model::simplified_table(after) =~= after);
            }
        },
    }
}

/// A rule that grants a path something makes the table do so.
proof fn lemma_one_rule_is_enough(
    table: RuleTable,
    path: Seq<StepView>,
    start: nat,
    i: nat,
)
    requires
        start <= i < table.len(),
        rule_model::granted_entry(table[i as int], path) is Some,
    ensures
        rule_model::granted_from(table, path, start) is Some,
    decreases i - start,
{
    if start < i && rule_model::granted_entry(table[start as int], path) is None {
        lemma_one_rule_is_enough(table, path, start + 1, i);
    }
}

/// Some rule grants what a table does.
proof fn lemma_some_rule_grants(table: RuleTable, path: Seq<StepView>) -> (i: int)
    requires
        rule_model::table_grants(table, path) is Some,
    ensures
        0 <= i < table.len(),
        rule_model::granted_entry(table[i], path) is Some,
{
    if forall|j: int|
        0 <= j < table.len() ==> rule_model::granted_entry(#[trigger] table[j], path) is None {
        law_no_granting_rule(table, path);
    }
    choose|j: int|
        0 <= j < table.len() && rule_model::granted_entry(#[trigger] table[j], path) is Some
}

/// Whether the wildcards of a table leave no path of `n` components out: the wildcard
/// has a depth that goes so far, or a set whose wildcards do for one component less, or
/// there is none, so that a default can be put in.
pub open spec fn wildcards_leave_room(table: RuleTable, n: nat) -> bool
    decreases table,
{
    match rule_model::rule_index(table, PatternView::Wildcard) {
        None => true,
        Some(i) => match table[i].1 {
            RuleView::Single(depth) => n <= depth + 1,
            RuleView::RuleSet(inner) => {
                proof {
                    assert(rule_model::is_rule_index(table, PatternView::Wildcard, i));
                    assert(decreases_to!(table => table[i]));
                    assert(decreases_to!(table[i] => table[i].1));
                }
                wildcards_leave_room(
                    inner,
                    if n > 0 {
                        (n - 1) as nat
                    } else {
                        0
                    },
                )
            },
        },
    }
}

/// A table with a default grants every path something that is no longer than the default
/// is deep, where the wildcards of the table leave room for that.
pub proof fn law_default_reaches_depth(table: RuleTable, depth: u32, path: Seq<StepView>)
    requires
        path.len() <= depth,
        path::is_plain(path),
        wildcards_leave_room(table, path.len()),
    ensures
        rule_model::table_contributes(rule_model::with_default(table, depth)),
        rule_model::table_grants(rule_model::with_default(table, depth), path) is Some,
    decreases table,
{
    let after = rule_model::with_default(table, depth);
    let rest = path::path_rest(path);
    lemma_plain_rest(path);
    lemma_plain_rest(rest);
    let wildcard = PatternView::Wildcard;
    let i = match rule_model::rule_index(table, wildcard) {
        None => table.len() as int,
        Some(i) => i,
    };
    match rule_model::rule_index(table, wildcard) {
        None => {},
        Some(_) => {
            assert(rule_model::is_rule_index(table, wildcard, i));
            match table[i].1 {
                RuleView::Single(_) => {},
                RuleView::RuleSet(inner) => {
                    assert(decreases_to!(table => table[i]));
                    assert(decreases_to!(table[i] => table[i].1));
                    law_default_reaches_depth(inner, depth, rest);
                    rule_model::lemma_set_contributes(rule_model::with_default(inner, depth));
                },
            }
        },
    }
    assert(after[i].0 is Wildcard);
    assert(rule_model::contributes(after[i].1));
    assert(rule_model::granted_entry(after[i], path) == rule_model::granted(after[i].1, rest));
    lemma_one_rule_is_enough(after, path, 0, i as nat);
}

/// Where rules are merged in below a depth, no path loses what the table grants it, if the
/// wildcards among those rules leave room for the depth.
pub proof fn law_merge_below_depth_keeps_coverage(
    table: RuleTable,
    pattern: PatternView,
    depth: u32,
    rules: RuleTable,
    path: Seq<StepView>,
)
    requires
        rule_model::found_rule(table, pattern) == Some(RuleView::Single(depth)),
        wildcards_leave_room(rule_model::merged(RuleTable::empty(), rules), depth as nat),
        path.len() <= u32::MAX,
        path::is_plain(path::path_rest(path)),
        rule_model::table_grants(table, path) is Some,
    ensures
        rule_model::table_grants(
            rule_model::merged(table, seq![(pattern, RuleView::RuleSet(rules))]),
            path,
        ) is Some,
{
    let entry = (pattern, RuleView::RuleSet(rules));
    let after = rule_model::merged(table, seq![entry]);
    let own = rule_model::merged(RuleTable::empty(), rules);
    let inner = rule_model::with_default(own, depth);
    lemma_merged_one(table, entry);
    let k = rule_model::rule_index(table, pattern)->0;
    assert(rule_model::is_rule_index(table, pattern, k));
    assert(after == table.update(k, (table[k].0, RuleView::RuleSet(inner))));
    let i = lemma_some_rule_grants(table, path);
    if i == k {
        let rest = path::path_rest(path);
        lemma_plain_rest(rest);
        assert(rule_model::granted_entry(table[k], path) == rule_model::levels_left(
            depth,
            rest.len(),
        ));
        lemma_room_for_less(own, depth as nat, rest.len());
        law_default_reaches_depth(own, depth, rest);
        rule_model::lemma_set_contributes(inner);
        assert(rule_model::granted_entry(after[k], path) == rule_model::granted(
            RuleView::RuleSet(inner),
            rest,
        ));
    } else {
        assert(after[i] == table[i]);
    }
    lemma_one_rule_is_enough(after, path, 0, i as nat);
}

/// Where rules without a wildcard are merged in below a depth, no path loses what the
/// table grants it.
pub proof fn law_merge_without_wildcard_keeps_coverage(
    table: RuleTable,
    pattern: PatternView,
    depth: u32,
    rules: RuleTable,
    path: Seq<StepView>,
)
    requires
        rule_model::found_rule(table, pattern) == Some(RuleView::Single(depth)),
        rule_model::found_rule(rules, PatternView::Wildcard) is None,
        path.len() <= u32::MAX,
        path::is_plain(path::path_rest(path)),
        rule_model::table_grants(table, path) is Some,
    ensures
        rule_model::table_grants(
            rule_model::merged(table, seq![(pattern, RuleView::RuleSet(rules))]),
            path,
        ) is Some,
{
    lemma_merged_without_wildcard(rules, rules.len());
    law_merge_below_depth_keeps_coverage(table, pattern, depth, rules, path);
}

/// Merging rules without a wildcard into nothing brings none in.
proof fn lemma_merged_without_wildcard(rules: RuleTable, n: nat)
    requires
        n <= rules.len(),
        rule_model::found_rule(rules, PatternView::Wildcard) is None,
    ensures
        rule_model::found_rule(
            rule_model::merged_prefix(RuleTable::empty(), rules, n),
            PatternView::Wildcard,
        ) is None,
    decreases n,
{
    if n == 0 {
        rule_model::lemma_no_rule_index(RuleTable::empty(), PatternView::Wildcard);
    } else {
        lemma_merged_without_wildcard(rules, (n - 1) as nat);
        rule_model::lemma_absent(rules, PatternView::Wildcard);
        let before = rule_model::merged_prefix(RuleTable::empty(), rules, (n - 1) as nat);
        let (pattern, rule) = rules[n - 1];
        law_add_keeps_other_rules(
            before,
            pattern,
            rule_model::merged_rule(rule_model::found_rule(before, pattern), rule),
            PatternView::Wildcard,
        );
    }
}

/// Wildcards that leave room for a path do so for a shorter one.
proof fn lemma_room_for_less(table: RuleTable, n: nat, m: nat)
    requires
        m <= n,
        wildcards_leave_room(table, n),
    ensures
        wildcards_leave_room(table, m),
    decreases table,
{
    match rule_model::rule_index(table, PatternView::Wildcard) {
        None => {},
        Some(i) => match table[i].1 {
            RuleView::Single(_) => {},
            RuleView::RuleSet(inner) => {
                assert(rule_model::is_rule_index(table, PatternView::Wildcard, i));
                assert(decreases_to!(table => table[i]));
                assert(decreases_to!(table[i] => table[i].1));
                lemma_room_for_less(
                    inner,
                    if n > 0 {
                        (n - 1) as nat
                    } else {
                        0
                    },
                    if m > 0 {
                        (m - 1) as nat
                    } else {
                        0
                    },
                );
            },
        },
    }
}

/// A depth grants a path whatever is left of it behind the components of the path, and
/// nothing where they are more than it.
pub proof fn law_depth_grants_what_is_left(depth: u32, path: Seq<StepView>)
    requires
        path::path_count(path) <= u32::MAX,
    ensures
        rule_model::granted(RuleView::Single(depth), path) == if path::path_count(path) <= depth {
            Some((depth - path::path_count(path)) as u32)
        } else {
            None
        },
{
}

/// A rule grants a path what it grants to what follows the first component, if its pattern
/// stands for that component, and else nothing.
pub proof fn law_rule_is_tried_on_first_component(
    pattern: PatternView,
    rule: RuleView,
    first: StepView,
    rest: Seq<StepView>,
)
    ensures
        pattern is Wildcard ==> rule_model::granted_entry((pattern, rule), seq![first] + rest)
            == rule_model::granted(rule, rest),
        pattern is Exact ==> rule_model::granted_entry((pattern, rule), seq![first] + rest)
            == if path::identities(pattern->Exact_0.components) == path::identities(first.root) {
            rule_model::granted(rule, rest)
        } else {
            None
        },
{
    assert(path::path_rest(seq![first] + rest) =~= rest);
    if !rule_model::contributes(rule) {
        law_unvisited_rule_grants_nothing(rule, rest);
    }
}

/// On a path without steps the wildcard is tried, and none of the patterns that have
/// components. There the rule is asked about the same path.
pub proof fn law_rule_is_tried_on_empty_path(pattern: PatternView, rule: RuleView)
    ensures
        pattern is Wildcard || pattern->Exact_0.components.len() == 0 ==> rule_model::granted_entry(
            (pattern, rule),
            Seq::empty(),
        ) == rule_model::granted(rule, Seq::empty()),
        pattern is Exact && pattern->Exact_0.components.len() > 0 ==> rule_model::granted_entry(
            (pattern, rule),
            Seq::empty(),
        ) is None,
{
    let none = Seq::<StepView>::empty();
    assert(path::path_rest(none) =~= none);
    if !rule_model::contributes(rule) {
        law_unvisited_rule_grants_nothing(rule, none);
    }
    if let PatternView::Exact(path) = pattern {
        path_laws::law_paths_are_compared_component_by_component(
            path.components,
            path::path_root(none),
        );
    }
}

/// A set of rules grants what its rules do.
pub proof fn law_set_grants_what_its_rules_do(table: RuleTable, path: Seq<StepView>)
    ensures
        rule_model::granted(RuleView::RuleSet(table), path) == rule_model::table_grants(
            table,
            path,
        ),
{
}

/// Whether some rule of a table grants a path is whether the table does.
pub proof fn law_table_grants_what_some_rule_does(table: RuleTable, path: Seq<StepView>)
    ensures
        rule_model::table_grants(table, path) is Some <==> exists|i: int|
            0 <= i < table.len() && rule_model::granted_entry(#[trigger] table[i], path) is Some,
{
    if rule_model::table_grants(table, path) is Some {
        let i = lemma_some_rule_grants(table, path);
        assert(rule_model::granted_entry(table[i], path) is Some);
    }
    if exists|i: int|
        0 <= i < table.len() && rule_model::granted_entry(#[trigger] table[i], path) is Some {
        let i = choose|i: int|
            0 <= i < table.len() && rule_model::granted_entry(#[trigger] table[i], path) is Some;
        lemma_one_rule_is_enough(table, path, 0, i as nat);
    }
}

/// The only rule of a table, for one name, grants names in a directory tree something
/// exactly when the first of them is that name and no more follow than the rule is deep,
/// whatever they are: one level less with each.
pub proof fn law_rule_for_name_reaches_depth(
    pattern: PathView,
    depth: u32,
    names: Seq<ComponentView>,
)
    requires
        pattern.components.len() == 1,
        0 < names.len() <= u32::MAX,
    ensures
        rule_model::table_grants(
            seq![(PatternView::Exact(pattern), RuleView::Single(depth))],
            path::plain_steps(names),
        ) == if pattern.components[0].identity() == names[0].identity() && names.len() - 1
            <= depth {
            Some((depth - (names.len() - 1)) as u32)
        } else {
            None
        },
{
    let entry = (PatternView::Exact(pattern), RuleView::Single(depth));
    let table = seq![entry];
    let steps = path::plain_steps(names);
    path_laws::law_rest_is_the_path_of_later_names(names);
    path_laws::law_paths_are_compared_component_by_component(
        pattern.components,
        path::path_root(steps),
    );
    if pattern.components[0].identity() == names[0].identity() {
        assert(path::identities(pattern.components) =~= path::identities(path::path_root(steps)));
    }
    let rest = path::path_rest(steps);
    if names.len() > 1 {
        path_laws::law_rest_is_the_path_of_later_names(names.drop_first());
    }
    assert(path::path_count(rest) == names.len() - 1);
    assert(rule_model::table_grants(table, steps) == rule_model::granted_entry(entry, steps)) by {
        if rule_model::granted_entry(entry, steps) is Some {
            law_first_granting_rule_counts(table, steps, 0);
        } else {
            law_no_granting_rule(table, steps);
        }
    }
}

/// A depth can contribute to a snapshot, and a set exactly when one of its rules can.
pub proof fn law_contribution(depth: u32, table: RuleTable)
    ensures
        rule_model::contributes(RuleView::Single(depth)),
        rule_model::contributes(RuleView::RuleSet(table)) <==> exists|i: int|
            0 <= i < table.len() && rule_model::contributes((#[trigger] table[i]).1),
        rule_model::table_contributes(table) <==> exists|i: int|
            0 <= i < table.len() && rule_model::contributes((#[trigger] table[i]).1),
{
    rule_model::lemma_set_contributes(table);
}

/// The components behind which a depth is left are counted in 32 bits.
pub proof fn law_components_are_counted_in_32_bits(
    depth: u32,
    path: Seq<StepView>,
    used: u32,
    n: nat,
)
    requires
        path::path_count(path) == used + n * 0x1_0000_0000,
    ensures
        rule_model::granted(RuleView::Single(depth), path) == if used <= depth {
            Some((depth - used) as u32)
        } else {
            None
        },
{
}

} // verus!
