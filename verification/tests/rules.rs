use file_trackr::path::FsPath;
use file_trackr::rules::{PathPattern, SnapshotRule, SnapshotRuleSet};

fn exact(text: &str) -> PathPattern {
    PathPattern::Exact(FsPath::parse(text))
}

fn patterns(texts: &[&str]) -> Vec<PathPattern> {
    texts.iter().map(|text| text.parse().unwrap()).collect()
}

fn depth_of(rule: Option<&SnapshotRule>) -> Option<u32> {
    rule.and_then(|rule| rule.clone().single())
}

fn query(rules: &SnapshotRuleSet, path: &str) -> Option<u32> {
    rules.query(&FsPath::parse(path))
}

fn count(rules: &SnapshotRuleSet) -> usize {
    rules.iter_rules().count()
}

/// {a: 1, b: {c: 3}}
fn sample() -> SnapshotRuleSet {
    let mut rules = SnapshotRuleSet::new();
    rules.add_rule_path(&patterns(&["a"]), SnapshotRule::Single(1));
    rules.add_rule_path(&patterns(&["b", "c"]), SnapshotRule::Single(3));
    rules
}

#[test]
fn star_is_the_wildcard() {
    assert!(matches!(PathPattern::parse("*"), PathPattern::Wildcard));
    assert!(matches!("*".parse::<PathPattern>(), Ok(PathPattern::Wildcard)));
    assert!(matches!(PathPattern::parse("**"), PathPattern::Exact(_)));
    assert!(matches!(PathPattern::parse("a"), PathPattern::Exact(_)));
}

#[test]
fn patterns_match_paths() {
    assert!(PathPattern::Wildcard.matches(&FsPath::parse("x")));
    assert!(exact("x").matches(&FsPath::parse("x")));
    assert!(exact("x").matches(&FsPath::parse("x/")));
    assert!(!exact("x").matches(&FsPath::parse("y")));
}

#[test]
fn patterns_are_equal_by_components() {
    assert!(exact("a/b") == exact("a//b"));
    assert!(exact("a") != exact("b"));
    assert!(PathPattern::Wildcard == PathPattern::Wildcard);
    assert!(PathPattern::Wildcard != exact("*"));
}

#[test]
fn added_rule_is_found() {
    let mut rules = SnapshotRuleSet::new();
    assert!(rules.find_rule(&exact("a")).is_none());
    rules.add_rule(exact("a"), SnapshotRule::Single(4));
    assert_eq!(depth_of(rules.find_rule(&exact("a"))), Some(4));
    assert!(rules.find_rule(&exact("b")).is_none());
}

#[test]
fn added_rule_replaces_the_one_there() {
    let mut rules = sample();
    rules.add_rule(exact("a"), SnapshotRule::Single(9));
    assert_eq!(count(&rules), 2);
    assert_eq!(depth_of(rules.find_rule(&exact("a"))), Some(9));
    assert!(matches!(rules.find_rule(&exact("b")), Some(SnapshotRule::RuleSet(_))));
}

#[test]
fn removed_rule_is_gone() {
    let mut rules = sample();
    assert_eq!(rules.remove_rule(&exact("a")), Ok(()));
    assert!(rules.find_rule(&exact("a")).is_none());
    assert_eq!(count(&rules), 1);
    assert_eq!(rules.remove_rule(&exact("a")), Err(()));
    assert_eq!(count(&rules), 1);
}

#[test]
fn remove_undoes_add() {
    let mut rules = sample();
    rules.add_rule(exact("z"), SnapshotRule::Single(0));
    rules.remove_rule(&exact("z")).unwrap();
    assert_eq!(count(&rules), 2);
    assert_eq!(depth_of(rules.find_rule(&exact("a"))), Some(1));
}

#[test]
fn found_rule_can_be_changed() {
    let mut rules = sample();
    *rules.find_rule_mut(&exact("a")).unwrap() = SnapshotRule::Single(7);
    assert_eq!(depth_of(rules.find_rule(&exact("a"))), Some(7));
    assert!(rules.find_rule_mut(&exact("x")).is_none());
}

#[test]
fn rules_can_be_changed_in_place() {
    let mut rules = sample();
    for (_, rule) in rules.iter_mut_rules() {
        *rule = SnapshotRule::Single(5);
    }
    assert_eq!(depth_of(rules.find_rule(&exact("a"))), Some(5));
    assert_eq!(depth_of(rules.find_rule(&exact("b"))), Some(5));
}

#[test]
fn added_path_is_found() {
    let rules = sample();
    assert_eq!(depth_of(rules.find_rule_path(&patterns(&["a"]))), Some(1));
    assert_eq!(depth_of(rules.find_rule_path(&patterns(&["b", "c"]))), Some(3));
    assert!(rules.find_rule_path(&patterns(&["b", "d"])).is_none());
    assert!(rules.find_rule_path(&patterns(&["a", "c"])).is_none());
    assert!(rules.find_rule_path(&[]).is_none());
}

#[test]
fn path_below_depth_keeps_depth_as_wildcard() {
    let mut rules = sample();
    rules.add_rule_path(&patterns(&["a", "d"]), SnapshotRule::Single(6));
    assert_eq!(depth_of(rules.find_rule_path(&patterns(&["a", "d"]))), Some(6));
    assert_eq!(depth_of(rules.find_rule_path(&patterns(&["a", "*"]))), Some(1));
}

#[test]
fn wildcard_below_depth_stands() {
    let mut rules = SnapshotRuleSet::new();
    rules.add_rule(exact("a"), SnapshotRule::Single(3));
    rules.add_rule_path(&patterns(&["a", "*"]), SnapshotRule::Single(1));
    let set = rules.find_rule(&exact("a")).unwrap().clone().ruleset().unwrap();
    assert_eq!(count(&set), 1);
    assert_eq!(depth_of(set.find_rule(&PathPattern::Wildcard)), Some(1));
}

#[test]
fn path_through_wildcard_below_depth_is_found() {
    let mut rules = SnapshotRuleSet::new();
    rules.add_rule(exact("a"), SnapshotRule::Single(3));
    rules.add_rule_path(&patterns(&["a", "*", "b"]), SnapshotRule::Single(1));
    assert_eq!(depth_of(rules.find_rule_path(&patterns(&["a", "*", "b"]))), Some(1));
    assert_eq!(depth_of(rules.find_rule_path(&patterns(&["a", "*", "*"]))), Some(3));
    assert!(rules.find_rule_path(&patterns(&["a", "c"])).is_none());
}

#[test]
fn rules_below_depth_keep_coverage() {
    let mut rules = SnapshotRuleSet::new();
    rules.add_rule(exact("a"), SnapshotRule::Single(3));
    let covered = ["a", "a/x", "a/x/y", "a/x/y/z", "a/b/y/z"];
    assert!(covered.iter().all(|path| query(&rules, path).is_some()));
    rules.add_rule_path(&patterns(&["a", "b", "c"]), SnapshotRule::Single(0));
    assert!(covered.iter().all(|path| query(&rules, path).is_some()));
    rules.add_rule_path(&patterns(&["a", "*", "c"]), SnapshotRule::Single(0));
    assert_eq!(query(&rules, "a/b/c"), Some(0));
}

#[test]
fn wildcard_of_its_own_ends_coverage() {
    let mut rules = SnapshotRuleSet::new();
    rules.add_rule(exact("a"), SnapshotRule::Single(3));
    rules.add_rule_path(&patterns(&["a", "*"]), SnapshotRule::Single(0));
    assert_eq!(query(&rules, "a/x"), Some(0));
    assert_eq!(query(&rules, "a/x/y"), None);
}

#[test]
fn added_path_keeps_other_paths() {
    let mut rules = sample();
    rules.add_rule_path(&patterns(&["b", "d"]), SnapshotRule::Single(2));
    assert_eq!(depth_of(rules.find_rule_path(&patterns(&["b", "c"]))), Some(3));
    assert_eq!(depth_of(rules.find_rule_path(&patterns(&["b", "d"]))), Some(2));
}

#[test]
fn ruleset_under_no_path_is_merged() {
    let mut rules = sample();
    let mut other = SnapshotRuleSet::new();
    other.add_rule(exact("a"), SnapshotRule::Single(11));
    rules.add_rule_path(&[], SnapshotRule::RuleSet(other));
    assert_eq!(depth_of(rules.find_rule(&exact("a"))), Some(11));
    assert_eq!(count(&rules), 2);
}

#[test]
fn removed_path_is_gone() {
    let mut rules = sample();
    assert_eq!(rules.remove_rule_path(&patterns(&["b", "c"])), Ok(()));
    assert!(rules.find_rule_path(&patterns(&["b", "c"])).is_none());
    assert!(matches!(rules.find_rule(&exact("b")), Some(SnapshotRule::RuleSet(_))));
    assert_eq!(depth_of(rules.find_rule(&exact("a"))), Some(1));
}

#[test]
fn missing_path_cannot_be_removed() {
    let mut rules = sample();
    assert_eq!(rules.remove_rule_path(&patterns(&["a", "c"])), Err(()));
    assert_eq!(rules.remove_rule_path(&patterns(&["x", "c"])), Err(()));
    assert_eq!(rules.remove_rule_path(&patterns(&["b", "x"])), Err(()));
    assert_eq!(depth_of(rules.find_rule_path(&patterns(&["b", "c"]))), Some(3));
}

#[test]
fn update_merges_sets() {
    let mut rules = sample();
    let mut other = SnapshotRuleSet::new();
    other.add_rule_path(&patterns(&["b", "e"]), SnapshotRule::Single(1));
    other.add_rule_path(&patterns(&["n", "m"]), SnapshotRule::Single(2));
    rules.update(other);
    assert_eq!(count(&rules), 3);
    assert_eq!(depth_of(rules.find_rule_path(&patterns(&["b", "c"]))), Some(3));
    assert_eq!(depth_of(rules.find_rule_path(&patterns(&["b", "e"]))), Some(1));
    assert_eq!(depth_of(rules.find_rule_path(&patterns(&["n", "m"]))), Some(2));
}

#[test]
fn rule_is_a_depth_or_a_set() {
    assert_eq!(SnapshotRule::Single(3).single(), Some(3));
    assert!(SnapshotRule::Single(3).ruleset().is_none());
    assert_eq!(SnapshotRule::RuleSet(sample()).single(), None);
    assert_eq!(count(&SnapshotRule::RuleSet(sample()).ruleset().unwrap()), 2);
}

#[test]
fn depth_is_granted_level_by_level() {
    let rules = sample();
    assert_eq!(query(&rules, "a"), Some(1));
    assert_eq!(query(&rules, "a/x"), Some(0));
    assert_eq!(query(&rules, "a/x/y"), None);
    assert_eq!(query(&rules, "b/c"), Some(3));
    assert_eq!(query(&rules, "b/c/d/e/f"), Some(0));
    assert_eq!(query(&rules, "b/x"), None);
    assert_eq!(query(&rules, "z"), None);
}

#[test]
fn first_granting_rule_counts() {
    let mut rules = SnapshotRuleSet::new();
    rules.add_rule(PathPattern::Wildcard, SnapshotRule::Single(1));
    rules.add_rule(exact("a"), SnapshotRule::Single(5));
    assert_eq!(query(&rules, "a"), Some(1));
    assert_eq!(query(&rules, "a/b/c"), Some(3));
    assert_eq!(query(&rules, "b/c/d"), None);
}

#[test]
fn set_grants_nothing_for_its_own_path() {
    let mut rules = SnapshotRuleSet::new();
    rules.add_rule_path(&patterns(&["a", "b"]), SnapshotRule::Single(1));
    assert_eq!(query(&rules, "a"), None);
    rules.add_rule_path(&patterns(&["a", "*"]), SnapshotRule::Single(1));
    assert_eq!(query(&rules, "a"), Some(1));
}

#[test]
fn empty_sets_are_not_visited() {
    assert!(!SnapshotRuleSet::new().should_visit());
    let mut rules = SnapshotRuleSet::new();
    rules.add_rule_path(&patterns(&["a", "b"]), SnapshotRule::RuleSet(SnapshotRuleSet::new()));
    assert!(!rules.should_visit());
    assert_eq!(query(&rules, "a/b"), None);
    rules.add_rule_path(&patterns(&["a", "c"]), SnapshotRule::Single(0));
    assert!(rules.should_visit());
    assert!(SnapshotRule::Single(0).should_visit());
}

#[test]
fn initial_rules_go_two_levels_below_entries() {
    let rules = SnapshotRuleSet::initial();
    assert_eq!(query(&rules, "a"), Some(2));
    assert_eq!(query(&rules, "a/b/c"), Some(0));
    assert_eq!(query(&rules, "a/b/c/d"), None);
}

#[test]
fn default_set_has_no_rules() {
    assert_eq!(count(&SnapshotRuleSet::default()), 0);
}

#[test]
fn lone_wildcards_are_simplified() {
    let mut rules = SnapshotRuleSet::new();
    rules.add_rule_path(&patterns(&["a", "*", "*"]), SnapshotRule::Single(1));
    assert!(rules.can_simplify());
    rules.simplify();
    assert_eq!(depth_of(rules.find_rule(&exact("a"))), Some(3));
    rules.simplify();
    assert_eq!(depth_of(rules.find_rule(&exact("a"))), Some(3));
}

#[test]
fn simplified_rules_grant_the_same() {
    let mut rules = SnapshotRuleSet::new();
    rules.add_rule_path(&patterns(&["a", "*"]), SnapshotRule::Single(1));
    assert_eq!(query(&rules, "a"), Some(1));
    assert_eq!(query(&rules, "a/b"), Some(1));
    assert_eq!(query(&rules, "a/b/c"), Some(0));
    assert_eq!(query(&rules, "a/b/c/d"), None);
    rules.simplify();
    assert_eq!(query(&rules, "a"), Some(2));
    assert_eq!(query(&rules, "a/b"), Some(1));
    assert_eq!(query(&rules, "a/b/c"), Some(0));
    assert_eq!(query(&rules, "a/b/c/d"), None);
}

#[test]
fn only_lone_wildcards_are_simplified() {
    let mut rules = sample();
    rules.simplify();
    assert_eq!(depth_of(rules.find_rule_path(&patterns(&["b", "c"]))), Some(3));
    let mut top = SnapshotRuleSet::new();
    top.add_rule(PathPattern::Wildcard, SnapshotRule::Single(1));
    top.simplify();
    assert_eq!(depth_of(top.find_rule(&PathPattern::Wildcard)), Some(1));
}

#[test]
fn rule_at_path_is_simplified() {
    let mut rules = SnapshotRuleSet::new();
    rules.add_rule_path(&patterns(&["a", "*"]), SnapshotRule::Single(1));
    rules.add_rule_path(&patterns(&["b", "*"]), SnapshotRule::Single(1));
    assert_eq!(rules.simplify_path(&patterns(&["a"])), Ok(()));
    assert_eq!(depth_of(rules.find_rule(&exact("a"))), Some(2));
    assert_eq!(depth_of(rules.find_rule_path(&patterns(&["b", "*"]))), Some(1));
    assert_eq!(rules.simplify_path(&patterns(&["x"])), Err(()));
    assert_eq!(rules.simplify_path(&patterns(&["a", "x"])), Err(()));
}

#[test]
fn deepest_rule_cannot_be_simplified() {
    let mut rules = SnapshotRuleSet::new();
    rules.add_rule_path(&patterns(&["a", "*"]), SnapshotRule::Single(u32::MAX));
    assert!(!rules.can_simplify());
    let mut fits = SnapshotRuleSet::new();
    fits.add_rule_path(&patterns(&["a", "*"]), SnapshotRule::Single(u32::MAX - 1));
    assert!(fits.can_simplify());
    fits.simplify();
    assert_eq!(depth_of(fits.find_rule(&exact("a"))), Some(u32::MAX));
}

#[test]
fn clone_holds_the_same_rules() {
    let rules = sample();
    let mut copy = rules.clone();
    copy.remove_rule(&exact("a")).unwrap();
    assert_eq!(depth_of(rules.find_rule(&exact("a"))), Some(1));
    assert_eq!(depth_of(copy.find_rule_path(&patterns(&["b", "c"]))), Some(3));
}

#[test]
fn restored_rules_keep_their_order() {
    let rules = SnapshotRuleSet::restore(vec![
        (exact("a"), SnapshotRule::Single(1)),
        (PathPattern::Wildcard, SnapshotRule::Single(5)),
    ]);
    assert_eq!(count(&rules), 2);
    assert_eq!(query(&rules, "a"), Some(1));
    assert_eq!(query(&rules, "b"), Some(5));
}

#[test]
fn simplified_path_keeps_other_paths() {
    let mut rules = SnapshotRuleSet::new();
    rules.add_rule_path(&patterns(&["a", "b", "*"]), SnapshotRule::Single(1));
    rules.add_rule_path(&patterns(&["a", "c", "*"]), SnapshotRule::Single(1));
    assert_eq!(rules.simplify_path(&patterns(&["a", "b"])), Ok(()));
    assert_eq!(depth_of(rules.find_rule_path(&patterns(&["a", "b"]))), Some(2));
    assert_eq!(depth_of(rules.find_rule_path(&patterns(&["a", "c", "*"]))), Some(1));
}

#[test]
fn depth_where_paths_part_becomes_the_wildcard() {
    let mut rules = SnapshotRuleSet::new();
    rules.add_rule(exact("a"), SnapshotRule::Single(2));
    rules.add_rule_path(&patterns(&["a", "b"]), SnapshotRule::Single(7));
    assert_eq!(depth_of(rules.find_rule_path(&patterns(&["a", "*"]))), Some(2));
    assert!(rules.find_rule_path(&patterns(&["a", "c"])).is_none());
}

#[test]
fn merging_twice_is_merging_once() {
    let mut other = SnapshotRuleSet::new();
    other.add_rule_path(&patterns(&["a", "b"]), SnapshotRule::Single(1));
    other.add_rule_path(&patterns(&["n"]), SnapshotRule::Single(2));
    let mut rules = sample();
    rules.update(other.clone());
    let once = rules.clone();
    rules.update(other.clone());
    for path in [vec!["a", "b"], vec!["a", "*"], vec!["b", "c"], vec!["n"]] {
        let path = patterns(&path);
        assert_eq!(depth_of(rules.find_rule_path(&path)), depth_of(once.find_rule_path(&path)));
    }
    assert_eq!(count(&rules), count(&once));
    let mut empty = SnapshotRuleSet::new();
    empty.update(other.clone());
    assert_eq!(count(&empty), 2);
    assert_eq!(depth_of(empty.find_rule_path(&patterns(&["a", "b"]))), Some(1));
}
