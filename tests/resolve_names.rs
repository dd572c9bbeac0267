use std::collections::HashMap;

use crane::brick::Brick;
use crane::cli::Add;
use crane::config::{config_dir, map_aliases, Alias, CraneConfig};
use crane::resolve::{classify, find_brick, fuzzy_candidates, fuzzy_pick, resolve_query, retain_rising, FuzzyOutcome};

fn strings(v: &[&str]) -> Vec<String> {
    v.iter().map(|s| s.to_string()).collect()
}

#[test]
fn test_alias_map() {
    let aliases = vec![
        Alias::new(
            String::from("hello"),
            vec![String::from("brick_a"), String::from("brick_b")],
        ),
        Alias::new(
            String::from("world"),
            vec![String::from("brick_c"), String::from("brick_b")],
        ),
    ];
    let mut brick_map: HashMap<String, Vec<String>> = HashMap::new();
    brick_map.insert(String::from("brick_a"), vec![String::from("hello")]);
    brick_map.insert(
        String::from("brick_b"),
        vec![String::from("hello"), String::from("world")],
    );
    brick_map.insert(String::from("brick_c"), vec![String::from("world")]);
    let mapped: HashMap<String, Vec<String>> = map_aliases(&aliases).into_iter().collect();
    assert_eq!(mapped, brick_map);
}

#[test]
fn alias_map_keeps_first_mention_order() {
    let aliases = vec![
        Alias::new(String::from("x"), strings(&["b2", "b1"])),
        Alias::new(String::from("y"), strings(&["b1", "b3"])),
    ];
    let m = map_aliases(&aliases);
    let keys: Vec<&str> = m.iter().map(|(k, _)| k.as_str()).collect();
    assert_eq!(keys, vec!["b2", "b1", "b3"]);
    assert_eq!(m[1].1, strings(&["x", "y"]));
}

#[test]
fn alias_name_expands_in_any_case() {
    let aliases = vec![Alias::new(String::from("rust"), strings(&["rustfmt", "serde"]))];
    assert_eq!(resolve_query("RuSt", &aliases), strings(&["rustfmt", "serde"]));
    assert_eq!(resolve_query("rust", &aliases), strings(&["rustfmt", "serde"]));
}

#[test]
fn unknown_query_is_a_brick_name() {
    let aliases = vec![Alias::new(String::from("rust"), strings(&["rustfmt"]))];
    assert_eq!(resolve_query("MIT", &aliases), strings(&["MIT"]));
}

#[test]
fn aliases_expand_one_level_only() {
    let aliases = vec![
        Alias::new(String::from("all"), strings(&["web"])),
        Alias::new(String::from("web"), strings(&["html", "css"])),
    ];
    assert_eq!(resolve_query("all", &aliases), strings(&["web"]));
}

#[test]
fn brick_lookup_ignores_case() {
    let bs = vec![
        Brick::new(String::from("MIT"), String::from("/b/MIT")),
        Brick::new(String::from("rustfmt"), String::from("/b/rustfmt")),
    ];
    assert_eq!(find_brick(&bs, "RustFmt"), Some(1));
    assert_eq!(find_brick(&bs, "mit"), Some(0));
    assert_eq!(find_brick(&bs, "gpl"), None);
}

#[test]
fn running_maximum_keeps_earlier_candidates() {
    let kept = retain_rising(&vec![Some(80), Some(95)]);
    assert_eq!(kept, vec![(0, 80), (1, 95)]);
    assert_eq!(classify(kept.clone()), FuzzyOutcome::Ambiguous(kept));
}

#[test]
fn running_maximum_drops_lower_later_scores() {
    assert_eq!(retain_rising(&vec![Some(95), None, Some(80), Some(95)]), vec![(0, 95), (3, 95)]);
    assert_eq!(retain_rising(&vec![None, None]), vec![]);
}

#[test]
fn classify_counts_candidates() {
    assert_eq!(classify(vec![]), FuzzyOutcome::NoMatch);
    assert_eq!(classify(vec![(4, 10)]), FuzzyOutcome::Single(4));
}

#[test]
fn fuzzy_search_scores_subsequences() {
    let names = strings(&["rustfmt", "license"]);
    let kept = fuzzy_candidates(&names, "rfmt");
    assert_eq!(kept.len(), 1);
    assert_eq!(kept[0].0, 0);
    assert!(kept[0].1 > 0);
    let bs = vec![Brick::new(String::from("license"), String::from("/b/l"))];
    assert_eq!(fuzzy_pick(&bs, "lic"), FuzzyOutcome::Single(0));
    assert_eq!(fuzzy_pick(&bs, "zzz"), FuzzyOutcome::NoMatch);
}

#[test]
fn add_plan_expands_and_looks_up() {
    let aliases = vec![Alias::new(String::from("rust"), strings(&["rustfmt", "serde"]))];
    let bs = vec![Brick::new(String::from("rustfmt"), String::from("/b/rustfmt"))];
    let add = Add { bricks: strings(&["RUST", "mit"]), brick_dirs: vec![], target_dir: None, dry_run: false };
    let plan = add.plan(&aliases, &bs);
    assert_eq!(
        plan,
        vec![
            (String::from("rustfmt"), Some(0)),
            (String::from("serde"), None),
            (String::from("mit"), None)
        ]
    );
}

#[test]
fn add_search_dirs_prefer_given() {
    let cfg = CraneConfig::new(strings(&["bricks", "/abs"]), vec![], "/home/u/.crane");
    assert_eq!(cfg.brick_dirs().to_vec(), strings(&["/home/u/.crane/bricks", "/abs"]));
    let given = Add { bricks: vec![], brick_dirs: strings(&["here"]), target_dir: None, dry_run: false };
    assert_eq!(given.search_dirs(&cfg), strings(&["here"]));
    let none = Add { bricks: vec![], brick_dirs: vec![], target_dir: None, dry_run: true };
    assert_eq!(none.search_dirs(&cfg), strings(&["/home/u/.crane/bricks", "/abs"]));
}

#[test]
fn config_defaults() {
    let cfg = CraneConfig::new(vec![], vec![], "/cfg");
    assert_eq!(cfg.brick_dirs().to_vec(), strings(&["/cfg/./bricks"]));
    assert_eq!(config_dir(None), "~/.config/crane");
    assert_eq!(config_dir(Some(String::from("~/.crane"))), "~/.crane");
}

#[test]
fn config_test_config_dir_from_env() {
    assert_eq!(config_dir(Some(String::from("~/.crane"))), String::from("~/.crane"));
}
