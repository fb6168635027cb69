use tree::args::{rule, Args};
use tree::ignore_config::IgnoreConfig;
use tree::rule::{
    DirectoriesOnlyRule, HideHiddenRule, OverrideRule, PathRule, PriorityRule, Rule,
};

fn bytes(s: &str) -> Vec<u8> {
    s.as_bytes().to_vec()
}

#[test]
fn test_override_ignore() {
    let content = "\n        myfile\n        !myfile\n        ";
    let rule = IgnoreConfig::new(bytes(content), Vec::new()).rule();
    assert!(!rule.is_ignored(&bytes("myfile"), false));
}

#[test]
fn test_ignore_file() {
    let rule = IgnoreConfig::new(bytes("myfile"), Vec::new()).rule();
    assert!(rule.is_ignored(&bytes("myfile"), false));
    assert!(!rule.is_ignored(&bytes("notmyfile"), false));
}

#[test]
fn test_ignore_comments() {
    let content = "\n# commented\n\n\n#commented\nignored\n  # commented\n";
    let rule = IgnoreConfig::new(bytes(content), Vec::new()).rule();
    assert!(rule.is_ignored(&bytes("ignored"), false));
    assert!(!rule.is_ignored(&bytes("commented"), false));
    assert!(!rule.is_ignored(&bytes("#commented"), false));
}

#[test]
fn test_empty() {
    let rule = IgnoreConfig::new(Vec::new(), Vec::new()).rule();
    assert!(!rule.is_ignored(&bytes("myfile"), false));
}

#[test]
fn ignore_path() {
    let rule = PathRule::new(bytes("a/b/c"));
    assert!(rule.is_ignored(&bytes("a/b/c"), false));
}

#[test]
fn path_rule_other_paths() {
    let rule = PathRule::new(bytes("a/b/c"));
    assert!(!rule.is_ignored(&bytes("a/b"), false));
    assert!(!rule.is_ignored(&bytes("a/b/c/d"), false));
    assert!(!rule.is_override(&bytes("a/b/c"), false));
}

#[test]
fn hidden_rule() {
    let rule = HideHiddenRule::new();
    assert!(rule.is_ignored(&bytes(".git"), true));
    assert!(rule.is_ignored(&bytes("a/.hidden"), false));
    assert!(!rule.is_ignored(&bytes("a/visible"), false));
    assert!(!rule.is_ignored(&bytes("a.dotted/visible"), false));
}

#[test]
fn directories_only_rule() {
    let rule = DirectoriesOnlyRule::new();
    assert!(rule.is_ignored(&bytes("somefile"), false));
    assert!(!rule.is_ignored(&bytes("somedir"), true));
}

#[test]
fn override_rule_swaps_verdict() {
    let o = OverrideRule::new(Rule::Path(PathRule::new(bytes("x"))));
    assert!(o.is_override(&bytes("x"), false));
    assert!(!o.is_override(&bytes("y"), false));
    assert!(!o.is_ignored(&bytes("x"), false));
}

#[test]
fn priority_second_rule_decides() {
    let rules = vec![
        Rule::Path(PathRule::new(bytes("a"))),
        Rule::Path(PathRule::new(bytes("b"))),
    ];
    let p = PriorityRule::new(rules);
    assert!(p.is_ignored(&bytes("b"), false));
    assert!(!p.is_ignored(&bytes("c"), false));
}

#[test]
fn priority_override_beats_later_ignore() {
    let rules = vec![
        Rule::Override(OverrideRule::new(Rule::Path(PathRule::new(bytes("b"))))),
        Rule::Path(PathRule::new(bytes("b"))),
    ];
    let p = PriorityRule::new(rules);
    assert!(!p.is_ignored(&bytes("b"), false));
}

#[test]
fn absolute_pattern_resolved_against_root() {
    let rule = IgnoreConfig::new(bytes("/sub/file"), bytes("root")).rule();
    assert!(rule.is_ignored(&bytes("root/sub/file"), false));
    assert!(!rule.is_ignored(&bytes("sub/file"), false));
}

#[test]
fn negation_alone_ignores_nothing() {
    let rule = IgnoreConfig::new(bytes("!x"), Vec::new()).rule();
    assert!(!rule.is_ignored(&bytes("x"), false));
    assert!(!rule.is_ignored(&bytes("!x"), false));
}

#[test]
fn later_pattern_reignores_after_negation() {
    let rule = IgnoreConfig::new(bytes("myfile\n!myfile\nmyfile"), Vec::new()).rule();
    assert!(rule.is_ignored(&bytes("myfile"), false));
}

#[test]
fn composed_rule_hides_hidden_by_default() {
    let args = Args {
        dir: bytes("."),
        show_hidden: false,
        directories_only: false,
        treeignore: false,
        gitignore: false,
    };
    let r = rule(&args, &None, &Vec::new());
    assert!(r.is_ignored(&bytes("./.secret"), false));
    assert!(!r.is_ignored(&bytes("./plain"), false));
}

#[test]
fn composed_rule_show_hidden_and_dirs_only() {
    let args = Args {
        dir: bytes("."),
        show_hidden: true,
        directories_only: true,
        treeignore: false,
        gitignore: false,
    };
    let r = rule(&args, &None, &Vec::new());
    assert!(!r.is_ignored(&bytes("./.secret"), true));
    assert!(r.is_ignored(&bytes("./afile"), false));
}

#[test]
fn composed_rule_uses_gitignore() {
    let args = Args {
        dir: bytes("."),
        show_hidden: true,
        directories_only: false,
        treeignore: false,
        gitignore: true,
    };
    let gitignores = vec![IgnoreConfig::new(bytes("./target"), Vec::new())];
    let r = rule(&args, &None, &gitignores);
    assert!(r.is_ignored(&bytes("./target"), true));
    assert!(!r.is_ignored(&bytes("./src"), true));
}

#[test]
fn composed_rule_uses_treeignore() {
    let args = Args {
        dir: bytes("."),
        show_hidden: true,
        directories_only: false,
        treeignore: true,
        gitignore: false,
    };
    let t = Some(IgnoreConfig::new(bytes("./skipme"), Vec::new()));
    let r = rule(&args, &t, &Vec::new());
    assert!(r.is_ignored(&bytes("./skipme"), false));
    assert!(!r.is_ignored(&bytes("./keepme"), false));
}
