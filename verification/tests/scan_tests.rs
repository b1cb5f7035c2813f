use env_finder::matching::Matcher;
use env_finder::scan::{find_env_files, EnvFinder};
use env_finder::tree::FsTree;

fn file(name: &str) -> FsTree {
    FsTree::File { name: name.to_string() }
}

fn dir(name: &str, children: Vec<FsTree>) -> FsTree {
    FsTree::Dir { name: name.to_string(), children }
}

fn other(name: &str) -> FsTree {
    FsTree::Other { name: name.to_string() }
}

fn unreadable(name: &str) -> FsTree {
    FsTree::Unreadable { name: name.to_string() }
}

#[test]
fn scenario_a_default_excludes_and_prefix() {
    let tree = dir(
        "proj",
        vec![
            file(".env"),
            dir("node_modules", vec![file(".env")]),
            dir("src", vec![file("config.env")]),
        ],
    );
    let finder = EnvFinder::new();
    let found = finder.find_env_files("/proj", &tree);
    assert_eq!(found, vec!["/proj/.env".to_string()]);
}

#[test]
fn scenario_b_prefix_variants_in_traversal_order() {
    let tree = dir("proj", vec![file(".env"), file(".env.local"), file("readme.md")]);
    let finder = EnvFinder::new();
    let found = finder.find_env_files("/proj", &tree);
    assert_eq!(found, vec!["/proj/.env".to_string(), "/proj/.env.local".to_string()]);
}

#[test]
fn scenario_c_added_exclusion_with_pattern() {
    let tree = dir("app", vec![dir("vendor", vec![file("lib.go")]), file("main.go")]);
    let mut finder = EnvFinder::new();
    finder.add_exclude_dir("vendor".to_string());
    let found = finder.find_with_pattern("/app", &tree, ".go");
    assert_eq!(found, vec!["/app/main.go".to_string()]);
}

#[test]
fn scenario_d_empty_root_directory() {
    let tree = dir("empty", vec![]);
    let finder = EnvFinder::new();
    let outcome = finder.scan("/empty", &tree, &Matcher::EnvPrefix);
    assert!(outcome.matches.is_empty());
    assert!(outcome.errors.is_empty());
}

#[test]
fn scenario_e_missing_root_records_one_error() {
    let tree = unreadable("missing");
    let finder = EnvFinder::new();
    let outcome = finder.scan("/missing", &tree, &Matcher::EnvPrefix);
    assert!(outcome.matches.is_empty());
    assert_eq!(outcome.errors, vec!["/missing".to_string()]);
}

#[test]
fn root_that_is_a_file_is_not_scanned() {
    let tree = file(".env");
    let finder = EnvFinder::new();
    let outcome = finder.scan("/proj/.env", &tree, &Matcher::EnvPrefix);
    assert!(outcome.matches.is_empty());
    assert_eq!(outcome.errors, vec!["/proj/.env".to_string()]);
}

#[test]
fn prefix_matcher_is_byte_wise_and_case_sensitive() {
    let m = Matcher::EnvPrefix;
    assert!(m.matches(".env"));
    assert!(m.matches(".env.local"));
    assert!(m.matches(".envrc"));
    assert!(!m.matches("myenv"));
    assert!(!m.matches("env"));
    assert!(!m.matches(".ENV"));
}

#[test]
fn substring_matcher_finds_contiguous_runs() {
    let m = Matcher::Substring("con".to_string());
    assert!(m.matches("config.env"));
    assert!(m.matches("con"));
    assert!(!m.matches("co"));
    assert!(!m.matches("cofig"));
}

#[test]
fn empty_pattern_matches_every_file() {
    let tree = dir("r", vec![file("a"), dir("d", vec![file("b")]), other("dev")]);
    let finder = EnvFinder::new();
    let found = finder.find_with_pattern("/r", &tree, "");
    assert_eq!(found, vec!["/r/a".to_string(), "/r/d/b".to_string()]);
}

#[test]
fn error_tolerance_keeps_all_readable_matches() {
    let tree = dir(
        "proj",
        vec![unreadable("secret"), file(".env"), file(".env.prod")],
    );
    let finder = EnvFinder::new();
    let outcome = finder.scan("/proj", &tree, &Matcher::EnvPrefix);
    assert_eq!(
        outcome.matches,
        vec!["/proj/.env".to_string(), "/proj/.env.prod".to_string()]
    );
    assert_eq!(outcome.errors, vec!["/proj/secret".to_string()]);
}

#[test]
fn git_directory_is_excluded_by_default() {
    let tree = dir("proj", vec![dir(".git", vec![file(".env")]), file(".env")]);
    let finder = EnvFinder::new();
    let found = finder.find_env_files("/proj", &tree);
    assert_eq!(found, vec!["/proj/.env".to_string()]);
}

#[test]
fn exclusion_applies_to_directories_not_files() {
    let tree = dir("proj", vec![file("node_modules"), dir("node_modules2", vec![])]);
    let finder = EnvFinder::new();
    let found = finder.find_with_pattern("/proj", &tree, "node");
    assert_eq!(found, vec!["/proj/node_modules".to_string()]);
}

#[test]
fn duplicate_exclusions_are_tolerated() {
    let tree = dir("app", vec![dir("vendor", vec![file("lib.go")]), file("main.go")]);
    let mut finder = EnvFinder::new();
    finder.add_exclude_dir("vendor".to_string());
    finder.add_exclude_dir("vendor".to_string());
    let found = finder.find_with_pattern("/app", &tree, ".go");
    assert_eq!(found, vec!["/app/main.go".to_string()]);
}

#[test]
fn repeated_scans_of_one_snapshot_agree() {
    let tree = dir(
        "proj",
        vec![file(".env"), dir("sub", vec![file(".env.dev"), unreadable("x")])],
    );
    let finder = EnvFinder::new();
    let first = finder.scan("/proj", &tree, &Matcher::EnvPrefix);
    let second = finder.scan("/proj", &tree, &Matcher::EnvPrefix);
    assert_eq!(first.matches, second.matches);
    assert_eq!(first.errors, second.errors);
}

#[test]
fn traversal_is_depth_first_in_child_order() {
    let tree = dir(
        "r",
        vec![
            dir("a", vec![file(".env.a"), dir("deep", vec![file(".env.deep")])]),
            file(".env.top"),
            dir("b", vec![file(".env.b")]),
        ],
    );
    let finder = EnvFinder::new();
    let found = finder.find_env_files("/r", &tree);
    assert_eq!(
        found,
        vec![
            "/r/a/.env.a".to_string(),
            "/r/a/deep/.env.deep".to_string(),
            "/r/.env.top".to_string(),
            "/r/b/.env.b".to_string(),
        ]
    );
}

#[test]
fn directories_and_other_nodes_never_match() {
    let tree = dir("r", vec![dir(".env.dir", vec![]), other(".env.sock")]);
    let finder = EnvFinder::new();
    let found = finder.find_env_files("/r", &tree);
    assert!(found.is_empty());
}

#[test]
fn free_function_uses_default_configuration() {
    let tree = dir(
        "proj",
        vec![file(".env"), dir("node_modules", vec![file(".env")])],
    );
    let found = find_env_files("/proj", &tree);
    assert_eq!(found, vec!["/proj/.env".to_string()]);
}
