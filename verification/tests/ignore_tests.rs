use ignore::gitignore::{Gitignore, GitignoreBuilder};
use timelapse::ignore_rules::{layered_decision, IgnoreConfig, IgnoreRules, Verdict};

fn patterns(lines: &[&str]) -> Gitignore {
    let mut builder = GitignoreBuilder::new("/repo");
    for line in lines {
        builder.add_line(None, line).unwrap();
    }
    builder.build().unwrap()
}

#[test]
fn test_builtin_patterns_always_enforced() {
    let config = IgnoreConfig::default();
    let rules = IgnoreRules::load("/repo", config, None, None);

    assert!(rules.should_ignore(".tl/journal/db", false));
    assert!(rules.should_ignore("foo/.tl/store", false));
    assert!(rules.should_ignore(".git/objects/ab/cd", false));
    assert!(rules.should_ignore("src/.git/config", false));
    assert!(rules.should_ignore(".jj/op_store/data", false));

    assert!(!rules.should_ignore("src/main.rs", false));
    assert!(!rules.should_ignore("README.md", false));
}

#[test]
fn builtins_hold_against_a_whitelist() {
    let config = IgnoreConfig { use_gitignore: true, use_tlignore: true, additional_patterns: vec![] };
    let allow = patterns(&["!.tl/", "!*.swp", "!.git/**"]);
    let rules = IgnoreRules::load("/repo", config, Some(allow.clone()), Some(allow));
    assert!(rules.should_ignore(".tl/journal/db", false));
    assert!(rules.should_ignore(".git/HEAD", false));
    assert!(rules.should_ignore(".jj", true));
    assert!(rules.should_ignore("a/file.swp", false));
}

#[test]
fn editor_and_tool_patterns() {
    let rules = IgnoreRules::load("/repo", IgnoreConfig::default(), None, None);
    for path in [
        "a/.main.rs.swp", "x.swo", "x.swn", "x.swm", "notes.txt~", "#scratch#", ".#lock",
        ".DS_Store", "dir/._resource", "Thumbs.db", "desktop.ini", "proj.code-workspace",
        "mod.iml", "m.pyc", "a/.vscode/settings.json", "a/.idea/x", "a/node_modules/p/i.js",
        "a/__pycache__/m", "a/.venv/bin/python", "a/venv/bin/python", "a/target/debug/app",
    ] {
        assert!(rules.should_ignore(path, false), "{}", path);
    }
    for path in ["src/main.rs", "swp", "a#b", "Thumbs.dbx", "targets/x", "node_modules.txt", "a/#x"] {
        assert!(!rules.should_ignore(path, false), "{}", path);
    }
}

#[test]
fn test_gitignore_parsing() {
    let config = IgnoreConfig { use_gitignore: true, use_tlignore: false, additional_patterns: vec![] };
    let git = patterns(&["*.log", "target/", "node_modules/", "*.tmp"]);
    let rules = IgnoreRules::load("/repo", config, Some(git), None);

    assert!(rules.should_ignore("test.log", false));
    assert!(rules.should_ignore("target", true));
    assert!(rules.should_ignore("node_modules", true));
    assert!(rules.should_ignore("file.tmp", false));
    // a pattern with a trailing slash names directories only
    let dirs_only = IgnoreRules::load(
        "/repo",
        IgnoreConfig { use_gitignore: true, use_tlignore: false, additional_patterns: vec![] },
        Some(patterns(&["build_out/"])),
        None,
    );
    assert!(dirs_only.should_ignore("build_out", true));
    assert!(!dirs_only.should_ignore("build_out", false));

    assert!(!rules.should_ignore("src/main.rs", false));
    assert!(!rules.should_ignore("README.md", false));
}

#[test]
fn test_tlignore_overrides_gitignore() {
    let config = IgnoreConfig { use_gitignore: true, use_tlignore: true, additional_patterns: vec![] };
    let git = patterns(&["*.log"]);
    let tl = patterns(&["!important.log"]);
    let rules = IgnoreRules::load("/repo", config, Some(git), Some(tl));

    assert!(rules.should_ignore("debug.log", false));
    assert!(!rules.should_ignore("important.log", false));
}

#[test]
fn test_additional_patterns() {
    let config = IgnoreConfig {
        use_gitignore: false,
        use_tlignore: false,
        additional_patterns: vec!["*.swp".to_string(), "build/".to_string()],
    };
    let rules = IgnoreRules::load("/repo", config, None, None);

    assert!(rules.should_ignore("file.swp", false));
    assert!(rules.should_ignore("build/", true));
    assert!(rules.should_ignore("build/output.txt", false));

    assert!(!rules.should_ignore("src/main.rs", false));
}

#[test]
fn glob_patterns() {
    assert!(IgnoreRules::matches_glob_pattern(b"logs/app.log", b"logs/*.log"));
    assert!(!IgnoreRules::matches_glob_pattern(b"log/app.log", b"logs/*.log"));
    assert!(IgnoreRules::matches_glob_pattern(b"anything", b"*"));
    assert!(!IgnoreRules::matches_glob_pattern(b"a/b/c", b"a*b*c"));
    assert!(IgnoreRules::matches_glob_pattern(b"x/secret/y", b"secret"));
    assert!(!IgnoreRules::matches_glob_pattern(b"x/secre/y", b"secret"));
    assert!(IgnoreRules::matches_glob_pattern(b"abc", b""));
}

#[test]
fn test_gitignore_disabled() {
    let config = IgnoreConfig { use_gitignore: false, use_tlignore: false, additional_patterns: vec![] };
    let rules = IgnoreRules::load("/repo", config, Some(patterns(&["*.log"])), Some(patterns(&["*.log"])));

    assert!(!rules.should_ignore("test.log", false));
    assert!(rules.should_ignore(".tl/store", false));
    assert_eq!(rules.active_sources(), 1);
}

#[test]
fn test_active_sources_count() {
    let config = IgnoreConfig::default();
    let rules = IgnoreRules::load("/repo", config, None, None);
    assert_eq!(rules.active_sources(), 1);

    let config = IgnoreConfig {
        use_gitignore: false,
        use_tlignore: false,
        additional_patterns: vec!["*.tmp".to_string()],
    };
    let rules = IgnoreRules::load("/repo", config, None, None);
    assert_eq!(rules.active_sources(), 2);

    let rules = IgnoreRules::load(
        "/repo",
        IgnoreConfig { use_gitignore: true, use_tlignore: true, additional_patterns: vec!["x".to_string()] },
        Some(patterns(&["a"])),
        Some(patterns(&["b"])),
    );
    assert_eq!(rules.active_sources(), 4);
    assert_eq!(rules.repo_root(), "/repo");
}

#[test]
fn test_reload_ignore_files() {
    let config = IgnoreConfig { use_gitignore: true, use_tlignore: false, additional_patterns: vec![] };
    let mut rules = IgnoreRules::load("/repo", config, None, None);

    assert!(!rules.should_ignore("test.log", false));

    rules.reload_ignore_files(Some(patterns(&["*.log"])), None);

    assert!(rules.should_ignore("test.log", false));
}

#[test]
fn update_config_switches_sources() {
    let mut rules = IgnoreRules::load("/repo", IgnoreConfig::default(), Some(patterns(&["*.log"])), None);
    assert!(rules.should_ignore("a.log", false));
    rules.update_config(
        IgnoreConfig { use_gitignore: false, use_tlignore: true, additional_patterns: vec!["*.bak".to_string()] },
        Some(patterns(&["*.log"])),
        None,
    );
    assert!(!rules.should_ignore("a.log", false));
    assert!(rules.should_ignore("a.bak", false));
    assert!(rules.should_ignore(".git/x", false));
}

#[test]
fn layers_in_order_of_precedence() {
    assert!(layered_decision(true, Verdict::Whitelist, Verdict::Whitelist, false));
    assert!(layered_decision(false, Verdict::Ignore, Verdict::Whitelist, false));
    assert!(!layered_decision(false, Verdict::Whitelist, Verdict::Ignore, true));
    assert!(layered_decision(false, Verdict::Silent, Verdict::Ignore, false));
    assert!(!layered_decision(false, Verdict::Silent, Verdict::Whitelist, true));
    assert!(layered_decision(false, Verdict::Silent, Verdict::Silent, true));
    assert!(!layered_decision(false, Verdict::Silent, Verdict::Silent, false));
}

#[test]
fn tool_directories_are_ignored_at_any_depth() {
    let rules = IgnoreRules::load("/repo", IgnoreConfig::default(), None, None);
    for path in [
        "node_modules/pkg/index.js",
        "target/debug/app",
        "__pycache__/m.pyc",
        "__pycache__/m",
        ".venv/bin/python",
        "venv/bin/python",
        ".vscode/settings.json",
        ".idea/workspace.xml",
        "a/b/node_modules/x",
        "target/",
    ] {
        assert!(rules.should_ignore(path, false), "{}", path);
    }
    // the directory itself is ignored, a file of that name is not
    for path in ["a/target", "target", "node_modules", "venv", "src/.idea"] {
        assert!(rules.should_ignore(path, true), "{}", path);
        assert!(!rules.should_ignore(path, false), "{}", path);
    }
    for path in ["targeted/x", "my_target/x", "a/node_modules2/x", "venv.txt", "src/.ideas/x"] {
        assert!(!rules.should_ignore(path, false), "{}", path);
    }
    // no configuration and no whitelist switches them off
    let allow = patterns(&["!node_modules/", "!target/**"]);
    let config = IgnoreConfig { use_gitignore: true, use_tlignore: true, additional_patterns: vec![] };
    let rules = IgnoreRules::load("/repo", config, Some(allow.clone()), Some(allow));
    assert!(rules.should_ignore("node_modules/pkg/index.js", false));
    assert!(rules.should_ignore("target/debug/app", false));
}

#[test]
fn file_name_leaves_trailing_separators_aside() {
    let rules = IgnoreRules::load("/repo", IgnoreConfig::default(), None, None);
    assert!(rules.should_ignore("a/b~/", true));
    assert!(rules.should_ignore("a/x.swp//", false));
    assert!(!rules.should_ignore("a~/b", false));
    assert!(!rules.should_ignore("/", true));
}
