use bm_complete::config::{cache_dir_from, default_max_results, default_true, path_join, CompletionConfig, Config, TestConfig};

#[test]
fn default_config_values() {
    let cfg = TestConfig::default();
    assert_eq!(cfg.max_results(), 50);
    assert!(cfg.index_path());
    assert!(cfg.fish_completion_dirs().is_empty());
    assert_eq!(cfg.cache_dir(), "/tmp/bm-complete-test");
}

#[test]
fn test_config_overrides() {
    let cfg = TestConfig {
        max_results: 10,
        index_path: false,
        fish_completion_dirs: vec!["/custom/dir".into()],
        cache_dir: "/custom/cache".into(),
    };
    assert_eq!(cfg.max_results(), 10);
    assert!(!cfg.index_path());
    assert_eq!(cfg.fish_completion_dirs(), &["/custom/dir".to_string()]);
    assert_eq!(cfg.cache_dir(), "/custom/cache");
}

#[test]
fn config_default_values() {
    let cfg = Config::default();
    assert_eq!(cfg.max_results, 50);
    assert!(cfg.index_path);
    assert!(cfg.index_man_pages);
    assert!(cfg.index_help_flags);
    assert_eq!(cfg.fish_completion_dirs.len(), 2);
    assert!(cfg.fish_completion_dirs.contains(&"/usr/share/fish/completions".to_string()));
    assert!(cfg
        .fish_completion_dirs
        .contains(&"/usr/local/share/fish/completions".to_string()));
}

#[test]
fn config_trait_delegates_correctly() {
    let cfg = Config::default();
    assert_eq!(cfg.max_results(), cfg.max_results);
    assert_eq!(cfg.index_path(), cfg.index_path);
    assert_eq!(cfg.fish_completion_dirs(), cfg.fish_completion_dirs.as_slice());
    assert_eq!(cfg.cache_dir(), cfg.cache_dir.as_str());
}

#[test]
fn default_cache_dir_ends_with_app_name() {
    let cfg = Config::default();
    assert!(cfg.cache_dir.ends_with("bm-complete"));
}

#[test]
fn serde_defaults() {
    assert_eq!(default_max_results(), 50);
    assert!(default_true());
}

#[test]
fn path_join_inserts_separator_once() {
    assert_eq!(path_join("/home/u/.cache", "bm-complete"), "/home/u/.cache/bm-complete");
    assert_eq!(path_join("/home/u/.cache/", "bm-complete"), "/home/u/.cache/bm-complete");
    assert_eq!(path_join("", "bm-complete"), "bm-complete");
}

#[test]
fn cache_dir_from_user_dir() {
    assert_eq!(cache_dir_from(Some("/home/u/.cache")), "/home/u/.cache/bm-complete");
    assert_eq!(cache_dir_from(Some("/home/u/.cache/")), "/home/u/.cache/bm-complete");
    assert_eq!(cache_dir_from(None), "$HOME/.cache/bm-complete");
}
