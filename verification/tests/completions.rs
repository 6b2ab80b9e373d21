use bm_complete::completions::{classify_context, complete, CompletionContext, MockPathProvider};
use bm_complete::config::TestConfig;
use bm_complete::source::{CompletionSource, MockSource};
use bm_complete::completions::{gather_entries, index_sources};
use bm_complete::store::{CompletionEntry, MemStore, Store};

fn no_paths() -> MockPathProvider {
    MockPathProvider {
        entries: Vec::new(),
        home: None,
    }
}

fn entry(command: &str, completion: &str, description: &str, source: &str) -> CompletionEntry {
    CompletionEntry {
        command: command.into(),
        completion: completion.into(),
        description: description.into(),
        source: source.into(),
    }
}

// ── classify_context tests ─────────────────────────────────────

#[test]
fn classify_cd_is_directory_nav() {
    assert_eq!(classify_context("cd", "/ni"), CompletionContext::DirectoryNav);
}

#[test]
fn classify_pushd_is_directory_nav() {
    assert_eq!(classify_context("pushd", ""), CompletionContext::DirectoryNav);
}

#[test]
fn classify_z_is_directory_nav() {
    assert_eq!(classify_context("z", "foo"), CompletionContext::DirectoryNav);
}

#[test]
fn classify_path_prefix() {
    assert_eq!(classify_context("ls", "/etc"), CompletionContext::PathCompletion);
    assert_eq!(classify_context("cat", "~/"), CompletionContext::PathCompletion);
    assert_eq!(classify_context("vim", "./src"), CompletionContext::PathCompletion);
    assert_eq!(classify_context("rm", "../foo"), CompletionContext::PathCompletion);
}

#[test]
fn classify_flag_prefix() {
    assert_eq!(classify_context("git", "--ver"), CompletionContext::FlagCompletion);
    assert_eq!(classify_context("ls", "-l"), CompletionContext::FlagCompletion);
}

#[test]
fn classify_command_arg() {
    assert_eq!(classify_context("git", "commit"), CompletionContext::CommandArg);
    assert_eq!(classify_context("kubectl", "get"), CompletionContext::CommandArg);
}

#[test]
fn classify_dir_nav_beats_path_shape() {
    assert_eq!(classify_context("autojump", "/tmp"), CompletionContext::DirectoryNav);
    assert_eq!(classify_context("cdx", "/tmp"), CompletionContext::PathCompletion);
    assert_eq!(classify_context("ls", ".hidden"), CompletionContext::CommandArg);
    assert_eq!(classify_context("ls", "../"), CompletionContext::PathCompletion);
    assert_eq!(classify_context("ls", ".."), CompletionContext::CommandArg);
}

// ── complete() tests ───────────────────────────────────────────

#[test]
fn complete_empty_buffer_returns_nothing() {
    let store = MemStore::new();
    let cfg = TestConfig::default();
    let results = complete("", 0, &store, &cfg, &no_paths()).unwrap();
    assert!(results.is_empty());
}

#[test]
fn complete_whitespace_buffer_returns_nothing() {
    let store = MemStore::new();
    let cfg = TestConfig::default();
    let results = complete(" \t  ", 4, &store, &cfg, &no_paths()).unwrap();
    assert!(results.is_empty());
}

#[test]
fn complete_queries_store() {
    let mut store = MemStore::new();
    store.insert(&entry("git", "commit", "Record changes", "fish")).unwrap();
    store.insert(&entry("git", "config", "Get/set options", "fish")).unwrap();

    let cfg = TestConfig {
        index_path: false,
        ..TestConfig::default()
    };
    let results = complete("git co", 6, &store, &cfg, &no_paths()).unwrap();
    assert_eq!(results.len(), 2);
    assert!(results.iter().any(|r| r.completion == "commit"));
    assert!(results.iter().any(|r| r.completion == "config"));
}

#[test]
fn complete_flag_prefix() {
    let mut store = MemStore::new();
    store.insert(&entry("git", "--verbose", "Be verbose", "fish")).unwrap();

    let cfg = TestConfig {
        index_path: false,
        ..TestConfig::default()
    };
    let results = complete("git --ver", 9, &store, &cfg, &no_paths()).unwrap();
    assert_eq!(results.len(), 1);
    assert_eq!(results[0].completion, "--verbose");
}

#[test]
fn complete_respects_max_results() {
    let mut store = MemStore::new();
    for i in 0..20 {
        store
            .insert(&entry("test", &format!("opt-{i:02}"), "", "mock"))
            .unwrap();
    }

    let cfg = TestConfig {
        max_results: 5,
        index_path: false,
        ..TestConfig::default()
    };
    let results = complete("test o", 6, &store, &cfg, &no_paths()).unwrap();
    assert!(results.len() <= 5);
}

#[test]
fn complete_no_path_when_disabled() {
    let store = MemStore::new();
    let cfg = TestConfig {
        index_path: false,
        ..TestConfig::default()
    };
    // cd normally triggers directory nav, but with index_path=false it should
    // fall through and return nothing (no stored completions either).
    let results = complete("cd /tm", 6, &store, &cfg, &no_paths()).unwrap();
    assert!(results.is_empty());
}

#[test]
fn complete_trailing_space_completes_empty_word() {
    let mut store = MemStore::new();
    store.insert(&entry("git", "push", "", "fish")).unwrap();
    store.insert(&entry("git", "commit", "", "fish")).unwrap();
    let cfg = TestConfig {
        index_path: false,
        ..TestConfig::default()
    };
    let results = complete("git ", 4, &store, &cfg, &no_paths()).unwrap();
    let names: Vec<&str> = results.iter().map(|r| r.completion.as_str()).collect();
    assert_eq!(names, vec!["commit", "push"]);
}

#[test]
fn complete_cd_lists_only_directories() {
    let store = MemStore::new();
    let cfg = TestConfig::default();
    let paths = MockPathProvider {
        entries: vec![(
            "/work/".to_string(),
            vec![
                bm_complete::completions::DirEntry { name: "src".into(), is_dir: true },
                bm_complete::completions::DirEntry { name: "sum.txt".into(), is_dir: false },
            ],
        )],
        home: None,
    };
    let results = complete("cd /work/s", 10, &store, &cfg, &paths).unwrap();
    assert_eq!(results.len(), 1);
    assert_eq!(results[0].completion, "/work/src/");
}

#[test]
fn complete_falls_back_to_paths_when_store_is_empty() {
    let store = MemStore::new();
    let cfg = TestConfig::default();
    let paths = MockPathProvider {
        entries: vec![(
            ".".to_string(),
            vec![bm_complete::completions::DirEntry { name: "readme.md".into(), is_dir: false }],
        )],
        home: None,
    };
    let results = complete("cat re", 6, &store, &cfg, &paths).unwrap();
    assert_eq!(results.len(), 1);
    assert_eq!(results[0].completion, "readme.md");
    assert_eq!(results[0].source, "path");
}

// ── index_sources tests ───────────────────────────────────────

#[test]
fn index_sources_inserts_entries() {
    let mut store = MemStore::new();
    let source = MockSource {
        name: "mock".into(),
        data: vec![
            entry("git", "commit", "Record changes", "mock"),
            entry("git", "push", "Update remote", "mock"),
        ],
    };
    index_sources(&mut store, &[&source]).unwrap();
    assert_eq!(store.count().unwrap(), 2);
}

#[test]
fn index_sources_multiple_sources() {
    let mut store = MemStore::new();
    let s1 = MockSource {
        name: "fish".into(),
        data: vec![entry("git", "commit", "", "fish")],
    };
    let s2 = MockSource {
        name: "man".into(),
        data: vec![entry("ls", "-l", "Long listing", "man")],
    };
    index_sources(&mut store, &[&s1, &s2]).unwrap();
    assert_eq!(store.count().unwrap(), 2);
}

#[test]
fn index_sources_empty_sources() {
    let mut store = MemStore::new();
    let empty: Vec<&MockSource> = Vec::new();
    index_sources(&mut store, &empty).unwrap();
    assert_eq!(store.count().unwrap(), 0);
}

#[test]
fn index_sources_reports_count() {
    let mut store = MemStore::new();
    let source = MockSource {
        name: "mock".into(),
        data: vec![entry("git", "commit", "a", "mock"), entry("git", "commit", "b", "mock")],
    };
    assert_eq!(source.name(), "mock");
    let n = index_sources(&mut store, &[&source]).unwrap();
    assert_eq!(n, 1);
}

#[test]
fn gather_entries_keeps_source_order() {
    let e = |cmd: &str, comp: &str| CompletionEntry {
        command: cmd.into(),
        completion: comp.into(),
        description: String::new(),
        source: "mock".into(),
    };
    let s1 = MockSource { name: "a".into(), data: vec![e("git", "commit"), e("git", "push")] };
    let s2 = MockSource { name: "b".into(), data: vec![e("cargo", "build")] };
    let all = gather_entries(&[&s1, &s2]).unwrap();
    let comps: Vec<&str> = all.iter().map(|x| x.completion.as_str()).collect();
    assert_eq!(comps, vec!["commit", "push", "build"]);
    let none: Vec<&MockSource> = Vec::new();
    assert!(gather_entries(&none).unwrap().is_empty());
}

#[test]
fn complete_ignores_text_after_cursor() {
    let mut store = MemStore::new();
    store.insert(&entry("git", "commit", "Record changes", "fish")).unwrap();
    store.insert(&entry("git", "config", "Get/set options", "fish")).unwrap();
    let cfg = TestConfig {
        index_path: false,
        ..TestConfig::default()
    };
    let full = complete("git co --amend", 6, &store, &cfg, &no_paths()).unwrap();
    let cut = complete("git co", 6, &store, &cfg, &no_paths()).unwrap();
    assert_eq!(full, cut);
    assert_eq!(full.len(), 2);
    // At position 3 only the command is typed: the store is asked for "git" with no word.
    let at_command = complete("git co", 3, &store, &cfg, &no_paths()).unwrap();
    assert_eq!(at_command.len(), 2);
    // A position past the end completes the whole buffer.
    let past_end = complete("git co", 99, &store, &cfg, &no_paths()).unwrap();
    assert_eq!(past_end, cut);
}

#[test]
fn complete_cursor_counts_bytes() {
    let mut store = MemStore::new();
    store.insert(&entry("é", "ab", "", "fish")).unwrap();
    let cfg = TestConfig {
        index_path: false,
        ..TestConfig::default()
    };
    // "é" takes two bytes: at byte 4 the cursor is after "é a".
    let r = complete("é ab", 4, &store, &cfg, &no_paths()).unwrap();
    assert_eq!(r.len(), 1);
    // Inside "é" nothing lies before the cursor.
    let r = complete("é ab", 1, &store, &cfg, &no_paths()).unwrap();
    assert!(r.is_empty());
}
