use bm_complete::store::{CompletionEntry, MemStore, Store};

fn entry(command: &str, completion: &str, description: &str, source: &str) -> CompletionEntry {
    CompletionEntry {
        command: command.into(),
        completion: completion.into(),
        description: description.into(),
        source: source.into(),
    }
}

#[test]
fn mem_store_empty() {
    let store = MemStore::new();
    assert_eq!(store.count().unwrap(), 0);
    let results = store.query("git", "", 10).unwrap();
    assert!(results.is_empty());
}

#[test]
fn mem_store_insert_query() {
    let mut store = MemStore::new();
    store.insert(&entry("git", "commit", "Record changes", "fish")).unwrap();
    assert_eq!(store.count().unwrap(), 1);
    let results = store.query("git", "co", 10).unwrap();
    assert_eq!(results.len(), 1);
    assert_eq!(results[0].completion, "commit");
}

#[test]
fn mem_store_prefix_filter() {
    let mut store = MemStore::new();
    for name in ["commit", "cherry-pick", "clone", "checkout"] {
        store.insert(&entry("git", name, "", "fish")).unwrap();
    }
    let results = store.query("git", "ch", 10).unwrap();
    assert_eq!(results.len(), 2);
    assert!(results.iter().all(|r| r.completion.starts_with("ch")));
}

#[test]
fn mem_store_limit() {
    let mut store = MemStore::new();
    for i in 0..20 {
        store.insert(&entry("test", &format!("opt-{i}"), "", "mock")).unwrap();
    }
    let results = store.query("test", "", 5).unwrap();
    assert_eq!(results.len(), 5);
}

#[test]
fn mem_store_no_match() {
    let mut store = MemStore::new();
    store.insert(&entry("git", "commit", "", "fish")).unwrap();
    // Wrong command
    let results = store.query("cargo", "co", 10).unwrap();
    assert!(results.is_empty());
    // Wrong prefix
    let results = store.query("git", "zzz", 10).unwrap();
    assert!(results.is_empty());
}

#[test]
fn completion_entry_default() {
    let entry = CompletionEntry::default();
    assert!(entry.command.is_empty());
    assert!(entry.completion.is_empty());
    assert!(entry.description.is_empty());
    assert_eq!(entry.source, "custom");
}

#[test]
fn completion_entry_clone_eq() {
    let entry = entry("git", "commit", "Record changes", "fish");
    let cloned = entry.clone();
    assert_eq!(entry, cloned);
}

#[test]
fn completion_entry_ne() {
    let a = entry("git", "commit", "Record changes", "fish");
    let b = entry("git", "commit", "Record changes", "man");
    assert_ne!(a, b);
}

#[test]
fn mem_store_upsert_replaces_duplicate() {
    let mut store = MemStore::new();
    store.insert(&entry("git", "commit", "old", "fish")).unwrap();
    store.insert(&entry("git", "commit", "new", "fish")).unwrap();
    assert_eq!(store.count().unwrap(), 1, "duplicate should be replaced");
    let results = store.query("git", "co", 10).unwrap();
    assert_eq!(results[0].description, "new");
}

#[test]
fn mem_store_different_sources_coexist() {
    let mut store = MemStore::new();
    store.insert(&entry("git", "commit", "fish", "fish")).unwrap();
    store.insert(&entry("git", "commit", "man", "man")).unwrap();
    assert_eq!(
        store.count().unwrap(),
        2,
        "same completion from different sources should coexist"
    );
}

#[test]
fn mem_store_default_is_empty() {
    let store = MemStore::default();
    assert_eq!(store.count().unwrap(), 0);
}

#[test]
fn mem_store_results_sorted_by_completion() {
    let mut store = MemStore::new();
    for name in ["zebra", "alpha", "middle", "Alpha", "älg"] {
        store.insert(&entry("test", name, "", "mock")).unwrap();
    }
    let results = store.query("test", "", 50).unwrap();
    let completions: Vec<&str> = results.iter().map(|r| r.completion.as_str()).collect();
    let mut sorted = completions.clone();
    sorted.sort_unstable();
    assert_eq!(completions, sorted, "results should be sorted by completion");
}

#[test]
fn mem_store_query_is_case_sensitive_and_literal() {
    let mut store = MemStore::new();
    store.insert(&entry("test", "100%done", "", "mock")).unwrap();
    store.insert(&entry("test", "100_items", "", "mock")).unwrap();
    store.insert(&entry("test", "Commit", "", "mock")).unwrap();
    assert_eq!(store.query("test", "100", 10).unwrap().len(), 2);
    assert_eq!(store.query("test", "100%", 10).unwrap().len(), 1);
    assert!(store.query("test", "co", 10).unwrap().is_empty());
}

#[test]
fn mem_store_query_after_insert_finds_entry() {
    let mut store = MemStore::new();
    for i in 0..30 {
        store.insert(&entry("cargo", &format!("sub-{i:02}"), "", "fish")).unwrap();
    }
    let e = entry("cargo", "sub-17", "seventeen", "man");
    store.insert(&e).unwrap();
    let results = store.query("cargo", "sub-1", 100).unwrap();
    assert!(results.contains(&e));
    assert_eq!(results.len(), 11);
}

#[test]
fn mem_store_upsert_keeps_others() {
    let mut store = MemStore::new();
    store.insert(&entry("git", "push", "p", "fish")).unwrap();
    store.insert(&entry("git", "pull", "q", "fish")).unwrap();
    store.insert(&entry("git", "push", "p2", "fish")).unwrap();
    assert_eq!(store.count().unwrap(), 2);
    let results = store.query("git", "pu", 10).unwrap();
    assert_eq!(results.len(), 2);
    assert_eq!(results[0].completion, "pull");
    assert_eq!(results[1].description, "p2");
}
