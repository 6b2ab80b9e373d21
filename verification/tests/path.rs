use bm_complete::completions::path::{path_completions, path_request, paths_equal};
use bm_complete::completions::{DirEntry, MockPathProvider, PathProvider};

fn mock(entries: Vec<(&str, Vec<DirEntry>)>, home: Option<&str>) -> MockPathProvider {
    MockPathProvider {
        entries: entries.into_iter().map(|(d, v)| (d.to_string(), v)).collect(),
        home: home.map(|h| h.to_string()),
    }
}

fn file(name: &str) -> DirEntry {
    DirEntry { name: name.into(), is_dir: false }
}

fn dir(name: &str) -> DirEntry {
    DirEntry { name: name.into(), is_dir: true }
}

// ── Tests carried over from the completions module ─────────────

#[test]
fn path_provider_mock_lists_entries() {
    let m = mock(
        vec![("/fake/dir", vec![file("alpha.rs"), dir("beta"), file("gamma.txt")])],
        None,
    );
    let results = path_completions("/fake/dir/", 50, false, &m);
    assert_eq!(results.len(), 3, "expected 3 entries: {results:?}");
    assert!(results.iter().any(|r| r.completion.contains("alpha.rs")));
    assert!(results.iter().any(|r| r.completion.contains("beta")));
    assert!(results.iter().any(|r| r.completion.contains("gamma.txt")));
}

#[test]
fn path_provider_mock_dirs_get_slash() {
    let m = mock(vec![("/mock", vec![dir("mydir"), file("myfile")])], None);
    let results = path_completions("/mock/", 50, false, &m);
    let dir_entry = results
        .iter()
        .find(|r| r.completion.contains("mydir"))
        .expect("mydir entry should exist");
    assert!(
        dir_entry.completion.ends_with('/'),
        "directory completions should end with /: got {:?}",
        dir_entry.completion
    );
    let file_entry = results
        .iter()
        .find(|r| r.completion.contains("myfile"))
        .expect("myfile entry should exist");
    assert!(
        !file_entry.completion.ends_with('/'),
        "file completions should not end with /: got {:?}",
        file_entry.completion
    );
}

#[test]
fn path_provider_mock_hidden_filtered() {
    let m = mock(vec![("/mock", vec![file(".secret"), file("public.txt")])], None);
    let results = path_completions("/mock/", 50, false, &m);
    assert!(
        !results.iter().any(|r| r.completion.contains(".secret")),
        "hidden files should be excluded: {results:?}"
    );
    assert!(
        results.iter().any(|r| r.completion.contains("public.txt")),
        "visible files should be included: {results:?}"
    );
    let results = path_completions("/mock/.s", 50, false, &m);
    assert!(
        results.iter().any(|r| r.completion.contains(".secret")),
        "hidden files should be included when prefix starts with '.': {results:?}"
    );
}

// ── Tests of the path module ───────────────────────────────────

#[test]
fn mock_lists_entries() {
    let m = mock(
        vec![("/fake/dir", vec![file("alpha.rs"), dir("beta"), file("gamma.txt")])],
        None,
    );
    let results = path_completions("/fake/dir/", 50, false, &m);
    assert_eq!(results.len(), 3);
    assert!(results.iter().any(|r| r.completion.contains("alpha.rs")));
    assert!(results.iter().any(|r| r.completion.contains("beta")));
    assert!(results.iter().any(|r| r.completion.contains("gamma.txt")));
}

#[test]
fn mock_dirs_get_slash() {
    let m = mock(vec![("/mock", vec![dir("mydir"), file("myfile")])], None);
    let results = path_completions("/mock/", 50, false, &m);
    let dir_entry = results
        .iter()
        .find(|r| r.completion.contains("mydir"))
        .expect("mydir entry");
    assert!(dir_entry.completion.ends_with('/'));
    let file_entry = results
        .iter()
        .find(|r| r.completion.contains("myfile"))
        .expect("myfile entry");
    assert!(!file_entry.completion.ends_with('/'));
}

#[test]
fn mock_hidden_filtered() {
    let m = mock(vec![("/mock", vec![file(".secret"), file("public.txt")])], None);
    let results = path_completions("/mock/", 50, false, &m);
    assert!(!results.iter().any(|r| r.completion.contains(".secret")));
    assert!(results.iter().any(|r| r.completion.contains("public.txt")));
    let results = path_completions("/mock/.s", 50, false, &m);
    assert!(results.iter().any(|r| r.completion.contains(".secret")));
}

#[test]
fn dirs_only_filters_files() {
    let m = mock(vec![(".", vec![dir("dir1"), file("file1.txt"), dir("dir2")])], None);
    let results = path_completions("", 50, true, &m);
    assert!(results.iter().all(|r| r.description == "directory"));
    assert_eq!(results.len(), 2);
}

#[test]
fn respects_limit() {
    let many: Vec<DirEntry> = (0..20).map(|i| file(&format!("file{i:02}.txt"))).collect();
    let m = mock(vec![("/big", many)], None);
    let results = path_completions("/big/", 5, false, &m);
    assert!(results.len() <= 5);
}

#[test]
fn nonexistent_dir() {
    let m = mock(vec![], None);
    let results = path_completions("/nonexistent/", 50, false, &m);
    assert!(results.is_empty());
}

#[test]
fn mid_path_filter() {
    let m = mock(vec![("/src/", vec![file("main.rs"), file("lib.rs"), file("mod.rs")])], None);
    let results = path_completions("/src/ma", 50, false, &m);
    assert_eq!(results.len(), 1);
    assert!(results[0].completion.contains("main.rs"));
}

#[test]
fn results_sorted() {
    let m = mock(vec![("/dir", vec![file("zebra"), file("alpha"), file("middle")])], None);
    let results = path_completions("/dir/", 50, false, &m);
    let completions: Vec<&str> = results.iter().map(|r| r.completion.as_str()).collect();
    let mut sorted = completions.clone();
    sorted.sort();
    assert_eq!(completions, sorted);
}

#[test]
fn source_is_path() {
    let m = mock(vec![(".", vec![file("test.rs")])], None);
    let results = path_completions("te", 50, false, &m);
    assert!(results.iter().all(|r| r.source == "path"));
}

#[test]
fn mock_exists() {
    let m = mock(vec![("/exists", vec![])], None);
    assert!(m.path_exists("/exists"));
    assert!(!m.path_exists("/nope"));
}

#[test]
fn mock_is_dir() {
    let m = mock(vec![("/adir", vec![])], None);
    assert!(m.is_dir("/adir"));
    assert!(!m.is_dir("/nope"));
}

#[test]
fn mock_list_dir_nonexistent() {
    let m = mock(vec![], None);
    assert!(m.list_dir("/nope").is_err());
}

#[test]
fn mock_home_dir() {
    let m = mock(vec![], Some("/home/test"));
    assert_eq!(m.home_dir(), Some("/home/test".to_string()));
    let m = mock(vec![], None);
    assert_eq!(m.home_dir(), None);
}

// ── Further cases ──────────────────────────────────────────────

#[test]
fn tilde_expands_to_home() {
    let m = mock(vec![("/home/u/", vec![dir("docs"), file("notes.txt")])], Some("/home/u"));
    let results = path_completions("~/do", 50, false, &m);
    assert_eq!(results.len(), 1);
    assert_eq!(results[0].completion, "/home/u/docs/");
    assert_eq!(results[0].description, "directory");
    assert_eq!(results[0].command, "");
}

#[test]
fn tilde_without_home_is_kept() {
    let m = mock(vec![("~/", vec![file("x")])], None);
    let results = path_completions("~/", 50, false, &m);
    assert_eq!(results.len(), 1);
    assert_eq!(results[0].completion, "~/x");
}

#[test]
fn request_shapes() {
    let r = path_request("", None);
    assert_eq!((r.dir.as_str(), r.file_prefix.as_str(), r.base.as_str()), (".", "", ""));
    let r = path_request("src/", None);
    assert_eq!((r.dir.as_str(), r.file_prefix.as_str(), r.base.as_str()), ("src/", "", "src/"));
    let r = path_request("src/ma", None);
    assert_eq!((r.dir.as_str(), r.file_prefix.as_str(), r.base.as_str()), ("src/", "ma", "src/"));
    let r = path_request("fo", None);
    assert_eq!((r.dir.as_str(), r.file_prefix.as_str(), r.base.as_str()), (".", "fo", ""));
    let r = path_request("~/a/b", Some("/h".to_string()));
    assert_eq!((r.dir.as_str(), r.file_prefix.as_str(), r.base.as_str()), ("/h/a/", "b", "/h/a/"));
}

#[test]
fn path_identity_by_components() {
    assert!(paths_equal("/fake/dir", "/fake/dir/"));
    assert!(paths_equal("/a//b/./c", "/a/b/c"));
    assert!(paths_equal(".", "./"));
    assert!(paths_equal("./a", "./a/."));
    assert!(!paths_equal("a", "./a"));
    assert!(!paths_equal("/a", "a"));
    assert!(!paths_equal("/a/b", "/a/c"));
    assert!(paths_equal("", ""));
}

#[test]
fn limit_applies_before_sorting() {
    let m = mock(vec![("/d", vec![file("c"), file("b"), file("a")])], None);
    let results = path_completions("/d/", 2, false, &m);
    let names: Vec<&str> = results.iter().map(|r| r.completion.as_str()).collect();
    assert_eq!(names, vec!["/d/b", "/d/c"]);
}
