use bm_complete::source::{fish_command_for, is_fish_file, parse_fish_completions, CompletionSource, MockSource};
use bm_complete::store::CompletionEntry;

#[test]
fn mock_source_returns_data() {
    let source = MockSource {
        name: "test".into(),
        data: vec![CompletionEntry {
            command: "git".into(),
            completion: "commit".into(),
            description: "Record changes".into(),
            source: "mock".into(),
        }],
    };
    assert_eq!(source.name(), "test");
    let entries = source.entries().unwrap();
    assert_eq!(entries.len(), 1);
    assert_eq!(entries[0].completion, "commit");
}

#[test]
fn mock_source_empty_data() {
    let source = MockSource {
        name: "empty".into(),
        data: vec![],
    };
    assert_eq!(source.name(), "empty");
    assert!(source.entries().unwrap().is_empty());
}

// ── Fish completion text ───────────────────────────────────────

#[test]
fn fish_parse_short_flags() {
    let entries = parse_fish_completions(
        "ls",
        "complete -c ls -s l -d 'Long listing'\ncomplete -c ls -s a -d 'Show hidden'\n",
    );
    assert_eq!(entries.len(), 2);
    assert!(entries.iter().any(|e| e.completion == "-l"));
    assert!(entries.iter().any(|e| e.completion == "-a"));
}

#[test]
fn fish_parse_argument_completions_single() {
    let entries = parse_fish_completions(
        "git",
        "complete -c git -a commit\ncomplete -c git -a push\ncomplete -c git -a pull\n",
    );
    assert_eq!(entries.len(), 3);
    assert!(entries.iter().any(|e| e.completion == "commit"));
    assert!(entries.iter().any(|e| e.completion == "push"));
    assert!(entries.iter().any(|e| e.completion == "pull"));
}

#[test]
fn fish_parse_argument_quoted_single_word() {
    let entries = parse_fish_completions("git", "complete -c git -a 'status'\n");
    assert!(
        entries.iter().any(|e| e.completion == "status"),
        "quoted single-word -a should produce an entry: {entries:?}"
    );
}

#[test]
fn fish_parse_description_with_quotes() {
    let entries = parse_fish_completions("git", "complete -c git -l commit -d 'Record changes to repo'\n");
    assert!(!entries.is_empty());
    let commit = entries.iter().find(|e| e.completion == "--commit").unwrap();
    assert_eq!(commit.description, "Record changes to repo");
}

#[test]
fn fish_parse_description_without_quotes() {
    let entries = parse_fish_completions("test", "complete -c test -l verbose -d verbose-mode\n");
    assert!(!entries.is_empty());
    let entry = entries.iter().find(|e| e.completion == "--verbose").unwrap();
    assert_eq!(entry.description, "verbose-mode");
}

#[test]
fn fish_parse_skips_non_complete_lines() {
    let entries = parse_fish_completions(
        "git",
        "# This is a comment\nset -l commands commit push\ncomplete -c git -l commit\n\n",
    );
    assert_eq!(entries.len(), 1);
    assert_eq!(entries[0].completion, "--commit");
}

#[test]
fn fish_parse_empty_file() {
    let entries = parse_fish_completions("empty", "");
    assert!(entries.is_empty());
}

#[test]
fn fish_parse_mixed_flags_and_args() {
    let entries = parse_fish_completions(
        "docker",
        "complete -c docker -s v -d 'Version'\ncomplete -c docker -l help -d 'Show help'\ncomplete -c docker -a run\ncomplete -c docker -a build\ncomplete -c docker -a push\n",
    );
    assert!(entries.iter().any(|e| e.completion == "-v"));
    assert!(entries.iter().any(|e| e.completion == "--help"));
    assert!(entries.iter().any(|e| e.completion == "run"));
    assert!(entries.iter().any(|e| e.completion == "build"));
    assert!(entries.iter().any(|e| e.completion == "push"));
}

#[test]
fn fish_parse_entries_are_tagged() {
    let entries = parse_fish_completions("kubectl", "complete -c kubectl -l get\n  complete -c kubectl -a apply\r\n");
    assert_eq!(entries.len(), 2);
    assert!(entries.iter().all(|e| e.command == "kubectl" && e.source == "fish"));
    // argument entries come before the flag entry of their line
    assert_eq!(entries[0].completion, "--get");
    assert_eq!(entries[1].completion, "apply");
}

#[test]
fn fish_parse_details() {
    // the last flag of a line wins; an unclosed quote leaves no description;
    // a multi-word quoted description is joined back with single spaces
    let e = parse_fish_completions("x", "complete -s a -l all -d 'one   two' three");
    assert_eq!(e.len(), 1);
    assert_eq!(e[0].completion, "--all");
    assert_eq!(e[0].description, "one two");
    let e = parse_fish_completions("x", "complete -l all -d 'unclosed text");
    assert_eq!(e[0].description, "");
    let e = parse_fish_completions("x", "complete -l all -d");
    assert_eq!(e[0].description, "");
    let e = parse_fish_completions("x", "complete -a '\"both\"'");
    assert_eq!(e[0].completion, "both");
    let e = parse_fish_completions("x", "completely -l odd");
    assert_eq!(e[0].completion, "--odd");
    let e = parse_fish_completions("x", "  # complete -l no");
    assert!(e.is_empty());
}

#[test]
fn fish_file_names() {
    assert!(is_fish_file("git.fish"));
    assert!(!is_fish_file(".fish"));
    assert!(!is_fish_file("readme.txt"));
    assert!(!is_fish_file("script.sh"));
    assert!(is_fish_file("a.b.fish"));
    assert_eq!(fish_command_for("git.fish"), Some("git".to_string()));
    assert_eq!(fish_command_for("kubectl.fish"), Some("kubectl".to_string()));
    assert_eq!(fish_command_for(".fish"), Some(".fish".to_string()));
    assert_eq!(fish_command_for("a.b.fish"), Some("a.b".to_string()));
    assert_eq!(fish_command_for(""), None);
}

#[test]
fn fish_dir_candidates_in_search_order() {
    let dirs = bm_complete::source::fish_dir_candidates();
    assert_eq!(
        dirs,
        vec![
            "/usr/share/fish/completions".to_string(),
            "/usr/local/share/fish/completions".to_string(),
            "/opt/homebrew/share/fish/completions".to_string(),
        ]
    );
}
