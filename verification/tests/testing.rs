use bm_complete::completions::{classify_context, CompletionContext};
use bm_complete::store::MemStore;
use bm_complete::testing::{classify_context_suite, validate_store_roundtrip, CompletionEntryBuilder};

#[test]
fn builder_defaults() {
    let entry = CompletionEntryBuilder::new().build();
    assert!(entry.command.is_empty());
    assert!(entry.completion.is_empty());
    assert!(entry.description.is_empty());
    assert_eq!(entry.source, "mock");
}

#[test]
fn builder_fluent_api() {
    let entry = CompletionEntryBuilder::new()
        .command("cargo")
        .completion("build")
        .description("Compile the package")
        .source("fish")
        .build();
    assert_eq!(entry.command, "cargo");
    assert_eq!(entry.completion, "build");
    assert_eq!(entry.description, "Compile the package");
    assert_eq!(entry.source, "fish");
}

#[test]
fn roundtrip_with_mem_store() {
    let mut store = MemStore::new();
    validate_store_roundtrip(&mut store);
}

#[test]
fn classify_context_suite_is_exhaustive() {
    let suite = classify_context_suite();
    // Every variant should appear at least once
    let variants: std::collections::HashSet<_> = suite.iter().map(|(_, _, ctx)| *ctx).collect();
    assert!(variants.contains(&CompletionContext::DirectoryNav));
    assert!(variants.contains(&CompletionContext::PathCompletion));
    assert!(variants.contains(&CompletionContext::FlagCompletion));
    assert!(variants.contains(&CompletionContext::CommandArg));

    // Each tuple should match
    for (cmd, prefix, expected) in &suite {
        assert_eq!(
            classify_context(cmd, prefix),
            *expected,
            "classify_context({cmd:?}, {prefix:?}) should be {expected:?}"
        );
    }
}
