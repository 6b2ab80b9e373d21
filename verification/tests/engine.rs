use bm_complete::completions::{complete, MockPathProvider};
use bm_complete::config::TestConfig;
use bm_complete::daemon::{complete_request, error_line, request_position, response_line};
use bm_complete::engine::CompletionEngine;
use bm_complete::error::BmError;
use bm_complete::store::{CompletionEntry, MemStore, Store};

/// Minimal mock engine for test isolation.
struct MockEngine {
    results: Vec<CompletionEntry>,
}

impl CompletionEngine for MockEngine {
    fn complete(&self, _buffer: &str, _position: usize) -> Result<Vec<CompletionEntry>, BmError> {
        Ok(self.results.clone())
    }
}

/// Engine that reports the position it was asked about.
struct PositionEngine;

impl CompletionEngine for PositionEngine {
    fn complete(&self, buffer: &str, position: usize) -> Result<Vec<CompletionEntry>, BmError> {
        Ok(vec![CompletionEntry {
            command: buffer.to_string(),
            completion: position.to_string(),
            description: String::new(),
            source: "mock".into(),
        }])
    }
}

#[test]
fn mock_engine_returns_results() {
    let engine = MockEngine {
        results: vec![CompletionEntry {
            command: "git".into(),
            completion: "commit".into(),
            description: "Record changes".into(),
            source: "mock".into(),
        }],
    };
    let results = engine.complete("git co", 6).unwrap();
    assert_eq!(results.len(), 1);
    assert_eq!(results[0].completion, "commit");
}

#[test]
fn default_engine_delegates_to_complete() {
    let mut store = MemStore::new();
    store
        .insert(&CompletionEntry {
            command: "git".into(),
            completion: "commit".into(),
            description: "Record changes".into(),
            source: "fish".into(),
        })
        .unwrap();

    let cfg = TestConfig {
        index_path: false,
        ..TestConfig::default()
    };
    let paths = MockPathProvider {
        entries: Vec::new(),
        home: None,
    };
    let results = complete("git co", 6, &store, &cfg, &paths).unwrap();
    assert_eq!(results.len(), 1);
    assert_eq!(results[0].completion, "commit");
}

#[test]
fn request_position_defaults_to_buffer_len() {
    assert_eq!(request_position("ls", None), 2);
    assert_eq!(request_position("echo 日本語", None), 14);
    assert_eq!(request_position("git commit", Some(0)), 0);
    assert_eq!(request_position("ls", Some(9999)), 9999);
}

#[test]
fn complete_request_passes_position() {
    let r = complete_request(&PositionEngine, "git co", None).unwrap();
    assert_eq!(r[0].completion, "6");
    let r = complete_request(&PositionEngine, "git commit --amend", Some(10)).unwrap();
    assert_eq!(r[0].completion, "10");
}

#[test]
fn response_and_error_lines() {
    assert_eq!(response_line("[]"), "[]\n");
    assert!(response_line("[]").ends_with('\n'));
    assert_eq!(error_line("invalid request JSON"), "{\"error\": \"invalid request JSON\"}\n");
}

#[test]
fn error_messages() {
    assert_eq!(BmError::Config("bad yaml".into()).message(), "configuration error: bad yaml");
    let m = BmError::mutex_poisoned("TestStore", "poisoned lock: another task failed inside");
    assert!(m.message().contains("TestStore"));
    assert!(m.message().contains("mutex poisoned"));
    assert_eq!(BmError::Io("gone".into()).message(), "gone");
}

#[test]
fn config_error_message() {
    let err = BmError::Config("bad yaml".into());
    assert_eq!(err.message(), "configuration error: bad yaml");
}

#[test]
fn bm_error_is_send_sync() {
    fn assert_send_sync<T: Send + Sync>() {}
    assert_send_sync::<BmError>();
}
