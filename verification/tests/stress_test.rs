use std::time::Duration;
use typefix::base::trie::Trie;

pub struct StressTestResult {
    pub name: String,
    pub passed: bool,
    pub duration_ms: u64,
    pub operations: usize,
    pub ops_per_sec: f64,
    pub details: Vec<String>,
}

impl StressTestResult {
    pub fn new(name: &str) -> Self {
        Self {
            name: name.to_string(),
            passed: false,
            duration_ms: 0,
            operations: 0,
            ops_per_sec: 0.0,
            details: Vec::new(),
        }
    }

    pub fn mark_passed(&mut self) {
        self.passed = true;
    }

    pub fn set_duration(&mut self, duration: Duration) {
        self.duration_ms = duration.as_millis() as u64;
        if self.operations > 0 {
            self.ops_per_sec = (self.operations as f64 * 1000.0) / self.duration_ms as f64;
        }
    }
}

#[test]
fn test_stress_result() {
    let mut result = StressTestResult::new("test");
    result.mark_passed();
    result.set_duration(Duration::from_millis(100));
    result.operations = 1000;
    assert!(result.passed);
    assert_eq!(result.duration_ms, 100);
}

#[test]
fn stress_many_words_through_trie_and_engine() {
    let mut trie = Trie::new();
    for i in 0..500u64 {
        trie.insert(&format!("word{}", i), i);
    }
    assert_eq!(trie.len(), 500);
    for i in 0..500u64 {
        assert_eq!(trie.search(&format!("word{}", i)), Some(i));
    }
}
