use typefix::memory::{DictionaryMemoryTracker, MemoryStats, MemoryTracker};

fn stats(rss: usize, heap_used: usize, virtual_size: usize) -> MemoryStats {
    MemoryStats { rss, heap_used, virtual_size }
}

#[test]
fn test_memory_tracker() {
    let mut tracker = MemoryTracker::new();
    tracker.start(MemoryStats::new());
    tracker.sample(MemoryStats::new());
    tracker.sample(MemoryStats::new());

    assert!(tracker.increase().is_some());
    assert_eq!(tracker.samples().len(), 2);
}

#[test]
fn test_dictionary_memory_tracker() {
    let mut tracker = DictionaryMemoryTracker::new();
    tracker.add_dictionary("en", 50000, 6);
    tracker.add_dictionary("es", 50000, 6);

    let total = tracker.total_memory();
    assert!(total > 0);
    // ~50K words * 6 chars * 2 languages = ~600K + overhead
    assert!(total < 10_000_000); // Should be under 10MB
}

// Own tests

#[test]
fn increase_saturates_and_needs_start_and_sample() {
    let mut tracker = MemoryTracker::default();
    assert!(tracker.increase().is_none());
    tracker.start(stats(100, 50, 1000));
    assert!(tracker.increase().is_none());
    tracker.sample(stats(150, 20, 1000));
    let inc = tracker.increase().unwrap();
    assert_eq!((inc.rss, inc.heap_used, inc.virtual_size), (50, 0, 0));
}

#[test]
fn peak_and_average() {
    let mut tracker = MemoryTracker::new();
    assert!(tracker.average().is_none());
    tracker.start(MemoryStats::default());
    tracker.sample(stats(10, 1, 100));
    tracker.sample(stats(30, 2, 200));
    tracker.sample(stats(20, 4, 300));
    assert_eq!(tracker.peak_memory().rss, 30);
    let avg = tracker.average().unwrap();
    assert_eq!((avg.rss, avg.heap_used, avg.virtual_size), (20, 2, 200));
}

#[test]
fn dictionary_estimate_formula_and_replacement() {
    let mut tracker = DictionaryMemoryTracker::default();
    tracker.add_dictionary("en", 10, 6);
    assert_eq!(tracker.total_memory(), 10 * (6 + 64));
    tracker.add_dictionary("en", 1, 0);
    assert_eq!(tracker.total_memory(), 64);
    tracker.add_dictionary("es", 2, 1);
    assert_eq!(tracker.total_memory(), 64 + 130);
}

#[test]
fn peak_covers_every_sample() {
    let mut t = MemoryTracker::new();
    t.start(stats(1, 0, 0));
    for (i, rss) in [5usize, 9, 3, 9, 2].into_iter().enumerate() {
        t.sample(stats(rss, i, 0));
    }
    let peak = t.peak_memory();
    assert_eq!(peak.rss, 9);
    assert!(t.samples().iter().all(|s| s.rss <= peak.rss));
    // the earliest of equal peaks is kept
    assert_eq!(peak.heap_used, 1);
}
