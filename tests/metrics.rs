use concurrency::{AmapMetrics, CmapMetrics, Metrics, MetricsError};
use std::collections::HashMap;

#[test]
fn test_metrics() {
    let mut metrics = Metrics::new();
    metrics.increment("foo");
    metrics.increment("foo");
    metrics.increment("bar");
    metrics.increment("foo");
    metrics.decrement("foo");
    metrics.increment("baz");
    let snapshot: HashMap<String, i64> = metrics.snapshot().into_iter().collect();
    assert_eq!(snapshot, {
        let mut map = std::collections::HashMap::new();
        map.insert("foo".to_string(), 2);
        map.insert("bar".to_string(), 1);
        map.insert("baz".to_string(), 1);
        map
    });
}

#[test]
fn metrics_three_up_one_down() {
    let mut metrics = Metrics::default();
    metrics.increment("foo");
    metrics.increment("foo");
    metrics.increment("foo");
    metrics.decrement("foo");
    assert_eq!(metrics.snapshot(), vec![("foo".to_string(), 2)]);
}

#[test]
fn metrics_decrement_of_absent_key_starts_at_zero() {
    let mut metrics = Metrics::new();
    metrics.decrement("x");
    assert_eq!(metrics.snapshot(), vec![("x".to_string(), -1)]);
}

#[test]
fn metrics_clear_removes_everything() {
    let mut metrics = Metrics::new();
    metrics.increment("a");
    metrics.increment("b");
    metrics.clear();
    assert!(metrics.snapshot().is_empty());
    metrics.increment("a");
    assert_eq!(metrics.snapshot(), vec![("a".to_string(), 1)]);
}

#[test]
fn amap_counts_registered_names() {
    let mut metrics = AmapMetrics::new(&["a", "b", "a"]);
    assert_eq!(metrics.to_string(), "a: 0, b: 0, ");
    assert_eq!(metrics.increment("a"), Ok(()));
    assert_eq!(metrics.increment("a"), Ok(()));
    assert_eq!(metrics.increment("b"), Ok(()));
    assert_eq!(metrics.to_string(), "a: 2, b: 1, ");
}

#[test]
fn amap_rejects_unknown_name() {
    let mut metrics = AmapMetrics::new(&["a"]);
    assert_eq!(metrics.increment("zzz"), Err(MetricsError::KeyNotFound));
    assert_eq!(metrics.to_string(), "a: 0, ");
}

#[test]
fn cmap_counts_and_clears() {
    let mut metrics = CmapMetrics::new();
    metrics.increment("foo");
    metrics.increment("foo");
    metrics.increment("foo");
    metrics.decrement("foo");
    metrics.decrement("bar");
    let snapshot = metrics.snapshot();
    assert_eq!(*snapshot.get("foo").unwrap(), 2);
    assert_eq!(*snapshot.get("bar").unwrap(), -1);
    assert_eq!(snapshot.len(), 2);
    metrics.clear();
    assert_eq!(metrics.snapshot().len(), 0);
    assert_eq!(snapshot.len(), 2);
}
