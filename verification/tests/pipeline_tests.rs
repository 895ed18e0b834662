//! Tests for the enrichment pipeline's queue discipline: the bounded FIFO
//! channel between the traversal producer and the enrichment consumer.

use follow_crawl::profile::EnrichedProfile;
use tokio::sync::mpsc;
use tokio::sync::mpsc::error::TrySendError;

#[test]
fn bounded_queue_applies_backpressure_at_capacity_one() {
    // With capacity 1 and a consumer that has not drained yet, a second
    // enqueue cannot proceed; it goes through once the consumer removes the
    // first item.
    let (tx, mut rx) = mpsc::channel::<String>(1);
    tx.try_send("first".to_string()).expect("capacity is free");
    match tx.try_send("second".to_string()) {
        Err(TrySendError::Full(rejected)) => assert_eq!(rejected, "second"),
        other => panic!("expected the queue to be full, got {:?}", other),
    }
    assert_eq!(rx.try_recv().expect("first item buffered"), "first");
    tx.try_send("second".to_string())
        .expect("space is free again after the consumer drained one item");
    assert_eq!(rx.try_recv().expect("second item buffered"), "second");
}

#[test]
fn queue_preserves_enqueue_order() {
    let (tx, mut rx) = mpsc::channel::<String>(4);
    for id in ["a", "b", "c"] {
        tx.try_send(id.to_string()).expect("capacity is free");
    }
    drop(tx);
    let mut received = Vec::new();
    while let Ok(id) = rx.try_recv() {
        received.push(id);
    }
    assert_eq!(received, vec!["a", "b", "c"]);
}

#[test]
fn queue_closes_after_producer_is_dropped() {
    // The consumer drains buffered items and then sees the closed queue.
    let (tx, mut rx) = mpsc::channel::<String>(4);
    tx.try_send("last".to_string()).expect("capacity is free");
    drop(tx);
    assert_eq!(rx.try_recv().expect("buffered item survives the close"), "last");
    assert!(rx.try_recv().is_err());
}

#[test]
fn enriched_profile_keeps_observed_attributes() {
    let p = EnrichedProfile::new(
        "did:example:alice".to_string(),
        "2024-05-01T12:00:00Z".to_string(),
        Some("Alice".to_string()),
        Some(42),
    );
    assert_eq!(p.identity, "did:example:alice");
    assert_eq!(p.indexed_at, "2024-05-01T12:00:00Z");
    assert_eq!(p.display_name, Some("Alice".to_string()));
    assert_eq!(p.followers_count, Some(42));
}
