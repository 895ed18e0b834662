//! Direct tests of the membership index used by the traversal.

use follow_crawl::dedup::DedupIndex;

#[test]
fn first_insert_reports_newly_added() {
    let mut d = DedupIndex::new();
    assert!(d.test_and_insert(&"alice".to_string()));
    assert_eq!(d.len(), 1);
}

#[test]
fn second_insert_is_idempotent() {
    let mut d = DedupIndex::new();
    assert!(d.test_and_insert(&"alice".to_string()));
    assert!(!d.test_and_insert(&"alice".to_string()));
    assert_eq!(d.len(), 1);
    assert!(d.contains(&"alice".to_string()));
}

#[test]
fn namespaces_are_independent() {
    // The crawl keeps two separate indices; recording an identity in one
    // says nothing about the other.
    let mut attr_done = DedupIndex::new();
    let mut follows_done = DedupIndex::new();
    assert!(attr_done.test_and_insert(&"alice".to_string()));
    assert!(!attr_done.contains(&"bob".to_string()));
    assert!(follows_done.test_and_insert(&"alice".to_string()));
    assert!(follows_done.test_and_insert(&"bob".to_string()));
    assert_eq!(attr_done.len(), 1);
    assert_eq!(follows_done.len(), 2);
    assert!(!attr_done.contains(&"bob".to_string()));
}

#[test]
fn equality_is_exact_string_match() {
    let mut d = DedupIndex::new();
    assert!(d.test_and_insert(&"alice".to_string()));
    assert!(d.test_and_insert(&"Alice".to_string()));
    assert!(d.test_and_insert(&"alice ".to_string()));
    assert_eq!(d.len(), 3);
}
