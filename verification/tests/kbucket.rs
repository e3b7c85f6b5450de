use wdht::config::RoutingConfig;
use wdht::id::Id;
use wdht::kbucket::{KBucket, Placement};
use wdht::transport::TransportSender;

struct Quiet;

impl TransportSender for Quiet {
    type Contact = Id;

    fn ping(&self, _id: &Id) {}

    fn wrap_contact(&self, id: Id) -> Id {
        id
    }
}

fn small() -> RoutingConfig {
    RoutingConfig {
        bucket_size: 2,
        bucket_replacement_size: 1,
        buckets_per_bit: 1,
        max_routing_count: None,
    }
}

fn id(n: u8) -> Id {
    let mut bytes = [0u8; 20];
    bytes[19] = n;
    Id(bytes)
}

#[test]
fn bucket_fills_entries_then_replacements() {
    let mut bucket = KBucket::new();
    assert_eq!(bucket.place(id(1), &small()), Placement::Routed);
    assert_eq!(bucket.place(id(1), &small()), Placement::Present);
    assert_eq!(bucket.place(id(2), &small()), Placement::Routed);
    assert_eq!(bucket.place(id(3), &small()), Placement::Cached);
    assert_eq!(bucket.place(id(3), &small()), Placement::Present);
    assert_eq!(bucket.place(id(4), &small()), Placement::Refused);
    assert_eq!(bucket.entries, vec![id(1), id(2)]);
    assert_eq!(bucket.replacement_cache, vec![id(3)]);
    assert!(bucket.has(id(3)));
    assert!(!bucket.has(id(4)));
}

#[test]
fn insert_then_refresh_moves_an_entry_last() {
    let mut bucket = KBucket::default();
    assert!(bucket.insert(id(1), &small(), &Quiet));
    assert!(bucket.insert(id(2), &small(), &Quiet));
    assert!(bucket.refresh_node(id(1)));
    assert_eq!(bucket.entries, vec![id(2), id(1)]);
    // a replacement is not moved
    assert!(bucket.insert(id(3), &small(), &Quiet));
    assert!(!bucket.refresh_node(id(3)));
    assert_eq!(bucket.entries, vec![id(2), id(1)]);
    assert_eq!(bucket.replacement_cache, vec![id(3)]);
    // nor is an identifier that was turned away
    assert!(!bucket.insert(id(4), &small(), &Quiet));
    assert!(!bucket.refresh_node(id(4)));
    assert_eq!(bucket.entries, vec![id(2), id(1)]);
}

#[test]
fn remove_promotes_the_oldest_replacement() {
    let config = RoutingConfig {
        bucket_size: 2,
        bucket_replacement_size: 2,
        buckets_per_bit: 1,
        max_routing_count: None,
    };
    let mut bucket = KBucket::new();
    for n in 1..=4 {
        assert!(bucket.insert(id(n), &config, &Quiet));
    }
    assert!(bucket.remove(id(1)));
    assert_eq!(bucket.entries, vec![id(2), id(3)]);
    assert_eq!(bucket.replacement_cache, vec![id(4)]);
    assert!(bucket.remove(id(4)));
    assert_eq!(bucket.replacement_cache, Vec::<Id>::new());
    assert!(!bucket.remove(id(4)));
    assert!(bucket.remove(id(3)));
    assert_eq!(bucket.entries, vec![id(2)]);
}
