use std::collections::HashMap;
use std::sync::{Arc, Mutex, MutexGuard};

use wdht::config::RoutingConfig;
use wdht::id::Id;
use wdht::ktree::KTree;
use wdht::transport::TransportSender;

#[derive(Clone)]
struct IgnoreContacter;

impl TransportSender for IgnoreContacter {
    fn ping(&self, _id: &Id) {}

    type Contact = Id;

    fn wrap_contact(&self, _id: Id) -> Self::Contact {
        panic!();
    }
}

#[test]
fn basic() {
    let id = Id::from_hex("a0000000");
    let config = RoutingConfig {
        bucket_size: 2,
        bucket_replacement_size: 1,
        buckets_per_bit: 1,
        ..Default::default()
    };
    let mut tree = KTree::new(id, config);
    // Add similar entries to the same bucket,
    // since the bucket size is 2 it will overflow
    let contacter = &mut IgnoreContacter;
    assert_eq!(tree.insert(Id::from_hex("b0000001"), contacter), true);
    assert_eq!(tree.insert(Id::from_hex("b0000010"), contacter), true);
    assert_eq!(tree.insert(Id::from_hex("b0000011"), contacter), true); // cache
    assert_eq!(tree.insert(Id::from_hex("b0000100"), contacter), false);
    // Add similar entries but closer to the tree
    // closer bucket (0)
    assert_eq!(tree.insert(Id::from_hex("a0000001"), contacter), true);
    // bucket 1
    assert_eq!(tree.insert(Id::from_hex("a0000010"), contacter), true);
    assert_eq!(tree.insert(Id::from_hex("a0000011"), contacter), true);
    // bucket 2
    assert_eq!(tree.insert(Id::from_hex("a0000100"), contacter), true);
    assert_eq!(tree.insert(Id::from_hex("a0000101"), contacter), true);
    assert_eq!(tree.insert(Id::from_hex("a0000110"), contacter), true); // cache
    assert_eq!(tree.insert(Id::from_hex("a0000111"), contacter), false); // full

    // client a100 disconnects, so a110 enters cache and we can insert a111 (well, in the cache)
    tree.remove(Id::from_hex("a0000100"));
    assert_eq!(tree.insert(Id::from_hex("a0000111"), contacter), true); // cached
}

#[test]
fn closer_n() {
    let id = Id::from_hex("a0000000");
    let config = RoutingConfig {
        bucket_size: 2,
        bucket_replacement_size: 1,
        buckets_per_bit: 1,
        ..Default::default()
    };

    let mut tree = KTree::new(id, config);
    let contacter = &mut IgnoreContacter;

    tree.insert(Id::from_hex("b0000000"), contacter);
    tree.insert(Id::from_hex("b0001000"), contacter);
    tree.insert(Id::from_hex("a0001000"), contacter);
    tree.insert(Id::from_hex("a0000001"), contacter);
    tree.insert(Id::from_hex("a0000010"), contacter);

    let actual = tree
        .get_closer_n(Id::from_hex("b0001001"), 3)
        .iter()
        .map(|x| (*x).clone())
        .collect::<Vec<_>>();
    assert_eq!(
        vec![
            Id::from_hex("b0001000"),
            Id::from_hex("b0000000"),
            Id::from_hex("a0001000"),
        ],
        actual
    );
}

#[derive(Clone)]
struct MapContacter(pub Arc<Mutex<HashMap<Id, usize>>>);

impl MapContacter {
    pub fn inner(&self) -> MutexGuard<HashMap<Id, usize>> {
        self.0.lock().unwrap()
    }
}

impl TransportSender for MapContacter {
    fn ping(&self, id: &Id) {
        *self.inner().entry(id.clone()).or_insert(0) += 1;
    }

    type Contact = Id;

    fn wrap_contact(&self, _id: Id) -> Self::Contact {
        panic!()
    }
}

#[test]
fn ping() {
    let id = Id::from_hex("a0000000");
    let config = RoutingConfig {
        bucket_size: 2,
        bucket_replacement_size: 2,
        buckets_per_bit: 1,
        ..Default::default()
    };
    let mut tree = KTree::new(id, config);
    // Add similar entries to the same bucket,
    // since the bucket size is 2 it will overflow
    let mut contacter = MapContacter(Default::default());

    // closer bucket (0)
    assert_eq!(tree.insert(Id::from_hex("a0000001"), &mut contacter), true);
    // bucket 1
    assert_eq!(tree.insert(Id::from_hex("a0000010"), &mut contacter), true);
    assert_eq!(tree.insert(Id::from_hex("a0000011"), &mut contacter), true);
    // bucket 2
    assert_eq!(tree.insert(Id::from_hex("a0000100"), &mut contacter), true);
    assert_eq!(tree.insert(Id::from_hex("a0000101"), &mut contacter), true);
    assert!(contacter.inner().is_empty());
    assert_eq!(tree.insert(Id::from_hex("a0000110"), &mut contacter), true); // cache
    // should only ping bucket 2!
    assert_eq!(
        *contacter.inner(),
        HashMap::from([
            (Id::from_hex("a0000100"), 1usize),
            (Id::from_hex("a0000101"), 1),
        ])
    );
    // second cache entry SHOULD reping, it's the contacter job do deduplicate pings
    assert_eq!(tree.insert(Id::from_hex("a0000111"), &mut contacter), true); // cache 2
    assert_eq!(
        *contacter.inner(),
        HashMap::from([
            (Id::from_hex("a0000100"), 2usize),
            (Id::from_hex("a0000101"), 2),
        ])
    );

    let old_map = contacter.inner().clone();
    // client a100 disconnects, so a110 enters cache and we can insert a111 (well, in the cache)
    tree.remove(Id::from_hex("a0000100"));
    assert_eq!(*contacter.inner(), old_map);
    contacter.inner().clear();
    assert_eq!(tree.insert(Id::from_hex("a0000100"), &mut contacter), true); // cached
    assert_eq!(
        *contacter.inner(),
        HashMap::from([
            (Id::from_hex("a0000101"), 1),
            (Id::from_hex("a0000110"), 1), // promoted from cache and contacted
        ])
    );
}

#[test]
fn multi_buckets_per_bit() {
    let id = Id::from_hex("a0000000");
    let config = RoutingConfig {
        bucket_size: 2,
        bucket_replacement_size: 1,
        buckets_per_bit: 2,
        ..Default::default()
    };
    let mut tree = KTree::new(id, config);

    // Add similar entries to the same bucket,
    // since the bucket size is 2 it will overflow
    let contacter = &mut IgnoreContacter;
    assert_eq!(tree.insert(Id::from_hex("b0000001"), contacter), true);
    assert_eq!(tree.insert(Id::from_hex("b0000010"), contacter), true);
    assert_eq!(tree.insert(Id::from_hex("b0000011"), contacter), true); // cache
    assert_eq!(tree.insert(Id::from_hex("b0000100"), contacter), false);
    // Add similar entries but with a different prefix
    //     bits _ xor a
    // a = 1010  0000
    // c = 1100  0110  (prefix: 10...)
    // e = 1110  0100  (prefix: 00...)
    // So c and e are at the same distance from a, but they have a different bit
    // they'll since be placed in different buckets
    assert_eq!(tree.insert(Id::from_hex("c0000001"), contacter), true);
    assert_eq!(tree.insert(Id::from_hex("c0000010"), contacter), true);
    assert_eq!(tree.insert(Id::from_hex("e0000001"), contacter), true);
    assert_eq!(tree.insert(Id::from_hex("e0000010"), contacter), true);
    assert_eq!(tree.insert(Id::from_hex("e0000011"), contacter), true); // cache
    assert_eq!(tree.insert(Id::from_hex("e0000100"), contacter), false); // full
}

#[test]
fn tree_turns_away_itself_and_overflow() {
    let id = Id::from_hex("a0000000");
    let config = RoutingConfig {
        bucket_size: 4,
        bucket_replacement_size: 2,
        buckets_per_bit: 1,
        max_routing_count: Some(2),
    };
    let mut tree = KTree::new(id, config);
    let contacter = IgnoreContacter;
    assert_eq!(tree.insert(id, &contacter), false);
    assert_eq!(tree.insert(Id::from_hex("01"), &contacter), true);
    assert_eq!(tree.insert(Id::from_hex("01"), &contacter), false);
    assert_eq!(tree.insert(Id::from_hex("02"), &contacter), true);
    assert_eq!(tree.insert(Id::from_hex("03"), &contacter), false);
    assert!(tree.has(Id::from_hex("02")));
    assert!(!tree.has(Id::from_hex("03")));
    assert_eq!(tree.remove(Id::from_hex("02")), true);
    assert_eq!(tree.remove(Id::from_hex("02")), false);
    assert_eq!(tree.insert(Id::from_hex("03"), &contacter), true);
    assert_eq!(tree.refresh(Id::from_hex("03")), true);
    assert_eq!(tree.refresh(Id::from_hex("04")), false);
    assert_eq!(tree.get_bucket_index(Id::from_hex("a0000001")), (159, 0));
}

#[test]
fn closer_n_of_whole_table_is_sorted() {
    let id = Id::zero();
    let mut tree = KTree::new(id, RoutingConfig::default());
    let contacter = IgnoreContacter;
    let ids = ["8000", "4000", "2000", "1000", "0800"];
    for x in ids {
        assert!(tree.insert(Id::from_hex(x), &contacter));
    }
    let target = Id::from_hex("0900");
    let found = tree.get_closer_n(target, 10);
    assert_eq!(
        found,
        vec![
            Id::from_hex("0800"),
            Id::from_hex("1000"),
            Id::from_hex("2000"),
            Id::from_hex("4000"),
            Id::from_hex("8000"),
        ]
    );
    assert_eq!(tree.get_closer_n(target, 0), Vec::<Id>::new());
}

#[test]
fn closer_n_stops_at_the_first_full_entry() {
    // The walk to the right stops as soon as it has enough, and so does not
    // see a closer identifier in a later entry.
    let mut near = [0u8; 20];
    near[0] = 0x20;
    let mut far = [0u8; 20];
    far[0] = 0x40;
    let mut target = [0u8; 20];
    target[0] = 0x80;
    let mut tree = KTree::new(Id::zero(), RoutingConfig::default());
    let contacter = IgnoreContacter;
    assert!(tree.insert(Id(far), &contacter));
    assert!(tree.insert(Id(near), &contacter));
    assert_eq!(tree.get_closer_n(Id(target), 1), vec![Id(far)]);
    assert_eq!(tree.get_closer_n(Id(target), 2), vec![Id(near), Id(far)]);
}

#[test]
fn closer_n_goes_left_when_the_right_runs_out() {
    // own identifier zero: the entry of an identifier is the number of its
    // leading zeros
    let mut tree = KTree::new(Id::zero(), RoutingConfig::default());
    let contacter = IgnoreContacter;
    let ids = ["80", "40", "20", "10", "08", "04"];
    for x in ids {
        let bytes = [u8::from_str_radix(x, 16).unwrap(); 1];
        let mut id = [0u8; 20];
        id[0] = bytes[0];
        assert!(tree.insert(Id(id), &contacter));
    }
    let first = |byte: u8| {
        let mut id = [0u8; 20];
        id[0] = byte;
        Id(id)
    };
    // the entry of the target holds 10; behind it stand 08 and 04, before it 20, 40 and 80
    let target = first(0x11);
    assert_eq!(tree.get_closer_n(target, 1), vec![first(0x10)]);
    assert_eq!(
        tree.get_closer_n(target, 4),
        vec![first(0x10), first(0x04), first(0x08), first(0x20)]
    );
    assert_eq!(
        tree.get_closer_n(target, 6),
        vec![first(0x10), first(0x04), first(0x08), first(0x20), first(0x40), first(0x80)]
    );
}
