use wdht::config::StorageConfig;
use wdht::id::Id;
use wdht::storage::{Error, Storage, NANOS_PER_SEC};
use wdht::transport::TopicEntry;

fn id(n: u8) -> Id {
    let mut bytes = [0u8; 20];
    bytes[19] = n;
    Id(bytes)
}

fn entry(publisher: Id, data: &[u8]) -> TopicEntry {
    TopicEntry { publisher, data: data.to_vec() }
}

#[test]
fn insert_replaces_the_value_of_the_publisher() {
    let mut storage = Storage::new(StorageConfig::default());
    assert_eq!(storage.insert_at(0, id(1), id(7), 10, vec![1]), Ok(()));
    assert_eq!(storage.insert_at(0, id(1), id(8), 10, vec![2]), Ok(()));
    assert_eq!(storage.insert_at(5, id(1), id(7), 20, vec![3]), Ok(()));
    assert_eq!(storage.insert_at(6, id(1), id(7), 30, vec![4, 4]), Ok(()));
    assert_eq!(
        storage.get(id(1)),
        Some(&vec![entry(id(8), &[2]), entry(id(7), &[4, 4])])
    );
    assert_eq!(storage.entry_count(), 2);
    assert_eq!(storage.get(id(2)), None);
}

#[test]
fn expiry() {
    let mut storage = Storage::new(StorageConfig::default());
    let topic = id(1);
    assert_eq!(storage.insert_at(100, topic, id(7), 1, vec![9]), Ok(()));
    storage.periodic_run_at(100 + NANOS_PER_SEC - 1);
    assert_eq!(storage.get(topic), Some(&vec![entry(id(7), &[9])]));
    storage.periodic_run_at(100 + NANOS_PER_SEC);
    assert_eq!(storage.get(topic), None);
    assert_eq!(storage.entry_count(), 0);
}

#[test]
fn expiry_keeps_what_lives_longer() {
    let mut storage = Storage::new(StorageConfig::default());
    assert_eq!(storage.insert_at(0, id(1), id(7), 3, vec![1]), Ok(()));
    assert_eq!(storage.insert_at(0, id(1), id(8), 1, vec![2]), Ok(()));
    assert_eq!(storage.insert_at(0, id(2), id(8), 2, vec![3]), Ok(()));
    assert_eq!(storage.insert_at(0, id(1), id(9), 5, vec![4]), Ok(()));
    storage.periodic_run_at(2 * NANOS_PER_SEC);
    assert_eq!(
        storage.get(id(1)),
        Some(&vec![entry(id(7), &[1]), entry(id(9), &[4])])
    );
    assert_eq!(storage.get(id(2)), None);
    assert_eq!(storage.entry_count(), 2);
}

#[test]
fn storage_errors() {
    let config = StorageConfig { max_size: 2, max_lifetime: 10, max_entries: 2 };
    let mut storage = Storage::new(config);
    assert_eq!(storage.insert_at(0, id(1), id(7), 1, vec![1, 2, 3]), Err(Error::InvalidData));
    assert_eq!(storage.insert_at(0, id(1), id(7), 11, vec![1]), Err(Error::InvalidLifetime));
    assert_eq!(storage.insert_at(u128::MAX, id(1), id(7), 1, vec![1]), Err(Error::InvalidLifetime));
    assert_eq!(storage.insert_at(u128::MAX, id(1), id(7), 0, vec![1]), Ok(()));
    assert_eq!(storage.insert_at(0, id(1), id(8), 10, vec![1, 2]), Ok(()));
    assert_eq!(storage.insert_at(0, id(2), id(8), 1, vec![]), Err(Error::TooManyEntries));
    // replacing a value needs no room
    assert_eq!(storage.insert_at(0, id(1), id(8), 1, vec![5]), Ok(()));
    assert_eq!(storage.entry_count(), 2);
    assert_eq!(
        Storage::check_entry(&config, id(1), id(2), 10, &[0, 0]),
        Ok(())
    );
    assert_eq!(
        Storage::check_entry(&config, id(1), id(2), 11, &[0, 0, 0]),
        Err(Error::InvalidData)
    );
    assert_eq!(Error::TooManyEntries.message(), "Too many entries stored");
    assert_eq!(Error::InvalidLifetime.message(), "Invalid data lifetime");
    assert_eq!(Error::InvalidData.message(), "Invalid data");
}

#[test]
fn remove_is_idempotent_and_drops_empty_topics() {
    let mut storage = Storage::new(StorageConfig::default());
    assert_eq!(storage.insert_at(0, id(1), id(7), 1, vec![1]), Ok(()));
    assert_eq!(storage.insert_at(0, id(1), id(8), 1, vec![2]), Ok(()));
    storage.remove(id(1), id(7));
    storage.remove(id(1), id(7));
    assert_eq!(storage.get(id(1)), Some(&vec![entry(id(8), &[2])]));
    storage.remove(id(1), id(8));
    assert_eq!(storage.get(id(1)), None);
    assert_eq!(storage.entry_count(), 0);
    // nothing is left to expire
    storage.periodic_run_at(u128::MAX);
    assert_eq!(storage.entry_count(), 0);
}

#[test]
fn storage_runs_on_the_clock() {
    let mut storage = Storage::new(StorageConfig::default());
    assert_eq!(storage.insert(id(1), id(7), 0, vec![1]), Ok(()));
    assert_eq!(storage.insert(id(2), id(7), 3600, vec![2]), Ok(()));
    assert_eq!(storage.entry_count(), 2);
    let before = storage.now();
    storage.periodic_run();
    assert!(storage.now() >= before);
    assert_eq!(storage.get(id(1)), None);
    assert_eq!(storage.get(id(2)), Some(&vec![entry(id(7), &[2])]));
}
