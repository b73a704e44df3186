use seglog::config::validate_cache_config;
use seglog::config::validate_segment_config;
use seglog::error::Error;
use seglog::consumer::PollingConsumer;
use seglog::memory_storage::InMemoryStorage;
use seglog::partition_offsets::PartitionOffsets;

#[test]
fn consumer_offset_validation() {
    let mut storage = InMemoryStorage::new();
    let mut partition = PartitionOffsets::create(1, 1, 1, 7);

    assert_eq!(
        partition.store_consumer_offset(&mut storage, PollingConsumer::Consumer(1, 1), 8),
        Err(Error::InvalidOffset(8))
    );
    assert_eq!(
        partition.store_consumer_offset(&mut storage, PollingConsumer::Consumer(1, 1), 7),
        Ok(())
    );
    assert_eq!(
        partition.get_consumer_offset(PollingConsumer::Consumer(1, 1)),
        Ok(7)
    );
    assert_eq!(
        partition.get_consumer_offset(PollingConsumer::Consumer(2, 1)),
        Ok(0)
    );
}

#[test]
fn consumer_and_group_cursors_are_separate() {
    let mut storage = InMemoryStorage::new();
    let mut partition = PartitionOffsets::create(1, 1, 1, 10);

    partition
        .store_consumer_offset(&mut storage, PollingConsumer::Consumer(5, 1), 3)
        .unwrap();
    partition
        .store_consumer_offset(&mut storage, PollingConsumer::ConsumerGroup(5, 1), 9)
        .unwrap();
    assert_eq!(
        partition.get_consumer_offset(PollingConsumer::Consumer(5, 1)),
        Ok(3)
    );
    assert_eq!(
        partition.get_consumer_offset(PollingConsumer::ConsumerGroup(5, 1)),
        Ok(9)
    );

    partition
        .store_consumer_offset(&mut storage, PollingConsumer::Consumer(5, 1), 4)
        .unwrap();
    assert_eq!(
        partition.get_consumer_offset(PollingConsumer::Consumer(5, 1)),
        Ok(4)
    );
    assert_eq!(
        partition.get_consumer_offset(PollingConsumer::ConsumerGroup(5, 1)),
        Ok(9)
    );
}

#[test]
fn consumer_offsets_survive_restart() {
    let mut storage = InMemoryStorage::new();
    let mut partition = PartitionOffsets::create(2, 3, 4, 20);
    partition
        .store_consumer_offset(&mut storage, PollingConsumer::Consumer(1, 4), 11)
        .unwrap();
    partition
        .store_consumer_offset(&mut storage, PollingConsumer::Consumer(2, 4), 15)
        .unwrap();
    partition
        .store_consumer_offset(&mut storage, PollingConsumer::Consumer(1, 4), 12)
        .unwrap();
    partition
        .store_consumer_offset(&mut storage, PollingConsumer::ConsumerGroup(9, 4), 20)
        .unwrap();

    let mut reloaded = PartitionOffsets::create(2, 3, 4, 20);
    reloaded.load_consumer_offsets(&storage).unwrap();
    assert_eq!(
        reloaded.get_consumer_offset(PollingConsumer::Consumer(1, 4)),
        Ok(12)
    );
    assert_eq!(
        reloaded.get_consumer_offset(PollingConsumer::Consumer(2, 4)),
        Ok(15)
    );
    assert_eq!(
        reloaded.get_consumer_offset(PollingConsumer::ConsumerGroup(9, 4)),
        Ok(20)
    );
    assert_eq!(
        reloaded.get_consumer_offset(PollingConsumer::Consumer(3, 4)),
        Ok(0)
    );
}

#[test]
fn config_validation_bounds() {
    assert_eq!(validate_segment_config(1000, 1024), Ok(()));
    assert_eq!(validate_segment_config(1024, 1024), Ok(()));
    assert_eq!(
        validate_segment_config(1025, 1024),
        Err(Error::InvalidConfiguration)
    );

    assert_eq!(validate_cache_config(512, 1024), Ok(()));
    assert_eq!(validate_cache_config(1024, 1024), Ok(()));
    assert_eq!(
        validate_cache_config(2048, 1024),
        Err(Error::CacheConfigValidationFailure(2048, 1024))
    );
}
