use seglog::batch::MessagesBatch;
use seglog::delete_partitions::DeletePartitions;
use seglog::identifier::Identifier;
use seglog::memory_storage::InMemoryStorage;
use seglog::message::Message;
use seglog::message::MessageState;
use seglog::segment::Segment;

#[test]
fn should_be_serialized_as_bytes() {
    let command = DeletePartitions {
        stream_id: Identifier::numeric(1).unwrap(),
        topic_id: Identifier::numeric(2).unwrap(),
        partitions_count: 3,
    };

    let bytes = command.as_bytes();
    let mut position = 0;
    let stream_id = Identifier::from_bytes(&bytes).unwrap();
    position += stream_id.get_size_bytes() as usize;
    let topic_id = Identifier::from_bytes(&bytes[position..]).unwrap();
    position += topic_id.get_size_bytes() as usize;
    let partitions_count =
        u32::from_le_bytes(bytes[position..position + 4].try_into().unwrap());

    assert!(!bytes.is_empty());
    assert_eq!(stream_id, command.stream_id);
    assert_eq!(topic_id, command.topic_id);
    assert_eq!(partitions_count, command.partitions_count);
}

#[test]
fn should_be_deserialized_from_bytes() {
    let stream_id = Identifier::numeric(1).unwrap();
    let topic_id = Identifier::numeric(2).unwrap();
    let partitions_count = 3u32;
    let stream_id_bytes = stream_id.as_bytes();
    let topic_id_bytes = topic_id.as_bytes();
    let mut bytes = Vec::with_capacity(4 + stream_id_bytes.len() + topic_id_bytes.len());
    bytes.extend(stream_id_bytes);
    bytes.extend(topic_id_bytes);
    bytes.extend(partitions_count.to_le_bytes());
    let command = DeletePartitions::from_bytes(&bytes);
    assert!(command.is_ok());

    let command = command.unwrap();
    assert_eq!(command.stream_id, stream_id);
    assert_eq!(command.topic_id, topic_id);
    assert_eq!(command.partitions_count, partitions_count);
}

#[test]
fn should_be_read_from_string() {
    let stream_id = Identifier::numeric(1).unwrap();
    let topic_id = Identifier::numeric(2).unwrap();
    let partitions_count = 3u32;
    let input = format!("{}|{}|{}", 1, 2, partitions_count);
    let command = DeletePartitions::from_str(&input);
    assert!(command.is_ok());

    let command = command.unwrap();
    assert_eq!(command.stream_id, stream_id);
    assert_eq!(command.topic_id, topic_id);
    assert_eq!(command.partitions_count, partitions_count);
}

#[test]
fn delete_partitions_framing_and_text_agree() {
    let bytes: Vec<u8> = vec![0x02, 0x01, 0x01, 0x02, 0x01, 0x02, 0x03, 0x00, 0x00, 0x00];
    let from_bytes = DeletePartitions::from_bytes(&bytes).unwrap();
    assert_eq!(from_bytes.stream_id, Identifier::Numeric(1));
    assert_eq!(from_bytes.topic_id, Identifier::Numeric(2));
    assert_eq!(from_bytes.partitions_count, 3);
    let from_text = DeletePartitions::from_str("1|2|3").unwrap();
    assert_eq!(from_text, from_bytes);
}

#[test]
fn numeric_fields_accept_a_leading_plus_sign() {
    let command = DeletePartitions::from_str("+1|2|+3").unwrap();
    assert_eq!(command.stream_id, Identifier::Numeric(1));
    assert_eq!(command.topic_id, Identifier::Numeric(2));
    assert_eq!(command.partitions_count, 3);
    assert!(DeletePartitions::from_str("+|2|3").is_err());
}

#[test]
fn delete_partitions_bounds_rejected() {
    assert_eq!(
        DeletePartitions::from_str("1|2|0"),
        Err(seglog::error::Error::TooManyPartitions)
    );
    assert_eq!(
        DeletePartitions::from_str("1|2|100001"),
        Err(seglog::error::Error::TooManyPartitions)
    );
}

#[test]
fn command_round_trips_both_ways() {
    let command = DeletePartitions {
        stream_id: Identifier::named(b"orders".to_vec()).unwrap(),
        topic_id: Identifier::numeric(7).unwrap(),
        partitions_count: 42,
    };
    let decoded = DeletePartitions::from_bytes(&command.as_bytes()).unwrap();
    assert_eq!(decoded, command);
    let text = command.to_text().unwrap();
    assert_eq!(text, "\"orders\"|7|42");
    let parsed = DeletePartitions::from_str(&text).unwrap();
    assert_eq!(parsed, command);
}

#[test]
fn segment_append_and_read_back() {
    let mut storage = InMemoryStorage::new();
    let mut segment = Segment::create(1, 1, 1, 0, 1024, None, true, true);
    let mut messages = Vec::new();
    for offset in 0..5u64 {
        let mut m = Message::create(
            offset as u128 + 1,
            MessageState::Available,
            1_000 + offset,
            0,
            None,
            format!("message {}", offset).into_bytes(),
        )
        .unwrap();
        m.offset = offset;
        messages.push(m);
    }
    let batch = MessagesBatch::messages_to_batch(0, 4, messages);
    let length = batch.get_size_bytes();
    segment.append_messages(batch, 4).unwrap();
    assert_eq!(segment.get_messages_count(), 5);
    assert_eq!(segment.current_offset, 4);
    assert_eq!(segment.current_size_bytes, length);

    let read = segment.get_messages(&storage, 1, 3).unwrap();
    let offsets: Vec<u64> = read.iter().map(|m| m.offset).collect();
    assert_eq!(offsets, vec![1, 2, 3]);

    segment.persist_messages(&mut storage, 0).unwrap();
    assert!(!segment.is_closed);
    let read_again = segment.get_messages(&storage, 0, 10).unwrap();
    assert_eq!(read_again.len(), 5);
    assert_eq!(read_again[4].offset, 4);
}
