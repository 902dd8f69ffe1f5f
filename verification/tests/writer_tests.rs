use bifrost::log_server::LogStoreMarker;
use bifrost::log_state::LogStateUpdate;
use bifrost::writer::{LogStoreWriter, Priority, WriteCommand};

#[test]
fn appends_and_metadata_ride_separate_tiers() {
    let mut writer = LogStoreWriter::new(10, 1000, true);
    let (t1, closed1) = writer.enqueue(
        WriteCommand::Store { first_offset: 1, values: vec![b"v".to_vec()] },
        1,
    );
    assert!(closed1.is_none());
    let (t2, closed2) = writer.enqueue(WriteCommand::Metadata(LogStateUpdate::Seal), 16);
    assert!(closed2.is_none());
    assert!(t2 > t1);
    // Draining each tier returns its own commands.
    let high = writer.drain(Priority::High).unwrap();
    assert_eq!(high.priority, Priority::High);
    assert_eq!(high.commands.len(), 1);
    assert_eq!(high.tokens, vec![t2]);
    assert!(high.flush_wal);
    let normal = writer.drain(Priority::Normal).unwrap();
    assert_eq!(normal.priority, Priority::Normal);
    assert_eq!(normal.tokens, vec![t1]);
    assert!(writer.drain(Priority::Normal).is_none());
}

#[test]
fn batch_closes_at_the_count_cap() {
    let mut writer = LogStoreWriter::new(3, 1000000, false);
    let mut tokens = Vec::new();
    for i in 0..2 {
        let (t, closed) = writer.enqueue(
            WriteCommand::Store { first_offset: i + 1, values: vec![b"v".to_vec()] },
            1,
        );
        tokens.push(t);
        assert!(closed.is_none());
    }
    let (t3, closed) = writer.enqueue(
        WriteCommand::Store { first_offset: 3, values: vec![b"v".to_vec()] },
        1,
    );
    tokens.push(t3);
    let batch = closed.expect("the third command fills the batch");
    assert_eq!(batch.commands.len(), 3);
    assert_eq!(batch.tokens, tokens);
    assert!(!batch.flush_wal);
    // The writer starts a fresh batch afterwards.
    assert!(writer.drain(Priority::Normal).is_none());
}

#[test]
fn batch_closes_at_the_byte_cap() {
    let mut writer = LogStoreWriter::new(100, 10, false);
    let (_, closed) = writer.enqueue(
        WriteCommand::Store { first_offset: 1, values: vec![b"123".to_vec()] },
        3,
    );
    assert!(closed.is_none());
    let (_, closed) = writer.enqueue(
        WriteCommand::Store { first_offset: 2, values: vec![b"4567890".to_vec()] },
        7,
    );
    let batch = closed.expect("ten bytes reach the cap");
    assert_eq!(batch.commands.len(), 2);
    assert_eq!(batch.bytes, 10);
}

#[test]
fn marker_round_trips_and_rejects_junk() {
    let marker = LogStoreMarker::new(111);
    let bytes = marker.to_bytes();
    assert_eq!(LogStoreMarker::from_slice(&bytes), Some(marker));
    let other = LogStoreMarker::new(999);
    assert_eq!(LogStoreMarker::from_slice(&other.to_bytes()), Some(other));
    assert_eq!(LogStoreMarker::from_slice(&[1, 2, 3]), None);
    assert_eq!(bifrost::log_server::marker_key(), vec![0, 109, 97, 114, 107, 101, 114]);
}
