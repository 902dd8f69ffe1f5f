use bifrost::cluster::{
    default_cluster_name, parse_controller_endpoint, parse_controller_location,
    ClusterControllerEndpoint, ClusterControllerLocation,
};
use bifrost::config::{MemoryOptions, Options};
use bifrost::file_loglet::FileLogletProvider;
use bifrost::node_protocol::{
    AttachementDetails, ClusterControllerMessage, ProtocolVersion, RequestId, RequestIdGenerator,
};
use bifrost::record::{Keys, Record};
use bifrost::record_cache::RecordCache;
use bifrost::storage_keys::{cf_name, KeyKind, ScanMode, TableKind};

#[test]
fn test_request_id() {
    let mut generator = RequestIdGenerator::new();
    let request_id1 = RequestId::new(&mut generator);
    let request_id2 = RequestId::new(&mut generator);
    let request_id3 = RequestId::new(&mut generator);
    assert!(request_id1.0 < request_id2.0 && request_id2.0 < request_id3.0);
}

#[test]
fn protocol_version_support_window() {
    assert!(ProtocolVersion::Flexbuffers.is_supported());
    assert!(!ProtocolVersion::Unspecified.is_supported());
}

#[test]
fn cluster_controller_messages_name_their_kind() {
    let mut generator = RequestIdGenerator::new();
    let msg = ClusterControllerMessage::Attach(AttachementDetails {
        request_id: RequestId::new(&mut generator),
    });
    assert_eq!(msg.kind(), "Attach");
}

#[test]
fn controller_location_parses_local_case_insensitively() {
    assert_eq!(parse_controller_location("local"), ClusterControllerLocation::Local);
    assert_eq!(parse_controller_location("LOCAL"), ClusterControllerLocation::Local);
    assert_eq!(
        parse_controller_location("10.0.0.1:9090"),
        ClusterControllerLocation::Remote("10.0.0.1:9090".to_owned())
    );
    let endpoint = parse_controller_endpoint("Local");
    assert_eq!(endpoint, ClusterControllerEndpoint::Local);
    assert_eq!(endpoint.into_location(), ClusterControllerLocation::Local);
    assert_eq!(default_cluster_name(), "local-cluster");
}

#[test]
fn memory_options_derive_storage_defaults() {
    let memory = MemoryOptions::default();
    assert_eq!(memory.limit, 3 * 1073741824);
    // Half the limit over ten tables of three column families each.
    assert_eq!(memory.write_buffer_size(), 53687091);
    assert_eq!(memory.cache_size(), 1073741824);
    // A tiny limit clamps to the floor; a huge one to the ceiling.
    assert_eq!(MemoryOptions { limit: 0 }.write_buffer_size(), 8 * 1048576);
    assert_eq!(
        MemoryOptions { limit: usize::MAX }.write_buffer_size(),
        256 * 1048576
    );
}

#[test]
fn table_kinds_own_their_key_kinds() {
    assert_eq!(TableKind::all().len(), 10);
    assert_eq!(cf_name(TableKind::Journal), "data-unpartitioned");
    assert_eq!(TableKind::Journal.key_kinds(), vec![KeyKind::Journal]);

    let (b0, b1) = KeyKind::Journal.as_bytes();
    let prefix = vec![b0, b1, 0, 0];
    assert!(TableKind::Journal.has_key_kind(&prefix));
    assert_eq!(TableKind::Journal.extract_key_kind(&prefix), Some(KeyKind::Journal));
    // Another table does not claim this prefix.
    assert!(!TableKind::State.has_key_kind(&prefix));
    // Unknown tags and short prefixes yield nothing.
    assert_eq!(TableKind::Journal.extract_key_kind(&[0xFF, 0xFF, 0]), None);
    assert_eq!(TableKind::Journal.extract_key_kind(&[b0]), None);
    assert_eq!(KeyKind::from_bytes(0xFF, 0xFF), None);
    let _ = ScanMode::WithinPrefix;
}

#[test]
fn record_cache_is_a_bounded_lru() {
    let mut cache = RecordCache::new(100);
    let a = Record::new(vec![0u8; 10], Keys::Empty, 0); // weight 32
    let b = Record::new(vec![1u8; 10], Keys::Empty, 0);
    let c = Record::new(vec![2u8; 10], Keys::Empty, 0);
    cache.add(1, 1, a.clone());
    cache.add(1, 2, b.clone());
    cache.add(1, 3, c.clone());
    assert_eq!(cache.get(1, 1).unwrap().payload, a.payload);
    assert_eq!(cache.get(1, 3).unwrap().payload, c.payload);
    // A fourth entry exceeds the budget: the oldest goes.
    let d = Record::new(vec![3u8; 10], Keys::Empty, 0);
    cache.add(1, 4, d.clone());
    assert!(cache.get(1, 1).is_none());
    assert_eq!(cache.get(1, 4).unwrap().payload, d.payload);
    // Re-adding a key replaces the entry rather than duplicating it.
    let b2 = Record::new(vec![9u8; 10], Keys::Empty, 0);
    cache.add(1, 2, b2.clone());
    assert_eq!(cache.get(1, 2).unwrap().payload, b2.payload);
}

#[test]
fn disabled_record_cache_stores_nothing() {
    let mut cache = RecordCache::new(0);
    cache.add(1, 1, Record::new(b"x".to_vec(), Keys::Empty, 0));
    assert!(cache.get(1, 1).is_none());
}

#[test]
fn record_cache_extends_runs_of_records() {
    let mut cache = RecordCache::new(1000);
    let records = vec![
        Record::new(b"a".to_vec(), Keys::Empty, 0),
        Record::new(b"b".to_vec(), Keys::Empty, 0),
    ];
    cache.extend(7, 5, &records);
    assert_eq!(cache.get(7, 5).unwrap().payload, b"a".to_vec());
    assert_eq!(cache.get(7, 6).unwrap().payload, b"b".to_vec());
    assert!(cache.get(7, 7).is_none());
}

#[test]
fn record_cache_extend_evicts_like_per_record_adds() {
    // Budget for two entries of weight 32; a run of three keeps the
    // last two, exactly as three adds would.
    let mut cache = RecordCache::new(64);
    let records = vec![
        Record::new(vec![0u8; 10], Keys::Empty, 0),
        Record::new(vec![1u8; 10], Keys::Empty, 0),
        Record::new(vec![2u8; 10], Keys::Empty, 0),
    ];
    cache.extend(3, 1, &records);
    assert!(cache.get(3, 1).is_none());
    assert_eq!(cache.get(3, 2).unwrap().payload, vec![1u8; 10]);
    assert_eq!(cache.get(3, 3).unwrap().payload, vec![2u8; 10]);
}

#[test]
fn file_loglet_provider_builds_from_options() {
    let provider = FileLogletProvider::new(&Options::default());
    let _ = provider;
}
