use bifrost::log_server::{GetRecords, LogletStore, MaybeRecord, StoreStatus};
use bifrost::log_state::{
    apply_log_state_update, log_state_full_merge, LogState, LogStateUpdate,
};
use bifrost::nodes::GenerationalNodeId;
use bifrost::record::{KeyFilter, Keys, Record};

fn rec(payload: &[u8]) -> Record {
    Record::new(payload.to_vec(), Keys::Empty, 0)
}

fn keyed(payload: &[u8], key: u64) -> Record {
    Record::new(payload.to_vec(), Keys::Single(key), 0)
}

#[test]
fn fresh_store_reports_oldest_tail() {
    let store = LogletStore::new();
    let state = store.load_loglet_state();
    assert!(!state.is_sealed());
    assert_eq!(state.local_tail(), 1);
    assert_eq!(state.trim_point(), 0);
    assert!(state.sequencer().is_none());
}

#[test]
fn store_at_oldest_advances_tail() {
    let mut store = LogletStore::new();
    let status = store.store(1, vec![rec(b"a sample record")], None);
    assert_eq!(status, StoreStatus::Stored);
    let state = store.load_loglet_state();
    assert!(!state.is_sealed());
    assert_eq!(state.local_tail(), 2);
    assert_eq!(state.trim_point(), 0);
    assert!(state.sequencer().is_none());
}

#[test]
fn store_near_end_of_range_and_sequencer_is_write_once() {
    let mut store = LogletStore::new();
    let seq1 = GenerationalNodeId::new(5, 213);
    let seq2 = GenerationalNodeId::new(2, 212);
    store.store(1, vec![rec(b"a")], Some(seq1));
    store.store(u32::MAX - 1, vec![rec(b"z")], Some(seq2));
    let state = store.load_loglet_state();
    assert_eq!(state.local_tail(), u32::MAX);
    // The first sequencer to claim the loglet keeps it.
    assert_eq!(state.sequencer(), Some(seq1));
}

#[test]
fn adjacent_loglets_have_separate_state() {
    let mut a = LogletStore::new();
    let mut b = LogletStore::new();
    a.store(1, vec![rec(b"a")], Some(GenerationalNodeId::new(5, 213)));
    b.store(1, vec![rec(b"b")], Some(GenerationalNodeId::new(2, 212)));
    assert_eq!(a.load_loglet_state().local_tail(), 2);
    assert_eq!(b.load_loglet_state().local_tail(), 2);
    assert_eq!(
        a.load_loglet_state().sequencer(),
        Some(GenerationalNodeId::new(5, 213))
    );
    assert_eq!(
        b.load_loglet_state().sequencer(),
        Some(GenerationalNodeId::new(2, 212))
    );
}

#[test]
fn sealed_store_refuses_writes() {
    let mut store = LogletStore::new();
    store.store(1, vec![rec(b"a")], None);
    store.seal();
    let status = store.store(2, vec![rec(b"b")], None);
    assert_eq!(status, StoreStatus::Sealed);
    assert_eq!(store.load_loglet_state().local_tail(), 2);
}

#[test]
fn trim_then_read_yields_leading_trim_gap() {
    let mut store = LogletStore::new();
    let payloads: Vec<Record> = (0..10).map(|i| rec(format!("r{}", i).as_bytes())).collect();
    store.store(1, payloads, None);
    store.trim(5);
    let resp = store.read_records(&GetRecords {
        from_offset: 1,
        to_offset: u32::MAX - 1,
        filter: KeyFilter::Any,
        total_limit_in_bytes: None,
    });
    assert_eq!(resp.header.local_tail, 11);
    assert_eq!(resp.records.len(), 6);
    match &resp.records[0] {
        (1, MaybeRecord::TrimGap(gap)) => assert_eq!(gap.to, 5),
        other => panic!("expected a trim gap, got {:?}", other),
    }
    for (i, entry) in resp.records.iter().skip(1).enumerate() {
        match entry {
            (o, MaybeRecord::Data(data)) => {
                assert_eq!(*o as usize, 6 + i);
                assert_eq!(data.payload, format!("r{}", 5 + i).into_bytes());
            }
            other => panic!("expected data, got {:?}", other),
        }
    }
    assert_eq!(resp.next_offset, 11);
}

#[test]
fn trim_clips_to_last_record_and_is_idempotent() {
    let mut store = LogletStore::new();
    let payloads: Vec<Record> = (0..10).map(|i| rec(format!("r{}", i).as_bytes())).collect();
    store.store(1, payloads, None);
    store.trim(u32::MAX);
    assert_eq!(store.load_loglet_state().trim_point(), 10);
    assert_eq!(store.load_loglet_state().local_tail(), 11);
    // Trimming lower afterwards is a no-op.
    store.trim(4);
    assert_eq!(store.load_loglet_state().trim_point(), 10);
}

#[test]
fn filtered_records_surface_as_filtered_gaps() {
    let mut store = LogletStore::new();
    store.store(1, vec![keyed(b"a", 1), keyed(b"b", 2), keyed(b"c", 1)], None);
    let resp = store.read_records(&GetRecords {
        from_offset: 1,
        to_offset: u32::MAX - 1,
        filter: KeyFilter::Include(1),
        total_limit_in_bytes: None,
    });
    assert_eq!(resp.records.len(), 3);
    assert!(matches!(resp.records[0], (1, MaybeRecord::Data(_))));
    assert!(matches!(resp.records[1], (2, MaybeRecord::FilteredGap(_))));
    assert!(matches!(resp.records[2], (3, MaybeRecord::Data(_))));
}

#[test]
fn read_budget_stops_after_first_record() {
    let mut store = LogletStore::new();
    store.store(1, vec![rec(b"0123456789"), rec(b"0123456789")], None);
    let resp = store.read_records(&GetRecords {
        from_offset: 1,
        to_offset: u32::MAX - 1,
        filter: KeyFilter::Any,
        // Room for one record (10 bytes payload + 10 overhead), not two.
        total_limit_in_bytes: Some(25),
    });
    assert_eq!(resp.records.len(), 1);
    assert!(matches!(resp.records[0], (1, MaybeRecord::Data(_))));
    assert_eq!(resp.next_offset, 2);
}

#[test]
fn stores_may_leave_holes() {
    let mut store = LogletStore::new();
    store.store(1, vec![rec(b"a")], None);
    store.store(5, vec![rec(b"e")], None);
    assert_eq!(store.load_loglet_state().local_tail(), 6);
    let resp = store.read_records(&GetRecords {
        from_offset: 1,
        to_offset: u32::MAX - 1,
        filter: KeyFilter::Any,
        total_limit_in_bytes: None,
    });
    // The missing offsets have no marker: this server has no copy.
    assert_eq!(resp.records.len(), 2);
    assert!(matches!(resp.records[0], (1, MaybeRecord::Data(_))));
    assert!(matches!(resp.records[1], (5, MaybeRecord::Data(_))));
}

#[test]
fn merge_takes_larger_trim_point_and_sticky_seal() {
    let s0 = LogState::empty();
    let s1 = apply_log_state_update(s0, LogStateUpdate::Trim(5));
    let s2 = apply_log_state_update(s1, LogStateUpdate::Trim(3));
    assert_eq!(s2.trim_point, 5);
    let s3 = apply_log_state_update(s2, LogStateUpdate::Seal);
    let s4 = apply_log_state_update(s3, LogStateUpdate::Seal);
    assert!(s4.sealed);
    assert_eq!(s3, s4);
}

#[test]
fn merge_keeps_first_sequencer() {
    let n1 = GenerationalNodeId::new(1, 1);
    let n2 = GenerationalNodeId::new(2, 1);
    let merged = log_state_full_merge(
        None,
        &vec![
            LogStateUpdate::SetSequencer(n1),
            LogStateUpdate::SetSequencer(n2),
            LogStateUpdate::Trim(9),
        ],
    );
    assert_eq!(merged.sequencer, Some(n1));
    assert_eq!(merged.trim_point, 9);
    assert!(!merged.sealed);
}

#[test]
fn log_state_and_updates_round_trip_through_bytes() {
    let n = GenerationalNodeId::new(3, 8);
    for update in [
        LogStateUpdate::SetSequencer(n),
        LogStateUpdate::Seal,
        LogStateUpdate::Trim(77),
    ] {
        let bytes = update.to_bytes();
        assert_eq!(LogStateUpdate::from_slice(&bytes), Some(update));
    }
    assert_eq!(LogStateUpdate::from_slice(&[9, 9]), None);

    let state = LogState {
        sealed: true,
        trim_point: 41,
        sequencer: Some(n),
    };
    let bytes = state.to_bytes();
    assert_eq!(LogState::from_slice(&bytes), Some(state));
}
