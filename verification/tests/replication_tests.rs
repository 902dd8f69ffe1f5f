use bifrost::log_server::{LogletStore, StoreStatus};
use bifrost::loglet::TailState;
use bifrost::nodes::GenerationalNodeId;
use bifrost::params::{ParamsError, ReplicatedLogletParams};
use bifrost::provider::{ReplicatedLoglet, ReplicatedLogletProvider, SequencerAccess};
use bifrost::loglet::AppendError;
use bifrost::record::{Keys, Record};
use bifrost::remote::{find_hole, find_tail_from_reports, sealed_tail_from_reports, TailReport};
use bifrost::sequencer::{plan_spread, SelectorStrategy, SequencerState};

fn rec(payload: &[u8]) -> Record {
    Record::new(payload.to_vec(), Keys::Empty, 0)
}

#[test]
fn sequencer_assigns_contiguous_offsets() {
    let mut seq = SequencerState::new(vec![1], 1);
    let first = seq.enqueue_batch(3).unwrap();
    assert_eq!(first, 1);
    let second = seq.enqueue_batch(2).unwrap();
    assert_eq!(second, 4);
    assert_eq!(seq.next_offset(), 6);
}

#[test]
fn sequencer_contiguous_commit() {
    // Submit offsets 1..=10; commits for 1..=4 and 6..=10 arrive before 5.
    let mut seq = SequencerState::new(vec![1], 1);
    seq.enqueue_batch(10).unwrap();
    for offset in 1..=4u32 {
        seq.on_store_ack(1, offset);
    }
    for offset in 6..=10u32 {
        seq.on_store_ack(1, offset);
    }
    assert_eq!(seq.known_global_tail, 5);
    seq.on_store_ack(1, 5);
    assert_eq!(seq.known_global_tail, 11);
}

#[test]
fn sequencer_needs_a_quorum_per_offset() {
    let mut seq = SequencerState::new(vec![1, 2, 3], 2);
    seq.enqueue_batch(1).unwrap();
    seq.on_store_ack(1, 1);
    assert_eq!(seq.known_global_tail, 1);
    // A repeated ack from the same node does not count twice.
    seq.on_store_ack(1, 1);
    assert_eq!(seq.known_global_tail, 1);
    // An ack from outside the node set does not count at all.
    seq.on_store_ack(9, 1);
    assert_eq!(seq.known_global_tail, 1);
    seq.on_store_ack(3, 1);
    assert_eq!(seq.known_global_tail, 2);
}

#[test]
fn sealed_sequencer_refuses_appends() {
    let mut seq = SequencerState::new(vec![1], 1);
    seq.enqueue_batch(1).unwrap();
    seq.seal();
    assert!(seq.enqueue_batch(1).is_err());
    // Sealing twice has the same effect as once.
    let before = seq.known_global_tail;
    seq.seal();
    assert!(seq.enqueue_batch(1).is_err());
    assert_eq!(seq.known_global_tail, before);
}

#[test]
fn replicated_quorum_survives_one_dead_node() {
    // Three copies over four log servers; node 2 dies mid-append.
    let nodes: Vec<u32> = vec![1, 2, 3, 4];
    let mut seq = SequencerState::new(nodes.clone(), 3);
    let mut stores = vec![
        LogletStore::new(),
        LogletStore::new(),
        LogletStore::new(),
        LogletStore::new(),
    ];
    let first = seq.enqueue_batch(1).unwrap();
    assert_eq!(first, 1);
    let spread = plan_spread(SelectorStrategy::Flood, &nodes, 3, 0);
    for &node in spread.iter() {
        if node == 2 {
            continue; // killed mid-append
        }
        let status = stores[(node - 1) as usize].store(first, vec![rec(b"r")], None);
        assert_eq!(status, StoreStatus::Stored);
        seq.on_store_ack(node, first);
    }
    // Three acks satisfied the policy and the global tail advanced.
    assert_eq!(seq.known_global_tail, 2);
    // The surviving node's restart sees the same local tail again.
    let before_restart = stores[0].load_loglet_state().local_tail();
    let state = stores[0].load_loglet_state();
    assert_eq!(state.local_tail(), before_restart);
    assert_eq!(state.local_tail(), 2);
}

#[test]
fn replicated_seal_reconciliation() {
    // Three log servers got different prefixes: local tails 100, 102, 101.
    let tails: [u32; 3] = [100, 102, 101];
    let mut stores: Vec<LogletStore> = Vec::new();
    let mut reports: Vec<TailReport> = Vec::new();
    for &tail in tails.iter() {
        let mut store = LogletStore::new();
        let records: Vec<Record> = (1..tail).map(|_| rec(b"copy")).collect();
        store.store(1, records, None);
        store.seal();
        let state = store.load_loglet_state();
        reports.push(TailReport { local_tail: state.local_tail(), sealed: state.is_sealed() });
        stores.push(store);
    }
    // The sealed tail is the maximum any quorum member reported.
    assert_eq!(sealed_tail_from_reports(&reports), 102);
    assert_eq!(find_tail_from_reports(&reports), TailState::Sealed(102));
    // A later read at offset 101 succeeds against the node that holds it.
    let msg = bifrost::log_server::GetRecords {
        from_offset: 101,
        to_offset: 101,
        filter: bifrost::record::KeyFilter::Any,
        total_limit_in_bytes: None,
    };
    let resp = stores[1].read_records(&msg);
    assert!(matches!(resp.records[0], (101, bifrost::log_server::MaybeRecord::Data(_))));
    // A read at the sealed tail itself finds nothing anywhere: the
    // stream terminates at the seal.
    for store in stores.iter() {
        let resp = store.read_records(&bifrost::log_server::GetRecords {
            from_offset: 102,
            to_offset: 102,
            filter: bifrost::record::KeyFilter::Any,
            total_limit_in_bytes: None,
        });
        assert!(resp.records.is_empty());
        assert!(resp.header.sealed);
    }
}

#[test]
fn find_tail_open_quorum_projects_the_minimum() {
    let reports = vec![
        TailReport { local_tail: 7, sealed: false },
        TailReport { local_tail: 9, sealed: false },
    ];
    assert_eq!(find_tail_from_reports(&reports), TailState::Open(7));
}

#[test]
fn find_tail_seal_wins_over_open() {
    let reports = vec![
        TailReport { local_tail: 7, sealed: false },
        TailReport { local_tail: 5, sealed: true },
    ];
    assert_eq!(find_tail_from_reports(&reports), TailState::Sealed(7));
}

#[test]
fn flood_spread_targets_every_node() {
    let nodes: Vec<u32> = vec![4, 7, 9];
    let spread = plan_spread(SelectorStrategy::Flood, &nodes, 2, 0);
    assert_eq!(spread, nodes);
}

#[test]
fn balanced_spread_rotates_with_the_attempt() {
    let nodes: Vec<u32> = vec![1, 2, 3, 4];
    let first = plan_spread(SelectorStrategy::Balanced, &nodes, 2, 0);
    assert_eq!(first, vec![1, 2]);
    let retry = plan_spread(SelectorStrategy::Balanced, &nodes, 2, 2);
    assert_eq!(retry, vec![3, 4]);
    let wrapped = plan_spread(SelectorStrategy::Balanced, &nodes, 2, 3);
    assert_eq!(wrapped, vec![4, 1]);
}

#[test]
fn back_pressure_bound_tracks_the_window() {
    let mut seq = SequencerState::new(vec![1], 1);
    seq.enqueue_batch(5).unwrap();
    assert!(!seq.within_pressure_limit(4));
    for offset in 1..=5u32 {
        seq.on_store_ack(1, offset);
    }
    assert!(seq.within_pressure_limit(4));
}

#[test]
fn params_accept_a_sound_document() {
    let text = r#"{"loglet_id": 7, "sequencer": {"id": 1, "generation": 2},
                   "replication_factor": 2, "node_set": [1, 2, 3]}"#;
    let p = ReplicatedLogletParams::deserialize_from(text).unwrap();
    assert_eq!(p.loglet_id, 7);
    assert_eq!(p.sequencer, GenerationalNodeId::new(1, 2));
    assert_eq!(p.replication_factor, 2);
    assert_eq!(p.node_set, vec![1, 2, 3]);
}

#[test]
fn params_reject_bad_documents() {
    assert_eq!(
        ReplicatedLogletParams::deserialize_from("not json"),
        Err(ParamsError::Malformed)
    );
    assert_eq!(
        ReplicatedLogletParams::deserialize_from(r#"{"loglet_id": 1}"#),
        Err(ParamsError::Malformed)
    );
    let unsatisfiable = r#"{"loglet_id": 1, "sequencer": {"id": 1, "generation": 1},
                            "replication_factor": 5, "node_set": [1, 2]}"#;
    assert_eq!(
        ReplicatedLogletParams::deserialize_from(unsatisfiable),
        Err(ParamsError::InvalidReplication)
    );
    let duplicated = r#"{"loglet_id": 1, "sequencer": {"id": 1, "generation": 1},
                         "replication_factor": 1, "node_set": [2, 2]}"#;
    assert_eq!(
        ReplicatedLogletParams::deserialize_from(duplicated),
        Err(ParamsError::InvalidReplication)
    );
    let oversized = r#"{"loglet_id": 1, "sequencer": {"id": 5000000000, "generation": 1},
                        "replication_factor": 1, "node_set": [1]}"#;
    assert_eq!(
        ReplicatedLogletParams::deserialize_from(oversized),
        Err(ParamsError::OutOfRange)
    );
}

#[test]
fn the_named_sequencer_node_runs_it_locally() {
    let params = ReplicatedLogletParams {
        loglet_id: 1,
        sequencer: GenerationalNodeId::new(1, 1),
        replication_factor: 1,
        node_set: vec![1, 2],
    };
    let local = ReplicatedLoglet::start(0, 0, params.clone(), GenerationalNodeId::new(1, 1));
    assert!(matches!(local.sequencer, SequencerAccess::Local { .. }));
    let remote = ReplicatedLoglet::start(0, 0, params, GenerationalNodeId::new(2, 1));
    assert!(matches!(remote.sequencer, SequencerAccess::Remote));
    assert_eq!(remote.find_tail(), TailState::Open(1));
}

#[test]
fn sealed_local_sequencer_refuses_with_sealed() {
    let params = ReplicatedLogletParams {
        loglet_id: 1,
        sequencer: GenerationalNodeId::new(1, 1),
        replication_factor: 1,
        node_set: vec![1],
    };
    let mut local = ReplicatedLoglet::start(0, 0, params, GenerationalNodeId::new(1, 1));
    assert_eq!(local.enqueue_batch(2), Ok(1));
    match &mut local.sequencer {
        SequencerAccess::Local { handle } => handle.seal(),
        SequencerAccess::Remote => unreachable!(),
    }
    assert_eq!(local.enqueue_batch(1), Err(AppendError::Sealed));
    assert_eq!(local.find_tail(), TailState::Sealed(1));
}

#[test]
fn a_node_without_the_sequencer_cannot_append_itself() {
    let params = ReplicatedLogletParams {
        loglet_id: 1,
        sequencer: GenerationalNodeId::new(1, 1),
        replication_factor: 1,
        node_set: vec![1, 2],
    };
    let mut remote = ReplicatedLoglet::start(0, 0, params, GenerationalNodeId::new(2, 1));
    assert_eq!(remote.enqueue_batch(1), Err(AppendError::Shutdown));
}

#[test]
fn holes_in_a_read_response_are_detected() {
    // Serve offsets 1 and 5 from a store that has no copies of 2..=4.
    let mut store = LogletStore::new();
    store.store(1, vec![rec(b"a")], None);
    store.store(5, vec![rec(b"e")], None);
    let resp = store.read_records(&bifrost::log_server::GetRecords {
        from_offset: 1,
        to_offset: u32::MAX - 1,
        filter: bifrost::record::KeyFilter::Any,
        total_limit_in_bytes: None,
    });
    assert_eq!(find_hole(&resp.records, 1, resp.next_offset), Some(2));
    // A contiguous store leaves no hole to fail over for.
    let mut full = LogletStore::new();
    full.store(1, vec![rec(b"a"), rec(b"b")], None);
    let resp = full.read_records(&bifrost::log_server::GetRecords {
        from_offset: 1,
        to_offset: u32::MAX - 1,
        filter: bifrost::record::KeyFilter::Any,
        total_limit_in_bytes: None,
    });
    assert_eq!(find_hole(&resp.records, 1, resp.next_offset), None);
}

#[test]
fn provider_registry_reuses_active_loglets() {
    let mut provider = ReplicatedLogletProvider::new(GenerationalNodeId::new(1, 1));
    let params = bifrost::chain::LogletParams::new(
        r#"{"loglet_id": 9, "sequencer": {"id": 1, "generation": 1},
            "replication_factor": 1, "node_set": [1]}"#
            .to_owned(),
    );
    let first = provider.get_loglet(3, 0, &params).unwrap();
    let again = provider.get_loglet(3, 0, &params).unwrap();
    assert_eq!(first, again);
    assert_eq!(provider.active_loglets.len(), 1);
    let bad = bifrost::chain::LogletParams::new("nope".to_owned());
    assert_eq!(provider.get_loglet(4, 0, &bad), Err(ParamsError::Malformed));
    assert_eq!(provider.active_loglets.len(), 1);
}
