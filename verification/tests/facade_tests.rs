use bifrost::bifrost::{Bifrost, Error, ReadOutcome};
use bifrost::local_loglet::LocalLoglet;
use bifrost::loglet::{AppendError, TailState};
use bifrost::read_stream::{LogReadStream, LogRecord, Record as StreamRecord, TrimGap};
use bifrost::record::{Keys, Record};

fn rec(payload: &[u8]) -> Record {
    Record::new(payload.to_vec(), Keys::Empty, 0)
}

fn next_item(bifrost: &Bifrost, reader: &mut LogReadStream) -> LogRecord {
    match bifrost.read_next(reader) {
        ReadOutcome::Item(item) => item,
        other => panic!("expected a record, got {:?}", other),
    }
}

#[test]
fn basic_append_read() {
    let mut bifrost = Bifrost::new();
    bifrost.add_log(0);
    let mut reader = bifrost.create_reader(0, 0, u64::MAX).unwrap();
    assert_eq!(bifrost.find_tail(0).unwrap(), None);
    assert_eq!(reader.current_read_pointer(), 0);

    for payload in [b"a", b"b", b"c", b"d", b"e"] {
        bifrost.append(0, rec(payload)).unwrap();
    }
    for (i, payload) in [b"a", b"b", b"c", b"d", b"e"].iter().enumerate() {
        let item = next_item(&bifrost, &mut reader);
        assert_eq!(item.offset, (i + 1) as u64);
        assert_eq!(reader.current_read_pointer(), (i + 1) as u64);
        match item.record {
            StreamRecord::Data(data) => assert_eq!(data.payload, payload.to_vec()),
            other => panic!("expected data, got {:?}", other),
        }
    }
    // Nothing more yet: the reader parks.
    assert!(matches!(bifrost.read_next(&mut reader), ReadOutcome::Pending));

    for i in 6..=10u64 {
        let lsn = bifrost.append(0, rec(format!("record{}", i).as_bytes())).unwrap();
        assert_eq!(lsn, i);
    }
    for i in 6..=10u64 {
        let item = next_item(&bifrost, &mut reader);
        assert_eq!(item.offset, i);
    }
    assert!(matches!(bifrost.read_next(&mut reader), ReadOutcome::Pending));
    assert!(!reader.is_terminated());
}

#[test]
fn trim_then_read() {
    let mut bifrost = Bifrost::new();
    bifrost.add_log(0);
    assert_eq!(bifrost.get_trim_point(0).unwrap(), None);

    for i in 0..10u64 {
        bifrost.append(0, rec(format!("record{}", i).as_bytes())).unwrap();
    }
    bifrost.trim(0, 5).unwrap();
    assert_eq!(bifrost.find_tail(0).unwrap(), Some(10));
    assert_eq!(bifrost.get_trim_point(0).unwrap(), Some(5));

    let mut reader = bifrost.create_reader(0, 0, u64::MAX).unwrap();
    let first = next_item(&bifrost, &mut reader);
    assert_eq!(first.offset, 1);
    assert_eq!(first.record, StreamRecord::TrimGap(TrimGap { until: 5 }));
    for i in 6..=10u64 {
        let item = next_item(&bifrost, &mut reader);
        assert_eq!(item.offset, i);
        assert!(matches!(item.record, StreamRecord::Data(_)));
    }
    assert!(!reader.is_terminated());
    assert_eq!(reader.read_pointer(), 10);

    // Trimming beyond the tail clips to the last committed record.
    bifrost.trim(0, u64::MAX).unwrap();
    assert_eq!(bifrost.get_trim_point(0).unwrap(), Some(10));
}

#[test]
fn seal_during_append() {
    // Writer A's batch lands before the seal: the sealed tail covers it.
    let mut loglet = LocalLoglet::new();
    let first = loglet
        .enqueue_batch(vec![rec(b"a"), rec(b"b"), rec(b"c")])
        .unwrap();
    assert_eq!(first, 1);
    loglet.seal();
    assert_eq!(loglet.find_tail(), TailState::Sealed(4));

    // The seal lands first: the append fails and nothing of it is
    // readable.
    let mut sealed_first = LocalLoglet::new();
    sealed_first.seal();
    let r = sealed_first.enqueue_batch(vec![rec(b"x"), rec(b"y"), rec(b"z")]);
    assert_eq!(r, Err(AppendError::Sealed));
    assert_eq!(sealed_first.find_tail(), TailState::Sealed(1));
    let resp = sealed_first.read_records(&bifrost::log_server::GetRecords {
        from_offset: 1,
        to_offset: u32::MAX - 1,
        filter: bifrost::record::KeyFilter::Any,
        total_limit_in_bytes: None,
    });
    assert!(resp.records.is_empty());
}

#[test]
fn sealed_log_fails_appends_at_the_facade() {
    let mut bifrost = Bifrost::new();
    bifrost.add_log(0);
    bifrost.append(0, rec(b"a")).unwrap();
    bifrost.seal(0).unwrap();
    assert_eq!(bifrost.append(0, rec(b"b")), Err(Error::Sealed));
    assert_eq!(bifrost.find_tail(0).unwrap(), Some(1));
    // Sealing twice has the same effect as sealing once.
    bifrost.seal(0).unwrap();
    assert_eq!(bifrost.find_tail(0).unwrap(), Some(1));
}

#[test]
fn reader_terminates_at_until_and_on_sealed_end() {
    let mut bifrost = Bifrost::new();
    bifrost.add_log(0);
    for i in 0..3u64 {
        bifrost.append(0, rec(format!("r{}", i).as_bytes())).unwrap();
    }
    let mut bounded = bifrost.create_reader(0, 0, 2).unwrap();
    assert_eq!(next_item(&bifrost, &mut bounded).offset, 1);
    assert_eq!(next_item(&bifrost, &mut bounded).offset, 2);
    assert!(matches!(bifrost.read_next(&mut bounded), ReadOutcome::Terminated));
    assert!(bounded.is_terminated());

    bifrost.seal(0).unwrap();
    let mut tailing = bifrost.create_reader(0, 3, u64::MAX).unwrap();
    assert!(matches!(bifrost.read_next(&mut tailing), ReadOutcome::Terminated));
}

#[test]
fn unknown_logs_are_refused() {
    let mut bifrost = Bifrost::new();
    assert_eq!(bifrost.append(9, rec(b"a")), Err(Error::UnknownLogId));
    assert_eq!(bifrost.find_tail(9), Err(Error::UnknownLogId));
    assert_eq!(bifrost.trim(9, 1), Err(Error::UnknownLogId));
    assert!(bifrost.create_reader(9, 0, u64::MAX).is_err());
}

#[test]
fn trim_is_idempotent_at_the_facade() {
    let mut bifrost = Bifrost::new();
    bifrost.add_log(0);
    for i in 0..6u64 {
        bifrost.append(0, rec(format!("r{}", i).as_bytes())).unwrap();
    }
    bifrost.trim(0, 4).unwrap();
    let point = bifrost.get_trim_point(0).unwrap();
    bifrost.trim(0, 3).unwrap();
    assert_eq!(bifrost.get_trim_point(0).unwrap(), point);
    bifrost.trim(0, 4).unwrap();
    assert_eq!(bifrost.get_trim_point(0).unwrap(), point);
}

#[test]
fn appends_return_strictly_increasing_gap_free_lsns() {
    let mut bifrost = Bifrost::new();
    bifrost.add_log(0);
    let mut last = 0u64;
    for i in 0..20u64 {
        let lsn = bifrost.append(0, rec(format!("r{}", i).as_bytes())).unwrap();
        assert_eq!(lsn, last + 1);
        last = lsn;
    }
}

#[test]
fn calculate_read_pointer_follows_the_record() {
    let data = LogRecord {
        offset: 7,
        record: StreamRecord::Data(rec(b"x")),
    };
    assert_eq!(LogReadStream::calculate_read_pointer(&data), 7);
    let gap = LogRecord {
        offset: 3,
        record: StreamRecord::TrimGap(TrimGap { until: 9 }),
    };
    assert_eq!(LogReadStream::calculate_read_pointer(&gap), 9);
    let seal = LogRecord { offset: 4, record: StreamRecord::Seal };
    assert_eq!(LogReadStream::calculate_read_pointer(&seal), 4);
}
