use bifrost::Bifrost;
use bifrost::Error;
use bifrost::FindTailAttributes;
use bifrost::LogId;
use bifrost::LogReadStream;
use bifrost::LogRecord;
use bifrost::LogsMetadata;
use bifrost::Lsn;
use bifrost::MemoryLogletProvider;
use bifrost::Payload;
use bifrost::ProviderKind;
use bifrost::ReadNextOutcome;
use bifrost::Record;
use bifrost::TrimGap;
use bifrost::Version;

#[test]
fn test_append_smoke() {
    let num_partitions = 5;
    let metadata = LogsMetadata::bootstrap(Version::new(1), num_partitions, ProviderKind::InMemory);
    let mut bifrost = Bifrost::init_in_memory(metadata);

    let mut max_lsn = Lsn::invalid();
    for i in 1..=5u64 {
        let lsn = bifrost.append(LogId::new(0), Payload::default()).unwrap();
        assert_eq!(Lsn::new(i), lsn);
        max_lsn = lsn;
    }

    // Append to a log that doesn't exist.
    let invalid_log = LogId::new(num_partitions + 1);
    let resp = bifrost.append(invalid_log, Payload::default());
    assert!(matches!(resp, Err(Error::UnknownLogId(id)) if id == invalid_log));

    // Writers interleaving through the shared handle observe one order.
    for _ in 1..=5 {
        let lsn = bifrost.append(LogId::new(0), Payload::default()).unwrap();
        assert_eq!(Lsn::new(max_lsn.value() + 1), lsn);
        max_lsn = lsn;
    }

    // Writes to another log don't impact existing ones.
    let lsn = bifrost.append(LogId::new(3), Payload::default()).unwrap();
    assert_eq!(Lsn::new(1), lsn);

    let lsn = bifrost.append(LogId::new(0), Payload::default()).unwrap();
    assert_eq!(Lsn::new(max_lsn.value() + 1), lsn);
    max_lsn = lsn;

    let tail = bifrost
        .find_tail(LogId::new(0), FindTailAttributes::default())
        .unwrap();
    assert_eq!(Some(max_lsn), tail);

    // Initiate shutdown: appends cannot succeed after it.
    bifrost.inner.set_shutdown();
    let res = bifrost.append(LogId::new(0), Payload::default());
    assert!(matches!(res, Err(Error::Shutdown)));
}

#[test]
fn test_lazy_initialization() {
    let metadata = LogsMetadata::bootstrap(Version::new(1), 1, ProviderKind::InMemory);
    // This provider adds a delay to its loglet initialization; appends must
    // queue behind it rather than fail.
    let factory = MemoryLogletProvider::with_init_delay(5);
    let mut bifrost = Bifrost::init_with_factory(metadata, factory);

    let lsn = bifrost.append(LogId::new(0), Payload::default()).unwrap();
    assert_eq!(Lsn::new(1), lsn);
    // The configured delay is in force while the append still succeeded.
    match &bifrost.inner.providers {
        Some(registry) => match &registry.memory {
            Some(memory) => assert_eq!(memory.init_delay_ticks, 5),
            None => panic!("the in-memory provider is started"),
        },
        None => panic!("providers are published"),
    }
}

#[test]
fn cross_writer_ordering() {
    // Two writers interleave appends through the shared core; the union of
    // the returned positions is 1..=N with no gaps and no duplicates.
    let metadata = LogsMetadata::bootstrap(Version::new(1), 1, ProviderKind::InMemory);
    let mut bifrost = Bifrost::init_in_memory(metadata);
    let mut seen: Vec<u64> = Vec::new();
    for round in 0..6u64 {
        let payload = Payload::new(vec![round as u8]);
        let lsn = bifrost.append(LogId::new(0), payload).unwrap();
        seen.push(lsn.value());
    }
    let expected: Vec<u64> = (1..=6).collect();
    assert_eq!(seen, expected);
}

#[test]
fn trim_log_smoke_test() {
    let log_id = LogId::new(0);
    let metadata = LogsMetadata::bootstrap(Version::new(1), 1, ProviderKind::Local);
    let mut bifrost = Bifrost::init_local(metadata);

    assert!(bifrost.get_trim_point(log_id).unwrap().is_none());

    for _ in 1..=10 {
        bifrost.append(log_id, Payload::default()).unwrap();
    }

    bifrost.trim(log_id, Lsn::new(5)).unwrap();

    assert_eq!(
        bifrost
            .find_tail(log_id, FindTailAttributes::default())
            .unwrap(),
        Some(Lsn::new(10))
    );
    assert_eq!(bifrost.get_trim_point(log_id).unwrap(), Some(Lsn::new(5)));

    for lsn in 0..5u64 {
        let record = bifrost.read_next_single_opt(log_id, Lsn::new(lsn)).unwrap();
        match record {
            Some(LogRecord { offset, record: Record::TrimGap(TrimGap { until }) }) => {
                assert_eq!(offset, Lsn::new(lsn + 1));
                assert_eq!(until, Lsn::new(5));
            }
            other => panic!("expected a trim gap, got {:?}", other),
        }
    }

    for lsn in 5..10u64 {
        let record = bifrost.read_next_single_opt(log_id, Lsn::new(lsn)).unwrap();
        match record {
            Some(LogRecord { offset, record: Record::Data(_) }) => {
                assert_eq!(offset, Lsn::new(lsn + 1));
            }
            other => panic!("expected data, got {:?}", other),
        }
    }

    // Trimming beyond the release point falls back to the release point.
    bifrost.trim(log_id, Lsn::new(u64::MAX)).unwrap();
    assert_eq!(bifrost.get_trim_point(log_id).unwrap(), Some(Lsn::new(10)));

    for _ in 0..10 {
        bifrost.append(log_id, Payload::default()).unwrap();
    }

    for lsn in 10..20u64 {
        let record = bifrost.read_next_single_opt(log_id, Lsn::new(lsn)).unwrap();
        match record {
            Some(LogRecord { offset, record: Record::Data(_) }) => {
                assert_eq!(offset, Lsn::new(lsn + 1));
            }
            other => panic!("expected data, got {:?}", other),
        }
    }
}

#[test]
fn read_on_empty_log_opt_is_none() {
    let metadata = LogsMetadata::bootstrap(Version::new(1), 1, ProviderKind::InMemory);
    let bifrost = Bifrost::init_in_memory(metadata);
    let r = bifrost.read_next_single_opt(LogId::new(0), Lsn::invalid()).unwrap();
    assert!(r.is_none());
}

#[test]
fn blocking_read_waits_for_first_append() {
    let metadata = LogsMetadata::bootstrap(Version::new(1), 1, ProviderKind::InMemory);
    let mut bifrost = Bifrost::init_in_memory(metadata);
    let log_id = LogId::new(0);

    // Nothing committed yet: the read registers a waiter.
    let waiter = match bifrost.read_next_single(log_id, Lsn::invalid()).unwrap() {
        ReadNextOutcome::Registered(id) => id,
        ReadNextOutcome::Ready(rec) => panic!("nothing should be readable yet: {:?}", rec),
    };

    // Nobody is due before the first append.
    assert_eq!(bifrost.inner.take_woken(log_id), Vec::<u64>::new());

    let lsn = bifrost.append(log_id, Payload::new(vec![7])).unwrap();
    assert_eq!(lsn, Lsn::new(1));

    // The commit wakes the waiter; retrying yields the first record.
    assert_eq!(bifrost.inner.take_woken(log_id), vec![waiter]);
    match bifrost.read_next_single(log_id, Lsn::invalid()).unwrap() {
        ReadNextOutcome::Ready(LogRecord { offset, record: Record::Data(payload) }) => {
            assert_eq!(offset, Lsn::new(1));
            assert_eq!(payload.body, vec![7]);
        }
        other => panic!("expected the first record, got {:?}", other),
    }
}

#[test]
fn payload_round_trips_through_the_log() {
    let metadata = LogsMetadata::bootstrap(Version::new(1), 1, ProviderKind::InMemory);
    let mut bifrost = Bifrost::init_in_memory(metadata);
    let log_id = LogId::new(0);
    let body = vec![0u8, 255, 1, 128, 42];
    bifrost.append(log_id, Payload::new(body.clone())).unwrap();
    match bifrost.read_next_single_opt(log_id, Lsn::invalid()).unwrap() {
        Some(LogRecord { offset, record: Record::Data(payload) }) => {
            assert_eq!(offset, Lsn::new(1));
            assert_eq!(payload.body, body);
        }
        other => panic!("expected the appended payload back, got {:?}", other),
    }
}

#[test]
fn append_batch_equals_sequential_appends() {
    let metadata = LogsMetadata::bootstrap(Version::new(1), 2, ProviderKind::InMemory);
    let mut batched = Bifrost::init_in_memory(metadata.clone());
    let mut sequential = Bifrost::init_in_memory(metadata);
    let log_id = LogId::new(0);

    let payloads = vec![
        Payload::new(vec![1]),
        Payload::new(vec![2, 2]),
        Payload::new(vec![3, 3, 3]),
    ];
    let first = batched.append_batch(log_id, &payloads).unwrap();
    assert_eq!(first, Lsn::new(1));
    for p in &payloads {
        sequential.append(log_id, p.clone()).unwrap();
    }

    for after in 0..3u64 {
        let a = batched.read_next_single_opt(log_id, Lsn::new(after)).unwrap();
        let b = sequential.read_next_single_opt(log_id, Lsn::new(after)).unwrap();
        match (a, b) {
            (
                Some(LogRecord { offset: oa, record: Record::Data(pa) }),
                Some(LogRecord { offset: ob, record: Record::Data(pb) }),
            ) => {
                assert_eq!(oa, ob);
                assert_eq!(pa.body, pb.body);
            }
            other => panic!("expected matching data records, got {:?}", other),
        }
    }
    assert!(batched.read_next_single_opt(log_id, Lsn::new(3)).unwrap().is_none());
}

#[test]
fn trim_is_idempotent() {
    let metadata = LogsMetadata::bootstrap(Version::new(1), 1, ProviderKind::InMemory);
    let mut bifrost = Bifrost::init_in_memory(metadata);
    let log_id = LogId::new(0);
    for _ in 0..4 {
        bifrost.append(log_id, Payload::default()).unwrap();
    }
    bifrost.trim(log_id, Lsn::new(2)).unwrap();
    let trim_once = bifrost.get_trim_point(log_id).unwrap();
    let tail_once = bifrost.find_tail(log_id, FindTailAttributes::default()).unwrap();
    bifrost.trim(log_id, Lsn::new(2)).unwrap();
    assert_eq!(bifrost.get_trim_point(log_id).unwrap(), trim_once);
    assert_eq!(
        bifrost.find_tail(log_id, FindTailAttributes::default()).unwrap(),
        tail_once
    );
    assert_eq!(trim_once, Some(Lsn::new(2)));
}

#[test]
fn segment_continuity_over_a_trimmed_log() {
    // Reading from the head to the tail: strictly increasing positions,
    // data covering everything past the trim point, one leading gap.
    let metadata = LogsMetadata::bootstrap(Version::new(1), 1, ProviderKind::InMemory);
    let mut bifrost = Bifrost::init_in_memory(metadata);
    let log_id = LogId::new(0);
    for i in 0..6u8 {
        bifrost.append(log_id, Payload::new(vec![i])).unwrap();
    }
    bifrost.trim(log_id, Lsn::new(2)).unwrap();

    let mut offsets: Vec<u64> = Vec::new();
    let mut after = Lsn::invalid();
    let mut gaps = 0;
    loop {
        match bifrost.read_next_single_opt(log_id, after).unwrap() {
            Some(LogRecord { offset, record }) => {
                assert!(offsets.last().map_or(true, |&last| last < offset.value()));
                match record {
                    Record::TrimGap(TrimGap { until }) => {
                        gaps += 1;
                        offsets.push(offset.value());
                        after = until;
                    }
                    Record::Data(_) => {
                        offsets.push(offset.value());
                        after = offset;
                    }
                }
            }
            None => break,
        }
    }
    assert_eq!(gaps, 1);
    // One gap standing at position 1, then data at 3..=6.
    assert_eq!(offsets, vec![1, 3, 4, 5, 6]);
}

#[test]
fn foreign_bytes_in_the_loglet_surface_as_loglet_error() {
    let metadata = LogsMetadata::bootstrap(Version::new(1), 1, ProviderKind::InMemory);
    let mut bifrost = Bifrost::init_in_memory(metadata);
    // Slip a record past the codec, straight into the loglet.
    if let Some(registry) = &mut bifrost.inner.providers {
        if let Some(memory) = &mut registry.memory {
            memory.append_to(0, vec![99, 1, 2]);
        } else {
            panic!("the in-memory provider is started");
        }
    } else {
        panic!("providers are published");
    }
    let res = bifrost.read_next_single_opt(LogId::new(0), Lsn::invalid());
    assert!(matches!(res, Err(Error::LogletError)));
}

#[test]
fn reader_streams_gap_then_data_until_inclusive() {
    let metadata = LogsMetadata::bootstrap(Version::new(1), 1, ProviderKind::InMemory);
    let mut bifrost = Bifrost::init_in_memory(metadata);
    let log_id = LogId::new(0);
    for i in 0..4u8 {
        bifrost.append(log_id, Payload::new(vec![i])).unwrap();
    }
    bifrost.trim(log_id, Lsn::new(1)).unwrap();

    let mut reader: LogReadStream = bifrost
        .create_reader(log_id, Lsn::invalid(), Lsn::new(3))
        .unwrap();
    match reader.next(&bifrost).unwrap() {
        Some(LogRecord { offset, record: Record::TrimGap(TrimGap { until }) }) => {
            assert_eq!(offset, Lsn::new(1));
            assert_eq!(until, Lsn::new(1));
        }
        other => panic!("expected the gap first, got {:?}", other),
    }
    for expected in 2..=3u64 {
        match reader.next(&bifrost).unwrap() {
            Some(LogRecord { offset, record: Record::Data(payload) }) => {
                assert_eq!(offset, Lsn::new(expected));
                assert_eq!(payload.body, vec![(expected - 1) as u8]);
            }
            other => panic!("expected data, got {:?}", other),
        }
    }
    // `until` is inclusive; the stream then terminates.
    assert!(reader.next(&bifrost).unwrap().is_none());
}

#[test]
fn version_reports_the_snapshot() {
    let metadata = LogsMetadata::bootstrap(Version::new(7), 1, ProviderKind::InMemory);
    let bifrost = Bifrost::init_in_memory(metadata);
    assert_eq!(bifrost.version(), Version::new(7));
}

#[test]
fn disabled_provider_is_reported() {
    // A chain naming a provider kind that was never started.
    let metadata = LogsMetadata::bootstrap(Version::new(1), 1, ProviderKind::Local);
    let mut bifrost = Bifrost::init_in_memory(metadata);
    let log_id = LogId::new(0);
    let res = bifrost.append(log_id, Payload::default());
    assert!(matches!(res, Err(Error::Disabled(ProviderKind::Local))));
    let res = bifrost.trim(log_id, Lsn::new(3));
    assert!(matches!(res, Err(Error::Disabled(ProviderKind::Local))));
    let res = bifrost.get_trim_point(log_id);
    assert!(matches!(res, Err(Error::Disabled(ProviderKind::Local))));
    // A trim that never reaches the unstartable segment succeeds as a no-op.
    let res = bifrost.trim(log_id, Lsn::invalid());
    assert!(matches!(res, Ok(())));
}
