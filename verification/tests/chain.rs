use bifrost::Bifrost;
use bifrost::FindTailAttributes;
use bifrost::LogChain;
use bifrost::LogEntry;
use bifrost::LogId;
use bifrost::LogRecord;
use bifrost::LogsMetadata;
use bifrost::Lsn;
use bifrost::LogletConfig;
use bifrost::LogletParams;
use bifrost::Payload;
use bifrost::ProviderKind;
use bifrost::Record;
use bifrost::Segment;
use bifrost::Version;

fn segment(base: u64, id: u64) -> Segment {
    Segment {
        base_lsn: Lsn::new(base),
        config: LogletConfig { kind: ProviderKind::InMemory, params: LogletParams { id } },
    }
}

#[test]
fn find_segment_for_lsn_picks_the_serving_segment() {
    let chain = LogChain { segments: vec![segment(1, 0), segment(5, 1), segment(9, 2)] };
    // Positions below the second base are served by the head segment.
    assert_eq!(chain.find_segment_for_lsn(Lsn::new(0)), segment(1, 0));
    assert_eq!(chain.find_segment_for_lsn(Lsn::new(1)), segment(1, 0));
    assert_eq!(chain.find_segment_for_lsn(Lsn::new(4)), segment(1, 0));
    assert_eq!(chain.find_segment_for_lsn(Lsn::new(5)), segment(5, 1));
    assert_eq!(chain.find_segment_for_lsn(Lsn::new(8)), segment(5, 1));
    assert_eq!(chain.find_segment_for_lsn(Lsn::new(9)), segment(9, 2));
    assert_eq!(chain.find_segment_for_lsn(Lsn::new(u64::MAX)), segment(9, 2));
    // The tail segment is the one with the greatest base.
    assert_eq!(*chain.tail_segment(), segment(9, 2));
}

#[test]
fn reads_cross_segment_boundaries() {
    // One log over two segments: a sealed head covering positions 1..=2 and
    // the writeable tail from position 3 up.
    let chain = LogChain { segments: vec![segment(1, 0), segment(3, 1)] };
    let metadata = LogsMetadata {
        version: Version::new(1),
        entries: vec![LogEntry { log_id: LogId::new(0), chain }],
    };
    let mut bifrost = Bifrost::init_in_memory(metadata);
    let log_id = LogId::new(0);

    // The sealed head segment received its records before the chain grew.
    if let Some(registry) = &mut bifrost.inner.providers {
        let memory = registry.memory.as_mut().unwrap();
        memory.append_to(0, vec![1, 101]);
        memory.append_to(0, vec![1, 102]);
    } else {
        panic!("providers are published");
    }

    // Appends go to the tail segment: the first lands at its base.
    let lsn = bifrost.append(log_id, Payload::new(vec![103])).unwrap();
    assert_eq!(lsn, Lsn::new(3));
    let lsn = bifrost.append(log_id, Payload::new(vec![104])).unwrap();
    assert_eq!(lsn, Lsn::new(4));
    assert_eq!(
        bifrost.find_tail(log_id, FindTailAttributes::default()).unwrap(),
        Some(Lsn::new(4))
    );

    // Reads resolve the serving segment per position.
    for (after, body) in [(0u64, 101u8), (1, 102), (2, 103), (3, 104)] {
        match bifrost.read_next_single_opt(log_id, Lsn::new(after)).unwrap() {
            Some(LogRecord { offset, record: Record::Data(payload) }) => {
                assert_eq!(offset, Lsn::new(after + 1));
                assert_eq!(*payload.body.last().unwrap(), body);
            }
            other => panic!("expected data at {}, got {:?}", after + 1, other),
        }
    }
    assert!(bifrost.read_next_single_opt(log_id, Lsn::new(4)).unwrap().is_none());
}
