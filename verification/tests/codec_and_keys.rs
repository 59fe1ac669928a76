use bifrost::DataKey;
use bifrost::LogId;
use bifrost::LogState;
use bifrost::Lsn;
use bifrost::MetadataKey;
use bifrost::MetadataKind;
use bifrost::Payload;
use bifrost::Version;
use bifrost::decode_payload;
use bifrost::encode_payload;

#[test]
fn sequence_number_helpers() {
    assert_eq!(Lsn::invalid(), Lsn::new(0));
    assert_eq!(Lsn::oldest(), Lsn::new(1));
    assert_eq!(Lsn::max_sentinel(), Lsn::new(u64::MAX));
    assert_eq!(Lsn::new(4).next(), Lsn::new(5));
    assert_eq!(Lsn::new(4).prev(), Lsn::new(3));
    assert_eq!(Lsn::new(4).value(), 4);
    assert_eq!(LogId::new(7).value(), 7);
    assert_eq!(Version::new(2).value(), 2);
}

#[test]
fn payload_encoding_prefixes_the_format_tag() {
    let payload = Payload::new(vec![10, 20, 30]);
    let encoded = encode_payload(&payload);
    assert_eq!(encoded, vec![1, 10, 20, 30]);
}

#[test]
fn payload_codec_round_trip_is_identity() {
    let bodies: Vec<Vec<u8>> = vec![vec![], vec![0], vec![255, 0, 1, 2, 3]];
    for body in bodies {
        let encoded = encode_payload(&Payload::new(body.clone()));
        let decoded = decode_payload(&encoded).expect("decoding own output is total");
        assert_eq!(decoded.body, body);
    }
}

#[test]
fn payload_decoding_rejects_foreign_bytes() {
    assert!(decode_payload(&vec![]).is_none());
    assert!(decode_payload(&vec![2, 1, 2]).is_none());
    assert!(decode_payload(&vec![0]).is_none());
}

#[test]
fn metadata_key_encodes_big_endian_with_kind_byte() {
    let key = MetadataKey::new(5, MetadataKind::LogState);
    assert_eq!(key.to_bytes(), vec![0, 0, 0, 0, 0, 0, 0, 5, 1]);
}

#[test]
fn data_key_encodes_both_fields_big_endian() {
    let key = DataKey::new(1, 258);
    assert_eq!(
        key.to_bytes(),
        vec![0, 0, 0, 0, 0, 0, 0, 1, 0, 0, 0, 0, 0, 0, 1, 2]
    );
}

#[test]
fn data_key_byte_order_matches_numeric_order() {
    // The byte ordering of encoded keys equals the numeric ordering of
    // (log_id, offset) pairs.
    let pairs: Vec<(u64, u64)> = vec![
        (0, 0),
        (0, 1),
        (0, 255),
        (0, 256),
        (1, 0),
        (1, u64::MAX),
        (2, 0),
        (256, 5),
        (u64::MAX, u64::MAX),
    ];
    for w in pairs.windows(2) {
        let a = DataKey::new(w[0].0, w[0].1).to_bytes();
        let b = DataKey::new(w[1].0, w[1].1).to_bytes();
        assert!(a < b, "{:?} !< {:?}", a, b);
    }
}

#[test]
fn log_state_encodes_tagged_little_endian() {
    let state = LogState { trim_point: 1, release_pointer: 2 };
    assert_eq!(
        state.to_bytes(),
        vec![1, 1, 0, 0, 0, 0, 0, 0, 0, 2, 0, 0, 0, 0, 0, 0, 0]
    );
}

#[test]
fn log_state_round_trip_is_identity() {
    let state = LogState { trim_point: 123456789, release_pointer: u64::MAX - 1 };
    let bytes = state.to_bytes();
    assert_eq!(LogState::from_slice(&bytes), Some(state));
}

#[test]
fn log_state_decoding_rejects_foreign_bytes() {
    assert!(LogState::from_slice(&vec![]).is_none());
    // Wrong tag.
    let mut bytes = LogState { trim_point: 0, release_pointer: 0 }.to_bytes();
    bytes[0] = 9;
    assert!(LogState::from_slice(&bytes).is_none());
    // Wrong length.
    let bytes = LogState { trim_point: 0, release_pointer: 0 }.to_bytes();
    assert!(LogState::from_slice(&bytes[..16].to_vec()).is_none());
}
