use kvs::Command;
use kvs::codec;
use kvs::LengthCount;

#[test]
fn encode_set_shape() {
    let c = Command::set(b"k1".to_vec(), b"v1".to_vec());
    let e = codec::encode(&c);
    assert_eq!(e.len(), 41 + 2 + 2);
    assert_eq!(e[0], b'S');
    assert_eq!(&e[1..21], b"00000000000000000002");
    assert_eq!(&e[21..41], b"00000000000000000002");
    assert_eq!(&e[41..43], b"k1");
    assert_eq!(&e[43..45], b"v1");
}

#[test]
fn encode_remove_shape() {
    let c = Command::remove(b"key".to_vec());
    let e = codec::encode(&c);
    assert_eq!(e.len(), 21 + 3);
    assert_eq!(e[0], b'R');
    assert_eq!(&e[1..21], b"00000000000000000003");
    assert_eq!(&e[21..24], b"key");
}

#[test]
fn decode_round_trip() {
    let c = Command::set(b"alpha".to_vec(), b"beta".to_vec());
    let e = codec::encode(&c);
    let (d, end) = codec::decode_at(&e, 0).unwrap();
    assert_eq!(end, e.len());
    match d {
        Command::Put { key, value } => {
            assert_eq!(key, b"alpha".to_vec());
            assert_eq!(value, b"beta".to_vec());
        }
        _ => panic!("decoded the wrong variant"),
    }
}

#[test]
fn decode_stream_of_records() {
    let mut log: Vec<u8> = Vec::new();
    let cmds = vec![
        Command::set(b"a".to_vec(), b"1".to_vec()),
        Command::remove(b"a".to_vec()),
        Command::set(b"b".to_vec(), b"two".to_vec()),
    ];
    for c in &cmds {
        log.extend_from_slice(&codec::encode(c));
    }
    let mut pos = 0;
    let mut seen = 0;
    while pos < log.len() {
        let (_, end) = codec::decode_at(&log, pos).unwrap();
        assert!(end > pos);
        pos = end;
        seen += 1;
    }
    assert_eq!(seen, 3);
    assert_eq!(pos, log.len());
}

#[test]
fn decode_rejects_truncated_record() {
    let c = Command::set(b"key".to_vec(), b"value".to_vec());
    let mut e = codec::encode(&c);
    e.pop();
    assert!(codec::decode_at(&e, 0).is_none());
}

#[test]
fn decode_rejects_bad_tag() {
    assert!(codec::decode_at(&b"X0000".to_vec(), 0).is_none());
}

#[test]
fn empty_values_round_trip() {
    let c = Command::set(Vec::new(), Vec::new());
    let e = codec::encode(&c);
    assert_eq!(e.len(), 41);
    let (d, end) = codec::decode_at(&e, 0).unwrap();
    assert_eq!(end, 41);
    match d {
        Command::Put { key, value } => {
            assert!(key.is_empty());
            assert!(value.is_empty());
        }
        _ => panic!("decoded the wrong variant"),
    }
}

#[test]
fn counters_track_garbage() {
    let mut c = LengthCount::new();
    assert_eq!(c.effective_len(), 0);
    c.increase_len();
    c.increase_len();
    assert_eq!(c.effective_len(), 2);
    c.increase_garbage_len();
    assert_eq!(c.effective_len(), 1);
    c.increase_len_with_garbage();
    assert_eq!(c.len, 3);
    assert_eq!(c.len_garbage, 2);
    assert_eq!(c.effective_len(), 1);
}

#[test]
fn garbage_rate_threshold() {
    let c = LengthCount { len: 10, len_garbage: 7 };
    assert!(c.garbage_rate_exceeds(618));
    let d = LengthCount { len: 10, len_garbage: 6 };
    assert!(!d.garbage_rate_exceeds(618));
    let empty = LengthCount::new();
    assert!(!empty.garbage_rate_exceeds(0));
}
