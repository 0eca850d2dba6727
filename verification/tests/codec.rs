use conjecture::codec::{bytes_to_u64s, u64s_to_bytes};

#[test]
fn round_trips_every_record() {
    let records: Vec<Vec<u64>> = vec![
        vec![],
        vec![0],
        vec![10],
        vec![1, 2, 3, u64::MAX, 0, 42],
        vec![0x0123456789abcdef],
    ];
    for record in records {
        let bytes = u64s_to_bytes(record.as_slice());
        assert_eq!(bytes.len(), record.len() * 8);
        let back = bytes_to_u64s(bytes.as_slice());
        assert_eq!(back, record);
    }
}

#[test]
fn encodes_big_endian() {
    let bytes = u64s_to_bytes(&[0x0102030405060708]);
    assert_eq!(bytes, vec![1, 2, 3, 4, 5, 6, 7, 8]);
}

#[test]
fn decoding_stops_at_a_short_read() {
    let mut bytes = u64s_to_bytes(&[7, 9]);
    bytes.push(0xff);
    bytes.push(0xff);
    let back = bytes_to_u64s(bytes.as_slice());
    assert_eq!(back, vec![7, 9]);
}

#[test]
fn empty_record_encodes_to_no_bytes() {
    let bytes = u64s_to_bytes(&[]);
    assert!(bytes.is_empty());
}
