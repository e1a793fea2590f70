use ogn_gateway::codec::{RedisOGNRecord, RECORD_SIZE};

fn record(seconds: u16, altitude: i16, longitude: f32, latitude: f32) -> RedisOGNRecord {
    RedisOGNRecord { seconds, altitude, longitude: longitude.to_bits(), latitude: latitude.to_bits() }
}

fn three_records() -> Vec<RedisOGNRecord> {
    let mut vec1 = record(123, 1234, 52.987, 7.456).encode();
    let mut vec2 = record(234, 2345, 51.987, 7.356).encode();
    let mut vec3 = record(345, 678, 50.987, 7.256).encode();

    vec1.append(&mut vec2);
    vec1.append(&mut vec3);

    vec1.chunks(RECORD_SIZE).map(|it| RedisOGNRecord::decode(it).unwrap()).collect()
}

#[test]
fn redis_test_deserialization() {
    let records = three_records();
    assert_eq!(records.len(), 3);
    assert_eq!(records[0].seconds, 123);
    assert_eq!(records[1].altitude, 2345);
}

#[test]
fn messages_test_deserialization() {
    let records = three_records();
    assert_eq!(records.len(), 3);
    assert_eq!(records[0].seconds, 123);
    assert_eq!(records[1].altitude, 2345);
}

#[test]
fn positions_test_deserialization() {
    let records = three_records();
    assert_eq!(records.len(), 3);
    assert_eq!(records[0].seconds, 123);
    assert_eq!(records[1].altitude, 2345);
}

#[test]
fn record_bytes_are_little_endian() {
    let r = RedisOGNRecord { seconds: 0x0102, altitude: -2, longitude: 0x0A0B0C0D, latitude: 0x11223344 };
    assert_eq!(
        r.encode(),
        vec![0x02, 0x01, 0xFE, 0xFF, 0x0D, 0x0C, 0x0B, 0x0A, 0x44, 0x33, 0x22, 0x11]
    );
    // the layout of a bincode-encoded (u16, i16, f32, f32)
    let f = record(7, 1000, 8.1, 49.2);
    let mut expected = Vec::new();
    expected.extend_from_slice(&7u16.to_le_bytes());
    expected.extend_from_slice(&1000i16.to_le_bytes());
    expected.extend_from_slice(&8.1f32.to_le_bytes());
    expected.extend_from_slice(&49.2f32.to_le_bytes());
    assert_eq!(f.encode(), expected);
}

#[test]
fn record_round_trip_bit_for_bit() {
    for r in [
        record(0, 0, 0.0, -0.0),
        record(3599, -32768, f32::MIN, f32::MAX),
        record(65535, 32767, f32::NAN, 1e-40),
    ] {
        let bytes = r.encode();
        assert_eq!(bytes.len(), 12);
        assert_eq!(RedisOGNRecord::decode(&bytes), Some(r));
    }
}

#[test]
fn decode_rejects_wrong_length() {
    assert_eq!(RedisOGNRecord::decode(&[0u8; 11]), None);
    assert_eq!(RedisOGNRecord::decode(&[0u8; 13]), None);
    assert_eq!(RedisOGNRecord::decode(&[]), None);
}
