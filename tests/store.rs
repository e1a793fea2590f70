use ogn_gateway::codec::RedisOGNRecord;
use ogn_gateway::store::{
    bucket_key, record_of, records_for_bucket, records_in_range, AddOGNPositions, CountOGNPositions,
    DropOldOGNPositions, OGNPosition, ReadOGNPositions,
};

fn pos(time: i64, lon: f32, lat: f32, alt: i16) -> OGNPosition {
    OGNPosition { time, longitude: lon.to_bits(), latitude: lat.to_bits(), altitude: alt }
}

#[test]
fn bucket_keys() {
    assert_eq!(bucket_key("FLRDD9612", 1533603600), "ogn:FLRDD9612:1533603600");
    assert_eq!(bucket_key("X", 0), "ogn:X:0");
    assert_eq!(bucket_key("X", -3600), "ogn:X:-3600");
}

#[test]
fn record_of_position() {
    // 2018-08-07T01:23:45Z is second 1425 of its hour
    let r = record_of(&pos(1533605025, 8.1, 49.2, 1000));
    assert_eq!(r.seconds, 23 * 60 + 45);
    assert_eq!(r.altitude, 1000);
    assert_eq!(r.longitude, 8.1f32.to_bits());
}

#[test]
fn two_positions_in_one_bucket_take_24_bytes() {
    let batch = AddOGNPositions {
        positions: vec![
            ("X".to_string(), pos(1533605025, 8.1, 49.2, 1000)),
            ("X".to_string(), pos(1533605030, 8.2, 49.3, 1001)),
        ],
    };
    let appends = batch.appends();
    assert_eq!(appends.len(), 1);
    assert_eq!(appends[0].id, "X");
    assert_eq!(appends[0].bucket_time, 1533603600);
    assert_eq!(appends[0].records.len(), 24);
}

#[test]
fn appends_group_by_device_and_hour() {
    let a = pos(1533605025, 1.0, 2.0, 3);
    let b = pos(1533607300, 1.5, 2.5, 4); // next hour
    let c = pos(1533605100, 1.7, 2.7, 5);
    let batch = AddOGNPositions {
        positions: vec![("X".to_string(), a), ("Y".to_string(), a), ("X".to_string(), b), ("X".to_string(), c)],
    };
    let appends = batch.appends();
    assert_eq!(appends.len(), 3);
    assert_eq!((appends[0].id.as_str(), appends[0].bucket_time), ("X", 1533603600));
    assert_eq!((appends[1].id.as_str(), appends[1].bucket_time), ("Y", 1533603600));
    assert_eq!((appends[2].id.as_str(), appends[2].bucket_time), ("X", 1533607200));
    let mut first = record_of(&a).encode();
    first.extend(record_of(&c).encode());
    assert_eq!(appends[0].records, first);
    assert_eq!(appends[2].records, record_of(&b).encode());
    assert!(AddOGNPositions { positions: vec![] }.appends().is_empty());
}

#[test]
fn persistence_round_trip() {
    // 2018-08-07T01:23:45Z, id X, lon 8.1, lat 49.2, alt 1000
    let p = pos(1533605025, 8.1, 49.2, 1000);
    let appends = AddOGNPositions { positions: vec![("X".to_string(), p)] }.appends();
    assert_eq!(appends.len(), 1);
    assert_eq!(bucket_key(&appends[0].id, appends[0].bucket_time), "ogn:X:1533603600");
    let read = records_for_bucket(appends[0].bucket_time, &appends[0].records).unwrap();
    assert_eq!(read.len(), 1);
    assert_eq!(read[0].time, 1533605025);
    assert_eq!(f32::from_bits(read[0].longitude), 8.1f32);
    assert_eq!(f32::from_bits(read[0].latitude), 49.2f32);
    assert_eq!(read[0].altitude, 1000);
}

#[test]
fn bucket_read_keeps_first_of_each_second() {
    let r1 = RedisOGNRecord { seconds: 10, altitude: 1, longitude: 1, latitude: 1 };
    let r2 = RedisOGNRecord { seconds: 20, altitude: 2, longitude: 2, latitude: 2 };
    let r3 = RedisOGNRecord { seconds: 10, altitude: 3, longitude: 3, latitude: 3 };
    let mut value = r1.encode();
    value.extend(r2.encode());
    value.extend(r3.encode());
    let read = records_for_bucket(3600, &value).unwrap();
    assert_eq!(read.len(), 2);
    assert_eq!((read[0].time, read[0].altitude), (3610, 1));
    assert_eq!((read[1].time, read[1].altitude), (3620, 2));
    // a truncated tail is refused
    value.push(0);
    assert!(records_for_bucket(3600, &value).is_none());
    assert_eq!(records_for_bucket(3600, &vec![]), Some(vec![]));
}

#[test]
fn gc_horizon() {
    let now = 1577923200; // 2020-01-02T00:00:00Z
    assert!(DropOldOGNPositions::is_outdated("ogn:X:1577750400", now)); // 2019-12-31
    assert!(!DropOldOGNPositions::is_outdated("ogn:X:1577923200", now)); // 2020-01-02
    // exactly one day old is kept
    assert!(!DropOldOGNPositions::is_outdated("ogn:X:1577836800", now));
    assert!(DropOldOGNPositions::is_outdated("ogn:X:1577836799", now));
    // other keys are never dropped
    assert!(!DropOldOGNPositions::is_outdated("ogn-ddb", now));
    assert!(!DropOldOGNPositions::is_outdated("ogn::1", now));
    assert!(!DropOldOGNPositions::is_outdated("ogn:X:", now));
    assert!(!DropOldOGNPositions::is_outdated("ogn:X:99999999999999999999999", now));
}

#[test]
fn count_records() {
    assert_eq!(CountOGNPositions::records_in(&vec![24, 12, 36]), 6);
    assert_eq!(CountOGNPositions::records_in(&vec![]), 0);
    assert_eq!(CountOGNPositions::records_in(&vec![13]), 1);
    assert_eq!(CountOGNPositions::records_in(&vec![u64::MAX, 12]), u64::MAX / 12);
}

#[test]
fn range_read_filters_and_sorts() {
    let a = pos(100, 0.0, 0.0, 1);
    let b = pos(50, 0.0, 0.0, 2);
    let c = pos(400, 0.0, 0.0, 3);
    let d = pos(75, 0.0, 0.0, 4);
    let r = records_in_range(50, 100, &vec![a, b, c, d]);
    assert_eq!(r, vec![b, d, a]);
    assert!(records_in_range(500, 600, &vec![a, b]).is_empty());
}

#[test]
fn read_window_defaults() {
    let now = 1577923200;
    let q = ReadOGNPositions { ids: vec!["X".to_string()], after: None, before: None };
    assert_eq!(q.window(now), (now - 86400, now));
    let q = ReadOGNPositions { ids: vec![], after: Some(1533603600), before: Some(1533607200) };
    assert_eq!(q.window(now), (1533603600, 1533607200));
}

#[test]
fn persistence_round_trip_through_range_read() {
    let p = pos(1533605025, 8.1, 49.2, 1000);
    let appends = AddOGNPositions { positions: vec![("X".to_string(), p)] }.appends();
    let read = records_for_bucket(appends[0].bucket_time, &appends[0].records).unwrap();
    // after 2018-08-07T01:00:00Z, before 2018-08-07T02:00:00Z
    let r = records_in_range(1533603600, 1533607200, &read);
    assert_eq!(r, vec![p]);
}
