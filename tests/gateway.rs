use ogn_gateway::gateway::{
    Connect, Disconnect, Gateway, Position, RequestStatus, SetBoundingBox, SubscribeToId, UnsubscribeFromId,
};
use ogn_gateway::geo::BoundingBox;
use ogn_gateway::ws_client::{ClientCommand, SendTextFast, SendTextSlow, WSClient};

const NOW: i64 = 1533605025;

fn report(id: &str, time: i64, lon: i32, lat: i32) -> Position {
    Position {
        id: id.to_string(),
        time,
        longitude: lon,
        latitude: lat,
        altitude: 1000,
        course: 126,
        longitude_f32: (lon as f32 / 1e6).to_bits(),
        latitude_f32: (lat as f32 / 1e6).to_bits(),
    }
}

fn bbox(text: &str) -> BoundingBox {
    BoundingBox::try_parse(text).unwrap()
}

fn apply(g: &mut Gateway, addr: u64, text: &str) {
    match WSClient::handle_message(text) {
        Some(ClientCommand::SubscribeToId(id)) => g.subscribe_to_id(SubscribeToId { id, addr }),
        Some(ClientCommand::UnsubscribeFromId(id)) => g.unsubscribe_from_id(UnsubscribeFromId { id, addr }),
        Some(ClientCommand::SetBoundingBox(bbox)) => g.set_bounding_box(SetBoundingBox { addr, bbox }),
        None => {}
    }
}

fn mentions(g: &Gateway, a: u64) -> bool {
    g.ws_clients.contains(&a)
        || g.id_subscriptions.iter().any(|s| s.subscribers.contains(&a))
        || g.bbox_subscriptions.iter().any(|(s, _)| *s == a)
}

fn subscriptions_live(g: &Gateway) -> bool {
    g.id_subscriptions.iter().all(|s| s.subscribers.iter().all(|a| g.ws_clients.contains(a)))
        && g.bbox_subscriptions.iter().all(|(a, _)| g.ws_clients.contains(a))
}

#[test]
fn fanout_and_dedup() {
    let mut g = Gateway::new();
    let mut s = WSClient::new();
    g.connect(Connect { addr: 1 });
    apply(&mut g, 1, "+id|FLRAAA");
    apply(&mut g, 1, "bbox|-10|40|20|60");
    let fanout = g.handle_position(report("FLRAAA", NOW, 5000000, 50000000), NOW).unwrap();
    assert_eq!(fanout.fast, vec![1]);
    assert!(fanout.slow.is_empty());
    assert_eq!(fanout.line, format!("FLRAAA|{}|5.000000|50.000000|126|1000", NOW));
    for a in &fanout.fast {
        assert_eq!(*a, 1);
        s.send_text_fast(SendTextFast(fanout.line.clone()));
    }
    for _ in &fanout.slow {
        s.send_text_slow(SendTextSlow(fanout.line.clone()));
    }
    assert_eq!(s.flush_fast(), Some(fanout.line.clone()));
    assert_eq!(s.flush_slow(), None);
    assert_eq!(g.redis_buffer.len(), 1);
}

#[test]
fn region_subscribers_get_the_slow_lane() {
    let mut g = Gateway::new();
    g.connect(Connect { addr: 1 });
    g.connect(Connect { addr: 2 });
    g.connect(Connect { addr: 3 });
    apply(&mut g, 1, "bbox|-10|40|20|60");
    apply(&mut g, 2, "bbox|175|10|-160|12");
    apply(&mut g, 3, "+id|FLRBBB");
    let f = g.handle_position(report("FLRAAA", NOW, -5123456, 45000000), NOW).unwrap();
    assert!(f.fast.is_empty());
    assert_eq!(f.slow, vec![1]);
    assert_eq!(f.line, format!("FLRAAA|{}|-5.123456|45.000000|126|1000", NOW));
    // nobody watches this point: no fanout, still stored
    assert!(g.handle_position(report("FLRAAA", NOW, 100000000, 0), NOW).is_none());
    assert_eq!(g.redis_buffer.len(), 2);
    // across the antimeridian
    let f = g.handle_position(report("FLRCCC", NOW, -179000000, 11000000), NOW).unwrap();
    assert_eq!(f.slow, vec![2]);
}

#[test]
fn freshness_filter() {
    let mut g = Gateway::new();
    g.connect(Connect { addr: 1 });
    apply(&mut g, 1, "+id|FLRAAA");
    // twenty minutes in the past
    assert!(g.handle_position(report("FLRAAA", NOW - 20 * 60, 0, 0), NOW).is_none());
    assert!(g.redis_buffer.is_empty());
    // the age, time - now, must lie in [-5 min, 15 min]
    assert!(g.handle_position(report("FLRAAA", NOW - 5 * 60, 0, 0), NOW).is_some());
    assert!(g.handle_position(report("FLRAAA", NOW - 5 * 60 - 1, 0, 0), NOW).is_none());
    assert!(g.handle_position(report("FLRAAA", NOW + 15 * 60, 0, 0), NOW).is_some());
    assert!(g.handle_position(report("FLRAAA", NOW + 15 * 60 + 1, 0, 0), NOW).is_none());
    assert_eq!(g.redis_buffer.len(), 2);
}

#[test]
fn ignored_devices_are_dropped() {
    let mut g = Gateway::new();
    g.connect(Connect { addr: 1 });
    apply(&mut g, 1, "+id|FLRAAA");
    g.update_ignore_list(Some(vec!["FLRAAA".to_string()]));
    assert!(g.handle_position(report("FLRAAA", NOW, 0, 0), NOW).is_none());
    assert!(g.redis_buffer.is_empty());
    // a failed read keeps the list
    g.update_ignore_list(None);
    assert_eq!(g.ignore_list, vec!["FLRAAA".to_string()]);
}

#[test]
fn stored_altitude_saturates() {
    let mut g = Gateway::new();
    let mut p = report("FLRAAA", NOW, 0, 0);
    p.altitude = 40000;
    g.handle_position(p, NOW);
    let mut q = report("FLRAAA", NOW, 0, 0);
    q.altitude = -40000;
    g.handle_position(q, NOW);
    let batch = g.flush_records();
    assert_eq!(batch.len(), 2);
    assert_eq!(batch[0].1.altitude, i16::MAX);
    assert_eq!(batch[1].1.altitude, i16::MIN);
    assert_eq!(batch[0].0, "FLRAAA");
    assert!(g.redis_buffer.is_empty());
    assert!(g.flush_records().is_empty());
}

#[test]
fn disconnect_forgets_the_session() {
    let mut g = Gateway::new();
    g.connect(Connect { addr: 1 });
    g.connect(Connect { addr: 2 });
    apply(&mut g, 1, "+id|A");
    apply(&mut g, 1, "+id|A");
    apply(&mut g, 2, "+id|A");
    apply(&mut g, 1, "+id|B");
    apply(&mut g, 1, "bbox|1|2|3|4");
    apply(&mut g, 2, "bbox|1|2|3|4");
    g.disconnect(Disconnect { addr: 1 });
    assert!(!mentions(&g, 1));
    assert!(mentions(&g, 2));
    assert_eq!(g.id_subscriptions[0].subscribers, vec![2]);
    assert!(g.id_subscriptions[1].subscribers.is_empty());
    assert_eq!(g.bbox_subscriptions.len(), 1);
    assert_eq!(g.status(RequestStatus).users, 1);
}

#[test]
fn subscriptions_name_only_live_sessions() {
    let mut g = Gateway::new();
    let script: Vec<(u64, &str)> = vec![
        (1, "connect"),
        (1, "+id|A"),
        (2, "+id|A"),
        (2, "bbox|1|2|3|4"),
        (2, "connect"),
        (2, "+id|A"),
        (1, "bbox|-1|-2|3|4"),
        (1, "disconnect"),
        (1, "+id|B"),
        (2, "-id|A"),
        (3, "connect"),
        (3, "bbox|5|5|6|6"),
        (2, "disconnect"),
    ];
    for (a, step) in script {
        match step {
            "connect" => g.connect(Connect { addr: a }),
            "disconnect" => g.disconnect(Disconnect { addr: a }),
            text => apply(&mut g, a, text),
        }
        assert!(subscriptions_live(&g));
    }
    assert_eq!(g.ws_clients, vec![3]);
    assert_eq!(g.bbox_subscriptions.len(), 1);
}

#[test]
fn unsubscribe_takes_one_occurrence() {
    let mut g = Gateway::new();
    g.connect(Connect { addr: 1 });
    g.connect(Connect { addr: 2 });
    apply(&mut g, 1, "+id|A");
    apply(&mut g, 2, "+id|A");
    apply(&mut g, 1, "+id|A");
    apply(&mut g, 1, "-id|A");
    assert_eq!(g.id_subscriptions[0].subscribers, vec![2, 1]);
    apply(&mut g, 3, "-id|A");
    apply(&mut g, 1, "-id|C");
    assert_eq!(g.id_subscriptions.len(), 1);
    assert_eq!(g.id_subscriptions[0].subscribers, vec![2, 1]);
}

#[test]
fn last_bounding_box_wins() {
    let mut g = Gateway::new();
    g.connect(Connect { addr: 1 });
    g.set_bounding_box(SetBoundingBox { addr: 1, bbox: bbox("1|2|3|4") });
    g.set_bounding_box(SetBoundingBox { addr: 1, bbox: bbox("5|6|7|8") });
    assert_eq!(g.bbox_subscriptions, vec![(1, bbox("5|6|7|8"))]);
}

#[test]
fn record_count_policy() {
    let mut g = Gateway::new();
    assert_eq!(g.status(RequestStatus).record_count, None);
    g.records_flushed(5, true);
    assert_eq!(g.record_count, None);
    g.update_record_count(Some(10));
    assert_eq!(g.record_count, Some(10));
    g.update_record_count(None);
    assert_eq!(g.record_count, Some(10));
    g.records_flushed(5, true);
    assert_eq!(g.record_count, Some(15));
    g.records_flushed(5, false);
    assert_eq!(g.record_count, Some(15));
    g.drop_outdated_records(Some(3));
    assert_eq!(g.record_count, Some(18));
    g.drop_outdated_records(None);
    assert_eq!(g.record_count, Some(18));
    g.records_flushed(u64::MAX, true);
    assert_eq!(g.record_count, Some(u64::MAX));
    g.update_record_count(Some(7));
    assert_eq!(g.status(RequestStatus).record_count, Some(7));
}
