use ogn_gateway::ws_client::{ClientCommand, SendTextFast, SendTextSlow, WSClient};

#[test]
fn commands() {
    match WSClient::handle_message("+id|FLRAAA") {
        Some(ClientCommand::SubscribeToId(id)) => assert_eq!(id, "FLRAAA"),
        _ => panic!("expected a subscription"),
    }
    match WSClient::handle_message("-id|FLRAAA") {
        Some(ClientCommand::UnsubscribeFromId(id)) => assert_eq!(id, "FLRAAA"),
        _ => panic!("expected an unsubscription"),
    }
    match WSClient::handle_message("bbox|-10|40|20|60") {
        Some(ClientCommand::SetBoundingBox(b)) => {
            assert_eq!((b.left, b.bottom, b.right, b.top), (-10000000, 40000000, 20000000, 60000000))
        }
        _ => panic!("expected a box"),
    }
    assert!(WSClient::handle_message("bbox|-10|70|20|60").is_none());
    assert!(WSClient::handle_message("hello").is_none());
    assert!(WSClient::handle_message("").is_none());
    assert!(WSClient::handle_message("+id").is_none());
}

#[test]
fn lanes_join_lines_and_flush() {
    let mut c = WSClient::new();
    assert!(c.flush_fast().is_none());
    assert!(c.flush_slow().is_none());
    c.send_text_fast(SendTextFast("a".to_string()));
    c.send_text_fast(SendTextFast("b".to_string()));
    c.send_text_slow(SendTextSlow("c".to_string()));
    assert_eq!(c.flush_fast(), Some("a\nb".to_string()));
    assert!(c.flush_fast().is_none());
    assert_eq!(c.flush_slow(), Some("c".to_string()));
    assert!(c.flush_slow().is_none());
}
