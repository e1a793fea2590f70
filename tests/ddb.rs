use ogn_gateway::ddb::{parse_i16, OGNDDBRecord};
use ogn_gateway::units::FeetToMeter;

fn device(device_type: &str, id: &str, aircraft_type: &str, tracking: &str, model: &str) -> OGNDDBRecord {
    OGNDDBRecord {
        device_type: device_type.to_string(),
        device_id: id.to_string(),
        aircraft_model: model.to_string(),
        aircraft_type: aircraft_type.to_string(),
        registration: "D-1234".to_string(),
        cn: "".to_string(),
        tracking: tracking.to_string(),
        identified: "Y".to_string(),
    }
}

#[test]
fn ogn_ids() {
    assert_eq!(device("F", "DD9612", "1", "Y", "").ogn_id(), Some("FLRDD9612".to_string()));
    assert_eq!(device("I", "4060D7", "1", "Y", "").ogn_id(), Some("ICA4060D7".to_string()));
    assert_eq!(device("O", "123456", "1", "Y", "").ogn_id(), Some("OGN123456".to_string()));
    assert_eq!(device("X", "123456", "1", "Y", "").ogn_id(), None);
    assert_eq!(device("FF", "123456", "1", "Y", "").ogn_id(), None);
}

#[test]
fn device_entries() {
    let (id, info) = device("F", "DD9612", "2", "Y", "Discus").device_info().unwrap();
    assert_eq!(id, "FLRDD9612");
    assert_eq!(info.category, 2);
    assert_eq!(info.model, Some("Discus".to_string()));
    assert_eq!(info.registration, Some("D-1234".to_string()));
    assert_eq!(info.callsign, None);
    assert!(device("F", "DD9612", "x", "Y", "").device_info().is_none());
    assert!(device("Z", "DD9612", "1", "Y", "").device_info().is_none());
}

#[test]
fn ignored_devices() {
    assert_eq!(device("F", "DD9612", "1", "N", "").ignored_id(), Some("FLRDD9612".to_string()));
    assert_eq!(device("F", "DD9612", "1", "Y", "").ignored_id(), None);
    assert_eq!(device("Q", "DD9612", "1", "N", "").ignored_id(), None);
}

#[test]
fn i16_texts() {
    assert_eq!(parse_i16("0"), Some(0));
    assert_eq!(parse_i16("+7"), Some(7));
    assert_eq!(parse_i16("-32768"), Some(-32768));
    assert_eq!(parse_i16("32767"), Some(32767));
    assert_eq!(parse_i16("32768"), None);
    assert_eq!(parse_i16(""), None);
    assert_eq!(parse_i16("-"), None);
    assert_eq!(parse_i16("1a"), None);
    assert_eq!(parse_i16(" 1"), None);
    for s in ["0", "+7", "-32768", "32767", "32768", "", "-", "1a", "007", "99999999999"] {
        assert_eq!(parse_i16(s), s.parse::<i16>().ok());
    }
}

#[test]
fn feet_to_meter_whole() {
    assert_eq!(0u32.feet_to_meter(), 0);
    assert_eq!(4500u32.feet_to_meter(), 1371);
    assert_eq!(3716u32.feet_to_meter(), 1132);
    assert_eq!(1250u32.feet_to_meter(), 381);
    assert_eq!(999999u32.feet_to_meter(), 304799);
}
