use ogn_gateway::aprs::parse;

fn degrees(units: i64) -> f64 {
    units as f64 / 60000.
}

fn close(a: f64, b: f64) -> bool {
    (a - b).abs() <= 1e-9 * b.abs().max(1.)
}

#[test]
fn test_parse_1() {
    let result = parse(r"FLRDD9612>APRS,qAS,VillaBlau:/141956h4911.18N/00815.93E'126/059/A=003716 !W75! id06DD9612 -355fpm -1.2rot 3.0dB 2e -1.3kHz gps3x3");
    assert!(result.is_some());

    let position = result.unwrap();
    assert_eq!(position.id, "FLRDD9612");
    assert_eq!(position.seconds_of_day, 14 * 3600 + 19 * 60 + 56);
    assert!(close(degrees(position.latitude), 49. + 11.187 / 60.));
    assert!(close(degrees(position.longitude), 8. + 15.935 / 60.));
    assert!(close(position.altitude_feet as f64 * 0.3048, 1132.6368));
    assert_eq!(position.course, 126);
}

#[test]
fn test_parse_2() {
    let result = parse(r"ICA4060D7>APRS,qAS,UKDUN2:/141953h5147.03N\00109.00W^210/143/A=003405 !W50! id214060D7 +079fpm +0.0rot 8.0dB 0e -11.9kHz gps3x4");
    assert!(result.is_some());

    let position = result.unwrap();
    assert_eq!(position.id, "ICA4060D7");
    assert_eq!(position.seconds_of_day, 14 * 3600 + 19 * 60 + 53);
    assert!(close(degrees(position.latitude), 51. + 47.035 / 60.));
    assert!(close(degrees(position.longitude), -(1. + 9.000 / 60.)));
    assert!(close(position.altitude_feet as f64 * 0.3048, 1037.844));
    assert_eq!(position.course, 210);
}

#[test]
fn test_parse_3() {
    let result = parse(r"FLRDD87AC>APRS,qAS,LFQB:/141950h4818.33N/00401.87E'014/034/A=005199 id06DD87AC +218fpm +2.5rot 17.8dB 0e -2.4kHz gps3x4 -1.0dBm");
    assert!(result.is_some());

    let position = result.unwrap();
    assert_eq!(position.id, "FLRDD87AC");
    assert_eq!(position.seconds_of_day, 14 * 3600 + 19 * 60 + 50);
    assert!(close(degrees(position.latitude), 48. + 18.33 / 60.));
    assert!(close(degrees(position.longitude), 4. + 1.87 / 60.));
    assert!(close(position.altitude_feet as f64 * 0.3048, 1584.6552));
    assert_eq!(position.course, 14);
}

#[test]
fn parse_exact_units() {
    let p = parse(r"FLRDD9612>APRS,qAS,VillaBlau:/141956h4911.18N/00815.93E'126/059/A=003716 !W75! id06DD9612").unwrap();
    assert_eq!(p.latitude, 49 * 60000 + 1118 * 10 + 7);
    assert_eq!(p.longitude, 8 * 60000 + 1593 * 10 + 5);
    assert_eq!(p.altitude_feet, 3716);
}

#[test]
fn parse_rejects_other_lines() {
    assert!(parse("").is_none());
    assert!(parse("# aprsc 2.1.4-g408ed49").is_none());
    // lower-case id
    assert!(parse(r"flrDD9612>APRS,qAS,VillaBlau:/141956h4911.18N/00815.93E'126/059/A=003716").is_none());
    // hour out of range
    assert!(parse(r"FLRDD9612>APRS,qAS,VillaBlau:/251956h4911.18N/00815.93E'126/059/A=003716").is_none());
    // truncated altitude
    assert!(parse(r"FLRDD9612>APRS,qAS,VillaBlau:/141956h4911.18N/00815.93E'126/059/A=0037").is_none());
}

#[test]
fn to_position_reconstructs_fields() {
    let p = parse(r"FLRDD9612>APRS,qAS,VillaBlau:/141956h4911.18N/00815.93E'126/059/A=003716 !W75!").unwrap();
    // now: 2018-07-10T18:15:23Z
    let pos = p.to_position(1531246523, 1, 2);
    assert_eq!(pos.id, "FLRDD9612");
    assert_eq!(pos.time, 1531180800 + 14 * 3600 + 19 * 60 + 56);
    assert_eq!(pos.latitude, 49186450);
    assert_eq!(pos.longitude, 8265583);
    assert_eq!(pos.altitude, 1132);
    assert_eq!(pos.course, 126);
    assert_eq!((pos.longitude_f32, pos.latitude_f32), (1, 2));
}
