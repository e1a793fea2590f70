use ogn_gateway::geo::BoundingBox;

#[test]
fn test_parse_valid() {
    let result = BoundingBox::try_parse("-5.123|42.987|7.|50.3456789");
    assert!(result.is_some());

    let bbox = result.unwrap();
    assert_eq!(bbox.left, -5123000);
    assert_eq!(bbox.bottom, 42987000);
    assert_eq!(bbox.right, 7000000);
    assert_eq!(bbox.top, 50345679);
}

#[test]
fn test_parse_valid2() {
    let result = BoundingBox::try_parse("5|-2|14|12");
    assert!(result.is_some());

    let bbox = result.unwrap();
    assert_eq!(bbox.left, 5000000);
    assert_eq!(bbox.bottom, -2000000);
    assert_eq!(bbox.right, 14000000);
    assert_eq!(bbox.top, 12000000);
}

#[test]
fn test_parse_invalid() {
    assert!(BoundingBox::try_parse("-195.123|42.987|7.|50.3456789").is_none());
    assert!(BoundingBox::try_parse("-5.123|92.987|7.|50.3456789").is_none());
    assert!(BoundingBox::try_parse("-5.123|42.987|197.|50.3456789").is_none());
    assert!(BoundingBox::try_parse("-5.123|42.987|7.|90.3456789").is_none());

    assert!(BoundingBox::try_parse("-5.123|42.987|7.|40.3456789").is_none());

    assert!(BoundingBox::try_parse(".123|42.987|7.|50.3456789").is_none());
    assert!(BoundingBox::try_parse("-5.123|242.a987|7.|50.3456789").is_none());
    assert!(BoundingBox::try_parse("-5.123|0x42.987|7.|50.3456789").is_none());
}

#[test]
fn test_contains_basic() {
    let bbox = BoundingBox::try_parse("5|-2|14|12").unwrap();
    assert!(bbox.contains(7000000, 10000000));
    assert!(bbox.contains(5000000, -2000000));
    assert!(bbox.contains(14000000, 12000000));

    assert!(!bbox.contains(3000000, 10000000));
    assert!(!bbox.contains(15000000, 10000000));
    assert!(!bbox.contains(7000000, -3000000));
    assert!(!bbox.contains(7000000, 13000000));
}

#[test]
fn test_contains_wrap_around() {
    let bbox = BoundingBox::try_parse("175|10|-160|12").unwrap();
    assert!(!bbox.contains(174000000, 11000000));
    assert!(bbox.contains(175000000, 11000000));
    assert!(bbox.contains(-179000000, 11000000));
    assert!(bbox.contains(-160000000, 11000000));
    assert!(!bbox.contains(-159000000, 11000000));
}

#[test]
fn parse_extremes_and_trailing_text() {
    let b = BoundingBox::try_parse("-180|-90|180|90").unwrap();
    assert_eq!((b.left, b.bottom, b.right, b.top), (-180000000, -90000000, 180000000, 90000000));
    // text after the fourth number is not read
    let b = BoundingBox::try_parse("1|2|3|4xyz").unwrap();
    assert_eq!(b.top, 4000000);
    assert!(BoundingBox::try_parse("1|2|3").is_none());
    assert!(BoundingBox::try_parse("").is_none());
    assert!(BoundingBox::try_parse("99999999999999999999|2|3|4").is_none());
    // a flat box (bottom equal to top) is accepted
    assert!(BoundingBox::try_parse("1|5|3|5").is_some());
}

#[test]
fn range_and_order_checks_are_exact() {
    // beyond the range by less than a microdegree
    assert!(BoundingBox::try_parse("0|0|0|90.0000001").is_none());
    assert!(BoundingBox::try_parse("-180.0000001|0|0|1").is_none());
    assert!(BoundingBox::try_parse("0|0|180.00000000001|1").is_none());
    assert!(BoundingBox::try_parse("0|-90.0000000001|0|1").is_none());
    // upside down by less than a microdegree
    assert!(BoundingBox::try_parse("0|10.0000009|0|10.0000001").is_none());
    assert!(BoundingBox::try_parse("0|-10.0000001|0|-10.0000009").is_none());
    // at the limits, with trailing zeros
    assert!(BoundingBox::try_parse("-180.000000000|-90.0|180.|90.00000000").is_some());
    // equal sides written differently
    assert!(BoundingBox::try_parse("1|0.5|2|0.50000000").is_some());
    assert!(BoundingBox::try_parse("1|10.0000001|2|10.0000009").is_some());
    assert!(BoundingBox::try_parse("1|-0|2|0").is_some());
    assert!(BoundingBox::try_parse("1|0|2|-0.000").is_some());
    assert!(BoundingBox::try_parse("1|0.0000001|2|-0").is_none());
    let b = BoundingBox::try_parse("1|10.0000001|2|10.0000009").unwrap();
    assert_eq!((b.bottom, b.top), (10000000, 10000001));
    let b = BoundingBox::try_parse("-0.0000005|-0.00000049|0.9999995|0.1").unwrap();
    assert_eq!((b.left, b.bottom, b.right, b.top), (-1, 0, 1000000, 100000));
}
