use oscq_rs::{OSCAngle, OSCDistance, OSCGain, OSCSpeed, OSCTime, OSCUnit, OscQueryError, OscRangeBounds};

fn all_units() -> Vec<OSCUnit> {
    vec![
        OSCUnit::Distance(OSCDistance::Meter),
        OSCUnit::Distance(OSCDistance::Kilometer),
        OSCUnit::Distance(OSCDistance::Decimeter),
        OSCUnit::Distance(OSCDistance::Centimeter),
        OSCUnit::Distance(OSCDistance::Millimeter),
        OSCUnit::Distance(OSCDistance::Micrometer),
        OSCUnit::Distance(OSCDistance::Nanometer),
        OSCUnit::Distance(OSCDistance::Picometer),
        OSCUnit::Distance(OSCDistance::Inches),
        OSCUnit::Distance(OSCDistance::Feet),
        OSCUnit::Distance(OSCDistance::Miles),
        OSCUnit::Distance(OSCDistance::Pixels),
        OSCUnit::Angle(OSCAngle::Degree),
        OSCUnit::Angle(OSCAngle::Radian),
        OSCUnit::Gain(OSCGain::Linear),
        OSCUnit::Gain(OSCGain::Midigain),
        OSCUnit::Gain(OSCGain::Db),
        OSCUnit::Gain(OSCGain::DbRaw),
        OSCUnit::Time(OSCTime::Second),
        OSCUnit::Time(OSCTime::Bark),
        OSCUnit::Time(OSCTime::Bpm),
        OSCUnit::Time(OSCTime::Cents),
        OSCUnit::Time(OSCTime::Hz),
        OSCUnit::Time(OSCTime::Mel),
        OSCUnit::Time(OSCTime::Midinote),
        OSCUnit::Time(OSCTime::Millisecond),
        OSCUnit::Time(OSCTime::Speed),
        OSCUnit::Time(OSCTime::Samples),
        OSCUnit::Speed(OSCSpeed::MetersPerSeconds),
        OSCUnit::Speed(OSCSpeed::MilesPerHour),
        OSCUnit::Speed(OSCSpeed::KilometersPerHour),
        OSCUnit::Speed(OSCSpeed::Knots),
        OSCUnit::Speed(OSCSpeed::FeetPerSecond),
        OSCUnit::Speed(OSCSpeed::FeetPerHour),
        OSCUnit::Speed(OSCSpeed::PixelsPerSecond),
    ]
}

#[test]
fn test_serialize() {
    assert_eq!(
        format!("\"{}\"", OSCUnit::Distance(OSCDistance::Kilometer).encode()),
        r#""distance.km""#
    );
    assert_eq!(
        format!("\"{}\"", OSCUnit::Speed(OSCSpeed::MetersPerSeconds).encode()),
        r#""speed.m/s""#
    );
    assert_eq!(
        format!("\"{}\"", OSCUnit::Time(OSCTime::Samples).encode()),
        r#""time.samples""#
    );
}

#[test]
fn test_deserialize() {
    assert_eq!(
        OSCUnit::decode("distance.km").unwrap(),
        OSCUnit::Distance(OSCDistance::Kilometer)
    );
    assert_eq!(
        OSCUnit::decode("speed.m/s").unwrap(),
        OSCUnit::Speed(OSCSpeed::MetersPerSeconds)
    );
    assert_eq!(
        OSCUnit::decode("time.samples").unwrap(),
        OSCUnit::Time(OSCTime::Samples)
    );
}

#[test]
fn test_serialize_deserialize() {
    let osc_units = vec![
        OSCUnit::Distance(OSCDistance::Meter),
        OSCUnit::Angle(OSCAngle::Degree),
        OSCUnit::Gain(OSCGain::Db),
        OSCUnit::Time(OSCTime::Bpm),
        OSCUnit::Speed(OSCSpeed::KilometersPerHour),
    ];

    for osc_unit in osc_units {
        let encoded = osc_unit.encode();
        let parsed_osc_unit = OSCUnit::decode(&encoded).unwrap();

        assert_eq!(osc_unit, parsed_osc_unit);
    }
}

#[test]
fn test_deserialize_invalid_string() {
    let invalid_str = "invalid.string";
    let result = OSCUnit::decode(invalid_str);
    assert!(result.is_err());
}

#[test]
fn every_unit_round_trips() {
    for u in all_units() {
        let text = u.encode();
        assert_eq!(OSCUnit::decode(&text).unwrap(), u);
    }
}

#[test]
fn unit_encodings_are_distinct() {
    let units = all_units();
    for i in 0..units.len() {
        for j in 0..units.len() {
            if i != j {
                assert_ne!(units[i].encode(), units[j].encode());
            }
        }
    }
}

#[test]
fn decode_unknown_category_names_the_token() {
    match OSCUnit::decode("bogus.x") {
        Err(OscQueryError::UnknownUnitVariant(t)) => assert_eq!(t, "bogus"),
        other => panic!("expected an unknown-variant error, got {:?}", other),
    }
}

#[test]
fn decode_unknown_member_names_the_token() {
    match OSCUnit::decode("distance.lightyear") {
        Err(OscQueryError::UnknownUnitVariant(t)) => assert_eq!(t, "lightyear"),
        other => panic!("expected an unknown-variant error, got {:?}", other),
    }
}

#[test]
fn decode_speed_kmh() {
    assert_eq!(
        OSCUnit::decode("speed.km/h").unwrap(),
        OSCUnit::Speed(OSCSpeed::KilometersPerHour)
    );
}

#[test]
fn range_keys_round_trip() {
    for b in [OscRangeBounds::Min, OscRangeBounds::Max, OscRangeBounds::Discrete] {
        assert_eq!(OscRangeBounds::decode(b.token()).unwrap(), b);
    }
    assert_eq!(OscRangeBounds::decode("MIN").unwrap(), OscRangeBounds::Min);
    assert_eq!(OscRangeBounds::decode("MAX").unwrap(), OscRangeBounds::Max);
    assert_eq!(OscRangeBounds::decode("VALS").unwrap(), OscRangeBounds::Discrete);
}

#[test]
fn unknown_range_key_is_rejected() {
    match OscRangeBounds::decode("STEP") {
        Err(OscQueryError::UnknownRangeKey(k)) => assert_eq!(k, "STEP"),
        other => panic!("expected an unknown-key error, got {:?}", other),
    }
}
