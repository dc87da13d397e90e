use zdr055_gpx::decimal::Decimal;
use zdr055_gpx::record::{FormatError, ZDR055PositionData};

const LINE: &str = "DEV1:2023-05-01 12:00:00 X:0.01 Y:-0.02 Z:0.03 12.3T 4.0V REC 35.123456 N 139.123456 E 42.5km/h E:1 M:2 EM:3 SA:0 V:5 S:100k 1,2,3";

fn dec(negative: bool, mantissa: u64, scale: usize) -> Decimal {
    Decimal { negative, mantissa, scale }
}

fn parse(s: &str) -> Result<ZDR055PositionData, FormatError> {
    ZDR055PositionData::parse(s.as_bytes())
}

#[test]
fn parses_full_line() {
    let d = parse(LINE).unwrap();
    assert_eq!(d.device, b"DEV1".to_vec());
    assert_eq!(d.timestamp, b"2023-05-01 12:00:00".to_vec());
    assert_eq!(d.latitude, dec(false, 35123456, 6));
    assert_eq!(d.longitude, dec(false, 139123456, 6));
    assert_eq!(d.speed, dec(false, 425, 1));
    assert!(d.is_valid());
}

#[test]
fn parses_every_field() {
    let d = parse(LINE).unwrap();
    assert_eq!(d.x_accel, dec(false, 1, 2));
    assert_eq!(d.y_accel, dec(true, 2, 2));
    assert_eq!(d.z_accel, dec(false, 3, 2));
    assert_eq!(d.unknown_field_t, b"12.3T".to_vec());
    assert_eq!(d.supply_voltage, dec(false, 4, 0));
    assert_eq!(d.event_type, b"REC".to_vec());
    assert_eq!(
        (d.e_value, d.m_value, d.em_value, d.sa_value, d.firmware_version, d.s_value),
        (1, 2, 3, 0, 5, 100)
    );
    assert_eq!(d.unknown_field_tail, b"1,2,3".to_vec());
}

#[test]
fn southern_and_western_hemispheres_negate() {
    let base = parse(LINE).unwrap();
    let south = parse(&LINE.replace(" N ", " S ")).unwrap();
    assert_eq!(south.latitude, dec(true, 35123456, 6));
    assert_eq!(south.longitude, base.longitude);
    let west = parse(&LINE.replace(" E 42", " W 42")).unwrap();
    assert_eq!(west.longitude, dec(true, 139123456, 6));
    assert_eq!(west.latitude, base.latitude);
    let both = parse(&LINE.replace(" N ", " S ").replace(" E 42", " W 42")).unwrap();
    assert_eq!(both.latitude, dec(true, 35123456, 6));
    assert_eq!(both.longitude, dec(true, 139123456, 6));
    assert_eq!(both.speed, base.speed);
    assert_eq!(both.timestamp, base.timestamp);
    assert_eq!(both.unknown_field_tail, base.unknown_field_tail);
    assert!(both.is_valid());
}

#[test]
fn dash_event_is_placeholder() {
    let line = "DEV1:2023-05-01 12:00:00 X:0.01 Y:-0.02 Z:0.03 12.3T 4.0V - --.------ - ---.------ - ---km/h E:x";
    let d = parse(line).unwrap();
    assert!(!d.is_valid());
    assert_eq!(d.device, b"DEV1".to_vec());
    assert_eq!(d.timestamp, b"2023-05-01 12:00:00".to_vec());
    assert_eq!(d.latitude, Decimal::zero());
    assert_eq!(d.event_type, Vec::<u8>::new());
}

#[test]
fn zero_voltage_is_placeholder() {
    let d = parse(&LINE.replace("4.0V", "0.0V")).unwrap();
    assert!(!d.is_valid());
    assert_eq!(d.device, b"DEV1".to_vec());
    assert_eq!(d.timestamp, b"2023-05-01 12:00:00".to_vec());
    assert_eq!(d.speed, Decimal::zero());
    assert_eq!(d.unknown_field_tail, Vec::<u8>::new());
}

#[test]
fn field_errors_name_the_field() {
    let cases: Vec<(String, FormatError)> = vec![
        ("no colon here".to_string(), FormatError::Device),
        ("DEV1:2023-05-01".to_string(), FormatError::Timestamp),
        (LINE.replace("X:0.01", "Q:0.01"), FormatError::XAccel),
        (LINE.replace("X:0.01", "X:abc"), FormatError::XAccel),
        (LINE.replace("Y:-0.02", "Y:-"), FormatError::YAccel),
        (LINE.replace("Z:0.03", "Z:1.2.3"), FormatError::ZAccel),
        (LINE.replace("4.0V", "4.0"), FormatError::Voltage),
        (LINE.replace("35.123456", "35.12x"), FormatError::Latitude),
        (LINE.replace("139.123456", ".."), FormatError::Longitude),
        (LINE.replace("42.5km/h", "42.5kmh"), FormatError::Speed),
        (LINE.replace("E:1", "E:300"), FormatError::EValue),
        (LINE.replace("M:2", "X:2"), FormatError::MValue),
        (LINE.replace("EM:3", "EM:"), FormatError::EmValue),
        (LINE.replace("SA:0", "SA:-1"), FormatError::SaValue),
        (LINE.replace("V:5", "V:256"), FormatError::FirmwareVersion),
        (LINE.replace("S:100k", "S:100"), FormatError::SValue),
        (LINE.replace(" 1,2,3", ""), FormatError::Tail),
    ];
    for (line, err) in cases {
        assert_eq!(parse(&line).err(), Some(err), "{}", line);
    }
}

#[test]
fn truncated_lines_fail_at_their_first_missing_word() {
    let base = "DEV1:2023-05-01 12:00:00 X:0.01 Y:-0.02 Z:0.03 12.3T 4.0V REC 35.123456 N 139.123456 E";
    assert_eq!(parse("DEV1:2023-05-01 12:00:00 X:0.01").err(), Some(FormatError::XAccel));
    assert_eq!(parse("DEV1:2023-05-01 12:00:00 X:0.01 Y:1 Z:2 ").err(), Some(FormatError::UnknownT));
    assert_eq!(parse("DEV1:2023-05-01 12:00:00 X:0.01 Y:1 Z:2 T 4.0V").err(), Some(FormatError::Voltage));
    assert_eq!(parse("DEV1:2023-05-01 12:00:00 X:0.01 Y:1 Z:2 T 4.0V REC").err(), Some(FormatError::Event));
    assert_eq!(parse("DEV1:2023-05-01 12:00:00 X:0.01 Y:1 Z:2 T 4.0V REC 35.1").err(), Some(FormatError::Latitude));
    assert_eq!(parse("DEV1:2023-05-01 12:00:00 X:0.01 Y:1 Z:2 T 4.0V REC 35.1 N").err(), Some(FormatError::NorthSouth));
    assert_eq!(parse("DEV1:2023-05-01 12:00:00 X:0.01 Y:1 Z:2 T 4.0V REC 35.1 N 139.1").err(), Some(FormatError::Longitude));
    assert_eq!(parse(base).err(), Some(FormatError::EastWest));
}

#[test]
fn same_position_ignores_timestamp() {
    let a = parse(LINE).unwrap();
    let b = parse(&LINE.replace("12:00:00", "12:00:05")).unwrap();
    assert!(a.has_same_position(&b));
    assert!(!a.has_same_timestamp(&b));
    let c = parse(&LINE.replace("35.123456", "35.1234560")).unwrap();
    assert!(a.has_same_position(&c));
    let d = parse(&LINE.replace("35.123456", "35.123457")).unwrap();
    assert!(!a.has_same_position(&d));
}

#[test]
fn point_of_sample_has_zero_elevation() {
    let p = parse(LINE).unwrap().to_gpx_point();
    assert_eq!(p.lat, dec(false, 35123456, 6));
    assert_eq!(p.lon, dec(false, 139123456, 6));
    assert_eq!(p.ele, Decimal::zero());
    assert_eq!(p.speed, dec(false, 425, 1));
    assert_eq!(p.time, b"2023-05-01 12:00:00".to_vec());
}
