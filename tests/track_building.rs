use zdr055_gpx::decimal::Decimal;
use zdr055_gpx::track::{build_track_log, GPXTrackLog, GPXTrackPoint};

fn line(time: &str, lat: &str, lon: &str) -> Vec<u8> {
    format!(
        "DEV1:{} X:0.01 Y:-0.02 Z:0.03 12.3T 4.0V REC {} N {} E 42.5km/h E:1 M:2 EM:3 SA:0 V:5 S:100k 1,2,3",
        time, lat, lon
    )
    .into_bytes()
}

fn point(time: &str) -> GPXTrackPoint {
    GPXTrackPoint::new(Decimal::zero(), Decimal::zero(), Decimal::zero(), Decimal::zero(), time.as_bytes().to_vec())
}

#[test]
fn identical_positions_collapse_to_one_point() {
    let lines = vec![
        line("2023-05-01 12:00:00", "35.123456", "139.123456"),
        line("2023-05-01 12:00:01", "35.123456", "139.123456"),
    ];
    let log = build_track_log(&lines);
    assert_eq!(log.len(), 1);
    assert_eq!(log.first().unwrap().time, b"2023-05-01 12:00:00".to_vec());
}

#[test]
fn a_stationary_burst_collapses_but_a_return_is_kept() {
    let lines = vec![
        line("2023-05-01 12:00:00", "35.1", "139.1"),
        line("2023-05-01 12:00:01", "35.1", "139.1"),
        line("2023-05-01 12:00:02", "35.1", "139.1"),
        line("2023-05-01 12:00:03", "35.2", "139.1"),
        line("2023-05-01 12:00:04", "35.1", "139.1"),
    ];
    let log = build_track_log(&lines);
    let times: Vec<Vec<u8>> = log.points.iter().map(|p| p.time.clone()).collect();
    assert_eq!(
        times,
        vec![
            b"2023-05-01 12:00:00".to_vec(),
            b"2023-05-01 12:00:03".to_vec(),
            b"2023-05-01 12:00:04".to_vec()
        ]
    );
}

#[test]
fn invalid_and_malformed_lines_are_skipped() {
    let mut placeholder = line("2023-05-01 12:00:01", "35.2", "139.2");
    placeholder = String::from_utf8(placeholder).unwrap().replace("4.0V", "0.0V").into_bytes();
    let lines = vec![
        b"garbage".to_vec(),
        line("2023-05-01 12:00:00", "35.1", "139.1"),
        placeholder,
        line("2023-05-01 12:00:02", "35.1", "139.1"),
        line("2023-05-01 12:00:03", "35.3", "139.1"),
    ];
    let log = build_track_log(&lines);
    assert_eq!(log.len(), 2);
    assert_eq!(log.last().unwrap().lat, Decimal { negative: false, mantissa: 353, scale: 1 });
}

#[test]
fn empty_input_gives_empty_log() {
    let log = build_track_log(&Vec::new());
    assert!(log.is_empty());
    assert!(log.first().is_none());
    assert!(log.last().is_none());
}

#[test]
fn logs_push_and_extend_in_order() {
    let mut a = GPXTrackLog::new();
    a.push(point("1"));
    let mut b = GPXTrackLog::new();
    b.push(point("2"));
    b.push(point("3"));
    a.extend(b);
    assert_eq!(a.len(), 3);
    assert_eq!(a.first().unwrap().time, b"1".to_vec());
    assert_eq!(a.last().unwrap().time, b"3".to_vec());
    assert!(!a.is_empty());
}
