use zdr055_gpx::decimal::Decimal;
use zdr055_gpx::gpx::{to_gpx_string, GPX};
use zdr055_gpx::media::get_output_path;
use zdr055_gpx::track::{GPXTrackLog, GPXTrackPoint};

const HEADER: &str = "<gpx xmlns=\"http://www.topografix.com/GPX/1/1\" xmlns:xsi=\"http://www.w3.org/2001/XMLSchema-instance\" xsi:schemaLocation=\"http://www.topografix.com/GPX/1/1 http://www.topografix.com/GPX/1/1/gpx.xsd\" version=\"1.1\" creator=\"zdr055_gpx\">\n";

fn text(v: Vec<u8>) -> String {
    String::from_utf8(v).unwrap()
}

#[test]
fn empty_log_gives_empty_segment() {
    let doc = text(GPX::new(GPXTrackLog::new()).to_str());
    assert_eq!(doc, format!("{}<trk><trkseg></trkseg></trk>\n\n</gpx>", HEADER));
}

#[test]
fn one_point_log_gives_one_point_element() {
    let mut log = GPXTrackLog::new();
    log.push(GPXTrackPoint::new(
        Decimal { negative: false, mantissa: 35123456, scale: 6 },
        Decimal { negative: true, mantissa: 139123456, scale: 6 },
        Decimal::zero(),
        Decimal { negative: false, mantissa: 425, scale: 1 },
        b"2023-05-01 12:00:00".to_vec(),
    ));
    let doc = text(GPX::new(log).to_str());
    assert_eq!(doc.matches("<trkpt ").count(), 1);
    assert_eq!(
        doc,
        format!(
            "{}<trk><trkseg><trkpt lat=\"35.1234560\" lon=\"-139.1234560\"><ele>0.00</ele><time>2023-05-01T12:00:00+09:00</time><desc>42.50 km/h</desc></trkpt></trkseg></trk>\n\n</gpx>",
            HEADER
        )
    );
}

#[test]
fn unreadable_time_falls_back_to_epoch() {
    let p = GPXTrackPoint::new(Decimal::zero(), Decimal::zero(), Decimal::zero(), Decimal::zero(), b"2023-13-01 12:00:00".to_vec());
    assert_eq!(
        text(p.to_gpx_string()),
        "<trkpt lat=\"0.0000000\" lon=\"0.0000000\"><ele>0.00</ele><time>1970-01-01T00:00:00+09:00</time><desc>0.00 km/h</desc></trkpt>"
    );
}

#[test]
fn track_element_joins_points() {
    let mut log = GPXTrackLog::new();
    for t in ["2023-05-01 23:59:59", "2023-05-02 00:00:00"] {
        log.push(GPXTrackPoint::new(Decimal::zero(), Decimal::zero(), Decimal::zero(), Decimal::zero(), t.as_bytes().to_vec()));
    }
    let s = text(log.to_str());
    assert!(s.starts_with("<trk><trkseg><trkpt "));
    assert!(s.ends_with("</trkpt></trkseg></trk>\n"));
    assert_eq!(s.matches("<trkpt ").count(), 2);
    assert!(s.contains("<time>2023-05-01T23:59:59+09:00</time>"));
    assert!(s.contains("<time>2023-05-02T00:00:00+09:00</time>"));
}

#[test]
fn root_element_wraps_child() {
    assert_eq!(text(to_gpx_string(b"X")), format!("{}X\n</gpx>", HEADER));
}

#[test]
fn output_path_uses_file_stem() {
    assert_eq!(get_output_path("/in/REC0001.AVI", "/out"), Some("/out/REC0001.gpx".to_string()));
    assert_eq!(get_output_path("clip.tar.avi", "./"), Some("./clip.tar.gpx".to_string()));
    assert_eq!(get_output_path("/", "/out"), None);
}
