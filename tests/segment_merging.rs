use zdr055_gpx::decimal::Decimal;
use zdr055_gpx::merge::{merge_step, merge_track_logs, separate_track_logs, MergeStep};
use zdr055_gpx::track::{GPXTrackLog, GPXTrackPoint};

fn log(times: &[&str]) -> GPXTrackLog {
    let mut l = GPXTrackLog::new();
    for (i, t) in times.iter().enumerate() {
        let lat = Decimal { negative: false, mantissa: i as u64 + 1, scale: 0 };
        l.push(GPXTrackPoint::new(lat, Decimal::zero(), Decimal::zero(), Decimal::zero(), t.as_bytes().to_vec()));
    }
    l
}

fn shape(segments: &[zdr055_gpx::merge::Segment]) -> Vec<(usize, usize)> {
    segments.iter().map(|s| (s.source, s.log.len())).collect()
}

#[test]
fn gap_equal_to_threshold_merges() {
    let a = log(&["2023-05-01 11:59:00", "2023-05-01 12:00:00"]);
    let b = log(&["2023-05-01 12:01:00", "2023-05-01 12:02:00"]);
    let out = merge_track_logs(vec![a, b], 60);
    assert_eq!(shape(&out), vec![(0, 4)]);
}

#[test]
fn gap_one_second_over_threshold_splits() {
    let a = log(&["2023-05-01 12:00:00"]);
    let b = log(&["2023-05-01 12:01:01"]);
    let out = merge_track_logs(vec![a, b], 60);
    assert_eq!(shape(&out), vec![(0, 1), (1, 1)]);
}

#[test]
fn merge_step_boundaries() {
    let t: i64 = 1_682_910_000;
    assert_eq!(merge_step(Some(t), Some(t + 21600), 21600), MergeStep::Append);
    assert_eq!(merge_step(Some(t), Some(t + 21601), 21600), MergeStep::Split);
    assert_eq!(merge_step(Some(t), Some(t), 0), MergeStep::Append);
    assert_eq!(merge_step(Some(t), Some(t - 1), 21600), MergeStep::Isolate);
    assert_eq!(merge_step(None, Some(t), 21600), MergeStep::Isolate);
    assert_eq!(merge_step(Some(t), None, 21600), MergeStep::Isolate);
    assert_eq!(merge_step(Some(i64::MIN), Some(i64::MAX), u64::MAX), MergeStep::Append);
}

#[test]
fn backwards_time_isolates_the_log() {
    let a = log(&["2023-05-01 12:00:00"]);
    let b = log(&["2023-05-01 11:00:00"]);
    let c = log(&["2023-05-01 11:00:30"]);
    let out = merge_track_logs(vec![a, b, c], 60);
    assert_eq!(shape(&out), vec![(0, 1), (1, 1), (2, 1)]);
}

#[test]
fn unreadable_timestamp_isolates_the_log() {
    let a = log(&["2023-05-01 12:00:00"]);
    let b = log(&["not a time"]);
    let c = log(&["2023-05-01 12:00:10"]);
    let d = log(&["2023-05-01 12:00:20"]);
    let out = merge_track_logs(vec![a, b, c, d], 60);
    assert_eq!(shape(&out), vec![(0, 1), (1, 1), (2, 2)]);
}

#[test]
fn empty_logs_are_passed_over() {
    let out = merge_track_logs(vec![log(&[]), log(&["2023-05-01 12:00:00"]), log(&[]), log(&["2023-05-01 12:00:30"])], 60);
    assert_eq!(shape(&out), vec![(1, 2)]);
    assert!(merge_track_logs(vec![log(&[]), log(&[])], 60).is_empty());
    assert!(merge_track_logs(Vec::new(), 60).is_empty());
}

#[test]
fn without_merging_each_log_is_its_own_segment() {
    let out = separate_track_logs(vec![log(&["2023-05-01 12:00:00"]), log(&[]), log(&["a", "b"])]);
    assert_eq!(shape(&out), vec![(0, 1), (1, 0), (2, 2)]);
}
