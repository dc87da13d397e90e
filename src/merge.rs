//! Joining the track logs of consecutive recordings into segments.

use vstd::prelude::*;
use crate::time::local_seconds_of;
use crate::track::{GPXTrackLog, PointView};

verus! {

/// What to do with the next log, given the accumulated one.
#[derive(Clone, Copy, Debug, PartialEq, Eq, Structural)]
pub enum MergeStep {
    /// The gap is within the threshold: continue the segment.
    Append,
    /// The gap is too long: close the segment and start one with this log.
    Split,
    /// A timestamp does not parse or time runs backwards: close the segment,
    /// write this log alone, and start afresh.
    Isolate,
}

/// The decision for a segment ending at `last` and a log starting at `first`
/// (seconds), with the gap threshold in seconds. The threshold is inclusive.
pub open spec fn merge_step_of(last: Option<i64>, first: Option<i64>, threshold: nat) -> MergeStep {
    match (last, first) {
        (Some(t), Some(u)) => if u - t < 0 {
            MergeStep::Isolate
        } else if u - t <= threshold {
            MergeStep::Append
        } else {
            MergeStep::Split
        },
        _ => MergeStep::Isolate,
    }
}

/// Decides how a log that starts at `first` joins a segment that ends at `last`.
pub fn merge_step(last: Option<i64>, first: Option<i64>, threshold: u64) -> (r: MergeStep)
    ensures
        r == merge_step_of(last, first, threshold as nat),
{
    match (last, first) {
        (Some(t), Some(u)) => {
            let gap: i128 = u as i128 - t as i128;
            if gap < 0 {
                MergeStep::Isolate
            } else if gap <= threshold as i128 {
                MergeStep::Append
            } else {
                MergeStep::Split
            }
        },
        _ => MergeStep::Isolate,
    }
}

/// The threshold is inclusive: a log that starts exactly `threshold` seconds
/// after the segment's last point joins it; one that starts a second later
/// opens a new segment.
pub proof fn lemma_threshold_inclusive(t: i64, threshold: u64)
    requires
        t + threshold + 1 <= i64::MAX,
    ensures
        merge_step_of(Some(t), Some((t + threshold) as i64), threshold as nat) == MergeStep::Append,
        merge_step_of(Some(t), Some((t + threshold + 1) as i64), threshold as nat)
            == MergeStep::Split,
{
}

/// Two recordings whose logs are not empty and whose boundary timestamps
/// parse, in order: they form one segment, named by the first, when the gap
/// is at most the threshold, and two segments otherwise.
pub proof fn lemma_two_logs(a: Seq<PointView>, b: Seq<PointView>, threshold: nat)
    requires
        a.len() > 0,
        b.len() > 0,
        local_seconds_of(a.last().time) is Some,
        local_seconds_of(b[0].time) is Some,
        local_seconds_of(a.last().time)->0 <= local_seconds_of(b[0].time)->0,
    ensures
        local_seconds_of(b[0].time)->0 - local_seconds_of(a.last().time)->0 <= threshold
            ==> merged_segments(seq![a, b], threshold) == seq![(0int, a + b)],
        local_seconds_of(b[0].time)->0 - local_seconds_of(a.last().time)->0 > threshold
            ==> merged_segments(seq![a, b], threshold) == seq![(0int, a), (1int, b)],
{
    let logs = seq![a, b];
    assert(logs.drop_last() =~= seq![a]);
    assert(seq![a].drop_last() =~= Seq::<Seq<PointView>>::empty());
    let e = Seq::<Seq<PointView>>::empty();
    assert(merge_state(e, threshold) == (Seq::<(int, Seq<PointView>)>::empty(), 0int, Seq::<PointView>::empty()));
    assert(seq![a].last() == a);
    assert(logs.last() == b);
    assert(merge_state(seq![a], threshold) == (Seq::<(int, Seq<PointView>)>::empty(), 0int, a));
    assert(Seq::<(int, Seq<PointView>)>::empty().push((0int, a)).push((1int, b)) =~= seq![(0int, a), (1int, b)]);
    assert(Seq::<(int, Seq<PointView>)>::empty().push((0int, a + b)) =~= seq![(0int, a + b)]);
}

/// An output segment: the index of the log whose path names it, and its points.
pub struct Segment {
    pub source: usize,
    pub log: GPXTrackLog,
}

pub open spec fn segment_view(s: Segment) -> (int, Seq<PointView>) {
    (s.source as int, s.log@)
}

/// The merge pass over the logs, in order: the segments written so far, the
/// index that names the accumulated segment, and its points.
pub open spec fn merge_state(logs: Seq<Seq<PointView>>, threshold: nat) -> (Seq<(int, Seq<PointView>)>, int, Seq<PointView>)
    decreases logs.len(),
{
    if logs.len() == 0 {
        (Seq::empty(), 0, Seq::empty())
    } else {
        let (out, id, acc) = merge_state(logs.drop_last(), threshold);
        let i = logs.len() - 1;
        let cur = logs.last();
        if acc.len() == 0 {
            (out, i, cur)
        } else if cur.len() == 0 {
            (out, id, acc)
        } else {
            match merge_step_of(local_seconds_of(acc.last().time), local_seconds_of(cur[0].time), threshold) {
                MergeStep::Append => (out, id, acc + cur),
                MergeStep::Split => (out.push((id, acc)), i, cur),
                MergeStep::Isolate => (out.push((id, acc)).push((i, cur)), i, Seq::empty()),
            }
        }
    }
}

/// The segments of a merge pass: those written during the pass, then the
/// accumulated one if it holds any point.
pub open spec fn merged_segments(logs: Seq<Seq<PointView>>, threshold: nat) -> Seq<(int, Seq<PointView>)> {
    let (out, id, acc) = merge_state(logs, threshold);
    if acc.len() > 0 {
        out.push((id, acc))
    } else {
        out
    }
}

/// Merges the logs of recordings sorted by path: a log joins the segment
/// before it when its first point follows the segment's last point by at
/// most `threshold` seconds.
pub fn merge_track_logs(logs: Vec<GPXTrackLog>, threshold: u64) -> (r: Vec<Segment>)
    ensures
        r@.map_values(|s: Segment| segment_view(s)) == merged_segments(
            logs@.map_values(|l: GPXTrackLog| l@),
            threshold as nat,
        ),
{
    let ghost all = logs@.map_values(|l: GPXTrackLog| l@);
    let n = logs.len();
    let mut rest = logs;
    let mut out: Vec<Segment> = Vec::new();
    let mut id: usize = 0;
    let mut acc = GPXTrackLog::new();
    let mut k: usize = 0;
    assert(all.take(0) =~= Seq::<Seq<PointView>>::empty());
    assert(out@.map_values(|s: Segment| segment_view(s)) =~= Seq::<(int, Seq<PointView>)>::empty());
    while k < n
        invariant
            n == all.len(),
            k <= n,
            rest@.map_values(|l: GPXTrackLog| l@) == all.subrange(k as int, n as int),
            merge_state(all.take(k as int), threshold as nat) == (
                out@.map_values(|s: Segment| segment_view(s)),
                id as int,
                acc@,
            ),
            id <= k,
        decreases n - k,
    {
        assert(all.take(k + 1).drop_last() =~= all.take(k as int));
        let ghost rest_before = rest@;
        assert(rest_before.map_values(|l: GPXTrackLog| l@).len() == rest_before.len());
        assert(rest_before.map_values(|l: GPXTrackLog| l@)[0] == all[k as int]);
        assert(rest_before.map_values(|l: GPXTrackLog| l@)[0] == rest_before[0]@);
        let cur = rest.remove(0);
        assert(cur@ == all[k as int]);
        assert(all.take(k + 1).last() == all[k as int]);
        assert forall|i: int| 0 <= i < rest@.len() implies #[trigger] rest@[i]@ == all[k + 1 + i] by {
            assert(rest@[i] == rest_before[i + 1]);
            assert(rest_before.map_values(|l: GPXTrackLog| l@)[i + 1] == rest_before[i + 1]@);
        }
        assert(rest@.map_values(|l: GPXTrackLog| l@) =~= all.subrange(k + 1, n as int));
        let ghost out_before = out@.map_values(|s: Segment| segment_view(s));
        if acc.is_empty() {
            id = k;
            acc = cur;
        } else if cur.is_empty() {
        } else {
            let last = acc.last().unwrap().timestamp();
            let first = cur.first().unwrap().timestamp();
            match merge_step(last, first, threshold) {
                MergeStep::Append => {
                    acc.extend(cur);
                },
                MergeStep::Split => {
                    let done = acc;
                    acc = cur;
                    out.push(Segment { source: id, log: done });
                    assert(out@.map_values(|s: Segment| segment_view(s)) =~= out_before.push(
                        (id as int, done@),
                    ));
                    id = k;
                },
                MergeStep::Isolate => {
                    let done = acc;
                    acc = GPXTrackLog::new();
                    out.push(Segment { source: id, log: done });
                    let ghost cur_view = cur@;
                    out.push(Segment { source: k, log: cur });
                    assert(out@.map_values(|s: Segment| segment_view(s)) =~= out_before.push(
                        (id as int, done@),
                    ).push((k as int, cur_view)));
                    id = k;
                },
            }
        }
        k = k + 1;
    }
    assert(all.take(n as int) =~= all);
    if !acc.is_empty() {
        let ghost out_before = out@.map_values(|s: Segment| segment_view(s));
        let ghost acc_view = acc@;
        out.push(Segment { source: id, log: acc });
        assert(out@.map_values(|s: Segment| segment_view(s)) =~= out_before.push((id as int, acc_view)));
    }
    out
}

/// Without merging: one segment per log, named by that log.
pub fn separate_track_logs(logs: Vec<GPXTrackLog>) -> (r: Vec<Segment>)
    ensures
        r@.map_values(|s: Segment| segment_view(s)) == Seq::new(
            logs@.len(),
            |i: int| (i, logs@[i]@),
        ),
{
    let ghost all = logs@;
    let n = logs.len();
    let mut rest = logs;
    let mut out: Vec<Segment> = Vec::new();
    let mut k: usize = 0;
    while k < n
        invariant
            n == all.len(),
            k <= n,
            rest@ == all.subrange(k as int, n as int),
            out@.map_values(|s: Segment| segment_view(s)) =~= Seq::new(k as nat, |i: int| (i, all[i]@)),
        decreases n - k,
    {
        let ghost out_before = out@.map_values(|s: Segment| segment_view(s));
        let cur = rest.remove(0);
        assert(cur == all[k as int]);
        assert(rest@ =~= all.subrange(k + 1, n as int));
        out.push(Segment { source: k, log: cur });
        assert(out@.map_values(|s: Segment| segment_view(s)) =~= out_before.push((k as int, all[k as int]@)));
        k = k + 1;
    }
    out
}

} // verus!
