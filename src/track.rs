//! Track points and track logs, and the deduplicated log of one recording.

use vstd::prelude::*;
use crate::decimal::Decimal;
use crate::time::{local_seconds, local_seconds_of};
use crate::record::{ZDR055PositionData, SampleView, record_of};

verus! {

/// A positioned, timestamped point. The format carries no altitude, so the
/// elevation of a point built from a sample is zero.
#[derive(Clone, Debug)]
pub struct GPXTrackPoint {
    pub lat: Decimal,
    pub lon: Decimal,
    pub ele: Decimal,
    pub speed: Decimal,
    pub time: Vec<u8>,
}

pub struct PointView {
    pub lat: Decimal,
    pub lon: Decimal,
    pub ele: Decimal,
    pub speed: Decimal,
    pub time: Seq<u8>,
}

impl View for GPXTrackPoint {
    type V = PointView;

    open spec fn view(&self) -> PointView {
        PointView { lat: self.lat, lon: self.lon, ele: self.ele, speed: self.speed, time: self.time@ }
    }
}

impl GPXTrackPoint {
    pub fn new(lat: Decimal, lon: Decimal, ele: Decimal, speed: Decimal, time: Vec<u8>) -> (r: Self)
        ensures
            r@ == (PointView { lat, lon, ele, speed, time: time@ }),
    {
        GPXTrackPoint { lat, lon, ele, speed, time }
    }

    /// The point's time in seconds since the Unix epoch, when its timestamp
    /// reads as one instant of local time.
    pub fn timestamp(&self) -> (r: Option<i64>)
        ensures
            r == local_seconds_of(self.time@),
    {
        local_seconds(self.time.as_slice())
    }
}

/// The point a valid sample stands for.
pub open spec fn point_of(s: SampleView) -> PointView {
    PointView {
        lat: s.latitude,
        lon: s.longitude,
        ele: Decimal::spec_zero(),
        speed: s.speed,
        time: s.timestamp,
    }
}

impl ZDR055PositionData {
    pub fn to_gpx_point(&self) -> (r: GPXTrackPoint)
        ensures
            r@ == point_of(self@),
    {
        let time = copy_bytes(&self.timestamp);
        GPXTrackPoint::new(self.latitude, self.longitude, Decimal::zero(), self.speed, time)
    }
}

fn copy_bytes(v: &Vec<u8>) -> (r: Vec<u8>)
    ensures
        r@ == v@,
{
    crate::text::copy_range(v.as_slice(), 0, v.len())
}

/// An ordered sequence of track points.
#[derive(Clone, Debug)]
pub struct GPXTrackLog {
    pub points: Vec<GPXTrackPoint>,
}

impl View for GPXTrackLog {
    type V = Seq<PointView>;

    open spec fn view(&self) -> Seq<PointView> {
        self.points@.map_values(|p: GPXTrackPoint| p@)
    }
}

/// Two points at the same latitude and longitude.
pub open spec fn same_position(a: PointView, b: PointView) -> bool {
    a.lat == b.lat && a.lon == b.lon
}

/// No two neighbouring points share their position.
pub open spec fn no_adjacent_repeats(s: Seq<PointView>) -> bool {
    forall|i: int| 0 < i < s.len() ==> !same_position(#[trigger] s[i - 1], s[i])
}

impl GPXTrackLog {
    pub fn new() -> (r: Self)
        ensures
            r@ == Seq::<PointView>::empty(),
    {
        GPXTrackLog { points: Vec::new() }
    }

    /// Appends the points of `other`.
    pub fn extend(&mut self, other: GPXTrackLog)
        ensures
            final(self)@ == old(self)@ + other@,
    {
        let mut other = other;
        let ghost a = self@;
        let ghost b = other@;
        self.points.append(&mut other.points);
        assert(self@ =~= a + b);
    }

    pub fn push(&mut self, point: GPXTrackPoint)
        ensures
            final(self)@ == old(self)@.push(point@),
    {
        let ghost a = self@;
        self.points.push(point);
        assert(self@ =~= a.push(point@));
    }

    pub fn first(&self) -> (r: Option<&GPXTrackPoint>)
        ensures
            self@.len() == 0 ==> r is None,
            self@.len() > 0 ==> (r matches Some(p) && p@ == self@[0]),
    {
        if self.points.len() == 0 {
            None
        } else {
            Some(&self.points[0])
        }
    }

    pub fn last(&self) -> (r: Option<&GPXTrackPoint>)
        ensures
            self@.len() == 0 ==> r is None,
            self@.len() > 0 ==> (r matches Some(p) && p@ == self@.last()),
    {
        let n = self.points.len();
        if n == 0 {
            None
        } else {
            Some(&self.points[n - 1])
        }
    }

    pub fn is_empty(&self) -> (r: bool)
        ensures
            r == (self@.len() == 0),
    {
        self.points.len() == 0
    }

    pub fn len(&self) -> (r: usize)
        ensures
            r == self@.len(),
    {
        self.points.len()
    }
}

/// The track of a sequence of lines: each line that decodes to a valid sample
/// adds its point, unless the last point kept has the same position.
pub open spec fn track_of(lines: Seq<Seq<u8>>) -> Seq<PointView>
    decreases lines.len(),
{
    if lines.len() == 0 {
        Seq::empty()
    } else {
        let prev = track_of(lines.drop_last());
        match record_of(lines.last()) {
            Ok(s) => if s.is_valid && !(prev.len() > 0 && same_position(prev.last(), point_of(s))) {
                prev.push(point_of(s))
            } else {
                prev
            },
            Err(_) => prev,
        }
    }
}

/// A line whose sample is valid and at the same position as the valid sample
/// of the line before it adds no point, whatever its timestamp.
pub proof fn lemma_repeated_position_collapses(lines: Seq<Seq<u8>>, l1: Seq<u8>, l2: Seq<u8>)
    requires
        record_of(l1) is Ok,
        record_of(l2) is Ok,
        record_of(l1)->Ok_0.is_valid,
        record_of(l2)->Ok_0.is_valid,
        record_of(l1)->Ok_0.latitude == record_of(l2)->Ok_0.latitude,
        record_of(l1)->Ok_0.longitude == record_of(l2)->Ok_0.longitude,
    ensures
        track_of(lines.push(l1).push(l2)) == track_of(lines.push(l1)),
        track_of(lines.push(l1)).len() > 0,
{
    assert(lines.push(l1).push(l2).drop_last() =~= lines.push(l1));
    assert(lines.push(l1).drop_last() =~= lines);
    let prev = track_of(lines.push(l1));
    assert(prev.len() > 0 && same_position(prev.last(), point_of(record_of(l1)->Ok_0)));
}

/// Builds the track of the telemetry lines of one recording.
pub fn build_track_log(lines: &Vec<Vec<u8>>) -> (r: GPXTrackLog)
    ensures
        r@ == track_of(lines@.map_values(|l: Vec<u8>| l@)),
        no_adjacent_repeats(r@),
{
    let ghost ls = lines@.map_values(|l: Vec<u8>| l@);
    let mut log = GPXTrackLog::new();
    assert(ls.take(0) =~= Seq::<Seq<u8>>::empty());
    let mut k: usize = 0;
    while k < lines.len()
        invariant
            k <= lines@.len(),
            ls == lines@.map_values(|l: Vec<u8>| l@),
            log@ == track_of(ls.take(k as int)),
            no_adjacent_repeats(log@),
        decreases lines@.len() - k,
    {
        assert(ls.take(k + 1).drop_last() =~= ls.take(k as int));
        assert(ls.take(k + 1).last() == lines[k as int]@);
        match ZDR055PositionData::parse(lines[k].as_slice()) {
            Err(_) => {},
            Ok(sample) => {
                if sample.is_valid() {
                    let repeated = match log.last() {
                        Some(p) => p.lat == sample.latitude && p.lon == sample.longitude,
                        None => false,
                    };
                    if !repeated {
                        let ghost before = log@;
                        log.push(sample.to_gpx_point());
                        assert(no_adjacent_repeats(log@)) by {
                            assert forall|i: int| 0 < i < log@.len() implies !same_position(
                                #[trigger] log@[i - 1],
                                log@[i],
                            ) by {
                                if i < log@.len() - 1 {
                                    assert(log@[i - 1] == before[i - 1] && log@[i] == before[i]);
                                }
                            }
                        }
                    }
                }
            },
        }
        k = k + 1;
    }
    assert(ls.take(k as int) =~= ls);
    log
}

} // verus!
