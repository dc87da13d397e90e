//! The GPX document of a track log.

use vstd::prelude::*;
use vstd::string::StringSliceAdditionalSpecFns;
use crate::decimal::{fixed_text, push_fixed};
use crate::time::{local_iso_text, local_iso_text_of};
use crate::track::{GPXTrackLog, GPXTrackPoint, PointView};

verus! {

/// The time written for a point whose timestamp cannot be read: the epoch of
/// local time.
pub open spec fn fallback_time() -> Seq<u8> {
    "1970-01-01T00:00:00+09:00".spec_bytes()
}

/// The time element's text: the ISO-8601 local time, or the fallback.
pub open spec fn time_text(t: Seq<u8>) -> Seq<u8> {
    match local_iso_text_of(t) {
        Some(s) => s,
        None => fallback_time(),
    }
}

/// One `trkpt` element: coordinates with 7 decimals, elevation and speed with 2.
pub open spec fn point_text(p: PointView) -> Seq<u8> {
    "<trkpt lat=\"".spec_bytes() + fixed_text(p.lat, 7) + "\" lon=\"".spec_bytes() + fixed_text(
        p.lon,
        7,
    ) + "\"><ele>".spec_bytes() + fixed_text(p.ele, 2) + "</ele><time>".spec_bytes() + time_text(
        p.time,
    ) + "</time><desc>".spec_bytes() + fixed_text(p.speed, 2) + " km/h</desc></trkpt>".spec_bytes()
}

/// The elements of the points, one after another.
pub open spec fn points_text(ps: Seq<PointView>) -> Seq<u8>
    decreases ps.len(),
{
    if ps.len() == 0 {
        Seq::empty()
    } else {
        points_text(ps.drop_last()) + point_text(ps.last())
    }
}

/// One track with one segment holding the points (possibly none).
pub open spec fn track_text(ps: Seq<PointView>) -> Seq<u8> {
    "<trk><trkseg>".spec_bytes() + points_text(ps) + "</trkseg></trk>\n".spec_bytes()
}

/// The GPX 1.1 root element around `child`.
pub open spec fn gpx_text(child: Seq<u8>) -> Seq<u8> {
    "<gpx xmlns=\"http://www.topografix.com/GPX/1/1\" xmlns:xsi=\"http://www.w3.org/2001/XMLSchema-instance\" xsi:schemaLocation=\"http://www.topografix.com/GPX/1/1 http://www.topografix.com/GPX/1/1/gpx.xsd\" version=\"1.1\" creator=\"zdr055_gpx\">\n".spec_bytes()
        + child + "\n</gpx>".spec_bytes()
}

/// Appends the bytes of `s`.
pub fn push_str(out: &mut Vec<u8>, s: &str)
    ensures
        final(out)@ == old(out)@ + s.spec_bytes(),
{
    let b = s.as_bytes();
    let mut i: usize = 0;
    while i < b.len()
        invariant
            i <= b@.len(),
            b@ == s.spec_bytes(),
            out@ == old(out)@ + b@.take(i as int),
        decreases b@.len() - i,
    {
        out.push(b[i]);
        i = i + 1;
        assert(out@ =~= old(out)@ + b@.take(i as int));
    }
    assert(b@.take(i as int) =~= b@);
}

/// Appends `s`.
pub fn push_bytes(out: &mut Vec<u8>, s: &[u8])
    ensures
        final(out)@ == old(out)@ + s@,
{
    let mut i: usize = 0;
    while i < s.len()
        invariant
            i <= s@.len(),
            out@ == old(out)@ + s@.take(i as int),
        decreases s@.len() - i,
    {
        out.push(s[i]);
        i = i + 1;
        assert(out@ =~= old(out)@ + s@.take(i as int));
    }
    assert(s@.take(i as int) =~= s@);
}

/// Wraps `child` in the GPX root element.
pub fn to_gpx_string(child: &[u8]) -> (r: Vec<u8>)
    ensures
        r@ == gpx_text(child@),
{
    let mut out: Vec<u8> = Vec::new();
    push_str(&mut out, "<gpx xmlns=\"http://www.topografix.com/GPX/1/1\" xmlns:xsi=\"http://www.w3.org/2001/XMLSchema-instance\" xsi:schemaLocation=\"http://www.topografix.com/GPX/1/1 http://www.topografix.com/GPX/1/1/gpx.xsd\" version=\"1.1\" creator=\"zdr055_gpx\">\n");
    push_bytes(&mut out, child);
    push_str(&mut out, "\n</gpx>");
    assert(out@ =~= gpx_text(child@));
    out
}

impl GPXTrackPoint {
    /// The `trkpt` element of this point.
    pub fn to_gpx_string(&self) -> (r: Vec<u8>)
        ensures
            r@ == point_text(self@),
    {
        let mut out: Vec<u8> = Vec::new();
        push_str(&mut out, "<trkpt lat=\"");
        push_fixed(&mut out, self.lat, 7);
        push_str(&mut out, "\" lon=\"");
        push_fixed(&mut out, self.lon, 7);
        push_str(&mut out, "\"><ele>");
        push_fixed(&mut out, self.ele, 2);
        push_str(&mut out, "</ele><time>");
        match local_iso_text(self.time.as_slice()) {
            Some(t) => push_bytes(&mut out, t.as_slice()),
            None => push_str(&mut out, "1970-01-01T00:00:00+09:00"),
        }
        push_str(&mut out, "</time><desc>");
        push_fixed(&mut out, self.speed, 2);
        push_str(&mut out, " km/h</desc></trkpt>");
        assert(out@ =~= point_text(self@));
        out
    }
}

impl GPXTrackLog {
    /// The track element of this log.
    pub fn to_str(&self) -> (r: Vec<u8>)
        ensures
            r@ == track_text(self@),
    {
        let mut out: Vec<u8> = Vec::new();
        push_str(&mut out, "<trk><trkseg>");
        let ghost head = out@;
        let mut k: usize = 0;
        assert(self@.take(0) =~= Seq::<PointView>::empty());
        assert(out@ =~= head + points_text(self@.take(0)));
        while k < self.points.len()
            invariant
                k <= self@.len(),
                self@.len() == self.points@.len(),
                out@ == head + points_text(self@.take(k as int)),
            decreases self@.len() - k,
        {
            let piece = self.points[k].to_gpx_string();
            push_bytes(&mut out, piece.as_slice());
            assert(self@.take(k + 1).drop_last() =~= self@.take(k as int));
            assert(self@.take(k + 1).last() == self.points@[k as int]@);
            k = k + 1;
            assert(out@ =~= head + points_text(self@.take(k as int)));
        }
        assert(self@.take(k as int) =~= self@);
        push_str(&mut out, "</trkseg></trk>\n");
        assert(out@ =~= track_text(self@));
        out
    }
}

/// A GPX document holding one track log.
#[derive(Debug)]
pub struct GPX {
    pub child: GPXTrackLog,
}

impl GPX {
    pub fn new(child: GPXTrackLog) -> (r: Self)
        ensures
            r.child@ == child@,
    {
        GPX { child }
    }

    /// The whole document.
    pub fn to_str(&self) -> (r: Vec<u8>)
        ensures
            r@ == gpx_text(track_text(self.child@)),
    {
        let child = self.child.to_str();
        to_gpx_string(child.as_slice())
    }
}

} // verus!
