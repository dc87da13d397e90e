//! The device's telemetry line: `<device>:<timestamp> X:<f> Y:<f> Z:<f> <tag>
//! <voltage>V <event> <lat> <N|S> <lon> <W|E> <speed>km/h E:<u8> M:<u8> EM:<u8>
//! SA:<u8> V:<u8> S:<u32>k <tail>`, split by position.

use vstd::prelude::*;
use crate::decimal::{Decimal, decimal_of, unsigned_of, parse_decimal, parse_unsigned};
use crate::text::{
    skip_ws, has_at, find, spaced_word, next_field, span_of, skip_spaces, bytes_at, find_from,
    take_spaced_word, take_field, bytes_equal, copy_range, lemma_find_bounds,
};

verus! {

/// The field of a telemetry line that could not be read.
#[derive(Clone, Copy, Debug, PartialEq, Eq, Structural)]
pub enum FormatError {
    Device,
    Timestamp,
    XAccel,
    YAccel,
    ZAccel,
    UnknownT,
    Voltage,
    Event,
    Latitude,
    NorthSouth,
    Longitude,
    EastWest,
    Speed,
    EValue,
    MValue,
    EmValue,
    SaValue,
    FirmwareVersion,
    SValue,
    Tail,
}

/// One decoded telemetry line.
///
/// A line whose event is `-` or whose supply voltage is zero is a placeholder:
/// only `device` and `timestamp` are set and `is_valid` is false.
#[derive(Clone, Debug)]
pub struct ZDR055PositionData {
    pub device: Vec<u8>,
    pub timestamp: Vec<u8>,
    pub x_accel: Decimal,
    pub y_accel: Decimal,
    pub z_accel: Decimal,
    pub unknown_field_t: Vec<u8>,
    pub supply_voltage: Decimal,
    pub event_type: Vec<u8>,
    pub latitude: Decimal,
    pub longitude: Decimal,
    pub speed: Decimal,
    pub e_value: u8,
    pub m_value: u8,
    pub em_value: u8,
    pub sa_value: u8,
    pub firmware_version: u8,
    pub s_value: u32,
    pub unknown_field_tail: Vec<u8>,
    pub is_valid: bool,
}

/// What a decoded line holds.
pub struct SampleView {
    pub device: Seq<u8>,
    pub timestamp: Seq<u8>,
    pub x_accel: Decimal,
    pub y_accel: Decimal,
    pub z_accel: Decimal,
    pub unknown_field_t: Seq<u8>,
    pub supply_voltage: Decimal,
    pub event_type: Seq<u8>,
    pub latitude: Decimal,
    pub longitude: Decimal,
    pub speed: Decimal,
    pub e_value: u8,
    pub m_value: u8,
    pub em_value: u8,
    pub sa_value: u8,
    pub firmware_version: u8,
    pub s_value: u32,
    pub unknown_field_tail: Seq<u8>,
    pub is_valid: bool,
}

impl View for ZDR055PositionData {
    type V = SampleView;

    open spec fn view(&self) -> SampleView {
        SampleView {
            device: self.device@,
            timestamp: self.timestamp@,
            x_accel: self.x_accel,
            y_accel: self.y_accel,
            z_accel: self.z_accel,
            unknown_field_t: self.unknown_field_t@,
            supply_voltage: self.supply_voltage,
            event_type: self.event_type@,
            latitude: self.latitude,
            longitude: self.longitude,
            speed: self.speed,
            e_value: self.e_value,
            m_value: self.m_value,
            em_value: self.em_value,
            sa_value: self.sa_value,
            firmware_version: self.firmware_version,
            s_value: self.s_value,
            unknown_field_tail: self.unknown_field_tail@,
            is_valid: self.is_valid,
        }
    }
}

/// Length of the timestamp `YYYY-MM-DD HH:MM:SS`.
pub const TIMESTAMP_LEN: usize = 19;

/// `:`
pub open spec fn colon() -> Seq<u8> { seq![0x3au8] }
/// `X:`
pub open spec fn x_label() -> Seq<u8> { seq![0x58u8, 0x3au8] }
/// `Y:`
pub open spec fn y_label() -> Seq<u8> { seq![0x59u8, 0x3au8] }
/// `Z:`
pub open spec fn z_label() -> Seq<u8> { seq![0x5au8, 0x3au8] }
/// `km/h`
pub open spec fn speed_unit() -> Seq<u8> { seq![0x6bu8, 0x6du8, 0x2fu8, 0x68u8] }
/// `E:`
pub open spec fn e_label() -> Seq<u8> { seq![0x45u8, 0x3au8] }
/// `M:`
pub open spec fn m_label() -> Seq<u8> { seq![0x4du8, 0x3au8] }
/// `EM:`
pub open spec fn em_label() -> Seq<u8> { seq![0x45u8, 0x4du8, 0x3au8] }
/// `SA:`
pub open spec fn sa_label() -> Seq<u8> { seq![0x53u8, 0x41u8, 0x3au8] }
/// `V:`
pub open spec fn v_label() -> Seq<u8> { seq![0x56u8, 0x3au8] }
/// `S:`
pub open spec fn s_label() -> Seq<u8> { seq![0x53u8, 0x3au8] }

/// After whitespace from `p`: `label`, then a word up to the next space.
pub open spec fn labelled(l: Seq<u8>, p: int, label: Seq<u8>) -> Option<(int, int)> {
    let a = skip_ws(l, p);
    if has_at(l, label, a) {
        spaced_word(l, a + label.len())
    } else {
        None
    }
}

/// The bytes of a span.
pub open spec fn text(l: Seq<u8>, s: (int, int)) -> Seq<u8> {
    l.subrange(s.0, s.1)
}

/// A voltage word: a decimal followed by `V` (0x56).
pub open spec fn voltage_of(l: Seq<u8>, s: (int, int)) -> Option<Decimal> {
    if s.0 < s.1 && l[s.1 - 1] == 0x56u8 {
        decimal_of(l.subrange(s.0, s.1 - 1))
    } else {
        None
    }
}

/// The spans of the words from the X acceleration to the event.
pub struct Front {
    pub x: (int, int),
    pub y: (int, int),
    pub z: (int, int),
    pub tag: (int, int),
    pub volt: (int, int),
    pub event: (int, int),
}

pub open spec fn front_of(l: Seq<u8>, p: int) -> Result<Front, FormatError> {
    match labelled(l, p, x_label()) {
        None => Err(FormatError::XAccel),
        Some(x) => match labelled(l, x.1 + 1, y_label()) {
            None => Err(FormatError::YAccel),
            Some(y) => match labelled(l, y.1 + 1, z_label()) {
                None => Err(FormatError::ZAccel),
                Some(z) => match spaced_word(l, z.1 + 1) {
                    None => Err(FormatError::UnknownT),
                    Some(tag) => match spaced_word(l, tag.1 + 1) {
                        None => Err(FormatError::Voltage),
                        Some(volt) => match spaced_word(l, volt.1 + 1) {
                            None => Err(FormatError::Event),
                            Some(event) => Ok(Front { x, y, z, tag, volt, event }),
                        },
                    },
                },
            },
        },
    }
}

/// The event is `-` (0x2d), or the voltage reads as zero.
pub open spec fn is_placeholder(l: Seq<u8>, f: Front) -> bool {
    text(l, f.event) == seq![0x2du8] || (voltage_of(l, f.volt) matches Some(v) && v.is_zero())
}

/// The position words: latitude, its hemisphere, longitude, its hemisphere and
/// the speed (the text up to `km/h`), and where the rest begins.
pub struct Place {
    pub lat: (int, int),
    pub ns: (int, int),
    pub lon: (int, int),
    pub we: (int, int),
    pub speed: (int, int),
    pub rest: int,
}

pub open spec fn place_of(l: Seq<u8>, p: int) -> Result<Place, FormatError> {
    match spaced_word(l, p) {
        None => Err(FormatError::Latitude),
        Some(lat) => match spaced_word(l, lat.1 + 1) {
            None => Err(FormatError::NorthSouth),
            Some(ns) => match spaced_word(l, ns.1 + 1) {
                None => Err(FormatError::Longitude),
                Some(lon) => match spaced_word(l, lon.1 + 1) {
                    None => Err(FormatError::EastWest),
                    Some(we) => {
                        let a = skip_ws(l, we.1 + 1);
                        match find(l, speed_unit(), a) {
                            None => Err(FormatError::Speed),
                            Some(k) => Ok(Place { lat, ns, lon, we, speed: (a, k), rest: k + 4 }),
                        }
                    },
                },
            },
        },
    }
}

/// The next whitespace-delimited field, when it starts with `label` and the
/// rest reads as an unsigned integer of at most `max`: its value and end.
pub open spec fn counter_of(l: Seq<u8>, p: int, label: Seq<u8>, max: nat) -> Option<(nat, int)> {
    match next_field(l, p) {
        None => None,
        Some(f) => if f.0 + label.len() <= f.1 && has_at(l, label, f.0) {
            match unsigned_of(l.subrange(f.0 + label.len(), f.1)) {
                Some(v) => if v <= max { Some((v, f.1)) } else { None },
                None => None,
            }
        } else {
            None
        },
    }
}

/// The `S:<n>k` field: its value and end.
pub open spec fn s_counter_of(l: Seq<u8>, p: int) -> Option<(nat, int)> {
    match next_field(l, p) {
        None => None,
        Some(f) => if f.0 + 3 <= f.1 && has_at(l, s_label(), f.0) && l[f.1 - 1] == 0x6bu8 {
            match unsigned_of(l.subrange(f.0 + 2, f.1 - 1)) {
                Some(v) => if v <= u32::MAX { Some((v, f.1)) } else { None },
                None => None,
            }
        } else {
            None
        },
    }
}

/// The status counters and the tail: `(e, m, em, sa, firmware, s, tail)`.
pub open spec fn status_of(l: Seq<u8>, p: int) -> Result<(u8, u8, u8, u8, u8, u32, (int, int)), FormatError> {
    match counter_of(l, p, e_label(), 255) {
        None => Err(FormatError::EValue),
        Some((e, after_e)) => match counter_of(l, after_e, m_label(), 255) {
            None => Err(FormatError::MValue),
            Some((m, after_m)) => match counter_of(l, after_m, em_label(), 255) {
                None => Err(FormatError::EmValue),
                Some((em, after_em)) => match counter_of(l, after_em, sa_label(), 255) {
                    None => Err(FormatError::SaValue),
                    Some((sa, after_sa)) => match counter_of(l, after_sa, v_label(), 255) {
                        None => Err(FormatError::FirmwareVersion),
                        Some((fw, after_v)) => match s_counter_of(l, after_v) {
                            None => Err(FormatError::SValue),
                            Some((sv, after_s)) => match next_field(l, after_s) {
                                None => Err(FormatError::Tail),
                                Some(tail) => Ok((e as u8, m as u8, em as u8, sa as u8, fw as u8, sv as u32, tail)),
                            },
                        },
                    },
                },
            },
        },
    }
}

/// A hemisphere word that flips the sign: `S` for latitude, `W` for longitude.
pub open spec fn signed(d: Decimal, hemisphere: Seq<u8>, flip: u8) -> Decimal {
    if hemisphere == seq![flip] {
        d.negated()
    } else {
        d
    }
}

pub open spec fn placeholder_view(device: Seq<u8>, timestamp: Seq<u8>) -> SampleView {
    SampleView {
        device,
        timestamp,
        x_accel: Decimal::spec_zero(),
        y_accel: Decimal::spec_zero(),
        z_accel: Decimal::spec_zero(),
        unknown_field_t: Seq::empty(),
        supply_voltage: Decimal::spec_zero(),
        event_type: Seq::empty(),
        latitude: Decimal::spec_zero(),
        longitude: Decimal::spec_zero(),
        speed: Decimal::spec_zero(),
        e_value: 0,
        m_value: 0,
        em_value: 0,
        sa_value: 0,
        firmware_version: 0,
        s_value: 0,
        unknown_field_tail: Seq::empty(),
        is_valid: false,
    }
}

/// A line that is no placeholder, from its numbers on.
#[verifier::opaque]
pub open spec fn full_record(l: Seq<u8>, device: Seq<u8>, timestamp: Seq<u8>, f: Front) -> Result<SampleView, FormatError> {
    match (decimal_of(text(l, f.x)), decimal_of(text(l, f.y)), decimal_of(text(l, f.z)), voltage_of(l, f.volt)) {
        (None, _, _, _) => Err(FormatError::XAccel),
        (_, None, _, _) => Err(FormatError::YAccel),
        (_, _, None, _) => Err(FormatError::ZAccel),
        (_, _, _, None) => Err(FormatError::Voltage),
        (Some(x), Some(y), Some(z), Some(v)) => match place_of(l, f.event.1 + 1) {
            Err(e) => Err(e),
            Ok(pl) => match (decimal_of(text(l, pl.lat)), decimal_of(text(l, pl.lon)), decimal_of(text(l, pl.speed))) {
                (None, _, _) => Err(FormatError::Latitude),
                (_, None, _) => Err(FormatError::Longitude),
                (_, _, None) => Err(FormatError::Speed),
                (Some(lat), Some(lon), Some(speed)) => match status_of(l, pl.rest) {
                    Err(e) => Err(e),
                    Ok((e, m, em, sa, fw, sv, tail)) => Ok(SampleView {
                        device,
                        timestamp,
                        x_accel: x,
                        y_accel: y,
                        z_accel: z,
                        unknown_field_t: text(l, f.tag),
                        supply_voltage: v,
                        event_type: text(l, f.event),
                        latitude: signed(lat, text(l, pl.ns), 0x53u8),  // `S`
                        longitude: signed(lon, text(l, pl.we), 0x57u8),  // `W`
                        speed,
                        e_value: e,
                        m_value: m,
                        em_value: em,
                        sa_value: sa,
                        firmware_version: fw,
                        s_value: sv,
                        unknown_field_tail: text(l, tail),
                        is_valid: true,
                    }),
                },
            },
        },
    }
}

/// The decoding of one line: the device is the text before the first `:`,
/// the timestamp the 19 bytes after the whitespace that follows it.
pub open spec fn record_of(l: Seq<u8>) -> Result<SampleView, FormatError> {
    match find(l, colon(), 0) {
        None => Err(FormatError::Device),
        Some(c) => {
            let t = skip_ws(l, c + 1);
            if t + 19 > l.len() {
                Err(FormatError::Timestamp)
            } else {
                let device = l.subrange(0, c);
                let timestamp = l.subrange(t, t + 19);
                match front_of(l, t + 19) {
                    Err(e) => Err(e),
                    Ok(f) => if is_placeholder(l, f) {
                        Ok(placeholder_view(device, timestamp))
                    } else {
                        full_record(l, device, timestamp, f)
                    },
                }
            }
        },
    }
}

/// A line whose event is `-` or whose voltage reads as zero decodes to a
/// placeholder holding only its device and timestamp, whatever its other fields.
pub proof fn lemma_placeholder_line(l: Seq<u8>, c: int, f: Front)
    requires
        find(l, colon(), 0) == Some(c),
        skip_ws(l, c + 1) + 19 <= l.len(),
        front_of(l, skip_ws(l, c + 1) + 19) == Ok::<Front, FormatError>(f),
        text(l, f.event) == seq![0x2du8] || (voltage_of(l, f.volt) matches Some(v) && v.is_zero()),
    ensures
        record_of(l) == Ok::<SampleView, FormatError>(
            placeholder_view(
                l.subrange(0, c),
                l.subrange(skip_ws(l, c + 1), skip_ws(l, c + 1) + 19),
            ),
        ),
        !record_of(l)->Ok_0.is_valid,
{
}

fn take_labelled(l: &[u8], p: usize, label: &[u8]) -> (r: Option<(usize, usize)>)
    requires
        p <= l@.len(),
    ensures
        span_of(r) == labelled(l@, p as int, label@),
        r matches Some((a, e)) ==> p <= a <= e && e < l@.len(),
{
    let n = l.len();
    assert(n == l@.len());
    let a = skip_spaces(l, p);
    if bytes_at(l, label, a) {
        take_spaced_word(l, a + label.len())
    } else {
        None
    }
}

/// Spans of the words from the X acceleration to the event.
pub struct FrontSpans {
    pub x: (usize, usize),
    pub y: (usize, usize),
    pub z: (usize, usize),
    pub tag: (usize, usize),
    pub volt: (usize, usize),
    pub event: (usize, usize),
}

impl FrontSpans {
    pub open spec fn spec_front(&self) -> Front {
        Front {
            x: (self.x.0 as int, self.x.1 as int),
            y: (self.y.0 as int, self.y.1 as int),
            z: (self.z.0 as int, self.z.1 as int),
            tag: (self.tag.0 as int, self.tag.1 as int),
            volt: (self.volt.0 as int, self.volt.1 as int),
            event: (self.event.0 as int, self.event.1 as int),
        }
    }

    pub open spec fn within(&self, n: int) -> bool {
        &&& self.x.0 <= self.x.1 < n
        &&& self.y.0 <= self.y.1 < n
        &&& self.z.0 <= self.z.1 < n
        &&& self.tag.0 <= self.tag.1 < n
        &&& self.volt.0 <= self.volt.1 < n
        &&& self.event.0 <= self.event.1 < n
    }
}

fn parse_front(l: &[u8], p: usize) -> (r: Result<FrontSpans, FormatError>)
    requires
        p <= l@.len(),
    ensures
        match (r, front_of(l@, p as int)) {
            (Ok(s), Ok(f)) => s.spec_front() == f && s.within(l@.len() as int),
            (Err(e), Err(g)) => e == g,
            _ => false,
        },
{
    let n = l.len();
    assert(n == l@.len());
    let xl: [u8; 2] = [0x58u8, 0x3au8];
    let yl: [u8; 2] = [0x59u8, 0x3au8];
    let zl: [u8; 2] = [0x5au8, 0x3au8];
    assert(xl@ =~= x_label() && yl@ =~= y_label() && zl@ =~= z_label());
    let x = match take_labelled(l, p, &xl) {
        None => return Err(FormatError::XAccel),
        Some(x) => x,
    };
    let y = match take_labelled(l, x.1 + 1, &yl) {
        None => return Err(FormatError::YAccel),
        Some(y) => y,
    };
    let z = match take_labelled(l, y.1 + 1, &zl) {
        None => return Err(FormatError::ZAccel),
        Some(z) => z,
    };
    let tag = match take_spaced_word(l, z.1 + 1) {
        None => return Err(FormatError::UnknownT),
        Some(t) => t,
    };
    let volt = match take_spaced_word(l, tag.1 + 1) {
        None => return Err(FormatError::Voltage),
        Some(v) => v,
    };
    let event = match take_spaced_word(l, volt.1 + 1) {
        None => return Err(FormatError::Event),
        Some(e) => e,
    };
    Ok(FrontSpans { x, y, z, tag, volt, event })
}

fn voltage_value(l: &[u8], s: (usize, usize)) -> (r: Option<Decimal>)
    requires
        s.0 <= s.1 <= l@.len(),
    ensures
        r == voltage_of(l@, (s.0 as int, s.1 as int)),
        r matches Some(d) ==> d.wf(),
{
    if s.0 < s.1 && l[s.1 - 1] == 0x56u8 {
        parse_decimal(l, s.0, s.1 - 1)
    } else {
        None
    }
}

/// Spans of the position words and where the rest begins.
pub struct PlaceSpans {
    pub lat: (usize, usize),
    pub ns: (usize, usize),
    pub lon: (usize, usize),
    pub we: (usize, usize),
    pub speed: (usize, usize),
    pub rest: usize,
}

impl PlaceSpans {
    pub open spec fn spec_place(&self) -> Place {
        Place {
            lat: (self.lat.0 as int, self.lat.1 as int),
            ns: (self.ns.0 as int, self.ns.1 as int),
            lon: (self.lon.0 as int, self.lon.1 as int),
            we: (self.we.0 as int, self.we.1 as int),
            speed: (self.speed.0 as int, self.speed.1 as int),
            rest: self.rest as int,
        }
    }

    pub open spec fn within(&self, n: int) -> bool {
        &&& self.lat.0 <= self.lat.1 < n
        &&& self.ns.0 <= self.ns.1 < n
        &&& self.lon.0 <= self.lon.1 < n
        &&& self.we.0 <= self.we.1 < n
        &&& self.speed.0 <= self.speed.1 <= n
        &&& self.rest <= n
    }
}

fn parse_place(l: &[u8], p: usize) -> (r: Result<PlaceSpans, FormatError>)
    requires
        p <= l@.len(),
    ensures
        match (r, place_of(l@, p as int)) {
            (Ok(s), Ok(f)) => s.spec_place() == f && s.within(l@.len() as int),
            (Err(e), Err(g)) => e == g,
            _ => false,
        },
{
    let n = l.len();
    assert(n == l@.len());
    let lat = match take_spaced_word(l, p) {
        None => return Err(FormatError::Latitude),
        Some(w) => w,
    };
    let ns = match take_spaced_word(l, lat.1 + 1) {
        None => return Err(FormatError::NorthSouth),
        Some(w) => w,
    };
    let lon = match take_spaced_word(l, ns.1 + 1) {
        None => return Err(FormatError::Longitude),
        Some(w) => w,
    };
    let we = match take_spaced_word(l, lon.1 + 1) {
        None => return Err(FormatError::EastWest),
        Some(w) => w,
    };
    let a = skip_spaces(l, we.1 + 1);
    let unit: [u8; 4] = [0x6bu8, 0x6du8, 0x2fu8, 0x68u8];
    assert(unit@ =~= speed_unit());
    proof {
        lemma_find_bounds(l@, speed_unit(), a as int);
    }
    match find_from(l, &unit, a) {
        None => Err(FormatError::Speed),
        Some(k) => Ok(PlaceSpans { lat, ns, lon, we, speed: (a, k), rest: k + 4 }),
    }
}

fn read_counter(l: &[u8], p: usize, label: &[u8], max: u32) -> (r: Option<(u32, usize)>)
    requires
        p <= l@.len(),
    ensures
        match (r, counter_of(l@, p as int, label@, max as nat)) {
            (Some((v, e)), Some((w, f))) => v == w && e == f && e <= l@.len(),
            (None, None) => true,
            _ => false,
        },
{
    match take_field(l, p) {
        None => None,
        Some((a, e)) => {
            if label.len() <= e - a && bytes_at(l, label, a) {
                match parse_unsigned(l, a + label.len(), e, max) {
                    Some(v) => Some((v, e)),
                    None => None,
                }
            } else {
                None
            }
        },
    }
}

fn read_s_counter(l: &[u8], p: usize) -> (r: Option<(u32, usize)>)
    requires
        p <= l@.len(),
    ensures
        match (r, s_counter_of(l@, p as int)) {
            (Some((v, e)), Some((w, f))) => v == w && e == f && e <= l@.len(),
            (None, None) => true,
            _ => false,
        },
{
    let sl: [u8; 2] = [0x53u8, 0x3au8];
    assert(sl@ =~= s_label());
    match take_field(l, p) {
        None => None,
        Some((a, e)) => {
            if 3 <= e - a && bytes_at(l, &sl, a) && l[e - 1] == 0x6bu8 {
                match parse_unsigned(l, a + 2, e - 1, u32::MAX) {
                    Some(v) => Some((v, e)),
                    None => None,
                }
            } else {
                None
            }
        },
    }
}

/// The status counters and the span of the tail.
pub struct Status {
    pub e: u8,
    pub m: u8,
    pub em: u8,
    pub sa: u8,
    pub fw: u8,
    pub s: u32,
    pub tail: (usize, usize),
}

fn parse_status(l: &[u8], p: usize) -> (r: Result<Status, FormatError>)
    requires
        p <= l@.len(),
    ensures
        match (r, status_of(l@, p as int)) {
            (Ok(s), Ok((e, m, em, sa, fw, sv, tail))) => s.e == e && s.m == m && s.em == em && s.sa
                == sa && s.fw == fw && s.s == sv && s.tail.0 == tail.0 && s.tail.1 == tail.1
                && s.tail.0 <= s.tail.1 <= l@.len(),
            (Err(e), Err(g)) => e == g,
            _ => false,
        },
{
    let el: [u8; 2] = [0x45u8, 0x3au8];
    let ml: [u8; 2] = [0x4du8, 0x3au8];
    let eml: [u8; 3] = [0x45u8, 0x4du8, 0x3au8];
    let sal: [u8; 3] = [0x53u8, 0x41u8, 0x3au8];
    let vl: [u8; 2] = [0x56u8, 0x3au8];
    assert(el@ =~= e_label() && ml@ =~= m_label() && eml@ =~= em_label() && sal@ =~= sa_label()
        && vl@ =~= v_label());
    let (e, after_e) = match read_counter(l, p, &el, 255) {
        None => return Err(FormatError::EValue),
        Some(c) => c,
    };
    let (m, after_m) = match read_counter(l, after_e, &ml, 255) {
        None => return Err(FormatError::MValue),
        Some(c) => c,
    };
    let (em, after_em) = match read_counter(l, after_m, &eml, 255) {
        None => return Err(FormatError::EmValue),
        Some(c) => c,
    };
    let (sa, after_sa) = match read_counter(l, after_em, &sal, 255) {
        None => return Err(FormatError::SaValue),
        Some(c) => c,
    };
    let (fw, after_v) = match read_counter(l, after_sa, &vl, 255) {
        None => return Err(FormatError::FirmwareVersion),
        Some(c) => c,
    };
    let (sv, after_s) = match read_s_counter(l, after_v) {
        None => return Err(FormatError::SValue),
        Some(c) => c,
    };
    match take_field(l, after_s) {
        None => Err(FormatError::Tail),
        Some(tail) => Ok(
            Status {
                e: e as u8,
                m: m as u8,
                em: em as u8,
                sa: sa as u8,
                fw: fw as u8,
                s: sv,
                tail,
            },
        ),
    }
}

fn is_single(l: &[u8], s: (usize, usize), b: u8) -> (r: bool)
    requires
        s.0 <= s.1 <= l@.len(),
    ensures
        r == (text(l@, (s.0 as int, s.1 as int)) == seq![b]),
{
    let r = s.1 - s.0 == 1 && l[s.0] == b;
    assert(text(l@, (s.0 as int, s.1 as int)).len() == s.1 - s.0);
    assert(seq![b].len() == 1);
    if r {
        assert(text(l@, (s.0 as int, s.1 as int)) =~= seq![b]);
    } else if s.1 - s.0 == 1 {
        assert(text(l@, (s.0 as int, s.1 as int))[0] != seq![b][0]);
    }
    r
}

impl ZDR055PositionData {
    /// A placeholder sample: only device and timestamp, not valid.
    pub fn placeholder(device: Vec<u8>, timestamp: Vec<u8>) -> (r: Self)
        ensures
            r@ == placeholder_view(device@, timestamp@),
    {
        ZDR055PositionData {
            device,
            timestamp,
            x_accel: Decimal::zero(),
            y_accel: Decimal::zero(),
            z_accel: Decimal::zero(),
            unknown_field_t: Vec::new(),
            supply_voltage: Decimal::zero(),
            event_type: Vec::new(),
            latitude: Decimal::zero(),
            longitude: Decimal::zero(),
            speed: Decimal::zero(),
            e_value: 0,
            m_value: 0,
            em_value: 0,
            sa_value: 0,
            firmware_version: 0,
            s_value: 0,
            unknown_field_tail: Vec::new(),
            is_valid: false,
        }
    }

    /// Decodes one telemetry line, or names the field that could not be read.
    pub fn parse(l: &[u8]) -> (r: Result<Self, FormatError>)
        ensures
            match (r, record_of(l@)) {
                (Ok(d), Ok(v)) => d@ == v,
                (Err(e), Err(f)) => e == f,
                _ => false,
            },
            r matches Ok(d) ==> d.latitude.wf() && d.longitude.wf(),
    {
        proof {
            reveal(full_record);
        }
        let n = l.len();
        let cl: [u8; 1] = [0x3au8];
        assert(cl@ =~= colon());
        proof {
            lemma_find_bounds(l@, colon(), 0);
        }
        let c = match find_from(l, &cl, 0) {
            None => return Err(FormatError::Device),
            Some(c) => c,
        };
        let t = skip_spaces(l, c + 1);
        if n - t < TIMESTAMP_LEN {
            return Err(FormatError::Timestamp);
        }
        let device = copy_range(l, 0, c);
        let timestamp = copy_range(l, t, t + TIMESTAMP_LEN);
        let f = match parse_front(l, t + TIMESTAMP_LEN) {
            Err(e) => return Err(e),
            Ok(f) => f,
        };
        let dash = is_single(l, f.event, 0x2du8);
        let volt = voltage_value(l, f.volt);
        let zero_volt = match volt {
            Some(v) => v.mantissa == 0,
            None => false,
        };
        if dash || zero_volt {
            return Ok(ZDR055PositionData::placeholder(device, timestamp));
        }
        let x = match parse_decimal(l, f.x.0, f.x.1) {
            None => return Err(FormatError::XAccel),
            Some(d) => d,
        };
        let y = match parse_decimal(l, f.y.0, f.y.1) {
            None => return Err(FormatError::YAccel),
            Some(d) => d,
        };
        let z = match parse_decimal(l, f.z.0, f.z.1) {
            None => return Err(FormatError::ZAccel),
            Some(d) => d,
        };
        let v = match volt {
            None => return Err(FormatError::Voltage),
            Some(d) => d,
        };
        let pl = match parse_place(l, f.event.1 + 1) {
            Err(e) => return Err(e),
            Ok(pl) => pl,
        };
        let lat = match parse_decimal(l, pl.lat.0, pl.lat.1) {
            None => return Err(FormatError::Latitude),
            Some(d) => d,
        };
        let lon = match parse_decimal(l, pl.lon.0, pl.lon.1) {
            None => return Err(FormatError::Longitude),
            Some(d) => d,
        };
        let speed = match parse_decimal(l, pl.speed.0, pl.speed.1) {
            None => return Err(FormatError::Speed),
            Some(d) => d,
        };
        let st = match parse_status(l, pl.rest) {
            Err(e) => return Err(e),
            Ok(st) => st,
        };
        let latitude = if is_single(l, pl.ns, 0x53u8) {
            lat.negate()
        } else {
            lat
        };
        let longitude = if is_single(l, pl.we, 0x57u8) {
            lon.negate()
        } else {
            lon
        };
        Ok(
            ZDR055PositionData {
                device,
                timestamp,
                x_accel: x,
                y_accel: y,
                z_accel: z,
                unknown_field_t: copy_range(l, f.tag.0, f.tag.1),
                supply_voltage: v,
                event_type: copy_range(l, f.event.0, f.event.1),
                latitude,
                longitude,
                speed,
                e_value: st.e,
                m_value: st.m,
                em_value: st.em,
                sa_value: st.sa,
                firmware_version: st.fw,
                s_value: st.s,
                unknown_field_tail: copy_range(l, st.tail.0, st.tail.1),
                is_valid: true,
            },
        )
    }

    pub fn is_valid(&self) -> (r: bool)
        ensures
            r == self.is_valid,
    {
        self.is_valid
    }

    pub fn has_same_timestamp(&self, other: &ZDR055PositionData) -> (r: bool)
        ensures
            r == (self.timestamp@ == other.timestamp@),
    {
        bytes_equal(self.timestamp.as_slice(), other.timestamp.as_slice())
    }

    pub fn has_same_position(&self, other: &ZDR055PositionData) -> (r: bool)
        ensures
            r == (self.latitude == other.latitude && self.longitude == other.longitude),
    {
        self.latitude == other.latitude && self.longitude == other.longitude
    }
}

} // verus!
