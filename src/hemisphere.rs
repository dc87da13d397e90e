//! The hemisphere letters of a telemetry line decide the signs of its
//! coordinates and nothing else.

use vstd::prelude::*;
use crate::decimal::decimal_of;
use crate::record::{
    FormatError, Front, Place, SampleView, colon, front_of, place_of, counter_of, s_counter_of,
    status_of, labelled, record_of, full_record, is_placeholder, text, voltage_of, signed,
    x_label, y_label, z_label, speed_unit, e_label, m_label, em_label, sa_label, v_label, s_label,
};
use crate::text::{
    is_space, skip_ws, has_at, find, word_end, spaced_word, next_field, lemma_skip_ws_bounds,
    lemma_find_bounds, lemma_word_end_bounds,
};

verus! {

pub open spec fn is_hemisphere_letter(b: u8) -> bool {
    b == 0x4eu8 || b == 0x53u8 || b == 0x45u8 || b == 0x57u8
}

pub open spec fn free_of_letters(pat: Seq<u8>) -> bool {
    forall|k: int| 0 <= k < pat.len() ==> !is_hemisphere_letter(#[trigger] pat[k])
}

/// The line with one hemisphere letter written as another.
pub open spec fn relettered(l: Seq<u8>, q: int, b: u8) -> bool {
    0 <= q < l.len() && is_hemisphere_letter(l[q]) && is_hemisphere_letter(b)
}

proof fn lemma_subrange_frame(l: Seq<u8>, q: int, b: u8, a: int, e: int)
    requires
        0 <= a <= e <= l.len(),
        0 <= q < l.len(),
        e <= q || q < a,
    ensures
        l.update(q, b).subrange(a, e) == l.subrange(a, e),
{
    assert(l.update(q, b).subrange(a, e) =~= l.subrange(a, e));
}

proof fn lemma_has_at_frame(l: Seq<u8>, q: int, b: u8, pat: Seq<u8>, i: int)
    requires
        relettered(l, q, b),
        free_of_letters(pat) || !(i <= q < i + pat.len()),
    ensures
        has_at(l.update(q, b), pat, i) == has_at(l, pat, i),
{
    let l2 = l.update(q, b);
    if 0 <= i && i + pat.len() <= l.len() {
        if i <= q < i + pat.len() {
            assert(l.subrange(i, i + pat.len())[q - i] == l[q]);
            assert(l2.subrange(i, i + pat.len())[q - i] == b);
            assert(!is_hemisphere_letter(pat[q - i]));
        } else {
            lemma_subrange_frame(l, q, b, i, i + pat.len());
        }
    }
}

proof fn lemma_skip_ws_frame(l: Seq<u8>, q: int, b: u8, p: int)
    requires
        relettered(l, q, b),
    ensures
        skip_ws(l.update(q, b), p) == skip_ws(l, p),
    decreases l.len() - p,
{
    if 0 <= p < l.len() {
        assert(is_space(l.update(q, b)[p]) == is_space(l[p]));
        lemma_skip_ws_frame(l, q, b, p + 1);
    }
}

proof fn lemma_word_end_frame(l: Seq<u8>, q: int, b: u8, p: int)
    requires
        relettered(l, q, b),
    ensures
        word_end(l.update(q, b), p) == word_end(l, p),
    decreases l.len() - p,
{
    if 0 <= p < l.len() {
        assert(is_space(l.update(q, b)[p]) == is_space(l[p]));
        lemma_word_end_frame(l, q, b, p + 1);
    }
}

proof fn lemma_find_frame(l: Seq<u8>, q: int, b: u8, pat: Seq<u8>, p: int)
    requires
        relettered(l, q, b),
        free_of_letters(pat),
    ensures
        find(l.update(q, b), pat, p) == find(l, pat, p),
    decreases l.len() + 1 - p,
{
    lemma_has_at_frame(l, q, b, pat, p);
    if 0 <= p <= l.len() && p + pat.len() <= l.len() {
        lemma_find_frame(l, q, b, pat, p + 1);
    }
}

proof fn lemma_skip_ws_at_least(l: Seq<u8>, p: int)
    requires
        0 <= p,
    ensures
        p <= skip_ws(l, p),
{
    if p <= l.len() {
        lemma_skip_ws_bounds(l, p);
    }
}

proof fn lemma_spaced_word_frame(l: Seq<u8>, q: int, b: u8, p: int)
    requires
        relettered(l, q, b),
        0 <= p,
    ensures
        spaced_word(l.update(q, b), p) == spaced_word(l, p),
        spaced_word(l, p) matches Some((a, e)) ==> p <= a <= e < l.len(),
{
    lemma_skip_ws_frame(l, q, b, p);
    lemma_skip_ws_at_least(l, p);
    lemma_find_frame(l, q, b, seq![0x20u8], skip_ws(l, p));
    lemma_find_bounds(l, seq![0x20u8], skip_ws(l, p));
}

proof fn lemma_labelled_frame(l: Seq<u8>, q: int, b: u8, p: int, label: Seq<u8>)
    requires
        relettered(l, q, b),
        free_of_letters(label),
        0 <= p,
    ensures
        labelled(l.update(q, b), p, label) == labelled(l, p, label),
        labelled(l, p, label) matches Some((a, e)) ==> p <= a <= e < l.len(),
{
    lemma_skip_ws_frame(l, q, b, p);
    lemma_skip_ws_at_least(l, p);
    let a = skip_ws(l, p);
    lemma_has_at_frame(l, q, b, label, a);
    lemma_spaced_word_frame(l, q, b, a + label.len());
}

proof fn lemma_front_frame(l: Seq<u8>, q: int, b: u8, p: int)
    requires
        relettered(l, q, b),
        0 <= p,
    ensures
        front_of(l.update(q, b), p) == front_of(l, p),
        front_of(l, p) matches Ok(f) ==> p <= f.x.0 && f.event.1 < l.len() && f.x.0 <= f.x.1
            < f.y.0 <= f.y.1 < f.z.0 <= f.z.1 < f.tag.0 <= f.tag.1 < f.volt.0 <= f.volt.1
            < f.event.0 <= f.event.1,
{
    assert(free_of_letters(x_label()) && free_of_letters(y_label()) && free_of_letters(z_label()));
    lemma_labelled_frame(l, q, b, p, x_label());
    if let Some(x) = labelled(l, p, x_label()) {
        lemma_labelled_frame(l, q, b, x.1 + 1, y_label());
        if let Some(y) = labelled(l, x.1 + 1, y_label()) {
            lemma_labelled_frame(l, q, b, y.1 + 1, z_label());
            if let Some(z) = labelled(l, y.1 + 1, z_label()) {
                lemma_spaced_word_frame(l, q, b, z.1 + 1);
                if let Some(t) = spaced_word(l, z.1 + 1) {
                    lemma_spaced_word_frame(l, q, b, t.1 + 1);
                    if let Some(v) = spaced_word(l, t.1 + 1) {
                        lemma_spaced_word_frame(l, q, b, v.1 + 1);
                    }
                }
            }
        }
    }
}

proof fn lemma_place_frame(l: Seq<u8>, q: int, b: u8, p: int)
    requires
        relettered(l, q, b),
        0 <= p,
    ensures
        place_of(l.update(q, b), p) == place_of(l, p),
        place_of(l, p) matches Ok(pl) ==> p <= pl.lat.0 && pl.lat.0 <= pl.lat.1 < pl.ns.0 <= pl.ns.1
            < pl.lon.0 <= pl.lon.1 < pl.we.0 <= pl.we.1 < pl.speed.0 <= pl.speed.1 && pl.speed.1
            + 4 == pl.rest && pl.rest <= l.len(),
{
    lemma_spaced_word_frame(l, q, b, p);
    if let Some(lat) = spaced_word(l, p) {
        lemma_spaced_word_frame(l, q, b, lat.1 + 1);
        if let Some(ns) = spaced_word(l, lat.1 + 1) {
            lemma_spaced_word_frame(l, q, b, ns.1 + 1);
            if let Some(lon) = spaced_word(l, ns.1 + 1) {
                lemma_spaced_word_frame(l, q, b, lon.1 + 1);
                if let Some(we) = spaced_word(l, lon.1 + 1) {
                    let a = skip_ws(l, we.1 + 1);
                    lemma_skip_ws_frame(l, q, b, we.1 + 1);
                    lemma_skip_ws_at_least(l, we.1 + 1);
                    assert(free_of_letters(speed_unit()));
                    lemma_find_frame(l, q, b, speed_unit(), a);
                    lemma_find_bounds(l, speed_unit(), a);
                }
            }
        }
    }
}

proof fn lemma_next_field_frame(l: Seq<u8>, q: int, b: u8, p: int)
    requires
        relettered(l, q, b),
        0 <= p,
    ensures
        next_field(l.update(q, b), p) == next_field(l, p),
        next_field(l, p) matches Some((a, e)) ==> p <= a <= e <= l.len(),
{
    lemma_skip_ws_frame(l, q, b, p);
    lemma_skip_ws_at_least(l, p);
    let a = skip_ws(l, p);
    lemma_word_end_frame(l, q, b, a);
    if a < l.len() {
        lemma_word_end_bounds(l, a);
    }
}

proof fn lemma_counter_frame(l: Seq<u8>, q: int, b: u8, p: int, label: Seq<u8>, max: nat)
    requires
        relettered(l, q, b),
        q < p,
    ensures
        counter_of(l.update(q, b), p, label, max) == counter_of(l, p, label, max),
        counter_of(l, p, label, max) matches Some((v, e)) ==> p <= e <= l.len(),
{
    lemma_next_field_frame(l, q, b, p);
    if let Some(f) = next_field(l, p) {
        lemma_has_at_frame(l, q, b, label, f.0);
        if f.0 + label.len() <= f.1 {
            lemma_subrange_frame(l, q, b, f.0 + label.len(), f.1);
        }
    }
}

proof fn lemma_s_counter_frame(l: Seq<u8>, q: int, b: u8, p: int)
    requires
        relettered(l, q, b),
        q < p,
    ensures
        s_counter_of(l.update(q, b), p) == s_counter_of(l, p),
        s_counter_of(l, p) matches Some((v, e)) ==> p <= e <= l.len(),
{
    lemma_next_field_frame(l, q, b, p);
    if let Some(f) = next_field(l, p) {
        lemma_has_at_frame(l, q, b, s_label(), f.0);
        if f.0 + 3 <= f.1 {
            lemma_subrange_frame(l, q, b, f.0 + 2, f.1 - 1);
        }
    }
}

proof fn lemma_status_frame(l: Seq<u8>, q: int, b: u8, p: int)
    requires
        relettered(l, q, b),
        q < p,
    ensures
        status_of(l.update(q, b), p) == status_of(l, p),
        status_of(l, p) matches Ok((e, m, em, sa, fw, sv, tail)) ==> p <= tail.0 <= tail.1 <= l.len(),
{
    lemma_counter_frame(l, q, b, p, e_label(), 255);
    if let Some((_, after_e)) = counter_of(l, p, e_label(), 255) {
        lemma_counter_frame(l, q, b, after_e, m_label(), 255);
        if let Some((_, after_m)) = counter_of(l, after_e, m_label(), 255) {
            lemma_counter_frame(l, q, b, after_m, em_label(), 255);
            if let Some((_, after_em)) = counter_of(l, after_m, em_label(), 255) {
                lemma_counter_frame(l, q, b, after_em, sa_label(), 255);
                if let Some((_, after_sa)) = counter_of(l, after_em, sa_label(), 255) {
                    lemma_counter_frame(l, q, b, after_sa, v_label(), 255);
                    if let Some((_, after_v)) = counter_of(l, after_sa, v_label(), 255) {
                        lemma_s_counter_frame(l, q, b, after_v);
                        if let Some((_, after_s)) = s_counter_of(l, after_v) {
                            lemma_next_field_frame(l, q, b, after_s);
                        }
                    }
                }
            }
        }
    }
}

/// Where the front words of a line start: after its device and timestamp.
pub open spec fn front_start(l: Seq<u8>) -> int {
    skip_ws(l, find(l, colon(), 0)->0 + 1) + 19
}

/// The position words of a line whose front words read.
pub open spec fn place_of_line(l: Seq<u8>) -> Place {
    place_of(l, front_of(l, front_start(l))->Ok_0.event.1 + 1)->Ok_0
}

/// Relettering a line's latitude or longitude hemisphere word changes no
/// span and no field read from the rest of the line.
proof fn lemma_reletter_frame(l: Seq<u8>, q: int, b: u8)
    requires
        record_of(l) is Ok,
        record_of(l)->Ok_0.is_valid,
        relettered(l, q, b),
        q == place_of_line(l).ns.0 || q == place_of_line(l).we.0,
    ensures
        ({
            let l2 = l.update(q, b);
            let c = find(l, colon(), 0)->0;
            let t = skip_ws(l, c + 1);
            let f = front_of(l, t + 19)->Ok_0;
            let pl = place_of_line(l);
            &&& find(l2, colon(), 0) == find(l, colon(), 0)
            &&& find(l, colon(), 0) is Some
            &&& skip_ws(l2, c + 1) == t
            &&& t + 19 <= l.len()
            &&& l2.subrange(0, c) == l.subrange(0, c)
            &&& l2.subrange(t, t + 19) == l.subrange(t, t + 19)
            &&& front_of(l2, t + 19) == front_of(l, t + 19)
            &&& front_of(l, t + 19) is Ok
            &&& !is_placeholder(l, f)
            &&& is_placeholder(l2, f) == is_placeholder(l, f)
            &&& text(l2, f.x) == text(l, f.x)
            &&& text(l2, f.y) == text(l, f.y)
            &&& text(l2, f.z) == text(l, f.z)
            &&& text(l2, f.tag) == text(l, f.tag)
            &&& text(l2, f.event) == text(l, f.event)
            &&& voltage_of(l2, f.volt) == voltage_of(l, f.volt)
            &&& place_of(l2, f.event.1 + 1) == place_of(l, f.event.1 + 1)
            &&& place_of(l, f.event.1 + 1) is Ok
            &&& text(l2, pl.lat) == text(l, pl.lat)
            &&& (q == pl.ns.0 ==> text(l2, pl.lon) == text(l, pl.lon) && text(l2, pl.we) == text(
                l,
                pl.we,
            ))
            &&& (q == pl.we.0 ==> text(l2, pl.lon) == text(l, pl.lon) && text(l2, pl.ns) == text(
                l,
                pl.ns,
            ))
            &&& text(l2, pl.speed) == text(l, pl.speed)
            &&& status_of(l2, pl.rest) == status_of(l, pl.rest)
            &&& (status_of(l, pl.rest) matches Ok((e, m, em, sa, fw, sv, tail)) ==> text(l2, tail)
                == text(l, tail))
        }),
{
    reveal(full_record);
    let l2 = l.update(q, b);
    assert(free_of_letters(colon()));
    lemma_find_frame(l, q, b, colon(), 0);
    lemma_find_bounds(l, colon(), 0);
    let c = find(l, colon(), 0)->0;
    lemma_skip_ws_frame(l, q, b, c + 1);
    lemma_skip_ws_at_least(l, c + 1);
    let t = skip_ws(l, c + 1);
    lemma_front_frame(l, q, b, t + 19);
    let f = front_of(l, t + 19)->Ok_0;
    lemma_place_frame(l, q, b, f.event.1 + 1);
    let pl = place_of(l, f.event.1 + 1)->Ok_0;
    assert(pl == place_of_line(l));
    lemma_subrange_frame(l, q, b, 0, c);
    lemma_subrange_frame(l, q, b, t, t + 19);
    lemma_subrange_frame(l, q, b, f.x.0, f.x.1);
    lemma_subrange_frame(l, q, b, f.y.0, f.y.1);
    lemma_subrange_frame(l, q, b, f.z.0, f.z.1);
    lemma_subrange_frame(l, q, b, f.tag.0, f.tag.1);
    lemma_subrange_frame(l, q, b, f.event.0, f.event.1);
    if f.volt.0 < f.volt.1 {
        lemma_subrange_frame(l, q, b, f.volt.0, f.volt.1 - 1);
    }
    lemma_subrange_frame(l, q, b, pl.lat.0, pl.lat.1);
    lemma_subrange_frame(l, q, b, pl.lon.0, pl.lon.1);
    lemma_subrange_frame(l, q, b, pl.speed.0, pl.speed.1);
    if q == pl.ns.0 {
        lemma_subrange_frame(l, q, b, pl.we.0, pl.we.1);
    } else {
        lemma_subrange_frame(l, q, b, pl.ns.0, pl.ns.1);
    }
    lemma_status_frame(l, q, b, pl.rest);
    if let Ok((e, m, em, sa, fw, sv, tail)) = status_of(l, pl.rest) {
        lemma_subrange_frame(l, q, b, tail.0, tail.1);
    }
}

/// `full_record` reads the line only through the texts of its spans, the
/// position words and the status fields.
proof fn lemma_full_record_frame(l: Seq<u8>, l2: Seq<u8>, dev: Seq<u8>, ts: Seq<u8>, f: Front)
    requires
        full_record(l, dev, ts, f) is Ok,
        text(l2, f.x) == text(l, f.x),
        text(l2, f.y) == text(l, f.y),
        text(l2, f.z) == text(l, f.z),
        text(l2, f.tag) == text(l, f.tag),
        text(l2, f.event) == text(l, f.event),
        voltage_of(l2, f.volt) == voltage_of(l, f.volt),
        place_of(l2, f.event.1 + 1) == place_of(l, f.event.1 + 1),
        place_of(l, f.event.1 + 1) is Ok,
        ({
            let pl = place_of(l, f.event.1 + 1)->Ok_0;
            &&& text(l2, pl.lat) == text(l, pl.lat)
            &&& text(l2, pl.lon) == text(l, pl.lon)
            &&& text(l2, pl.speed) == text(l, pl.speed)
            &&& status_of(l2, pl.rest) == status_of(l, pl.rest)
            &&& (status_of(l, pl.rest) matches Ok((e, m, em, sa, fw, sv, tail)) ==> text(l2, tail)
                == text(l, tail))
        }),
    ensures
        ({
            let pl = place_of(l, f.event.1 + 1)->Ok_0;
            let v = full_record(l, dev, ts, f)->Ok_0;
            &&& full_record(l2, dev, ts, f) == Ok::<SampleView, FormatError>(
                SampleView {
                    latitude: signed(decimal_of(text(l, pl.lat))->0, text(l2, pl.ns), 0x53u8),
                    longitude: signed(decimal_of(text(l, pl.lon))->0, text(l2, pl.we), 0x57u8),
                    ..v
                },
            )
            &&& v.latitude == signed(decimal_of(text(l, pl.lat))->0, text(l, pl.ns), 0x53u8)
            &&& v.longitude == signed(decimal_of(text(l, pl.lon))->0, text(l, pl.we), 0x57u8)
        }),
{
    reveal(full_record);
}

/// A valid line's record is its full record.
proof fn lemma_valid_record(l: Seq<u8>)
    requires
        record_of(l) is Ok,
        record_of(l)->Ok_0.is_valid,
    ensures
        ({
            let c = find(l, colon(), 0)->0;
            let t = skip_ws(l, c + 1);
            record_of(l) == full_record(l, l.subrange(0, c), l.subrange(t, t + 19), front_of(l, t + 19)->Ok_0)
        }),
{
}

proof fn lemma_spaced_word_bounds(l: Seq<u8>, p: int)
    requires
        0 <= p,
    ensures
        spaced_word(l, p) matches Some((a, e)) ==> p <= a <= e < l.len(),
{
    lemma_skip_ws_at_least(l, p);
    lemma_find_bounds(l, seq![0x20u8], skip_ws(l, p));
}

/// The hemisphere words of a valid line lie inside it, in order.
proof fn lemma_hemisphere_bounds(l: Seq<u8>)
    requires
        record_of(l) is Ok,
        record_of(l)->Ok_0.is_valid,
    ensures
        0 <= place_of_line(l).ns.0 <= place_of_line(l).ns.1 < place_of_line(l).we.0
            <= place_of_line(l).we.1 < l.len(),
{
    reveal(full_record);
    lemma_find_bounds(l, colon(), 0);
    let c = find(l, colon(), 0)->0;
    lemma_skip_ws_at_least(l, c + 1);
    let t = skip_ws(l, c + 1);
    let x = labelled(l, t + 19, x_label())->0;
    lemma_skip_ws_at_least(l, t + 19);
    lemma_spaced_word_bounds(l, skip_ws(l, t + 19) + 2);
    let y = labelled(l, x.1 + 1, y_label())->0;
    lemma_skip_ws_at_least(l, x.1 + 1);
    lemma_spaced_word_bounds(l, skip_ws(l, x.1 + 1) + 2);
    let z = labelled(l, y.1 + 1, z_label())->0;
    lemma_skip_ws_at_least(l, y.1 + 1);
    lemma_spaced_word_bounds(l, skip_ws(l, y.1 + 1) + 2);
    lemma_spaced_word_bounds(l, z.1 + 1);
    let tag = spaced_word(l, z.1 + 1)->0;
    lemma_spaced_word_bounds(l, tag.1 + 1);
    let volt = spaced_word(l, tag.1 + 1)->0;
    lemma_spaced_word_bounds(l, volt.1 + 1);
    let event = spaced_word(l, volt.1 + 1)->0;
    lemma_spaced_word_bounds(l, event.1 + 1);
    let lat = spaced_word(l, event.1 + 1)->0;
    lemma_spaced_word_bounds(l, lat.1 + 1);
    let ns = spaced_word(l, lat.1 + 1)->0;
    lemma_spaced_word_bounds(l, ns.1 + 1);
    let lon = spaced_word(l, ns.1 + 1)->0;
    lemma_spaced_word_bounds(l, lon.1 + 1);
}

/// Writing `S` for the `N` of a valid line's latitude negates the latitude;
/// every other field stays as it was.
pub proof fn lemma_southern_latitude(l: Seq<u8>)
    requires
        record_of(l) is Ok,
        record_of(l)->Ok_0.is_valid,
        text(l, place_of_line(l).ns) == seq![0x4eu8],
    ensures
        record_of(l.update(place_of_line(l).ns.0, 0x53u8)) == Ok::<SampleView, FormatError>(
            SampleView { latitude: record_of(l)->Ok_0.latitude.negated(), ..record_of(l)->Ok_0 },
        ),
{
    let pl = place_of_line(l);
    let q = pl.ns.0;
    lemma_hemisphere_bounds(l);
    assert(text(l, pl.ns).len() == 1);
    assert(pl.ns.1 == q + 1);
    assert(text(l, pl.ns)[0] == l[q]);
    lemma_reletter_frame(l, q, 0x53u8);
    lemma_valid_record(l);
    let l2 = l.update(q, 0x53u8);
    let c = find(l, colon(), 0)->0;
    let t = skip_ws(l, c + 1);
    let f = front_of(l, t + 19)->Ok_0;
    assert(record_of(l2) == full_record(l2, l.subrange(0, c), l.subrange(t, t + 19), f));
    lemma_full_record_frame(l, l2, l.subrange(0, c), l.subrange(t, t + 19), f);
    assert(text(l2, pl.ns)[0] == l2[q]);
    assert(text(l2, pl.ns) =~= seq![0x53u8]);
    assert(seq![0x4eu8][0] != seq![0x53u8][0]);
}

/// Writing `W` for the `E` of a valid line's longitude negates the longitude;
/// every other field stays as it was.
pub proof fn lemma_western_longitude(l: Seq<u8>)
    requires
        record_of(l) is Ok,
        record_of(l)->Ok_0.is_valid,
        text(l, place_of_line(l).we) == seq![0x45u8],
    ensures
        record_of(l.update(place_of_line(l).we.0, 0x57u8)) == Ok::<SampleView, FormatError>(
            SampleView { longitude: record_of(l)->Ok_0.longitude.negated(), ..record_of(l)->Ok_0 },
        ),
{
    let pl = place_of_line(l);
    let q = pl.we.0;
    lemma_hemisphere_bounds(l);
    assert(text(l, pl.we).len() == 1);
    assert(pl.we.1 == q + 1);
    assert(text(l, pl.we)[0] == l[q]);
    lemma_reletter_frame(l, q, 0x57u8);
    lemma_valid_record(l);
    let l2 = l.update(q, 0x57u8);
    let c = find(l, colon(), 0)->0;
    let t = skip_ws(l, c + 1);
    let f = front_of(l, t + 19)->Ok_0;
    assert(record_of(l2) == full_record(l2, l.subrange(0, c), l.subrange(t, t + 19), f));
    lemma_full_record_frame(l, l2, l.subrange(0, c), l.subrange(t, t + 19), f);
    assert(text(l2, pl.we)[0] == l2[q]);
    assert(text(l2, pl.we) =~= seq![0x57u8]);
    assert(seq![0x45u8][0] != seq![0x57u8][0]);
}

} // verus!
