//! Exact decimal numbers as they are written in telemetry lines: parsing and
//! fixed-precision rendering.

use vstd::prelude::*;

verus! {

/// A decimal number `(-1)^negative * mantissa / 10^scale`.
///
/// Parsed numbers are kept in lowest terms (see `wf`), so that two parsed
/// numbers are equal exactly when their values are.
#[derive(Clone, Copy, Debug, PartialEq, Eq, Structural)]
pub struct Decimal {
    pub negative: bool,
    pub mantissa: u64,
    pub scale: usize,
}

pub open spec fn is_digit(b: u8) -> bool {
    0x30u8 <= b && b <= 0x39u8
}

pub open spec fn all_digits(t: Seq<u8>) -> bool {
    forall|i: int| 0 <= i < t.len() ==> is_digit(#[trigger] t[i])
}

/// The value of a string of decimal digits, most significant first.
pub open spec fn digits_value(t: Seq<u8>) -> nat
    decreases t.len(),
{
    if t.len() == 0 {
        0
    } else {
        digits_value(t.drop_last()) * 10 + (t.last() - 0x30u8) as nat
    }
}

pub open spec fn pow10(n: nat) -> nat
    decreases n,
{
    if n == 0 {
        1
    } else {
        10 * pow10((n - 1) as nat)
    }
}

/// The same value in lowest terms: trailing zero digits of the fraction
/// dropped, and zero written without sign or fraction.
pub open spec fn normalize(negative: bool, mantissa: nat, scale: nat) -> (nat, nat, bool)
    decreases scale,
{
    if mantissa == 0 {
        (0, 0, false)
    } else if scale > 0 && mantissa % 10 == 0 {
        normalize(negative, mantissa / 10, (scale - 1) as nat)
    } else {
        (mantissa, scale, negative)
    }
}

impl Decimal {
    /// Lowest terms.
    pub open spec fn wf(self) -> bool {
        &&& (self.mantissa == 0 ==> !self.negative && self.scale == 0)
        &&& (self.scale > 0 ==> self.mantissa % 10 != 0)
    }

    pub open spec fn is_zero(self) -> bool {
        self.mantissa == 0
    }

    /// The value times `10^scale`.
    pub open spec fn numerator(self) -> int {
        if self.negative {
            -(self.mantissa as int)
        } else {
            self.mantissa as int
        }
    }

    /// The number with its sign flipped (zero stays unsigned).
    pub open spec fn negated(self) -> Decimal {
        Decimal { negative: !self.negative && self.mantissa != 0, ..self }
    }

    pub open spec fn spec_zero() -> Decimal {
        Decimal { negative: false, mantissa: 0, scale: 0 }
    }

    pub fn zero() -> (r: Decimal)
        ensures
            r == Decimal::spec_zero(),
            r.wf(),
    {
        Decimal { negative: false, mantissa: 0, scale: 0 }
    }

    pub fn negate(&self) -> (r: Decimal)
        ensures
            r == self.negated(),
            self.wf() ==> r.wf(),
    {
        Decimal { negative: !self.negative && self.mantissa != 0, mantissa: self.mantissa, scale: self.scale }
    }
}

proof fn lemma_pow10_add(x: nat, y: nat)
    ensures
        pow10(x + y) == pow10(x) * pow10(y),
    decreases y,
{
    if y == 0 {
        assert(x + y == x);
        assert(pow10(0) == 1);
    } else {
        let y1 = (y - 1) as nat;
        lemma_pow10_add(x, y1);
        let a = pow10(x);
        let b = pow10(y1);
        assert(pow10(x + y) == 10 * pow10(x + y1));
        assert(pow10(y) == 10 * b);
        assert(10 * (a * b) == a * (10 * b)) by (nonlinear_arith);
    }
}

/// Numbers in lowest terms are equal exactly when their values are.
pub proof fn lemma_lowest_terms_unique(a: Decimal, b: Decimal)
    requires
        a.wf(),
        b.wf(),
        a.numerator() * pow10(b.scale as nat) == b.numerator() * pow10(a.scale as nat),
    ensures
        a == b,
{
    lemma_pow10_positive(a.scale as nat);
    lemma_pow10_positive(b.scale as nat);
    let pa = pow10(a.scale as nat) as int;
    let pb = pow10(b.scale as nat) as int;
    let ma = a.mantissa as int;
    let mb = b.mantissa as int;
    assert(ma * pb == mb * pa) by (nonlinear_arith)
        requires
            a.numerator() * pb == b.numerator() * pa,
            a.numerator() == ma || a.numerator() == -ma,
            b.numerator() == mb || b.numerator() == -mb,
            ma >= 0, mb >= 0, pa > 0, pb > 0,
            (a.numerator() == -ma && ma != 0) == a.negative,
            (b.numerator() == -mb && mb != 0) == b.negative,
            a.negative ==> a.numerator() < 0,
            b.negative ==> b.numerator() < 0,
            !a.negative ==> a.numerator() >= 0,
            !b.negative ==> b.numerator() >= 0,
    ;
    if ma == 0 || mb == 0 {
        assert(ma == 0 && mb == 0) by (nonlinear_arith)
            requires ma * pb == mb * pa, pa > 0, pb > 0, ma >= 0, mb >= 0, ma == 0 || mb == 0;
    } else {
        assert(a.negative == b.negative) by (nonlinear_arith)
            requires
                a.numerator() * pb == b.numerator() * pa,
                pa > 0, pb > 0,
                a.negative ==> a.numerator() < 0,
                b.negative ==> b.numerator() < 0,
                !a.negative ==> a.numerator() > 0,
                !b.negative ==> b.numerator() > 0,
        ;
        if a.scale < b.scale {
            let d = (b.scale - a.scale) as nat;
            lemma_pow10_add(a.scale as nat, d);
            lemma_pow10_positive((d - 1) as nat);
            let r = pow10((d - 1) as nat) as int;
            assert(mb == ma * 10 * r) by (nonlinear_arith)
                requires ma * pb == mb * pa, pb == pa * (10 * r), pa > 0;
            let k = ma * r;
            assert(mb == 10 * k) by (nonlinear_arith)
                requires mb == ma * 10 * r, k == ma * r;
            assert(mb % 10 == 0);
        } else if b.scale < a.scale {
            let d = (a.scale - b.scale) as nat;
            lemma_pow10_add(b.scale as nat, d);
            lemma_pow10_positive((d - 1) as nat);
            let r = pow10((d - 1) as nat) as int;
            assert(ma == mb * 10 * r) by (nonlinear_arith)
                requires ma * pb == mb * pa, pa == pb * (10 * r), pb > 0;
            let k = mb * r;
            assert(ma == 10 * k) by (nonlinear_arith)
                requires ma == mb * 10 * r, k == mb * r;
            assert(ma % 10 == 0);
        } else {
            assert(ma == mb) by (nonlinear_arith)
                requires ma * pb == mb * pa, pa == pb, pa > 0;
        }
    }
}

/// Length of an optional leading sign.
pub open spec fn sign_len(t: Seq<u8>) -> int {
    if t.len() > 0 && (t[0] == 0x2bu8 || t[0] == 0x2du8) {
        1
    } else {
        0
    }
}

/// Position of the first `.` in `t`, or its length.
pub open spec fn dot_pos(t: Seq<u8>, from: int) -> int
    decreases t.len() - from,
{
    if from < 0 || from >= t.len() {
        from
    } else if t[from] == 0x2eu8 {
        from
    } else {
        dot_pos(t, from + 1)
    }
}

/// A decimal literal: an optional sign, digits, and at most one `.` with at
/// least one digit overall, whose digits read as an integer fit in 64 bits.
pub open spec fn decimal_of(t: Seq<u8>) -> Option<Decimal> {
    let s = sign_len(t);
    let d = dot_pos(t, s);
    let int_part = t.subrange(s, d);
    let frac = if d < t.len() { t.subrange(d + 1, t.len() as int) } else { Seq::empty() };
    let digits = int_part + frac;
    if all_digits(int_part) && all_digits(frac) && digits.len() > 0 && digits_value(digits)
        <= u64::MAX {
        let (m, sc, neg) = normalize(s == 1 && t[0] == 0x2du8, digits_value(digits), frac.len());
        Some(Decimal { negative: neg, mantissa: m as u64, scale: sc as usize })
    } else {
        None
    }
}

/// An unsigned integer literal: an optional `+` and at least one digit.
pub open spec fn unsigned_of(t: Seq<u8>) -> Option<nat> {
    let s: int = if t.len() > 0 && t[0] == 0x2bu8 { 1 } else { 0 };
    let digits = t.subrange(s, t.len() as int);
    if digits.len() > 0 && all_digits(digits) {
        Some(digits_value(digits))
    } else {
        None
    }
}

proof fn lemma_digits_value_prefix_monotone(t: Seq<u8>, i: int, j: int)
    requires
        0 <= i <= j <= t.len(),
    ensures
        digits_value(t.take(i)) <= digits_value(t.take(j)),
    decreases j - i,
{
    if i < j {
        lemma_digits_value_prefix_monotone(t, i, j - 1);
        assert(t.take(j).drop_last() =~= t.take(j - 1));
    }
}

proof fn lemma_normalize_wf(negative: bool, mantissa: nat, scale: nat)
    ensures
        ({
            let (m, s, n) = normalize(negative, mantissa, scale);
            &&& m <= mantissa
            &&& s <= scale
            &&& (m == 0 ==> !n && s == 0)
            &&& (s > 0 ==> m % 10 != 0)
        }),
    decreases scale,
{
    if mantissa != 0 && scale > 0 && mantissa % 10 == 0 {
        lemma_normalize_wf(negative, mantissa / 10, (scale - 1) as nat);
    }
}

/// Reads the digits of `l[a..b]` skipping a `.` at `dot` (or none when `dot == b`).
fn read_mantissa(l: &[u8], a: usize, dot: usize, b: usize) -> (r: Option<u64>)
    requires
        a <= dot <= b <= l@.len(),
        dot < b ==> l@[dot as int] == 0x2eu8,
    ensures
        ({
            let int_part = l@.subrange(a as int, dot as int);
            let frac = if dot < b { l@.subrange(dot + 1, b as int) } else { Seq::empty() };
            let digits = int_part + frac;
            match r {
                Some(m) => all_digits(digits) && m as nat == digits_value(digits),
                None => !all_digits(digits) || digits_value(digits) > u64::MAX,
            }
        }),
{
    let ghost int_part = l@.subrange(a as int, dot as int);
    let ghost frac = if dot < b { l@.subrange(dot + 1, b as int) } else { Seq::<u8>::empty() };
    let ghost digits = int_part + frac;
    let n_digits: usize = if dot < b { b - a - 1 } else { b - a };
    assert(digits.len() == n_digits);
    let mut m: u64 = 0;
    let mut k: usize = 0;
    while k < n_digits
        invariant
            a <= dot <= b <= l@.len(),
            n_digits == digits.len(),
            digits == int_part + frac,
            int_part == l@.subrange(a as int, dot as int),
            frac == (if dot < b { l@.subrange(dot + 1, b as int) } else { Seq::<u8>::empty() }),
            k <= n_digits,
            all_digits(digits.take(k as int)),
            m as nat == digits_value(digits.take(k as int)),
        decreases n_digits - k,
    {
        let pos: usize = if k < dot - a { a + k } else { k + 1 + a };
        assert(digits[k as int] == l@[pos as int]);
        let c = l[pos];
        assert(digits.take(k + 1).drop_last() =~= digits.take(k as int));
        if !(0x30u8 <= c && c <= 0x39u8) {
            assert(!is_digit(digits[k as int]));
            return None;
        }
        let d = (c - 0x30u8) as u64;
        if m > (u64::MAX - d) / 10 {
            proof {
                lemma_digits_value_prefix_monotone(digits, k + 1, n_digits as int);
                assert(digits.take(n_digits as int) =~= digits);
            }
            return None;
        }
        m = m * 10 + d;
        k = k + 1;
        assert(all_digits(digits.take(k as int))) by {
            assert forall|i: int| 0 <= i < k implies is_digit(#[trigger] digits.take(k as int)[i]) by {
                if i < k - 1 {
                    assert(digits.take(k as int)[i] == digits.take(k - 1)[i]);
                }
            }
        }
    }
    assert(digits.take(n_digits as int) =~= digits);
    Some(m)
}

/// Parses the decimal literal `l[a..b]`.
pub fn parse_decimal(l: &[u8], a: usize, b: usize) -> (r: Option<Decimal>)
    requires
        a <= b <= l@.len(),
    ensures
        r == decimal_of(l@.subrange(a as int, b as int)),
        r matches Some(d) ==> d.wf(),
{
    let ghost t = l@.subrange(a as int, b as int);
    let s: usize = if a < b && (l[a] == 0x2bu8 || l[a] == 0x2du8) { 1 } else { 0 };
    let negative = s == 1 && l[a] == 0x2du8;
    assert(s as int == sign_len(t));
    let mut dot: usize = a + s;
    while dot < b && l[dot] != 0x2eu8
        invariant
            a + s <= dot <= b,
            b <= l@.len(),
            t == l@.subrange(a as int, b as int),
            dot_pos(t, (dot - a) as int) == dot_pos(t, s as int),
        decreases b - dot,
    {
        dot = dot + 1;
    }
    assert(dot - a == dot_pos(t, s as int));
    let ghost int_part = t.subrange(s as int, dot - a);
    let ghost frac = if dot < b { t.subrange(dot - a + 1, t.len() as int) } else { Seq::<u8>::empty() };
    assert(int_part =~= l@.subrange(a + s, dot as int));
    assert(dot < b ==> frac =~= l@.subrange(dot + 1, b as int));
    let n_digits: usize = if dot < b { b - a - s - 1 } else { b - a - s };
    if n_digits == 0 {
        assert((int_part + frac).len() == 0);
        return None;
    }
    match read_mantissa(l, a + s, dot, b) {
        None => None,
        Some(m0) => {
            let scale0: usize = if dot < b { b - dot - 1 } else { 0 };
            assert(frac.len() == scale0);
            assert(all_digits(int_part) && all_digits(frac)) by {
                assert forall|i: int| 0 <= i < int_part.len() implies is_digit(#[trigger] int_part[i]) by {
                    assert(int_part[i] == (int_part + frac)[i]);
                }
                assert forall|i: int| 0 <= i < frac.len() implies is_digit(#[trigger] frac[i]) by {
                    assert(frac[i] == (int_part + frac)[int_part.len() + i]);
                }
            }
            let mut m = m0;
            let mut scale = scale0;
            while m != 0 && scale > 0 && m % 10 == 0
                invariant
                    normalize(negative, m as nat, scale as nat) == normalize(
                        negative,
                        m0 as nat,
                        scale0 as nat,
                    ),
                decreases scale,
            {
                m = m / 10;
                scale = scale - 1;
            }
            proof {
                lemma_normalize_wf(negative, m0 as nat, scale0 as nat);
            }
            if m == 0 {
                Some(Decimal { negative: false, mantissa: 0, scale: 0 })
            } else {
                Some(Decimal { negative, mantissa: m, scale })
            }
        }
    }
}

/// Parses the unsigned literal `l[a..b]` and keeps it when it is at most `max`.
pub fn parse_unsigned(l: &[u8], a: usize, b: usize, max: u32) -> (r: Option<u32>)
    requires
        a <= b <= l@.len(),
    ensures
        r == (match unsigned_of(l@.subrange(a as int, b as int)) {
            Some(v) => if v <= max { Some(v as u32) } else { None },
            None => None,
        }),
{
    let ghost t = l@.subrange(a as int, b as int);
    let s: usize = if a < b && l[a] == 0x2bu8 { 1 } else { 0 };
    let ghost digits = t.subrange(s as int, t.len() as int);
    assert(digits =~= l@.subrange(a + s, b as int));
    if a + s == b {
        return None;
    }
    match read_mantissa(l, a + s, b, b) {
        None => {
            assert(l@.subrange(a + s, b as int) + Seq::<u8>::empty() =~= digits);
            None
        },
        Some(m) => {
            assert(l@.subrange(a + s, b as int) + Seq::<u8>::empty() =~= digits);
            if m > max as u64 {
                None
            } else {
                Some(m as u32)
            }
        },
    }
}

/// The value scaled by `10^places` and rounded to an integer, ties to even.
pub open spec fn scaled_rounded(d: Decimal, places: nat) -> nat {
    if d.scale <= places {
        d.mantissa as nat * pow10((places - d.scale) as nat)
    } else {
        let h = pow10((d.scale - places) as nat);
        let q = d.mantissa as nat / h;
        let r = d.mantissa as nat % h;
        if 2 * r > h || (2 * r == h && q % 2 == 1) {
            q + 1
        } else {
            q
        }
    }
}

pub open spec fn digit_char(n: nat) -> u8 {
    (0x30 + n % 10) as u8
}

/// Decimal digits of `n` without leading zeros (`0` for zero).
pub open spec fn digits_of(n: nat) -> Seq<u8>
    decreases n,
{
    if n < 10 {
        seq![digit_char(n)]
    } else {
        digits_of(n / 10).push(digit_char(n))
    }
}

/// The last `w` decimal digits of `n`, zero-padded.
pub open spec fn width_digits(n: nat, w: nat) -> Seq<u8>
    decreases w,
{
    if w == 0 {
        Seq::empty()
    } else {
        width_digits(n / 10, (w - 1) as nat).push(digit_char(n))
    }
}

/// `d` written with exactly `places` fraction digits, as `{:.N}` writes a number.
pub open spec fn fixed_text(d: Decimal, places: nat) -> Seq<u8> {
    let q = scaled_rounded(d, places);
    let sign = if d.negative { seq![0x2du8] } else { Seq::empty() };
    sign + digits_of(q / pow10(places)) + seq![0x2eu8] + width_digits(q % pow10(places), places)
}

proof fn lemma_pow10_positive(n: nat)
    ensures
        pow10(n) >= 1,
    decreases n,
{
    if n > 0 {
        lemma_pow10_positive((n - 1) as nat);
    }
}

proof fn lemma_pow10_monotone(a: nat, b: nat)
    requires
        a <= b,
    ensures
        pow10(a) <= pow10(b),
    decreases b - a,
{
    if a < b {
        lemma_pow10_monotone(a, (b - 1) as nat);
        lemma_pow10_positive((b - 1) as nat);
    }
}

proof fn lemma_pow10_20()
    ensures
        pow10(20) == 100000000000000000000nat,
{
    reveal_with_fuel(pow10, 21);
}

fn pow10_exec(n: usize) -> (r: u128)
    requires
        n <= 20,
    ensures
        r as nat == pow10(n as nat),
{
    let mut r: u128 = 1;
    let mut k: usize = 0;
    while k < n
        invariant
            k <= n <= 20,
            r as nat == pow10(k as nat),
        decreases n - k,
    {
        proof {
            lemma_pow10_monotone(k as nat, 19);
            lemma_pow10_monotone(19, 20);
            lemma_pow10_20();
        }
        r = r * 10;
        k = k + 1;
    }
    r
}

fn push_digits(out: &mut Vec<u8>, n: u128)
    ensures
        final(out)@ == old(out)@ + digits_of(n as nat),
    decreases n,
{
    if n >= 10 {
        push_digits(out, n / 10);
    }
    out.push((0x30u128 + n % 10) as u8);
    proof {
        if n >= 10 {
            assert(old(out)@ + digits_of(n as nat) =~= old(out)@ + digits_of((n / 10) as nat) + seq![digit_char(n as nat)]);
        } else {
            assert(old(out)@ + digits_of(n as nat) =~= old(out)@ + seq![digit_char(n as nat)]);
        }
    }
}

fn push_width_digits(out: &mut Vec<u8>, n: u128, w: usize)
    ensures
        final(out)@ == old(out)@ + width_digits(n as nat, w as nat),
    decreases w,
{
    if w == 0 {
        assert(old(out)@ + width_digits(n as nat, 0) =~= old(out)@);
        return;
    }
    push_width_digits(out, n / 10, w - 1);
    out.push((0x30u128 + n % 10) as u8);
    assert(old(out)@ + width_digits(n as nat, w as nat) =~= old(out)@ + width_digits((n / 10) as nat, (w - 1) as nat) + seq![digit_char(n as nat)]);
}

/// Appends `d` written with `places` fraction digits.
pub fn push_fixed(out: &mut Vec<u8>, d: Decimal, places: usize)
    requires
        1 <= places <= 9,
    ensures
        final(out)@ == old(out)@ + fixed_text(d, places as nat),
{
    let q: u128 = if d.scale <= places {
        let f = pow10_exec(places - d.scale);
        proof {
            lemma_pow10_monotone((places - d.scale) as nat, 9);
            reveal_with_fuel(pow10, 10);
            assert(d.mantissa * f <= 0xffff_ffff_ffff_ffffnat * 1000000000nat) by (nonlinear_arith)
                requires d.mantissa <= 0xffff_ffff_ffff_ffffnat, f <= 1000000000nat;
        }
        d.mantissa as u128 * f
    } else if d.scale - places >= 20 {
        proof {
            let h = pow10((d.scale - places) as nat);
            lemma_pow10_monotone(20, (d.scale - places) as nat);
            lemma_pow10_20();
            assert(d.mantissa as nat / h == 0) by (nonlinear_arith)
                requires d.mantissa < h, h > 0;
            assert(d.mantissa as nat % h == d.mantissa) by (nonlinear_arith)
                requires d.mantissa < h, h > 0;
        }
        0
    } else {
        let h = pow10_exec(d.scale - places);
        proof {
            lemma_pow10_positive((d.scale - places) as nat);
            lemma_pow10_monotone((d.scale - places) as nat, 20);
            lemma_pow10_20();
        }
        let q0 = d.mantissa as u128 / h;
        let r0 = d.mantissa as u128 % h;
        if 2 * r0 > h || (2 * r0 == h && q0 % 2 == 1) {
            q0 + 1
        } else {
            q0
        }
    };
    assert(q as nat == scaled_rounded(d, places as nat));
    let unit = pow10_exec(places);
    proof { lemma_pow10_positive(places as nat); }
    if d.negative {
        out.push(0x2du8);
    }
    let ghost start = out@;
    push_digits(out, q / unit);
    out.push(0x2eu8);
    push_width_digits(out, q % unit, places);
    assert(out@ =~= old(out)@ + fixed_text(d, places as nat));
}

} // verus!
