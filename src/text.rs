//! Position-based scanning of byte lines: whitespace skipping, searching and
//! whitespace-delimited fields.

use vstd::prelude::*;

verus! {

/// ASCII whitespace: space, tab, line feed, vertical tab, form feed, carriage return.
pub open spec fn is_space(b: u8) -> bool {
    b == 0x20u8 || (0x09u8 <= b && b <= 0x0du8)
}

/// The first position at or after `p` that holds no whitespace (or the end).
pub open spec fn skip_ws(l: Seq<u8>, p: int) -> int
    decreases l.len() - p,
{
    if p < 0 || p >= l.len() {
        p
    } else if is_space(l[p]) {
        skip_ws(l, p + 1)
    } else {
        p
    }
}

/// `pat` stands in `l` at position `p`.
pub open spec fn has_at(l: Seq<u8>, pat: Seq<u8>, p: int) -> bool {
    0 <= p && p + pat.len() <= l.len() && l.subrange(p, p + pat.len()) == pat
}

/// The first position at or after `p` where `pat` stands.
pub open spec fn find(l: Seq<u8>, pat: Seq<u8>, p: int) -> Option<int>
    decreases l.len() + 1 - p,
{
    if p < 0 || p > l.len() || p + pat.len() > l.len() {
        None
    } else if has_at(l, pat, p) {
        Some(p)
    } else {
        find(l, pat, p + 1)
    }
}

/// The end of the run of non-whitespace bytes that starts at `p`.
pub open spec fn word_end(l: Seq<u8>, p: int) -> int
    decreases l.len() - p,
{
    if p < 0 || p >= l.len() {
        p
    } else if is_space(l[p]) {
        p
    } else {
        word_end(l, p + 1)
    }
}

/// The text after leading whitespace from `p` up to the next space: its span.
pub open spec fn spaced_word(l: Seq<u8>, p: int) -> Option<(int, int)> {
    let a = skip_ws(l, p);
    match find(l, seq![0x20u8], a) {
        Some(e) => Some((a, e)),
        None => None,
    }
}

/// The next whitespace-delimited field at or after `p`, if any: its span.
pub open spec fn next_field(l: Seq<u8>, p: int) -> Option<(int, int)> {
    let a = skip_ws(l, p);
    if a >= l.len() {
        None
    } else {
        Some((a, word_end(l, a)))
    }
}

/// A span as mathematical positions.
pub open spec fn span_of(r: Option<(usize, usize)>) -> Option<(int, int)> {
    match r {
        Some((a, b)) => Some((a as int, b as int)),
        None => None,
    }
}

pub proof fn lemma_skip_ws_bounds(l: Seq<u8>, p: int)
    requires
        0 <= p <= l.len(),
    ensures
        p <= skip_ws(l, p) <= l.len(),
    decreases l.len() - p,
{
    if p < l.len() && is_space(l[p]) {
        lemma_skip_ws_bounds(l, p + 1);
    }
}

pub proof fn lemma_find_bounds(l: Seq<u8>, pat: Seq<u8>, p: int)
    requires
        0 <= p,
    ensures
        find(l, pat, p) matches Some(i) ==> p <= i && has_at(l, pat, i),
    decreases l.len() + 1 - p,
{
    if p <= l.len() && p + pat.len() <= l.len() && !has_at(l, pat, p) {
        lemma_find_bounds(l, pat, p + 1);
    }
}

pub proof fn lemma_word_end_bounds(l: Seq<u8>, p: int)
    requires
        0 <= p <= l.len(),
    ensures
        p <= word_end(l, p) <= l.len(),
    decreases l.len() - p,
{
    if p < l.len() && !is_space(l[p]) {
        lemma_word_end_bounds(l, p + 1);
    }
}

pub fn is_space_byte(b: u8) -> (r: bool)
    ensures
        r == is_space(b),
{
    b == 0x20u8 || (0x09u8 <= b && b <= 0x0du8)
}

/// Skips whitespace from `p`.
pub fn skip_spaces(l: &[u8], p: usize) -> (r: usize)
    requires
        p <= l@.len(),
    ensures
        r as int == skip_ws(l@, p as int),
        p <= r <= l@.len(),
{
    let mut i: usize = p;
    while i < l.len() && is_space_byte(l[i])
        invariant
            p <= i <= l@.len(),
            skip_ws(l@, i as int) == skip_ws(l@, p as int),
        decreases l@.len() - i,
    {
        i = i + 1;
    }
    i
}

/// Whether `pat` stands in `l` at `p`.
pub fn bytes_at(l: &[u8], pat: &[u8], p: usize) -> (r: bool)
    ensures
        r == has_at(l@, pat@, p as int),
{
    if p > l.len() || pat.len() > l.len() - p {
        return false;
    }
    let n = l.len();
    let mut k: usize = 0;
    while k < pat.len()
        invariant
            n == l@.len(),
            p + pat@.len() <= l@.len(),
            k <= pat@.len(),
            forall|j: int| 0 <= j < k ==> l@[p + j] == pat@[j],
        decreases pat@.len() - k,
    {
        assert(p + k < l@.len());
        if l[p + k] != pat[k] {
            assert(l@.subrange(p as int, p + pat@.len())[k as int] != pat@[k as int]);
            return false;
        }
        k = k + 1;
    }
    assert(l@.subrange(p as int, p + pat@.len()) =~= pat@);
    true
}

/// The first position at or after `p` where `pat` stands.
pub fn find_from(l: &[u8], pat: &[u8], p: usize) -> (r: Option<usize>)
    requires
        p <= l@.len(),
        pat@.len() > 0,
    ensures
        r matches Some(i) ==> find(l@, pat@, p as int) == Some(i as int),
        r is None ==> find(l@, pat@, p as int) is None,
{
    let n = l.len();
    let mut i: usize = p;
    while i <= n
        invariant
            n == l@.len(),
            pat@.len() > 0,
            p <= i,
            i <= l@.len() + 1,
            find(l@, pat@, i as int) == find(l@, pat@, p as int),
        decreases l@.len() + 1 - i,
    {
        if pat.len() > l.len() - i {
            return None;
        }
        if bytes_at(l, pat, i) {
            return Some(i);
        }
        i = i + 1;
    }
    None
}

/// The end of the non-whitespace run starting at `p`.
pub fn word_end_from(l: &[u8], p: usize) -> (r: usize)
    requires
        p <= l@.len(),
    ensures
        r as int == word_end(l@, p as int),
        p <= r <= l@.len(),
{
    let mut i: usize = p;
    while i < l.len() && !is_space_byte(l[i])
        invariant
            p <= i <= l@.len(),
            word_end(l@, i as int) == word_end(l@, p as int),
        decreases l@.len() - i,
    {
        i = i + 1;
    }
    i
}

/// The word after leading whitespace from `p` up to the next space.
pub fn take_spaced_word(l: &[u8], p: usize) -> (r: Option<(usize, usize)>)
    requires
        p <= l@.len(),
    ensures
        span_of(r) == spaced_word(l@, p as int),
        r matches Some((a, e)) ==> p <= a <= e && e < l@.len(),
{
    let a = skip_spaces(l, p);
    let space: [u8; 1] = [0x20u8];
    proof {
        assert(space@ =~= seq![0x20u8]);
        lemma_find_bounds(l@, seq![0x20u8], a as int);
    }
    match find_from(l, &space, a) {
        Some(e) => Some((a, e)),
        None => None,
    }
}

/// The next whitespace-delimited field at or after `p`.
pub fn take_field(l: &[u8], p: usize) -> (r: Option<(usize, usize)>)
    requires
        p <= l@.len(),
    ensures
        span_of(r) == next_field(l@, p as int),
        r matches Some((a, e)) ==> p <= a <= e <= l@.len(),
{
    let a = skip_spaces(l, p);
    if a >= l.len() {
        None
    } else {
        let e = word_end_from(l, a);
        Some((a, e))
    }
}

/// Whether two byte strings are equal.
pub fn bytes_equal(a: &[u8], b: &[u8]) -> (r: bool)
    ensures
        r == (a@ == b@),
{
    if a.len() != b.len() {
        return false;
    }
    let r = bytes_at(a, b, 0);
    assert(a@.subrange(0, b@.len() as int) =~= a@);
    r
}

/// Copies `buf[a..b]`.
pub fn copy_range(buf: &[u8], a: usize, b: usize) -> (r: Vec<u8>)
    requires
        a <= b <= buf@.len(),
    ensures
        r@ == buf@.subrange(a as int, b as int),
{
    let mut r: Vec<u8> = Vec::new();
    let mut i: usize = a;
    while i < b
        invariant
            a <= i <= b <= buf@.len(),
            r@ == buf@.subrange(a as int, i as int),
        decreases b - i,
    {
        r.push(buf[i]);
        i = i + 1;
        assert(r@ =~= buf@.subrange(a as int, i as int));
    }
    r
}

} // verus!
