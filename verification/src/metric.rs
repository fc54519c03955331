//! Normalized activity metrics.
//!
//! A metric is an exact rational in `[0, 1]`, kept as a numerator/denominator
//! pair so that clipping and byte conversion are exact: `0` means no activity
//! relative to capacity, `1` means at or above capacity.

use vstd::prelude::*;

verus! {

/// An exact rational value in `[0, 1]`: `num / den` with `num <= den`.
#[derive(Clone, Copy, Debug, PartialEq, Eq, Structural)]
pub struct NormalizedMetric {
    pub num: u64,
    pub den: u64,
}

impl NormalizedMetric {
    /// Well-formed: the denominator is positive and the value is at most one.
    pub open spec fn wf(self) -> bool {
        1 <= self.den && self.num <= self.den
    }

    /// The metric denotes the value zero.
    pub open spec fn is_zero(self) -> bool {
        self.num == 0
    }

    /// The metric denotes exactly one (raw activity at or above capacity).
    pub open spec fn is_full(self) -> bool {
        self.num == self.den
    }

    /// Brightness of the metric: `floor(255 * num / den)`.
    pub open spec fn brightness(self) -> int {
        255 * (self.num as int) / (self.den as int)
    }

    /// Brightness as the byte written for one LED channel.
    pub open spec fn byte(self) -> u8 {
        self.brightness() as u8
    }

    pub fn new(num: u64, den: u64) -> (r: NormalizedMetric)
        requires
            1 <= den,
            num <= den,
        ensures
            r == (NormalizedMetric { num, den }),
            r.wf(),
    {
        NormalizedMetric { num, den }
    }

    /// The zero metric.
    pub fn zero() -> (r: NormalizedMetric)
        ensures
            r == (NormalizedMetric { num: 0u64, den: 1u64 }),
            r.wf(),
            r.is_zero(),
    {
        NormalizedMetric { num: 0, den: 1 }
    }

    /// Brightness byte for one LED channel: `floor(255 * value)`, which is
    /// `255` exactly when the metric is full and `0` exactly when it is zero.
    pub fn to_byte(&self) -> (r: u8)
        requires
            self.wf(),
        ensures
            r as int == self.brightness(),
            r == self.byte(),
            self.is_full() ==> r == 255,
            self.is_zero() ==> r == 0,
            !self.is_full() ==> r < 255,
    {
        proof {
            lemma_brightness_bounds(*self);
        }
        let wide: u128 = 255u128 * (self.num as u128) / (self.den as u128);
        wide as u8
    }
}

/// `floor(255 * num / den)` lies in `[0, 255]`, hits `255` exactly on a full
/// metric and `0` on a zero one.
pub proof fn lemma_brightness_bounds(m: NormalizedMetric)
    requires
        m.wf(),
    ensures
        0 <= m.brightness() <= 255,
        m.is_full() ==> m.brightness() == 255,
        m.is_zero() ==> m.brightness() == 0,
        !m.is_full() ==> m.brightness() < 255,
{
    let d = m.den as int;
    let n = m.num as int;
    assert(255 * n <= d * 255) by (nonlinear_arith)
        requires n <= d;
    vstd::arithmetic::div_mod::lemma_multiply_divide_le(255 * n, d, 255);
    vstd::arithmetic::div_mod::lemma_div_pos_is_pos(255 * n, d);
    if m.is_full() {
        vstd::arithmetic::div_mod::lemma_div_by_multiple(255, d);
        assert(255 * n == 255 * d);
    }
    if m.is_zero() {
        vstd::arithmetic::div_mod::lemma_div_of0(d);
    }
    if !m.is_full() {
        assert(255 * n < d * 255) by (nonlinear_arith)
            requires n < d;
        vstd::arithmetic::div_mod::lemma_multiply_divide_lt(255 * n, d, 255);
    }
}

/// The normalized form of a raw per-tick delta against a capacity:
/// exactly `min(1, raw / cap)`.
pub open spec fn normalized(raw: u64, cap: u64) -> NormalizedMetric {
    if raw >= cap {
        NormalizedMetric { num: cap, den: cap }
    } else {
        NormalizedMetric { num: raw, den: cap }
    }
}

/// Normalization lands in `[0, 1]` for every raw delta, hits exactly one
/// if and only if the raw delta is at or above capacity, and is zero if
/// and only if the raw delta is zero.
pub proof fn lemma_normalize_range(raw: u64, cap: u64)
    requires
        1 <= cap,
    ensures
        normalized(raw, cap).wf(),
        normalized(raw, cap).is_full() <==> raw >= cap,
        normalized(raw, cap).is_zero() <==> raw == 0,
{
}

/// Clip-and-scale a raw per-tick delta into `[0, 1]` against a capacity:
/// exactly `min(1, raw / cap)`.
pub fn normalize(raw: u64, cap: u64) -> (r: NormalizedMetric)
    requires
        1 <= cap,
    ensures
        r == normalized(raw, cap),
        r.wf(),
        r.den == cap,
        raw >= cap ==> r.is_full(),
        raw < cap ==> r.num == raw,
        raw == 0 ==> r.is_zero(),
{
    if raw >= cap {
        NormalizedMetric { num: cap, den: cap }
    } else {
        NormalizedMetric { num: raw, den: cap }
    }
}

} // verus!
