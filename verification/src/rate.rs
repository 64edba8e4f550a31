//! Rates as exact fractions, and how they compare.

use vstd::prelude::*;

verus! {

/// A refresh rate in hertz: the fraction `num / den`.
#[derive(Debug, Clone, Copy, PartialEq, Eq, Structural)]
pub struct Hz {
    pub num: u64,
    pub den: u64,
}

/// A pixel rate in pixels per second: the fraction `num / den`.
#[derive(Debug, Clone, Copy, PartialEq, Eq, Structural)]
pub struct PixelRate {
    pub num: u128,
    pub den: u64,
}

/// Whether `a / b < c / d`, for positive `b` and `d`.
pub open spec fn fraction_less(a: int, b: int, c: int, d: int) -> bool {
    a * d < c * b
}

proof fn lemma_quotients_decide(a: int, b: int, c: int, d: int)
    requires
        b > 0,
        d > 0,
        0 <= a,
        0 <= c,
    ensures
        a / b < c / d ==> a * d < c * b,
        a / b > c / d ==> a * d > c * b,
        a / b == c / d ==> (a * d < c * b <==> (a % b) * d < (c % d) * b),
{
    let p = a / b;
    let q = c / d;
    let r = a % b;
    let s = c % d;
    vstd::arithmetic::div_mod::lemma_fundamental_div_mod(a, b);
    vstd::arithmetic::div_mod::lemma_fundamental_div_mod(c, d);
    assert(a * d == p * (b * d) + r * d) by (nonlinear_arith)
        requires
            a == b * p + r,
    ;
    assert(c * b == q * (b * d) + s * b) by (nonlinear_arith)
        requires
            c == d * q + s,
    ;
    assert(0 <= r * d < b * d) by (nonlinear_arith)
        requires
            0 <= r < b,
            d > 0,
    ;
    assert(0 <= s * b < b * d) by (nonlinear_arith)
        requires
            0 <= s < d,
            b > 0,
    ;
    if p < q {
        assert(p * (b * d) + b * d <= q * (b * d)) by (nonlinear_arith)
            requires
                p + 1 <= q,
                b * d >= 0,
        ;
    }
    if p > q {
        assert(q * (b * d) + b * d <= p * (b * d)) by (nonlinear_arith)
            requires
                q + 1 <= p,
                b * d >= 0,
        ;
    }
}

/// Whether `a / b < c / d`.
pub fn less(a: u128, b: u64, c: u128, d: u64) -> (r: bool)
    requires
        b > 0,
        d > 0,
    ensures
        r == fraction_less(a as int, b as int, c as int, d as int),
{
    let p: u128 = a / b as u128;
    let q: u128 = c / d as u128;
    proof {
        lemma_quotients_decide(a as int, b as int, c as int, d as int);
    }
    if p != q {
        p < q
    } else {
        let x: u128 = a % b as u128;
        let y: u128 = c % d as u128;
        assert(x * d <= u128::MAX && y * b <= u128::MAX) by (nonlinear_arith)
            requires
                x < b,
                y < d,
        ;
        x * (d as u128) < y * (b as u128)
    }
}

impl Hz {
    /// Whether this is a number above zero.
    pub open spec fn positive(self) -> bool {
        self.num > 0 && self.den > 0
    }

    /// Whether this rate is more than half a hertz above `cap`.
    pub open spec fn above(self, cap: Hz) -> bool {
        fraction_less(2 * cap.num + cap.den, cap.den as int, 2 * self.num, self.den as int)
    }

    /// The whole hertz in this rate, at most what a `u32` holds.
    pub open spec fn whole(self) -> u32 {
        if self.num as int / self.den as int > u32::MAX {
            u32::MAX
        } else {
            (self.num as int / self.den as int) as u32
        }
    }

    /// The nearest whole hertz (half a hertz counts up), at most what a `u32` holds; zero for
    /// a rate that is no number.
    pub open spec fn nearest(self) -> u32 {
        let n = (2 * self.num + self.den) / (2 * self.den);
        if self.den == 0 {
            0
        } else if n > u32::MAX {
            u32::MAX
        } else {
            n as u32
        }
    }

    /// A whole number of hertz.
    pub fn of(hz: u32) -> (r: Hz)
        ensures
            r == (Hz { num: hz as u64, den: 1 }),
    {
        Hz { num: hz as u64, den: 1 }
    }

    /// Whether this is a number above zero.
    pub fn is_positive(&self) -> (r: bool)
        ensures
            r == self.positive(),
    {
        self.num > 0 && self.den > 0
    }

    /// Whether this rate is more than half a hertz above `cap`: a rate within half a
    /// hertz of the cap still counts as the capped rate.
    pub fn is_above(&self, cap: &Hz) -> (r: bool)
        requires
            self.den > 0,
            cap.den > 0,
        ensures
            r == self.above(*cap),
    {
        let limit: u128 = 2 * (cap.num as u128) + cap.den as u128;
        less(limit, cap.den, 2 * (self.num as u128), self.den)
    }

    /// The whole hertz in this rate.
    pub fn floor(&self) -> (r: u32)
        requires
            self.den > 0,
        ensures
            r == self.whole(),
    {
        let n: u64 = self.num / self.den;
        if n > u32::MAX as u64 {
            u32::MAX
        } else {
            n as u32
        }
    }

    /// The nearest whole hertz.
    pub fn round(&self) -> (r: u32)
        ensures
            r == self.nearest(),
    {
        if self.den == 0 {
            return 0;
        }
        let n: u128 = (2 * (self.num as u128) + self.den as u128) / (2 * (self.den as u128));
        if n > u32::MAX as u128 {
            u32::MAX
        } else {
            n as u32
        }
    }
}

impl PixelRate {
    /// Whether this rate is lower than `other`.
    pub open spec fn below(self, other: PixelRate) -> bool {
        fraction_less(self.num as int, self.den as int, other.num as int, other.den as int)
    }

    /// Whether this rate is lower than `other`.
    pub fn is_below(&self, other: &PixelRate) -> (r: bool)
        requires
            self.den > 0,
            other.den > 0,
        ensures
            r == self.below(*other),
    {
        less(self.num, self.den, other.num, other.den)
    }
}

/// Of three rates, if the first is not below the second and the second not below the
/// third, then the first is not below the third.
pub proof fn lemma_not_below_transitive(a: PixelRate, b: PixelRate, c: PixelRate)
    requires
        a.den > 0,
        b.den > 0,
        c.den > 0,
        !a.below(b),
        !b.below(c),
    ensures
        !a.below(c),
{
    let (an, ad, bn, bd, cn, cd) = (
        a.num as int,
        a.den as int,
        b.num as int,
        b.den as int,
        c.num as int,
        c.den as int,
    );
    assert(an * cd >= cn * ad) by (nonlinear_arith)
        requires
            an * bd >= bn * ad,
            bn * cd >= cn * bd,
            ad > 0,
            bd > 0,
            cd > 0,
    {
        assert(an * bd * cd >= bn * ad * cd);
        assert(bn * cd * ad >= cn * bd * ad);
        assert(bd * (an * cd) >= bd * (cn * ad));
    }
}

/// A rate that stays within half a hertz of one cap does so for every higher cap.
pub proof fn lemma_above_higher_cap(r: Hz, low: Hz, high: Hz)
    requires
        r.den > 0,
        low.den > 0,
        high.den > 0,
        !fraction_less(high.num as int, high.den as int, low.num as int, low.den as int),
        r.above(high),
    ensures
        r.above(low),
{
    let (rn, rd, ln, ld, hn, hd) = (
        r.num as int,
        r.den as int,
        low.num as int,
        low.den as int,
        high.num as int,
        high.den as int,
    );
    assert((2 * ln + ld) * rd < (2 * rn) * ld) by (nonlinear_arith)
        requires
            (2 * hn + hd) * rd < (2 * rn) * hd,
            hn * ld >= ln * hd,
            rd > 0,
            ld > 0,
            hd > 0,
    {
        assert((2 * hn + hd) * rd * ld < (2 * rn) * hd * ld);
        assert((2 * hn + hd) * ld >= (2 * ln + ld) * hd);
        assert((2 * hn + hd) * ld * rd >= (2 * ln + ld) * hd * rd);
        assert(hd * ((2 * ln + ld) * rd) < hd * ((2 * rn) * ld));
    }
}

// ---------------------------------------------------------------------------
// What the comparisons and roundings mean.

/// A rate is above a cap when it is more than half a hertz higher: `n / d - c / e > 1 / 2`.
pub proof fn law_above(r: Hz, cap: Hz)
    ensures
        r.above(cap) <==> 2 * (r.num * cap.den - cap.num * r.den) > cap.den * r.den,
{
    let (n, d, c, e) = (r.num as int, r.den as int, cap.num as int, cap.den as int);
    assert((2 * c + e) * d == 2 * (c * d) + e * d) by (nonlinear_arith);
    assert((2 * n) * e == 2 * (n * e)) by (nonlinear_arith);
    assert(e * d == d * e) by (nonlinear_arith);
}

/// The cap itself, and every rate up to half a hertz higher, is not above it; a whole hertz
/// higher is.
pub proof fn law_above_margin(hz: u32, cap: u32)
    ensures
        (Hz { num: hz as u64, den: 1 }).above(Hz { num: cap as u64, den: 1 }) <==> hz > cap,
{
    law_above(Hz { num: hz as u64, den: 1 }, Hz { num: cap as u64, den: 1 });
}

/// A rate that is above a cap is above every lower cap too.
pub proof fn law_above_lower_caps(r: Hz, low: Hz, high: Hz)
    requires
        r.den > 0,
        low.den > 0,
        high.den > 0,
        low.num * high.den <= high.num * low.den,
        r.above(high),
    ensures
        r.above(low),
{
    let (n, d) = (r.num as int, r.den as int);
    let (a, b) = (low.num as int, low.den as int);
    let (c, e) = (high.num as int, high.den as int);
    assert((2 * a + b) * d < (2 * n) * b) by (nonlinear_arith)
        requires
            (2 * c + e) * d < (2 * n) * e,
            a * e <= c * b,
            b > 0,
            d > 0,
            e > 0,
    ;
}

/// The whole hertz in a rate: not more than the rate, and the next whole number is.
pub proof fn law_whole(r: Hz)
    requires
        r.den > 0,
    ensures
        r.whole() * r.den <= r.num,
        r.whole() < u32::MAX ==> r.num < (r.whole() + 1) * r.den,
{
    let (n, d, w) = (r.num as int, r.den as int, r.whole() as int);
    let q = n / d;
    vstd::arithmetic::div_mod::lemma_fundamental_div_mod(n, d);
    vstd::arithmetic::div_mod::lemma_div_pos_is_pos(n, d);
    assert(w * d <= q * d) by (nonlinear_arith)
        requires
            w <= q,
            d > 0,
    ;
    assert((q + 1) * d == d * q + d) by (nonlinear_arith);
    assert(q * d == d * q) by (nonlinear_arith);
}

/// The nearest whole hertz is at most half a hertz away, and half a hertz counts up.
pub proof fn law_nearest(r: Hz)
    requires
        r.den > 0,
    ensures
        2 * (r.nearest() * r.den) <= 2 * r.num + r.den,
        r.nearest() < u32::MAX ==> 2 * r.num < 2 * (r.nearest() * r.den) + r.den,
{
    let (n, d, w) = (r.num as int, r.den as int, r.nearest() as int);
    let a = 2 * n + d;
    let b = 2 * d;
    let q = a / b;
    vstd::arithmetic::div_mod::lemma_fundamental_div_mod(a, b);
    vstd::arithmetic::div_mod::lemma_div_pos_is_pos(a, b);
    assert(2 * (w * d) <= 2 * (q * d)) by (nonlinear_arith)
        requires
            w <= q,
            d > 0,
    ;
    assert(b * q == 2 * (q * d)) by (nonlinear_arith)
        requires
            b == 2 * d,
    ;
}

/// One rate is below another exactly when it is the smaller fraction.
pub proof fn law_below(a: PixelRate, b: PixelRate)
    ensures
        a.below(b) <==> a.num * b.den < b.num * a.den,
{
}

} // verus!
