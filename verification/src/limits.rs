//! What one display pipe can carry, and the refresh rates that fit.

use vstd::prelude::*;

use crate::edid::{EdidContent, EdidInfo};
use crate::property::Property;
use crate::rate::Hz;
use crate::timing::Timing;
use crate::{cta, edid, rate};

verus! {

/// Per-pipe pixel-rate limits published by the DisplayPort TX ports.
#[derive(Debug, Clone, Copy, PartialEq, Eq, Structural)]
pub struct PipeLimits {
    pub max_active_pixel_rate: i64,
    pub max_total_pixel_rate: i64,
}

/// The active pixel rate limit to go by when the registry has none, as observed on a
/// t6050-class SoC.
pub const FALLBACK_ACTIVE_RATE: i64 = 1_274_019_840;

/// The total pixel rate limit to go by when the registry has none.
pub const FALLBACK_TOTAL_RATE: i64 = 1_438_000_000;

impl PipeLimits {
    /// Values observed on a t6050-class SoC; used when the registry has none.
    pub fn fallback() -> (l: PipeLimits)
        ensures
            l == (PipeLimits {
                max_active_pixel_rate: FALLBACK_ACTIVE_RATE,
                max_total_pixel_rate: FALLBACK_TOTAL_RATE,
            }),
    {
        PipeLimits {
            max_active_pixel_rate: FALLBACK_ACTIVE_RATE,
            max_total_pixel_rate: FALLBACK_TOTAL_RATE,
        }
    }
}

/// The limits that a registry entry publishes, if it publishes both.
pub open spec fn limits_in(p: Property) -> Option<PipeLimits> {
    match (p.number_in("MaxActivePixelRate"@), p.number_in("MaxTotalPixelRate"@)) {
        (Some(a), Some(t)) => Some(
            PipeLimits { max_active_pixel_rate: a, max_total_pixel_rate: t },
        ),
        _ => None,
    }
}

/// The limits with the highest active pixel rate that the entries publish; of several, the
/// first.
pub open spec fn best_limits(ps: Seq<Property>) -> Option<PipeLimits>
    decreases ps.len(),
{
    if ps.len() == 0 {
        None
    } else {
        match (best_limits(ps.drop_last()), limits_in(ps.last())) {
            (Some(b), Some(l)) if l.max_active_pixel_rate > b.max_active_pixel_rate => Some(l),
            (Some(b), _) => Some(b),
            (None, l) => l,
        }
    }
}

/// The per-pipe limits that the registry entries with the properties `ps` publish.
pub fn pipe_limits(ps: &Vec<Property>) -> (r: Option<PipeLimits>)
    ensures
        r == best_limits(ps@),
{
    let mut best: Option<PipeLimits> = None;
    let mut i: usize = 0;
    while i < ps.len()
        invariant
            i <= ps.len(),
            best == best_limits(ps@.take(i as int)),
        decreases ps.len() - i,
    {
        assert(ps@.take(i + 1).drop_last() =~= ps@.take(i as int));
        let p = &ps[i];
        if let (Some(a), Some(t)) = (p.get_int("MaxActivePixelRate"), p.get_int("MaxTotalPixelRate"))
        {
            let better = match best {
                Some(b) => a > b.max_active_pixel_rate,
                None => true,
            };
            if better {
                best = Some(PipeLimits { max_active_pixel_rate: a, max_total_pixel_rate: t });
            }
        }
        i += 1;
    }
    assert(ps@.take(i as int) =~= ps@);
    best
}

/// The limits to go by, and whether they come from the registry.
pub fn limits(found: Option<PipeLimits>) -> (r: (PipeLimits, bool))
    ensures
        r == (match found {
            Some(l) => (l, true),
            None => (
                PipeLimits {
                    max_active_pixel_rate: FALLBACK_ACTIVE_RATE,
                    max_total_pixel_rate: FALLBACK_TOTAL_RATE,
                },
                false,
            ),
        }),
{
    match found {
        Some(l) => (l, true),
        None => (PipeLimits::fallback(), false),
    }
}

// ---------------------------------------------------------------------------
// Refresh rates.

/// The highest whole refresh rate at which a frame of `w` by `h` pixels stays within
/// `active_limit` pixels per second, at most what a `u32` holds; zero for an empty frame.
pub open spec fn fitting_hz(w: u32, h: u32, active_limit: i64) -> int {
    if w == 0 || h == 0 || active_limit <= 0 {
        0
    } else {
        cta::least(active_limit as int / (w * h), u32::MAX as int)
    }
}

/// Highest whole refresh rate at which `w`x`h` stays under `active_limit` pixels/s.
pub fn max_hz_for(w: u32, h: u32, active_limit: i64) -> (hz: u32)
    ensures
        hz == fitting_hz(w, h, active_limit),
{
    if w == 0 || h == 0 || active_limit <= 0 {
        return 0;
    }
    assert(0 < w * h <= u32::MAX * u32::MAX) by (nonlinear_arith)
        requires
            0 < w <= u32::MAX,
            0 < h <= u32::MAX,
    ;
    let area: u64 = w as u64 * h as u64;
    let hz: u64 = active_limit as u64 / area;
    if hz > u32::MAX as u64 {
        u32::MAX
    } else {
        hz as u32
    }
}

/// A frame of `w` by `h` pixels at the fitting rate stays within the limit, and at the next
/// higher whole rate it does not.
pub proof fn law_fitting_hz(w: u32, h: u32, active_limit: i64)
    requires
        w > 0,
        h > 0,
        active_limit >= 0,
    ensures
        w * h * fitting_hz(w, h, active_limit) <= active_limit,
        fitting_hz(w, h, active_limit) < u32::MAX ==> active_limit < w * h * (fitting_hz(
            w,
            h,
            active_limit,
        ) + 1),
{
    let area = w * h;
    let limit = active_limit as int;
    assert(0 < area) by (nonlinear_arith)
        requires
            0 < w,
            0 < h,
            area == w * h,
    ;
    let q = limit / area;
    let hz = fitting_hz(w, h, active_limit);
    vstd::arithmetic::div_mod::lemma_fundamental_div_mod(limit, area);
    if limit > 0 {
        assert(area * hz <= area * q) by (nonlinear_arith)
            requires
                hz <= q,
                area > 0,
        ;
        assert(area * (q + 1) == area * q + area) by (nonlinear_arith);
    }
}

/// The highest nearest whole refresh rate of the timings with `w` by `h` active pixels that
/// is not above `bound`, if there is one.
pub open spec fn advertised_hz(ts: Seq<Timing>, w: u32, h: u32, bound: int) -> Option<u32>
    decreases ts.len(),
{
    if ts.len() == 0 {
        None
    } else {
        let t = ts.last();
        let r = t.refresh_hz.nearest();
        match advertised_hz(ts.drop_last(), w, h, bound) {
            Some(m) if t.h_active == w && t.v_active == h && m < r <= bound => Some(r),
            Some(m) => Some(m),
            None if t.h_active == w && t.v_active == h && r <= bound => Some(r),
            None => None,
        }
    }
}

/// The highest refresh rate that fits one pipe for this display: one that its highest frame
/// size is advertised with, or else the bound itself. None when there are no timings.
pub open spec fn auto_hz(c: EdidContent, lim: PipeLimits) -> Option<int> {
    match edid::highest(c.timings) {
        Some(m) => {
            let bound = fitting_hz(m.h_active, m.v_active, lim.max_active_pixel_rate);
            match advertised_hz(c.timings, m.h_active, m.v_active, bound) {
                Some(r) => Some(r as int),
                None => Some(bound),
            }
        },
        None => None,
    }
}

/// Picks the highest common refresh rate that fits one pipe for this display; none when its
/// EDID has no (progressive) timings.
pub fn auto_max_hz(info: &EdidInfo, lim: &PipeLimits) -> (r: Option<u32>)
    ensures
        match r {
            Some(hz) => auto_hz(info@, *lim) == Some(hz as int),
            None => auto_hz(info@, *lim) is None,
        },
{
    let m = match info.max_timing() {
        Some(m) => m,
        None => {
            return None;
        },
    };
    let hz = max_hz_for(m.h_active, m.v_active, lim.max_active_pixel_rate);
    let ghost ts = info.timings@;
    let mut best: Option<u32> = None;
    let mut i: usize = 0;
    while i < info.timings.len()
        invariant
            i <= info.timings.len(),
            ts == info.timings@,
            best == advertised_hz(ts.take(i as int), m.h_active, m.v_active, hz as int),
        decreases info.timings.len() - i,
    {
        assert(ts.take(i + 1).drop_last() =~= ts.take(i as int));
        let t = &info.timings[i];
        if t.h_active == m.h_active && t.v_active == m.v_active {
            let r = t.refresh_hz.round();
            if r <= hz {
                let higher = match best {
                    Some(b) => b < r,
                    None => true,
                };
                if higher {
                    best = Some(r);
                }
            }
        }
        i += 1;
    }
    assert(ts.take(i as int) =~= ts);
    match best {
        Some(r) => Some(r),
        None => Some(hz),
    }
}

/// Whether a timing has `w` by `h` active pixels.
pub open spec fn is_of_size(t: Timing, w: u32, h: u32) -> bool {
    t.h_active == w && t.v_active == h
}

/// The advertised rate that is found is one of a timing of that size, it is within the
/// bound, and no other such rate within the bound is higher; there is none only when no such
/// rate is within the bound.
pub proof fn law_advertised_hz(ts: Seq<Timing>, w: u32, h: u32, bound: int)
    ensures
        match advertised_hz(ts, w, h, bound) {
            Some(r) => {
                &&& r <= bound
                &&& exists|i: int|
                    0 <= i < ts.len() && is_of_size(#[trigger] ts[i], w, h)
                        && ts[i].refresh_hz.nearest() == r
                &&& forall|i: int|
                    0 <= i < ts.len() && is_of_size(#[trigger] ts[i], w, h)
                        && ts[i].refresh_hz.nearest() <= bound ==> ts[i].refresh_hz.nearest() <= r
            },
            None => forall|i: int|
                0 <= i < ts.len() && is_of_size(#[trigger] ts[i], w, h)
                    ==> ts[i].refresh_hz.nearest() > bound,
        },
    decreases ts.len(),
{
    if ts.len() > 0 {
        let before = ts.drop_last();
        law_advertised_hz(before, w, h, bound);
        assert forall|i: int| 0 <= i < before.len() implies #[trigger] ts[i] == before[i] by {}
        assert(ts[ts.len() - 1] == ts.last());
        match (advertised_hz(before, w, h, bound), advertised_hz(ts, w, h, bound)) {
            (Some(m), Some(r)) if m == r => {
                let i = choose|i: int|
                    0 <= i < before.len() && is_of_size(#[trigger] before[i], w, h)
                        && before[i].refresh_hz.nearest() == m;
                assert(ts[i] == before[i]);
            },
            _ => {},
        }
    }
}

/// The rate that is picked keeps the display's highest frame size within one pipe.
pub proof fn law_auto_hz_fits(c: EdidContent, lim: PipeLimits)
    requires
        auto_hz(c, lim) is Some,
    ensures
        edid::highest(c.timings) matches Some(m) && 0 <= auto_hz(c, lim)->0 <= fitting_hz(
            m.h_active,
            m.v_active,
            lim.max_active_pixel_rate,
        ),
{
    let m = edid::highest(c.timings)->0;
    let bound = fitting_hz(m.h_active, m.v_active, lim.max_active_pixel_rate);
    law_advertised_hz(c.timings, m.h_active, m.v_active, bound);
    if m.h_active > 0 && m.v_active > 0 && lim.max_active_pixel_rate > 0 {
        assert(0 < m.h_active * m.v_active) by (nonlinear_arith)
            requires
                0 < m.h_active,
                0 < m.v_active,
        ;
        vstd::arithmetic::div_mod::lemma_div_pos_is_pos(
            lim.max_active_pixel_rate as int,
            m.h_active * m.v_active,
        );
    }
}

/// Capped at the rate that is picked for a display, no timing with at most as many pixels as
/// its highest one needs more than half a frame per second above what one pipe carries.
pub proof fn law_auto_cap_fits_one_pipe(c: EdidContent, lim: PipeLimits, t: Timing)
    requires
        lim.max_active_pixel_rate >= 0,
        t.refresh_hz.den > 0,
        auto_hz(c, lim) matches Some(hz) && !t.refresh_hz.above(Hz { num: hz as u64, den: 1 }),
        edid::highest(c.timings) matches Some(m) && 0 < m.h_active && 0 < m.v_active && t.h_active
            * t.v_active <= m.h_active * m.v_active,
    ensures
        edid::highest(c.timings) matches Some(m) && 2 * (t.h_active * t.v_active
            * t.refresh_hz.num) <= (2 * lim.max_active_pixel_rate + m.h_active * m.v_active)
            * t.refresh_hz.den,
{
    let m = edid::highest(c.timings)->0;
    let hz = auto_hz(c, lim)->0;
    let limit = lim.max_active_pixel_rate as int;
    let most = fitting_hz(m.h_active, m.v_active, lim.max_active_pixel_rate);
    law_auto_hz_fits(c, lim);
    law_fitting_hz(m.h_active, m.v_active, lim.max_active_pixel_rate);
    let (area, frame) = (t.h_active * t.v_active, m.h_active * m.v_active);
    let (num, den) = (t.refresh_hz.num as int, t.refresh_hz.den as int);
    assert(2 * num <= (2 * hz + 1) * den);
    assert(0 <= area) by (nonlinear_arith)
        requires
            area == t.h_active * t.v_active,
            0 <= t.h_active,
            0 <= t.v_active,
    ;
    assert(area * (2 * num) <= area * ((2 * hz + 1) * den)) by (nonlinear_arith)
        requires
            0 <= area,
            2 * num <= (2 * hz + 1) * den,
    ;
    assert(area * ((2 * hz + 1) * den) <= frame * ((2 * most + 1) * den)) by (nonlinear_arith)
        requires
            0 <= area <= frame,
            0 <= hz <= most,
            0 < den,
    ;
    assert(frame * ((2 * most + 1) * den) <= (2 * limit + frame) * den) by (nonlinear_arith)
        requires
            frame * most <= limit,
            0 < den,
    ;
    assert(2 * (area * num) == area * (2 * num)) by (nonlinear_arith);
}

/// Whether `r` is the whole number of hertz nearest to a refresh rate, half a hertz counting
/// up.
pub open spec fn rounds_to(rate: Hz, r: int) -> bool {
    &&& 2 * (r * rate.den) <= 2 * rate.num + rate.den
    &&& 2 * rate.num < 2 * (r * rate.den) + rate.den
}

proof fn lemma_rounds_to(rate: Hz, r: int)
    requires
        rate.den > 0,
        rounds_to(rate, r),
        r <= u32::MAX,
    ensures
        rate.nearest() == r,
{
    let d = rate.den as int;
    let w = rate.nearest() as int;
    rate::law_nearest(rate);
    if w < r {
        assert(w * d + d <= r * d) by (nonlinear_arith)
            requires
                w + 1 <= r,
                d > 0,
        ;
    }
    if r < w {
        assert(r * d + d <= w * d) by (nonlinear_arith)
            requires
                r + 1 <= w,
                d > 0,
        ;
    }
}

proof fn lemma_fits_bound(w: u32, h: u32, limit: i64, r: int)
    requires
        w > 0,
        h > 0,
        limit >= 0,
        0 <= r <= u32::MAX,
    ensures
        w * h * r <= limit <==> r <= fitting_hz(w, h, limit),
{
    let area = w * h;
    let most = fitting_hz(w, h, limit);
    law_fitting_hz(w, h, limit);
    assert(0 < area) by (nonlinear_arith)
        requires
            0 < w,
            0 < h,
            area == w * h,
    ;
    if r <= most {
        assert(area * r <= area * most) by (nonlinear_arith)
            requires
                r <= most,
                area > 0,
        ;
    } else {
        assert(area * (most + 1) <= area * r) by (nonlinear_arith)
            requires
                most + 1 <= r,
                area > 0,
        ;
    }
}

/// No rate that fits one pipe is passed over: when the highest frame size is advertised with
/// a rate that rounds to `r`, and at `r` hertz its pixels stay within the limit of a pipe,
/// then the rate that is picked is at least `r`.
pub proof fn law_auto_hz_is_the_highest(
    c: EdidContent,
    lim: PipeLimits,
    m: Timing,
    i: int,
    r: int,
)
    requires
        edid::highest(c.timings) == Some(m),
        m.h_active > 0,
        m.v_active > 0,
        lim.max_active_pixel_rate >= 0,
        0 <= i < c.timings.len(),
        c.timings[i].h_active == m.h_active,
        c.timings[i].v_active == m.v_active,
        c.timings[i].refresh_hz.den > 0,
        0 <= r <= u32::MAX,
        rounds_to(c.timings[i].refresh_hz, r),
        m.h_active * m.v_active * r <= lim.max_active_pixel_rate,
    ensures
        auto_hz(c, lim) matches Some(hz) && hz >= r,
{
    let bound = fitting_hz(m.h_active, m.v_active, lim.max_active_pixel_rate);
    lemma_rounds_to(c.timings[i].refresh_hz, r);
    lemma_fits_bound(m.h_active, m.v_active, lim.max_active_pixel_rate, r);
    law_advertised_hz(c.timings, m.h_active, m.v_active, bound);
    assert(is_of_size(c.timings[i], m.h_active, m.v_active));
}

/// The rate that is picked keeps the highest frame size within one pipe, and it is either a
/// rounded rate that the size is advertised with, or else the highest whole rate that fits.
pub proof fn law_auto_hz_is_advertised(c: EdidContent, lim: PipeLimits, m: Timing)
    requires
        edid::highest(c.timings) == Some(m),
        m.h_active > 0,
        m.v_active > 0,
        lim.max_active_pixel_rate >= 0,
        forall|i: int| 0 <= i < c.timings.len() ==> (#[trigger] c.timings[i]).refresh_hz.den > 0,
    ensures
        auto_hz(c, lim) matches Some(hz) && {
            &&& 0 <= hz <= u32::MAX
            &&& m.h_active * m.v_active * hz <= lim.max_active_pixel_rate
            &&& {
                ||| exists|i: int|
                    0 <= i < c.timings.len() && (#[trigger] c.timings[i]).h_active == m.h_active
                        && c.timings[i].v_active == m.v_active && (rounds_to(
                        c.timings[i].refresh_hz,
                        hz,
                    ) || hz == u32::MAX)
                ||| hz < u32::MAX ==> lim.max_active_pixel_rate < m.h_active * m.v_active * (hz + 1)
            }
        },
{
    let bound = fitting_hz(m.h_active, m.v_active, lim.max_active_pixel_rate);
    let hz = auto_hz(c, lim)->0;
    law_auto_hz_fits(c, lim);
    law_fitting_hz(m.h_active, m.v_active, lim.max_active_pixel_rate);
    law_advertised_hz(c.timings, m.h_active, m.v_active, bound);
    lemma_fits_bound(m.h_active, m.v_active, lim.max_active_pixel_rate, hz);
    if let Some(r) = advertised_hz(c.timings, m.h_active, m.v_active, bound) {
        let i = choose|i: int|
            0 <= i < c.timings.len() && is_of_size(
                #[trigger] c.timings[i],
                m.h_active,
                m.v_active,
            ) && c.timings[i].refresh_hz.nearest() == r;
        rate::law_nearest(c.timings[i].refresh_hz);
        assert(c.timings[i].h_active == m.h_active);
    }
}

/// A rate is picked whenever there is a progressive timing.
pub proof fn law_auto_hz_when(c: EdidContent, lim: PipeLimits)
    ensures
        auto_hz(c, lim) is Some <==> exists|i: int|
            0 <= i < c.timings.len() && !(#[trigger] c.timings[i]).interlaced,
{
    edid::law_highest(c.timings);
    if let Some(m) = edid::highest(c.timings) {
        let i = choose|i: int| 0 <= i < c.timings.len() && c.timings[i] == m;
        assert(!c.timings[i].interlaced);
    }
}

/// With a higher limit, no lower rate is picked.
pub proof fn law_auto_hz_grows(c: EdidContent, low: PipeLimits, high: PipeLimits, m: Timing)
    requires
        edid::highest(c.timings) == Some(m),
        m.h_active > 0,
        m.v_active > 0,
        0 <= low.max_active_pixel_rate <= high.max_active_pixel_rate,
        advertised_hz(
            c.timings,
            m.h_active,
            m.v_active,
            fitting_hz(m.h_active, m.v_active, low.max_active_pixel_rate),
        ) is Some,
    ensures
        auto_hz(c, low)->0 <= auto_hz(c, high)->0,
{
    let a = fitting_hz(m.h_active, m.v_active, low.max_active_pixel_rate);
    let b = fitting_hz(m.h_active, m.v_active, high.max_active_pixel_rate);
    law_auto_hz_fits(c, low);
    law_fitting_hz(m.h_active, m.v_active, low.max_active_pixel_rate);
    lemma_fits_bound(m.h_active, m.v_active, high.max_active_pixel_rate, a);
    law_advertised_hz(c.timings, m.h_active, m.v_active, a);
    law_advertised_hz(c.timings, m.h_active, m.v_active, b);
}

/// The limits that are found: published by one of the entries, no entry that publishes both
/// has a higher active pixel rate, and none before it has the same; there are none only when
/// no entry publishes both.
pub proof fn law_best_limits(ps: Seq<Property>)
    ensures
        match best_limits(ps) {
            Some(l) => exists|i: int| is_first_best(ps, l, i),
            None => forall|i: int|
                0 <= i < ps.len() ==> (#[trigger] ps[i]).number_in("MaxActivePixelRate"@) is None
                    || ps[i].number_in("MaxTotalPixelRate"@) is None,
        },
    decreases ps.len(),
{
    if ps.len() > 0 {
        let before = ps.drop_last();
        let n = ps.len() - 1;
        law_best_limits(before);
        assert forall|i: int| 0 <= i < n implies #[trigger] ps[i] == before[i] by {}
        match (best_limits(before), best_limits(ps)) {
            (Some(b), Some(l)) => {
                let j = choose|j: int| is_first_best(before, b, j);
                if l == b && !(limits_in(ps.last()) matches Some(k) && k.max_active_pixel_rate
                    > b.max_active_pixel_rate) {
                    assert(is_first_best(ps, l, j));
                } else {
                    assert(is_first_best(ps, l, n));
                }
            },
            (None, Some(l)) => {
                assert(is_first_best(ps, l, n));
            },
            _ => {},
        }
    }
}

/// Whether entry `i` publishes `l`, no entry has a higher active pixel rate, and none before
/// it has the same.
pub open spec fn is_first_best(ps: Seq<Property>, l: PipeLimits, i: int) -> bool {
    &&& 0 <= i < ps.len()
    &&& ps[i].number_in("MaxActivePixelRate"@) == Some(l.max_active_pixel_rate)
    &&& ps[i].number_in("MaxTotalPixelRate"@) == Some(l.max_total_pixel_rate)
    &&& forall|k: int|
        0 <= k < ps.len() && (#[trigger] ps[k]).number_in("MaxTotalPixelRate"@) is Some ==> (
        ps[k].number_in("MaxActivePixelRate"@) matches Some(a) ==> a <= l.max_active_pixel_rate && (
        k < i ==> a < l.max_active_pixel_rate))
}

/// Without pixels, or without a limit, no rate fits.
pub proof fn law_nothing_fits(w: u32, h: u32, active_limit: i64)
    requires
        w == 0 || h == 0 || active_limit <= 0,
    ensures
        fitting_hz(w, h, active_limit) == 0,
{
}

} // verus!
