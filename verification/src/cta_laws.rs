//! What capping a CTA-861 block guarantees.

use vstd::prelude::*;

use crate::cta::{CtaContent, VIDEO};
use crate::cta_cap::Y420_VIDEO;
use crate::rate::Hz;
use crate::timing::{Timing, TimingSource};
use crate::{cta, cta_cap, rate, seqs, timing};

verus! {

/// Whether `high` is a cap at least as high as `low`.
pub open spec fn not_lower(high: Hz, low: Hz) -> bool {
    &&& high.den > 0
    &&& low.den > 0
    &&& !rate::fraction_less(high.num as int, high.den as int, low.num as int, low.den as int)
}

/// Removes the place of a timing, for comparing modes.
pub open spec fn mode_of() -> spec_fn(Timing) -> Timing {
    |t: Timing| t.mode()
}

/// The modes that the timings stand for, wherever in the EDID they stand.
pub open spec fn modes(ts: Seq<Timing>) -> Seq<Timing> {
    ts.map_values(mode_of())
}

// ---------------------------------------------------------------------------
// Blocks from which nothing goes.

/// Every code of the video and YCbCr 4:2:0 data blocks stays.
pub open spec fn codes_stay(bs: Seq<(u8, Seq<u8>)>, cap: Hz) -> bool {
    forall|k: int| 0 <= k < bs.len() ==> cta_cap::trimmed_block(cap)(#[trigger] bs[k]) == bs[k]
}

proof fn lemma_codes_stay(bs: Seq<(u8, Seq<u8>)>, cap: Hz)
    ensures
        codes_stay(bs, cap) <==> bs.map_values(cta_cap::trimmed_block(cap)) == bs,
{
    let f = cta_cap::trimmed_block(cap);
    if codes_stay(bs, cap) {
        assert(bs.map_values(f) =~= bs);
    }
    if bs.map_values(f) == bs {
        assert forall|k: int| 0 <= k < bs.len() implies f(#[trigger] bs[k]) == bs[k] by {
            assert(bs.map_values(f)[k] == bs[k]);
        }
    }
}

/// A video data block stays as it is exactly when each of its descriptors stays.
proof fn lemma_video_stays(b: (u8, Seq<u8>), cap: Hz)
    requires
        b.0 == VIDEO,
    ensures
        cta_cap::trimmed_block(cap)(b) == b <==> forall|i: int|
            0 <= i < b.1.len() ==> cta_cap::svd_stays(cap)(#[trigger] b.1[i]),
{
    seqs::lemma_filter_same_len(b.1, cta_cap::svd_stays(cap));
}

/// A YCbCr 4:2:0 data block stays as it is exactly when each of its codes stays.
proof fn lemma_y420_stays(b: (u8, Seq<u8>), cap: Hz)
    requires
        cta_cap::has_extended_tag(b, Y420_VIDEO),
    ensures
        cta_cap::trimmed_block(cap)(b) == b <==> forall|i: int|
            0 <= i < b.1.drop_first().len() ==> cta_cap::code_stays(cap)(
                #[trigger] b.1.drop_first()[i],
            ),
{
    let codes = b.1.drop_first();
    let kept = codes.filter(cta_cap::code_stays(cap));
    seqs::lemma_filter_same_len(codes, cta_cap::code_stays(cap));
    assert(seq![Y420_VIDEO] + codes =~= b.1);
    if seq![Y420_VIDEO] + kept == b.1 {
        assert(kept.len() == codes.len());
    }
}

/// When every code stays, every short video descriptor does.
proof fn lemma_svds_stay(bs: Seq<(u8, Seq<u8>)>, cap: Hz)
    requires
        codes_stay(bs, cap),
    ensures
        forall|i: int|
            0 <= i < cta::svd_bytes(bs).len() ==> cta_cap::svd_stays(cap)(
                #[trigger] cta::svd_bytes(bs)[i],
            ),
        !cta_cap::svds_kept(bs, cap).contains(false),
        cta_cap::trimmed_blocks(bs, cap) == bs,
    decreases bs.len(),
{
    let stays = cta_cap::svd_stays(cap);
    let svds = cta::svd_bytes(bs);
    if bs.len() > 0 {
        let init = bs.drop_last();
        let b = bs.last();
        assert forall|k: int| 0 <= k < init.len() implies cta_cap::trimmed_block(cap)(
            #[trigger] init[k],
        ) == init[k] by {
            assert(init[k] == bs[k]);
        }
        lemma_svds_stay(init, cap);
        assert(bs[bs.len() - 1] == b);
        if b.0 == VIDEO {
            lemma_video_stays(b, cap);
        }
        assert forall|i: int| 0 <= i < svds.len() implies stays(#[trigger] svds[i]) by {
            if i < cta::svd_bytes(init).len() {
                assert(svds[i] == cta::svd_bytes(init)[i]);
            } else {
                assert(svds[i] == b.1[i - cta::svd_bytes(init).len()]);
            }
        }
    }
    let kept = cta_cap::svds_kept(bs, cap);
    assert(!kept.contains(false)) by {
        if kept.contains(false) {
            let i = choose|i: int| 0 <= i < kept.len() && kept[i] == false;
            assert(kept[i] == stays(svds[i]));
        }
    }
    lemma_codes_stay(bs, cap);
}

/// Data blocks that trimming does not change stay as they are.
pub proof fn lemma_settled_blocks(bs: Seq<(u8, Seq<u8>)>, cap: Hz)
    requires
        bs.map_values(cta_cap::trimmed_block(cap)) == bs,
    ensures
        cta_cap::trimmed_blocks(bs, cap) == bs,
{
    lemma_codes_stay(bs, cap);
    lemma_svds_stay(bs, cap);
}

/// The timings of descriptors that stay are within the cap.
proof fn lemma_vic_timings_within(svds: Seq<u8>, n: usize, cap: Hz)
    requires
        forall|i: int| 0 <= i < svds.len() ==> cta_cap::svd_stays(cap)(#[trigger] svds[i]),
    ensures
        forall|i: int|
            0 <= i < cta::vic_timings(svds, n).len() ==> !(#[trigger] cta::vic_timings(
                svds,
                n,
            )[i]).refresh_hz.above(cap),
    decreases svds.len(),
{
    if svds.len() > 0 {
        let init = svds.drop_last();
        assert forall|i: int| 0 <= i < init.len() implies cta_cap::svd_stays(cap)(
            #[trigger] init[i],
        ) by {
            assert(init[i] == svds[i]);
        }
        lemma_vic_timings_within(init, n, cap);
        assert(cta_cap::svd_stays(cap)(svds[svds.len() - 1]));
        cta_cap::lemma_code_above(timing::svd_code(svds.last()), n, cap);
    }
}

/// The timings of descriptors that stay are within the cap.
proof fn lemma_dtd_timings_within(ds: Seq<Seq<u8>>, n: usize, cap: Hz)
    requires
        forall|i: int| 0 <= i < ds.len() ==> cta_cap::dtd_stays(cap)(#[trigger] ds[i]),
    ensures
        forall|i: int|
            0 <= i < cta::dtd_timings(ds, n).len() ==> !(#[trigger] cta::dtd_timings(
                ds,
                n,
            )[i]).refresh_hz.above(cap),
    decreases ds.len(),
{
    if ds.len() > 0 {
        let init = ds.drop_last();
        assert forall|i: int| 0 <= i < init.len() implies cta_cap::dtd_stays(cap)(
            #[trigger] init[i],
        ) by {
            assert(init[i] == ds[i]);
        }
        lemma_dtd_timings_within(init, n, cap);
        assert(cta_cap::dtd_stays(cap)(ds[ds.len() - 1]));
        cta_cap::lemma_dtd_above(
            ds.last(),
            TimingSource::CtaDtd { block: n, index: (ds.len() - 1) as usize },
            cap,
        );
    }
}

/// What does not have to change advertises nothing above the cap.
pub proof fn lemma_unchanged_cta_within(c: CtaContent, n: usize, cap: Hz)
    requires
        !cta_cap::cta_changed(c, cap),
    ensures
        forall|i: int|
            0 <= i < cta::cta_timings(c, n).len() ==> !(#[trigger] cta::cta_timings(
                c,
                n,
            )[i]).refresh_hz.above(cap),
{
    lemma_codes_stay(c.data_blocks, cap);
    lemma_svds_stay(c.data_blocks, cap);
    seqs::lemma_filter_same_len(c.dtds, cta_cap::dtd_stays(cap));
    lemma_vic_timings_within(cta::svd_bytes(c.data_blocks), n, cap);
    lemma_dtd_timings_within(c.dtds, n, cap);
    let vics = cta::vic_timings(cta::svd_bytes(c.data_blocks), n);
    let dtds = cta::dtd_timings(c.dtds, n);
    let all = cta::cta_timings(c, n);
    assert forall|i: int| 0 <= i < all.len() implies !(#[trigger] all[i]).refresh_hz.above(cap) by {
        if i < vics.len() {
            assert(all[i] == vics[i]);
        } else {
            assert(all[i] == dtds[i - vics.len()]);
        }
    }
}

/// From what does not have to change nothing goes.
pub proof fn lemma_unchanged_cta_drops_nothing(c: CtaContent, n: usize, cap: Hz)
    requires
        !cta_cap::cta_changed(c, cap),
    ensures
        cta_cap::cta_dropped(c, n, cap).len() == 0,
{
    lemma_codes_stay(c.data_blocks, cap);
    lemma_unchanged_data_drops_nothing(c.data_blocks, n, cap);
    seqs::lemma_filter_same_len(c.dtds, cta_cap::dtd_stays(cap));
    lemma_dtd_timings_within(c.dtds, n, cap);
    let ts = cta::dtd_timings(c.dtds, n);
    seqs::lemma_filter_kept(ts, cta_cap::is_above(cap));
    lemma_none_above(ts, cap);
}

/// When no timing is above the cap, none is found.
pub proof fn lemma_none_above(ts: Seq<Timing>, cap: Hz)
    requires
        forall|i: int| 0 <= i < ts.len() ==> !(#[trigger] ts[i]).refresh_hz.above(cap),
    ensures
        ts.filter(cta_cap::is_above(cap)).len() == 0,
{
    let p = cta_cap::is_above(cap);
    seqs::lemma_filter_kept(ts, p);
    if ts.filter(p).len() > 0 {
        let t = ts.filter(p)[0];
        assert(p(t));
        assert(ts.contains(t));
    }
}

proof fn lemma_unchanged_data_drops_nothing(bs: Seq<(u8, Seq<u8>)>, n: usize, cap: Hz)
    requires
        codes_stay(bs, cap),
    ensures
        cta_cap::data_dropped(bs, n, cap).len() == 0,
    decreases bs.len(),
{
    if bs.len() > 0 {
        let init = bs.drop_last();
        let b = bs.last();
        assert forall|k: int| 0 <= k < init.len() implies cta_cap::trimmed_block(cap)(
            #[trigger] init[k],
        ) == init[k] by {
            assert(init[k] == bs[k]);
        }
        lemma_unchanged_data_drops_nothing(init, n, cap);
        assert(bs[bs.len() - 1] == b);
        if b.0 == VIDEO {
            lemma_video_stays(b, cap);
            lemma_vic_timings_within(b.1, n, cap);
            lemma_none_above(cta::vic_timings(b.1, n), cap);
        } else if cta_cap::has_extended_tag(b, Y420_VIDEO) {
            lemma_y420_stays(b, cap);
            lemma_no_new_codes(cta_cap::data_dropped(init, n, cap), b.1.drop_first(), n, cap);
        }
    }
}

proof fn lemma_no_new_codes(seen: Seq<Timing>, codes: Seq<u8>, n: usize, cap: Hz)
    requires
        forall|i: int| 0 <= i < codes.len() ==> cta_cap::code_stays(cap)(#[trigger] codes[i]),
    ensures
        cta_cap::with_new_codes(seen, codes, n, cap) == seen,
    decreases codes.len(),
{
    if codes.len() > 0 {
        let init = codes.drop_last();
        assert forall|i: int| 0 <= i < init.len() implies cta_cap::code_stays(cap)(
            #[trigger] init[i],
        ) by {
            assert(init[i] == codes[i]);
        }
        lemma_no_new_codes(seen, init, n, cap);
        assert(cta_cap::code_stays(cap)(codes[codes.len() - 1]));
        cta_cap::lemma_code_above(codes.last(), n, cap);
    }
}

// ---------------------------------------------------------------------------
// Capping once is enough.

/// A code that stays under one cap stays under every higher one.
proof fn lemma_code_stays_higher(vic: u8, low: Hz, high: Hz)
    requires
        not_lower(high, low),
        !cta_cap::code_above(vic, low),
    ensures
        !cta_cap::code_above(vic, high),
{
    if cta_cap::code_above(vic, high) {
        let t = timing::vic_mode(vic, 0)->0;
        timing::lemma_timing_rate(
            t.h_active,
            t.v_active,
            t.h_total,
            t.v_total,
            t.pixel_clock_hz,
            t.interlaced,
            t.source,
        );
        rate::lemma_above_higher_cap(t.refresh_hz, low, high);
    }
}

/// What a trimmed and re-indexed block is under a higher cap: itself.
proof fn lemma_block_settled(b: (u8, Seq<u8>), kept: Seq<bool>, low: Hz, high: Hz)
    requires
        not_lower(high, low),
    ensures
        ({
            let x = cta_cap::trimmed_block(low)(b);
            let y = cta_cap::remapped_block(kept)(x);
            &&& cta_cap::trimmed_block(high)(x) == x
            &&& cta_cap::trimmed_block(high)(y) == y
        }),
{
    let x = cta_cap::trimmed_block(low)(b);
    let y = cta_cap::remapped_block(kept)(x);
    if b.0 == VIDEO {
        seqs::lemma_filter_kept(b.1, cta_cap::svd_stays(low));
        assert forall|i: int| 0 <= i < x.1.len() implies cta_cap::svd_stays(high)(
            #[trigger] x.1[i],
        ) by {
            assert(cta_cap::svd_stays(low)(x.1[i]));
            lemma_code_stays_higher(timing::svd_code(x.1[i]), low, high);
        }
        lemma_video_stays(x, high);
    } else if cta_cap::has_extended_tag(b, Y420_VIDEO) {
        let codes = b.1.drop_first().filter(cta_cap::code_stays(low));
        seqs::lemma_filter_kept(b.1.drop_first(), cta_cap::code_stays(low));
        assert(x.1.drop_first() =~= codes);
        assert forall|i: int| 0 <= i < x.1.drop_first().len() implies cta_cap::code_stays(high)(
            #[trigger] x.1.drop_first()[i],
        ) by {
            assert(cta_cap::code_stays(low)(codes[i]));
            lemma_code_stays_higher(codes[i], low, high);
        }
        lemma_y420_stays(x, high);
    }
}

/// Every trimmed data block is settled under a higher cap.
proof fn lemma_trimmed_settled(bs: Seq<(u8, Seq<u8>)>, low: Hz, high: Hz)
    requires
        not_lower(high, low),
    ensures
        codes_stay(cta_cap::trimmed_blocks(bs, low), high),
{
    let kept = cta_cap::svds_kept(bs, low);
    let out = cta_cap::trimmed_blocks(bs, low);
    assert forall|k: int| 0 <= k < out.len() implies cta_cap::trimmed_block(high)(
        #[trigger] out[k],
    ) == out[k] by {
        lemma_block_settled(bs[k], kept, low, high);
        assert(bs.map_values(cta_cap::trimmed_block(low))[k] == cta_cap::trimmed_block(low)(bs[k]));
    }
}

/// Of settled data blocks those that are left are settled.
proof fn lemma_pruned_settled(bs: Seq<(u8, Seq<u8>)>, cap: Hz)
    requires
        codes_stay(bs, cap),
    ensures
        codes_stay(cta_cap::pruned_blocks(bs), cap),
{
    let out = cta_cap::pruned_blocks(bs);
    seqs::lemma_filter_kept(bs, cta_cap::says_something(cta_cap::lost_video(bs)));
    assert forall|k: int| 0 <= k < out.len() implies cta_cap::trimmed_block(cap)(#[trigger] out[k])
        == out[k] by {
        assert(bs.contains(out[k]));
        let j = choose|j: int| 0 <= j < bs.len() && bs[j] == out[k];
        assert(cta_cap::trimmed_block(cap)(bs[j]) == bs[j]);
    }
}

/// What a capped block is made of, whether something goes from it or not.
proof fn lemma_capped_parts(c: CtaContent, cap: Hz)
    ensures
        ({
            let out = cta_cap::capped_cta(c, cap);
            let mid = cta_cap::trimmed_blocks(c.data_blocks, cap);
            &&& out.data_blocks == mid || out.data_blocks == cta_cap::pruned_blocks(mid)
            &&& out.dtds == c.dtds.filter(cta_cap::dtd_stays(cap))
        }),
{
    if !cta_cap::cta_changed(c, cap) {
        lemma_settled_blocks(c.data_blocks, cap);
        seqs::lemma_filter_same_len(c.dtds, cta_cap::dtd_stays(cap));
    }
}

/// A capped block does not have to change under the same or a higher cap, nor does it
/// without its last detailed timing.
pub proof fn lemma_capped_cta_settled(c: CtaContent, low: Hz, high: Hz)
    requires
        not_lower(high, low),
        forall|k: int| 0 <= k < c.dtds.len() ==> (#[trigger] c.dtds[k]).len() == 18,
    ensures
        !cta_cap::cta_changed(cta_cap::capped_cta(c, low), high),
        cta_cap::capped_cta(c, low).dtds.len() > 0 ==> !cta_cap::cta_changed(
            CtaContent {
                dtds: cta_cap::capped_cta(c, low).dtds.drop_last(),
                ..cta_cap::capped_cta(c, low)
            },
            high,
        ),
{
    let out = cta_cap::capped_cta(c, low);
    let bs = cta_cap::trimmed_blocks(c.data_blocks, low);
    lemma_trimmed_settled(c.data_blocks, low, high);
    lemma_pruned_settled(bs, high);
    lemma_capped_parts(c, low);
    lemma_codes_stay(out.data_blocks, high);
    seqs::lemma_filter_kept(c.dtds, cta_cap::dtd_stays(low));
    assert forall|k: int| 0 <= k < out.dtds.len() implies cta_cap::dtd_stays(high)(
        #[trigger] out.dtds[k],
    ) by {
        let d = out.dtds[k];
        assert(cta_cap::dtd_stays(low)(d));
        if let Some(t) = timing::dtd_timing(d, TimingSource::BaseDtd { index: 0 }) {
            if t.refresh_hz.above(high) {
                timing::lemma_timing_rate(
                    t.h_active,
                    t.v_active,
                    t.h_total,
                    t.v_total,
                    t.pixel_clock_hz,
                    t.interlaced,
                    t.source,
                );
                rate::lemma_above_higher_cap(t.refresh_hz, low, high);
            }
        }
    }
    seqs::lemma_filter_same_len(out.dtds, cta_cap::dtd_stays(high));
    if out.dtds.len() > 0 {
        let fewer = out.dtds.drop_last();
        assert forall|k: int| 0 <= k < fewer.len() implies cta_cap::dtd_stays(high)(
            #[trigger] fewer[k],
        ) by {
            assert(fewer[k] == out.dtds[k]);
        }
        seqs::lemma_filter_same_len(fewer, cta_cap::dtd_stays(high));
    }
}

// ---------------------------------------------------------------------------
// What stays can be written again.

proof fn lemma_data_bytes_shrink(a: Seq<(u8, Seq<u8>)>, b: Seq<(u8, Seq<u8>)>)
    requires
        a.len() == b.len(),
        forall|k: int| 0 <= k < a.len() ==> (#[trigger] a[k]).1.len() <= b[k].1.len(),
    ensures
        cta::data_bytes(a).len() <= cta::data_bytes(b).len(),
    decreases a.len(),
{
    if a.len() > 0 {
        let x = a.drop_first();
        let y = b.drop_first();
        assert forall|k: int| 0 <= k < x.len() implies (#[trigger] x[k]).1.len() <= y[k].1.len() by {
            assert(x[k] == a[k + 1]);
            assert(y[k] == b[k + 1]);
        }
        lemma_data_bytes_shrink(x, y);
        assert(a[0].1.len() <= b[0].1.len());
    }
}

proof fn lemma_data_bytes_filter(bs: Seq<(u8, Seq<u8>)>, p: spec_fn((u8, Seq<u8>)) -> bool)
    ensures
        cta::data_bytes(bs.filter(p)).len() <= cta::data_bytes(bs).len(),
    decreases bs.len(),
{
    reveal(Seq::filter);
    if bs.len() > 0 {
        let init = bs.drop_last();
        lemma_data_bytes_filter(init, p);
        assert(bs =~= init.push(bs.last()));
        cta::lemma_data_bytes_push(init, bs.last());
        cta::lemma_data_bytes_push(init.filter(p), bs.last());
    }
}

/// Trimming a data block keeps its tag and does not make it longer.
proof fn lemma_step_shrinks(b: (u8, Seq<u8>), kept: Seq<bool>, cap: Hz)
    ensures
        ({
            let x = cta_cap::trimmed_block(cap)(b);
            let y = cta_cap::remapped_block(kept)(x);
            &&& x.0 == b.0
            &&& x.1.len() <= b.1.len()
            &&& y.0 == b.0
            &&& y.1.len() == x.1.len()
            &&& b.0 == VIDEO ==> y == x
        }),
{
    let x = cta_cap::trimmed_block(cap)(b);
    if b.0 == VIDEO {
        seqs::lemma_filter_same_len(b.1, cta_cap::svd_stays(cap));
    } else if cta_cap::has_extended_tag(b, Y420_VIDEO) {
        seqs::lemma_filter_same_len(b.1.drop_first(), cta_cap::code_stays(cap));
    }
}

/// What stays of a parsed block can be written again, as far as it fits.
pub proof fn lemma_capped_cta_regular(c: CtaContent, cap: Hz)
    requires
        cta::cta_regular(c),
    ensures
        cta::cta_regular(cta_cap::capped_cta(c, cap)),
        cta::data_bytes(cta_cap::capped_cta(c, cap).data_blocks).len() <= cta::data_bytes(
            c.data_blocks,
        ).len(),
        cta_cap::capped_cta(c, cap).dtds.len() <= c.dtds.len(),
{
    let bs = c.data_blocks;
    let kept = cta_cap::svds_kept(bs, cap);
    let mid = cta_cap::trimmed_blocks(bs, cap);
    let out = cta_cap::capped_cta(c, cap);
    assert forall|k: int| 0 <= k < mid.len() implies (#[trigger] mid[k]).0 == bs[k].0
        && mid[k].1.len() <= bs[k].1.len() by {
        lemma_step_shrinks(bs[k], kept, cap);
        assert(bs.map_values(cta_cap::trimmed_block(cap))[k] == cta_cap::trimmed_block(cap)(bs[k]));
    }
    lemma_data_bytes_shrink(mid, bs);
    let p = cta_cap::says_something(cta_cap::lost_video(mid));
    lemma_data_bytes_filter(mid, p);
    seqs::lemma_filter_kept(mid, p);
    lemma_capped_parts(c, cap);
    assert forall|k: int| 0 <= k < out.data_blocks.len() implies (#[trigger] out.data_blocks[k]).0
        < 8 && out.data_blocks[k].1.len() < 32 by {
        assert(mid.contains(out.data_blocks[k]));
        let j = choose|j: int| 0 <= j < mid.len() && mid[j] == out.data_blocks[k];
        assert(mid[j].0 == bs[j].0);
        assert(bs[j].0 < 8);
    }
    seqs::lemma_filter_kept(c.dtds, cta_cap::dtd_stays(cap));
    seqs::lemma_filter_same_len(c.dtds, cta_cap::dtd_stays(cap));
    assert forall|k: int| 0 <= k < out.dtds.len() implies (#[trigger] out.dtds[k]).len() == 18 && !(
    out.dtds[k][0] == 0 && out.dtds[k][1] == 0) by {
        assert(c.dtds.contains(out.dtds[k]));
        let j = choose|j: int| 0 <= j < c.dtds.len() && c.dtds[j] == out.dtds[k];
        assert(c.dtds[j].len() == 18);
    }
}

// ---------------------------------------------------------------------------
// Everything else stays.

/// Trimming takes from the short video descriptors those above the cap.
proof fn lemma_trimmed_svds(bs: Seq<(u8, Seq<u8>)>, cap: Hz)
    ensures
        cta::svd_bytes(bs.map_values(cta_cap::trimmed_block(cap))) == cta::svd_bytes(bs).filter(
            cta_cap::svd_stays(cap),
        ),
    decreases bs.len(),
{
    reveal(Seq::filter);
    let f = cta_cap::trimmed_block(cap);
    if bs.len() > 0 {
        let init = bs.drop_last();
        let b = bs.last();
        lemma_trimmed_svds(init, cap);
        assert(bs.map_values(f).drop_last() =~= init.map_values(f));
        assert(bs.map_values(f).last() == f(b));
        if b.0 == VIDEO {
            Seq::filter_distributes_over_add(cta::svd_bytes(init), b.1, cta_cap::svd_stays(cap));
        }
    } else {
        assert(bs.map_values(f) =~= Seq::empty());
    }
}

/// Re-indexing the capability maps leaves the short video descriptors alone.
proof fn lemma_remapped_svds(bs: Seq<(u8, Seq<u8>)>, kept: Seq<bool>)
    ensures
        cta::svd_bytes(bs.map_values(cta_cap::remapped_block(kept))) == cta::svd_bytes(bs),
    decreases bs.len(),
{
    let f = cta_cap::remapped_block(kept);
    if bs.len() > 0 {
        lemma_remapped_svds(bs.drop_last(), kept);
        assert(bs.map_values(f).drop_last() =~= bs.drop_last().map_values(f));
        assert(bs.map_values(f).last() == f(bs.last()));
    } else {
        assert(bs.map_values(f) =~= bs);
    }
}

/// Leaving out blocks that hold no short video descriptor loses none.
proof fn lemma_filtered_svds(bs: Seq<(u8, Seq<u8>)>, p: spec_fn((u8, Seq<u8>)) -> bool)
    requires
        forall|b: (u8, Seq<u8>)| b.0 == VIDEO && b.1.len() > 0 ==> #[trigger] p(b),
    ensures
        cta::svd_bytes(bs.filter(p)) == cta::svd_bytes(bs),
    decreases bs.len(),
{
    reveal(Seq::filter);
    if bs.len() > 0 {
        let init = bs.drop_last();
        let b = bs.last();
        lemma_filtered_svds(init, p);
        if p(b) {
            assert(init.filter(p).push(b).drop_last() =~= init.filter(p));
        } else if b.0 == VIDEO {
            assert(cta::svd_bytes(init) + b.1 =~= cta::svd_bytes(init));
        }
    }
}

/// The timings of the descriptors that stay are those within the cap.
proof fn lemma_vic_timings_filter(svds: Seq<u8>, n: usize, cap: Hz)
    ensures
        cta::vic_timings(svds.filter(cta_cap::svd_stays(cap)), n) == cta::vic_timings(
            svds,
            n,
        ).filter(cta_cap::is_within(cap)),
    decreases svds.len(),
{
    reveal(Seq::filter);
    let stays = cta_cap::svd_stays(cap);
    let within = cta_cap::is_within(cap);
    if svds.len() > 0 {
        let init = svds.drop_last();
        let b = svds.last();
        lemma_vic_timings_filter(init, n, cap);
        cta_cap::lemma_code_above(timing::svd_code(b), n, cap);
        let before = cta::vic_timings(init, n);
        if stays(b) {
            assert(init.filter(stays).push(b).drop_last() =~= init.filter(stays));
        }
        if let Some(t) = timing::vic_mode(timing::svd_code(b), n) {
            assert(before.push(t).drop_last() =~= before);
        }
    } else {
        assert(svds.filter(stays) =~= svds);
        assert(cta::vic_timings(svds, n).filter(within) =~= Seq::empty());
    }
}

/// The modes of the detailed timings that stay are those within the cap.
proof fn lemma_dtd_timings_filter(ds: Seq<Seq<u8>>, n: usize, cap: Hz)
    ensures
        modes(cta::dtd_timings(ds.filter(cta_cap::dtd_stays(cap)), n)) == modes(
            cta::dtd_timings(ds, n).filter(cta_cap::is_within(cap)),
        ),
    decreases ds.len(),
{
    reveal(Seq::filter);
    let stays = cta_cap::dtd_stays(cap);
    let within = cta_cap::is_within(cap);
    if ds.len() > 0 {
        let init = ds.drop_last();
        let d = ds.last();
        let kept = init.filter(stays);
        lemma_dtd_timings_filter(init, n, cap);
        let before = cta::dtd_timings(init, n);
        let source = TimingSource::CtaDtd { block: n, index: (ds.len() - 1) as usize };
        cta_cap::lemma_dtd_above(d, source, cap);
        if let Some(t) = timing::dtd_timing(d, source) {
            assert(before.push(t).drop_last() =~= before);
            if stays(d) {
                assert(kept.push(d).drop_last() =~= kept);
                let moved = timing::dtd_timing(
                    d,
                    TimingSource::CtaDtd { block: n, index: kept.len() as usize },
                )->0;
                let a = cta::dtd_timings(kept, n);
                let b = before.filter(within);
                assert(moved.mode() == t.mode());
                assert(modes(a.push(moved)) =~= modes(a).push(moved.mode()));
                assert(modes(b.push(t)) =~= modes(b).push(t.mode()));
            }
        } else {
            assert(stays(d));
            assert(kept.push(d).drop_last() =~= kept);
        }
    } else {
        assert(ds.filter(stays) =~= ds);
        assert(cta::dtd_timings(ds, n).filter(within) =~= Seq::empty());
    }
}

/// A capped block advertises exactly the modes within the cap, in the same order.
pub proof fn lemma_capped_cta_modes(c: CtaContent, n: usize, cap: Hz)
    ensures
        modes(cta::cta_timings(cta_cap::capped_cta(c, cap), n)) == modes(
            cta::cta_timings(c, n).filter(cta_cap::is_within(cap)),
        ),
{
    let within = cta_cap::is_within(cap);
    let bs = c.data_blocks;
    let kept = cta_cap::svds_kept(bs, cap);
    let once = bs.map_values(cta_cap::trimmed_block(cap));
    let mid = cta_cap::trimmed_blocks(bs, cap);
    let out = cta_cap::capped_cta(c, cap);
    lemma_trimmed_svds(bs, cap);
    lemma_remapped_svds(once, kept);
    assert(cta::svd_bytes(mid) == cta::svd_bytes(bs).filter(cta_cap::svd_stays(cap)));
    lemma_filtered_svds(mid, cta_cap::says_something(cta_cap::lost_video(mid)));
    lemma_capped_parts(c, cap);
    lemma_vic_timings_filter(cta::svd_bytes(bs), n, cap);
    lemma_dtd_timings_filter(c.dtds, n, cap);
    let vics = cta::vic_timings(cta::svd_bytes(bs), n);
    let dtds = cta::dtd_timings(c.dtds, n);
    Seq::filter_distributes_over_add(vics, dtds, within);
    let new_dtds = cta::dtd_timings(out.dtds, n);
    assert(modes(vics.filter(within) + new_dtds) =~= modes(vics.filter(within)) + modes(new_dtds));
    assert(modes(vics.filter(within) + dtds.filter(within)) =~= modes(vics.filter(within)) + modes(
        dtds.filter(within),
    ));
}

/// Trimming takes from the codes of the YCbCr 4:2:0 blocks those above the cap.
proof fn lemma_trimmed_y420(bs: Seq<(u8, Seq<u8>)>, cap: Hz)
    ensures
        cta_cap::y420_codes_in(bs.map_values(cta_cap::trimmed_block(cap)))
            == cta_cap::y420_codes_in(bs).filter(cta_cap::code_stays(cap)),
    decreases bs.len(),
{
    reveal(Seq::filter);
    let f = cta_cap::trimmed_block(cap);
    let stays = cta_cap::code_stays(cap);
    if bs.len() > 0 {
        let init = bs.drop_last();
        let b = bs.last();
        lemma_trimmed_y420(init, cap);
        assert(bs.map_values(f).drop_last() =~= init.map_values(f));
        assert(bs.map_values(f).last() == f(b));
        if cta_cap::has_extended_tag(b, Y420_VIDEO) {
            assert(f(b).1.drop_first() =~= b.1.drop_first().filter(stays));
            Seq::filter_distributes_over_add(
                cta_cap::y420_codes_in(init),
                b.1.drop_first(),
                stays,
            );
        }
    } else {
        assert(bs.map_values(f) =~= Seq::empty());
    }
}

/// Re-indexing the capability maps leaves the codes of the YCbCr 4:2:0 blocks alone.
proof fn lemma_remapped_y420(bs: Seq<(u8, Seq<u8>)>, kept: Seq<bool>)
    ensures
        cta_cap::y420_codes_in(bs.map_values(cta_cap::remapped_block(kept)))
            == cta_cap::y420_codes_in(bs),
    decreases bs.len(),
{
    let f = cta_cap::remapped_block(kept);
    if bs.len() > 0 {
        lemma_remapped_y420(bs.drop_last(), kept);
        assert(bs.map_values(f).drop_last() =~= bs.drop_last().map_values(f));
        assert(bs.map_values(f).last() == f(bs.last()));
    } else {
        assert(bs.map_values(f) =~= bs);
    }
}

/// Leaving out blocks that say nothing loses no code.
proof fn lemma_pruned_y420(bs: Seq<(u8, Seq<u8>)>, no_video: bool)
    ensures
        cta_cap::y420_codes_in(bs.filter(cta_cap::says_something(no_video)))
            == cta_cap::y420_codes_in(bs),
    decreases bs.len(),
{
    reveal(Seq::filter);
    let p = cta_cap::says_something(no_video);
    if bs.len() > 0 {
        let init = bs.drop_last();
        let b = bs.last();
        lemma_pruned_y420(init, no_video);
        if p(b) {
            assert(init.filter(p).push(b).drop_last() =~= init.filter(p));
        } else if cta_cap::has_extended_tag(b, Y420_VIDEO) {
            assert(cta_cap::y420_codes_in(init) + b.1.drop_first() =~= cta_cap::y420_codes_in(
                init,
            ));
        }
    }
}

/// A capped block has exactly the YCbCr 4:2:0 codes that stay, in the same order.
pub proof fn lemma_capped_cta_y420(c: CtaContent, cap: Hz)
    ensures
        cta_cap::y420_codes(cta_cap::capped_cta(c, cap)) == cta_cap::y420_codes(c).filter(
            cta_cap::code_stays(cap),
        ),
{
    let bs = c.data_blocks;
    let once = bs.map_values(cta_cap::trimmed_block(cap));
    let mid = cta_cap::trimmed_blocks(bs, cap);
    lemma_trimmed_y420(bs, cap);
    lemma_remapped_y420(once, cta_cap::svds_kept(bs, cap));
    lemma_pruned_y420(mid, cta_cap::lost_video(mid));
    lemma_capped_parts(c, cap);
}

// ---------------------------------------------------------------------------
// What does not have to change.

proof fn lemma_svds_within(svds: Seq<u8>, n: usize, cap: Hz)
    requires
        forall|i: int|
            0 <= i < cta::vic_timings(svds, n).len() ==> !(#[trigger] cta::vic_timings(
                svds,
                n,
            )[i]).refresh_hz.above(cap),
    ensures
        forall|i: int| 0 <= i < svds.len() ==> cta_cap::svd_stays(cap)(#[trigger] svds[i]),
    decreases svds.len(),
{
    if svds.len() > 0 {
        let init = svds.drop_last();
        let before = cta::vic_timings(init, n);
        let all = cta::vic_timings(svds, n);
        assert forall|i: int| 0 <= i < before.len() implies !(
        #[trigger] before[i]).refresh_hz.above(cap) by {
            assert(all[i] == before[i]);
        }
        lemma_svds_within(init, n, cap);
        cta_cap::lemma_code_above(timing::svd_code(svds.last()), n, cap);
        if timing::vic_mode(timing::svd_code(svds.last()), n) is Some {
            assert(!all[all.len() - 1].refresh_hz.above(cap));
        }
        assert forall|i: int| 0 <= i < svds.len() implies cta_cap::svd_stays(cap)(
            #[trigger] svds[i],
        ) by {
            if i < init.len() {
                assert(init[i] == svds[i]);
            }
        }
    }
}

proof fn lemma_dtds_within(ds: Seq<Seq<u8>>, n: usize, cap: Hz)
    requires
        forall|i: int|
            0 <= i < cta::dtd_timings(ds, n).len() ==> !(#[trigger] cta::dtd_timings(
                ds,
                n,
            )[i]).refresh_hz.above(cap),
    ensures
        forall|i: int| 0 <= i < ds.len() ==> cta_cap::dtd_stays(cap)(#[trigger] ds[i]),
    decreases ds.len(),
{
    if ds.len() > 0 {
        let init = ds.drop_last();
        let before = cta::dtd_timings(init, n);
        let all = cta::dtd_timings(ds, n);
        let source = TimingSource::CtaDtd { block: n, index: (ds.len() - 1) as usize };
        assert forall|i: int| 0 <= i < before.len() implies !(
        #[trigger] before[i]).refresh_hz.above(cap) by {
            assert(all[i] == before[i]);
        }
        lemma_dtds_within(init, n, cap);
        cta_cap::lemma_dtd_above(ds.last(), source, cap);
        if timing::dtd_timing(ds.last(), source) is Some {
            assert(!all[all.len() - 1].refresh_hz.above(cap));
        }
        assert forall|i: int| 0 <= i < ds.len() implies cta_cap::dtd_stays(cap)(
            #[trigger] ds[i],
        ) by {
            if i < init.len() {
                assert(init[i] == ds[i]);
            }
        }
    }
}

proof fn lemma_data_within(bs: Seq<(u8, Seq<u8>)>, cap: Hz)
    requires
        forall|i: int|
            0 <= i < cta::svd_bytes(bs).len() ==> cta_cap::svd_stays(cap)(
                #[trigger] cta::svd_bytes(bs)[i],
            ),
        forall|i: int|
            0 <= i < cta_cap::y420_codes_in(bs).len() ==> cta_cap::code_stays(cap)(
                #[trigger] cta_cap::y420_codes_in(bs)[i],
            ),
    ensures
        codes_stay(bs, cap),
    decreases bs.len(),
{
    if bs.len() > 0 {
        let init = bs.drop_last();
        let b = bs.last();
        let svds = cta::svd_bytes(init);
        let codes = cta_cap::y420_codes_in(init);
        assert forall|i: int| 0 <= i < svds.len() implies cta_cap::svd_stays(cap)(
            #[trigger] svds[i],
        ) by {
            assert(cta::svd_bytes(bs)[i] == svds[i]);
        }
        assert forall|i: int| 0 <= i < codes.len() implies cta_cap::code_stays(cap)(
            #[trigger] codes[i],
        ) by {
            assert(cta_cap::y420_codes_in(bs)[i] == codes[i]);
        }
        lemma_data_within(init, cap);
        if b.0 == VIDEO {
            assert forall|i: int| 0 <= i < b.1.len() implies cta_cap::svd_stays(cap)(
                #[trigger] b.1[i],
            ) by {
                assert(cta::svd_bytes(bs)[svds.len() + i] == b.1[i]);
            }
            lemma_video_stays(b, cap);
        } else if cta_cap::has_extended_tag(b, Y420_VIDEO) {
            let more = b.1.drop_first();
            assert forall|i: int| 0 <= i < more.len() implies cta_cap::code_stays(cap)(
                #[trigger] more[i],
            ) by {
                assert(cta_cap::y420_codes_in(bs)[codes.len() + i] == more[i]);
            }
            lemma_y420_stays(b, cap);
        }
        assert forall|k: int| 0 <= k < bs.len() implies cta_cap::trimmed_block(cap)(
            #[trigger] bs[k],
        ) == bs[k] by {
            if k < init.len() {
                assert(init[k] == bs[k]);
            }
        }
    }
}

/// A block that advertises nothing above the cap, and has no YCbCr 4:2:0 code above it, does
/// not have to change.
pub proof fn lemma_within_cta_unchanged(c: CtaContent, n: usize, cap: Hz)
    requires
        forall|i: int|
            0 <= i < cta::cta_timings(c, n).len() ==> !(#[trigger] cta::cta_timings(
                c,
                n,
            )[i]).refresh_hz.above(cap),
        forall|i: int|
            0 <= i < cta_cap::y420_codes(c).len() ==> cta_cap::code_stays(cap)(
                #[trigger] cta_cap::y420_codes(c)[i],
            ),
    ensures
        !cta_cap::cta_changed(c, cap),
{
    let svds = cta::svd_bytes(c.data_blocks);
    let vics = cta::vic_timings(svds, n);
    let dtds = cta::dtd_timings(c.dtds, n);
    let all = cta::cta_timings(c, n);
    assert forall|i: int| 0 <= i < vics.len() implies !(#[trigger] vics[i]).refresh_hz.above(
        cap,
    ) by {
        assert(all[i] == vics[i]);
    }
    assert forall|i: int| 0 <= i < dtds.len() implies !(#[trigger] dtds[i]).refresh_hz.above(
        cap,
    ) by {
        assert(all[vics.len() + i] == dtds[i]);
    }
    lemma_svds_within(svds, n, cap);
    lemma_dtds_within(c.dtds, n, cap);
    assert forall|i: int| 0 <= i < cta_cap::y420_codes_in(c.data_blocks).len() implies
        cta_cap::code_stays(cap)(#[trigger] cta_cap::y420_codes_in(c.data_blocks)[i]) by {
        assert(cta_cap::y420_codes(c)[i] == cta_cap::y420_codes_in(c.data_blocks)[i]);
    }
    lemma_data_within(c.data_blocks, cap);
    lemma_codes_stay(c.data_blocks, cap);
    seqs::lemma_filter_same_len(c.dtds, cta_cap::dtd_stays(cap));
}

// ---------------------------------------------------------------------------
// What is reported.

pub proof fn lemma_new_codes_above(seen: Seq<Timing>, codes: Seq<u8>, n: usize, cap: Hz)
    requires
        forall|i: int| 0 <= i < seen.len() ==> (#[trigger] seen[i]).refresh_hz.above(cap),
    ensures
        forall|i: int|
            0 <= i < cta_cap::with_new_codes(seen, codes, n, cap).len() ==> (
            #[trigger] cta_cap::with_new_codes(seen, codes, n, cap)[i]).refresh_hz.above(cap),
        seen.len() <= cta_cap::with_new_codes(seen, codes, n, cap).len(),
        forall|i: int|
            0 <= i < seen.len() ==> cta_cap::with_new_codes(seen, codes, n, cap)[i]
                == #[trigger] seen[i],
    decreases codes.len(),
{
    if codes.len() > 0 {
        lemma_new_codes_above(seen, codes.drop_last(), n, cap);
    }
}

/// Everything that is reported as dropped is above the cap, and every timing above the cap
/// is reported.
pub proof fn lemma_cta_dropped(c: CtaContent, n: usize, cap: Hz)
    ensures
        forall|i: int|
            0 <= i < cta_cap::cta_dropped(c, n, cap).len() ==> (#[trigger] cta_cap::cta_dropped(
                c,
                n,
                cap,
            )[i]).refresh_hz.above(cap),
        forall|t: Timing| #[trigger]
            cta::cta_timings(c, n).contains(t) && t.refresh_hz.above(cap)
                ==> cta_cap::cta_dropped(c, n, cap).contains(t),
{
    let above = cta_cap::is_above(cap);
    let data = cta_cap::data_dropped(c.data_blocks, n, cap);
    let ts = cta::dtd_timings(c.dtds, n);
    let vics = cta::vic_timings(cta::svd_bytes(c.data_blocks), n);
    let all = cta_cap::cta_dropped(c, n, cap);
    lemma_data_dropped(c.data_blocks, n, cap);
    seqs::lemma_filter_kept(ts, above);
    assert forall|i: int| 0 <= i < all.len() implies (#[trigger] all[i]).refresh_hz.above(cap) by {
        if i < data.len() {
            assert(all[i] == data[i]);
        } else {
            assert(all[i] == ts.filter(above)[i - data.len()]);
            assert(above(all[i]));
        }
    }
    assert forall|t: Timing| #[trigger]
        cta::cta_timings(c, n).contains(t) && t.refresh_hz.above(cap) implies all.contains(t) by {
        let i = choose|i: int|
            0 <= i < cta::cta_timings(c, n).len() && cta::cta_timings(c, n)[i] == t;
        if i < vics.len() {
            assert(vics[i] == t);
            assert(vics.contains(t));
            assert(data.contains(t));
            let j = choose|j: int| 0 <= j < data.len() && data[j] == t;
            assert(all[j] == t);
        } else {
            assert(ts[i - vics.len()] == t);
            assert(above(t));
            ts.lemma_filter_contains(above, i - vics.len());
            let j = choose|j: int|
                0 <= j < ts.filter(above).len() && ts.filter(above)[j] == t;
            assert(all[data.len() + j] == t);
        }
    }
}

/// Without a YCbCr 4:2:0 code above the cap, what goes from the data blocks are the short
/// video descriptors above it, in order.
proof fn lemma_data_dropped_in_order(bs: Seq<(u8, Seq<u8>)>, n: usize, cap: Hz)
    requires
        forall|i: int|
            0 <= i < cta_cap::y420_codes_in(bs).len() ==> !cta_cap::code_above(
                #[trigger] cta_cap::y420_codes_in(bs)[i],
                cap,
            ),
    ensures
        cta_cap::data_dropped(bs, n, cap) == cta::vic_timings(cta::svd_bytes(bs), n).filter(
            cta_cap::is_above(cap),
        ),
    decreases bs.len(),
{
    let above = cta_cap::is_above(cap);
    if bs.len() > 0 {
        let init = bs.drop_last();
        let b = bs.last();
        let codes = cta_cap::y420_codes_in(init);
        let svds = cta::svd_bytes(init);
        assert forall|i: int| 0 <= i < codes.len() implies !cta_cap::code_above(
            #[trigger] codes[i],
            cap,
        ) by {
            assert(cta_cap::y420_codes_in(bs)[i] == codes[i]);
        }
        lemma_data_dropped_in_order(init, n, cap);
        if b.0 == VIDEO {
            cta::lemma_vic_timings_split(svds, b.1, n);
            Seq::filter_distributes_over_add(
                cta::vic_timings(svds, n),
                cta::vic_timings(b.1, n),
                above,
            );
        } else if cta_cap::has_extended_tag(b, Y420_VIDEO) {
            let more = b.1.drop_first();
            assert forall|i: int| 0 <= i < more.len() implies cta_cap::code_stays(cap)(
                #[trigger] more[i],
            ) by {
                assert(cta_cap::y420_codes_in(bs)[codes.len() + i] == more[i]);
            }
            lemma_no_new_codes(cta_cap::data_dropped(init, n, cap), more, n, cap);
        }
    } else {
        reveal(Seq::filter);
        assert(cta::vic_timings(cta::svd_bytes(bs), n).filter(above) =~= Seq::empty());
    }
}

/// Without a YCbCr 4:2:0 code above the cap, what goes from a block are its timings above it,
/// in order.
pub proof fn lemma_cta_dropped_in_order(c: CtaContent, n: usize, cap: Hz)
    requires
        forall|i: int|
            0 <= i < cta_cap::y420_codes(c).len() ==> !cta_cap::code_above(
                #[trigger] cta_cap::y420_codes(c)[i],
                cap,
            ),
    ensures
        cta_cap::cta_dropped(c, n, cap) == cta::cta_timings(c, n).filter(cta_cap::is_above(cap)),
{
    assert forall|i: int| 0 <= i < cta_cap::y420_codes_in(c.data_blocks).len() implies
        !cta_cap::code_above(#[trigger] cta_cap::y420_codes_in(c.data_blocks)[i], cap) by {
        assert(cta_cap::y420_codes(c)[i] == cta_cap::y420_codes_in(c.data_blocks)[i]);
    }
    lemma_data_dropped_in_order(c.data_blocks, n, cap);
    Seq::filter_distributes_over_add(
        cta::vic_timings(cta::svd_bytes(c.data_blocks), n),
        cta::dtd_timings(c.dtds, n),
        cta_cap::is_above(cap),
    );
}

pub proof fn lemma_data_dropped(bs: Seq<(u8, Seq<u8>)>, n: usize, cap: Hz)
    ensures
        forall|i: int|
            0 <= i < cta_cap::data_dropped(bs, n, cap).len() ==> (#[trigger] cta_cap::data_dropped(
                bs,
                n,
                cap,
            )[i]).refresh_hz.above(cap),
        forall|t: Timing| #[trigger]
            cta::vic_timings(cta::svd_bytes(bs), n).contains(t) && t.refresh_hz.above(cap)
                ==> cta_cap::data_dropped(bs, n, cap).contains(t),
    decreases bs.len(),
{
    let above = cta_cap::is_above(cap);
    let out = cta_cap::data_dropped(bs, n, cap);
    if bs.len() > 0 {
        let init = bs.drop_last();
        let b = bs.last();
        let before = cta_cap::data_dropped(init, n, cap);
        lemma_data_dropped(init, n, cap);
        if b.0 == VIDEO {
            let more = cta::vic_timings(b.1, n);
            let earlier = cta::vic_timings(cta::svd_bytes(init), n);
            seqs::lemma_filter_kept(more, above);
            cta::lemma_vic_timings_split(cta::svd_bytes(init), b.1, n);
            assert forall|i: int| 0 <= i < out.len() implies (#[trigger] out[i]).refresh_hz.above(
                cap,
            ) by {
                if i < before.len() {
                    assert(out[i] == before[i]);
                } else {
                    assert(out[i] == more.filter(above)[i - before.len()]);
                    assert(above(out[i]));
                }
            }
            assert forall|t: Timing| #[trigger]
                cta::vic_timings(cta::svd_bytes(bs), n).contains(t) && t.refresh_hz.above(
                    cap,
                ) implies out.contains(t) by {
                let all = earlier + more;
                let i = choose|i: int| 0 <= i < all.len() && all[i] == t;
                if i < earlier.len() {
                    assert(earlier[i] == t);
                    assert(earlier.contains(t));
                    assert(before.contains(t));
                    let j = choose|j: int| 0 <= j < before.len() && before[j] == t;
                    assert(out[j] == t);
                } else {
                    assert(more[i - earlier.len()] == t);
                    assert(above(t));
                    more.lemma_filter_contains(above, i - earlier.len());
                    let j = choose|j: int|
                        0 <= j < more.filter(above).len() && more.filter(above)[j] == t;
                    assert(out[before.len() + j] == t);
                }
            }
        } else if cta_cap::has_extended_tag(b, Y420_VIDEO) {
            lemma_new_codes_above(before, b.1.drop_first(), n, cap);
            assert forall|t: Timing| #[trigger]
                cta::vic_timings(cta::svd_bytes(bs), n).contains(t) && t.refresh_hz.above(
                    cap,
                ) implies out.contains(t) by {
                assert(cta::vic_timings(cta::svd_bytes(init), n).contains(t));
                assert(before.contains(t));
                let j = choose|j: int| 0 <= j < before.len() && before[j] == t;
                assert(out[j] == before[j]);
            }
        }
    }
}

proof fn lemma_same_data_blocks(a: Seq<u8>, b: Seq<u8>, i: int, end: int)
    requires
        a.len() == 128,
        b.len() == 128,
        a.take(127) == b.take(127),
        0 <= i,
        end <= 127,
    ensures
        cta::data_blocks_from(a, i, end) == cta::data_blocks_from(b, i, end),
    decreases
            (if i < end {
                end - i
            } else {
                0
            }),
{
    if i < end {
        let stop = cta::least(i + 1 + a[i] % 32, 127);
        assert(a[i] == a.take(127)[i] && b[i] == b.take(127)[i]);
        assert(a.subrange(i + 1, stop) =~= a.take(127).subrange(i + 1, stop));
        assert(b.subrange(i + 1, stop) =~= b.take(127).subrange(i + 1, stop));
        lemma_same_data_blocks(a, b, i + 1 + a[i] % 32, end);
    }
}

proof fn lemma_same_dtds(a: Seq<u8>, b: Seq<u8>, j: int)
    requires
        a.len() == 128,
        b.len() == 128,
        a.take(127) == b.take(127),
        0 <= j,
    ensures
        cta::dtds_from(a, j) == cta::dtds_from(b, j),
    decreases 128 - j,
{
    if j + 18 < 128 {
        assert(a[j] == a.take(127)[j] && b[j] == b.take(127)[j]);
        assert(a[j + 1] == a.take(127)[j + 1] && b[j + 1] == b.take(127)[j + 1]);
        assert(a.subrange(j, j + 18) =~= a.take(127).subrange(j, j + 18));
        assert(b.subrange(j, j + 18) =~= b.take(127).subrange(j, j + 18));
        lemma_same_dtds(a, b, j + 18);
    }
}

/// The checksum byte says nothing about what a block advertises.
pub proof fn lemma_same_cta(a: Seq<u8>, b: Seq<u8>)
    requires
        a.len() == 128,
        b.len() == 128,
        a.take(127) == b.take(127),
    ensures
        cta::cta_content(a) == cta::cta_content(b),
{
    assert forall|k: int| 0 <= k < 127 implies #[trigger] a[k] == b[k] by {
        assert(a[k] == a.take(127)[k] && b[k] == b.take(127)[k]);
    }
    lemma_same_data_blocks(a, b, 4, cta::least(a[2] as int, 127));
    lemma_same_dtds(a, b, a[2] as int);
}

} // verus!
