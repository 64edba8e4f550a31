//! What a capped EDID keeps, byte for byte, and what it loses.

use vstd::prelude::*;

use crate::cap::CapOptions;
use crate::cta::CtaContent;
use crate::edid::RangeLimits;
use crate::rate::Hz;
use crate::timing::{Timing, TimingSource};
use crate::{
    bitmap, block, cap, cta, cta_cap, cta_laws, decode_laws, displayid, displayid_cap,
    displayid_laws, edid, laws, rate, seqs, text, timing,
};

verus! {

// ---------------------------------------------------------------------------
// Above the cap.

/// Whether `clock` pixels per second in frames of `frame` pixels are more than half a hertz
/// above the cap.
pub open spec fn is_over(clock: int, frame: int, cap: Hz) -> bool {
    frame > 0 && 2 * (clock * cap.den) > (2 * cap.num + cap.den) * frame
}

/// A timing is above the cap exactly when its pixel clock over its whole frame is.
pub proof fn law_timing_above(t: Timing, cap: Hz)
    requires
        decode_laws::rate_follows(t),
    ensures
        t.refresh_hz.above(cap) <==> is_over(
            t.pixel_clock_hz as int,
            t.h_total * t.v_total,
            cap,
        ),
{
    let (h, v) = (t.h_total as int, t.v_total as int);
    let (c, n, d) = (t.pixel_clock_hz as int, cap.num as int, cap.den as int);
    assert(h * v > 0 <==> h > 0 && v > 0) by (nonlinear_arith)
        requires
            h >= 0,
            v >= 0,
    ;
    assert((2 * c) * d == 2 * (c * d)) by (nonlinear_arith);
    if h == 0 || v == 0 {
        let e = t.refresh_hz.den as int;
        assert((2 * n + d) * e >= 0) by (nonlinear_arith)
            requires
                n >= 0,
                d >= 0,
                e >= 0,
        ;
    }
}

/// Whether the format of a video code is not above the cap; a code that is not known is not.
pub open spec fn code_within(cap: Hz) -> spec_fn(u8) -> bool {
    |vic: u8|
        !(timing::vic_format(vic) matches Some((w, h, w_total, h_total, clock)) && is_over(
            clock as int,
            w_total * h_total,
            cap,
        ))
}

/// Whether the format of a short video descriptor is not above the cap.
pub open spec fn svd_within(cap: Hz) -> spec_fn(u8) -> bool {
    |svd: u8| code_within(cap)(decode_laws::code_in(svd))
}

/// Whether a detailed timing is not above the cap.
pub open spec fn dtd_within(cap: Hz) -> spec_fn(Seq<u8>) -> bool {
    |d: Seq<u8>|
        !is_over(
            10_000 * (d[0] + 256 * d[1]),
            (d[2] + 256 * (d[4] / 16) + d[3] + 256 * (d[4] % 16)) * (d[5] + 256 * (d[7] / 16) + d[6]
                + 256 * (d[7] % 16)),
            cap,
        )
}

proof fn lemma_code_within(vic: u8, cap: Hz)
    ensures
        cta_cap::code_above(vic, cap) == !code_within(cap)(vic),
{
    if let Some(t) = timing::vic_mode(vic, 0) {
        decode_laws::lemma_rate_follows(t);
        law_timing_above(t, cap);
    }
}

pub proof fn lemma_svd_within(cap: Hz)
    ensures
        cta_cap::svd_stays(cap) =~= svd_within(cap),
        cta_cap::code_stays(cap) =~= code_within(cap),
{
    assert forall|b: u8| cta_cap::svd_stays(cap)(b) == #[trigger] svd_within(cap)(b) by {
        assert(timing::svd_code(b) == decode_laws::code_in(b));
        lemma_code_within(timing::svd_code(b), cap);
    }
    assert forall|b: u8| cta_cap::code_stays(cap)(b) == #[trigger] code_within(cap)(b) by {
        lemma_code_within(b, cap);
    }
}

pub proof fn lemma_dtd_within(d: Seq<u8>, cap: Hz)
    requires
        d.len() == 18,
    ensures
        cta_cap::dtd_stays(cap)(d) == dtd_within(cap)(d),
{
    let source = TimingSource::BaseDtd { index: 0 };
    decode_laws::law_dtd(d, source);
    match timing::dtd_timing(d, source) {
        Some(t) => {
            law_timing_above(t, cap);
        },
        None => {
            let w = d[2] + 256 * (d[4] / 16) + d[3] + 256 * (d[4] % 16);
            let h = d[5] + 256 * (d[7] / 16) + d[6] + 256 * (d[7] % 16);
            assert(2 * (0 * cap.den) <= (2 * cap.num + cap.den) * (w * h)) by (nonlinear_arith)
                requires
                    w >= 0,
                    h >= 0,
                    cap.num >= 0,
                    cap.den >= 0,
            ;
        },
    }
}

// ---------------------------------------------------------------------------
// CTA-861 blocks.

/// Whether a data block says something other than video codes: it is no video data block
/// (tag 2) and neither of the YCbCr 4:2:0 blocks (extended tags 14 and 15).
pub open spec fn is_other() -> spec_fn((u8, Seq<u8>)) -> bool {
    |b: (u8, Seq<u8>)|
        b.0 != 2 && !(b.0 == 7 && b.1.len() > 0 && (b.1[0] == 14 || b.1[0] == 15))
}

proof fn lemma_step(kept: Seq<bool>, maps: bool, cap: Hz) -> (f: spec_fn((u8, Seq<u8>)) -> (
    u8,
    Seq<u8>,
))
    ensures
        f == (|b: (u8, Seq<u8>)|
            if maps {
                cta_cap::remapped_block(kept)(cta_cap::trimmed_block(cap)(b))
            } else {
                cta_cap::trimmed_block(cap)(b)
            }),
        forall|b: (u8, Seq<u8>)| is_other()(b) ==> #[trigger] f(b) == b,
        forall|b: (u8, Seq<u8>)| !is_other()(b) ==> !is_other()(#[trigger] f(b)),
{
    |b: (u8, Seq<u8>)|
        if maps {
            cta_cap::remapped_block(kept)(cta_cap::trimmed_block(cap)(b))
        } else {
            cta_cap::trimmed_block(cap)(b)
        }
}

/// The data blocks of a capped CTA-861 block that say something other than video codes are
/// those of the original, payloads included, in the same order.
proof fn lemma_other_blocks(c: CtaContent, cap: Hz)
    ensures
        cta_cap::capped_cta(c, cap).data_blocks.filter(is_other()) == c.data_blocks.filter(
            is_other(),
        ),
{
    if cta_cap::cta_changed(c, cap) {
        let bs = c.data_blocks;
        let kept = cta_cap::svds_kept(bs, cap);
        let maps = kept.contains(false);
        let f = lemma_step(kept, maps, cap);
        let mid = cta_cap::trimmed_blocks(bs, cap);
        let keep = cta_cap::says_something(cta_cap::lost_video(mid));
        assert(mid =~= bs.map_values(f));
        seqs::lemma_filter_other(bs, f, keep, is_other());
    }
}

/// Capping an EDID leaves alone what is no timing: in each CTA-861 block the data blocks that
/// are neither video data blocks nor YCbCr 4:2:0 blocks (audio, speakers, HDR metadata,
/// colorimetry, vendor data and the like) are exactly those of the original, payloads included,
/// in the same order, and so are its revision and its flags.
pub proof fn law_cap_keeps_other_data(bytes: Seq<u8>, opts: CapOptions, k: int)
    requires
        cap::accepted(bytes, opts),
        cap::cap_fits(bytes, opts),
        1 <= k < bytes.len() / 128,
        bytes[128 * k] == 0x02,
    ensures
        ({
            let old = cta::cta_content(bytes.subrange(128 * k, 128 * k + 128));
            let new = cta::cta_content(
                cap::cap_content(bytes, opts).bytes.subrange(128 * k, 128 * k + 128),
            );
            &&& new.data_blocks.filter(is_other()) == old.data_blocks.filter(is_other())
            &&& new.revision == old.revision
            &&& new.flags == old.flags
        }),
{
    let blk = block::block_at(bytes, k);
    lemma_written_cta(bytes, opts, k);
    lemma_other_blocks(cta::cta_content(blk), opts.max_hz);
}

/// What a capped CTA-861 block says: only a detailed timing that would reach into the checksum
/// byte is lost.
pub proof fn lemma_written_cta(bytes: Seq<u8>, opts: CapOptions, k: int)
    requires
        cap::accepted(bytes, opts),
        cap::cap_fits(bytes, opts),
        1 <= k < bytes.len() / 128,
        bytes[128 * k] == 0x02,
    ensures
        ({
            let blk = block::block_at(bytes, k);
            let c = cta_cap::capped_cta(cta::cta_content(blk), opts.max_hz);
            let new = cta::cta_content(block::block_at(cap::cap_content(bytes, opts).bytes, k));
            &&& new.revision == c.revision == blk[1]
            &&& new.flags == c.flags == blk[3]
            &&& new.data_blocks == c.data_blocks
            &&& laws::extension_fits_well(blk, opts.max_hz) ==> new.dtds == c.dtds
            &&& block::block_at(cap::cap_content(bytes, opts).bytes, k)[0] == 0x02
        }),
{
    let blk = block::block_at(bytes, k);
    let out = cap::cap_content(bytes, opts).bytes;
    laws::lemma_capped_blocks(bytes, opts);
    assert(blk[0] == bytes[128 * k]);
    assert(block::block_at(out, k) == cap::capped_extension(blk, k as usize, opts.max_hz));
    assert(cap::extension_fits(blk, opts.max_hz));
    cap::lemma_capped_extension(blk, k as usize, opts.max_hz);
    if cta_cap::cta_changed(cta::cta_content(blk), opts.max_hz) {
        laws::lemma_rewritten_cta(blk, opts.max_hz);
    }
}

/// Whether bit `i` of a capability map is set, low bits first; beyond the map no bit is.
pub open spec fn bit_set(map: Seq<u8>, i: int) -> bool {
    0 <= i < 8 * map.len() && (map[i / 8] as int / vstd::arithmetic::power2::pow2(
        (i % 8) as nat,
    ) as int) % 2 == 1
}

/// Whether the capability map `new` says of each short video descriptor that stays what the
/// map `old` said of it: when `k` descriptors before it stay, its bit is now bit `k`. When a
/// descriptor went, no bit behind those of the descriptors that stay is set.
pub open spec fn map_follows(old: Seq<u8>, new: Seq<u8>, svds: Seq<u8>, cap: Hz) -> bool {
    &&& new.len() == old.len()
    &&& forall|i: int|
        0 <= i < svds.len() && svd_within(cap)(svds[i]) ==> #[trigger] bit_set(old, i) == bit_set(
            new,
            svds.take(i).filter(svd_within(cap)).len() as int,
        )
    &&& svds.filter(svd_within(cap)).len() < svds.len() ==> forall|j: int|
        svds.filter(svd_within(cap)).len() <= j ==> !#[trigger] bit_set(new, j)
}

/// The short video descriptors of the data blocks, one behind the other.
pub open spec fn descriptors_in(all: Seq<(u8, Seq<u8>)>) -> Seq<u8> {
    all.filter(decode_laws::is_video()).map_values(decode_laws::payload()).flatten()
}

proof fn lemma_bit_set(map: Seq<u8>, i: int)
    ensures
        bit_set(map, i) == bitmap::bit_at(map, i),
{
    vstd::arithmetic::power2::lemma2_to64();
    let k = i % 8;
    assert(k == 0 || k == 1 || k == 2 || k == 3 || k == 4 || k == 5 || k == 6 || k == 7);
}

proof fn lemma_kept_bits(map: Seq<u8>, svds: Seq<u8>, cap: Hz)
    ensures
        ({
            let bits = bitmap::kept_bits(map, svds.map_values(svd_within(cap)));
            &&& bits.len() == svds.filter(svd_within(cap)).len()
            &&& forall|i: int|
                0 <= i < svds.len() && svd_within(cap)(svds[i]) ==> rank_ok(
                    bits,
                    #[trigger] bitmap::bit_at(map, i),
                    svds.take(i).filter(svd_within(cap)).len() as int,
                )
        }),
    decreases svds.len(),
{
    let p = svd_within(cap);
    reveal(Seq::filter);
    if svds.len() > 0 {
        let init = svds.drop_last();
        let n = init.len() as int;
        let kept = svds.map_values(p);
        let bits = bitmap::kept_bits(map, kept);
        lemma_kept_bits(map, init, cap);
        assert(kept.drop_last() =~= init.map_values(p));
        assert forall|i: int| 0 <= i < svds.len() && p(svds[i]) implies rank_ok(
            bits,
            #[trigger] bitmap::bit_at(map, i),
            svds.take(i).filter(p).len() as int,
        ) by {
            if i < n {
                assert(init.take(i) =~= svds.take(i));
                assert(init[i] == svds[i]);
                assert(rank_ok(
                    bitmap::kept_bits(map, init.map_values(p)),
                    bitmap::bit_at(map, i),
                    init.take(i).filter(p).len() as int,
                ));
            } else {
                assert(svds.take(i) =~= init);
            }
        }
    }
}

/// Whether bit `k` is there and has the given value.
spec fn rank_ok(bits: Seq<bool>, value: bool, k: int) -> bool {
    0 <= k < bits.len() && bits[k] == value
}

proof fn lemma_map_follows(map: Seq<u8>, svds: Seq<u8>, cap: Hz)
    ensures
        map_follows(
            map,
            bitmap::remapped(map, svds.map_values(svd_within(cap))),
            svds,
            cap,
        ),
{
    let p = svd_within(cap);
    let kept = svds.map_values(p);
    let new = bitmap::remapped(map, kept);
    let bits = bitmap::kept_bits(map, kept);
    lemma_kept_bits(map, svds, cap);
    assert(new.len() == map.len());
    assert forall|i: int| 0 <= i < svds.len() && p(svds[i]) implies #[trigger] bit_set(map, i)
        == bit_set(new, svds.take(i).filter(p).len() as int) by {
        let k = svds.take(i).filter(p).len() as int;
        seqs::lemma_filter_same_len(svds.take(i), p);
        lemma_bit_set(map, i);
        lemma_bit_set(new, k);
        assert(rank_ok(bits, bitmap::bit_at(map, i), k));
        if k < 8 * map.len() {
            bitmap::law_remapped(map, kept, k);
        }
    }
    assert forall|j: int| svds.filter(p).len() <= j implies !#[trigger] bit_set(new, j) by {
        lemma_bit_set(new, j);
        if j < 8 * map.len() {
            bitmap::law_remapped(map, kept, j);
        }
    }
}

proof fn lemma_map_stays(map: Seq<u8>, svds: Seq<u8>, cap: Hz)
    requires
        svds.filter(svd_within(cap)).len() == svds.len(),
    ensures
        map_follows(map, map, svds, cap),
{
    let p = svd_within(cap);
    seqs::lemma_filter_same_len(svds, p);
    assert forall|i: int| 0 <= i < svds.len() && p(svds[i]) implies #[trigger] bit_set(map, i)
        == bit_set(map, svds.take(i).filter(p).len() as int) by {
        let t = svds.take(i);
        assert forall|a: int| 0 <= a < t.len() implies p(#[trigger] t[a]) by {
            assert(t[a] == svds[a]);
        }
        seqs::lemma_filter_same_len(t, p);
    }
}

/// What becomes of one of the data blocks `all`: other data stays as it is; video data blocks
/// and YCbCr 4:2:0 video data blocks lose exactly the codes above the cap; a capability map
/// follows the short video descriptors.
pub open spec fn becomes(
    old: (u8, Seq<u8>),
    new: (u8, Seq<u8>),
    all: Seq<(u8, Seq<u8>)>,
    cap: Hz,
) -> bool {
    &&& new.0 == old.0
    &&& old.0 == 2 ==> new.1 == old.1.filter(svd_within(cap))
    &&& old.0 == 7 && old.1.len() > 0 && old.1[0] == 14 ==> new.1 == seq![14u8]
        + old.1.drop_first().filter(code_within(cap))
    &&& old.0 == 7 && old.1.len() > 0 && old.1[0] == 15 ==> new.1.len() > 0 && new.1[0] == 15
        && map_follows(old.1.drop_first(), new.1.drop_first(), descriptors_in(all), cap)
    &&& is_other()(old) ==> new == old
}

/// Whether nothing is left of a data block once the codes above the cap are gone: no
/// descriptor, no code, or no descriptor that a capability map could be for.
pub open spec fn is_used_up(b: (u8, Seq<u8>), all: Seq<(u8, Seq<u8>)>, cap: Hz) -> bool {
    ||| b.0 == 2 && b.1.filter(svd_within(cap)).len() == 0
    ||| b.0 == 7 && b.1.len() > 0 && b.1[0] == 14 && b.1.drop_first().filter(
        code_within(cap),
    ).len() == 0
    ||| b.0 == 7 && b.1.len() > 0 && b.1[0] == 15 && forall|i: int|
        0 <= i < all.len() && (#[trigger] all[i]).0 == 2 ==> all[i].1.filter(
            svd_within(cap),
        ).len() == 0
}

/// Whether the data blocks `new` are what becomes of the data blocks `old`, in the same order,
/// without those that are used up: block `k` of `new` comes from block `from[k]` of `old`.
pub open spec fn data_becomes(
    old: Seq<(u8, Seq<u8>)>,
    new: Seq<(u8, Seq<u8>)>,
    from: Seq<int>,
    cap: Hz,
) -> bool {
    &&& from.len() == new.len()
    &&& forall|k: int| 0 <= k < new.len() ==> comes_from(#[trigger] new[k], old, from[k], cap)
    &&& forall|a: int, b: int|
        #![trigger from[a], from[b]]
        0 <= a < b < from.len() ==> from[a] < from[b]
    &&& forall|i: int|
        0 <= i < old.len() && !from.contains(i) ==> is_used_up(#[trigger] old[i], old, cap)
}

/// Whether `new` is what becomes of block `i` of `old`.
pub open spec fn comes_from(new: (u8, Seq<u8>), old: Seq<(u8, Seq<u8>)>, i: int, cap: Hz) -> bool {
    0 <= i < old.len() && becomes(old[i], new, old, cap)
}

proof fn lemma_becomes(b: (u8, Seq<u8>), all: Seq<(u8, Seq<u8>)>, cap: Hz)
    ensures
        ({
            let kept = cta_cap::svds_kept(all, cap);
            let x = cta_cap::trimmed_block(cap)(b);
            becomes(
                b,
                if kept.contains(false) {
                    cta_cap::remapped_block(kept)(x)
                } else {
                    x
                },
                all,
                cap,
            )
        }),
{
    let svds = descriptors_in(all);
    let kept = cta_cap::svds_kept(all, cap);
    let x = cta_cap::trimmed_block(cap)(b);
    lemma_svd_within(cap);
    decode_laws::law_svds(all);
    assert(kept == svds.map_values(svd_within(cap)));
    seqs::lemma_filter_same_len(svds, svd_within(cap));
    if b.0 == 7 && b.1.len() > 0 && b.1[0] == 15 {
        let map = b.1.drop_first();
        assert(x == b);
        if kept.contains(false) {
            lemma_map_follows(map, svds, cap);
            if cta_cap::is_map(x) {
                let new = seq![15u8] + bitmap::remapped(map, kept);
                assert(new.drop_first() =~= bitmap::remapped(map, kept));
            } else {
                assert(map =~= bitmap::remapped(map, kept));
            }
        } else {
            assert forall|i: int| 0 <= i < svds.len() implies svd_within(cap)(#[trigger] svds[i]) by {
                assert(kept[i] == svd_within(cap)(svds[i]));
            }
            lemma_map_stays(map, svds, cap);
        }
    }
}

proof fn lemma_data_becomes(c: CtaContent, cap: Hz) -> (from: Seq<int>)
    ensures
        data_becomes(c.data_blocks, cta_cap::capped_cta(c, cap).data_blocks, from, cap),
{
    let bs = c.data_blocks;
    let mid = cta_cap::trimmed_blocks(bs, cap);
    let new = cta_cap::capped_cta(c, cap).data_blocks;
    lemma_svd_within(cap);
    assert forall|i: int| 0 <= i < bs.len() implies #[trigger] comes_from(mid[i], bs, i, cap) by {
        lemma_becomes(bs[i], bs, cap);
    }
    if cta_cap::cta_changed(c, cap) {
        let lost = cta_cap::lost_video(mid);
        let keep = cta_cap::says_something(lost);
        let from = seqs::lemma_filter_places(mid, keep);
        assert forall|k: int| 0 <= k < new.len() implies comes_from(
            #[trigger] new[k],
            bs,
            from[k],
            cap,
        ) by {
            assert(0 <= from[k] < mid.len() && new[k] == mid[from[k]]);
            assert(comes_from(mid[from[k]], bs, from[k], cap));
        }
        assert forall|i: int| 0 <= i < bs.len() && !from.contains(i) implies is_used_up(
            #[trigger] bs[i],
            bs,
            cap,
        ) by {
            assert(!keep(mid[i]));
            assert(comes_from(mid[i], bs, i, cap));
            if cta_cap::has_extended_tag(mid[i], 15) {
                assert forall|j: int| 0 <= j < bs.len() && (#[trigger] bs[j]).0 == 2 implies
                    bs[j].1.filter(svd_within(cap)).len() == 0 by {
                    assert(comes_from(mid[j], bs, j, cap));
                    assert(mid[j].0 == 2);
                }
            }
        }
        from
    } else {
        let from = Seq::new(bs.len(), |i: int| i);
        cta_laws::lemma_settled_blocks(bs, cap);
        assert forall|k: int| 0 <= k < new.len() implies comes_from(
            #[trigger] new[k],
            bs,
            from[k],
            cap,
        ) by {
            assert(comes_from(mid[k], bs, k, cap));
        }
        assert forall|i: int| 0 <= i < bs.len() && !from.contains(i) implies is_used_up(
            #[trigger] bs[i],
            bs,
            cap,
        ) by {
            assert(from[i] == i);
        }
        from
    }
}

/// The data blocks of a capped CTA-861 block are those of the original, in the same order: video
/// data blocks lose exactly the descriptors, and YCbCr 4:2:0 video data blocks exactly the
/// codes, that are above the cap; a capability map says of each descriptor that stays what it
/// said before; a block goes only when nothing is left of it, and a capability map only when
/// there is no descriptor left that it could be for.
pub proof fn law_cap_keeps_data_blocks(bytes: Seq<u8>, opts: CapOptions, k: int)
    requires
        cap::accepted(bytes, opts),
        cap::cap_fits(bytes, opts),
        1 <= k < bytes.len() / 128,
        bytes[128 * k] == 0x02,
    ensures
        exists|from: Seq<int>|
            #[trigger] data_becomes(
                cta::cta_content(bytes.subrange(128 * k, 128 * k + 128)).data_blocks,
                cta::cta_content(
                    cap::cap_content(bytes, opts).bytes.subrange(128 * k, 128 * k + 128),
                ).data_blocks,
                from,
                opts.max_hz,
            ),
{
    lemma_written_cta(bytes, opts, k);
    let from = lemma_data_becomes(cta::cta_content(block::block_at(bytes, k)), opts.max_hz);
}

/// The detailed timings of a capped CTA-861 block are exactly those of the original that are not
/// above the cap, byte for byte and in the same order.
pub proof fn law_cap_keeps_dtds(bytes: Seq<u8>, opts: CapOptions, k: int)
    requires
        cap::accepted(bytes, opts),
        cap::cap_fits(bytes, opts),
        laws::fits_well(bytes, opts),
        1 <= k < bytes.len() / 128,
        bytes[128 * k] == 0x02,
    ensures
        cta::cta_content(
            cap::cap_content(bytes, opts).bytes.subrange(128 * k, 128 * k + 128),
        ).dtds == cta::cta_content(bytes.subrange(128 * k, 128 * k + 128)).dtds.filter(
            dtd_within(opts.max_hz),
        ),
{
    let blk = block::block_at(bytes, k);
    let ds = cta::cta_content(blk).dtds;
    lemma_written_cta(bytes, opts, k);
    assert(laws::extension_fits_well(blk, opts.max_hz));
    decode_laws::law_cta_dtds(blk);
    assert forall|i: int| 0 <= i < ds.len() implies cta_cap::dtd_stays(opts.max_hz)(
        #[trigger] ds[i],
    ) == dtd_within(opts.max_hz)(ds[i]) by {
        assert(decode_laws::dtd_at(ds[i], blk, blk[2] + 18 * i));
        lemma_dtd_within(ds[i], opts.max_hz);
    }
    lemma_same_filter(ds, cta_cap::dtd_stays(opts.max_hz), dtd_within(opts.max_hz));
    seqs::lemma_filter_same_len(ds, cta_cap::dtd_stays(opts.max_hz));
}

pub proof fn lemma_same_filter<A>(s: Seq<A>, p: spec_fn(A) -> bool, q: spec_fn(A) -> bool)
    requires
        forall|i: int| 0 <= i < s.len() ==> p(#[trigger] s[i]) == q(s[i]),
    ensures
        s.filter(p) == s.filter(q),
    decreases s.len(),
{
    reveal(Seq::filter);
    if s.len() > 0 {
        let t = s.drop_last();
        assert forall|i: int| 0 <= i < t.len() implies p(#[trigger] t[i]) == q(t[i]) by {
            assert(t[i] == s[i]);
        }
        lemma_same_filter(t, p, q);
        assert(p(s[s.len() - 1]) == q(s[s.len() - 1]));
    }
}

// ---------------------------------------------------------------------------
// DisplayID blocks.

/// Whether a DisplayID data block holds no timings: its tag is neither 0x03 nor 0x22.
pub open spec fn is_no_timing() -> spec_fn((u8, u8, Seq<u8>)) -> bool {
    |b: (u8, u8, Seq<u8>)| b.0 != 0x03 && b.0 != 0x22
}

/// Whether the descriptor at `p` of the payload `d` of a data block with the given tag is above
/// the cap.
pub open spec fn descriptor_over(tag: u8, d: Seq<u8>, p: int, cap: Hz) -> bool {
    is_over(
        (if tag == 0x22 {
            1_000int
        } else {
            10_000int
        }) * (1 + d[p] + 256 * d[p + 1] + 65536 * d[p + 2]),
        (2 + d[p + 4] + 256 * d[p + 5] + d[p + 6] + 256 * d[p + 7]) * (2 + d[p + 12] + 256 * d[p
            + 13] + d[p + 14] + 256 * d[p + 15]),
        cap,
    )
}

proof fn lemma_no_timing_sections(bs: Seq<(u8, u8, Seq<u8>)>, cap: Hz)
    ensures
        displayid_cap::trimmed_sections(bs, cap).filter(is_no_timing()) == bs.filter(
            is_no_timing(),
        ),
    decreases bs.len(),
{
    reveal(Seq::filter);
    if bs.len() > 0 {
        let init = bs.drop_last();
        let b = bs.last();
        let before = displayid_cap::trimmed_sections(init, cap);
        lemma_no_timing_sections(init, cap);
        assert(before.push(b).drop_last() =~= before);
        assert(before.push(displayid_cap::trimmed_section(b, cap)).drop_last() =~= before);
    }
}

/// What a capped DisplayID block says: only a last data block with neither tag nor payload may
/// go, because it looks like the end of the list.
pub proof fn lemma_written_displayid(bytes: Seq<u8>, opts: CapOptions, k: int)
    requires
        cap::accepted(bytes, opts),
        cap::cap_fits(bytes, opts),
        1 <= k < bytes.len() / 128,
        bytes[128 * k] == 0x70,
    ensures
        ({
            let old = displayid::displayid_content(block::block_at(bytes, k));
            let new = displayid::displayid_content(
                block::block_at(cap::cap_content(bytes, opts).bytes, k),
            );
            &&& new.version == old.version
            &&& new.product_type == old.product_type
            &&& new.ext_count == old.ext_count
            &&& new.blocks == old.blocks || new.blocks == displayid::without_blank_end(
                displayid_cap::trimmed_sections(old.blocks, opts.max_hz),
            )
            &&& block::block_at(cap::cap_content(bytes, opts).bytes, k)[0] == 0x70
        }),
{
    let blk = block::block_at(bytes, k);
    let out = cap::cap_content(bytes, opts).bytes;
    laws::lemma_capped_blocks(bytes, opts);
    assert(blk[0] == bytes[128 * k]);
    assert(block::block_at(out, k) == cap::capped_extension(blk, k as usize, opts.max_hz));
    assert(cap::extension_fits(blk, opts.max_hz));
    if cap::extension_dropped(blk, k as usize, opts.max_hz).len() > 0 {
        let c = displayid::displayid_content(blk);
        displayid::lemma_parsed_displayid_regular(blk);
        displayid_cap::lemma_capped_displayid_regular(c, opts.max_hz);
        displayid::law_displayid_round_trip(displayid_cap::capped_displayid(c, opts.max_hz));
    }
}

/// In a capped DisplayID block the data blocks that hold no timings are exactly those of the
/// original, payloads included, in the same order; only a last one with neither tag nor payload
/// may be missing. Its version, its product type and its extension count stay.
pub proof fn law_cap_keeps_displayid_data(bytes: Seq<u8>, opts: CapOptions, k: int)
    requires
        cap::accepted(bytes, opts),
        cap::cap_fits(bytes, opts),
        1 <= k < bytes.len() / 128,
        bytes[128 * k] == 0x70,
    ensures
        ({
            let old = displayid::displayid_content(bytes.subrange(128 * k, 128 * k + 128));
            let new = displayid::displayid_content(
                cap::cap_content(bytes, opts).bytes.subrange(128 * k, 128 * k + 128),
            );
            let before = old.blocks.filter(is_no_timing());
            let after = new.blocks.filter(is_no_timing());
            &&& new.version == old.version
            &&& new.product_type == old.product_type
            &&& new.ext_count == old.ext_count
            &&& after == before || (before.len() > 0 && before.last().0 == 0
                && before.last().2.len() == 0 && after == before.drop_last())
        }),
{
    let old = displayid::displayid_content(block::block_at(bytes, k)).blocks;
    let mid = displayid_cap::trimmed_sections(old, opts.max_hz);
    lemma_written_displayid(bytes, opts, k);
    lemma_no_timing_sections(old, opts.max_hz);
    reveal(Seq::filter);
    if mid.len() > 0 && displayid::is_blank(mid.last()) {
        assert(mid.filter(is_no_timing()).drop_last() =~= mid.drop_last().filter(is_no_timing()));
        assert(mid.filter(is_no_timing()).last() == mid.last());
    }
}

/// Whether the DisplayID block `blk` has a descriptor `j` in its data block `s`, which has the
/// tag 0x03 or 0x22.
pub open spec fn has_descriptor(blk: Seq<u8>, s: int, j: int) -> bool {
    let bs = displayid::displayid_content(blk).blocks;
    &&& blk[0] == 0x70
    &&& 0 <= s < bs.len()
    &&& bs[s].0 == 0x03 || bs[s].0 == 0x22
    &&& 0 <= j < bs[s].2.len() as int / decode_laws::descriptor_size(bs[s].0, bs[s].1)
}

/// Whether descriptor `j` in data block `s` of the DisplayID block `blk` is above the cap.
pub open spec fn has_descriptor_over(blk: Seq<u8>, s: int, j: int, cap: Hz) -> bool {
    let b = displayid::displayid_content(blk).blocks[s];
    descriptor_over(b.0, b.2, decode_laws::descriptor_size(b.0, b.1) * j, cap)
}

proof fn lemma_descriptor_timing(blk: Seq<u8>, n: usize, s: int, j: int, cap: Hz) -> (at: int)
    requires
        has_descriptor(blk, s, j),
    ensures
        0 <= at < edid::extension_timings(blk, n).len(),
        edid::extension_timings(blk, n)[at].refresh_hz.above(cap) == has_descriptor_over(
            blk,
            s,
            j,
            cap,
        ),
{
    let bs = displayid::displayid_content(blk).blocks;
    let at = decode_laws::descriptors_before(bs, s) + j;
    let t = displayid::displayid_timings(bs, n)[at];
    decode_laws::law_displayid_timing(bs, n, s, j);
    law_timing_above(t, cap);
    at
}

/// No timing descriptor is left in a capped EDID whose pixel clock over its whole frame is above
/// the cap: not in any data block with the tag 0x03 or 0x22 of any DisplayID block.
pub proof fn law_cap_leaves_no_displayid_timing_above(
    bytes: Seq<u8>,
    opts: CapOptions,
    k: int,
    s: int,
    j: int,
)
    requires
        cap::accepted(bytes, opts),
        cap::cap_fits(bytes, opts),
        1 <= k < bytes.len() / 128,
        has_descriptor(
            cap::cap_content(bytes, opts).bytes.subrange(128 * k, 128 * k + 128),
            s,
            j,
        ),
    ensures
        !has_descriptor_over(
            cap::cap_content(bytes, opts).bytes.subrange(128 * k, 128 * k + 128),
            s,
            j,
            opts.max_hz,
        ),
{
    let blk = block::block_at(cap::cap_content(bytes, opts).bytes, k);
    let at = lemma_descriptor_timing(blk, k as usize, s, j, opts.max_hz);
    lemma_left_within(bytes, opts, k, at);
}

/// A timing descriptor above the cap in a data block with the tag 0x03 or 0x22 of a DisplayID
/// block is reported as dropped.
pub proof fn law_cap_drops_displayid_timings(
    bytes: Seq<u8>,
    opts: CapOptions,
    k: int,
    s: int,
    j: int,
)
    requires
        cap::accepted(bytes, opts),
        1 <= k < bytes.len() / 128,
        has_descriptor(bytes.subrange(128 * k, 128 * k + 128), s, j),
        has_descriptor_over(bytes.subrange(128 * k, 128 * k + 128), s, j, opts.max_hz),
    ensures
        ({
            let bs = displayid::displayid_content(bytes.subrange(128 * k, 128 * k + 128)).blocks;
            cta_cap::has_source(
                cap::cap_content(bytes, opts).dropped,
                TimingSource::DisplayId {
                    block: k as usize,
                    index: (decode_laws::descriptors_before(bs, s) + j) as usize,
                },
            )
        }),
{
    let blk = block::block_at(bytes, k);
    let bs = displayid::displayid_content(blk).blocks;
    let ts = displayid::displayid_timings(bs, k as usize);
    let at = decode_laws::descriptors_before(bs, s) + j;
    let above = cta_cap::is_above(opts.max_hz);
    decode_laws::law_displayid_timing(bs, k as usize, s, j);
    law_timing_above(ts[at], opts.max_hz);
    ts.lemma_filter_contains(above, at);
    let there = cap::extension_dropped(blk, k as usize, opts.max_hz);
    assert(there == ts.filter(above));
    let i = choose|i: int| 0 <= i < there.len() && there[i] == ts[at];
    let first = lemma_dropped_at(bytes, opts.max_hz, block::block_count(bytes), k);
    assert(cap::all_dropped(bytes, opts.max_hz)[first + i] == there[i]);
}

/// No timing of an extension block of a capped EDID is above the cap.
#[verifier::rlimit(30)]
proof fn lemma_left_within(bytes: Seq<u8>, opts: CapOptions, k: int, i: int)
    requires
        cap::accepted(bytes, opts),
        cap::cap_fits(bytes, opts),
        1 <= k < bytes.len() / 128,
        0 <= i < edid::extension_timings(
            block::block_at(cap::cap_content(bytes, opts).bytes, k),
            k as usize,
        ).len(),
    ensures
        !edid::extension_timings(
            block::block_at(cap::cap_content(bytes, opts).bytes, k),
            k as usize,
        )[i].refresh_hz.above(opts.max_hz),
{
    let out = cap::cap_content(bytes, opts).bytes;
    laws::lemma_capped_blocks(bytes, opts);
    laws::law_cap_leaves_nothing_above(bytes, opts);
    let n = block::block_count(bytes);
    let at = lemma_timings_within(out, n, k);
    assert(block::block_count(out) == n);
    let ts = edid::all_timings(out);
    let p = edid::base_timings(out, 4).len() + at + i;
    assert(ts[p] == edid::extensions_timings(out, n)[at + i]);
    assert(!ts[p].refresh_hz.above(opts.max_hz));
}

/// Where the timings of block `k` stand among those of all extension blocks.
proof fn lemma_timings_within(bytes: Seq<u8>, n: nat, k: int) -> (at: int)
    requires
        1 <= k < n,
    ensures
        0 <= at,
        at + edid::extension_timings(block::block_at(bytes, k), k as usize).len()
            <= edid::extensions_timings(bytes, n).len(),
        forall|i: int|
            0 <= i < edid::extension_timings(block::block_at(bytes, k), k as usize).len()
                ==> edid::extensions_timings(bytes, n)[at + i] == #[trigger] edid::extension_timings(
                block::block_at(bytes, k),
                k as usize,
            )[i],
    decreases n,
{
    let before = edid::extensions_timings(bytes, (n - 1) as nat);
    if k == n - 1 {
        before.len() as int
    } else {
        lemma_timings_within(bytes, (n - 1) as nat, k)
    }
}

/// The whole descriptors of a DisplayID data block of timings.
pub open spec fn descriptors_of(b: (u8, u8, Seq<u8>)) -> Seq<Seq<u8>> {
    let size = decode_laws::descriptor_size(b.0, b.1);
    Seq::new(
        (b.2.len() as int / size) as nat,
        |j: int| b.2.subrange(size * j, size * j + size),
    )
}

/// Whether a descriptor of a data block with the given tag is not above the cap.
pub open spec fn descriptor_within(tag: u8, cap: Hz) -> spec_fn(Seq<u8>) -> bool {
    |d: Seq<u8>| !descriptor_over(tag, d, 0, cap)
}

/// What becomes of a DisplayID data block: one without timings stays as it is, one with timings
/// loses exactly the descriptors above the cap.
pub open spec fn section_becomes(old: (u8, u8, Seq<u8>), new: (u8, u8, Seq<u8>), cap: Hz) -> bool {
    &&& new.0 == old.0
    &&& new.1 == old.1
    &&& if old.0 == 0x03 || old.0 == 0x22 {
        descriptors_of(new) == descriptors_of(old).filter(descriptor_within(old.0, cap))
    } else {
        new == old
    }
}

/// Whether nothing is left of a DisplayID data block: no descriptor, or it had neither tag nor
/// payload.
pub open spec fn is_spent(b: (u8, u8, Seq<u8>), cap: Hz) -> bool {
    if b.0 == 0x03 || b.0 == 0x22 {
        descriptors_of(b).filter(descriptor_within(b.0, cap)).len() == 0
    } else {
        b.0 == 0 && b.2.len() == 0
    }
}

/// Whether the data blocks `new` are what becomes of the data blocks `old`, in the same order,
/// without those of which nothing is left.
pub open spec fn sections_become(
    old: Seq<(u8, u8, Seq<u8>)>,
    new: Seq<(u8, u8, Seq<u8>)>,
    from: Seq<int>,
    cap: Hz,
) -> bool {
    &&& from.len() == new.len()
    &&& forall|k: int|
        0 <= k < new.len() ==> section_comes_from(#[trigger] new[k], old, from[k], cap)
    &&& forall|a: int, b: int|
        #![trigger from[a], from[b]]
        0 <= a < b < from.len() ==> from[a] < from[b]
    &&& forall|i: int| 0 <= i < old.len() && !from.contains(i) ==> is_spent(#[trigger] old[i], cap)
}

/// Whether `new` is what becomes of block `i` of `old`.
pub open spec fn section_comes_from(
    new: (u8, u8, Seq<u8>),
    old: Seq<(u8, u8, Seq<u8>)>,
    i: int,
    cap: Hz,
) -> bool {
    0 <= i < old.len() && section_becomes(old[i], new, cap)
}

pub proof fn lemma_descriptors_of(b: (u8, u8, Seq<u8>))
    requires
        b.0 == 0x03 || b.0 == 0x22,
    ensures
        displayid::block_entries(b) == descriptors_of(b),
{
    let size = decode_laws::descriptor_size(b.0, b.1);
    let all = displayid::block_entries(b);
    decode_laws::lemma_piece_count(b.2, size as nat);
    assert forall|j: int| 0 <= j < all.len() implies #[trigger] all[j] == descriptors_of(b)[j] by {
        decode_laws::lemma_piece(b.2, size as nat, j);
    }
    assert(all =~= descriptors_of(b));
}

proof fn lemma_descriptor_within(d: Seq<u8>, tag: u8, cap: Hz)
    requires
        d.len() >= 20,
        tag == 0x03 || tag == 0x22,
    ensures
        displayid_cap::piece_stays(tag, cap)(d) == descriptor_within(tag, cap)(d),
{
    let t = timing::displayid_mode(
        d,
        timing::clock_unit(tag),
        TimingSource::BaseDtd { index: 0 },
    );
    decode_laws::lemma_rate_follows(t);
    law_timing_above(t, cap);
}

pub proof fn lemma_section_becomes(b: (u8, u8, Seq<u8>), cap: Hz)
    requires
        b.0 == 0x03 || b.0 == 0x22,
    ensures
        section_becomes(b, displayid_cap::trimmed_section(b, cap), cap),
        displayid_cap::trimmed_section(b, cap).2.len() == 0 ==> is_spent(b, cap),
{
    let new = displayid_cap::trimmed_section(b, cap);
    let size = decode_laws::descriptor_size(b.0, b.1);
    let all = descriptors_of(b);
    lemma_descriptors_of(b);
    lemma_descriptors_of(new);
    displayid_laws::lemma_trimmed_entries(b, cap);
    assert forall|j: int| 0 <= j < all.len() implies displayid_cap::piece_stays(b.0, cap)(
        #[trigger] all[j],
    ) == descriptor_within(b.0, cap)(all[j]) by {
        decode_laws::lemma_piece_count(b.2, size as nat);
        decode_laws::lemma_piece(b.2, size as nat, j);
        lemma_descriptor_within(all[j], b.0, cap);
    }
    lemma_same_filter(all, displayid_cap::piece_stays(b.0, cap), descriptor_within(b.0, cap));
}

proof fn lemma_sections_become(bs: Seq<(u8, u8, Seq<u8>)>, cap: Hz) -> (from: Seq<int>)
    ensures
        sections_become(bs, displayid_cap::trimmed_sections(bs, cap), from, cap),
        forall|k: int| 0 <= k < from.len() ==> 0 <= #[trigger] from[k] < bs.len(),
    decreases bs.len(),
{
    let new = displayid_cap::trimmed_sections(bs, cap);
    if bs.len() == 0 {
        Seq::empty()
    } else {
        let init = bs.drop_last();
        let n = init.len() as int;
        let b = bs.last();
        let before = displayid_cap::trimmed_sections(init, cap);
        let earlier = lemma_sections_become(init, cap);
        if b.0 == 0x03 || b.0 == 0x22 {
            lemma_section_becomes(b, cap);
        }
        let from = if new.len() > before.len() {
            earlier.push(n)
        } else {
            earlier
        };
        assert forall|k: int| 0 <= k < new.len() implies section_comes_from(
            #[trigger] new[k],
            bs,
            from[k],
            cap,
        ) by {
            if k < before.len() {
                assert(section_comes_from(before[k], init, earlier[k], cap));
                assert(init[earlier[k]] == bs[earlier[k]]);
            }
        }
        assert forall|i: int| 0 <= i < bs.len() && !from.contains(i) implies is_spent(
            #[trigger] bs[i],
            cap,
        ) by {
            if i < n {
                assert(init[i] == bs[i]);
                if earlier.contains(i) {
                    let a = choose|a: int| 0 <= a < earlier.len() && earlier[a] == i;
                    assert(from[a] == i);
                }
            } else if new.len() > before.len() {
                assert(from[earlier.len() as int] == i);
            }
        }
        from
    }
}

proof fn lemma_unchanged_sections(blk: Seq<u8>, n: usize, cap: Hz) -> (from: Seq<int>)
    requires
        blk[0] == 0x70,
        cap::extension_dropped(blk, n, cap).len() == 0,
    ensures
        sections_become(
            displayid::displayid_content(blk).blocks,
            displayid::displayid_content(blk).blocks,
            from,
            cap,
        ),
{
    let bs = displayid::displayid_content(blk).blocks;
    let from = Seq::new(bs.len(), |i: int| i);
    laws::lemma_untouched_extension(blk, n, cap);
    assert forall|k: int| 0 <= k < bs.len() implies section_comes_from(
        #[trigger] bs[k],
        bs,
        from[k],
        cap,
    ) by {
        let b = bs[k];
        if b.0 == 0x03 || b.0 == 0x22 {
            let size = decode_laws::descriptor_size(b.0, b.1);
            let all = descriptors_of(b);
            assert forall|j: int| 0 <= j < all.len() implies descriptor_within(b.0, cap)(
                #[trigger] all[j],
            ) by {
                let at = decode_laws::descriptors_before(bs, k) + j;
                let t = edid::extension_timings(blk, n)[at];
                decode_laws::law_displayid_timing(bs, n, k, j);
                decode_laws::lemma_piece_count(b.2, size as nat);
                decode_laws::lemma_piece(b.2, size as nat, j);
                law_timing_above(t, cap);
                assert(!t.refresh_hz.above(cap));
                let p = size * j;
                let d = all[j];
                assert(d[0] == b.2[p] && d[1] == b.2[p + 1] && d[2] == b.2[p + 2]);
                assert(d[4] == b.2[p + 4] && d[5] == b.2[p + 5]);
                assert(d[6] == b.2[p + 6] && d[7] == b.2[p + 7]);
                assert(d[12] == b.2[p + 12] && d[13] == b.2[p + 13]);
                assert(d[14] == b.2[p + 14] && d[15] == b.2[p + 15]);
            }
            seqs::lemma_filter_same_len(all, descriptor_within(b.0, cap));
        }
    }
    assert forall|i: int| 0 <= i < bs.len() && !from.contains(i) implies is_spent(
        #[trigger] bs[i],
        cap,
    ) by {
        assert(from[i] == i);
    }
    from
}

/// The data blocks of a capped DisplayID block are those of the original, in the same order:
/// those with timings lose exactly the descriptors above the cap, the others stay as they are,
/// and a block goes only when nothing is left of it.
#[verifier::rlimit(30)]
pub proof fn law_cap_keeps_sections(bytes: Seq<u8>, opts: CapOptions, k: int)
    requires
        cap::accepted(bytes, opts),
        cap::cap_fits(bytes, opts),
        1 <= k < bytes.len() / 128,
        bytes[128 * k] == 0x70,
    ensures
        exists|from: Seq<int>|
            #[trigger] sections_become(
                displayid::displayid_content(bytes.subrange(128 * k, 128 * k + 128)).blocks,
                displayid::displayid_content(
                    cap::cap_content(bytes, opts).bytes.subrange(128 * k, 128 * k + 128),
                ).blocks,
                from,
                opts.max_hz,
            ),
{
    let cap = opts.max_hz;
    let blk = block::block_at(bytes, k);
    let out = block::block_at(cap::cap_content(bytes, opts).bytes, k);
    laws::lemma_capped_blocks(bytes, opts);
    assert(blk[0] == bytes[128 * k]);
    assert(out == cap::capped_extension(blk, k as usize, cap));
    if cap::extension_dropped(blk, k as usize, cap).len() == 0 {
        let from = lemma_unchanged_sections(blk, k as usize, cap);
        assert(out == blk);
    } else {
        let c = displayid::displayid_content(blk);
        let mid = displayid_cap::trimmed_sections(c.blocks, cap);
        let new = displayid::displayid_content(out).blocks;
        let from = lemma_sections_become(c.blocks, cap);
        displayid::lemma_parsed_displayid_regular(blk);
        displayid_cap::lemma_capped_displayid_regular(c, cap);
        displayid::law_displayid_round_trip(displayid_cap::capped_displayid(c, cap));
        if mid.len() > 0 && displayid::is_blank(mid.last()) {
            let less = from.drop_last();
            let last = from.last();
            assert(section_comes_from(mid[mid.len() - 1], c.blocks, last, cap));
            assert forall|i: int| 0 <= i < c.blocks.len() && !less.contains(i) implies is_spent(
                #[trigger] c.blocks[i],
                cap,
            ) by {
                if from.contains(i) {
                    let a = choose|a: int| 0 <= a < from.len() && from[a] == i;
                    if a < less.len() {
                        assert(less[a] == i);
                    }
                }
            }
            assert forall|j: int| 0 <= j < new.len() implies section_comes_from(
                #[trigger] new[j],
                c.blocks,
                less[j],
                cap,
            ) by {
                assert(section_comes_from(mid[j], c.blocks, from[j], cap));
            }
            assert(sections_become(c.blocks, new, less, cap));
        } else {
            assert(sections_become(c.blocks, new, from, cap));
        }
    }
}

// ---------------------------------------------------------------------------
// The base block and the EDID as a whole.

/// In the base block of a capped EDID, nothing changes before the descriptors, and the number of
/// extension blocks stays. A descriptor, other than the first, that is a timing above the cap
/// gives way to a dummy descriptor (tag 0x10); the others stay as they are, but for the rates
/// and the pixel clock in the range limits.
pub proof fn law_cap_keeps_the_base_block(bytes: Seq<u8>, opts: CapOptions, i: int, m: int)
    requires
        cap::accepted(bytes, opts),
        cap::cap_fits(bytes, opts),
        0 <= i < 4,
        0 <= m < 18,
    ensures
        ({
            let out = cap::cap_content(bytes, opts).bytes;
            let at = 54 + 18 * i;
            &&& out.len() == bytes.len()
            &&& out.subrange(0, 54) == bytes.subrange(0, 54)
            &&& out[126] == bytes[126]
            &&& if !dtd_within(opts.max_hz)(bytes.subrange(at, at + 18)) {
                i > 0 && out[at + m] == if m == 3 {
                    0x10u8
                } else {
                    0u8
                }
            } else {
                out[at + m] == bytes[at + m] || (decode_laws::is_last_descriptor(bytes, i, 0xfd) && (m == 4 || m == 6 || m
                    == 9))
            }
        }),
{
    let out = cap::cap_content(bytes, opts).bytes;
    let at = 54 + 18 * i;
    let d = edid::descriptor(bytes, i);
    let new = edid::descriptor(out, i);
    laws::lemma_capped_blocks(bytes, opts);
    laws::lemma_capped_descriptor(bytes, opts, i);
    decode_laws::lemma_last_descriptor(bytes, i, 0xfd);
    lemma_dtd_within(d, opts.max_hz);
    cta_cap::lemma_dtd_above(d, TimingSource::BaseDtd { index: i as usize }, opts.max_hz);
    assert(out.subrange(0, 54) =~= bytes.subrange(0, 54));
    assert(new[m] == out[at + m]);
    assert(d[m] == bytes[at + m]);
    assert(d =~= bytes.subrange(at, at + 18));
}

/// An EDID is refused because of its preferred timing exactly when the first descriptor of its
/// base block is a timing above the cap.
pub proof fn law_preferred_above(bytes: Seq<u8>, cap: Hz)
    requires
        bytes.len() >= 128,
    ensures
        cap::preferred_above(bytes, cap) <==> !dtd_within(cap)(bytes.subrange(54, 72)),
{
    let d = edid::descriptor(bytes, 0);
    assert(d =~= bytes.subrange(54, 72));
    lemma_dtd_within(d, cap);
    cta_cap::lemma_dtd_above(d, TimingSource::BaseDtd { index: 0 }, cap);
}

/// An EDID is capped exactly when the cap is a positive number, the EDID is valid, and the first
/// descriptor of its base block is no timing above the cap.
pub proof fn law_accepted(bytes: Seq<u8>, opts: CapOptions)
    ensures
        cap::accepted(bytes, opts) <==> opts.max_hz.num > 0 && opts.max_hz.den > 0 && block::valid(
            bytes,
        ) && dtd_within(opts.max_hz)(bytes.subrange(54, 72)),
{
    if block::valid(bytes) {
        law_preferred_above(bytes, opts.max_hz);
    }
}

/// A capped EDID is valid and as long as the original. A block that is neither CTA-861 (0x02)
/// nor DisplayID (0x70) stays byte for byte, and each block stays of its kind.
#[verifier::rlimit(30)]
pub proof fn law_cap_keeps_other_blocks(bytes: Seq<u8>, opts: CapOptions, k: int)
    requires
        cap::accepted(bytes, opts),
        cap::cap_fits(bytes, opts),
        1 <= k < bytes.len() / 128,
    ensures
        ({
            let out = cap::cap_content(bytes, opts).bytes;
            &&& block::valid(out)
            &&& out.len() == bytes.len()
            &&& out[128 * k] == bytes[128 * k]
            &&& bytes[128 * k] != 0x02 && bytes[128 * k] != 0x70 ==> out.subrange(
                128 * k,
                128 * k + 128,
            ) == bytes.subrange(128 * k, 128 * k + 128)
        }),
{
    let out = cap::cap_content(bytes, opts).bytes;
    let blk = block::block_at(bytes, k);
    laws::lemma_capped_blocks(bytes, opts);
    assert(block::block_at(out, k) == cap::capped_extension(blk, k as usize, opts.max_hz));
    assert(cap::extension_fits(blk, opts.max_hz));
    cap::lemma_capped_extension(blk, k as usize, opts.max_hz);
    assert(blk[0] == bytes[128 * k]);
    assert(block::block_at(out, k)[0] == out[128 * k]);
}

/// Whether an extension block advertises no timing and no YCbCr 4:2:0 code above the cap.
pub open spec fn is_clean(blk: Seq<u8>, n: usize, cap: Hz) -> bool {
    &&& laws::codes_within(blk, cap)
    &&& forall|i: int|
        0 <= i < edid::extension_timings(blk, n).len() ==> !(#[trigger] edid::extension_timings(
            blk,
            n,
        )[i]).refresh_hz.above(cap)
}

proof fn lemma_clean_cta(blk: Seq<u8>, n: usize, cap: Hz)
    requires
        blk[0] == 0x02,
        is_clean(blk, n, cap),
    ensures
        cap::capped_extension(blk, n, cap) == blk,
{
    let c = cta::cta_content(blk);
    let codes = cta_cap::y420_codes(c);
    let ts = cta::cta_timings(c, n);
    assert(ts == edid::extension_timings(blk, n));
    assert forall|i: int| 0 <= i < codes.len() implies cta_cap::code_stays(cap)(#[trigger] codes[i]) by {
        assert(!cta_cap::code_above(cta_cap::y420_codes(c)[i], cap));
    }
    cta_laws::lemma_within_cta_unchanged(c, n, cap);
}

proof fn lemma_clean_displayid(blk: Seq<u8>, n: usize, cap: Hz)
    requires
        blk[0] == 0x70,
        is_clean(blk, n, cap),
    ensures
        cap::capped_extension(blk, n, cap) == blk,
{
    let ts = displayid::displayid_timings(displayid::displayid_content(blk).blocks, n);
    assert(ts == edid::extension_timings(blk, n));
    cta_laws::lemma_none_above(ts, cap);
}

/// A block that advertises no timing and no YCbCr 4:2:0 code above the cap stays byte for byte.
pub proof fn law_cap_keeps_clean_blocks(bytes: Seq<u8>, opts: CapOptions, k: int)
    requires
        cap::accepted(bytes, opts),
        cap::cap_fits(bytes, opts),
        1 <= k < bytes.len() / 128,
        is_clean(bytes.subrange(128 * k, 128 * k + 128), k as usize, opts.max_hz),
    ensures
        cap::cap_content(bytes, opts).bytes.subrange(128 * k, 128 * k + 128) == bytes.subrange(
            128 * k,
            128 * k + 128,
        ),
{
    let blk = block::block_at(bytes, k);
    laws::lemma_capped_blocks(bytes, opts);
    assert(block::block_at(cap::cap_content(bytes, opts).bytes, k) == cap::capped_extension(
        blk,
        k as usize,
        opts.max_hz,
    ));
    if blk[0] == 0x02 {
        lemma_clean_cta(blk, k as usize, opts.max_hz);
    } else if blk[0] == 0x70 {
        lemma_clean_displayid(blk, k as usize, opts.max_hz);
    }
}

/// A cap is reported as changing nothing exactly when the capped EDID is the original.
pub proof fn law_unchanged(bytes: Seq<u8>, opts: CapOptions)
    ensures
        cap::cap_content(bytes, opts).unchanged <==> cap::cap_content(bytes, opts).bytes == bytes,
{
}

/// A timing of an EDID that is not above the cap is one of the capped EDID too, and a capped EDID
/// has no other timings.
pub proof fn law_capped_timings(bytes: Seq<u8>, opts: CapOptions)
    requires
        cap::accepted(bytes, opts),
        laws::fits_well(bytes, opts),
    ensures
        ({
            let old = edid::edid_content(bytes).timings;
            let new = edid::edid_content(cap::cap_content(bytes, opts).bytes).timings;
            &&& forall|i: int|
                0 <= i < old.len() && !(#[trigger] old[i]).refresh_hz.above(opts.max_hz)
                    ==> is_among(old[i], new)
            &&& forall|i: int|
                0 <= i < new.len() ==> !(#[trigger] new[i]).refresh_hz.above(opts.max_hz)
                    && is_among(new[i], old)
        }),
{
    let old = edid::all_timings(bytes);
    let new = edid::all_timings(cap::cap_content(bytes, opts).bytes);
    let within = cta_cap::is_within(opts.max_hz);
    let left = old.filter(within);
    laws::law_cap_keeps_what_is_within(bytes, opts);
    assert(cta_laws::modes(new) == cta_laws::modes(left));
    assert(new.len() == cta_laws::modes(new).len() && left.len() == cta_laws::modes(left).len());
    assert forall|i: int| 0 <= i < old.len() && !(#[trigger] old[i]).refresh_hz.above(opts.max_hz)
        implies is_among(old[i], new) by {
        assert(within(old[i]));
        old.lemma_filter_contains(within, i);
        let j = choose|j: int| 0 <= j < left.len() && left[j] == old[i];
        assert(cta_laws::modes(left)[j] == left[j].mode());
        assert(cta_laws::modes(new)[j] == new[j].mode());
        assert(same_mode(old[i], new[j]));
    }
    seqs::lemma_filter_kept(old, within);
    assert forall|i: int| 0 <= i < new.len() implies !(#[trigger] new[i]).refresh_hz.above(
        opts.max_hz,
    ) && is_among(new[i], old) by {
        assert(cta_laws::modes(left)[i] == left[i].mode());
        assert(cta_laws::modes(new)[i] == new[i].mode());
        assert(within(left[i]));
        assert(old.contains(left[i]));
        let j = choose|j: int| 0 <= j < old.len() && old[j] == left[i];
        assert(same_mode(new[i], old[j]));
    }
}

/// Whether two timings are the same but for where they stand.
pub open spec fn same_mode(a: Timing, b: Timing) -> bool {
    &&& a.h_active == b.h_active
    &&& a.v_active == b.v_active
    &&& a.h_total == b.h_total
    &&& a.v_total == b.v_total
    &&& a.pixel_clock_hz == b.pixel_clock_hz
    &&& a.refresh_hz == b.refresh_hz
    &&& a.interlaced == b.interlaced
}

/// Whether one of the timings is `t`, wherever it stands.
pub open spec fn is_among(t: Timing, ts: Seq<Timing>) -> bool {
    exists|j: int| 0 <= j < ts.len() && same_mode(t, #[trigger] ts[j])
}

// ---------------------------------------------------------------------------
// The report.

/// Every YCbCr 4:2:0 code above the cap is reported as dropped, with the block that it stands in.
pub proof fn law_cap_reports_420_codes(bytes: Seq<u8>, opts: CapOptions, k: int, b: int, i: int)
    requires
        1 <= k < bytes.len() / 128,
        bytes[128 * k] == 0x02,
        ({
            let bs = cta::cta_content(bytes.subrange(128 * k, 128 * k + 128)).data_blocks;
            &&& 0 <= b < bs.len()
            &&& bs[b].0 == 7
            &&& 1 <= i < bs[b].1.len()
            &&& bs[b].1[0] == 14
            &&& !code_within(opts.max_hz)(bs[b].1[i])
        }),
    ensures
        ({
            let bs = cta::cta_content(bytes.subrange(128 * k, 128 * k + 128)).data_blocks;
            cta_cap::has_source(
                cap::cap_content(bytes, opts).dropped,
                TimingSource::CtaVic { block: k as usize, vic: bs[b].1[i] },
            )
        }),
{
    let blk = block::block_at(bytes, k);
    let c = cta::cta_content(blk);
    let vic = c.data_blocks[b].1[i];
    let source = TimingSource::CtaVic { block: k as usize, vic };
    assert(blk[0] == bytes[128 * k]);
    lemma_code_within(vic, opts.max_hz);
    assert(c.data_blocks[b].1.drop_first()[i - 1] == vic);
    lemma_420_reported(c.data_blocks, k as usize, opts.max_hz, b, i - 1);
    let data = cta_cap::data_dropped(c.data_blocks, k as usize, opts.max_hz);
    let j = choose|j: int| 0 <= j < data.len() && (#[trigger] data[j]).source == source;
    let there = cap::extension_dropped(blk, k as usize, opts.max_hz);
    assert(there[j] == data[j]);
    let at = lemma_dropped_at(bytes, opts.max_hz, block::block_count(bytes), k);
    assert(cap::all_dropped(bytes, opts.max_hz)[at + j] == there[j]);
}

proof fn lemma_dropped_at(bytes: Seq<u8>, cap: Hz, n: nat, k: int) -> (at: int)
    requires
        1 <= k < n,
    ensures
        0 <= at,
        at + cap::extension_dropped(block::block_at(bytes, k), k as usize, cap).len()
            <= cap::dropped_to(bytes, cap, n).len(),
        forall|i: int|
            0 <= i < cap::extension_dropped(block::block_at(bytes, k), k as usize, cap).len()
                ==> cap::dropped_to(bytes, cap, n)[at + i] == #[trigger] cap::extension_dropped(
                block::block_at(bytes, k),
                k as usize,
                cap,
            )[i],
    decreases n,
{
    let before = cap::dropped_to(bytes, cap, (n - 1) as nat);
    if k == n - 1 {
        before.len() as int
    } else {
        lemma_dropped_at(bytes, cap, (n - 1) as nat, k)
    }
}

#[verifier::rlimit(30)]
proof fn lemma_new_codes_reported(seen: Seq<Timing>, codes: Seq<u8>, n: usize, cap: Hz, i: int)
    requires
        0 <= i < codes.len(),
        cta_cap::code_above(codes[i], cap),
    ensures
        cta_cap::has_source(
            cta_cap::with_new_codes(seen, codes, n, cap),
            TimingSource::CtaVic { block: n, vic: codes[i] },
        ),
    decreases codes.len(),
{
    let source = TimingSource::CtaVic { block: n, vic: codes[i] };
    let before = cta_cap::with_new_codes(seen, codes.drop_last(), n, cap);
    let all = cta_cap::with_new_codes(seen, codes, n, cap);
    if i < codes.len() - 1 {
        lemma_new_codes_reported(seen, codes.drop_last(), n, cap, i);
        let j = choose|j: int| 0 <= j < before.len() && (#[trigger] before[j]).source == source;
        assert(all[j] == before[j]);
    } else {
        cta_cap::lemma_code_above(codes[i], n, cap);
        if !cta_cap::has_source(before, source) {
            assert(all[before.len() as int].source == source);
        }
    }
}

proof fn lemma_420_reported(bs: Seq<(u8, Seq<u8>)>, n: usize, cap: Hz, b: int, i: int)
    requires
        0 <= b < bs.len(),
        cta_cap::has_extended_tag(bs[b], 14),
        0 <= i < bs[b].1.drop_first().len(),
        cta_cap::code_above(bs[b].1.drop_first()[i], cap),
    ensures
        cta_cap::has_source(
            cta_cap::data_dropped(bs, n, cap),
            TimingSource::CtaVic { block: n, vic: bs[b].1.drop_first()[i] },
        ),
    decreases bs.len(),
{
    let init = bs.drop_last();
    let last = bs.last();
    let source = TimingSource::CtaVic { block: n, vic: bs[b].1.drop_first()[i] };
    let before = cta_cap::data_dropped(init, n, cap);
    let all = cta_cap::data_dropped(bs, n, cap);
    if b < init.len() {
        lemma_420_reported(init, n, cap, b, i);
        let j = choose|j: int| 0 <= j < before.len() && (#[trigger] before[j]).source == source;
        if last.0 != 2 && cta_cap::has_extended_tag(last, 14) {
            cta_laws::lemma_data_dropped(init, n, cap);
            cta_laws::lemma_new_codes_above(before, last.1.drop_first(), n, cap);
        }
        assert(all[j] == before[j]);
    } else {
        lemma_new_codes_reported(before, last.1.drop_first(), n, cap, i);
    }
}

// ---------------------------------------------------------------------------
// The range limits.

/// When no timing goes, the range limits stay.
pub proof fn law_cap_keeps_limits(bytes: Seq<u8>, opts: CapOptions)
    requires
        cap::accepted(bytes, opts),
        cap::cap_fits(bytes, opts),
        cap::cap_content(bytes, opts).dropped.len() == 0,
    ensures
        edid::edid_content(cap::cap_content(bytes, opts).bytes).range_limits == edid::edid_content(
            bytes,
        ).range_limits,
{
    laws::law_cap_lowers_limits(bytes, opts);
}

/// When a timing goes, the highest vertical rate comes down to the whole hertz of the cap, if it
/// was higher. The other rates stay; only the flag that adds 255 to the lowest vertical rate may
/// go along with the highest.
pub proof fn law_cap_lowers_the_rate(bytes: Seq<u8>, opts: CapOptions, old: RangeLimits)
    requires
        cap::accepted(bytes, opts),
        cap::cap_fits(bytes, opts),
        cap::cap_content(bytes, opts).dropped.len() > 0,
        edid::edid_content(bytes).range_limits == Some(old),
    ensures
        edid::edid_content(cap::cap_content(bytes, opts).bytes).range_limits matches Some(new) && {
            &&& new.descriptor_index == old.descriptor_index
            &&& new.v_max_hz <= old.v_max_hz
            &&& new.v_max_hz * opts.max_hz.den <= opts.max_hz.num
            &&& new.v_max_hz == old.v_max_hz || opts.max_hz.num < (new.v_max_hz + 1)
                * opts.max_hz.den
            &&& new.h_min_khz == old.h_min_khz
            &&& new.h_max_khz == old.h_max_khz
            &&& new.v_min_hz == old.v_min_hz || (new.v_max_hz < old.v_max_hz && old.v_min_hz >= 255)
            &&& new.max_pixel_clock_mhz <= old.max_pixel_clock_mhz
        },
{
    laws::law_cap_lowers_limits(bytes, opts);
    assert(edid::range_limits(bytes, 4) == Some(old));
    let new = edid::range_limits(cap::cap_content(bytes, opts).bytes, 4)->0;
    rate::law_whole(opts.max_hz);
    lemma_limit_bounds(bytes, old);
    let (v, w, n, d) = (
        new.v_max_hz as int,
        opts.max_hz.whole() as int,
        opts.max_hz.num as int,
        opts.max_hz.den as int,
    );
    assert(v * d <= w * d) by (nonlinear_arith)
        requires
            v <= w,
            d > 0,
    ;
}

proof fn lemma_limit_bounds(bytes: Seq<u8>, rl: RangeLimits)
    requires
        edid::range_limits(bytes, 4) == Some(rl),
    ensures
        rl.v_max_hz <= 510,
        rl.max_pixel_clock_mhz <= 2550,
        rl.max_pixel_clock_mhz % 10 == 0,
{
}

/// When a timing goes and a pixel clock limit is asked for, it is written in steps of 10 MHz, if
/// it is lower than the old one.
pub proof fn law_cap_takes_the_clock_limit(bytes: Seq<u8>, opts: CapOptions, old: RangeLimits, mhz: u32)
    requires
        cap::accepted(bytes, opts),
        cap::cap_fits(bytes, opts),
        cap::cap_content(bytes, opts).dropped.len() > 0,
        edid::edid_content(bytes).range_limits == Some(old),
        opts.max_pixel_clock_mhz == Some(mhz),
    ensures
        edid::edid_content(cap::cap_content(bytes, opts).bytes).range_limits matches Some(new)
            && new.max_pixel_clock_mhz == if 0 < mhz < old.max_pixel_clock_mhz {
            mhz - mhz % 10
        } else {
            old.max_pixel_clock_mhz as int
        },
{
    laws::law_cap_lowers_limits(bytes, opts);
    assert(edid::range_limits(bytes, 4) == Some(old));
    lemma_limit_bounds(bytes, old);
}

/// When a timing goes and no pixel clock limit is asked for, no higher one is written than the
/// timings need that are left: not more than any multiple of 10 MHz that covers them all.
pub proof fn law_cap_lowers_the_clock(bytes: Seq<u8>, opts: CapOptions, old: RangeLimits, mhz: int)
    requires
        cap::accepted(bytes, opts),
        cap::cap_fits(bytes, opts),
        cap::cap_content(bytes, opts).dropped.len() > 0,
        edid::edid_content(bytes).range_limits == Some(old),
        opts.max_pixel_clock_mhz is None,
        mhz > 0,
        mhz % 10 == 0,
        ({
            let left = edid::edid_content(cap::cap_content(bytes, opts).bytes).timings;
            &&& exists|i: int| 0 <= i < left.len() && (#[trigger] left[i]).pixel_clock_hz > 0
            &&& forall|i: int|
                0 <= i < left.len() ==> (#[trigger] left[i]).pixel_clock_hz <= mhz * 1_000_000
        }),
    ensures
        edid::edid_content(cap::cap_content(bytes, opts).bytes).range_limits matches Some(new)
            && new.max_pixel_clock_mhz <= mhz,
{
    let left = edid::all_timings(cap::cap_content(bytes, opts).bytes);
    laws::law_cap_lowers_limits(bytes, opts);
    assert(edid::range_limits(bytes, 4) == Some(old));
    lemma_limit_bounds(bytes, old);
    lemma_highest_clock_least(left, mhz);
    let i = choose|i: int| 0 <= i < left.len() && (#[trigger] left[i]).pixel_clock_hz > 0;
    lemma_highest_clock_positive(left, i);
}

proof fn lemma_highest_clock_least(ts: Seq<Timing>, mhz: int)
    requires
        mhz > 0,
        mhz % 10 == 0,
        forall|i: int| 0 <= i < ts.len() ==> (#[trigger] ts[i]).pixel_clock_hz <= mhz * 1_000_000,
    ensures
        cap::highest_clock(ts) matches Some(c) ==> c <= mhz && c % 10 == 0,
    decreases ts.len(),
{
    if ts.len() > 0 {
        let init = ts.drop_last();
        assert forall|i: int| 0 <= i < init.len() implies (#[trigger] init[i]).pixel_clock_hz <= mhz
            * 1_000_000 by {
            assert(init[i] == ts[i]);
        }
        lemma_highest_clock_least(init, mhz);
        assert(ts[ts.len() - 1].pixel_clock_hz <= mhz * 1_000_000);
    }
}

proof fn lemma_highest_clock_positive(ts: Seq<Timing>, i: int)
    requires
        0 <= i < ts.len(),
        ts[i].pixel_clock_hz > 0,
    ensures
        cap::highest_clock(ts) matches Some(c) && c > 0,
    decreases ts.len(),
{
    if i < ts.len() - 1 {
        lemma_highest_clock_positive(ts.drop_last(), i);
    }
}

/// Whether the code `vic` is that of a short video descriptor in one of the first `n` data
/// blocks.
pub open spec fn is_listed(bs: Seq<(u8, Seq<u8>)>, n: int, vic: u8) -> bool {
    exists|a: int, j: int|
        #![trigger bs[a].1[j]]
        0 <= a < n && bs[a].0 == 2 && 0 <= j < bs[a].1.len() && decode_laws::code_in(bs[a].1[j])
            == vic
}

/// Whether each code above the cap in a YCbCr 4:2:0 video data block is also that of a short video
/// descriptor before it.
pub open spec fn codes_listed(bs: Seq<(u8, Seq<u8>)>, cap: Hz) -> bool {
    forall|b: int, i: int|
        #![trigger bs[b].1[i]]
        0 <= b < bs.len() && bs[b].0 == 7 && 1 <= i < bs[b].1.len() && bs[b].1[0] == 14
            && !code_within(cap)(bs[b].1[i]) ==> is_listed(bs, b, bs[b].1[i])
}

proof fn lemma_listed_is_dropped(bs: Seq<(u8, Seq<u8>)>, n: usize, cap: Hz, a: int, j: int)
    requires
        0 <= a < bs.len(),
        bs[a].0 == 2,
        0 <= j < bs[a].1.len(),
        !code_within(cap)(decode_laws::code_in(bs[a].1[j])),
    ensures
        cta_cap::has_source(
            cta::vic_timings(cta::svd_bytes(bs), n).filter(cta_cap::is_above(cap)),
            TimingSource::CtaVic { block: n, vic: decode_laws::code_in(bs[a].1[j]) },
        ),
    decreases bs.len(),
{
    let above = cta_cap::is_above(cap);
    let vic = decode_laws::code_in(bs[a].1[j]);
    let source = TimingSource::CtaVic { block: n, vic };
    let init = bs.drop_last();
    let svds = cta::svd_bytes(init);
    let before = cta::vic_timings(svds, n);
    let all = cta::vic_timings(cta::svd_bytes(bs), n);
    if a < init.len() {
        lemma_listed_is_dropped(init, n, cap, a, j);
        if bs.last().0 == 2 {
            let more = cta::vic_timings(bs.last().1, n);
            cta::lemma_vic_timings_split(svds, bs.last().1, n);
            Seq::filter_distributes_over_add(before, more, above);
        }
        let k = choose|k: int|
            0 <= k < before.filter(above).len() && (#[trigger] before.filter(above)[k]).source
                == source;
        assert(all.filter(above)[k] == before.filter(above)[k]);
    } else {
        let more = cta::vic_timings(bs[a].1, n);
        cta::lemma_vic_timings_split(svds, bs[a].1, n);
        Seq::filter_distributes_over_add(before, more, above);
        lemma_svd_timing(bs[a].1, n, j, cap);
        let k = choose|k: int| 0 <= k < more.len() && (#[trigger] more[k]).source == source && more[
            k
        ].refresh_hz.above(cap);
        more.lemma_filter_contains(above, k);
        let m = choose|m: int| 0 <= m < more.filter(above).len() && more.filter(above)[m] == more[k];
        assert(all.filter(above)[before.filter(above).len() + m] == more[k]);
    }
}

proof fn lemma_svd_timing(svds: Seq<u8>, n: usize, j: int, cap: Hz)
    requires
        0 <= j < svds.len(),
        !code_within(cap)(decode_laws::code_in(svds[j])),
    ensures
        exists|k: int|
            0 <= k < cta::vic_timings(svds, n).len() && (#[trigger] cta::vic_timings(
                svds,
                n,
            )[k]).source == (TimingSource::CtaVic {
                block: n,
                vic: decode_laws::code_in(svds[j]),
            }) && cta::vic_timings(svds, n)[k].refresh_hz.above(cap),
    decreases svds.len(),
{
    let vic = decode_laws::code_in(svds[j]);
    let init = svds.drop_last();
    let before = cta::vic_timings(init, n);
    let all = cta::vic_timings(svds, n);
    if j < init.len() {
        lemma_svd_timing(init, n, j, cap);
        let k = choose|k: int|
            0 <= k < before.len() && (#[trigger] before[k]).source == (TimingSource::CtaVic {
                block: n,
                vic,
            }) && before[k].refresh_hz.above(cap);
        assert(all[k] == before[k]);
    } else {
        assert(timing::svd_code(svds[j]) == vic);
        lemma_code_within(vic, cap);
        cta_cap::lemma_code_above(vic, n, cap);
        assert(all[before.len() as int].source == (TimingSource::CtaVic { block: n, vic }));
    }
}

proof fn lemma_no_code_twice(seen: Seq<Timing>, codes: Seq<u8>, n: usize, cap: Hz)
    requires
        forall|i: int|
            0 <= i < codes.len() && !code_within(cap)(#[trigger] codes[i]) ==> cta_cap::has_source(
                seen,
                TimingSource::CtaVic { block: n, vic: codes[i] },
            ),
    ensures
        cta_cap::with_new_codes(seen, codes, n, cap) == seen,
    decreases codes.len(),
{
    if codes.len() > 0 {
        let init = codes.drop_last();
        assert forall|i: int| 0 <= i < init.len() && !code_within(cap)(#[trigger] init[i]) implies
            cta_cap::has_source(seen, TimingSource::CtaVic { block: n, vic: init[i] }) by {
            assert(init[i] == codes[i]);
        }
        lemma_no_code_twice(seen, init, n, cap);
        let last = codes[codes.len() - 1];
        lemma_code_within(last, cap);
        cta_cap::lemma_code_above(last, n, cap);
    }
}

proof fn lemma_listed_data(bs: Seq<(u8, Seq<u8>)>, n: usize, cap: Hz)
    requires
        codes_listed(bs, cap),
    ensures
        cta_cap::data_dropped(bs, n, cap) == cta::vic_timings(cta::svd_bytes(bs), n).filter(
            cta_cap::is_above(cap),
        ),
    decreases bs.len(),
{
    let above = cta_cap::is_above(cap);
    reveal(Seq::filter);
    if bs.len() > 0 {
        let init = bs.drop_last();
        let last = bs.last();
        let n0 = init.len() as int;
        let svds = cta::svd_bytes(init);
        let seen = cta_cap::data_dropped(init, n, cap);
        assert forall|b: int, i: int|
            #![trigger init[b].1[i]]
            0 <= b < init.len() && init[b].0 == 7 && 1 <= i < init[b].1.len() && init[b].1[0] == 14
                && !code_within(cap)(init[b].1[i]) implies is_listed(init, b, init[b].1[i]) by {
            assert(init[b] == bs[b]);
            let code = bs[b].1[i];
            assert(is_listed(bs, b, code));
            let (a, j) = choose|a: int, j: int|
                #![trigger bs[a].1[j]]
                0 <= a < b && bs[a].0 == 2 && 0 <= j < bs[a].1.len() && decode_laws::code_in(
                    bs[a].1[j],
                ) == code;
            assert(init[a].1[j] == bs[a].1[j]);
        }
        lemma_listed_data(init, n, cap);
        if last.0 == 2 {
            cta::lemma_vic_timings_split(svds, last.1, n);
            Seq::filter_distributes_over_add(
                cta::vic_timings(svds, n),
                cta::vic_timings(last.1, n),
                above,
            );
        } else if cta_cap::has_extended_tag(last, 14) {
            let codes = last.1.drop_first();
            assert forall|i: int| 0 <= i < codes.len() && !code_within(cap)(#[trigger] codes[i])
                implies cta_cap::has_source(
                seen,
                TimingSource::CtaVic { block: n, vic: codes[i] },
            ) by {
                let code = bs[n0].1[i + 1];
                assert(code == codes[i]);
                assert(is_listed(bs, n0, code));
                let (a, j) = choose|a: int, j: int|
                    #![trigger bs[a].1[j]]
                    0 <= a < n0 && bs[a].0 == 2 && 0 <= j < bs[a].1.len() && decode_laws::code_in(
                        bs[a].1[j],
                    ) == code;
                assert(init[a] == bs[a]);
                lemma_listed_is_dropped(init, n, cap, a, j);
            }
            lemma_no_code_twice(seen, codes, n, cap);
        }
    } else {
        assert(cta::vic_timings(cta::svd_bytes(bs), n).filter(above) =~= Seq::empty());
    }
}

/// A YCbCr 4:2:0 code that is also that of a short video descriptor before it is not reported
/// twice: when each code above the cap is, what goes from a CTA-861 block is what it advertises
/// above the cap, in order.
pub proof fn law_420_codes_are_not_reported_twice(blk: Seq<u8>, n: usize, cap: Hz)
    requires
        blk[0] == 0x02,
        codes_listed(cta::cta_content(blk).data_blocks, cap),
    ensures
        cap::extension_dropped(blk, n, cap) == edid::extension_timings(blk, n).filter(
            cta_cap::is_above(cap),
        ),
{
    let c = cta::cta_content(blk);
    lemma_listed_data(c.data_blocks, n, cap);
    Seq::filter_distributes_over_add(
        cta::vic_timings(cta::svd_bytes(c.data_blocks), n),
        cta::dtd_timings(c.dtds, n),
        cta_cap::is_above(cap),
    );
}

// ---------------------------------------------------------------------------
// Notes.

/// Every short video descriptor with a code that is not known is noted as kept, with its block.
pub proof fn law_cap_notes_unknown_codes(bytes: Seq<u8>, opts: CapOptions, k: int, i: int)
    requires
        bytes.len() <= usize::MAX,
        1 <= k < bytes.len() / 128,
        bytes[128 * k] == 0x02,
        ({
            let svds = descriptors_in(
                cta::cta_content(bytes.subrange(128 * k, 128 * k + 128)).data_blocks,
            );
            0 <= i < svds.len() && timing::vic_format(decode_laws::code_in(svds[i])) is None
        }),
    ensures
        ({
            let svds = descriptors_in(
                cta::cta_content(bytes.subrange(128 * k, 128 * k + 128)).data_blocks,
            );
            cap::cap_content(bytes, opts).notes.contains(
                "kept unknown VIC "@ + text::dec(decode_laws::code_in(svds[i]) as nat) + " (block "@
                    + text::dec(k as nat) + ")"@,
            )
        }),
{
    let blk = block::block_at(bytes, k);
    let c = cta::cta_content(blk);
    let svds = descriptors_in(c.data_blocks);
    let vic = decode_laws::code_in(svds[i]);
    let note = "kept unknown VIC "@ + text::dec(vic as nat) + " (block "@ + text::dec(k as nat)
        + ")"@;
    decode_laws::law_svds(c.data_blocks);
    assert(blk[0] == bytes[128 * k]);
    lemma_unknown_noted(svds, k as usize, i);
    let unknown = cta_cap::unknown_notes(svds, k as usize);
    let a = choose|a: int| 0 <= a < unknown.len() && unknown[a] == note;
    let here = cap::extension_notes(blk, k as usize, opts.max_hz);
    assert(here[a] == note);
    let at = lemma_notes_at(bytes, opts.max_hz, block::block_count(bytes), k);
    let all = cap::cap_content(bytes, opts).notes;
    assert(all[at + a] == note);
}

proof fn lemma_unknown_noted(svds: Seq<u8>, n: usize, i: int)
    requires
        0 <= i < svds.len(),
        timing::vic_format(decode_laws::code_in(svds[i])) is None,
    ensures
        cta_cap::unknown_notes(svds, n).contains(
            "kept unknown VIC "@ + text::dec(decode_laws::code_in(svds[i]) as nat) + " (block "@
                + text::dec(n as nat) + ")"@,
        ),
    decreases svds.len(),
{
    let note = "kept unknown VIC "@ + text::dec(decode_laws::code_in(svds[i]) as nat) + " (block "@
        + text::dec(n as nat) + ")"@;
    let before = cta_cap::unknown_notes(svds.drop_last(), n);
    let all = cta_cap::unknown_notes(svds, n);
    if i < svds.len() - 1 {
        lemma_unknown_noted(svds.drop_last(), n, i);
        let a = choose|a: int| 0 <= a < before.len() && before[a] == note;
        assert(all[a] == note);
    } else {
        assert(timing::svd_code(svds[i]) == decode_laws::code_in(svds[i]));
        assert(all[before.len() as int] == note);
    }
}

proof fn lemma_notes_at(bytes: Seq<u8>, cap: Hz, n: nat, k: int) -> (at: int)
    requires
        1 <= k < n,
    ensures
        0 <= at,
        at + cap::extension_notes(block::block_at(bytes, k), k as usize, cap).len()
            <= cap::notes_to(bytes, cap, n).len(),
        forall|i: int|
            0 <= i < cap::extension_notes(block::block_at(bytes, k), k as usize, cap).len()
                ==> cap::notes_to(bytes, cap, n)[at + i] == #[trigger] cap::extension_notes(
                block::block_at(bytes, k),
                k as usize,
                cap,
            )[i],
    decreases n,
{
    let before = cap::notes_to(bytes, cap, (n - 1) as nat);
    if k == n - 1 {
        before.len() as int
    } else {
        lemma_notes_at(bytes, cap, (n - 1) as nat, k)
    }
}

/// Whether `more` are the notes on range limits that came down from `old` to `new`: one for the
/// highest vertical rate and one for the pixel clock, each with the old and the new value, and
/// none for what stayed.
pub open spec fn notes_limits(more: Seq<Seq<char>>, old: RangeLimits, new: RangeLimits) -> bool {
    let rate = "range limits: max vertical rate "@ + text::dec(old.v_max_hz as nat) + " -> "@
        + text::dec(new.v_max_hz as nat) + " Hz"@;
    let clock = "range limits: max pixel clock "@ + text::dec(old.max_pixel_clock_mhz as nat)
        + " -> "@ + text::dec(new.max_pixel_clock_mhz as nat) + " MHz"@;
    if new.v_max_hz < old.v_max_hz {
        if new.max_pixel_clock_mhz < old.max_pixel_clock_mhz {
            more == seq![rate, clock]
        } else {
            more == seq![rate]
        }
    } else if new.max_pixel_clock_mhz < old.max_pixel_clock_mhz {
        more == seq![clock]
    } else {
        more.len() == 0
    }
}

proof fn lemma_limit_notes(opts: CapOptions, ts: Seq<Timing>, old: RangeLimits, new: RangeLimits)
    requires
        laws::limits_follow(old, new, opts, ts),
        old.max_pixel_clock_mhz <= 2550,
        old.max_pixel_clock_mhz % 10 == 0,
    ensures
        notes_limits(cap::limit_notes(opts, ts, old), old, new),
{
    let lower = cap::lowers_v_max(opts, old);
    let less = cap::lowers_clock(opts, ts, old);
    let step = cap::clock_step(cap::new_clock(opts, ts, old.max_pixel_clock_mhz));
    assert(new.v_max_hz < old.v_max_hz <==> lower);
    assert(lower ==> new.v_max_hz == opts.max_hz.whole());
    assert(less ==> new.max_pixel_clock_mhz == step * 10);
    assert(less ==> step * 10 < old.max_pixel_clock_mhz);
    assert(new.max_pixel_clock_mhz < old.max_pixel_clock_mhz <==> less);
    let rate = "range limits: max vertical rate "@ + text::dec(old.v_max_hz as nat) + " -> "@
        + text::dec(new.v_max_hz as nat) + " Hz"@;
    let clock = "range limits: max pixel clock "@ + text::dec(old.max_pixel_clock_mhz as nat)
        + " -> "@ + text::dec(new.max_pixel_clock_mhz as nat) + " MHz"@;
    let more = cap::limit_notes(opts, ts, old);
    if lower && less {
        assert(more =~= seq![rate, clock]);
    } else if lower {
        assert(more =~= seq![rate]);
    } else if less {
        assert(more =~= seq![clock]);
    } else {
        assert(more =~= Seq::empty());
    }
}

/// When the range limits come down, that is noted behind all other notes; when they do not, nothing
/// about them is noted.
pub proof fn law_cap_notes_limits(bytes: Seq<u8>, opts: CapOptions, old: RangeLimits)
    requires
        cap::accepted(bytes, opts),
        cap::cap_fits(bytes, opts),
        edid::edid_content(bytes).range_limits == Some(old),
    ensures
        ({
            let r = cap::cap_content(bytes, opts);
            let before = cap::notes_to(bytes, opts.max_hz, block::block_count(bytes));
            &&& before.is_prefix_of(r.notes)
            &&& edid::edid_content(r.bytes).range_limits matches Some(new) && notes_limits(
                r.notes.skip(before.len() as int),
                old,
                new,
            )
        }),
{
    let r = cap::cap_content(bytes, opts);
    let left = edid::all_timings(cap::trimmed(bytes, opts.max_hz));
    let before = cap::notes_to(bytes, opts.max_hz, block::block_count(bytes));
    laws::law_cap_lowers_limits(bytes, opts);
    laws::lemma_trimmed_limits(bytes, opts);
    laws::lemma_settled_timings(bytes, opts);
    lemma_limit_bounds(bytes, old);
    let more = if r.dropped.len() > 0 {
        cap::limit_notes(opts, left, old)
    } else {
        Seq::empty()
    };
    assert(r.notes == before + more);
    assert(r.notes.skip(before.len() as int) =~= more);
    assert(before =~= r.notes.subrange(0, before.len() as int));
    if r.dropped.len() > 0 {
        lemma_limit_notes(opts, left, old, edid::range_limits(r.bytes, 4)->0);
    }
}

} // verus!
