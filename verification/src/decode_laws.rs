//! What decoding finds, byte for byte.

use vstd::prelude::*;

use crate::timing::{Timing, TimingSource};
use crate::{block, cta, displayid, edid, rate, text, text_laws, timing};

verus! {

// ---------------------------------------------------------------------------
// Timing descriptors.

/// Whether the refresh rate of a timing is its pixel clock over the pixels of a whole frame.
pub open spec fn rate_follows(t: Timing) -> bool {
    if t.h_total > 0 && t.v_total > 0 {
        t.refresh_hz.num == t.pixel_clock_hz && t.refresh_hz.den == t.h_total * t.v_total
    } else {
        t.refresh_hz.num == 0 && t.refresh_hz.den > 0
    }
}

/// Whether `t` is what the eighteen bytes `d` of a detailed timing descriptor write.
pub open spec fn written_as_dtd(t: Timing, d: Seq<u8>) -> bool {
    &&& t.pixel_clock_hz == 10_000 * (d[0] + 256 * d[1])
    &&& t.h_active == d[2] + 256 * (d[4] / 16)
    &&& t.h_total - t.h_active == d[3] + 256 * (d[4] % 16)
    &&& t.v_active == d[5] + 256 * (d[7] / 16)
    &&& t.v_total - t.v_active == d[6] + 256 * (d[7] % 16)
    &&& t.interlaced == (d[17] >= 0x80)
    &&& rate_follows(t)
}

/// A detailed timing descriptor is a timing exactly when its pixel clock is not zero, and its
/// bytes are the clock, the frame and the blanking of that timing.
pub proof fn law_dtd(d: Seq<u8>, source: TimingSource)
    requires
        d.len() == 18,
    ensures
        match timing::dtd_timing(d, source) {
            Some(t) => written_as_dtd(t, d) && t.source == source && !(d[0] == 0 && d[1] == 0),
            None => d[0] == 0 && d[1] == 0,
        },
{
    if let Some(t) = timing::dtd_timing(d, source) {
        lemma_rate_follows(t);
    }
}

/// A rate that is computed from the clock and the totals follows from them.
pub proof fn lemma_rate_follows(t: Timing)
    requires
        t.refresh_hz == timing::refresh(t.pixel_clock_hz, t.h_total, t.v_total),
    ensures
        rate_follows(t),
{
    let (h, v) = (t.h_total as int, t.v_total as int);
    assert(0 <= h * v <= 0xffff_ffff * 0xffff_ffff) by (nonlinear_arith)
        requires
            0 <= h <= 0xffff_ffff,
            0 <= v <= 0xffff_ffff,
    ;
    assert(h * v > 0 <==> h > 0 && v > 0) by (nonlinear_arith)
        requires
            h >= 0,
            v >= 0,
    ;
}

/// The bytes of one descriptor in a DisplayID data block: twenty, and in a Type VII block
/// (0x22) as many more as bits 4 to 6 of its revision say.
pub open spec fn descriptor_size(tag: u8, revision: u8) -> int {
    if tag == 0x22 {
        20 + (revision / 16) % 8
    } else {
        20
    }
}

/// The whole descriptors in a DisplayID data block: Type I (0x03) and Type VII (0x22) blocks
/// hold them, other blocks none.
pub open spec fn descriptor_count(b: (u8, u8, Seq<u8>)) -> int {
    if b.0 == 0x03 || b.0 == 0x22 {
        b.2.len() as int / descriptor_size(b.0, b.1)
    } else {
        0
    }
}

/// Whether `t` is what the descriptor at `p` of the payload `d` of a data block with the given
/// tag writes. Type I counts the clock in steps of 10 kHz, Type VII in steps of 1 kHz.
pub open spec fn written_as_displayid(t: Timing, tag: u8, d: Seq<u8>, p: int) -> bool {
    &&& t.pixel_clock_hz == (if tag == 0x22 {
        1_000int
    } else {
        10_000int
    }) * (1 + d[p] + 256 * d[p + 1] + 65536 * d[p + 2])
    &&& t.h_active == 1 + d[p + 4] + 256 * d[p + 5]
    &&& t.h_total - t.h_active == 1 + d[p + 6] + 256 * d[p + 7]
    &&& t.v_active == 1 + d[p + 12] + 256 * d[p + 13]
    &&& t.v_total - t.v_active == 1 + d[p + 14] + 256 * d[p + 15]
    &&& t.interlaced == ((d[p + 3] / 16) % 2 == 1)
    &&& rate_follows(t)
}

pub proof fn lemma_piece_count(body: Seq<u8>, size: nat)
    requires
        size > 0,
    ensures
        displayid::pieces(body, size).len() == body.len() as int / size as int,
    decreases body.len(),
{
    let n = body.len() as int;
    let s = size as int;
    if n >= s {
        lemma_piece_count(body.skip(s), size);
        vstd::arithmetic::div_mod::lemma_fundamental_div_mod(n - s, s);
        vstd::arithmetic::div_mod::lemma_mod_bound(n - s, s);
        assert(n == (1 + (n - s) / s) * s + (n - s) % s) by (nonlinear_arith)
            requires
                n - s == s * ((n - s) / s) + (n - s) % s,
        ;
        vstd::arithmetic::div_mod::lemma_fundamental_div_mod_converse(
            n,
            s,
            1 + (n - s) / s,
            (n - s) % s,
        );
    } else {
        vstd::arithmetic::div_mod::lemma_basic_div(n, s);
    }
}

pub proof fn lemma_piece(body: Seq<u8>, size: nat, j: int)
    requires
        size > 0,
        0 <= j < displayid::pieces(body, size).len(),
    ensures
        0 <= size as int * j,
        size as int * j + size <= body.len(),
        displayid::pieces(body, size)[j] == body.subrange(size as int * j, size as int * j + size),
    decreases body.len(),
{
    let s = size as int;
    let all = displayid::pieces(body, size);
    if j > 0 {
        let rest = body.skip(s);
        lemma_piece(rest, size, j - 1);
        assert(all[j] == displayid::pieces(rest, size)[j - 1]);
        assert(s * j == s * (j - 1) + s) by (nonlinear_arith);
        assert(rest.subrange(s * (j - 1), s * (j - 1) + s) =~= body.subrange(s * j, s * j + s));
    } else {
        assert(s * j == 0) by (nonlinear_arith)
            requires
                j == 0,
        ;
        assert(all[0] =~= body.subrange(0, s));
    }
}

proof fn lemma_descriptor(b: (u8, u8, Seq<u8>), block: usize, first: nat, j: int)
    requires
        0 <= j < descriptor_count(b),
    ensures
        0 <= descriptor_size(b.0, b.1) * j,
        descriptor_size(b.0, b.1) * j + descriptor_size(b.0, b.1) <= b.2.len(),
        j < displayid::block_timings(b, block, first).len(),
        written_as_displayid(
            displayid::block_timings(b, block, first)[j],
            b.0,
            b.2,
            descriptor_size(b.0, b.1) * j,
        ),
        displayid::block_timings(b, block, first)[j].source == (TimingSource::DisplayId {
            block,
            index: (first + j) as usize,
        }),
{
    let s = descriptor_size(b.0, b.1);
    let t = displayid::block_timings(b, block, first)[j];
    let p = displayid::block_entries(b)[j];
    lemma_piece_count(b.2, s as nat);
    lemma_piece(b.2, s as nat, j);
    assert(p == b.2.subrange(s * j, s * j + s));
    assert(forall|m: int| 0 <= m < s ==> #[trigger] p[m] == b.2[s * j + m]);
    lemma_rate_follows(t);
    assert(p[0] == b.2[s * j] && p[1] == b.2[s * j + 1] && p[2] == b.2[s * j + 2]);
    assert(p[3] == b.2[s * j + 3] && p[4] == b.2[s * j + 4] && p[5] == b.2[s * j + 5]);
    assert(p[6] == b.2[s * j + 6] && p[7] == b.2[s * j + 7]);
    assert(p[12] == b.2[s * j + 12] && p[13] == b.2[s * j + 13]);
    assert(p[14] == b.2[s * j + 14] && p[15] == b.2[s * j + 15]);
}

proof fn lemma_descriptor_count(b: (u8, u8, Seq<u8>), block: usize, first: nat)
    ensures
        displayid::block_timings(b, block, first).len() == descriptor_count(b),
        0 <= descriptor_count(b),
{
    if b.0 == 0x03 || b.0 == 0x22 {
        lemma_piece_count(b.2, descriptor_size(b.0, b.1) as nat);
        vstd::arithmetic::div_mod::lemma_div_pos_is_pos(
            b.2.len() as int,
            descriptor_size(b.0, b.1),
        );
    }
}

/// The descriptors in the first `n` data blocks.
pub open spec fn descriptors_before(bs: Seq<(u8, u8, Seq<u8>)>, n: int) -> int
    decreases n,
{
    if n <= 0 {
        0
    } else {
        descriptors_before(bs, n - 1) + descriptor_count(bs[n - 1])
    }
}

proof fn lemma_descriptors_prefix(bs: Seq<(u8, u8, Seq<u8>)>, n: int)
    requires
        n < bs.len(),
    ensures
        descriptors_before(bs.drop_last(), n) == descriptors_before(bs, n),
    decreases n,
{
    if n > 0 {
        assert(bs.drop_last()[n - 1] == bs[n - 1]);
        lemma_descriptors_prefix(bs, n - 1);
    }
}

/// A DisplayID block advertises as many timings as there are whole descriptors in its data
/// blocks with the tag 0x03 or 0x22.
pub proof fn law_displayid_timing_count(bs: Seq<(u8, u8, Seq<u8>)>, block: usize)
    ensures
        displayid::displayid_timings(bs, block).len() == descriptors_before(bs, bs.len() as int),
    decreases bs.len(),
{
    if bs.len() > 0 {
        let init = bs.drop_last();
        law_displayid_timing_count(init, block);
        lemma_descriptor_count(bs.last(), block, displayid::displayid_timings(init, block).len());
        lemma_descriptors_prefix(bs, init.len() as int);
    }
}

/// Every whole descriptor `j` of every DisplayID data block `k` with the tag 0x03 or 0x22 is
/// one of the timings, in order.
pub proof fn law_displayid_timing(bs: Seq<(u8, u8, Seq<u8>)>, block: usize, k: int, j: int)
    requires
        0 <= k < bs.len(),
        bs[k].0 == 0x03 || bs[k].0 == 0x22,
        0 <= j < bs[k].2.len() as int / descriptor_size(bs[k].0, bs[k].1),
    ensures
        ({
            let at = descriptors_before(bs, k) + j;
            let ts = displayid::displayid_timings(bs, block);
            &&& 0 <= at < ts.len()
            &&& written_as_displayid(
                ts[at],
                bs[k].0,
                bs[k].2,
                descriptor_size(bs[k].0, bs[k].1) * j,
            )
            &&& ts[at].source == (TimingSource::DisplayId { block, index: at as usize })
        }),
    decreases bs.len(),
{
    let init = bs.drop_last();
    let n = init.len() as int;
    let before = displayid::displayid_timings(init, block);
    let more = displayid::block_timings(bs.last(), block, before.len());
    let at = descriptors_before(bs, k) + j;
    law_displayid_timing_count(init, block);
    lemma_descriptor_count(bs.last(), block, before.len());
    lemma_descriptors_prefix(bs, k);
    if k < n {
        law_displayid_timing(init, block, k, j);
        assert(displayid::displayid_timings(bs, block)[at] == before[at]);
    } else {
        lemma_descriptor(bs.last(), block, before.len(), j);
        assert(displayid::displayid_timings(bs, block)[at] == more[j]);
    }
}

// ---------------------------------------------------------------------------
// Where the parts of an extension block stand.

/// Whether `b` is the data block of a CTA-861 block at `p`, before `end`, and reaches up to
/// `next`: the upper three bits of its first byte are its tag, the lower five the length of its
/// payload, and the payload ends before the checksum byte.
pub open spec fn stands_at(b: (u8, Seq<u8>), blk: Seq<u8>, p: int, next: int, end: int) -> bool {
    &&& 4 <= p < end
    &&& b.0 as int == blk[p] as int / 32
    &&& next == p + 1 + blk[p] as int % 32
    &&& b.1 == blk.subrange(p + 1, if next <= 127 {
        next
    } else {
        127
    })
}

/// Whether the data blocks `bs` stand one behind the other in `blk`, from `start` on, each
/// beginning before `end`, and the last reaching at least that far.
pub open spec fn stand_in(
    bs: Seq<(u8, Seq<u8>)>,
    blk: Seq<u8>,
    at: Seq<int>,
    start: int,
    end: int,
) -> bool {
    &&& at.len() == bs.len() + 1
    &&& at[0] == start
    &&& at[bs.len() as int] >= end
    &&& forall|k: int|
        0 <= k < bs.len() ==> stands_at(#[trigger] bs[k], blk, at[k], at[k + 1], end)
}

proof fn lemma_data_places(blk: Seq<u8>, i: int, end: int) -> (at: Seq<int>)
    requires
        blk.len() == 128,
        4 <= i,
        end <= 127,
    ensures
        stand_in(cta::data_blocks_from(blk, i, end), blk, at, i, end),
    decreases
            (if i < end {
                end - i
            } else {
                0
            }),
{
    let bs = cta::data_blocks_from(blk, i, end);
    if i < end {
        let next = i + 1 + blk[i] % 32;
        let rest = cta::data_blocks_from(blk, next, end);
        let more = lemma_data_places(blk, next, end);
        let at = seq![i] + more;
        assert forall|k: int| 0 <= k < bs.len() implies stands_at(
            #[trigger] bs[k],
            blk,
            at[k],
            at[k + 1],
            end,
        ) by {
            if k > 0 {
                assert(bs[k] == rest[k - 1]);
                assert(stands_at(rest[k - 1], blk, more[k - 1], more[k], end));
            } else {
                assert(more[0] == next);
                assert(cta::least(next, 127) == if next <= 127 {
                    next
                } else {
                    127
                });
            }
        }
        assert(bs.len() == rest.len() + 1);
        assert(at[bs.len() as int] == more[rest.len() as int]);
        assert(stand_in(bs, blk, at, i, end));
        at
    } else {
        seq![i]
    }
}

/// Where the data blocks of a CTA-861 block end: where its detailed timings begin, and before
/// its checksum byte.
pub open spec fn data_end(blk: Seq<u8>) -> int {
    if blk[2] <= 127 {
        blk[2] as int
    } else {
        127
    }
}

/// The data blocks of a CTA-861 block fill it from byte 4 up to where byte 2 says that the
/// detailed timings begin; there are none when that is below 4. Its revision and its flags
/// are bytes 1 and 3.
pub proof fn law_cta_data_blocks(blk: Seq<u8>)
    requires
        blk.len() == 128,
    ensures
        cta::cta_content(blk).revision == blk[1],
        cta::cta_content(blk).flags == blk[3],
        blk[2] < 4 ==> cta::cta_content(blk).data_blocks.len() == 0,
        blk[2] >= 4 ==> exists|at: Seq<int>|
            stand_in(
                cta::cta_content(blk).data_blocks,
                blk,
                at,
                4,
                data_end(blk),
            ),
{
    if blk[2] >= 4 {
        let end = data_end(blk);
        let at = lemma_data_places(blk, 4, end);
        assert(stand_in(cta::cta_content(blk).data_blocks, blk, at, 4, end));
    }
}

/// Whether the detailed timing `d` stands at `p`, before the checksum byte, and its pixel clock
/// is not zero.
pub open spec fn dtd_at(d: Seq<u8>, blk: Seq<u8>, p: int) -> bool {
    &&& p + 18 <= 127
    &&& d == blk.subrange(p, p + 18)
    &&& !(d[0] == 0 && d[1] == 0)
}

/// The detailed timings of a CTA-861 block stand one behind the other from where byte 2 says
/// (none when that is below 4), eighteen bytes each and all before the checksum byte, up to
/// the first whose pixel clock is zero.
pub proof fn law_cta_dtds(blk: Seq<u8>)
    requires
        blk.len() == 128,
    ensures
        ({
            let ds = cta::cta_content(blk).dtds;
            let end = blk[2] + 18 * ds.len();
            if blk[2] < 4 {
                ds.len() == 0
            } else {
                &&& forall|k: int|
                    0 <= k < ds.len() ==> dtd_at(#[trigger] ds[k], blk, blk[2] + 18 * k)
                &&& end + 18 > 127 || (blk[end] == 0 && blk[end + 1] == 0)
            }
        }),
{
    if blk[2] >= 4 {
        lemma_dtd_places(blk, blk[2] as int);
    }
}

proof fn lemma_dtd_places(blk: Seq<u8>, j: int)
    requires
        blk.len() == 128,
        0 <= j,
    ensures
        ({
            let ds = cta::dtds_from(blk, j);
            let end = j + 18 * ds.len();
            &&& forall|k: int| 0 <= k < ds.len() ==> dtd_at(#[trigger] ds[k], blk, j + 18 * k)
            &&& end + 18 > 127 || (blk[end] == 0 && blk[end + 1] == 0)
        }),
    decreases 128 - j,
{
    let ds = cta::dtds_from(blk, j);
    if j + 18 < 128 && !(blk[j] == 0 && blk[j + 1] == 0) {
        let rest = cta::dtds_from(blk, j + 18);
        lemma_dtd_places(blk, j + 18);
        assert forall|k: int| 0 <= k < ds.len() implies dtd_at(
            #[trigger] ds[k],
            blk,
            j + 18 * k,
        ) by {
            if k > 0 {
                assert(ds[k] == rest[k - 1]);
                assert(j + 18 * k == j + 18 + 18 * (k - 1));
            }
        }
        assert(ds.len() == rest.len() + 1);
        assert(j + 18 * ds.len() == j + 18 + 18 * rest.len());
    }
}

/// Whether `b` is the data block of a DisplayID block at `p`, up to `next`: its tag, its
/// revision, the length of its payload, and the payload, which ends before `end`.
pub open spec fn section_at(b: (u8, u8, Seq<u8>), blk: Seq<u8>, p: int, next: int, end: int) -> bool {
    &&& 5 <= p
    &&& p + 3 <= end
    &&& b.0 == blk[p]
    &&& b.1 == blk[p + 1]
    &&& next == p + 3 + blk[p + 2]
    &&& b.2 == blk.subrange(p + 3, if next <= end {
        next
    } else {
        end
    })
    &&& !(blk[p] == 0 && blk[p + 2] == 0)
}

/// Whether the data blocks `bs` stand one behind the other in `blk`, from `start` on, until
/// there is no room for another one before `end`, or one has neither tag nor length.
pub open spec fn sections_in(
    bs: Seq<(u8, u8, Seq<u8>)>,
    blk: Seq<u8>,
    at: Seq<int>,
    start: int,
    end: int,
) -> bool {
    let stop = at[bs.len() as int];
    &&& at.len() == bs.len() + 1
    &&& at[0] == start
    &&& stop + 3 > end || (blk[stop] == 0 && blk[stop + 2] == 0)
    &&& forall|k: int|
        0 <= k < bs.len() ==> section_at(#[trigger] bs[k], blk, at[k], at[k + 1], end)
}

proof fn lemma_section_places(blk: Seq<u8>, i: int, end: int) -> (at: Seq<int>)
    requires
        blk.len() == 128,
        5 <= i,
        end <= 127,
    ensures
        sections_in(displayid::sections_from(blk, i, end), blk, at, i, end),
    decreases
            (if i < end {
                end - i
            } else {
                0
            }),
{
    let bs = displayid::sections_from(blk, i, end);
    if i + 3 <= end && !(blk[i] == 0 && blk[i + 2] == 0) {
        let next = i + 3 + blk[i + 2];
        let rest = displayid::sections_from(blk, next, end);
        let more = lemma_section_places(blk, next, end);
        let at = seq![i] + more;
        assert forall|k: int| 0 <= k < bs.len() implies section_at(
            #[trigger] bs[k],
            blk,
            at[k],
            at[k + 1],
            end,
        ) by {
            if k > 0 {
                assert(bs[k] == rest[k - 1]);
                assert(section_at(rest[k - 1], blk, more[k - 1], more[k], end));
            } else {
                assert(more[0] == next);
            }
        }
        assert(bs.len() == rest.len() + 1);
        assert(at[bs.len() as int] == more[rest.len() as int]);
        at
    } else {
        seq![i]
    }
}

/// Where the data blocks of a DisplayID block end.
pub open spec fn section_end(blk: Seq<u8>) -> int {
    if blk[2] <= 122 {
        5 + blk[2]
    } else {
        127
    }
}

/// The data blocks of a DisplayID block stand from byte 5 on, as many bytes as byte 2 says,
/// but not in the checksum byte. Its version, product type and extension count are bytes 1, 3
/// and 4.
pub proof fn law_displayid_sections(blk: Seq<u8>)
    requires
        blk.len() == 128,
    ensures
        displayid::displayid_content(blk).version == blk[1],
        displayid::displayid_content(blk).product_type == blk[3],
        displayid::displayid_content(blk).ext_count == blk[4],
        exists|at: Seq<int>|
            sections_in(
                displayid::displayid_content(blk).blocks,
                blk,
                at,
                5,
                section_end(blk),
            ),
{
    let end = section_end(blk);
    let at = lemma_section_places(blk, 5, end);
    assert(sections_in(displayid::displayid_content(blk).blocks, blk, at, 5, end));
}

// ---------------------------------------------------------------------------
// Video codes.

/// The code of a short video descriptor: from 129 to 192 it is a native format, whose code is
/// 128 less.
pub open spec fn code_in(svd: u8) -> u8 {
    if 129 <= svd <= 192 {
        (svd - 128) as u8
    } else {
        svd
    }
}

/// Whether the code of a short video descriptor is in the table.
pub open spec fn is_known() -> spec_fn(u8) -> bool {
    |svd: u8| timing::vic_format(code_in(svd)) is Some
}

/// Whether `t` is the progressive format with the given code.
pub open spec fn is_format(t: Timing, vic: u8) -> bool {
    &&& timing::vic_format(vic) == Some(
        (t.h_active, t.v_active, t.h_total, t.v_total, t.pixel_clock_hz),
    )
    &&& !t.interlaced
    &&& rate_follows(t)
}

/// Each short video descriptor whose code is known is a timing, in order.
pub proof fn law_vic_timings(svds: Seq<u8>, block: usize)
    ensures
        cta::vic_timings(svds, block).len() == svds.filter(is_known()).len(),
        forall|k: int|
            0 <= k < svds.filter(is_known()).len() ==> is_format(
                #[trigger] cta::vic_timings(svds, block)[k],
                code_in(svds.filter(is_known())[k]),
            ) && cta::vic_timings(svds, block)[k].source == (TimingSource::CtaVic {
                block,
                vic: code_in(svds.filter(is_known())[k]),
            }),
    decreases svds.len(),
{
    reveal(Seq::filter);
    if svds.len() > 0 {
        let init = svds.drop_last();
        let before = cta::vic_timings(init, block);
        let all = cta::vic_timings(svds, block);
        let known = svds.filter(is_known());
        law_vic_timings(init, block);
        assert(timing::svd_code(svds.last()) == code_in(svds.last()));
        assert forall|k: int| 0 <= k < known.len() implies is_format(
            #[trigger] all[k],
            code_in(known[k]),
        ) && all[k].source == (TimingSource::CtaVic { block, vic: code_in(known[k]) }) by {
            if k < before.len() {
                assert(all[k] == before[k]);
                assert(init.filter(is_known())[k] == known[k]);
            } else {
                lemma_rate_follows(all[k]);
            }
        }
    }
}

/// Whether a data block of a CTA-861 block holds short video descriptors (tag 2).
pub open spec fn is_video() -> spec_fn((u8, Seq<u8>)) -> bool {
    |b: (u8, Seq<u8>)| b.0 == 2
}

/// The payload of a data block.
pub open spec fn payload() -> spec_fn((u8, Seq<u8>)) -> Seq<u8> {
    |b: (u8, Seq<u8>)| b.1
}

/// The short video descriptors of a CTA-861 block are the payloads of its data blocks with
/// the tag 2, one behind the other.
pub proof fn law_svds(bs: Seq<(u8, Seq<u8>)>)
    ensures
        cta::svd_bytes(bs) == bs.filter(is_video()).map_values(payload()).flatten(),
    decreases bs.len(),
{
    reveal(Seq::filter);
    if bs.len() > 0 {
        let init = bs.drop_last();
        let before = init.filter(is_video()).map_values(payload());
        law_svds(init);
        if bs.last().0 == 2 {
            let all = bs.filter(is_video()).map_values(payload());
            assert(all =~= before.push(bs.last().1));
            lemma_flatten_push(before, bs.last().1);
        }
    } else {
        assert(bs.filter(is_video()).map_values(payload()) =~= Seq::empty());
    }
}

proof fn lemma_flatten_push(ps: Seq<Seq<u8>>, p: Seq<u8>)
    ensures
        ps.push(p).flatten() == ps.flatten() + p,
    decreases ps.len(),
{
    let all = ps.push(p);
    if ps.len() == 0 {
        assert(all.drop_first() =~= Seq::empty());
        assert(all.drop_first().flatten() =~= Seq::empty());
        assert(all.flatten() =~= ps.flatten() + p);
    } else {
        assert(all.drop_first() =~= ps.drop_first().push(p));
        lemma_flatten_push(ps.drop_first(), p);
        assert(all.flatten() =~= ps.flatten() + p);
    }
}

/// Detailed timings whose pixel clock is not zero are timings, each of them, in order.
pub proof fn law_dtd_timings(ds: Seq<Seq<u8>>, block: usize)
    requires
        forall|k: int|
            0 <= k < ds.len() ==> (#[trigger] ds[k]).len() == 18 && !(ds[k][0] == 0 && ds[k][1]
                == 0),
    ensures
        cta::dtd_timings(ds, block).len() == ds.len(),
        forall|k: int|
            0 <= k < ds.len() ==> written_as_dtd(#[trigger] cta::dtd_timings(ds, block)[k], ds[k])
                && cta::dtd_timings(ds, block)[k].source == (TimingSource::CtaDtd {
                block,
                index: k as usize,
            }),
    decreases ds.len(),
{
    if ds.len() > 0 {
        let init = ds.drop_last();
        let all = cta::dtd_timings(ds, block);
        assert forall|k: int| 0 <= k < init.len() implies (#[trigger] init[k]).len() == 18 && !(
        init[k][0] == 0 && init[k][1] == 0) by {
            assert(init[k] == ds[k]);
        }
        law_dtd_timings(init, block);
        let n = ds.len() - 1;
        assert(ds[n].len() == 18 && !(ds[n][0] == 0 && ds[n][1] == 0));
        law_dtd(ds.last(), TimingSource::CtaDtd { block, index: n as usize });
        assert forall|k: int| 0 <= k < ds.len() implies written_as_dtd(#[trigger] all[k], ds[k])
            && all[k].source == (TimingSource::CtaDtd { block, index: k as usize }) by {
            if k < n {
                assert(all[k] == cta::dtd_timings(init, block)[k]);
            }
        }
    }
}

/// A CTA-861 block advertises the timings of its short video descriptors, then those of its
/// detailed timings.
pub proof fn law_cta_timings(blk: Seq<u8>, block: usize)
    requires
        blk.len() == 128,
        blk[0] == 0x02,
    ensures
        ({
            let c = cta::cta_content(blk);
            let codes = c.data_blocks.filter(is_video()).map_values(payload()).flatten().filter(
                is_known(),
            );
            let ts = edid::extension_timings(blk, block);
            &&& ts.len() == codes.len() + c.dtds.len()
            &&& forall|k: int|
                0 <= k < codes.len() ==> is_format(#[trigger] ts[k], code_in(codes[k]))
                    && ts[k].source == (TimingSource::CtaVic { block, vic: code_in(codes[k]) })
            &&& forall|k: int|
                0 <= k < c.dtds.len() ==> written_as_dtd(
                    ts[codes.len() + k],
                    #[trigger] c.dtds[k],
                ) && ts[codes.len() + k].source == (TimingSource::CtaDtd {
                    block,
                    index: k as usize,
                })
        }),
{
    let c = cta::cta_content(blk);
    let svds = cta::svd_bytes(c.data_blocks);
    let ts = edid::extension_timings(blk, block);
    law_svds(c.data_blocks);
    law_vic_timings(svds, block);
    law_cta_dtds(blk);
    law_dtd_timings(c.dtds, block);
    let codes = svds.filter(is_known());
    assert forall|k: int| 0 <= k < codes.len() implies is_format(#[trigger] ts[k], code_in(codes[k]))
        && ts[k].source == (TimingSource::CtaVic { block, vic: code_in(codes[k]) }) by {
        assert(ts[k] == cta::vic_timings(svds, block)[k]);
    }
    assert forall|k: int| 0 <= k < c.dtds.len() implies written_as_dtd(
        ts[codes.len() + k],
        #[trigger] c.dtds[k],
    ) && ts[codes.len() + k].source == (TimingSource::CtaDtd { block, index: k as usize }) by {
        assert(ts[codes.len() + k] == cta::dtd_timings(c.dtds, block)[k]);
    }
}

/// The codes that are known, by the refresh rate of their format: the pixel clock is that many
/// whole frames per second. The codes 1 to 3 are the formats at 59.94 hertz. The frame, the
/// lines of a whole frame and the pixel clock are those of the formats.
pub proof fn law_vic_rates(vic: u8)
    ensures
        match timing::vic_format(vic) {
            Some((w, h, w_total, h_total, clock)) => {
                &&& w < w_total
                &&& h < h_total
                &&& match vic {
                    1 | 2 | 3 => 5993 * (w_total * h_total) < 100 * clock < 5995 * (w_total
                        * h_total),
                    32 | 60 | 93 | 98 | 103 | 194 | 202 => clock == 24 * (w_total * h_total),
                    33 | 61 | 94 | 99 | 104 | 195 | 203 => clock == 25 * (w_total * h_total),
                    34 | 62 | 95 | 100 | 105 | 196 | 204 => clock == 30 * (w_total * h_total),
                    114 | 115 | 116 | 197 | 205 => clock == 48 * (w_total * h_total),
                    17 | 18 | 19 | 31 | 96 | 101 | 106 | 198 | 206 => clock == 50 * (w_total
                        * h_total),
                    4 | 16 | 97 | 102 | 107 | 199 | 207 => clock == 60 * (w_total * h_total),
                    64 | 117 | 119 | 121 | 200 | 208 => clock == 100 * (w_total * h_total),
                    63 | 118 | 120 | 122 | 201 | 209 => clock == 120 * (w_total * h_total),
                    _ => false,
                }
                &&& match vic {
                    1 => (w, h) == (640u32, 480u32),
                    2 | 3 => (w, h) == (720u32, 480u32),
                    17 | 18 => (w, h) == (720u32, 576u32),
                    4 | 19 | 60 | 61 | 62 => (w, h) == (1280u32, 720u32),
                    16 | 31 | 32 | 33 | 34 | 63 | 64 => (w, h) == (1920u32, 1080u32),
                    98 | 99 | 100 | 101 | 102 | 115 | 119 | 120 => (w, h) == (4096u32, 2160u32),
                    _ => if vic < 128 {
                        (w, h) == (3840u32, 2160u32)
                    } else {
                        (w, h) == (7680u32, 4320u32)
                    },
                }
                &&& match vic {
                    1 => clock == 25_175_000,
                    2 | 3 | 17 | 18 => clock == 27_000_000,
                    60 => clock == 59_400_000,
                    4 | 19 | 32 | 33 | 34 | 61 | 62 => clock == 74_250_000,
                    16 | 31 => clock == 148_500_000,
                    63 | 64 | 93 | 94 | 95 | 98 | 99 | 100 | 103 | 104 | 105 => clock
                        == 297_000_000,
                    96 | 97 | 101 | 102 | 106 | 107 | 114 | 115 | 116 => clock == 594_000_000,
                    117 | 118 | 119 | 120 | 121 | 122 => clock == 1_188_000_000,
                    194 | 195 | 196 | 202 | 203 | 204 => clock == 1_188_000_000,
                    197 | 198 | 199 | 205 | 206 | 207 => clock == 2_376_000_000,
                    _ => clock == 4_752_000_000,
                }
                &&& h_total == (if h == 480 {
                    525int
                } else if h == 576 {
                    625
                } else if h == 720 {
                    750
                } else if h == 1080 {
                    1125
                } else if h == 2160 {
                    2250
                } else if vic == 194 || vic == 197 || vic == 200 || vic == 202 || vic == 205 || vic
                    == 208 {
                    4500
                } else {
                    4400
                })
            },
            None => !(1 <= vic <= 4 || 16 <= vic <= 19 || 31 <= vic <= 34 || 60 <= vic <= 64
                || 93 <= vic <= 107 || 114 <= vic <= 122 || 194 <= vic <= 209),
        },
{
}

// ---------------------------------------------------------------------------
// The whole EDID.

/// The descriptors of the base block before number `n` that are timings.
pub open spec fn timings_before(bytes: Seq<u8>, n: int) -> int
    decreases n,
{
    if n <= 0 {
        0
    } else {
        timings_before(bytes, n - 1) + if bytes[54 + 18 * (n - 1)] == 0 && bytes[55 + 18 * (n - 1)]
            == 0 {
            0int
        } else {
            1
        }
    }
}

proof fn lemma_base_timing(bytes: Seq<u8>, n: nat)
    requires
        bytes.len() >= 128,
        n <= 4,
    ensures
        edid::base_timings(bytes, n).len() == timings_before(bytes, n as int),
        forall|i: int|
            0 <= i < n && !(bytes[54 + 18 * i] == 0 && bytes[55 + 18 * i] == 0) ==> {
                let t = edid::base_timings(bytes, n)[#[trigger] timings_before(bytes, i)];
                &&& 0 <= timings_before(bytes, i) < timings_before(bytes, n as int)
                &&& written_as_dtd(t, bytes.subrange(54 + 18 * i, 72 + 18 * i))
                &&& t.source == (TimingSource::BaseDtd { index: i as usize })
            },
    decreases n,
{
    if n > 0 {
        let m = (n - 1) as nat;
        lemma_base_timing(bytes, m);
        let d = edid::descriptor(bytes, m as int);
        law_dtd(d, TimingSource::BaseDtd { index: m as usize });
        let p = 54 + 18 * (n - 1);
        assert(d[0] == bytes[p] && d[1] == bytes[p + 1]);
        assert(d =~= bytes.subrange(p, p + 18));
    }
}

/// Each of the four descriptors in the base block (at 54, 72, 90 and 108) whose pixel clock is
/// not zero is a timing, in order; the timings of the extension blocks come behind them.
pub proof fn law_base_timing(bytes: Seq<u8>, i: int)
    requires
        bytes.len() >= 128,
        0 <= i < 4,
        !(bytes[54 + 18 * i] == 0 && bytes[55 + 18 * i] == 0),
    ensures
        ({
            let at = timings_before(bytes, i);
            let ts = edid::edid_content(bytes).timings;
            &&& 0 <= at < timings_before(bytes, 4) <= ts.len()
            &&& written_as_dtd(ts[at], bytes.subrange(54 + 18 * i, 72 + 18 * i))
            &&& ts[at].source == (TimingSource::BaseDtd { index: i as usize })
        }),
        bytes.len() < 256 ==> edid::edid_content(bytes).timings.len() == timings_before(bytes, 4),
{
    lemma_base_timing(bytes, 4);
    let ts = edid::all_timings(bytes);
    let at = timings_before(bytes, i);
    assert(ts[at] == edid::base_timings(bytes, 4)[at]);
}

/// One more block adds the timings that it advertises, behind all others: a CTA-861 block
/// (0x02) and a DisplayID block (0x70) advertise timings, other blocks do not.
pub proof fn law_one_more_block(bytes: Seq<u8>, blk: Seq<u8>)
    requires
        bytes.len() >= 128,
        bytes.len() % 128 == 0,
        blk.len() == 128,
    ensures
        ({
            let n = (bytes.len() / 128) as usize;
            let old = edid::edid_content(bytes);
            let new = edid::edid_content(bytes + blk);
            &&& new.timings == old.timings + (if blk[0] == 0x02 {
                cta::cta_timings(cta::cta_content(blk), n)
            } else if blk[0] == 0x70 {
                displayid::displayid_timings(displayid::displayid_content(blk).blocks, n)
            } else {
                Seq::empty()
            })
            &&& new.blocks.len() == old.blocks.len() + 1
            &&& old.blocks.is_prefix_of(new.blocks)
            &&& new == edid::EdidContent {
                timings: new.timings,
                blocks: new.blocks,
                length: old.length + 128,
                ..old
            }
        }),
{
    let all = bytes + blk;
    let n = block::block_count(bytes);
    assert(block::block_count(all) == n + 1);
    assert forall|k: int| 1 <= k < n implies #[trigger] block::block_at(all, k) == block::block_at(
        bytes,
        k,
    ) by {
        assert(block::block_at(all, k) =~= block::block_at(bytes, k));
    }
    assert(block::block_at(all, n as int) =~= blk);
    lemma_same_blocks(all, bytes, n);
    lemma_same_base(all, bytes, 4);
    assert(all.subrange(8, 12) =~= bytes.subrange(8, 12));
    let old = edid::edid_content(bytes);
    let new = edid::edid_content(all);
    assert(new.timings =~= old.timings + edid::extension_timings(blk, n as usize));
    assert(new.blocks == old.blocks.push(edid::extension_name(blk)));
    lemma_same_tagged(all, bytes, 0xfc, 4);
    lemma_same_tagged(all, bytes, 0xff, 4);
    lemma_same_tagged(all, bytes, 0xfd, 4);
    assert(new =~= edid::EdidContent {
        timings: new.timings,
        blocks: new.blocks,
        length: old.length + 128,
        ..old
    });
}

proof fn lemma_same_blocks(a: Seq<u8>, b: Seq<u8>, n: nat)
    requires
        forall|k: int| 1 <= k < n ==> #[trigger] block::block_at(a, k) == block::block_at(b, k),
    ensures
        edid::extensions_timings(a, n) == edid::extensions_timings(b, n),
        edid::block_names(a, n) == edid::block_names(b, n),
    decreases n,
{
    if n > 1 {
        lemma_same_blocks(a, b, (n - 1) as nat);
        assert(block::block_at(a, n - 1) == block::block_at(b, n - 1));
    }
}

proof fn lemma_same_base(a: Seq<u8>, b: Seq<u8>, n: nat)
    requires
        n <= 4,
        a.len() >= 128,
        b.len() >= 128,
        forall|k: int| 0 <= k < 128 ==> #[trigger] a[k] == b[k],
    ensures
        edid::base_timings(a, n) == edid::base_timings(b, n),
    decreases n,
{
    if n > 0 {
        lemma_same_base(a, b, (n - 1) as nat);
        assert(edid::descriptor(a, n - 1) =~= edid::descriptor(b, n - 1));
    }
}

proof fn lemma_same_tagged(a: Seq<u8>, b: Seq<u8>, tag: u8, n: nat)
    requires
        n <= 4,
        a.len() >= 128,
        b.len() >= 128,
        forall|k: int| 0 <= k < 128 ==> #[trigger] a[k] == b[k],
    ensures
        edid::last_tagged(a, tag, n) == edid::last_tagged(b, tag, n),
        edid::tagged_string(a, tag, n) == edid::tagged_string(b, tag, n),
        edid::range_limits(a, n) == edid::range_limits(b, n) || tag != 0xfd,
    decreases n,
{
    if n > 0 {
        lemma_same_tagged(a, b, tag, (n - 1) as nat);
        assert(edid::descriptor(a, n - 1) =~= edid::descriptor(b, n - 1));
    }
}

// ---------------------------------------------------------------------------
// The base block.

/// Whether descriptor `i` of the base block is a display descriptor with the given tag: its
/// first two bytes are zero and the fourth is the tag.
pub open spec fn is_display_descriptor(bytes: Seq<u8>, i: int, tag: u8) -> bool {
    bytes[54 + 18 * i] == 0 && bytes[55 + 18 * i] == 0 && bytes[57 + 18 * i] == tag
}

/// Whether descriptor `i` of the base block is the last display descriptor with the given tag.
pub open spec fn is_last_descriptor(bytes: Seq<u8>, i: int, tag: u8) -> bool {
    &&& 0 <= i < 4
    &&& is_display_descriptor(bytes, i, tag)
    &&& forall|j: int| i < j < 4 ==> !#[trigger] is_display_descriptor(bytes, j, tag)
}

pub proof fn lemma_last_descriptor(bytes: Seq<u8>, i: int, tag: u8)
    requires
        bytes.len() >= 128,
        0 <= i < 4,
    ensures
        is_last_descriptor(bytes, i, tag) <==> edid::last_tagged(bytes, tag, 4) == Some(i as nat),
        edid::last_tagged(bytes, tag, 4) is None <==> forall|j: int|
            0 <= j < 4 ==> !#[trigger] is_display_descriptor(bytes, j, tag),
{
    reveal_with_fuel(edid::last_tagged, 5);
    assert forall|j: int| 0 <= j < 4 implies edid::is_tagged(
        #[trigger] edid::descriptor(bytes, j),
        tag,
    ) == is_display_descriptor(bytes, j, tag) by {
        let d = edid::descriptor(bytes, j);
        assert(d[0] == bytes[54 + 18 * j]);
        assert(d[1] == bytes[55 + 18 * j]);
        assert(d[3] == bytes[57 + 18 * j]);
    }
    let a = edid::is_tagged(edid::descriptor(bytes, 0), tag);
    let b = edid::is_tagged(edid::descriptor(bytes, 1), tag);
    let c = edid::is_tagged(edid::descriptor(bytes, 2), tag);
    let d = edid::is_tagged(edid::descriptor(bytes, 3), tag);
    assert(a == is_display_descriptor(bytes, 0, tag));
    assert(b == is_display_descriptor(bytes, 1, tag));
    assert(c == is_display_descriptor(bytes, 2, tag));
    assert(d == is_display_descriptor(bytes, 3, tag));
}

/// The range limits are those of the last range limits descriptor (0xfd) at `54 + 18 * i`: the
/// lowest and highest vertical rate, the lowest and highest horizontal rate, and the pixel clock
/// in steps of 10 MHz. The flags in its fifth byte add 255 to a rate: the highest rates have a
/// bit of their own (2 and 8), the lowest need the bit below it as well.
pub proof fn law_range_limits(bytes: Seq<u8>, i: int)
    requires
        bytes.len() >= 128,
        is_last_descriptor(bytes, i, 0xfd),
    ensures
        ({
            let p = 54 + 18 * i;
            let flags = bytes[p + 4] as int;
            edid::edid_content(bytes).range_limits matches Some(rl) && {
                &&& rl.descriptor_index == i
                &&& rl.v_min_hz - bytes[p + 5] == if flags % 4 == 3 {
                    255int
                } else {
                    0
                }
                &&& rl.v_max_hz - bytes[p + 6] == if flags % 4 >= 2 {
                    255int
                } else {
                    0
                }
                &&& rl.h_min_khz - bytes[p + 7] == if flags % 16 >= 12 {
                    255int
                } else {
                    0
                }
                &&& rl.h_max_khz - bytes[p + 8] == if flags % 16 >= 8 {
                    255int
                } else {
                    0
                }
                &&& rl.max_pixel_clock_mhz == 10 * bytes[p + 9]
            }
        }),
{
    lemma_last_descriptor(bytes, i, 0xfd);
    lemma_limits_of(bytes, i);
    assert(edid::edid_content(bytes).range_limits == edid::range_limits(bytes, 4));
}

proof fn lemma_limits_of(bytes: Seq<u8>, i: int)
    requires
        bytes.len() >= 128,
        0 <= i < 4,
    ensures
        ({
            let p = 54 + 18 * i;
            let flags = bytes[p + 4] as int;
            let rl = edid::range_limits_of(edid::descriptor(bytes, i), i);
            &&& rl.descriptor_index == i
            &&& rl.v_min_hz - bytes[p + 5] == if flags % 4 == 3 {
                255int
            } else {
                0
            }
            &&& rl.v_max_hz - bytes[p + 6] == if flags % 4 >= 2 {
                255int
            } else {
                0
            }
            &&& rl.h_min_khz - bytes[p + 7] == if flags % 16 >= 12 {
                255int
            } else {
                0
            }
            &&& rl.h_max_khz - bytes[p + 8] == if flags % 16 >= 8 {
                255int
            } else {
                0
            }
            &&& rl.max_pixel_clock_mhz == 10 * bytes[p + 9]
        }),
{
    let d = edid::descriptor(bytes, i);
    let p = 54 + 18 * i;
    assert(d[4] == bytes[p + 4]);
    assert(d[5] == bytes[p + 5]);
    assert(d[6] == bytes[p + 6]);
    assert(d[7] == bytes[p + 7]);
    assert(d[8] == bytes[p + 8]);
    assert(d[9] == bytes[p + 9]);
    lemma_flags(d[4] as int);
}

proof fn lemma_flags(f: int)
    requires
        0 <= f < 256,
    ensures
        (f / 2) % 2 == 1 <==> f % 4 >= 2,
        (f / 4) % 4 == 3 <==> f % 16 >= 12,
        (f / 8) % 2 == 1 <==> f % 16 >= 8,
{
}

/// Without a range limits descriptor there are no range limits, without a name descriptor (0xfc)
/// no name, and without a serial number descriptor (0xff) no serial number text.
pub proof fn law_no_descriptor(bytes: Seq<u8>, tag: u8)
    requires
        bytes.len() >= 128,
        forall|j: int| 0 <= j < 4 ==> !#[trigger] is_display_descriptor(bytes, j, tag),
    ensures
        tag == 0xfd ==> edid::edid_content(bytes).range_limits is None,
        tag == 0xfc ==> edid::edid_content(bytes).name is None,
        tag == 0xff ==> edid::edid_content(bytes).serial_string is None,
{
    lemma_last_descriptor(bytes, 0, tag);
}

/// Whether `s` is the text of descriptor `i` of the base block, which the thirteen bytes from its
/// sixth on write: the `n` characters before the first line feed or zero, without white space at
/// either end.
pub open spec fn is_text_of(s: Seq<char>, bytes: Seq<u8>, i: int, n: int) -> bool {
    let p = 54 + 18 * i + 5;
    &&& 0 <= n <= 13
    &&& forall|k: int| 0 <= k < n ==> #[trigger] bytes[p + k] != 0x0a && bytes[p + k] != 0
    &&& n < 13 ==> bytes[p + n] == 0x0a || bytes[p + n] == 0
    &&& s == text::trimmed(Seq::new(n as nat, |k: int| bytes[p + k] as char))
}

proof fn lemma_up_to_end(s: Seq<u8>)
    ensures
        ({
            let t = edid::up_to_end(s);
            &&& t.is_prefix_of(s)
            &&& forall|k: int| 0 <= k < t.len() ==> #[trigger] s[k] != 0x0a && s[k] != 0
            &&& t.len() < s.len() ==> s[t.len() as int] == 0x0a || s[t.len() as int] == 0
        }),
    decreases s.len(),
{
    let t = edid::up_to_end(s);
    if s.len() > 0 && s[0] != 0x0a && s[0] != 0 {
        let rest = s.drop_first();
        let more = edid::up_to_end(rest);
        lemma_up_to_end(rest);
        assert forall|k: int| 0 <= k < t.len() implies #[trigger] s[k] != 0x0a && s[k] != 0 && t[k]
            == s[k] by {
            if k > 0 {
                assert(rest[k - 1] == s[k]);
                assert(t[k] == more[k - 1]);
            }
        }
        assert(t =~= s.subrange(0, t.len() as int));
        if t.len() < s.len() {
            assert(rest[more.len() as int] == s[t.len() as int]);
        }
    } else {
        assert(t =~= s.subrange(0, 0));
    }
}

proof fn lemma_text_at(bytes: Seq<u8>, i: int) -> (n: int)
    requires
        bytes.len() >= 128,
        0 <= i < 4,
    ensures
        is_text_of(edid::descriptor_string(edid::descriptor(bytes, i)), bytes, i, n),
{
    let d = edid::descriptor(bytes, i);
    let body = d.subrange(5, 18);
    let t = edid::up_to_end(body);
    let n = t.len() as int;
    let p = 59 + 18 * i;
    lemma_up_to_end(body);
    assert forall|k: int| 0 <= k < 13 implies #[trigger] body[k] == bytes[p + k] by {}
    assert forall|k: int| 0 <= k < n implies #[trigger] bytes[p + k] != 0x0a && bytes[p + k] != 0 by {
        assert(body[k] == bytes[p + k]);
    }
    if n < 13 {
        assert(body[n] == bytes[p + n]);
    }
    assert(t.map_values(|b: u8| b as char) =~= Seq::new(n as nat, |k: int| bytes[p + k] as char)) by {
        assert forall|k: int| 0 <= k < n implies t[k] == bytes[p + k] by {
            assert(t[k] == body[k]);
        }
    }
    n
}

/// The name of a display is the text of its last name descriptor (0xfc), its serial number text
/// that of its last serial number descriptor (0xff).
pub proof fn law_descriptor_texts(bytes: Seq<u8>, i: int)
    requires
        bytes.len() >= 128,
    ensures
        is_last_descriptor(bytes, i, 0xfc) ==> (edid::edid_content(bytes).name matches Some(s)
            && exists|n: int| is_text_of(s, bytes, i, n)),
        is_last_descriptor(bytes, i, 0xff) ==> (edid::edid_content(bytes).serial_string matches Some(
            s,
        ) && exists|n: int| is_text_of(s, bytes, i, n)),
{
    if 0 <= i < 4 {
        let n = lemma_text_at(bytes, i);
        let s = edid::descriptor_string(edid::descriptor(bytes, i));
        lemma_last_descriptor(bytes, i, 0xfc);
        lemma_last_descriptor(bytes, i, 0xff);
        assert(is_text_of(s, bytes, i, n));
        if is_last_descriptor(bytes, i, 0xfc) {
            assert(edid::edid_content(bytes).name == Some(s));
            assert(is_text_of(edid::edid_content(bytes).name->0, bytes, i, n));
        }
        if is_last_descriptor(bytes, i, 0xff) {
            assert(edid::edid_content(bytes).serial_string == Some(s));
            assert(is_text_of(edid::edid_content(bytes).serial_string->0, bytes, i, n));
        }
    }
}

/// What a base block says of the display: the four bytes from 8 on are its id, in hexadecimal;
/// the first two of them are the manufacturer, five bits for each letter; the last two are the
/// product code, low byte first. The serial number, the week, the year since 1990 and the
/// version of the EDID follow.
pub proof fn law_identity(bytes: Seq<u8>)
    requires
        bytes.len() >= 128,
    ensures
        ({
            let c = edid::edid_content(bytes);
            let m = c.manufacturer;
            &&& c.id == seq![
                text_laws::hex_char(bytes[8] as int / 16),
                text_laws::hex_char(bytes[8] as int % 16),
                text_laws::hex_char(bytes[9] as int / 16),
                text_laws::hex_char(bytes[9] as int % 16),
                text_laws::hex_char(bytes[10] as int / 16),
                text_laws::hex_char(bytes[10] as int % 16),
                text_laws::hex_char(bytes[11] as int / 16),
                text_laws::hex_char(bytes[11] as int % 16),
            ]
            &&& m.len() == 3
            &&& forall|k: int| 0 <= k < 3 ==> 64 <= #[trigger] m[k] as int <= 95
            &&& 1024 * (m[0] as int - 64) + 32 * (m[1] as int - 64) + (m[2] as int - 64) == (256
                * bytes[8] + bytes[9]) % 32768
            &&& c.product_code as int % 256 == bytes[10]
            &&& c.product_code as int / 256 == bytes[11]
            &&& c.serial as int % 256 == bytes[12]
            &&& (c.serial as int / 256) % 256 == bytes[13]
            &&& (c.serial as int / 65536) % 256 == bytes[14]
            &&& c.serial as int / 16777216 == bytes[15]
            &&& c.week == bytes[16]
            &&& c.year - 1990 == bytes[17]
            &&& c.version == text::dec(bytes[18] as nat) + seq!['.'] + text::dec(bytes[19] as nat)
            &&& c.extension_count == bytes[126]
            &&& c.length == bytes.len()
        }),
{
    let c = edid::edid_content(bytes);
    lemma_id(bytes);
    lemma_manufacturer(bytes);
    assert(c.manufacturer == edid::manufacturer_of(bytes));
    assert(c.id == text::hex_text(bytes.subrange(8, 12)));
    lemma_le_bytes(bytes[12], bytes[13], bytes[14], bytes[15]);
    reveal_strlit(".");
    assert("."@ =~= seq!['.']);
}

proof fn lemma_le_bytes(a: u8, b: u8, c: u8, d: u8)
    ensures
        ({
            let n = a + 256 * b + 65536 * c + 16777216 * d;
            &&& 0 <= n <= u32::MAX
            &&& n % 256 == a
            &&& (n / 256) % 256 == b
            &&& (n / 65536) % 256 == c
            &&& n / 16777216 == d
        }),
{
    let n = a + 256 * b + 65536 * c + 16777216 * d;
    vstd::arithmetic::div_mod::lemma_fundamental_div_mod_converse(
        n,
        256,
        b + 256 * c + 65536 * d,
        a as int,
    );
    vstd::arithmetic::div_mod::lemma_fundamental_div_mod_converse(
        b + 256 * c + 65536 * d,
        256,
        c + 256 * d,
        b as int,
    );
    vstd::arithmetic::div_mod::lemma_fundamental_div_mod_converse(
        n,
        65536,
        c + 256 * d,
        a + 256 * b,
    );
    vstd::arithmetic::div_mod::lemma_fundamental_div_mod_converse(
        c + 256 * d,
        256,
        d as int,
        c as int,
    );
    vstd::arithmetic::div_mod::lemma_fundamental_div_mod_converse(
        n,
        16777216,
        d as int,
        a + 256 * b + 65536 * c,
    );
}

proof fn lemma_manufacturer(bytes: Seq<u8>)
    requires
        bytes.len() >= 128,
    ensures
        ({
            let m = edid::manufacturer_of(bytes);
            &&& m.len() == 3
            &&& forall|k: int| 0 <= k < 3 ==> 64 <= #[trigger] m[k] as int <= 95
            &&& 1024 * (m[0] as int - 64) + 32 * (m[1] as int - 64) + (m[2] as int - 64) == (256
                * bytes[8] + bytes[9]) % 32768
        }),
{
    let code = 256 * bytes[8] + bytes[9];
    let m = edid::manufacturer_of(bytes);
    lemma_letter(code / 1024);
    lemma_letter(code / 32);
    lemma_letter(code);
    assert(m == seq![edid::letter(code / 1024), edid::letter(code / 32), edid::letter(code)]);
    lemma_five_bits(code);
    assert forall|k: int| 0 <= k < 3 implies 64 <= #[trigger] m[k] as int <= 95 by {
        assert(k == 0 || k == 1 || k == 2);
    }
}

proof fn lemma_letter(bits: int)
    requires
        0 <= bits,
    ensures
        edid::letter(bits) as int == bits % 32 + 64,
        0 <= bits % 32 < 32,
{
    let n = bits % 32 + 64;
    assert(64 <= n < 96);
    assert((n as u8) as char as int == n);
}

proof fn lemma_five_bits(code: int)
    requires
        0 <= code < 65536,
    ensures
        1024 * ((code / 1024) % 32) + 32 * ((code / 32) % 32) + code % 32 == code % 32768,
{
    let q = code / 32;
    let p = q / 32;
    assert(code / 1024 == p);
    assert(32 * (p % 32) + q % 32 == q % 1024) by {
        assert(q == 32 * p + q % 32);
        assert(p == 32 * (p / 32) + p % 32);
    }
    assert(32 * (q % 1024) + code % 32 == code % 32768) by {
        assert(q == 1024 * (q / 1024) + q % 1024);
    }
}

proof fn lemma_id(bytes: Seq<u8>)
    requires
        bytes.len() >= 128,
    ensures
        text::hex_text(bytes.subrange(8, 12)) == seq![
            text_laws::hex_char(bytes[8] as int / 16),
            text_laws::hex_char(bytes[8] as int % 16),
            text_laws::hex_char(bytes[9] as int / 16),
            text_laws::hex_char(bytes[9] as int % 16),
            text_laws::hex_char(bytes[10] as int / 16),
            text_laws::hex_char(bytes[10] as int % 16),
            text_laws::hex_char(bytes[11] as int / 16),
            text_laws::hex_char(bytes[11] as int % 16),
        ],
{
    let id = bytes.subrange(8, 12);
    let none = Seq::<u8>::empty();
    text_laws::law_hex_text(none, bytes[8]);
    text_laws::law_hex_text(none.push(bytes[8]), bytes[9]);
    text_laws::law_hex_text(none.push(bytes[8]).push(bytes[9]), bytes[10]);
    text_laws::law_hex_text(none.push(bytes[8]).push(bytes[9]).push(bytes[10]), bytes[11]);
    assert(id =~= none.push(bytes[8]).push(bytes[9]).push(bytes[10]).push(bytes[11]));
    assert(text::hex_text(id) =~= seq![
        text_laws::hex_char(bytes[8] as int / 16),
        text_laws::hex_char(bytes[8] as int % 16),
        text_laws::hex_char(bytes[9] as int / 16),
        text_laws::hex_char(bytes[9] as int % 16),
        text_laws::hex_char(bytes[10] as int / 16),
        text_laws::hex_char(bytes[10] as int % 16),
        text_laws::hex_char(bytes[11] as int / 16),
        text_laws::hex_char(bytes[11] as int % 16),
    ]);
}

/// Behind the whole blocks of an EDID, the rest of a last block that is not whole is named with its
/// length; when there is no such rest, there is no name for it.
pub proof fn law_block_rest(bytes: Seq<u8>)
    requires
        bytes.len() >= 128,
    ensures
        ({
            let names = edid::edid_content(bytes).blocks;
            let whole = bytes.len() / 128;
            &&& bytes.len() == 128 * whole ==> names.len() == whole
            &&& bytes.len() > 128 * whole ==> names.len() == whole + 1 && names.last()
                == "truncated block ("@ + text::dec((bytes.len() - 128 * whole) as nat)
                + " bytes)"@
        }),
{
    lemma_names_count(bytes, block::block_count(bytes));
}

proof fn lemma_names_count(bytes: Seq<u8>, n: nat)
    requires
        n >= 1,
    ensures
        edid::block_names(bytes, n).len() == n,
    decreases n,
{
    if n > 1 {
        lemma_names_count(bytes, (n - 1) as nat);
    }
}

/// The blocks of an EDID are named one by one: the base block, each whole extension block by
/// its tag and its version, and the rest of a last block that is not whole.
pub proof fn law_block_names(bytes: Seq<u8>, k: int)
    requires
        bytes.len() >= 128,
        1 <= k < bytes.len() / 128,
    ensures
        ({
            let names = edid::edid_content(bytes).blocks;
            let tag = bytes[128 * k];
            let version = bytes[128 * k + 1] as int;
            &&& names.len() == (bytes.len() + 127) / 128
            &&& names[0] == "base"@
            &&& tag == 0x02 ==> names[k] == "CTA-861 rev "@ + text::dec(version as nat)
            &&& tag == 0x70 ==> names[k] == "DisplayID v"@ + seq![
                text_laws::hex_char(version / 16),
                '.',
                text_laws::hex_char(version % 16),
            ]
            &&& tag == 0xf0 ==> names[k] == "block map"@
            &&& tag != 0x02 && tag != 0x70 && tag != 0xf0 ==> names[k] == "unknown extension 0x"@
                + seq![text_laws::hex_char(tag as int / 16), text_laws::hex_char(tag as int % 16)]
        }),
{
    let n = block::block_count(bytes);
    let blk = block::block_at(bytes, k);
    let (a, b) = ((blk[1] / 16) as nat, (blk[1] % 16) as nat);
    lemma_names(bytes, n, k);
    assert(blk[0] == bytes[128 * k] && blk[1] == bytes[128 * k + 1]);
    reveal_strlit(".");
    text_laws::law_hex_digits(0, a, 0);
    text_laws::law_hex_digits(0, b, 0);
    text_laws::law_hex_digits((blk[0] / 16) as nat, (blk[0] % 16) as nat, 1);
    text_laws::law_hex_digits(0, (blk[0] / 16) as nat, 0);
    assert(text::hex_digits(0, 0) =~= Seq::<char>::empty());
    if blk[0] == 0x70 {
        assert(edid::extension_name(blk) =~= "DisplayID v"@ + seq![
            text_laws::hex_char(a as int),
            '.',
            text_laws::hex_char(b as int),
        ]);
    }
    if blk[0] != 0x02 && blk[0] != 0x70 && blk[0] != 0xf0 {
        assert(edid::extension_name(blk) =~= "unknown extension 0x"@ + seq![
            text_laws::hex_char(blk[0] as int / 16),
            text_laws::hex_char(blk[0] as int % 16),
        ]);
    }
}

proof fn lemma_names(bytes: Seq<u8>, n: nat, k: int)
    requires
        n >= 1,
    ensures
        edid::block_names(bytes, n).len() == n,
        edid::block_names(bytes, n)[0] == "base"@,
        1 <= k < n ==> edid::block_names(bytes, n)[k] == edid::extension_name(
            block::block_at(bytes, k),
        ),
    decreases n,
{
    if n > 1 {
        lemma_names(bytes, (n - 1) as nat, k);
    }
}

/// A display is labelled by its name, or else by its manufacturer and its product code.
pub proof fn law_label(c: edid::EdidContent, n: Seq<char>)
    ensures
        c.name == Some(n) && n.len() > 0 ==> c.label() == n,
        c.name is None || c.name == Some(Seq::<char>::empty()) ==> c.manufacturer.is_prefix_of(
            c.label(),
        ) && c.label().len() == c.manufacturer.len() + 7 && c.label().skip(
            c.manufacturer.len() as int,
        ) == seq![
            ' ',
            '0',
            'x',
            text_laws::hex_char(c.product_code as int / 4096),
            text_laws::hex_char((c.product_code as int / 256) % 16),
            text_laws::hex_char((c.product_code as int / 16) % 16),
            text_laws::hex_char(c.product_code as int % 16),
        ],
{
    let p = c.product_code as nat;
    reveal_strlit(" 0x");
    text_laws::law_hex_digits(p / 16, p % 16, 3);
    text_laws::law_hex_digits(p / 256, (p / 16) % 16, 2);
    text_laws::law_hex_digits(p / 4096, (p / 256) % 16, 1);
    text_laws::law_hex_digits(0, p / 4096, 0);
    assert(p / 16 == 16 * (p / 256) + (p / 16) % 16);
    assert(p / 256 == 16 * (p / 4096) + (p / 256) % 16);
    assert(text::hex_digits(0, 0) =~= Seq::<char>::empty());
    if !(c.name matches Some(m) && m.len() > 0) {
        assert(c.manufacturer =~= c.label().subrange(0, c.manufacturer.len() as int));
        assert(c.label().skip(c.manufacturer.len() as int) =~= seq![
            ' ',
            '0',
            'x',
            text_laws::hex_char(c.product_code as int / 4096),
            text_laws::hex_char((c.product_code as int / 256) % 16),
            text_laws::hex_char((c.product_code as int / 16) % 16),
            text_laws::hex_char(c.product_code as int % 16),
        ]);
    }
}

/// The highest timing: progressive, and no progressive timing has more active pixels per second.
/// Of several with as many, it is the last.
pub proof fn law_highest_timing(ts: Seq<Timing>, i: int)
    requires
        0 <= i < ts.len(),
        !ts[i].interlaced,
        forall|k: int| 0 <= k < ts.len() ==> (#[trigger] ts[k]).refresh_hz.den > 0,
    ensures
        edid::highest(ts) matches Some(m) && {
            &&& !m.interlaced
            &&& ts.contains(m)
            &&& (ts[i].h_active * ts[i].v_active * ts[i].refresh_hz.num) * m.refresh_hz.den <= (
            m.h_active * m.v_active * m.refresh_hz.num) * ts[i].refresh_hz.den
        },
{
    edid::law_highest(ts);
    let m = edid::highest(ts)->0;
    let k = choose|k: int| 0 <= k < ts.len() && ts[k] == m;
    assert(ts[k].refresh_hz.den > 0);
    lemma_active_rate(m);
    lemma_active_rate(ts[i]);
    rate::law_below(m.active_rate(), ts[i].active_rate());
}

proof fn lemma_active_rate(t: Timing)
    requires
        t.refresh_hz.den > 0,
    ensures
        t.active_rate().num == t.h_active * t.v_active * t.refresh_hz.num,
        t.active_rate().den == t.refresh_hz.den,
{
    let area = t.h_active * t.v_active;
    assert(0 <= area <= 0xffff_ffff * 0xffff_ffff) by (nonlinear_arith)
        requires
            area == t.h_active * t.v_active,
            0 <= t.h_active <= 0xffff_ffff,
            0 <= t.v_active <= 0xffff_ffff,
    ;
    assert(0 <= area * t.refresh_hz.num <= u64::MAX * u64::MAX) by (nonlinear_arith)
        requires
            0 <= area <= u64::MAX,
            0 <= t.refresh_hz.num <= u64::MAX,
    ;
}

/// The id of an EDID of at least twelve bytes is that of bytes 8 to 11; a shorter one has none.
pub proof fn law_id(bytes: Seq<u8>)
    ensures
        edid::id_text(bytes) is Some <==> bytes.len() >= 12,
        bytes.len() >= 128 ==> edid::id_text(bytes) == Some(edid::edid_content(bytes).id),
        bytes.len() >= 12 ==> edid::id_text(bytes) == Some(text::hex_text(bytes.subrange(8, 12))),
{
}

} // verus!
