//! What capping an EDID guarantees, and what decoding one reads.

use vstd::prelude::*;

use crate::cap::CapOptions;
use crate::cta::CtaContent;
use crate::edid::RangeLimits;
use crate::rate::Hz;
use crate::timing::{Timing, TimingSource};
use crate::{
    block, cap, cta, cta_cap, cta_laws, displayid, displayid_cap, displayid_laws, edid, rate, seqs,
    timing,
};

verus! {

// ---------------------------------------------------------------------------
// One extension block.

/// Whether nothing goes from extension block number `n`.
pub open spec fn extension_untouched(blk: Seq<u8>, n: usize, cap: Hz) -> bool {
    &&& blk[0] == 0x02 ==> !cta_cap::cta_changed(cta::cta_content(blk), cap)
    &&& blk[0] == 0x70 ==> cap::extension_dropped(blk, n, cap).len() == 0
}

/// A block from which nothing goes stays byte for byte and advertises nothing above the cap.
pub proof fn lemma_untouched_extension(blk: Seq<u8>, n: usize, cap: Hz)
    requires
        extension_untouched(blk, n, cap),
    ensures
        cap::extension_fits(blk, cap),
        cap::capped_extension(blk, n, cap) == blk,
        cap::extension_dropped(blk, n, cap).len() == 0,
        forall|i: int|
            0 <= i < edid::extension_timings(blk, n).len() ==> !(
            #[trigger] edid::extension_timings(blk, n)[i]).refresh_hz.above(cap),
{
    if blk[0] == 0x02 {
        cta_laws::lemma_unchanged_cta_within(cta::cta_content(blk), n, cap);
        cta_laws::lemma_unchanged_cta_drops_nothing(cta::cta_content(blk), n, cap);
    } else if blk[0] == 0x70 {
        let ts = edid::extension_timings(blk, n);
        let above = cta_cap::is_above(cap);
        assert forall|i: int| 0 <= i < ts.len() implies !(#[trigger] ts[i]).refresh_hz.above(
            cap,
        ) by {
            if ts[i].refresh_hz.above(cap) {
                assert(above(ts[i]));
                ts.lemma_filter_contains(above, i);
            }
        }
    }
}

/// What a rewritten CTA-861 block says.
pub proof fn lemma_rewritten_cta(blk: Seq<u8>, cap: Hz)
    requires
        blk.len() == 128,
        blk[0] == 0x02,
        cta_cap::cta_changed(cta::cta_content(blk), cap),
        cap::extension_fits(blk, cap),
    ensures
        ({
            let c = cta_cap::capped_cta(cta::cta_content(blk), cap);
            &&& cta::cta_regular(c)
            &&& cta::cta_content(cta::cta_bytes(c)) == (CtaContent {
                dtds: if cta::cta_size(c) <= 127 {
                    c.dtds
                } else {
                    c.dtds.drop_last()
                },
                ..c
            })
            &&& cta::cta_size(c) > 127 ==> c.dtds.len() > 0
        }),
{
    let old = cta::cta_content(blk);
    let c = cta_cap::capped_cta(old, cap);
    cta::lemma_parsed_regular(blk);
    cta_laws::lemma_capped_cta_regular(old, cap);
    cta::law_cta_round_trip(c);
}

/// Nothing goes from a capped block under the same or a higher cap.
pub proof fn lemma_capped_untouched(blk: Seq<u8>, n: usize, low: Hz, high: Hz)
    requires
        blk.len() == 128,
        cap::extension_fits(blk, low),
        cta_laws::not_lower(high, low),
    ensures
        extension_untouched(cap::capped_extension(blk, n, low), n, high),
{
    cap::lemma_capped_extension(blk, n, low);
    if blk[0] == 0x02 {
        let old = cta::cta_content(blk);
        cta::lemma_parsed_regular(blk);
        cta_laws::lemma_capped_cta_settled(old, low, high);
        if cta_cap::cta_changed(old, low) {
            lemma_rewritten_cta(blk, low);
        }
    } else if blk[0] == 0x70 {
        let c = displayid::displayid_content(blk);
        if cap::extension_dropped(blk, n, low).len() > 0 {
            let d = displayid_cap::capped_displayid(c, low);
            displayid::lemma_parsed_displayid_regular(blk);
            displayid_cap::lemma_capped_displayid_regular(c, low);
            displayid::law_displayid_round_trip(d);
            displayid_laws::lemma_capped_displayid_settled(c.blocks, n, low, high);
        } else {
            let ts = displayid::displayid_timings(c.blocks, n);
            lemma_untouched_extension(blk, n, low);
            displayid_laws::lemma_displayid_positive(c.blocks, n);
            assert forall|i: int| 0 <= i < ts.len() implies !(#[trigger] ts[i]).refresh_hz.above(
                high,
            ) by {
                assert(edid::extension_timings(blk, n)[i] == ts[i]);
                if ts[i].refresh_hz.above(high) {
                    rate::lemma_above_higher_cap(ts[i].refresh_hz, low, high);
                }
            }
            cta_laws::lemma_none_above(ts, high);
        }
    }
}

/// Whether what stays of an extension block fits into a block with its checksum.
pub open spec fn extension_fits_well(blk: Seq<u8>, cap: Hz) -> bool {
    blk[0] == 0x02 && cta_cap::cta_changed(cta::cta_content(blk), cap) ==> cta::cta_size(
        cta_cap::capped_cta(cta::cta_content(blk), cap),
    ) <= 127
}

/// A capped block advertises exactly the modes within the cap, in the same order.
pub proof fn lemma_capped_extension_modes(blk: Seq<u8>, n: usize, cap: Hz)
    requires
        blk.len() == 128,
        cap.den > 0,
        extension_fits_well(blk, cap),
    ensures
        cta_laws::modes(edid::extension_timings(cap::capped_extension(blk, n, cap), n))
            == cta_laws::modes(
            edid::extension_timings(blk, n).filter(cta_cap::is_within(cap)),
        ),
{
    let ts = edid::extension_timings(blk, n);
    let within = cta_cap::is_within(cap);
    cap::lemma_capped_extension(blk, n, cap);
    if blk[0] == 0x02 && cta_cap::cta_changed(cta::cta_content(blk), cap) {
        lemma_rewritten_cta(blk, cap);
        cta_laws::lemma_capped_cta_modes(cta::cta_content(blk), n, cap);
    } else if blk[0] == 0x70 && cap::extension_dropped(blk, n, cap).len() > 0 {
        let c = displayid::displayid_content(blk);
        let d = displayid_cap::capped_displayid(c, cap);
        displayid::lemma_parsed_displayid_regular(blk);
        displayid_cap::lemma_capped_displayid_regular(c, cap);
        displayid::law_displayid_round_trip(d);
        displayid_laws::lemma_blank_end_timings(d.blocks, n);
        displayid_laws::lemma_capped_displayid_modes(c.blocks, n, cap);
    } else {
        lemma_untouched_extension(blk, n, cap);
        assert forall|i: int| 0 <= i < ts.len() implies within(#[trigger] ts[i]) by {}
        seqs::lemma_filter_same_len(ts, within);
    }
}

proof fn lemma_dtds_end(blk: Seq<u8>, j: int)
    requires
        blk.len() >= 128,
        0 <= j,
    ensures
        cta::dtds_from(blk, j).len() > 0 ==> j + 18 * cta::dtds_from(blk, j).len() <= 127,
    decreases 128 - j,
{
    if j + 18 < 128 && !(blk[j] == 0 && blk[j + 1] == 0) {
        lemma_dtds_end(blk, j + 18);
    }
}

/// Whether the data blocks of a CTA-861 block end where its detailed timings start, or
/// before.
pub open spec fn well_formed(blk: Seq<u8>) -> bool {
    blk[0] == 0x02 ==> 4 + cta::data_bytes(cta::cta_content(blk).data_blocks).len() <= blk[2]
}

proof fn lemma_well_formed_fits(blk: Seq<u8>, cap: Hz)
    requires
        blk.len() == 128,
        well_formed(blk),
    ensures
        extension_fits_well(blk, cap),
{
    let c = cta::cta_content(blk);
    cta::lemma_parsed_regular(blk);
    cta_laws::lemma_capped_cta_regular(c, cap);
    lemma_dtds_end(blk, blk[2] as int);
}

/// An EDID whose CTA-861 blocks are well formed can be capped at any rate.
pub proof fn law_well_formed_can_be_capped(bytes: Seq<u8>, opts: CapOptions)
    requires
        forall|n: int|
            1 <= n < block::block_count(bytes) ==> well_formed(#[trigger] block::block_at(bytes, n)),
    ensures
        cap::cap_fits(bytes, opts),
        fits_well(bytes, opts),
{
    assert forall|n: int| 1 <= n < block::block_count(bytes) implies extension_fits_well(
        #[trigger] block::block_at(bytes, n),
        opts.max_hz,
    ) by {
        lemma_well_formed_fits(block::block_at(bytes, n), opts.max_hz);
    }
    assert forall|n: int| 1 <= n < block::block_count(bytes) implies cap::extension_fits(
        #[trigger] block::block_at(bytes, n),
        opts.max_hz,
    ) by {
        assert(extension_fits_well(block::block_at(bytes, n), opts.max_hz));
    }
}

// ---------------------------------------------------------------------------
// The base block.

/// The EDID without the timings above the cap, its range limits lowered where a timing went.
#[verifier::opaque]
pub open spec fn lowered(bytes: Seq<u8>, opts: CapOptions) -> Seq<u8> {
    let mid = cap::trimmed(bytes, opts.max_hz);
    match edid::range_limits(mid, 4) {
        Some(rl) if cap::all_dropped(bytes, opts.max_hz).len() > 0 => cap::limited(
            mid,
            opts,
            edid::all_timings(mid),
            rl,
        ),
        _ => mid,
    }
}

/// The base block without the timings above the cap.
proof fn lemma_trimmed_base(bytes: Seq<u8>, opts: CapOptions)
    requires
        cap::accepted(bytes, opts),
        cap::cap_fits(bytes, opts),
    ensures
        ({
            let mid = cap::trimmed(bytes, opts.max_hz);
            &&& mid.len() == bytes.len()
            &&& forall|k: int|
                0 <= k < 128 ==> #[trigger] mid[k] == cap::blanked(bytes, opts.max_hz)[k]
            &&& forall|n: int|
                1 <= n < block::block_count(bytes) ==> #[trigger] block::block_at(mid, n)
                    == cap::capped_extension(block::block_at(bytes, n), n as usize, opts.max_hz)
        }),
{
    let mid = cap::trimmed(bytes, opts.max_hz);
    cap::lemma_trimmed_to(bytes, opts.max_hz, block::block_count(bytes));
    assert forall|k: int| 0 <= k < 128 implies #[trigger] mid[k] == cap::blanked(
        bytes,
        opts.max_hz,
    )[k] by {
        assert(block::block_at(mid, 0)[k] == mid[k]);
    }
}

/// A descriptor that goes becomes a dummy; the others stay.
proof fn lemma_trimmed_descriptor(bytes: Seq<u8>, opts: CapOptions, i: int)
    requires
        cap::accepted(bytes, opts),
        cap::cap_fits(bytes, opts),
        0 <= i < 4,
    ensures
        ({
            let new = edid::descriptor(cap::trimmed(bytes, opts.max_hz), i);
            if cap::slot_goes(bytes, i, opts.max_hz) {
                is_dummy(new)
            } else {
                new == edid::descriptor(bytes, i)
            }
        }),
{
    let cap = opts.max_hz;
    let new = edid::descriptor(cap::trimmed(bytes, cap), i);
    lemma_trimmed_base(bytes, opts);
    assert forall|m: int| 0 <= m < 18 implies #[trigger] new[m] == (if cap::slot_goes(
        bytes,
        i,
        cap,
    ) {
        cap::dummy_byte(m)
    } else {
        bytes[54 + 18 * i + m]
    }) by {
        let k = 54 + 18 * i + m;
        assert((k - 54) / 18 == i && (k - 54) % 18 == m);
        assert(cap::trimmed(bytes, cap)[k] == cap::blanked(bytes, cap)[k]);
    }
    if !cap::slot_goes(bytes, i, cap) {
        assert(new =~= edid::descriptor(bytes, i));
    }
}

/// A display descriptor is no timing.
proof fn lemma_tagged_stays(bytes: Seq<u8>, i: int, tag: u8, cap: Hz)
    requires
        edid::is_tagged(edid::descriptor(bytes, i), tag),
    ensures
        !cap::slot_goes(bytes, i, cap),
        edid::base_timing(bytes, i) is None,
{
}

/// Removing timings leaves the display descriptors where they are.
proof fn lemma_trimmed_tagged(bytes: Seq<u8>, opts: CapOptions, tag: u8, n: nat)
    requires
        cap::accepted(bytes, opts),
        cap::cap_fits(bytes, opts),
        n <= 4,
        tag != 0x10,
    ensures
        edid::last_tagged(cap::trimmed(bytes, opts.max_hz), tag, n) == edid::last_tagged(
            bytes,
            tag,
            n,
        ),
    decreases n,
{
    if n > 0 {
        let new = edid::descriptor(cap::trimmed(bytes, opts.max_hz), n - 1);
        lemma_trimmed_tagged(bytes, opts, tag, (n - 1) as nat);
        lemma_trimmed_descriptor(bytes, opts, n - 1);
        if cap::slot_goes(bytes, n - 1, opts.max_hz) {
            assert(new[3] == cap::dummy_byte(3));
            if edid::is_tagged(edid::descriptor(bytes, n - 1), tag) {
                lemma_tagged_stays(bytes, n - 1, tag, opts.max_hz);
            }
        }
    }
}

/// Removing timings leaves the range limits as they are.
pub proof fn lemma_trimmed_limits(bytes: Seq<u8>, opts: CapOptions)
    requires
        cap::accepted(bytes, opts),
        cap::cap_fits(bytes, opts),
    ensures
        edid::range_limits(cap::trimmed(bytes, opts.max_hz), 4) == edid::range_limits(bytes, 4),
        edid::range_limits(bytes, 4) matches Some(rl) ==> {
            let i = rl.descriptor_index;
            &&& i < 4
            &&& edid::last_tagged(bytes, 0xfd, 4) == Some(i as nat)
            &&& edid::is_tagged(edid::descriptor(bytes, i as int), 0xfd)
            &&& !cap::slot_goes(bytes, i as int, opts.max_hz)
        },
{
    lemma_trimmed_tagged(bytes, opts, 0xfd, 4);
    cap::lemma_last_tagged(bytes, 0xfd, 4);
    if let Some(i) = edid::last_tagged(bytes, 0xfd, 4) {
        lemma_tagged_stays(bytes, i as int, 0xfd, opts.max_hz);
        lemma_trimmed_descriptor(bytes, opts, i as int);
    }
}

/// Lowering the range limits touches at most three bytes of their descriptor.
proof fn lemma_lowered(bytes: Seq<u8>, opts: CapOptions)
    requires
        cap::accepted(bytes, opts),
        cap::cap_fits(bytes, opts),
    ensures
        ({
            let mid = cap::trimmed(bytes, opts.max_hz);
            let end = lowered(bytes, opts);
            &&& end.len() == bytes.len()
            &&& block::has_header(end)
            &&& forall|k: int|
                0 <= k < bytes.len() && !(edid::range_limits(bytes, 4) matches Some(rl) && (k
                    == cap::slot(rl.descriptor_index) + 4 || k == cap::slot(rl.descriptor_index)
                    + 6 || k == cap::slot(rl.descriptor_index) + 9)) ==> #[trigger] end[k] == mid[k]
            &&& forall|n: int|
                1 <= n < block::block_count(bytes) ==> #[trigger] block::block_at(end, n)
                    == block::block_at(mid, n)
        }),
{
    reveal(lowered);
    let mid = cap::trimmed(bytes, opts.max_hz);
    cap::lemma_trimmed_shape(bytes, opts);
    lemma_trimmed_limits(bytes, opts);
    if let Some(rl) = edid::range_limits(mid, 4) {
        cap::lemma_limited_shape(mid, opts, edid::all_timings(mid), rl);
    }
}

/// What becomes of the blocks: the result is valid, nothing in the base block changes before
/// the descriptors, and the extension blocks are the capped ones.
pub proof fn lemma_capped_blocks(bytes: Seq<u8>, opts: CapOptions)
    requires
        cap::accepted(bytes, opts),
        cap::cap_fits(bytes, opts),
    ensures
        ({
            let out = cap::cap_content(bytes, opts).bytes;
            &&& out.len() == bytes.len()
            &&& block::valid(out)
            &&& out == block::sealed(lowered(bytes, opts))
            &&& forall|k: int| 0 <= k < 54 || k == 126 ==> #[trigger] out[k] == bytes[k]
            &&& forall|n: int|
                1 <= n < block::block_count(bytes) ==> #[trigger] block::block_at(out, n)
                    == cap::capped_extension(block::block_at(bytes, n), n as usize, opts.max_hz)
        }),
{
    let out = cap::cap_content(bytes, opts).bytes;
    let mid = cap::trimmed(bytes, opts.max_hz);
    let end = lowered(bytes, opts);
    lemma_trimmed_base(bytes, opts);
    cap::lemma_trimmed_shape(bytes, opts);
    lemma_lowered(bytes, opts);
    lemma_trimmed_limits(bytes, opts);
    assert(out == block::sealed(end)) by {
        reveal(lowered);
    }
    assert forall|n: int| 1 <= n < block::block_count(end) implies block::block_ok(end, n) by {
        assert(block::block_at(end, n) == block::block_at(mid, n));
        assert(block::block_ok(mid, n));
    }
    cap::lemma_sealed_valid(end);
    assert forall|k: int| 0 <= k < 54 || k == 126 implies #[trigger] out[k] == bytes[k] by {
        assert(mid[k] == cap::blanked(bytes, opts.max_hz)[k]);
        assert(end[k] == mid[k]);
    }
    assert forall|n: int| 1 <= n < block::block_count(bytes) implies #[trigger] block::block_at(
        out,
        n,
    ) == cap::capped_extension(block::block_at(bytes, n), n as usize, opts.max_hz) by {
        assert(block::block_at(end, n) == block::block_at(mid, n));
    }
}

/// Byte `m` of descriptor `i` comes through the last two steps unchanged, unless it is one
/// of three bytes of the range limits.
proof fn lemma_descriptor_byte(bytes: Seq<u8>, opts: CapOptions, i: int, m: int)
    requires
        cap::accepted(bytes, opts),
        cap::cap_fits(bytes, opts),
        0 <= i < 4,
        0 <= m < 18,
        !(edid::last_tagged(bytes, 0xfd, 4) == Some(i as nat) && (m == 4 || m == 6 || m == 9)),
    ensures
        edid::descriptor(block::sealed(lowered(bytes, opts)), i).len() == 18,
        edid::descriptor(cap::trimmed(bytes, opts.max_hz), i).len() == 18,
        edid::descriptor(block::sealed(lowered(bytes, opts)), i)[m] == edid::descriptor(
            cap::trimmed(bytes, opts.max_hz),
            i,
        )[m],
{
    let k = 54 + 18 * i + m;
    let mid = cap::trimmed(bytes, opts.max_hz);
    let end = lowered(bytes, opts);
    assert(end.len() == bytes.len() && end[k] == mid[k]) by {
        lemma_lowered(bytes, opts);
        lemma_trimmed_limits(bytes, opts);
    }
    assert(mid.len() == bytes.len()) by {
        lemma_trimmed_base(bytes, opts);
    }
    assert(block::sealed(end)[k] == end[k]);
}

/// What becomes of a descriptor in the last two steps.
proof fn lemma_lowered_descriptor(bytes: Seq<u8>, opts: CapOptions, i: int)
    requires
        cap::accepted(bytes, opts),
        cap::cap_fits(bytes, opts),
        0 <= i < 4,
    ensures
        ({
            let between = edid::descriptor(cap::trimmed(bytes, opts.max_hz), i);
            let new = edid::descriptor(block::sealed(lowered(bytes, opts)), i);
            if edid::last_tagged(bytes, 0xfd, 4) == Some(i as nat) {
                forall|m: int|
                    0 <= m < 18 && m != 4 && m != 6 && m != 9 ==> #[trigger] new[m] == between[m]
            } else {
                new == between
            }
        }),
{
    let between = edid::descriptor(cap::trimmed(bytes, opts.max_hz), i);
    let new = edid::descriptor(block::sealed(lowered(bytes, opts)), i);
    let limits = edid::last_tagged(bytes, 0xfd, 4) == Some(i as nat);
    lemma_descriptor_byte(bytes, opts, i, 0);
    assert forall|m: int| 0 <= m < 18 && !(limits && (m == 4 || m == 6 || m == 9)) implies
        #[trigger] new[m] == between[m] by {
        lemma_descriptor_byte(bytes, opts, i, m);
    }
    if !limits {
        assert(new =~= between);
    }
}

/// What becomes of a descriptor of the base block: a timing above the cap becomes a dummy,
/// and of the others only the range limits may change, in three of their bytes.
pub proof fn lemma_capped_descriptor(bytes: Seq<u8>, opts: CapOptions, i: int)
    requires
        cap::accepted(bytes, opts),
        cap::cap_fits(bytes, opts),
        0 <= i < 4,
    ensures
        ({
            let old = edid::descriptor(bytes, i);
            let new = edid::descriptor(cap::cap_content(bytes, opts).bytes, i);
            if cap::slot_goes(bytes, i, opts.max_hz) {
                is_dummy(new)
            } else if edid::last_tagged(bytes, 0xfd, 4) == Some(i as nat) {
                forall|m: int|
                    0 <= m < 18 && m != 4 && m != 6 && m != 9 ==> #[trigger] new[m] == old[m]
            } else {
                new == old
            }
        }),
{
    lemma_capped_blocks(bytes, opts);
    lemma_lowered_descriptor(bytes, opts, i);
    lemma_trimmed_descriptor(bytes, opts, i);
    cap::lemma_last_tagged(bytes, 0xfd, 4);
    if edid::last_tagged(bytes, 0xfd, 4) == Some(i as nat) {
        lemma_tagged_stays(bytes, i, 0xfd, opts.max_hz);
    }
}

/// Whether the descriptor is a dummy: neither a timing nor text nor limits.
pub open spec fn is_dummy(d: Seq<u8>) -> bool {
    d.len() == 18 && forall|m: int| 0 <= m < 18 ==> #[trigger] d[m] == cap::dummy_byte(m)
}

// ---------------------------------------------------------------------------
// What is left.

/// The timing in a slot of the base block goes if it is above the cap, and stays otherwise.
#[verifier::rlimit(30)]
proof fn lemma_capped_base_timing(bytes: Seq<u8>, opts: CapOptions, i: int)
    requires
        cap::accepted(bytes, opts),
        cap::cap_fits(bytes, opts),
        0 <= i < 4,
    ensures
        edid::base_timing(cap::cap_content(bytes, opts).bytes, i) == (match edid::base_timing(
            bytes,
            i,
        ) {
            Some(t) if !t.refresh_hz.above(opts.max_hz) => Some(t),
            _ => None,
        }),
{
    let new = edid::descriptor(cap::cap_content(bytes, opts).bytes, i);
    lemma_capped_descriptor(bytes, opts, i);
    cap::lemma_last_tagged(bytes, 0xfd, 4);
    if cap::slot_goes(bytes, i, opts.max_hz) {
        assert(new[0] == cap::dummy_byte(0) && new[1] == cap::dummy_byte(1));
    } else if edid::last_tagged(bytes, 0xfd, 4) == Some(i as nat) {
        lemma_tagged_stays(bytes, i, 0xfd, opts.max_hz);
        assert(new[0] == edid::descriptor(bytes, i)[0]);
        assert(new[1] == edid::descriptor(bytes, i)[1]);
    }
}

proof fn lemma_capped_base_timings(bytes: Seq<u8>, opts: CapOptions, n: nat)
    requires
        cap::accepted(bytes, opts),
        cap::cap_fits(bytes, opts),
        n <= 4,
    ensures
        edid::base_timings(cap::cap_content(bytes, opts).bytes, n) == edid::base_timings(
            bytes,
            n,
        ).filter(cta_cap::is_within(opts.max_hz)),
    decreases n,
{
    reveal(Seq::filter);
    if n > 0 {
        let before = edid::base_timings(bytes, (n - 1) as nat);
        let within = cta_cap::is_within(opts.max_hz);
        lemma_capped_base_timings(bytes, opts, (n - 1) as nat);
        lemma_capped_base_timing(bytes, opts, n - 1);
        if let Some(t) = edid::base_timing(bytes, n - 1) {
            assert(before.push(t).drop_last() =~= before);
            assert(before.push(t).last() == t);
            assert(within(t) == !t.refresh_hz.above(opts.max_hz));
        }
    }
}

/// Whether what stays of each extension block fits into a block with its checksum.
pub open spec fn fits_well(bytes: Seq<u8>, opts: CapOptions) -> bool {
    forall|n: int|
        1 <= n < block::block_count(bytes) ==> extension_fits_well(
            #[trigger] block::block_at(bytes, n),
            opts.max_hz,
        )
}

proof fn lemma_capped_extensions_modes(bytes: Seq<u8>, opts: CapOptions, n: nat)
    requires
        cap::accepted(bytes, opts),
        fits_well(bytes, opts),
        n <= block::block_count(bytes),
    ensures
        cta_laws::modes(
            edid::extensions_timings(cap::cap_content(bytes, opts).bytes, n),
        ) == cta_laws::modes(
            edid::extensions_timings(bytes, n).filter(cta_cap::is_within(opts.max_hz)),
        ),
    decreases n,
{
    let within = cta_cap::is_within(opts.max_hz);
    let out = cap::cap_content(bytes, opts).bytes;
    if n <= 1 {
        reveal(Seq::filter);
        assert(edid::extensions_timings(bytes, n).filter(within) =~= Seq::empty());
    } else {
        let m = (n - 1) as nat;
        let blk = block::block_at(bytes, m as int);
        let before = edid::extensions_timings(bytes, m);
        let more = edid::extension_timings(blk, m as usize);
        lemma_capped_extensions_modes(bytes, opts, m);
        lemma_capped_blocks(bytes, opts);
        assert(extension_fits_well(blk, opts.max_hz));
        lemma_capped_extension_modes(blk, m as usize, opts.max_hz);
        Seq::filter_distributes_over_add(before, more, within);
        displayid_laws::lemma_modes_add(before.filter(within), more.filter(within));
        assert(block::block_at(out, m as int) == cap::capped_extension(
            blk,
            m as usize,
            opts.max_hz,
        ));
        displayid_laws::lemma_modes_add(
            edid::extensions_timings(out, m),
            edid::extension_timings(block::block_at(out, m as int), m as usize),
        );
    }
}

/// A capped EDID advertises exactly the modes within the cap, in the same order: what is
/// within the cap stays, and nothing is added. (A block whose contents leave no room for the
/// checksum loses its last detailed timing to it; such blocks are left out here.)
pub proof fn law_cap_keeps_what_is_within(bytes: Seq<u8>, opts: CapOptions)
    requires
        cap::accepted(bytes, opts),
        fits_well(bytes, opts),
    ensures
        cap::cap_fits(bytes, opts),
        cta_laws::modes(edid::all_timings(cap::cap_content(bytes, opts).bytes))
            == cta_laws::modes(
            edid::all_timings(bytes).filter(cta_cap::is_within(opts.max_hz)),
        ),
{
    let within = cta_cap::is_within(opts.max_hz);
    let out = cap::cap_content(bytes, opts).bytes;
    let count = block::block_count(bytes);
    let base = edid::base_timings(bytes, 4);
    let more = edid::extensions_timings(bytes, count);
    assert forall|n: int| 1 <= n < count implies cap::extension_fits(
        #[trigger] block::block_at(bytes, n),
        opts.max_hz,
    ) by {
        assert(extension_fits_well(block::block_at(bytes, n), opts.max_hz));
    }
    lemma_capped_base_timings(bytes, opts, 4);
    lemma_capped_extensions_modes(bytes, opts, count);
    lemma_capped_blocks(bytes, opts);
    Seq::filter_distributes_over_add(base, more, within);
    displayid_laws::lemma_modes_add(base.filter(within), more.filter(within));
    displayid_laws::lemma_modes_add(
        edid::base_timings(out, 4),
        edid::extensions_timings(out, count),
    );
}

/// A capped CTA-861 block has exactly the YCbCr 4:2:0 codes that are not above the cap, in the
/// same order.
pub proof fn law_cap_keeps_420_codes(bytes: Seq<u8>, opts: CapOptions, k: int)
    requires
        cap::accepted(bytes, opts),
        cap::cap_fits(bytes, opts),
        1 <= k < block::block_count(bytes),
        block::block_at(bytes, k)[0] == 0x02,
    ensures
        cta_cap::y420_codes(
            cta::cta_content(block::block_at(cap::cap_content(bytes, opts).bytes, k)),
        ) == cta_cap::y420_codes(cta::cta_content(block::block_at(bytes, k))).filter(
            cta_cap::code_stays(opts.max_hz),
        ),
{
    let blk = block::block_at(bytes, k);
    lemma_capped_blocks(bytes, opts);
    assert(block::block_at(cap::cap_content(bytes, opts).bytes, k) == cap::capped_extension(
        blk,
        k as usize,
        opts.max_hz,
    ));
    cta_laws::lemma_capped_cta_y420(cta::cta_content(blk), opts.max_hz);
    if cta_cap::cta_changed(cta::cta_content(blk), opts.max_hz) {
        assert(cap::extension_fits(blk, opts.max_hz));
        lemma_rewritten_cta(blk, opts.max_hz);
    }
}

/// Whether nothing goes from the EDID.
pub open spec fn untouched(bytes: Seq<u8>, cap: Hz) -> bool {
    &&& forall|i: int|
        0 <= i < 4 ==> (#[trigger] edid::base_timing(bytes, i) matches Some(t)
            ==> !t.refresh_hz.above(cap))
    &&& forall|n: int|
        1 <= n < block::block_count(bytes) ==> extension_untouched(
            #[trigger] block::block_at(bytes, n),
            n as usize,
            cap,
        )
}

proof fn lemma_base_timings_within(bytes: Seq<u8>, cap: Hz, n: nat)
    requires
        untouched(bytes, cap),
        n <= 4,
    ensures
        forall|i: int|
            0 <= i < edid::base_timings(bytes, n).len() ==> !(#[trigger] edid::base_timings(
                bytes,
                n,
            )[i]).refresh_hz.above(cap),
    decreases n,
{
    if n > 0 {
        lemma_base_timings_within(bytes, cap, (n - 1) as nat);
        assert(edid::base_timing(bytes, n - 1) matches Some(t) ==> !t.refresh_hz.above(cap));
    }
}

proof fn lemma_extensions_within(bytes: Seq<u8>, cap: Hz, n: nat)
    requires
        untouched(bytes, cap),
        n <= block::block_count(bytes),
    ensures
        forall|i: int|
            0 <= i < edid::extensions_timings(bytes, n).len() ==> !(
            #[trigger] edid::extensions_timings(bytes, n)[i]).refresh_hz.above(cap),
    decreases n,
{
    if n > 1 {
        let m = (n - 1) as nat;
        let blk = block::block_at(bytes, m as int);
        let before = edid::extensions_timings(bytes, m);
        let more = edid::extension_timings(blk, m as usize);
        lemma_extensions_within(bytes, cap, m);
        assert(extension_untouched(blk, m as usize, cap));
        lemma_untouched_extension(blk, m as usize, cap);
        assert forall|i: int| 0 <= i < (before + more).len() implies !(
        #[trigger] (before + more)[i]).refresh_hz.above(cap) by {
            if i >= before.len() {
                assert((before + more)[i] == more[i - before.len()]);
            }
        }
    }
}

/// An EDID from which nothing goes advertises nothing above the cap.
proof fn lemma_untouched_within(bytes: Seq<u8>, cap: Hz)
    requires
        untouched(bytes, cap),
    ensures
        forall|i: int|
            0 <= i < edid::all_timings(bytes).len() ==> !(#[trigger] edid::all_timings(
                bytes,
            )[i]).refresh_hz.above(cap),
{
    let base = edid::base_timings(bytes, 4);
    let more = edid::extensions_timings(bytes, block::block_count(bytes));
    lemma_base_timings_within(bytes, cap, 4);
    lemma_extensions_within(bytes, cap, block::block_count(bytes));
    assert forall|i: int| 0 <= i < (base + more).len() implies !(
    #[trigger] (base + more)[i]).refresh_hz.above(cap) by {
        if i >= base.len() {
            assert((base + more)[i] == more[i - base.len()]);
        }
    }
}

/// Nothing goes from a capped EDID under the same or a higher cap.
proof fn lemma_capped_is_untouched(bytes: Seq<u8>, opts: CapOptions, high: Hz)
    requires
        cap::accepted(bytes, opts),
        cap::cap_fits(bytes, opts),
        cta_laws::not_lower(high, opts.max_hz),
    ensures
        untouched(cap::cap_content(bytes, opts).bytes, high),
{
    let out = cap::cap_content(bytes, opts).bytes;
    lemma_capped_blocks(bytes, opts);
    assert forall|i: int| 0 <= i < 4 implies (#[trigger] edid::base_timing(out, i) matches Some(t)
        ==> !t.refresh_hz.above(high)) by {
        lemma_capped_base_timing(bytes, opts, i);
        if let Some(t) = edid::base_timing(out, i) {
            if t.refresh_hz.above(high) {
                lemma_base_rate(bytes, i);
                rate::lemma_above_higher_cap(t.refresh_hz, opts.max_hz, high);
            }
        }
    }
    assert forall|n: int| 1 <= n < block::block_count(out) implies extension_untouched(
        #[trigger] block::block_at(out, n),
        n as usize,
        high,
    ) by {
        let blk = block::block_at(bytes, n);
        assert(cap::extension_fits(blk, opts.max_hz));
        lemma_capped_untouched(blk, n as usize, opts.max_hz, high);
        assert(block::block_at(out, n) == cap::capped_extension(blk, n as usize, opts.max_hz));
    }
}

proof fn lemma_base_rate(bytes: Seq<u8>, i: int)
    ensures
        edid::base_timing(bytes, i) matches Some(t) ==> t.refresh_hz.den > 0,
{
    let d = edid::descriptor(bytes, i);
    let h_active = d[2] + 256 * (d[4] / 16);
    let h_blank = d[3] + 256 * (d[4] % 16);
    let v_active = d[5] + 256 * (d[7] / 16);
    let v_blank = d[6] + 256 * (d[7] % 16);
    timing::lemma_timing_rate(
        h_active as u32,
        v_active as u32,
        (h_active + h_blank) as u32,
        (v_active + v_blank) as u32,
        ((d[0] + 256 * d[1]) * 10_000) as u64,
        d[17] >= 128,
        TimingSource::BaseDtd { index: i as usize },
    );
}

/// No timing of a capped EDID is above the cap.
pub proof fn law_cap_leaves_nothing_above(bytes: Seq<u8>, opts: CapOptions)
    requires
        cap::accepted(bytes, opts),
        cap::cap_fits(bytes, opts),
    ensures
        forall|i: int|
            0 <= i < edid::all_timings(cap::cap_content(bytes, opts).bytes).len() ==> !(
            #[trigger] edid::all_timings(
                cap::cap_content(bytes, opts).bytes,
            )[i]).refresh_hz.above(opts.max_hz),
{
    lemma_capped_is_untouched(bytes, opts, opts.max_hz);
    lemma_untouched_within(cap::cap_content(bytes, opts).bytes, opts.max_hz);
}

// ---------------------------------------------------------------------------
// Nothing to do.

proof fn lemma_untouched_drops_nothing(bytes: Seq<u8>, cap: Hz, n: nat)
    requires
        untouched(bytes, cap),
        1 <= n <= block::block_count(bytes),
        bytes.len() >= 128,
    ensures
        cap::dropped_to(bytes, cap, n).len() == 0,
        cap::trimmed_to(bytes, cap, n) == bytes.take(128 * n as int),
    decreases n,
{
    if n == 1 {
        lemma_base_timings_within(bytes, cap, 4);
        cta_laws::lemma_none_above(edid::base_timings(bytes, 4), cap);
        assert forall|i: int| 1 <= i < 4 implies !cap::slot_goes(bytes, i, cap) by {
            assert(edid::base_timing(bytes, i) matches Some(t) ==> !t.refresh_hz.above(cap));
        }
        assert(cap::blanked(bytes, cap) =~= bytes.take(128));
    } else {
        let m = (n - 1) as nat;
        let blk = block::block_at(bytes, m as int);
        lemma_untouched_drops_nothing(bytes, cap, m);
        assert(extension_untouched(blk, m as usize, cap));
        lemma_untouched_extension(blk, m as usize, cap);
        assert(bytes.take(128 * m as int) + blk =~= bytes.take(128 * n as int));
    }
}

/// An EDID from which nothing goes comes back byte for byte.
proof fn lemma_untouched_stays(bytes: Seq<u8>, opts: CapOptions)
    requires
        opts.max_hz.positive(),
        block::valid(bytes),
        untouched(bytes, opts.max_hz),
    ensures
        cap::accepted(bytes, opts),
        cap::cap_fits(bytes, opts),
        cap::cap_content(bytes, opts).bytes == bytes,
        cap::cap_content(bytes, opts).unchanged,
        cap::cap_content(bytes, opts).dropped.len() == 0,
{
    let count = block::block_count(bytes);
    assert(edid::base_timing(bytes, 0) matches Some(t) ==> !t.refresh_hz.above(opts.max_hz));
    assert forall|n: int| 1 <= n < count implies cap::extension_fits(
        #[trigger] block::block_at(bytes, n),
        opts.max_hz,
    ) by {
        lemma_untouched_extension(block::block_at(bytes, n), n as usize, opts.max_hz);
    }
    lemma_untouched_drops_nothing(bytes, opts.max_hz, count);
    assert(bytes.take(128 * count as int) =~= bytes);
    assert(block::block_ok(bytes, 0));
    let base = block::block_at(bytes, 0);
    block::lemma_sealed(base);
    assert(base.take(127) =~= bytes.take(127));
    assert(block::sealed(base)[127] == base[127]);
    assert(block::sealed(bytes) =~= bytes);
}

proof fn lemma_base_untouched(bytes: Seq<u8>, cap: Hz, n: nat)
    requires
        forall|i: int|
            0 <= i < edid::base_timings(bytes, n).len() ==> !(#[trigger] edid::base_timings(
                bytes,
                n,
            )[i]).refresh_hz.above(cap),
    ensures
        forall|i: int|
            0 <= i < n ==> (#[trigger] edid::base_timing(bytes, i) matches Some(t)
                ==> !t.refresh_hz.above(cap)),
    decreases n,
{
    if n > 0 {
        let before = edid::base_timings(bytes, (n - 1) as nat);
        let all = edid::base_timings(bytes, n);
        assert forall|i: int| 0 <= i < before.len() implies !(
        #[trigger] before[i]).refresh_hz.above(cap) by {
            assert(all[i] == before[i]);
        }
        lemma_base_untouched(bytes, cap, (n - 1) as nat);
        if edid::base_timing(bytes, n - 1) is Some {
            assert(!all[all.len() - 1].refresh_hz.above(cap));
        }
    }
}

proof fn lemma_extensions_untouched(bytes: Seq<u8>, cap: Hz, n: nat)
    requires
        forall|i: int|
            0 <= i < edid::extensions_timings(bytes, n).len() ==> !(
            #[trigger] edid::extensions_timings(bytes, n)[i]).refresh_hz.above(cap),
        forall|k: int|
            1 <= k < n ==> codes_within(#[trigger] block::block_at(bytes, k), cap),
    ensures
        forall|k: int|
            1 <= k < n ==> extension_untouched(
                #[trigger] block::block_at(bytes, k),
                k as usize,
                cap,
            ),
    decreases n,
{
    if n > 1 {
        let m = (n - 1) as nat;
        let blk = block::block_at(bytes, m as int);
        let before = edid::extensions_timings(bytes, m);
        let more = edid::extension_timings(blk, m as usize);
        let all = edid::extensions_timings(bytes, n);
        assert forall|i: int| 0 <= i < before.len() implies !(
        #[trigger] before[i]).refresh_hz.above(cap) by {
            assert(all[i] == before[i]);
        }
        assert forall|i: int| 0 <= i < more.len() implies !(
        #[trigger] more[i]).refresh_hz.above(cap) by {
            assert(all[before.len() + i] == more[i]);
        }
        lemma_extensions_untouched(bytes, cap, m);
        assert(codes_within(blk, cap));
        if blk[0] == 0x02 {
            assert(cta::cta_timings(cta::cta_content(blk), m as usize) == more);
            cta_laws::lemma_within_cta_unchanged(cta::cta_content(blk), m as usize, cap);
        } else if blk[0] == 0x70 {
            cta_laws::lemma_none_above(more, cap);
        }
        assert forall|k: int| 1 <= k < n implies extension_untouched(
            #[trigger] block::block_at(bytes, k),
            k as usize,
            cap,
        ) by {
            if k == m {
                assert(block::block_at(bytes, k) == blk);
            }
        }
    }
}

/// Whether no YCbCr 4:2:0 code of an extension block is above the cap.
pub open spec fn codes_within(blk: Seq<u8>, cap: Hz) -> bool {
    blk[0] == 0x02 ==> forall|i: int|
        0 <= i < cta_cap::y420_codes(cta::cta_content(blk)).len() ==> !cta_cap::code_above(
            #[trigger] cta_cap::y420_codes(cta::cta_content(blk))[i],
            cap,
        )
}

/// Whether the EDID is already within the cap: no timing and no YCbCr 4:2:0 code is above it.
pub open spec fn within(bytes: Seq<u8>, cap: Hz) -> bool {
    &&& forall|i: int|
        0 <= i < edid::all_timings(bytes).len() ==> !(#[trigger] edid::all_timings(
            bytes,
        )[i]).refresh_hz.above(cap)
    &&& forall|k: int|
        1 <= k < block::block_count(bytes) ==> codes_within(#[trigger] block::block_at(bytes, k), cap)
}

/// A valid EDID that is already within the cap is accepted and comes back byte for byte, with
/// nothing dropped.
pub proof fn law_cap_keeps_what_is_clean(bytes: Seq<u8>, opts: CapOptions)
    requires
        opts.max_hz.positive(),
        block::valid(bytes),
        within(bytes, opts.max_hz),
    ensures
        cap::accepted(bytes, opts),
        cap::cap_fits(bytes, opts),
        cap::cap_content(bytes, opts).bytes == bytes,
        cap::cap_content(bytes, opts).unchanged,
        cap::cap_content(bytes, opts).dropped.len() == 0,
{
    let cap = opts.max_hz;
    let count = block::block_count(bytes);
    let base = edid::base_timings(bytes, 4);
    let more = edid::extensions_timings(bytes, count);
    let all = edid::all_timings(bytes);
    assert forall|i: int| 0 <= i < base.len() implies !(#[trigger] base[i]).refresh_hz.above(
        cap,
    ) by {
        assert(all[i] == base[i]);
    }
    assert forall|i: int| 0 <= i < more.len() implies !(#[trigger] more[i]).refresh_hz.above(
        cap,
    ) by {
        assert(all[base.len() + i] == more[i]);
    }
    lemma_base_untouched(bytes, cap, 4);
    lemma_extensions_untouched(bytes, cap, count);
    lemma_untouched_stays(bytes, opts);
}

/// Capping a capped EDID again, at the same or at a higher rate and with any pixel clock
/// limit, is accepted and changes nothing.
pub proof fn law_cap_again_changes_nothing(bytes: Seq<u8>, opts: CapOptions, again: CapOptions)
    requires
        cap::accepted(bytes, opts),
        cap::cap_fits(bytes, opts),
        again.max_hz.positive(),
        cta_laws::not_lower(again.max_hz, opts.max_hz),
    ensures
        ({
            let out = cap::cap_content(bytes, opts).bytes;
            &&& cap::accepted(out, again)
            &&& cap::cap_fits(out, again)
            &&& cap::cap_content(out, again).bytes == out
            &&& cap::cap_content(out, again).unchanged
            &&& cap::cap_content(out, again).dropped.len() == 0
        }),
{
    lemma_capped_blocks(bytes, opts);
    lemma_capped_is_untouched(bytes, opts, again.max_hz);
    lemma_untouched_stays(cap::cap_content(bytes, opts).bytes, again);
}

// ---------------------------------------------------------------------------
// What went.

/// The timings of the base block and of the extension blocks with a number below `n`.
spec fn timings_to(bytes: Seq<u8>, n: nat) -> Seq<Timing> {
    edid::base_timings(bytes, 4) + edid::extensions_timings(bytes, n)
}

proof fn lemma_dropped_to(bytes: Seq<u8>, cap: Hz, n: nat)
    requires
        1 <= n <= block::block_count(bytes),
    ensures
        forall|i: int|
            0 <= i < cap::dropped_to(bytes, cap, n).len() ==> (#[trigger] cap::dropped_to(
                bytes,
                cap,
                n,
            )[i]).refresh_hz.above(cap),
        forall|t: Timing| #[trigger]
            timings_to(bytes, n).contains(t) && t.refresh_hz.above(cap) ==> cap::dropped_to(
                bytes,
                cap,
                n,
            ).contains(t),
    decreases n,
{
    let base = edid::base_timings(bytes, 4);
    let above = cta_cap::is_above(cap);
    let all = cap::dropped_to(bytes, cap, n);
    if n == 1 {
        seqs::lemma_filter_kept(base, above);
        assert forall|i: int| 0 <= i < all.len() implies (#[trigger] all[i]).refresh_hz.above(
            cap,
        ) by {
            assert(above(base.filter(above)[i]));
        }
        assert forall|t: Timing| #[trigger]
            timings_to(bytes, n).contains(t) && t.refresh_hz.above(cap) implies all.contains(t) by {
            let sum = timings_to(bytes, n);
            let j = choose|j: int| 0 <= j < sum.len() && sum[j] == t;
            assert(base[j] == t);
            assert(above(base[j]));
            base.lemma_filter_contains(above, j);
        }
    } else {
        let m = (n - 1) as nat;
        let blk = block::block_at(bytes, m as int);
        let before = cap::dropped_to(bytes, cap, m);
        let more = cap::extension_dropped(blk, m as usize, cap);
        lemma_dropped_to(bytes, cap, m);
        lemma_extension_dropped(blk, m as usize, cap);
        assert forall|i: int| 0 <= i < all.len() implies (#[trigger] all[i]).refresh_hz.above(
            cap,
        ) by {
            if i < before.len() {
                assert(all[i] == before[i]);
            } else {
                assert(all[i] == more[i - before.len()]);
            }
        }
        assert forall|t: Timing| #[trigger]
            timings_to(bytes, n).contains(t) && t.refresh_hz.above(cap) implies all.contains(t) by {
            let old = edid::extensions_timings(bytes, m);
            let new = edid::extension_timings(blk, m as usize);
            let sum = timings_to(bytes, n);
            let j = choose|j: int| 0 <= j < sum.len() && sum[j] == t;
            if j < base.len() + old.len() {
                assert(timings_to(bytes, m)[j] == t);
                assert(timings_to(bytes, m).contains(t));
                let k = choose|k: int| 0 <= k < before.len() && before[k] == t;
                assert(all[k] == t);
            } else {
                assert(new[j - base.len() - old.len()] == t);
                assert(new.contains(t));
                let k = choose|k: int| 0 <= k < more.len() && more[k] == t;
                assert(all[before.len() + k] == t);
            }
        }
    }
}

proof fn lemma_extension_dropped(blk: Seq<u8>, n: usize, cap: Hz)
    ensures
        forall|i: int|
            0 <= i < cap::extension_dropped(blk, n, cap).len() ==> (
            #[trigger] cap::extension_dropped(blk, n, cap)[i]).refresh_hz.above(cap),
        forall|t: Timing| #[trigger]
            edid::extension_timings(blk, n).contains(t) && t.refresh_hz.above(cap)
                ==> cap::extension_dropped(blk, n, cap).contains(t),
{
    if blk[0] == 0x02 {
        cta_laws::lemma_cta_dropped(cta::cta_content(blk), n, cap);
    } else if blk[0] == 0x70 {
        let ts = edid::extension_timings(blk, n);
        let above = cta_cap::is_above(cap);
        seqs::lemma_filter_kept(ts, above);
        assert forall|i: int| 0 <= i < ts.filter(above).len() implies (
        #[trigger] ts.filter(above)[i]).refresh_hz.above(cap) by {
            assert(above(ts.filter(above)[i]));
        }
        assert forall|t: Timing| #[trigger]
            ts.contains(t) && t.refresh_hz.above(cap) implies ts.filter(above).contains(t) by {
            let i = choose|i: int| 0 <= i < ts.len() && ts[i] == t;
            assert(above(ts[i]));
            ts.lemma_filter_contains(above, i);
        }
    }
}

/// What is reported as dropped is what was above the cap: each dropped timing is above it,
/// and each advertised timing above it is among them.
pub proof fn law_cap_drops_what_is_above(bytes: Seq<u8>, opts: CapOptions)
    requires
        cap::accepted(bytes, opts),
    ensures
        forall|i: int|
            0 <= i < cap::cap_content(bytes, opts).dropped.len() ==> (#[trigger] cap::cap_content(
                bytes,
                opts,
            ).dropped[i]).refresh_hz.above(opts.max_hz),
        forall|t: Timing| #[trigger]
            edid::all_timings(bytes).contains(t) && t.refresh_hz.above(opts.max_hz)
                ==> cap::cap_content(bytes, opts).dropped.contains(t),
{
    lemma_dropped_to(bytes, opts.max_hz, block::block_count(bytes));
    assert(edid::all_timings(bytes) == timings_to(bytes, block::block_count(bytes)));
}

proof fn lemma_dropped_in_order(bytes: Seq<u8>, cap: Hz, n: nat)
    requires
        1 <= n <= block::block_count(bytes),
        forall|k: int|
            1 <= k < block::block_count(bytes) ==> codes_within(
                #[trigger] block::block_at(bytes, k),
                cap,
            ),
    ensures
        cap::dropped_to(bytes, cap, n) == timings_to(bytes, n).filter(cta_cap::is_above(cap)),
    decreases n,
{
    let above = cta_cap::is_above(cap);
    if n == 1 {
        assert(timings_to(bytes, n) =~= edid::base_timings(bytes, 4));
    } else {
        let m = (n - 1) as nat;
        let blk = block::block_at(bytes, m as int);
        let more = edid::extension_timings(blk, m as usize);
        lemma_dropped_in_order(bytes, cap, m);
        assert(codes_within(blk, cap));
        if blk[0] == 0x02 {
            cta_laws::lemma_cta_dropped_in_order(cta::cta_content(blk), m as usize, cap);
        } else if blk[0] != 0x70 {
            reveal(Seq::filter);
            assert(more.filter(above) =~= Seq::empty());
        }
        assert(cap::extension_dropped(blk, m as usize, cap) == more.filter(above));
        assert(timings_to(bytes, n) =~= timings_to(bytes, m) + more);
        Seq::filter_distributes_over_add(timings_to(bytes, m), more, above);
    }
}

/// Where no YCbCr 4:2:0 code is above the cap (as where there is no such block), what is
/// reported as dropped is exactly the advertised timings above the cap, in order.
pub proof fn law_cap_drops_in_order(bytes: Seq<u8>, opts: CapOptions)
    requires
        cap::accepted(bytes, opts),
        forall|k: int|
            1 <= k < block::block_count(bytes) ==> codes_within(
                #[trigger] block::block_at(bytes, k),
                opts.max_hz,
            ),
    ensures
        cap::cap_content(bytes, opts).dropped == edid::all_timings(bytes).filter(
            cta_cap::is_above(opts.max_hz),
        ),
{
    lemma_dropped_in_order(bytes, opts.max_hz, block::block_count(bytes));
    assert(edid::all_timings(bytes) == timings_to(bytes, block::block_count(bytes)));
}

// ---------------------------------------------------------------------------
// What stays the same.

proof fn lemma_capped_tagged(bytes: Seq<u8>, opts: CapOptions, tag: u8, n: nat)
    requires
        cap::accepted(bytes, opts),
        cap::cap_fits(bytes, opts),
        n <= 4,
        tag != 0x10,
    ensures
        edid::last_tagged(cap::cap_content(bytes, opts).bytes, tag, n) == edid::last_tagged(
            bytes,
            tag,
            n,
        ),
    decreases n,
{
    if n > 0 {
        let old = edid::descriptor(bytes, n - 1);
        let new = edid::descriptor(cap::cap_content(bytes, opts).bytes, n - 1);
        lemma_capped_tagged(bytes, opts, tag, (n - 1) as nat);
        lemma_capped_descriptor(bytes, opts, n - 1);
        if cap::slot_goes(bytes, n - 1, opts.max_hz) {
            assert(new[3] == cap::dummy_byte(3));
            if edid::is_tagged(old, tag) {
                lemma_tagged_stays(bytes, n - 1, tag, opts.max_hz);
            }
        } else {
            assert(new[0] == old[0] && new[1] == old[1] && new[3] == old[3]);
        }
    }
}

proof fn lemma_capped_string(bytes: Seq<u8>, opts: CapOptions, tag: u8)
    requires
        cap::accepted(bytes, opts),
        cap::cap_fits(bytes, opts),
        tag != 0x10,
        tag != 0xfd,
    ensures
        edid::tagged_string(cap::cap_content(bytes, opts).bytes, tag, 4) == edid::tagged_string(
            bytes,
            tag,
            4,
        ),
{
    lemma_capped_tagged(bytes, opts, tag, 4);
    cap::lemma_last_tagged(bytes, tag, 4);
    cap::lemma_last_tagged(bytes, 0xfd, 4);
    if let Some(i) = edid::last_tagged(bytes, tag, 4) {
        lemma_tagged_stays(bytes, i as int, tag, opts.max_hz);
        lemma_capped_descriptor(bytes, opts, i as int);
    }
}

proof fn lemma_capped_name(blk: Seq<u8>, n: usize, cap: Hz)
    requires
        blk.len() == 128,
        cap::extension_fits(blk, cap),
    ensures
        edid::extension_name(cap::capped_extension(blk, n, cap)) == edid::extension_name(blk),
{
    cap::lemma_capped_extension(blk, n, cap);
    if blk[0] == 0x02 && cta_cap::cta_changed(cta::cta_content(blk), cap) {
        lemma_rewritten_cta(blk, cap);
    } else if blk[0] == 0x70 && cap::extension_dropped(blk, n, cap).len() > 0 {
        let c = displayid::displayid_content(blk);
        displayid::lemma_parsed_displayid_regular(blk);
        displayid_cap::lemma_capped_displayid_regular(c, cap);
        displayid::law_displayid_round_trip(displayid_cap::capped_displayid(c, cap));
    }
}

proof fn lemma_capped_names(bytes: Seq<u8>, opts: CapOptions, n: nat)
    requires
        cap::accepted(bytes, opts),
        cap::cap_fits(bytes, opts),
        n <= block::block_count(bytes),
    ensures
        edid::block_names(cap::cap_content(bytes, opts).bytes, n) == edid::block_names(bytes, n),
    decreases n,
{
    if n > 1 {
        let m = (n - 1) as nat;
        let blk = block::block_at(bytes, m as int);
        lemma_capped_names(bytes, opts, m);
        lemma_capped_blocks(bytes, opts);
        assert(cap::extension_fits(blk, opts.max_hz));
        assert(block::block_at(cap::cap_content(bytes, opts).bytes, m as int)
            == cap::capped_extension(blk, m as usize, opts.max_hz));
        lemma_capped_name(blk, m as usize, opts.max_hz);
    }
}

/// A capped EDID says the same of the display, and has the same blocks: only its timings and
/// range limits may differ.
pub proof fn law_cap_keeps_identity(bytes: Seq<u8>, opts: CapOptions)
    requires
        cap::accepted(bytes, opts),
        cap::cap_fits(bytes, opts),
    ensures
        ({
            let old = edid::edid_content(bytes);
            let new = edid::edid_content(cap::cap_content(bytes, opts).bytes);
            new == edid::EdidContent {
                range_limits: new.range_limits,
                timings: new.timings,
                ..old
            }
        }),
{
    let out = cap::cap_content(bytes, opts).bytes;
    lemma_capped_blocks(bytes, opts);
    lemma_capped_string(bytes, opts, 0xfc);
    lemma_capped_string(bytes, opts, 0xff);
    lemma_capped_names(bytes, opts, block::block_count(bytes));
    assert(out.subrange(8, 12) =~= bytes.subrange(8, 12));
    assert(out[8] == bytes[8] && out[9] == bytes[9] && out[10] == bytes[10] && out[11] == bytes[11]
        && out[12] == bytes[12] && out[13] == bytes[13] && out[14] == bytes[14] && out[15]
        == bytes[15]);
    assert(out[16] == bytes[16] && out[17] == bytes[17] && out[18] == bytes[18] && out[19]
        == bytes[19] && out[126] == bytes[126]);
}

// ---------------------------------------------------------------------------
// The range limits.

proof fn lemma_settled_base_timings(bytes: Seq<u8>, opts: CapOptions, n: nat)
    requires
        cap::accepted(bytes, opts),
        cap::cap_fits(bytes, opts),
        n <= 4,
    ensures
        edid::base_timings(block::sealed(lowered(bytes, opts)), n) == edid::base_timings(
            cap::trimmed(bytes, opts.max_hz),
            n,
        ),
    decreases n,
{
    if n > 0 {
        let between = edid::descriptor(cap::trimmed(bytes, opts.max_hz), n - 1);
        let new = edid::descriptor(block::sealed(lowered(bytes, opts)), n - 1);
        lemma_settled_base_timings(bytes, opts, (n - 1) as nat);
        lemma_lowered_descriptor(bytes, opts, n - 1);
        if edid::last_tagged(bytes, 0xfd, 4) == Some((n - 1) as nat) {
            lemma_trimmed_tagged(bytes, opts, 0xfd, 4);
            cap::lemma_last_tagged(cap::trimmed(bytes, opts.max_hz), 0xfd, 4);
            assert(new[0] == between[0] && new[1] == between[1]);
        }
    }
}

proof fn lemma_same_extensions(a: Seq<u8>, b: Seq<u8>, n: nat)
    requires
        forall|k: int| 1 <= k < n ==> #[trigger] block::block_at(a, k) == block::block_at(b, k),
    ensures
        edid::extensions_timings(a, n) == edid::extensions_timings(b, n),
    decreases n,
{
    if n > 1 {
        lemma_same_extensions(a, b, (n - 1) as nat);
        assert(block::block_at(a, n - 1) == block::block_at(b, n - 1));
    }
}

/// Lowering the range limits changes no timing.
pub proof fn lemma_settled_timings(bytes: Seq<u8>, opts: CapOptions)
    requires
        cap::accepted(bytes, opts),
        cap::cap_fits(bytes, opts),
    ensures
        edid::all_timings(cap::cap_content(bytes, opts).bytes) == edid::all_timings(
            cap::trimmed(bytes, opts.max_hz),
        ),
{
    let out = cap::cap_content(bytes, opts).bytes;
    let mid = cap::trimmed(bytes, opts.max_hz);
    lemma_capped_blocks(bytes, opts);
    lemma_trimmed_base(bytes, opts);
    lemma_settled_base_timings(bytes, opts, 4);
    assert forall|k: int| 1 <= k < block::block_count(bytes) implies #[trigger] block::block_at(
        out,
        k,
    ) == block::block_at(mid, k) by {
        assert(block::block_at(mid, k) == cap::capped_extension(
            block::block_at(bytes, k),
            k as usize,
            opts.max_hz,
        ));
    }
    lemma_same_extensions(out, mid, block::block_count(bytes));
}

/// The timing that is reported as the highest left is the highest of the capped EDID.
pub proof fn law_cap_reports_the_highest(bytes: Seq<u8>, opts: CapOptions)
    requires
        cap::accepted(bytes, opts),
        cap::cap_fits(bytes, opts),
    ensures
        cap::cap_content(bytes, opts).max_timing == edid::highest(
            edid::all_timings(cap::cap_content(bytes, opts).bytes),
        ),
{
    lemma_settled_timings(bytes, opts);
}

/// What the lowered range limits say.
proof fn lemma_limited(bytes: Seq<u8>, opts: CapOptions, ts: Seq<Timing>, rl: RangeLimits)
    requires
        bytes.len() >= 128,
        rl.descriptor_index < 4,
        rl == edid::range_limits_of(
            edid::descriptor(bytes, rl.descriptor_index as int),
            rl.descriptor_index as int,
        ),
    ensures
        limits_follow(
            rl,
            edid::range_limits_of(
                edid::descriptor(cap::limited(bytes, opts, ts, rl), rl.descriptor_index as int),
                rl.descriptor_index as int,
            ),
            opts,
            ts,
        ),
{
    let i = rl.descriptor_index as int;
    let o = cap::slot(rl.descriptor_index);
    let old = edid::descriptor(bytes, i);
    let end = cap::limited(bytes, opts, ts, rl);
    let new = edid::descriptor(end, i);
    let flags = old[4] as int;
    assert(old[4] == bytes[o + 4] && old[5] == bytes[o + 5] && old[6] == bytes[o + 6] && old[7]
        == bytes[o + 7] && old[8] == bytes[o + 8] && old[9] == bytes[o + 9]);
    assert(new[4] == end[o + 4] && new[5] == end[o + 5] && new[6] == end[o + 6] && new[7] == end[o
        + 7] && new[8] == end[o + 8] && new[9] == end[o + 9]);
    assert(rl.v_max_hz <= 510);
    if cap::lowers_v_max(opts, rl) {
        let base = flags - flags % 4;
        assert(base / 4 == flags / 4 && (base + 2) / 4 == flags / 4);
        assert(base / 8 == flags / 8 && (base + 2) / 8 == flags / 8);
        assert((base / 2) % 2 == 0 && ((base + 2) / 2) % 2 == 1);
        assert(base % 4 == 0 && (base + 2) % 4 == 2);
    }
}

/// How range limits look after capping, when a timing went and the timings `ts` are left:
/// the maximum vertical rate is at most the cap, the maximum pixel clock comes down to what
/// is left, and the rest stays. (Writing the maximum rate clears the flag that adds 255 to
/// the minimum.)
pub open spec fn limits_follow(
    rl: RangeLimits,
    new: RangeLimits,
    opts: CapOptions,
    ts: Seq<Timing>,
) -> bool {
    &&& new.descriptor_index == rl.descriptor_index
    &&& new.v_max_hz == cta::least(rl.v_max_hz as int, opts.max_hz.whole() as int)
    &&& new.h_min_khz == rl.h_min_khz
    &&& new.h_max_khz == rl.h_max_khz
    &&& new.max_pixel_clock_mhz == if cap::lowers_clock(opts, ts, rl) {
        cap::clock_step(cap::new_clock(opts, ts, rl.max_pixel_clock_mhz)) * 10
    } else {
        rl.max_pixel_clock_mhz as int
    }
    &&& rl.v_min_hz < 255 || !cap::lowers_v_max(opts, rl) ==> new.v_min_hz == rl.v_min_hz
    &&& new.v_min_hz <= rl.v_min_hz
}

/// The range limits of a capped EDID: they stay when nothing went, and follow the cap and
/// the timings that are left when something did.
pub proof fn law_cap_lowers_limits(bytes: Seq<u8>, opts: CapOptions)
    requires
        cap::accepted(bytes, opts),
        cap::cap_fits(bytes, opts),
    ensures
        ({
            let r = cap::cap_content(bytes, opts);
            match (edid::range_limits(bytes, 4), edid::range_limits(r.bytes, 4)) {
                (None, None) => true,
                (Some(rl), Some(new)) => if r.dropped.len() == 0 {
                    new == rl
                } else {
                    limits_follow(rl, new, opts, edid::all_timings(r.bytes))
                },
                _ => false,
            }
        }),
{
    let r = cap::cap_content(bytes, opts);
    let mid = cap::trimmed(bytes, opts.max_hz);
    let end = lowered(bytes, opts);
    lemma_capped_tagged(bytes, opts, 0xfd, 4);
    lemma_trimmed_limits(bytes, opts);
    lemma_capped_blocks(bytes, opts);
    lemma_trimmed_base(bytes, opts);
    lemma_lowered(bytes, opts);
    lemma_settled_timings(bytes, opts);
    if let Some(rl) = edid::range_limits(bytes, 4) {
        let i = rl.descriptor_index as int;
        lemma_trimmed_descriptor(bytes, opts, i);
        assert(edid::descriptor(r.bytes, i) =~= edid::descriptor(end, i));
        if r.dropped.len() > 0 {
            lemma_limited(mid, opts, edid::all_timings(mid), rl);
            assert(end == cap::limited(mid, opts, edid::all_timings(mid), rl)) by {
                reveal(lowered);
            }
        } else {
            assert(end == mid) by {
                reveal(lowered);
            }
        }
    }
}

proof fn lemma_highest_clock(ts: Seq<Timing>)
    ensures
        highest_covers(ts),
        cap::highest_clock(ts) is None <==> ts.len() == 0,
    decreases ts.len(),
{
    if ts.len() > 0 {
        let before = ts.drop_last();
        lemma_highest_clock(before);
        assert forall|i: int| 0 <= i < ts.len() implies (#[trigger] ts[i]).pixel_clock_hz
            <= cap::highest_clock(ts)->0 * 1_000_000 by {
            if i < before.len() {
                assert(before[i] == ts[i]);
            }
        }
    }
}

/// Whether the highest pixel clock is a multiple of ten megahertz and covers every timing.
spec fn highest_covers(ts: Seq<Timing>) -> bool {
    cap::highest_clock(ts) matches Some(c) ==> {
        &&& c % 10 == 0
        &&& forall|i: int|
            0 <= i < ts.len() ==> (#[trigger] ts[i]).pixel_clock_hz <= c * 1_000_000
    }
}

/// With no pixel clock limit asked for, the new limit still covers every timing that is left
/// and that the old one covered.
pub proof fn law_cap_limits_cover_what_is_left(bytes: Seq<u8>, opts: CapOptions)
    requires
        cap::accepted(bytes, opts),
        cap::cap_fits(bytes, opts),
        opts.max_pixel_clock_mhz is None,
    ensures
        ({
            let out = cap::cap_content(bytes, opts).bytes;
            edid::range_limits(bytes, 4) matches Some(rl) ==> edid::range_limits(out, 4) matches Some(
                new,
            ) && forall|i: int|
                0 <= i < edid::all_timings(out).len() ==> {
                    let clock = (#[trigger] edid::all_timings(out)[i]).pixel_clock_hz;
                    clock <= rl.max_pixel_clock_mhz * 1_000_000 ==> clock <= new.max_pixel_clock_mhz
                        * 1_000_000
                }
        }),
{
    let out = cap::cap_content(bytes, opts).bytes;
    law_cap_lowers_limits(bytes, opts);
    lemma_highest_clock(edid::all_timings(out));
    if let Some(rl) = edid::range_limits(bytes, 4) {
        assert(rl.max_pixel_clock_mhz <= 2550);
    }
}

// ---------------------------------------------------------------------------
// What decoding reads.

/// Whether two EDIDs are the same but for the checksum bytes of their blocks.
pub open spec fn same_but_checksums(a: Seq<u8>, b: Seq<u8>) -> bool {
    &&& a.len() == b.len()
    &&& forall|k: int| 0 <= k < a.len() && k % 128 != 127 ==> #[trigger] a[k] == b[k]
}

proof fn lemma_same_block(a: Seq<u8>, b: Seq<u8>, n: int)
    requires
        same_but_checksums(a, b),
        0 <= n < block::block_count(a),
    ensures
        block::block_at(a, n).len() == 128,
        block::block_at(b, n).len() == 128,
        block::block_at(a, n).take(127) == block::block_at(b, n).take(127),
{
    let x = block::block_at(a, n);
    let y = block::block_at(b, n);
    assert forall|j: int| 0 <= j < 127 implies x.take(127)[j] == y.take(127)[j] by {
        assert((128 * n + j) % 128 == j);
        assert(a[128 * n + j] == b[128 * n + j]);
    }
    assert(x.take(127) =~= y.take(127));
}

proof fn lemma_checksums_unread(a: Seq<u8>, b: Seq<u8>, n: nat)
    requires
        same_but_checksums(a, b),
        n <= block::block_count(a),
    ensures
        edid::extensions_timings(a, n) == edid::extensions_timings(b, n),
        edid::block_names(a, n) == edid::block_names(b, n),
    decreases n,
{
    if n > 1 {
        let x = block::block_at(a, n - 1);
        let y = block::block_at(b, n - 1);
        lemma_checksums_unread(a, b, (n - 1) as nat);
        lemma_same_block(a, b, n - 1);
        assert(x[0] == x.take(127)[0] && y[0] == y.take(127)[0]);
        assert(x[1] == x.take(127)[1] && y[1] == y.take(127)[1]);
        cta_laws::lemma_same_cta(x, y);
        displayid_laws::lemma_same_displayid(x, y);
    }
}

proof fn lemma_same_descriptors(a: Seq<u8>, b: Seq<u8>, tag: u8, n: nat)
    requires
        same_but_checksums(a, b),
        a.len() >= 128,
        n <= 4,
    ensures
        forall|i: int| 0 <= i < n ==> #[trigger] edid::descriptor(a, i) == edid::descriptor(b, i),
        edid::last_tagged(a, tag, n) == edid::last_tagged(b, tag, n),
        edid::last_tagged(a, tag, n) matches Some(i) ==> i < n,
        edid::base_timings(a, n) == edid::base_timings(b, n),
    decreases n,
{
    if n > 0 {
        let i = n - 1;
        lemma_same_descriptors(a, b, tag, (n - 1) as nat);
        assert forall|k: int| 0 <= k < 127 implies #[trigger] a[k] == b[k] by {
            assert(k % 128 == k);
        }
        assert(edid::descriptor(a, i) =~= edid::descriptor(b, i));
    }
}

/// Decoding does not look at the checksums: EDIDs that differ in nothing else are both read
/// or both refused, and say the same.
pub proof fn law_decoding_ignores_checksums(a: Seq<u8>, b: Seq<u8>)
    requires
        a.len() >= 128,
        same_but_checksums(a, b),
    ensures
        block::has_header(a) == block::has_header(b),
        edid::edid_content(a) == edid::edid_content(b),
{
    assert forall|k: int| 0 <= k < 127 implies #[trigger] a[k] == b[k] by {
        assert(k % 128 == k);
    }
    assert(a.subrange(8, 12) =~= b.subrange(8, 12));
    lemma_checksums_unread(a, b, block::block_count(a));
    lemma_same_descriptors(a, b, 0xfc, 4);
    lemma_same_descriptors(a, b, 0xff, 4);
    lemma_same_descriptors(a, b, 0xfd, 4);
    assert(block::has_header(a) == block::has_header(b)) by {
        assert(a[0] == b[0] && a[7] == b[7]);
        assert forall|k: int| 1 <= k < 7 implies #[trigger] b[k] == a[k] by {
            assert(a[k] == b[k]);
        }
    }
    assert(edid::edid_content(a) =~= edid::edid_content(b));
}

} // verus!
