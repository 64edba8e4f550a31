//! What capping a DisplayID block guarantees.

use vstd::prelude::*;

use crate::rate::Hz;
use crate::timing::{Timing, TimingSource};
use crate::{cta, cta_cap, cta_laws, displayid, displayid_cap, seqs, timing};

verus! {

/// The mode that a timing descriptor writes.
pub open spec fn entry_mode(tag: u8) -> spec_fn(Seq<u8>) -> Timing {
    |e: Seq<u8>|
        timing::displayid_mode(e, timing::clock_unit(tag), TimingSource::BaseDtd { index: 0 })
}

proof fn lemma_piece_len(body: Seq<u8>, size: nat)
    ensures
        forall|k: int|
            0 <= k < displayid::pieces(body, size).len() ==> (#[trigger] displayid::pieces(
                body,
                size,
            )[k]).len() == size,
    decreases body.len(),
{
    if size > 0 && body.len() >= size {
        let rest = displayid::pieces(body.skip(size as int), size);
        let all = displayid::pieces(body, size);
        lemma_piece_len(body.skip(size as int), size);
        assert forall|k: int| 0 <= k < all.len() implies (#[trigger] all[k]).len() == size by {
            if k > 0 {
                assert(all[k] == rest[k - 1]);
            }
        }
    }
}

/// Pieces of one size that are joined come apart again.
proof fn lemma_pieces_of_joined(ps: Seq<Seq<u8>>, size: nat)
    requires
        size > 0,
        forall|k: int| 0 <= k < ps.len() ==> (#[trigger] ps[k]).len() == size,
    ensures
        displayid::pieces(displayid_cap::joined(ps), size) == ps,
        displayid_cap::joined(ps).len() == 0 <==> ps.len() == 0,
    decreases ps.len(),
{
    let all = displayid_cap::joined(ps);
    if ps.len() > 0 {
        let rest = ps.drop_first();
        assert forall|k: int| 0 <= k < rest.len() implies (#[trigger] rest[k]).len() == size by {
            assert(rest[k] == ps[k + 1]);
        }
        lemma_pieces_of_joined(rest, size);
        displayid_cap::lemma_joined_first(ps[0], rest);
        assert(seq![ps[0]] + rest =~= ps);
        assert(ps[0].len() == size);
        assert(all.take(size as int) =~= ps[0]);
        assert(all.skip(size as int) =~= displayid_cap::joined(rest));
    } else {
        assert(ps =~= Seq::empty());
    }
}

/// What a trimmed data block holds: the descriptors that stay.
pub proof fn lemma_trimmed_entries(b: (u8, u8, Seq<u8>), cap: Hz)
    requires
        displayid::holds_timings(b.0),
    ensures
        displayid::block_entries(displayid_cap::trimmed_section(b, cap))
            == displayid::block_entries(b).filter(displayid_cap::piece_stays(b.0, cap)),
        displayid_cap::trimmed_section(b, cap).2.len() == 0 <==> displayid::block_entries(
            b,
        ).filter(displayid_cap::piece_stays(b.0, cap)).len() == 0,
{
    let size = timing::entry_size(b.0, b.1);
    let stays = displayid_cap::piece_stays(b.0, cap);
    let entries = displayid::block_entries(b);
    let kept = entries.filter(stays);
    lemma_piece_len(b.2, size);
    seqs::lemma_filter_kept(entries, stays);
    assert forall|k: int| 0 <= k < kept.len() implies (#[trigger] kept[k]).len() == size by {
        assert(entries.contains(kept[k]));
        let j = choose|j: int| 0 <= j < entries.len() && entries[j] == kept[k];
        assert(entries[j].len() == size);
    }
    lemma_pieces_of_joined(kept, size);
}

/// The modes of a data block follow from its descriptors.
proof fn lemma_block_modes(b: (u8, u8, Seq<u8>), n: usize, first: nat)
    ensures
        cta_laws::modes(displayid::block_timings(b, n, first)) == displayid::block_entries(
            b,
        ).map_values(entry_mode(b.0)),
{
    let ts = displayid::block_timings(b, n, first);
    let es = displayid::block_entries(b);
    assert forall|k: int| 0 <= k < ts.len() implies (#[trigger] ts[k]).mode() == entry_mode(b.0)(
        es[k],
    ) by {}
    assert(cta_laws::modes(ts) =~= es.map_values(entry_mode(b.0)));
}

/// Filtering by the cap does not depend on where the timings stand.
pub proof fn lemma_modes_filter(ts: Seq<Timing>, cap: Hz)
    ensures
        cta_laws::modes(ts.filter(cta_cap::is_within(cap))) == cta_laws::modes(ts).filter(
            cta_cap::is_within(cap),
        ),
{
    seqs::lemma_filter_map(
        ts,
        cta_laws::mode_of(),
        cta_cap::is_within(cap),
        cta_cap::is_within(cap),
    );
}

pub proof fn lemma_modes_add(a: Seq<Timing>, b: Seq<Timing>)
    ensures
        cta_laws::modes(a + b) == cta_laws::modes(a) + cta_laws::modes(b),
{
    assert(cta_laws::modes(a + b) =~= cta_laws::modes(a) + cta_laws::modes(b));
}

/// The data blocks that stay advertise exactly the modes within the cap, in the same order.
pub proof fn lemma_capped_displayid_modes(bs: Seq<(u8, u8, Seq<u8>)>, n: usize, cap: Hz)
    ensures
        cta_laws::modes(
            displayid::displayid_timings(displayid_cap::trimmed_sections(bs, cap), n),
        ) == cta_laws::modes(
            displayid::displayid_timings(bs, n).filter(cta_cap::is_within(cap)),
        ),
    decreases bs.len(),
{
    reveal(Seq::filter);
    let within = cta_cap::is_within(cap);
    if bs.len() > 0 {
        let init = bs.drop_last();
        let b = bs.last();
        let kept = displayid_cap::trimmed_sections(init, cap);
        let old_before = displayid::displayid_timings(init, n);
        let new_before = displayid::displayid_timings(kept, n);
        let old_more = displayid::block_timings(b, n, old_before.len());
        lemma_capped_displayid_modes(init, n, cap);
        Seq::filter_distributes_over_add(old_before, old_more, within);
        lemma_modes_add(old_before.filter(within), old_more.filter(within));
        lemma_modes_filter(old_more, cap);
        lemma_block_modes(b, n, old_before.len());
        if displayid::holds_timings(b.0) {
            let t = displayid_cap::trimmed_section(b, cap);
            let stays = displayid_cap::piece_stays(b.0, cap);
            let g = entry_mode(b.0);
            lemma_trimmed_entries(b, cap);
            seqs::lemma_filter_map(displayid::block_entries(b), g, stays, within);
            if t.2.len() == 0 {
                assert(cta_laws::modes(old_more.filter(within)) =~= Seq::empty());
                assert(cta_laws::modes(new_before) + Seq::<Timing>::empty() =~= cta_laws::modes(
                    new_before,
                ));
            } else {
                let new_more = displayid::block_timings(t, n, new_before.len());
                assert(kept.push(t).drop_last() =~= kept);
                lemma_block_modes(t, n, new_before.len());
                lemma_modes_add(new_before, new_more);
            }
        } else {
            let new_more = displayid::block_timings(b, n, new_before.len());
            assert(kept.push(b).drop_last() =~= kept);
            assert(new_before + new_more =~= new_before);
            assert(old_more.filter(within) =~= Seq::empty());
            assert(old_before.filter(within) + Seq::<Timing>::empty() =~= old_before.filter(
                within,
            ));
        }
    } else {
        assert(displayid_cap::trimmed_sections(bs, cap) =~= bs);
        assert(displayid::displayid_timings(bs, n).filter(within) =~= Seq::empty());
    }
}

/// A last data block with neither tag nor payload holds no timing.
pub proof fn lemma_blank_end_timings(bs: Seq<(u8, u8, Seq<u8>)>, n: usize)
    ensures
        displayid::displayid_timings(displayid::without_blank_end(bs), n)
            == displayid::displayid_timings(bs, n),
{
    if bs.len() > 0 && displayid::is_blank(bs.last()) {
        let before = displayid::displayid_timings(bs.drop_last(), n);
        assert(before + displayid::block_timings(bs.last(), n, before.len()) =~= before);
    }
}

/// Every timing of a DisplayID block has a refresh rate with a positive denominator.
pub proof fn lemma_displayid_positive(bs: Seq<(u8, u8, Seq<u8>)>, n: usize)
    ensures
        forall|i: int|
            0 <= i < displayid::displayid_timings(bs, n).len() ==> (
            #[trigger] displayid::displayid_timings(bs, n)[i]).refresh_hz.den > 0,
    decreases bs.len(),
{
    if bs.len() > 0 {
        let before = displayid::displayid_timings(bs.drop_last(), n);
        let more = displayid::block_timings(bs.last(), n, before.len());
        let all = displayid::displayid_timings(bs, n);
        lemma_displayid_positive(bs.drop_last(), n);
        assert forall|i: int| 0 <= i < all.len() implies (#[trigger] all[i]).refresh_hz.den > 0 by {
            if i < before.len() {
                assert(all[i] == before[i]);
            } else {
                let t = more[i - before.len()];
                assert(all[i] == t);
                timing::lemma_timing_rate(
                    t.h_active,
                    t.v_active,
                    t.h_total,
                    t.v_total,
                    t.pixel_clock_hz,
                    t.interlaced,
                    t.source,
                );
            }
        }
    }
}

/// What shares its modes with timings within a cap is within it.
pub proof fn lemma_same_modes_within(a: Seq<Timing>, b: Seq<Timing>, cap: Hz)
    requires
        cta_laws::modes(a) == cta_laws::modes(b.filter(cta_cap::is_within(cap))),
    ensures
        forall|i: int| 0 <= i < a.len() ==> !(#[trigger] a[i]).refresh_hz.above(cap),
{
    let within = cta_cap::is_within(cap);
    let kept = b.filter(within);
    seqs::lemma_filter_kept(b, within);
    assert(cta_laws::modes(a).len() == a.len());
    assert(cta_laws::modes(kept).len() == kept.len());
    assert forall|i: int| 0 <= i < a.len() implies !(#[trigger] a[i]).refresh_hz.above(cap) by {
        assert(cta_laws::modes(a)[i] == a[i].mode());
        assert(cta_laws::modes(kept)[i] == kept[i].mode());
        assert(within(kept[i]));
    }
}

/// From a capped block nothing goes under the same or a higher cap.
pub proof fn lemma_capped_displayid_settled(
    bs: Seq<(u8, u8, Seq<u8>)>,
    n: usize,
    low: Hz,
    high: Hz,
)
    requires
        cta_laws::not_lower(high, low),
    ensures
        displayid::displayid_timings(
            displayid::without_blank_end(displayid_cap::trimmed_sections(bs, low)),
            n,
        ).filter(cta_cap::is_above(high)).len() == 0,
{
    let kept = displayid_cap::trimmed_sections(bs, low);
    let ts = displayid::displayid_timings(kept, n);
    lemma_blank_end_timings(kept, n);
    lemma_capped_displayid_modes(bs, n, low);
    lemma_same_modes_within(ts, displayid::displayid_timings(bs, n), low);
    lemma_displayid_positive(kept, n);
    assert forall|i: int| 0 <= i < ts.len() implies !(#[trigger] ts[i]).refresh_hz.above(high) by {
        if ts[i].refresh_hz.above(high) {
            crate::rate::lemma_above_higher_cap(ts[i].refresh_hz, low, high);
        }
    }
    cta_laws::lemma_none_above(ts, high);
}

proof fn lemma_same_sections(a: Seq<u8>, b: Seq<u8>, i: int, end: int)
    requires
        a.len() == 128,
        b.len() == 128,
        a.take(127) == b.take(127),
        0 <= i,
        end <= 127,
    ensures
        displayid::sections_from(a, i, end) == displayid::sections_from(b, i, end),
    decreases
            (if i < end {
                end - i
            } else {
                0
            }),
{
    if i + 3 <= end {
        assert(a[i] == a.take(127)[i] && b[i] == b.take(127)[i]);
        assert(a[i + 1] == a.take(127)[i + 1] && b[i + 1] == b.take(127)[i + 1]);
        assert(a[i + 2] == a.take(127)[i + 2] && b[i + 2] == b.take(127)[i + 2]);
        let stop = cta::least(i + 3 + a[i + 2], end);
        assert(a.subrange(i + 3, stop) =~= a.take(127).subrange(i + 3, stop));
        assert(b.subrange(i + 3, stop) =~= b.take(127).subrange(i + 3, stop));
        lemma_same_sections(a, b, i + 3 + a[i + 2], end);
    }
}

/// The checksum byte says nothing about what a block advertises.
pub proof fn lemma_same_displayid(a: Seq<u8>, b: Seq<u8>)
    requires
        a.len() == 128,
        b.len() == 128,
        a.take(127) == b.take(127),
    ensures
        displayid::displayid_content(a) == displayid::displayid_content(b),
{
    assert forall|k: int| 0 <= k < 127 implies #[trigger] a[k] == b[k] by {
        assert(a[k] == a.take(127)[k] && b[k] == b.take(127)[k]);
    }
    lemma_same_sections(a, b, 5, cta::least(5 + a[2], 127));
}

} // verus!
