//! Removing the timings above a cap from a DisplayID block.

use vstd::prelude::*;

use crate::block::BLOCK;
use crate::cta::{bytes_between, push_bytes};
use crate::cta_cap::{note_on_block, push_note};
use crate::displayid::{
    parse_displayid, push_block_timings, DisplayIdBlock, DisplayIdContent,
};
use crate::rate::Hz;
use crate::text::push_hex;
use crate::timing::{displayid_entry_size, Timing, TimingSource};
use crate::{cta_cap, displayid, text, timing};

verus! {

/// Whether a timing descriptor of a data block with this tag stays.
pub open spec fn piece_stays(tag: u8, cap: Hz) -> spec_fn(Seq<u8>) -> bool {
    |p: Seq<u8>|
        !timing::displayid_mode(
            p,
            timing::clock_unit(tag),
            TimingSource::BaseDtd { index: 0 },
        ).refresh_hz.above(cap)
}

/// The pieces one after the other.
pub open spec fn joined(ps: Seq<Seq<u8>>) -> Seq<u8>
    decreases ps.len(),
{
    if ps.len() == 0 {
        Seq::empty()
    } else {
        joined(ps.drop_last()) + ps.last()
    }
}

/// A data block of timings without those above the cap, and without what is left over at its
/// end.
pub open spec fn trimmed_section(b: (u8, u8, Seq<u8>), cap: Hz) -> (u8, u8, Seq<u8>) {
    (b.0, b.1, joined(displayid::block_entries(b).filter(piece_stays(b.0, cap))))
}

/// The data blocks without the timings above the cap; one without timings goes.
pub open spec fn trimmed_sections(bs: Seq<(u8, u8, Seq<u8>)>, cap: Hz) -> Seq<(u8, u8, Seq<u8>)>
    decreases bs.len(),
{
    if bs.len() == 0 {
        Seq::empty()
    } else {
        let before = trimmed_sections(bs.drop_last(), cap);
        let b = bs.last();
        if !displayid::holds_timings(b.0) {
            before.push(b)
        } else if trimmed_section(b, cap).2.len() == 0 {
            before
        } else {
            before.push(trimmed_section(b, cap))
        }
    }
}

/// What the block says once the timings above the cap are gone.
pub open spec fn capped_displayid(c: DisplayIdContent, cap: Hz) -> DisplayIdContent {
    DisplayIdContent { blocks: trimmed_sections(c.blocks, cap), ..c }
}

/// The timings that go from the block.
pub open spec fn displayid_dropped(c: DisplayIdContent, block: usize, cap: Hz) -> Seq<Timing> {
    displayid::displayid_timings(c.blocks, block).filter(cta_cap::is_above(cap))
}

/// One note for each data block of timings that goes.
pub open spec fn displayid_notes(bs: Seq<(u8, u8, Seq<u8>)>, block: usize, cap: Hz) -> Seq<
    Seq<char>,
>
    decreases bs.len(),
{
    if bs.len() == 0 {
        Seq::empty()
    } else {
        let before = displayid_notes(bs.drop_last(), block, cap);
        let b = bs.last();
        if displayid::holds_timings(b.0) && trimmed_section(b, cap).2.len() == 0 {
            before.push(
                cta_cap::block_note(
                    "removed empty DisplayID timing block 0x"@ + text::hex_digits(b.0 as nat, 2),
                    block,
                ),
            )
        } else {
            before
        }
    }
}

/// The refresh rate of a descriptor does not depend on where it stands.
pub proof fn lemma_piece_above(p: Seq<u8>, tag: u8, source: TimingSource, cap: Hz)
    ensures
        piece_stays(tag, cap)(p) == !timing::displayid_mode(
            p,
            timing::clock_unit(tag),
            source,
        ).refresh_hz.above(cap),
{
}

/// A DisplayID block without the timings above a cap.
pub struct DisplayIdCap {
    pub did: DisplayIdBlock,
    pub dropped: Vec<Timing>,
    pub notes: Vec<String>,
}

/// Takes the timings above the cap out of a data block of timings; `all` gets every timing
/// of it.
fn trim_section(
    b: &(u8, u8, Vec<u8>),
    block: usize,
    cap: &Hz,
    all: &mut Vec<Timing>,
    dropped: &mut Vec<Timing>,
) -> (out: Vec<u8>)
    requires
        cap.den > 0,
        displayid::holds_timings(b.0),
    ensures
        out@ == trimmed_section((b.0, b.1, b.2@), *cap).2,
        final(all)@ == old(all)@ + displayid::block_timings(
            (b.0, b.1, b.2@),
            block,
            old(all)@.len(),
        ),
        final(dropped)@ == old(dropped)@ + displayid::block_timings(
            (b.0, b.1, b.2@),
            block,
            old(all)@.len(),
        ).filter(cta_cap::is_above(*cap)),
{
    let (tag, rev, body) = b;
    let ghost content = (*tag, *rev, body@);
    let ghost entries = displayid::block_entries(content);
    let ghost ts = displayid::block_timings(content, block, all@.len());
    let ghost stays = piece_stays(*tag, *cap);
    let ghost above = cta_cap::is_above(*cap);
    let first: usize = all.len();
    push_block_timings(b, block, 0, all);
    let size = displayid_entry_size(*tag, *rev);
    let mut out: Vec<u8> = Vec::new();
    let mut at: usize = 0;
    let mut k: usize = first;
    proof {
        reveal(Seq::filter);
        assert(body@.skip(0) =~= body@);
        assert(entries.skip(0) =~= entries);
        assert(entries.take(0).filter(stays) =~= Seq::empty());
        assert(ts.take(0).filter(above) =~= Seq::empty());
        assert(dropped@ =~= dropped@ + ts.take(0).filter(above));
    }
    while k < all.len()
        invariant
            first <= k <= all.len(),
            cap.den > 0,
            20 <= size <= 27,
            size == timing::entry_size(*tag, *rev),
            content == (*tag, *rev, body@),
            displayid::holds_timings(*tag),
            entries == displayid::block_entries(content),
            ts == displayid::block_timings(content, block, first as nat),
            all@.len() == first + ts.len(),
            forall|m: int| 0 <= m < ts.len() ==> all@[first + m] == #[trigger] ts[m],
            stays == piece_stays(*tag, *cap),
            above == cta_cap::is_above(*cap),
            at <= body.len(),
            entries.skip(k - first) == displayid::pieces(body@.skip(at as int), size as nat),
            out@ == joined(entries.take(k - first).filter(stays)),
            dropped@ == old(dropped)@ + ts.take(k - first).filter(above),
        decreases all.len() - k,
    {
        let ghost m = k - first;
        let ghost rest = body@.skip(at as int);
        let ghost kept = entries.take(m).filter(stays);
        let t = all[k];
        proof {
            reveal(Seq::filter);
            assert(t == ts[m]);
            assert(m < entries.len());
            assert(entries.skip(m).len() > 0);
            assert(entries.skip(m)[0] == entries[m]);
            assert(displayid::pieces(rest, size as nat).len() > 0);
            assert(entries[m] == rest.take(size as int));
            assert(rest.take(size as int) =~= body@.subrange(at as int, at + size));
            assert(rest.skip(size as int) =~= body@.skip(at + size));
            assert(entries.skip(m + 1) =~= entries.skip(m).drop_first());
            assert(displayid::pieces(rest, size as nat).drop_first() =~= displayid::pieces(
                rest.skip(size as int),
                size as nat,
            ));
            assert(entries.take(m + 1).drop_last() =~= entries.take(m));
            assert(ts.take(m + 1).drop_last() =~= ts.take(m));
            lemma_piece_above(entries[m], *tag, t.source, *cap);
            assert(kept.push(entries[m]).drop_last() =~= kept);
            assert(t.refresh_hz.den > 0) by {
                lemma_displayid_rate(entries[m], timing::clock_unit(*tag), t.source);
            }
        }
        if t.refresh_hz.is_above(cap) {
            dropped.push(t);
        } else {
            push_bytes(&mut out, &body[at..at + size]);
        }
        proof {
            assert(dropped@ =~= old(dropped)@ + ts.take(m + 1).filter(above));
        }
        at += size;
        k += 1;
    }
    proof {
        assert(entries.take(k - first) =~= entries);
        assert(ts.take(k - first) =~= ts);
    }
    out
}

/// A DisplayID descriptor always has a frame that is not empty.
proof fn lemma_displayid_rate(d: Seq<u8>, unit: u64, source: TimingSource)
    ensures
        timing::displayid_mode(d, unit, source).refresh_hz.den > 0,
{
    let h = (timing::count_at(d, 4) + timing::count_at(d, 6)) as u32;
    let v = (timing::count_at(d, 12) + timing::count_at(d, 14)) as u32;
    assert(0 <= h * v <= u32::MAX * u32::MAX) by (nonlinear_arith)
        requires
            h <= u32::MAX,
            v <= u32::MAX,
    ;
}

/// Removes the timings above the cap from a DisplayID block.
pub fn cap_displayid(blk: &[u8], block: usize, cap: &Hz) -> (r: DisplayIdCap)
    requires
        blk.len() >= BLOCK,
        cap.den > 0,
    ensures
        r.did@ == capped_displayid(displayid::displayid_content(blk@), *cap),
        r.dropped@ == displayid_dropped(displayid::displayid_content(blk@), block, *cap),
        text::texts(r.notes@) == displayid_notes(
            displayid::displayid_content(blk@).blocks,
            block,
            *cap,
        ),
{
    let old = parse_displayid(blk);
    let ghost bs = old@.blocks;
    let ghost above = cta_cap::is_above(*cap);
    let mut blocks: Vec<(u8, u8, Vec<u8>)> = Vec::new();
    let mut all: Vec<Timing> = Vec::new();
    let mut dropped: Vec<Timing> = Vec::new();
    let mut notes: Vec<String> = Vec::new();
    let mut i: usize = 0;
    proof {
        reveal(Seq::filter);
        assert(bs.take(0) =~= Seq::empty());
        assert(displayid::section_views(blocks@) =~= trimmed_sections(bs.take(0), *cap));
        assert(text::texts(notes@) =~= displayid_notes(bs.take(0), block, *cap));
        assert(dropped@ =~= all@.filter(above));
    }
    while i < old.blocks.len()
        invariant
            i <= old.blocks.len(),
            cap.den > 0,
            bs == displayid::section_views(old.blocks@),
            above == cta_cap::is_above(*cap),
            displayid::section_views(blocks@) == trimmed_sections(bs.take(i as int), *cap),
            all@ == displayid::displayid_timings(bs.take(i as int), block),
            dropped@ == all@.filter(above),
            text::texts(notes@) == displayid_notes(bs.take(i as int), block, *cap),
        decreases old.blocks.len() - i,
    {
        let (tag, rev, body) = &old.blocks[i];
        let ghost b = bs[i as int];
        let ghost earlier = all@;
        let ghost views = displayid::section_views(blocks@);
        let ghost more = displayid::block_timings(b, block, earlier.len());
        proof {
            assert(b == (*tag, *rev, body@));
            assert(bs.take(i + 1).drop_last() =~= bs.take(i as int));
            assert(bs.take(i + 1).last() == b);
            Seq::filter_distributes_over_add(earlier, more, above);
        }
        if *tag == 0x03 || *tag == 0x22 {
            let nb = trim_section(&old.blocks[i], block, cap, &mut all, &mut dropped);
            if nb.len() == 0 {
                let mut what = String::new();
                what.append("removed empty DisplayID timing block 0x");
                push_hex(&mut what, *tag as u64, 2);
                push_note(&mut notes, note_on_block(what.as_str(), block));
            } else {
                blocks.push((*tag, *rev, nb));
                assert(displayid::section_views(blocks@) =~= views.push((*tag, *rev, nb@)));
            }
        } else {
            let copy = bytes_between(body, 0, body.len());
            proof {
                assert(copy@ =~= body@);
                assert(more =~= Seq::empty());
                assert(earlier + more =~= earlier);
            }
            blocks.push((*tag, *rev, copy));
            assert(displayid::section_views(blocks@) =~= views.push(b));
        }
        i += 1;
    }
    assert(bs.take(i as int) =~= bs);
    let did = DisplayIdBlock {
        version: old.version,
        product_type: old.product_type,
        ext_count: old.ext_count,
        blocks,
    };
    assert(did@ =~= capped_displayid(displayid::displayid_content(blk@), *cap));
    DisplayIdCap { did, dropped, notes }
}

// ---------------------------------------------------------------------------
// What stays can be written again.

pub proof fn lemma_joined_first(p: Seq<u8>, ps: Seq<Seq<u8>>)
    ensures
        joined(seq![p] + ps) == p + joined(ps),
    decreases ps.len(),
{
    let all = seq![p] + ps;
    if ps.len() == 0 {
        assert(all.drop_last() =~= ps);
        assert(joined(ps) =~= Seq::empty());
        assert(joined(all) =~= p + joined(ps));
    } else {
        lemma_joined_first(p, ps.drop_last());
        assert(all.drop_last() =~= seq![p] + ps.drop_last());
        assert(joined(all) =~= p + joined(ps));
    }
}

proof fn lemma_joined_pieces_len(body: Seq<u8>, size: nat)
    ensures
        joined(displayid::pieces(body, size)).len() <= body.len(),
    decreases body.len(),
{
    if size > 0 && body.len() >= size {
        let rest = body.skip(size as int);
        lemma_joined_pieces_len(rest, size);
        lemma_joined_first(body.take(size as int), displayid::pieces(rest, size));
    }
}

proof fn lemma_joined_filter_len(ps: Seq<Seq<u8>>, p: spec_fn(Seq<u8>) -> bool)
    ensures
        joined(ps.filter(p)).len() <= joined(ps).len(),
    decreases ps.len(),
{
    reveal(Seq::filter);
    if ps.len() > 0 {
        let kept = ps.drop_last().filter(p);
        lemma_joined_filter_len(ps.drop_last(), p);
        assert(kept.push(ps.last()).drop_last() =~= kept);
    }
}

/// A data block does not grow.
pub proof fn lemma_trimmed_section_len(b: (u8, u8, Seq<u8>), cap: Hz)
    ensures
        trimmed_section(b, cap).2.len() <= b.2.len(),
{
    let entries = displayid::block_entries(b);
    lemma_joined_filter_len(entries, piece_stays(b.0, cap));
    if displayid::holds_timings(b.0) {
        lemma_joined_pieces_len(b.2, timing::entry_size(b.0, b.1));
    }
}

proof fn lemma_trimmed_sections(bs: Seq<(u8, u8, Seq<u8>)>, cap: Hz)
    ensures
        displayid::section_bytes(trimmed_sections(bs, cap)).len() <= displayid::section_bytes(
            bs,
        ).len(),
        (forall|k: int| 0 <= k < bs.len() ==> !displayid::is_blank(#[trigger] bs[k])) ==> (forall|
            k: int,
        |
            0 <= k < trimmed_sections(bs, cap).len() ==> !displayid::is_blank(
                #[trigger] trimmed_sections(bs, cap)[k],
            )),
    decreases bs.len(),
{
    if bs.len() > 0 {
        let init = bs.drop_last();
        let b = bs.last();
        let before = trimmed_sections(init, cap);
        lemma_trimmed_sections(init, cap);
        lemma_trimmed_section_len(b, cap);
        assert(bs =~= init.push(b));
        displayid::lemma_section_bytes_push(init, b);
        displayid::lemma_section_bytes_push(before, b);
        displayid::lemma_section_bytes_push(before, trimmed_section(b, cap));
        if forall|k: int| 0 <= k < bs.len() ==> !displayid::is_blank(#[trigger] bs[k]) {
            assert forall|k: int| 0 <= k < init.len() implies !displayid::is_blank(
                #[trigger] init[k],
            ) by {
                assert(init[k] == bs[k]);
            }
            assert(!displayid::is_blank(bs[bs.len() - 1]));
        }
    }
}

/// What stays of a parsed block can be written again.
pub proof fn lemma_capped_displayid_regular(c: DisplayIdContent, cap: Hz)
    requires
        displayid::displayid_regular(c),
    ensures
        displayid::displayid_regular(capped_displayid(c, cap)),
{
    let bs = c.blocks;
    lemma_trimmed_sections(bs, cap);
    if bs.len() > 0 {
        let init = bs.drop_last();
        assert forall|k: int| 0 <= k < init.len() implies !displayid::is_blank(#[trigger] init[k]) by {
            assert(init[k] == bs[k]);
        }
        lemma_trimmed_sections(init, cap);
        let all = trimmed_sections(bs, cap);
        let before = trimmed_sections(init, cap);
        assert forall|k: int| 0 <= k < all.len() - 1 implies !displayid::is_blank(
            #[trigger] all[k],
        ) by {
            assert(all[k] == before[k]);
        }
    }
}

} // verus!
