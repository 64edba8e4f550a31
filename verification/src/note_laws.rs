//! What a cap notes about the extension blocks, and that it leaves nothing behind that is empty.

use vstd::prelude::*;

use crate::cap::CapOptions;
use crate::cta::CtaContent;
use crate::rate::Hz;
use crate::{
    block, cap, cta, cta_cap, decode_laws, displayid, displayid_cap, displayid_laws, edid,
    kept_laws, laws, seqs, text, timing,
};

verus! {

/// Whether a data block loses a code to the cap.
pub open spec fn loses_code(b: (u8, Seq<u8>), cap: Hz) -> bool {
    ||| b.0 == 2 && b.1.filter(kept_laws::svd_within(cap)).len() < b.1.len()
    ||| b.0 == 7 && b.1.len() > 0 && b.1[0] == 14 && b.1.drop_first().filter(
        kept_laws::code_within(cap),
    ).len() + 1 < b.1.len()
}

/// Whether a CTA-861 block loses a code or a detailed timing to the cap.
pub open spec fn loses_something(c: CtaContent, cap: Hz) -> bool {
    ||| exists|j: int| 0 <= j < c.data_blocks.len() && loses_code(#[trigger] c.data_blocks[j], cap)
    ||| c.dtds.filter(kept_laws::dtd_within(cap)).len() < c.dtds.len()
}

/// Whether one of the data blocks is a video data block of which the cap leaves nothing.
pub open spec fn loses_video(bs: Seq<(u8, Seq<u8>)>, cap: Hz) -> bool {
    exists|j: int|
        0 <= j < bs.len() && (#[trigger] bs[j]).0 == 2 && bs[j].1.filter(
            kept_laws::svd_within(cap),
        ).len() == 0
}

/// Whether a short video descriptor has a code that is not known.
pub open spec fn is_unknown() -> spec_fn(u8) -> bool {
    |svd: u8| timing::vic_format(decode_laws::code_in(svd)) is None
}

/// The note on a short video descriptor with a code that is not known.
pub open spec fn unknown_note(n: usize) -> spec_fn(u8) -> Seq<char> {
    |svd: u8|
        "kept unknown VIC "@ + text::dec(decode_laws::code_in(svd) as nat) + " (block "@ + text::dec(
            n as nat,
        ) + ")"@
}

/// Whether a data block is a YCbCr 4:2:0 capability map with at least one byte of bits.
pub open spec fn has_bits() -> spec_fn((u8, Seq<u8>)) -> bool {
    |b: (u8, Seq<u8>)| b.0 == 7 && b.1.len() > 1 && b.1[0] == 15
}

proof fn lemma_block_changed(b: (u8, Seq<u8>), cap: Hz)
    ensures
        loses_code(b, cap) <==> cta_cap::trimmed_block(cap)(b) != b,
{
    kept_laws::lemma_svd_within(cap);
    let new = cta_cap::trimmed_block(cap)(b);
    if b.0 == 2 {
        seqs::lemma_filter_same_len(b.1, kept_laws::svd_within(cap));
    } else if b.0 == 7 && b.1.len() > 0 && b.1[0] == 14 {
        let rest = b.1.drop_first();
        let kept = rest.filter(kept_laws::code_within(cap));
        seqs::lemma_filter_same_len(rest, kept_laws::code_within(cap));
        if kept.len() == rest.len() {
            assert(new.1 =~= b.1);
        } else {
            assert(new.1.len() < b.1.len());
        }
    }
}

proof fn lemma_changed(blk: Seq<u8>, cap: Hz)
    requires
        blk.len() == 128,
    ensures
        loses_something(cta::cta_content(blk), cap) <==> cta_cap::cta_changed(
            cta::cta_content(blk),
            cap,
        ),
{
    let c = cta::cta_content(blk);
    let bs = c.data_blocks;
    let ds = c.dtds;
    let mid = bs.map_values(cta_cap::trimmed_block(cap));
    decode_laws::law_cta_dtds(blk);
    assert forall|i: int| 0 <= i < ds.len() implies cta_cap::dtd_stays(cap)(#[trigger] ds[i])
        == kept_laws::dtd_within(cap)(ds[i]) by {
        assert(decode_laws::dtd_at(ds[i], blk, blk[2] + 18 * i));
        kept_laws::lemma_dtd_within(ds[i], cap);
    }
    kept_laws::lemma_same_filter(ds, cta_cap::dtd_stays(cap), kept_laws::dtd_within(cap));
    seqs::lemma_filter_same_len(ds, cta_cap::dtd_stays(cap));
    if exists|j: int| 0 <= j < bs.len() && loses_code(#[trigger] bs[j], cap) {
        let j = choose|j: int| 0 <= j < bs.len() && loses_code(#[trigger] bs[j], cap);
        lemma_block_changed(bs[j], cap);
        assert(mid[j] != bs[j]);
    } else {
        assert forall|j: int| 0 <= j < bs.len() implies #[trigger] mid[j] == bs[j] by {
            assert(!loses_code(bs[j], cap));
            lemma_block_changed(bs[j], cap);
        }
        assert(mid =~= bs);
    }
}

proof fn lemma_unknown_notes(svds: Seq<u8>, n: usize)
    ensures
        cta_cap::unknown_notes(svds, n) == svds.filter(is_unknown()).map_values(unknown_note(n)),
    decreases svds.len(),
{
    reveal(Seq::filter);
    if svds.len() > 0 {
        let before = svds.drop_last();
        let svd = svds.last();
        lemma_unknown_notes(before, n);
        assert(timing::svd_code(svd) == decode_laws::code_in(svd));
        if is_unknown()(svd) {
            let kept = before.filter(is_unknown());
            assert(kept.push(svd).map_values(unknown_note(n)) =~= kept.map_values(
                unknown_note(n),
            ).push(unknown_note(n)(svd)));
        }
    } else {
        assert(svds.filter(is_unknown()).map_values(unknown_note(n)) =~= Seq::empty());
    }
}

proof fn lemma_map_notes(bs: Seq<(u8, Seq<u8>)>, n: usize)
    ensures
        ({
            let notes = cta_cap::map_notes(bs, n);
            &&& notes.len() == bs.filter(has_bits()).len()
            &&& forall|i: int|
                0 <= i < notes.len() ==> #[trigger] notes[i]
                    == "remapped YCbCr 4:2:0 capability map"@ + " (block "@ + text::dec(n as nat)
                    + ")"@
        }),
    decreases bs.len(),
{
    reveal(Seq::filter);
    if bs.len() > 0 {
        lemma_map_notes(bs.drop_last(), n);
    }
}

proof fn lemma_some_over(bs: Seq<(u8, Seq<u8>)>, cap: Hz)
    ensures
        cta_cap::svds_kept(bs, cap).contains(false) <==> exists|i: int|
            0 <= i < kept_laws::descriptors_in(bs).len() && !kept_laws::svd_within(cap)(
                #[trigger] kept_laws::descriptors_in(bs)[i],
            ),
{
    let svds = kept_laws::descriptors_in(bs);
    let kept = cta_cap::svds_kept(bs, cap);
    kept_laws::lemma_svd_within(cap);
    decode_laws::law_svds(bs);
    if kept.contains(false) {
        let i = choose|i: int| 0 <= i < kept.len() && !kept[i];
        assert(!kept_laws::svd_within(cap)(svds[i]));
    }
    if exists|i: int| 0 <= i < svds.len() && !kept_laws::svd_within(cap)(#[trigger] svds[i]) {
        let i = choose|i: int| 0 <= i < svds.len() && !kept_laws::svd_within(cap)(#[trigger] svds[i]);
        assert(!kept[i]);
    }
}

proof fn lemma_lost_video(bs: Seq<(u8, Seq<u8>)>, cap: Hz)
    ensures
        loses_video(bs, cap) <==> cta_cap::some_empty_video(cta_cap::trimmed_blocks(bs, cap)),
{
    let mid = cta_cap::trimmed_blocks(bs, cap);
    kept_laws::lemma_svd_within(cap);
    assert forall|j: int| 0 <= j < bs.len() implies (cta_cap::is_empty_video(#[trigger] mid[j])
        <==> bs[j].0 == 2 && bs[j].1.filter(kept_laws::svd_within(cap)).len() == 0) by {}
    if loses_video(bs, cap) {
        let j = choose|j: int|
            0 <= j < bs.len() && (#[trigger] bs[j]).0 == 2 && bs[j].1.filter(
                kept_laws::svd_within(cap),
            ).len() == 0;
        assert(cta_cap::is_empty_video(mid[j]));
    }
    if cta_cap::some_empty_video(mid) {
        let j = choose|j: int| 0 <= j < mid.len() && cta_cap::is_empty_video(#[trigger] mid[j]);
        assert(bs[j].0 == 2 && bs[j].1.filter(kept_laws::svd_within(cap)).len() == 0);
    }
}

/// The notes on a CTA-861 block, in order: one for each short video descriptor whose code is not
/// known; one for each capability map with bits, if a short video descriptor goes; and one, if
/// anything goes and nothing is left of a video data block.
pub proof fn law_cta_notes(blk: Seq<u8>, n: usize, cap: Hz)
    requires
        blk.len() == 128,
        blk[0] == 0x02,
    ensures
        ({
            let bs = cta::cta_content(blk).data_blocks;
            let svds = kept_laws::descriptors_in(bs);
            let unknown = svds.filter(is_unknown()).map_values(unknown_note(n));
            let over = exists|i: int|
                0 <= i < svds.len() && !kept_laws::svd_within(cap)(#[trigger] svds[i]);
            let maps = Seq::new(
                if over {
                    bs.filter(has_bits()).len()
                } else {
                    0
                },
                |i: int|
                    "remapped YCbCr 4:2:0 capability map"@ + " (block "@ + text::dec(n as nat)
                        + ")"@,
            );
            let removed = if loses_something(cta::cta_content(blk), cap) && loses_video(bs, cap) {
                seq![
                    "removed empty video data block(s)"@ + " (block "@ + text::dec(n as nat)
                        + ")"@,
                ]
            } else {
                Seq::empty()
            };
            cap::extension_notes(blk, n, cap) == unknown + maps + removed
        }),
{
    let bs = cta::cta_content(blk).data_blocks;
    let svds = kept_laws::descriptors_in(bs);
    decode_laws::law_svds(bs);
    lemma_unknown_notes(svds, n);
    lemma_map_notes(bs, n);
    lemma_some_over(bs, cap);
    lemma_lost_video(bs, cap);
    lemma_changed(blk, cap);
    let over = exists|i: int|
        0 <= i < svds.len() && !kept_laws::svd_within(cap)(#[trigger] svds[i]);
    let maps = Seq::new(
        if over {
            bs.filter(has_bits()).len()
        } else {
            0
        },
        |i: int| "remapped YCbCr 4:2:0 capability map"@ + " (block "@ + text::dec(n as nat) + ")"@,
    );
    if over {
        assert(maps =~= cta_cap::map_notes(bs, n));
    } else {
        assert(maps =~= Seq::empty());
    }
}

/// Whether a DisplayID data block is one of timings of which the cap leaves nothing.
pub open spec fn loses_all(cap: Hz) -> spec_fn((u8, u8, Seq<u8>)) -> bool {
    |b: (u8, u8, Seq<u8>)|
        (b.0 == 0x03 || b.0 == 0x22) && kept_laws::descriptors_of(b).filter(
            kept_laws::descriptor_within(b.0, cap),
        ).len() == 0
}

/// The note on a DisplayID data block of which nothing is left.
pub open spec fn removed_note(n: usize) -> spec_fn((u8, u8, Seq<u8>)) -> Seq<char> {
    |b: (u8, u8, Seq<u8>)|
        "removed empty DisplayID timing block 0x"@ + text::hex_digits(b.0 as nat, 2) + " (block "@
            + text::dec(n as nat) + ")"@
}

proof fn lemma_section_lost(b: (u8, u8, Seq<u8>), cap: Hz)
    requires
        b.0 == 0x03 || b.0 == 0x22,
    ensures
        displayid_cap::trimmed_section(b, cap).2.len() == 0 <==> loses_all(cap)(b),
{
    let new = displayid_cap::trimmed_section(b, cap);
    kept_laws::lemma_section_becomes(b, cap);
    kept_laws::lemma_descriptors_of(b);
    kept_laws::lemma_descriptors_of(new);
    displayid_laws::lemma_trimmed_entries(b, cap);
}

proof fn lemma_displayid_notes(bs: Seq<(u8, u8, Seq<u8>)>, n: usize, cap: Hz)
    ensures
        displayid_cap::displayid_notes(bs, n, cap) == bs.filter(loses_all(cap)).map_values(
            removed_note(n),
        ),
    decreases bs.len(),
{
    reveal(Seq::filter);
    if bs.len() > 0 {
        let before = bs.drop_last();
        let b = bs.last();
        lemma_displayid_notes(before, n, cap);
        if b.0 == 0x03 || b.0 == 0x22 {
            lemma_section_lost(b, cap);
        }
        if loses_all(cap)(b) {
            let kept = before.filter(loses_all(cap));
            assert(kept.push(b).map_values(removed_note(n)) =~= kept.map_values(
                removed_note(n),
            ).push(removed_note(n)(b)));
        }
    } else {
        assert(bs.filter(loses_all(cap)).map_values(removed_note(n)) =~= Seq::empty());
    }
}

/// The notes on a DisplayID block: one for each data block of timings of which nothing is left. On
/// a block that is neither CTA-861 (0x02) nor DisplayID (0x70) there are none.
pub proof fn law_displayid_notes(blk: Seq<u8>, n: usize, cap: Hz)
    ensures
        blk[0] == 0x70 ==> cap::extension_notes(blk, n, cap) == displayid::displayid_content(
            blk,
        ).blocks.filter(loses_all(cap)).map_values(removed_note(n)),
        blk[0] != 0x02 && blk[0] != 0x70 ==> cap::extension_notes(blk, n, cap).len() == 0,
{
    lemma_displayid_notes(displayid::displayid_content(blk).blocks, n, cap);
}

/// The notes on each extension block, by its number.
pub open spec fn notes_by_block(bytes: Seq<u8>, cap: Hz, n: nat) -> Seq<Seq<Seq<char>>> {
    Seq::new(
        (n - 1) as nat,
        |i: int|
            cap::extension_notes(
                bytes.subrange(128 * (i + 1), 128 * (i + 1) + 128),
                (i + 1) as usize,
                cap,
            ),
    )
}

proof fn lemma_notes_by_block(bytes: Seq<u8>, cap: Hz, n: nat)
    requires
        n >= 1,
    ensures
        cap::notes_to(bytes, cap, n) == notes_by_block(bytes, cap, n).flatten(),
    decreases n,
{
    if n == 1 {
        assert(notes_by_block(bytes, cap, n) =~= Seq::empty());
    } else {
        let m = (n - 1) as nat;
        let before = notes_by_block(bytes, cap, m);
        let more = cap::extension_notes(block::block_at(bytes, m as int), m as usize, cap);
        lemma_notes_by_block(bytes, cap, m);
        assert(notes_by_block(bytes, cap, n) =~= before.push(more));
        before.lemma_flatten_push(more);
    }
}

/// A cap notes what it notes on each extension block, one block behind the other, and when the
/// EDID has no range limits, nothing else.
pub proof fn law_cap_notes(bytes: Seq<u8>, opts: CapOptions)
    requires
        cap::accepted(bytes, opts),
        cap::cap_fits(bytes, opts),
    ensures
        ({
            let notes = cap::cap_content(bytes, opts).notes;
            let all = notes_by_block(bytes, opts.max_hz, bytes.len() / 128).flatten();
            &&& all.is_prefix_of(notes)
            &&& edid::edid_content(bytes).range_limits is None ==> notes == all
        }),
{
    let notes = cap::cap_content(bytes, opts).notes;
    let all = notes_by_block(bytes, opts.max_hz, bytes.len() / 128).flatten();
    lemma_notes_by_block(bytes, opts.max_hz, block::block_count(bytes));
    laws::lemma_trimmed_limits(bytes, opts);
    assert(all =~= notes.subrange(0, all.len() as int));
    if edid::edid_content(bytes).range_limits is None {
        assert(notes =~= all);
    }
}

/// A CTA-861 block that a cap changes has no video data block without a descriptor and no
/// YCbCr 4:2:0 video data block without a code. It has a capability map only when it has a
/// descriptor that the map could be for, or had no video data block at all.
pub proof fn law_cap_leaves_no_empty_data(bytes: Seq<u8>, opts: CapOptions, k: int, j: int)
    requires
        cap::accepted(bytes, opts),
        cap::cap_fits(bytes, opts),
        1 <= k < bytes.len() / 128,
        bytes[128 * k] == 0x02,
        cap::cap_content(bytes, opts).bytes.subrange(128 * k, 128 * k + 128) != bytes.subrange(
            128 * k,
            128 * k + 128,
        ),
        0 <= j < cta::cta_content(
            cap::cap_content(bytes, opts).bytes.subrange(128 * k, 128 * k + 128),
        ).data_blocks.len(),
    ensures
        ({
            let old = cta::cta_content(bytes.subrange(128 * k, 128 * k + 128)).data_blocks;
            let new = cta::cta_content(
                cap::cap_content(bytes, opts).bytes.subrange(128 * k, 128 * k + 128),
            ).data_blocks;
            let b = new[j];
            &&& b.0 == 2 ==> b.1.len() > 0
            &&& b.0 == 7 && b.1.len() > 0 && b.1[0] == 14 ==> b.1.len() > 1
            &&& b.0 == 7 && b.1.len() > 0 && b.1[0] == 15 ==> (exists|i: int|
                0 <= i < new.len() && (#[trigger] new[i]).0 == 2) || (forall|i: int|
                0 <= i < old.len() ==> (#[trigger] old[i]).0 != 2)
        }),
{
    let cap = opts.max_hz;
    let blk = block::block_at(bytes, k);
    let c = cta::cta_content(blk);
    let old = c.data_blocks;
    let mid = cta_cap::trimmed_blocks(old, cap);
    let keep = cta_cap::says_something(cta_cap::lost_video(mid));
    kept_laws::lemma_written_cta(bytes, opts, k);
    laws::lemma_capped_blocks(bytes, opts);
    assert(blk[0] == bytes[128 * k]);
    assert(block::block_at(cap::cap_content(bytes, opts).bytes, k) == cap::capped_extension(
        blk,
        k as usize,
        cap,
    ));
    assert(cta_cap::cta_changed(c, cap));
    let new = cta_cap::capped_cta(c, cap).data_blocks;
    assert(new == mid.filter(keep));
    let from = seqs::lemma_filter_places(mid, keep);
    let b = new[j];
    assert(0 <= from[j] < mid.len());
    assert(from.contains(from[j]));
    assert(keep(mid[from[j]]));
    assert(b == mid[from[j]]);
    if b.0 == 7 && b.1.len() > 0 && b.1[0] == 15 && !(forall|i: int|
        0 <= i < old.len() ==> (#[trigger] old[i]).0 != 2) {
        let i = choose|i: int| 0 <= i < old.len() && (#[trigger] old[i]).0 == 2;
        assert(mid[i].0 == 2);
        let v = if mid[i].1.len() > 0 {
            i
        } else {
            assert(cta_cap::is_empty_video(mid[i]));
            choose|v: int| 0 <= v < mid.len() && (#[trigger] mid[v]).0 == 2 && mid[v].1.len() > 0
        };
        assert(keep(mid[v]));
        let a = choose|a: int| 0 <= a < from.len() && from[a] == v;
        assert(new[a].0 == 2);
    }
}

/// A DisplayID block that a cap changes has no data block of timings without a descriptor.
pub proof fn law_cap_leaves_no_empty_section(bytes: Seq<u8>, opts: CapOptions, k: int, j: int)
    requires
        cap::accepted(bytes, opts),
        cap::cap_fits(bytes, opts),
        1 <= k < bytes.len() / 128,
        bytes[128 * k] == 0x70,
        cap::cap_content(bytes, opts).bytes.subrange(128 * k, 128 * k + 128) != bytes.subrange(
            128 * k,
            128 * k + 128,
        ),
        0 <= j < displayid::displayid_content(
            cap::cap_content(bytes, opts).bytes.subrange(128 * k, 128 * k + 128),
        ).blocks.len(),
    ensures
        ({
            let b = displayid::displayid_content(
                cap::cap_content(bytes, opts).bytes.subrange(128 * k, 128 * k + 128),
            ).blocks[j];
            b.0 == 0x03 || b.0 == 0x22 ==> kept_laws::descriptors_of(b).len() > 0
        }),
{
    let cap = opts.max_hz;
    let blk = block::block_at(bytes, k);
    let c = displayid::displayid_content(blk);
    let mid = displayid_cap::trimmed_sections(c.blocks, cap);
    laws::lemma_capped_blocks(bytes, opts);
    assert(blk[0] == bytes[128 * k]);
    assert(block::block_at(cap::cap_content(bytes, opts).bytes, k) == cap::capped_extension(
        blk,
        k as usize,
        cap,
    ));
    displayid::lemma_parsed_displayid_regular(blk);
    displayid_cap::lemma_capped_displayid_regular(c, cap);
    displayid::law_displayid_round_trip(displayid_cap::capped_displayid(c, cap));
    lemma_sections_hold(c.blocks, cap, j);
}

proof fn lemma_sections_hold(bs: Seq<(u8, u8, Seq<u8>)>, cap: Hz, j: int)
    requires
        0 <= j < displayid_cap::trimmed_sections(bs, cap).len(),
    ensures
        ({
            let b = displayid_cap::trimmed_sections(bs, cap)[j];
            b.0 == 0x03 || b.0 == 0x22 ==> kept_laws::descriptors_of(b).len() > 0
        }),
    decreases bs.len(),
{
    let before = displayid_cap::trimmed_sections(bs.drop_last(), cap);
    let b = bs.last();
    if j < before.len() {
        lemma_sections_hold(bs.drop_last(), cap, j);
    } else if b.0 == 0x03 || b.0 == 0x22 {
        displayid_laws::lemma_trimmed_entries(b, cap);
        kept_laws::lemma_descriptors_of(displayid_cap::trimmed_section(b, cap));
    }
}

} // verus!
