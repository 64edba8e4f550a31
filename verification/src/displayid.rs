//! DisplayID extension blocks (as embedded in EDID, tag 0x70).

use vstd::prelude::*;

use crate::block::{block_sum, fix_checksum, BLOCK};
use crate::cta::{bytes_between, pad_block, push_bytes};
use crate::timing::{
    displayid_clock_unit, displayid_entry_size, parse_displayid_timing, Timing, TimingSource,
};
use crate::{cta, timing};

verus! {

/// A parsed DisplayID extension block.
pub struct DisplayIdBlock {
    pub version: u8,
    pub product_type: u8,
    pub ext_count: u8,
    /// (tag, revision, payload)
    pub blocks: Vec<(u8, u8, Vec<u8>)>,
}

/// What a DisplayID extension block says.
#[verifier::ext_equal]
pub struct DisplayIdContent {
    pub version: u8,
    pub product_type: u8,
    pub ext_count: u8,
    pub blocks: Seq<(u8, u8, Seq<u8>)>,
}

/// The contents of each data block.
pub open spec fn section_views(v: Seq<(u8, u8, Vec<u8>)>) -> Seq<(u8, u8, Seq<u8>)> {
    v.map_values(|b: (u8, u8, Vec<u8>)| (b.0, b.1, b.2@))
}

impl View for DisplayIdBlock {
    type V = DisplayIdContent;

    open spec fn view(&self) -> DisplayIdContent {
        DisplayIdContent {
            version: self.version,
            product_type: self.product_type,
            ext_count: self.ext_count,
            blocks: section_views(self.blocks@),
        }
    }
}

/// The data blocks that start at `i`, up to `end` or to one with neither tag nor length. A
/// data block is its tag, its revision, the length of its payload and the payload, cut off
/// at `end`.
pub open spec fn sections_from(blk: Seq<u8>, i: int, end: int) -> Seq<(u8, u8, Seq<u8>)>
    decreases
            (if i < end {
                end - i
            } else {
                0
            }),
{
    if i + 3 <= end && !(blk[i] == 0 && blk[i + 2] == 0) {
        let stop = cta::least(i + 3 + blk[i + 2], end);
        seq![(blk[i], blk[i + 1], blk.subrange(i + 3, stop))] + sections_from(
            blk,
            i + 3 + blk[i + 2],
            end,
        )
    } else {
        Seq::empty()
    }
}

/// What the bytes of a DisplayID block say.
pub open spec fn displayid_content(blk: Seq<u8>) -> DisplayIdContent {
    DisplayIdContent {
        version: blk[1],
        product_type: blk[3],
        ext_count: blk[4],
        blocks: sections_from(blk, 5, cta::least(5 + blk[2], 127)),
    }
}

/// Reads a DisplayID extension block.
pub fn parse_displayid(blk: &[u8]) -> (d: DisplayIdBlock)
    requires
        blk.len() >= BLOCK,
    ensures
        d@ == displayid_content(blk@),
{
    let sec_len: usize = blk[2] as usize;
    let end: usize = if 5 + sec_len < BLOCK - 1 {
        5 + sec_len
    } else {
        BLOCK - 1
    };
    let mut blocks: Vec<(u8, u8, Vec<u8>)> = Vec::new();
    let mut i: usize = 5;
    while i + 3 <= end && !(blk[i] == 0 && blk[i + 2] == 0)
        invariant
            5 <= i <= 400,
            end <= 127,
            blk.len() >= 128,
            section_views(blocks@) + sections_from(blk@, i as int, end as int) == sections_from(
                blk@,
                5,
                end as int,
            ),
        decreases 400 - i,
    {
        let len: usize = blk[i + 2] as usize;
        let stop: usize = if i + 3 + len < end {
            i + 3 + len
        } else {
            end
        };
        let body = bytes_between(blk, i + 3, stop);
        let ghost before = section_views(blocks@);
        let ghost rest = sections_from(blk@, i + 3 + len, end as int);
        let ghost one = (blk@[i as int], blk@[i + 1], body@);
        blocks.push((blk[i], blk[i + 1], body));
        proof {
            assert(section_views(blocks@) =~= before.push(one));
            assert(before + (seq![one] + rest) =~= before.push(one) + rest);
        }
        i += 3 + len;
    }
    assert(section_views(blocks@) + Seq::<(u8, u8, Seq<u8>)>::empty() =~= section_views(blocks@));
    let d = DisplayIdBlock { version: blk[1], product_type: blk[3], ext_count: blk[4], blocks };
    assert(d@ =~= displayid_content(blk@));
    d
}

// ---------------------------------------------------------------------------
// Writing a block.

/// The bytes of one data block.
pub open spec fn section_block_bytes(b: (u8, u8, Seq<u8>)) -> Seq<u8> {
    seq![b.0, b.1, b.2.len() as u8] + b.2
}

/// The bytes of the data blocks, one after the other.
pub open spec fn section_bytes(bs: Seq<(u8, u8, Seq<u8>)>) -> Seq<u8>
    decreases bs.len(),
{
    if bs.len() == 0 {
        Seq::empty()
    } else {
        section_block_bytes(bs[0]) + section_bytes(bs.drop_first())
    }
}

/// The bytes that the section needs, without its checksum.
pub open spec fn displayid_size(c: DisplayIdContent) -> nat {
    4 + section_bytes(c.blocks).len()
}

/// The section that the block wraps, without its checksum.
pub open spec fn section(c: DisplayIdContent) -> Seq<u8> {
    let data = section_bytes(c.blocks);
    seq![c.version, data.len() as u8, c.product_type, c.ext_count] + data
}

/// The bytes that say `c`: the section with its own checksum, then zeros.
pub open spec fn displayid_bytes(c: DisplayIdContent) -> Seq<u8> {
    let sec = section(c);
    crate::block::sealed(cta::padded(seq![0x70u8] + sec + seq![crate::block::complement(sec)]))
}

pub proof fn lemma_section_bytes_push(bs: Seq<(u8, u8, Seq<u8>)>, b: (u8, u8, Seq<u8>))
    ensures
        section_bytes(bs.push(b)) == section_bytes(bs) + section_block_bytes(b),
    decreases bs.len(),
{
    if bs.len() == 0 {
        assert(bs =~= Seq::empty());
        assert(bs.push(b).drop_first() =~= bs);
        assert(section_bytes(bs.push(b)) =~= section_bytes(bs) + section_block_bytes(b));
    } else {
        assert(bs.push(b).drop_first() =~= bs.drop_first().push(b));
        lemma_section_bytes_push(bs.drop_first(), b);
        assert(section_bytes(bs.push(b)) =~= section_bytes(bs) + section_block_bytes(b));
    }
}

/// Writes a DisplayID extension block.
pub fn build_displayid(d: &DisplayIdBlock) -> (out: Vec<u8>)
    requires
        displayid_size(d@) <= 126,
    ensures
        out@ == displayid_bytes(d@),
{
    let ghost bs = d@.blocks;
    let mut body: Vec<u8> = Vec::new();
    let mut i: usize = 0;
    assert(bs.take(0) =~= Seq::empty());
    while i < d.blocks.len()
        invariant
            i <= d.blocks.len(),
            bs == section_views(d.blocks@),
            body@ == section_bytes(bs.take(i as int)),
        decreases d.blocks.len() - i,
    {
        let (tag, rev, payload) = &d.blocks[i];
        proof {
            assert(bs[i as int] == (*tag, *rev, payload@));
            assert(bs.take(i + 1) =~= bs.take(i as int).push(bs[i as int]));
            lemma_section_bytes_push(bs.take(i as int), bs[i as int]);
        }
        body.push(*tag);
        body.push(*rev);
        body.push(payload.len() as u8);
        push_bytes(&mut body, payload);
        assert(body@ =~= section_bytes(bs.take(i + 1)));
        i += 1;
    }
    assert(bs.take(i as int) =~= bs);
    let mut sec: Vec<u8> = Vec::new();
    sec.push(d.version);
    sec.push(body.len() as u8);
    sec.push(d.product_type);
    sec.push(d.ext_count);
    push_bytes(&mut sec, &body);
    assert(sec@ =~= section(d@));
    let checksum = 0u8.wrapping_sub(block_sum(&sec));
    let mut out: Vec<u8> = Vec::new();
    out.push(0x70);
    push_bytes(&mut out, &sec);
    out.push(checksum);
    assert(out@ =~= seq![0x70u8] + section(d@) + seq![crate::block::complement(section(d@))]);
    pad_block(&mut out);
    fix_checksum(out.as_mut_slice());
    out
}

// ---------------------------------------------------------------------------
// Timings.

/// Whether data blocks with this tag hold timings (Type I or Type VII).
pub open spec fn holds_timings(tag: u8) -> bool {
    tag == 0x03 || tag == 0x22
}

/// `body` cut into pieces of `size` bytes; what is left over at the end is not a piece.
pub open spec fn pieces(body: Seq<u8>, size: nat) -> Seq<Seq<u8>>
    decreases body.len(),
{
    if size > 0 && body.len() >= size {
        seq![body.take(size as int)] + pieces(body.skip(size as int), size)
    } else {
        Seq::empty()
    }
}

/// The timing descriptors in one data block.
pub open spec fn block_entries(b: (u8, u8, Seq<u8>)) -> Seq<Seq<u8>> {
    if holds_timings(b.0) {
        pieces(b.2, timing::entry_size(b.0, b.1))
    } else {
        Seq::empty()
    }
}

/// The timings of one data block; the first has the number `first`.
pub open spec fn block_timings(b: (u8, u8, Seq<u8>), block: usize, first: nat) -> Seq<Timing> {
    Seq::new(
        block_entries(b).len(),
        |k: int|
            timing::displayid_mode(
                block_entries(b)[k],
                timing::clock_unit(b.0),
                TimingSource::DisplayId { block, index: (first + k) as usize },
            ),
    )
}

/// The timings of the data blocks, numbered through.
pub open spec fn displayid_timings(bs: Seq<(u8, u8, Seq<u8>)>, block: usize) -> Seq<Timing>
    decreases bs.len(),
{
    if bs.len() == 0 {
        Seq::empty()
    } else {
        let before = displayid_timings(bs.drop_last(), block);
        before + block_timings(bs.last(), block, before.len())
    }
}

/// Appends the timings of the data block `b`, whose first has the number
/// `out.len() - base`.
pub fn push_block_timings(b: &(u8, u8, Vec<u8>), block: usize, base: usize, out: &mut Vec<Timing>)
    requires
        base <= old(out).len(),
    ensures
        final(out)@ == old(out)@ + block_timings((b.0, b.1, b.2@), block, (old(out)@.len() - base) as nat),
{
    let (tag, rev, body) = b;
    let ghost content = (*tag, *rev, body@);
    let ghost all = block_timings(content, block, (old(out)@.len() - base) as nat);
    let ghost entries = block_entries(content);
    if *tag == 0x03 || *tag == 0x22 {
        let size = displayid_entry_size(*tag, *rev);
        let unit = displayid_clock_unit(*tag);
        let mut at: usize = 0;
        let ghost mut k: int = 0;
        assert(body@.skip(0) =~= body@);
        assert(entries.skip(0) =~= entries);
        while body.len() - at >= size
            invariant
                20 <= size <= 27,
                size == timing::entry_size(*tag, *rev),
                unit == timing::clock_unit(*tag),
                content == (*tag, *rev, body@),
                holds_timings(*tag),
                base <= old(out)@.len(),
                at <= body.len(),
                0 <= k <= entries.len(),
                entries == block_entries(content),
                entries.skip(k) == pieces(body@.skip(at as int), size as nat),
                all == block_timings(content, block, (old(out)@.len() - base) as nat),
                out@ == old(out)@ + all.take(k),
            decreases body.len() - at,
        {
            let ghost rest = body@.skip(at as int);
            proof {
                assert(entries.skip(k)[0] == rest.take(size as int));
                assert(entries.skip(k).len() > 0);
                assert(entries.skip(k)[0] == entries[k]);
                assert(entries[k] == rest.take(size as int));
                assert(rest.take(size as int) =~= body@.subrange(at as int, at + size));
                assert(rest.skip(size as int) =~= body@.skip(at + size));
                assert(entries.skip(k + 1) =~= entries.skip(k).drop_first());
                assert(pieces(rest, size as nat).drop_first() =~= pieces(
                    rest.skip(size as int),
                    size as nat,
                ));
            }
            let index: usize = out.len() - base;
            let t = parse_displayid_timing(
                &body[at..at + size],
                unit,
                TimingSource::DisplayId { block, index },
            );
            out.push(t);
            proof {
                assert(all[k] == t);
                assert(out@ =~= old(out)@ + all.take(k + 1));
                k = k + 1;
            }
            at += size;
        }
        proof {
            assert(entries.skip(k).len() == 0);
            assert(all.take(k) =~= all);
        }
    } else {
        assert(out@ =~= old(out)@ + all);
    }
}

/// Appends the timings of a DisplayID block, numbered through.
pub fn push_displayid_timings(d: &DisplayIdBlock, block: usize, out: &mut Vec<Timing>)
    ensures
        final(out)@ == old(out)@ + displayid_timings(d@.blocks, block),
{
    let base: usize = out.len();
    let ghost bs = d@.blocks;
    let mut i: usize = 0;
    assert(bs.take(0) =~= Seq::empty());
    assert(out@ + displayid_timings(bs.take(0), block) =~= out@);
    while i < d.blocks.len()
        invariant
            i <= d.blocks.len(),
            base == old(out)@.len(),
            bs == section_views(d.blocks@),
            out@ == old(out)@ + displayid_timings(bs.take(i as int), block),
        decreases d.blocks.len() - i,
    {
        proof {
            assert(bs.take(i + 1).drop_last() =~= bs.take(i as int));
        }
        push_block_timings(&d.blocks[i], block, base, out);
        proof {
            assert(bs.take(i + 1).last() == bs[i as int]);
            assert(out@ =~= old(out)@ + displayid_timings(bs.take(i + 1), block));
        }
        i += 1;
    }
    assert(bs.take(i as int) =~= bs);
}

// ---------------------------------------------------------------------------
// Reading back what was written.

/// Whether a data block has neither tag nor payload, and so looks like the end of the list.
pub open spec fn is_blank(b: (u8, u8, Seq<u8>)) -> bool {
    b.0 == 0 && b.2.len() == 0
}

/// What every parsed block satisfies: it fits, and only the last data block can look like
/// the end of the list.
pub open spec fn displayid_regular(c: DisplayIdContent) -> bool {
    &&& displayid_size(c) <= 126
    &&& forall|k: int| 0 <= k < c.blocks.len() - 1 ==> !is_blank(#[trigger] c.blocks[k])
}

/// The data blocks, without a last one that looks like the end of the list.
pub open spec fn without_blank_end(bs: Seq<(u8, u8, Seq<u8>)>) -> Seq<(u8, u8, Seq<u8>)> {
    if bs.len() > 0 && is_blank(bs.last()) {
        bs.drop_last()
    } else {
        bs
    }
}

proof fn lemma_parsed_sections(blk: Seq<u8>, i: int, end: int)
    requires
        blk.len() >= 128,
        0 <= i,
        end <= 127,
    ensures
        forall|k: int|
            0 <= k < sections_from(blk, i, end).len() - 1 ==> !is_blank(
                #[trigger] sections_from(blk, i, end)[k],
            ),
        i <= end ==> i + section_bytes(sections_from(blk, i, end)).len() <= end,
    decreases
            (if i < end {
                end - i
            } else {
                0
            }),
{
    let all = sections_from(blk, i, end);
    if i + 3 <= end && !(blk[i] == 0 && blk[i + 2] == 0) {
        let next = i + 3 + blk[i + 2];
        let rest = sections_from(blk, next, end);
        lemma_parsed_sections(blk, next, end);
        assert(all.drop_first() =~= rest);
        assert(section_bytes(all) == section_block_bytes(all[0]) + section_bytes(rest));
        if next > end {
            assert(section_bytes(rest) =~= Seq::empty());
        }
        assert forall|k: int| 0 <= k < all.len() - 1 implies !is_blank(#[trigger] all[k]) by {
            if k > 0 {
                assert(all[k] == rest[k - 1]);
            } else {
                assert(rest.len() > 0);
                assert(next + 3 <= end);
            }
        }
    } else {
        assert(section_bytes(all) =~= Seq::empty());
    }
}

/// What is read from a block can be written again.
pub proof fn lemma_parsed_displayid_regular(blk: Seq<u8>)
    requires
        blk.len() >= 128,
    ensures
        displayid_regular(displayid_content(blk)),
{
    lemma_parsed_sections(blk, 5, cta::least(5 + blk[2], 127));
}

proof fn lemma_read_sections(blk: Seq<u8>, i: int, bs: Seq<(u8, u8, Seq<u8>)>)
    requires
        blk.len() == 128,
        0 <= i,
        i + section_bytes(bs).len() <= 127,
        blk.subrange(i, i + section_bytes(bs).len()) == section_bytes(bs),
        forall|k: int| 0 <= k < bs.len() - 1 ==> !is_blank(#[trigger] bs[k]),
    ensures
        sections_from(blk, i, i + section_bytes(bs).len()) == without_blank_end(bs),
    decreases bs.len(),
{
    let all = section_bytes(bs);
    let end = i + all.len();
    if bs.len() > 0 {
        let b = bs[0];
        let first = section_block_bytes(b);
        let rest = section_bytes(bs.drop_first());
        let next = i + first.len();
        assert(all =~= first + rest);
        assert forall|k: int| 0 <= k < first.len() implies blk[i + k] == first[k] by {
            assert(blk.subrange(i, end)[k] == all[k]);
        }
        assert(first[0] == b.0 && first[1] == b.1 && first[2] == b.2.len());
        assert(blk[i] == first[0] && blk[i + 1] == first[1] && blk[i + 2] == first[2]);
        assert(blk.subrange(i + 3, next) =~= b.2) by {
            assert forall|k: int| 0 <= k < b.2.len() implies blk[i + 3 + k] == b.2[k] by {
                assert(first[3 + k] == b.2[k]);
                assert(blk[i + (3 + k)] == first[3 + k]);
            }
        }
        assert(blk.subrange(next, end) =~= rest) by {
            assert forall|k: int| 0 <= k < rest.len() implies blk[next + k] == rest[k] by {
                assert(blk.subrange(i, end)[first.len() + k] == all[first.len() + k]);
            }
        }
        assert forall|k: int| 0 <= k < bs.drop_first().len() - 1 implies !is_blank(
            #[trigger] bs.drop_first()[k],
        ) by {
            assert(bs.drop_first()[k] == bs[k + 1]);
        }
        lemma_read_sections(blk, next, bs.drop_first());
        if is_blank(b) {
            assert(bs.len() == 1);
            assert(without_blank_end(bs) =~= Seq::empty());
        } else {
            assert(seq![b] + without_blank_end(bs.drop_first()) =~= without_blank_end(bs));
        }
    } else {
        assert(bs =~= Seq::empty());
    }
}

/// A block that was written reads back as it was; only a last data block with neither tag
/// nor payload is lost. The section in it carries a correct checksum of its own, unless it
/// fills the block to the end.
pub proof fn law_displayid_round_trip(c: DisplayIdContent)
    requires
        displayid_regular(c),
    ensures
        displayid_bytes(c).len() == 128,
        crate::block::sum(displayid_bytes(c)) % 256 == 0,
        displayid_bytes(c)[0] == 0x70,
        displayid_bytes(c)[2] == section_bytes(c.blocks).len(),
        displayid_content(displayid_bytes(c)) == (DisplayIdContent {
            blocks: without_blank_end(c.blocks),
            ..c
        }),
        displayid_size(c) < 126 ==> crate::block::sum(
            displayid_bytes(c).subrange(1, displayid_size(c) as int + 2),
        ) % 256 == 0,
{
    let data = section_bytes(c.blocks);
    let sec = section(c);
    let check = crate::block::complement(sec);
    let raw = cta::padded(seq![0x70u8] + sec + seq![check]);
    let blk = displayid_bytes(c);
    crate::block::lemma_sealed(raw);
    assert forall|k: int| 0 <= k < 127 implies blk[k] == raw[k] by {
        assert(blk.take(127)[k] == raw.take(127)[k]);
    }
    assert(blk[1] == sec[0] && blk[2] == sec[1] && blk[3] == sec[2] && blk[4] == sec[3]);
    assert(blk.subrange(5, 5 + data.len() as int) =~= data) by {
        assert forall|k: int| 0 <= k < data.len() implies blk[5 + k] == data[k] by {
            assert(raw[5 + k] == sec[4 + k]);
        }
    }
    lemma_read_sections(blk, 5, c.blocks);
    assert(displayid_content(blk) =~= DisplayIdContent {
        blocks: without_blank_end(c.blocks),
        ..c
    });
    if displayid_size(c) < 126 {
        let whole = blk.subrange(1, displayid_size(c) as int + 2);
        assert(whole.drop_last() =~= sec);
        assert(whole.last() == check);
    }
}

} // verus!
