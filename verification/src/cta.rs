//! CTA-861 extension blocks: data blocks followed by detailed timings.

use vstd::prelude::*;

use crate::block::{fix_checksum, BLOCK};
use crate::timing;
use crate::timing::{parse_dtd, svd_vic, vic_as_timing, Timing, TimingSource};

verus! {

/// A parsed CTA-861 extension block.
pub struct CtaBlock {
    pub revision: u8,
    pub flags: u8,
    /// (tag, payload). For extended tags the first payload byte is the extended tag.
    pub data_blocks: Vec<(u8, Vec<u8>)>,
    pub dtds: Vec<[u8; 18]>,
}

/// What a CTA-861 extension block says.
#[verifier::ext_equal]
pub struct CtaContent {
    pub revision: u8,
    pub flags: u8,
    pub data_blocks: Seq<(u8, Seq<u8>)>,
    pub dtds: Seq<Seq<u8>>,
}

/// The contents of each data block.
pub open spec fn data_views(v: Seq<(u8, Vec<u8>)>) -> Seq<(u8, Seq<u8>)> {
    v.map_values(|b: (u8, Vec<u8>)| (b.0, b.1@))
}

/// The bytes of each descriptor.
pub open spec fn dtd_views(v: Seq<[u8; 18]>) -> Seq<Seq<u8>> {
    v.map_values(|d: [u8; 18]| d@)
}

impl View for CtaBlock {
    type V = CtaContent;

    open spec fn view(&self) -> CtaContent {
        CtaContent {
            revision: self.revision,
            flags: self.flags,
            data_blocks: data_views(self.data_blocks@),
            dtds: dtd_views(self.dtds@),
        }
    }
}

/// The lower of two numbers.
pub open spec fn least(a: int, b: int) -> int {
    if a <= b {
        a
    } else {
        b
    }
}

/// The data blocks that start at `i`, as long as one starts before `end`. A data block is a
/// byte with its tag (three bits) and the length of its payload (five bits), and the
/// payload, cut off before the checksum byte.
pub open spec fn data_blocks_from(blk: Seq<u8>, i: int, end: int) -> Seq<(u8, Seq<u8>)>
    decreases
            (if i < end {
                end - i
            } else {
                0
            }),
{
    if i < end {
        let stop = least(i + 1 + blk[i] % 32, 127);
        seq![((blk[i] / 32) as u8, blk.subrange(i + 1, stop))] + data_blocks_from(
            blk,
            i + 1 + blk[i] % 32,
            end,
        )
    } else {
        Seq::empty()
    }
}

/// The detailed timings from `j` on: up to the first whose pixel clock is zero, or the
/// checksum byte.
pub open spec fn dtds_from(blk: Seq<u8>, j: int) -> Seq<Seq<u8>>
    decreases 128 - j,
{
    if j + 18 < 128 && !(blk[j] == 0 && blk[j + 1] == 0) {
        seq![blk.subrange(j, j + 18)] + dtds_from(blk, j + 18)
    } else {
        Seq::empty()
    }
}

/// What the bytes of a CTA-861 block say. The third byte is where the detailed timings
/// start; below 4 there are neither data blocks nor detailed timings.
pub open spec fn cta_content(blk: Seq<u8>) -> CtaContent {
    let start = blk[2] as int;
    CtaContent {
        revision: blk[1],
        flags: blk[3],
        data_blocks: if start >= 4 {
            data_blocks_from(blk, 4, least(start, 127))
        } else {
            Seq::empty()
        },
        dtds: if start >= 4 {
            dtds_from(blk, start)
        } else {
            Seq::empty()
        },
    }
}

/// The eighteen bytes from `at` on.
pub fn descriptor_at(blk: &[u8], at: usize) -> (d: [u8; 18])
    requires
        at + 18 <= blk.len(),
    ensures
        d@ == blk@.subrange(at as int, at + 18),
{
    let d: [u8; 18] = [
        blk[at],
        blk[at + 1],
        blk[at + 2],
        blk[at + 3],
        blk[at + 4],
        blk[at + 5],
        blk[at + 6],
        blk[at + 7],
        blk[at + 8],
        blk[at + 9],
        blk[at + 10],
        blk[at + 11],
        blk[at + 12],
        blk[at + 13],
        blk[at + 14],
        blk[at + 15],
        blk[at + 16],
        blk[at + 17],
    ];
    assert(d@ =~= blk@.subrange(at as int, at + 18));
    d
}

/// The bytes `s[from..to]`.
pub fn bytes_between(s: &[u8], from: usize, to: usize) -> (out: Vec<u8>)
    requires
        from <= to <= s.len(),
    ensures
        out@ == s@.subrange(from as int, to as int),
{
    let mut out: Vec<u8> = Vec::new();
    let mut i: usize = from;
    while i < to
        invariant
            from <= i <= to <= s.len(),
            out@ == s@.subrange(from as int, i as int),
        decreases to - i,
    {
        out.push(s[i]);
        i += 1;
    }
    out
}

/// Appends `s`.
pub fn push_bytes(out: &mut Vec<u8>, s: &[u8])
    ensures
        final(out)@ == old(out)@ + s@,
{
    let mut i: usize = 0;
    while i < s.len()
        invariant
            i <= s.len(),
            out@ == old(out)@ + s@.take(i as int),
        decreases s.len() - i,
    {
        out.push(s[i]);
        i += 1;
        assert(out@ =~= old(out)@ + s@.take(i as int));
    }
    assert(s@.take(i as int) =~= s@);
}

/// Reads a CTA-861 extension block.
pub fn parse_cta(blk: &[u8]) -> (c: CtaBlock)
    requires
        blk.len() >= BLOCK,
    ensures
        c@ == cta_content(blk@),
{
    let start: usize = blk[2] as usize;
    let mut data_blocks: Vec<(u8, Vec<u8>)> = Vec::new();
    let mut dtds: Vec<[u8; 18]> = Vec::new();
    if start >= 4 {
        let end: usize = if start < BLOCK - 1 {
            start
        } else {
            BLOCK - 1
        };
        let mut i: usize = 4;
        while i < end
            invariant
                4 <= i,
                i < 255,
                end <= 127,
                blk.len() >= 128,
                data_views(data_blocks@) + data_blocks_from(blk@, i as int, end as int)
                    == data_blocks_from(blk@, 4, end as int),
            decreases 255 - i,
        {
            let tag: u8 = blk[i] / 32;
            let len: usize = (blk[i] % 32) as usize;
            let stop: usize = if i + 1 + len < BLOCK - 1 {
                i + 1 + len
            } else {
                BLOCK - 1
            };
            let body = bytes_between(blk, i + 1, stop);
            let ghost before = data_views(data_blocks@);
            let ghost rest = data_blocks_from(blk@, i + 1 + len, end as int);
            data_blocks.push((tag, body));
            proof {
                assert(data_views(data_blocks@) =~= before.push((tag, body@)));
                assert(before + (seq![(tag, body@)] + rest) =~= before.push((tag, body@)) + rest);
            }
            i += 1 + len;
        }
        assert(data_views(data_blocks@) + Seq::<(u8, Seq<u8>)>::empty() =~= data_views(
            data_blocks@,
        ));
        let mut j: usize = start;
        while j + 18 < BLOCK && !(blk[j] == 0 && blk[j + 1] == 0)
            invariant
                4 <= j <= 255,
                blk.len() >= 128,
                dtd_views(dtds@) + dtds_from(blk@, j as int) == dtds_from(blk@, start as int),
            decreases 255 - j,
        {
            let d = descriptor_at(blk, j);
            let ghost before = dtd_views(dtds@);
            let ghost rest = dtds_from(blk@, j + 18);
            dtds.push(d);
            proof {
                assert(dtd_views(dtds@) =~= before.push(d@));
                assert(before + (seq![d@] + rest) =~= before.push(d@) + rest);
            }
            j += 18;
        }
        assert(dtd_views(dtds@) + Seq::<Seq<u8>>::empty() =~= dtd_views(dtds@));
    }
    let c = CtaBlock { revision: blk[1], flags: blk[3], data_blocks, dtds };
    assert(c@ =~= cta_content(blk@));
    c
}

// ---------------------------------------------------------------------------
// Timings.

/// The tag of a video data block.
pub const VIDEO: u8 = 2;

/// The short video descriptors of all video data blocks, in order.
pub open spec fn svd_bytes(bs: Seq<(u8, Seq<u8>)>) -> Seq<u8>
    decreases bs.len(),
{
    if bs.len() == 0 {
        Seq::empty()
    } else if bs.last().0 == VIDEO {
        svd_bytes(bs.drop_last()) + bs.last().1
    } else {
        svd_bytes(bs.drop_last())
    }
}

/// The timings of the short video descriptors whose code is known, in order.
pub open spec fn vic_timings(svds: Seq<u8>, block: usize) -> Seq<Timing>
    decreases svds.len(),
{
    if svds.len() == 0 {
        Seq::empty()
    } else {
        let before = vic_timings(svds.drop_last(), block);
        match timing::vic_mode(timing::svd_code(svds.last()), block) {
            Some(t) => before.push(t),
            None => before,
        }
    }
}

/// The timings of the detailed timing descriptors, in order.
pub open spec fn dtd_timings(ds: Seq<Seq<u8>>, block: usize) -> Seq<Timing>
    decreases ds.len(),
{
    if ds.len() == 0 {
        Seq::empty()
    } else {
        let before = dtd_timings(ds.drop_last(), block);
        match timing::dtd_timing(
            ds.last(),
            TimingSource::CtaDtd { block, index: (ds.len() - 1) as usize },
        ) {
            Some(t) => before.push(t),
            None => before,
        }
    }
}

/// The timings that a CTA-861 block advertises.
pub open spec fn cta_timings(c: CtaContent, block: usize) -> Seq<Timing> {
    vic_timings(svd_bytes(c.data_blocks), block) + dtd_timings(c.dtds, block)
}

pub proof fn lemma_vic_timings_split(a: Seq<u8>, b: Seq<u8>, block: usize)
    ensures
        vic_timings(a + b, block) == vic_timings(a, block) + vic_timings(b, block),
    decreases b.len(),
{
    if b.len() == 0 {
        assert(a + b =~= a);
        assert(vic_timings(a, block) + vic_timings(b, block) =~= vic_timings(a, block));
    } else {
        lemma_vic_timings_split(a, b.drop_last(), block);
        assert((a + b).drop_last() =~= a + b.drop_last());
        assert(vic_timings(a + b, block) =~= vic_timings(a, block) + vic_timings(b, block));
    }
}

/// Appends the timings of the short video descriptors in `svds`.
fn push_vic_timings(svds: &Vec<u8>, block: usize, out: &mut Vec<Timing>)
    ensures
        final(out)@ == old(out)@ + vic_timings(svds@, block),
{
    let mut i: usize = 0;
    assert(out@ + vic_timings(svds@.take(0), block) =~= out@);
    while i < svds.len()
        invariant
            i <= svds.len(),
            out@ == old(out)@ + vic_timings(svds@.take(i as int), block),
        decreases svds.len() - i,
    {
        proof {
            assert(svds@.take(i + 1).drop_last() =~= svds@.take(i as int));
        }
        if let Some(t) = vic_as_timing(svd_vic(svds[i]), block) {
            out.push(t);
        }
        assert(out@ =~= old(out)@ + vic_timings(svds@.take(i + 1), block));
        i += 1;
    }
    assert(svds@.take(i as int) =~= svds@);
}

/// Appends the timings that a CTA-861 block advertises.
pub fn push_cta_timings(c: &CtaBlock, block: usize, out: &mut Vec<Timing>)
    ensures
        final(out)@ == old(out)@ + cta_timings(c@, block),
{
    let ghost bs = c@.data_blocks;
    let ghost ds = c@.dtds;
    let mut i: usize = 0;
    assert(svd_bytes(bs.take(0)) =~= Seq::empty());
    assert(out@ + vic_timings(svd_bytes(bs.take(0)), block) =~= out@);
    while i < c.data_blocks.len()
        invariant
            i <= c.data_blocks.len(),
            bs == data_views(c.data_blocks@),
            out@ == old(out)@ + vic_timings(svd_bytes(bs.take(i as int)), block),
        decreases c.data_blocks.len() - i,
    {
        let (tag, body) = &c.data_blocks[i];
        proof {
            assert(bs[i as int] == (*tag, body@));
            assert(bs.take(i + 1).drop_last() =~= bs.take(i as int));
            lemma_vic_timings_split(svd_bytes(bs.take(i as int)), body@, block);
        }
        if *tag == VIDEO {
            push_vic_timings(body, block, out);
        }
        assert(out@ =~= old(out)@ + vic_timings(svd_bytes(bs.take(i + 1)), block));
        i += 1;
    }
    assert(bs.take(i as int) =~= bs);
    let ghost vics = vic_timings(svd_bytes(bs), block);
    let mut j: usize = 0;
    assert(out@ + dtd_timings(ds.take(0), block) =~= out@);
    while j < c.dtds.len()
        invariant
            j <= c.dtds.len(),
            ds == dtd_views(c.dtds@),
            out@ == old(out)@ + vics + dtd_timings(ds.take(j as int), block),
        decreases c.dtds.len() - j,
    {
        let d: &[u8; 18] = &c.dtds[j];
        proof {
            assert(ds[j as int] == d@);
            assert(ds.take(j + 1).drop_last() =~= ds.take(j as int));
        }
        if let Some(t) = parse_dtd(d.as_slice(), TimingSource::CtaDtd { block, index: j }) {
            out.push(t);
        }
        assert(out@ =~= old(out)@ + vics + dtd_timings(ds.take(j + 1), block));
        j += 1;
    }
    assert(ds.take(j as int) =~= ds);
    assert(out@ =~= old(out)@ + cta_timings(c@, block));
}

// ---------------------------------------------------------------------------
// Writing a block.

/// The bytes of one data block. Three bits hold the tag and five the length.
pub open spec fn data_block_bytes(b: (u8, Seq<u8>)) -> Seq<u8> {
    seq![((b.0 % 8) * 32 + b.1.len() % 32) as u8] + b.1
}

/// The bytes of the data blocks, one after the other.
pub open spec fn data_bytes(bs: Seq<(u8, Seq<u8>)>) -> Seq<u8>
    decreases bs.len(),
{
    if bs.len() == 0 {
        Seq::empty()
    } else {
        data_block_bytes(bs[0]) + data_bytes(bs.drop_first())
    }
}

/// The bytes of the descriptors, one after the other.
pub open spec fn dtd_bytes(ds: Seq<Seq<u8>>) -> Seq<u8> {
    Seq::new(18 * ds.len(), |p: int| ds[p / 18][p % 18])
}

/// The bytes that the block needs, its checksum not counted.
pub open spec fn cta_size(c: CtaContent) -> nat {
    4 + data_bytes(c.data_blocks).len() + 18 * c.dtds.len()
}

/// `s`, filled up with zeros to a whole block.
pub open spec fn padded(s: Seq<u8>) -> Seq<u8> {
    s + Seq::new((128 - s.len()) as nat, |i: int| 0u8)
}

/// The bytes that say `c`: the detailed timings follow the data blocks at once, and zeros
/// follow them.
pub open spec fn cta_bytes(c: CtaContent) -> Seq<u8> {
    let data = data_bytes(c.data_blocks);
    let head = seq![0x02u8, c.revision, (4 + data.len()) as u8, c.flags];
    crate::block::sealed(padded(head + data + dtd_bytes(c.dtds)))
}

pub proof fn lemma_data_bytes_push(bs: Seq<(u8, Seq<u8>)>, b: (u8, Seq<u8>))
    ensures
        data_bytes(bs.push(b)) == data_bytes(bs) + data_block_bytes(b),
    decreases bs.len(),
{
    if bs.len() == 0 {
        assert(bs =~= Seq::empty());
        assert(bs.push(b).drop_first() =~= bs);
        assert(data_bytes(bs.push(b)) =~= data_bytes(bs) + data_block_bytes(b));
    } else {
        assert(bs.push(b).drop_first() =~= bs.drop_first().push(b));
        lemma_data_bytes_push(bs.drop_first(), b);
        assert(data_bytes(bs.push(b)) =~= data_bytes(bs) + data_block_bytes(b));
    }
}

/// Fewer data blocks need fewer bytes.
pub proof fn lemma_data_bytes_prefix(bs: Seq<(u8, Seq<u8>)>, i: int)
    requires
        0 <= i <= bs.len(),
    ensures
        data_bytes(bs.take(i)).len() <= data_bytes(bs).len(),
    decreases bs.len() - i,
{
    if i == bs.len() {
        assert(bs.take(i) =~= bs);
    } else {
        assert(bs.take(i + 1) =~= bs.take(i).push(bs[i]));
        lemma_data_bytes_push(bs.take(i), bs[i]);
        lemma_data_bytes_prefix(bs, i + 1);
    }
}

proof fn lemma_dtd_bytes_push(ds: Seq<Seq<u8>>, d: Seq<u8>)
    requires
        d.len() == 18,
    ensures
        dtd_bytes(ds.push(d)) == dtd_bytes(ds) + d,
{
    let n = ds.len();
    assert forall|p: int| 0 <= p < 18 * (n + 1) implies #[trigger] dtd_bytes(ds.push(d))[p] == (
    dtd_bytes(ds) + d)[p] by {
        if p < 18 * n {
            assert(p / 18 < n);
        } else {
            assert(p / 18 == n && p % 18 == p - 18 * n);
        }
    }
    assert(dtd_bytes(ds.push(d)) =~= dtd_bytes(ds) + d);
}

/// Appends zeros up to a whole block.
pub fn pad_block(out: &mut Vec<u8>)
    requires
        old(out).len() <= BLOCK,
    ensures
        final(out)@ == padded(old(out)@),
{
    let n = out.len();
    while out.len() < BLOCK
        invariant
            n <= out.len() <= BLOCK,
            n == old(out)@.len(),
            out@ == old(out)@ + Seq::new((out@.len() - n) as nat, |i: int| 0u8),
        decreases BLOCK - out.len(),
    {
        out.push(0);
        assert(out@ =~= old(out)@ + Seq::new((out@.len() - n) as nat, |i: int| 0u8));
    }
    assert(out@ =~= padded(old(out)@));
}

/// Writes a CTA-861 extension block.
pub fn build_cta(c: &CtaBlock) -> (out: Vec<u8>)
    requires
        cta_size(c@) <= 128,
    ensures
        out@ == cta_bytes(c@),
{
    let ghost bs = c@.data_blocks;
    let ghost ds = c@.dtds;
    let ghost data = data_bytes(bs);
    let mut body: Vec<u8> = Vec::new();
    let mut i: usize = 0;
    assert(bs.take(0) =~= Seq::empty());
    while i < c.data_blocks.len()
        invariant
            i <= c.data_blocks.len(),
            bs == data_views(c.data_blocks@),
            body@ == data_bytes(bs.take(i as int)),
        decreases c.data_blocks.len() - i,
    {
        let (tag, payload) = &c.data_blocks[i];
        proof {
            assert(bs[i as int] == (*tag, payload@));
            assert(bs.take(i + 1) =~= bs.take(i as int).push(bs[i as int]));
            lemma_data_bytes_push(bs.take(i as int), bs[i as int]);
        }
        body.push((*tag % 8) * 32 + (payload.len() % 32) as u8);
        push_bytes(&mut body, payload);
        assert(body@ =~= data_bytes(bs.take(i + 1)));
        i += 1;
    }
    assert(bs.take(i as int) =~= bs);
    let mut out: Vec<u8> = Vec::new();
    out.push(0x02);
    out.push(c.revision);
    out.push((4 + body.len()) as u8);
    out.push(c.flags);
    push_bytes(&mut out, &body);
    let ghost head = seq![0x02u8, c.revision, (4 + data.len()) as u8, c.flags];
    assert(out@ =~= head + data);
    let mut j: usize = 0;
    assert(dtd_bytes(ds.take(0)) =~= Seq::empty());
    assert(out@ + dtd_bytes(ds.take(0)) =~= out@);
    while j < c.dtds.len()
        invariant
            j <= c.dtds.len(),
            ds == dtd_views(c.dtds@),
            out@ == head + data + dtd_bytes(ds.take(j as int)),
        decreases c.dtds.len() - j,
    {
        let d: &[u8; 18] = &c.dtds[j];
        proof {
            assert(ds[j as int] == d@);
            assert(ds.take(j + 1) =~= ds.take(j as int).push(d@));
            lemma_dtd_bytes_push(ds.take(j as int), d@);
        }
        push_bytes(&mut out, d.as_slice());
        assert(out@ =~= head + data + dtd_bytes(ds.take(j + 1)));
        j += 1;
    }
    assert(ds.take(j as int) =~= ds);
    pad_block(&mut out);
    fix_checksum(out.as_mut_slice());
    out
}

// ---------------------------------------------------------------------------
// Reading back what was written.

/// What every parsed block satisfies: tags of three bits, payloads of at most 31 bytes, data
/// blocks that end before the checksum, and descriptors whose pixel clock is not zero.
pub open spec fn cta_regular(c: CtaContent) -> bool {
    &&& forall|k: int|
        0 <= k < c.data_blocks.len() ==> (#[trigger] c.data_blocks[k]).0 < 8
            && c.data_blocks[k].1.len() < 32
    &&& forall|k: int|
        0 <= k < c.dtds.len() ==> (#[trigger] c.dtds[k]).len() == 18 && !(c.dtds[k][0] == 0
            && c.dtds[k][1] == 0)
    &&& 4 + data_bytes(c.data_blocks).len() <= 127
}

proof fn lemma_parsed_data(blk: Seq<u8>, i: int, end: int)
    requires
        blk.len() >= 128,
        0 <= i,
        end <= 127,
    ensures
        forall|k: int|
            0 <= k < data_blocks_from(blk, i, end).len() ==> (#[trigger] data_blocks_from(
                blk,
                i,
                end,
            )[k]).0 < 8 && data_blocks_from(blk, i, end)[k].1.len() < 32,
        i <= 127 ==> i + data_bytes(data_blocks_from(blk, i, end)).len() <= 127,
    decreases
            (if i < end {
                end - i
            } else {
                0
            }),
{
    let all = data_blocks_from(blk, i, end);
    if i < end {
        let next = i + 1 + blk[i] % 32;
        let rest = data_blocks_from(blk, next, end);
        lemma_parsed_data(blk, next, end);
        assert(all.drop_first() =~= rest);
        assert(data_bytes(all) == data_block_bytes(all[0]) + data_bytes(rest));
        if next > 127 {
            assert(data_bytes(rest) =~= Seq::empty());
        }
        assert forall|k: int| 0 <= k < all.len() implies (#[trigger] all[k]).0 < 8
            && all[k].1.len() < 32 by {
            if k > 0 {
                assert(all[k] == rest[k - 1]);
            }
        }
    }
}

proof fn lemma_parsed_dtds(blk: Seq<u8>, j: int)
    requires
        blk.len() >= 128,
        0 <= j,
    ensures
        forall|k: int|
            0 <= k < dtds_from(blk, j).len() ==> (#[trigger] dtds_from(blk, j)[k]).len() == 18 && !(
            dtds_from(blk, j)[k][0] == 0 && dtds_from(blk, j)[k][1] == 0),
    decreases 128 - j,
{
    if j + 18 < 128 && !(blk[j] == 0 && blk[j + 1] == 0) {
        let all = dtds_from(blk, j);
        let rest = dtds_from(blk, j + 18);
        lemma_parsed_dtds(blk, j + 18);
        assert forall|k: int| 0 <= k < all.len() implies (#[trigger] all[k]).len() == 18 && !(
        all[k][0] == 0 && all[k][1] == 0) by {
            if k > 0 {
                assert(all[k] == rest[k - 1]);
            }
        }
    }
}

/// What is read from a block can be written again, as far as it fits.
pub proof fn lemma_parsed_regular(blk: Seq<u8>)
    requires
        blk.len() >= 128,
    ensures
        cta_regular(cta_content(blk)),
{
    let start = blk[2] as int;
    if start >= 4 {
        lemma_parsed_data(blk, 4, least(start, 127));
        lemma_parsed_dtds(blk, start);
    }
}

proof fn lemma_read_data(blk: Seq<u8>, i: int, bs: Seq<(u8, Seq<u8>)>)
    requires
        blk.len() == 128,
        0 <= i,
        i + data_bytes(bs).len() <= 127,
        blk.subrange(i, i + data_bytes(bs).len()) == data_bytes(bs),
        forall|k: int| 0 <= k < bs.len() ==> (#[trigger] bs[k]).0 < 8 && bs[k].1.len() < 32,
    ensures
        data_blocks_from(blk, i, i + data_bytes(bs).len()) == bs,
    decreases bs.len(),
{
    let all = data_bytes(bs);
    let end = i + all.len();
    if bs.len() > 0 {
        let b = bs[0];
        let first = data_block_bytes(b);
        let rest = data_bytes(bs.drop_first());
        let next = i + first.len();
        assert(all =~= first + rest);
        assert(blk[i] == all[0]);
        assert(all[0] == first[0]);
        assert(first[0] == (b.0 * 32 + b.1.len()) as u8);
        assert(blk[i] / 32 == b.0 && blk[i] % 32 == b.1.len());
        assert(blk.subrange(i + 1, next) =~= b.1) by {
            assert forall|k: int| 0 <= k < b.1.len() implies blk[i + 1 + k] == b.1[k] by {
                assert(blk.subrange(i, end)[1 + k] == all[1 + k]);
            }
        }
        assert(blk.subrange(next, end) =~= rest) by {
            assert forall|k: int| 0 <= k < rest.len() implies blk[next + k] == rest[k] by {
                assert(blk.subrange(i, end)[first.len() + k] == all[first.len() + k]);
            }
        }
        assert forall|k: int| 0 <= k < bs.drop_first().len() implies (
        #[trigger] bs.drop_first()[k]).0 < 8 && bs.drop_first()[k].1.len() < 32 by {
            assert(bs.drop_first()[k] == bs[k + 1]);
        }
        lemma_read_data(blk, next, bs.drop_first());
        assert(seq![b] + bs.drop_first() =~= bs);
    } else {
        assert(bs =~= Seq::empty());
    }
}

proof fn lemma_read_dtds(blk: Seq<u8>, j: int, ds: Seq<Seq<u8>>)
    requires
        blk.len() == 128,
        0 <= j,
        j + 18 * ds.len() <= 127,
        forall|k: int|
            0 <= k < ds.len() ==> blk.subrange(j + 18 * k, j + 18 * k + 18) == #[trigger] ds[k],
        forall|k: int| 0 <= k < ds.len() ==> !((#[trigger] ds[k])[0] == 0 && ds[k][1] == 0),
        j + 18 * ds.len() + 18 < 128 ==> blk[(j + 18 * ds.len()) as int] == 0 && blk[(j + 18
            * ds.len() + 1) as int] == 0,
    ensures
        dtds_from(blk, j) == ds,
    decreases ds.len(),
{
    if ds.len() > 0 {
        let d = ds[0];
        assert(blk.subrange(j, j + 18) == d);
        assert(blk[j] == d[0] && blk[j + 1] == d[1]);
        assert forall|k: int| 0 <= k < ds.drop_first().len() implies blk.subrange(
            j + 18 + 18 * k,
            j + 18 + 18 * k + 18,
        ) == #[trigger] ds.drop_first()[k] && !(ds.drop_first()[k][0] == 0
            && ds.drop_first()[k][1] == 0) by {
            assert(ds.drop_first()[k] == ds[k + 1]);
        }
        lemma_read_dtds(blk, j + 18, ds.drop_first());
        assert(seq![d] + ds.drop_first() =~= ds);
    } else {
        assert(ds =~= Seq::empty());
    }
}

/// A block that was written reads back as it was; only a detailed timing that reaches into
/// the checksum byte is lost.
pub proof fn law_cta_round_trip(c: CtaContent)
    requires
        cta_regular(c),
        cta_size(c) <= 128,
    ensures
        cta_bytes(c).len() == 128,
        crate::block::sum(cta_bytes(c)) % 256 == 0,
        cta_bytes(c)[0] == 0x02,
        cta_content(cta_bytes(c)) == (CtaContent {
            dtds: if cta_size(c) <= 127 {
                c.dtds
            } else {
                c.dtds.drop_last()
            },
            ..c
        }),
{
    let data = data_bytes(c.data_blocks);
    let tail = dtd_bytes(c.dtds);
    let head = seq![0x02u8, c.revision, (4 + data.len()) as u8, c.flags];
    let raw = padded(head + data + tail);
    let blk = cta_bytes(c);
    crate::block::lemma_sealed(raw);
    assert forall|k: int| 0 <= k < 127 implies blk[k] == raw[k] by {
        assert(blk.take(127)[k] == raw.take(127)[k]);
    }
    let start = 4 + data.len();
    assert(blk[2] == start);
    assert(blk.subrange(4, start as int) =~= data);
    lemma_read_data(blk, 4, c.data_blocks);
    let ds = if cta_size(c) <= 127 {
        c.dtds
    } else {
        c.dtds.drop_last()
    };
    assert forall|k: int| 0 <= k < ds.len() implies blk.subrange(
        start + 18 * k,
        start + 18 * k + 18,
    ) == #[trigger] ds[k] by {
        assert(ds[k] == c.dtds[k]);
        assert forall|m: int| 0 <= m < 18 implies blk[start + 18 * k + m] == ds[k][m] by {
            assert(tail[18 * k + m] == c.dtds[(18 * k + m) / 18][(18 * k + m) % 18]);
            assert(raw[start + 18 * k + m] == tail[18 * k + m]);
        }
        assert(blk.subrange(start + 18 * k, start + 18 * k + 18) =~= ds[k]);
    }
    assert forall|k: int| 0 <= k < ds.len() implies !((#[trigger] ds[k])[0] == 0 && ds[k][1]
        == 0) by {
        assert(ds[k] == c.dtds[k]);
    }
    lemma_read_dtds(blk, start as int, ds);
    assert(cta_content(blk) =~= CtaContent { dtds: ds, ..c });
}

} // verus!
