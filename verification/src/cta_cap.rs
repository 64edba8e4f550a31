//! Removing the timings above a cap from a CTA-861 block.

use vstd::prelude::*;

use crate::bitmap::remap;
use crate::block::BLOCK;
use crate::cta::{bytes_between, parse_cta, CtaBlock, CtaContent, VIDEO};
use crate::rate::Hz;
use crate::text::push_dec;
use crate::timing::{parse_dtd, svd_vic, vic_as_timing, Timing, TimingSource};
use crate::{bitmap, cta, seqs, text, timing};

verus! {

/// The tag of a data block whose first payload byte is an extended tag.
pub const EXTENDED: u8 = 7;

/// The extended tag of the YCbCr 4:2:0 video data block: a list of codes.
pub const Y420_VIDEO: u8 = 14;

/// The extended tag of the YCbCr 4:2:0 capability map: bit `i` is for short video
/// descriptor `i`.
pub const Y420_MAP: u8 = 15;

// ---------------------------------------------------------------------------
// What is above the cap.

/// Whether a timing is above the cap.
pub open spec fn is_above(cap: Hz) -> spec_fn(Timing) -> bool {
    |t: Timing| t.refresh_hz.above(cap)
}

/// Whether a timing is not above the cap.
pub open spec fn is_within(cap: Hz) -> spec_fn(Timing) -> bool {
    |t: Timing| !t.refresh_hz.above(cap)
}

/// Whether the format of a code is known and above the cap.
pub open spec fn code_above(vic: u8, cap: Hz) -> bool {
    timing::vic_mode(vic, 0) matches Some(t) && t.refresh_hz.above(cap)
}

/// Whether a short video descriptor stays.
pub open spec fn svd_stays(cap: Hz) -> spec_fn(u8) -> bool {
    |b: u8| !code_above(timing::svd_code(b), cap)
}

/// Whether a code of a YCbCr 4:2:0 video data block stays.
pub open spec fn code_stays(cap: Hz) -> spec_fn(u8) -> bool {
    |b: u8| !code_above(b, cap)
}

/// Whether a detailed timing stays.
pub open spec fn dtd_stays(cap: Hz) -> spec_fn(Seq<u8>) -> bool {
    |d: Seq<u8>|
        !(timing::dtd_timing(d, TimingSource::BaseDtd { index: 0 }) matches Some(t)
            && t.refresh_hz.above(cap))
}

// ---------------------------------------------------------------------------
// The data blocks.

/// Whether the payload of `b` begins with the extended tag `tag`.
pub open spec fn has_extended_tag(b: (u8, Seq<u8>), tag: u8) -> bool {
    b.0 == EXTENDED && b.1.len() > 0 && b.1[0] == tag
}

/// A data block without the codes above the cap.
pub open spec fn trimmed_block(cap: Hz) -> spec_fn((u8, Seq<u8>)) -> (u8, Seq<u8>) {
    |b: (u8, Seq<u8>)|
        if b.0 == VIDEO {
            (b.0, b.1.filter(svd_stays(cap)))
        } else if has_extended_tag(b, Y420_VIDEO) {
            (b.0, seq![Y420_VIDEO] + b.1.drop_first().filter(code_stays(cap)))
        } else {
            b
        }
}

/// For each short video descriptor, whether it stays.
pub open spec fn svds_kept(bs: Seq<(u8, Seq<u8>)>, cap: Hz) -> Seq<bool> {
    cta::svd_bytes(bs).map_values(svd_stays(cap))
}

/// Whether the block is a capability map that has bits.
pub open spec fn is_map(b: (u8, Seq<u8>)) -> bool {
    has_extended_tag(b, Y420_MAP) && b.1.len() > 1
}

/// A capability map re-indexed; other blocks as they are.
pub open spec fn remapped_block(kept: Seq<bool>) -> spec_fn((u8, Seq<u8>)) -> (u8, Seq<u8>) {
    |b: (u8, Seq<u8>)|
        if is_map(b) {
            (b.0, seq![Y420_MAP] + bitmap::remapped(b.1.drop_first(), kept))
        } else {
            b
        }
}

/// The data blocks once the codes above the cap are gone and, if a short video descriptor
/// went, the capability maps follow.
pub open spec fn trimmed_blocks(bs: Seq<(u8, Seq<u8>)>, cap: Hz) -> Seq<(u8, Seq<u8>)> {
    let kept = svds_kept(bs, cap);
    let trimmed = bs.map_values(trimmed_block(cap));
    if kept.contains(false) {
        trimmed.map_values(remapped_block(kept))
    } else {
        trimmed
    }
}

/// Whether the block is a video data block without descriptors.
pub open spec fn is_empty_video(b: (u8, Seq<u8>)) -> bool {
    b.0 == VIDEO && b.1.len() == 0
}

/// Whether the block is a YCbCr 4:2:0 video data block without codes.
pub open spec fn is_empty_y420(b: (u8, Seq<u8>)) -> bool {
    has_extended_tag(b, Y420_VIDEO) && b.1.len() == 1
}

/// Whether one of the blocks is a video data block without descriptors.
pub open spec fn some_empty_video(bs: Seq<(u8, Seq<u8>)>) -> bool {
    exists|k: int| 0 <= k < bs.len() && is_empty_video(#[trigger] bs[k])
}

/// Whether one of the blocks is a video data block with descriptors.
pub open spec fn some_video(bs: Seq<(u8, Seq<u8>)>) -> bool {
    exists|k: int| 0 <= k < bs.len() && (#[trigger] bs[k]).0 == VIDEO && bs[k].1.len() > 0
}

/// Whether the video data blocks have no descriptor left that a capability map could be for.
pub open spec fn lost_video(bs: Seq<(u8, Seq<u8>)>) -> bool {
    some_empty_video(bs) && !some_video(bs)
}

/// Whether a data block still says something: a video data block that has descriptors, a
/// YCbCr 4:2:0 video data block that has codes, a capability map unless there is no
/// descriptor left for it, and every other block.
pub open spec fn says_something(no_video: bool) -> spec_fn((u8, Seq<u8>)) -> bool {
    |b: (u8, Seq<u8>)|
        !is_empty_video(b) && !is_empty_y420(b) && !(no_video && has_extended_tag(b, Y420_MAP))
}

/// The data blocks without those that say nothing any more.
pub open spec fn pruned_blocks(bs: Seq<(u8, Seq<u8>)>) -> Seq<(u8, Seq<u8>)> {
    bs.filter(says_something(lost_video(bs)))
}

/// Whether the block has to be written anew: a code or a detailed timing goes.
pub open spec fn cta_changed(c: CtaContent, cap: Hz) -> bool {
    ||| c.data_blocks.map_values(trimmed_block(cap)) != c.data_blocks
    ||| c.dtds.filter(dtd_stays(cap)).len() != c.dtds.len()
}

/// What the block says once the timings above the cap are gone. A block from which nothing
/// goes says what it did.
pub open spec fn capped_cta(c: CtaContent, cap: Hz) -> CtaContent {
    if cta_changed(c, cap) {
        CtaContent {
            data_blocks: pruned_blocks(trimmed_blocks(c.data_blocks, cap)),
            dtds: c.dtds.filter(dtd_stays(cap)),
            ..c
        }
    } else {
        c
    }
}

/// The codes of all YCbCr 4:2:0 video data blocks, in order.
pub open spec fn y420_codes_in(bs: Seq<(u8, Seq<u8>)>) -> Seq<u8>
    decreases bs.len(),
{
    if bs.len() == 0 {
        Seq::empty()
    } else if has_extended_tag(bs.last(), Y420_VIDEO) {
        y420_codes_in(bs.drop_last()) + bs.last().1.drop_first()
    } else {
        y420_codes_in(bs.drop_last())
    }
}

/// The codes of all YCbCr 4:2:0 video data blocks of a CTA-861 block, in order.
pub open spec fn y420_codes(c: CtaContent) -> Seq<u8> {
    y420_codes_in(c.data_blocks)
}

// ---------------------------------------------------------------------------
// What is reported.

/// `seen`, and behind it the timings of the codes above the cap whose source is not listed
/// yet.
pub open spec fn with_new_codes(seen: Seq<Timing>, codes: Seq<u8>, block: usize, cap: Hz) -> Seq<
    Timing,
>
    decreases codes.len(),
{
    if codes.len() == 0 {
        seen
    } else {
        let before = with_new_codes(seen, codes.drop_last(), block, cap);
        match timing::vic_mode(codes.last(), block) {
            Some(t) if t.refresh_hz.above(cap) && !has_source(before, t.source) => before.push(t),
            _ => before,
        }
    }
}

/// Whether one of the timings has the given source.
pub open spec fn has_source(ts: Seq<Timing>, source: TimingSource) -> bool {
    exists|k: int| 0 <= k < ts.len() && (#[trigger] ts[k]).source == source
}

/// The timings that go from the data blocks, in order; a code of a YCbCr 4:2:0 block is not
/// listed again.
pub open spec fn data_dropped(bs: Seq<(u8, Seq<u8>)>, block: usize, cap: Hz) -> Seq<Timing>
    decreases bs.len(),
{
    if bs.len() == 0 {
        Seq::empty()
    } else {
        let before = data_dropped(bs.drop_last(), block, cap);
        let b = bs.last();
        if b.0 == VIDEO {
            before + cta::vic_timings(b.1, block).filter(is_above(cap))
        } else if has_extended_tag(b, Y420_VIDEO) {
            with_new_codes(before, b.1.drop_first(), block, cap)
        } else {
            before
        }
    }
}

/// The timings that go from the block.
pub open spec fn cta_dropped(c: CtaContent, block: usize, cap: Hz) -> Seq<Timing> {
    data_dropped(c.data_blocks, block, cap) + cta::dtd_timings(c.dtds, block).filter(is_above(cap))
}

/// A note in which a block is named.
pub open spec fn block_note(what: Seq<char>, block: usize) -> Seq<char> {
    what + " (block "@ + text::dec(block as nat) + ")"@
}

/// One note for each short video descriptor whose code is not known.
pub open spec fn unknown_notes(svds: Seq<u8>, block: usize) -> Seq<Seq<char>>
    decreases svds.len(),
{
    if svds.len() == 0 {
        Seq::empty()
    } else {
        let before = unknown_notes(svds.drop_last(), block);
        let vic = timing::svd_code(svds.last());
        if timing::vic_format(vic) is None {
            before.push(block_note("kept unknown VIC "@ + text::dec(vic as nat), block))
        } else {
            before
        }
    }
}

/// One note for each capability map.
pub open spec fn map_notes(bs: Seq<(u8, Seq<u8>)>, block: usize) -> Seq<Seq<char>>
    decreases bs.len(),
{
    if bs.len() == 0 {
        Seq::empty()
    } else {
        let before = map_notes(bs.drop_last(), block);
        if is_map(bs.last()) {
            before.push(block_note("remapped YCbCr 4:2:0 capability map"@, block))
        } else {
            before
        }
    }
}

/// The notes on what was done to the block.
pub open spec fn cta_notes(c: CtaContent, block: usize, cap: Hz) -> Seq<Seq<char>> {
    let unknown = unknown_notes(cta::svd_bytes(c.data_blocks), block);
    let maps = if svds_kept(c.data_blocks, cap).contains(false) {
        map_notes(c.data_blocks, block)
    } else {
        Seq::empty()
    };
    let removed = if cta_changed(c, cap) && some_empty_video(trimmed_blocks(c.data_blocks, cap)) {
        seq![block_note("removed empty video data block(s)"@, block)]
    } else {
        Seq::empty()
    };
    unknown + maps + removed
}

// ---------------------------------------------------------------------------
// Doing it.

/// The refresh rate of a code does not depend on the block that it stands in.
pub proof fn lemma_code_above(vic: u8, block: usize, cap: Hz)
    ensures
        code_above(vic, cap) == (timing::vic_mode(vic, block) matches Some(t)
            && t.refresh_hz.above(cap)),
{
}

/// The refresh rate of a descriptor does not depend on where it stands.
pub proof fn lemma_dtd_above(d: Seq<u8>, source: TimingSource, cap: Hz)
    ensures
        dtd_stays(cap)(d) == !(timing::dtd_timing(d, source) matches Some(t)
            && t.refresh_hz.above(cap)),
{
}

/// A note in which a block is named.
pub fn note_on_block(what: &str, block: usize) -> (s: String)
    ensures
        s@ == block_note(what@, block),
{
    let mut s = String::new();
    s.append(what);
    s.append(" (block ");
    push_dec(&mut s, block as u128);
    s.append(")");
    assert(s@ =~= block_note(what@, block));
    s
}

/// Appends a note.
pub fn push_note(notes: &mut Vec<String>, note: String)
    ensures
        text::texts(final(notes)@) == text::texts(old(notes)@).push(note@),
{
    notes.push(note);
    assert(text::texts(notes@) =~= text::texts(old(notes)@).push(note@));
}

/// Takes the short video descriptors above the cap out of `svds`.
fn trim_svds(
    svds: &Vec<u8>,
    block: usize,
    cap: &Hz,
    kept: &mut Vec<bool>,
    dropped: &mut Vec<Timing>,
    notes: &mut Vec<String>,
) -> (out: Vec<u8>)
    requires
        cap.den > 0,
    ensures
        out@ == svds@.filter(svd_stays(*cap)),
        final(kept)@ == old(kept)@ + svds@.map_values(svd_stays(*cap)),
        final(dropped)@ == old(dropped)@ + cta::vic_timings(svds@, block).filter(is_above(*cap)),
        text::texts(final(notes)@) == text::texts(old(notes)@) + unknown_notes(svds@, block),
{
    let mut out: Vec<u8> = Vec::new();
    let mut i: usize = 0;
    proof {
        reveal(Seq::filter);
        assert(svds@.take(0) =~= Seq::empty());
        assert(kept@ =~= kept@ + svds@.take(0).map_values(svd_stays(*cap)));
        assert(dropped@ =~= dropped@ + cta::vic_timings(svds@.take(0), block).filter(
            is_above(*cap),
        ));
        assert(text::texts(notes@) =~= text::texts(notes@) + unknown_notes(svds@.take(0), block));
    }
    while i < svds.len()
        invariant
            i <= svds.len(),
            cap.den > 0,
            out@ == svds@.take(i as int).filter(svd_stays(*cap)),
            kept@ == old(kept)@ + svds@.take(i as int).map_values(svd_stays(*cap)),
            dropped@ == old(dropped)@ + cta::vic_timings(svds@.take(i as int), block).filter(
                is_above(*cap),
            ),
            text::texts(notes@) == text::texts(old(notes)@) + unknown_notes(
                svds@.take(i as int),
                block,
            ),
        decreases svds.len() - i,
    {
        let b = svds[i];
        let vic = svd_vic(b);
        proof {
            reveal(Seq::filter);
            assert(svds@.take(i + 1).drop_last() =~= svds@.take(i as int));
            assert(svds@.take(i + 1).last() == b);
            lemma_code_above(vic, block, *cap);
        }
        let ghost ts = cta::vic_timings(svds@.take(i as int), block);
        let keep: bool = match vic_as_timing(vic, block) {
            Some(t) => {
                proof {
                    assert(ts.push(t).drop_last() =~= ts);
                }
                if t.refresh_hz.is_above(cap) {
                    dropped.push(t);
                    false
                } else {
                    true
                }
            },
            None => {
                let mut what = String::new();
                what.append("kept unknown VIC ");
                push_dec(&mut what, vic as u128);
                assert(what@ =~= "kept unknown VIC "@ + text::dec(vic as nat));
                push_note(notes, note_on_block(what.as_str(), block));
                true
            },
        };
        kept.push(keep);
        if keep {
            out.push(b);
        }
        proof {
            assert(kept@ =~= old(kept)@ + svds@.take(i + 1).map_values(svd_stays(*cap)));
            assert(dropped@ =~= old(dropped)@ + cta::vic_timings(svds@.take(i + 1), block).filter(
                is_above(*cap),
            ));
            assert(text::texts(notes@) =~= text::texts(old(notes)@) + unknown_notes(
                svds@.take(i + 1),
                block,
            ));
        }
        i += 1;
    }
    assert(svds@.take(i as int) =~= svds@);
    out
}

/// Whether one of the timings has the given source.
fn lists_source(ts: &Vec<Timing>, source: TimingSource) -> (r: bool)
    ensures
        r == has_source(ts@, source),
{
    let mut i: usize = 0;
    while i < ts.len()
        invariant
            i <= ts.len(),
            forall|k: int| 0 <= k < i ==> (#[trigger] ts@[k]).source != source,
        decreases ts.len() - i,
    {
        if ts[i].source == source {
            assert(ts@[i as int].source == source);
            return true;
        }
        i += 1;
    }
    false
}

/// Takes the codes above the cap out of the payload of a YCbCr 4:2:0 video data block.
fn trim_y420(body: &Vec<u8>, block: usize, cap: &Hz, dropped: &mut Vec<Timing>) -> (out: Vec<u8>)
    requires
        cap.den > 0,
        body.len() > 0,
    ensures
        out@ == seq![Y420_VIDEO] + body@.drop_first().filter(code_stays(*cap)),
        final(dropped)@ == with_new_codes(old(dropped)@, body@.drop_first(), block, *cap),
{
    let ghost codes = body@.drop_first();
    let mut out: Vec<u8> = Vec::new();
    out.push(Y420_VIDEO);
    let mut i: usize = 1;
    proof {
        reveal(Seq::filter);
        assert(codes.take(0) =~= Seq::empty());
        assert(out@ =~= seq![Y420_VIDEO] + codes.take(0).filter(code_stays(*cap)));
    }
    while i < body.len()
        invariant
            1 <= i <= body.len(),
            cap.den > 0,
            codes == body@.drop_first(),
            out@ == seq![Y420_VIDEO] + codes.take(i - 1).filter(code_stays(*cap)),
            dropped@ == with_new_codes(old(dropped)@, codes.take(i - 1), block, *cap),
        decreases body.len() - i,
    {
        let b = body[i];
        proof {
            reveal(Seq::filter);
            assert(codes.take(i as int).drop_last() =~= codes.take(i - 1));
            assert(codes.take(i as int).last() == b);
            lemma_code_above(b, block, *cap);
        }
        let mut keep: bool = true;
        if let Some(t) = vic_as_timing(b, block) {
            if t.refresh_hz.is_above(cap) {
                keep = false;
                if !lists_source(dropped, t.source) {
                    dropped.push(t);
                }
            }
        }
        if keep {
            out.push(b);
        }
        assert(out@ =~= seq![Y420_VIDEO] + codes.take(i as int).filter(code_stays(*cap)));
        i += 1;
    }
    assert(codes.take(i - 1) =~= codes);
    out
}

proof fn lemma_unknown_notes_split(a: Seq<u8>, b: Seq<u8>, block: usize)
    ensures
        unknown_notes(a + b, block) == unknown_notes(a, block) + unknown_notes(b, block),
    decreases b.len(),
{
    if b.len() == 0 {
        assert(a + b =~= a);
        assert(unknown_notes(a, block) + unknown_notes(b, block) =~= unknown_notes(a, block));
    } else {
        lemma_unknown_notes_split(a, b.drop_last(), block);
        assert((a + b).drop_last() =~= a + b.drop_last());
        assert(unknown_notes(a + b, block) =~= unknown_notes(a, block) + unknown_notes(b, block));
    }
}

/// A data block is unchanged exactly when its payload is as long as before.
proof fn lemma_trimmed_block(b: (u8, Seq<u8>), cap: Hz)
    ensures
        trimmed_block(cap)(b).0 == b.0,
        trimmed_block(cap)(b).1.len() <= b.1.len(),
        trimmed_block(cap)(b).1.len() == b.1.len() <==> trimmed_block(cap)(b) == b,
{
    if b.0 == VIDEO {
        seqs::lemma_filter_same_len(b.1, svd_stays(cap));
    } else if has_extended_tag(b, Y420_VIDEO) {
        seqs::lemma_filter_same_len(b.1.drop_first(), code_stays(cap));
        assert(seq![Y420_VIDEO] + b.1.drop_first() =~= b.1);
    }
}

/// A copy of a data block.
fn copied_block(b: &(u8, Vec<u8>)) -> (r: (u8, Vec<u8>))
    ensures
        r.0 == b.0,
        r.1@ == b.1@,
{
    let body = bytes_between(&b.1, 0, b.1.len());
    assert(body@ =~= b.1@);
    (b.0, body)
}

/// What taking the codes above the cap out of the data blocks leads to.
struct Trimmed {
    data_blocks: Vec<(u8, Vec<u8>)>,
    changed: bool,
    kept: Vec<bool>,
    dropped: Vec<Timing>,
    notes: Vec<String>,
}

/// Takes the codes above the cap out of the data blocks.
fn trim_data(v: &Vec<(u8, Vec<u8>)>, block: usize, cap: &Hz) -> (r: Trimmed)
    requires
        cap.den > 0,
    ensures
        cta::data_views(r.data_blocks@) == cta::data_views(v@).map_values(trimmed_block(*cap)),
        r.changed == (cta::data_views(v@).map_values(trimmed_block(*cap)) != cta::data_views(v@)),
        r.kept@ == svds_kept(cta::data_views(v@), *cap),
        r.dropped@ == data_dropped(cta::data_views(v@), block, *cap),
        text::texts(r.notes@) == unknown_notes(cta::svd_bytes(cta::data_views(v@)), block),
{
    let ghost bs = cta::data_views(v@);
    let ghost trim = trimmed_block(*cap);
    let mut out: Vec<(u8, Vec<u8>)> = Vec::new();
    let mut changed: bool = false;
    let mut kept: Vec<bool> = Vec::new();
    let mut dropped: Vec<Timing> = Vec::new();
    let mut notes: Vec<String> = Vec::new();
    let mut i: usize = 0;
    proof {
        assert(bs.take(0) =~= Seq::empty());
        assert(cta::data_views(out@) =~= bs.take(0).map_values(trim));
        assert(kept@ =~= svds_kept(bs.take(0), *cap));
        assert(text::texts(notes@) =~= unknown_notes(cta::svd_bytes(bs.take(0)), block));
    }
    while i < v.len()
        invariant
            i <= v.len(),
            cap.den > 0,
            bs == cta::data_views(v@),
            trim == trimmed_block(*cap),
            cta::data_views(out@) == bs.take(i as int).map_values(trim),
            changed == exists|k: int| 0 <= k < i && trim(#[trigger] bs[k]) != bs[k],
            kept@ == svds_kept(bs.take(i as int), *cap),
            dropped@ == data_dropped(bs.take(i as int), block, *cap),
            text::texts(notes@) == unknown_notes(cta::svd_bytes(bs.take(i as int)), block),
        decreases v.len() - i,
    {
        let (tag, body) = &v[i];
        let ghost b = bs[i as int];
        let ghost svds = cta::svd_bytes(bs.take(i as int));
        proof {
            assert(b == (*tag, body@));
            assert(bs.take(i + 1).drop_last() =~= bs.take(i as int));
            assert(bs.take(i + 1).last() == b);
            lemma_unknown_notes_split(svds, body@, block);
            lemma_trimmed_block(b, *cap);
        }
        let new_body: Vec<u8> = if *tag == VIDEO {
            let nb = trim_svds(body, block, cap, &mut kept, &mut dropped, &mut notes);
            assert(kept@ =~= (svds + body@).map_values(svd_stays(*cap)));
            nb
        } else if *tag == EXTENDED && body.len() > 0 && body[0] == Y420_VIDEO {
            trim_y420(body, block, cap, &mut dropped)
        } else {
            copied_block(&v[i]).1
        };
        assert((*tag, new_body@) == trim(b));
        if new_body.len() != body.len() {
            changed = true;
        }
        let ghost before = cta::data_views(out@);
        out.push((*tag, new_body));
        proof {
            assert(cta::data_views(out@) =~= before.push((*tag, new_body@)));
            assert(cta::data_views(out@) =~= bs.take(i + 1).map_values(trim));
        }
        i += 1;
    }
    assert(bs.take(i as int) =~= bs);
    proof {
        let all = bs.map_values(trim);
        if changed {
            let k = choose|k: int| 0 <= k < i && trim(#[trigger] bs[k]) != bs[k];
            assert(all[k] != bs[k]);
        } else {
            assert(all =~= bs);
        }
    }
    Trimmed { data_blocks: out, changed, kept, dropped, notes }
}

/// Whether one of the entries is false.
fn has_false(v: &Vec<bool>) -> (r: bool)
    ensures
        r == v@.contains(false),
{
    let mut i: usize = 0;
    while i < v.len()
        invariant
            i <= v.len(),
            forall|k: int| 0 <= k < i ==> #[trigger] v@[k],
        decreases v.len() - i,
    {
        if !v[i] {
            assert(v@[i as int] == false);
            return true;
        }
        i += 1;
    }
    false
}

/// Re-indexes the capability maps.
fn remap_blocks(
    v: &Vec<(u8, Vec<u8>)>,
    kept: &Vec<bool>,
    block: usize,
    notes: &mut Vec<String>,
) -> (out: Vec<(u8, Vec<u8>)>)
    ensures
        cta::data_views(out@) == cta::data_views(v@).map_values(remapped_block(kept@)),
        text::texts(final(notes)@) == text::texts(old(notes)@) + map_notes(
            cta::data_views(v@),
            block,
        ),
{
    let ghost bs = cta::data_views(v@);
    let ghost f = remapped_block(kept@);
    let mut out: Vec<(u8, Vec<u8>)> = Vec::new();
    let mut i: usize = 0;
    proof {
        assert(cta::data_views(out@) =~= bs.take(0).map_values(f));
        assert(text::texts(notes@) =~= text::texts(notes@) + map_notes(bs.take(0), block));
    }
    while i < v.len()
        invariant
            i <= v.len(),
            bs == cta::data_views(v@),
            f == remapped_block(kept@),
            cta::data_views(out@) == bs.take(i as int).map_values(f),
            text::texts(notes@) == text::texts(old(notes)@) + map_notes(bs.take(i as int), block),
        decreases v.len() - i,
    {
        let (tag, body) = &v[i];
        let ghost b = bs[i as int];
        proof {
            assert(b == (*tag, body@));
            assert(bs.take(i + 1).drop_last() =~= bs.take(i as int));
            assert(bs.take(i + 1).last() == b);
        }
        let new_body: Vec<u8> = if *tag == EXTENDED && body.len() > 1 && body[0] == Y420_MAP {
            let mut nb: Vec<u8> = Vec::new();
            nb.push(Y420_MAP);
            let bits = remap(&body[1..body.len()], kept);
            assert(body@.subrange(1, body@.len() as int) =~= body@.drop_first());
            crate::cta::push_bytes(&mut nb, &bits);
            push_note(notes, note_on_block("remapped YCbCr 4:2:0 capability map", block));
            assert(nb@ =~= seq![Y420_MAP] + bitmap::remapped(body@.drop_first(), kept@));
            nb
        } else {
            copied_block(&v[i]).1
        };
        let ghost before = cta::data_views(out@);
        out.push((*tag, new_body));
        proof {
            assert(cta::data_views(out@) =~= before.push((*tag, new_body@)));
            assert(cta::data_views(out@) =~= bs.take(i + 1).map_values(f));
            assert(text::texts(notes@) =~= text::texts(old(notes)@) + map_notes(
                bs.take(i + 1),
                block,
            ));
        }
        i += 1;
    }
    assert(bs.take(i as int) =~= bs);
    out
}

/// Whether one of the blocks is a video data block without descriptors.
fn find_empty_video(v: &Vec<(u8, Vec<u8>)>) -> (r: bool)
    ensures
        r == some_empty_video(cta::data_views(v@)),
{
    let ghost bs = cta::data_views(v@);
    let mut i: usize = 0;
    while i < v.len()
        invariant
            i <= v.len(),
            bs == cta::data_views(v@),
            forall|k: int| 0 <= k < i ==> !is_empty_video(#[trigger] bs[k]),
        decreases v.len() - i,
    {
        let (tag, body) = &v[i];
        assert(bs[i as int] == (*tag, body@));
        if *tag == VIDEO && body.len() == 0 {
            return true;
        }
        i += 1;
    }
    false
}

/// Whether one of the blocks is a video data block with descriptors.
fn find_video(v: &Vec<(u8, Vec<u8>)>) -> (r: bool)
    ensures
        r == some_video(cta::data_views(v@)),
{
    let ghost bs = cta::data_views(v@);
    let mut i: usize = 0;
    while i < v.len()
        invariant
            i <= v.len(),
            bs == cta::data_views(v@),
            forall|k: int| 0 <= k < i ==> !((#[trigger] bs[k]).0 == VIDEO && bs[k].1.len() > 0),
        decreases v.len() - i,
    {
        let (tag, body) = &v[i];
        assert(bs[i as int] == (*tag, body@));
        if *tag == VIDEO && body.len() > 0 {
            return true;
        }
        i += 1;
    }
    false
}

/// Takes out the blocks that say nothing any more.
fn prune_blocks(v: &Vec<(u8, Vec<u8>)>, no_video: bool) -> (out: Vec<(u8, Vec<u8>)>)
    requires
        no_video == lost_video(cta::data_views(v@)),
    ensures
        cta::data_views(out@) == pruned_blocks(cta::data_views(v@)),
{
    let ghost bs = cta::data_views(v@);
    let ghost p = says_something(no_video);
    let mut out: Vec<(u8, Vec<u8>)> = Vec::new();
    let mut i: usize = 0;
    proof {
        reveal(Seq::filter);
        assert(cta::data_views(out@) =~= bs.take(0).filter(p));
    }
    while i < v.len()
        invariant
            i <= v.len(),
            bs == cta::data_views(v@),
            p == says_something(no_video),
            cta::data_views(out@) == bs.take(i as int).filter(p),
        decreases v.len() - i,
    {
        let (tag, body) = &v[i];
        let ghost b = bs[i as int];
        proof {
            reveal(Seq::filter);
            assert(b == (*tag, body@));
            assert(bs.take(i + 1).drop_last() =~= bs.take(i as int));
            assert(bs.take(i + 1).last() == b);
        }
        let extended: bool = *tag == EXTENDED && body.len() > 0;
        let keep: bool = !(*tag == VIDEO && body.len() == 0) && !(extended && body[0] == Y420_VIDEO
            && body.len() == 1) && !(no_video && extended && body[0] == Y420_MAP);
        assert(keep == p(b));
        if keep {
            let ghost before = cta::data_views(out@);
            let copy = copied_block(&v[i]);
            out.push(copy);
            assert(cta::data_views(out@) =~= before.push(b));
        }
        i += 1;
    }
    assert(bs.take(i as int) =~= bs);
    out
}

/// Takes out the detailed timings above the cap.
fn trim_dtds(v: &Vec<[u8; 18]>, block: usize, cap: &Hz, dropped: &mut Vec<Timing>) -> (out: Vec<
    [u8; 18],
>)
    requires
        cap.den > 0,
    ensures
        cta::dtd_views(out@) == cta::dtd_views(v@).filter(dtd_stays(*cap)),
        final(dropped)@ == old(dropped)@ + cta::dtd_timings(cta::dtd_views(v@), block).filter(
            is_above(*cap),
        ),
{
    let ghost ds = cta::dtd_views(v@);
    let mut out: Vec<[u8; 18]> = Vec::new();
    let mut i: usize = 0;
    proof {
        reveal(Seq::filter);
        assert(ds.take(0) =~= Seq::empty());
        assert(cta::dtd_views(out@) =~= ds.take(0).filter(dtd_stays(*cap)));
        assert(dropped@ =~= dropped@ + cta::dtd_timings(ds.take(0), block).filter(is_above(*cap)));
    }
    while i < v.len()
        invariant
            i <= v.len(),
            cap.den > 0,
            ds == cta::dtd_views(v@),
            cta::dtd_views(out@) == ds.take(i as int).filter(dtd_stays(*cap)),
            dropped@ == old(dropped)@ + cta::dtd_timings(ds.take(i as int), block).filter(
                is_above(*cap),
            ),
        decreases v.len() - i,
    {
        let d: [u8; 18] = v[i];
        let source = TimingSource::CtaDtd { block, index: i };
        let ghost ts = cta::dtd_timings(ds.take(i as int), block);
        proof {
            reveal(Seq::filter);
            assert(ds[i as int] == d@);
            assert(ds.take(i + 1).drop_last() =~= ds.take(i as int));
            assert(ds.take(i + 1).last() == d@);
            lemma_dtd_above(d@, source, *cap);
        }
        let mut keep: bool = true;
        if let Some(t) = parse_dtd(d.as_slice(), source) {
            assert(ts.push(t).drop_last() =~= ts);
            if t.refresh_hz.is_above(cap) {
                dropped.push(t);
                keep = false;
            }
        }
        if keep {
            let ghost before = cta::dtd_views(out@);
            out.push(d);
            assert(cta::dtd_views(out@) =~= before.push(d@));
        }
        assert(dropped@ =~= old(dropped)@ + cta::dtd_timings(ds.take(i + 1), block).filter(
            is_above(*cap),
        ));
        i += 1;
    }
    assert(ds.take(i as int) =~= ds);
    out
}

/// A CTA-861 block without the timings above a cap.
pub struct CtaCap {
    pub cta: CtaBlock,
    /// Whether the block has to be written anew.
    pub changed: bool,
    pub dropped: Vec<Timing>,
    pub notes: Vec<String>,
}

/// Removes the timings above the cap from a CTA-861 block: short video descriptors and the
/// codes of the YCbCr 4:2:0 video data blocks, with the capability map re-indexed, and
/// detailed timings. Where one of them goes, so do video data blocks and YCbCr 4:2:0 video
/// data blocks that are empty, and the capability map if no descriptor is left.
pub fn cap_cta(blk: &[u8], block: usize, cap: &Hz) -> (r: CtaCap)
    requires
        blk.len() >= BLOCK,
        cap.den > 0,
    ensures
        r.cta@ == capped_cta(cta::cta_content(blk@), *cap),
        r.changed == cta_changed(cta::cta_content(blk@), *cap),
        r.dropped@ == cta_dropped(cta::cta_content(blk@), block, *cap),
        text::texts(r.notes@) == cta_notes(cta::cta_content(blk@), block, *cap),
{
    let old = parse_cta(blk);
    let ghost c = cta::cta_content(blk@);
    let ghost bs = c.data_blocks;
    let trimmed = trim_data(&old.data_blocks, block, cap);
    let mut dropped = trimmed.dropped;
    let mut notes = trimmed.notes;
    let mut data_blocks = trimmed.data_blocks;
    if has_false(&trimmed.kept) {
        data_blocks = remap_blocks(&data_blocks, &trimmed.kept, block, &mut notes);
        proof {
            lemma_same_maps(bs, *cap, block);
        }
    }
    assert(cta::data_views(data_blocks@) == trimmed_blocks(bs, *cap));
    let dtds = trim_dtds(&old.dtds, block, cap, &mut dropped);
    assert(dropped@ =~= cta_dropped(c, block, *cap));
    assert(cta::dtd_views(dtds@).len() == dtds.len());
    let changed: bool = trimmed.changed || dtds.len() != old.dtds.len();
    if !changed {
        assert(text::texts(notes@) =~= cta_notes(c, block, *cap));
        return CtaCap { cta: old, changed, dropped, notes };
    }
    let empty_video = find_empty_video(&data_blocks);
    if empty_video {
        push_note(&mut notes, note_on_block("removed empty video data block(s)", block));
    }
    assert(text::texts(notes@) =~= cta_notes(c, block, *cap));
    let no_video: bool = empty_video && !find_video(&data_blocks);
    let pruned = prune_blocks(&data_blocks, no_video);
    let cta = CtaBlock { revision: old.revision, flags: old.flags, data_blocks: pruned, dtds };
    assert(cta@ =~= capped_cta(c, *cap));
    CtaCap { cta, changed, dropped, notes }
}

/// Taking out codes leaves the capability maps as they are.
proof fn lemma_same_maps(bs: Seq<(u8, Seq<u8>)>, cap: Hz, block: usize)
    ensures
        map_notes(bs.map_values(trimmed_block(cap)), block) == map_notes(bs, block),
    decreases bs.len(),
{
    let f = trimmed_block(cap);
    if bs.len() > 0 {
        lemma_same_maps(bs.drop_last(), cap, block);
        assert(bs.map_values(f).drop_last() =~= bs.drop_last().map_values(f));
        let b = bs.last();
        assert(bs.map_values(f).last() == f(b));
        lemma_trimmed_block(b, cap);
    }
}

} // verus!
