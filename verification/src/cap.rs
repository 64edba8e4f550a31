//! Capping: an EDID that no longer advertises any timing above a refresh rate.

use vstd::prelude::*;

use crate::block::{fix_checksum, validate, EdidError, BLOCK};
use crate::cta::{build_cta, descriptor_at, push_bytes};
use crate::cta_cap::{cap_cta, push_note};
use crate::displayid::build_displayid;
use crate::displayid_cap::cap_displayid;
use crate::edid::{parse, RangeLimits};
use crate::rate::Hz;
use crate::text::push_dec;
use crate::timing::{parse_dtd, Timing, TimingSource};
use crate::{block, cta, cta_cap, displayid, displayid_cap, edid, text, timing};

verus! {

/// Options for [`cap`].
#[derive(Debug, Clone, Copy, PartialEq, Eq, Structural)]
pub struct CapOptions {
    /// Timings with a refresh rate above this are removed. A rate that is no number has a
    /// zero denominator.
    pub max_hz: Hz,
    /// Value to write into the range-limits "max pixel clock" field. When `None` it is
    /// derived from the highest remaining timing.
    pub max_pixel_clock_mhz: Option<u32>,
}

/// Result of [`cap`].
#[derive(Debug, Clone)]
pub struct CapResult {
    pub bytes: Vec<u8>,
    pub dropped: Vec<Timing>,
    pub notes: Vec<String>,
    pub max_timing: Option<Timing>,
    /// True when nothing had to change (the EDID was already within the cap).
    pub unchanged: bool,
}

/// What capping leads to.
#[verifier::ext_equal]
pub struct CapContent {
    pub bytes: Seq<u8>,
    pub dropped: Seq<Timing>,
    pub notes: Seq<Seq<char>>,
    pub max_timing: Option<Timing>,
    pub unchanged: bool,
}

impl View for CapResult {
    type V = CapContent;

    open spec fn view(&self) -> CapContent {
        CapContent {
            bytes: self.bytes@,
            dropped: self.dropped@,
            notes: text::texts(self.notes@),
            max_timing: self.max_timing,
            unchanged: self.unchanged,
        }
    }
}

// ---------------------------------------------------------------------------
// The base block.

/// Whether the preferred timing (the first descriptor) is above the cap.
pub open spec fn preferred_above(bytes: Seq<u8>, cap: Hz) -> bool {
    edid::base_timing(bytes, 0) matches Some(t) && t.refresh_hz.above(cap)
}

/// Whether descriptor `i` is a timing above the cap that is not the preferred one.
pub open spec fn slot_goes(bytes: Seq<u8>, i: int, cap: Hz) -> bool {
    1 <= i < 4 && (edid::base_timing(bytes, i) matches Some(t) && t.refresh_hz.above(cap))
}

/// Byte `m` of a "dummy" display descriptor (tag 0x10).
pub open spec fn dummy_byte(m: int) -> u8 {
    if m == 3 {
        0x10
    } else {
        0
    }
}

/// The base block with a dummy descriptor in place of each timing that goes.
pub open spec fn blanked(bytes: Seq<u8>, cap: Hz) -> Seq<u8> {
    Seq::new(
        128,
        |k: int|
            if 54 <= k < 126 && slot_goes(bytes, (k - 54) / 18, cap) {
                dummy_byte((k - 54) % 18)
            } else {
                bytes[k]
            },
    )
}

// ---------------------------------------------------------------------------
// The extension blocks.

/// An extension block without the timings above the cap; a block from which nothing goes
/// stays byte for byte.
pub open spec fn capped_extension(blk: Seq<u8>, n: usize, cap: Hz) -> Seq<u8> {
    if blk[0] == 0x02 && cta_cap::cta_changed(cta::cta_content(blk), cap) {
        cta::cta_bytes(cta_cap::capped_cta(cta::cta_content(blk), cap))
    } else if blk[0] == 0x70 && extension_dropped(blk, n, cap).len() > 0 {
        displayid::displayid_bytes(
            displayid_cap::capped_displayid(displayid::displayid_content(blk), cap),
        )
    } else {
        blk
    }
}

/// The timings that go from extension block number `n`.
pub open spec fn extension_dropped(blk: Seq<u8>, n: usize, cap: Hz) -> Seq<Timing> {
    if blk[0] == 0x02 {
        cta_cap::cta_dropped(cta::cta_content(blk), n, cap)
    } else if blk[0] == 0x70 {
        displayid_cap::displayid_dropped(displayid::displayid_content(blk), n, cap)
    } else {
        Seq::empty()
    }
}

/// The notes on what was done to extension block number `n`.
pub open spec fn extension_notes(blk: Seq<u8>, n: usize, cap: Hz) -> Seq<Seq<char>> {
    if blk[0] == 0x02 {
        cta_cap::cta_notes(cta::cta_content(blk), n, cap)
    } else if blk[0] == 0x70 {
        displayid_cap::displayid_notes(displayid::displayid_content(blk).blocks, n, cap)
    } else {
        Seq::empty()
    }
}

/// Whether what stays of an extension block fits into a block. It always does when the data
/// blocks of a CTA-861 block end where its detailed timings start.
pub open spec fn extension_fits(blk: Seq<u8>, cap: Hz) -> bool {
    blk[0] == 0x02 && cta_cap::cta_changed(cta::cta_content(blk), cap) ==> cta::cta_size(
        cta_cap::capped_cta(cta::cta_content(blk), cap),
    ) <= 128
}

/// The base block and the extension blocks with a number below `n`, without the timings
/// above the cap.
pub open spec fn trimmed_to(bytes: Seq<u8>, cap: Hz, n: nat) -> Seq<u8>
    decreases n,
{
    if n <= 1 {
        blanked(bytes, cap)
    } else {
        trimmed_to(bytes, cap, (n - 1) as nat) + capped_extension(
            block::block_at(bytes, n - 1),
            (n - 1) as usize,
            cap,
        )
    }
}

/// The EDID without the timings above the cap.
pub open spec fn trimmed(bytes: Seq<u8>, cap: Hz) -> Seq<u8> {
    trimmed_to(bytes, cap, block::block_count(bytes))
}

/// The timings that go from the base block and the extension blocks with a number below `n`.
pub open spec fn dropped_to(bytes: Seq<u8>, cap: Hz, n: nat) -> Seq<Timing>
    decreases n,
{
    if n <= 1 {
        edid::base_timings(bytes, 4).filter(cta_cap::is_above(cap))
    } else {
        dropped_to(bytes, cap, (n - 1) as nat) + extension_dropped(
            block::block_at(bytes, n - 1),
            (n - 1) as usize,
            cap,
        )
    }
}

/// All timings that go.
pub open spec fn all_dropped(bytes: Seq<u8>, cap: Hz) -> Seq<Timing> {
    dropped_to(bytes, cap, block::block_count(bytes))
}

/// The notes on the extension blocks with a number below `n`.
pub open spec fn notes_to(bytes: Seq<u8>, cap: Hz, n: nat) -> Seq<Seq<char>>
    decreases n,
{
    if n <= 1 {
        Seq::empty()
    } else {
        notes_to(bytes, cap, (n - 1) as nat) + extension_notes(
            block::block_at(bytes, n - 1),
            (n - 1) as usize,
            cap,
        )
    }
}

// ---------------------------------------------------------------------------
// The range limits.

/// A pixel clock in megahertz, rounded up to a multiple of ten.
pub open spec fn clock_tens(hz: u64) -> int {
    ((hz + 9_999_999) / 10_000_000) * 10
}

/// The highest pixel clock of the timings, in megahertz, rounded up to a multiple of ten.
pub open spec fn highest_clock(ts: Seq<Timing>) -> Option<int>
    decreases ts.len(),
{
    if ts.len() == 0 {
        None
    } else {
        let c = clock_tens(ts.last().pixel_clock_hz);
        match highest_clock(ts.drop_last()) {
            Some(m) if m > c => Some(m),
            _ => Some(c),
        }
    }
}

/// The pixel clock limit that fits the timings that are left; never above the old one.
pub open spec fn new_clock(opts: CapOptions, ts: Seq<Timing>, limit: u32) -> int {
    let wanted = match opts.max_pixel_clock_mhz {
        Some(m) => m as int,
        None => match highest_clock(ts) {
            Some(c) => c,
            None => limit as int,
        },
    };
    cta::least(wanted, limit as int)
}

/// Where descriptor `i` starts.
pub open spec fn slot(i: usize) -> int {
    54 + 18 * i
}

/// `bytes` with the maximum vertical rate of the range limits descriptor at `o` set to
/// `hz`. A rate above 255 is written with the flag that adds 255.
pub open spec fn with_v_max(bytes: Seq<u8>, o: int, hz: u32) -> Seq<u8> {
    let flags = bytes[o + 4] - bytes[o + 4] % 4;
    if hz <= 255 {
        bytes.update(o + 4, flags as u8).update(o + 6, hz as u8)
    } else {
        bytes.update(o + 4, (flags + 2) as u8).update(o + 6, (hz - 255) as u8)
    }
}

/// The step that stands for a pixel clock limit, at most the highest there is.
pub open spec fn clock_step(mhz: int) -> int {
    cta::least(mhz / 10, 255)
}

/// Whether the maximum vertical rate has to come down.
pub open spec fn lowers_v_max(opts: CapOptions, rl: RangeLimits) -> bool {
    opts.max_hz.whole() < rl.v_max_hz
}

/// Whether the maximum pixel clock has to come down.
pub open spec fn lowers_clock(opts: CapOptions, ts: Seq<Timing>, rl: RangeLimits) -> bool {
    0 < new_clock(opts, ts, rl.max_pixel_clock_mhz) < rl.max_pixel_clock_mhz
}

/// `bytes` with the range limits lowered to the cap and to the timings `ts` that are left.
pub open spec fn limited(bytes: Seq<u8>, opts: CapOptions, ts: Seq<Timing>, rl: RangeLimits) -> Seq<
    u8,
> {
    let o = slot(rl.descriptor_index);
    let a = if lowers_v_max(opts, rl) {
        with_v_max(bytes, o, opts.max_hz.whole())
    } else {
        bytes
    };
    if lowers_clock(opts, ts, rl) {
        a.update(o + 9, clock_step(new_clock(opts, ts, rl.max_pixel_clock_mhz)) as u8)
    } else {
        a
    }
}

/// The notes on the range limits.
pub open spec fn limit_notes(opts: CapOptions, ts: Seq<Timing>, rl: RangeLimits) -> Seq<Seq<char>> {
    let a: Seq<Seq<char>> = if lowers_v_max(opts, rl) {
        seq![
            "range limits: max vertical rate "@ + text::dec(rl.v_max_hz as nat) + " -> "@
                + text::dec(opts.max_hz.whole() as nat) + " Hz"@,
        ]
    } else {
        Seq::empty()
    };
    let b: Seq<Seq<char>> = if lowers_clock(opts, ts, rl) {
        seq![
            "range limits: max pixel clock "@ + text::dec(rl.max_pixel_clock_mhz as nat) + " -> "@
                + text::dec(
                (clock_step(new_clock(opts, ts, rl.max_pixel_clock_mhz)) * 10) as nat,
            ) + " MHz"@,
        ]
    } else {
        Seq::empty()
    };
    a + b
}

// ---------------------------------------------------------------------------
// The whole.

/// The outcome for the EDID `bytes` of which `out` is left, without the timings `dropped`:
/// the range limits follow, if a timing went, and the base block gets its checksum.
pub open spec fn settled(
    bytes: Seq<u8>,
    out: Seq<u8>,
    dropped: Seq<Timing>,
    notes: Seq<Seq<char>>,
    opts: CapOptions,
) -> CapContent {
    let ts = edid::all_timings(out);
    let (end, more) = match edid::range_limits(out, 4) {
        Some(rl) if dropped.len() > 0 => (
            limited(out, opts, ts, rl),
            limit_notes(opts, ts, rl),
        ),
        _ => (out, Seq::empty()),
    };
    CapContent {
        bytes: block::sealed(end),
        dropped,
        notes: notes + more,
        max_timing: edid::highest(ts),
        unchanged: block::sealed(end) == bytes,
    }
}

/// What capping an EDID leads to, when it is valid and its preferred timing stays.
pub open spec fn cap_content(bytes: Seq<u8>, opts: CapOptions) -> CapContent {
    settled(
        bytes,
        trimmed(bytes, opts.max_hz),
        all_dropped(bytes, opts.max_hz),
        notes_to(bytes, opts.max_hz, block::block_count(bytes)),
        opts,
    )
}

/// Whether an EDID gets as far as being written anew: the cap is a positive number, the
/// EDID is valid, and its preferred timing stays.
pub open spec fn accepted(bytes: Seq<u8>, opts: CapOptions) -> bool {
    &&& opts.max_hz.positive()
    &&& block::valid(bytes)
    &&& !preferred_above(bytes, opts.max_hz)
}

/// Whether what stays of each extension block fits into a block.
pub open spec fn cap_fits(bytes: Seq<u8>, opts: CapOptions) -> bool {
    accepted(bytes, opts) ==> forall|n: int|
        1 <= n < block::block_count(bytes) ==> extension_fits(
            #[trigger] block::block_at(bytes, n),
            opts.max_hz,
        )
}

// ---------------------------------------------------------------------------
// The shape of what is written.

/// An extension block stays a block with a correct checksum, and of the same kind.
pub proof fn lemma_capped_extension(blk: Seq<u8>, n: usize, cap: Hz)
    requires
        blk.len() == 128,
        extension_fits(blk, cap),
    ensures
        capped_extension(blk, n, cap).len() == 128,
        capped_extension(blk, n, cap)[0] == blk[0],
        block::sum(blk) % 256 == 0 ==> block::sum(capped_extension(blk, n, cap)) % 256 == 0,
{
    if blk[0] == 0x02 && cta_cap::cta_changed(cta::cta_content(blk), cap) {
        let c = cta_cap::capped_cta(cta::cta_content(blk), cap);
        let data = cta::data_bytes(c.data_blocks);
        let head = seq![0x02u8, c.revision, (4 + data.len()) as u8, c.flags];
        let raw = cta::padded(head + data + cta::dtd_bytes(c.dtds));
        block::lemma_sealed(raw);
        assert(raw[0] == 0x02);
        assert(block::sealed(raw)[0] == raw[0]);
    } else if blk[0] == 0x70 && extension_dropped(blk, n, cap).len() > 0 {
        displayid::lemma_parsed_displayid_regular(blk);
        let c = displayid::displayid_content(blk);
        displayid_cap::lemma_capped_displayid_regular(c, cap);
        displayid::law_displayid_round_trip(displayid_cap::capped_displayid(c, cap));
    }
}

/// Block for block, what is written is what was to be written.
pub proof fn lemma_trimmed_to(bytes: Seq<u8>, cap: Hz, n: nat)
    requires
        bytes.len() >= 128 * n,
        n >= 1,
        forall|k: int|
            1 <= k < n ==> extension_fits(#[trigger] block::block_at(bytes, k), cap),
    ensures
        trimmed_to(bytes, cap, n).len() == 128 * n,
        block::block_at(trimmed_to(bytes, cap, n), 0) == blanked(bytes, cap),
        forall|k: int|
            1 <= k < n ==> #[trigger] block::block_at(trimmed_to(bytes, cap, n), k)
                == capped_extension(block::block_at(bytes, k), k as usize, cap),
    decreases n,
{
    let out = trimmed_to(bytes, cap, n);
    if n == 1 {
        assert(block::block_at(out, 0) =~= out);
    } else {
        let m = (n - 1) as nat;
        let before = trimmed_to(bytes, cap, m);
        let blk = block::block_at(bytes, m as int);
        lemma_trimmed_to(bytes, cap, m);
        lemma_capped_extension(blk, m as usize, cap);
        assert(block::block_at(out, 0) =~= block::block_at(before, 0));
        assert forall|k: int| 1 <= k < n implies #[trigger] block::block_at(out, k)
            == capped_extension(block::block_at(bytes, k), k as usize, cap) by {
            if k < m {
                assert(block::block_at(out, k) =~= block::block_at(before, k));
            } else {
                assert(block::block_at(out, k) =~= capped_extension(blk, m as usize, cap));
            }
        }
    }
}

/// Changing bytes of the base block, behind the header, and sealing it keeps the EDID valid.
pub proof fn lemma_sealed_valid(bytes: Seq<u8>)
    requires
        bytes.len() >= 128,
        bytes.len() % 128 == 0,
        block::has_header(bytes),
        forall|n: int| 1 <= n < block::block_count(bytes) ==> block::block_ok(bytes, n),
    ensures
        block::valid(block::sealed(bytes)),
        block::sealed(bytes).len() == bytes.len(),
        block::block_at(block::sealed(bytes), 0) == block::sealed(block::block_at(bytes, 0)),
        forall|n: int|
            1 <= n < block::block_count(bytes) ==> #[trigger] block::block_at(
                block::sealed(bytes),
                n,
            ) == block::block_at(bytes, n),
{
    let out = block::sealed(bytes);
    let base = block::block_at(bytes, 0);
    assert(bytes.take(127) =~= base.take(127));
    block::lemma_sealed(base);
    assert(block::block_at(out, 0) =~= block::sealed(base));
    assert forall|n: int| 1 <= n < block::block_count(bytes) implies #[trigger] block::block_at(
        out,
        n,
    ) == block::block_at(bytes, n) by {
        assert(block::block_at(out, n) =~= block::block_at(bytes, n));
    }
    assert forall|n: int| 0 <= n < block::block_count(out) implies block::block_ok(out, n) by {
        if n >= 1 {
            assert(block::block_at(out, n) == block::block_at(bytes, n));
            assert(block::block_ok(bytes, n));
        }
    }
}

/// The range limits descriptor that is found is one of the four.
pub proof fn lemma_last_tagged(bytes: Seq<u8>, tag: u8, n: nat)
    ensures
        edid::last_tagged(bytes, tag, n) matches Some(i) ==> i < n && edid::is_tagged(
            edid::descriptor(bytes, i as int),
            tag,
        ),
    decreases n,
{
    if n > 0 {
        lemma_last_tagged(bytes, tag, (n - 1) as nat);
    }
}

// ---------------------------------------------------------------------------
// Doing it.

/// The base block with a dummy descriptor in place of each timing that goes, unless the
/// preferred timing is above the cap.
fn cap_base(bytes: &[u8], cap: &Hz, dropped: &mut Vec<Timing>) -> (r: Result<Vec<u8>, EdidError>)
    requires
        bytes.len() >= BLOCK,
        cap.den > 0,
        old(dropped)@.len() == 0,
    ensures
        match r {
            Ok(out) => {
                &&& !preferred_above(bytes@, *cap)
                &&& out@ == blanked(bytes@, *cap)
                &&& final(dropped)@ == edid::base_timings(bytes@, 4).filter(
                    cta_cap::is_above(*cap),
                )
            },
            Err(e) => {
                &&& preferred_above(bytes@, *cap)
                &&& edid::base_timing(bytes@, 0) is Some
                &&& e == EdidError::PreferredExceedsCap(edid::base_timing(bytes@, 0)->0)
            },
        },
{
    let ghost above = cta_cap::is_above(*cap);
    let mut out: Vec<u8> = Vec::new();
    push_bytes(&mut out, &bytes[0..54]);
    proof {
        reveal(Seq::filter);
        assert(out@ =~= blanked(bytes@, *cap).take(54));
        assert(edid::base_timings(bytes@, 0).filter(above) =~= Seq::empty());
    }
    let mut i: usize = 0;
    while i < 4
        invariant
            i <= 4,
            bytes.len() >= 128,
            cap.den > 0,
            above == cta_cap::is_above(*cap),
            i > 0 ==> !preferred_above(bytes@, *cap),
            out@ == blanked(bytes@, *cap).take(54 + 18 * i),
            dropped@ == edid::base_timings(bytes@, i as nat).filter(above),
        decreases 4 - i,
    {
        let d = descriptor_at(bytes, 54 + 18 * i);
        let ghost ts = edid::base_timings(bytes@, i as nat);
        assert(d@ == edid::descriptor(bytes@, i as int));
        let mut goes: bool = false;
        if let Some(t) = parse_dtd(d.as_slice(), TimingSource::BaseDtd { index: i }) {
            proof {
                reveal(Seq::filter);
                assert(ts.push(t).drop_last() =~= ts);
            }
            if t.refresh_hz.is_above(cap) {
                if i == 0 {
                    return Err(EdidError::PreferredExceedsCap(t));
                }
                goes = true;
                dropped.push(t);
            }
        }
        assert(goes == slot_goes(bytes@, i as int, *cap));
        let mut m: usize = 0;
        while m < 18
            invariant
                m <= 18,
                i < 4,
                d@ == edid::descriptor(bytes@, i as int),
                bytes.len() >= 128,
                goes == slot_goes(bytes@, i as int, *cap),
                out@ == blanked(bytes@, *cap).take(54 + 18 * i + m),
            decreases 18 - m,
        {
            let ghost k = 54 + 18 * i + m;
            assert((k - 54) / 18 == i && (k - 54) % 18 == m);
            if goes {
                out.push(
                    if m == 3 {
                        0x10
                    } else {
                        0
                    },
                );
            } else {
                out.push(d[m]);
            }
            m += 1;
            assert(out@ =~= blanked(bytes@, *cap).take(54 + 18 * i + m));
        }
        i += 1;
        assert(54 + 18 * (i - 1) + 18 == 54 + 18 * i);
    }
    push_bytes(&mut out, &bytes[126..128]);
    assert(out@ =~= blanked(bytes@, *cap));
    Ok(out)
}

/// Whether what stays of an extension block fits into a block.
fn check_extension(blk: &[u8], n: usize, cap: &Hz) -> (r: bool)
    requires
        blk.len() == BLOCK,
        cap.den > 0,
    ensures
        r == extension_fits(blk@, *cap),
{
    if blk[0] != 0x02 {
        return true;
    }
    let c = cap_cta(blk, n, cap);
    if !c.changed {
        return true;
    }
    let ghost bs = c.cta@.data_blocks;
    let mut size: usize = 4;
    let mut i: usize = 0;
    assert(bs.take(0) =~= Seq::empty());
    while i < c.cta.data_blocks.len()
        invariant
            i <= c.cta.data_blocks.len(),
            bs == cta::data_views(c.cta.data_blocks@),
            size == 4 + cta::data_bytes(bs.take(i as int)).len(),
            size <= 128,
            c.cta@ == cta_cap::capped_cta(cta::cta_content(blk@), *cap),
            bs == c.cta@.data_blocks,
            blk@[0] == 0x02 && cta_cap::cta_changed(cta::cta_content(blk@), *cap),
        decreases c.cta.data_blocks.len() - i,
    {
        let len: usize = c.cta.data_blocks[i].1.len();
        proof {
            assert(bs[i as int] == (c.cta.data_blocks@[i as int].0, c.cta.data_blocks@[i as int].1@));
            assert(bs.take(i + 1) =~= bs.take(i as int).push(bs[i as int]));
            cta::lemma_data_bytes_push(bs.take(i as int), bs[i as int]);
            cta::lemma_data_bytes_prefix(bs, i + 1);
        }
        if len >= 128 || size + 1 + len > 128 {
            return false;
        }
        size += 1 + len;
        i += 1;
    }
    assert(bs.take(i as int) =~= bs);
    assert(c.cta@.dtds.len() == c.cta.dtds.len());
    c.cta.dtds.len() <= (128 - size) / 18
}

/// Whether [`cap`] can be asked: whether what stays of each extension block fits into a
/// block, in case it comes to that.
pub fn can_cap(bytes: &[u8], opts: &CapOptions) -> (r: bool)
    ensures
        r == cap_fits(bytes@, *opts),
{
    if !opts.max_hz.is_positive() {
        return true;
    }
    let valid = validate(bytes);
    if valid.is_err() {
        proof {
            if block::valid(bytes@) {
                block::lemma_one_verdict(bytes@, valid, Ok(()));
            }
        }
        return true;
    }
    let d = descriptor_at(bytes, 54);
    assert(d@ == edid::descriptor(bytes@, 0));
    if let Some(t) = parse_dtd(d.as_slice(), TimingSource::BaseDtd { index: 0 }) {
        if t.refresh_hz.is_above(&opts.max_hz) {
            return true;
        }
    }
    let count: usize = bytes.len() / BLOCK;
    let mut n: usize = 1;
    while n < count
        invariant
            1 <= n <= count,
            count == bytes.len() / 128,
            accepted(bytes@, *opts),
            forall|k: int|
                1 <= k < n ==> extension_fits(#[trigger] block::block_at(bytes@, k), opts.max_hz),
        decreases count - n,
    {
        let blk = &bytes[n * BLOCK..n * BLOCK + BLOCK];
        assert(blk@ == block::block_at(bytes@, n as int));
        if !check_extension(blk, n, &opts.max_hz) {
            return false;
        }
        n += 1;
    }
    true
}

/// Appends what stays of an extension block.
fn cap_extension(
    blk: &[u8],
    n: usize,
    cap: &Hz,
    out: &mut Vec<u8>,
    dropped: &mut Vec<Timing>,
    notes: &mut Vec<String>,
)
    requires
        blk.len() == BLOCK,
        cap.den > 0,
        extension_fits(blk@, *cap),
    ensures
        final(out)@ == old(out)@ + capped_extension(blk@, n, *cap),
        final(dropped)@ == old(dropped)@ + extension_dropped(blk@, n, *cap),
        text::texts(final(notes)@) == text::texts(old(notes)@) + extension_notes(blk@, n, *cap),
{
    if blk[0] == 0x02 {
        let mut c = cap_cta(blk, n, cap);
        if c.changed {
            let new = build_cta(&c.cta);
            push_bytes(out, &new);
        } else {
            push_bytes(out, blk);
        }
        dropped.append(&mut c.dropped);
        append_notes(notes, &mut c.notes);
    } else if blk[0] == 0x70 {
        let mut d = cap_displayid(blk, n, cap);
        if d.dropped.len() > 0 {
            proof {
                displayid::lemma_parsed_displayid_regular(blk@);
                displayid_cap::lemma_capped_displayid_regular(
                    displayid::displayid_content(blk@),
                    *cap,
                );
            }
            let new = build_displayid(&d.did);
            push_bytes(out, &new);
        } else {
            push_bytes(out, blk);
        }
        dropped.append(&mut d.dropped);
        append_notes(notes, &mut d.notes);
    } else {
        push_bytes(out, blk);
        assert(dropped@ =~= old(dropped)@ + extension_dropped(blk@, n, *cap));
        assert(text::texts(notes@) =~= text::texts(old(notes)@) + extension_notes(blk@, n, *cap));
    }
}

/// Appends the notes `more`.
fn append_notes(notes: &mut Vec<String>, more: &mut Vec<String>)
    ensures
        text::texts(final(notes)@) == text::texts(old(notes)@) + text::texts(old(more)@),
{
    notes.append(more);
    assert(text::texts(notes@) =~= text::texts(old(notes)@) + text::texts(old(more)@));
}

/// The highest pixel clock of the timings, in megahertz, rounded up to a multiple of ten.
fn find_highest_clock(ts: &Vec<Timing>) -> (r: Option<u64>)
    ensures
        match r {
            Some(c) => highest_clock(ts@) == Some(c as int),
            None => highest_clock(ts@) is None,
        },
{
    let mut best: Option<u64> = None;
    let mut i: usize = 0;
    while i < ts.len()
        invariant
            i <= ts.len(),
            match best {
                Some(c) => highest_clock(ts@.take(i as int)) == Some(c as int),
                None => highest_clock(ts@.take(i as int)) is None,
            },
        decreases ts.len() - i,
    {
        proof {
            assert(ts@.take(i + 1).drop_last() =~= ts@.take(i as int));
        }
        let hz: u64 = ts[i].pixel_clock_hz;
        let c: u64 = (hz / 10_000_000 + if hz % 10_000_000 != 0 {
            1
        } else {
            0
        }) * 10;
        assert(c == clock_tens(hz));
        best = match best {
            Some(m) => Some(
                if m > c {
                    m
                } else {
                    c
                },
            ),
            None => Some(c),
        };
        i += 1;
    }
    assert(ts@.take(i as int) =~= ts@);
    best
}

/// Lowers the range limits to the cap and to the timings that are left.
fn lower_limits(
    out: &mut Vec<u8>,
    opts: &CapOptions,
    ts: &Vec<Timing>,
    rl: &RangeLimits,
    notes: &mut Vec<String>,
)
    requires
        old(out).len() >= BLOCK,
        opts.max_hz.den > 0,
        rl.descriptor_index < 4,
        rl.v_max_hz <= 510,
    ensures
        final(out)@ == limited(old(out)@, *opts, ts@, *rl),
        text::texts(final(notes)@) == text::texts(old(notes)@) + limit_notes(*opts, ts@, *rl),
{
    let o: usize = 54 + 18 * rl.descriptor_index;
    let hz: u32 = opts.max_hz.floor();
    if hz < rl.v_max_hz {
        let flags: u8 = out[o + 4] - out[o + 4] % 4;
        if hz <= 255 {
            out.set(o + 4, flags);
            out.set(o + 6, hz as u8);
        } else {
            out.set(o + 4, flags + 2);
            out.set(o + 6, (hz - 255) as u8);
        }
        let mut s = String::new();
        s.append("range limits: max vertical rate ");
        push_dec(&mut s, rl.v_max_hz as u128);
        s.append(" -> ");
        push_dec(&mut s, hz as u128);
        s.append(" Hz");
        assert(s@ =~= limit_notes(*opts, ts@, *rl)[0]);
        push_note(notes, s);
    }
    let limit: u64 = rl.max_pixel_clock_mhz as u64;
    let wanted: u64 = match opts.max_pixel_clock_mhz {
        Some(m) => m as u64,
        None => match find_highest_clock(ts) {
            Some(c) => c,
            None => limit,
        },
    };
    let clock: u64 = if wanted <= limit {
        wanted
    } else {
        limit
    };
    if clock != limit && clock > 0 {
        let step: u64 = if clock / 10 <= 255 {
            clock / 10
        } else {
            255
        };
        out.set(o + 9, step as u8);
        let mut s = String::new();
        s.append("range limits: max pixel clock ");
        push_dec(&mut s, limit as u128);
        s.append(" -> ");
        push_dec(&mut s, (step * 10) as u128);
        s.append(" MHz");
        assert(s@ =~= limit_notes(*opts, ts@, *rl).last());
        push_note(notes, s);
    }
    assert(text::texts(notes@) =~= text::texts(old(notes)@) + limit_notes(*opts, ts@, *rl));
}

/// Whether the bytes are the same.
fn same_bytes(a: &Vec<u8>, b: &[u8]) -> (r: bool)
    ensures
        r == (a@ == b@),
{
    if a.len() != b.len() {
        return false;
    }
    let mut i: usize = 0;
    while i < a.len()
        invariant
            i <= a.len() == b.len(),
            forall|k: int| 0 <= k < i ==> a@[k] == b@[k],
        decreases a.len() - i,
    {
        if a[i] != b[i] {
            assert(a@[i as int] != b@[i as int]);
            return false;
        }
        i += 1;
    }
    assert(a@ =~= b@);
    true
}

/// Lowers the range limits if a timing went, and sets the checksum of the base block.
fn settle(
    bytes: &[u8],
    out: Vec<u8>,
    dropped: Vec<Timing>,
    notes: Vec<String>,
    opts: &CapOptions,
) -> (res: CapResult)
    requires
        opts.max_hz.den > 0,
        out.len() >= 128,
        out.len() % 128 == 0,
        block::has_header(out@),
        forall|n: int| 1 <= n < block::block_count(out@) ==> block::block_ok(out@, n),
    ensures
        res@ == settled(bytes@, out@, dropped@, text::texts(notes@), *opts),
        block::valid(res.bytes@),
        res.bytes.len() == out.len(),
{
    let ghost mid = out@;
    let ghost noted = text::texts(notes@);
    let mut out = out;
    let mut notes = notes;
    let mut limits: Option<RangeLimits> = None;
    let mut timings: Vec<Timing> = Vec::new();
    let mut max_timing: Option<Timing> = None;
    if let Ok(after) = parse(&out) {
        max_timing = match after.max_timing() {
            Some(t) => Some(*t),
            None => None,
        };
        limits = after.range_limits;
        timings = after.timings;
    }
    assert(limits == edid::range_limits(mid, 4));
    assert(timings@ == edid::all_timings(mid));
    if let Some(rl) = limits {
        if dropped.len() > 0 {
            proof {
                lemma_last_tagged(mid, 0xfd, 4);
            }
            lower_limits(&mut out, opts, &timings, &rl, &mut notes);
            proof {
                lemma_limited_shape(mid, *opts, timings@, rl);
                assert forall|n: int| 1 <= n < block::block_count(out@) implies block::block_ok(
                    out@,
                    n,
                ) by {
                    assert(block::block_at(out@, n) == block::block_at(mid, n));
                    assert(block::block_ok(mid, n));
                }
            }
        }
    }
    let ghost end = out@;
    proof {
        lemma_sealed_valid(end);
        assert(text::texts(notes@) =~= settled(bytes@, mid, dropped@, noted, *opts).notes);
    }
    fix_checksum(out.as_mut_slice());
    let unchanged = same_bytes(&out, bytes);
    let res = CapResult { bytes: out, dropped, notes, max_timing, unchanged };
    assert(res@ =~= settled(bytes@, mid, dropped@, noted, *opts));
    res
}

/// Produce a copy of `bytes` that advertises no timing above `opts.max_hz`; rates within half
/// a hertz of the cap are kept (144.05 Hz still counts as 144 Hz).
///
/// Every touched block gets its checksum recomputed. The base-block preferred timing is never
/// removed; if it is above the cap an error is returned instead. Where the data blocks of a
/// CTA-861 block run into its detailed timings, what stays of them may be too long for a
/// block; see [`can_cap`].
pub fn cap(bytes: &[u8], opts: &CapOptions) -> (r: Result<CapResult, EdidError>)
    requires
        cap_fits(bytes@, *opts),
    ensures
        match r {
            Ok(res) => {
                &&& accepted(bytes@, *opts)
                &&& res@ == cap_content(bytes@, *opts)
                &&& block::valid(res.bytes@)
                &&& res.bytes.len() == bytes.len()
            },
            Err(EdidError::BadCap) => !opts.max_hz.positive(),
            Err(EdidError::PreferredExceedsCap(t)) => {
                &&& opts.max_hz.positive()
                &&& block::valid(bytes@)
                &&& preferred_above(bytes@, opts.max_hz)
                &&& edid::base_timing(bytes@, 0) == Some(t)
            },
            Err(e) => opts.max_hz.positive() && block::verdict(bytes@, Err(e)),
        },
{
    if !opts.max_hz.is_positive() {
        return Err(EdidError::BadCap);
    }
    if let Err(e) = validate(bytes) {
        return Err(e);
    }
    let cap = opts.max_hz;
    let mut dropped: Vec<Timing> = Vec::new();
    let mut notes: Vec<String> = Vec::new();
    let mut out: Vec<u8> = match cap_base(bytes, &cap, &mut dropped) {
        Ok(base) => base,
        Err(e) => return Err(e),
    };
    let count: usize = bytes.len() / BLOCK;
    let mut n: usize = 1;
    assert(text::texts(notes@) =~= notes_to(bytes@, cap, 1));
    while n < count
        invariant
            1 <= n <= count,
            count == bytes.len() / 128,
            cap == opts.max_hz,
            accepted(bytes@, *opts),
            cap_fits(bytes@, *opts),
            out@ == trimmed_to(bytes@, cap, n as nat),
            dropped@ == dropped_to(bytes@, cap, n as nat),
            text::texts(notes@) == notes_to(bytes@, cap, n as nat),
        decreases count - n,
    {
        let blk = &bytes[n * BLOCK..n * BLOCK + BLOCK];
        assert(blk@ == block::block_at(bytes@, n as int));
        cap_extension(blk, n, &cap, &mut out, &mut dropped, &mut notes);
        n += 1;
    }
    proof {
        lemma_trimmed_shape(bytes@, *opts);
    }
    Ok(settle(bytes, out, dropped, notes, opts))
}

/// What is left without the timings above the cap is framed like an EDID, and only the
/// checksum of its base block may be wrong.
pub proof fn lemma_trimmed_shape(bytes: Seq<u8>, opts: CapOptions)
    requires
        accepted(bytes, opts),
        cap_fits(bytes, opts),
    ensures
        trimmed(bytes, opts.max_hz).len() == bytes.len(),
        block::has_header(trimmed(bytes, opts.max_hz)),
        forall|n: int|
            1 <= n < block::block_count(bytes) ==> block::block_ok(
                trimmed(bytes, opts.max_hz),
                n,
            ),
{
    let cap = opts.max_hz;
    let count = block::block_count(bytes);
    let out = trimmed(bytes, cap);
    lemma_trimmed_to(bytes, cap, count);
    assert forall|k: int| 0 <= k < 8 implies out[k] == bytes[k] by {
        assert(block::block_at(out, 0)[k] == out[k]);
    }
    assert forall|n: int| 1 <= n < count implies block::block_ok(out, n) by {
        let blk = block::block_at(bytes, n);
        assert(block::block_ok(bytes, n));
        lemma_capped_extension(blk, n as usize, cap);
        assert(block::block_at(out, n) == capped_extension(blk, n as usize, cap));
    }
}

/// Lowering the range limits touches three bytes of one descriptor.
pub proof fn lemma_limited_shape(bytes: Seq<u8>, opts: CapOptions, ts: Seq<Timing>, rl: RangeLimits)
    requires
        bytes.len() >= 128,
        rl.descriptor_index < 4,
    ensures
        limited(bytes, opts, ts, rl).len() == bytes.len(),
        forall|k: int|
            0 <= k < bytes.len() && k != slot(rl.descriptor_index) + 4 && k != slot(
                rl.descriptor_index,
            ) + 6 && k != slot(rl.descriptor_index) + 9 ==> limited(bytes, opts, ts, rl)[k]
                == bytes[k],
        block::has_header(bytes) ==> block::has_header(limited(bytes, opts, ts, rl)),
        forall|n: int|
            1 <= n < block::block_count(bytes) ==> #[trigger] block::block_at(
                limited(bytes, opts, ts, rl),
                n,
            ) == block::block_at(bytes, n),
{
    let out = limited(bytes, opts, ts, rl);
    assert forall|n: int| 1 <= n < block::block_count(bytes) implies #[trigger] block::block_at(
        out,
        n,
    ) == block::block_at(bytes, n) by {
        assert(block::block_at(out, n) =~= block::block_at(bytes, n));
    }
}

} // verus!
