//! Decoding an EDID.

use vstd::prelude::*;

use crate::block::{check_header, EdidError, BLOCK};
use crate::cta::{descriptor_at, parse_cta, push_cta_timings};
use crate::displayid::{parse_displayid, push_displayid_timings};
use crate::text::{push_dec, push_hex, push_hex_bytes, trimmed_chars};
use crate::timing::{parse_dtd, Timing, TimingSource};
use crate::{block, cta, displayid, text, timing};

verus! {

/// The Display Range Limits descriptor (tag 0xFD) of the base block.
#[derive(Debug, Clone, Copy, PartialEq, Eq, Structural)]
pub struct RangeLimits {
    pub descriptor_index: usize,
    pub v_min_hz: u32,
    pub v_max_hz: u32,
    pub h_min_khz: u32,
    pub h_max_khz: u32,
    pub max_pixel_clock_mhz: u32,
}

/// Decoded summary of an EDID.
#[derive(Debug, Clone)]
pub struct EdidInfo {
    /// Hex of bytes 8..12 (manufacturer + product code), a stable identifier.
    pub id: String,
    pub manufacturer: String,
    pub product_code: u16,
    pub serial: u32,
    pub week: u8,
    pub year: u16,
    pub version: String,
    pub name: Option<String>,
    pub serial_string: Option<String>,
    pub extension_count: u8,
    pub length: usize,
    pub blocks: Vec<String>,
    pub range_limits: Option<RangeLimits>,
    pub timings: Vec<Timing>,
}

/// What an EDID says.
#[verifier::ext_equal]
pub struct EdidContent {
    pub id: Seq<char>,
    pub manufacturer: Seq<char>,
    pub product_code: u16,
    pub serial: u32,
    pub week: u8,
    pub year: u16,
    pub version: Seq<char>,
    pub name: Option<Seq<char>>,
    pub serial_string: Option<Seq<char>>,
    pub extension_count: u8,
    pub length: nat,
    pub blocks: Seq<Seq<char>>,
    pub range_limits: Option<RangeLimits>,
    pub timings: Seq<Timing>,
}

impl View for EdidInfo {
    type V = EdidContent;

    open spec fn view(&self) -> EdidContent {
        EdidContent {
            id: self.id@,
            manufacturer: self.manufacturer@,
            product_code: self.product_code,
            serial: self.serial,
            week: self.week,
            year: self.year,
            version: self.version@,
            name: crate::text::maybe(self.name),
            serial_string: crate::text::maybe(self.serial_string),
            extension_count: self.extension_count,
            length: self.length as nat,
            blocks: text::texts(self.blocks@),
            range_limits: self.range_limits,
            timings: self.timings@,
        }
    }
}

// ---------------------------------------------------------------------------
// The four descriptors of the base block.

/// The descriptor with number `i` (0 to 3) of the base block.
pub open spec fn descriptor(bytes: Seq<u8>, i: int) -> Seq<u8> {
    bytes.subrange(54 + 18 * i, 54 + 18 * i + 18)
}

/// Whether the descriptor is no timing but a display descriptor with the given tag.
pub open spec fn is_tagged(d: Seq<u8>, tag: u8) -> bool {
    d[0] == 0 && d[1] == 0 && d[3] == tag
}

/// The last of the first `n` descriptors that is a display descriptor with the given tag.
pub open spec fn last_tagged(bytes: Seq<u8>, tag: u8, n: nat) -> Option<nat>
    decreases n,
{
    if n == 0 {
        None
    } else if is_tagged(descriptor(bytes, n - 1), tag) {
        Some((n - 1) as nat)
    } else {
        last_tagged(bytes, tag, (n - 1) as nat)
    }
}

/// The bytes up to the first line feed or zero.
pub open spec fn up_to_end(s: Seq<u8>) -> Seq<u8>
    decreases s.len(),
{
    if s.len() == 0 || s[0] == 0x0a || s[0] == 0 {
        Seq::empty()
    } else {
        seq![s[0]] + up_to_end(s.drop_first())
    }
}

/// The text of a display descriptor, one character for each byte.
pub open spec fn descriptor_string(d: Seq<u8>) -> Seq<char> {
    text::trimmed(up_to_end(d.subrange(5, 18)).map_values(|b: u8| b as char))
}

/// The text of the last descriptor with the given tag, if there is one.
pub open spec fn tagged_string(bytes: Seq<u8>, tag: u8, n: nat) -> Option<Seq<char>> {
    match last_tagged(bytes, tag, n) {
        Some(i) => Some(descriptor_string(descriptor(bytes, i as int))),
        None => None,
    }
}

/// What a range limits descriptor says. Four flags add 255 to a rate: the maximum has one of
/// its own, the minimum needs both of its pair.
pub open spec fn range_limits_of(d: Seq<u8>, index: int) -> RangeLimits {
    let flags = d[4] as int;
    RangeLimits {
        descriptor_index: index as usize,
        v_min_hz: (d[5] + if flags % 4 == 3 {
            255int
        } else {
            0
        }) as u32,
        v_max_hz: (d[6] + if (flags / 2) % 2 == 1 {
            255int
        } else {
            0
        }) as u32,
        h_min_khz: (d[7] + if (flags / 4) % 4 == 3 {
            255int
        } else {
            0
        }) as u32,
        h_max_khz: (d[8] + if (flags / 8) % 2 == 1 {
            255int
        } else {
            0
        }) as u32,
        max_pixel_clock_mhz: (d[9] * 10) as u32,
    }
}

/// What the last range limits descriptor says, if there is one.
pub open spec fn range_limits(bytes: Seq<u8>, n: nat) -> Option<RangeLimits> {
    match last_tagged(bytes, 0xfd, n) {
        Some(i) => Some(range_limits_of(descriptor(bytes, i as int), i as int)),
        None => None,
    }
}

/// The timing in slot `i` of the base block, if there is one.
pub open spec fn base_timing(bytes: Seq<u8>, i: int) -> Option<Timing> {
    timing::dtd_timing(descriptor(bytes, i), TimingSource::BaseDtd { index: i as usize })
}

/// The timings among the first `n` descriptors.
pub open spec fn base_timings(bytes: Seq<u8>, n: nat) -> Seq<Timing>
    decreases n,
{
    if n == 0 {
        Seq::empty()
    } else {
        let before = base_timings(bytes, (n - 1) as nat);
        match base_timing(bytes, n - 1) {
            Some(t) => before.push(t),
            None => before,
        }
    }
}

// ---------------------------------------------------------------------------
// Extension blocks.

/// The timings that extension block number `n` advertises.
pub open spec fn extension_timings(blk: Seq<u8>, n: usize) -> Seq<Timing> {
    if blk[0] == 0x02 {
        cta::cta_timings(cta::cta_content(blk), n)
    } else if blk[0] == 0x70 {
        displayid::displayid_timings(displayid::displayid_content(blk).blocks, n)
    } else {
        Seq::empty()
    }
}

/// The timings of the extension blocks with a number below `n`.
pub open spec fn extensions_timings(bytes: Seq<u8>, n: nat) -> Seq<Timing>
    decreases n,
{
    if n <= 1 {
        Seq::empty()
    } else {
        extensions_timings(bytes, (n - 1) as nat) + extension_timings(
            block::block_at(bytes, n - 1),
            (n - 1) as usize,
        )
    }
}

/// All timings that an EDID advertises.
pub open spec fn all_timings(bytes: Seq<u8>) -> Seq<Timing> {
    base_timings(bytes, 4) + extensions_timings(bytes, block::block_count(bytes))
}

/// How an extension block is named to a reader.
pub open spec fn extension_name(blk: Seq<u8>) -> Seq<char> {
    if blk[0] == 0x02 {
        "CTA-861 rev "@ + text::dec(blk[1] as nat)
    } else if blk[0] == 0x70 {
        "DisplayID v"@ + text::hex_digits((blk[1] / 16) as nat, 1) + "."@ + text::hex_digits(
            (blk[1] % 16) as nat,
            1,
        )
    } else if blk[0] == 0xf0 {
        "block map"@
    } else {
        "unknown extension 0x"@ + text::hex_digits(blk[0] as nat, 2)
    }
}

/// The names of the base block and of the extension blocks with a number below `n`.
pub open spec fn block_names(bytes: Seq<u8>, n: nat) -> Seq<Seq<char>>
    decreases n,
{
    if n <= 1 {
        seq!["base"@]
    } else {
        block_names(bytes, (n - 1) as nat).push(extension_name(block::block_at(bytes, n - 1)))
    }
}

/// The names of all blocks, a truncated last one included.
pub open spec fn all_block_names(bytes: Seq<u8>) -> Seq<Seq<char>> {
    let whole = block_names(bytes, block::block_count(bytes));
    if bytes.len() % 128 != 0 {
        whole.push("truncated block ("@ + text::dec(bytes.len() % 128) + " bytes)"@)
    } else {
        whole
    }
}

// ---------------------------------------------------------------------------
// The whole.

/// The letter that five bits write, 1 for `A`.
pub open spec fn letter(bits: int) -> char {
    ((bits % 32 + 64) as u8) as char
}

/// The three letters of the manufacturer.
pub open spec fn manufacturer_of(bytes: Seq<u8>) -> Seq<char> {
    let code = 256 * bytes[8] + bytes[9];
    seq![letter(code / 1024), letter(code / 32), letter(code)]
}

/// What the bytes of an EDID say.
pub open spec fn edid_content(bytes: Seq<u8>) -> EdidContent {
    EdidContent {
        id: text::hex_text(bytes.subrange(8, 12)),
        manufacturer: manufacturer_of(bytes),
        product_code: (bytes[10] + 256 * bytes[11]) as u16,
        serial: (bytes[12] + 256 * bytes[13] + 65536 * bytes[14] + 16777216 * bytes[15]) as u32,
        week: bytes[16],
        year: (1990 + bytes[17]) as u16,
        version: text::dec(bytes[18] as nat) + "."@ + text::dec(bytes[19] as nat),
        name: tagged_string(bytes, 0xfc, 4),
        serial_string: tagged_string(bytes, 0xff, 4),
        extension_count: bytes[126],
        length: bytes.len(),
        blocks: all_block_names(bytes),
        range_limits: range_limits(bytes, 4),
        timings: all_timings(bytes),
    }
}

/// The text of a display descriptor.
pub fn descriptor_text(d: &[u8]) -> (s: String)
    requires
        d.len() >= 18,
    ensures
        s@ == descriptor_string(d@),
{
    let ghost body = d@.subrange(5, 18);
    let mut cs: Vec<char> = Vec::new();
    let mut i: usize = 5;
    assert(body.skip(0) =~= body);
    assert(Seq::<char>::empty() + up_to_end(body).map_values(|b: u8| b as char) =~= up_to_end(
        body,
    ).map_values(|b: u8| b as char));
    while i < 18 && d[i] != 0x0a && d[i] != 0
        invariant
            5 <= i <= 18,
            d.len() >= 18,
            body == d@.subrange(5, 18),
            cs@ + up_to_end(body.skip(i - 5)).map_values(|b: u8| b as char) == up_to_end(
                body,
            ).map_values(|b: u8| b as char),
        decreases 18 - i,
    {
        proof {
            let rest = body.skip(i - 5);
            assert(rest[0] == d@[i as int]);
            assert(rest.drop_first() =~= body.skip(i + 1 - 5));
            assert(cs@ + (seq![rest[0]] + up_to_end(rest.drop_first())).map_values(
                |b: u8| b as char,
            ) =~= cs@.push(rest[0] as char) + up_to_end(rest.drop_first()).map_values(
                |b: u8| b as char,
            ));
        }
        cs.push(d[i] as char);
        i += 1;
    }
    assert(up_to_end(body.skip(i - 5)).map_values(|b: u8| b as char) =~= Seq::<char>::empty());
    assert(cs@ =~= up_to_end(body).map_values(|b: u8| b as char));
    trimmed_chars(&cs)
}

/// Reads a range limits descriptor.
pub fn parse_range_limits(d: &[u8], index: usize) -> (r: RangeLimits)
    requires
        d.len() >= 18,
    ensures
        r == range_limits_of(d@, index as int),
{
    let flags: u8 = d[4];
    let v_off: u32 = if (flags / 2) % 2 == 1 {
        255
    } else {
        0
    };
    let v_min_off: u32 = if flags % 4 == 3 {
        255
    } else {
        0
    };
    let h_off: u32 = if (flags / 8) % 2 == 1 {
        255
    } else {
        0
    };
    let h_min_off: u32 = if (flags / 4) % 4 == 3 {
        255
    } else {
        0
    };
    RangeLimits {
        descriptor_index: index,
        v_min_hz: d[5] as u32 + v_min_off,
        v_max_hz: d[6] as u32 + v_off,
        h_min_khz: d[7] as u32 + h_min_off,
        h_max_khz: d[8] as u32 + h_off,
        max_pixel_clock_mhz: d[9] as u32 * 10,
    }
}

/// How an extension block is named to a reader.
fn name_extension(blk: &[u8]) -> (s: String)
    requires
        blk.len() >= BLOCK,
    ensures
        s@ == extension_name(blk@),
{
    let mut s = String::new();
    if blk[0] == 0x02 {
        s.append("CTA-861 rev ");
        push_dec(&mut s, blk[1] as u128);
    } else if blk[0] == 0x70 {
        s.append("DisplayID v");
        push_hex(&mut s, (blk[1] / 16) as u64, 1);
        s.append(".");
        push_hex(&mut s, (blk[1] % 16) as u64, 1);
    } else if blk[0] == 0xf0 {
        s.append("block map");
    } else {
        s.append("unknown extension 0x");
        push_hex(&mut s, blk[0] as u64, 2);
    }
    assert(s@ =~= extension_name(blk@));
    s
}

/// Appends the timings that extension block number `n` advertises.
fn push_extension_timings(blk: &[u8], n: usize, out: &mut Vec<Timing>)
    requires
        blk.len() >= BLOCK,
    ensures
        final(out)@ == old(out)@ + extension_timings(blk@, n),
{
    if blk[0] == 0x02 {
        push_cta_timings(&parse_cta(blk), n, out);
    } else if blk[0] == 0x70 {
        push_displayid_timings(&parse_displayid(blk), n, out);
    } else {
        assert(out@ =~= old(out)@ + extension_timings(blk@, n));
    }
}

/// The bytes in hexadecimal.
pub fn hex(bytes: &[u8]) -> (s: String)
    ensures
        s@ == text::hex_text(bytes@),
{
    let mut s = String::new();
    push_hex_bytes(&mut s, bytes);
    assert(s@ =~= text::hex_text(bytes@));
    s
}

/// Identifier (hex of bytes 8..12) of an EDID, if long enough.
pub open spec fn id_text(bytes: Seq<u8>) -> Option<Seq<char>> {
    if bytes.len() >= 12 {
        Some(text::hex_text(bytes.subrange(8, 12)))
    } else {
        None
    }
}

/// Identifier (hex of bytes 8..12) of an EDID, if long enough.
pub fn id_of(bytes: &[u8]) -> (id: Option<String>)
    ensures
        text::maybe(id) == id_text(bytes@),
{
    if bytes.len() >= 12 {
        Some(hex(&bytes[8..12]))
    } else {
        None
    }
}

/// The letter that five bits write.
fn letter_of(bits: u16) -> (c: char)
    ensures
        c == letter(bits as int),
{
    ((bits % 32) as u8 + 64) as char
}

/// Parse an EDID (base block plus extensions). Checksums are *not* required to be valid here
/// so that damaged EDIDs can still be inspected; use [`crate::block::validate`] for strict
/// checking.
pub fn parse(bytes: &[u8]) -> (r: Result<EdidInfo, EdidError>)
    ensures
        match r {
            Ok(info) => {
                &&& bytes.len() >= 128
                &&& block::has_header(bytes@)
                &&& info@ == edid_content(bytes@)
            },
            Err(e) => {
                ||| bytes.len() < 128 && e == EdidError::TooShort(bytes.len())
                ||| bytes.len() >= 128 && !block::has_header(bytes@) && e == EdidError::BadHeader
            },
        },
{
    if bytes.len() < BLOCK {
        return Err(EdidError::TooShort(bytes.len()));
    }
    if !check_header(bytes) {
        return Err(EdidError::BadHeader);
    }
    let code: u16 = 256 * (bytes[8] as u16) + bytes[9] as u16;
    let mut manufacturer = String::new();
    manufacturer.push(letter_of(code / 1024));
    manufacturer.push(letter_of(code / 32));
    manufacturer.push(letter_of(code));
    assert(manufacturer@ =~= manufacturer_of(bytes@));
    let mut version = String::new();
    push_dec(&mut version, bytes[18] as u128);
    version.append(".");
    push_dec(&mut version, bytes[19] as u128);
    assert(version@ =~= text::dec(bytes@[18] as nat) + "."@ + text::dec(bytes@[19] as nat));
    let mut name: Option<String> = None;
    let mut serial_string: Option<String> = None;
    let mut limits: Option<RangeLimits> = None;
    let mut timings: Vec<Timing> = Vec::new();
    let mut i: usize = 0;
    while i < 4
        invariant
            i <= 4,
            bytes.len() >= 128,
            crate::text::maybe(name) == tagged_string(bytes@, 0xfc, i as nat),
            crate::text::maybe(serial_string) == tagged_string(bytes@, 0xff, i as nat),
            limits == range_limits(bytes@, i as nat),
            timings@ == base_timings(bytes@, i as nat),
        decreases 4 - i,
    {
        let d = descriptor_at(bytes, 54 + 18 * i);
        assert(d@ == descriptor(bytes@, i as int));
        if d[0] == 0 && d[1] == 0 {
            if d[3] == 0xfc {
                name = Some(descriptor_text(d.as_slice()));
            } else if d[3] == 0xff {
                serial_string = Some(descriptor_text(d.as_slice()));
            } else if d[3] == 0xfd {
                limits = Some(parse_range_limits(d.as_slice(), i));
            }
        } else if let Some(t) = parse_dtd(d.as_slice(), TimingSource::BaseDtd { index: i }) {
            timings.push(t);
        }
        i += 1;
    }
    let mut blocks: Vec<String> = Vec::new();
    blocks.push("base".to_string());
    assert(text::texts(blocks@) =~= block_names(bytes@, 1));
    let ghost base = timings@;
    let count: usize = bytes.len() / BLOCK;
    let mut n: usize = 1;
    assert(timings@ =~= base + extensions_timings(bytes@, 1));
    while n < count
        invariant
            1 <= n <= count,
            count == bytes.len() / 128,
            text::texts(blocks@) == block_names(bytes@, n as nat),
            timings@ == base + extensions_timings(bytes@, n as nat),
        decreases count - n,
    {
        let blk = &bytes[n * BLOCK..n * BLOCK + BLOCK];
        assert(blk@ == block::block_at(bytes@, n as int));
        let name = name_extension(blk);
        let ghost before = text::texts(blocks@);
        blocks.push(name);
        assert(text::texts(blocks@) =~= before.push(name@));
        push_extension_timings(blk, n, &mut timings);
        n += 1;
        assert(timings@ =~= base + extensions_timings(bytes@, n as nat));
    }
    if bytes.len() % BLOCK != 0 {
        let mut s = String::new();
        s.append("truncated block (");
        push_dec(&mut s, (bytes.len() % BLOCK) as u128);
        s.append(" bytes)");
        assert(s@ =~= "truncated block ("@ + text::dec(bytes@.len() % 128) + " bytes)"@);
        let ghost before = text::texts(blocks@);
        blocks.push(s);
        assert(text::texts(blocks@) =~= before.push(s@));
    }
    let info = EdidInfo {
        id: hex(&bytes[8..12]),
        manufacturer,
        product_code: bytes[10] as u16 + 256 * (bytes[11] as u16),
        serial: bytes[12] as u32 + 256 * (bytes[13] as u32) + 65536 * (bytes[14] as u32) + 16777216
            * (bytes[15] as u32),
        week: bytes[16],
        year: 1990 + bytes[17] as u16,
        version,
        name,
        serial_string,
        extension_count: bytes[126],
        length: bytes.len(),
        blocks,
        range_limits: limits,
        timings,
    };
    assert(info@ =~= edid_content(bytes@));
    Ok(info)
}

// ---------------------------------------------------------------------------
// The summary.

/// The progressive timing with the highest active pixel rate; of several, the last.
pub open spec fn highest(ts: Seq<Timing>) -> Option<Timing>
    decreases ts.len(),
{
    if ts.len() == 0 {
        None
    } else {
        let t = ts.last();
        match highest(ts.drop_last()) {
            Some(m) if t.interlaced || t.active_rate().below(m.active_rate()) => Some(m),
            Some(m) => Some(t),
            None if t.interlaced => None,
            None => Some(t),
        }
    }
}

/// Whether `m` stands at `k`, and every progressive timing behind it has a lower rate.
pub open spec fn is_last_highest(ts: Seq<Timing>, m: Timing, k: int) -> bool {
    &&& 0 <= k < ts.len()
    &&& ts[k] == m
    &&& forall|i: int|
        k < i < ts.len() && !(#[trigger] ts[i]).interlaced ==> ts[i].active_rate().below(
            m.active_rate(),
        )
}

/// The highest timing is one of the progressive timings, no progressive timing has a higher
/// rate, of several with its rate it is the last, and there is none only when there is no
/// progressive timing.
pub proof fn law_highest(ts: Seq<Timing>)
    ensures
        match highest(ts) {
            Some(m) => {
                &&& ts.contains(m)
                &&& !m.interlaced
                &&& exists|k: int| is_last_highest(ts, m, k)
                &&& forall|i: int|
                    0 <= i < ts.len() && !(#[trigger] ts[i]).interlaced ==> !m.active_rate().below(
                        ts[i].active_rate(),
                    )
            },
            None => forall|i: int| 0 <= i < ts.len() ==> (#[trigger] ts[i]).interlaced,
        },
    decreases ts.len(),
{
    if ts.len() > 0 {
        let before = ts.drop_last();
        let t = ts.last();
        law_highest(before);
        match highest(before) {
            Some(m) => {
                let k = choose|k: int| 0 <= k < before.len() && before[k] == m;
                assert(ts[k] == m);
                let best = highest(ts)->0;
                assert(ts[ts.len() - 1] == t);
                let j = choose|j: int| is_last_highest(before, m, j);
                if best == t {
                    assert(is_last_highest(ts, t, ts.len() - 1));
                } else {
                    assert forall|i: int| j < i < ts.len() && !(#[trigger] ts[i]).interlaced implies
                        ts[i].active_rate().below(m.active_rate()) by {
                        if i < before.len() {
                            assert(before[i] == ts[i]);
                        }
                    }
                    assert(is_last_highest(ts, m, j));
                }
                assert forall|i: int| 0 <= i < ts.len() && !(#[trigger] ts[i]).interlaced implies
                    !best.active_rate().below(ts[i].active_rate()) by {
                    if i < before.len() {
                        assert(before[i] == ts[i]);
                        if best == t {
                            crate::rate::lemma_not_below_transitive(
                                t.active_rate(),
                                m.active_rate(),
                                ts[i].active_rate(),
                            );
                        }
                    }
                }
            },
            None => {
                assert(ts[ts.len() - 1] == t);
                if !t.interlaced {
                    assert(is_last_highest(ts, t, ts.len() - 1));
                }
                assert forall|i: int| 0 <= i < before.len() implies (#[trigger] ts[i]).interlaced by {
                    assert(before[i] == ts[i]);
                }
            },
        }
    }
}

impl EdidContent {
    /// Human readable label: the name, or else the manufacturer and the product code.
    pub open spec fn label(self) -> Seq<char> {
        match self.name {
            Some(n) if n.len() > 0 => n,
            _ => self.manufacturer + " 0x"@ + text::hex_digits(self.product_code as nat, 4),
        }
    }
}

impl EdidInfo {
    /// The (progressive) timing with the highest active pixel rate.
    pub fn max_timing(&self) -> (r: Option<&Timing>)
        ensures
            match r {
                Some(t) => highest(self@.timings) == Some(*t),
                None => highest(self@.timings) is None,
            },
    {
        let mut best: Option<usize> = None;
        let mut i: usize = 0;
        let ghost ts = self.timings@;
        while i < self.timings.len()
            invariant
                i <= self.timings.len(),
                ts == self.timings@,
                match best {
                    Some(k) => k < i && highest(ts.take(i as int)) == Some(ts[k as int]),
                    None => highest(ts.take(i as int)) is None,
                },
            decreases self.timings.len() - i,
        {
            proof {
                assert(ts.take(i + 1).drop_last() =~= ts.take(i as int));
            }
            let t = self.timings[i];
            if !t.interlaced {
                match best {
                    Some(k) => {
                        let m = self.timings[k].active_pixel_rate();
                        if !t.active_pixel_rate().is_below(&m) {
                            best = Some(i);
                        }
                    },
                    None => {
                        best = Some(i);
                    },
                }
            }
            i += 1;
        }
        assert(ts.take(i as int) =~= ts);
        match best {
            Some(k) => Some(&self.timings[k]),
            None => None,
        }
    }

    /// Human readable label, e.g. `TEST 4K160` or `TST 0x0160`.
    pub fn label(&self) -> (s: String)
        ensures
            s@ == self@.label(),
    {
        if let Some(n) = &self.name {
            if !n.as_str().is_empty() {
                return n.clone();
            }
        }
        let mut s = self.manufacturer.clone();
        s.append(" 0x");
        push_hex(&mut s, self.product_code as u64, 4);
        s
    }
}

} // verus!
