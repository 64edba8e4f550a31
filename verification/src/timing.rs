//! Video timings and the descriptors they are written in.

use vstd::prelude::*;

use crate::rate::{Hz, PixelRate};
use crate::text::push_dec;

verus! {

/// Where a timing was found inside the EDID.
#[derive(Debug, Clone, Copy, PartialEq, Eq, Structural)]
pub enum TimingSource {
    BaseDtd { index: usize },
    CtaDtd { block: usize, index: usize },
    CtaVic { block: usize, vic: u8 },
    DisplayId { block: usize, index: usize },
}

impl TimingSource {
    /// How the source is named to a reader.
    pub open spec fn text(self) -> Seq<char> {
        match self {
            TimingSource::BaseDtd { index } => "base DTD #"@ + crate::text::dec(
                (index + 1) as nat,
            ),
            TimingSource::CtaDtd { block, index } => "CTA DTD #"@ + crate::text::dec(
                (index + 1) as nat,
            ) + " (block "@ + crate::text::dec(block as nat) + ")"@,
            TimingSource::CtaVic { block, vic } => "CTA VIC "@ + crate::text::dec(vic as nat)
                + " (block "@ + crate::text::dec(block as nat) + ")"@,
            TimingSource::DisplayId { block, index } => "DisplayID timing #"@ + crate::text::dec(
                (index + 1) as nat,
            ) + " (block "@ + crate::text::dec(block as nat) + ")"@,
        }
    }

    /// How the source is named to a reader.
    pub fn to_text(&self) -> (s: String)
        ensures
            s@ == self.text(),
    {
        let mut s = String::new();
        match self {
            TimingSource::BaseDtd { index } => {
                s.append("base DTD #");
                push_dec(&mut s, *index as u128 + 1);
            },
            TimingSource::CtaDtd { block, index } => {
                s.append("CTA DTD #");
                push_dec(&mut s, *index as u128 + 1);
                push_block(&mut s, *block);
            },
            TimingSource::CtaVic { block, vic } => {
                s.append("CTA VIC ");
                push_dec(&mut s, *vic as u128);
                push_block(&mut s, *block);
            },
            TimingSource::DisplayId { block, index } => {
                s.append("DisplayID timing #");
                push_dec(&mut s, *index as u128 + 1);
                push_block(&mut s, *block);
            },
        }
        assert(s@ =~= self.text());
        s
    }
}

/// Appends the number of a block, in brackets.
fn push_block(s: &mut String, block: usize)
    ensures
        final(s)@ == old(s)@ + " (block "@ + crate::text::dec(block as nat) + ")"@,
{
    s.append(" (block ");
    push_dec(s, block as u128);
    s.append(")");
}

/// One video timing advertised by the EDID.
#[derive(Debug, Clone, Copy, PartialEq, Eq, Structural)]
pub struct Timing {
    pub h_active: u32,
    pub v_active: u32,
    pub h_total: u32,
    pub v_total: u32,
    pub pixel_clock_hz: u64,
    pub refresh_hz: Hz,
    pub interlaced: bool,
    pub source: TimingSource,
}

/// Frames per second: the pixel clock over the pixels of a whole frame, blanking
/// included; zero for an empty frame.
pub open spec fn refresh(pixel_clock_hz: u64, h_total: u32, v_total: u32) -> Hz {
    if h_total * v_total > 0 {
        Hz { num: pixel_clock_hz, den: (h_total * v_total) as u64 }
    } else {
        Hz { num: 0, den: 1 }
    }
}

/// The timing with these dimensions, whose refresh rate follows from them.
pub open spec fn timing(
    h_active: u32,
    v_active: u32,
    h_total: u32,
    v_total: u32,
    pixel_clock_hz: u64,
    interlaced: bool,
    source: TimingSource,
) -> Timing {
    Timing {
        h_active,
        v_active,
        h_total,
        v_total,
        pixel_clock_hz,
        refresh_hz: refresh(pixel_clock_hz, h_total, v_total),
        interlaced,
        source,
    }
}

/// A timing made of its dimensions has a refresh rate with a positive denominator.
pub proof fn lemma_timing_rate(
    h_active: u32,
    v_active: u32,
    h_total: u32,
    v_total: u32,
    pixel_clock_hz: u64,
    interlaced: bool,
    source: TimingSource,
)
    ensures
        timing(
            h_active,
            v_active,
            h_total,
            v_total,
            pixel_clock_hz,
            interlaced,
            source,
        ).refresh_hz.den > 0,
{
    assert(0 <= h_total * v_total <= u32::MAX * u32::MAX) by (nonlinear_arith)
        requires
            h_total <= u32::MAX,
            v_total <= u32::MAX,
    ;
}

impl Timing {
    /// The refresh rate is the one that follows from the pixel clock and the totals.
    pub open spec fn consistent(self) -> bool {
        self.refresh_hz == refresh(self.pixel_clock_hz, self.h_total, self.v_total)
    }

    /// The same mode, wherever in the EDID it stands.
    pub open spec fn mode(self) -> Timing {
        Timing { source: TimingSource::BaseDtd { index: 0 }, ..self }
    }

    pub fn new(
        h_active: u32,
        v_active: u32,
        h_total: u32,
        v_total: u32,
        pixel_clock_hz: u64,
        interlaced: bool,
        source: TimingSource,
    ) -> (t: Timing)
        ensures
            t == timing(
                h_active,
                v_active,
                h_total,
                v_total,
                pixel_clock_hz,
                interlaced,
                source,
            ),
            t.consistent(),
            t.refresh_hz.den > 0,
    {
        assert(0 <= h_total * v_total <= u32::MAX * u32::MAX) by (nonlinear_arith)
            requires
                h_total <= u32::MAX,
                v_total <= u32::MAX,
        ;
        let frame: u64 = h_total as u64 * v_total as u64;
        let refresh_hz = if frame > 0 {
            Hz { num: pixel_clock_hz, den: frame }
        } else {
            Hz { num: 0, den: 1 }
        };
        Timing {
            h_active,
            v_active,
            h_total,
            v_total,
            pixel_clock_hz,
            refresh_hz,
            interlaced,
            source,
        }
    }

    /// Pixels per second inside the active area (what the display pipe must render).
    pub open spec fn active_rate(self) -> PixelRate {
        if self.refresh_hz.den == 0 {
            PixelRate { num: 0, den: 1 }
        } else {
            PixelRate {
                num: (self.h_active * self.v_active * self.refresh_hz.num) as u128,
                den: self.refresh_hz.den,
            }
        }
    }

    /// Pixels per second inside the active area (what the display pipe must render).
    pub fn active_pixel_rate(&self) -> (r: PixelRate)
        ensures
            r == self.active_rate(),
            r.den > 0,
            self.refresh_hz.den > 0 ==> r.num == self.h_active * self.v_active
                * self.refresh_hz.num,
    {
        if self.refresh_hz.den == 0 {
            PixelRate { num: 0, den: 1 }
        } else {
            assert(0 <= self.h_active * self.v_active <= u32::MAX * u32::MAX) by (nonlinear_arith)
                requires
                    self.h_active <= u32::MAX,
                    self.v_active <= u32::MAX,
            ;
            let area: u64 = self.h_active as u64 * self.v_active as u64;
            let ticks: u64 = self.refresh_hz.num;
            assert(0 <= area * ticks <= u64::MAX * u64::MAX) by (nonlinear_arith)
                requires
                    area <= u64::MAX,
                    ticks <= u64::MAX,
            ;
            PixelRate { num: area as u128 * ticks as u128, den: self.refresh_hz.den }
        }
    }

    /// Pixels per second including blanking (the link pixel clock).
    pub fn total_pixel_rate(&self) -> (r: PixelRate)
        ensures
            r == (PixelRate { num: self.pixel_clock_hz as u128, den: 1 }),
    {
        PixelRate { num: self.pixel_clock_hz as u128, den: 1 }
    }

    /// How the timing is shown to a reader, given how its refresh rate (in hertz) and its
    /// pixel clock (in megahertz) are shown.
    pub open spec fn text(self, hertz: Seq<char>, megahertz: Seq<char>) -> Seq<char> {
        crate::text::dec(self.h_active as nat) + "x"@ + crate::text::dec(self.v_active as nat) + (
        if self.interlaced {
            "i"@
        } else {
            ""@
        }) + " @ "@ + hertz + " Hz ("@ + megahertz + " MHz, "@ + self.source.text() + ")"@
    }

    /// How the timing is shown to a reader.
    pub fn to_text(&self, hertz: &str, megahertz: &str) -> (s: String)
        ensures
            s@ == self.text(hertz@, megahertz@),
    {
        let mut s = String::new();
        push_dec(&mut s, self.h_active as u128);
        s.append("x");
        push_dec(&mut s, self.v_active as u128);
        if self.interlaced {
            s.append("i");
        } else {
            s.append("");
        }
        s.append(" @ ");
        s.append(hertz);
        s.append(" Hz (");
        s.append(megahertz);
        s.append(" MHz, ");
        let source = self.source.to_text();
        s.append(source.as_str());
        s.append(")");
        assert(s@ =~= self.text(hertz@, megahertz@));
        s
    }
}

// ---------------------------------------------------------------------------
// Detailed timing descriptors.

/// The length of a detailed timing descriptor.
pub const DTD: usize = 18;

/// The timing that a detailed timing descriptor writes; none when its pixel clock is zero.
pub open spec fn dtd_timing(d: Seq<u8>, source: TimingSource) -> Option<Timing> {
    let clock = (d[0] + 256 * d[1]) * 10_000;
    let h_active = d[2] + 256 * (d[4] / 16);
    let h_blank = d[3] + 256 * (d[4] % 16);
    let v_active = d[5] + 256 * (d[7] / 16);
    let v_blank = d[6] + 256 * (d[7] % 16);
    if clock == 0 {
        None
    } else {
        Some(
            timing(
                h_active as u32,
                v_active as u32,
                (h_active + h_blank) as u32,
                (v_active + v_blank) as u32,
                clock as u64,
                d[17] >= 128,
                source,
            ),
        )
    }
}

/// Reads a detailed timing descriptor.
pub fn parse_dtd(d: &[u8], source: TimingSource) -> (t: Option<Timing>)
    requires
        d.len() >= DTD,
    ensures
        t == dtd_timing(d@, source),
        t matches Some(t) ==> t.consistent() && t.refresh_hz.den > 0,
{
    let clock: u64 = (d[0] as u64 + 256 * d[1] as u64) * 10_000;
    if clock == 0 {
        return None;
    }
    let h_active: u32 = d[2] as u32 + 256 * (d[4] as u32 / 16);
    let h_blank: u32 = d[3] as u32 + 256 * (d[4] as u32 % 16);
    let v_active: u32 = d[5] as u32 + 256 * (d[7] as u32 / 16);
    let v_blank: u32 = d[6] as u32 + 256 * (d[7] as u32 % 16);
    Some(
        Timing::new(
            h_active,
            v_active,
            h_active + h_blank,
            v_active + v_blank,
            clock,
            d[17] >= 128,
            source,
        ),
    )
}

// ---------------------------------------------------------------------------
// CTA-861 video identification codes.

/// The progressive formats of CTA-861 by their code:
/// (h_active, v_active, h_total, v_total, pixel clock in Hz).
pub open spec fn vic_format(vic: u8) -> Option<(u32, u32, u32, u32, u64)> {
    match vic {
        1 => Some((640, 480, 800, 525, 25_175_000)),
        2 | 3 => Some((720, 480, 858, 525, 27_000_000)),
        4 => Some((1280, 720, 1650, 750, 74_250_000)),
        16 => Some((1920, 1080, 2200, 1125, 148_500_000)),
        17 | 18 => Some((720, 576, 864, 625, 27_000_000)),
        19 => Some((1280, 720, 1980, 750, 74_250_000)),
        31 => Some((1920, 1080, 2640, 1125, 148_500_000)),
        32 => Some((1920, 1080, 2750, 1125, 74_250_000)),
        33 => Some((1920, 1080, 2640, 1125, 74_250_000)),
        34 => Some((1920, 1080, 2200, 1125, 74_250_000)),
        60 => Some((1280, 720, 3300, 750, 59_400_000)),
        61 => Some((1280, 720, 3960, 750, 74_250_000)),
        62 => Some((1280, 720, 3300, 750, 74_250_000)),
        63 => Some((1920, 1080, 2200, 1125, 297_000_000)),
        64 => Some((1920, 1080, 2640, 1125, 297_000_000)),
        93 => Some((3840, 2160, 5500, 2250, 297_000_000)),
        94 => Some((3840, 2160, 5280, 2250, 297_000_000)),
        95 => Some((3840, 2160, 4400, 2250, 297_000_000)),
        96 => Some((3840, 2160, 5280, 2250, 594_000_000)),
        97 => Some((3840, 2160, 4400, 2250, 594_000_000)),
        98 => Some((4096, 2160, 5500, 2250, 297_000_000)),
        99 => Some((4096, 2160, 5280, 2250, 297_000_000)),
        100 => Some((4096, 2160, 4400, 2250, 297_000_000)),
        101 => Some((4096, 2160, 5280, 2250, 594_000_000)),
        102 => Some((4096, 2160, 4400, 2250, 594_000_000)),
        103 => Some((3840, 2160, 5500, 2250, 297_000_000)),
        104 => Some((3840, 2160, 5280, 2250, 297_000_000)),
        105 => Some((3840, 2160, 4400, 2250, 297_000_000)),
        106 => Some((3840, 2160, 5280, 2250, 594_000_000)),
        107 => Some((3840, 2160, 4400, 2250, 594_000_000)),
        114 | 116 => Some((3840, 2160, 5500, 2250, 594_000_000)),
        115 => Some((4096, 2160, 5500, 2250, 594_000_000)),
        117 | 121 => Some((3840, 2160, 5280, 2250, 1_188_000_000)),
        118 | 122 => Some((3840, 2160, 4400, 2250, 1_188_000_000)),
        119 => Some((4096, 2160, 5280, 2250, 1_188_000_000)),
        120 => Some((4096, 2160, 4400, 2250, 1_188_000_000)),
        194 | 202 => Some((7680, 4320, 11000, 4500, 1_188_000_000)),
        195 | 203 => Some((7680, 4320, 10800, 4400, 1_188_000_000)),
        196 | 204 => Some((7680, 4320, 9000, 4400, 1_188_000_000)),
        197 | 205 => Some((7680, 4320, 11000, 4500, 2_376_000_000)),
        198 | 206 => Some((7680, 4320, 10800, 4400, 2_376_000_000)),
        199 | 207 => Some((7680, 4320, 9000, 4400, 2_376_000_000)),
        200 | 208 => Some((7680, 4320, 10560, 4500, 4_752_000_000)),
        201 | 209 => Some((7680, 4320, 9000, 4400, 4_752_000_000)),
        _ => None,
    }
}

/// CTA-861 short video descriptor table (progressive formats only):
/// (h_active, v_active, h_total, v_total, pixel clock Hz).
pub fn vic_timing(vic: u8) -> (r: Option<(u32, u32, u32, u32, u64)>)
    ensures
        r == vic_format(vic),
{
    match vic {
        1 => Some((640, 480, 800, 525, 25_175_000)),
        2 | 3 => Some((720, 480, 858, 525, 27_000_000)),
        4 => Some((1280, 720, 1650, 750, 74_250_000)),
        16 => Some((1920, 1080, 2200, 1125, 148_500_000)),
        17 | 18 => Some((720, 576, 864, 625, 27_000_000)),
        19 => Some((1280, 720, 1980, 750, 74_250_000)),
        31 => Some((1920, 1080, 2640, 1125, 148_500_000)),
        32 => Some((1920, 1080, 2750, 1125, 74_250_000)),
        33 => Some((1920, 1080, 2640, 1125, 74_250_000)),
        34 => Some((1920, 1080, 2200, 1125, 74_250_000)),
        60 => Some((1280, 720, 3300, 750, 59_400_000)),
        61 => Some((1280, 720, 3960, 750, 74_250_000)),
        62 => Some((1280, 720, 3300, 750, 74_250_000)),
        63 => Some((1920, 1080, 2200, 1125, 297_000_000)),
        64 => Some((1920, 1080, 2640, 1125, 297_000_000)),
        93 => Some((3840, 2160, 5500, 2250, 297_000_000)),
        94 => Some((3840, 2160, 5280, 2250, 297_000_000)),
        95 => Some((3840, 2160, 4400, 2250, 297_000_000)),
        96 => Some((3840, 2160, 5280, 2250, 594_000_000)),
        97 => Some((3840, 2160, 4400, 2250, 594_000_000)),
        98 => Some((4096, 2160, 5500, 2250, 297_000_000)),
        99 => Some((4096, 2160, 5280, 2250, 297_000_000)),
        100 => Some((4096, 2160, 4400, 2250, 297_000_000)),
        101 => Some((4096, 2160, 5280, 2250, 594_000_000)),
        102 => Some((4096, 2160, 4400, 2250, 594_000_000)),
        103 => Some((3840, 2160, 5500, 2250, 297_000_000)),
        104 => Some((3840, 2160, 5280, 2250, 297_000_000)),
        105 => Some((3840, 2160, 4400, 2250, 297_000_000)),
        106 => Some((3840, 2160, 5280, 2250, 594_000_000)),
        107 => Some((3840, 2160, 4400, 2250, 594_000_000)),
        114 | 116 => Some((3840, 2160, 5500, 2250, 594_000_000)),
        115 => Some((4096, 2160, 5500, 2250, 594_000_000)),
        117 | 121 => Some((3840, 2160, 5280, 2250, 1_188_000_000)),
        118 | 122 => Some((3840, 2160, 4400, 2250, 1_188_000_000)),
        119 => Some((4096, 2160, 5280, 2250, 1_188_000_000)),
        120 => Some((4096, 2160, 4400, 2250, 1_188_000_000)),
        194 | 202 => Some((7680, 4320, 11000, 4500, 1_188_000_000)),
        195 | 203 => Some((7680, 4320, 10800, 4400, 1_188_000_000)),
        196 | 204 => Some((7680, 4320, 9000, 4400, 1_188_000_000)),
        197 | 205 => Some((7680, 4320, 11000, 4500, 2_376_000_000)),
        198 | 206 => Some((7680, 4320, 10800, 4400, 2_376_000_000)),
        199 | 207 => Some((7680, 4320, 9000, 4400, 2_376_000_000)),
        200 | 208 => Some((7680, 4320, 10560, 4500, 4_752_000_000)),
        201 | 209 => Some((7680, 4320, 9000, 4400, 4_752_000_000)),
        _ => None,
    }
}

/// The code that a short video descriptor writes: in the codes from 1 to 64 the top bit
/// marks a native format, elsewhere it belongs to the code.
pub open spec fn svd_code(byte: u8) -> u8 {
    if 1 <= byte % 128 <= 64 {
        (byte % 128) as u8
    } else {
        byte
    }
}

/// Decode a short video descriptor byte into its VIC.
pub fn svd_vic(byte: u8) -> (vic: u8)
    ensures
        vic == svd_code(byte),
{
    let low: u8 = byte % 128;
    if 1 <= low && low <= 64 {
        low
    } else {
        byte
    }
}

/// The timing of a code that stands in the given block, if the code is known.
pub open spec fn vic_mode(vic: u8, block: usize) -> Option<Timing> {
    match vic_format(vic) {
        Some((h_active, v_active, h_total, v_total, clock)) => Some(
            timing(
                h_active,
                v_active,
                h_total,
                v_total,
                clock,
                false,
                TimingSource::CtaVic { block, vic },
            ),
        ),
        None => None,
    }
}

/// The timing of a code that stands in the given block, if the code is known.
pub fn vic_as_timing(vic: u8, block: usize) -> (t: Option<Timing>)
    ensures
        t == vic_mode(vic, block),
        t matches Some(t) ==> t.consistent() && t.refresh_hz.den > 0,
{
    match vic_timing(vic) {
        Some((h_active, v_active, h_total, v_total, clock)) => Some(
            Timing::new(
                h_active,
                v_active,
                h_total,
                v_total,
                clock,
                false,
                TimingSource::CtaVic { block, vic },
            ),
        ),
        None => None,
    }
}

// ---------------------------------------------------------------------------
// DisplayID timings.

/// The sixteen bits at `i`, low byte first, plus one.
pub open spec fn count_at(d: Seq<u8>, i: int) -> int {
    d[i] + 256 * d[i + 1] + 1
}

/// The timing that a DisplayID descriptor writes, its clock in units of `unit` hertz.
pub open spec fn displayid_mode(d: Seq<u8>, unit: u64, source: TimingSource) -> Timing {
    let clock = (d[0] + 256 * d[1] + 65536 * d[2] + 1) * unit;
    timing(
        count_at(d, 4) as u32,
        count_at(d, 12) as u32,
        (count_at(d, 4) + count_at(d, 6)) as u32,
        (count_at(d, 12) + count_at(d, 14)) as u32,
        clock as u64,
        (d[3] / 16) % 2 == 1,
        source,
    )
}

/// Reads a DisplayID Type I or Type VII timing descriptor.
pub fn parse_displayid_timing(d: &[u8], unit: u64, source: TimingSource) -> (t: Timing)
    requires
        d.len() >= 20,
        (d[0] + 256 * d[1] + 65536 * d[2] + 1) * unit <= u64::MAX,
    ensures
        t == displayid_mode(d@, unit, source),
        t.consistent(),
        t.refresh_hz.den > 0,
{
    let steps: u64 = d[0] as u64 + 256 * d[1] as u64 + 65536 * d[2] as u64 + 1;
    assert(0 <= steps * unit) by (nonlinear_arith)
        requires
            0 <= steps,
            0 <= unit,
    ;
    let h_active: u32 = d[4] as u32 + 256 * d[5] as u32 + 1;
    let h_blank: u32 = d[6] as u32 + 256 * d[7] as u32 + 1;
    let v_active: u32 = d[12] as u32 + 256 * d[13] as u32 + 1;
    let v_blank: u32 = d[14] as u32 + 256 * d[15] as u32 + 1;
    Timing::new(
        h_active,
        v_active,
        h_active + h_blank,
        v_active + v_blank,
        steps * unit,
        (d[3] / 16) % 2 == 1,
        source,
    )
}

/// The length of one timing descriptor in a DisplayID data block.
pub open spec fn entry_size(tag: u8, revision: u8) -> nat {
    if tag == 0x22 {
        (20 + (revision / 16) % 8) as nat
    } else {
        20
    }
}

/// Size of one timing descriptor in a DisplayID Type I (0x03) / Type VII (0x22) block.
///
/// Type I descriptors are always 20 bytes. Type VII descriptors are 20 bytes plus the
/// "payload bytes" count stored in bits 6..4 of the block revision byte (DisplayID 2.1), so
/// a decoder must honour that field to stay aligned.
pub fn displayid_entry_size(tag: u8, revision_byte: u8) -> (n: usize)
    ensures
        n == entry_size(tag, revision_byte),
        20 <= n <= 27,
{
    if tag == 0x22 {
        20 + ((revision_byte / 16) % 8) as usize
    } else {
        20
    }
}

/// The pixel clock unit of a DisplayID timing block, in hertz.
pub open spec fn clock_unit(tag: u8) -> u64 {
    if tag == 0x22 {
        1_000
    } else {
        10_000
    }
}

/// Pixel clock unit: DisplayID 1.x Type I uses 10 kHz, DisplayID 2.x Type VII uses 1 kHz.
pub fn displayid_clock_unit(tag: u8) -> (unit: u64)
    ensures
        unit == clock_unit(tag),
{
    if tag == 0x22 {
        1_000
    } else {
        10_000
    }
}

} // verus!
