//! The state of the display pipes, and what to do about it.

use vstd::prelude::*;

use crate::limits::{max_hz_for, PipeLimits};
use crate::rate::Hz;
use crate::registry::{
    ioreturn_message, CrossbarContent, CrossbarState, Display, DisplayContent, Framebuffer,
    FramebufferContent, MappingContent, PipeMapping,
};
use crate::select::readable;
use crate::text::{
    copied_text, push_dec, push_joined, push_left_aligned, push_signed, same_text,
};
use crate::timing::Timing;
use crate::{edid, limits, registry, select, text, text_laws};

verus! {

// ---------------------------------------------------------------------------
// Displays.

/// What there is to say about a display output at a glance.
pub struct DisplaySummary {
    pub index: usize,
    pub id: Option<String>,
    pub name: Option<String>,
    pub pipe: Option<String>,
    pub edid_bytes: usize,
    pub max_mode: Option<String>,
    /// The timing that the mode is taken from.
    pub max_timing: Option<Timing>,
    pub copy_edid_status: i32,
}

/// What there is to say about a display output at a glance.
#[verifier::ext_equal]
pub struct SummaryContent {
    pub index: nat,
    pub id: Option<Seq<char>>,
    pub name: Option<Seq<char>>,
    pub pipe: Option<Seq<char>>,
    pub edid_bytes: nat,
    pub max_mode: Option<Seq<char>>,
    pub max_timing: Option<Timing>,
    pub copy_edid_status: i32,
}

impl View for DisplaySummary {
    type V = SummaryContent;

    open spec fn view(&self) -> SummaryContent {
        SummaryContent {
            index: self.index as nat,
            id: text::maybe(self.id),
            name: text::maybe(self.name),
            pipe: text::maybe(self.pipe),
            edid_bytes: self.edid_bytes as nat,
            max_mode: text::maybe(self.max_mode),
            max_timing: self.max_timing,
            copy_edid_status: self.copy_edid_status,
        }
    }
}

/// The whole number nearest to a rate; halfway between two, the even one. Zero for a rate
/// that is no number.
pub open spec fn whole_hz(r: Hz) -> nat {
    if r.den == 0 {
        0
    } else {
        let q = r.num as nat / r.den as nat;
        let rest = r.num as nat % r.den as nat;
        if 2 * rest < r.den || (2 * rest == r.den && q % 2 == 0) {
            q
        } else {
            q + 1
        }
    }
}

/// A mode as text: its frame size and its rounded refresh rate.
pub open spec fn mode_text(t: Timing) -> Seq<char> {
    text::dec(t.h_active as nat) + "x"@ + text::dec(t.v_active as nat) + "@"@ + text::dec(
        whole_hz(t.refresh_hz),
    )
}

/// What there is to say about a display output at a glance.
pub open spec fn summary(d: DisplayContent) -> SummaryContent {
    let content = select::content_of(d);
    let max = match content {
        Some(c) => edid::highest(c.timings),
        None => None,
    };
    SummaryContent {
        index: d.index,
        id: d.id(),
        name: match content {
            Some(c) => Some(c.label()),
            None => None,
        },
        pipe: d.pipe,
        edid_bytes: match d.edid {
            Some(e) => e.len(),
            None => 0,
        },
        max_mode: match max {
            Some(t) => Some(mode_text(t)),
            None => None,
        },
        max_timing: max,
        copy_edid_status: d.copy_edid_status,
    }
}

fn push_whole_hz(s: &mut String, r: &Hz)
    ensures
        final(s)@ == old(s)@ + text::dec(whole_hz(*r)),
{
    if r.den == 0 {
        push_dec(s, 0);
    } else {
        let q: u128 = (r.num / r.den) as u128;
        let rest: u128 = (r.num % r.den) as u128;
        if 2 * rest < r.den as u128 || (2 * rest == r.den as u128 && q % 2 == 0) {
            push_dec(s, q);
        } else {
            push_dec(s, q + 1);
        }
    }
}

/// A mode as text: its frame size and its rounded refresh rate.
pub fn mode_of(t: &Timing) -> (s: String)
    ensures
        s@ == mode_text(*t),
{
    let mut s = String::new();
    push_dec(&mut s, t.h_active as u128);
    s.append("x");
    push_dec(&mut s, t.v_active as u128);
    s.append("@");
    push_whole_hz(&mut s, &t.refresh_hz);
    assert(s@ =~= mode_text(*t));
    s
}

/// What there is to say about a display output at a glance.
pub fn summarize(d: &Display) -> (s: DisplaySummary)
    ensures
        s@ == summary(d@),
{
    let info = readable(d);
    let max_timing: Option<Timing> = match &info {
        Some(i) => match i.max_timing() {
            Some(t) => Some(*t),
            None => None,
        },
        None => None,
    };
    let max_mode = match &max_timing {
        Some(t) => Some(mode_of(t)),
        None => None,
    };
    let name = match &info {
        Some(i) => Some(i.label()),
        None => None,
    };
    let edid_bytes: usize = match &d.edid {
        Some(e) => e.len(),
        None => 0,
    };
    let s = DisplaySummary {
        index: d.index,
        id: d.edid_id(),
        name,
        pipe: copied_text(&d.pipe),
        edid_bytes,
        max_mode,
        max_timing,
        copy_edid_status: d.copy_edid_status,
    };
    assert(s@ =~= summary(d@));
    s
}

/// What there is to say about several display outputs.
pub open spec fn summaries(ds: Seq<DisplayContent>) -> Seq<SummaryContent> {
    ds.map_values(|d: DisplayContent| summary(d))
}

/// What several summaries say.
pub open spec fn summary_contents(v: Seq<DisplaySummary>) -> Seq<SummaryContent> {
    v.map_values(|s: DisplaySummary| s@)
}

/// What there is to say about several display outputs.
pub fn summarize_all(displays: &Vec<Display>) -> (out: Vec<DisplaySummary>)
    ensures
        summary_contents(out@) == summaries(registry::display_contents(displays@)),
{
    let ghost ds = registry::display_contents(displays@);
    let mut out: Vec<DisplaySummary> = Vec::new();
    let mut i: usize = 0;
    while i < displays.len()
        invariant
            i <= displays.len(),
            ds == registry::display_contents(displays@),
            summary_contents(out@) =~= summaries(ds).take(i as int),
        decreases displays.len() - i,
    {
        let ghost before = summary_contents(out@);
        let s = summarize(&displays[i]);
        let ghost c = s@;
        out.push(s);
        assert(ds[i as int] == displays@[i as int]@);
        assert(summary_contents(out@) =~= before.push(c));
        i += 1;
    }
    assert(summaries(ds).take(i as int) =~= summaries(ds));
    out
}

// ---------------------------------------------------------------------------
// Suggestions.

/// How many pipes are in use.
pub open spec fn pipes_used(ms: Seq<MappingContent>) -> nat
    decreases ms.len(),
{
    if ms.len() == 0 {
        0
    } else {
        pipes_used(ms.drop_last()) + ms.last().pipe_ids.len()
    }
}

/// How many pipes the displays need.
pub open spec fn pipes_needed(ms: Seq<MappingContent>) -> int
    decreases ms.len(),
{
    if ms.len() == 0 {
        0
    } else {
        pipes_needed(ms.drop_last()) + ms.last().max_pipes
    }
}

/// Whether a display is left without a pipe, or will be.
pub open spec fn is_short(x: CrossbarContent, pipe_count: nat) -> bool {
    x.pending.len() > 0 || (pipe_count > 0 && pipes_needed(x.mappings) > pipe_count)
}

/// The low 32 bits of a number of pixels.
pub open spec fn pixels(n: i64) -> u32 {
    (n as int % 0x1_0000_0000) as u32
}

/// The highest whole refresh rate at which the display fits one pipe.
pub open spec fn one_pipe_hz(m: MappingContent, lim: PipeLimits) -> int {
    limits::fitting_hz(pixels(m.max_w), pixels(m.max_h), lim.max_active_pixel_rate)
}

/// The refresh rate to cap a display at that needs more than one pipe.
pub open spec fn suggested_hz(m: MappingContent, lim: PipeLimits) -> int {
    if one_pipe_hz(m, lim) >= 144 {
        144
    } else {
        one_pipe_hz(m, lim)
    }
}

/// What is suggested for a display that needs more than one pipe.
pub open spec fn suggestion(m: MappingContent, lim: PipeLimits) -> Seq<char> {
    let pick = text::dec(suggested_hz(m, lim) as nat);
    "cap \""@ + m.product_name + "\" to <= "@ + pick + " Hz ("@ + text::signed_dec(m.max_w as int)
        + "x"@ + text::signed_dec(m.max_h as int) + " fits one pipe up to "@ + text::dec(
        one_pipe_hz(m, lim) as nat,
    ) + " Hz): pipecap cap --display \""@ + m.product_name + "\" --max-hz "@ + pick
}

/// What is suggested for each display that needs more than one pipe.
pub open spec fn suggestions_for(ms: Seq<MappingContent>, lim: PipeLimits) -> Seq<Seq<char>>
    decreases ms.len(),
{
    if ms.len() == 0 {
        Seq::empty()
    } else {
        let before = suggestions_for(ms.drop_last(), lim);
        if ms.last().max_pipes > 1 {
            before.push(suggestion(ms.last(), lim))
        } else {
            before
        }
    }
}

/// What is said when a display has no pipe although none needs more than one.
pub open spec fn no_cause_text(used: nat, pipe_count: nat) -> Seq<char> {
    text::dec(used) + " of "@ + text::dec(pipe_count)
        + " pipes are in use and nothing needs more than one pipe; the pending display may be limited by port or dock bandwidth instead"@
}

/// What is suggested: nothing while there are pipes for all.
pub open spec fn suggested(x: Option<CrossbarContent>, lim: PipeLimits, pipe_count: nat) -> Seq<
    Seq<char>,
> {
    match x {
        Some(x) if is_short(x, pipe_count) => {
            let all = suggestions_for(x.mappings, lim);
            if all.len() > 0 {
                all
            } else {
                seq![no_cause_text(pipes_used(x.mappings), pipe_count)]
            }
        },
        _ => Seq::empty(),
    }
}

fn low_pixels(n: i64) -> (r: u32)
    ensures
        r == pixels(n),
{
    let shifted: u128 = (n as i128 + 0x1_0000_0000_0000_0000) as u128;
    let r: u128 = shifted % 0x1_0000_0000;
    proof {
        assert((n as int + 0x1_0000_0000_0000_0000) % 0x1_0000_0000 == n as int % 0x1_0000_0000);
    }
    r as u32
}

fn suggestion_for(m: &PipeMapping, lim: &PipeLimits) -> (s: String)
    ensures
        s@ == suggestion(m@, *lim),
{
    let hz = max_hz_for(low_pixels(m.max_w), low_pixels(m.max_h), lim.max_active_pixel_rate);
    let pick: u32 = if hz >= 144 {
        144
    } else {
        hz
    };
    let mut s = String::new();
    s.append("cap \"");
    s.append(m.product_name.as_str());
    s.append("\" to <= ");
    push_dec(&mut s, pick as u128);
    s.append(" Hz (");
    push_signed(&mut s, m.max_w);
    s.append("x");
    push_signed(&mut s, m.max_h);
    s.append(" fits one pipe up to ");
    push_dec(&mut s, hz as u128);
    s.append(" Hz): pipecap cap --display \"");
    s.append(m.product_name.as_str());
    s.append("\" --max-hz ");
    push_dec(&mut s, pick as u128);
    assert(s@ =~= suggestion(m@, *lim));
    s
}

proof fn lemma_totals_bounded(ms: Seq<MappingContent>, n: int)
    requires
        0 <= n <= ms.len(),
        forall|k: int| 0 <= k < ms.len() ==> (#[trigger] ms[k]).pipe_ids.len() <= usize::MAX,
    ensures
        0 <= pipes_used(ms.take(n)) <= n * usize::MAX,
        -n * 0x8000_0000_0000_0000 <= pipes_needed(ms.take(n)) <= n * 0x8000_0000_0000_0000,
    decreases n,
{
    if n > 0 {
        lemma_totals_bounded(ms, n - 1);
        assert(ms.take(n).drop_last() =~= ms.take(n - 1));
        assert(ms.take(n).last() == ms[n - 1]);
        assert((n - 1) * usize::MAX + usize::MAX == n * usize::MAX) by (nonlinear_arith);
    } else {
        assert(ms.take(n) =~= Seq::empty());
    }
}

fn totals(ms: &Vec<PipeMapping>) -> (r: (u128, i128))
    ensures
        r.0 == pipes_used(registry::mapping_contents(ms@)),
        r.1 == pipes_needed(registry::mapping_contents(ms@)),
{
    let ghost all = registry::mapping_contents(ms@);
    let mut used: u128 = 0;
    let mut needed: i128 = 0;
    let mut i: usize = 0;
    assert forall|k: int| 0 <= k < all.len() implies (#[trigger] all[k]).pipe_ids.len()
        <= usize::MAX by {
        assert(ms@[k].pipe_ids.len() <= usize::MAX);
    }
    while i < ms.len()
        invariant
            i <= ms.len(),
            all == registry::mapping_contents(ms@),
            forall|k: int| 0 <= k < all.len() ==> (#[trigger] all[k]).pipe_ids.len() <= usize::MAX,
            used == pipes_used(all.take(i as int)),
            needed == pipes_needed(all.take(i as int)),
        decreases ms.len() - i,
    {
        proof {
            lemma_totals_bounded(all, i as int);
            assert(all.take(i + 1).drop_last() =~= all.take(i as int));
            assert(all.take(i + 1).last() == ms@[i as int]@);
            assert(i * usize::MAX <= usize::MAX * usize::MAX) by (nonlinear_arith)
                requires
                    i <= usize::MAX,
            ;
            assert(usize::MAX * usize::MAX + usize::MAX <= u128::MAX) by (nonlinear_arith)
                requires
                    usize::MAX <= 0xffff_ffff_ffff_ffff,
            ;
        }
        used += ms[i].pipe_ids.len() as u128;
        needed += ms[i].max_pipes as i128;
        i += 1;
    }
    assert(all.take(i as int) =~= all);
    (used, needed)
}

/// What to suggest, given the state of the crossbar, the limits of a pipe and the number of
/// pipes.
pub fn suggest(x: &Option<CrossbarState>, lim: &PipeLimits, pipe_count: usize) -> (out: Vec<String>)
    ensures
        text::texts(out@) == suggested(maybe_crossbar(*x), *lim, pipe_count as nat),
{
    let mut out: Vec<String> = Vec::new();
    assert(text::texts(out@) =~= Seq::empty());
    let x = match x {
        Some(x) => x,
        None => {
            return out;
        },
    };
    let ghost ms = registry::mapping_contents(x.mappings@);
    let (used, needed) = totals(&x.mappings);
    if x.pending.len() > 0 || (pipe_count > 0 && needed > pipe_count as i128) {
        assert(is_short(x@, pipe_count as nat));
        let mut i: usize = 0;
        while i < x.mappings.len()
            invariant
                i <= x.mappings.len(),
                ms == registry::mapping_contents(x.mappings@),
                text::texts(out@) == suggestions_for(ms.take(i as int), *lim),
            decreases x.mappings.len() - i,
        {
            assert(ms.take(i + 1).drop_last() =~= ms.take(i as int));
            assert(ms.take(i + 1).last() == x.mappings@[i as int]@);
            if x.mappings[i].max_pipes > 1 {
                let ghost before = text::texts(out@);
                let s = suggestion_for(&x.mappings[i], lim);
                let ghost t = s@;
                out.push(s);
                assert(text::texts(out@) =~= before.push(t));
            }
            i += 1;
        }
        assert(ms.take(i as int) =~= ms);
        assert(text::texts(out@).len() == out.len());
        if out.len() == 0 {
            let mut s = String::new();
            push_dec(&mut s, used);
            s.append(" of ");
            push_dec(&mut s, pipe_count as u128);
            s.append(
                " pipes are in use and nothing needs more than one pipe; the pending display may be limited by port or dock bandwidth instead",
            );
            assert(s@ =~= no_cause_text(pipes_used(ms), pipe_count as nat));
            let ghost t = s@;
            out.push(s);
            assert(text::texts(out@) =~= seq![t]);
        }
    }
    out
}

/// The refresh rate that is suggested keeps the display within one pipe.
pub proof fn law_suggestion_fits(m: MappingContent, lim: PipeLimits)
    requires
        pixels(m.max_w) > 0,
        pixels(m.max_h) > 0,
        lim.max_active_pixel_rate >= 0,
    ensures
        pixels(m.max_w) * pixels(m.max_h) * suggested_hz(m, lim) <= lim.max_active_pixel_rate,
{
    let (w, h) = (pixels(m.max_w), pixels(m.max_h));
    limits::law_fitting_hz(w, h, lim.max_active_pixel_rate);
    assert(w * h * suggested_hz(m, lim) <= w * h * one_pipe_hz(m, lim)) by (nonlinear_arith)
        requires
            suggested_hz(m, lim) <= one_pipe_hz(m, lim),
            0 < w,
            0 < h,
    ;
}

// ---------------------------------------------------------------------------
// The report.

/// The state of the display pipes.
pub struct StatusReport {
    pub pipe_count: usize,
    pub limits: PipeLimits,
    pub limits_from_registry: bool,
    pub crossbar: Option<CrossbarState>,
    pub active: Vec<Framebuffer>,
    pub displays: Vec<DisplaySummary>,
    pub suggestions: Vec<String>,
}

/// The state of the display pipes.
#[verifier::ext_equal]
pub struct StatusContent {
    pub pipe_count: nat,
    pub limits: PipeLimits,
    pub limits_from_registry: bool,
    pub crossbar: Option<CrossbarContent>,
    pub active: Seq<FramebufferContent>,
    pub displays: Seq<SummaryContent>,
    pub suggestions: Seq<Seq<char>>,
}

/// What the crossbar says, if there is one.
pub open spec fn maybe_crossbar(x: Option<CrossbarState>) -> Option<CrossbarContent> {
    match x {
        Some(x) => Some(x@),
        None => None,
    }
}

impl View for StatusReport {
    type V = StatusContent;

    open spec fn view(&self) -> StatusContent {
        StatusContent {
            pipe_count: self.pipe_count as nat,
            limits: self.limits,
            limits_from_registry: self.limits_from_registry,
            crossbar: maybe_crossbar(self.crossbar),
            active: registry::framebuffer_contents(self.active@),
            displays: summary_contents(self.displays@),
            suggestions: text::texts(self.suggestions@),
        }
    }
}

/// Puts the state of the display pipes together: the limits that the registry publishes, the
/// crossbar, the display outputs, the number of pipes and the framebuffers.
pub fn build_status(
    found: Option<PipeLimits>,
    crossbar: Option<CrossbarState>,
    displays: &Vec<Display>,
    pipe_count: usize,
    active: Vec<Framebuffer>,
) -> (r: StatusReport)
    ensures
        r@.pipe_count == pipe_count,
        found matches Some(l) ==> r@.limits == l && r@.limits_from_registry,
        found is None ==> !r@.limits_from_registry && r@.limits == (PipeLimits {
            max_active_pixel_rate: limits::FALLBACK_ACTIVE_RATE,
            max_total_pixel_rate: limits::FALLBACK_TOTAL_RATE,
        }),
        r@.crossbar == maybe_crossbar(crossbar),
        r@.active == registry::framebuffer_contents(active@),
        r@.displays == summaries(registry::display_contents(displays@)),
        r@.suggestions == suggested(r@.crossbar, r@.limits, pipe_count as nat),
{
    let (lim, from_registry) = limits::limits(found);
    let suggestions = suggest(&crossbar, &lim, pipe_count);
    let summaries = summarize_all(displays);
    StatusReport {
        pipe_count,
        limits: lim,
        limits_from_registry: from_registry,
        crossbar,
        active,
        displays: summaries,
        suggestions,
    }
}

// ---------------------------------------------------------------------------
// The report as text.

/// How the pixel rates of a report are shown, in gigapixels per second.
pub struct StatusTexts {
    /// The active pixel rate limit.
    pub active: String,
    /// The total pixel rate limit.
    pub total: String,
    /// The active pixel rate of each mapping of the crossbar.
    pub mappings: Vec<String>,
    /// The active pixel rate of the highest timing of each display; it counts only where
    /// there is such a timing.
    pub displays: Vec<String>,
}

/// A pixel rate with its unit.
pub open spec fn gpx_text(n: Seq<char>) -> Seq<char> {
    n + " Gpx/s"@
}

/// A pixel rate with its unit.
pub fn gpx(n: &str) -> (s: String)
    ensures
        s@ == gpx_text(n@),
{
    let mut s = n.to_string();
    s.append(" Gpx/s");
    s
}

/// Numbers in square brackets.
pub open spec fn numbers_text(v: Seq<i64>) -> Seq<char> {
    "["@ + text::joined(v.map_values(|i: i64| text::signed_dec(i as int)), ", "@) + "]"@
}

/// The first framebuffer with the given name.
pub open spec fn framebuffer_named(fs: Seq<FramebufferContent>, name: Seq<char>) -> Option<
    FramebufferContent,
>
    decreases fs.len(),
{
    if fs.len() == 0 {
        None
    } else if fs[0].product_name == name {
        Some(fs[0])
    } else {
        framebuffer_named(fs.drop_first(), name)
    }
}

/// What has become of a display that the crossbar knows.
pub open spec fn state_text(m: MappingContent, fs: Seq<FramebufferContent>) -> Seq<char> {
    match framebuffer_named(fs, m.product_name) {
        Some(f) => "active, up to "@ + text::signed_dec(f.max_refresh_hz as int) + " Hz ("@ + f.pipe
            + ")"@,
        None if m.pipe_ids.len() == 0 => "NO PIPE"@,
        None => "assigned"@,
    }
}

/// The line for a display that the crossbar knows.
pub open spec fn mapping_line(
    m: MappingContent,
    fs: Seq<FramebufferContent>,
    rate: Seq<char>,
) -> Seq<char> {
    "  "@ + text::left_aligned(m.product_name, 24) + " "@ + text::left_aligned(m.address, 8) + " "@
        + text::left_aligned(text::signed_dec(m.max_pipes as int), 7) + " "@ + text::left_aligned(
        numbers_text(m.pipe_ids),
        10,
    ) + " "@ + text::left_aligned(gpx_text(rate), 16) + " "@ + state_text(m, fs) + "\n"@
}

/// The lines for the displays that the crossbar knows.
pub open spec fn mapping_lines(
    ms: Seq<MappingContent>,
    fs: Seq<FramebufferContent>,
    rates: Seq<Seq<char>>,
) -> Seq<char>
    decreases ms.len(),
{
    if ms.len() == 0 {
        Seq::empty()
    } else {
        mapping_lines(ms.drop_last(), fs, rates) + mapping_line(
            ms.last(),
            fs,
            rates[ms.len() - 1],
        )
    }
}

/// The line above those for the displays.
pub open spec fn mapping_head() -> Seq<char> {
    "  "@ + text::left_aligned("display"@, 24) + " "@ + text::left_aligned("addr"@, 8) + " "@
        + text::left_aligned("needs"@, 7) + " "@ + text::left_aligned("pipes"@, 10) + " "@
        + text::left_aligned("max active"@, 16) + " state\n"@
}

/// The part of the report on the crossbar.
pub open spec fn crossbar_text(
    x: Option<CrossbarContent>,
    fs: Seq<FramebufferContent>,
    rates: Seq<Seq<char>>,
) -> Seq<char> {
    match x {
        Some(x) => "Pipe allocation (display crossbar):\n"@ + mapping_head() + mapping_lines(
            x.mappings,
            fs,
            rates,
        ) + "Pending (waiting for a pipe): "@ + (if x.pending.len() == 0 {
            "none"@
        } else {
            text::joined(x.pending, ", "@)
        }) + "\n"@,
        None => "Display crossbar not found (not an Apple Silicon Mac?)\n"@,
    }
}

/// `s`, or `other` where it is missing.
pub open spec fn text_or(s: Option<Seq<char>>, other: Seq<char>) -> Seq<char> {
    match s {
        Some(s) => s,
        None => other,
    }
}

/// What a line on a display output begins with.
pub open spec fn output_text(d: SummaryContent) -> Seq<char> {
    "["@ + text::dec(d.index) + "] id="@ + text_or(d.id, "--------"@) + " "@ + text::left_aligned(
        text_or(d.name, "(no EDID)"@),
        24,
    ) + " pipe="@ + text::left_aligned(text_or(d.pipe, "?"@), 9) + " EDID "@ + text::dec(
        d.edid_bytes,
    ) + " B  max "@ + text_or(d.max_mode, "-"@)
}

/// The line for a display output.
pub open spec fn output_line(d: SummaryContent, rate: Seq<char>) -> Seq<char> {
    "  "@ + output_text(d) + (match d.max_timing {
        Some(_) => " ("@ + gpx_text(rate) + ")"@,
        None => Seq::empty(),
    }) + "\n"@
}

/// The lines for the display outputs.
pub open spec fn output_lines(ds: Seq<SummaryContent>, rates: Seq<Seq<char>>) -> Seq<char>
    decreases ds.len(),
{
    if ds.len() == 0 {
        Seq::empty()
    } else {
        output_lines(ds.drop_last(), rates) + output_line(ds.last(), rates[ds.len() - 1])
    }
}

/// The lines for the suggestions.
pub open spec fn suggestion_lines(v: Seq<Seq<char>>) -> Seq<char>
    decreases v.len(),
{
    if v.len() == 0 {
        Seq::empty()
    } else {
        suggestion_lines(v.drop_last()) + "Suggestion: "@ + v.last() + "\n"@
    }
}

/// The line for the limits of a pipe.
pub open spec fn limits_line(r: StatusContent, active: Seq<char>, total: Seq<char>) -> Seq<char> {
    "External display pipes: "@ + text::dec(r.pipe_count) + "   single-pipe limit: "@ + gpx_text(
        active,
    ) + " active / "@ + gpx_text(total) + " total"@ + (if r.limits_from_registry {
        ""@
    } else {
        " (fallback values)"@
    }) + "\n"@
}

/// The report as text, with the pixel rates shown as given.
pub open spec fn status_text(
    r: StatusContent,
    active: Seq<char>,
    total: Seq<char>,
    mappings: Seq<Seq<char>>,
    displays: Seq<Seq<char>>,
) -> Seq<char> {
    limits_line(r, active, total) + crossbar_text(r.crossbar, r.active, mappings)
        + "External outputs:\n"@ + output_lines(r.displays, displays) + suggestion_lines(
        r.suggestions,
    )
}

fn push_numbers(s: &mut String, v: &Vec<i64>)
    ensures
        final(s)@ == old(s)@ + numbers_text(v@),
{
    let mut parts: Vec<String> = Vec::new();
    let ghost all = v@.map_values(|i: i64| text::signed_dec(i as int));
    let mut i: usize = 0;
    while i < v.len()
        invariant
            i <= v.len(),
            all == v@.map_values(|i: i64| text::signed_dec(i as int)),
            text::texts(parts@) =~= all.take(i as int),
        decreases v.len() - i,
    {
        let ghost before = text::texts(parts@);
        let mut n = String::new();
        push_signed(&mut n, v[i]);
        assert(n@ =~= text::signed_dec(v@[i as int] as int));
        let ghost t = n@;
        parts.push(n);
        assert(text::texts(parts@) =~= before.push(t));
        i += 1;
    }
    assert(text::texts(parts@) =~= all);
    s.append("[");
    push_joined(s, &parts, ", ");
    s.append("]");
    assert(s@ =~= old(s)@ + numbers_text(v@));
}

fn push_state(s: &mut String, m: &PipeMapping, fs: &Vec<Framebuffer>)
    ensures
        final(s)@ == old(s)@ + state_text(m@, registry::framebuffer_contents(fs@)),
{
    let ghost all = registry::framebuffer_contents(fs@);
    let ghost start = s@;
    let mut i: usize = 0;
    assert(all.skip(0) =~= all);
    while i < fs.len()
        invariant
            i <= fs.len(),
            all == registry::framebuffer_contents(fs@),
            s@ == start,
            start == old(s)@,
            framebuffer_named(all, m.product_name@) == framebuffer_named(
                all.skip(i as int),
                m.product_name@,
            ),
        decreases fs.len() - i,
    {
        assert(all.skip(i as int)[0] == fs@[i as int]@);
        assert(all.skip(i as int).drop_first() =~= all.skip(i + 1));
        let f = &fs[i];
        if same_text(f.product_name.as_str(), m.product_name.as_str()) {
            s.append("active, up to ");
            push_signed(s, f.max_refresh_hz);
            s.append(" Hz (");
            s.append(f.pipe.as_str());
            s.append(")");
            assert(s@ =~= start + state_text(m@, all));
            return;
        }
        i += 1;
    }
    if m.pipe_ids.len() == 0 {
        s.append("NO PIPE");
    } else {
        s.append("assigned");
    }
}

#[verifier::rlimit(30)]
fn push_mapping_line(s: &mut String, m: &PipeMapping, fs: &Vec<Framebuffer>, rate: &str)
    ensures
        final(s)@ == old(s)@ + mapping_line(m@, registry::framebuffer_contents(fs@), rate@),
{
    let mut needs = String::new();
    push_signed(&mut needs, m.max_pipes);
    assert(needs@ =~= text::signed_dec(m.max_pipes as int));
    let mut pipes = String::new();
    push_numbers(&mut pipes, &m.pipe_ids);
    assert(pipes@ =~= numbers_text(m.pipe_ids@));
    let shown = gpx(rate);
    s.append("  ");
    push_left_aligned(s, m.product_name.as_str(), 24);
    s.append(" ");
    let ghost named = "  "@ + text::left_aligned(m.product_name@, 24) + " "@;
    assert(s@ =~= old(s)@ + named);
    push_left_aligned(s, m.address.as_str(), 8);
    s.append(" ");
    let ghost placed = named + text::left_aligned(m.address@, 8) + " "@;
    assert(s@ =~= old(s)@ + placed);
    push_left_aligned(s, needs.as_str(), 7);
    s.append(" ");
    let ghost counted = placed + text::left_aligned(needs@, 7) + " "@;
    assert(s@ =~= old(s)@ + counted);
    push_left_aligned(s, pipes.as_str(), 10);
    s.append(" ");
    let ghost listed = counted + text::left_aligned(pipes@, 10) + " "@;
    assert(s@ =~= old(s)@ + listed);
    push_left_aligned(s, shown.as_str(), 16);
    s.append(" ");
    let ghost rated = listed + text::left_aligned(shown@, 16) + " "@;
    assert(s@ =~= old(s)@ + rated);
    push_state(s, m, fs);
    s.append("\n");
    let ghost state = state_text(m@, registry::framebuffer_contents(fs@));
    assert(s@ =~= old(s)@ + (rated + state + "\n"@));
}

#[verifier::rlimit(30)]
fn push_mapping_head(s: &mut String)
    ensures
        final(s)@ == old(s)@ + mapping_head(),
{
    s.append("  ");
    push_left_aligned(s, "display", 24);
    s.append(" ");
    push_left_aligned(s, "addr", 8);
    s.append(" ");
    push_left_aligned(s, "needs", 7);
    s.append(" ");
    push_left_aligned(s, "pipes", 10);
    s.append(" ");
    push_left_aligned(s, "max active", 16);
    s.append(" state\n");
    assert(s@ =~= old(s)@ + mapping_head());
}

fn push_mapping_lines(
    s: &mut String,
    ms: &Vec<PipeMapping>,
    fs: &Vec<Framebuffer>,
    rates: &Vec<String>,
)
    requires
        rates.len() == ms.len(),
    ensures
        final(s)@ == old(s)@ + mapping_lines(
            registry::mapping_contents(ms@),
            registry::framebuffer_contents(fs@),
            text::texts(rates@),
        ),
{
    let ghost all = registry::mapping_contents(ms@);
    let ghost shown = text::texts(rates@);
    let ghost frames = registry::framebuffer_contents(fs@);
    let mut i: usize = 0;
    assert(s@ =~= old(s)@ + mapping_lines(all.take(0), frames, shown));
    while i < ms.len()
        invariant
            i <= ms.len(),
            rates.len() == ms.len(),
            all == registry::mapping_contents(ms@),
            shown == text::texts(rates@),
            frames == registry::framebuffer_contents(fs@),
            s@ == old(s)@ + mapping_lines(all.take(i as int), frames, shown),
        decreases ms.len() - i,
    {
        push_mapping_line(s, &ms[i], fs, rates[i].as_str());
        proof {
            assert(all.take(i + 1).drop_last() =~= all.take(i as int));
            assert(all.take(i + 1).last() == ms@[i as int]@);
            assert(shown[i as int] == rates@[i as int]@);
            assert(s@ =~= old(s)@ + mapping_lines(all.take(i + 1), frames, shown));
        }
        i += 1;
    }
    assert(all.take(i as int) =~= all);
}

fn push_crossbar(
    s: &mut String,
    x: &Option<CrossbarState>,
    fs: &Vec<Framebuffer>,
    rates: &Vec<String>,
)
    requires
        x matches Some(x) ==> rates.len() == x.mappings.len(),
    ensures
        final(s)@ == old(s)@ + crossbar_text(
            maybe_crossbar(*x),
            registry::framebuffer_contents(fs@),
            text::texts(rates@),
        ),
{
    match x {
        Some(x) => {
            s.append("Pipe allocation (display crossbar):\n");
            push_mapping_head(s);
            push_mapping_lines(s, &x.mappings, fs, rates);
            s.append("Pending (waiting for a pipe): ");
            if x.pending.len() == 0 {
                s.append("none");
            } else {
                push_joined(s, &x.pending, ", ");
            }
            s.append("\n");
        },
        None => {
            s.append("Display crossbar not found (not an Apple Silicon Mac?)\n");
        },
    }
    assert(s@ =~= old(s)@ + crossbar_text(
        maybe_crossbar(*x),
        registry::framebuffer_contents(fs@),
        text::texts(rates@),
    ));
}

fn push_or(s: &mut String, t: &Option<String>, other: &str)
    ensures
        final(s)@ == old(s)@ + text_or(text::maybe(*t), other@),
{
    match t {
        Some(t) => s.append(t.as_str()),
        None => s.append(other),
    }
}

fn push_aligned_or(s: &mut String, t: &Option<String>, other: &str, width: usize)
    ensures
        final(s)@ == old(s)@ + text::left_aligned(
            text_or(text::maybe(*t), other@),
            width as nat,
        ),
{
    match t {
        Some(t) => push_left_aligned(s, t.as_str(), width),
        None => push_left_aligned(s, other, width),
    }
}

#[verifier::rlimit(30)]
fn push_output(s: &mut String, d: &DisplaySummary)
    ensures
        final(s)@ == old(s)@ + output_text(d@),
{
    s.append("[");
    push_dec(s, d.index as u128);
    s.append("] id=");
    push_or(s, &d.id, "--------");
    s.append(" ");
    push_aligned_or(s, &d.name, "(no EDID)", 24);
    s.append(" pipe=");
    push_aligned_or(s, &d.pipe, "?", 9);
    s.append(" EDID ");
    push_dec(s, d.edid_bytes as u128);
    s.append(" B  max ");
    push_or(s, &d.max_mode, "-");
    assert(s@ =~= old(s)@ + output_text(d@));
}

fn push_output_line(s: &mut String, d: &DisplaySummary, rate: &str)
    ensures
        final(s)@ == old(s)@ + output_line(d@, rate@),
{
    s.append("  ");
    push_output(s, d);
    if d.max_timing.is_some() {
        let shown = gpx(rate);
        s.append(" (");
        s.append(shown.as_str());
        s.append(")");
    }
    s.append("\n");
    assert(s@ =~= old(s)@ + output_line(d@, rate@));
}

fn push_output_lines(s: &mut String, ds: &Vec<DisplaySummary>, rates: &Vec<String>)
    requires
        rates.len() == ds.len(),
    ensures
        final(s)@ == old(s)@ + output_lines(summary_contents(ds@), text::texts(rates@)),
{
    let ghost all = summary_contents(ds@);
    let ghost shown = text::texts(rates@);
    let mut i: usize = 0;
    assert(s@ =~= old(s)@ + output_lines(all.take(0), shown));
    while i < ds.len()
        invariant
            i <= ds.len(),
            rates.len() == ds.len(),
            all == summary_contents(ds@),
            shown == text::texts(rates@),
            s@ == old(s)@ + output_lines(all.take(i as int), shown),
        decreases ds.len() - i,
    {
        push_output_line(s, &ds[i], rates[i].as_str());
        proof {
            assert(all.take(i + 1).drop_last() =~= all.take(i as int));
            assert(all.take(i + 1).last() == ds@[i as int]@);
            assert(shown[i as int] == rates@[i as int]@);
            assert(s@ =~= old(s)@ + output_lines(all.take(i + 1), shown));
        }
        i += 1;
    }
    assert(all.take(i as int) =~= all);
}

fn push_suggestions(s: &mut String, v: &Vec<String>)
    ensures
        final(s)@ == old(s)@ + suggestion_lines(text::texts(v@)),
{
    let ghost all = text::texts(v@);
    let mut i: usize = 0;
    assert(s@ =~= old(s)@ + suggestion_lines(all.take(0)));
    while i < v.len()
        invariant
            i <= v.len(),
            all == text::texts(v@),
            s@ == old(s)@ + suggestion_lines(all.take(i as int)),
        decreases v.len() - i,
    {
        s.append("Suggestion: ");
        s.append(v[i].as_str());
        s.append("\n");
        proof {
            assert(all.take(i + 1).drop_last() =~= all.take(i as int));
            assert(all.take(i + 1).last() == v@[i as int]@);
            assert(s@ =~= old(s)@ + suggestion_lines(all.take(i + 1)));
        }
        i += 1;
    }
    assert(all.take(i as int) =~= all);
}

fn push_limits_line(s: &mut String, r: &StatusReport, active: &str, total: &str)
    ensures
        final(s)@ == old(s)@ + limits_line(r@, active@, total@),
{
    let a = gpx(active);
    let t = gpx(total);
    s.append("External display pipes: ");
    push_dec(s, r.pipe_count as u128);
    s.append("   single-pipe limit: ");
    s.append(a.as_str());
    s.append(" active / ");
    s.append(t.as_str());
    s.append(" total");
    if r.limits_from_registry {
        s.append("");
    } else {
        s.append(" (fallback values)");
    }
    s.append("\n");
    assert(s@ =~= old(s)@ + limits_line(r@, active@, total@));
}

/// Renders the report, with the pixel rates shown as given.
pub fn render_status(r: &StatusReport, shown: &StatusTexts) -> (s: String)
    requires
        r.crossbar matches Some(x) ==> shown.mappings.len() == x.mappings.len(),
        shown.displays.len() == r.displays.len(),
    ensures
        s@ == status_text(
            r@,
            shown.active@,
            shown.total@,
            text::texts(shown.mappings@),
            text::texts(shown.displays@),
        ),
{
    let mut s = String::new();
    push_limits_line(&mut s, r, shown.active.as_str(), shown.total.as_str());
    push_crossbar(&mut s, &r.crossbar, &r.active, &shown.mappings);
    s.append("External outputs:\n");
    push_output_lines(&mut s, &r.displays, &shown.displays);
    push_suggestions(&mut s, &r.suggestions);
    assert(s@ =~= status_text(
        r@,
        shown.active@,
        shown.total@,
        text::texts(shown.mappings@),
        text::texts(shown.displays@),
    ));
    s
}

// ---------------------------------------------------------------------------
// The list of outputs.

/// The lines for an output in the list of outputs.
pub open spec fn listing(d: DisplayContent) -> Seq<char> {
    output_text(summary(d)) + "  "@ + d.path + "\n"@ + (if d.edid is None {
        "    EDID not readable: "@ + registry::ioreturn_text(d.copy_edid_status) + "\n"@
    } else {
        Seq::empty()
    })
}

/// The lines for several outputs.
pub open spec fn listings(ds: Seq<DisplayContent>) -> Seq<char>
    decreases ds.len(),
{
    if ds.len() == 0 {
        Seq::empty()
    } else {
        listings(ds.drop_last()) + listing(ds.last())
    }
}

fn push_listing(s: &mut String, d: &Display)
    ensures
        final(s)@ == old(s)@ + listing(d@),
{
    let summary = summarize(d);
    push_output(s, &summary);
    s.append("  ");
    s.append(d.path.as_str());
    s.append("\n");
    if d.edid.is_none() {
        let why = ioreturn_message(d.copy_edid_status);
        s.append("    EDID not readable: ");
        s.append(why.as_str());
        s.append("\n");
    }
    assert(s@ =~= old(s)@ + listing(d@));
}

/// Renders the list of outputs.
pub fn render_list(displays: &Vec<Display>) -> (s: String)
    ensures
        s@ == listings(registry::display_contents(displays@)),
{
    let ghost all = registry::display_contents(displays@);
    let mut s = String::new();
    let mut i: usize = 0;
    assert(s@ =~= listings(all.take(0)));
    while i < displays.len()
        invariant
            i <= displays.len(),
            all == registry::display_contents(displays@),
            s@ == listings(all.take(i as int)),
        decreases displays.len() - i,
    {
        push_listing(&mut s, &displays[i]);
        proof {
            assert(all.take(i + 1).drop_last() =~= all.take(i as int));
            assert(all.take(i + 1).last() == displays@[i as int]@);
        }
        i += 1;
    }
    assert(all.take(i as int) =~= all);
    s
}

// ---------------------------------------------------------------------------
// What is suggested.

/// Adds the pipes that a mapping has.
pub open spec fn adds_used() -> spec_fn(int, MappingContent) -> int {
    |sum: int, m: MappingContent| sum + m.pipe_ids.len()
}

/// Adds the pipes that a mapping needs.
pub open spec fn adds_needed() -> spec_fn(int, MappingContent) -> int {
    |sum: int, m: MappingContent| sum + m.max_pipes
}

/// Whether a mapping needs more than one pipe.
pub open spec fn needs_several() -> spec_fn(MappingContent) -> bool {
    |m: MappingContent| m.max_pipes > 1
}

/// What is suggested for a mapping.
pub open spec fn suggestion_with(lim: PipeLimits) -> spec_fn(MappingContent) -> Seq<char> {
    |m: MappingContent| suggestion(m, lim)
}

/// The number of pipes in use is the sum over the mappings, and so is the number needed.
pub proof fn law_pipe_totals(ms: Seq<MappingContent>)
    ensures
        pipes_used(ms) == ms.fold_left(0, adds_used()),
        pipes_needed(ms) == ms.fold_left(0, adds_needed()),
    decreases ms.len(),
{
    if ms.len() > 0 {
        law_pipe_totals(ms.drop_last());
    }
}

proof fn lemma_suggestions(ms: Seq<MappingContent>, lim: PipeLimits)
    ensures
        suggestions_for(ms, lim) == ms.filter(needs_several()).map_values(suggestion_with(lim)),
    decreases ms.len(),
{
    let wide = needs_several();
    let says = suggestion_with(lim);
    reveal(Seq::filter);
    if ms.len() > 0 {
        let before = ms.drop_last();
        lemma_suggestions(before, lim);
        assert(before.filter(wide).push(ms.last()).map_values(says) =~= before.filter(
            wide,
        ).map_values(says).push(says(ms.last())));
    }
    assert(suggestions_for(ms, lim) =~= ms.filter(wide).map_values(says));
}

/// While a display waits for a pipe, or more pipes are needed than there are, there is one
/// suggestion for each display that needs more than one pipe, in the order of the mappings;
/// if there is no such display, there is one suggestion all the same.
pub proof fn law_suggestions(x: CrossbarContent, lim: PipeLimits, pipe_count: nat)
    requires
        x.pending.len() > 0 || 0 < pipe_count < x.mappings.fold_left(0, adds_needed()),
    ensures
        ({
            let wide = x.mappings.filter(needs_several());
            let all = suggested(Some(x), lim, pipe_count);
            if wide.len() > 0 {
                &&& all.len() == wide.len()
                &&& forall|i: int| 0 <= i < wide.len() ==> all[i] == suggestion(#[trigger] wide[i], lim)
            } else {
                &&& all.len() == 1
                &&& all[0] == no_cause_text(
                    x.mappings.fold_left(0, adds_used()) as nat,
                    pipe_count,
                )
            }
        }),
        forall|i: int|
            0 <= i < x.mappings.len() && (#[trigger] x.mappings[i]).max_pipes > 1 ==> suggested(
                Some(x),
                lim,
                pipe_count,
            ).contains(suggestion(x.mappings[i], lim)),
{
    let wide = needs_several();
    law_pipe_totals(x.mappings);
    lemma_suggestions(x.mappings, lim);
    let all = suggested(Some(x), lim, pipe_count);
    assert forall|i: int| 0 <= i < x.mappings.len() && (#[trigger] x.mappings[i]).max_pipes > 1
        implies all.contains(suggestion(x.mappings[i], lim)) by {
        x.mappings.lemma_filter_contains(wide, i);
        let k = choose|k: int|
            0 <= k < x.mappings.filter(wide).len() && x.mappings.filter(wide)[k] == x.mappings[i];
        assert(all[k] == suggestion(x.mappings[i], lim));
    }
}

/// While there are pipes for all, nothing is suggested, nor without a crossbar.
pub proof fn law_no_suggestions(x: CrossbarContent, lim: PipeLimits, pipe_count: nat)
    requires
        x.pending.len() == 0,
        pipe_count == 0 || pipe_count >= x.mappings.fold_left(0, adds_needed()),
    ensures
        suggested(Some(x), lim, pipe_count).len() == 0,
        suggested(None, lim, pipe_count).len() == 0,
{
    law_pipe_totals(x.mappings);
}

/// The refresh rate that is suggested is the highest whole one, up to 144 hertz, at which the
/// frame stays within the limit of a pipe.
pub proof fn law_suggested_rate(m: MappingContent, lim: PipeLimits, hz: int)
    requires
        0 < m.max_w <= u32::MAX,
        0 < m.max_h <= u32::MAX,
        lim.max_active_pixel_rate >= 0,
        0 <= hz <= 144,
    ensures
        0 <= suggested_hz(m, lim) <= 144,
        m.max_w * m.max_h * hz <= lim.max_active_pixel_rate <==> hz <= suggested_hz(m, lim),
        suggested_hz(m, lim) <= one_pipe_hz(m, lim),
        m.max_w * m.max_h * one_pipe_hz(m, lim) <= lim.max_active_pixel_rate,
        one_pipe_hz(m, lim) < u32::MAX ==> lim.max_active_pixel_rate < m.max_w * m.max_h * (
        one_pipe_hz(m, lim) + 1),
{
    let (w, h) = (m.max_w as u32, m.max_h as u32);
    assert(pixels(m.max_w) == w && pixels(m.max_h) == h);
    limits::law_fitting_hz(w, h, lim.max_active_pixel_rate);
    let area = w * h;
    let most = one_pipe_hz(m, lim);
    assert(0 < area) by (nonlinear_arith)
        requires
            0 < w,
            0 < h,
            area == w * h,
    ;
    if lim.max_active_pixel_rate > 0 {
        vstd::arithmetic::div_mod::lemma_div_pos_is_pos(lim.max_active_pixel_rate as int, area);
    }
    if hz <= most {
        assert(area * hz <= area * most) by (nonlinear_arith)
            requires
                hz <= most,
                area > 0,
        ;
    } else {
        assert(area * (most + 1) <= area * hz) by (nonlinear_arith)
            requires
                most + 1 <= hz,
                area > 0,
        ;
    }
}

/// What is suggested names the display and the rate, and can be run as it stands: it ends with
/// the command that caps that display at that rate.
pub proof fn law_suggestion_names(m: MappingContent, lim: PipeLimits)
    ensures
        ({
            let start = "cap \""@ + m.product_name + "\" to <= "@ + text::dec(
                suggested_hz(m, lim) as nat,
            ) + " Hz ("@;
            let end = " Hz): pipecap cap --display \""@ + m.product_name + "\" --max-hz "@
                + text::dec(suggested_hz(m, lim) as nat);
            let s = suggestion(m, lim);
            &&& start.is_prefix_of(s)
            &&& end.is_suffix_of(s)
            &&& start.len() + end.len() <= s.len()
        }),
{
    let pick = text::dec(suggested_hz(m, lim) as nat);
    let start = "cap \""@ + m.product_name + "\" to <= "@ + pick + " Hz ("@;
    let mid = text::signed_dec(m.max_w as int) + "x"@ + text::signed_dec(m.max_h as int)
        + " fits one pipe up to "@ + text::dec(one_pipe_hz(m, lim) as nat);
    let end = " Hz): pipecap cap --display \""@ + m.product_name + "\" --max-hz "@ + pick;
    let s = suggestion(m, lim);
    assert(s =~= start + mid + end);
}

/// A whole refresh rate in a mode is at most half a hertz away.
pub proof fn law_whole_hz(r: Hz)
    requires
        r.den > 0,
    ensures
        2 * r.num <= 2 * (whole_hz(r) * r.den) + r.den,
        2 * (whole_hz(r) * r.den) <= 2 * r.num + r.den,
{
    let (n, d) = (r.num as int, r.den as int);
    let q = n / d;
    vstd::arithmetic::div_mod::lemma_fundamental_div_mod(n, d);
    assert((q + 1) * d == q * d + d) by (nonlinear_arith);
    assert(q * d == d * q) by (nonlinear_arith);
}

/// Numbers are shown in square brackets, with a comma and a space between neighbours.
pub proof fn law_numbers_text(v: Seq<i64>, n: i64)
    ensures
        numbers_text(Seq::empty()) == seq!['[', ']'],
        numbers_text(seq![n]) == seq!['['] + text::signed_dec(n as int) + seq![']'],
        v.len() > 0 ==> numbers_text(v.push(n)) == numbers_text(v).drop_last() + seq![',', ' ']
            + text::signed_dec(n as int) + seq![']'],
{
    let f = |i: i64| text::signed_dec(i as int);
    reveal_strlit("[");
    reveal_strlit("]");
    reveal_strlit(", ");
    assert("["@ =~= seq!['['] && "]"@ =~= seq![']'] && ", "@ =~= seq![',', ' ']);
    assert(Seq::<i64>::empty().map_values(f) =~= Seq::empty());
    assert(numbers_text(Seq::empty()) =~= seq!['[', ']']);
    assert(seq![n].map_values(f) =~= seq![f(n)]);
    assert(numbers_text(seq![n]) =~= seq!['['] + text::signed_dec(n as int) + seq![']']);
    if v.len() > 0 {
        let parts = v.map_values(f);
        assert(v.push(n).map_values(f) =~= parts.push(f(n)));
        text_laws::law_joined(parts, f(n), ", "@);
        assert(numbers_text(v.push(n)) =~= numbers_text(v).drop_last() + seq![',', ' ']
            + text::signed_dec(n as int) + seq![']']);
    }
}

} // verus!
