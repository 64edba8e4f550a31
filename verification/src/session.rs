//! What `pipecap cap` and `pipecap watch` decide between reading displays and acting on them.

use vstd::prelude::*;

use crate::cap::{CapContent, CapResult};
use crate::describe::{TimingText, TimingWords};
use crate::edid::{EdidContent, EdidInfo};
use crate::limits::{auto_max_hz, PipeLimits};
use crate::rate::{less, Hz, PixelRate};
use crate::registry::{CrossbarContent, CrossbarState, Display, DisplayContent, MappingContent};
use crate::select::{info_of, resolve, InfoError, ResolveError};
use crate::status::gpx;
use crate::text::{push_dec, same_text};
use crate::timing::Timing;
use crate::{block, describe, edid, limits, rate, registry, select, status, text};

verus! {

// ---------------------------------------------------------------------------
// Which display to cap, and at which rate.

/// Why there is nothing to cap.
#[derive(Debug)]
pub enum PlanError {
    /// No display could be chosen.
    NotChosen(ResolveError),
    /// Nothing is known about the display.
    Unknown(InfoError),
    /// No rate was asked for, and the EDID has no timings to pick one from.
    NoTimings,
}

/// A display to cap, and the rate to cap it at.
pub struct Target {
    /// The place of the display among the outputs.
    pub place: usize,
    pub info: EdidInfo,
    pub max_hz: Hz,
    /// Whether the rate was picked, and not asked for.
    pub picked: bool,
}

/// The rate to cap a display at: the one asked for, or else the highest that fits one pipe.
pub open spec fn rate_for(c: EdidContent, asked: Option<Hz>, lim: PipeLimits) -> Option<Hz> {
    match asked {
        Some(h) => Some(h),
        None => match limits::auto_hz(c, lim) {
            Some(n) => Some(Hz { num: n as u64, den: 1 }),
            None => None,
        },
    }
}

/// Whether `t` is the display that is meant, with what its EDID says and the rate for it.
pub open spec fn is_target(
    t: Target,
    ds: Seq<DisplayContent>,
    sel: Option<&str>,
    asked: Option<Hz>,
    lim: PipeLimits,
) -> bool {
    &&& t.place < ds.len()
    &&& select::resolved(ds, sel) == Ok::<int, ResolveError>(t.place as int)
    &&& select::content_of(ds[t.place as int]) == Some(t.info@)
    &&& rate_for(t.info@, asked, lim) == Some(t.max_hz)
    &&& t.picked == (asked is None)
}

/// Whether `e` is why there is nothing to cap.
pub open spec fn is_plan_error(
    e: PlanError,
    ds: Seq<DisplayContent>,
    sel: Option<&str>,
    asked: Option<Hz>,
    lim: PipeLimits,
) -> bool {
    match select::resolved(ds, sel) {
        Err(r) => e == PlanError::NotChosen(r),
        Ok(i) => match select::content_of(ds[i]) {
            None => e matches PlanError::Unknown(e) && select::is_info_error(e, ds[i]),
            Some(c) => rate_for(c, asked, lim) is None && e is NoTimings,
        },
    }
}

/// Chooses the display to cap, and the rate to cap it at.
pub fn plan(displays: &Vec<Display>, sel: Option<&str>, asked: Option<Hz>, lim: &PipeLimits) -> (r:
    Result<Target, PlanError>)
    ensures
        match r {
            Ok(t) => is_target(t, registry::display_contents(displays@), sel, asked, *lim),
            Err(e) => is_plan_error(e, registry::display_contents(displays@), sel, asked, *lim),
        },
{
    let ghost ds = registry::display_contents(displays@);
    let place = match resolve(displays, sel) {
        Ok(i) => i,
        Err(e) => {
            return Err(PlanError::NotChosen(e));
        },
    };
    assert(ds[place as int] == displays@[place as int]@);
    let info = match info_of(&displays[place]) {
        Ok(info) => info,
        Err(e) => {
            return Err(PlanError::Unknown(e));
        },
    };
    let max_hz = match asked {
        Some(h) => h,
        None => match auto_max_hz(&info, lim) {
            Some(n) => Hz::of(n),
            None => {
                return Err(PlanError::NoTimings);
            },
        },
    };
    Ok(Target { place, info, max_hz, picked: asked.is_none() })
}

// ---------------------------------------------------------------------------
// Reporting a cap, and what follows from it.

/// How the numbers in the report on a cap are shown.
pub struct CapTexts {
    /// The rate that was capped at.
    pub max_hz: String,
    /// Each timing that went.
    pub dropped: Vec<TimingText>,
    /// The highest timing that is left, if there is one.
    pub left: TimingText,
    /// The active pixel rate limit of a pipe, in gigapixels per second.
    pub limit: String,
}

/// The lines for the timings that went.
pub open spec fn drop_lines(ts: Seq<Timing>, ws: Seq<TimingWords>) -> Seq<char>
    decreases ts.len(),
{
    if ts.len() == 0 {
        Seq::empty()
    } else {
        let w = ws[ts.len() - 1];
        drop_lines(ts.drop_last(), ws) + "  drop  "@ + ts.last().text(w.hertz, w.megahertz) + "\n"@
    }
}

/// The lines for the notes.
pub open spec fn note_lines(notes: Seq<Seq<char>>) -> Seq<char>
    decreases notes.len(),
{
    if notes.len() == 0 {
        Seq::empty()
    } else {
        note_lines(notes.drop_last()) + "  note  "@ + notes.last() + "\n"@
    }
}

/// The line for the highest timing that is left.
pub open spec fn left_line(t: Timing, w: TimingWords, limit: Seq<char>) -> Seq<char> {
    "  max after cap: "@ + text::dec(t.h_active as nat) + "x"@ + text::dec(t.v_active as nat)
        + " @ "@ + w.hertz + " Hz = "@ + status::gpx_text(w.active) + " active ("@
        + status::gpx_text(limit) + " per pipe)\n"@
}

/// The report on a cap.
pub open spec fn cap_text(
    c: EdidContent,
    r: CapContent,
    max_hz: Seq<char>,
    dropped: Seq<TimingWords>,
    left: TimingWords,
    limit: Seq<char>,
) -> Seq<char> {
    c.label() + " (id "@ + c.id + "): cap at "@ + max_hz + " Hz\n"@ + drop_lines(
        r.dropped,
        dropped,
    ) + note_lines(r.notes) + (match r.max_timing {
        Some(t) => left_line(t, left, limit),
        None => Seq::empty(),
    })
}

fn push_drop_lines(s: &mut String, ts: &Vec<Timing>, shown: &Vec<TimingText>)
    requires
        shown.len() == ts.len(),
    ensures
        final(s)@ == old(s)@ + drop_lines(ts@, describe::timing_words(shown@)),
{
    let ghost ws = describe::timing_words(shown@);
    let mut i: usize = 0;
    assert(s@ =~= old(s)@ + drop_lines(ts@.take(0), ws));
    while i < ts.len()
        invariant
            i <= ts.len(),
            shown.len() == ts.len(),
            ws == describe::timing_words(shown@),
            s@ == old(s)@ + drop_lines(ts@.take(i as int), ws),
        decreases ts.len() - i,
    {
        let line = ts[i].to_text(shown[i].hertz.as_str(), shown[i].megahertz.as_str());
        s.append("  drop  ");
        s.append(line.as_str());
        s.append("\n");
        proof {
            assert(ts@.take(i + 1).drop_last() =~= ts@.take(i as int));
            assert(ws[i as int] == shown@[i as int]@);
            assert(s@ =~= old(s)@ + drop_lines(ts@.take(i + 1), ws));
        }
        i += 1;
    }
    assert(ts@.take(i as int) =~= ts@);
}

fn push_note_lines(s: &mut String, notes: &Vec<String>)
    ensures
        final(s)@ == old(s)@ + note_lines(text::texts(notes@)),
{
    let ghost all = text::texts(notes@);
    let mut i: usize = 0;
    assert(s@ =~= old(s)@ + note_lines(all.take(0)));
    while i < notes.len()
        invariant
            i <= notes.len(),
            all == text::texts(notes@),
            s@ == old(s)@ + note_lines(all.take(i as int)),
        decreases notes.len() - i,
    {
        s.append("  note  ");
        s.append(notes[i].as_str());
        s.append("\n");
        proof {
            assert(all.take(i + 1).drop_last() =~= all.take(i as int));
            assert(all.take(i + 1).last() == notes@[i as int]@);
            assert(s@ =~= old(s)@ + note_lines(all.take(i + 1)));
        }
        i += 1;
    }
    assert(all.take(i as int) =~= all);
}

fn push_left_line(s: &mut String, t: &Timing, w: &TimingText, limit: &str)
    ensures
        final(s)@ == old(s)@ + left_line(*t, w@, limit@),
{
    let active = gpx(w.active.as_str());
    let per_pipe = gpx(limit);
    s.append("  max after cap: ");
    push_dec(s, t.h_active as u128);
    s.append("x");
    push_dec(s, t.v_active as u128);
    s.append(" @ ");
    s.append(w.hertz.as_str());
    s.append(" Hz = ");
    s.append(active.as_str());
    s.append(" active (");
    s.append(per_pipe.as_str());
    s.append(" per pipe)\n");
    assert(s@ =~= old(s)@ + left_line(*t, w@, limit@));
}

/// Renders the report on a cap.
pub fn render_cap(info: &EdidInfo, r: &CapResult, shown: &CapTexts) -> (s: String)
    requires
        shown.dropped.len() == r.dropped.len(),
    ensures
        s@ == cap_text(
            info@,
            r@,
            shown.max_hz@,
            describe::timing_words(shown.dropped@),
            shown.left@,
            shown.limit@,
        ),
{
    let mut s = info.label();
    s.append(" (id ");
    s.append(info.id.as_str());
    s.append("): cap at ");
    s.append(shown.max_hz.as_str());
    s.append(" Hz\n");
    push_drop_lines(&mut s, &r.dropped, &shown.dropped);
    push_note_lines(&mut s, &r.notes);
    if let Some(t) = &r.max_timing {
        push_left_line(&mut s, t, &shown.left, shown.limit.as_str());
    }
    assert(s@ =~= cap_text(
        info@,
        r@,
        shown.max_hz@,
        describe::timing_words(shown.dropped@),
        shown.left@,
        shown.limit@,
    ));
    s
}

/// What follows from a cap.
#[derive(Debug, Clone, Copy, PartialEq, Eq, Structural)]
pub enum CapStep {
    /// The EDID already has no mode above the cap.
    NothingToDo,
    /// It was only asked what would change.
    DryRun,
    /// Keep the original EDID and apply the capped one.
    Apply,
}

/// What follows from a cap.
pub fn cap_step(unchanged: bool, dry_run: bool) -> (step: CapStep)
    ensures
        step == (if unchanged {
            CapStep::NothingToDo
        } else if dry_run {
            CapStep::DryRun
        } else {
            CapStep::Apply
        }),
{
    if unchanged {
        CapStep::NothingToDo
    } else if dry_run {
        CapStep::DryRun
    } else {
        CapStep::Apply
    }
}

/// Whether the original EDID of a display has to be written before a capped one is applied:
/// once, and never over a saved one.
pub fn backup_step(saved: bool) -> (write: bool)
    ensures
        write == !saved,
{
    !saved
}

/// What waiting for the crossbar leads to.
#[derive(Debug, Clone, Copy, PartialEq, Eq, Structural)]
pub enum WaitStep {
    /// There is no time to wait: do not even begin.
    Skip,
    /// The crossbar has settled.
    Done,
    /// Look at the crossbar once more.
    Poll,
    /// The time is used up.
    GiveUp,
}

/// What waiting for the crossbar leads to, when `elapsed_ms` of `timeout_secs` are gone.
pub fn wait_step(settled: bool, elapsed_ms: u128, timeout_secs: u64) -> (s: WaitStep)
    ensures
        s == (if timeout_secs == 0 {
            WaitStep::Skip
        } else if settled {
            WaitStep::Done
        } else if elapsed_ms < 1000 * timeout_secs {
            WaitStep::Poll
        } else {
            WaitStep::GiveUp
        }),
{
    if timeout_secs == 0 {
        WaitStep::Skip
    } else if settled {
        WaitStep::Done
    } else if elapsed_ms < 1000 * (timeout_secs as u128) {
        WaitStep::Poll
    } else {
        WaitStep::GiveUp
    }
}

/// The pause between two looks at the crossbar, in seconds: the one asked for, but at least
/// one second.
pub fn pause_secs(interval: u64) -> (p: u64)
    ensures
        p == (if interval == 0 {
            1
        } else {
            interval
        }),
{
    if interval == 0 {
        1
    } else {
        interval
    }
}

// ---------------------------------------------------------------------------
// Watching the crossbar.

/// The first mapping that describes the display with the given EDID, if one does.
pub open spec fn mapping_for(ms: Seq<MappingContent>, c: EdidContent) -> Option<MappingContent>
    decreases ms.len(),
{
    if ms.len() == 0 {
        None
    } else if ms[0].describes(c) {
        Some(ms[0])
    } else {
        mapping_for(ms.drop_first(), c)
    }
}

fn find_mapping(x: &CrossbarState, info: &EdidInfo) -> (r: Option<usize>)
    ensures
        match r {
            Some(i) => i < x.mappings.len() && mapping_for(x@.mappings, info@) == Some(
                x.mappings@[i as int]@,
            ),
            None => mapping_for(x@.mappings, info@) is None,
        },
{
    let ghost all = x@.mappings;
    let mut i: usize = 0;
    assert(all.skip(0) =~= all);
    while i < x.mappings.len()
        invariant
            i <= x.mappings.len(),
            all == registry::mapping_contents(x.mappings@),
            mapping_for(all, info@) == mapping_for(all.skip(i as int), info@),
        decreases x.mappings.len() - i,
    {
        assert(all.skip(i as int)[0] == x.mappings@[i as int]@);
        assert(all.skip(i as int).drop_first() =~= all.skip(i + 1));
        if x.mappings[i].matches(info) {
            return Some(i);
        }
        i += 1;
    }
    None
}

/// Whether the crossbar has settled on at most `want_pipes` pipes for the display, and
/// nothing is waiting for one.
pub open spec fn settled(x: CrossbarContent, c: EdidContent, want_pipes: i64) -> bool {
    mapping_for(x.mappings, c) matches Some(m) && m.max_pipes <= want_pipes && m.pipe_ids.len() > 0
        && x.pending.len() == 0
}

/// Whether the crossbar has settled on at most `want_pipes` pipes for the display, and
/// nothing is waiting for one.
pub fn has_settled(x: &CrossbarState, info: &EdidInfo, want_pipes: i64) -> (r: bool)
    ensures
        r == settled(x@, info@, want_pipes),
{
    match find_mapping(x, info) {
        Some(i) => x.mappings[i].max_pipes <= want_pipes && x.mappings[i].pipe_ids.len() > 0
            && x.pending.len() == 0,
        None => false,
    }
}

/// A capped EDID that is kept applied.
pub struct Capped {
    /// The id of the display.
    pub id: String,
    pub bytes: Vec<u8>,
    /// The highest timing that is left.
    pub max_timing: Option<Timing>,
}

/// The active pixel rate of a timing that may be missing.
pub open spec fn rate_of(t: Option<Timing>) -> PixelRate {
    match t {
        Some(t) => t.active_rate(),
        None => PixelRate { num: 0, den: 1 },
    }
}

/// Whether what is kept is for the display with the given EDID.
pub open spec fn is_kept(cached: Option<Capped>, c: EdidContent) -> bool {
    cached matches Some(k) && k.id@ == c.id
}

/// What to do next to keep a cap applied.
pub enum Need {
    /// The display is not connected: nothing.
    Nothing,
    /// The display has to be capped first.
    Cap(Target),
    /// The display is capped already: look at the crossbar.
    Look(Target),
}

/// Finds out what to do next to keep a cap applied.
pub fn watch_need(
    displays: &Vec<Display>,
    sel: Option<&str>,
    asked: Option<Hz>,
    lim: &PipeLimits,
    cached: &Option<Capped>,
) -> (r: Result<Need, PlanError>)
    ensures
        ({
            let ds = registry::display_contents(displays@);
            match r {
                Ok(Need::Nothing) => select::resolved(ds, sel) is Err,
                Ok(Need::Cap(t)) => is_target(t, ds, sel, asked, *lim) && !is_kept(
                    *cached,
                    t.info@,
                ),
                Ok(Need::Look(t)) => is_target(t, ds, sel, asked, *lim) && is_kept(
                    *cached,
                    t.info@,
                ),
                Err(e) => select::resolved(ds, sel) is Ok && is_plan_error(
                    e,
                    ds,
                    sel,
                    asked,
                    *lim,
                ),
            }
        }),
{
    match plan(displays, sel, asked, lim) {
        Ok(t) => {
            let known = match cached {
                Some(k) => same_text(k.id.as_str(), t.info.id.as_str()),
                None => false,
            };
            if known {
                Ok(Need::Look(t))
            } else {
                Ok(Need::Cap(t))
            }
        },
        Err(PlanError::NotChosen(_)) => Ok(Need::Nothing),
        Err(e) => Err(e),
    }
}

/// Keeps the outcome of a cap.
pub fn remember(info: &EdidInfo, r: CapResult) -> (k: Capped)
    ensures
        k.id@ == info@.id,
        k.bytes@ == r@.bytes,
        k.max_timing == r@.max_timing,
{
    Capped { id: info.id.clone(), bytes: r.bytes, max_timing: r.max_timing }
}

/// Whether `seen` pixels per second are more than a thousandth above a rate.
pub open spec fn exceeds(seen: i64, rate: PixelRate) -> bool {
    rate::fraction_less(rate.num as int, rate.den as int, 1000 * seen, 1001)
}

/// The rate that the crossbar sees of a display, if it is above that of the capped EDID.
pub open spec fn seen_above(x: Option<CrossbarContent>, c: EdidContent, rate: PixelRate) -> Option<
    i64,
> {
    match x {
        Some(x) => match mapping_for(x.mappings, c) {
            Some(m) if exceeds(m.max_active_pixel_rate, rate) => Some(m.max_active_pixel_rate),
            _ => None,
        },
        None => None,
    }
}

/// Whether the cap has to be applied again: the rate that the crossbar sees of the display,
/// if it is above that of the capped EDID.
pub fn reapply(x: &Option<CrossbarState>, info: &EdidInfo, entry: &Capped) -> (r: Option<i64>)
    ensures
        r == seen_above(status::maybe_crossbar(*x), info@, rate_of(entry.max_timing)),
{
    let x = match x {
        Some(x) => x,
        None => {
            return None;
        },
    };
    let i = match find_mapping(x, info) {
        Some(i) => i,
        None => {
            return None;
        },
    };
    let seen = x.mappings[i].max_active_pixel_rate;
    let rate = match &entry.max_timing {
        Some(t) => t.active_pixel_rate(),
        None => PixelRate { num: 0, den: 1 },
    };
    if seen <= 0 {
        assert(rate.num * 1001 >= 1000 * seen * rate.den) by (nonlinear_arith)
            requires
                seen <= 0,
                rate.num >= 0,
                rate.den >= 0,
        ;
        return None;
    }
    if less(rate.num, rate.den, 1000 * (seen as u128), 1001) {
        Some(seen)
    } else {
        None
    }
}

/// What a look at the crossbar leads to, with the rate that it sees of the display.
#[derive(Debug, Clone, Copy, PartialEq, Eq, Structural)]
pub enum WatchStep {
    /// The cap holds: nothing.
    Nothing,
    /// Apply the capped EDID; the original one is saved already.
    Apply(i64),
    /// Save the original EDID, then apply the capped one.
    SaveThenApply(i64),
}

/// What a look at the crossbar leads to, when it is known whether the original EDID of the
/// display is saved: no capped EDID is applied before the original one is.
pub fn watch_step(
    x: &Option<CrossbarState>,
    info: &EdidInfo,
    entry: &Capped,
    saved: bool,
) -> (s: WatchStep)
    ensures
        s == (match seen_above(status::maybe_crossbar(*x), info@, rate_of(entry.max_timing)) {
            None => WatchStep::Nothing,
            Some(r) => if saved {
                WatchStep::Apply(r)
            } else {
                WatchStep::SaveThenApply(r)
            },
        }),
{
    match reapply(x, info, entry) {
        None => WatchStep::Nothing,
        Some(r) => if backup_step(saved) {
            WatchStep::SaveThenApply(r)
        } else {
            WatchStep::Apply(r)
        },
    }
}

/// A display that the crossbar sees at the rate of its capped EDID, or below, is left alone.
pub proof fn law_capped_display_is_left_alone(
    x: CrossbarContent,
    c: EdidContent,
    rate: PixelRate,
)
    requires
        rate.den > 0,
        mapping_for(x.mappings, c) matches Some(m) ==> m.max_active_pixel_rate * rate.den
            <= rate.num,
    ensures
        seen_above(Some(x), c, rate) is None,
{
    if let Some(m) = mapping_for(x.mappings, c) {
        let seen = m.max_active_pixel_rate;
        assert(rate.num * 1001 >= 1000 * seen * rate.den) by (nonlinear_arith)
            requires
                seen * rate.den <= rate.num,
                rate.num >= 0,
        ;
    }
}

/// The mapping that is found is the first that describes the display; none is found only
/// when no mapping describes it.
pub proof fn law_first_mapping(ms: Seq<MappingContent>, c: EdidContent)
    ensures
        match mapping_for(ms, c) {
            Some(m) => exists|i: int| is_first_mapping(ms, c, i) && ms[i] == m,
            None => forall|i: int| 0 <= i < ms.len() ==> !(#[trigger] ms[i]).describes(c),
        },
    decreases ms.len(),
{
    if ms.len() > 0 && !ms[0].describes(c) {
        let rest = ms.drop_first();
        law_first_mapping(rest, c);
        match mapping_for(rest, c) {
            Some(m) => {
                let i = choose|i: int| is_first_mapping(rest, c, i) && rest[i] == m;
                assert forall|j: int| 0 <= j < i + 1 implies !(#[trigger] ms[j]).describes(c) by {
                    if j > 0 {
                        assert(rest[j - 1] == ms[j]);
                    }
                }
                assert(is_first_mapping(ms, c, i + 1) && ms[i + 1] == m);
            },
            None => {
                assert forall|j: int| 0 <= j < ms.len() implies !(#[trigger] ms[j]).describes(c) by {
                    if j > 0 {
                        assert(rest[j - 1] == ms[j]);
                    }
                }
            },
        }
    } else if ms.len() > 0 {
        assert(is_first_mapping(ms, c, 0));
    }
}

/// Whether mapping `i` describes the display, and none before it does.
pub open spec fn is_first_mapping(ms: Seq<MappingContent>, c: EdidContent, i: int) -> bool {
    &&& 0 <= i < ms.len()
    &&& ms[i].describes(c)
    &&& forall|j: int| 0 <= j < i ==> !(#[trigger] ms[j]).describes(c)
}

proof fn lemma_first_mapping(ms: Seq<MappingContent>, c: EdidContent, i: int)
    requires
        is_first_mapping(ms, c, i),
    ensures
        mapping_for(ms, c) == Some(ms[i]),
{
    law_first_mapping(ms, c);
    if mapping_for(ms, c) is None {
        assert(ms[i].describes(c));
    }
    let k = choose|k: int| is_first_mapping(ms, c, k) && ms[k] == mapping_for(ms, c)->0;
    if k < i {
        assert(ms[k].describes(c));
    }
    if i < k {
        assert(ms[i].describes(c));
    }
}

/// A display that the crossbar describes, wherever in its list, is capped again exactly when
/// it is seen at more than 1.001 times the rate of its capped EDID.
pub proof fn law_lost_cap_is_applied_again(
    x: CrossbarContent,
    c: EdidContent,
    rate: PixelRate,
    i: int,
)
    requires
        0 <= i < x.mappings.len(),
        x.mappings[i].describes(c),
        forall|j: int| 0 <= j < i ==> !(#[trigger] x.mappings[j]).describes(c),
    ensures
        seen_above(Some(x), c, rate) == (if 1000 * (x.mappings[i].max_active_pixel_rate * rate.den)
            > 1001 * rate.num {
            Some(x.mappings[i].max_active_pixel_rate)
        } else {
            None
        }),
{
    lemma_first_mapping(x.mappings, c, i);
    let seen = x.mappings[i].max_active_pixel_rate as int;
    let (n, d) = (rate.num as int, rate.den as int);
    assert((1000 * seen) * d == 1000 * (seen * d)) by (nonlinear_arith);
    assert(n * 1001 == 1001 * n) by (nonlinear_arith);
}

/// A display that no mapping describes is left alone, and so is every display without a
/// crossbar.
pub proof fn law_unknown_display_is_left_alone(x: CrossbarContent, c: EdidContent, rate: PixelRate)
    requires
        forall|i: int| 0 <= i < x.mappings.len() ==> !(#[trigger] x.mappings[i]).describes(c),
    ensures
        seen_above(Some(x), c, rate) is None,
        seen_above(None, c, rate) is None,
        forall|want: i64| !#[trigger] settled(x, c, want),
{
    law_first_mapping(x.mappings, c);
}

/// The crossbar has settled exactly when the first mapping that describes the display needs
/// no more pipes than wanted and has one, and nothing is waiting for a pipe.
pub proof fn law_settled(x: CrossbarContent, c: EdidContent, want_pipes: i64, i: int)
    requires
        0 <= i < x.mappings.len(),
        x.mappings[i].describes(c),
        forall|j: int| 0 <= j < i ==> !(#[trigger] x.mappings[j]).describes(c),
    ensures
        settled(x, c, want_pipes) <==> x.mappings[i].max_pipes <= want_pipes
            && x.mappings[i].pipe_ids.len() >= 1 && x.pending =~= Seq::empty(),
{
    lemma_first_mapping(x.mappings, c, i);
}

/// The rate that a capped display may be seen at: the active pixels of its highest timing
/// times its refresh rate; nothing when it has none.
pub proof fn law_capped_rate(t: Timing)
    requires
        t.refresh_hz.den > 0,
    ensures
        rate_of(Some(t)).num == t.h_active * t.v_active * t.refresh_hz.num,
        rate_of(Some(t)).den == t.refresh_hz.den,
        rate_of(None).num == 0,
        rate_of(None).den > 0,
{
    let area = t.h_active * t.v_active;
    assert(0 <= area <= 0xffff_ffff * 0xffff_ffff) by (nonlinear_arith)
        requires
            area == t.h_active * t.v_active,
            0 <= t.h_active <= 0xffff_ffff,
            0 <= t.v_active <= 0xffff_ffff,
    ;
    assert(0 <= area * t.refresh_hz.num <= u64::MAX * u64::MAX) by (nonlinear_arith)
        requires
            0 <= area <= u64::MAX,
            0 <= t.refresh_hz.num <= u64::MAX,
    ;
}

/// A rate that was asked for is the rate to cap at; without one it is the rate that is picked.
pub proof fn law_rate_for(c: EdidContent, asked: Hz, lim: PipeLimits)
    ensures
        rate_for(c, Some(asked), lim) == Some(asked),
        rate_for(c, None, lim) matches Some(h) ==> h.den == 1 && limits::auto_hz(c, lim) == Some(
            h.num as int,
        ),
        rate_for(c, None, lim) is None <==> forall|i: int|
            0 <= i < c.timings.len() ==> (#[trigger] c.timings[i]).interlaced,
{
    limits::law_auto_hz_when(c, lim);
    if limits::auto_hz(c, lim) is Some {
        limits::law_auto_hz_fits(c, lim);
    }
}

/// What is kept is for a display exactly when it was kept under its id: what was kept for another
/// display is never applied to it.
pub proof fn law_kept(k: Capped, c: EdidContent)
    ensures
        is_kept(Some(k), c) <==> k.id@ == c.id,
        !is_kept(None, c),
{
}

/// A target is the display that is meant, with what its EDID says; it is capped at the rate asked
/// for, or else at the highest whole rate that fits one pipe.
pub proof fn law_target(
    t: Target,
    ds: Seq<DisplayContent>,
    sel: Option<&str>,
    asked: Option<Hz>,
    lim: PipeLimits,
)
    requires
        is_target(t, ds, sel, asked, lim),
    ensures
        0 <= t.place < ds.len(),
        select::resolved(ds, sel) == Ok::<int, ResolveError>(t.place as int),
        ds[t.place as int].edid matches Some(e) && e.len() >= 128 && block::has_header(e) && t.info@
            == edid::edid_content(e),
        match asked {
            Some(h) => t.max_hz == h && !t.picked,
            None => t.picked && t.max_hz.den == 1 && limits::auto_hz(t.info@, lim) == Some(
                t.max_hz.num as int,
            ),
        },
{
    if asked is None {
        limits::law_auto_hz_fits(t.info@, lim);
    }
}

/// There is something to cap exactly when a display is meant, its EDID can be read, and a rate is
/// asked for or there is a progressive timing to pick one from.
pub proof fn law_no_target(
    e: PlanError,
    ds: Seq<DisplayContent>,
    sel: Option<&str>,
    asked: Option<Hz>,
    lim: PipeLimits,
)
    requires
        is_plan_error(e, ds, sel, asked, lim),
    ensures
        match select::resolved(ds, sel) {
            Err(r) => e == PlanError::NotChosen(r),
            Ok(i) => match ds[i].edid {
                None => e matches PlanError::Unknown(InfoError::NoEdid { index, status }) && index
                    == ds[i].index && status == ds[i].copy_edid_status,
                Some(b) => if b.len() < 128 || !block::has_header(b) {
                    e matches PlanError::Unknown(InfoError::Unreadable(_))
                } else {
                    e is NoTimings && asked is None && forall|k: int|
                        0 <= k < edid::edid_content(b).timings.len() ==> (
                        #[trigger] edid::edid_content(b).timings[k]).interlaced
                },
            },
        },
{
    if let Ok(i) = select::resolved(ds, sel) {
        if let Some(b) = ds[i].edid {
            if b.len() >= 128 && block::has_header(b) {
                let c = edid::edid_content(b);
                limits::law_auto_hz_when(c, lim);
            }
        }
    }
}

} // verus!
