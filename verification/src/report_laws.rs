//! What the reports show.

use vstd::prelude::*;

use crate::block::EdidError;
use crate::cap::CapContent;
use crate::describe::TimingWords;
use crate::edid::{EdidContent, RangeLimits};
use crate::registry::{DisplayContent, FramebufferContent, MappingContent};
use crate::select::ResolveError;
use crate::status::{StatusContent, SummaryContent};
use crate::timing::{Timing, TimingSource};
use crate::{block, describe, edid, registry, select, session, status, text, text_laws};

verus! {

// ---------------------------------------------------------------------------
// Timings.

/// A timing is shown with its frame size, its refresh rate, its pixel clock and its source; an
/// interlaced one is marked.
pub proof fn law_timing_text(t: Timing, hertz: Seq<char>, megahertz: Seq<char>)
    ensures
        ({
            let start = text::dec(t.h_active as nat).push('x') + text::dec(t.v_active as nat);
            let mark = if t.interlaced {
                seq!['i']
            } else {
                Seq::empty()
            };
            let end = " @ "@ + hertz + " Hz ("@ + megahertz + " MHz, "@ + t.source.text() + ")"@;
            t.text(hertz, megahertz) == start + mark + end
        }),
{
    reveal_strlit("x");
    reveal_strlit("i");
    reveal_strlit("");
    assert("x"@ =~= seq!['x'] && "i"@ =~= seq!['i'] && ""@ =~= Seq::<char>::empty());
    let start = text::dec(t.h_active as nat).push('x') + text::dec(t.v_active as nat);
    let mark = if t.interlaced {
        seq!['i']
    } else {
        Seq::empty()
    };
    let end = " @ "@ + hertz + " Hz ("@ + megahertz + " MHz, "@ + t.source.text() + ")"@;
    assert(t.text(hertz, megahertz) =~= start + mark + end);
}

proof fn lemma_timing_lines(
    ts: Seq<Timing>,
    ws: Seq<TimingWords>,
    order: Seq<int>,
    k: int,
)
    requires
        0 <= k < order.len(),
    ensures
        text_laws::holds(
            describe::timing_lines(ts, ws, order),
            describe::timing_line(ts[order[k]], ws[order[k]]),
        ),
    decreases order.len(),
{
    let line = describe::timing_line(ts[order[k]], ws[order[k]]);
    let before = describe::timing_lines(ts, ws, order.drop_last());
    if k < order.len() - 1 {
        lemma_timing_lines(ts, ws, order.drop_last(), k);
        text_laws::lemma_still_holds(
            before,
            line,
            describe::timing_line(ts[order.last()], ws[order.last()]),
        );
    } else {
        text_laws::lemma_holds(before, line);
    }
}

/// The description of an EDID shows every timing that it advertises, and begins with the label of
/// the display.
pub proof fn law_description(c: EdidContent, ws: Seq<TimingWords>, hertz: Seq<char>, i: int)
    requires
        0 <= i < c.timings.len(),
    ensures
        text_laws::holds(
            describe::description(c, ws, hertz),
            c.timings[i].text(ws[i].hertz, ws[i].megahertz),
        ),
        c.label().is_prefix_of(describe::description(c, ws, hertz)),
        c.range_limits matches Some(rl) ==> text_laws::holds(
            describe::description(c, ws, hertz),
            describe::limits_line(rl),
        ),
        edid::highest(c.timings) matches Some(t) ==> text_laws::holds(
            describe::description(c, ws, hertz),
            "max: "@ + text::dec(t.h_active as nat) + "x"@ + text::dec(t.v_active as nat) + " @ "@
                + hertz + " Hz\n"@,
        ),
{
    let all = describe::description(c, ws, hertz);
    let order = describe::ranking(c.timings, c.timings.len());
    let lines = describe::timing_lines(c.timings, ws, order);
    let shown = c.timings[i].text(ws[i].hertz, ws[i].megahertz);
    let line = describe::timing_line(c.timings[i], ws[i]);
    let head = describe::head_line(c) + "blocks: "@ + text::joined(c.blocks, ", "@) + "\n"@;
    let limits = match c.range_limits {
        Some(rl) => describe::limits_line(rl),
        None => Seq::empty(),
    };
    let end = match edid::highest(c.timings) {
        Some(t) => describe::highest_line(t, hertz),
        None => Seq::empty(),
    };
    assert(all == head + limits + "timings:\n"@ + lines + end);
    describe::law_ranking(c.timings, c.timings.len());
    assert(order.contains(i));
    let k = choose|k: int| 0 <= k < order.len() && order[k] == i;
    lemma_timing_lines(c.timings, ws, order, k);
    lemma_line_shows(c.timings[i], ws[i]);
    text_laws::lemma_holds_within(lines, line, shown);
    text_laws::lemma_still_holds(lines, shown, head + limits + "timings:\n"@);
    text_laws::lemma_still_holds(head + limits + "timings:\n"@ + lines, shown, end);
    text_laws::lemma_holds(head, limits);
    text_laws::lemma_still_holds(head + limits, limits, "timings:\n"@);
    text_laws::lemma_still_holds(head + limits + "timings:\n"@, limits, lines);
    text_laws::lemma_still_holds(head + limits + "timings:\n"@ + lines, limits, end);
    text_laws::lemma_holds(head + limits + "timings:\n"@ + lines, end);
    assert(c.label() =~= all.subrange(0, c.label().len() as int)) by {
        lemma_begins(c, head, all);
    }
}

proof fn lemma_begins(c: EdidContent, head: Seq<char>, all: Seq<char>)
    requires
        head == describe::head_line(c) + "blocks: "@ + text::joined(c.blocks, ", "@) + "\n"@,
        head.is_prefix_of(all),
    ensures
        c.label().is_prefix_of(all),
{
    let first = describe::head_line(c);
    assert(first =~= head.subrange(0, first.len() as int));
    assert(c.label() =~= first.subrange(0, c.label().len() as int));
    assert(c.label() =~= all.subrange(0, c.label().len() as int)) by {
        assert forall|k: int| 0 <= k < c.label().len() implies c.label()[k] == all[k] by {
            assert(all.subrange(0, head.len() as int)[k] == head[k]);
            assert(head.subrange(0, first.len() as int)[k] == first[k]);
        }
    }
}

proof fn lemma_line_shows(t: Timing, w: TimingWords)
    ensures
        text_laws::holds(describe::timing_line(t, w), t.text(w.hertz, w.megahertz)),
{
    let shown = t.text(w.hertz, w.megahertz);
    let wide = text::left_aligned(shown, 52);
    text_laws::law_aligned(shown, 52);
    assert(wide =~= Seq::<char>::empty() + shown + wide.skip(shown.len() as int)) by {
        assert(wide.take(shown.len() as int) == shown);
        assert forall|k: int| 0 <= k < shown.len() implies wide[k] == shown[k] by {
            assert(wide.take(shown.len() as int)[k] == wide[k]);
        }
    }
    assert(text_laws::holds(wide, shown));
    let more = " active "@;
    text_laws::lemma_still_holds(wide, shown, "  "@);
    text_laws::lemma_still_holds("  "@ + wide, shown, more);
    let a = text::right_aligned(w.active, 6);
    let b = text::right_aligned(w.total, 6);
    text_laws::lemma_still_holds("  "@ + wide + more, shown, a);
    text_laws::lemma_still_holds("  "@ + wide + more + a, shown, " Gpx/s  total "@);
    text_laws::lemma_still_holds("  "@ + wide + more + a + " Gpx/s  total "@, shown, b);
    text_laws::lemma_still_holds(
        "  "@ + wide + more + a + " Gpx/s  total "@ + b,
        shown,
        " Gpx/s\n"@,
    );
}

/// The report on a cap shows every timing that went and every note.
pub proof fn law_cap_text(
    c: EdidContent,
    r: CapContent,
    max_hz: Seq<char>,
    dropped: Seq<TimingWords>,
    left: TimingWords,
    limit: Seq<char>,
    i: int,
)
    ensures
        0 <= i < r.dropped.len() ==> text_laws::holds(
            session::cap_text(c, r, max_hz, dropped, left, limit),
            "  drop  "@ + r.dropped[i].text(dropped[i].hertz, dropped[i].megahertz) + "\n"@,
        ),
        0 <= i < r.notes.len() ==> text_laws::holds(
            session::cap_text(c, r, max_hz, dropped, left, limit),
            "  note  "@ + r.notes[i] + "\n"@,
        ),
{
    let drops = session::drop_lines(r.dropped, dropped);
    let notes = session::note_lines(r.notes);
    let head = c.label() + " (id "@ + c.id + "): cap at "@ + max_hz + " Hz\n"@;
    let end = match r.max_timing {
        Some(t) => session::left_line(t, left, limit),
        None => Seq::empty(),
    };
    assert(session::cap_text(c, r, max_hz, dropped, left, limit) == head + drops + notes + end);
    if 0 <= i < r.dropped.len() {
        let line = "  drop  "@ + r.dropped[i].text(dropped[i].hertz, dropped[i].megahertz)
            + "\n"@;
        lemma_drop_lines(r.dropped, dropped, i);
        text_laws::lemma_still_holds(drops, line, head);
        text_laws::lemma_still_holds(head + drops, line, notes);
        text_laws::lemma_still_holds(head + drops + notes, line, end);
    }
    if 0 <= i < r.notes.len() {
        let line = "  note  "@ + r.notes[i] + "\n"@;
        lemma_note_lines(r.notes, i);
        text_laws::lemma_still_holds(notes, line, head + drops);
        text_laws::lemma_still_holds(head + drops + notes, line, end);
    }
}

proof fn lemma_drop_lines(ts: Seq<Timing>, ws: Seq<TimingWords>, i: int)
    requires
        0 <= i < ts.len(),
    ensures
        text_laws::holds(
            session::drop_lines(ts, ws),
            "  drop  "@ + ts[i].text(ws[i].hertz, ws[i].megahertz) + "\n"@,
        ),
    decreases ts.len(),
{
    let n = ts.len() - 1;
    let line = "  drop  "@ + ts[i].text(ws[i].hertz, ws[i].megahertz) + "\n"@;
    let last = "  drop  "@ + ts[n].text(ws[n].hertz, ws[n].megahertz) + "\n"@;
    let before = session::drop_lines(ts.drop_last(), ws);
    assert(session::drop_lines(ts, ws) =~= before + last);
    if i < n {
        lemma_drop_lines(ts.drop_last(), ws, i);
        text_laws::lemma_still_holds(before, line, last);
    } else {
        text_laws::lemma_holds(before, line);
    }
}

proof fn lemma_note_lines(notes: Seq<Seq<char>>, i: int)
    requires
        0 <= i < notes.len(),
    ensures
        text_laws::holds(session::note_lines(notes), "  note  "@ + notes[i] + "\n"@),
    decreases notes.len(),
{
    let line = "  note  "@ + notes[i] + "\n"@;
    let last = "  note  "@ + notes.last() + "\n"@;
    let before = session::note_lines(notes.drop_last());
    assert(session::note_lines(notes) =~= before + last);
    if i < notes.len() - 1 {
        lemma_note_lines(notes.drop_last(), i);
        text_laws::lemma_still_holds(before, line, last);
    } else {
        text_laws::lemma_holds(before, line);
    }
}

// ---------------------------------------------------------------------------
// The state of the pipes.

/// Whether framebuffer `i` is the first with the given name.
pub open spec fn is_first_named(fs: Seq<FramebufferContent>, name: Seq<char>, i: int) -> bool {
    &&& 0 <= i < fs.len()
    &&& fs[i].product_name == name
    &&& forall|j: int| 0 <= j < i ==> (#[trigger] fs[j]).product_name != name
}

proof fn lemma_first_named(fs: Seq<FramebufferContent>, name: Seq<char>)
    ensures
        match status::framebuffer_named(fs, name) {
            Some(f) => exists|i: int| is_first_named(fs, name, i) && fs[i] == f,
            None => forall|i: int| 0 <= i < fs.len() ==> (#[trigger] fs[i]).product_name != name,
        },
    decreases fs.len(),
{
    if fs.len() > 0 {
        let rest = fs.drop_first();
        if fs[0].product_name == name {
            assert(is_first_named(fs, name, 0));
        } else {
            lemma_first_named(rest, name);
            assert forall|j: int| 1 <= j < fs.len() implies #[trigger] fs[j] == rest[j - 1] by {}
            if let Some(f) = status::framebuffer_named(rest, name) {
                let i = choose|i: int| is_first_named(rest, name, i) && rest[i] == f;
                assert forall|j: int| 0 <= j < i + 1 implies (#[trigger] fs[j]).product_name
                    != name by {
                    if j > 0 {
                        assert(rest[j - 1] == fs[j]);
                    }
                }
                assert(is_first_named(fs, name, i + 1) && fs[i + 1] == f);
            }
        }
    }
}

/// A display that is lit up is active, up to the rate of the first framebuffer with its name; one
/// that is not has a pipe, or it has none.
pub proof fn law_state(m: MappingContent, fs: Seq<FramebufferContent>, i: int)
    ensures
        is_first_named(fs, m.product_name, i) ==> status::state_text(m, fs) == "active, up to "@
            + text::signed_dec(fs[i].max_refresh_hz as int) + " Hz ("@ + fs[i].pipe + ")"@,
        (forall|j: int| 0 <= j < fs.len() ==> (#[trigger] fs[j]).product_name != m.product_name)
            ==> status::state_text(m, fs) == (if m.pipe_ids.len() == 0 {
            "NO PIPE"@
        } else {
            "assigned"@
        }),
{
    lemma_first_named(fs, m.product_name);
    if is_first_named(fs, m.product_name, i) {
        if status::framebuffer_named(fs, m.product_name) is None {
            assert(fs[i].product_name != m.product_name);
        }
        let f = status::framebuffer_named(fs, m.product_name)->0;
        let k = choose|k: int| is_first_named(fs, m.product_name, k) && fs[k] == f;
        if k < i {
            assert(fs[k].product_name != m.product_name);
        }
        if i < k {
            assert(fs[i].product_name != m.product_name);
        }
    }
}

proof fn lemma_mapping_lines(
    ms: Seq<MappingContent>,
    fs: Seq<FramebufferContent>,
    rates: Seq<Seq<char>>,
    i: int,
)
    requires
        0 <= i < ms.len(),
    ensures
        text_laws::holds(
            status::mapping_lines(ms, fs, rates),
            status::mapping_line(ms[i], fs, rates[i]),
        ),
    decreases ms.len(),
{
    let line = status::mapping_line(ms[i], fs, rates[i]);
    let before = status::mapping_lines(ms.drop_last(), fs, rates);
    if i < ms.len() - 1 {
        lemma_mapping_lines(ms.drop_last(), fs, rates, i);
        text_laws::lemma_still_holds(
            before,
            line,
            status::mapping_line(ms.last(), fs, rates[ms.len() - 1]),
        );
    } else {
        text_laws::lemma_holds(before, line);
    }
}

proof fn lemma_output_lines(ds: Seq<SummaryContent>, rates: Seq<Seq<char>>, i: int)
    requires
        0 <= i < ds.len(),
    ensures
        text_laws::holds(status::output_lines(ds, rates), status::output_line(ds[i], rates[i])),
    decreases ds.len(),
{
    let line = status::output_line(ds[i], rates[i]);
    let before = status::output_lines(ds.drop_last(), rates);
    if i < ds.len() - 1 {
        lemma_output_lines(ds.drop_last(), rates, i);
        text_laws::lemma_still_holds(
            before,
            line,
            status::output_line(ds.last(), rates[ds.len() - 1]),
        );
    } else {
        text_laws::lemma_holds(before, line);
    }
}

proof fn lemma_suggestion_lines(v: Seq<Seq<char>>, i: int)
    requires
        0 <= i < v.len(),
    ensures
        text_laws::holds(status::suggestion_lines(v), "Suggestion: "@ + v[i] + "\n"@),
    decreases v.len(),
{
    let line = "Suggestion: "@ + v[i] + "\n"@;
    let last = "Suggestion: "@ + v.last() + "\n"@;
    let before = status::suggestion_lines(v.drop_last());
    assert(status::suggestion_lines(v) =~= before + last);
    if i < v.len() - 1 {
        lemma_suggestion_lines(v.drop_last(), i);
        text_laws::lemma_still_holds(before, line, last);
    } else {
        text_laws::lemma_holds(before, line);
    }
}

/// The report shows every display that the crossbar knows, every display output and every
/// suggestion, and which displays wait for a pipe.
pub proof fn law_status_text(
    r: StatusContent,
    active: Seq<char>,
    total: Seq<char>,
    mappings: Seq<Seq<char>>,
    displays: Seq<Seq<char>>,
    i: int,
)
    ensures
        ({
            let s = status::status_text(r, active, total, mappings, displays);
            &&& r.crossbar matches Some(x) ==> {
                &&& 0 <= i < x.mappings.len() ==> text_laws::holds(
                    s,
                    status::mapping_line(x.mappings[i], r.active, mappings[i]),
                )
                &&& x.pending.len() == 0 ==> text_laws::holds(
                    s,
                    "Pending (waiting for a pipe): "@ + "none"@ + "\n"@,
                )
                &&& x.pending.len() > 0 ==> text_laws::holds(
                    s,
                    "Pending (waiting for a pipe): "@ + text::joined(x.pending, ", "@) + "\n"@,
                )
            }
            &&& r.crossbar is None ==> text_laws::holds(
                s,
                "Display crossbar not found (not an Apple Silicon Mac?)\n"@,
            )
            &&& 0 <= i < r.displays.len() ==> text_laws::holds(
                s,
                status::output_line(r.displays[i], displays[i]),
            )
            &&& 0 <= i < r.suggestions.len() ==> text_laws::holds(
                s,
                "Suggestion: "@ + r.suggestions[i] + "\n"@,
            )
        }),
{
    let a = status::limits_line(r, active, total);
    let b = status::crossbar_text(r.crossbar, r.active, mappings);
    let c = "External outputs:\n"@;
    let d = status::output_lines(r.displays, displays);
    let e = status::suggestion_lines(r.suggestions);
    assert(status::status_text(r, active, total, mappings, displays) == a + b + c + d + e);
    match r.crossbar {
        Some(x) => {
            let head = "Pipe allocation (display crossbar):\n"@ + status::mapping_head();
            let lines = status::mapping_lines(x.mappings, r.active, mappings);
            let who = if x.pending.len() == 0 {
                "none"@
            } else {
                text::joined(x.pending, ", "@)
            };
            let pending = "Pending (waiting for a pipe): "@ + who + "\n"@;
            assert(b =~= head + lines + pending);
            text_laws::lemma_holds(head + lines, pending);
            lemma_in_status(a, b, c, d, e, pending);
            if 0 <= i < x.mappings.len() {
                let line = status::mapping_line(x.mappings[i], r.active, mappings[i]);
                lemma_mapping_lines(x.mappings, r.active, mappings, i);
                text_laws::lemma_still_holds(lines, line, head);
                text_laws::lemma_still_holds(head + lines, line, pending);
                lemma_in_status(a, b, c, d, e, line);
            }
        },
        None => {
            text_laws::lemma_holds(Seq::empty(), b);
            assert(Seq::<char>::empty() + b =~= b);
            lemma_in_status(a, b, c, d, e, b);
        },
    }
    if 0 <= i < r.displays.len() {
        let line = status::output_line(r.displays[i], displays[i]);
        lemma_output_lines(r.displays, displays, i);
        text_laws::lemma_still_holds(d, line, a + b + c);
        text_laws::lemma_still_holds(a + b + c + d, line, e);
    }
    if 0 <= i < r.suggestions.len() {
        let line = "Suggestion: "@ + r.suggestions[i] + "\n"@;
        lemma_suggestion_lines(r.suggestions, i);
        text_laws::lemma_still_holds(e, line, a + b + c + d);
    }
}

proof fn lemma_in_status(
    a: Seq<char>,
    b: Seq<char>,
    c: Seq<char>,
    d: Seq<char>,
    e: Seq<char>,
    part: Seq<char>,
)
    requires
        text_laws::holds(b, part),
    ensures
        text_laws::holds(a + b + c + d + e, part),
{
    text_laws::lemma_still_holds(b, part, a);
    text_laws::lemma_still_holds(a + b, part, c);
    text_laws::lemma_still_holds(a + b + c, part, d);
    text_laws::lemma_still_holds(a + b + c + d, part, e);
}

/// The line on a display that the crossbar knows shows its name, the pipes that it needs, those
/// that it has, and its state.
pub proof fn law_mapping_line(m: MappingContent, fs: Seq<FramebufferContent>, rate: Seq<char>)
    ensures
        text_laws::holds(status::mapping_line(m, fs, rate), m.product_name),
        text_laws::holds(
            status::mapping_line(m, fs, rate),
            text::signed_dec(m.max_pipes as int),
        ),
        text_laws::holds(status::mapping_line(m, fs, rate), status::numbers_text(m.pipe_ids)),
        text_laws::holds(status::mapping_line(m, fs, rate), status::state_text(m, fs)),
{
    let a = text::left_aligned(m.product_name, 24);
    let b = text::left_aligned(m.address, 8);
    let c = text::left_aligned(text::signed_dec(m.max_pipes as int), 7);
    let d = text::left_aligned(status::numbers_text(m.pipe_ids), 10);
    let e = text::left_aligned(status::gpx_text(rate), 16);
    let f = status::state_text(m, fs);
    let x = "  "@;
    let y = " "@;
    let all = status::mapping_line(m, fs, rate);
    lemma_aligned_holds(m.product_name, 24);
    lemma_aligned_holds(text::signed_dec(m.max_pipes as int), 7);
    lemma_aligned_holds(status::numbers_text(m.pipe_ids), 10);
    let p = x + a + y + b + y;
    let q = p + c + y;
    let r = q + d + y + e + y;
    assert(all == r + f + "\n"@);
    text_laws::lemma_holds(r, f);
    text_laws::lemma_still_holds(r + f, f, "\n"@);
    text_laws::lemma_holds(q, d);
    text_laws::lemma_still_holds(q + d, d, y);
    text_laws::lemma_still_holds(q + d + y, d, e);
    text_laws::lemma_still_holds(q + d + y + e, d, y);
    text_laws::lemma_still_holds(r, d, f);
    text_laws::lemma_still_holds(r + f, d, "\n"@);
    text_laws::lemma_holds_within(all, d, status::numbers_text(m.pipe_ids));
    text_laws::lemma_holds(p, c);
    text_laws::lemma_still_holds(p + c, c, y);
    text_laws::lemma_still_holds(q, c, d);
    text_laws::lemma_still_holds(q + d, c, y);
    text_laws::lemma_still_holds(q + d + y, c, e);
    text_laws::lemma_still_holds(q + d + y + e, c, y);
    text_laws::lemma_still_holds(r, c, f);
    text_laws::lemma_still_holds(r + f, c, "\n"@);
    text_laws::lemma_holds_within(all, c, text::signed_dec(m.max_pipes as int));
    text_laws::lemma_holds(x, a);
    text_laws::lemma_still_holds(x + a, a, y);
    text_laws::lemma_still_holds(x + a + y, a, b);
    text_laws::lemma_still_holds(x + a + y + b, a, y);
    text_laws::lemma_still_holds(p, a, c);
    text_laws::lemma_still_holds(p + c, a, y);
    text_laws::lemma_still_holds(q, a, d);
    text_laws::lemma_still_holds(q + d, a, y);
    text_laws::lemma_still_holds(q + d + y, a, e);
    text_laws::lemma_still_holds(q + d + y + e, a, y);
    text_laws::lemma_still_holds(r, a, f);
    text_laws::lemma_still_holds(r + f, a, "\n"@);
    text_laws::lemma_holds_within(all, a, m.product_name);
}

proof fn lemma_aligned_holds(s: Seq<char>, width: nat)
    ensures
        text_laws::holds(text::left_aligned(s, width), s),
{
    let wide = text::left_aligned(s, width);
    text_laws::law_aligned(s, width);
    assert(wide =~= Seq::<char>::empty() + s + wide.skip(s.len() as int)) by {
        assert forall|k: int| 0 <= k < s.len() implies wide[k] == s[k] by {
            assert(wide.take(s.len() as int)[k] == wide[k]);
        }
    }
}

// ---------------------------------------------------------------------------
// Displays at a glance.

/// What there is to say about a display output: its number, its pipe and the length of its EDID;
/// its id when the EDID has one; its label and its highest mode when the EDID can be read.
pub proof fn law_summary(d: DisplayContent)
    ensures
        ({
            let s = status::summary(d);
            &&& s.index == d.index
            &&& s.pipe == d.pipe
            &&& s.copy_edid_status == d.copy_edid_status
            &&& match d.edid {
                Some(e) => {
                    &&& s.edid_bytes == e.len()
                    &&& s.id == (if e.len() >= 12 {
                        Some(text::hex_text(e.subrange(8, 12)))
                    } else {
                        None
                    })
                    &&& if e.len() >= 128 && block::has_header(e) {
                        &&& s.name == Some(edid::edid_content(e).label())
                        &&& s.max_timing == edid::highest(edid::edid_content(e).timings)
                    } else {
                        s.name is None && s.max_timing is None
                    }
                },
                None => s.edid_bytes == 0 && s.id is None && s.name is None && s.max_timing is None,
            }
            &&& match s.max_timing {
                Some(t) => s.max_mode == Some(
                    text::dec(t.h_active as nat).push('x') + text::dec(t.v_active as nat).push('@')
                        + text::dec(status::whole_hz(t.refresh_hz)),
                ),
                None => s.max_mode is None,
            }
        }),
{
    let s = status::summary(d);
    if let Some(t) = s.max_timing {
        reveal_strlit("x");
        reveal_strlit("@");
        assert("x"@ =~= seq!['x'] && "@"@ =~= seq!['@']);
        assert(status::mode_text(t) =~= text::dec(t.h_active as nat).push('x') + text::dec(
            t.v_active as nat,
        ).push('@') + text::dec(status::whole_hz(t.refresh_hz)));
    }
}

/// The line on a display output shows its number, its id, its name, its pipe, the length of its
/// EDID and its highest mode; what is missing is shown as such.
pub proof fn law_output_text(d: SummaryContent)
    ensures
        ({
            let s = status::output_text(d);
            let id = match d.id {
                Some(id) => id,
                None => "--------"@,
            };
            let name = match d.name {
                Some(name) => name,
                None => "(no EDID)"@,
            };
            let pipe = match d.pipe {
                Some(pipe) => pipe,
                None => "?"@,
            };
            let mode = match d.max_mode {
                Some(mode) => mode,
                None => "-"@,
            };
            &&& ("["@ + text::dec(d.index) + "] id="@ + id + " "@ + name).is_prefix_of(s)
            &&& text_laws::holds(s, " pipe="@ + pipe)
            &&& (" EDID "@ + text::dec(d.edid_bytes) + " B  max "@ + mode).is_suffix_of(s)
        }),
{
    let s = status::output_text(d);
    let id = status::text_or(d.id, "--------"@);
    let name = status::text_or(d.name, "(no EDID)"@);
    let pipe = status::text_or(d.pipe, "?"@);
    let mode = status::text_or(d.max_mode, "-"@);
    let wide = text::left_aligned(name, 24);
    let broad = text::left_aligned(pipe, 9);
    let head = "["@ + text::dec(d.index) + "] id="@ + id + " "@;
    let start = head + name;
    let end = " EDID "@ + text::dec(d.edid_bytes) + " B  max "@ + mode;
    text_laws::law_aligned(name, 24);
    text_laws::law_aligned(pipe, 9);
    assert(s =~= head + wide + " pipe="@ + broad + end);
    lemma_prefix(wide, name);
    lemma_prefix(broad, pipe);
    let fill = wide.skip(name.len() as int);
    let rest = broad.skip(pipe.len() as int);
    assert(s =~= start + (fill + " pipe="@ + broad + end));
    assert(start =~= s.subrange(0, start.len() as int));
    assert(s =~= (head + wide) + (" pipe="@ + pipe) + (rest + end));
    assert(end =~= s.subrange(s.len() - end.len(), s.len() as int));
}

proof fn lemma_prefix(wide: Seq<char>, s: Seq<char>)
    requires
        s.len() <= wide.len(),
        wide.take(s.len() as int) == s,
    ensures
        wide == s + wide.skip(s.len() as int),
{
    assert(wide =~= wide.take(s.len() as int) + wide.skip(s.len() as int));
}

/// The line on an output in the report begins with what is said of it, and shows the pixel rate of
/// its highest timing, if it has one.
pub proof fn law_output_line(d: SummaryContent, rate: Seq<char>)
    ensures
        d.max_timing is Some ==> status::output_line(d, rate) == "  "@ + status::output_text(d)
            + (" ("@ + rate + " Gpx/s"@ + ")\n"@),
        d.max_timing is None ==> status::output_line(d, rate) == "  "@ + status::output_text(d)
            + "\n"@,
{
    reveal_strlit(")");
    reveal_strlit("\n");
    reveal_strlit(")\n");
    if d.max_timing is Some {
        assert(status::output_line(d, rate) =~= "  "@ + status::output_text(d) + (" ("@ + rate
            + " Gpx/s"@ + ")\n"@));
    } else {
        assert(status::output_line(d, rate) =~= "  "@ + status::output_text(d) + "\n"@);
    }
}

/// The list of outputs has a line for each, in order, with its path, and behind it another line for
/// one whose EDID could not be read, with the reason.
pub proof fn law_listings(ds: Seq<DisplayContent>, d: DisplayContent)
    ensures
        status::listings(Seq::empty()) == Seq::<char>::empty(),
        d.edid is Some ==> status::listings(ds.push(d)) == status::listings(ds) + (
        status::output_text(status::summary(d)) + "  "@ + d.path + "\n"@),
        d.edid is None ==> status::listings(ds.push(d)) == status::listings(ds) + (
        status::output_text(status::summary(d)) + "  "@ + d.path + "\n"@
            + "    EDID not readable: "@ + registry::ioreturn_text(d.copy_edid_status) + "\n"@),
{
    let line = status::output_text(status::summary(d)) + "  "@ + d.path + "\n"@;
    assert(ds.push(d).drop_last() =~= ds);
    if d.edid is Some {
        assert(status::listing(d) =~= line);
    } else {
        assert(status::listing(d) =~= line + "    EDID not readable: "@ + registry::ioreturn_text(
            d.copy_edid_status,
        ) + "\n"@);
    }
}

/// The first line of the report shows the number of pipes and the limits of a pipe, and says when
/// these are fallback values.
pub proof fn law_limits_line(r: StatusContent, active: Seq<char>, total: Seq<char>)
    ensures
        ({
            let s = status::limits_line(r, active, total);
            let start = "External display pipes: "@ + text::dec(r.pipe_count)
                + "   single-pipe limit: "@ + active + " Gpx/s"@ + " active / "@ + total
                + " Gpx/s"@ + " total"@;
            &&& start.is_prefix_of(s)
            &&& s.skip(start.len() as int) == if r.limits_from_registry {
                "\n"@
            } else {
                " (fallback values)"@ + "\n"@
            }
        }),
{
    let s = status::limits_line(r, active, total);
    let start = "External display pipes: "@ + text::dec(r.pipe_count) + "   single-pipe limit: "@
        + active + " Gpx/s"@ + " active / "@ + total + " Gpx/s"@ + " total"@;
    let end = if r.limits_from_registry {
        "\n"@
    } else {
        " (fallback values)"@ + "\n"@
    };
    reveal_strlit("");
    assert(s =~= start + end);
    assert(start =~= s.subrange(0, start.len() as int));
    assert(s.skip(start.len() as int) =~= end);
}

/// The first line of a description shows the label, the id, the manufacturer, the product code,
/// the serial number, the week and the year, the version and the length.
pub proof fn law_head_line(c: EdidContent)
    ensures
        ({
            let s = describe::head_line(c);
            let a = c.label() + " (id "@ + c.id + ", "@ + c.manufacturer + " product 0x"@
                + text::hex_digits(c.product_code as nat, 4);
            let b = ", serial "@ + text::dec(c.serial as nat) + ", week "@ + text::dec(
                c.week as nat,
            ) + " of "@ + text::dec(c.year as nat);
            let d = ", EDID "@ + c.version + ", "@ + text::dec(c.length) + " bytes)\n"@;
            s == a + b + d
        }),
{
    let a = c.label() + " (id "@ + c.id + ", "@ + c.manufacturer + " product 0x"@
        + text::hex_digits(c.product_code as nat, 4);
    let b = ", serial "@ + text::dec(c.serial as nat) + ", week "@ + text::dec(c.week as nat)
        + " of "@ + text::dec(c.year as nat);
    let d = ", EDID "@ + c.version + ", "@ + text::dec(c.length) + " bytes)\n"@;
    assert(describe::head_line(c) =~= a + b + d);
}

/// The line on the range limits shows each pair of rates from the lowest to the highest, and the
/// pixel clock.
pub proof fn law_range_line(rl: RangeLimits)
    ensures
        ({
            let s = describe::limits_line(rl);
            let v = text::dec(rl.v_min_hz as nat) + "-"@ + text::dec(rl.v_max_hz as nat);
            let h = text::dec(rl.h_min_khz as nat) + "-"@ + text::dec(rl.h_max_khz as nat);
            s == "range limits: V "@ + v + " Hz, H "@ + h + " kHz, max pixel clock "@ + text::dec(
                rl.max_pixel_clock_mhz as nat,
            ) + " MHz\n"@
        }),
{
    let v = text::dec(rl.v_min_hz as nat) + "-"@ + text::dec(rl.v_max_hz as nat);
    let h = text::dec(rl.h_min_khz as nat) + "-"@ + text::dec(rl.h_max_khz as nat);
    assert(describe::limits_line(rl) =~= "range limits: V "@ + v + " Hz, H "@ + h
        + " kHz, max pixel clock "@ + text::dec(rl.max_pixel_clock_mhz as nat) + " MHz\n"@);
}

/// The line on what is left after a cap shows the frame size, the refresh rate and the pixel rate
/// of the highest timing, and the limit of a pipe beside it.
pub proof fn law_left_line(t: Timing, w: TimingWords, limit: Seq<char>)
    ensures
        ({
            let s = session::left_line(t, w, limit);
            let mode = text::dec(t.h_active as nat) + "x"@ + text::dec(t.v_active as nat) + " @ "@
                + w.hertz + " Hz"@;
            let rates = w.active + " Gpx/s"@ + " active ("@ + limit + " Gpx/s"@ + " per pipe)\n"@;
            s == "  max after cap: "@ + mode + " = "@ + rates
        }),
{
    let mode = text::dec(t.h_active as nat) + "x"@ + text::dec(t.v_active as nat) + " @ "@ + w.hertz
        + " Hz"@;
    let rates = w.active + " Gpx/s"@ + " active ("@ + limit + " Gpx/s"@ + " per pipe)\n"@;
    reveal_strlit(" Hz = ");
    reveal_strlit(" Hz");
    reveal_strlit(" = ");
    assert(" Hz = "@ =~= " Hz"@ + " = "@);
    assert(session::left_line(t, w, limit) =~= "  max after cap: "@ + mode + " = "@ + rates);
}

/// A source is named by what it is and its number from one on, or its code, and by its block.
pub proof fn law_source_text(n: usize, block: usize, vic: u8)
    ensures
        ({
            let number = text::dec(n as nat + 1);
            let within = " (block "@ + text::dec(block as nat) + ")"@;
            &&& (TimingSource::BaseDtd { index: n }).text() == "base DTD #"@ + number
            &&& (TimingSource::CtaDtd { block, index: n }).text() == "CTA DTD #"@ + number + within
            &&& (TimingSource::CtaVic { block, vic }).text() == "CTA VIC "@ + text::dec(vic as nat)
                + within
            &&& (TimingSource::DisplayId { block, index: n }).text() == "DisplayID timing #"@
                + number + within
        }),
{
    let number = text::dec(n as nat + 1);
    let within = " (block "@ + text::dec(block as nat) + ")"@;
    assert((TimingSource::CtaDtd { block, index: n }).text() =~= "CTA DTD #"@ + number + within);
    assert((TimingSource::CtaVic { block, vic }).text() =~= "CTA VIC "@ + text::dec(vic as nat)
        + within);
    assert((TimingSource::DisplayId { block, index: n }).text() =~= "DisplayID timing #"@ + number
        + within);
}

/// An output is named by its label when its EDID can be read, and by its number when it cannot.
pub proof fn law_output_name(d: DisplayContent)
    ensures
        d.edid matches Some(e) && e.len() >= 128 && block::has_header(e) ==> select::output_name(d)
            == edid::edid_content(d.edid->0).label(),
        !(d.edid matches Some(e) && e.len() >= 128 && block::has_header(e)) ==> select::output_name(
            d,
        ) == "output "@ + text::dec(d.index),
{
}

/// An error on an EDID tells the length of one that is too short or no whole number of blocks, the
/// number of the block with the wrong checksum, counted from zero, and the timing that is above the
/// cap.
pub proof fn law_edid_error_text(n: usize, t: Timing, hertz: Seq<char>, megahertz: Seq<char>)
    ensures
        EdidError::TooShort(n).text(hertz, megahertz) == "EDID too short: "@ + text::dec(n as nat)
            + " bytes (need at least 128)"@,
        EdidError::BadLength(n).text(hertz, megahertz) == "EDID length "@ + text::dec(n as nat)
            + " is not a multiple of 128"@,
        EdidError::Checksum(n).text(hertz, megahertz) == "checksum mismatch in block "@ + text::dec(
            n as nat,
        ),
        EdidError::PreferredExceedsCap(t).text(hertz, megahertz)
            == "the preferred timing in the base block ("@ + t.text(hertz, megahertz)
            + ") is above the cap; refusing to remove it"@,
        EdidError::BadHeader.text(hertz, megahertz) == "bad EDID header (not an EDID)"@,
        EdidError::BadCap.text(hertz, megahertz) == "max refresh must be positive"@,
{
}

/// When no display can be chosen, the text repeats what was asked for, if anything was, and names
/// the way out.
pub proof fn law_resolve_error_text(sel: Seq<char>)
    ensures
        sel.is_prefix_of(ResolveError::SeveralMatches.text(sel)),
        ("no connected display matches "@ + sel).is_prefix_of(ResolveError::NoMatch.text(sel)),
        "use the EDID id instead"@.is_suffix_of(ResolveError::SeveralMatches.text(sel)),
        "(see `pipecap list`)"@.is_suffix_of(ResolveError::NoMatch.text(sel)),
        "(see `pipecap list`)"@.is_suffix_of(ResolveError::SeveralDisplays.text(sel)),
        ResolveError::NoDisplay.text(sel)
            == "no external display with a readable EDID is connected"@,
{
    reveal_strlit("use the EDID id instead");
    reveal_strlit(" matches more than one display; use the EDID id instead");
    reveal_strlit("(see `pipecap list`)");
    reveal_strlit(" (see `pipecap list`)");
    reveal_strlit("several displays are connected; choose one with --display (see `pipecap list`)");
    let several = ResolveError::SeveralMatches.text(sel);
    let none = ResolveError::NoMatch.text(sel);
    let all = ResolveError::SeveralDisplays.text(sel);
    let start = "no connected display matches "@ + sel;
    let instead = "use the EDID id instead"@;
    let see = "(see `pipecap list`)"@;
    assert(sel =~= several.subrange(0, sel.len() as int));
    assert(start =~= none.subrange(0, start.len() as int));
    assert(instead =~= several.subrange(several.len() - instead.len(), several.len() as int));
    assert(see =~= none.subrange(none.len() - see.len(), none.len() as int));
    assert(see =~= all.subrange(all.len() - see.len(), all.len() as int));
}

/// When the EDID of an output cannot be read, the text tells the number of the output and why.
pub proof fn law_no_edid_text(index: nat, status: i32)
    ensures
        ("display "@ + text::dec(index) + " "@).is_prefix_of(select::no_edid_text(index, status)),
        ("("@ + registry::ioreturn_text(status) + ")"@).is_suffix_of(
            select::no_edid_text(index, status),
        ),
{
    reveal_strlit(" has no readable EDID (");
    reveal_strlit(" ");
    reveal_strlit("(");
    let s = select::no_edid_text(index, status);
    let start = "display "@ + text::dec(index) + " "@;
    let end = "("@ + registry::ioreturn_text(status) + ")"@;
    assert(start =~= s.subrange(0, start.len() as int));
    assert(end =~= s.subrange(s.len() - end.len(), s.len() as int));
}

// ---------------------------------------------------------------------------
// The order of the lines.

/// The report begins with the limits and goes on with the crossbar. Each further output adds its
/// line behind those before, and each further suggestion its line behind them all.
pub proof fn law_status_grows(
    r: StatusContent,
    active: Seq<char>,
    total: Seq<char>,
    mappings: Seq<Seq<char>>,
    displays: Seq<Seq<char>>,
    d: SummaryContent,
    suggestion: Seq<char>,
)
    ensures
        ({
            let whole = |r: StatusContent|
                status::status_text(r, active, total, mappings, displays);
            let bare = StatusContent { suggestions: Seq::empty(), ..r };
            let empty = StatusContent { displays: Seq::empty(), ..bare };
            &&& whole(empty) == status::limits_line(r, active, total) + status::crossbar_text(
                r.crossbar,
                r.active,
                mappings,
            ) + "External outputs:\n"@
            &&& whole(StatusContent { displays: r.displays.push(d), ..bare }) == whole(bare)
                + status::output_line(d, displays[r.displays.len() as int])
            &&& whole(StatusContent { suggestions: r.suggestions.push(suggestion), ..r }) == whole(r)
                + ("Suggestion: "@ + suggestion + "\n"@)
        }),
{
    let bare = StatusContent { suggestions: Seq::empty(), ..r };
    let empty = StatusContent { displays: Seq::empty(), ..bare };
    let more = StatusContent { displays: r.displays.push(d), ..bare };
    let longer = StatusContent { suggestions: r.suggestions.push(suggestion), ..r };
    let start = status::limits_line(r, active, total) + status::crossbar_text(
        r.crossbar,
        r.active,
        mappings,
    ) + "External outputs:\n"@;
    assert(status::limits_line(bare, active, total) == status::limits_line(r, active, total));
    assert(r.displays.push(d).drop_last() =~= r.displays);
    assert(r.suggestions.push(suggestion).drop_last() =~= r.suggestions);
    assert(status::status_text(empty, active, total, mappings, displays) =~= start);
    assert(status::status_text(more, active, total, mappings, displays) =~= status::status_text(
        bare,
        active,
        total,
        mappings,
        displays,
    ) + status::output_line(d, displays[r.displays.len() as int]));
    assert(status::status_text(longer, active, total, mappings, displays) =~= status::status_text(
        r,
        active,
        total,
        mappings,
        displays,
    ) + ("Suggestion: "@ + suggestion + "\n"@));
}

/// The lines on the mappings of the crossbar stand in order: each further mapping adds its line
/// behind those before.
pub proof fn law_mapping_lines_grow(
    ms: Seq<MappingContent>,
    fs: Seq<FramebufferContent>,
    rates: Seq<Seq<char>>,
    m: MappingContent,
)
    ensures
        status::mapping_lines(Seq::empty(), fs, rates) == Seq::<char>::empty(),
        status::mapping_lines(ms.push(m), fs, rates) == status::mapping_lines(ms, fs, rates)
            + status::mapping_line(m, fs, rates[ms.len() as int]),
{
    assert(ms.push(m).drop_last() =~= ms);
}

/// The report of a cap begins with the display and the cap. Each timing that goes adds its line
/// behind those before, then each note does, and what is left stands at the end.
pub proof fn law_cap_text_grows(
    c: EdidContent,
    r: CapContent,
    max_hz: Seq<char>,
    dropped: Seq<TimingWords>,
    left: TimingWords,
    limit: Seq<char>,
    t: Timing,
    note: Seq<char>,
)
    ensures
        ({
            let whole = |r: CapContent| session::cap_text(c, r, max_hz, dropped, left, limit);
            let most = CapContent { max_timing: None, ..r };
            let bare = CapContent { notes: Seq::empty(), ..most };
            let empty = CapContent { dropped: Seq::empty(), ..bare };
            let w = dropped[r.dropped.len() as int];
            &&& whole(empty) == c.label() + " (id "@ + c.id + "): cap at "@ + max_hz + " Hz\n"@
            &&& whole(CapContent { dropped: r.dropped.push(t), ..bare }) == whole(bare) + (
            "  drop  "@ + t.text(w.hertz, w.megahertz) + "\n"@)
            &&& whole(CapContent { notes: r.notes.push(note), ..most }) == whole(most) + ("  note  "@
                + note + "\n"@)
            &&& whole(CapContent { max_timing: Some(t), ..r }) == whole(most) + session::left_line(
                t,
                left,
                limit,
            )
        }),
{
    let most = CapContent { max_timing: None, ..r };
    let bare = CapContent { notes: Seq::empty(), ..most };
    let empty = CapContent { dropped: Seq::empty(), ..bare };
    let more = CapContent { dropped: r.dropped.push(t), ..bare };
    let noted = CapContent { notes: r.notes.push(note), ..most };
    let full = CapContent { max_timing: Some(t), ..r };
    let w = dropped[r.dropped.len() as int];
    let whole = |r: CapContent| session::cap_text(c, r, max_hz, dropped, left, limit);
    assert(r.dropped.push(t).drop_last() =~= r.dropped);
    assert(r.notes.push(note).drop_last() =~= r.notes);
    assert(whole(empty) =~= c.label() + " (id "@ + c.id + "): cap at "@ + max_hz + " Hz\n"@);
    assert(whole(more) =~= whole(bare) + ("  drop  "@ + t.text(w.hertz, w.megahertz) + "\n"@));
    assert(whole(noted) =~= whole(most) + ("  note  "@ + note + "\n"@));
    assert(whole(full) =~= whole(most) + session::left_line(t, left, limit));
}

/// The timings of a description stand in the given order, each in a line of its own.
pub proof fn law_timing_lines_grow(
    ts: Seq<Timing>,
    ws: Seq<TimingWords>,
    order: Seq<int>,
    k: int,
)
    ensures
        describe::timing_lines(ts, ws, Seq::empty()) == Seq::<char>::empty(),
        describe::timing_lines(ts, ws, order.push(k)) == describe::timing_lines(ts, ws, order)
            + describe::timing_line(ts[k], ws[k]),
{
    assert(order.push(k).drop_last() =~= order);
}

/// A summary is made of each display, in order.
pub proof fn law_summaries(ds: Seq<DisplayContent>, i: int)
    ensures
        status::summaries(ds).len() == ds.len(),
        0 <= i < ds.len() ==> status::summaries(ds)[i] == status::summary(ds[i]),
{
}

} // verus!
