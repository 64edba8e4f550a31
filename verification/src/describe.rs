//! A decoded EDID as text for a reader.

use vstd::prelude::*;

use crate::edid::{EdidContent, EdidInfo, RangeLimits};
use crate::text::{push_dec, push_hex, push_joined, push_left_aligned, push_right_aligned};
use crate::timing::Timing;
use crate::{edid, rate, text};

verus! {

/// How the numbers of a timing are shown to a reader.
pub struct TimingText {
    /// The refresh rate in hertz.
    pub hertz: String,
    /// The pixel clock in megahertz.
    pub megahertz: String,
    /// The active pixel rate in gigapixels per second.
    pub active: String,
    /// The total pixel rate in gigapixels per second.
    pub total: String,
}

/// The numbers of a timing, as shown.
#[verifier::ext_equal]
pub struct TimingWords {
    pub hertz: Seq<char>,
    pub megahertz: Seq<char>,
    pub active: Seq<char>,
    pub total: Seq<char>,
}

impl View for TimingText {
    type V = TimingWords;

    open spec fn view(&self) -> TimingWords {
        TimingWords {
            hertz: self.hertz@,
            megahertz: self.megahertz@,
            active: self.active@,
            total: self.total@,
        }
    }
}

// ---------------------------------------------------------------------------
// The order of the timings.

/// Whether timing `a` has a lower active pixel rate than timing `b`.
pub open spec fn ranks_lower(ts: Seq<Timing>, a: int, b: int) -> bool {
    ts[a].active_rate().below(ts[b].active_rate())
}

/// The numbers `order` with `k` put in before the first timing that ranks lower.
pub open spec fn ranked_in(ts: Seq<Timing>, order: Seq<int>, k: int) -> Seq<int>
    decreases order.len(),
{
    if order.len() == 0 {
        seq![k]
    } else if ranks_lower(ts, order[0], k) {
        seq![k] + order
    } else {
        seq![order[0]] + ranked_in(ts, order.drop_first(), k)
    }
}

/// The numbers of the first `n` timings, the highest active pixel rate first, those with the
/// same rate in their own order.
pub open spec fn ranking(ts: Seq<Timing>, n: nat) -> Seq<int>
    decreases n,
{
    if n == 0 {
        Seq::empty()
    } else {
        ranked_in(ts, ranking(ts, (n - 1) as nat), n - 1)
    }
}

/// Whether no timing in `order` ranks lower than one behind it, and those that rank equal
/// stand in their own order.
pub open spec fn in_rank_order(ts: Seq<Timing>, order: Seq<int>) -> bool {
    forall|i: int, j: int|
        #![trigger order[i], order[j]]
        0 <= i < j < order.len() ==> !ranks_lower(ts, order[i], order[j]) && (ranks_lower(
            ts,
            order[j],
            order[i],
        ) || order[i] < order[j])
}

proof fn lemma_ranked_in(ts: Seq<Timing>, order: Seq<int>, k: int)
    requires
        in_rank_order(ts, order),
        forall|i: int| 0 <= i < order.len() ==> 0 <= #[trigger] order[i] < k,
    ensures
        ranked_in(ts, order, k).len() == order.len() + 1,
        in_rank_order(ts, ranked_in(ts, order, k)),
        forall|m: int| #[trigger]
            ranked_in(ts, order, k).contains(m) <==> order.contains(m) || m == k,
    decreases order.len(),
{
    let new = ranked_in(ts, order, k);
    if order.len() == 0 {
        assert(new[0] == k);
        assert(new.contains(k));
        assert forall|m: int| #[trigger] new.contains(m) implies m == k by {}
    } else if ranks_lower(ts, order[0], k) {
        assert forall|i: int, j: int| 0 <= i < j < new.len() implies !ranks_lower(
            ts,
            #[trigger] new[i],
            #[trigger] new[j],
        ) && (ranks_lower(ts, new[j], new[i]) || new[i] < new[j]) by {
            assert(new[j] == order[j - 1]);
            if i == 0 {
                let a = ts[order[j - 1]].active_rate();
                let b = ts[order[0]].active_rate();
                let c = ts[k].active_rate();
                if j > 1 {
                    assert(!ranks_lower(ts, order[0], order[j - 1]));
                }
                if !a.below(c) {
                    rate::lemma_not_below_transitive(b, a, c);
                }
            } else {
                assert(new[i] == order[i - 1]);
            }
        }
        assert(new[0] == k);
        assert(new.contains(k));
        assert forall|m: int| order.contains(m) implies #[trigger] new.contains(m) by {
            let i = choose|i: int| 0 <= i < order.len() && order[i] == m;
            assert(new[i + 1] == m);
        }
        assert forall|m: int| #[trigger] new.contains(m) implies order.contains(m) || m == k by {
            let i = choose|i: int| 0 <= i < new.len() && new[i] == m;
            if i > 0 {
                assert(order[i - 1] == m);
            }
        }
    } else {
        let rest = order.drop_first();
        let tail = ranked_in(ts, rest, k);
        assert forall|i: int, j: int| 0 <= i < j < rest.len() implies !ranks_lower(
            ts,
            #[trigger] rest[i],
            #[trigger] rest[j],
        ) && (ranks_lower(ts, rest[j], rest[i]) || rest[i] < rest[j]) by {
            assert(rest[i] == order[i + 1] && rest[j] == order[j + 1]);
        }
        assert forall|i: int| 0 <= i < rest.len() implies 0 <= #[trigger] rest[i] < k by {
            assert(rest[i] == order[i + 1]);
        }
        lemma_ranked_in(ts, rest, k);
        assert forall|i: int, j: int| 0 <= i < j < new.len() implies !ranks_lower(
            ts,
            #[trigger] new[i],
            #[trigger] new[j],
        ) && (ranks_lower(ts, new[j], new[i]) || new[i] < new[j]) by {
            assert(new[j] == tail[j - 1]);
            if i == 0 {
                assert(tail.contains(tail[j - 1]));
                if tail[j - 1] != k {
                    let q = choose|q: int| 0 <= q < rest.len() && rest[q] == tail[j - 1];
                    assert(order[q + 1] == tail[j - 1]);
                }
            } else {
                assert(new[i] == tail[i - 1]);
            }
        }
        assert forall|m: int| order.contains(m) || m == k implies #[trigger] new.contains(m) by {
            if m == order[0] {
                assert(new[0] == m);
            } else {
                if m != k {
                    let i = choose|i: int| 0 <= i < order.len() && order[i] == m;
                    assert(rest[i - 1] == m);
                }
                assert(tail.contains(m));
                let q = choose|q: int| 0 <= q < tail.len() && tail[q] == m;
                assert(new[q + 1] == m);
            }
        }
        assert forall|m: int| #[trigger] new.contains(m) implies order.contains(m) || m == k by {
            let i = choose|i: int| 0 <= i < new.len() && new[i] == m;
            if i == 0 {
                assert(order[0] == m);
            } else {
                assert(tail[i - 1] == m);
                assert(tail.contains(m));
                if m != k {
                    let q = choose|q: int| 0 <= q < rest.len() && rest[q] == m;
                    assert(order[q + 1] == m);
                }
            }
        }
    }
}

/// The ranking of timings holds each of them once, the highest active pixel rate first,
/// those with the same rate in their own order.
pub proof fn law_ranking(ts: Seq<Timing>, n: nat)
    requires
        n <= ts.len(),
    ensures
        ranking(ts, n).len() == n,
        in_rank_order(ts, ranking(ts, n)),
        forall|m: int| #[trigger] ranking(ts, n).contains(m) <==> 0 <= m < n,
    decreases n,
{
    if n > 0 {
        let before = ranking(ts, (n - 1) as nat);
        law_ranking(ts, (n - 1) as nat);
        assert forall|i: int| 0 <= i < before.len() implies 0 <= #[trigger] before[i] < n - 1 by {
            assert(before.contains(before[i]));
        }
        lemma_ranked_in(ts, before, n - 1);
    }
}

proof fn lemma_ranked_at(ts: Seq<Timing>, order: Seq<int>, k: int, p: int)
    requires
        0 <= p <= order.len(),
        forall|i: int| 0 <= i < p ==> !ranks_lower(ts, #[trigger] order[i], k),
        p < order.len() ==> ranks_lower(ts, order[p], k),
    ensures
        ranked_in(ts, order, k) == order.insert(p, k),
    decreases p,
{
    if p > 0 {
        let rest = order.drop_first();
        assert forall|i: int| 0 <= i < p - 1 implies !ranks_lower(ts, #[trigger] rest[i], k) by {
            assert(rest[i] == order[i + 1]);
        }
        lemma_ranked_at(ts, rest, k, p - 1);
        assert(seq![order[0]] + rest.insert(p - 1, k) =~= order.insert(p, k));
    } else {
        assert(ranked_in(ts, order, k) =~= order.insert(p, k));
    }
}

/// The numbers of the elements of a vector of indices.
pub open spec fn indices(v: Seq<usize>) -> Seq<int> {
    v.map_values(|i: usize| i as int)
}

/// The numbers of the timings, the highest active pixel rate first, those with the same rate
/// in their own order.
pub fn ranked(ts: &Vec<Timing>) -> (order: Vec<usize>)
    ensures
        indices(order@) == ranking(ts@, ts@.len()),
{
    let mut order: Vec<usize> = Vec::new();
    let mut k: usize = 0;
    while k < ts.len()
        invariant
            k <= ts.len(),
            order.len() == k,
            indices(order@) =~= ranking(ts@, k as nat),
            forall|i: int| 0 <= i < order.len() ==> (#[trigger] order@[i]) < k,
        decreases ts.len() - k,
    {
        let rate = ts[k].active_pixel_rate();
        let mut p: usize = 0;
        while p < order.len() && !ts[order[p]].active_pixel_rate().is_below(&rate)
            invariant
                p <= order.len(),
                k < ts.len(),
                rate == ts@[k as int].active_rate(),
                rate.den > 0,
                forall|i: int| 0 <= i < order.len() ==> (#[trigger] order@[i]) < k,
                forall|i: int|
                    0 <= i < p ==> !ranks_lower(ts@, #[trigger] indices(order@)[i], k as int),
            decreases order.len() - p,
        {
            p += 1;
        }
        let ghost old_order = order@;
        order.insert(p, k);
        proof {
            lemma_ranked_at(ts@, indices(old_order), k as int, p as int);
            assert(indices(order@) =~= indices(old_order).insert(p as int, k as int));
        }
        k += 1;
    }
    order
}

// ---------------------------------------------------------------------------
// The text.

/// The line for timing `t`.
pub open spec fn timing_line(t: Timing, w: TimingWords) -> Seq<char> {
    "  "@ + text::left_aligned(t.text(w.hertz, w.megahertz), 52) + " active "@
        + text::right_aligned(w.active, 6) + " Gpx/s  total "@ + text::right_aligned(w.total, 6)
        + " Gpx/s\n"@
}

/// The lines for the timings with the numbers in `order`.
pub open spec fn timing_lines(ts: Seq<Timing>, ws: Seq<TimingWords>, order: Seq<int>) -> Seq<char>
    decreases order.len(),
{
    if order.len() == 0 {
        Seq::empty()
    } else {
        timing_lines(ts, ws, order.drop_last()) + timing_line(ts[order.last()], ws[order.last()])
    }
}

/// The line for the range limits.
pub open spec fn limits_line(rl: RangeLimits) -> Seq<char> {
    "range limits: V "@ + text::dec(rl.v_min_hz as nat) + "-"@ + text::dec(rl.v_max_hz as nat)
        + " Hz, H "@ + text::dec(rl.h_min_khz as nat) + "-"@ + text::dec(rl.h_max_khz as nat)
        + " kHz, max pixel clock "@ + text::dec(rl.max_pixel_clock_mhz as nat) + " MHz\n"@
}

/// The line that says which display this is.
pub open spec fn head_line(c: EdidContent) -> Seq<char> {
    c.label() + " (id "@ + c.id + ", "@ + c.manufacturer + " product 0x"@ + text::hex_digits(
        c.product_code as nat,
        4,
    ) + ", serial "@ + text::dec(c.serial as nat) + ", week "@ + text::dec(c.week as nat) + " of "@
        + text::dec(c.year as nat) + ", EDID "@ + c.version + ", "@ + text::dec(c.length)
        + " bytes)\n"@
}

/// The line for the highest timing, whose refresh rate is shown as `hertz`.
pub open spec fn highest_line(t: Timing, hertz: Seq<char>) -> Seq<char> {
    "max: "@ + text::dec(t.h_active as nat) + "x"@ + text::dec(t.v_active as nat) + " @ "@ + hertz
        + " Hz\n"@
}

/// The whole text, when the numbers of the timings are shown as `ws` and the refresh rate of
/// the highest as `hertz`.
pub open spec fn description(c: EdidContent, ws: Seq<TimingWords>, hertz: Seq<char>) -> Seq<char> {
    head_line(c) + "blocks: "@ + text::joined(c.blocks, ", "@) + "\n"@ + (match c.range_limits {
        Some(rl) => limits_line(rl),
        None => Seq::empty(),
    }) + "timings:\n"@ + timing_lines(c.timings, ws, ranking(c.timings, c.timings.len())) + (
    match edid::highest(c.timings) {
        Some(t) => highest_line(t, hertz),
        None => Seq::empty(),
    })
}

/// What the texts of several timings are.
pub open spec fn timing_words(v: Seq<TimingText>) -> Seq<TimingWords> {
    v.map_values(|t: TimingText| t@)
}

fn push_timing_line(s: &mut String, t: &Timing, w: &TimingText)
    ensures
        final(s)@ == old(s)@ + timing_line(*t, w@),
{
    let shown = t.to_text(w.hertz.as_str(), w.megahertz.as_str());
    s.append("  ");
    push_left_aligned(s, shown.as_str(), 52);
    s.append(" active ");
    push_right_aligned(s, w.active.as_str(), 6);
    s.append(" Gpx/s  total ");
    push_right_aligned(s, w.total.as_str(), 6);
    s.append(" Gpx/s\n");
    assert(s@ =~= old(s)@ + timing_line(*t, w@));
}

fn push_limits_line(s: &mut String, rl: &RangeLimits)
    ensures
        final(s)@ == old(s)@ + limits_line(*rl),
{
    s.append("range limits: V ");
    push_dec(s, rl.v_min_hz as u128);
    s.append("-");
    push_dec(s, rl.v_max_hz as u128);
    s.append(" Hz, H ");
    push_dec(s, rl.h_min_khz as u128);
    s.append("-");
    push_dec(s, rl.h_max_khz as u128);
    s.append(" kHz, max pixel clock ");
    push_dec(s, rl.max_pixel_clock_mhz as u128);
    s.append(" MHz\n");
    assert(s@ =~= old(s)@ + limits_line(*rl));
}

fn push_head_line(s: &mut String, info: &EdidInfo)
    ensures
        final(s)@ == old(s)@ + head_line(info@),
{
    let label = info.label();
    s.append(label.as_str());
    s.append(" (id ");
    s.append(info.id.as_str());
    s.append(", ");
    s.append(info.manufacturer.as_str());
    s.append(" product 0x");
    push_hex(s, info.product_code as u64, 4);
    s.append(", serial ");
    push_dec(s, info.serial as u128);
    s.append(", week ");
    push_dec(s, info.week as u128);
    s.append(" of ");
    push_dec(s, info.year as u128);
    s.append(", EDID ");
    s.append(info.version.as_str());
    s.append(", ");
    push_dec(s, info.length as u128);
    s.append(" bytes)\n");
    assert(s@ =~= old(s)@ + head_line(info@));
}

fn push_timing_lines(s: &mut String, ts: &Vec<Timing>, shown: &Vec<TimingText>)
    requires
        shown.len() == ts.len(),
    ensures
        final(s)@ == old(s)@ + timing_lines(
            ts@,
            timing_words(shown@),
            ranking(ts@, ts@.len()),
        ),
{
    let order = ranked(ts);
    let ghost all = indices(order@);
    proof {
        law_ranking(ts@, ts@.len());
    }
    let mut i: usize = 0;
    assert(s@ =~= old(s)@ + timing_lines(ts@, timing_words(shown@), all.take(0)));
    while i < order.len()
        invariant
            i <= order.len(),
            shown.len() == ts.len(),
            all == indices(order@),
            forall|m: int| #[trigger] all.contains(m) <==> 0 <= m < ts.len(),
            s@ == old(s)@ + timing_lines(ts@, timing_words(shown@), all.take(i as int)),
        decreases order.len() - i,
    {
        assert(all.contains(all[i as int]));
        let k: usize = order[i];
        push_timing_line(s, &ts[k], &shown[k]);
        proof {
            assert(all.take(i + 1).drop_last() =~= all.take(i as int));
            assert(timing_words(shown@)[k as int] == shown@[k as int]@);
            assert(s@ =~= old(s)@ + timing_lines(ts@, timing_words(shown@), all.take(i + 1)));
        }
        i += 1;
    }
    assert(all.take(i as int) =~= all);
}

/// Renders a multi-line human readable decode, given how the numbers of the timings, and the
/// refresh rate of the highest one, are shown.
#[verifier::rlimit(30)]
pub fn describe(info: &EdidInfo, shown: &Vec<TimingText>, max_hertz: &str) -> (s: String)
    requires
        shown.len() == info.timings.len(),
    ensures
        s@ == description(info@, timing_words(shown@), max_hertz@),
{
    let ghost c = info@;
    let ghost ws = timing_words(shown@);
    let mut s = String::new();
    push_head_line(&mut s, info);
    s.append("blocks: ");
    push_joined(&mut s, &info.blocks, ", ");
    s.append("\n");
    if let Some(rl) = &info.range_limits {
        push_limits_line(&mut s, rl);
    }
    s.append("timings:\n");
    push_timing_lines(&mut s, &info.timings, shown);
    assert(s@ =~= head_line(c) + "blocks: "@ + text::joined(c.blocks, ", "@) + "\n"@ + (
    match c.range_limits {
        Some(rl) => limits_line(rl),
        None => Seq::empty(),
    }) + "timings:\n"@ + timing_lines(c.timings, ws, ranking(c.timings, c.timings.len())));
    if let Some(m) = info.max_timing() {
        s.append("max: ");
        push_dec(&mut s, m.h_active as u128);
        s.append("x");
        push_dec(&mut s, m.v_active as u128);
        s.append(" @ ");
        s.append(max_hertz);
        s.append(" Hz\n");
    }
    assert(s@ =~= description(c, ws, max_hertz@));
    s
}

} // verus!
