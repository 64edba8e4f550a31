//! Choosing a display, and reading what it says.

use vstd::prelude::*;

use crate::agent::push_below;
use crate::block::EdidError;
use crate::edid::{parse, EdidContent, EdidInfo};
use crate::registry::{ioreturn_message, Display, DisplayContent};
use crate::text::{
    chars_of, has_text, lowered_text, number_of, push_dec, same_text, trimmed_text,
};
use crate::{agent, block, edid, registry, text};

verus! {

// ---------------------------------------------------------------------------
// Resolving `--display`.

/// Why no display could be chosen.
#[derive(Debug, Clone, Copy, PartialEq, Eq, Structural)]
pub enum ResolveError {
    /// No external display with a readable EDID is connected.
    NoDisplay,
    /// Several displays are connected and none was asked for.
    SeveralDisplays,
    /// No connected display matches.
    NoMatch,
    /// More than one display matches.
    SeveralMatches,
}

impl ResolveError {
    /// What a reader is told, when what was asked for is shown as `sel`.
    pub open spec fn text(self, sel: Seq<char>) -> Seq<char> {
        match self {
            ResolveError::NoDisplay => "no external display with a readable EDID is connected"@,
            ResolveError::SeveralDisplays =>
                "several displays are connected; choose one with --display (see `pipecap list`)"@,
            ResolveError::NoMatch => "no connected display matches "@ + sel
                + " (see `pipecap list`)"@,
            ResolveError::SeveralMatches => sel
                + " matches more than one display; use the EDID id instead"@,
        }
    }

    /// What a reader is told, when what was asked for is shown as `sel`.
    pub fn to_text(&self, sel: &str) -> (s: String)
        ensures
            s@ == self.text(sel@),
    {
        let mut s = String::new();
        match self {
            ResolveError::NoDisplay => {
                s.append("no external display with a readable EDID is connected");
            },
            ResolveError::SeveralDisplays => {
                s.append(
                    "several displays are connected; choose one with --display (see `pipecap list`)",
                );
            },
            ResolveError::NoMatch => {
                s.append("no connected display matches ");
                s.append(sel);
                s.append(" (see `pipecap list`)");
            },
            ResolveError::SeveralMatches => {
                s.append(sel);
                s.append(" matches more than one display; use the EDID id instead");
            },
        }
        assert(s@ =~= self.text(sel@));
        s
    }
}

/// What the EDID of a display says, if it has one that can be read.
pub open spec fn content_of(d: DisplayContent) -> Option<EdidContent> {
    match d.edid {
        Some(e) if e.len() >= 128 && block::has_header(e) => Some(edid::edid_content(e)),
        _ => None,
    }
}

/// The places of the displays that `p` holds of, in order.
pub open spec fn places(ds: Seq<DisplayContent>, p: spec_fn(DisplayContent) -> bool) -> Seq<int>
    decreases ds.len(),
{
    if ds.len() == 0 {
        Seq::empty()
    } else {
        let before = places(ds.drop_last(), p);
        if p(ds.last()) {
            before.push(ds.len() - 1)
        } else {
            before
        }
    }
}

/// The places that `p` holds at are listed once each, in order, and no others.
pub proof fn law_places(ds: Seq<DisplayContent>, p: spec_fn(DisplayContent) -> bool)
    ensures
        forall|i: int|
            #[trigger] places(ds, p).contains(i) <==> 0 <= i < ds.len() && p(ds[i]),
        forall|a: int, b: int|
            #![trigger places(ds, p)[a], places(ds, p)[b]]
            0 <= a < b < places(ds, p).len() ==> places(ds, p)[a] < places(ds, p)[b],
        places(ds, p).len() <= ds.len(),
    decreases ds.len(),
{
    if ds.len() > 0 {
        let rest = ds.drop_last();
        let before = places(rest, p);
        let all = places(ds, p);
        let last = ds.len() - 1;
        law_places(rest, p);
        assert forall|a: int| 0 <= a < before.len() implies before[a] < last by {
            assert(before.contains(before[a]));
        }
        assert forall|i: int| #[trigger] all.contains(i) implies 0 <= i < ds.len() && p(ds[i]) by {
            let a = choose|a: int| 0 <= a < all.len() && all[a] == i;
            if a < before.len() {
                assert(before[a] == i);
                assert(before.contains(i));
                assert(rest[i] == ds[i]);
            }
        }
        assert forall|i: int| 0 <= i < ds.len() && p(ds[i]) implies #[trigger] all.contains(i) by {
            if i < last {
                assert(rest[i] == ds[i]);
                assert(before.contains(i));
                let a = choose|a: int| 0 <= a < before.len() && before[a] == i;
                assert(all[a] == i);
            } else {
                assert(all[all.len() - 1] == i);
            }
        }
    }
}

/// Whether a display has an EDID.
pub open spec fn has_edid() -> spec_fn(DisplayContent) -> bool {
    |d: DisplayContent| d.edid is Some
}

/// Whether a display has an EDID with the given id.
pub open spec fn has_id(id: Seq<char>) -> spec_fn(DisplayContent) -> bool {
    |d: DisplayContent| d.edid is Some && d.id() == Some(id)
}

/// Whether the label of a display holds the given text, in lower case.
pub open spec fn is_labelled(part: Seq<char>) -> spec_fn(DisplayContent) -> bool {
    |d: DisplayContent|
        match content_of(d) {
            Some(c) => text::contains_text(text::lowered(c.label()), part),
            None => false,
        }
}

/// The display that is meant when none is asked for: the only one with an EDID.
pub open spec fn only_display(ds: Seq<DisplayContent>) -> Result<int, ResolveError> {
    let found = places(ds, has_edid());
    if found.len() == 1 {
        Ok(found[0])
    } else if found.len() == 0 {
        Err(ResolveError::NoDisplay)
    } else {
        Err(ResolveError::SeveralDisplays)
    }
}

/// The display that is meant by `sel`: the first with that id, or else the one with that
/// number, or else the only one with `sel` in its label; capitals and white space around
/// `sel` do not matter.
pub open spec fn chosen_display(ds: Seq<DisplayContent>, sel: Seq<char>) -> Result<
    int,
    ResolveError,
> {
    let s = text::lowered(text::trimmed(sel));
    let by_id = places(ds, has_id(s));
    let by_name = places(ds, is_labelled(s));
    let number = text::number_value(s);
    if by_id.len() > 0 {
        Ok(by_id[0])
    } else if number is Some && number->0 < ds.len() {
        Ok(number->0 as int)
    } else if by_name.len() == 1 {
        Ok(by_name[0])
    } else if by_name.len() == 0 {
        Err(ResolveError::NoMatch)
    } else {
        Err(ResolveError::SeveralMatches)
    }
}

/// The display that is meant.
pub open spec fn resolved(ds: Seq<DisplayContent>, sel: Option<&str>) -> Result<
    int,
    ResolveError,
> {
    match sel {
        Some(s) => chosen_display(ds, s@),
        None => only_display(ds),
    }
}

/// What the EDID of a display says, if it has one that can be read.
pub fn readable(d: &Display) -> (r: Option<EdidInfo>)
    ensures
        match r {
            Some(info) => content_of(d@) == Some(info@),
            None => content_of(d@) is None,
        },
{
    match &d.edid {
        Some(e) => match parse(e.as_slice()) {
            Ok(info) => Some(info),
            Err(_) => None,
        },
        None => None,
    }
}

fn label_has(d: &Display, part: &str) -> (r: bool)
    ensures
        r == is_labelled(part@)(d@),
{
    match readable(d) {
        Some(info) => {
            let label = info.label();
            let lower = lowered_text(label.as_str());
            has_text(lower.as_str(), part)
        },
        None => false,
    }
}

fn id_is(d: &Display, id: &str) -> (r: bool)
    ensures
        r == has_id(id@)(d@),
{
    match d.edid_id() {
        Some(i) => same_text(i.as_str(), id),
        None => false,
    }
}

fn only_one(displays: &Vec<Display>) -> (r: Result<usize, ResolveError>)
    ensures
        match r {
            Ok(i) => only_display(registry::display_contents(displays@)) == Ok::<
                int,
                ResolveError,
            >(i as int),
            Err(e) => only_display(registry::display_contents(displays@)) == Err::<
                int,
                ResolveError,
            >(e),
        },
{
    let ghost ds = registry::display_contents(displays@);
    let mut found: Vec<usize> = Vec::new();
    let mut i: usize = 0;
    while i < displays.len()
        invariant
            i <= displays.len(),
            ds == registry::display_contents(displays@),
            found.len() == places(ds.take(i as int), has_edid()).len(),
            forall|k: int|
                0 <= k < found.len() ==> (#[trigger] found@[k]) == places(
                    ds.take(i as int),
                    has_edid(),
                )[k],
        decreases displays.len() - i,
    {
        assert(ds.take(i + 1).drop_last() =~= ds.take(i as int));
        assert(ds.take(i + 1).last() == displays@[i as int]@);
        if displays[i].edid.is_some() {
            found.push(i);
        }
        i += 1;
    }
    assert(ds.take(i as int) =~= ds);
    if found.len() == 1 {
        Ok(found[0])
    } else if found.len() == 0 {
        Err(ResolveError::NoDisplay)
    } else {
        Err(ResolveError::SeveralDisplays)
    }
}

fn first_with_id(displays: &Vec<Display>, id: &str) -> (r: Option<usize>)
    ensures
        match r {
            Some(i) => {
                let found = places(registry::display_contents(displays@), has_id(id@));
                found.len() > 0 && found[0] == i
            },
            None => places(registry::display_contents(displays@), has_id(id@)).len() == 0,
        },
{
    let ghost ds = registry::display_contents(displays@);
    let mut first: Option<usize> = None;
    let mut i: usize = 0;
    while i < displays.len()
        invariant
            i <= displays.len(),
            ds == registry::display_contents(displays@),
            match first {
                Some(k) => {
                    let found = places(ds.take(i as int), has_id(id@));
                    found.len() > 0 && found[0] == k
                },
                None => places(ds.take(i as int), has_id(id@)).len() == 0,
            },
        decreases displays.len() - i,
    {
        assert(ds.take(i + 1).drop_last() =~= ds.take(i as int));
        assert(ds.take(i + 1).last() == displays@[i as int]@);
        if id_is(&displays[i], id) && first.is_none() {
            first = Some(i);
        }
        i += 1;
    }
    assert(ds.take(i as int) =~= ds);
    first
}

fn one_labelled(displays: &Vec<Display>, part: &str) -> (r: Result<usize, ResolveError>)
    ensures
        ({
            let found = places(registry::display_contents(displays@), is_labelled(part@));
            match r {
                Ok(i) => found.len() == 1 && found[0] == i,
                Err(ResolveError::NoMatch) => found.len() == 0,
                Err(ResolveError::SeveralMatches) => found.len() > 1,
                Err(_) => false,
            }
        }),
{
    let ghost ds = registry::display_contents(displays@);
    let mut found: Vec<usize> = Vec::new();
    let mut i: usize = 0;
    while i < displays.len()
        invariant
            i <= displays.len(),
            ds == registry::display_contents(displays@),
            found.len() == places(ds.take(i as int), is_labelled(part@)).len(),
            forall|k: int|
                0 <= k < found.len() ==> (#[trigger] found@[k]) == places(
                    ds.take(i as int),
                    is_labelled(part@),
                )[k],
        decreases displays.len() - i,
    {
        assert(ds.take(i + 1).drop_last() =~= ds.take(i as int));
        assert(ds.take(i + 1).last() == displays@[i as int]@);
        if label_has(&displays[i], part) {
            found.push(i);
        }
        i += 1;
    }
    assert(ds.take(i as int) =~= ds);
    if found.len() == 1 {
        Ok(found[0])
    } else if found.len() == 0 {
        Err(ResolveError::NoMatch)
    } else {
        Err(ResolveError::SeveralMatches)
    }
}

/// Resolves `--display` to the place of one of the connected outputs.
pub fn resolve(displays: &Vec<Display>, sel: Option<&str>) -> (r: Result<usize, ResolveError>)
    ensures
        match r {
            Ok(i) => i < displays.len() && resolved(registry::display_contents(displays@), sel)
                == Ok::<int, ResolveError>(i as int),
            Err(e) => resolved(registry::display_contents(displays@), sel) == Err::<
                int,
                ResolveError,
            >(e),
        },
{
    let ghost ds = registry::display_contents(displays@);
    let s = match sel {
        Some(s) => {
            let t = trimmed_text(s);
            lowered_text(t.as_str())
        },
        None => {
            proof {
                law_places(ds, has_edid());
                let found = places(ds, has_edid());
                if found.len() == 1 {
                    assert(found.contains(found[0]));
                }
            }
            return only_one(displays);
        },
    };
    proof {
        law_places(ds, has_id(s@));
        law_places(ds, is_labelled(s@));
        let a = places(ds, has_id(s@));
        let b = places(ds, is_labelled(s@));
        if a.len() > 0 {
            assert(a.contains(a[0]));
        }
        if b.len() > 0 {
            assert(b.contains(b[0]));
        }
    }
    if let Some(i) = first_with_id(displays, s.as_str()) {
        return Ok(i);
    }
    if let Some(i) = number_of(s.as_str()) {
        if i < displays.len() {
            return Ok(i);
        }
    }
    one_labelled(displays, s.as_str())
}

/// With nothing asked for, or a name, what is chosen has an EDID.
pub proof fn law_resolved_has_edid(ds: Seq<DisplayContent>, sel: Option<&str>)
    requires
        resolved(ds, sel) is Ok,
        sel matches Some(s) ==> text::number_value(text::lowered(text::trimmed(s@))) is None,
    ensures
        0 <= resolved(ds, sel)->Ok_0 < ds.len(),
        ds[resolved(ds, sel)->Ok_0].edid is Some,
{
    let i = resolved(ds, sel)->Ok_0;
    match sel {
        Some(s) => {
            let t = text::lowered(text::trimmed(s@));
            law_places(ds, has_id(t));
            law_places(ds, is_labelled(t));
            let a = places(ds, has_id(t));
            let b = places(ds, is_labelled(t));
            if a.len() > 0 {
                assert(a.contains(a[0]));
                assert(has_id(t)(ds[i]));
            } else {
                assert(b.contains(b[0]));
                assert(is_labelled(t)(ds[i]));
            }
        },
        None => {
            law_places(ds, has_edid());
            assert(places(ds, has_edid()).contains(places(ds, has_edid())[0]));
            assert(has_edid()(ds[i]));
        },
    }
}

// ---------------------------------------------------------------------------
// What a display says.

/// Why nothing can be said about a display.
#[derive(Debug)]
pub enum InfoError {
    /// The display with this index gave no EDID, but this return code.
    NoEdid { index: usize, status: i32 },
    /// Its EDID is not one.
    Unreadable(EdidError),
}

/// What a reader is told about a display without an EDID.
pub open spec fn no_edid_text(index: nat, status: i32) -> Seq<char> {
    "display "@ + text::dec(index) + " has no readable EDID ("@ + registry::ioreturn_text(status)
        + ")"@
}

/// What a reader is told about a display without an EDID.
pub fn no_edid_message(index: usize, status: i32) -> (s: String)
    ensures
        s@ == no_edid_text(index as nat, status),
{
    let mut s = String::new();
    let why = ioreturn_message(status);
    s.append("display ");
    push_dec(&mut s, index as u128);
    s.append(" has no readable EDID (");
    s.append(why.as_str());
    s.append(")");
    assert(s@ =~= no_edid_text(index as nat, status));
    s
}

/// Whether `e` is why nothing can be said about a display.
pub open spec fn is_info_error(e: InfoError, d: DisplayContent) -> bool {
    match e {
        InfoError::NoEdid { index, status } => {
            &&& d.edid is None
            &&& index == d.index
            &&& status == d.copy_edid_status
        },
        InfoError::Unreadable(e) => d.edid matches Some(b) && {
            ||| b.len() < 128 && e == EdidError::TooShort(b.len() as usize)
            ||| b.len() >= 128 && !block::has_header(b) && e == EdidError::BadHeader
        },
    }
}

/// What the EDID of a display says, or why that is not known.
pub fn info_of(d: &Display) -> (r: Result<EdidInfo, InfoError>)
    ensures
        match r {
            Ok(info) => content_of(d@) == Some(info@),
            Err(e) => content_of(d@) is None && is_info_error(e, d@),
        },
{
    match &d.edid {
        Some(e) => match parse(e.as_slice()) {
            Ok(info) => Ok(info),
            Err(e) => Err(InfoError::Unreadable(e)),
        },
        None => Err(InfoError::NoEdid { index: d.index, status: d.copy_edid_status }),
    }
}

/// How an output is named to a reader: by its label, or else by its index.
pub open spec fn output_name(d: DisplayContent) -> Seq<char> {
    match content_of(d) {
        Some(c) => c.label(),
        None => "output "@ + text::dec(d.index),
    }
}

/// How an output is named to a reader.
pub fn name_of(d: &Display) -> (s: String)
    ensures
        s@ == output_name(d@),
{
    match readable(d) {
        Some(info) => info.label(),
        None => {
            let mut s = String::new();
            s.append("output ");
            push_dec(&mut s, d.index as u128);
            assert(s@ =~= output_name(d@));
            s
        },
    }
}

// ---------------------------------------------------------------------------
// Files.

/// Whether `c` is an ASCII letter or digit.
pub open spec fn is_plain(c: char) -> bool {
    'a' <= c <= 'z' || 'A' <= c <= 'Z' || '0' <= c <= '9'
}

/// `s` with an underscore for every character that is no ASCII letter or digit.
pub open spec fn safe_text(s: Seq<char>) -> Seq<char> {
    s.map_values(
        |c: char|
            if is_plain(c) {
                c
            } else {
                '_'
            },
    )
}

/// `s` as part of a file name.
pub fn safe_name(s: &str) -> (out: String)
    ensures
        out@ == safe_text(s@),
{
    let cs = chars_of(s);
    let mut out = String::new();
    let mut i: usize = 0;
    while i < cs.len()
        invariant
            i <= cs.len(),
            cs@ == s@,
            out@ =~= safe_text(s@).take(i as int),
        decreases cs.len() - i,
    {
        let c = cs[i];
        if ('a' <= c && c <= 'z') || ('A' <= c && c <= 'Z') || ('0' <= c && c <= '9') {
            out.push(c);
        } else {
            out.push('_');
        }
        i += 1;
    }
    assert(safe_text(s@).take(i as int) =~= safe_text(s@));
    out
}

/// The name of a file for the EDID of a display, with the given end.
pub open spec fn file_text(c: EdidContent, end: Seq<char>) -> Seq<char> {
    c.id + "-"@ + safe_text(c.label()) + end
}

fn file_name(info: &EdidInfo, end: &str) -> (s: String)
    ensures
        s@ == file_text(info@, end@),
{
    let mut s = info.id.clone();
    let label = info.label();
    let safe = safe_name(label.as_str());
    s.append("-");
    s.append(safe.as_str());
    s.append(end);
    assert(s@ =~= file_text(info@, end@));
    s
}

/// The name of the file that an EDID is saved to when none is given.
pub fn dump_name(info: &EdidInfo) -> (s: String)
    ensures
        s@ == file_text(info@, ".bin"@),
{
    file_name(info, ".bin")
}

/// The directory that original EDIDs are kept in, below the user's home directory; an error
/// message when that is not known.
pub fn backup_dir(home: Option<&str>) -> (r: Result<String, String>)
    ensures
        match (home, r) {
            (Some(h), Ok(p)) => p@ == agent::below(h@, "Library/Application Support/pipecap"@),
            (None, Err(e)) => e@ == "HOME not set"@,
            _ => false,
        },
{
    match home {
        Some(h) => {
            let mut p = h.to_string();
            push_below(&mut p, "Library/Application Support/pipecap");
            Ok(p)
        },
        None => Err("HOME not set".to_string()),
    }
}

/// The file in the directory `dir` that the original EDID of a display is kept in.
pub fn backup_path(dir: &str, info: &EdidInfo) -> (s: String)
    ensures
        s@ == agent::below(dir@, file_text(info@, "-original.bin"@)),
{
    let mut p = dir.to_string();
    let file = file_name(info, "-original.bin");
    push_below(&mut p, file.as_str());
    p
}

/// Whether an EDID from a file may be applied to a display: only when manufacturer and
/// product code are the same.
pub fn check_same_display(file: &EdidInfo, display: &EdidInfo) -> (r: Result<(), String>)
    ensures
        match r {
            Ok(()) => file@.id == display@.id,
            Err(e) => file@.id != display@.id && e@ == "EDID id mismatch: file is for "@ + file@.id
                + " but the display is "@ + display@.id,
        },
{
    if same_text(file.id.as_str(), display.id.as_str()) {
        Ok(())
    } else {
        let mut e = String::new();
        e.append("EDID id mismatch: file is for ");
        e.append(file.id.as_str());
        e.append(" but the display is ");
        e.append(display.id.as_str());
        assert(e@ =~= "EDID id mismatch: file is for "@ + file@.id + " but the display is "@
            + display@.id);
        Err(e)
    }
}

// ---------------------------------------------------------------------------
// Which display is meant.

/// Whether bytes 8 to 11 of the EDID of a display are, in hexadecimal, `s`.
pub open spec fn is_identified(d: DisplayContent, s: Seq<char>) -> bool {
    d.edid matches Some(e) && e.len() >= 12 && text::hex_text(e.subrange(8, 12)) == s
}

/// Whether a display has an EDID that can be read, and `s` occurs in its label, in lower case.
pub open spec fn is_called(d: DisplayContent, s: Seq<char>) -> bool {
    d.edid matches Some(e) && e.len() >= 128 && block::has_header(e) && text::contains_text(
        text::lowered(edid::edid_content(e).label()),
        s,
    )
}

proof fn lemma_one_place(ds: Seq<DisplayContent>, p: spec_fn(DisplayContent) -> bool, i: int)
    requires
        0 <= i < ds.len(),
        p(ds[i]),
    ensures
        places(ds, p).len() > 0,
        (forall|j: int| 0 <= j < i ==> !p(#[trigger] ds[j])) ==> places(ds, p)[0] == i,
        (forall|j: int| 0 <= j < ds.len() && j != i ==> !p(#[trigger] ds[j])) ==> places(ds, p).len()
            == 1,
{
    let found = places(ds, p);
    law_places(ds, p);
    assert(found.contains(i));
    let a = choose|a: int| 0 <= a < found.len() && found[a] == i;
    assert(found.contains(found[0]));
    if a > 0 {
        assert(found[0] < found[a]);
    }
    if found.len() > 1 {
        assert(found.contains(found[1]));
        assert(found[0] < found[1]);
    }
}

proof fn lemma_no_place(ds: Seq<DisplayContent>, p: spec_fn(DisplayContent) -> bool)
    requires
        forall|j: int| 0 <= j < ds.len() ==> !p(#[trigger] ds[j]),
    ensures
        places(ds, p).len() == 0,
{
    law_places(ds, p);
    if places(ds, p).len() > 0 {
        assert(places(ds, p).contains(places(ds, p)[0]));
    }
}

proof fn lemma_two_places(
    ds: Seq<DisplayContent>,
    p: spec_fn(DisplayContent) -> bool,
    i: int,
    j: int,
)
    requires
        0 <= i < j < ds.len(),
        p(ds[i]),
        p(ds[j]),
    ensures
        places(ds, p).len() >= 2,
{
    let found = places(ds, p);
    law_places(ds, p);
    assert(found.contains(i) && found.contains(j));
    let a = choose|a: int| 0 <= a < found.len() && found[a] == i;
    let b = choose|b: int| 0 <= b < found.len() && found[b] == j;
    assert(a != b);
}

/// With nothing asked for, the only display that has an EDID is meant; it is an error when there
/// is none, or more than one.
pub proof fn law_only_display(ds: Seq<DisplayContent>, i: int, j: int)
    ensures
        0 <= i < ds.len() && ds[i].edid is Some && (forall|k: int|
            0 <= k < ds.len() && k != i ==> (#[trigger] ds[k]).edid is None) ==> resolved(ds, None)
            == Ok::<int, ResolveError>(i),
        (forall|k: int| 0 <= k < ds.len() ==> (#[trigger] ds[k]).edid is None) ==> resolved(ds, None)
            == Err::<int, ResolveError>(ResolveError::NoDisplay),
        0 <= i < j < ds.len() && ds[i].edid is Some && ds[j].edid is Some ==> resolved(ds, None)
            == Err::<int, ResolveError>(ResolveError::SeveralDisplays),
{
    let p = has_edid();
    if 0 <= i < ds.len() && ds[i].edid is Some && (forall|k: int|
        0 <= k < ds.len() && k != i ==> (#[trigger] ds[k]).edid is None) {
        assert forall|k: int| 0 <= k < ds.len() && k != i implies !p(#[trigger] ds[k]) by {}
        lemma_one_place(ds, p, i);
    }
    if forall|k: int| 0 <= k < ds.len() ==> (#[trigger] ds[k]).edid is None {
        assert forall|k: int| 0 <= k < ds.len() implies !p(#[trigger] ds[k]) by {}
        lemma_no_place(ds, p);
    }
    if 0 <= i < j < ds.len() && ds[i].edid is Some && ds[j].edid is Some {
        lemma_two_places(ds, p, i, j);
    }
}

/// The first display with the id that is asked for is meant, before all others; capitals and
/// white space around the id do not matter.
pub proof fn law_chosen_by_id(ds: Seq<DisplayContent>, sel: Seq<char>, i: int)
    requires
        0 <= i < ds.len(),
        is_identified(ds[i], text::lowered(text::trimmed(sel))),
        forall|j: int|
            0 <= j < i ==> !is_identified(#[trigger] ds[j], text::lowered(text::trimmed(sel))),
    ensures
        chosen_display(ds, sel) == Ok::<int, ResolveError>(i),
{
    let s = text::lowered(text::trimmed(sel));
    let p = has_id(s);
    assert forall|j: int| 0 <= j < i implies !p(#[trigger] ds[j]) by {
        assert(!is_identified(ds[j], s));
    }
    lemma_one_place(ds, p, i);
}

/// When no display has the id that is asked for, but it is a number for which there is a display,
/// that display is meant.
pub proof fn law_chosen_by_number(ds: Seq<DisplayContent>, sel: Seq<char>, n: nat)
    requires
        forall|j: int|
            0 <= j < ds.len() ==> !is_identified(
                #[trigger] ds[j],
                text::lowered(text::trimmed(sel)),
            ),
        text::number_value(text::lowered(text::trimmed(sel))) == Some(n),
        n < ds.len(),
    ensures
        chosen_display(ds, sel) == Ok::<int, ResolveError>(n as int),
{
    lemma_no_id(ds, text::lowered(text::trimmed(sel)));
}

proof fn lemma_no_id(ds: Seq<DisplayContent>, s: Seq<char>)
    requires
        forall|j: int| 0 <= j < ds.len() ==> !is_identified(#[trigger] ds[j], s),
    ensures
        places(ds, has_id(s)).len() == 0,
{
    let p = has_id(s);
    assert forall|j: int| 0 <= j < ds.len() implies !p(#[trigger] ds[j]) by {
        assert(!is_identified(ds[j], s));
    }
    lemma_no_place(ds, p);
}

/// When neither an id nor a number, what is asked for is part of a name: the only display with it
/// in its label is meant; it is an error when there is none, or more than one.
pub proof fn law_chosen_by_name(ds: Seq<DisplayContent>, sel: Seq<char>, i: int, j: int)
    requires
        forall|k: int|
            0 <= k < ds.len() ==> !is_identified(
                #[trigger] ds[k],
                text::lowered(text::trimmed(sel)),
            ),
        text::number_value(text::lowered(text::trimmed(sel))) matches Some(n) ==> n >= ds.len(),
    ensures
        ({
            let s = text::lowered(text::trimmed(sel));
            &&& 0 <= i < ds.len() && is_called(ds[i], s) && (forall|k: int|
                0 <= k < ds.len() && k != i ==> !is_called(#[trigger] ds[k], s)) ==> chosen_display(
                ds,
                sel,
            ) == Ok::<int, ResolveError>(i)
            &&& (forall|k: int| 0 <= k < ds.len() ==> !is_called(#[trigger] ds[k], s))
                ==> chosen_display(ds, sel) == Err::<int, ResolveError>(ResolveError::NoMatch)
            &&& 0 <= i < j < ds.len() && is_called(ds[i], s) && is_called(ds[j], s)
                ==> chosen_display(ds, sel) == Err::<int, ResolveError>(
                ResolveError::SeveralMatches,
            )
        }),
{
    let s = text::lowered(text::trimmed(sel));
    let p = is_labelled(s);
    lemma_no_id(ds, s);
    assert forall|k: int| 0 <= k < ds.len() implies p(#[trigger] ds[k]) == is_called(ds[k], s) by {}
    if 0 <= i < ds.len() && is_called(ds[i], s) && (forall|k: int|
        0 <= k < ds.len() && k != i ==> !is_called(#[trigger] ds[k], s)) {
        assert forall|k: int| 0 <= k < ds.len() && k != i implies !p(#[trigger] ds[k]) by {
            assert(!is_called(ds[k], s));
        }
        assert(p(ds[i]));
        lemma_one_place(ds, p, i);
    }
    if forall|k: int| 0 <= k < ds.len() ==> !is_called(#[trigger] ds[k], s) {
        assert forall|k: int| 0 <= k < ds.len() implies !p(#[trigger] ds[k]) by {
            assert(!is_called(ds[k], s));
        }
        lemma_no_place(ds, p);
    }
    if 0 <= i < j < ds.len() && is_called(ds[i], s) && is_called(ds[j], s) {
        assert(p(ds[i]) && p(ds[j]));
        lemma_two_places(ds, p, i, j);
    }
}

/// A name for a file is as long as the text, and has the letters and digits of ASCII where the
/// text has them, and underscores elsewhere.
pub proof fn law_safe_name(s: Seq<char>)
    ensures
        safe_text(s).len() == s.len(),
        forall|i: int|
            0 <= i < s.len() ==> #[trigger] safe_text(s)[i] == (if 48 <= s[i] as int <= 57 || 65
                <= s[i] as int <= 90 || 97 <= s[i] as int <= 122 {
                s[i]
            } else {
                '_'
            }),
{
}

/// The file for the EDID of a display begins with its id, so displays with different ids have
/// different files.
pub proof fn law_file_names(a: EdidContent, b: EdidContent, end: Seq<char>)
    requires
        a.id.len() == b.id.len(),
        a.id != b.id,
    ensures
        file_text(a, end) != file_text(b, end),
        a.id.is_prefix_of(file_text(a, end)),
        end.is_suffix_of(file_text(a, end)),
        file_text(a, end).skip(a.id.len() as int + 1) == safe_text(a.label()) + end,
{
    let (x, y) = (file_text(a, end), file_text(b, end));
    reveal_strlit("-");
    assert(x.take(a.id.len() as int) =~= a.id);
    assert(y.take(b.id.len() as int) =~= b.id);
    assert(a.id =~= x.subrange(0, a.id.len() as int));
    assert(end =~= x.subrange(x.len() - end.len(), x.len() as int));
    assert(x.skip(a.id.len() as int + 1) =~= safe_text(a.label()) + end);
}

} // verus!
