//! What the I/O Registry says about displays and display pipes.

use vstd::prelude::*;

use crate::edid::{id_of, EdidContent, EdidInfo};
use crate::property::{int_array, str_array, Property};
use crate::text::{
    find_with, lowered_text, push_hex, same_text, split_text, starts_with_text, text_before,
    trimmed_text,
};
use crate::{edid, property, text, text_laws};

verus! {

// ---------------------------------------------------------------------------
// Return codes.

/// The 32 bits of a return code as an unsigned number.
pub open spec fn code_of(r: i32) -> int {
    if r < 0 {
        r + 0x1_0000_0000
    } else {
        r as int
    }
}

/// How a return code is named to a reader.
pub open spec fn ioreturn_name(code: int) -> Seq<char> {
    if code == 0xe00002bc {
        "kIOReturnError (general error)"@
    } else if code == 0xe00002bd {
        "kIOReturnNoMemory"@
    } else if code == 0xe00002c1 {
        "kIOReturnNotPrivileged"@
    } else if code == 0xe00002c2 {
        "kIOReturnBadArgument (the EDID was rejected)"@
    } else if code == 0xe00002c7 {
        "kIOReturnUnsupported"@
    } else if code == 0xe00002cd {
        "kIOReturnNotOpen"@
    } else if code == 0xe00002d8 {
        "kIOReturnNotAttached"@
    } else if code == 0xe00002e2 {
        "kIOReturnNotPermitted: the IOKit user client could not be opened. Run pipecap directly from Terminal, outside of any sandbox"@
    } else if code == 0xe00002ed {
        "kIOReturnNotReady"@
    } else if code == 0xffffffff {
        "IOAVServiceCreateWithService returned NULL (sandboxed process? run from Terminal)"@
    } else {
        "unknown IOReturn"@
    }
}

/// What a return code is called, with the code in hexadecimal.
pub open spec fn ioreturn_text(r: i32) -> Seq<char> {
    ioreturn_name(code_of(r)) + " (0x"@ + text::hex_digits(code_of(r) as nat, 8) + ")"@
}

/// Translates an `IOReturn` into something a human can act on.
pub fn ioreturn_message(r: i32) -> (s: String)
    ensures
        s@ == ioreturn_text(r),
{
    let code: u32 = if r < 0 {
        (r as i64 + 0x1_0000_0000) as u32
    } else {
        r as u32
    };
    let name: &str = match code {
        0xe00002bc => "kIOReturnError (general error)",
        0xe00002bd => "kIOReturnNoMemory",
        0xe00002c1 => "kIOReturnNotPrivileged",
        0xe00002c2 => "kIOReturnBadArgument (the EDID was rejected)",
        0xe00002c7 => "kIOReturnUnsupported",
        0xe00002cd => "kIOReturnNotOpen",
        0xe00002d8 => "kIOReturnNotAttached",
        0xe00002e2 => "kIOReturnNotPermitted: the IOKit user client could not be opened. Run pipecap directly from Terminal, outside of any sandbox",
        0xe00002ed => "kIOReturnNotReady",
        0xffffffff => "IOAVServiceCreateWithService returned NULL (sandboxed process? run from Terminal)",
        _ => "unknown IOReturn",
    };
    let mut s = String::new();
    s.append(name);
    s.append(" (0x");
    push_hex(&mut s, code as u64, 8);
    s.append(")");
    assert(s@ =~= ioreturn_text(r));
    s
}

/// Whether a virtual EDID was taken, by the return code of setting it; an error message when
/// it was not.
pub fn virtual_edid_taken(r: i32) -> (taken: Result<(), String>)
    ensures
        match taken {
            Ok(()) => r == 0,
            Err(e) => r != 0 && e@ == "IOAVServiceSetVirtualEDIDMode failed: "@ + ioreturn_text(r),
        },
{
    if r == 0 {
        Ok(())
    } else {
        let mut e = String::new();
        let why = ioreturn_message(r);
        e.append("IOAVServiceSetVirtualEDIDMode failed: ");
        e.append(why.as_str());
        assert(e@ =~= "IOAVServiceSetVirtualEDIDMode failed: "@ + ioreturn_text(r));
        Err(e)
    }
}

// ---------------------------------------------------------------------------
// Display outputs.

/// What was read of one service in the registry.
pub struct Service {
    pub properties: Property,
    pub path: String,
    /// What reading the EDID of a display output gave, if anything.
    pub edid: Option<Vec<u8>>,
    /// The return code of reading it; only with zero is what was read an EDID.
    pub copy_edid_status: i32,
}

/// One external display output (a `DCPAVServiceProxy` with `Location != Embedded`).
pub struct Display {
    pub index: usize,
    pub path: String,
    /// The `dispextN` pipe node this output is attached to, if visible in the path.
    pub pipe: Option<String>,
    pub location: String,
    pub edid: Option<Vec<u8>>,
    pub copy_edid_status: i32,
    /// Which of the services this output is.
    pub service: usize,
}

/// What a display output says.
#[verifier::ext_equal]
pub struct DisplayContent {
    pub index: nat,
    pub path: Seq<char>,
    pub pipe: Option<Seq<char>>,
    pub location: Seq<char>,
    pub edid: Option<Seq<u8>>,
    pub copy_edid_status: i32,
    pub service: nat,
}

/// The bytes of a vector that may be missing.
pub open spec fn maybe_bytes(b: Option<Vec<u8>>) -> Option<Seq<u8>> {
    match b {
        Some(b) => Some(b@),
        None => None,
    }
}

impl View for Display {
    type V = DisplayContent;

    open spec fn view(&self) -> DisplayContent {
        DisplayContent {
            index: self.index as nat,
            path: self.path@,
            pipe: text::maybe(self.pipe),
            location: self.location@,
            edid: maybe_bytes(self.edid),
            copy_edid_status: self.copy_edid_status,
            service: self.service as nat,
        }
    }
}

/// What several display outputs say.
pub open spec fn display_contents(ds: Seq<Display>) -> Seq<DisplayContent> {
    ds.map_values(|d: Display| d@)
}

/// Whether a display output with these properties is not built in.
pub open spec fn external(p: Property) -> bool {
    p.text_or_empty("Location"@) != "Embedded"@
}

/// Whether a display output with these properties is not built in.
pub fn is_external(p: &Property) -> (r: bool)
    ensures
        r == external(*p),
{
    let location = p.get_text_or_empty("Location");
    !same_text(location.as_str(), "Embedded")
}

/// The names of the nodes of a path, without what stands behind a colon.
pub open spec fn node_names(path: Seq<char>) -> Seq<Seq<char>> {
    text::parts(path, '/').map_values(|s: Seq<char>| text::before(s, ':'))
}

/// The first node of a path that is an external display pipe (`dispextN`), if there is one.
pub open spec fn pipe_of(path: Seq<char>) -> Option<Seq<char>> {
    text::first_with(node_names(path), "dispext"@)
}

/// The first node of a path that is an external display pipe (`dispextN`), if there is one.
pub fn pipe_node(path: &str) -> (r: Option<String>)
    ensures
        text::maybe(r) == pipe_of(path@),
{
    let nodes = split_text(path, '/');
    let mut names: Vec<String> = Vec::new();
    let mut i: usize = 0;
    while i < nodes.len()
        invariant
            i <= nodes.len(),
            text::texts(nodes@) == text::parts(path@, '/'),
            text::texts(names@) =~= node_names(path@).take(i as int),
        decreases nodes.len() - i,
    {
        let ghost before = text::texts(names@);
        assert(text::texts(nodes@)[i as int] == nodes@[i as int]@);
        let name = text_before(nodes[i].as_str(), ':');
        let ghost n = name@;
        names.push(name);
        assert(text::texts(names@) =~= before.push(n));
        i += 1;
    }
    assert(text::texts(names@) =~= node_names(path@));
    find_with(&names, "dispext")
}

/// The external display outputs among the first `n` services.
pub open spec fn external_among(ss: Seq<Service>, n: nat) -> Seq<DisplayContent>
    decreases n,
{
    if n == 0 {
        Seq::empty()
    } else {
        let before = external_among(ss, (n - 1) as nat);
        let s = ss[n - 1];
        if external(s.properties) {
            before.push(
                DisplayContent {
                    index: before.len(),
                    path: s.path@,
                    pipe: pipe_of(s.path@),
                    location: s.properties.text_or_empty("Location"@),
                    edid: if s.copy_edid_status == 0 {
                        maybe_bytes(s.edid)
                    } else {
                        None
                    },
                    copy_edid_status: s.copy_edid_status,
                    service: (n - 1) as nat,
                },
            )
        } else {
            before
        }
    }
}

/// Why there are no display outputs at all.
pub open spec fn no_services_text() -> Seq<char> {
    "no DCPAVServiceProxy services found; pipecap needs an Apple Silicon Mac"@
}

/// The external display outputs among the services that were found, or why there is none to
/// look at.
pub fn external_displays(services: &Vec<Service>) -> (r: Result<Vec<Display>, String>)
    ensures
        match r {
            Ok(ds) => services.len() > 0 && display_contents(ds@) == external_among(
                services@,
                services@.len(),
            ),
            Err(e) => services.len() == 0 && e@ == no_services_text(),
        },
{
    if services.len() == 0 {
        return Err(
            "no DCPAVServiceProxy services found; pipecap needs an Apple Silicon Mac".to_string(),
        );
    }
    let mut out: Vec<Display> = Vec::new();
    let mut n: usize = 0;
    while n < services.len()
        invariant
            n <= services.len(),
            out.len() <= n,
            display_contents(out@) =~= external_among(services@, n as nat),
        decreases services.len() - n,
    {
        let s = &services[n];
        if is_external(&s.properties) {
            let ghost before = display_contents(out@);
            let edid: Option<Vec<u8>> = if s.copy_edid_status == 0 {
                copied_bytes(&s.edid)
            } else {
                None
            };
            let d = Display {
                index: out.len(),
                path: s.path.clone(),
                pipe: pipe_node(s.path.as_str()),
                location: s.properties.get_text_or_empty("Location"),
                edid,
                copy_edid_status: s.copy_edid_status,
                service: n,
            };
            let ghost c = d@;
            out.push(d);
            assert(display_contents(out@) =~= before.push(c));
        }
        n += 1;
    }
    Ok(out)
}

/// A copy of bytes that may be missing.
pub fn copied_bytes(b: &Option<Vec<u8>>) -> (r: Option<Vec<u8>>)
    ensures
        maybe_bytes(r) == maybe_bytes(*b),
{
    match b {
        Some(b) => {
            let mut out: Vec<u8> = Vec::new();
            let mut i: usize = 0;
            while i < b.len()
                invariant
                    i <= b.len(),
                    out@ =~= b@.take(i as int),
                decreases b.len() - i,
            {
                out.push(b[i]);
                i += 1;
            }
            assert(b@.take(i as int) =~= b@);
            Some(out)
        },
        None => None,
    }
}

impl DisplayContent {
    /// The stable identifier in the EDID of this output, if it has a readable one.
    pub open spec fn id(self) -> Option<Seq<char>> {
        match self.edid {
            Some(e) => edid::id_text(e),
            None => None,
        }
    }
}

impl Display {
    /// The stable identifier in the EDID of this output, if it has a readable one.
    pub fn edid_id(&self) -> (r: Option<String>)
        ensures
            text::maybe(r) == self@.id(),
    {
        match &self.edid {
            Some(e) => id_of(e.as_slice()),
            None => None,
        }
    }
}

// ---------------------------------------------------------------------------
// The display crossbar.

/// One entry of the crossbar's `ConnectionMapping`.
#[derive(Debug, Clone)]
pub struct PipeMapping {
    pub product_name: String,
    pub product_id: i64,
    pub address: String,
    pub max_w: i64,
    pub max_h: i64,
    pub max_pipes: i64,
    pub pipe_ids: Vec<i64>,
    pub max_active_pixel_rate: i64,
    pub max_total_pixel_rate: i64,
    pub max_bpc: i64,
}

/// What an entry of the crossbar's `ConnectionMapping` says.
#[verifier::ext_equal]
pub struct MappingContent {
    pub product_name: Seq<char>,
    pub product_id: i64,
    pub address: Seq<char>,
    pub max_w: i64,
    pub max_h: i64,
    pub max_pipes: i64,
    pub pipe_ids: Seq<i64>,
    pub max_active_pixel_rate: i64,
    pub max_total_pixel_rate: i64,
    pub max_bpc: i64,
}

impl View for PipeMapping {
    type V = MappingContent;

    open spec fn view(&self) -> MappingContent {
        MappingContent {
            product_name: self.product_name@,
            product_id: self.product_id,
            address: self.address@,
            max_w: self.max_w,
            max_h: self.max_h,
            max_pipes: self.max_pipes,
            pipe_ids: self.pipe_ids@,
            max_active_pixel_rate: self.max_active_pixel_rate,
            max_total_pixel_rate: self.max_total_pixel_rate,
            max_bpc: self.max_bpc,
        }
    }
}

impl MappingContent {
    /// Whether this entry describes the monitor with the given EDID: by name, whatever the
    /// case and the white space around it, or by product code, in either byte order.
    pub open spec fn describes(self, c: EdidContent) -> bool {
        let by_name = c.name matches Some(n) && n.len() > 0 && text::lowered(text::trimmed(n))
            == text::lowered(text::trimmed(self.product_name));
        let le = c.product_code as int;
        let be = 256 * (c.product_code % 256) + c.product_code / 256;
        by_name || (self.product_id != 0 && (self.product_id == le || self.product_id == be))
    }
}

impl PipeMapping {
    /// Whether this crossbar entry describes the monitor with the given EDID.
    pub fn matches(&self, info: &EdidInfo) -> (r: bool)
        ensures
            r == self@.describes(info@),
    {
        if let Some(n) = &info.name {
            if !n.as_str().is_empty() {
                let a = trimmed_text(n.as_str());
                let b = trimmed_text(self.product_name.as_str());
                let x = lowered_text(a.as_str());
                let y = lowered_text(b.as_str());
                if same_text(x.as_str(), y.as_str()) {
                    return true;
                }
            }
        }
        let le: i64 = info.product_code as i64;
        let be: i64 = 256 * (info.product_code as i64 % 256) + info.product_code as i64 / 256;
        self.product_id != 0 && (self.product_id == le || self.product_id == be)
    }
}

/// What several entries say.
pub open spec fn mapping_contents(ms: Seq<PipeMapping>) -> Seq<MappingContent> {
    ms.map_values(|m: PipeMapping| m@)
}

/// The entry that a property writes.
pub open spec fn mapping_in(m: Property) -> MappingContent {
    MappingContent {
        product_name: text::trimmed(m.text_or_empty("ProductName"@)),
        product_id: m.number_or_zero("ProductID"@),
        address: m.text_or_empty("Address"@),
        max_w: m.number_or_zero("MaxW"@),
        max_h: m.number_or_zero("MaxH"@),
        max_pipes: m.number_or_zero("MaxPipes"@),
        pipe_ids: property::ints_among(m.items_in("PipeIDs"@)),
        max_active_pixel_rate: m.number_or_zero("MaxActivePixelRate"@),
        max_total_pixel_rate: m.number_or_zero("MaxTotalPixelRate"@),
        max_bpc: m.number_or_zero("MaxBpc"@),
    }
}

/// The entries that properties write.
pub open spec fn mappings_in(items: Seq<Property>) -> Seq<MappingContent> {
    items.map_values(|m: Property| mapping_in(m))
}

/// State of the display crossbar.
#[derive(Debug, Clone)]
pub struct CrossbarState {
    pub mappings: Vec<PipeMapping>,
    pub pending: Vec<String>,
    pub available_ufps: Vec<String>,
    pub current_state: Property,
}

/// What the display crossbar says.
#[verifier::ext_equal]
pub struct CrossbarContent {
    pub mappings: Seq<MappingContent>,
    pub pending: Seq<Seq<char>>,
    pub available_ufps: Seq<Seq<char>>,
    pub current_state: Property,
}

impl View for CrossbarState {
    type V = CrossbarContent;

    open spec fn view(&self) -> CrossbarContent {
        CrossbarContent {
            mappings: mapping_contents(self.mappings@),
            pending: text::texts(self.pending@),
            available_ufps: text::texts(self.available_ufps@),
            current_state: self.current_state,
        }
    }
}

/// What the crossbar with the properties `p` says.
pub open spec fn crossbar_in(p: Property) -> CrossbarContent {
    CrossbarContent {
        mappings: mappings_in(p.items_in("ConnectionMapping"@)),
        pending: property::texts_among(p.items_in("pending-dfps"@)),
        available_ufps: property::texts_among(p.items_in("available-ufps"@)),
        current_state: match p.field("current-state"@) {
            Some(s) => s,
            None => Property::Null,
        },
    }
}

fn mapping_from(m: &Property) -> (r: PipeMapping)
    ensures
        r@ == mapping_in(*m),
{
    let name = m.get_text_or_empty("ProductName");
    let r = PipeMapping {
        product_name: trimmed_text(name.as_str()),
        product_id: m.get_int_or_zero("ProductID"),
        address: m.get_text_or_empty("Address"),
        max_w: m.get_int_or_zero("MaxW"),
        max_h: m.get_int_or_zero("MaxH"),
        max_pipes: m.get_int_or_zero("MaxPipes"),
        pipe_ids: int_array(m, "PipeIDs"),
        max_active_pixel_rate: m.get_int_or_zero("MaxActivePixelRate"),
        max_total_pixel_rate: m.get_int_or_zero("MaxTotalPixelRate"),
        max_bpc: m.get_int_or_zero("MaxBpc"),
    };
    assert(r@ =~= mapping_in(*m));
    r
}

fn mappings_from(p: &Property, key: &str) -> (out: Vec<PipeMapping>)
    ensures
        mapping_contents(out@) == mappings_in(p.items_in(key@)),
{
    let mut out: Vec<PipeMapping> = Vec::new();
    if let Some(v) = p.get_items(key) {
        let mut i: usize = 0;
        while i < v.len()
            invariant
                i <= v.len(),
                mapping_contents(out@) =~= mappings_in(v@).take(i as int),
            decreases v.len() - i,
        {
            let ghost before = mapping_contents(out@);
            let m = mapping_from(&v[i]);
            let ghost c = m@;
            out.push(m);
            assert(mapping_contents(out@) =~= before.push(c));
            i += 1;
        }
        assert(mapping_contents(out@) =~= mappings_in(v@));
    } else {
        assert(mapping_contents(out@) =~= mappings_in(Seq::empty()));
    }
    out
}

fn taken(p: Property, key: &str) -> (r: Property)
    ensures
        r == (match p.field(key@) {
            Some(s) => s,
            None => Property::Null,
        }),
{
    match p {
        Property::Object(fields) => {
            let mut fields = fields;
            match property::find(&fields, key) {
                Some(i) => fields.swap_remove(i).1,
                None => Property::Null,
            }
        },
        _ => Property::Null,
    }
}

/// What the crossbar (`AppleDisplayConnectionManager`) with the given properties says. `None`
/// when absent.
pub fn crossbar(p: Option<Property>) -> (r: Option<CrossbarState>)
    ensures
        match (p, r) {
            (Some(p), Some(x)) => x@ == crossbar_in(p),
            (None, None) => true,
            _ => false,
        },
{
    match p {
        Some(p) => {
            let ghost whole = p;
            let mappings = mappings_from(&p, "ConnectionMapping");
            let pending = str_array(&p, "pending-dfps");
            let available_ufps = str_array(&p, "available-ufps");
            let current_state = taken(p, "current-state");
            let x = CrossbarState { mappings, pending, available_ufps, current_state };
            assert(x@ =~= crossbar_in(whole));
            Some(x)
        },
        None => None,
    }
}

// ---------------------------------------------------------------------------
// Pipes and framebuffers.

/// How many of the texts begin with `start`.
pub open spec fn count_with(names: Seq<Seq<char>>, start: Seq<char>) -> nat
    decreases names.len(),
{
    if names.len() == 0 {
        0
    } else {
        count_with(names.drop_last(), start) + if text::begins_with(names.last(), start) {
            1nat
        } else {
            0
        }
    }
}

/// Number of external display pipe nodes (`dispextN`) among the named nodes of the device
/// tree.
pub fn pipe_count(names: &Vec<String>) -> (n: usize)
    ensures
        n == count_with(text::texts(names@), "dispext"@),
{
    let ghost all = text::texts(names@);
    let mut n: usize = 0;
    let mut i: usize = 0;
    while i < names.len()
        invariant
            i <= names.len(),
            all == text::texts(names@),
            n <= i,
            n == count_with(all.take(i as int), "dispext"@),
        decreases names.len() - i,
    {
        assert(all.take(i + 1).drop_last() =~= all.take(i as int));
        assert(all.take(i + 1).last() == names@[i as int]@);
        if starts_with_text(names[i].as_str(), "dispext") {
            n += 1;
        }
        i += 1;
    }
    assert(all.take(i as int) =~= all);
    n
}

/// A display that currently has a framebuffer (i.e. is really lit up).
#[derive(Debug, Clone)]
pub struct Framebuffer {
    pub product_name: String,
    pub max_refresh_hz: i64,
    pub port_id: i64,
    pub pipe: String,
}

/// What a framebuffer says.
#[verifier::ext_equal]
pub struct FramebufferContent {
    pub product_name: Seq<char>,
    pub max_refresh_hz: i64,
    pub port_id: i64,
    pub pipe: Seq<char>,
}

impl View for Framebuffer {
    type V = FramebufferContent;

    open spec fn view(&self) -> FramebufferContent {
        FramebufferContent {
            product_name: self.product_name@,
            max_refresh_hz: self.max_refresh_hz,
            port_id: self.port_id,
            pipe: self.pipe@,
        }
    }
}

/// What several framebuffers say.
pub open spec fn framebuffer_contents(fs: Seq<Framebuffer>) -> Seq<FramebufferContent> {
    fs.map_values(|f: Framebuffer| f@)
}

/// The first node of a path whose name begins with `disp`, without what stands behind an
/// at sign, or nothing.
pub open spec fn framebuffer_pipe(path: Seq<char>) -> Seq<char> {
    match text::first_with(text::parts(path, '/'), "disp"@) {
        Some(node) => text::before(node, '@'),
        None => Seq::empty(),
    }
}

/// What the framebuffer service with these properties and this path says, if a display is
/// attached to it.
pub open spec fn framebuffer_in(p: Property, path: Seq<char>) -> Option<FramebufferContent> {
    match p.field("DisplayAttributes"@) {
        Some(attrs) => match attrs.field("ProductAttributes"@) {
            Some(product) => match product.text_in("ProductName"@) {
                Some(name) => Some(
                    FramebufferContent {
                        product_name: text::trimmed(name),
                        max_refresh_hz: attrs.number_or_zero("MaximumRefreshRate"@),
                        port_id: attrs.number_or_zero("PortID"@),
                        pipe: framebuffer_pipe(path),
                    },
                ),
                None => None,
            },
            None => None,
        },
        None => None,
    }
}

/// The framebuffers among the first `n` services.
pub open spec fn framebuffers_among(ss: Seq<Service>, n: nat) -> Seq<FramebufferContent>
    decreases n,
{
    if n == 0 {
        Seq::empty()
    } else {
        let before = framebuffers_among(ss, (n - 1) as nat);
        match framebuffer_in(ss[n - 1].properties, ss[n - 1].path@) {
            Some(f) => before.push(f),
            None => before,
        }
    }
}

fn framebuffer_from(s: &Service) -> (r: Option<Framebuffer>)
    ensures
        match r {
            Some(f) => framebuffer_in(s.properties, s.path@) == Some(f@),
            None => framebuffer_in(s.properties, s.path@) is None,
        },
{
    let attrs = match s.properties.get("DisplayAttributes") {
        Some(a) => a,
        None => {
            return None;
        },
    };
    let product = match attrs.get("ProductAttributes") {
        Some(p) => p,
        None => {
            return None;
        },
    };
    match product.get_text("ProductName") {
        Some(name) => {
            let nodes = split_text(s.path.as_str(), '/');
            let pipe = match find_with(&nodes, "disp") {
                Some(node) => text_before(node.as_str(), '@'),
                None => String::new(),
            };
            let f = Framebuffer {
                product_name: trimmed_text(name.as_str()),
                max_refresh_hz: attrs.get_int_or_zero("MaximumRefreshRate"),
                port_id: attrs.get_int_or_zero("PortID"),
                pipe,
            };
            assert(f@.pipe =~= framebuffer_pipe(s.path@));
            Some(f)
        },
        None => None,
    }
}

/// The displays that have a framebuffer, among the framebuffer services.
pub fn active_framebuffers(services: &Vec<Service>) -> (out: Vec<Framebuffer>)
    ensures
        framebuffer_contents(out@) == framebuffers_among(services@, services@.len()),
{
    let mut out: Vec<Framebuffer> = Vec::new();
    let mut n: usize = 0;
    while n < services.len()
        invariant
            n <= services.len(),
            framebuffer_contents(out@) =~= framebuffers_among(services@, n as nat),
        decreases services.len() - n,
    {
        if let Some(f) = framebuffer_from(&services[n]) {
            let ghost before = framebuffer_contents(out@);
            let ghost c = f@;
            out.push(f);
            assert(framebuffer_contents(out@) =~= before.push(c));
        }
        n += 1;
    }
    out
}

// ---------------------------------------------------------------------------
// What is found.

/// Whether display output `d`, the output with number `k`, is service `i`: one whose `Location`
/// is not `Embedded`. What was read of it is an EDID only when reading gave the code zero.
pub open spec fn is_output(d: DisplayContent, k: int, ss: Seq<Service>, i: int) -> bool {
    &&& 0 <= i < ss.len()
    &&& ss[i].properties.text_or_empty("Location"@) != "Embedded"@
    &&& d.index == k
    &&& d.service == i
    &&& d.path == ss[i].path@
    &&& d.location == ss[i].properties.text_or_empty("Location"@)
    &&& d.copy_edid_status == ss[i].copy_edid_status
    &&& d.edid == (match ss[i].edid {
        Some(e) => if ss[i].copy_edid_status == 0 {
            Some(e@)
        } else {
            None
        },
        None => None,
    })
    &&& d.pipe == pipe_of(ss[i].path@)
}

/// Whether the display outputs `ds` are the external ones among the services, in order.
pub open spec fn are_outputs(ds: Seq<DisplayContent>, ss: Seq<Service>, from: Seq<int>) -> bool {
    &&& from.len() == ds.len()
    &&& forall|k: int| 0 <= k < ds.len() ==> is_output(#[trigger] ds[k], k, ss, from[k])
    &&& forall|a: int, b: int|
        #![trigger from[a], from[b]]
        0 <= a < b < from.len() ==> from[a] < from[b]
    &&& forall|i: int|
        0 <= i < ss.len() && !from.contains(i) ==> (
        #[trigger] ss[i]).properties.text_or_empty("Location"@) == "Embedded"@
}

proof fn lemma_outputs(ss: Seq<Service>, n: nat) -> (from: Seq<int>)
    requires
        n <= ss.len(),
    ensures
        are_outputs(external_among(ss, n), ss.take(n as int), from),
        forall|k: int| 0 <= k < from.len() ==> 0 <= #[trigger] from[k] < n,
    decreases n,
{
    let ds = external_among(ss, n);
    let all = ss.take(n as int);
    if n == 0 {
        Seq::empty()
    } else {
        let m = (n - 1) as nat;
        let before = external_among(ss, m);
        let earlier = lemma_outputs(ss, m);
        let from = if external(ss[n - 1].properties) {
            earlier.push(n - 1)
        } else {
            earlier
        };
        assert forall|k: int| 0 <= k < ds.len() implies is_output(#[trigger] ds[k], k, all, from[k]) by {
            if k < before.len() {
                assert(is_output(before[k], k, ss.take(m as int), earlier[k]));
                assert(ss.take(m as int)[earlier[k]] == all[earlier[k]]);
            } else {
                assert(all[n - 1] == ss[n - 1]);
            }
        }
        assert forall|i: int| 0 <= i < all.len() && !from.contains(i) implies (
        #[trigger] all[i]).properties.text_or_empty("Location"@) == "Embedded"@ by {
            if i < m {
                assert(ss.take(m as int)[i] == all[i]);
                if earlier.contains(i) {
                    let a = choose|a: int| 0 <= a < earlier.len() && earlier[a] == i;
                    assert(from[a] == i);
                }
            } else if external(ss[n - 1].properties) {
                assert(from[earlier.len() as int] == i);
            }
        }
        from
    }
}

/// The display outputs are the services whose `Location` is not `Embedded`, each of them, in
/// order and numbered through.
pub proof fn law_external_displays(ss: Seq<Service>)
    ensures
        exists|from: Seq<int>| are_outputs(external_among(ss, ss.len()), ss, from),
{
    let from = lemma_outputs(ss, ss.len());
    assert(ss.take(ss.len() as int) =~= ss);
}

/// The pipe of a path is the first node whose name, up to a colon, begins with `dispext`.
pub proof fn law_pipe_of(path: Seq<char>)
    ensures
        ({
            let nodes = text::parts(path, '/');
            match pipe_of(path) {
                Some(p) => exists|i: int| is_pipe_node(nodes, p, i),
                None => forall|i: int|
                    0 <= i < nodes.len() ==> !"dispext"@.is_prefix_of(
                        text::before(#[trigger] nodes[i], ':'),
                    ),
            }
        }),
{
    let nodes = text::parts(path, '/');
    let names = node_names(path);
    text_laws::law_first_with(names, "dispext"@);
    match pipe_of(path) {
        Some(p) => {
            let i = choose|i: int|
                text_laws::is_first_with(names, "dispext"@, i) && names[i] == p;
            assert forall|j: int| 0 <= j < i implies !"dispext"@.is_prefix_of(
                text::before(#[trigger] nodes[j], ':'),
            ) by {
                assert(names[j] == text::before(nodes[j], ':'));
            }
            assert(is_pipe_node(nodes, p, i));
        },
        None => {
            assert forall|j: int| 0 <= j < nodes.len() implies !"dispext"@.is_prefix_of(
                text::before(#[trigger] nodes[j], ':'),
            ) by {
                assert(names[j] == text::before(nodes[j], ':'));
            }
        },
    }
}

/// Whether `p` is the name of node `i`, which begins with `dispext`, and no node before it does.
pub open spec fn is_pipe_node(nodes: Seq<Seq<char>>, p: Seq<char>, i: int) -> bool {
    &&& 0 <= i < nodes.len()
    &&& p == text::before(nodes[i], ':')
    &&& "dispext"@.is_prefix_of(p)
    &&& forall|j: int|
        0 <= j < i ==> !"dispext"@.is_prefix_of(text::before(#[trigger] nodes[j], ':'))
}

/// Whether a text begins with `start`.
pub open spec fn starting_with(start: Seq<char>) -> spec_fn(Seq<char>) -> bool {
    |s: Seq<char>| start.is_prefix_of(s)
}

/// The number of pipes is that of the nodes whose name begins with `dispext`.
pub proof fn law_pipe_count(names: Seq<Seq<char>>, start: Seq<char>)
    ensures
        count_with(names, start) == names.filter(starting_with(start)).len(),
    decreases names.len(),
{
    reveal(Seq::filter);
    if names.len() > 0 {
        law_pipe_count(names.drop_last(), start);
        text_laws::law_contains_text(names.last(), start, Seq::empty(), Seq::empty());
        if start.is_prefix_of(names.last()) {
            assert(text::begins_with(names.last(), start));
        }
    }
}

/// A mapping describes a display by its product code, in either byte order and unless it is
/// zero, or by its name, whatever the case and the white space around it.
pub proof fn law_describes(m: MappingContent, c: EdidContent, low: int, high: int)
    requires
        0 <= low < 256,
        0 <= high < 256,
        c.product_code == low + 256 * high,
    ensures
        m.describes(c) <==> {
            ||| m.product_id != 0 && m.product_id == low + 256 * high
            ||| m.product_id != 0 && m.product_id == high + 256 * low
            ||| c.name matches Some(n) && n.len() > 0 && text::lowered(text::trimmed(n))
                == text::lowered(text::trimmed(m.product_name))
        },
        c.name == Some(m.product_name) && m.product_name.len() > 0 ==> m.describes(c),
{
}

/// What a mapping says is read from the entries of these names; a number that is missing is
/// zero, a text that is missing empty.
pub proof fn law_mapping(m: Property, n: i64)
    ensures
        m.number_in("ProductID"@) == Some(n) ==> mapping_in(m).product_id == n,
        m.number_in("MaxW"@) == Some(n) ==> mapping_in(m).max_w == n,
        m.number_in("MaxH"@) == Some(n) ==> mapping_in(m).max_h == n,
        m.number_in("MaxPipes"@) == Some(n) ==> mapping_in(m).max_pipes == n,
        m.number_in("MaxActivePixelRate"@) == Some(n) ==> mapping_in(m).max_active_pixel_rate == n,
        m.number_in("MaxTotalPixelRate"@) == Some(n) ==> mapping_in(m).max_total_pixel_rate == n,
        m.number_in("MaxBpc"@) == Some(n) ==> mapping_in(m).max_bpc == n,
        m.number_in("MaxPipes"@) is None ==> mapping_in(m).max_pipes == 0,
        m.number_in("MaxActivePixelRate"@) is None ==> mapping_in(m).max_active_pixel_rate == 0,
        m.items_in("PipeIDs"@).contains(Property::Int(n)) ==> mapping_in(m).pipe_ids.contains(n),
        mapping_in(m).pipe_ids.len() <= m.items_in("PipeIDs"@).len(),
        m.text_in("ProductName"@) matches Some(s) ==> mapping_in(m).product_name == text::trimmed(s),
        m.text_in("Address"@) matches Some(s) ==> mapping_in(m).address == s,
{
    let items = m.items_in("PipeIDs"@);
    lemma_ints(items);
    if items.contains(Property::Int(n)) {
        let i = choose|i: int| 0 <= i < items.len() && items[i] == Property::Int(n);
        assert(items[i] == Property::Int(n));
    }
}

proof fn lemma_ints(items: Seq<Property>)
    ensures
        property::ints_among(items).len() <= items.len(),
        forall|i: int|
            0 <= i < items.len() ==> (#[trigger] items[i] matches Property::Int(n)
                ==> property::ints_among(items).contains(n)),
    decreases items.len(),
{
    if items.len() > 0 {
        let init = items.drop_last();
        let all = property::ints_among(items);
        let before = property::ints_among(init);
        lemma_ints(init);
        assert forall|i: int| 0 <= i < items.len() implies (#[trigger] items[i] matches Property::Int(
            n,
        ) ==> all.contains(n)) by {
            if let Property::Int(n) = items[i] {
                if i < init.len() {
                    assert(init[i] == items[i]);
                    let k = choose|k: int| 0 <= k < before.len() && before[k] == n;
                    assert(all[k] == n);
                } else {
                    assert(all[before.len() as int] == n);
                }
            }
        }
    }
}

/// The crossbar has one mapping for each item of `ConnectionMapping`, in order; the displays that
/// wait for a pipe are the texts in `pending-dfps`.
pub proof fn law_crossbar(p: Property)
    ensures
        crossbar_in(p).mappings.len() == p.items_in("ConnectionMapping"@).len(),
        forall|i: int|
            0 <= i < p.items_in("ConnectionMapping"@).len() ==> #[trigger] crossbar_in(
                p,
            ).mappings[i] == mapping_in(p.items_in("ConnectionMapping"@)[i]),
        crossbar_in(p).pending == property::texts_among(p.items_in("pending-dfps"@)),
        crossbar_in(p).available_ufps == property::texts_among(p.items_in("available-ufps"@)),
        p.field("current-state"@) matches Some(s) ==> crossbar_in(p).current_state == s,
{
}

/// One more framebuffer service adds a framebuffer exactly when it names a product.
pub proof fn law_framebuffers(ss: Seq<Service>, n: nat)
    requires
        n < ss.len(),
    ensures
        ({
            let attrs = ss[n as int].properties.field("DisplayAttributes"@);
            let product = match attrs {
                Some(a) => a.field("ProductAttributes"@),
                None => None,
            };
            let name = match product {
                Some(p) => p.text_in("ProductName"@),
                None => None,
            };
            let before = framebuffers_among(ss, n);
            let after = framebuffers_among(ss, n + 1);
            match name {
                Some(s) => {
                    &&& after.len() == before.len() + 1
                    &&& before.is_prefix_of(after)
                    &&& after.last().product_name == text::trimmed(s)
                    &&& after.last().max_refresh_hz == attrs->0.number_or_zero("MaximumRefreshRate"@)
                    &&& after.last().port_id == attrs->0.number_or_zero("PortID"@)
                    &&& after.last().pipe == framebuffer_pipe(ss[n as int].path@)
                },
                None => after == before,
            }
        }),
{
    let before = framebuffers_among(ss, n);
    let after = framebuffers_among(ss, n + 1);
    assert(ss[n + 1 - 1] == ss[n as int]);
    if after.len() > before.len() {
        assert(before =~= after.subrange(0, before.len() as int));
    }
}

/// The pipe of a framebuffer is the first node of its path that begins with `disp`, up to an at
/// sign; nothing when there is none.
pub proof fn law_framebuffer_pipe(path: Seq<char>)
    ensures
        ({
            let nodes = text::parts(path, '/');
            ||| exists|i: int|
                text_laws::is_first_with(nodes, "disp"@, i) && framebuffer_pipe(path)
                    == text::before(nodes[i], '@')
            ||| framebuffer_pipe(path).len() == 0 && forall|i: int|
                0 <= i < nodes.len() ==> !"disp"@.is_prefix_of(#[trigger] nodes[i])
        }),
{
    text_laws::law_first_with(text::parts(path, '/'), "disp"@);
}

/// What a return code is called ends with its 32 bits in eight hexadecimal digits, and begins
/// with a name that stands for that code alone, or else says that it is not known.
pub proof fn law_ioreturn(r: i32)
    ensures
        ({
            let code = if r < 0 {
                r + 0x1_0000_0000
            } else {
                r as int
            };
            let name = if code == 0xe00002bc {
                "kIOReturnError (general error)"@
            } else if code == 0xe00002bd {
                "kIOReturnNoMemory"@
            } else if code == 0xe00002c1 {
                "kIOReturnNotPrivileged"@
            } else if code == 0xe00002c2 {
                "kIOReturnBadArgument (the EDID was rejected)"@
            } else if code == 0xe00002c7 {
                "kIOReturnUnsupported"@
            } else if code == 0xe00002cd {
                "kIOReturnNotOpen"@
            } else if code == 0xe00002d8 {
                "kIOReturnNotAttached"@
            } else if code == 0xe00002e2 {
                "kIOReturnNotPermitted: the IOKit user client could not be opened. Run pipecap directly from Terminal, outside of any sandbox"@
            } else if code == 0xe00002ed {
                "kIOReturnNotReady"@
            } else if code == 0xffffffff {
                "IOAVServiceCreateWithService returned NULL (sandboxed process? run from Terminal)"@
            } else {
                "unknown IOReturn"@
            };
            let s = ioreturn_text(r);
            &&& name.is_prefix_of(s)
            &&& s.skip(name.len() as int) == seq![' ', '(', '0', 'x'] + text::hex_digits(
                code as nat,
                8,
            ) + seq![')']
        }),
{
    let s = ioreturn_text(r);
    let name = ioreturn_name(code_of(r));
    reveal_strlit(" (0x");
    reveal_strlit(")");
    assert(" (0x"@ =~= seq![' ', '(', '0', 'x'] && ")"@ =~= seq![')']);
    assert(name =~= s.subrange(0, name.len() as int));
    assert(s.skip(name.len() as int) =~= seq![' ', '(', '0', 'x'] + text::hex_digits(
        code_of(r) as nat,
        8,
    ) + seq![')']);
}

} // verus!
