//! Displays, pipes and what to do about them.

use pipecap::block::fix_checksum;
use pipecap::cap::{can_cap, cap, CapOptions};
use pipecap::describe::TimingText;
use pipecap::edid::parse;
use pipecap::limits::{auto_max_hz, limits, max_hz_for, pipe_limits, PipeLimits};
use pipecap::property::{int_array, put, str_array, Property};
use pipecap::rate::Hz;
use pipecap::registry::{
    active_framebuffers, crossbar, external_displays, ioreturn_message, is_external, pipe_count,
    pipe_node, virtual_edid_taken, CrossbarState, Display, PipeMapping, Service,
};
use pipecap::select::{
    backup_dir, backup_path, check_same_display, dump_name, info_of, name_of, no_edid_message,
    resolve, safe_name, InfoError, ResolveError,
};
use pipecap::session::{
    backup_step, cap_step, has_settled, pause_secs, plan, reapply, remember, render_cap, wait_step,
    watch_need, watch_step, CapStep, CapTexts, Need, PlanError, WaitStep, WatchStep,
};
use pipecap::status::{
    build_status, mode_of, render_list, render_status, summarize, StatusTexts,
};
use pipecap::timing::{Timing, TimingSource};

// ---------------------------------------------------------------------------
// Displays and properties to try things on.

fn text(s: &str) -> Property {
    Property::Text(s.to_string())
}

fn object(fields: Vec<(&str, Property)>) -> Property {
    let mut out = Vec::new();
    for (k, v) in fields {
        put(&mut out, k.to_string(), v);
    }
    Property::Object(out)
}

/// An EDID with a preferred timing of 3840x2160 at 60 Hz, and one of 2560x1440 at 120 Hz.
fn edid(name: &str, product: [u8; 2]) -> Vec<u8> {
    let mut b = vec![0u8; 128];
    b[..8].copy_from_slice(&[0, 0xff, 0xff, 0xff, 0xff, 0xff, 0xff, 0]);
    b[8] = 0x52;
    b[9] = 0x74;
    b[10] = product[0];
    b[11] = product[1];
    b[18] = 1;
    b[19] = 4;
    b[54..72].copy_from_slice(&[
        0x08, 0xe8, 0x00, 0x30, 0xf2, 0x70, 0x5a, 0x80, 0xb0, 0x58, 0x8a, 0, 0, 0, 0, 0, 0, 0x1e,
    ]);
    b[72..90].copy_from_slice(&[
        0x70, 0xc2, 0x00, 0xa0, 0xa0, 0xa0, 0x55, 0x50, 0, 0, 0, 0, 0, 0, 0, 0, 0, 0x1e,
    ]);
    b[93] = 0xfc;
    b[95..95 + name.len()].copy_from_slice(name.as_bytes());
    if name.len() < 13 {
        b[95 + name.len()] = 0x0a;
    }
    fix_checksum(&mut b);
    b
}

fn output(path: &str, location: &str, edid: Option<Vec<u8>>) -> Service {
    Service {
        properties: object(vec![("Location", text(location))]),
        path: path.to_string(),
        copy_edid_status: if edid.is_some() { 0 } else { -536870174 },
        edid,
    }
}

fn displays() -> Vec<Display> {
    external_displays(&vec![
        output("IOService:/a/disp0:x/b", "Embedded", Some(edid("BUILT IN", [9, 9]))),
        output("IOService:/a/dispext0:dcp/b", "External", Some(edid("TEST 4K160", [0x60, 1]))),
        output("IOService:/a/b", "External", None),
        output("IOService:/a/dispext1/b", "", Some(edid("TEST 4K60", [0x61, 1]))),
    ])
    .unwrap()
}

fn mapping(name: &str, pipes: Vec<i64>, needs: i64, rate: i64) -> PipeMapping {
    PipeMapping {
        product_name: name.to_string(),
        product_id: 0,
        address: "0.1.0".to_string(),
        max_w: 3840,
        max_h: 2160,
        max_pipes: needs,
        pipe_ids: pipes,
        max_active_pixel_rate: rate,
        max_total_pixel_rate: 0,
        max_bpc: 10,
    }
}

fn state(mappings: Vec<PipeMapping>, pending: Vec<&str>) -> CrossbarState {
    CrossbarState {
        mappings,
        pending: pending.into_iter().map(String::from).collect(),
        available_ufps: vec![],
        current_state: Property::Null,
    }
}

const LIMITS: PipeLimits = PipeLimits {
    max_active_pixel_rate: 1_274_019_840,
    max_total_pixel_rate: 1_438_000_000,
};

// ---------------------------------------------------------------------------
// Properties.

#[test]
fn fields_are_found_by_name() {
    let mut fields = Vec::new();
    put(&mut fields, "a".into(), Property::Int(1));
    put(&mut fields, "b".into(), Property::Bool(true));
    put(&mut fields, "a".into(), Property::Int(2));
    assert_eq!(fields.len(), 2);
    let p = Property::Object(fields);
    assert_eq!(p.get_int("a"), Some(2));
    assert_eq!(p.get_int("b"), None);
    assert_eq!(p.get_int_or_zero("c"), 0);
    assert!(matches!(p.get("b"), Some(Property::Bool(true))));
    assert!(p.get("c").is_none());
    assert!(Property::Null.get("a").is_none());
    assert_eq!(p.get_text("a"), None);
    assert_eq!(p.get_text_or_empty("a"), "");
}

#[test]
fn arrays_keep_what_fits() {
    let p = object(vec![(
        "v",
        Property::Array(vec![text("x"), Property::Int(3), Property::Real(7), text("y")]),
    )]);
    assert_eq!(str_array(&p, "v"), vec!["x", "y"]);
    assert_eq!(int_array(&p, "v"), vec![3]);
    assert!(str_array(&p, "w").is_empty());
    assert_eq!(p.get_items("v").unwrap().len(), 4);
}

#[test]
fn foreign_values_become_properties() {
    assert!(matches!(Property::of_number(Some(-4), Some(1)), Property::Int(-4)));
    assert!(matches!(Property::of_number(None, Some(9)), Property::Real(9)));
    assert!(matches!(Property::of_number(None, None), Property::Null));
    assert!(matches!(Property::of_data(&[1, 0xab]), Property::Text(s) if s == "01ab"));
    assert!(matches!(Property::of_unknown(7), Property::Text(s) if s == "<CFTypeID 7>"));
}

// ---------------------------------------------------------------------------
// The registry.

#[test]
fn return_codes_are_named() {
    assert_eq!(
        ioreturn_message(0xe00002c2u32 as i32),
        "kIOReturnBadArgument (the EDID was rejected) (0xe00002c2)"
    );
    assert_eq!(ioreturn_message(5), "unknown IOReturn (0x00000005)");
    for (code, name) in [
        (0xe00002bcu32, "kIOReturnError (general error)"),
        (0xe00002bd, "kIOReturnNoMemory"),
        (0xe00002c1, "kIOReturnNotPrivileged"),
        (0xe00002c7, "kIOReturnUnsupported"),
        (0xe00002cd, "kIOReturnNotOpen"),
        (0xe00002d8, "kIOReturnNotAttached"),
        (0xe00002e2, "kIOReturnNotPermitted: the IOKit user client could not be opened. "),
        (0xe00002ed, "kIOReturnNotReady"),
        (0xffffffff, "IOAVServiceCreateWithService returned NULL "),
    ] {
        assert!(ioreturn_message(code as i32).starts_with(name));
    }
}

#[test]
fn setting_a_virtual_edid() {
    assert!(virtual_edid_taken(0).is_ok());
    assert_eq!(
        virtual_edid_taken(0xe00002edu32 as i32).unwrap_err(),
        "IOAVServiceSetVirtualEDIDMode failed: kIOReturnNotReady (0xe00002ed)"
    );
}

#[test]
fn external_outputs_are_numbered() {
    let ds = displays();
    assert_eq!(ds.len(), 3);
    assert_eq!(ds[0].index, 0);
    assert_eq!(ds[0].service, 1);
    assert_eq!(ds[0].pipe.as_deref(), Some("dispext0"));
    assert_eq!(ds[0].location, "External");
    assert_eq!(ds[0].edid_id().as_deref(), Some("52746001"));
    assert_eq!((ds[1].index, ds[1].service), (1, 2));
    assert_eq!(ds[1].pipe, None);
    assert_eq!(ds[1].edid_id(), None);
    assert_eq!(ds[2].location, "");
    assert_eq!(
        external_displays(&vec![]).err().as_deref(),
        Some("no DCPAVServiceProxy services found; pipecap needs an Apple Silicon Mac")
    );
}

#[test]
fn what_a_failed_read_gave_is_no_edid() {
    let mut s = output("/a", "", Some(edid("X", [1, 1])));
    s.copy_edid_status = -1;
    let ds = external_displays(&vec![s]).unwrap();
    assert!(ds[0].edid.is_none());
    assert_eq!(ds[0].copy_edid_status, -1);
}

#[test]
fn embedded_outputs_are_not_external() {
    assert!(!is_external(&object(vec![("Location", text("Embedded"))])));
    assert!(is_external(&object(vec![("Location", text("embedded"))])));
    assert!(is_external(&Property::Null));
}

#[test]
fn pipes_in_paths() {
    assert_eq!(pipe_node("/arm-io/dispext2:dcp/x").as_deref(), Some("dispext2"));
    assert_eq!(pipe_node("IOService:/AppleARMPE/disp0"), None);
    assert_eq!(pipe_node("/disp0/dispext1:dcp/dispext2").as_deref(), Some("dispext1"));
    assert_eq!(pipe_node("/a/xdisp/b"), None);
}

#[test]
fn reads_the_crossbar() {
    let p = object(vec![
        (
            "ConnectionMapping",
            Property::Array(vec![
                object(vec![
                    ("ProductName", text(" MON ")),
                    ("ProductID", Property::Int(352)),
                    ("Address", text("0.3.0")),
                    ("MaxW", Property::Int(3840)),
                    ("MaxH", Property::Int(2160)),
                    ("MaxPipes", Property::Int(2)),
                    ("PipeIDs", Property::Array(vec![Property::Int(0), Property::Int(3)])),
                    ("MaxActivePixelRate", Property::Int(1_991_000_000)),
                    ("MaxTotalPixelRate", Property::Int(2_000_000_000)),
                    ("MaxBpc", Property::Int(10)),
                ]),
                Property::Null,
            ]),
        ),
        ("pending-dfps", Property::Array(vec![text("p1")])),
        ("available-ufps", Property::Array(vec![text("u1"), text("u2")])),
        ("current-state", Property::Int(4)),
    ]);
    let x = crossbar(Some(p)).unwrap();
    assert_eq!(x.mappings.len(), 2);
    let m = &x.mappings[0];
    assert_eq!((m.product_name.as_str(), m.product_id, m.address.as_str()), ("MON", 352, "0.3.0"));
    assert_eq!((m.max_w, m.max_h, m.max_pipes, m.max_bpc), (3840, 2160, 2, 10));
    assert_eq!(m.pipe_ids, vec![0, 3]);
    assert_eq!(m.max_active_pixel_rate, 1_991_000_000);
    assert_eq!(m.max_total_pixel_rate, 2_000_000_000);
    assert_eq!(x.mappings[1].product_name, "");
    assert_eq!(x.mappings[1].max_pipes, 0);
    assert_eq!(x.pending, vec!["p1"]);
    assert_eq!(x.available_ufps, vec!["u1", "u2"]);
    assert!(matches!(x.current_state, Property::Int(4)));
    assert!(crossbar(None).is_none());
    let x = crossbar(Some(Property::Null)).unwrap();
    assert!(x.mappings.is_empty() && x.pending.is_empty());
    assert!(matches!(x.current_state, Property::Null));
}

#[test]
fn counts_external_pipes() {
    let names = ["dispext0", "disp0", "dispext1", "xdispext"].map(String::from).to_vec();
    assert_eq!(pipe_count(&names), 2);
}

#[test]
fn the_highest_published_limits_count() {
    let p = |a, t| {
        object(vec![("MaxActivePixelRate", Property::Int(a)), ("MaxTotalPixelRate", Property::Int(t))])
    };
    let half = object(vec![("MaxActivePixelRate", Property::Int(99))]);
    let found = pipe_limits(&vec![p(5, 50), half, p(7, 10), p(7, 11)]);
    assert_eq!(found.map(|l| (l.max_active_pixel_rate, l.max_total_pixel_rate)), Some((7, 10)));
    assert_eq!(pipe_limits(&vec![]), None);
    assert!(limits(found).1);
    assert_eq!(limits(None), (LIMITS, false));
    assert_eq!(PipeLimits::fallback(), LIMITS);
}

#[test]
fn lit_displays_have_framebuffers() {
    let lit = |path: &str, fields| Service {
        properties: object(vec![("DisplayAttributes", object(fields))]),
        path: path.to_string(),
        edid: None,
        copy_edid_status: 0,
    };
    let named = |n: &str| object(vec![("ProductName", text(n))]);
    let fs = active_framebuffers(&vec![
        lit(
            "/x/dispext0@4/y",
            vec![
                ("ProductAttributes", named(" MON ")),
                ("MaximumRefreshRate", Property::Int(240)),
                ("PortID", Property::Int(3)),
            ],
        ),
        lit("/x/dispext1@4/y", vec![]),
        lit("/x/y", vec![("ProductAttributes", named("B"))]),
    ]);
    assert_eq!(fs.len(), 2);
    assert_eq!((fs[0].product_name.as_str(), fs[0].max_refresh_hz, fs[0].port_id), ("MON", 240, 3));
    assert_eq!(fs[0].pipe, "dispext0");
    assert_eq!((fs[1].product_name.as_str(), fs[1].max_refresh_hz), ("B", 0));
    assert_eq!(fs[1].pipe, "");
}

#[test]
fn mappings_match_by_name_or_product() {
    let info = parse(&edid("TEST 4K160", [0x60, 1])).unwrap();
    assert!(mapping(" test 4k160 ", vec![], 1, 0).matches(&info));
    let mut m = mapping("other", vec![], 1, 0);
    assert!(!m.matches(&info));
    m.product_id = 0x0160;
    assert!(m.matches(&info));
    m.product_id = 0x6001;
    assert!(m.matches(&info));
    m.product_id = 0x6002;
    assert!(!m.matches(&info));
}

// ---------------------------------------------------------------------------
// Choosing a display.

#[test]
fn displays_are_chosen_by_id_number_or_name() {
    let ds = displays();
    assert_eq!(resolve(&ds, Some(" 52746001 ")), Ok(0));
    assert_eq!(resolve(&ds, Some("52746101")), Ok(2));
    assert_eq!(resolve(&ds, Some("1")), Ok(1));
    assert_eq!(resolve(&ds, Some("+2")), Ok(2));
    assert_eq!(resolve(&ds, Some("4k160")), Ok(0));
    assert_eq!(resolve(&ds, Some("4K60")), Ok(2));
    assert_eq!(resolve(&ds, Some("test")), Err(ResolveError::SeveralMatches));
    assert_eq!(resolve(&ds, Some("built")), Err(ResolveError::NoMatch));
    assert_eq!(resolve(&ds, Some("99999999999999999999999")), Err(ResolveError::NoMatch));
    assert_eq!(resolve(&ds, None), Err(ResolveError::SeveralDisplays));
    assert_eq!(resolve(&vec![], None), Err(ResolveError::NoDisplay));
    let one = external_displays(&vec![
        output("/a", "External", None),
        output("/b", "External", Some(edid("X", [1, 1]))),
    ])
    .unwrap();
    assert_eq!(resolve(&one, None), Ok(1));
}

#[test]
fn resolve_messages() {
    assert_eq!(
        ResolveError::NoDisplay.to_text(""),
        "no external display with a readable EDID is connected"
    );
    assert_eq!(
        ResolveError::SeveralDisplays.to_text(""),
        "several displays are connected; choose one with --display (see `pipecap list`)"
    );
    assert_eq!(
        ResolveError::NoMatch.to_text("\"x\""),
        "no connected display matches \"x\" (see `pipecap list`)"
    );
    assert_eq!(
        ResolveError::SeveralMatches.to_text("\"x\""),
        "\"x\" matches more than one display; use the EDID id instead"
    );
}

#[test]
fn what_a_display_says() {
    let ds = displays();
    assert_eq!(info_of(&ds[0]).unwrap().label(), "TEST 4K160");
    assert!(matches!(
        info_of(&ds[1]),
        Err(InfoError::NoEdid { index: 1, status: -536870174 })
    ));
    assert_eq!(name_of(&ds[0]), "TEST 4K160");
    assert_eq!(name_of(&ds[1]), "output 1");
    assert_eq!(no_edid_message(3, 5), "display 3 has no readable EDID (unknown IOReturn (0x00000005))");
    let bad = external_displays(&vec![output("/a", "", Some(vec![0; 3]))]).unwrap();
    assert!(matches!(info_of(&bad[0]), Err(InfoError::Unreadable(_))));
}

#[test]
fn file_names() {
    let info = parse(&edid("TEST 4K160", [0x60, 1])).unwrap();
    assert_eq!(safe_name("LG (4K) é"), "LG__4K___");
    assert_eq!(dump_name(&info), "52746001-TEST_4K160.bin");
    let dir = backup_dir(Some("/h")).unwrap();
    assert_eq!(dir, "/h/Library/Application Support/pipecap");
    assert_eq!(backup_path(&dir, &info), format!("{dir}/52746001-TEST_4K160-original.bin"));
    assert_eq!(backup_dir(None).unwrap_err(), "HOME not set");
}

#[test]
fn only_the_same_display_is_applied() {
    let a = parse(&edid("A", [0x60, 1])).unwrap();
    let b = parse(&edid("B", [0x60, 1])).unwrap();
    let c = parse(&edid("A", [0x61, 1])).unwrap();
    assert!(check_same_display(&a, &b).is_ok());
    assert_eq!(
        check_same_display(&a, &c).unwrap_err(),
        "EDID id mismatch: file is for 52746001 but the display is 52746101"
    );
}

// ---------------------------------------------------------------------------
// Rates.

#[test]
fn an_advertised_rate_is_preferred() {
    let info = parse(&edid("X", [1, 1])).unwrap();
    assert_eq!(auto_max_hz(&info, &LIMITS), Some(60));
    let tight = PipeLimits { max_active_pixel_rate: 3840 * 2160 * 50 + 5, max_total_pixel_rate: 0 };
    assert_eq!(auto_max_hz(&info, &tight), Some(50));
    let mut none = edid("X", [1, 1]);
    none[54..56].copy_from_slice(&[0, 0]);
    none[72..74].copy_from_slice(&[0, 0]);
    assert_eq!(auto_max_hz(&parse(&none).unwrap(), &LIMITS), None);
}

#[test]
fn the_highest_fitting_rate_fits() {
    for (w, h, limit) in [(3840u32, 2160u32, 1_274_019_840i64), (7680, 4320, 1_274_019_840), (1, 1, 0)] {
        let hz = max_hz_for(w, h, limit);
        let area = i64::from(w) * i64::from(h);
        assert!(area * i64::from(hz) <= limit);
        assert!(limit < area * (i64::from(hz) + 1));
    }
}

#[test]
fn modes_show_rounded_rates() {
    let source = TimingSource::BaseDtd { index: 0 };
    for (clock, total) in [(121u64, 2u32), (119, 2), (1, 2), (3, 2), (143_999, 1000), (60, 1)] {
        let t = Timing::new(8, 6, total, 1, clock, false, source);
        let refresh = clock as f64 / f64::from(total);
        assert_eq!(mode_of(&t), format!("8x6@{refresh:.0}"));
    }
}

#[test]
fn rates_round() {
    assert_eq!(Hz { num: 119, den: 2 }.round(), 60);
    assert_eq!(Hz { num: 119, den: 2 }.floor(), 59);
    assert_eq!(Hz { num: 5, den: 0 }.round(), 0);
}

// ---------------------------------------------------------------------------
// The state of the pipes.

#[test]
fn summarizes_displays() {
    let ds = displays();
    let s = summarize(&ds[0]);
    assert_eq!(s.id.as_deref(), Some("52746001"));
    assert_eq!(s.name.as_deref(), Some("TEST 4K160"));
    assert_eq!(s.pipe.as_deref(), Some("dispext0"));
    assert_eq!(s.edid_bytes, 128);
    assert_eq!(s.max_mode.as_deref(), Some("3840x2160@60"));
    assert_eq!(s.max_timing.unwrap().v_total, 2250);
    let s = summarize(&ds[1]);
    assert_eq!((s.index, s.id, s.name, s.edid_bytes), (1, None, None, 0));
    assert_eq!(s.copy_edid_status, -536870174);
}

fn report(x: Option<CrossbarState>, pipes: usize) -> Vec<String> {
    build_status(Some(LIMITS), x, &vec![], pipes, vec![]).suggestions
}

#[test]
fn suggests_what_to_cap() {
    let two = || mapping("BIG", vec![0, 3], 2, 0);
    let one = || mapping("SMALL", vec![1], 1, 0);
    assert_eq!(
        report(Some(state(vec![two(), one()], vec!["p"])), 4),
        vec![
            "cap \"BIG\" to <= 144 Hz (3840x2160 fits one pipe up to 153 Hz): \
             pipecap cap --display \"BIG\" --max-hz 144"
        ]
    );
    assert_eq!(
        report(Some(state(vec![one()], vec!["p"])), 4),
        vec![
            "1 of 4 pipes are in use and nothing needs more than one pipe; \
             the pending display may be limited by port or dock bandwidth instead"
        ]
    );
    assert!(report(Some(state(vec![two(), one()], vec![])), 4).is_empty());
    assert_eq!(report(Some(state(vec![two(), one()], vec![])), 2).len(), 1);
    assert!(report(Some(state(vec![two(), two()], vec![])), 0).is_empty());
    assert!(report(None, 4).is_empty());
    let mut wide = two();
    wide.max_w = 7680;
    assert!(report(Some(state(vec![wide], vec!["p"])), 4)[0]
        .starts_with("cap \"BIG\" to <= 76 Hz (7680x2160 fits one pipe up to 76 Hz)"));
}

#[test]
fn renders_the_status() {
    let x = state(
        vec![
            mapping("MONITOR 4K240 (HDMI)", vec![0, 3], 2, 0),
            mapping("TEST", vec![], 1, 0),
            mapping("LAST", vec![2], 1, 0),
        ],
        vec![],
    );
    let lit = active_framebuffers(&vec![Service {
        properties: object(vec![(
            "DisplayAttributes",
            object(vec![
                ("ProductAttributes", object(vec![("ProductName", text("MONITOR 4K240 (HDMI)"))])),
                ("MaximumRefreshRate", Property::Int(240)),
            ]),
        )]),
        path: "/dispext0".into(),
        edid: None,
        copy_edid_status: 0,
    }]);
    let r = build_status(None, Some(x), &displays(), 4, lit);
    let s = render_status(
        &r,
        &StatusTexts {
            active: "1.274".into(),
            total: "1.438".into(),
            mappings: vec!["1.991".into(), "0.100".into(), "0.200".into()],
            displays: vec!["0.498".into(), "".into(), "0.498".into()],
        },
    );
    assert_eq!(
        s,
        "External display pipes: 4   single-pipe limit: 1.274 Gpx/s active / 1.438 Gpx/s total (fallback values)\n\
         Pipe allocation (display crossbar):\n\
         \x20 display                  addr     needs   pipes      max active       state\n\
         \x20 MONITOR 4K240 (HDMI)     0.1.0    2       [0, 3]     1.991 Gpx/s      active, up to 240 Hz (dispext0)\n\
         \x20 TEST                     0.1.0    1       []         0.100 Gpx/s      NO PIPE\n\
         \x20 LAST                     0.1.0    1       [2]        0.200 Gpx/s      assigned\n\
         Pending (waiting for a pipe): none\n\
         External outputs:\n\
         \x20 [0] id=52746001 TEST 4K160               pipe=dispext0  EDID 128 B  max 3840x2160@60 (0.498 Gpx/s)\n\
         \x20 [1] id=-------- (no EDID)                pipe=?         EDID 0 B  max -\n\
         \x20 [2] id=52746101 TEST 4K60                pipe=dispext1  EDID 128 B  max 3840x2160@60 (0.498 Gpx/s)\n"
    );
}

#[test]
fn renders_pending_displays_and_suggestions() {
    let x = state(vec![mapping("BIG", vec![0, 1], 2, 0)], vec!["a", "b"]);
    let r = build_status(Some(LIMITS), Some(x), &vec![], 4, vec![]);
    let shown = StatusTexts {
        active: "1.274".into(),
        total: "1.438".into(),
        mappings: vec!["2.000".into()],
        displays: vec![],
    };
    let s = render_status(&r, &shown);
    assert!(s.contains("1.438 Gpx/s total\n"));
    assert!(s.contains("Pending (waiting for a pipe): a, b\n"));
    assert!(s.ends_with("Suggestion: cap \"BIG\" to <= 144 Hz (3840x2160 fits one pipe up to 153 Hz): pipecap cap --display \"BIG\" --max-hz 144\n"));
    let r = build_status(Some(LIMITS), None, &vec![], 4, vec![]);
    assert!(render_status(&r, &shown).contains("Display crossbar not found (not an Apple Silicon Mac?)\n"));
}

#[test]
fn renders_the_list() {
    assert_eq!(
        render_list(&displays()),
        "[0] id=52746001 TEST 4K160               pipe=dispext0  EDID 128 B  max 3840x2160@60  IOService:/a/dispext0:dcp/b\n\
         [1] id=-------- (no EDID)                pipe=?         EDID 0 B  max -  IOService:/a/b\n\
         \x20   EDID not readable: kIOReturnNotPermitted: the IOKit user client could not be opened. Run pipecap directly from Terminal, outside of any sandbox (0xe00002e2)\n\
         [2] id=52746101 TEST 4K60                pipe=dispext1  EDID 128 B  max 3840x2160@60  IOService:/a/dispext1/b\n"
    );
}

// ---------------------------------------------------------------------------
// Capping and watching.

#[test]
fn plans_a_cap() {
    let ds = displays();
    let t = plan(&ds, Some("4k160"), None, &LIMITS).unwrap_or_else(|_| panic!("no plan"));
    assert_eq!((t.place, t.picked), (0, true));
    assert_eq!(t.max_hz, Hz::of(60));
    assert_eq!(t.info.label(), "TEST 4K160");
    let asked = Hz { num: 299, den: 2 };
    let t = plan(&ds, Some("4k160"), Some(asked), &LIMITS).unwrap_or_else(|_| panic!("no plan"));
    assert_eq!((t.max_hz, t.picked), (asked, false));
    assert!(matches!(
        plan(&ds, None, None, &LIMITS),
        Err(PlanError::NotChosen(ResolveError::SeveralDisplays))
    ));
    assert!(matches!(
        plan(&ds, Some("1"), None, &LIMITS),
        Err(PlanError::Unknown(InfoError::NoEdid { .. }))
    ));
    let mut none = edid("X", [1, 1]);
    none[54..56].copy_from_slice(&[0, 0]);
    none[72..74].copy_from_slice(&[0, 0]);
    let ds = external_displays(&vec![output("/a", "", Some(none))]).unwrap();
    assert!(matches!(plan(&ds, None, None, &LIMITS), Err(PlanError::NoTimings)));
}

#[test]
fn reports_a_cap() {
    let e = edid("TEST 4K160", [0x60, 1]);
    let o = CapOptions { max_hz: Hz::of(60), max_pixel_clock_mhz: None };
    assert!(can_cap(&e, &o));
    let r = cap(&e, &o).unwrap();
    let words = |hertz: &str| TimingText {
        hertz: hertz.into(),
        megahertz: "497.76".into(),
        active: "0.498".into(),
        total: String::new(),
    };
    let s = render_cap(
        &parse(&e).unwrap(),
        &r,
        &CapTexts {
            max_hz: "60".into(),
            dropped: vec![words("120.00")],
            left: words("60.00"),
            limit: "1.274".into(),
        },
    );
    assert_eq!(
        s,
        "TEST 4K160 (id 52746001): cap at 60 Hz\n\
         \x20 drop  2560x1440 @ 120.00 Hz (497.76 MHz, base DTD #2)\n\
         \x20 max after cap: 3840x2160 @ 60.00 Hz = 0.498 Gpx/s active (1.274 Gpx/s per pipe)\n"
    );
    assert_eq!(cap_step(true, true), CapStep::NothingToDo);
    assert_eq!(cap_step(false, true), CapStep::DryRun);
    assert_eq!(cap_step(false, false), CapStep::Apply);
}

#[test]
fn waits_until_the_crossbar_has_settled() {
    let info = parse(&edid("TEST 4K160", [0x60, 1])).unwrap();
    let on = |pipes, needs, pending| state(vec![mapping("TEST 4K160", pipes, needs, 0)], pending);
    assert!(has_settled(&on(vec![1], 1, vec![]), &info, 1));
    assert!(!has_settled(&on(vec![1], 2, vec![]), &info, 1));
    assert!(has_settled(&on(vec![1], 2, vec![]), &info, i64::MAX));
    assert!(!has_settled(&on(vec![], 1, vec![]), &info, 1));
    assert!(!has_settled(&on(vec![1], 1, vec!["p"]), &info, 1));
    assert!(!has_settled(&state(vec![], vec![]), &info, 1));
}

#[test]
fn watches_a_display() {
    let ds = displays();
    let sel = Some("4k160");
    let need = watch_need(&ds, sel, None, &LIMITS, &None).unwrap_or_else(|_| panic!("failed"));
    let Need::Cap(t) = need else {
        panic!("the display is not capped yet");
    };
    let bytes = ds[t.place].edid.clone().unwrap();
    let o = CapOptions { max_hz: t.max_hz, max_pixel_clock_mhz: None };
    let kept = remember(&t.info, cap(&bytes, &o).unwrap());
    assert_eq!(kept.id, "52746001");
    // 3840x2160 at 60 Hz are 497,664,000 active pixels per second.
    let seen = |rate| Some(state(vec![mapping("TEST 4K160", vec![1], 1, rate)], vec![]));
    assert_eq!(reapply(&seen(497_664_000), &t.info, &kept), None);
    assert_eq!(reapply(&seen(498_161_664), &t.info, &kept), None);
    assert_eq!(reapply(&seen(498_161_665), &t.info, &kept), Some(498_161_665));
    assert_eq!(reapply(&seen(-1), &t.info, &kept), None);
    assert_eq!(reapply(&None, &t.info, &kept), None);
    assert_eq!(reapply(&Some(state(vec![], vec![])), &t.info, &kept), None);
    let step = |rate, saved| watch_step(&seen(rate), &t.info, &kept, saved);
    assert_eq!(step(497_664_000, false), WatchStep::Nothing);
    assert_eq!(step(600_000_000, false), WatchStep::SaveThenApply(600_000_000));
    assert_eq!(step(600_000_000, true), WatchStep::Apply(600_000_000));
    let cached = Some(kept);
    assert!(matches!(watch_need(&ds, sel, None, &LIMITS, &cached), Ok(Need::Look(_))));
    assert!(matches!(watch_need(&ds, Some("4k60"), None, &LIMITS, &cached), Ok(Need::Cap(_))));
    assert!(matches!(watch_need(&ds, Some("gone"), None, &LIMITS, &cached), Ok(Need::Nothing)));
    assert!(watch_need(&ds, Some("1"), None, &LIMITS, &cached).is_err());
}

#[test]
fn an_original_is_saved_once() {
    assert!(backup_step(false));
    assert!(!backup_step(true));
}

#[test]
fn waiting_ends_when_settled_or_out_of_time() {
    assert_eq!(wait_step(false, 0, 0), WaitStep::Skip);
    assert_eq!(wait_step(true, 0, 0), WaitStep::Skip);
    assert_eq!(wait_step(false, 0, 12), WaitStep::Poll);
    assert_eq!(wait_step(false, 11_999, 12), WaitStep::Poll);
    assert_eq!(wait_step(false, 12_000, 12), WaitStep::GiveUp);
    assert_eq!(wait_step(true, 750, 12), WaitStep::Done);
    // What was seen in the last look counts, though the time is used up.
    assert_eq!(wait_step(true, 12_500, 12), WaitStep::Done);
    assert_eq!(wait_step(false, u128::from(u64::MAX), u64::MAX), WaitStep::Poll);
}

#[test]
fn looks_are_at_least_a_second_apart() {
    assert_eq!(pause_secs(0), 1);
    assert_eq!(pause_secs(1), 1);
    assert_eq!(pause_secs(10), 10);
}

#[test]
fn a_copied_property_holds_the_same() {
    let p = object(vec![
        ("a", Property::Array(vec![text("x"), Property::Int(-3), Property::Null])),
        ("b", object(vec![("c", Property::Bool(true)), ("d", Property::Real(7))])),
    ]);
    assert_eq!(format!("{:?}", p.clone()), format!("{p:?}"));
}
