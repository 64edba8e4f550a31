//! Decoding and capping, on two EDIDs that are put together here: a 4K 160 Hz DisplayPort
//! monitor and a 4K 240 Hz HDMI monitor.

use pipecap::bitmap::remap;
use pipecap::block::{block_sum, fix_checksum, validate, EdidError, BLOCK};
use pipecap::cap::{can_cap, cap, CapOptions, CapResult};
use pipecap::cta::{build_cta, parse_cta, CtaBlock};
use pipecap::describe::{describe, ranked, TimingText};
use pipecap::displayid::{build_displayid, parse_displayid, DisplayIdBlock};
use pipecap::edid::{hex, id_of, parse, EdidInfo};
use pipecap::limits::max_hz_for;
use pipecap::rate::Hz;
use pipecap::timing::{
    displayid_clock_unit, displayid_entry_size, parse_dtd, svd_vic, vic_as_timing, Timing,
    TimingSource,
};

// ---------------------------------------------------------------------------
// Putting EDIDs together.

fn dtd(clock_hz: u64, h: (u32, u32), v: (u32, u32)) -> [u8; 18] {
    let c = clock_hz / 10_000;
    let mut d = [0u8; 18];
    d[0] = (c % 256) as u8;
    d[1] = (c / 256) as u8;
    d[2] = (h.0 % 256) as u8;
    d[3] = (h.1 % 256) as u8;
    d[4] = (h.0 / 256 * 16 + h.1 / 256) as u8;
    d[5] = (v.0 % 256) as u8;
    d[6] = (v.1 % 256) as u8;
    d[7] = (v.0 / 256 * 16 + v.1 / 256) as u8;
    d[17] = 0x1e;
    d
}

fn type_1(clock_hz: u64, h: (u32, u32), v: (u32, u32)) -> Vec<u8> {
    let c = clock_hz / 10_000 - 1;
    let mut d = vec![0u8; 20];
    d[0] = (c % 256) as u8;
    d[1] = (c / 256 % 256) as u8;
    d[2] = (c / 65536) as u8;
    for (at, n) in [(4, h.0), (6, h.1), (12, v.0), (14, v.1)] {
        d[at] = ((n - 1) % 256) as u8;
        d[at + 1] = ((n - 1) / 256) as u8;
    }
    d
}

fn text_descriptor(tag: u8, s: &str) -> [u8; 18] {
    let mut d = [0x20u8; 18];
    d[0] = 0;
    d[1] = 0;
    d[2] = 0;
    d[3] = tag;
    d[4] = 0;
    for (i, b) in s.bytes().enumerate() {
        d[5 + i] = b;
    }
    if s.len() < 13 {
        d[5 + s.len()] = 0x0a;
    }
    d
}

fn range_descriptor(v_min: u8, v_max: u8, h_min: u8, h_max: u8, clock_tens: u8) -> [u8; 18] {
    let mut d = [0x20u8; 18];
    let head = [0, 0, 0, 0xfd, 0, v_min, v_max, h_min, h_max, clock_tens, 0, 0x0a];
    d[..12].copy_from_slice(&head);
    d
}

fn base_block(product: [u8; 2], extensions: u8, descriptors: [[u8; 18]; 4]) -> Vec<u8> {
    let mut b = vec![0u8; 128];
    b[..8].copy_from_slice(&[0, 0xff, 0xff, 0xff, 0xff, 0xff, 0xff, 0]);
    b[8] = 0x52;
    b[9] = 0x74;
    b[10] = product[0];
    b[11] = product[1];
    b[12] = 7;
    b[16] = 12;
    b[17] = 34;
    b[18] = 1;
    b[19] = 4;
    for (i, d) in descriptors.iter().enumerate() {
        b[54 + 18 * i..72 + 18 * i].copy_from_slice(d);
    }
    b[126] = extensions;
    fix_checksum(&mut b);
    b
}

fn displayid_extension(timings: &[Vec<u8>]) -> Vec<u8> {
    build_displayid(&DisplayIdBlock {
        version: 0x12,
        product_type: 3,
        ext_count: 0,
        blocks: vec![(0x03, 0x01, timings.concat())],
    })
}

const DTD_4K60: [u8; 18] = [
    0x08, 0xe8, 0x00, 0x30, 0xf2, 0x70, 0x5a, 0x80, 0xb0, 0x58, 0x8a, 0x00, 0x00, 0x00, 0x00, 0x00,
    0x00, 0x1e,
];

/// 3840x2160 at 160 and 144 Hz by DisplayID, 120 and 60 Hz by CTA-861.
fn dp160() -> Vec<u8> {
    let mut e = base_block(
        [0x60, 0x01],
        2,
        [
            DTD_4K60,
            range_descriptor(48, 160, 30, 255, 144),
            text_descriptor(0xfc, "TEST 4K160"),
            text_descriptor(0xff, "SN0001"),
        ],
    );
    e.extend(build_cta(&CtaBlock {
        revision: 3,
        flags: 0xf1,
        data_blocks: vec![
            (1, vec![0x09, 0x07, 0x07]),
            (2, vec![97, 118, 16]),
            (7, vec![0x0f, 0x03]),
        ],
        dtds: vec![dtd(497_760_000, (2560, 160), (1440, 85))],
    }));
    e.extend(displayid_extension(&[
        type_1(1_430_400_000, (3840, 160), (2160, 75)),
        type_1(1_287_360_000, (3840, 160), (2160, 75)),
    ]));
    e
}

/// 3840x2160 at 240 Hz, with a block map before the other extensions.
fn hdmi240() -> Vec<u8> {
    let mut e = base_block(
        [0x40, 0x02],
        3,
        [
            DTD_4K60,
            range_descriptor(48, 240, 30, 255, 220),
            text_descriptor(0xfc, "TEST 4K240"),
            text_descriptor(0xff, "SN0002"),
        ],
    );
    let mut map = vec![0u8; 128];
    map[0] = 0xf0;
    map[1] = 0x02;
    map[2] = 0x70;
    fix_checksum(&mut map);
    e.extend(map);
    e.extend(build_cta(&CtaBlock {
        revision: 3,
        flags: 0xc0,
        data_blocks: vec![(2, vec![97, 118])],
        dtds: vec![],
    }));
    e.extend(displayid_extension(&[
        type_1(2_133_830_000, (3840, 160), (2160, 62)),
        type_1(1_280_320_000, (3840, 160), (2160, 62)),
        type_1(1_066_560_000, (3840, 160), (2160, 62)),
        type_1(888_800_000, (3840, 160), (2160, 62)),
    ]));
    e
}

fn hz(r: &Hz) -> f64 {
    r.num as f64 / r.den as f64
}

fn refresh(t: &Timing) -> f64 {
    hz(&t.refresh_hz)
}

fn options(max_hz: u32) -> CapOptions {
    CapOptions { max_hz: Hz::of(max_hz), max_pixel_clock_mhz: None }
}

fn capped(bytes: &[u8], max_hz: u32) -> CapResult {
    let o = options(max_hz);
    assert!(can_cap(bytes, &o));
    cap(bytes, &o).unwrap()
}

fn shown(info: &EdidInfo) -> Vec<TimingText> {
    info.timings
        .iter()
        .map(|t| TimingText {
            hertz: format!("{:.2}", refresh(t)),
            megahertz: format!("{:.2}", t.pixel_clock_hz as f64 / 1e6),
            active: format!("{:.3}", f64::from(t.h_active) * f64::from(t.v_active) * refresh(t) / 1e9),
            total: format!("{:.3}", t.pixel_clock_hz as f64 / 1e9),
        })
        .collect()
}

// ---------------------------------------------------------------------------
// Decoding.

#[test]
fn parses_4k160() {
    let e = dp160();
    validate(&e).unwrap();
    let i = parse(&e).unwrap();
    assert_eq!(i.manufacturer, "TST");
    assert_eq!(i.name.as_deref(), Some("TEST 4K160"));
    assert_eq!(i.id, "52746001");
    assert_eq!(i.blocks, vec!["base", "CTA-861 rev 3", "DisplayID v1.2"]);
    let m = i.max_timing().unwrap();
    assert_eq!((m.h_active, m.v_active), (3840, 2160));
    assert!((refresh(m) - 160.0).abs() < 0.01);
    assert_eq!(i.range_limits.as_ref().unwrap().v_max_hz, 160);
}

#[test]
fn parses_4k240_with_block_map() {
    let e = hdmi240();
    validate(&e).unwrap();
    let i = parse(&e).unwrap();
    assert_eq!(i.manufacturer, "TST");
    assert_eq!(i.blocks[1], "block map");
    let m = i.max_timing().unwrap();
    assert!((refresh(m) - 240.08).abs() < 0.01);
    assert!(i
        .timings
        .iter()
        .any(|t| t.source == TimingSource::CtaVic { block: 2, vic: 118 }));
}

#[test]
fn decodes_every_field() {
    let i = parse(&dp160()).unwrap();
    assert_eq!(i.product_code, 0x0160);
    assert_eq!(i.serial, 7);
    assert_eq!(i.week, 12);
    assert_eq!(i.year, 2024);
    assert_eq!(i.version, "1.4");
    assert_eq!(i.serial_string.as_deref(), Some("SN0001"));
    assert_eq!(i.extension_count, 2);
    assert_eq!(i.length, 384);
    assert_eq!(i.label(), "TEST 4K160");
    let rl = i.range_limits.unwrap();
    assert_eq!(rl.descriptor_index, 1);
    assert_eq!((rl.v_min_hz, rl.h_min_khz, rl.h_max_khz), (48, 30, 255));
    assert_eq!(rl.max_pixel_clock_mhz, 1440);
    let sources: Vec<String> = i.timings.iter().map(|t| t.source.to_text()).collect();
    assert_eq!(
        sources,
        vec![
            "base DTD #1",
            "CTA VIC 97 (block 1)",
            "CTA VIC 118 (block 1)",
            "CTA VIC 16 (block 1)",
            "CTA DTD #1 (block 1)",
            "DisplayID timing #1 (block 2)",
            "DisplayID timing #2 (block 2)",
        ]
    );
}

#[test]
fn label_falls_back_to_the_product_code() {
    let mut e = dp160();
    e[54 + 36 + 3] = 0x10;
    fix_checksum(&mut e[..BLOCK]);
    let i = parse(&e).unwrap();
    assert_eq!(i.name, None);
    assert_eq!(i.label(), "TST 0x0160");
}

#[test]
fn odd_blocks_are_named() {
    let mut e = dp160();
    e[128] = 0x40;
    e.truncate(300);
    let i = parse(&e).unwrap();
    assert_eq!(i.blocks, vec!["base", "unknown extension 0x40", "truncated block (44 bytes)"]);
    assert!(matches!(validate(&e), Err(EdidError::BadLength(300))));
}

#[test]
fn range_limit_flags_add_255() {
    let mut e = dp160();
    e[54 + 18 + 4] = 0x0f;
    fix_checksum(&mut e[..BLOCK]);
    let rl = parse(&e).unwrap().range_limits.unwrap();
    assert_eq!((rl.v_min_hz, rl.v_max_hz), (48 + 255, 160 + 255));
    assert_eq!((rl.h_min_khz, rl.h_max_khz), (30 + 255, 255 + 255));
}

#[test]
fn identifiers() {
    assert_eq!(id_of(&dp160()).as_deref(), Some("52746001"));
    assert_eq!(id_of(&[0; 11]), None);
    assert_eq!(hex(&[0, 0x0f, 0xa5, 0xff]), "000fa5ff");
    assert_eq!(hex(&[]), "");
}

#[test]
fn detailed_timings() {
    let source = TimingSource::BaseDtd { index: 0 };
    let t = parse_dtd(&DTD_4K60, source).unwrap();
    assert_eq!((t.h_active, t.v_active, t.h_total, t.v_total), (3840, 2160, 4400, 2250));
    assert_eq!(t.pixel_clock_hz, 594_000_000);
    assert_eq!(t.refresh_hz.round(), 60);
    assert_eq!(t.refresh_hz.floor(), 60);
    assert!(!t.interlaced);
    assert_eq!(t.total_pixel_rate().num, 594_000_000);
    assert_eq!(
        t.to_text("60.00", "594.00"),
        "3840x2160 @ 60.00 Hz (594.00 MHz, base DTD #1)"
    );
    let mut i = DTD_4K60;
    i[17] = 0x9e;
    assert!(parse_dtd(&i, source).unwrap().to_text("60.00", "594.00").starts_with("3840x2160i @"));
    i[0] = 0;
    i[1] = 0;
    assert!(parse_dtd(&i, source).is_none());
}

#[test]
fn vic_table_refresh_rates() {
    for (vic, hz) in [
        (1u8, 60u32),
        (4, 60),
        (16, 60),
        (19, 50),
        (31, 50),
        (32, 24),
        (33, 25),
        (34, 30),
        (60, 24),
        (61, 25),
        (62, 30),
        (63, 120),
        (64, 100),
        (93, 24),
        (94, 25),
        (95, 30),
        (96, 50),
        (97, 60),
        (114, 48),
        (117, 100),
        (118, 120),
        (194, 24),
        (195, 25),
        (196, 30),
        (197, 48),
        (198, 50),
        (199, 60),
        (200, 100),
        (201, 120),
    ] {
        let t = vic_as_timing(vic, 1).unwrap_or_else(|| panic!("VIC {vic} missing"));
        assert_eq!(t.refresh_hz.round(), hz, "VIC {vic}");
    }
    assert!(
        vic_as_timing(5, 1).is_none(),
        "interlaced VICs are not in the table"
    );
}

#[test]
fn short_video_descriptors() {
    assert_eq!(svd_vic(16), 16);
    assert_eq!(svd_vic(128 + 16), 16);
    assert_eq!(svd_vic(128 + 64), 64);
    assert_eq!(svd_vic(97), 97);
    assert_eq!(svd_vic(199), 199);
}

#[test]
fn displayid_descriptor_sizes() {
    assert_eq!(displayid_entry_size(0x03, 0x01), 20);
    assert_eq!(displayid_entry_size(0x22, 0x00), 20);
    assert_eq!(displayid_entry_size(0x22, 0x12), 21);
    assert_eq!(displayid_entry_size(0x22, 0x72), 27);
    assert_eq!(displayid_clock_unit(0x03), 10_000);
    assert_eq!(displayid_clock_unit(0x22), 1_000);
}

#[test]
fn max_hz_helper() {
    assert_eq!(max_hz_for(3840, 2160, 1_274_019_840), 153);
    assert_eq!(max_hz_for(0, 0, 1), 0);
    assert_eq!(max_hz_for(1, 1, i64::MAX), u32::MAX);
    assert_eq!(max_hz_for(3840, 2160, -1), 0);
}

// ---------------------------------------------------------------------------
// Validating.

#[test]
fn rejects_garbage() {
    assert!(matches!(
        validate(&[0u8; 100]),
        Err(EdidError::TooShort(100))
    ));
    let mut bad = dp160();
    bad[200] ^= 0xff;
    assert!(matches!(validate(&bad), Err(EdidError::Checksum(1))));
    bad[0] = 1;
    assert!(matches!(validate(&bad), Err(EdidError::BadHeader)));
}

#[test]
fn parse_rejects_what_is_no_edid() {
    assert!(matches!(parse(&[0u8; 127]), Err(EdidError::TooShort(127))));
    assert!(matches!(parse(&[0u8; 128]), Err(EdidError::BadHeader)));
}

#[test]
fn error_messages() {
    let t = parse_dtd(&DTD_4K60, TimingSource::BaseDtd { index: 0 }).unwrap();
    for (e, text) in [
        (EdidError::TooShort(100), "EDID too short: 100 bytes (need at least 128)"),
        (EdidError::BadLength(130), "EDID length 130 is not a multiple of 128"),
        (EdidError::BadHeader, "bad EDID header (not an EDID)"),
        (EdidError::Checksum(2), "checksum mismatch in block 2"),
        (EdidError::BadCap, "max refresh must be positive"),
        (
            EdidError::PreferredExceedsCap(t),
            "the preferred timing in the base block (3840x2160 @ 60.00 Hz (594.00 MHz, base DTD #1)) \
             is above the cap; refusing to remove it",
        ),
    ] {
        assert_eq!(e.to_text("60.00", "594.00"), text);
    }
}

#[test]
fn checksums_make_the_sum_zero() {
    let mut b = vec![3u8; 128];
    fix_checksum(&mut b);
    assert_eq!(block_sum(&b), 0);
    assert_eq!(b[127], 131);
    assert!(b[..127].iter().all(|&x| x == 3));
}

// ---------------------------------------------------------------------------
// Capping.

#[test]
fn cap_4k160_to_144_drops_only_160() {
    let e = dp160();
    let r = capped(&e, 144);
    assert_eq!(r.dropped.len(), 1);
    assert!((refresh(&r.dropped[0]) - 160.0).abs() < 0.01);
    assert_eq!(r.bytes.len(), e.len());
    validate(&r.bytes).unwrap();
    let i = parse(&r.bytes).unwrap();
    assert!((refresh(i.max_timing().unwrap()) - 144.0).abs() < 0.01);
    assert_eq!(i.range_limits.as_ref().unwrap().v_max_hz, 144);
    assert_eq!(i.range_limits.as_ref().unwrap().max_pixel_clock_mhz, 1290);
    assert_eq!(i.id, "52746001", "identity bytes must not change");
    assert!(!r.unchanged);
    // DisplayID section shrank to a single 20-byte timing.
    assert_eq!(r.bytes[256 + 2], 23);
}

#[test]
fn cap_to_100_drops_vic_118_and_cta_dtd() {
    let r = capped(&dp160(), 100);
    assert!(r
        .dropped
        .iter()
        .any(|t| t.source == TimingSource::CtaVic { block: 1, vic: 118 }));
    assert!(r
        .dropped
        .iter()
        .any(|t| matches!(t.source, TimingSource::CtaDtd { .. })));
    validate(&r.bytes).unwrap();
    let i = parse(&r.bytes).unwrap();
    assert!(i.timings.iter().all(|t| refresh(t) <= 100.05));
    assert!(i
        .timings
        .iter()
        .any(|t| t.source == TimingSource::CtaVic { block: 1, vic: 97 }));
}

#[test]
fn cap_4k240_keeps_144_and_below() {
    let r = capped(&hdmi240(), 144);
    assert_eq!(r.dropped.len(), 1);
    let i = parse(&r.bytes).unwrap();
    assert_eq!(
        i.timings
            .iter()
            .filter(|t| matches!(t.source, TimingSource::DisplayId { .. }))
            .count(),
        3
    );
    assert!((refresh(i.max_timing().unwrap()) - 144.05).abs() < 0.01);
}

#[test]
fn cap_above_max_is_noop() {
    let e = dp160();
    let r = capped(&e, 500);
    assert!(r.dropped.is_empty());
    assert!(r.unchanged);
    assert_eq!(r.bytes, e);
}

#[test]
fn cap_is_idempotent() {
    let a = capped(&dp160(), 144);
    let b = capped(&a.bytes, 144);
    assert!(b.unchanged);
    assert_eq!(a.bytes, b.bytes);
}

#[test]
fn refuses_to_drop_preferred_timing() {
    let e = dp160();
    assert!(can_cap(&e, &options(30)));
    let Err(e) = cap(&e, &options(30)) else {
        panic!("the preferred timing was dropped");
    };
    assert!(matches!(e, EdidError::PreferredExceedsCap(_)));
}

#[test]
fn cap_below_every_vic_removes_the_video_data_block() {
    // Give the 4K160 fixture a 3840x2160 @ 20 Hz preferred timing (198 MHz,
    // htotal 4400, vtotal 2250) so that a 20 Hz cap keeps the preferred timing
    // but removes every VIC, which must remove the Video Data Block itself.
    let mut e = dp160();
    let dtd = [
        0x58, 0x4d, 0x00, 0x30, 0xf2, 0x70, 0x5a, 0x80, 0xb0, 0x58, 0x8a, 0x00, 0x00, 0x00, 0x00,
        0x00, 0x00, 0x1e,
    ];
    e[54..72].copy_from_slice(&dtd);
    fix_checksum(&mut e[..BLOCK]);
    let r = capped(&e, 20);
    validate(&r.bytes).unwrap();
    let i = parse(&r.bytes).unwrap();
    assert!(
        i.timings.iter().all(|t| refresh(t) <= 20.5),
        "{:?}",
        i.timings
    );
    let cta = parse_cta(&r.bytes[128..256]);
    assert!(
        !cta.data_blocks.iter().any(|(tag, _)| *tag == 2),
        "VDB should be gone"
    );
    assert!(r
        .notes
        .iter()
        .any(|n| n.contains("removed empty video data block")));
}

#[test]
fn the_capability_map_follows_its_descriptors() {
    // Three descriptors, the map has the first two bits set; the middle one goes.
    let r = capped(&dp160(), 100);
    let cta = parse_cta(&r.bytes[128..256]);
    assert_eq!(cta.data_blocks[1], (2, vec![97, 16]));
    assert_eq!(cta.data_blocks[2], (7, vec![0x0f, 0x01]));
    assert_eq!(cta.data_blocks[0], (1, vec![0x09, 0x07, 0x07]));
    assert!(cta.dtds.is_empty());
}

#[test]
fn a_420_only_code_goes_too() {
    let mut e = base_block(
        [0x60, 0x01],
        1,
        [DTD_4K60, [0; 18], text_descriptor(0xfc, "X"), [0; 18]],
    );
    e.extend(build_cta(&CtaBlock {
        revision: 3,
        flags: 0,
        data_blocks: vec![(7, vec![0x0e, 118, 97])],
        dtds: vec![],
    }));
    let r = capped(&e, 60);
    assert_eq!(r.dropped.len(), 1);
    assert_eq!(r.dropped[0].source, TimingSource::CtaVic { block: 1, vic: 118 });
    let cta = parse_cta(&r.bytes[128..256]);
    assert_eq!(cta.data_blocks, vec![(7, vec![0x0e, 97])]);
}

/// An EDID with one CTA-861 block that has the given data blocks.
fn with_data_blocks(data_blocks: Vec<(u8, Vec<u8>)>) -> Vec<u8> {
    let mut e = base_block([0x60, 0x01], 1, [DTD_4K60, [0; 18], [0; 18], [0; 18]]);
    e.extend(build_cta(&CtaBlock { revision: 3, flags: 0, data_blocks, dtds: vec![] }));
    e
}

fn data_blocks_after(data_blocks: Vec<(u8, Vec<u8>)>, max_hz: u32) -> Vec<(u8, Vec<u8>)> {
    let r = capped(&with_data_blocks(data_blocks), max_hz);
    parse_cta(&r.bytes[128..]).data_blocks
}

#[test]
fn codes_within_the_cap_outlive_the_video_data_block() {
    assert_eq!(
        data_blocks_after(vec![(2, vec![118]), (7, vec![14, 97])], 100),
        vec![(7, vec![14, 97])]
    );
    assert_eq!(
        data_blocks_after(vec![(2, vec![118]), (7, vec![14, 97, 118, 5])], 100),
        vec![(7, vec![14, 97, 5])]
    );
    assert_eq!(data_blocks_after(vec![(2, vec![118]), (7, vec![14, 118])], 100), vec![]);
}

#[test]
fn the_capability_map_goes_with_the_last_descriptor() {
    let map = || (7, vec![15, 0b11]);
    assert_eq!(data_blocks_after(vec![(2, vec![118]), map()], 100), vec![]);
    assert_eq!(
        data_blocks_after(vec![(2, vec![118]), (2, vec![97]), map()], 100),
        vec![(2, vec![97]), (7, vec![15, 0b01])]
    );
    assert_eq!(
        data_blocks_after(vec![(7, vec![14, 118, 97]), map()], 100),
        vec![(7, vec![14, 97]), map()]
    );
}

#[test]
fn empty_data_blocks_stay_where_nothing_goes() {
    for data_blocks in [
        vec![(2, vec![])],
        vec![(7, vec![14])],
        vec![(2, vec![]), (7, vec![14, 97]), (7, vec![15, 1])],
    ] {
        let e = with_data_blocks(data_blocks);
        let r = capped(&e, 100);
        assert!(r.unchanged);
        assert!(r.dropped.is_empty());
        assert!(r.notes.is_empty());
        assert_eq!(r.bytes, e);
    }
    assert_eq!(data_blocks_after(vec![(2, vec![]), (2, vec![97, 118])], 100), vec![(2, vec![97])]);
}

#[test]
fn a_base_timing_above_the_cap_becomes_a_dummy() {
    let mut e = dp160();
    e[54 + 54..126].copy_from_slice(&dtd(497_760_000, (2560, 160), (1440, 85)));
    fix_checksum(&mut e[..BLOCK]);
    let r = capped(&e, 100);
    let mut dummy = [0u8; 18];
    dummy[3] = 0x10;
    assert_eq!(r.bytes[108..126], dummy);
    assert_eq!(r.dropped[0].source, TimingSource::BaseDtd { index: 3 });
    assert_eq!(r.bytes[..54], e[..54]);
}

#[test]
fn cap_errors() {
    let e = dp160();
    for max_hz in [Hz { num: 0, den: 1 }, Hz { num: 1, den: 0 }] {
        let o = CapOptions { max_hz, max_pixel_clock_mhz: None };
        assert!(matches!(cap(&e, &o), Err(EdidError::BadCap)));
    }
    let mut bad = e.clone();
    bad[300] ^= 1;
    assert!(matches!(cap(&bad, &options(144)), Err(EdidError::Checksum(2))));
    assert!(matches!(cap(&e[..200], &options(144)), Err(EdidError::BadLength(200))));
    assert!(matches!(cap(&e[..100], &options(144)), Err(EdidError::TooShort(100))));
}

#[test]
fn a_wanted_pixel_clock_is_written() {
    let o = CapOptions { max_hz: Hz::of(144), max_pixel_clock_mhz: Some(1305) };
    let e = dp160();
    assert!(can_cap(&e, &o));
    let r = cap(&e, &o).unwrap();
    let rl = parse(&r.bytes).unwrap().range_limits.unwrap();
    assert_eq!(rl.max_pixel_clock_mhz, 1300);
    assert!(r.notes.contains(&"range limits: max vertical rate 160 -> 144 Hz".to_string()));
    assert!(r.notes.contains(&"range limits: max pixel clock 1440 -> 1300 MHz".to_string()));
}

#[test]
fn high_rates_are_written_with_their_flag() {
    let mut e = dp160();
    e[54 + 18 + 4] = 0x02;
    e[54 + 18 + 6] = 145;
    // 3840x2160 at 420 Hz in place of 160 Hz.
    e[256..].copy_from_slice(&displayid_extension(&[
        type_1(3_754_800_000, (3840, 160), (2160, 75)),
    ]));
    fix_checksum(&mut e[..BLOCK]);
    assert_eq!(parse(&e).unwrap().range_limits.unwrap().v_max_hz, 400);
    let r = capped(&e, 300);
    assert_eq!(parse(&r.bytes).unwrap().range_limits.unwrap().v_max_hz, 300);
    assert_eq!((r.bytes[76], r.bytes[78]), (0x02, 45));
}

#[test]
fn half_a_hertz_still_counts_as_the_cap() {
    let e = dp160();
    let o = CapOptions { max_hz: Hz { num: 3191, den: 20 }, max_pixel_clock_mhz: None };
    let r = cap(&e, &o).unwrap();
    assert!(r.unchanged, "160 Hz is within half a hertz of 159.55 Hz");
    let o = CapOptions { max_hz: Hz { num: 3189, den: 20 }, max_pixel_clock_mhz: None };
    let r = cap(&e, &o).unwrap();
    assert_eq!(r.dropped.len(), 1);
}

#[test]
fn overlapping_descriptors_can_not_be_capped() {
    // The detailed timings start inside a data block, so what stays exceeds a block: 31 bytes
    // of video descriptors and six timings, which no block has room for.
    let mut b = vec![97u8; 128];
    b[0] = 2;
    b[1] = 3;
    b[2] = 5;
    b[3] = 0;
    b[4] = 0x40 | 31;
    b[35] = 118;
    fix_checksum(&mut b);
    let c = parse_cta(&b);
    assert_eq!(c.data_blocks[0].1.len(), 31);
    assert_eq!(c.dtds.len(), 6);
    let mut e = base_block([1, 2], 1, [DTD_4K60, [0; 18], [0; 18], [0; 18]]);
    e.extend(b);
    validate(&e).unwrap();
    assert!(!can_cap(&e, &options(100)));
    // With nothing to remove the block stays as it is.
    assert!(capped(&e, 120).unchanged);
}

#[test]
fn overlapping_descriptors_can_lose_a_timing_to_the_checksum() {
    // Sixteen bytes of video descriptors, one of which goes, and six timings: what stays
    // fills the block up to its checksum byte.
    let mut b = vec![97u8; 128];
    b[0] = 2;
    b[1] = 3;
    b[2] = 5;
    b[3] = 0;
    b[4] = 0x40 | 16;
    b[20] = 118;
    fix_checksum(&mut b);
    let mut e = base_block([1, 2], 1, [DTD_4K60, [0; 18], [0; 18], [0; 18]]);
    e.extend(b);
    let r = capped(&e, 100);
    validate(&r.bytes).unwrap();
    assert_eq!(r.dropped.len(), 1);
    assert_eq!(parse_cta(&r.bytes[128..]).dtds.len(), 5);
    assert!(capped(&r.bytes, 100).unchanged);
}

#[test]
fn capping_keeps_what_is_within_and_the_identity() {
    let e = dp160();
    for max_hz in [60, 100, 120, 144, 160] {
        let before = parse(&e).unwrap();
        let r = capped(&e, max_hz);
        let after = parse(&r.bytes).unwrap();
        let limit = f64::from(max_hz) + 0.5;
        let rates = |i: &EdidInfo| -> Vec<(u32, u32, u64)> {
            i.timings
                .iter()
                .filter(|t| refresh(t) <= limit)
                .map(|t| (t.h_active, t.v_active, t.pixel_clock_hz))
                .collect()
        };
        assert_eq!(rates(&before), rates(&after));
        assert_eq!(after.timings.len(), rates(&after).len());
        assert_eq!(after.timings.len() + r.dropped.len(), before.timings.len());
        assert!(r.dropped.iter().all(|t| refresh(t) > limit));
        assert_eq!(after.label(), before.label());
        assert_eq!(after.serial, before.serial);
        assert_eq!(after.serial_string, before.serial_string);
        assert_eq!(after.blocks, before.blocks);
        assert_eq!(r.max_timing.as_ref(), after.max_timing());
        let clock = after.range_limits.unwrap().max_pixel_clock_mhz;
        assert!(after.timings.iter().all(|t| t.pixel_clock_hz <= u64::from(clock) * 1_000_000));
        let again = capped(&r.bytes, max_hz + 7);
        assert!(again.unchanged);
    }
}

// ---------------------------------------------------------------------------
// Reading what was written.

#[test]
fn cta_blocks_read_back() {
    let c = CtaBlock {
        revision: 3,
        flags: 0x71,
        data_blocks: vec![(1, vec![1, 2, 3]), (3, vec![]), (2, vec![97])],
        dtds: vec![DTD_4K60],
    };
    let b = build_cta(&c);
    assert_eq!(b.len(), 128);
    assert_eq!(block_sum(&b), 0);
    let r = parse_cta(&b);
    assert_eq!((r.revision, r.flags), (3, 0x71));
    assert_eq!(r.data_blocks, c.data_blocks);
    assert_eq!(r.dtds, c.dtds);
}

#[test]
fn a_timing_that_reaches_into_the_checksum_is_lost() {
    // 4 bytes of head, 16 of data blocks and six detailed timings fill the whole block.
    let c = CtaBlock {
        revision: 3,
        flags: 0,
        data_blocks: vec![(1, vec![7; 15])],
        dtds: vec![DTD_4K60; 6],
    };
    let r = parse_cta(&build_cta(&c));
    assert_eq!(r.data_blocks, c.data_blocks);
    assert_eq!(r.dtds, vec![DTD_4K60; 5]);
}

#[test]
fn displayid_blocks_read_back() {
    let d = DisplayIdBlock {
        version: 0x20,
        product_type: 2,
        ext_count: 0,
        blocks: vec![(0x22, 0x12, vec![5; 42]), (0x26, 0, vec![1, 2])],
    };
    let b = build_displayid(&d);
    assert_eq!(b.len(), 128);
    assert_eq!(block_sum(&b), 0);
    let r = parse_displayid(&b);
    assert_eq!((r.version, r.product_type, r.ext_count), (0x20, 2, 0));
    assert_eq!(r.blocks, d.blocks);
}

#[test]
fn bitmaps_follow_their_list() {
    assert_eq!(remap(&[0b0000_0101], &vec![true, false, true]), vec![0b0000_0011]);
    assert_eq!(remap(&[0x80, 0x01], &vec![false; 8]), vec![0, 0]);
    let mut kept = vec![true; 9];
    kept[0] = false;
    assert_eq!(remap(&[0xff, 0x01], &kept), vec![0xff, 0x00]);
    assert_eq!(remap(&[], &vec![true, true]), Vec::<u8>::new());
    // Entries beyond the map have no bit.
    assert_eq!(remap(&[0x01], &vec![true; 20]), vec![0x01]);
}

// ---------------------------------------------------------------------------
// Describing.

#[test]
fn describes_an_edid() {
    let i = parse(&dp160()).unwrap();
    let s = describe(&i, &shown(&i), "160.00");
    let lines: Vec<&str> = s.lines().collect();
    assert_eq!(
        lines[0],
        "TEST 4K160 (id 52746001, TST product 0x0160, serial 7, week 12 of 2024, EDID 1.4, 384 bytes)"
    );
    assert_eq!(lines[1], "blocks: base, CTA-861 rev 3, DisplayID v1.2");
    assert_eq!(lines[2], "range limits: V 48-160 Hz, H 30-255 kHz, max pixel clock 1440 MHz");
    assert_eq!(lines[3], "timings:");
    assert_eq!(
        lines[4],
        "  3840x2160 @ 160.00 Hz (1430.40 MHz, DisplayID timing #1 (block 2)) active  1.327 Gpx/s  total  1.430 Gpx/s"
    );
    assert_eq!(
        lines[7],
        "  3840x2160 @ 60.00 Hz (594.00 MHz, base DTD #1)       active  0.498 Gpx/s  total  0.594 Gpx/s"
    );
    assert_eq!(lines[11], "max: 3840x2160 @ 160.00 Hz");
    assert_eq!(lines.len(), 12);
}

#[test]
fn interlaced_timings_are_never_the_highest() {
    let mut e = dp160();
    e[54 + 17] = 0x9e;
    e.truncate(128);
    let i = parse(&e).unwrap();
    assert_eq!(i.timings.len(), 1);
    assert!(i.max_timing().is_none());
    let s = describe(&i, &shown(&i), "");
    assert!(!s.contains("max:"));
}

#[test]
fn of_equal_timings_the_last_is_the_highest() {
    let mut e = dp160();
    e.truncate(256);
    let r = capped(&{ e[126] = 1; fix_checksum(&mut e[..BLOCK]); e }, 60);
    let i = parse(&r.bytes).unwrap();
    assert_eq!(
        i.max_timing().unwrap().source,
        TimingSource::CtaVic { block: 1, vic: 97 }
    );
}

#[test]
fn timings_are_ranked_by_active_rate() {
    let i = parse(&dp160()).unwrap();
    // 160 Hz, 144 Hz, 120 Hz, the two with 60 Hz in their own order, 2560x1440 at 120 Hz, 1080p.
    assert_eq!(ranked(&i.timings), vec![5, 6, 2, 0, 1, 4, 3]);
}

#[test]
fn without_420_codes_what_goes_is_what_is_above_in_order() {
    let e = dp160();
    let all = parse(&e).unwrap().timings;
    for (hz, gone) in [(144, 1), (120, 2), (100, 4), (60, 4)] {
        let above: Vec<Timing> = all
            .iter()
            .copied()
            .filter(|t| {
                let pixels = u64::from(t.h_total) * u64::from(t.v_total);
                2 * t.pixel_clock_hz > (2 * hz + 1) * pixels
            })
            .collect();
        assert_eq!(above.len(), gone);
        assert_eq!(capped(&e, hz as u32).dropped, above);
    }
}

#[test]
fn decoding_does_not_look_at_checksums() {
    let e = dp160();
    let mut other = e.clone();
    for n in 0..other.len() / BLOCK {
        other[n * BLOCK + BLOCK - 1] ^= 0x5a;
    }
    assert_eq!(validate(&other), Err(EdidError::Checksum(0)));
    assert_eq!(format!("{:?}", parse(&other)), format!("{:?}", parse(&e)));
    other[0] = 1;
    assert!(matches!(parse(&other), Err(EdidError::BadHeader)));
}

#[test]
fn results_can_be_copied() {
    let r = capped(&dp160(), 144);
    assert_eq!(format!("{:?}", r.clone()), format!("{r:?}"));
    let i = parse(&r.bytes).unwrap();
    assert_eq!(format!("{:?}", i.clone()), format!("{i:?}"));
}
