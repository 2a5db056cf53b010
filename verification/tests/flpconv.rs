use flp_extract_fxp::flp::{parse_event_spans, parse_events, EV_NEW_CHANNEL, EV_PLUGIN_PARAMS, EV_TEXT_CHANNEL_NAME};
use flp_extract_fxp::flpconv::{
    apply, json_raw_field, json_string_field, patch_serum_metadata, scan_convertible_detailed, serum2_filename,
    wrap_controller_record, Serum2Bundle,
};
use flp_extract_fxp::s1state::parse_preset;
use flp_extract_fxp::serum2state::{controller_json_header, md5_hex, parse_xfer_json, wrap_controller_frame};
use flp_extract_fxp::fxp::PatchField;
use flp_extract_fxp::scan::scan_serum_instances;
use flp_extract_fxp::serum::{OFF_AUTHOR, OFF_CATEGORY, OFF_PRESET_NAME, OFF_VERSION_F32, SERUM1_STATE_SIZE};
use flp_extract_fxp::zlibio::inflate;
use std::io::Write;

// ---------------------------------------------------------------------------
// Helpers

const CID1_S1: [u8; 20] = [
    0xFF, 0xFF, 0xFF, 0xFF, 0xFF, 0xFF, 0xFF, 0xFF, 0x0C, 0x00, 0x00, 0x00, 0x00, 0x00, 0x00, 0x00,
    0x00, 0x00, 0x00, 0x00,
];
const CID2_S1: [u8; 25] = [
    0x00, 0xA0, 0x00, 0x00, 0x00, 0x19, 0x00, 0x00, 0x00, 0x8D, 0x7D, 0x20, 0xA4, 0x00, 0x00, 0x00,
    0x00, 0x01, 0x00, 0x00, 0x00, 0x00, 0x00, 0x00, 0x00,
];
const C30: [u8; 16] = [0, 0, 0, 0, 1, 0, 0, 0, 0, 0, 0, 0, 0, 0, 0, 0];
const C32: [u8; 12] = [0, 0, 0, 0, 1, 0, 0, 0, 0, 0, 0, 0];
const C50: [u8; 16] = [0x08, 0, 0, 0, 0, 0, 0, 0, 0, 0, 0, 0, 0, 0, 0, 0];
const S1_UID: [u8; 16] = [
    0x58, 0x54, 0x53, 0x56, 0x73, 0x66, 0x73, 0x58, 0x65, 0x72, 0x75, 0x6D, 0x00, 0x00, 0x00, 0x00,
];
const S2_UID: [u8; 16] = [
    0x58, 0x45, 0x53, 0x56, 0x73, 0x66, 0x73, 0x50, 0x65, 0x72, 0x75, 0x6D, 0x20, 0x32, 0x00, 0x00,
];

fn zlib_stream(data: &[u8]) -> Vec<u8> {
    let mut e = flate2::write::ZlibEncoder::new(Vec::new(), flate2::Compression::new(1));
    e.write_all(data).unwrap();
    e.finish().unwrap()
}

fn build_flp(events: &[(u8, Vec<u8>)]) -> Vec<u8> {
    let mut dt = Vec::new();
    for (id, data) in events {
        dt.push(*id);
        if *id >= 192 {
            let mut len = data.len() as u32;
            loop {
                let b = (len & 0x7f) as u8;
                len >>= 7;
                if len == 0 {
                    dt.push(b);
                    break;
                }
                dt.push(b | 0x80);
            }
        }
        dt.extend_from_slice(data);
    }
    let mut out = Vec::new();
    out.extend_from_slice(b"FLhd");
    out.extend_from_slice(&6u32.to_le_bytes());
    out.extend_from_slice(&[0, 0, 0x46, 0, 0x60, 0]);
    out.extend_from_slice(b"FLdt");
    out.extend_from_slice(&(dt.len() as u32).to_le_bytes());
    out.extend_from_slice(&dt);
    out
}

/// A Serum inner cid 3: zlib preset state (preset name set) + a second
/// wavetable stream + u32 LE trailer.
fn s1_cid3() -> Vec<u8> {
    let mut s0 = vec![0u8; SERUM1_STATE_SIZE];
    s0[OFF_PRESET_NAME..OFF_PRESET_NAME + 11].copy_from_slice(b"TestPreset\0");
    s0[OFF_VERSION_F32..OFF_VERSION_F32 + 4].copy_from_slice(&0.1631f32.to_le_bytes());
    let z0 = zlib_stream(&s0);
    let z1 = zlib_stream(&[0u8; 8192]);
    let mut v = z0.clone();
    v.extend_from_slice(&z1);
    v.extend_from_slice(&(z0.len() as u32).to_le_bytes());
    v
}

fn top_rec(cid: u32, data: &[u8]) -> Vec<u8> {
    let mut v = Vec::new();
    v.extend_from_slice(&cid.to_le_bytes());
    v.extend_from_slice(&(data.len() as u64).to_le_bytes());
    v.extend_from_slice(data);
    v
}

fn serum1_payload(name: &str, filename: &str) -> Vec<u8> {
    let cid3 = s1_cid3();
    let mut cid4 = Vec::new();
    cid4.extend_from_slice(&3u32.to_le_bytes());
    cid4.extend_from_slice(&0u32.to_le_bytes());
    cid4.extend_from_slice(&1u32.to_le_bytes());
    cid4.extend_from_slice(&2u32.to_le_bytes());

    let mut wrapper = Vec::new();
    wrapper.extend_from_slice(&1u32.to_le_bytes());
    let mut inner1 = vec![0u8; 64];
    inner1[0..4].copy_from_slice(&1u32.to_le_bytes());
    wrapper.extend_from_slice(&top_rec(1, &inner1));
    wrapper.extend_from_slice(&top_rec(3, &cid3));
    wrapper.extend_from_slice(&top_rec(4, &cid4));

    let mut p = Vec::new();
    p.extend_from_slice(&12u32.to_le_bytes());
    p.extend_from_slice(&top_rec(1, &CID1_S1));
    p.extend_from_slice(&top_rec(2, &CID2_S1));
    p.extend_from_slice(&top_rec(30, &C30));
    p.extend_from_slice(&top_rec(32, &C32));
    p.extend_from_slice(&top_rec(50, &C50));
    p.extend_from_slice(&top_rec(52, &S1_UID));
    p.extend_from_slice(&top_rec(54, name.as_bytes()));
    p.extend_from_slice(&top_rec(55, filename.as_bytes()));
    p.extend_from_slice(&top_rec(56, b"Xfer Records"));
    p.extend_from_slice(&top_rec(53, &wrapper));
    p
}

fn utf16_name(s: &str) -> Vec<u8> {
    s.encode_utf16().chain(std::iter::once(0)).flat_map(u16::to_le_bytes).collect()
}

fn sample_flp() -> Vec<u8> {
    build_flp(&[
        (EV_NEW_CHANNEL, vec![0, 0]),
        (EV_TEXT_CHANNEL_NAME, utf16_name("Serum")),
        (EV_PLUGIN_PARAMS, serum1_payload("Serum", "/Library/Audio/Plug-Ins/VST3/Serum.vst3")),
        (128, vec![1, 2, 3, 4]),
    ])
}

fn test_bundle(proc_extra: usize) -> Serum2Bundle {
    let mut processor_record = b"XferJson\0".to_vec();
    processor_record.extend(std::iter::repeat_n(0xABu8, proc_extra));
    Serum2Bundle {
        processor_record,
        controller_record: Some(b"XferJson\0ctrl".to_vec()),
        param_list: vec![0x11, 0x22, 0x33, 0x44],
        name: "Serum2".into(),
        filename: "/Library/Audio/Plug-Ins/VST3/Serum2.vst3".into(),
        vendor: "Xfer Records".into(),
    }
}

fn records_of(buf: &[u8], pos: usize) -> Vec<(u32, Vec<u8>)> {
    let mut out = Vec::new();
    let mut pos = pos;
    while pos < buf.len() {
        let cid = u32::from_le_bytes(buf[pos..pos + 4].try_into().unwrap());
        let sz = u64::from_le_bytes(buf[pos + 4..pos + 12].try_into().unwrap()) as usize;
        pos += 12;
        out.push((cid, buf[pos..pos + sz].to_vec()));
        pos += sz;
    }
    assert_eq!(pos, buf.len(), "records must end exactly at the payload end");
    out
}

fn fldt_len(buf: &[u8]) -> usize {
    u32::from_le_bytes(buf[18..22].try_into().unwrap()) as usize
}

fn inner_cid3(payload: &[u8]) -> Vec<u8> {
    let recs = records_of(payload, 4);
    let w = &recs.iter().find(|r| r.0 == 53).unwrap().1;
    records_of(w, 4).into_iter().find(|r| r.0 == 3).unwrap().1
}

// ---------------------------------------------------------------------------
// Planning and conversion

#[test]
fn scan_finds_serum1_synth() {
    let buf = sample_flp();
    let plans = scan_convertible_detailed(&buf).unwrap().0;
    assert_eq!(plans.len(), 1);
    let p = &plans[0];
    assert_eq!(p.event_index, 2);
    assert_eq!(p.event_offset, parse_event_spans(&buf).unwrap()[2].0 - 22);
    assert_eq!(p.channel, Some(0));
    assert_eq!(p.channel_name, "Serum");
    assert_eq!(p.plugin_name, "Serum");
    assert_eq!(p.payload, serum1_payload("Serum", "/Library/Audio/Plug-Ins/VST3/Serum.vst3"));
}

#[test]
fn apply_rewrites_payload_byte_exactly() {
    let buf = sample_flp();
    let plans = scan_convertible_detailed(&buf).unwrap().0;
    let bundle = test_bundle(0);
    let (out, report) = apply(&buf, &plans, &[Some(bundle.clone())]).unwrap();

    let evs = parse_events(&out).unwrap();
    assert_eq!(evs.len(), 4);
    assert_eq!(evs[0].id, EV_NEW_CHANNEL);
    assert_eq!(evs[0].data, &[0, 0]);
    assert_eq!(evs[1].id, EV_TEXT_CHANNEL_NAME);
    assert_eq!(evs[1].data, utf16_name("Serum"));
    assert_eq!(evs[3].id, 128);
    assert_eq!(evs[3].data, &[1, 2, 3, 4]);

    assert_eq!(fldt_len(&out), out.len() - 22);
    assert_eq!(&out[..18], &buf[..18]);

    assert_eq!(report.converted.len(), 1);
    assert_eq!(report.converted[0].channel, Some(0));
    assert_eq!(report.converted[0].channel_name, "Serum");
    assert_eq!(report.converted[0].preset_name, "TestPreset");
    assert_eq!(report.converted[0].new_payload_len, evs[2].data.len());

    let new_payload = evs[2].data;
    let mut expect = Vec::new();
    expect.extend_from_slice(&12u32.to_le_bytes());
    let mut c1 = CID1_S1.to_vec();
    c1[8..12].copy_from_slice(&1u32.to_le_bytes());
    expect.extend_from_slice(&top_rec(1, &c1));
    expect.extend_from_slice(&top_rec(2, &CID2_S1));
    expect.extend_from_slice(&top_rec(30, &C30));
    expect.extend_from_slice(&top_rec(32, &C32));
    expect.extend_from_slice(&top_rec(50, &C50));
    expect.extend_from_slice(&top_rec(52, &S2_UID));
    expect.extend_from_slice(&top_rec(54, b"Serum2"));
    expect.extend_from_slice(&top_rec(55, b"/Library/Audio/Plug-Ins/VST3/Serum2.vst3"));
    expect.extend_from_slice(&top_rec(56, b"Xfer Records"));
    let mut w = Vec::new();
    w.extend_from_slice(&1u32.to_le_bytes());
    let mut inner1 = vec![0u8; 64];
    inner1[0..4].copy_from_slice(&1u32.to_le_bytes());
    w.extend_from_slice(&top_rec(1, &inner1));
    w.extend_from_slice(&top_rec(3, &bundle.processor_record));
    w.extend_from_slice(&top_rec(2, bundle.controller_record.as_ref().unwrap()));
    w.extend_from_slice(&top_rec(4, &bundle.param_list));
    expect.extend_from_slice(&top_rec(53, &w));
    assert_eq!(new_payload, expect);
}

#[test]
fn new_payload_structure_is_valid_serum2() {
    let buf = sample_flp();
    let plans = scan_convertible_detailed(&buf).unwrap().0;
    let (out, _) = apply(&buf, &plans, &[Some(test_bundle(4096))]).unwrap();
    let evs = parse_events(&out).unwrap();
    let p = evs[2].data;

    assert_eq!(u32::from_le_bytes(p[0..4].try_into().unwrap()), 12);
    let recs = records_of(p, 4);
    let cids: Vec<u32> = recs.iter().map(|r| r.0).collect();
    assert_eq!(cids, vec![1, 2, 30, 32, 50, 52, 54, 55, 56, 53]);
    assert_eq!(recs[0].1.len(), 20);
    assert_eq!(recs[5].1, S2_UID);
    assert_eq!(recs[6].1, b"Serum2");
    assert_eq!(recs[7].1, b"/Library/Audio/Plug-Ins/VST3/Serum2.vst3");
    assert_eq!(recs[8].1, b"Xfer Records");

    assert_eq!(u32::from_le_bytes(recs[0].1[8..12].try_into().unwrap()), 1);
    let mut c1 = CID1_S1.to_vec();
    c1[8..12].copy_from_slice(&1u32.to_le_bytes());
    assert_eq!(recs[0].1, c1);

    let w = &recs[9].1;
    assert_eq!(u32::from_le_bytes(w[0..4].try_into().unwrap()), 1);
    let inner = records_of(w, 4);
    assert_eq!(inner.iter().map(|r| r.0).collect::<Vec<_>>(), vec![1, 3, 2, 4]);
    assert_eq!(inner[0].1.len(), 64);
    assert_eq!(inner[0].1[0], 1);
    assert!(inner[0].1[4..].iter().all(|&b| b == 0));
    assert_eq!(inner[1].1, test_bundle(4096).processor_record);
    assert_eq!(inner[2].1, test_bundle(4096).controller_record.unwrap());
    assert_eq!(inner[3].1, test_bundle(4096).param_list);
}

#[test]
fn varint_reframing_two_byte() {
    let buf = sample_flp();
    let plans = scan_convertible_detailed(&buf).unwrap().0;
    let (out, rep) = apply(&buf, &plans, &[Some(test_bundle(140))]).unwrap();
    let evs = parse_events(&out).unwrap();
    assert!(evs[2].data.len() >= 128);
    assert!(evs[2].data.len() < 16384);
    assert_eq!(evs[2].data.len(), rep.converted[0].new_payload_len);
    let off = parse_event_spans(&out).unwrap()[2].0;
    assert_eq!(out[off], 0xD5);
    assert_eq!(out[off + 1] & 0x80, 0x80);
    assert_eq!(out[off + 2] & 0x80, 0x00);
    assert_eq!(fldt_len(&out), out.len() - 22);
}

#[test]
fn varint_reframing_three_byte() {
    let buf = sample_flp();
    let plans = scan_convertible_detailed(&buf).unwrap().0;
    let (out, _) = apply(&buf, &plans, &[Some(test_bundle(20_000))]).unwrap();
    let evs = parse_events(&out).unwrap();
    assert!(evs[2].data.len() >= 16384);
    let off = parse_event_spans(&out).unwrap()[2].0;
    assert_eq!(out[off], 0xD5);
    assert_eq!(out[off + 1] & 0x80, 0x80);
    assert_eq!(out[off + 2] & 0x80, 0x80);
    assert_eq!(out[off + 3] & 0x80, 0x00);
    assert_eq!(fldt_len(&out), out.len() - 22);
}

#[test]
fn serum_fx_not_planned() {
    let buf = build_flp(&[
        (EV_NEW_CHANNEL, vec![3, 0]),
        (EV_PLUGIN_PARAMS, serum1_payload("Serum FX", "/Library/Audio/Plug-Ins/VST3/Serum FX.vst3")),
    ]);
    let (plans, warnings) = scan_convertible_detailed(&buf).unwrap();
    assert!(plans.is_empty());
    assert_eq!(warnings.len(), 1);
    let (instances, _) = scan_serum_instances(&buf).unwrap();
    assert_eq!(instances.len(), 1);
    let (out, rep) = apply(&buf, &plans, &[]).unwrap();
    assert_eq!(out, buf);
    assert!(rep.converted.is_empty());
}

#[test]
fn rejects_zip_buffer() {
    let mut buf = b"PK\x03\x04".to_vec();
    buf.extend_from_slice(&[0u8; 64]);
    assert!(scan_convertible_detailed(&buf).is_err());
    assert!(apply(&buf, &[], &[]).is_err());
}

#[test]
fn rejects_malformed_fldt() {
    let mut buf = b"FLhd".to_vec();
    buf.extend_from_slice(&6u32.to_le_bytes());
    buf.extend_from_slice(&[0u8; 6]);
    assert!(scan_convertible_detailed(&buf).is_err());
    let mut buf3 = build_flp(&[]);
    buf3[18..22].copy_from_slice(&32u32.to_le_bytes());
    buf3.extend_from_slice(&[0xD5, 0xE4, 0x07, 1, 2, 3]);
    assert!(scan_convertible_detailed(&buf3).is_err());
    assert!(apply(&buf3, &[], &[]).is_err());
}

#[test]
fn apply_rejects_stale_plans() {
    let buf = sample_flp();
    let plans = scan_convertible_detailed(&buf).unwrap().0;
    let other = build_flp(&[
        (EV_NEW_CHANNEL, vec![0, 0]),
        (EV_TEXT_CHANNEL_NAME, utf16_name("Serum")),
        (EV_PLUGIN_PARAMS, serum1_payload("Serum", "/Library/Audio/Plug-Ins/VST3/Serum.vst3")),
        (128, vec![9, 9, 9, 9]),
    ]);
    let mut tampered = other.clone();
    tampered.truncate(tampered.len() - 1);
    assert!(apply(&tampered, &plans, &[None]).is_err());
    assert!(apply(&buf, &plans, &[]).is_err());
}

#[test]
fn apply_none_bundles_is_identity() {
    let buf = sample_flp();
    let plans = scan_convertible_detailed(&buf).unwrap().0;
    let (out, rep) = apply(&buf, &plans, &[None]).unwrap();
    assert_eq!(out, buf);
    assert!(rep.converted.is_empty());
    assert_eq!(rep.warnings.len(), 1);
    let (out2, rep2) = apply(&buf, &[], &[]).unwrap();
    assert_eq!(out2, buf);
    assert!(rep2.converted.is_empty());
}

#[test]
fn controller_none_omits_inner_cid2() {
    let buf = sample_flp();
    let plans = scan_convertible_detailed(&buf).unwrap().0;
    let mut b = test_bundle(10);
    b.controller_record = None;
    let (out, _) = apply(&buf, &plans, &[Some(b)]).unwrap();
    let evs = parse_events(&out).unwrap();
    let recs = records_of(evs[2].data, 4);
    let w = &recs[9].1;
    let inner = records_of(w, 4);
    assert_eq!(inner.iter().map(|r| r.0).collect::<Vec<_>>(), vec![1, 3, 4]);
}

// ---------------------------------------------------------------------------
// Error messages of apply

#[test]
fn apply_error_messages_are_exact() {
    let buf = sample_flp();
    let plans = scan_convertible_detailed(&buf).unwrap().0;
    assert_eq!(apply(&buf, &plans, &[]).unwrap_err(), "plans (1) and bundles (0) lengths differ");
    let short = build_flp(&[(EV_NEW_CHANNEL, vec![0, 0])]);
    assert_eq!(
        apply(&short, &plans, &[None]).unwrap_err(),
        "plan 0 references event 2 but the file has 1 events"
    );
    let wrong_id = build_flp(&[
        (EV_NEW_CHANNEL, vec![0, 0]),
        (EV_TEXT_CHANNEL_NAME, utf16_name("Serum")),
        (128, vec![1, 2, 3, 4]),
    ]);
    assert_eq!(
        apply(&wrong_id, &plans, &[None]).unwrap_err(),
        "plan 0 references event 2 (id 128), not a PluginParams event"
    );
    let stale = build_flp(&[
        (EV_NEW_CHANNEL, vec![0, 0]),
        (EV_TEXT_CHANNEL_NAME, utf16_name("Serum")),
        (EV_PLUGIN_PARAMS, serum1_payload("Serum", "/Other/Serum.vst3")),
    ]);
    assert_eq!(
        apply(&stale, &plans, &[None]).unwrap_err(),
        "plan 0 payload does not match the buffer (stale InstancePlan?)"
    );
}

#[test]
fn apply_rejects_duplicate_plans_and_empty_bundles() {
    let buf = sample_flp();
    let mut plans = scan_convertible_detailed(&buf).unwrap().0;
    let again = scan_convertible_detailed(&buf).unwrap().0.remove(0);
    plans.push(again);
    assert_eq!(
        apply(&buf, &plans, &[Some(test_bundle(0)), Some(test_bundle(0))]).unwrap_err(),
        "plan 1 duplicates event 2"
    );
    let plans = scan_convertible_detailed(&buf).unwrap().0;
    let mut empty = test_bundle(0);
    empty.processor_record.clear();
    assert_eq!(
        apply(&buf, &plans, &[Some(empty)]).unwrap_err(),
        "Serum2Bundle has an empty processor record"
    );
}

#[test]
fn skipped_instance_warning_names_the_channel() {
    let buf = sample_flp();
    let plans = scan_convertible_detailed(&buf).unwrap().0;
    let (_, rep) = apply(&buf, &plans, &[None]).unwrap();
    assert_eq!(rep.warnings, vec!["instance on channel 'Serum' skipped (no Serum2 bundle supplied)".to_string()]);
}

// ---------------------------------------------------------------------------
// Metadata patching

#[test]
fn patch_flp_updates_state_and_report() {
    let buf = sample_flp();
    let (out, rep) = patch_serum_metadata(
        &buf,
        &[PatchField::Name("Patched Name".into()), PatchField::Author("Patched Author".into())],
    )
    .unwrap();

    assert_eq!(rep.patched.len(), 1);
    assert_eq!(rep.patched[0].channel_name, "Serum");
    assert_eq!(rep.patched[0].old_preset_name, "TestPreset");
    assert_eq!(rep.patched[0].new_preset_name, "Patched Name");
    assert!(rep.warnings.is_empty());

    assert_eq!(fldt_len(&out), out.len() - 22);
    assert_eq!(&out[..18], &buf[..18]);

    let evs_old = parse_events(&buf).unwrap();
    let evs_new = parse_events(&out).unwrap();
    assert_eq!(evs_old.len(), evs_new.len());
    for (o, n) in evs_old.iter().zip(&evs_new) {
        if o.id == EV_PLUGIN_PARAMS {
            continue;
        }
        assert_eq!((o.id, &o.data), (n.id, &n.data));
    }

    let state = inflate(&inner_cid3(evs_new[2].data), 1 << 20).unwrap().0;
    let field = |off: usize, len: usize| {
        String::from_utf8_lossy(&state[off..off + len]).trim_end_matches('\0').to_string()
    };
    assert_eq!(field(OFF_PRESET_NAME, 32), "Patched Name");
    assert_eq!(field(OFF_AUTHOR, 48), "Patched Author");
    assert_eq!(field(OFF_CATEGORY, 48), "");
}

#[test]
fn patch_flp_keeps_other_records_byte_identical() {
    let buf = sample_flp();
    let (out, _) = patch_serum_metadata(&buf, &[PatchField::Category("Cat".into())]).unwrap();
    let old = parse_events(&buf).unwrap();
    let new = parse_events(&out).unwrap();
    let po = records_of(old[2].data, 4);
    let pn = records_of(new[2].data, 4);
    assert_eq!(po.iter().map(|r| r.0).collect::<Vec<_>>(), pn.iter().map(|r| r.0).collect::<Vec<_>>());
    for (o, n) in po.iter().zip(&pn) {
        if o.0 == 53 {
            let wo = records_of(&o.1, 4);
            let wn = records_of(&n.1, 4);
            assert_eq!(wo.iter().map(|r| r.0).collect::<Vec<_>>(), wn.iter().map(|r| r.0).collect::<Vec<_>>());
            for (a, b) in wo.iter().zip(&wn) {
                if a.0 == 3 {
                    continue;
                }
                assert_eq!(a.1, b.1, "wrapper cid {} changed", a.0);
            }
        } else {
            assert_eq!(o.1, n.1, "record cid {} changed", o.0);
        }
    }
}

#[test]
fn patch_flp_rejects_empty_patch_list() {
    let buf = sample_flp();
    assert_eq!(patch_serum_metadata(&buf, &[]).unwrap_err(), "nothing to patch (empty patch list)");
}

// ---------------------------------------------------------------------------
// Bundle pieces

#[test]
fn serum2_filename_derivation() {
    assert_eq!(serum2_filename("/Library/Audio/Plug-Ins/VST3/Serum.vst3"), "/Library/Audio/Plug-Ins/VST3/Serum2.vst3");
    assert_eq!(serum2_filename("C:\\VST\\Serum_x64.dll"), "C:\\VST\\Serum2.vst3");
    assert_eq!(serum2_filename("Serum.vst3"), "Serum2.vst3");
    assert_eq!(serum2_filename("  /a/b/Serum.vst3  "), "/a/b/Serum2.vst3");
}

#[test]
fn json_field_readers() {
    let j = "{\"hash\":\"abc\",\"productVersion\":\"2.0.22\",\"version\": 8.0 }";
    assert_eq!(json_string_field(j, "productVersion").as_deref(), Some("2.0.22"));
    assert_eq!(json_string_field(j, "hash").as_deref(), Some("abc"));
    assert_eq!(json_string_field(j, "missing"), None);
    assert_eq!(json_raw_field(j, "version").as_deref(), Some("8.0"));
    assert_eq!(json_raw_field("{\"a\":1,\"b\":2}", "a").as_deref(), Some("1"));
    assert_eq!(json_raw_field("{\"a\":tail", "a").as_deref(), Some("tail"));
    assert_eq!(json_raw_field(j, "nope"), None);
}

#[test]
fn wrap_controller_patches_preset_metadata() {
    let frame = zstd::bulk::compress(&[0xA0u8; 64], 3).unwrap();
    let header = controller_json_header(&md5_hex(&frame), "Old", "Old Author", "Old Cat", "2.0.22", "8.0");
    let template = wrap_controller_frame(header, &frame, 64, 2);
    let preset = parse_preset(&s1_cid3()).unwrap();
    let rec = wrap_controller_record(&template, &preset).unwrap();
    let (json, uncomp, format, foff) = parse_xfer_json(&rec).unwrap();
    assert!(json.contains("TestPreset"), "{json}");
    assert!(!json.contains("Old Author"), "{json}");
    assert_eq!(format, 2);
    assert_eq!(uncomp, 64);
    let (_, _, _, t_foff) = parse_xfer_json(&template).unwrap();
    assert_eq!(&rec[foff..], &template[t_foff..]);
    assert!(json.contains(&format!("\"hash\":\"{}\"", md5_hex(&template[t_foff..]))));
    assert!(json.contains("\"productVersion\":\"2.0.22\""), "{json}");
    assert!(json.contains("\"version\":8.0"), "{json}");
}

#[test]
fn wrap_controller_rejects_non_xferjson_template() {
    let preset = parse_preset(&s1_cid3()).unwrap();
    assert!(wrap_controller_record(b"not a record at all", &preset).is_err());
}

#[test]
fn patch_without_serum_instances_keeps_the_file() {
    let buf = build_flp(&[(EV_NEW_CHANNEL, vec![0, 0]), (EV_TEXT_CHANNEL_NAME, utf16_name("Drums")), (128, vec![1, 2, 3, 4])]);
    let (out, rep) = patch_serum_metadata(&buf, &[PatchField::Name("X".into())]).unwrap();
    assert!(rep.patched.is_empty());
    assert!(rep.warnings.is_empty());
    assert_eq!(out, buf);
}

#[test]
fn fx_instance_is_left_untouched_by_patch_with_a_warning() {
    let buf = build_flp(&[
        (EV_NEW_CHANNEL, vec![3, 0]),
        (EV_PLUGIN_PARAMS, serum1_payload("Serum FX", "/Library/Audio/Plug-Ins/VST3/Serum FX.vst3")),
    ]);
    let (out, rep) = patch_serum_metadata(&buf, &[PatchField::Author("A".into())]).unwrap();
    assert!(rep.patched.is_empty());
    assert_eq!(rep.warnings.len(), 1);
    assert!(rep.warnings[0].contains("left untouched"), "{:?}", rep.warnings);
    assert_eq!(out, buf);
}
