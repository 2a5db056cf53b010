use flp_extract_fxp::flp::{parse_events, parse_plugin_params, records};
use flp_extract_fxp::serum::{is_serum1_synth, is_serum_fx};
use flp_extract_fxp::fxp::{build_fxp, inflate_state, patch_metadata, validate_fxp, PatchField};
use flp_extract_fxp::scan::{
    format_bytes, hash_bytes, out_dir_name, sanitize_filename, scan_serum_instances, state_str, text,
};
use flp_extract_fxp::serum::{
    is_serum1, is_serum2, serum1_chunk_from_state, SourceKind, OFF_AUTHOR, OFF_CATEGORY,
    OFF_PRESET_NAME, OFF_VERSION_F32, SERUM1_STATE_SIZE,
};
use flp_extract_fxp::zip::{find_eocd, is_zip, u16le, u32le, unzip, unzip_flp_members, unzip_with_limit};
use flp_extract_fxp::zlibio::{inflate, split_chunk};
use std::io::Write;

// ---------------------------------------------------------------------------
// Helpers

fn zlib_stream(data: &[u8]) -> Vec<u8> {
    let mut e = flate2::write::ZlibEncoder::new(Vec::new(), flate2::Compression::new(1));
    e.write_all(data).unwrap();
    e.finish().unwrap()
}

fn build_flp(events: &[(u8, Vec<u8>)]) -> Vec<u8> {
    let mut dt = Vec::new();
    for (id, data) in events {
        dt.push(*id);
        if *id >= 192 {
            let mut len = data.len() as u32;
            loop {
                let b = (len & 0x7f) as u8;
                len >>= 7;
                if len == 0 {
                    dt.push(b);
                    break;
                }
                dt.push(b | 0x80);
            }
        } else {
            assert_eq!(
                data.len(),
                match id {
                    0..=63 => 1,
                    64..=127 => 2,
                    _ => 4,
                }
            );
        }
        dt.extend_from_slice(data);
    }
    let mut out = Vec::new();
    out.extend_from_slice(b"FLhd");
    out.extend_from_slice(&6u32.to_le_bytes());
    out.extend_from_slice(&[0, 0, 0x46, 0, 0x60, 0]);
    out.extend_from_slice(b"FLdt");
    out.extend_from_slice(&(dt.len() as u32).to_le_bytes());
    out.extend_from_slice(&dt);
    out
}

fn deflate_raw(data: &[u8]) -> Vec<u8> {
    let mut e = flate2::write::DeflateEncoder::new(Vec::new(), flate2::Compression::new(6));
    e.write_all(data).unwrap();
    e.finish().unwrap()
}

fn zip_archive(members: &[(&str, Vec<u8>)], deflate: bool) -> Vec<u8> {
    let mut out = Vec::new();
    let mut central = Vec::new();
    for (name, data) in members {
        let name = name.as_bytes();
        let (method, payload) = if deflate {
            (8u16, deflate_raw(data))
        } else {
            (0u16, data.clone())
        };
        let local_offset = out.len() as u32;
        out.extend_from_slice(&0x04034b50u32.to_le_bytes());
        out.extend_from_slice(&20u16.to_le_bytes());
        out.extend_from_slice(&0u16.to_le_bytes());
        out.extend_from_slice(&method.to_le_bytes());
        out.extend_from_slice(&0u16.to_le_bytes());
        out.extend_from_slice(&0u16.to_le_bytes());
        out.extend_from_slice(&0u32.to_le_bytes());
        out.extend_from_slice(&(payload.len() as u32).to_le_bytes());
        out.extend_from_slice(&(data.len() as u32).to_le_bytes());
        out.extend_from_slice(&(name.len() as u16).to_le_bytes());
        out.extend_from_slice(&0u16.to_le_bytes());
        out.extend_from_slice(name);
        out.extend_from_slice(&payload);
        central.extend_from_slice(&0x02014b50u32.to_le_bytes());
        central.extend_from_slice(&20u16.to_le_bytes());
        central.extend_from_slice(&20u16.to_le_bytes());
        central.extend_from_slice(&0u16.to_le_bytes());
        central.extend_from_slice(&method.to_le_bytes());
        central.extend_from_slice(&0u16.to_le_bytes());
        central.extend_from_slice(&0u16.to_le_bytes());
        central.extend_from_slice(&0u32.to_le_bytes());
        central.extend_from_slice(&(payload.len() as u32).to_le_bytes());
        central.extend_from_slice(&(data.len() as u32).to_le_bytes());
        central.extend_from_slice(&(name.len() as u16).to_le_bytes());
        central.extend_from_slice(&0u16.to_le_bytes());
        central.extend_from_slice(&0u16.to_le_bytes());
        central.extend_from_slice(&0u16.to_le_bytes());
        central.extend_from_slice(&0u16.to_le_bytes());
        central.extend_from_slice(&0u32.to_le_bytes());
        central.extend_from_slice(&local_offset.to_le_bytes());
        central.extend_from_slice(name);
    }
    let count = members.len() as u16;
    let cd_size = central.len() as u32;
    let cd_offset = out.len() as u32;
    out.extend_from_slice(&central);
    out.extend_from_slice(&0x06054b50u32.to_le_bytes());
    out.extend_from_slice(&0u16.to_le_bytes());
    out.extend_from_slice(&0u16.to_le_bytes());
    out.extend_from_slice(&count.to_le_bytes());
    out.extend_from_slice(&count.to_le_bytes());
    out.extend_from_slice(&cd_size.to_le_bytes());
    out.extend_from_slice(&cd_offset.to_le_bytes());
    out.extend_from_slice(&0u16.to_le_bytes());
    out
}

fn sample_chunk() -> Vec<u8> {
    let mut s0 = vec![0u8; SERUM1_STATE_SIZE];
    s0[OFF_VERSION_F32..OFF_VERSION_F32 + 4].copy_from_slice(&0.1631f32.to_le_bytes());
    s0[OFF_PRESET_NAME..OFF_PRESET_NAME + 4].copy_from_slice(b"abc\0");
    let z0 = zlib_stream(&s0);
    let z1 = zlib_stream(&vec![0u8; 16384]);
    let mut chunk = z0.clone();
    chunk.extend_from_slice(&z1);
    chunk.extend_from_slice(&(z0.len() as u32).to_le_bytes());
    chunk
}

fn synthetic_state() -> Vec<u8> {
    let mut s0 = vec![0u8; SERUM1_STATE_SIZE];
    s0[OFF_PRESET_NAME..OFF_PRESET_NAME + 5].copy_from_slice(b"Test\0");
    s0[OFF_VERSION_F32..OFF_VERSION_F32 + 4].copy_from_slice(&0.1631f32.to_le_bytes());
    let z0 = zlib_stream(&s0);
    let z1 = zlib_stream(&vec![0u8; 2048 * 4]);
    let mut out = Vec::new();
    out.extend_from_slice(&z0);
    out.extend_from_slice(&z1);
    out.extend_from_slice(&(z0.len() as u32).to_le_bytes());
    out
}

fn patched(mut fxp: Vec<u8>, patches: &[PatchField]) -> Vec<u8> {
    patch_metadata(&mut fxp, patches).expect("patch_metadata");
    fxp
}

fn state_name(state: &[u8]) -> String {
    String::from_utf8_lossy(&state[OFF_PRESET_NAME..OFF_PRESET_NAME + 32])
        .trim_end_matches('\0')
        .to_string()
}

fn prg_name(fxp: &[u8]) -> String {
    String::from_utf8_lossy(&fxp[0x1C..0x38])
        .trim_end_matches('\0')
        .to_string()
}

// ---------------------------------------------------------------------------
// scan helpers

#[test]
fn sanitizes_filenames() {
    assert_eq!(sanitize_filename("a/b:c*d?"), "a_b_c_d_");
    assert_eq!(sanitize_filename("  ..name.. "), "name");
    assert_eq!(sanitize_filename("..."), "Untitled");
    assert_eq!(sanitize_filename("\u{1}ok"), "_ok");
}

#[test]
fn decodes_utf16le_and_utf8_text() {
    let utf16: Vec<u8> = "Ab".encode_utf16().flat_map(u16::to_le_bytes).collect();
    assert_eq!(text(&utf16), "Ab");
    assert_eq!(text(b"plain\0"), "plain");
    assert_eq!(text(b""), "");
}

#[test]
fn content_hash_is_stable() {
    assert_eq!(hash_bytes(b"abc"), hash_bytes(b"abc"));
    assert_ne!(hash_bytes(b"abc"), hash_bytes(b"abd"));
}

#[test]
fn sanitize_caps_length_at_80() {
    let long = "x".repeat(200);
    assert_eq!(sanitize_filename(&long), "x".repeat(80));
}

#[test]
fn format_bytes_matches_float_formatting() {
    assert_eq!(format_bytes(512), "512 B");
    assert_eq!(format_bytes(172736), format!("{:.1} KiB", 172736f64 / 1024.0));
    assert_eq!(format_bytes(1536), format!("{:.1} KiB", 1536f64 / 1024.0));
    let m = 5 * 1024 * 1024 + 123_456;
    assert_eq!(format_bytes(m), format!("{:.1} MiB", m as f64 / (1024.0 * 1024.0)));
}

#[test]
fn out_dir_name_has_suffix() {
    assert_eq!(out_dir_name(Some("song")), "song_serum_fxp");
    assert_eq!(out_dir_name(Some("a/b")), "a_b_serum_fxp");
    assert_eq!(out_dir_name(None), "output_serum_fxp");
}

#[test]
fn state_str_trims_nuls_and_clamps() {
    let mut st = vec![0u8; 64];
    st[10..16].copy_from_slice(b" Lead ");
    assert_eq!(state_str(&st, 10, 32), "Lead");
    assert_eq!(state_str(&st, 60, 32), "");
}

// ---------------------------------------------------------------------------
// flp

#[test]
fn parses_event_framing() {
    let flp = build_flp(&[
        (9, vec![1]),
        (64, vec![3, 0]),
        (128, vec![0xAA, 0xBB, 0xCC, 0xDD]),
        (203, b"Channel 1\0".to_vec()),
    ]);
    let evs = parse_events(&flp).unwrap();
    assert_eq!(evs.len(), 4);
    assert_eq!(evs[0].id, 9);
    assert_eq!(evs[0].data, &[1]);
    assert_eq!(evs[1].data, &[3, 0]);
    assert_eq!(evs[2].data, &[0xAA, 0xBB, 0xCC, 0xDD]);
    assert_eq!(evs[3].id, 203);
    assert_eq!(evs[3].data, b"Channel 1\0");
}

#[test]
fn parses_long_varint() {
    let mut flp_body = Vec::new();
    flp_body.push(199);
    flp_body.extend_from_slice(&[0xFF, 0xFF, 0x0F]);
    flp_body.extend_from_slice(&vec![0u8; 0x3FFFF]);
    let mut flp = Vec::new();
    flp.extend_from_slice(b"FLhd");
    flp.extend_from_slice(&6u32.to_le_bytes());
    flp.extend_from_slice(&[0, 0, 0x46, 0, 0x60, 0]);
    flp.extend_from_slice(b"FLdt");
    flp.extend_from_slice(&(flp_body.len() as u32).to_le_bytes());
    flp.extend_from_slice(&flp_body);
    let evs = parse_events(&flp).unwrap();
    assert_eq!(evs.len(), 1);
    assert_eq!(evs[0].data.len(), 0x3FFFF);
}

#[test]
fn rejects_zip() {
    assert!(parse_events(b"PK\x03\x04xxxxxxxx").is_err());
}

#[test]
fn parses_plugin_params_chunks() {
    let mut data = Vec::new();
    data.extend_from_slice(&12u32.to_le_bytes());
    let add = |d: &mut Vec<u8>, cid: u32, payload: &[u8]| {
        d.extend_from_slice(&cid.to_le_bytes());
        d.extend_from_slice(&(payload.len() as u32).to_le_bytes());
        d.extend_from_slice(&0u32.to_le_bytes());
        d.extend_from_slice(payload);
    };
    add(&mut data, 54, b"Serum");
    add(&mut data, 55, b"/Library/Audio/Plug-Ins/VST3/Serum.vst3");
    add(&mut data, 53, &[0x78, 0x01, 0x00, 0x00, 0x00, 0x02]);
    let pp = parse_plugin_params(&data).unwrap();
    assert_eq!(pp.name, b"Serum");
    assert_eq!(pp.filename, b"/Library/Audio/Plug-Ins/VST3/Serum.vst3");
    assert_eq!(pp.state, &[0x78, 0x01, 0x00, 0x00, 0x00, 0x02]);
}

#[test]
fn scan_finds_serum_instance_on_named_channel() {
    let state = synthetic_state();
    let mut pp = Vec::new();
    pp.extend_from_slice(&12u32.to_le_bytes());
    for (cid, payload) in [
        (54u32, b"Serum".to_vec()),
        (55u32, b"/Library/Audio/Plug-Ins/VST3/Serum.vst3".to_vec()),
        (53u32, state.clone()),
    ] {
        pp.extend_from_slice(&cid.to_le_bytes());
        pp.extend_from_slice(&(payload.len() as u64).to_le_bytes());
        pp.extend_from_slice(&payload);
    }
    let flp = build_flp(&[(64, vec![3, 0]), (203, b"Lead\0".to_vec()), (213, pp)]);
    let (instances, stats) = scan_serum_instances(&flp).unwrap();
    assert_eq!(instances.len(), 1);
    assert_eq!(instances[0].channel, Some(3));
    assert_eq!(instances[0].channel_name, "Lead");
    assert_eq!(instances[0].chunk.meta.preset_name, "Test");
    assert_eq!(stats.serum2_count, 0);
}

// ---------------------------------------------------------------------------
// fxp

#[test]
fn header_layout_is_exact() {
    let chunk = sample_chunk();
    let fxp = build_fxp(&chunk, "Hello");
    assert_eq!(&fxp[0..4], b"CcnK");
    assert_eq!(u32::from_be_bytes(fxp[4..8].try_into().unwrap()) as usize, fxp.len());
    assert_eq!(&fxp[8..12], b"FPCh");
    assert_eq!(u32::from_be_bytes(fxp[12..16].try_into().unwrap()), 1);
    assert_eq!(&fxp[16..20], b"XfsX");
    assert_eq!(u32::from_be_bytes(fxp[20..24].try_into().unwrap()), 1);
    assert_eq!(u32::from_be_bytes(fxp[24..28].try_into().unwrap()), 1);
    assert_eq!(&fxp[28..35], b"Hello\0\0");
    assert_eq!(u32::from_be_bytes(fxp[0x38..0x3C].try_into().unwrap()) as usize, chunk.len());
    assert_eq!(&fxp[0x3C..], &chunk[..]);
}

#[test]
fn built_file_passes_serum2_rules() {
    let fxp = build_fxp(&sample_chunk(), "Test");
    let r = validate_fxp(&fxp);
    assert!(r.is_ok(), "issues: {:?}", r.issues);
    assert_eq!(r.warnings().len(), 0);
}

#[test]
fn detects_broken_magic() {
    let mut fxp = build_fxp(&sample_chunk(), "Test");
    fxp[0x10] = b'Z';
    assert!(!validate_fxp(&fxp).is_ok());
    fxp[0] = b'X';
    assert!(!validate_fxp(&fxp).is_ok());
}

#[test]
fn rejects_oversized_state() {
    let big = vec![0u8; SERUM1_STATE_SIZE + 4];
    let z0 = zlib_stream(&big);
    let mut chunk = z0.clone();
    chunk.extend_from_slice(&(z0.len() as u32).to_le_bytes());
    let fxp = build_fxp(&chunk, "Big");
    assert!(!validate_fxp(&fxp).is_ok());
}

#[test]
fn rejects_bad_trailer() {
    let chunk = sample_chunk();
    let mut bad = chunk.clone();
    let last = bad.len() - 4;
    bad[last..last + 4].copy_from_slice(&0xDEAD_BEEFu32.to_le_bytes());
    let fxp = build_fxp(&bad, "Bad");
    let r = validate_fxp(&fxp);
    assert!(!r.is_ok() || r.warnings().len() > 0);
}

#[test]
fn version_out_of_range_is_fatal() {
    let mut s0 = vec![0u8; SERUM1_STATE_SIZE];
    s0[OFF_VERSION_F32..OFF_VERSION_F32 + 4].copy_from_slice(&2.0f32.to_le_bytes());
    let z0 = zlib_stream(&s0);
    let mut chunk = z0.clone();
    chunk.extend_from_slice(&(z0.len() as u32).to_le_bytes());
    let fxp = build_fxp(&chunk, "Future");
    assert!(!validate_fxp(&fxp).is_ok());
}

#[test]
fn version_range_bounds_match_float_constants() {
    // The validator compares version bit patterns; its bounds are the bit
    // patterns of these floats.
    let build = |v: f32| {
        let mut s0 = vec![0u8; SERUM1_STATE_SIZE];
        s0[OFF_VERSION_F32..OFF_VERSION_F32 + 4].copy_from_slice(&v.to_le_bytes());
        let z0 = zlib_stream(&s0);
        let mut chunk = z0.clone();
        chunk.extend_from_slice(&(z0.len() as u32).to_le_bytes());
        build_fxp(&chunk, "V")
    };
    assert!(validate_fxp(&build(0.002)).is_ok());
    assert!(validate_fxp(&build(0.999)).is_ok());
    assert!(!validate_fxp(&build(f32::from_bits(0.002f32.to_bits() - 1))).is_ok());
    assert!(!validate_fxp(&build(f32::from_bits(0.999f32.to_bits() + 1))).is_ok());
    // Old-patch warnings below 0.009 and 0.149.
    assert_eq!(validate_fxp(&build(0.005)).warnings().len(), 1);
    assert_eq!(validate_fxp(&build(0.1)).warnings().len(), 1);
    assert_eq!(validate_fxp(&build(0.1631)).warnings().len(), 0);
}

#[test]
fn patch_name_updates_header_state_and_sizes() {
    let original = build_fxp(&sample_chunk(), "Old");
    let out = patched(original.clone(), &[PatchField::Name("Renamed".into())]);
    assert_eq!(prg_name(&out), "Renamed");
    assert_eq!(&out[0x08..0x1C], &original[0x08..0x1C]);
    let (state, consumed) = inflate_state(&out).unwrap();
    assert_eq!(state_name(&state), "Renamed");
    let v = u32::from_be_bytes(out[0x38..0x3C].try_into().unwrap()) as usize;
    let n = u32::from_le_bytes(out[0x38 + v..0x38 + v + 4].try_into().unwrap()) as usize;
    assert_eq!(n, consumed);
    assert_eq!(0x3C + v, out.len());
    assert_eq!(v, out.len() - 0x3C);
    assert_eq!(u32::from_be_bytes(out[4..8].try_into().unwrap()) as usize, out.len());
    assert_eq!(out[0x3C], 0x78);
    assert_eq!(out[0x3D], 0x01);
    let r = validate_fxp(&out);
    assert!(r.is_ok(), "issues: {:?}", r.issues);
    assert_eq!(r.warnings().len(), 0);
}

#[test]
fn patch_author_category_only_touches_state_fields() {
    let original = build_fxp(&sample_chunk(), "KeepMe");
    let (old_state, _) = inflate_state(&original).unwrap();
    let out = patched(
        original.clone(),
        &[PatchField::Author("Jane Doe".into()), PatchField::Category("Bass".into())],
    );
    assert_eq!(prg_name(&out), "KeepMe");
    assert_eq!(&out[0x08..0x38], &original[0x08..0x38]);
    assert_eq!(u32::from_be_bytes(out[4..8].try_into().unwrap()) as usize, out.len());
    let (state, _) = inflate_state(&out).unwrap();
    let author = &state[OFF_AUTHOR..OFF_AUTHOR + 48];
    let cat = &state[OFF_CATEGORY..OFF_CATEGORY + 48];
    assert_eq!(String::from_utf8_lossy(author).trim_end_matches('\0'), "Jane Doe");
    assert_eq!(String::from_utf8_lossy(cat).trim_end_matches('\0'), "Bass");
    assert_eq!(state_name(&state), "abc");
    assert_eq!(state.len(), old_state.len());
    for i in 0..state.len() {
        let in_author = (OFF_AUTHOR..OFF_AUTHOR + 48).contains(&i);
        let in_cat = (OFF_CATEGORY..OFF_CATEGORY + 48).contains(&i);
        if !in_author && !in_cat {
            assert_eq!(state[i], old_state[i], "byte {i} changed unexpectedly");
        }
    }
}

#[test]
fn patch_name_keeps_other_state_bytes_identical() {
    let original = build_fxp(&sample_chunk(), "abc");
    let (old_state, _) = inflate_state(&original).unwrap();
    let out = patched(original, &[PatchField::Name("Totally New".into())]);
    let (state, _) = inflate_state(&out).unwrap();
    assert_eq!(state.len(), old_state.len());
    for i in 0..state.len() {
        let in_name = (OFF_PRESET_NAME..OFF_PRESET_NAME + 32).contains(&i);
        if !in_name {
            assert_eq!(state[i], old_state[i], "byte {i} changed unexpectedly");
        }
    }
    assert_eq!(&state[OFF_VERSION_F32..OFF_VERSION_F32 + 4], &0.1631f32.to_le_bytes());
}

#[test]
fn patch_truncates_utf8_on_char_boundary() {
    let name = "é".repeat(30);
    let out = patched(build_fxp(&sample_chunk(), "x"), &[PatchField::Name(name)]);
    let hdr = &out[0x1C..0x38];
    assert_eq!(hdr[26], 0, "header field must end at the boundary");
    assert_eq!(String::from_utf8_lossy(&hdr[..26]), "é".repeat(13), "header");
    let (state, _) = inflate_state(&out).unwrap();
    let field = &state[OFF_PRESET_NAME..OFF_PRESET_NAME + 32];
    assert_eq!(field[30], 0, "state field must end at the boundary");
    assert_eq!(String::from_utf8_lossy(&field[..30]), "é".repeat(15), "state");
    assert!(validate_fxp(&out).is_ok());
}

#[test]
fn patch_long_name_fits_header_and_state() {
    let name = "a".repeat(27);
    let out = patched(build_fxp(&sample_chunk(), "x"), &[PatchField::Name(name.clone())]);
    assert_eq!(prg_name(&out), name);
    let (state, _) = inflate_state(&out).unwrap();
    assert_eq!(state_name(&state), name);
}

#[test]
fn patch_all_fields_at_once() {
    let out = patched(
        build_fxp(&sample_chunk(), "Old"),
        &[
            PatchField::Name("New".into()),
            PatchField::Author("Auth".into()),
            PatchField::Category("Cat".into()),
        ],
    );
    assert_eq!(prg_name(&out), "New");
    let (state, _) = inflate_state(&out).unwrap();
    assert_eq!(state_name(&state), "New");
    assert_eq!(
        String::from_utf8_lossy(&state[OFF_AUTHOR..OFF_AUTHOR + 48]).trim_end_matches('\0'),
        "Auth"
    );
    assert_eq!(
        String::from_utf8_lossy(&state[OFF_CATEGORY..OFF_CATEGORY + 48]).trim_end_matches('\0'),
        "Cat"
    );
    let r = validate_fxp(&out);
    assert!(r.is_ok(), "issues: {:?}", r.issues);
}

#[test]
fn patch_rejects_malformed_containers() {
    let good = build_fxp(&sample_chunk(), "x");
    let patches = [PatchField::Name("N".into())];
    let mut bad = b"garbagegarbagegarbagegarbagegarbagegarbagegarbage".to_vec();
    bad.extend_from_slice(&good[50..]);
    assert!(patch_metadata(&mut bad, &patches).is_err());
    let mut short = good.clone();
    short.truncate(30);
    assert!(patch_metadata(&mut short, &patches).is_err());
    let mut over = good.clone();
    over[0x38..0x3C].copy_from_slice(&0xFFFF_0000u32.to_be_bytes());
    assert!(patch_metadata(&mut over, &patches).is_err());
    let mut corrupt = good.clone();
    corrupt[0x3C] = b'Z';
    assert!(patch_metadata(&mut corrupt, &patches).is_err());
    let mut lying = good;
    let v = u32::from_be_bytes(lying[0x38..0x3C].try_into().unwrap()) as usize;
    let n = u32::from_le_bytes(lying[0x38 + v..0x38 + v + 4].try_into().unwrap());
    lying[0x38 + v..0x38 + v + 4].copy_from_slice(&(n / 2).to_le_bytes());
    assert!(patch_metadata(&mut lying, &patches).is_err());
}

#[test]
fn patch_noop_when_no_patches() {
    let original = build_fxp(&sample_chunk(), "Same");
    let mut copy = original.clone();
    patch_metadata(&mut copy, &[]).unwrap();
    assert_eq!(copy, original);
}

#[test]
fn last_name_patch_wins() {
    let out = patched(
        build_fxp(&sample_chunk(), "Old"),
        &[PatchField::Name("First".into()), PatchField::Name("Second".into())],
    );
    assert_eq!(prg_name(&out), "Second");
    let (state, _) = inflate_state(&out).unwrap();
    assert_eq!(state_name(&state), "Second");
}

// ---------------------------------------------------------------------------
// zlib

#[test]
fn inflate_reports_consumed_and_rejects_non_zlib() {
    let z = zlib_stream(b"hello world");
    let mut data = z.clone();
    data.extend_from_slice(b"tail");
    let (out, consumed) = inflate(&data, 1 << 20).unwrap();
    assert_eq!(out, b"hello world");
    assert_eq!(consumed, z.len());
    assert!(inflate(b"nope", 1 << 20).is_err());
    assert_eq!(
        inflate(&z, 4).unwrap_err(),
        "decompressed stream exceeds sanity limit"
    );
}

#[test]
fn split_chunk_checks_trailer() {
    let chunk = sample_chunk();
    let (streams, trailer) = split_chunk(&chunk).unwrap();
    assert_eq!(streams.len(), 2);
    assert_eq!(streams[0].len(), SERUM1_STATE_SIZE);
    assert_eq!(streams[1].len(), 16384);
    assert!(trailer);
    let (_, trailer) = split_chunk(&chunk[..chunk.len() - 4]).unwrap();
    assert!(!trailer);
    assert!(split_chunk(b"short").is_err());
}

// ---------------------------------------------------------------------------
// serum

#[test]
fn extracts_from_raw_zlib() {
    let state = synthetic_state();
    let c = serum1_chunk_from_state(&state).unwrap();
    assert_eq!(c.source, SourceKind::RawZlib);
    assert_eq!(c.stream_sizes, vec![SERUM1_STATE_SIZE, 8192]);
    assert_eq!(c.meta.preset_name, "Test");
    assert!((f32::from_bits(c.meta.version_f32_bits) - 0.1631).abs() < 1e-6);
}

#[test]
fn extracts_from_fl_vst3_wrapper() {
    let cid3 = synthetic_state();
    let mut state = Vec::new();
    state.extend_from_slice(&[1, 0, 0, 0]);
    state.extend_from_slice(&1u32.to_le_bytes());
    state.extend_from_slice(&64u64.to_le_bytes());
    state.extend_from_slice(&[0u8; 64]);
    state.extend_from_slice(&3u32.to_le_bytes());
    state.extend_from_slice(&(cid3.len() as u64).to_le_bytes());
    state.extend_from_slice(&cid3);
    state.extend_from_slice(&4u32.to_le_bytes());
    state.extend_from_slice(&8u64.to_le_bytes());
    state.extend_from_slice(&[0u8; 8]);
    let c = serum1_chunk_from_state(&state).unwrap();
    assert_eq!(c.source, SourceKind::FlVst3Wrapper);
    assert_eq!(c.chunk, cid3);
    assert_eq!(c.meta.preset_name, "Test");
}

#[test]
fn detects_serum2_xferjson() {
    let mut cid3 = b"XferJson\0".to_vec();
    cid3.extend_from_slice(&[0u8; 32]);
    let mut state = Vec::new();
    state.extend_from_slice(&[1, 0, 0, 0]);
    state.extend_from_slice(&1u32.to_le_bytes());
    state.extend_from_slice(&64u64.to_le_bytes());
    state.extend_from_slice(&[0u8; 64]);
    state.extend_from_slice(&3u32.to_le_bytes());
    state.extend_from_slice(&(cid3.len() as u64).to_le_bytes());
    state.extend_from_slice(&cid3);
    assert!(serum1_chunk_from_state(&state).is_err());
}

#[test]
fn repairs_missing_trailer() {
    let state = synthetic_state();
    let mut truncated = state.clone();
    truncated.truncate(state.len() - 4);
    let c = serum1_chunk_from_state(&truncated).unwrap();
    assert_eq!(c.chunk, state);
}

#[test]
fn plugin_detection() {
    assert!(is_serum1(b"Serum", b"/Library/Audio/Plug-Ins/VST3/Serum.vst3"));
    assert!(is_serum1(b"Serum", b"C:\\VST\\Serum_x64.dll"));
    assert!(is_serum1(b"Serum FX", b"/Library/Audio/Plug-Ins/VST3/Serum FX.vst3"));
    assert!(!is_serum1(b"Serum2", b"/Library/Audio/Plug-Ins/VST3/Serum2.vst3"));
    assert!(!is_serum1(b"Serum 2", b""));
    assert!(!is_serum1(b"Vital", b"/Vital.vst3"));
    assert!(is_serum2(b"Serum2", b"/Serum2.vst3"));
    assert!(!is_serum2(b"Serum", b"/Serum.vst3"));
}

// ---------------------------------------------------------------------------
// zip

#[test]
fn detects_zip_prefix() {
    assert!(is_zip(b"PK\x03\x04rest"));
    assert!(is_zip(b"PK\x05\x06"));
    assert!(!is_zip(b"FLhd...."));
    assert!(is_zip(b"PK"));
}

#[test]
fn unpacks_stored_and_deflated_members() {
    let members = vec![
        ("one.flp", vec![1u8, 2, 3, 4, 5]),
        ("two.txt", b"hello hello hello hello".to_vec()),
        ("THREE.FLP", vec![9u8; 4096]),
    ];
    let archive = zip_archive(&members, false);
    let all = unzip(&archive).unwrap();
    assert_eq!(all.len(), 3);
    assert_eq!(all[0].name, "one.flp");
    assert_eq!(all[0].data, vec![1, 2, 3, 4, 5]);
    assert_eq!(all[1].name, "two.txt");
    assert_eq!(all[2].data, vec![9u8; 4096]);
    let flps = unzip_flp_members(&archive).unwrap();
    assert_eq!(
        flps.iter().map(|m| m.name.as_str()).collect::<Vec<_>>(),
        vec!["one.flp", "THREE.FLP"]
    );
    assert_eq!(flps[1].data, vec![9u8; 4096]);
}

#[test]
fn deflated_members_round_trip() {
    let members = vec![("a.flp", b"abcabcabcabcabc".to_vec()), ("b.flp", vec![7u8; 10000])];
    let archive = zip_archive(&members, true);
    let all = unzip(&archive).unwrap();
    assert_eq!(all.len(), 2);
    assert_eq!(all[0].data, b"abcabcabcabcabc");
    assert_eq!(all[1].data, vec![7u8; 10000]);
}

#[test]
fn rejects_encrypted_member() {
    let archive = zip_archive(&[("secret.flp", vec![1, 2, 3])], false);
    let mut patched = archive.clone();
    let cd = find_eocd(&patched).unwrap();
    let cd_offset = u32le(&patched, cd + 16).unwrap() as usize;
    let flags = u16le(&patched, cd_offset + 8).unwrap() | 0x0001;
    patched[cd_offset + 8..cd_offset + 10].copy_from_slice(&flags.to_le_bytes());
    let err = unzip(&patched).unwrap_err();
    assert!(err.contains("encrypted"), "{err}");
    let mut patched2 = archive;
    patched2[cd_offset + 8..cd_offset + 10].copy_from_slice(&(flags | 0x0040).to_le_bytes());
    let err = unzip(&patched2).unwrap_err();
    assert!(err.contains("encrypted"), "{err}");
}

#[test]
fn rejects_zip64_markers() {
    let archive = zip_archive(&[("a.flp", vec![1])], false);
    let eocd = find_eocd(&archive).unwrap();
    let mut patched = archive.clone();
    patched[eocd + 10..eocd + 12].copy_from_slice(&0xFFFFu16.to_le_bytes());
    let err = unzip(&patched).unwrap_err();
    assert!(err.contains("Zip64"), "{err}");
    let mut patched2 = archive;
    patched2[eocd + 16..eocd + 20].copy_from_slice(&0xFFFFFFFFu32.to_le_bytes());
    let err = unzip(&patched2).unwrap_err();
    assert!(err.contains("Zip64"), "{err}");
}

#[test]
fn rejects_truncated_and_non_zip_input() {
    let archive = zip_archive(&[("a.flp", vec![1, 2, 3])], false);
    let err = unzip(&archive[..archive.len() - 10]).unwrap_err();
    assert!(!err.is_empty());
    assert!(unzip(b"not a zip at all...........").is_err());
    assert!(unzip(b"PK").is_err());
}

#[test]
fn wrong_extension_only_yields_no_flp_members() {
    let archive = zip_archive(&[("readme.txt", b"x".to_vec()), ("nested.zip", b"PK".to_vec())], true);
    let members = unzip_flp_members(&archive).unwrap();
    assert!(members.is_empty());
    assert_eq!(unzip(&archive).unwrap().len(), 2);
}

#[test]
fn oversized_archive_is_rejected_before_inflating() {
    let archive = zip_archive(&[("bomb.flp", vec![0u8; 64])], true);
    let eocd = find_eocd(&archive).unwrap();
    let cd_offset = u32le(&archive, eocd + 16).unwrap() as usize;
    let mut patched = archive.clone();
    let big = (2u64 * 1024 * 1024 * 1024) as u32;
    patched[cd_offset + 24..cd_offset + 28].copy_from_slice(&big.to_le_bytes());
    let err = unzip(&patched).unwrap_err();
    assert!(err.contains("sanity limit"), "{err}");
}

#[test]
fn oversized_stream_is_rejected_while_inflating() {
    let mut archive = zip_archive(&[("bomb.flp", vec![0u8; 4096])], true);
    let eocd = find_eocd(&archive).unwrap();
    let cd_offset = u32le(&archive, eocd + 16).unwrap() as usize;
    let small = 16u32;
    archive[cd_offset + 24..cd_offset + 28].copy_from_slice(&small.to_le_bytes());
    let lfh = u32le(&archive, cd_offset + 42).unwrap() as usize;
    archive[lfh + 22..lfh + 26].copy_from_slice(&small.to_le_bytes());
    let err = unzip_with_limit(&archive, 1024).unwrap_err();
    assert!(err.contains("more bytes than declared"), "{err}");
}

#[test]
fn handles_archive_comment_and_empty_archive() {
    let archive = zip_archive(&[], false);
    assert!(unzip(&archive).unwrap().is_empty());
    let mut with_comment = zip_archive(&[("a.flp", vec![1])], false);
    with_comment.extend_from_slice(b"FL Studio loop package");
    let before = unzip(&with_comment).unwrap().len();
    let eocd = find_eocd(&with_comment).unwrap();
    let comment_len = (with_comment.len() - eocd - 22) as u16;
    with_comment[eocd + 20..eocd + 22].copy_from_slice(&comment_len.to_le_bytes());
    assert_eq!(unzip(&with_comment).unwrap().len(), before);
}

#[test]
fn flp_inputs_unpacks_flp_members_of_a_loop_package() {
    for deflate in [false, true] {
        let archive = zip_archive(
            &[("song.flp", b"FLhd-song".to_vec()), ("docs/readme.txt", b"text".to_vec()), ("copy/SONG.FLP", b"FLhd-copy".to_vec())],
            deflate,
        );
        let docs = flp_extract_fxp::zip::flp_inputs("pack.zip", &archive).unwrap();
        assert_eq!(docs.len(), 2);
        assert_eq!(docs[0].name, "pack.zip#song.flp");
        assert_eq!(docs[0].data, b"FLhd-song".to_vec());
        assert!(docs[0].from_archive);
        assert_eq!(docs[1].name, "pack.zip#copy/SONG.FLP");
        let none = zip_archive(&[("readme.txt", b"no project here".to_vec())], deflate);
        let err = flp_extract_fxp::zip::flp_inputs("pack.zip", &none).unwrap_err();
        assert!(err.contains("without any .flp member"), "{err}");
    }
}

#[test]
fn state_str_stops_at_the_first_nul() {
    assert_eq!(state_str(b"ab\0cd", 0, 5), "ab");
    assert_eq!(state_str(b" x \0\0", 0, 5), "x");
}

#[test]
fn record_walk_stops_before_an_overrunning_record() {
    let mut buf = Vec::new();
    buf.extend_from_slice(&7u32.to_le_bytes());
    buf.extend_from_slice(&3u64.to_le_bytes());
    buf.extend_from_slice(b"abc");
    buf.extend_from_slice(&8u32.to_le_bytes());
    buf.extend_from_slice(&100u64.to_le_bytes());
    buf.extend_from_slice(b"xy");
    let mut it = records(&buf).unwrap();
    let first = it.next().unwrap();
    assert_eq!(first.0, 7);
    assert_eq!(first.1, b"abc");
    assert!(it.next().is_none());
    assert!(it.overran());
    assert_eq!(it.pos(), 15);
    assert!(it.next().is_none());
    assert_eq!(it.pos(), 15);
}

#[test]
fn plugin_kinds_do_not_overlap() {
    assert!(is_serum2(b"Serum", b"C:/VST/Serum2_x64.dll"));
    assert!(!is_serum1(b"Serum", b"C:/VST/Serum2_x64.dll"));
    assert!(is_serum_fx(b"Serum", b"/Serum FX.vst3"));
    assert!(is_serum1(b"Serum", b"/Serum FX.vst3"));
    assert!(!is_serum1_synth(b"Serum", b"/Serum FX.vst3"));
    assert!(is_serum1_synth(b"Serum", b"/Serum_x64.dll"));
    assert!(is_serum1(b"Serum", b"/Serum_x64.dll"));
}

#[test]
fn seen_hashes_flags_repeats_only() {
    let mut seen = flp_extract_fxp::scan::SeenHashes::new();
    assert_eq!(seen.insert(7, "a.flp", 1), None);
    assert_eq!(seen.insert(9, "a.flp", 2), None);
    assert_eq!(seen.insert(7, "b.flp", 1), Some(("a.flp".to_string(), 1)));
    assert_eq!(seen.insert(9, "b.flp", 3), Some(("a.flp".to_string(), 2)));
    assert_eq!(seen.insert(0, "b.flp", 4), None);
    assert_eq!(seen.insert(0, "c.flp", 1), Some(("b.flp".to_string(), 4)));
}

#[test]
fn inflate_cap_and_corruption_are_told_apart() {
    let data: Vec<u8> = (0..200_000u32).map(|i| (i * 7 % 251) as u8).collect();
    let z = zlib_stream(&data);
    let (out, used) = inflate(&z, data.len()).unwrap();
    assert_eq!(out, data);
    assert_eq!(used, z.len());
    assert_eq!(inflate(&z, data.len() - 1).unwrap_err(), "decompressed stream exceeds sanity limit");
    let mut bad = z.clone();
    let n = bad.len();
    bad[n - 1] ^= 0xFF;
    let err = inflate(&bad, data.len()).unwrap_err();
    assert!(err.starts_with("zlib error: "), "{err}");
}
