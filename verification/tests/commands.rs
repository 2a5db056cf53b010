use flp_extract_fxp::commands::{
    extract_entry, is_flp_header, patch_fields, preset_entry, source_name, state_preset_name,
    validate_input_report, validate_named,
};
use flp_extract_fxp::fxp::{build_fxp, validate_chunk_report, validate_fxp, PatchField};
use flp_extract_fxp::naming::{archive_output_name, member_part, render_name_template, UsedNames};
use flp_extract_fxp::report::ExtractStatus;
use flp_extract_fxp::scan::Instance;
use flp_extract_fxp::serum::{
    PresetMeta, Serum1Chunk, SourceKind, OFF_PRESET_NAME, OFF_VERSION_F32, SERUM1_STATE_SIZE,
};
use std::io::Write;

fn zlib_stream(data: &[u8]) -> Vec<u8> {
    let mut e = flate2::write::ZlibEncoder::new(Vec::new(), flate2::Compression::new(1));
    e.write_all(data).unwrap();
    e.finish().unwrap()
}

fn good_chunk() -> Vec<u8> {
    let mut s0 = vec![0u8; SERUM1_STATE_SIZE];
    s0[OFF_VERSION_F32..OFF_VERSION_F32 + 4].copy_from_slice(&0.1631f32.to_le_bytes());
    s0[OFF_PRESET_NAME..OFF_PRESET_NAME + 5].copy_from_slice(b"Lead\0");
    let z0 = zlib_stream(&s0);
    let mut chunk = z0.clone();
    chunk.extend_from_slice(&(z0.len() as u32).to_le_bytes());
    chunk
}

fn instance(chunk: Vec<u8>) -> Instance {
    Instance {
        channel: Some(3),
        channel_name: "Bass".to_string(),
        plugin_name: "Serum".to_string(),
        chunk: Serum1Chunk {
            chunk,
            source: SourceKind::FlVst3Wrapper,
            meta: PresetMeta {
                preset_name: "Lead".to_string(),
                author: "Me".to_string(),
                category: "Synth".to_string(),
                version_f32_bits: 0.1631f32.to_bits(),
            },
            stream_sizes: vec![SERUM1_STATE_SIZE, 4096],
        },
    }
}

#[test]
fn source_names_match_variant_names() {
    assert_eq!(source_name(SourceKind::FlVst3Wrapper), "FlVst3Wrapper");
    assert_eq!(source_name(SourceKind::RawZlib), "RawZlib");
    assert_eq!(source_name(SourceKind::CcnKFxPreset), "CcnKFxPreset");
    assert_eq!(source_name(SourceKind::VstWFxPreset), "VstWFxPreset");
}

#[test]
fn preset_entry_copies_instance_and_verdict() {
    let inst = instance(good_chunk());
    let e = preset_entry(4, &inst, 1234567890123, true);
    assert_eq!(e.index, 4);
    assert_eq!(e.channel, Some(3));
    assert_eq!(e.channel_name, "Bass");
    assert_eq!(e.plugin_name, "Serum");
    assert_eq!(e.preset_name, "Lead");
    assert_eq!(e.author, "Me");
    assert_eq!(e.category, "Synth");
    assert_eq!(f32::from_bits(e.version_f32_bits), 0.1631f32);
    assert_eq!(e.state_bytes, SERUM1_STATE_SIZE);
    assert_eq!(e.chunk_bytes, inst.chunk.chunk.len());
    assert_eq!(e.source, "FlVst3Wrapper");
    assert!(e.duplicate);
    assert_eq!(e.content_hash, "1234567890123");
    assert!(e.valid);
    assert!(e.errors.is_empty());
}

#[test]
fn preset_entry_reports_fatal_issues() {
    let inst = instance(vec![1, 2, 3, 4, 5]);
    let e = preset_entry(0, &inst, 0, false);
    assert!(!e.valid);
    assert!(!e.errors.is_empty());
    assert_eq!(e.content_hash, "0");
    let verdict = validate_chunk_report(&inst.chunk.chunk);
    let fatals: Vec<String> = verdict.fatals().iter().map(|s| s.to_string()).collect();
    assert_eq!(e.errors, fatals);
}

#[test]
fn extract_entry_keeps_status_and_path() {
    let inst = instance(good_chunk());
    let verdict = validate_chunk_report(&inst.chunk.chunk);
    let e = extract_entry(1, &inst, &verdict, ExtractStatus::Written, Some("out/01_Lead.fxp".into()));
    assert_eq!(e.index, 1);
    assert_eq!(e.status, ExtractStatus::Written);
    assert_eq!(e.path.as_deref(), Some("out/01_Lead.fxp"));
    assert!(e.valid);
    assert_eq!(e.state_bytes, SERUM1_STATE_SIZE);
    let e2 = extract_entry(2, &inst, &verdict, ExtractStatus::Duplicate, None);
    assert_eq!(e2.status, ExtractStatus::Duplicate);
    assert!(e2.path.is_none());
}

#[test]
fn verdict_does_not_depend_on_the_header_name() {
    let chunk = good_chunk();
    let a = validate_fxp(&build_fxp(&chunk, "First name"));
    let b = validate_fxp(&build_fxp(&chunk, "A completely different, longer name"));
    let c = validate_chunk_report(&chunk);
    let msgs = |r: &flp_extract_fxp::fxp::ValidationReport| {
        r.issues.iter().map(|i| (i.severity == flp_extract_fxp::fxp::Severity::Fatal, i.message.clone())).collect::<Vec<_>>()
    };
    assert_eq!(msgs(&a), msgs(&b));
    assert_eq!(msgs(&a), msgs(&c));
}

#[test]
fn validate_named_flags_the_extension() {
    let fxp = build_fxp(&good_chunk(), "Lead");
    let ok = validate_named(&fxp, true);
    assert!(ok.is_ok());
    let bad = validate_named(&fxp, false);
    assert!(!bad.is_ok());
    assert_eq!(
        bad.fatals(),
        vec!["file extension is not .fxp (Serum2 only offers the import for .fxp names)"]
    );
}

#[test]
fn validate_input_report_keeps_name_only_when_valid() {
    let fxp = build_fxp(&good_chunk(), "Lead");
    let ok = validate_named(&fxp, true);
    let r = validate_input_report("a.fxp".into(), &ok, Some("Lead".into()));
    assert!(r.valid);
    assert_eq!(r.preset_name.as_deref(), Some("Lead"));
    let bad = validate_named(&fxp, false);
    let r = validate_input_report("a.txt".into(), &bad, Some("Lead".into()));
    assert!(!r.valid);
    assert_eq!(r.preset_name, None);
    assert_eq!(r.errors.len(), 1);
}

#[test]
fn state_preset_name_reads_trimmed_field() {
    let mut state = vec![0u8; OFF_PRESET_NAME + 40];
    state[OFF_PRESET_NAME..OFF_PRESET_NAME + 8].copy_from_slice(b" Pad 1 \0");
    assert_eq!(state_preset_name(&state).as_deref(), Some("Pad 1"));
    assert_eq!(state_preset_name(&state[..OFF_PRESET_NAME]), None);
}

#[test]
fn state_preset_name_keeps_inner_nul() {
    let mut state = vec![0u8; OFF_PRESET_NAME + 32];
    state[OFF_PRESET_NAME..OFF_PRESET_NAME + 5].copy_from_slice(b"ab\0cd");
    assert_eq!(state_preset_name(&state).as_deref(), Some("ab\0cd"));
    state[OFF_PRESET_NAME..OFF_PRESET_NAME + 5].copy_from_slice(b"\0\0\0\0\0");
    assert_eq!(state_preset_name(&state).as_deref(), Some(""));
}

#[test]
fn patch_fields_keep_order_and_need_one() {
    let p = patch_fields(Some("N".into()), None, Some("C".into())).unwrap();
    assert_eq!(p, vec![PatchField::Name("N".into()), PatchField::Category("C".into())]);
    let p = patch_fields(None, Some("A".into()), None).unwrap();
    assert_eq!(p, vec![PatchField::Author("A".into())]);
    assert_eq!(
        patch_fields(None, None, None).unwrap_err(),
        "nothing to patch: pass --name and/or --author and/or --category"
    );
}

#[test]
fn flp_header_detection() {
    assert!(is_flp_header(b"FLhd\x06\x00\x00\x00"));
    assert!(!is_flp_header(b"FLh"));
    assert!(!is_flp_header(b"CcnK...."));
}

#[test]
fn member_part_takes_text_after_last_hash() {
    assert_eq!(member_part("pack.zip#a/b.flp"), "a/b.flp");
    assert_eq!(member_part("x#y#z.flp"), "z.flp");
    assert_eq!(member_part("plain.flp"), "plain.flp");
    assert_eq!(member_part("ends#"), "");
}

#[test]
fn archive_output_names_are_deduplicated() {
    let mut used = UsedNames::new();
    assert_eq!(archive_output_name(&mut used, "pack", "song"), "pack_song_serum2.flp");
    assert_eq!(archive_output_name(&mut used, "pack", "song"), "pack_song_2_serum2.flp");
    assert_eq!(archive_output_name(&mut used, "pack", "other"), "pack_other_serum2.flp");
    assert_eq!(archive_output_name(&mut used, "pack", "so:ng"), "pack_so_ng_serum2.flp");
    assert_eq!(used.taken("song"), 2);
    assert_eq!(used.taken("missing"), 0);
}

#[test]
fn hostile_values_never_reach_the_rendered_name() {
    let name = render_name_template("{preset}-{author}", 1, "../../etc/passwd", "", "a:b*c", "");
    assert!(!name.contains('/'));
    assert!(!name.contains(':'));
    assert!(!name.contains('*'));
}

#[test]
fn flp_inputs_resolves_plain_files_and_rejects_bad_archives() {
    use_flp_inputs();
}

fn use_flp_inputs() {
    let plain = flp_extract_fxp::zip::flp_inputs("a.flp", b"FLhd....").unwrap();
    assert_eq!(plain.len(), 1);
    assert_eq!(plain[0].name, "a.flp");
    assert_eq!(plain[0].data, b"FLhd....".to_vec());
    assert!(!plain[0].from_archive);
    let err = flp_extract_fxp::zip::flp_inputs("bad.zip", b"PK\x03\x04 broken").unwrap_err();
    assert!(err.starts_with("bad.zip: "), "{err}");
    assert!(err.contains("ZIP"), "{err}");
}
