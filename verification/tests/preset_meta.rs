use flp_extract_fxp::preset_meta::{
    version_at_most, write_macro_names, write_midi_map, write_names, VERSION_MACRO_NAMES_BITS,
    VERSION_MIDI_MAP_BITS,
};
use flp_extract_fxp::s1state::{
    S1Preset, OFF_AUTHOR, OFF_CATEGORY, OFF_INTERPOLATE_AFTER_LOAD, OFF_MACRO_NAMES, OFF_MIDI_MAP,
    OFF_NOISE_NAME, OFF_OSC_WT_FRAMES, OFF_PRESET_NAME, OFF_WT_NAME_A, OFF_WT_NAME_B, S1_BLOB_SIZE,
};
use flp_extract_fxp::s2tree::Val;
use flp_extract_fxp::serum::PresetMeta;

fn preset(blob: Vec<u8>) -> S1Preset {
    S1Preset {
        blob,
        streams: Vec::new(),
        meta: PresetMeta::default(),
        mod_slots: Vec::new(),
    }
}

fn child<'a>(v: &'a Val, key: &str) -> &'a Val {
    v.get(key).unwrap()
}

fn text(v: &Val) -> &str {
    match v {
        Val::Text(t) => t.as_str(),
        _ => panic!("not text"),
    }
}

fn put(blob: &mut [u8], off: usize, b: &[u8]) {
    blob[off..off + b.len()].copy_from_slice(b);
}

#[test]
fn version_gate_follows_float_order() {
    assert_eq!(VERSION_MACRO_NAMES_BITS, 0.134f32.to_bits());
    assert_eq!(VERSION_MIDI_MAP_BITS, 0.1299f32.to_bits());
    for v in [0.0f32, -0.0, 0.002, 0.1299, 0.13, 0.134, 0.1341, 0.5, 0.999, -1.0, f32::INFINITY, f32::NAN, -f32::NAN] {
        assert_eq!(version_at_most(v.to_bits(), VERSION_MACRO_NAMES_BITS), v <= 0.134, "{v}");
        assert_eq!(version_at_most(v.to_bits(), VERSION_MIDI_MAP_BITS), v <= 0.1299, "{v}");
    }
}

#[test]
fn names_are_written() {
    let mut blob = vec![0u8; S1_BLOB_SIZE];
    put(&mut blob, OFF_PRESET_NAME, b"Lead\0");
    put(&mut blob, OFF_AUTHOR, b"Me\0");
    put(&mut blob, OFF_CATEGORY, b"Synth\0");
    put(&mut blob, OFF_WT_NAME_A, b"Audio In\0");
    put(&mut blob, OFF_WT_NAME_B, b"tables/saw.wav\0");
    put(&mut blob, OFF_NOISE_NAME, b"noise/white.wav\0");
    put(&mut blob, OFF_OSC_WT_FRAMES + 4, &2i32.to_le_bytes());
    blob[OFF_INTERPOLATE_AFTER_LOAD] = 5;
    blob[OFF_INTERPOLATE_AFTER_LOAD + 1] = 1;
    let p = preset(blob.clone());
    let mut root = Val::obj();
    write_names(&mut root, &blob, &p);
    assert_eq!(text(child(&root, "presetName")), "Lead");
    assert_eq!(text(child(&root, "presetAuthor")), "Me");
    assert_eq!(text(child(&root, "presetDescription")), "Synth");
    let a = child(child(&root, "Oscillator0"), "WTOsc0");
    assert!(matches!(child(a, "sampleFromAudioInput"), Val::Bool(true)));
    assert!(a.get("relativePathToWT").is_none());
    assert!(a.get("interpolateAfterLoad").is_none());
    let b = child(child(&root, "Oscillator1"), "WTOsc1");
    assert_eq!(text(child(b, "relativePathToWT")), "tables/saw.wav");
    assert!(matches!(child(b, "interpolateAfterLoad"), Val::UInt(1)));
    let n = child(child(&root, "Oscillator3"), "NoiseOsc3");
    assert_eq!(text(child(n, "relativePathToNoiseSample")), "noise/white.wav");
}

#[test]
fn noise_from_audio_input() {
    let mut blob = vec![0u8; S1_BLOB_SIZE];
    put(&mut blob, OFF_NOISE_NAME, b"Audio In\0");
    let p = preset(blob.clone());
    let mut root = Val::obj();
    write_names(&mut root, &blob, &p);
    let n = child(child(&root, "Oscillator3"), "NoiseOsc3");
    assert!(matches!(child(n, "sampleFromAudioInput"), Val::Bool(true)));
    assert!(n.get("relativePathToNoiseSample").is_none());
}

#[test]
fn macro_names_default_and_gate() {
    let mut blob = vec![0u8; S1_BLOB_SIZE];
    put(&mut blob, OFF_MACRO_NAMES + 32, b"Cutoff\0");
    let mut root = Val::obj();
    write_macro_names(&mut root, &blob, 0.134f32.to_bits());
    match &root {
        Val::Obj(m) => assert!(m.is_empty()),
        _ => panic!("root is not a map"),
    }
    write_macro_names(&mut root, &blob, 0.5f32.to_bits());
    assert_eq!(text(child(child(&root, "Macro0"), "name")), "Macro 1");
    assert_eq!(text(child(child(&root, "Macro1"), "name")), "Cutoff");
    assert_eq!(text(child(child(&root, "Macro2"), "name")), "Macro 3");
    assert_eq!(text(child(child(&root, "Macro3"), "name")), "Macro 4");
}

#[test]
fn midi_map_lists_learned_params() {
    let mut blob = vec![0u8; S1_BLOB_SIZE];
    blob[OFF_MIDI_MAP + 3] = 74;
    blob[OFF_MIDI_MAP + 10] = 200;
    blob[OFF_MIDI_MAP + 246] = 1;
    let mut root = Val::obj();
    write_midi_map(&mut root, &blob, 0.5f32.to_bits());
    let entries = match child(child(&root, "midiMap"), "midiMap") {
        Val::Array(a) => a.clone(),
        _ => panic!("midiMap is not an array"),
    };
    assert_eq!(entries.len(), 2);
    assert!(matches!(child(&entries[0], "ccNum"), Val::UInt(74)));
    assert!(matches!(child(&entries[0], "paramIDs"), Val::Array(ids) if ids.len() == 1 && matches!(ids[0], Val::UInt(3))));
    assert!(matches!(child(&entries[1], "ccNum"), Val::UInt(1)));
    assert!(matches!(child(&entries[1], "paramIDs"), Val::Array(ids) if matches!(ids[0], Val::UInt(246))));

    let mut old = Val::obj();
    write_midi_map(&mut old, &blob, 0.1299f32.to_bits());
    assert!(old.get("midiMap").is_none());
    let mut none = Val::obj();
    write_midi_map(&mut none, &vec![0u8; S1_BLOB_SIZE], 0.5f32.to_bits());
    assert!(none.get("midiMap").is_none());
}
