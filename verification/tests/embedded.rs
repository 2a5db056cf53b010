use flp_extract_fxp::embedded::{f32_to_f64, stream_window, write_embedded_streams};
use flp_extract_fxp::s1state::{
    S1Preset, OFF_BOUNDARY64, OFF_LOOPBACK64, OFF_NOISE_NAME, OFF_OSC_WT_FRAMES,
    OFF_STORED_PHASE_POS, OFF_TUNING_LEN, OFF_TUNING_NAME, S1_BLOB_SIZE,
};
use flp_extract_fxp::s2tree::Val;
use flp_extract_fxp::serum::PresetMeta;

fn preset(blob: Vec<u8>, streams: Vec<Vec<u8>>) -> S1Preset {
    S1Preset {
        blob,
        streams,
        meta: PresetMeta::default(),
        mod_slots: Vec::new(),
    }
}

fn child<'a>(v: &'a Val, key: &str) -> &'a Val {
    v.get(key).unwrap()
}

#[test]
fn stream_window_spans_streams() {
    let streams = vec![vec![1u8, 2, 3], vec![], vec![4, 5], vec![6, 7, 8, 9]];
    assert_eq!(stream_window(&streams, 0, 4), vec![1, 2, 3, 4]);
    assert_eq!(stream_window(&streams, 2, 5), vec![3, 4, 5, 6, 7]);
    assert_eq!(stream_window(&streams, 5, 100), vec![6, 7, 8, 9]);
    assert_eq!(stream_window(&streams, 9, 3), Vec::<u8>::new());
    assert_eq!(stream_window(&streams, 4, 0), Vec::<u8>::new());
}

#[test]
fn f32_widening_is_exact() {
    for x in [0.0f32, -0.0, 1.0, -2.5, 0.1, f32::MAX, f32::MIN_POSITIVE, 1e-45, 3.0e-40, f32::INFINITY, f32::NEG_INFINITY] {
        assert_eq!(f32_to_f64(x.to_bits()), (x as f64).to_bits(), "{x}");
    }
    assert!(f64::from_bits(f32_to_f64(f32::NAN.to_bits())).is_nan());
}

#[test]
fn embedded_keys_are_written() {
    let mut blob = vec![0u8; S1_BLOB_SIZE];
    blob[OFF_STORED_PHASE_POS..OFF_STORED_PHASE_POS + 8].copy_from_slice(&7u64.to_le_bytes());
    blob[0x5544..0x5548].copy_from_slice(&8u32.to_le_bytes());
    blob[OFF_LOOPBACK64..OFF_LOOPBACK64 + 8].copy_from_slice(&9u64.to_le_bytes());
    blob[OFF_TUNING_LEN..OFF_TUNING_LEN + 4].copy_from_slice(&3u32.to_le_bytes());
    blob[OFF_TUNING_NAME..OFF_TUNING_NAME + 2].copy_from_slice(b"T\0");
    blob[OFF_OSC_WT_FRAMES..OFF_OSC_WT_FRAMES + 4].copy_from_slice(&5i32.to_le_bytes());
    blob[OFF_OSC_WT_FRAMES + 4..OFF_OSC_WT_FRAMES + 8].copy_from_slice(&(-4i32).to_le_bytes());
    blob[OFF_NOISE_NAME..OFF_NOISE_NAME + 6].copy_from_slice(b"n.wav\0");
    let mut s = vec![0u8, 1, 2, 3, 10, 11, 12];
    s.extend_from_slice(&1.0f32.to_le_bytes());
    s.extend_from_slice(&(-2.0f32).to_le_bytes());
    let p = preset(blob.clone(), vec![s]);
    let mut root = Val::obj();
    write_embedded_streams(&mut root, &blob, &p);
    let sub = child(child(&root, "Oscillator4"), "SubOsc4");
    assert!(matches!(child(sub, "storedPhasePos"), Val::UInt(7)));
    let n3 = child(child(&root, "Oscillator3"), "NoiseOsc3");
    assert!(matches!(child(n3, "loopback64"), Val::UInt(9)));
    assert!(n3.get("boundary64").is_none());
    match child(&root, "tuningData") {
        Val::Array(a) => {
            let v: Vec<u64> = a.iter().map(|x| if let Val::UInt(u) = x { *u } else { 999 }).collect();
            assert_eq!(v, vec![10, 11, 12]);
        }
        _ => panic!("tuningData is not an array"),
    }
    assert!(matches!(child(&root, "tuningName"), Val::Text(t) if t == "T"));
    match child(n3, "embeddedNoiseData") {
        Val::Array(halves) => {
            assert_eq!(halves.len(), 2);
            assert!(matches!(&halves[0], Val::Array(h) if h.len() == 1 && matches!(h[0], Val::F64(b) if b == 1.0f64.to_bits())));
            assert!(matches!(&halves[1], Val::Array(h) if h.len() == 1 && matches!(h[0], Val::F64(b) if b == (-2.0f64).to_bits())));
        }
        _ => panic!("embeddedNoiseData is not an array"),
    }
    assert!(matches!(child(n3, "pathToNoiseSample"), Val::Text(t) if t == "n.wav"));
    let _ = OFF_BOUNDARY64;
}

#[test]
fn no_noise_no_tuning_writes_only_the_phase() {
    let blob = vec![0u8; S1_BLOB_SIZE];
    let p = preset(blob.clone(), vec![vec![1, 2, 3]]);
    let mut root = Val::obj();
    write_embedded_streams(&mut root, &blob, &p);
    match &root {
        Val::Obj(m) => assert!(m.is_empty()),
        _ => panic!("root is not a map"),
    }
}
