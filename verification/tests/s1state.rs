use flp_extract_fxp::s1state::{
    lfo_curve_vals, lfo_delay, lfo_flags, lfo_loopback_point_num, lfo_num_points, lfo_phase_raw,
    lfo_rate, lfo_rise, lfo_smooth, lfo_x_vals, lfo_y_vals, parse_preset, S1LfoPointMod, S1MidiMap,
    S1Tuning, AUX_PARAM_COUNT, FRAME_BYTES, LFO_BLOCK_BASE, LFO_BLOCK_COUNT, LFO_BLOCK_SIZE,
    LFO_CLASSIC_SIZE, LFO_CURVE_BYTES, LFO_FLEX_COUNT, LFO_OFF_DELAY, LFO_OFF_FLAGS,
    LFO_OFF_LOOPBACK_POINT_NUM, LFO_OFF_NUM_POINTS, LFO_OFF_PHASE, LFO_OFF_RATE, LFO_OFF_RISE,
    LFO_OFF_SMOOTH, LFO_POINT_MOD_LEN, MASTER_PARAM_COUNT, MAX_STREAM_DECOMP, MOD_SLOTS_17_32,
    MOD_SLOTS_1_16, MOD_SLOT_COUNT, MOD_SLOT_LEN, OFF_AUTHOR, OFF_AUX_PARAMS, OFF_BOUNDARY64,
    OFF_FX_ORDER, OFF_INTERPOLATE_AFTER_LOAD, OFF_LFO_POINT_MODS, OFF_LFO_POINT_MOD_COUNT,
    OFF_LOCK_BITS, OFF_LOOPBACK64, OFF_MACRO_NAMES, OFF_MASTER_PARAMS, OFF_MIDI_MAP,
    OFF_MIDI_MAP_EXTRA, OFF_NOISE_NAME, OFF_OSC_WT_FRAMES, OFF_PRESET_NAME, OFF_SCALARS,
    OFF_STORED_PHASE_POS, OFF_SWITCHES, OFF_VERSION_F32, OFF_WT_NAME_A, S1_BLOB_SIZE,
    S1_OLD_BLOB_SIZES, SCALARS_BLOCK_LEN, SWITCHES_LEN, SWITCHES_SLICE_LEN,
};
use std::io::Write;

fn zlib_stream(data: &[u8]) -> Vec<u8> {
    let mut e = flate2::write::ZlibEncoder::new(Vec::new(), flate2::Compression::new(1));
    e.write_all(data).unwrap();
    e.finish().unwrap()
}

fn f(bits: u32) -> f32 {
    f32::from_bits(bits)
}

fn put_f32(blob: &mut [u8], off: usize, v: f32) {
    blob[off..off + 4].copy_from_slice(&v.to_le_bytes());
}

fn put_f64(blob: &mut [u8], off: usize, v: f64) {
    blob[off..off + 8].copy_from_slice(&v.to_le_bytes());
}

fn put_i32(blob: &mut [u8], off: usize, v: i32) {
    blob[off..off + 4].copy_from_slice(&v.to_le_bytes());
}

fn put_u32(blob: &mut [u8], off: usize, v: u32) {
    blob[off..off + 4].copy_from_slice(&v.to_le_bytes());
}

fn put_u16(blob: &mut [u8], off: usize, v: u16) {
    blob[off..off + 2].copy_from_slice(&v.to_le_bytes());
}

fn write_mod_slot(blob: &mut [u8], base: usize, slot: u8, source: u16, dest: u16, amount: f32) {
    blob[base + 0x20..base + 0x24].copy_from_slice(&[0x80, 0x80, slot, 0xFF]);
    put_f32(blob, base + 0x04, amount);
    put_f32(blob, base + 0x08, 1.0);
    put_u16(blob, base + 0x14, source);
    put_u16(blob, base + 0x1A, dest);
}

fn synth_state() -> Vec<u8> {
    let mut s0 = vec![0u8; S1_BLOB_SIZE];
    s0[OFF_PRESET_NAME..OFF_PRESET_NAME + 6].copy_from_slice(b"Synth\0");
    s0[OFF_AUTHOR..OFF_AUTHOR + 5].copy_from_slice(b"Jane\0");
    put_f32(&mut s0, OFF_VERSION_F32, 0.1631);
    put_f32(&mut s0, OFF_MASTER_PARAMS, 0.7);
    put_f32(&mut s0, OFF_MASTER_PARAMS + 4 * 61, 0.25);
    put_f32(&mut s0, OFF_AUX_PARAMS, 0.25);
    let order = [5, 0, 1, 2, 3, 6, 7, 8, 9, 4];
    for (i, v) in order.iter().enumerate() {
        put_i32(&mut s0, OFF_FX_ORDER + 4 * i, *v);
    }
    let name = b"Tables\\My Saw.wav\0";
    s0[OFF_WT_NAME_A..OFF_WT_NAME_A + name.len()].copy_from_slice(name);
    let noise = b"Noise/AC hum1.wav\0";
    s0[OFF_NOISE_NAME..OFF_NOISE_NAME + noise.len()].copy_from_slice(noise);
    for (k, label) in ["Macro A", "Macro B", "Macro C", "Macro D"].iter().enumerate() {
        let off = OFF_MACRO_NAMES + 32 * k;
        let bytes = format!("{label}\0").into_bytes();
        s0[off..off + bytes.len()].copy_from_slice(&bytes);
    }
    put_i32(&mut s0, OFF_OSC_WT_FRAMES, 8192);
    put_i32(&mut s0, OFF_OSC_WT_FRAMES + 4, 16384);
    s0[OFF_INTERPOLATE_AFTER_LOAD] = 1;
    s0[OFF_LOCK_BITS] = 0b0110;
    put_u32(&mut s0, OFF_STORED_PHASE_POS, 0x1122_3344);
    put_u32(&mut s0, OFF_STORED_PHASE_POS + 4, 0x5566_7788);
    put_u32(&mut s0, OFF_LOOPBACK64, 0xAABB_CCDD);
    put_u32(&mut s0, OFF_BOUNDARY64, 0xEEFF_0011);
    for k in 0..MOD_SLOT_COUNT as u8 {
        let base = if k < 16 {
            MOD_SLOTS_1_16 + MOD_SLOT_LEN * k as usize
        } else {
            MOD_SLOTS_17_32 + MOD_SLOT_LEN * (k - 16) as usize
        };
        write_mod_slot(&mut s0, base, k, 0, 316, 0.0);
        put_u16(&mut s0, base + 0x18, 173);
    }
    write_mod_slot(&mut s0, MOD_SLOTS_1_16, 0, 5, 1, 0.5);
    write_mod_slot(&mut s0, MOD_SLOTS_1_16 + MOD_SLOT_LEN, 1, 0, 316, 0.0);
    write_mod_slot(&mut s0, MOD_SLOTS_17_32, 16, 6, 22, -0.75);
    put_f32(&mut s0, OFF_SWITCHES, 1.0);
    put_f32(&mut s0, OFF_SWITCHES + 0x10, 1.0);
    put_f32(&mut s0, OFF_SWITCHES + 0x14, 1.0);
    put_f32(&mut s0, OFF_SWITCHES + 0x20, 0.5);
    put_f32(&mut s0, OFF_SWITCHES + 0x2C, 7.0 / 31.0);
    put_f32(&mut s0, OFF_SWITCHES + 0x5C, 1.0);
    put_f32(&mut s0, OFF_SCALARS, 0.25);
    put_f32(&mut s0, OFF_SCALARS + SCALARS_BLOCK_LEN, 0.5);
    put_u32(&mut s0, OFF_LFO_POINT_MOD_COUNT, 1);
    put_u32(&mut s0, OFF_LFO_POINT_MODS, 3);
    put_u32(&mut s0, OFF_LFO_POINT_MODS + 4, 1);
    put_u32(&mut s0, OFF_LFO_POINT_MODS + 8, 2);
    put_u32(&mut s0, OFF_LFO_POINT_MODS + 0x0C, 150);
    let lfo = &mut s0[LFO_BLOCK_BASE..LFO_BLOCK_BASE + LFO_BLOCK_SIZE];
    lfo[LFO_OFF_FLAGS..LFO_OFF_FLAGS + 7].copy_from_slice(&[1, 0, 0, 0, 1, 1, 0]);
    put_u32(lfo, LFO_OFF_NUM_POINTS, 4);
    put_u32(lfo, LFO_OFF_PHASE, 0xFFFF_FFFF);
    put_u32(lfo, LFO_OFF_LOOPBACK_POINT_NUM, 0x1E1);
    put_f32(lfo, LFO_OFF_RATE, 0.59211);
    put_f32(lfo, LFO_OFF_SMOOTH, 0.125);
    put_f32(lfo, LFO_OFF_DELAY, 0.25);
    put_f32(lfo, LFO_OFF_RISE, 0.75);
    put_f64(lfo, 0, 0.5);
    put_f64(lfo, LFO_CURVE_BYTES, 0.125);
    put_f64(lfo, 2 * LFO_CURVE_BYTES, 1.0);
    put_f64(lfo, 2 * LFO_CURVE_BYTES + 8, 0.0);
    s0
}

fn chunk_from(state: &[u8], streams: &[Vec<u8>]) -> Vec<u8> {
    let z0 = zlib_stream(state);
    let mut chunk = z0.clone();
    for s in streams {
        chunk.extend_from_slice(&zlib_stream(s));
    }
    chunk.extend_from_slice(&(z0.len() as u32).to_le_bytes());
    chunk
}

fn synth_chunk() -> Vec<u8> {
    chunk_from(&synth_state(), &[vec![0u8; 2 * FRAME_BYTES]])
}

#[test]
fn parses_synthetic_preset() {
    let p = parse_preset(&synth_chunk()).unwrap();
    assert_eq!(p.blob.len(), S1_BLOB_SIZE);
    assert_eq!(p.streams.len(), 1);
    assert_eq!(p.streams[0].len(), 2 * FRAME_BYTES);
    assert_eq!(p.meta.preset_name, "Synth");
    assert_eq!(p.meta.author, "Jane");
    assert_eq!(p.meta.category, "");
    assert!((f(p.meta.version_f32_bits) - 0.1631).abs() < 1e-6);
    assert!((f(p.master_param(0)) - 0.7).abs() < 1e-6);
    assert!((f(p.master_param(61)) - 0.25).abs() < 1e-6);
    assert_eq!(f(p.master_param(MASTER_PARAM_COUNT)), 0.0);
    assert!((f(p.aux_param(0)) - 0.25).abs() < 1e-6);
    assert_eq!(f(p.aux_param(AUX_PARAM_COUNT)), 0.0);
    assert_eq!(p.fx_order(), [5, 0, 1, 2, 3, 6, 7, 8, 9, 4]);
    assert_eq!(p.wt_name_a(), r"Tables\My Saw.wav");
    assert_eq!(p.noise_name(), "Noise/AC hum1.wav");
    assert_eq!(p.macro_name(0), "Macro A");
    assert_eq!(p.macro_name(3), "Macro D");
    assert_eq!(p.macro_name(4), "");
    assert_eq!(p.osc_wt_frames(), [8192, 16384]);
    assert!(p.interpolate_after_load());
    assert_eq!(p.lock_bits(), 0b0110);
    assert_eq!(p.preset_id(), [0u8; 8]);
    assert_eq!(p.stored_phase_pos()[..4], 0x1122_3344u32.to_le_bytes());
    assert_eq!(p.stored_phase_pos()[4..], 0x5566_7788u32.to_le_bytes());
    assert_eq!(p.loopback64()[..4], 0xAABB_CCDDu32.to_le_bytes());
    assert_eq!(p.boundary64()[..4], 0xEEFF_0011u32.to_le_bytes());
    assert_eq!(p.tuning_bytes(), S1Tuning::default());
}

#[test]
fn switches_helpers() {
    let p = parse_preset(&synth_chunk()).unwrap();
    assert!(p.switches().len() >= SWITCHES_SLICE_LEN);
    assert!((f(p.switch_a4()) - 1.0).abs() < 1e-6);
    assert!((f(p.switch_polyphony()) - 7.0 / 31.0).abs() < 1e-6);
    assert!((f(p.switch_mono()) - 1.0).abs() < 1e-6);
    assert!((f(p.switch_legato()) - 1.0).abs() < 1e-6);
    assert!((f(p.switch_reverb_hall()) - 1.0).abs() < 1e-6);
    assert!((f(p.switch_oversampling()) - 0.5).abs() < 1e-6);
    assert_eq!(f(p.switch_f32(0x04)), 0.0);
    assert_eq!(f(p.switch_f32(SWITCHES_LEN)), 0.0);
}

#[test]
fn scalars_and_midi_map() {
    let p = parse_preset(&synth_chunk()).unwrap();
    let velo = p.scalars_curve(0);
    assert_eq!(velo.len(), SCALARS_BLOCK_LEN);
    assert!((f32::from_le_bytes(velo[..4].try_into().unwrap()) - 0.25).abs() < 1e-6);
    assert_eq!(p.scalars_curve(1).len(), SCALARS_BLOCK_LEN);
    assert!(p.scalars_curve(2).is_empty());
    assert_eq!(p.midi_map(), S1MidiMap::default());
    let mut state = synth_state();
    state[OFF_MIDI_MAP + 7] = 0x40;
    state[OFF_MIDI_MAP_EXTRA + 3] = 0x20;
    let q = parse_preset(&chunk_from(&state, &[vec![0u8; FRAME_BYTES]])).unwrap();
    let map = q.midi_map();
    assert_eq!(map.param_cc[7], 0x40);
    assert_eq!(map.extra_cc[3], 0x20);
}

#[test]
fn lfo_block_fields() {
    let p = parse_preset(&synth_chunk()).unwrap();
    let block = p.lfo_block(0).unwrap();
    assert_eq!(block.len(), LFO_BLOCK_SIZE);
    assert_eq!(lfo_flags(block), [1, 0, 0, 0, 1, 1, 0]);
    assert_eq!(lfo_num_points(block), 4);
    assert_eq!(lfo_phase_raw(block), 0xFFFF_FFFF);
    assert_eq!(lfo_loopback_point_num(block), 0x1E1);
    assert!((f(lfo_rate(block)) - 0.59211).abs() < 1e-6);
    assert!((f(lfo_smooth(block)) - 0.125).abs() < 1e-6);
    assert!((f(lfo_delay(block)) - 0.25).abs() < 1e-6);
    assert!((f(lfo_rise(block)) - 0.75).abs() < 1e-6);
    assert!(p.lfo_block(1).is_some());
    assert!(p.lfo_block(LFO_BLOCK_COUNT).is_none());
    assert!(p.flex_lfo_block(1).is_some());
    assert!(p.flex_lfo_block(LFO_FLEX_COUNT).is_none());
    let curves = lfo_curve_vals(block).unwrap();
    assert_eq!(curves.len(), LFO_CURVE_BYTES);
    assert!((f64::from_le_bytes(curves[..8].try_into().unwrap()) - 0.5).abs() < 1e-12);
    let x = lfo_x_vals(block).unwrap();
    assert!((f64::from_le_bytes(x[..8].try_into().unwrap()) - 0.125).abs() < 1e-12);
    let y = lfo_y_vals(block).unwrap();
    assert!((f64::from_le_bytes(y[..8].try_into().unwrap()) - 1.0).abs() < 1e-12);
    assert!((f64::from_le_bytes(y[8..16].try_into().unwrap()) - 0.0).abs() < 1e-12);
    assert_eq!(lfo_num_points(&block[..0x100]), 0);
    assert_eq!(lfo_flags(&block[..10]), [0u8; 7]);
    assert!(lfo_curve_vals(&block[..16]).is_none());
}

#[test]
fn classic_lfo_regions() {
    let p = parse_preset(&synth_chunk()).unwrap();
    for k in 0..LFO_BLOCK_COUNT {
        assert_eq!(p.classic_lfo_block(k).unwrap().len(), LFO_CLASSIC_SIZE);
    }
    assert!(p.classic_lfo_block(LFO_BLOCK_COUNT).is_none());
    assert!(p.classic_lfo_5_8_alt().is_some());
    assert!(p.classic_lfo_block(0).unwrap().iter().all(|&b| b == 0));
}

#[test]
fn lfo_point_mods_records() {
    let p = parse_preset(&synth_chunk()).unwrap();
    let mods = p.lfo_point_mods();
    assert_eq!(mods, vec![S1LfoPointMod { lfo: 3, point: 1, mode: 2, param: 150 }]);
    let mut state = synth_state();
    put_u32(&mut state, OFF_LFO_POINT_MOD_COUNT, 999_999);
    let q = parse_preset(&chunk_from(&state, &[])).unwrap();
    let cap = (S1_BLOB_SIZE - OFF_LFO_POINT_MODS) / LFO_POINT_MOD_LEN;
    assert!(q.lfo_point_mods().len() <= cap);
}

#[test]
fn mod_slots_parsed_and_validated() {
    let p = parse_preset(&synth_chunk()).unwrap();
    assert_eq!(p.mod_slots.len(), MOD_SLOT_COUNT);
    let s0 = &p.mod_slots[0];
    assert_eq!(s0.slot, 0);
    assert_eq!(s0.source_t, 5);
    assert_eq!(s0.dest, 1);
    assert!((f(s0.amount_a_bits) - 0.5).abs() < 1e-6);
    assert!((f(s0.amount_b_bits) - 1.0).abs() < 1e-6);
    assert_eq!(s0.bipolar_src, 0);
    assert_eq!(s0.curve_a, 0x80);
    assert_eq!(s0.aux_curve, 0x80);
    assert_eq!(&s0.raw[0x20..0x24], &[0x80, 0x80, 0x00, 0xFF]);
    let unused = p.mod_slots.iter().find(|s| s.slot == 1).unwrap();
    assert_eq!(unused.source_t, 0);
    assert_eq!(unused.dest, 316);
    assert!((f(unused.amount_a_bits)).abs() < 1e-6);
    let s16 = p.mod_slots.iter().find(|s| s.slot == 16).unwrap();
    assert_eq!(s16.source_t, 6);
    assert_eq!(s16.dest, 22);
    assert!((f(s16.amount_a_bits) + 0.75).abs() < 1e-6);
}

#[test]
fn mod_slots_come_in_slot_order() {
    let p = parse_preset(&synth_chunk()).unwrap();
    for (i, s) in p.mod_slots.iter().enumerate() {
        assert_eq!(s.slot as usize, i);
        assert_eq!(s.src_a, 173);
    }
}

#[test]
fn mod_slot_marker_corruption_drops_record() {
    let mut state = synth_state();
    let off = MOD_SLOTS_1_16 + MOD_SLOT_LEN * 3;
    state[off + 0x23] = 0x00;
    let p = parse_preset(&chunk_from(&state, &[])).unwrap();
    assert!(p.mod_slots.iter().all(|s| s.slot != 3));
    assert_eq!(p.mod_slots.len(), MOD_SLOT_COUNT - 1);
}

#[test]
fn mod_slot_field_validation() {
    let mut state = synth_state();
    write_mod_slot(&mut state, MOD_SLOTS_1_16 + 2 * MOD_SLOT_LEN, 2, 70, 10, 0.5);
    let p = parse_preset(&chunk_from(&state, &[])).unwrap();
    assert!(p.mod_slots.iter().all(|s| s.slot != 2));

    let mut state = synth_state();
    write_mod_slot(&mut state, MOD_SLOTS_17_32, 16, 6, 2000, 0.5);
    let p = parse_preset(&chunk_from(&state, &[])).unwrap();
    assert!(p.mod_slots.iter().all(|s| s.slot != 16));

    let mut state = synth_state();
    write_mod_slot(&mut state, MOD_SLOTS_17_32 + MOD_SLOT_LEN, 17, 6, 22, f32::NAN);
    let p = parse_preset(&chunk_from(&state, &[])).unwrap();
    assert!(p.mod_slots.iter().all(|s| s.slot != 17));

    let mut state = synth_state();
    write_mod_slot(&mut state, MOD_SLOTS_17_32 + 2 * MOD_SLOT_LEN, 18, 6, 22, 9.0);
    let p = parse_preset(&chunk_from(&state, &[])).unwrap();
    assert!(p.mod_slots.iter().all(|s| s.slot != 18));
}

#[test]
fn mod_slot_amount_bounds_are_inclusive() {
    for (amount, kept) in [(8.0f32, true), (-8.0, true), (8.000001, false), (f32::INFINITY, false)] {
        let mut state = synth_state();
        write_mod_slot(&mut state, MOD_SLOTS_1_16 + 5 * MOD_SLOT_LEN, 5, 1, 10, amount);
        let p = parse_preset(&chunk_from(&state, &[])).unwrap();
        assert_eq!(p.mod_slots.iter().any(|s| s.slot == 5), kept, "{amount}");
    }
}

#[test]
fn mod_slot_fallback_scan() {
    let mut state = synth_state();
    let off = MOD_SLOTS_17_32 + 3 * MOD_SLOT_LEN;
    write_mod_slot(&mut state, off, 19, 6, 22, 0.5);
    let mut relocated = [0u8; MOD_SLOT_LEN];
    relocated.copy_from_slice(&state[off..off + MOD_SLOT_LEN]);
    state[off..off + MOD_SLOT_LEN].fill(0);
    let dest = 0x5390;
    state[dest..dest + MOD_SLOT_LEN].copy_from_slice(&relocated);
    let p = parse_preset(&chunk_from(&state, &[])).unwrap();
    let s19 = p.mod_slots.iter().find(|s| s.slot == 19).unwrap();
    assert_eq!(s19.source_t, 6);
    assert_eq!(s19.dest, 22);
    assert!((f(s19.amount_a_bits) - 0.5).abs() < 1e-6);
    assert_eq!(p.mod_slots.len(), MOD_SLOT_COUNT);
}

#[test]
fn rejects_old_format_blob() {
    for size in S1_OLD_BLOB_SIZES {
        let chunk = chunk_from(&vec![0u8; size], &[]);
        let err = parse_preset(&chunk).unwrap_err();
        assert!(err.contains("old-format Serum 1 preset not supported by the converter"), "{err}");
    }
}

#[test]
fn old_format_message_is_exact() {
    let chunk = chunk_from(&vec![0u8; 21808], &[]);
    assert_eq!(
        parse_preset(&chunk).unwrap_err(),
        "old-format Serum 1 preset not supported by the converter (state blob is 21808 bytes, expected 172736)"
    );
}

#[test]
fn rejects_non_frame_stream() {
    let chunk = chunk_from(&synth_state(), &[vec![0u8; 8000]]);
    let err = parse_preset(&chunk).unwrap_err();
    assert!(err.contains("not a multiple of the 8192-byte"), "{err}");
    assert_eq!(
        err,
        "appended data stream 1 is 8000 bytes, not a multiple of the 8192-byte wavetable frame size"
    );
}

#[test]
fn rejects_oversized_decompress() {
    let big = vec![0u8; MAX_STREAM_DECOMP + 1024];
    let chunk = chunk_from(&synth_state(), &[big]);
    let err = parse_preset(&chunk).unwrap_err();
    assert!(err.contains("sanity limit"), "{err}");
}

#[test]
fn rejects_garbage_chunk() {
    assert!(parse_preset(&[]).is_err());
    assert!(parse_preset(&[0u8; 4]).is_err());
    assert!(parse_preset(b"garbage data here").is_err());
    let mut chunk = synth_chunk();
    chunk[0] = 0x79;
    assert!(parse_preset(&chunk).is_err());
}

#[test]
fn garbage_messages_are_exact() {
    assert_eq!(parse_preset(&[]).unwrap_err(), "chunk too small to contain a zlib stream");
    assert_eq!(
        parse_preset(b"garbage data here").unwrap_err(),
        "chunk does not start with a zlib stream"
    );
}

#[test]
fn every_switch_reads_its_own_offset() {
    let mut s0 = synth_state();
    let offsets: [usize; 20] = [
        0x00, 0x08, 0x0C, 0x10, 0x14, 0x18, 0x1C, 0x20, 0x24, 0x28, 0x2C, 0x34, 0x38, 0x3C, 0x40,
        0x44, 0x48, 0x50, 0x54, 0x5C,
    ];
    for (k, off) in offsets.iter().enumerate() {
        put_u32(&mut s0, OFF_SWITCHES + off, 0x4000_0000 + k as u32);
    }
    let name_b = b"Tables\\Other.wav\0";
    let off_b = flp_extract_fxp::s1state::OFF_WT_NAME_B;
    s0[off_b..off_b + name_b.len()].copy_from_slice(name_b);
    let p = parse_preset(&chunk_from(&s0, &[])).unwrap();
    let got = [
        p.switch_a4(),
        p.switch_unison_tuning_a(),
        p.switch_unison_tuning_b(),
        p.switch_mono(),
        p.switch_legato(),
        p.switch_porta_always(),
        p.switch_porta_scaled(),
        p.switch_oversampling(),
        p.switch_noise_one_shot(),
        p.switch_noise_pitch_track(),
        p.switch_polyphony(),
        p.switch_filter_keytrack(),
        p.switch_unison_range_a(),
        p.switch_unison_range_b(),
        p.switch_chaos1_mono(),
        p.switch_chaos2_mono(),
        p.switch_chorus_mono(),
        p.switch_chaos1_sample_hold(),
        p.switch_chaos2_sample_hold(),
        p.switch_reverb_hall(),
    ];
    for (k, bits) in got.iter().enumerate() {
        assert_eq!(*bits, 0x4000_0000 + k as u32);
    }
    assert_eq!(p.wt_name_b(), r"Tables\Other.wav");
}
