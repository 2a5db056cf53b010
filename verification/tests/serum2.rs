use flp_extract_fxp::s2tree::{copy_val, decode_cbor, encode_cbor, zstd_frame, zstd_frame_body_len, Val};
use flp_extract_fxp::serum2preset;
use flp_extract_fxp::serum2state::{
    build_preset_file, build_processor_record, controller_json_header, controller_meta_from_json,
    decode_zstd, json_escape, json_string_field, md5_hex, parse_xfer_json, preset_file_from_processor,
    preset_json_header, processor_json_header, state_body_to_authored, version_text, wrap_controller_frame,
    ControllerMeta, Number, PresetFileMeta, PresetHeader,
};
use std::io::Read;

// ---------------------------------------------------------------------------
// Helpers

fn decode_zstd_frame(frame: &[u8]) -> Vec<u8> {
    let mut dec =
        ruzstd::decoding::StreamingDecoder::new(std::io::Cursor::new(frame)).expect("zstd init");
    let mut out = Vec::new();
    dec.read_to_end(&mut out).expect("zstd read");
    out
}

fn hex(bytes: &[u8]) -> String {
    bytes.iter().map(|b| format!("{b:02x}")).collect()
}

fn contains(hay: &[u8], needle: &[u8]) -> bool {
    hay.windows(needle.len()).any(|w| w == needle)
}

/// The shortest float representation of a header version number.
fn print_number(n: Number) -> String {
    match n {
        Number::F32(b) => format!("{}", f32::from_bits(b) as f64),
        Number::F64(b) => format!("{}", f64::from_bits(b)),
        Number::UInt(u) => format!("{}", u as f64),
        Number::Int(i) => format!("{}", i as f64),
    }
}

fn f32v(x: f32) -> Val {
    Val::F32(x.to_bits())
}

/// A small processor-state-shaped body: meta keys, one section, the
/// state-only `component` key.
fn small_state() -> Val {
    let mut s = Val::obj();
    s.set("component", Val::Text("processor".into()));
    s.set("product", Val::Text("Serum2".into()));
    s.set("productVersion", Val::Text("2.0.23".into()));
    s.set("version", f32v(9.0));
    let mut tags = Val::arr();
    tags.push(Val::Text("Wavetable".into()));
    tags.push(Val::Text("Poly".into()));
    s.set("tags", tags);
    let mut osc = Val::obj();
    let mut params = Val::obj();
    params.set("kParamVolume", f32v(0.75));
    osc.set("plainParams", params);
    s.set("Oscillator0", osc);
    s
}

// ---------------------------------------------------------------------------
// serum2state

#[test]
fn processor_header_exact_text() {
    let hdr = processor_json_header("56a4a7cd2d58b933d65be68878ca06ec");
    let expected = "{\"component\":\"processor\",\
\"hash\":\"56a4a7cd2d58b933d65be68878ca06ec\",\
\"product\":\"Serum2\",\
\"productVersion\":\"2.0.23\",\
\"url\":\"https://xferrecords.com/\",\
\"vendor\":\"Xfer Records\",\"version\":9.0}";
    assert_eq!(hdr, expected);
    assert_eq!(hdr.len(), 183);
}

#[test]
fn controller_header_exact_text() {
    let hdr = controller_json_header(
        "06efd53571617f74445b1037e0ce055a",
        "Release Cut Piano",
        "Kagi",
        "kagimusic.com",
        "2.0.22",
        "8.0",
    );
    let expected = "{\"component\":\"controller\",\
\"hash\":\"06efd53571617f74445b1037e0ce055a\",\
\"presetAuthor\":\"Kagi\",\
\"presetDescription\":\"kagimusic.com\",\
\"presetName\":\"Release Cut Piano\",\
\"product\":\"Serum2\",\
\"productVersion\":\"2.0.22\",\
\"url\":\"https://xferrecords.com/\",\
\"vendor\":\"Xfer Records\",\"version\":8.0}";
    assert_eq!(hdr, expected);
}

#[test]
fn controller_header_escapes_strings() {
    let hdr = controller_json_header("a", "na\"me\\x", "au\tthor", "de\nscription", "2.0.22", "8.0");
    assert!(hdr.contains("\"presetName\":\"na\\\"me\\\\x\""), "{hdr}");
    assert!(hdr.contains("\"presetAuthor\":\"au\\tthor\""), "{hdr}");
    assert!(hdr.contains("\"presetDescription\":\"de\\nscription\""), "{hdr}");
}

#[test]
fn json_escape_control_and_unicode() {
    assert_eq!(json_escape("a\u{1}b"), "a\\u0001b");
    assert_eq!(json_escape("\r\u{8}\u{c}"), "\\r\\b\\f");
    assert_eq!(json_escape("音楽"), "音楽");
}

#[test]
fn md5_hex_known_vector() {
    assert_eq!(md5_hex(b""), "d41d8cd98f00b204e9800998ecf8427e");
    assert_eq!(md5_hex(b"abc"), "900150983cd24fb0d6963f7d28e17f72");
}

#[test]
fn processor_record_round_trip() {
    let mut body = Val::obj();
    body.set("version", f32v(9.0));
    let mut env0 = Val::obj();
    let mut params = Val::obj();
    params.set("kParamCurve1", f32v(50.0));
    env0.set("plainParams", params);
    body.set("Env0", env0);

    let rec = build_processor_record(&body).unwrap();
    assert_eq!(&rec[..9], b"XferJson\0");
    let jlen = u64::from_le_bytes(rec[9..17].try_into().unwrap());
    assert_eq!(jlen as usize, processor_json_header(&"0".repeat(32)).len());

    let (json, uncomp, format, foff) = parse_xfer_json(&rec).expect("parse");
    assert_eq!(format, 2);
    let frame = &rec[foff..];
    assert_eq!(uncomp as usize, encode_cbor(&body).len());
    assert_eq!(zstd_frame_body_len(frame), Some(uncomp as usize));

    let expect_json = processor_json_header(&md5_hex(frame));
    assert_eq!(json, expect_json);
    assert!(json.contains(&format!("\"hash\":\"{}\"", md5_hex(frame))));

    let body_bytes = decode_zstd_frame(frame);
    assert_eq!(body_bytes, encode_cbor(&body));
    assert_eq!(body_bytes.len(), uncomp as usize);

    let tree = decode_cbor(&body_bytes).expect("cbor");
    assert_eq!(encode_cbor(&tree), encode_cbor(&body));
}

#[test]
fn controller_record_wrap_and_parse() {
    let payload = b"controller body bytes".to_vec();
    let frame = zstd_frame(&payload).unwrap();
    let hdr = controller_json_header(
        &md5_hex(&frame),
        "Release Cut Piano",
        "Kagi",
        "kagimusic.com",
        "2.0.22",
        "8.0",
    );
    let rec = wrap_controller_frame(hdr.clone(), &frame, payload.len() as u32, 2);
    assert_eq!(&rec[..9], b"XferJson\0");
    let jlen = u64::from_le_bytes(rec[9..17].try_into().unwrap());
    assert_eq!(jlen as usize, hdr.len());
    let (json, uncomp, format, foff) = parse_xfer_json(&rec).expect("parse");
    assert_eq!(json, hdr);
    assert_eq!(uncomp, payload.len() as u32);
    assert_eq!(format, 2);
    assert_eq!(&rec[foff..], &frame[..]);
    assert_eq!(decode_zstd_frame(&rec[foff..]), payload);
}

#[test]
fn parse_rejects_bad_input() {
    assert!(parse_xfer_json(b"").is_err());
    assert!(parse_xfer_json(b"XferJson").is_err());
    assert!(parse_xfer_json(b"NotXferJson000000").is_err());
    let mut rec = build_processor_record(&Val::obj()).unwrap();
    rec.truncate(20);
    assert!(parse_xfer_json(&rec).is_err());
}

#[test]
fn parse_error_messages_are_exact() {
    assert_eq!(
        parse_xfer_json(b"NotXferJson000000").unwrap_err(),
        "XferJson: bad magic at byte 0 (17 bytes total), expected \"XferJson\\0\""
    );
    let mut rec = build_processor_record(&Val::obj()).unwrap();
    rec.truncate(20);
    assert_eq!(
        parse_xfer_json(&rec).unwrap_err(),
        "XferJson: truncated record at byte 20 (need 208 for JSON + u32 pair)"
    );
}

#[test]
fn json_string_field_handles_escapes() {
    let json = r#"{"a":"plain","b":"na\"me\\x","c":"tab\there","d":"音楽"}"#;
    assert_eq!(json_string_field(json, "a").as_deref(), Some("plain"));
    assert_eq!(json_string_field(json, "b").as_deref(), Some("na\"me\\x"));
    assert_eq!(json_string_field(json, "c").as_deref(), Some("tab\there"));
    assert_eq!(json_string_field(json, "d").as_deref(), Some("音楽"));
    assert_eq!(json_string_field(json, "missing"), None);
    assert_eq!(json_string_field(r#"{"a":42}"#, "a"), None);
    assert_eq!(controller_meta_from_json(json).preset_name, "");
    let ctrl = controller_meta_from_json(
        r#"{"component":"controller","presetAuthor":"Kagi","presetName":"Release Cut Piano"}"#,
    );
    assert_eq!(ctrl.preset_name, "Release Cut Piano");
    assert_eq!(ctrl.preset_author, "Kagi");
    assert_eq!(ctrl.preset_description, "");
}

#[test]
fn controller_header_reads_back_its_metadata() {
    let hdr = controller_json_header("h", "Na\"me", "Au\\thor", "Line\nTwo", "2.0.22", "8.0");
    let meta = controller_meta_from_json(&hdr);
    assert_eq!(meta.preset_name, "Na\"me");
    assert_eq!(meta.preset_author, "Au\\thor");
    assert_eq!(meta.preset_description, "Line\nTwo");
}

#[test]
fn preset_header_exact_text() {
    let hdr = preset_json_header(
        "d5a9c4fb4af5ec301d34f711fca17477",
        "ARP - Aardvark",
        "Audiotent",
        "www.audiotent.com",
        "Serum2",
        "2.0.13",
        &["Wavetable".to_string(), "Mono".to_string(), "Arp".to_string(), "Preview".to_string()],
        "5.0",
    );
    let expected = "{\"fileType\":\"SerumPreset\",\
\"hash\":\"d5a9c4fb4af5ec301d34f711fca17477\",\
\"presetAuthor\":\"Audiotent\",\
\"presetDescription\":\"www.audiotent.com\",\
\"presetName\":\"ARP - Aardvark\",\
\"product\":\"Serum2\",\"productVersion\":\"2.0.13\",\
\"tags\":[\"Wavetable\",\"Mono\",\"Arp\",\"Preview\"],\
\"url\":\"https://xferrecords.com/\",\"vendor\":\"Xfer Records\",\"version\":5.0}";
    assert_eq!(hdr, expected);
}

#[test]
fn state_to_authored_drops_component_and_adds_keys() {
    let state = small_state();
    let authored = state_body_to_authored(
        &state,
        PresetFileMeta {
            preset_name: "My Preset".into(),
            preset_author: "Me".into(),
            preset_description: String::new(),
        },
    );
    let keys: Vec<&str> = authored.as_map().unwrap().iter().map(|(k, _)| k.as_str()).collect();
    let n_state = state.as_map().unwrap().len();
    assert_eq!(keys.len(), n_state - 1 + 14);
    assert!(!keys.contains(&"component"));
    for k in [
        "WTOsc",
        "Osc",
        "MultiSampleOsc",
        "SpectralOsc",
        "GranularOsc",
        "Filter",
        "ClipPlayer",
        "SerumGUI",
        "fileType",
        "presetName",
        "presetAuthor",
        "presetDescription",
        "arpBankDisplayName",
        "clipBankDisplayName",
    ] {
        assert!(keys.contains(&k), "missing authored key {k}");
    }
    assert_eq!(authored.get("version"), Some(&f32v(9.0)));
    assert_eq!(authored.get("productVersion").and_then(Val::as_str), Some("2.0.23"));
    assert_eq!(authored.get("presetName").and_then(Val::as_str), Some("My Preset"));
    assert!(authored.get("Oscillator0").is_some());
    assert_eq!(authored.get("tags"), state.get("tags"));
}

#[test]
fn state_to_authored_engine_ui_shapes() {
    let authored = state_body_to_authored(&small_state(), PresetFileMeta::default());
    let Val::Array(wt) = authored.get("WTOsc").unwrap() else { panic!("array") };
    assert_eq!(wt.len(), 3);
    assert_eq!(wt[0].get("kUIParamWTOverviewMouseTag"), Some(&f32v(0.0)));
    let Val::Array(osc) = authored.get("Osc").unwrap() else { panic!("array") };
    assert_eq!(osc.len(), 5);
    assert_eq!(osc[4].get("kUIParamAutoSyncSlicing"), Some(&f32v(0.0)));
    let Val::Array(spec) = authored.get("SpectralOsc").unwrap() else { panic!("array") };
    assert_eq!(spec.len(), 3);
    assert_eq!(spec[2].get("kUIParamShowWaveformDisplay"), Some(&f32v(0.0)));
    let Val::Array(gran) = authored.get("GranularOsc").unwrap() else { panic!("array") };
    assert_eq!(gran.len(), 3);
    assert_eq!(authored.get("Filter").unwrap().get("kUIParamMixOrGain"), Some(&f32v(0.0)));
    let clip = authored.get("ClipPlayer").unwrap();
    assert_eq!(clip.get("kUIParamPreviewClip"), Some(&Val::F64((1.0f64 / 12.0).to_bits())));
    assert_eq!(clip.get("kUIParamSelectedClip"), Some(&f32v(0.0)));
    assert_eq!(authored.get("SerumGUI").unwrap().get("kUIParamShowKeyboard"), Some(&f32v(1.0)));
}

#[test]
fn preset_file_round_trip() {
    let authored = state_body_to_authored(
        &small_state(),
        PresetFileMeta {
            preset_name: "Round Trip".into(),
            preset_author: "Tester".into(),
            preset_description: "desc".into(),
        },
    );
    let file = build_preset_file(
        &authored,
        PresetHeader {
            preset_name: "Round Trip".into(),
            preset_author: "Tester".into(),
            preset_description: "desc".into(),
        },
        print_number,
    )
    .unwrap();
    let (json, uncomp, format, foff) = parse_xfer_json(&file).expect("parse");
    assert_eq!(format, 2);
    let frame = &file[foff..];
    assert_eq!(uncomp as usize, encode_cbor(&authored).len());
    assert_eq!(
        json,
        preset_json_header(
            &md5_hex(frame),
            "Round Trip",
            "Tester",
            "desc",
            "Serum2",
            "2.0.23",
            &["Wavetable".to_string(), "Poly".to_string()],
            "9.0"
        )
    );
    let body = decode_zstd(frame).expect("zstd");
    assert_eq!(body.len(), uncomp as usize);
    let back = decode_cbor(&body).expect("cbor");
    assert_eq!(encode_cbor(&back), encode_cbor(&authored));
    assert_eq!(back.get("fileType").and_then(Val::as_str), Some("SerumPreset"));
}

#[test]
fn preset_header_version_fallbacks() {
    let bare = Val::obj();
    let file = build_preset_file(&bare, PresetHeader::default(), print_number).unwrap();
    let (json, _, _, _) = parse_xfer_json(&file).unwrap();
    assert!(json.contains("\"product\":\"Serum2\""), "{json}");
    assert!(json.contains("\"productVersion\":\"2.0.23\""), "{json}");
    assert!(json.contains("\"version\":9.0"), "{json}");
    let mut body = Val::obj();
    body.set("version", f32v(5.0));
    let (json, _, _, _) =
        parse_xfer_json(&build_preset_file(&body, PresetHeader::default(), print_number).unwrap())
            .unwrap();
    assert!(json.contains("\"version\":5.0"), "{json}");
}

#[test]
fn version_text_matches_float_formatting() {
    for v in [0.0f64, -0.0, 1.0, 9.0, -3.0, 123456789.0, 999999999999999.0] {
        let t = version_text(Some(Number::F64(v.to_bits()))).unwrap();
        assert_eq!(t, format!("{v:.1}"));
    }
    for v in [0.0f32, 2.0, 5.0, 8388608.0, 1e12] {
        let t = version_text(Some(Number::F32(v.to_bits()))).unwrap();
        assert_eq!(t, format!("{:.1}", v as f64));
    }
    for v in [0.5f64, 1e15, 1e300, f64::NAN, f64::INFINITY, 1e-310] {
        assert_eq!(version_text(Some(Number::F64(v.to_bits()))), None);
    }
    assert_eq!(version_text(Some(Number::F32(9.5f32.to_bits()))), None);
    assert_eq!(version_text(Some(Number::UInt(7))).as_deref(), Some("7.0"));
    assert_eq!(version_text(Some(Number::Int(-7))).as_deref(), Some("-7.0"));
    assert_eq!(version_text(Some(Number::UInt(1_000_000_000_000_000))), None);
    assert_eq!(version_text(None).as_deref(), Some("9.0"));
}

#[test]
fn preset_file_prints_fractional_version_with_the_printer() {
    let mut body = Val::obj();
    body.set("version", Val::F64(9.25f64.to_bits()));
    let file = build_preset_file(&body, PresetHeader::default(), print_number).unwrap();
    let (json, _, _, _) = parse_xfer_json(&file).unwrap();
    assert!(json.ends_with("\"version\":9.25}"), "{json}");
}

#[test]
fn preset_from_processor_end_to_end() {
    let state = small_state();
    let processor = build_processor_record(&state).unwrap();
    let meta = ControllerMeta {
        preset_name: "Release Cut Piano".into(),
        preset_author: "Kagi".into(),
        preset_description: "kagimusic.com".into(),
    };
    let file = preset_file_from_processor(&processor, meta.clone(), print_number).expect("build");
    let (json, _, _, _) = parse_xfer_json(&file).unwrap();
    assert_eq!(controller_meta_from_json(&json), meta);
    assert!(json.contains("\"fileType\":\"SerumPreset\""));
    let (_, _, _, foff) = parse_xfer_json(&file).unwrap();
    let val = decode_cbor(&decode_zstd(&file[foff..]).unwrap()).unwrap();
    assert_eq!(val.as_map().unwrap().len(), state.as_map().unwrap().len() - 1 + 14);
    assert!(val.get("component").is_none());
}

#[test]
fn preset_from_processor_reports_bad_records() {
    let meta = ControllerMeta::default();
    assert!(preset_file_from_processor(b"garbage", meta.clone(), print_number).is_err());
    let mut rec = build_processor_record(&Val::obj()).unwrap();
    let n = rec.len();
    rec[n - 3] ^= 0xFF;
    assert!(preset_file_from_processor(&rec, meta, print_number).is_err());
}

// ---------------------------------------------------------------------------
// serum2preset

#[test]
fn header_exact_text() {
    let hdr = serum2preset::preset_json_header(
        "d5a9c4fb4af5ec301d34f711fca17477",
        "ARP - Aardvark",
        "Audiotent",
        "www.audiotent.com",
        &["Wavetable".to_string(), "Mono".to_string(), "Arp".to_string(), "Preview".to_string()],
    );
    let expected = "{\"fileType\":\"SerumPreset\",\
\"hash\":\"d5a9c4fb4af5ec301d34f711fca17477\",\
\"presetAuthor\":\"Audiotent\",\
\"presetDescription\":\"www.audiotent.com\",\
\"presetName\":\"ARP - Aardvark\",\
\"product\":\"Serum2\",\
\"productVersion\":\"2.0.23\",\
\"tags\":[\"Wavetable\",\"Mono\",\"Arp\",\"Preview\"],\
\"url\":\"https://xferrecords.com/\",\
\"vendor\":\"Xfer Records\",\"version\":9.0}";
    assert_eq!(hdr, expected);
}

#[test]
fn header_escapes_strings_and_empty_tags() {
    let hdr = serum2preset::preset_json_header("a", "na\"me\\x", "au\tthor", "de\nscription", &[]);
    assert!(hdr.contains("\"presetName\":\"na\\\"me\\\\x\""), "{hdr}");
    assert!(hdr.contains("\"presetAuthor\":\"au\\tthor\""), "{hdr}");
    assert!(hdr.contains("\"presetDescription\":\"de\\nscription\""), "{hdr}");
    assert!(hdr.contains("\"tags\":[]"), "{hdr}");
}

#[test]
fn container_parses_back_and_shares_body_with_processor_record() {
    let mut body = Val::obj();
    body.set("presetName", Val::Text("X".into()));
    let proc_rec = build_processor_record(&body).unwrap();
    let (_json, uncomp, format, foff) = parse_xfer_json(&proc_rec).unwrap();
    assert_eq!(format, 2);
    let preset = serum2preset::build_preset_container(
        &proc_rec[foff..],
        uncomp,
        "X",
        "auth",
        "desc",
        &["Wavetable".to_string(), "Poly".to_string()],
    );
    assert_eq!(&preset[..9], b"XferJson\0");
    let (pj, puncomp, pformat, pfoff) = parse_xfer_json(&preset).unwrap();
    assert!(pj.contains("\"fileType\":\"SerumPreset\""), "{pj}");
    assert!(pj.contains("\"presetName\":\"X\""), "{pj}");
    assert!(pj.contains("\"tags\":[\"Wavetable\",\"Poly\"]"), "{pj}");
    assert!(pj.contains("\"version\":9.0"), "{pj}");
    assert_eq!(pformat, 2);
    assert_eq!(puncomp, uncomp);
    assert_eq!(&preset[pfoff..], &proc_rec[foff..]);
    assert!(pj.contains(&format!("\"hash\":\"{}\"", md5_hex(&preset[pfoff..]))));
    let (_, _, _, rec_foff) = parse_xfer_json(&proc_rec).unwrap();
    let body_bytes = decode_zstd_frame(&preset[pfoff..]);
    assert_eq!(body_bytes, decode_zstd_frame(&proc_rec[rec_foff..]));
    assert_eq!(body_bytes.len(), puncomp as usize);
    assert_eq!(encode_cbor(&decode_cbor(&body_bytes).unwrap()), encode_cbor(&body));
}

// ---------------------------------------------------------------------------
// s2tree

#[test]
fn round_trip_all_variants() {
    let mut root = Val::obj();
    root.set("a_u40", Val::UInt(1u64 << 40));
    root.set("b_neg", Val::Int(-1));
    root.set("c_f32", f32v(-0.5));
    root.set("d_f64", Val::F64(49.99999999999999f64.to_bits()));
    root.set("e_f64exact", Val::F64(50.0f64.to_bits()));
    root.set("f_utf8", Val::Text("音楽".to_string()));
    root.set("g_bytes", Val::Bytes(vec![0x00, 0x01, 0x02, 0xFF]));
    root.set("h_true", Val::Bool(true));
    root.set("h_false", Val::Bool(false));
    root.set("i_null", Val::Null);
    let mut arr = Val::arr();
    arr.push(Val::UInt(1));
    arr.push(Val::Text("x".to_string()));
    arr.push(Val::Null);
    root.set("j_arr", arr);
    let mut big = Val::obj();
    for i in 0..30u64 {
        big.set(&format!("k{i:02}"), Val::UInt(i));
    }
    root.set("big30", big);

    let enc = encode_cbor(&root);
    let dec = decode_cbor(&enc).expect("decode");
    assert_eq!(enc, encode_cbor(&dec), "re-encode must be byte-identical");

    assert!(contains(&enc, &[0x1B, 0x00, 0x00, 0x01, 0x00, 0x00, 0x00, 0x00, 0x00]), "2^40 as 0x1B+u64");
    assert!(contains(&enc, &[0x20]), "-1 as 0x20");
    assert!(contains(&enc, &[0xFA, 0x42, 0x48, 0x00, 0x00]), "f64 50.0 -> 0xFA f32 50.0");
    assert!(
        contains(&enc, &[0xFB, 0x40, 0x48, 0xFF, 0xFF, 0xFF, 0xFF, 0xFF, 0xFF]),
        "49.99999999999999 -> 0xFB"
    );
    assert!(contains(&enc, &[0x66, 0xE9, 0x9F, 0xB3, 0xE6, 0xA5, 0xBD]), "multibyte text");
    assert!(contains(&enc, &[0xB8, 30]), "0xB8 count path");
    // Decoded views (the numbers come back as stored: an exactly-f32 f64
    // decodes as F32).
    assert_eq!(dec.get("a_u40"), Some(&Val::UInt(1u64 << 40)));
    assert_eq!(dec.get("b_neg"), Some(&Val::Int(-1)));
    assert_eq!(dec.get("e_f64exact"), Some(&f32v(50.0)));
    assert_eq!(dec.get("d_f64"), Some(&Val::F64(49.99999999999999f64.to_bits())));
    assert_eq!(dec.get("f_utf8").unwrap().as_str(), Some("音楽"));
    assert!(dec.get("i_null").is_some());
    assert_eq!(dec.get("big30").unwrap().as_map().unwrap().len(), 30);
    let mut two = Val::obj();
    two.set("x", Val::UInt(1));
    two.set("y", Val::UInt(2));
    assert_eq!(hex(&encode_cbor(&two)), "a2617801617902");
}

#[test]
fn map_key_order_is_sorted_and_last_wins() {
    let mut m = Val::obj();
    m.set("b", Val::UInt(1));
    m.set("a", Val::UInt(2));
    m.set("c", Val::UInt(3));
    m.set("a", Val::UInt(9));
    let enc = encode_cbor(&m);
    let expect = "a3".to_string() + "61" + "61" + "09" + "61" + "62" + "01" + "61" + "63" + "03";
    assert_eq!(hex(&enc), expect);
}

#[test]
fn zstd_frames_round_trip_via_ruzstd() {
    let big: Vec<u8> = (0..300_000u32).map(|i| (i % 251) as u8).collect();
    let frame = zstd_frame(&big).unwrap();
    assert!(frame.starts_with(&[0x28, 0xB5, 0x2F, 0xFD]), "magic");
    assert_eq!(decode_zstd_frame(&frame), big);
    assert_eq!(zstd_frame_body_len(&frame), Some(300_000));
    let frame = zstd_frame(&[]).unwrap();
    assert_eq!(decode_zstd_frame(&frame), Vec::<u8>::new());
    assert_eq!(zstd_frame_body_len(&frame), Some(0));
    let frame = zstd_frame(b"x").unwrap();
    assert_eq!(decode_zstd_frame(&frame), b"x".to_vec());
    assert_eq!(zstd_frame_body_len(&frame), Some(1));
}

#[test]
fn canonical_vector_env0_curve1() {
    let mut params = Val::obj();
    params.set("kParamCurve1", f32v(50.0));
    let mut plain = Val::obj();
    plain.set("plainParams", params);
    let mut root = Val::obj();
    root.set("Env0", plain);
    let expected_hex = "a164456e7630a16b706c61696e506172616d73a16c6b506172616d437572766531fa42480000";
    assert_eq!(hex(&encode_cbor(&root)), expected_hex);
    let dec = decode_cbor(&encode_cbor(&root)).unwrap();
    assert_eq!(encode_cbor(&dec), encode_cbor(&root));
}

#[test]
fn decode_strictness() {
    assert!(decode_cbor(&[0xA0, 0x00]).is_err());
    assert!(decode_cbor(&[0x9F, 0xFF]).is_err());
    assert!(decode_cbor(&[0x63, 0x61]).is_err());
    assert_eq!(decode_cbor(&[0x18, 0x00]).unwrap(), Val::UInt(0));
    assert_eq!(decode_cbor(&[0xF4]).unwrap(), Val::Bool(false));
    assert_eq!(decode_cbor(&[0xF6]).unwrap(), Val::Null);
    let err = decode_cbor(&[0x63, 0x61]).unwrap_err();
    assert!(err.contains("byte 1"), "{err}");
}

#[test]
fn half_floats_decode_to_f64() {
    // 0xF9 half: 1.0, -2.0, 65504, smallest subnormal, infinity.
    for (h, v) in [(0x3C00u16, 1.0f64), (0xC000, -2.0), (0x7BFF, 65504.0), (0x0001, 5.960464477539063e-8)] {
        let bytes = [0xF9, (h >> 8) as u8, h as u8];
        assert_eq!(decode_cbor(&bytes).unwrap(), Val::F64(v.to_bits()), "half {h:#x}");
    }
    let inf = decode_cbor(&[0xF9, 0x7C, 0x00]).unwrap();
    assert_eq!(inf, Val::F64(f64::INFINITY.to_bits()));
}

#[test]
fn f64_encodes_as_f32_only_when_exact() {
    for v in [0.5f64, -0.0, f32::from_bits(1) as f64, 3.4028234663852886e38, f64::INFINITY] {
        let enc = encode_cbor(&Val::F64(v.to_bits()));
        assert_eq!(enc[0], 0xFA, "{v}");
        assert_eq!(&enc[1..], &(v as f32).to_bits().to_be_bytes());
        assert_eq!((v as f32) as f64, v);
    }
    for v in [0.1f64, 1e-40, 1e-50, 1e39, f64::NAN] {
        let enc = encode_cbor(&Val::F64(v.to_bits()));
        assert_eq!(enc[0], 0xFB, "{v}");
    }
}

#[test]
fn copy_val_encodes_identically() {
    let s = small_state();
    let c = copy_val(&s);
    assert_eq!(c, s);
    assert_eq!(encode_cbor(&c), encode_cbor(&s));
}

#[test]
fn get_mut_edits_the_first_entry_in_place() {
    let mut m = Val::obj();
    m.set("a", Val::UInt(1));
    m.set("b", Val::UInt(2));
    if let Some(v) = m.get_mut("b") {
        *v = Val::Text("two".to_string());
    }
    assert_eq!(m.get("b"), Some(&Val::Text("two".to_string())));
    assert_eq!(m.get("a"), Some(&Val::UInt(1)));
    assert!(m.get_mut("missing").is_none());
    assert!(Val::Null.get_mut("a").is_none());
}

#[test]
fn obj_at_and_arr_at_get_or_insert() {
    let mut root = Val::UInt(7);
    root.obj_at("Osc").obj_at("Wt").set("k", Val::UInt(3));
    root.arr_at("FX").push(Val::Null);
    root.arr_at("FX").push(Val::Bool(true));
    assert_eq!(root.get("Osc").unwrap().get("Wt").unwrap().get("k"), Some(&Val::UInt(3)));
    match root.get("FX") {
        Some(Val::Array(items)) => assert_eq!(items.len(), 2),
        other => panic!("FX not an array: {other:?}"),
    }
    // An existing key is reused, not duplicated.
    root.obj_at("Osc").set("x", Val::Null);
    match &root {
        Val::Obj(entries) => assert_eq!(entries.len(), 2),
        other => panic!("root not a map: {other:?}"),
    }
}

#[test]
fn xfer_json_huge_length_is_a_truncated_record() {
    let mut rec = b"XferJson\0".to_vec();
    rec.extend_from_slice(&(u64::MAX - 20).to_le_bytes());
    rec.extend_from_slice(&[0u8; 8]);
    let err = parse_xfer_json(&rec).unwrap_err();
    assert_eq!(
        err,
        "XferJson: truncated record at byte 25 (need 18446744073709551620 for JSON + u32 pair)"
    );
}
