//! The name keys, macro names and MIDI map of a converted Serum2 state tree,
//! taken from the Serum preset state.

use vstd::prelude::*;
use crate::embedded::{child_set, child_set_m, nested_set, nested_set_m, set_leaf, set_leaf_m};
use crate::s1state::{
    i32_at_spec, S1Preset, OFF_AUTHOR, OFF_CATEGORY, OFF_INTERPOLATE_AFTER_LOAD, OFF_MACRO_NAMES,
    OFF_MIDI_MAP, OFF_NOISE_NAME, OFF_OSC_WT_FRAMES, OFF_PRESET_NAME, OFF_WT_NAME_A, OFF_WT_NAME_B,
};
use crate::s2tree::{entry_models, lemma_entry_models_index, lemma_models_index, model, models_of, Val, ValModel};
use crate::scan::{cstr, cstr_spec};
use crate::strs::{str_eq, string_of};

verus! {

/// The sample name that stands for the audio input instead of a file.
pub open spec fn audio_in() -> Seq<char> {
    "Audio In"@
}

/// The keys of one wavetable oscillator `sec/sub`: the audio-input switch
/// or the wavetable's path, and, when the oscillator has an embedded
/// wavetable (`frames` nonzero), its `interpolateAfterLoad` byte.
pub open spec fn osc_names_m(
    r: ValModel,
    sec: Seq<char>,
    sub: Seq<char>,
    name: Seq<char>,
    frames: i32,
    interp: u8,
) -> ValModel {
    let r1 = if name == audio_in() {
        nested_set_m(r, sec, sub, "sampleFromAudioInput"@, ValModel::Bool(true))
    } else {
        nested_set_m(r, sec, sub, "relativePathToWT"@, ValModel::Text(name))
    };
    if frames != 0 {
        nested_set_m(r1, sec, sub, "interpolateAfterLoad"@, ValModel::UInt(interp as u64))
    } else {
        r1
    }
}

/// The name keys written into the tree `r0` from the state `st` (the blob
/// `blob` gives the embedded wavetable counts): preset name, author and
/// description, the two wavetable oscillators' sample keys and the noise
/// oscillator's.
pub open spec fn names_spec(r0: ValModel, st: Seq<u8>, blob: Seq<u8>) -> ValModel {
    let r1 = set_leaf_m(
        r0,
        "presetName"@,
        ValModel::Text(cstr_spec(st, OFF_PRESET_NAME as int, 32, false)),
    );
    let r2 = set_leaf_m(
        r1,
        "presetAuthor"@,
        ValModel::Text(cstr_spec(st, OFF_AUTHOR as int, 48, false)),
    );
    let r3 = set_leaf_m(
        r2,
        "presetDescription"@,
        ValModel::Text(cstr_spec(st, OFF_CATEGORY as int, 48, false)),
    );
    let r4 = osc_names_m(
        r3,
        "Oscillator0"@,
        "WTOsc0"@,
        cstr_spec(st, OFF_WT_NAME_A as int, 512, false),
        i32_at_spec(blob, OFF_OSC_WT_FRAMES as int),
        st[OFF_INTERPOLATE_AFTER_LOAD as int],
    );
    let r5 = osc_names_m(
        r4,
        "Oscillator1"@,
        "WTOsc1"@,
        cstr_spec(st, OFF_WT_NAME_B as int, 512, false),
        i32_at_spec(blob, OFF_OSC_WT_FRAMES + 4),
        st[OFF_INTERPOLATE_AFTER_LOAD + 1],
    );
    let noise = cstr_spec(st, OFF_NOISE_NAME as int, 512, false);
    if noise == audio_in() {
        nested_set_m(r5, "Oscillator3"@, "NoiseOsc3"@, "sampleFromAudioInput"@, ValModel::Bool(true))
    } else {
        nested_set_m(
            r5,
            "Oscillator3"@,
            "NoiseOsc3"@,
            "relativePathToNoiseSample"@,
            ValModel::Text(noise),
        )
    }
}

/// Writes one wavetable oscillator's sample keys (see [`osc_names_m`]).
fn write_osc_names(root: &mut Val, sec: &str, sub: &str, name: String, frames: i32, interp: u8)
    ensures
        model(*final(root)) == osc_names_m(model(*old(root)), sec@, sub@, name@, frames, interp),
{
    if str_eq(name.as_str(), "Audio In") {
        nested_set(root, sec, sub, "sampleFromAudioInput", Val::Bool(true));
    } else {
        nested_set(root, sec, sub, "relativePathToWT", Val::Text(name));
    }
    if frames != 0 {
        nested_set(root, sec, sub, "interpolateAfterLoad", Val::UInt(interp as u64));
    }
}

/// Writes the name keys into `root` (see [`names_spec`]): `st` is the
/// preset state as the conversion holds it, `preset` the parsed preset. The
/// state must hold the `interpolateAfterLoad` byte of each oscillator that
/// has an embedded wavetable.
pub fn write_names(root: &mut Val, st: &[u8], preset: &S1Preset)
    requires
        i32_at_spec(preset.blob@, OFF_OSC_WT_FRAMES as int) != 0 ==> st@.len()
            > OFF_INTERPOLATE_AFTER_LOAD,
        i32_at_spec(preset.blob@, OFF_OSC_WT_FRAMES + 4) != 0 ==> st@.len()
            > OFF_INTERPOLATE_AFTER_LOAD + 1,
    ensures
        model(*final(root)) == names_spec(model(*old(root)), st@, preset.blob@),
{
    set_leaf(root, "presetName", Val::Text(cstr(st, OFF_PRESET_NAME, 32, false)));
    set_leaf(root, "presetAuthor", Val::Text(cstr(st, OFF_AUTHOR, 48, false)));
    set_leaf(root, "presetDescription", Val::Text(cstr(st, OFF_CATEGORY, 48, false)));
    let wt_a = cstr(st, OFF_WT_NAME_A, 512, false);
    let wt_b = cstr(st, OFF_WT_NAME_B, 512, false);
    let noise = cstr(st, OFF_NOISE_NAME, 512, false);
    let fr = preset.osc_wt_frames();
    let i0: u8 = if fr[0] != 0 {
        st[OFF_INTERPOLATE_AFTER_LOAD]
    } else {
        0
    };
    let i1: u8 = if fr[1] != 0 {
        st[OFF_INTERPOLATE_AFTER_LOAD + 1]
    } else {
        0
    };
    let ghost r3 = model(*root);
    write_osc_names(root, "Oscillator0", "WTOsc0", wt_a, fr[0], i0);
    proof {
        assert(model(*root) == osc_names_m(
            r3,
            "Oscillator0"@,
            "WTOsc0"@,
            cstr_spec(st@, OFF_WT_NAME_A as int, 512, false),
            i32_at_spec(preset.blob@, OFF_OSC_WT_FRAMES as int),
            st@[OFF_INTERPOLATE_AFTER_LOAD as int],
        ));
    }
    let ghost r4 = model(*root);
    write_osc_names(root, "Oscillator1", "WTOsc1", wt_b, fr[1], i1);
    proof {
        assert(model(*root) == osc_names_m(
            r4,
            "Oscillator1"@,
            "WTOsc1"@,
            cstr_spec(st@, OFF_WT_NAME_B as int, 512, false),
            i32_at_spec(preset.blob@, OFF_OSC_WT_FRAMES + 4),
            st@[OFF_INTERPOLATE_AFTER_LOAD + 1],
        ));
    }
    if str_eq(noise.as_str(), "Audio In") {
        nested_set(root, "Oscillator3", "NoiseOsc3", "sampleFromAudioInput", Val::Bool(true));
    } else {
        nested_set(root, "Oscillator3", "NoiseOsc3", "relativePathToNoiseSample", Val::Text(noise));
    }
}

// ---------------------------------------------------------------------------
// Version gates
/// The bits of the f32 `0.134`: presets above it carry macro names.
pub const VERSION_MACRO_NAMES_BITS: u32 = 0x3E09374C;

/// The bits of the f32 `0.1299`: presets above it carry a MIDI map.
pub const VERSION_MIDI_MAP_BITS: u32 = 0x3E050481;

/// IEEE-754 `v <= t` for the f32 `v` with bits `b` and a positive finite
/// threshold `t` with bits `tb`: false for a NaN, true for a negative value
/// or zero of either sign below it, and otherwise the order of the bits,
/// which is the order of non-negative floats.
pub open spec fn f32_le_pos(b: u32, tb: u32) -> bool {
    let nan = b % 0x8000_0000 > 0x7F80_0000;
    !nan && (b >= 0x8000_0000 || b <= tb)
}

/// [`f32_le_pos`] on a version's bits.
pub fn version_at_most(b: u32, tb: u32) -> (r: bool)
    ensures
        r == f32_le_pos(b, tb),
{
    let nan = b % 0x8000_0000 > 0x7F80_0000;
    !nan && (b >= 0x8000_0000 || b <= tb)
}

// ---------------------------------------------------------------------------
// Macro names
/// The section of macro `k`.
pub open spec fn macro_key(k: int) -> Seq<char> {
    if k == 0 {
        "Macro0"@
    } else if k == 1 {
        "Macro1"@
    } else if k == 2 {
        "Macro2"@
    } else {
        "Macro3"@
    }
}

/// The name of macro `k` when the state holds none.
pub open spec fn macro_default(k: int) -> Seq<char> {
    if k == 0 {
        "Macro 1"@
    } else if k == 1 {
        "Macro 2"@
    } else if k == 2 {
        "Macro 3"@
    } else {
        "Macro 4"@
    }
}

/// The name of macro `k`: its 32-byte field, or the default when empty.
pub open spec fn macro_name(st: Seq<u8>, k: int) -> Seq<char> {
    let raw = cstr_spec(st, OFF_MACRO_NAMES + 32 * k, 32, false);
    if raw.len() == 0 {
        macro_default(k)
    } else {
        raw
    }
}

/// `Macro{k}/name` set in `r`.
pub open spec fn macro_step(r: ValModel, st: Seq<u8>, k: int) -> ValModel {
    child_set_m(r, macro_key(k), "name"@, ValModel::Text(macro_name(st, k)))
}

/// The macro names written into `r0` from the state `st` of a preset whose
/// version has the bits `ver`: nothing up to version 0.134, else the four
/// names.
pub open spec fn macro_names_spec(r0: ValModel, st: Seq<u8>, ver: u32) -> ValModel {
    if f32_le_pos(ver, VERSION_MACRO_NAMES_BITS) {
        r0
    } else {
        macro_step(macro_step(macro_step(macro_step(r0, st, 0), st, 1), st, 2), st, 3)
    }
}

fn write_macro(root: &mut Val, st: &[u8], k: usize, key: &str, default: &str)
    requires
        k < 4,
        key@ == macro_key(k as int),
        default@ == macro_default(k as int),
    ensures
        model(*final(root)) == macro_step(model(*old(root)), st@, k as int),
{
    let raw = cstr(st, OFF_MACRO_NAMES + 32 * k, 32, false);
    let name = if raw.as_str().is_empty() {
        string_of(default)
    } else {
        raw
    };
    child_set(root, key, "name", Val::Text(name));
}

/// Writes the macro names into `root` (see [`macro_names_spec`]).
pub fn write_macro_names(root: &mut Val, st: &[u8], ver: u32)
    ensures
        model(*final(root)) == macro_names_spec(model(*old(root)), st@, ver),
{
    if version_at_most(ver, VERSION_MACRO_NAMES_BITS) {
        return;
    }
    write_macro(root, st, 0, "Macro0", "Macro 1");
    write_macro(root, st, 1, "Macro1", "Macro 2");
    write_macro(root, st, 2, "Macro2", "Macro 3");
    write_macro(root, st, 3, "Macro3", "Macro 4");
}

// ---------------------------------------------------------------------------
// MIDI map
/// How many MIDI CC bytes the state holds, one per parameter.
pub const MIDI_MAP_LEN: usize = 247;

/// The MIDI map entry of parameter `i` learned to controller `cc`.
pub open spec fn midi_entry_m(cc: u8, i: int) -> ValModel {
    ValModel::Obj(
        seq![
            ("ccNum"@, ValModel::UInt(cc as u64)),
            ("paramIDs"@, ValModel::Array(seq![ValModel::UInt(i as u64)])),
        ],
    )
}

/// The entries of the first `n` parameters whose CC byte is a controller
/// (1 to 127), in parameter order.
pub open spec fn midi_entries(st: Seq<u8>, n: nat) -> Seq<ValModel>
    decreases n,
{
    if n == 0 {
        Seq::empty()
    } else {
        let prev = midi_entries(st, (n - 1) as nat);
        let cc = st[OFF_MIDI_MAP + n - 1];
        if cc != 0 && cc < 128 {
            prev.push(midi_entry_m(cc, n - 1))
        } else {
            prev
        }
    }
}

/// The MIDI map written into `r0` from the state `st` of a preset whose
/// version has the bits `ver`: nothing up to version 0.1299 or when no
/// parameter is learned, else `midiMap/midiMap` with the entries.
pub open spec fn midi_map_spec(r0: ValModel, st: Seq<u8>, ver: u32) -> ValModel {
    if f32_le_pos(ver, VERSION_MIDI_MAP_BITS) {
        r0
    } else {
        let es = midi_entries(st, MIDI_MAP_LEN as nat);
        if es.len() == 0 {
            r0
        } else {
            set_leaf_m(r0, "midiMap"@, ValModel::Obj(seq![("midiMap"@, ValModel::Array(es))]))
        }
    }
}

fn midi_entry(cc: u8, i: usize) -> (r: Val)
    ensures
        model(r) == midi_entry_m(cc, i as int),
{
    let mut ids: Vec<Val> = Vec::new();
    ids.push(Val::UInt(i as u64));
    let mut m: Vec<(String, Val)> = Vec::new();
    m.push((string_of("ccNum"), Val::UInt(cc as u64)));
    m.push((string_of("paramIDs"), Val::Array(ids)));
    proof {
        lemma_models_index(ids@);
        assert(models_of(ids@) =~= seq![ValModel::UInt(i as u64)]);
        lemma_entry_models_index(m@);
        assert(entry_models(m@) =~= seq![
            ("ccNum"@, ValModel::UInt(cc as u64)),
            ("paramIDs"@, ValModel::Array(seq![ValModel::UInt(i as u64)])),
        ]);
    }
    Val::Obj(m)
}

/// Writes the MIDI map into `root` (see [`midi_map_spec`]). A state that
/// carries a MIDI map must hold all its CC bytes.
pub fn write_midi_map(root: &mut Val, st: &[u8], ver: u32)
    requires
        !f32_le_pos(ver, VERSION_MIDI_MAP_BITS) ==> st@.len() >= OFF_MIDI_MAP + MIDI_MAP_LEN,
    ensures
        model(*final(root)) == midi_map_spec(model(*old(root)), st@, ver),
{
    if version_at_most(ver, VERSION_MIDI_MAP_BITS) {
        return;
    }
    let mut entries: Vec<Val> = Vec::new();
    let mut i: usize = 0;
    while i < MIDI_MAP_LEN
        invariant
            i <= MIDI_MAP_LEN,
            st@.len() >= OFF_MIDI_MAP + MIDI_MAP_LEN,
            models_of(entries@) == midi_entries(st@, i as nat),
        decreases MIDI_MAP_LEN - i,
    {
        let cc = st[OFF_MIDI_MAP + i];
        if cc != 0 && cc < 128 {
            let e = midi_entry(cc, i);
            let ghost before = entries@;
            entries.push(e);
            proof {
                assert(entries@.drop_last() =~= before);
            }
        }
        i += 1;
    }
    proof {
        lemma_models_index(entries@);
    }
    if entries.len() > 0 {
        let mut m: Vec<(String, Val)> = Vec::new();
        let ghost es = models_of(entries@);
        m.push((string_of("midiMap"), Val::Array(entries)));
        proof {
            lemma_entry_models_index(m@);
            assert(entry_models(m@) =~= seq![("midiMap"@, ValModel::Array(es))]);
        }
        set_leaf(root, "midiMap", Val::Obj(m));
    }
}

} // verus!
