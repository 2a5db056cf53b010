//! Library core for recovering Serum presets from FL Studio projects.

pub mod strs;
pub mod bytes;
pub mod scan;
pub mod serum;
pub mod flp;
pub mod zlibio;
pub mod fxp;
pub mod zip;
pub mod serum2state;
pub mod serum2preset;
pub mod s2tree;
pub mod naming;
pub mod report;
pub mod s1state;
pub mod flpconv;
pub mod commands;
pub mod reread;
pub mod cbor_roundtrip;
pub mod json_fields;
pub mod embedded;
pub mod inputs;
pub mod preset_meta;
pub mod classic_lfo;
