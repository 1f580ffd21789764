//! Kotha: offline dictation in Bengali and English.
//!
//! The library holds what the application decides and computes: cutting audio into utterances,
//! putting a transcript together, correcting its English, delivering it, and everything around a
//! dictation that can be said in plain values. Microphone, model, windows, network and floating
//! point are the application's.

pub mod capture;
pub mod checksum;
pub mod chunks;
pub mod correct;
pub mod dictionary;
pub mod distance;
pub mod download;
pub mod intake;
pub mod manifest;
pub mod mel;
pub mod number;
pub mod output;
pub mod pill;
pub mod segment;
pub mod session;
pub mod settings;
pub mod text;
pub mod transcript;
pub mod tray;
pub mod unicode;
pub mod wav;
