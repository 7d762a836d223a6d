//! Verified core of a phonetic-annotation toolkit: annotation documents with
//! interval and point tiers, their integrity rules and invertible edits, an
//! undo/redo journal, id-keyed stores, the WAV header parser, the min/max
//! waveform pyramid, and content addresses.
use vstd::prelude::*;

pub mod dsp;
pub mod time;
pub mod ids;
pub mod model;
pub mod fresh;
pub mod issues;
pub mod integrity;
pub mod edits;
pub mod boundary_edits;
pub mod payloads;
pub mod undo;
pub mod annotation;
pub mod fingerprint;
pub mod search;
pub mod laws;
pub mod boundary_laws;
pub mod journal;
pub mod engine;
pub mod session;
pub mod session_laws;
pub mod dto;
pub mod figure;
pub mod paths;
pub mod wav;
pub mod recording;
pub mod lru;
pub mod audio;
pub mod waveform;
pub mod content;

verus! {

} // verus!
