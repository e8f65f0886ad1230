//! The sidecar manifest contract. Versioned; the loader rejects unknown
//! versions. Every timestamp is master-relative.
use crate::fine::Fine;
use crate::number::Real;
use vstd::prelude::*;

verus! {

/// Manifest contract version the loader understands.
pub const MANIFEST_SCHEMA_VERSION: u32 = 1;

/// One source's sidecar output.
#[derive(Debug)]
pub struct Manifest {
    pub schema_version: u32,
    pub analysis: Analysis,
    /// Tool and model versions and prosody parameters, as JSON text; stored
    /// verbatim per ingest run so that parameter changes can be detected.
    pub tools: String,
    pub segments: Vec<Segment>,
    pub words: Vec<Word>,
    pub phonemes: Vec<Phoneme>,
    /// Raw diarization turns, the sidecar's only speaker output. All speaker
    /// labels on units are derived by the loader.
    pub turns: Vec<Turn>,
    /// Alignment chunk spans. The loader inserts SIL adjacency terminators at
    /// their edges.
    pub chunks: Vec<Chunk>,
    pub prosody: ProsodyMeta,
}

/// The analysed audio.
#[derive(Debug)]
pub struct Analysis {
    pub path: String,
    pub duration: Fine,
}

/// A transcript segment: one utterance row, the full-text document unit.
#[derive(Debug)]
pub struct Segment {
    pub text: String,
    pub start: Real,
    pub end: Real,
    /// Range into `words`, end-exclusive.
    pub word_index_start: usize,
    pub word_index_end: usize,
    pub confidence: Option<Real>,
}

/// A normalized token with its time.
#[derive(Debug)]
pub struct Word {
    pub text: String,
    pub start: Real,
    pub end: Real,
    pub confidence: Option<Real>,
    pub segment_index: usize,
}

/// A phone interval.
#[derive(Debug)]
pub struct Phoneme {
    /// Stress-marked ARPAbet; "SIL" for silence, "NOISE" for unknown speech.
    pub label: String,
    pub start: Real,
    pub end: Real,
    /// Reduced near a chunk edge.
    pub confidence: Option<Real>,
    /// Index into `words`; none for SIL and NOISE.
    pub word_index: Option<usize>,
}

/// A diarization turn.
#[derive(Debug)]
pub struct Turn {
    pub speaker: String,
    pub start: Real,
    pub end: Real,
}

/// An alignment chunk.
#[derive(Debug)]
pub struct Chunk {
    pub start: Real,
    pub end: Real,
    /// False when the chunk could not be aligned: the span has no phone tier.
    pub aligned: bool,
}

/// What an absent `aligned` means: the chunk was aligned.
pub fn default_true() -> (b: bool)
    ensures
        b,
{
    true
}

/// Where the frame arrays are and how their grid is laid out.
#[derive(Debug)]
pub struct ProsodyMeta {
    pub path: String,
    /// Frame i is centered at t = i * hop.
    pub hop: Fine,
    /// Must equal `1 + floor(duration / hop)`.
    pub n_frames: usize,
}

} // verus!
