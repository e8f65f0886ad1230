//! The edit: a program, not a timeline.
//!
//! Non-destructive edit-as-data: an ordered list of clips (span references
//! plus transforms) with a mandatory sources manifest, compiling to two
//! targets: mpv EDL (instant zero-render preview) and a two-stage ffmpeg
//! render plan.
pub mod compile;
pub mod rebind;
pub mod render;

use crate::number::{Rate, Real};
use crate::span::{source_text, Channel, SourceId, Span};
use crate::text::{dec, push_dec};
use std::collections::{BTreeMap, HashMap};
use vstd::prelude::*;
use vstd::string::StringExecFns;

verus! {

broadcast use {vstd::std_specs::hash::group_hash_axioms, vstd::std_specs::btree::group_btree_axioms};

/// A transform applied to a clip. Loop and Stutter preview natively in mpv
/// EDL; Reverse, Pitch and Speed are render-only. Parameter bounds are
/// enforced at compile time: rejected, never clamped.
#[derive(Debug, Clone, Copy, PartialEq, Eq, Structural)]
pub enum Transform {
    /// The whole clip plays `count` times (at least once).
    Loop { count: u32 },
    /// Both streams reversed.
    Reverse,
    /// Audio only, duration-preserving; semitones in [-24, 24].
    Pitch { semitones: Real },
    /// Audio and video time-scaled, pitch-preserving; factor in [0.25, 4].
    Speed { factor: Real },
    /// The first `slice` seconds repeated `repeats` times, then the full clip
    /// once; at least one repeat, and a slice within the clip.
    Stutter { repeats: u32, slice: Real },
}

/// The corpus unit a clip was created from. The clip's own span stays
/// authoritative.
#[derive(Debug, Clone, Copy, PartialEq, Eq, Structural)]
pub enum ProvenanceRef {
    Word(i64),
    Diphone(i64),
    Utterance(i64),
}

/// One entry in the edit: a span (an owned, nudgeable copy) plus the
/// transforms applied to it, in order.
#[derive(Debug)]
pub struct Clip {
    pub span: Span,
    pub transforms: Vec<Transform>,
    pub provenance: Option<ProvenanceRef>,
    /// Display label (the matched phrase at append time), the segment's
    /// chapter title.
    pub label: Option<String>,
}

/// What a clip is.
pub struct ClipView {
    pub span: Span,
    pub transforms: Seq<Transform>,
    pub provenance: Option<ProvenanceRef>,
    pub label: Option<Seq<char>>,
}

/// The text of an optional string.
pub open spec fn opt_text(s: Option<String>) -> Option<Seq<char>> {
    match s {
        Some(t) => Some(t@),
        None => None,
    }
}

impl View for Clip {
    type V = ClipView;

    open spec fn view(&self) -> ClipView {
        ClipView {
            span: self.span,
            transforms: self.transforms@,
            provenance: self.provenance,
            label: opt_text(self.label),
        }
    }
}

/// The clips of a list.
pub open spec fn clip_views(clips: Seq<Clip>) -> Seq<ClipView> {
    Seq::new(clips.len(), |i: int| clips[i]@)
}

/// A copy of an optional string.
pub fn clone_opt(s: &Option<String>) -> (r: Option<String>)
    ensures
        opt_text(r) == opt_text(*s),
{
    match s {
        Some(t) => Some(t.clone()),
        None => None,
    }
}

/// A copy of a transform list.
pub fn clone_transforms(v: &Vec<Transform>) -> (r: Vec<Transform>)
    ensures
        r@ == v@,
{
    let mut r: Vec<Transform> = Vec::new();
    let mut i: usize = 0;
    while i < v.len()
        invariant
            i <= v@.len(),
            r@ =~= v@.take(i as int),
        decreases v@.len() - i,
    {
        r.push(v[i]);
        i = i + 1;
    }
    r
}

impl Clone for Clip {
    fn clone(&self) -> (r: Self)
        ensures
            r@ == self@,
    {
        Clip {
            span: self.span,
            transforms: clone_transforms(&self.transforms),
            provenance: self.provenance,
            label: clone_opt(&self.label),
        }
    }
}

/// A copy of a clip list.
pub fn clone_clips(v: &Vec<Clip>) -> (r: Vec<Clip>)
    ensures
        clip_views(r@) == clip_views(v@),
{
    let mut r: Vec<Clip> = Vec::new();
    let mut i: usize = 0;
    while i < v.len()
        invariant
            i <= v@.len(),
            clip_views(r@) =~= clip_views(v@).take(i as int),
        decreases v@.len() - i,
    {
        let copy = v[i].clone();
        let ghost before = r@;
        r.push(copy);
        assert(clip_views(r@) =~= clip_views(before).push(copy@));
        i = i + 1;
    }
    r
}

/// Entry in the edit file's mandatory sources manifest.
#[derive(Debug)]
pub struct SourceRef {
    pub origin: String,
    pub origin_id: String,
    pub master_filename: String,
    /// In nanoseconds.
    pub duration: i64,
    pub master_hash: String,
}

/// What a manifest entry is.
pub struct SourceRefView {
    pub origin: Seq<char>,
    pub origin_id: Seq<char>,
    pub master_filename: Seq<char>,
    pub duration: int,
    pub master_hash: Seq<char>,
}

impl View for SourceRef {
    type V = SourceRefView;

    open spec fn view(&self) -> SourceRefView {
        SourceRefView {
            origin: self.origin@,
            origin_id: self.origin_id@,
            master_filename: self.master_filename@,
            duration: self.duration as int,
            master_hash: self.master_hash@,
        }
    }
}

impl Clone for SourceRef {
    fn clone(&self) -> (r: Self)
        ensures
            r@ == self@,
    {
        SourceRef {
            origin: self.origin.clone(),
            origin_id: self.origin_id.clone(),
            master_filename: self.master_filename.clone(),
            duration: self.duration,
            master_hash: self.master_hash.clone(),
        }
    }
}

/// A manifest as a map from source id to entry.
pub open spec fn ref_views(m: Map<i64, SourceRef>) -> Map<i64, SourceRefView> {
    m.map_values(|r: SourceRef| r@)
}

/// The edit itself: an ordered list of clips plus the manifest, keyed by
/// source id, that makes the file self-describing.
#[derive(Debug)]
pub struct Edl {
    pub clips: Vec<Clip>,
    pub sources: BTreeMap<i64, SourceRef>,
}

/// Why an edit file is refused at load.
#[derive(Debug, Clone, Copy, PartialEq, Eq, Structural)]
pub enum EdlLoadError {
    /// The first clip whose source the manifest lacks.
    MissingManifestEntry { clip_index: usize, source_id: SourceId },
}

/// The message for a clip whose source the manifest lacks.
pub open spec fn missing_entry_message(clip_index: int, source_id: SourceId) -> Seq<char> {
    "clip "@ + dec(clip_index as nat) + " references source "@ + source_text(source_id)
        + " missing from the sources manifest"@
}

/// The message for a clip whose source the manifest lacks.
pub fn missing_entry(clip_index: usize, source_id: SourceId) -> (s: String)
    ensures
        s@ == missing_entry_message(clip_index as int, source_id),
{
    let mut s: String = "clip ".to_owned();
    push_dec(&mut s, clip_index as u128);
    s.append(" references source ");
    s.append(source_id.text().as_str());
    s.append(" missing from the sources manifest");
    s
}

impl EdlLoadError {
    /// What the error tells the user.
    pub fn message(&self) -> (s: String)
        ensures
            s@ == missing_entry_message(self->clip_index as int, self->source_id),
    {
        match self {
            EdlLoadError::MissingManifestEntry { clip_index, source_id } => missing_entry(
                *clip_index,
                *source_id,
            ),
        }
    }
}

/// The first clip at or after `from` whose source `known` does not hold, or
/// the number of clips.
pub open spec fn first_uncovered(clips: Seq<ClipView>, known: Set<i64>, from: int) -> int
    decreases clips.len() - from,
{
    if from < 0 || from >= clips.len() || !known.contains(clips[from].span.source.0) {
        from
    } else {
        first_uncovered(clips, known, from + 1)
    }
}

/// The first uncovered clip stands at or after the start of the search, and
/// every clip before it is covered.
pub proof fn lemma_first_uncovered(clips: Seq<ClipView>, known: Set<i64>, from: int)
    requires
        0 <= from <= clips.len(),
    ensures
        from <= first_uncovered(clips, known, from) <= clips.len(),
        forall|i: int|
            from <= i < first_uncovered(clips, known, from) ==> known.contains(
                (#[trigger] clips[i]).span.source.0,
            ),
    decreases clips.len() - from,
{
    if from < clips.len() && known.contains(clips[from].span.source.0) {
        lemma_first_uncovered(clips, known, from + 1);
    }
}

impl Edl {
    /// An edit without clips or sources.
    pub fn empty() -> (e: Edl)
        ensures
            e.clips@ == Seq::<Clip>::empty(),
            e.sources@ == Map::<i64, SourceRef>::empty(),
    {
        Edl { clips: Vec::new(), sources: BTreeMap::new() }
    }

    /// Rejects an edit whose manifest does not cover every referenced source,
    /// naming the first clip that is not covered.
    pub fn check_manifest(&self) -> (r: Result<(), EdlLoadError>)
        ensures
            ({
                let at = first_uncovered(clip_views(self.clips@), self.sources@.dom(), 0);
                if at < self.clips@.len() {
                    r == Err::<(), EdlLoadError>(
                        EdlLoadError::MissingManifestEntry {
                            clip_index: at as usize,
                            source_id: self.clips@[at].span.source,
                        },
                    )
                } else {
                    r is Ok
                }
            }),
    {
        let ghost views = clip_views(self.clips@);
        let mut i: usize = 0;
        while i < self.clips.len()
            invariant
                i <= self.clips@.len(),
                views == clip_views(self.clips@),
                first_uncovered(views, self.sources@.dom(), 0) == first_uncovered(
                    views,
                    self.sources@.dom(),
                    i as int,
                ),
            decreases self.clips@.len() - i,
        {
            let id: SourceId = self.clips[i].span.source;
            if !self.sources.contains_key(&id.0) {
                return Err(EdlLoadError::MissingManifestEntry { clip_index: i, source_id: id });
            }
            i = i + 1;
        }
        Ok(())
    }
}

/// Per-source data the compilers need, resolved from the corpus by the caller.
#[derive(Debug)]
pub struct SourceInfo {
    pub master_path: String,
    /// In nanoseconds.
    pub duration: i64,
    /// The constant frame rate; none for audio-only sources. The preview
    /// never needs it; frame quantization requires it.
    pub fps: Option<Rate>,
}

/// What the compilers know of a source.
pub struct SourceInfoView {
    pub master_path: Seq<char>,
    pub duration: int,
    pub fps: Option<Rate>,
}

impl View for SourceInfo {
    type V = SourceInfoView;

    open spec fn view(&self) -> SourceInfoView {
        SourceInfoView {
            master_path: self.master_path@,
            duration: self.duration as int,
            fps: self.fps,
        }
    }
}

impl Clone for SourceInfo {
    fn clone(&self) -> (r: Self)
        ensures
            r@ == self@,
    {
        SourceInfo {
            master_path: self.master_path.clone(),
            duration: self.duration,
            fps: self.fps,
        }
    }
}

/// Sources by id.
pub type SourceMap = HashMap<i64, SourceInfo>;

/// A source map as a map of views.
pub open spec fn info_views(m: Map<i64, SourceInfo>) -> Map<i64, SourceInfoView> {
    m.map_values(|r: SourceInfo| r@)
}

/// Why an edit does not compile.
#[derive(Debug)]
pub enum EdlCompileError {
    UnresolvedSource { clip_index: usize, source_id: SourceId },
    ChannelUnsupported { clip_index: usize, channel: Channel },
    InvalidSpan { clip_index: usize, reason: String },
    InvalidTransform { clip_index: usize, reason: String },
    TransformUnsupported { clip_index: usize, transform: &'static str },
    MissingFps { clip_index: usize, source_id: SourceId },
}

/// What a compile error says.
pub enum CompileFault {
    UnresolvedSource { clip_index: int, source_id: SourceId },
    ChannelUnsupported { clip_index: int, channel: Channel },
    InvalidSpan { clip_index: int, reason: Seq<char> },
    InvalidTransform { clip_index: int, reason: Seq<char> },
    TransformUnsupported { clip_index: int, transform: Seq<char> },
    MissingFps { clip_index: int, source_id: SourceId },
}

impl View for EdlCompileError {
    type V = CompileFault;

    open spec fn view(&self) -> CompileFault {
        match self {
            EdlCompileError::UnresolvedSource { clip_index, source_id } =>
                CompileFault::UnresolvedSource {
                clip_index: *clip_index as int,
                source_id: *source_id,
            },
            EdlCompileError::ChannelUnsupported { clip_index, channel } =>
                CompileFault::ChannelUnsupported {
                clip_index: *clip_index as int,
                channel: *channel,
            },
            EdlCompileError::InvalidSpan { clip_index, reason } => CompileFault::InvalidSpan {
                clip_index: *clip_index as int,
                reason: reason@,
            },
            EdlCompileError::InvalidTransform { clip_index, reason } =>
                CompileFault::InvalidTransform { clip_index: *clip_index as int, reason: reason@ },
            EdlCompileError::TransformUnsupported { clip_index, transform } =>
                CompileFault::TransformUnsupported {
                clip_index: *clip_index as int,
                transform: transform@,
            },
            EdlCompileError::MissingFps { clip_index, source_id } => CompileFault::MissingFps {
                clip_index: *clip_index as int,
                source_id: *source_id,
            },
        }
    }
}

/// What a compile error tells the user.
pub open spec fn compile_message(fault: CompileFault) -> Seq<char> {
    match fault {
        CompileFault::UnresolvedSource { clip_index, source_id } => "clip "@ + dec(
            clip_index as nat,
        ) + ": source "@ + source_text(source_id) + " not in the source map"@,
        CompileFault::ChannelUnsupported { clip_index, channel } => "clip "@ + dec(
            clip_index as nat,
        ) + ": channel "@ + channel.spec_name() + " is not compilable in MVP (Both only)"@,
        CompileFault::InvalidSpan { clip_index, reason } => "clip "@ + dec(clip_index as nat)
            + ": invalid span: "@ + reason,
        CompileFault::InvalidTransform { clip_index, reason } => "clip "@ + dec(clip_index as nat)
            + ": invalid transform: "@ + reason,
        CompileFault::TransformUnsupported { clip_index, transform } => "clip "@ + dec(
            clip_index as nat,
        ) + ": transform "@ + transform + " is render-only and not implemented yet (post-MVP)"@,
        CompileFault::MissingFps { clip_index, source_id } => "clip "@ + dec(clip_index as nat)
            + ": source "@ + source_text(source_id)
            + " has no video frame rate — frame quantization needs fps"@,
    }
}

impl EdlCompileError {
    /// The clip the error is about.
    fn clip_index(&self) -> (i: usize)
        ensures
            i == match self@ {
                CompileFault::UnresolvedSource { clip_index, .. } => clip_index,
                CompileFault::ChannelUnsupported { clip_index, .. } => clip_index,
                CompileFault::InvalidSpan { clip_index, .. } => clip_index,
                CompileFault::InvalidTransform { clip_index, .. } => clip_index,
                CompileFault::TransformUnsupported { clip_index, .. } => clip_index,
                CompileFault::MissingFps { clip_index, .. } => clip_index,
            },
    {
        match self {
            EdlCompileError::UnresolvedSource { clip_index, .. } => *clip_index,
            EdlCompileError::ChannelUnsupported { clip_index, .. } => *clip_index,
            EdlCompileError::InvalidSpan { clip_index, .. } => *clip_index,
            EdlCompileError::InvalidTransform { clip_index, .. } => *clip_index,
            EdlCompileError::TransformUnsupported { clip_index, .. } => *clip_index,
            EdlCompileError::MissingFps { clip_index, .. } => *clip_index,
        }
    }

    /// What the error tells the user.
    pub fn message(&self) -> (s: String)
        ensures
            s@ == compile_message(self@),
    {
        let mut s: String = "clip ".to_owned();
        push_dec(&mut s, self.clip_index() as u128);
        match self {
            EdlCompileError::UnresolvedSource { source_id, .. } => {
                s.append(": source ");
                s.append(source_id.text().as_str());
                s.append(" not in the source map");
            },
            EdlCompileError::ChannelUnsupported { channel, .. } => {
                s.append(": channel ");
                s.append(channel.name());
                s.append(" is not compilable in MVP (Both only)");
            },
            EdlCompileError::InvalidSpan { reason, .. } => {
                s.append(": invalid span: ");
                s.append(reason.as_str());
            },
            EdlCompileError::InvalidTransform { reason, .. } => {
                s.append(": invalid transform: ");
                s.append(reason.as_str());
            },
            EdlCompileError::TransformUnsupported { transform, .. } => {
                s.append(": transform ");
                s.append(transform);
                s.append(" is render-only and not implemented yet (post-MVP)");
            },
            EdlCompileError::MissingFps { source_id, .. } => {
                s.append(": source ");
                s.append(source_id.text().as_str());
                s.append(" has no video frame rate — frame quantization needs fps");
            },
        }
        s
    }
}

} // verus!
