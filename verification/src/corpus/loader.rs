//! Loading one source's sidecar output: what of it is refused, and what rows
//! it makes (speakers, turns, utterances, words, phones, diphones). Re-ingest
//! replaces derived rows and carries named speakers forward.
use super::diphones::{
    all_cut, derived, diphone_views, law_units_hold_speech, DerivedDiphone, DiphoneView,
};
use super::features::{
    frames_of, unit_frames, ProsodyData, UnitFrames, CENTER_EPS, MFCC_DIM,
};
use super::manifest::{
    Chunk, Manifest, Phoneme, Segment, Turn, Word, MANIFEST_SCHEMA_VERSION,
};
use super::phones::{
    assign_cut_points, build_tier, insert_terminators, lemma_proper_kept, lemma_tier_proper,
    merge_sil_runs, merged, terminated, tier_of, tier_proper, tier_views, with_cuts, PhoneView, SilOrigin,
    TierPhone,
};
use super::speakers::{
    carried, carry_forward, is_multi_speaker, law_claims_are_exclusive_majorities,
    max_overlap_speaker, multi_speaker, set_views, speaker_of, TurnRow,
};
use super::{CorpusError, CorpusFault};
use crate::fine::{
    above_zero, absolute, coarse, exceeding, fine_text, less, Fine, ATTO_PER_NANO,
};
use crate::number::{Rate, Real};
use crate::span::SourceId;
use crate::text::{dec, push_dec, same, texts};
use vstd::prelude::*;
use vstd::string::StringExecFns;

verus! {

/// Source identity and playback-master facts owned by the ingest caller.
#[derive(Debug)]
pub struct SourceMeta {
    pub origin: String,
    pub origin_id: String,
    pub original_path: Option<String>,
    pub master_path: String,
    pub master_hash: String,
    /// The constant frame rate; none for audio-only sources.
    pub fps: Option<Rate>,
    pub has_video: bool,
    /// Per-stream start offsets as JSON text, recorded as an assertion trail.
    pub start_offsets: Option<String>,
}

/// How much one load has stored.
#[derive(Debug, Clone, Copy, PartialEq, Eq, Structural)]
pub struct LoadReport {
    pub source_id: SourceId,
    pub speakers: usize,
    pub utterances: usize,
    pub words: usize,
    pub phones: usize,
    pub diphones: usize,
}

// ----------------------------------------------------------------- validation

/// What is wrong with an interval of a stream of the given duration, in
/// quintillionths of a second.
pub open spec fn interval_fault(
    what: Seq<char>,
    span: (Real, Real),
    duration: int,
) -> Option<CorpusFault> {
    let (start, end) = span;
    if !start.finite() || !end.finite() || start.nanos() < 0 || end.nanos() < start.nanos()
        || end.nanos() * ATTO_PER_NANO > duration + CENTER_EPS {
        Some(CorpusFault::InvalidInterval { what, t_start: start, t_end: end })
    } else {
        None
    }
}

/// What is wrong with the first faulty interval of a list.
pub open spec fn spans_fault(
    what: Seq<char>,
    spans: Seq<(Real, Real)>,
    duration: int,
) -> Option<CorpusFault>
    decreases spans.len(),
{
    if spans.len() == 0 {
        None
    } else {
        match spans_fault(what, spans.drop_last(), duration) {
            Some(fault) => Some(fault),
            None => interval_fault(what, spans.last(), duration),
        }
    }
}

pub open spec fn segment_spans(v: Seq<Segment>) -> Seq<(Real, Real)> {
    Seq::new(v.len(), |i: int| (v[i].start, v[i].end))
}

pub open spec fn word_spans(v: Seq<Word>) -> Seq<(Real, Real)> {
    Seq::new(v.len(), |i: int| (v[i].start, v[i].end))
}

pub open spec fn phoneme_spans(v: Seq<Phoneme>) -> Seq<(Real, Real)> {
    Seq::new(v.len(), |i: int| (v[i].start, v[i].end))
}

pub open spec fn turn_spans(v: Seq<Turn>) -> Seq<(Real, Real)> {
    Seq::new(v.len(), |i: int| (v[i].start, v[i].end))
}

pub open spec fn chunk_spans(v: Seq<Chunk>) -> Seq<(Real, Real)> {
    Seq::new(v.len(), |i: int| (v[i].start, v[i].end))
}

/// The first of two faults.
pub open spec fn or_fault(a: Option<CorpusFault>, b: Option<CorpusFault>) -> Option<CorpusFault> {
    match a {
        Some(fault) => Some(fault),
        None => b,
    }
}

/// What is wrong with a manifest's times: every span must be finite, ordered,
/// and inside the analysis stream; rejected, never clamped.
pub open spec fn times_fault(m: Manifest) -> Option<CorpusFault> {
    if !above_zero(m.analysis.duration) {
        Some(
            CorpusFault::InvalidInterval {
                what: "analysis duration"@,
                t_start: Real::Nano(0),
                t_end: coarse(m.analysis.duration),
            },
        )
    } else {
        let d = m.analysis.duration->Atto_0 as int;
        or_fault(
            spans_fault("segment"@, segment_spans(m.segments@), d),
            or_fault(
                spans_fault("word"@, word_spans(m.words@), d),
                or_fault(
                    spans_fault("phoneme"@, phoneme_spans(m.phonemes@), d),
                    or_fault(
                        spans_fault("turn"@, turn_spans(m.turns@), d),
                        spans_fault("chunk"@, chunk_spans(m.chunks@), d),
                    ),
                ),
            ),
        )
    }
}

proof fn lemma_spans_stay(what: Seq<char>, spans: Seq<(Real, Real)>, d: int, n: int)
    requires
        0 <= n <= spans.len(),
        spans_fault(what, spans.take(n), d) is Some,
    ensures
        spans_fault(what, spans, d) == spans_fault(what, spans.take(n), d),
    decreases spans.len() - n,
{
    if n == spans.len() {
        assert(spans.take(n) =~= spans);
    } else {
        assert(spans.take(n + 1).drop_last() =~= spans.take(n));
        lemma_spans_stay(what, spans, d, n + 1);
    }
}

/// Without a fault every interval is in order and inside the stream.
pub proof fn lemma_spans_ok(what: Seq<char>, spans: Seq<(Real, Real)>, d: int, i: int)
    requires
        spans_fault(what, spans, d) is None,
        0 <= i < spans.len(),
    ensures
        interval_fault(what, spans[i], d) is None,
    decreases spans.len(),
{
    if i < spans.len() - 1 {
        lemma_spans_ok(what, spans.drop_last(), d, i);
    }
}

fn check_spans(what: &'static str, spans: &Vec<(Real, Real)>, duration: i128) -> (r: Result<
    (),
    CorpusError,
>)
    ensures
        match spans_fault(what@, spans@, duration as int) {
            Some(fault) => r is Err && r->Err_0@ == fault,
            None => r is Ok,
        },
{
    let mut i: usize = 0;
    assert(spans@.take(0) =~= Seq::empty());
    while i < spans.len()
        invariant
            i <= spans@.len(),
            spans_fault(what@, spans@.take(i as int), duration as int) is None,
        decreases spans@.len() - i,
    {
        assert(spans@.take(i + 1).drop_last() =~= spans@.take(i as int));
        let (start, end): (Real, Real) = spans[i];
        let good: bool = match (start, end) {
            (Real::Nano(s), Real::Nano(e)) => s >= 0 && e >= s && e as i128 * ATTO_PER_NANO
                - CENTER_EPS <= duration,
            _ => false,
        };
        if !good {
            proof {
                lemma_spans_stay(what@, spans@, duration as int, i + 1);
            }
            return Err(CorpusError::InvalidInterval { what, t_start: start, t_end: end });
        }
        i = i + 1;
    }
    assert(spans@.take(i as int) =~= spans@);
    Ok(())
}

fn spans_of_segments(v: &Vec<Segment>) -> (out: Vec<(Real, Real)>)
    ensures
        out@ == segment_spans(v@),
{
    let mut out: Vec<(Real, Real)> = Vec::new();
    let mut i: usize = 0;
    while i < v.len()
        invariant
            i <= v@.len(),
            out@ =~= segment_spans(v@).take(i as int),
        decreases v@.len() - i,
    {
        out.push((v[i].start, v[i].end));
        i = i + 1;
    }
    out
}

fn spans_of_words(v: &Vec<Word>) -> (out: Vec<(Real, Real)>)
    ensures
        out@ == word_spans(v@),
{
    let mut out: Vec<(Real, Real)> = Vec::new();
    let mut i: usize = 0;
    while i < v.len()
        invariant
            i <= v@.len(),
            out@ =~= word_spans(v@).take(i as int),
        decreases v@.len() - i,
    {
        out.push((v[i].start, v[i].end));
        i = i + 1;
    }
    out
}

fn spans_of_phonemes(v: &Vec<Phoneme>) -> (out: Vec<(Real, Real)>)
    ensures
        out@ == phoneme_spans(v@),
{
    let mut out: Vec<(Real, Real)> = Vec::new();
    let mut i: usize = 0;
    while i < v.len()
        invariant
            i <= v@.len(),
            out@ =~= phoneme_spans(v@).take(i as int),
        decreases v@.len() - i,
    {
        out.push((v[i].start, v[i].end));
        i = i + 1;
    }
    out
}

fn spans_of_turns(v: &Vec<Turn>) -> (out: Vec<(Real, Real)>)
    ensures
        out@ == turn_spans(v@),
{
    let mut out: Vec<(Real, Real)> = Vec::new();
    let mut i: usize = 0;
    while i < v.len()
        invariant
            i <= v@.len(),
            out@ =~= turn_spans(v@).take(i as int),
        decreases v@.len() - i,
    {
        out.push((v[i].start, v[i].end));
        i = i + 1;
    }
    out
}

fn spans_of_chunks(v: &Vec<Chunk>) -> (out: Vec<(Real, Real)>)
    ensures
        out@ == chunk_spans(v@),
{
    let mut out: Vec<(Real, Real)> = Vec::new();
    let mut i: usize = 0;
    while i < v.len()
        invariant
            i <= v@.len(),
            out@ =~= chunk_spans(v@).take(i as int),
        decreases v@.len() - i,
    {
        out.push((v[i].start, v[i].end));
        i = i + 1;
    }
    out
}

/// Checks every span of a manifest.
pub fn validate_spans(manifest: &Manifest) -> (r: Result<(), CorpusError>)
    ensures
        match times_fault(*manifest) {
            Some(fault) => r is Err && r->Err_0@ == fault,
            None => r is Ok,
        },
{
    let duration: i128 = match manifest.analysis.duration {
        Fine::Atto(n) => n,
        _ => 0,
    };
    if duration <= 0 {
        return Err(
            CorpusError::InvalidInterval {
                what: "analysis duration",
                t_start: Real::Nano(0),
                t_end: manifest.analysis.duration.to_real(),
            },
        );
    }
    match check_spans("segment", &spans_of_segments(&manifest.segments), duration) {
        Err(e) => {
            return Err(e);
        },
        Ok(()) => {},
    }
    match check_spans("word", &spans_of_words(&manifest.words), duration) {
        Err(e) => {
            return Err(e);
        },
        Ok(()) => {},
    }
    match check_spans("phoneme", &spans_of_phonemes(&manifest.phonemes), duration) {
        Err(e) => {
            return Err(e);
        },
        Ok(()) => {},
    }
    match check_spans("turn", &spans_of_turns(&manifest.turns), duration) {
        Err(e) => {
            return Err(e);
        },
        Ok(()) => {},
    }
    check_spans("chunk", &spans_of_chunks(&manifest.chunks), duration)
}

/// The frame count of a stream: `1 + floor(duration / hop)`, where a ratio
/// within a millionth of the next integer counts as that integer.
pub open spec fn expected_frames(duration: int, hop: int) -> int {
    1 + (duration * 1_000_000 + hop) / (hop * 1_000_000)
}

fn count_frames(duration: i128, hop: i128) -> (n: u128)
    requires
        duration > 0,
        hop > 0,
    ensures
        n == expected_frames(duration as int, hop as int),
{
    let q: i128 = duration / hop;
    let r: i128 = duration % hop;
    let up: u128 = if hop - r <= hop / 1_000_000 {
        1
    } else {
        0
    };
    proof {
        let (d, h) = (duration as int, hop as int);
        vstd::arithmetic::div_mod::lemma_fundamental_div_mod(d, h);
        vstd::arithmetic::div_mod::lemma_mod_bound(d, h);
        vstd::arithmetic::div_mod::lemma_div_pos_is_pos(d, h);
        let rest = if up == 1 {
            r * 1_000_000 + h - h * 1_000_000
        } else {
            r * 1_000_000 + h
        };
        assert(0 <= rest < h * 1_000_000);
        assert(d * 1_000_000 + h == (q + up) * (h * 1_000_000) + rest) by (nonlinear_arith)
            requires
                d == h * q + r,
                up == 0 || up == 1,
                rest == r * 1_000_000 + h - up * (h * 1_000_000),
        ;
        vstd::arithmetic::div_mod::lemma_fundamental_div_mod_converse(
            d * 1_000_000 + h,
            h * 1_000_000,
            q + up,
            rest,
        );
    }
    q as u128 + 1 + up
}

/// The message about an array whose frame count disagrees.
pub open spec fn count_message(name: Seq<char>, len: nat, declared: nat) -> Seq<char> {
    name + " has "@ + dec(len) + " frames, manifest declares "@ + dec(declared)
}

/// How the prosody frames disagree with the manifest.
pub open spec fn frames_fault(m: Manifest, p: ProsodyData) -> Option<Seq<char>> {
    let hop = m.prosody.hop;
    let declared = m.prosody.n_frames as nat;
    if !above_zero(hop) {
        Some("hop "@ + fine_text(hop) + " must be > 0"@)
    } else if exceeding(absolute(less(p.hop, hop)), CENTER_EPS as int) {
        Some("frame hop "@ + fine_text(p.hop) + " != manifest hop "@ + fine_text(hop))
    } else {
        let expected = expected_frames(m.analysis.duration->Atto_0 as int, hop->Atto_0 as int);
        if declared != expected {
            Some(
                "n_frames "@ + dec(declared) + " != 1 + floor(duration/hop) = "@ + dec(
                    expected as nat,
                ),
            )
        } else if p.f0@.len() != declared {
            Some(count_message("f0"@, p.f0@.len(), declared))
        } else if p.rms_db@.len() != declared {
            Some(count_message("rms_db"@, p.rms_db@.len(), declared))
        } else if p.mfcc@.len() / (MFCC_DIM as nat) != declared {
            Some(count_message("mfcc"@, p.mfcc@.len() / (MFCC_DIM as nat), declared))
        } else if p.mfcc@.len() % (MFCC_DIM as nat) != 0 {
            Some("mfcc array is not a whole number of frames"@)
        } else {
            None
        }
    }
}

fn count_mismatch(name: &str, len: usize, declared: usize) -> (e: CorpusError)
    ensures
        e@ == CorpusFault::FrameMismatch(count_message(name@, len as nat, declared as nat)),
{
    let mut s: String = name.to_owned();
    s.append(" has ");
    push_dec(&mut s, len as u128);
    s.append(" frames, manifest declares ");
    push_dec(&mut s, declared as u128);
    CorpusError::FrameMismatch(s)
}

/// Checks the frame arrays against the manifest.
pub fn validate_frames(manifest: &Manifest, prosody: &ProsodyData) -> (r: Result<(), CorpusError>)
    requires
        above_zero(manifest.analysis.duration),
    ensures
        match frames_fault(*manifest, *prosody) {
            Some(message) => r is Err && r->Err_0@ == CorpusFault::FrameMismatch(message),
            None => r is Ok,
        },
{
    let hop: i128 = match manifest.prosody.hop {
        Fine::Atto(n) => n,
        _ => 0,
    };
    if hop <= 0 {
        let mut s: String = "hop ".to_owned();
        s.append(manifest.prosody.hop.text().as_str());
        s.append(" must be > 0");
        return Err(CorpusError::FrameMismatch(s));
    }
    if prosody.hop.minus(manifest.prosody.hop).abs().is_above(CENTER_EPS) {
        let mut s: String = "frame hop ".to_owned();
        s.append(prosody.hop.text().as_str());
        s.append(" != manifest hop ");
        s.append(manifest.prosody.hop.text().as_str());
        return Err(CorpusError::FrameMismatch(s));
    }
    let duration: i128 = match manifest.analysis.duration {
        Fine::Atto(n) => n,
        _ => 0,
    };
    let expected: u128 = count_frames(duration, hop);
    let declared: usize = manifest.prosody.n_frames;
    if declared as u128 != expected {
        let mut s: String = "n_frames ".to_owned();
        push_dec(&mut s, declared as u128);
        s.append(" != 1 + floor(duration/hop) = ");
        push_dec(&mut s, expected);
        return Err(CorpusError::FrameMismatch(s));
    }
    if prosody.f0.len() != declared {
        return Err(count_mismatch("f0", prosody.f0.len(), declared));
    }
    if prosody.rms_db.len() != declared {
        return Err(count_mismatch("rms_db", prosody.rms_db.len(), declared));
    }
    if prosody.mfcc.len() / MFCC_DIM != declared {
        return Err(count_mismatch("mfcc", prosody.mfcc.len() / MFCC_DIM, declared));
    }
    if prosody.mfcc.len() % MFCC_DIM != 0 {
        return Err(
            CorpusError::FrameMismatch("mfcc array is not a whole number of frames".to_owned()),
        );
    }
    Ok(())
}

// ------------------------------------------------------------------- speakers

/// A speaker of the source's previous ingest, with its turns.
#[derive(Debug)]
pub struct OldSpeaker {
    pub id: i64,
    pub named: bool,
    /// In nanoseconds.
    pub turns: Vec<(i64, i64)>,
}

/// A speaker of this ingest: its label, and the old speaker (by index) whose
/// row it takes over.
#[derive(Debug)]
pub struct SpeakerPlan {
    pub label: String,
    pub inherits: Option<usize>,
}

/// What becomes of an old speaker that no new turn set inherits: a named one
/// is kept flagged stale, with its last-known turns, so that a later run can
/// reclaim it by overlap; an unnamed one is removed.
#[derive(Debug, Clone, Copy, PartialEq, Eq, Structural)]
pub enum Orphan {
    Stale(i64),
    Removed(i64),
}

/// The position of a label in a list, or the list's length.
pub open spec fn label_index(labels: Seq<Seq<char>>, label: Seq<char>, from: int) -> int
    decreases labels.len() - from,
{
    if from < 0 || from >= labels.len() || labels[from] == label {
        from
    } else {
        label_index(labels, label, from + 1)
    }
}

/// The turn labels, each once, in order of first appearance.
pub open spec fn labels_of(turns: Seq<Turn>) -> Seq<Seq<char>>
    decreases turns.len(),
{
    if turns.len() == 0 {
        Seq::empty()
    } else {
        let before = labels_of(turns.drop_last());
        if label_index(before, turns.last().speaker@, 0) < before.len() {
            before
        } else {
            before.push(turns.last().speaker@)
        }
    }
}

/// The turns of one label, in order.
pub open spec fn turns_of(turns: Seq<Turn>, label: Seq<char>) -> Seq<(i64, i64)>
    decreases turns.len(),
{
    if turns.len() == 0 {
        Seq::empty()
    } else {
        let before = turns_of(turns.drop_last(), label);
        if turns.last().speaker@ == label {
            before.push((turns.last().start->Nano_0, turns.last().end->Nano_0))
        } else {
            before
        }
    }
}

/// The turn sets of the labels.
pub open spec fn turn_sets(turns: Seq<Turn>) -> Seq<Seq<(i64, i64)>> {
    labels_of(turns).map_values(|l: Seq<char>| turns_of(turns, l))
}

/// The turn sets of the old speakers.
pub open spec fn old_sets(olds: Seq<OldSpeaker>) -> Seq<Seq<(i64, i64)>> {
    Seq::new(olds.len(), |i: int| olds[i].turns@)
}

/// Which old speaker each label inherits.
pub open spec fn inherited(turns: Seq<Turn>, olds: Seq<OldSpeaker>) -> Seq<Option<usize>> {
    carried(turn_sets(turns), old_sets(olds))
}

/// Whether some label inherits the old speaker with this id.
pub open spec fn is_inherited(olds: Seq<OldSpeaker>, matches: Seq<Option<usize>>, id: i64) -> bool {
    exists|k: int|
        #![trigger matches[k]]
        0 <= k < matches.len() && matches[k] is Some && olds[matches[k]->0 as int].id == id
}

/// What becomes of the first `n` old speakers that nobody inherits.
pub open spec fn orphans_of(
    olds: Seq<OldSpeaker>,
    matches: Seq<Option<usize>>,
    n: int,
) -> Seq<Orphan>
    decreases n,
{
    if n <= 0 {
        Seq::empty()
    } else {
        let before = orphans_of(olds, matches, n - 1);
        let s = olds[n - 1];
        if is_inherited(olds, matches, s.id) {
            before
        } else if s.named {
            before.push(Orphan::Stale(s.id))
        } else {
            before.push(Orphan::Removed(s.id))
        }
    }
}

/// Turns are finite and in order.
pub open spec fn turns_proper(turns: Seq<Turn>) -> bool {
    forall|i: int|
        #![trigger turns[i]]
        0 <= i < turns.len() ==> turns[i].start.finite() && turns[i].end.finite()
            && turns[i].start.nanos() <= turns[i].end.nanos()
}

fn find_label(labels: &Vec<String>, label: &str) -> (at: usize)
    ensures
        at == label_index(texts(labels@), label@, 0),
        at <= labels@.len(),
{
    let ghost all = texts(labels@);
    let mut i: usize = 0;
    while i < labels.len()
        invariant
            i <= labels@.len(),
            all == texts(labels@),
            label_index(all, label@, 0) == label_index(all, label@, i as int),
        decreases labels@.len() - i,
    {
        assert(all[i as int] == labels@[i as int]@);
        if same(labels[i].as_str(), label) {
            return i;
        }
        i = i + 1;
    }
    i
}

proof fn lemma_label_index(labels: Seq<Seq<char>>, label: Seq<char>, from: int)
    requires
        0 <= from <= labels.len(),
    ensures
        from <= label_index(labels, label, from) <= labels.len(),
        label_index(labels, label, from) < labels.len() ==> labels[label_index(
            labels,
            label,
            from,
        )] == label,
        forall|j: int|
            #![trigger labels[j]]
            from <= j < label_index(labels, label, from) ==> labels[j] != label,
    decreases labels.len() - from,
{
    if from < labels.len() && labels[from] != label {
        lemma_label_index(labels, label, from + 1);
    }
}

/// The labels are distinct, and every turn's label is among them.
pub proof fn lemma_labels(turns: Seq<Turn>)
    ensures
        forall|i: int, j: int|
            #![trigger labels_of(turns)[i], labels_of(turns)[j]]
            0 <= i < j < labels_of(turns).len() ==> labels_of(turns)[i] != labels_of(turns)[j],
        forall|t: int|
            #![trigger turns[t]]
            0 <= t < turns.len() ==> label_index(labels_of(turns), turns[t].speaker@, 0)
                < labels_of(turns).len(),
    decreases turns.len(),
{
    if turns.len() > 0 {
        let before = turns.drop_last();
        lemma_labels(before);
        let (a, b) = (labels_of(before), labels_of(turns));
        let label = turns.last().speaker@;
        lemma_label_index(a, label, 0);
        assert forall|t: int| #![trigger turns[t]] 0 <= t < turns.len() implies label_index(
            b,
            turns[t].speaker@,
            0,
        ) < b.len() by {
            let l = turns[t].speaker@;
            lemma_label_index(b, l, 0);
            if t < before.len() {
                assert(before[t] == turns[t]);
                lemma_label_index(a, l, 0);
                let k = label_index(a, l, 0);
                assert(b[k] == l);
            } else if b.len() > a.len() {
                assert(b[a.len() as int] == l);
            }
        }
    }
}

/// Groups turns by label.
fn group_turns(turns: &Vec<Turn>) -> (r: (Vec<String>, Vec<Vec<(i64, i64)>>))
    requires
        turns_proper(turns@),
    ensures
        texts(r.0@) == labels_of(turns@),
        set_views(r.1@) == turn_sets(turns@),
{
    let mut labels: Vec<String> = Vec::new();
    let mut sets: Vec<Vec<(i64, i64)>> = Vec::new();
    let mut t: usize = 0;
    proof {
        assert(turns@.take(0) =~= Seq::empty());
        assert(texts(labels@) =~= Seq::empty());
        assert(set_views(sets@) =~= turn_sets(turns@.take(0)));
    }
    while t < turns.len()
        invariant
            t <= turns@.len(),
            turns_proper(turns@),
            texts(labels@) == labels_of(turns@.take(t as int)),
            set_views(sets@) == turn_sets(turns@.take(t as int)),
        decreases turns@.len() - t,
    {
        let ghost before = turns@.take(t as int);
        let ghost now = turns@.take(t + 1);
        let ghost old_labels = labels_of(before);
        let ghost label = turns@[t as int].speaker@;
        let ghost old_sets_view = set_views(sets@);
        proof {
            assert(now.drop_last() =~= before);
            assert(now.last() == turns@[t as int]);
            lemma_labels(before);
            lemma_label_index(old_labels, label, 0);
            assert(labels@.len() == texts(labels@).len());
            assert(sets@.len() == set_views(sets@).len());
            assert(turns_proper(turns@));
            assert(turns@[t as int].start.finite());
        }
        let span: (i64, i64) = match (turns[t].start, turns[t].end) {
            (Real::Nano(s), Real::Nano(e)) => (s, e),
            _ => (0, 0),
        };
        let at: usize = find_label(&labels, turns[t].speaker.as_str());
        if at < labels.len() {
            let ghost old_set = sets@[at as int]@;
            sets[at].push(span);
            proof {
                assert(set_views(sets@)[at as int] == old_set.push(span));
                assert forall|k: int| 0 <= k < old_labels.len() implies #[trigger] set_views(
                    sets@,
                )[k] == turn_sets(now)[k] by {
                    assert(turn_sets(before)[k] == old_sets_view[k]);
                    if k == at {
                    } else {
                        assert(old_labels[k] != old_labels[at as int]);
                        assert(sets@[k]@ == old_sets_view[k]);
                    }
                }
                assert(set_views(sets@) =~= turn_sets(now));
            }
        } else {
            labels.push(turns[t].speaker.clone());
            let mut set: Vec<(i64, i64)> = Vec::new();
            set.push(span);
            sets.push(set);
            proof {
                assert(texts(labels@) =~= old_labels.push(label));
                lemma_no_turns(before, label);
                assert forall|k: int| 0 <= k < labels_of(now).len() implies #[trigger] set_views(
                    sets@,
                )[k] == turn_sets(now)[k] by {
                    if k < old_labels.len() {
                        assert(turn_sets(before)[k] == old_sets_view[k]);
                        assert(old_labels[k] != label);
                        assert(labels_of(now)[k] == old_labels[k]);
                    } else {
                        assert(set@ =~= turns_of(before, label).push(span));
                    }
                }
                assert(set_views(sets@) =~= turn_sets(now));
            }
        }
        t = t + 1;
    }
    assert(turns@.take(t as int) =~= turns@);
    (labels, sets)
}

proof fn lemma_no_turns(turns: Seq<Turn>, label: Seq<char>)
    requires
        label_index(labels_of(turns), label, 0) >= labels_of(turns).len(),
    ensures
        turns_of(turns, label) == Seq::<(i64, i64)>::empty(),
    decreases turns.len(),
{
    if turns.len() > 0 {
        let before = turns.drop_last();
        let (a, b) = (labels_of(before), labels_of(turns));
        lemma_label_index(a, label, 0);
        lemma_label_index(b, label, 0);
        lemma_label_index(a, turns.last().speaker@, 0);
        if label_index(a, label, 0) < a.len() {
            assert(b[label_index(a, label, 0)] == label);
        }
        if turns.last().speaker@ == label {
            lemma_labels(turns);
            assert(turns[turns.len() - 1].speaker@ == label);
        }
        lemma_no_turns(before, label);
    }
}

fn plan_orphans(old: &Vec<OldSpeaker>, matches: &Vec<Option<usize>>) -> (out: Vec<Orphan>)
    requires
        forall|k: int|
            #![trigger matches@[k]]
            0 <= k < matches@.len() && matches@[k] is Some ==> matches@[k]->0 < old@.len(),
    ensures
        out@ == orphans_of(old@, matches@, old@.len() as int),
{
    let mut out: Vec<Orphan> = Vec::new();
    let mut i: usize = 0;
    while i < old.len()
        invariant
            i <= old@.len(),
            forall|k: int|
                #![trigger matches@[k]]
                0 <= k < matches@.len() && matches@[k] is Some ==> matches@[k]->0 < old@.len(),
            out@ == orphans_of(old@, matches@, i as int),
        decreases old@.len() - i,
    {
        let id: i64 = old[i].id;
        let mut taken: bool = false;
        let mut k: usize = 0;
        while k < matches.len()
            invariant
                k <= matches@.len(),
                forall|k: int|
                    #![trigger matches@[k]]
                    0 <= k < matches@.len() && matches@[k] is Some ==> matches@[k]->0
                        < old@.len(),
                taken == exists|j: int|
                    #![trigger matches@[j]]
                    0 <= j < k && matches@[j] is Some && old@[matches@[j]->0 as int].id == id,
            decreases matches@.len() - k,
        {
            match matches[k] {
                Some(oi) => {
                    assert(matches@[k as int]->0 < old@.len());
                    if old[oi].id == id {
                        taken = true;
                    }
                },
                None => {},
            }
            k = k + 1;
        }
        if !taken {
            if old[i].named {
                out.push(Orphan::Stale(id));
            } else {
                out.push(Orphan::Removed(id));
            }
        }
        i = i + 1;
    }
    out
}

// ----------------------------------------------------------------------- rows

/// A turn bound to its speaker.
pub open spec fn turn_row(labels: Seq<Seq<char>>, turn: Turn) -> TurnRow {
    TurnRow {
        speaker_id: label_index(labels, turn.speaker@, 0) as usize,
        t_start: turn.start->Nano_0,
        t_end: turn.end->Nano_0,
    }
}

/// The turns bound to their speakers, in manifest order.
pub open spec fn turn_rows(turns: Seq<Turn>) -> Seq<TurnRow> {
    turns.map_values(|t: Turn| turn_row(labels_of(turns), t))
}

/// A turn put into a list ordered by start, after its equals.
pub open spec fn with_turn(rows: Seq<TurnRow>, row: TurnRow) -> Seq<TurnRow>
    decreases rows.len(),
{
    if rows.len() == 0 || rows.last().t_start <= row.t_start {
        rows.push(row)
    } else {
        with_turn(rows.drop_last(), row).push(rows.last())
    }
}

/// Turns ordered by start.
pub open spec fn by_start(rows: Seq<TurnRow>) -> Seq<TurnRow>
    decreases rows.len(),
{
    if rows.len() == 0 {
        Seq::empty()
    } else {
        with_turn(by_start(rows.drop_last()), rows.last())
    }
}

/// The turns of a manifest, as the unit speakers are derived from them.
pub open spec fn speaking(m: Manifest) -> Seq<TurnRow> {
    by_start(turn_rows(m.turns@))
}

fn bind_turns(turns: &Vec<Turn>, labels: &Vec<String>) -> (rows: Vec<TurnRow>)
    requires
        turns_proper(turns@),
        texts(labels@) == labels_of(turns@),
    ensures
        rows@ == turn_rows(turns@),
{
    let mut rows: Vec<TurnRow> = Vec::new();
    let mut i: usize = 0;
    while i < turns.len()
        invariant
            i <= turns@.len(),
            turns_proper(turns@),
            texts(labels@) == labels_of(turns@),
            rows@ =~= turn_rows(turns@).take(i as int),
        decreases turns@.len() - i,
    {
        assert(turns@[i as int].start.finite() && turns@[i as int].end.finite());
        let at: usize = find_label(labels, turns[i].speaker.as_str());
        match (turns[i].start, turns[i].end) {
            (Real::Nano(s), Real::Nano(e)) => {
                rows.push(TurnRow { speaker_id: at, t_start: s, t_end: e });
            },
            _ => {},
        }
        i = i + 1;
    }
    assert(turn_rows(turns@).take(i as int) =~= turn_rows(turns@));
    rows
}

fn sort_turns(rows: &Vec<TurnRow>) -> (out: Vec<TurnRow>)
    ensures
        out@ == by_start(rows@),
{
    let mut out: Vec<TurnRow> = Vec::new();
    let mut i: usize = 0;
    assert(rows@.take(0) =~= Seq::empty());
    while i < rows.len()
        invariant
            i <= rows@.len(),
            out@ == by_start(rows@.take(i as int)),
        decreases rows@.len() - i,
    {
        let row: TurnRow = rows[i];
        let ghost before = out@;
        proof {
            assert(rows@.take(i + 1).drop_last() =~= rows@.take(i as int));
            assert(before.take(before.len() as int) =~= before);
            assert(with_turn(before, row) + before.skip(before.len() as int) =~= with_turn(
                before,
                row,
            ));
        }
        let mut k: usize = out.len();
        while k > 0 && out[k - 1].t_start > row.t_start
            invariant
                k <= out@.len(),
                out@ == before,
                with_turn(before.take(k as int), row) + before.skip(k as int) == with_turn(
                    before,
                    row,
                ),
            decreases k,
        {
            proof {
                let now = before.take(k as int);
                assert(now.last() == before[k - 1]);
                assert(now.drop_last() =~= before.take(k - 1));
                assert(with_turn(now, row) + before.skip(k as int) =~= with_turn(
                    before.take(k - 1),
                    row,
                ) + before.skip(k - 1));
            }
            k = k - 1;
        }
        proof {
            if k > 0 {
                assert(before.take(k as int).last() == before[k - 1]);
            }
            assert(with_turn(before.take(k as int), row) =~= before.take(k as int).push(row));
        }
        out.insert(k, row);
        assert(out@ =~= before.take(k as int).push(row) + before.skip(k as int));
        i = i + 1;
    }
    assert(rows@.take(i as int) =~= rows@);
    out
}

/// An utterance row: the segment's normalized tokens and derived speaker.
#[derive(Debug)]
pub struct UtteranceRow {
    pub t_start: i64,
    pub t_end: i64,
    /// The segment's tokens joined: the same token stream as the word rows, so
    /// that phrase tokens and word ordinals cannot drift apart.
    pub text_norm: String,
    pub speaker: Option<usize>,
    pub multi_speaker: bool,
}

/// A word row: its place in its utterance, and its derived speaker.
#[derive(Debug, Clone, Copy, PartialEq, Eq, Structural)]
pub struct WordRow {
    pub utterance: usize,
    pub ordinal: usize,
    pub t_start: i64,
    pub t_end: i64,
    pub speaker: Option<usize>,
}

/// A phone row with its derived speaker.
#[derive(Debug)]
pub struct PhoneRow {
    pub phone: TierPhone,
    pub speaker: Option<usize>,
}

/// A diphone row with its derived speaker and the frames of its features.
#[derive(Debug)]
pub struct DiphoneRow {
    pub unit: DerivedDiphone,
    pub speaker: Option<usize>,
    pub frames: UnitFrames,
}

/// The tokens of one segment among the first words, joined by spaces.
pub open spec fn norm_text(words: Seq<Word>, segment: int) -> Seq<char>
    decreases words.len(),
{
    if words.len() == 0 {
        Seq::empty()
    } else {
        let before = norm_text(words.drop_last(), segment);
        if words.last().segment_index == segment {
            (if before.len() > 0 {
                before.push(' ')
            } else {
                before
            }) + words.last().text@
        } else {
            before
        }
    }
}

/// How many of the first `n` words belong to a segment.
pub open spec fn words_in(words: Seq<Word>, segment: int, n: int) -> nat
    decreases n,
{
    if n <= 0 {
        0
    } else if words[n - 1].segment_index == segment {
        words_in(words, segment, n - 1) + 1
    } else {
        words_in(words, segment, n - 1)
    }
}

/// What is wrong with the first faulty word among the first `n`: a segment
/// that does not exist, or a place outside the segment's word range.
pub open spec fn words_fault(m: Manifest, n: int) -> Option<CorpusFault>
    decreases n,
{
    if n <= 0 {
        None
    } else {
        match words_fault(m, n - 1) {
            Some(fault) => Some(fault),
            None => {
                let seg = m.words@[n - 1].segment_index as int;
                if seg >= m.segments@.len() {
                    Some(
                        CorpusFault::IndexOutOfRange { what: "word segment_index"@, index: seg },
                    )
                } else if n - 1 < m.segments@[seg].word_index_start || n - 1
                    >= m.segments@[seg].word_index_end {
                    Some(
                        CorpusFault::Contract(
                            "word "@ + dec((n - 1) as nat)
                                + " lies outside its segment's word_index range"@,
                        ),
                    )
                } else {
                    None
                }
            },
        }
    }
}

/// The first tier row that names a word beyond the last, as a fault.
pub open spec fn word_index_fault(tier: Seq<PhoneView>, n_words: int) -> Option<CorpusFault>
    decreases tier.len(),
{
    if tier.len() == 0 {
        None
    } else {
        match word_index_fault(tier.drop_last(), n_words) {
            Some(fault) => Some(fault),
            None => match tier.last().word_index {
                Some(wi) => if wi >= n_words {
                    Some(
                        CorpusFault::IndexOutOfRange {
                            what: "phoneme word_index"@,
                            index: wi as int,
                        },
                    )
                } else {
                    None
                },
                None => None,
            },
        }
    }
}

/// The boundaries at which adjacency ends: turn edges before chunk edges, so
/// that where they coincide the higher-precedence origin is inserted.
pub open spec fn turn_boundaries(turns: Seq<Turn>) -> Seq<(i64, SilOrigin)>
    decreases turns.len(),
{
    if turns.len() == 0 {
        Seq::empty()
    } else {
        turn_boundaries(turns.drop_last()).push(
            (turns.last().start->Nano_0, SilOrigin::Turn),
        ).push((turns.last().end->Nano_0, SilOrigin::Turn))
    }
}

pub open spec fn chunk_boundaries(chunks: Seq<Chunk>) -> Seq<(i64, SilOrigin)>
    decreases chunks.len(),
{
    if chunks.len() == 0 {
        Seq::empty()
    } else {
        chunk_boundaries(chunks.drop_last()).push(
            (chunks.last().start->Nano_0, SilOrigin::Chunk),
        ).push((chunks.last().end->Nano_0, SilOrigin::Chunk))
    }
}

/// The processed tier: terminated, merged and cut.
pub open spec fn final_tier(m: Manifest) -> Seq<PhoneView> {
    with_cuts(
        merged(
            terminated(
                tier_of(m.phonemes@)->Ok_0,
                turn_boundaries(m.turns@) + chunk_boundaries(m.chunks@),
            ),
        ),
    )
}

/// Why a load is refused, in the order in which it is checked.
pub open spec fn load_fault(m: Manifest, p: ProsodyData) -> Option<CorpusFault> {
    if m.schema_version != MANIFEST_SCHEMA_VERSION {
        Some(CorpusFault::UnknownManifestVersion(m.schema_version))
    } else {
        match times_fault(m) {
            Some(fault) => Some(fault),
            None => match frames_fault(m, p) {
                Some(message) => Some(CorpusFault::FrameMismatch(message)),
                None => match words_fault(m, m.words@.len() as int) {
                    Some(fault) => Some(fault),
                    None => match tier_of(m.phonemes@) {
                        Err(fault) => Some(fault),
                        Ok(tier) => word_index_fault(tier, m.words@.len() as int),
                    },
                },
            },
        }
    }
}

/// The speaker of a unit: a SIL unit has the speaker of its real phone, any
/// other unit that of the turn it overlaps most.
pub open spec fn unit_speaker(
    turns: Seq<TurnRow>,
    tier: Seq<PhoneView>,
    d: DiphoneView,
) -> Option<usize> {
    let (a, b) = (tier[d.phone_a], tier[d.phone_b]);
    if a.sil() {
        speaker_of(turns, b.t_start as i64, b.t_end as i64)
    } else if b.sil() {
        speaker_of(turns, a.t_start as i64, a.t_end as i64)
    } else {
        speaker_of(turns, d.t_start as i64, d.t_end as i64)
    }
}

fn tier_boundaries(turns: &Vec<Turn>, chunks: &Vec<Chunk>) -> (out: Vec<(i64, SilOrigin)>)
    requires
        forall|i: int|
            #![trigger turns@[i]]
            0 <= i < turns@.len() ==> turns@[i].start.finite() && turns@[i].end.finite(),
        forall|i: int|
            #![trigger chunks@[i]]
            0 <= i < chunks@.len() ==> chunks@[i].start.finite() && chunks@[i].end.finite(),
    ensures
        out@ == turn_boundaries(turns@) + chunk_boundaries(chunks@),
{
    let mut out: Vec<(i64, SilOrigin)> = Vec::new();
    let mut i: usize = 0;
    assert(turns@.take(0) =~= Seq::empty());
    while i < turns.len()
        invariant
            i <= turns@.len(),
            forall|i: int|
                #![trigger turns@[i]]
                0 <= i < turns@.len() ==> turns@[i].start.finite() && turns@[i].end.finite(),
            out@ == turn_boundaries(turns@.take(i as int)),
        decreases turns@.len() - i,
    {
        assert(turns@.take(i + 1).drop_last() =~= turns@.take(i as int));
        assert(turns@[i as int].start.finite());
        match (turns[i].start, turns[i].end) {
            (Real::Nano(s), Real::Nano(e)) => {
                out.push((s, SilOrigin::Turn));
                out.push((e, SilOrigin::Turn));
            },
            _ => {},
        }
        i = i + 1;
    }
    assert(turns@.take(i as int) =~= turns@);
    let ghost base = out@;
    i = 0;
    assert(chunks@.take(0) =~= Seq::empty());
    assert(base + chunk_boundaries(chunks@.take(0)) =~= base);
    while i < chunks.len()
        invariant
            i <= chunks@.len(),
            forall|i: int|
                #![trigger chunks@[i]]
                0 <= i < chunks@.len() ==> chunks@[i].start.finite() && chunks@[i].end.finite(),
            out@ == base + chunk_boundaries(chunks@.take(i as int)),
        decreases chunks@.len() - i,
    {
        let ghost before = out@;
        assert(chunks@.take(i + 1).drop_last() =~= chunks@.take(i as int));
        assert(chunks@[i as int].start.finite());
        match (chunks[i].start, chunks[i].end) {
            (Real::Nano(s), Real::Nano(e)) => {
                out.push((s, SilOrigin::Chunk));
                out.push((e, SilOrigin::Chunk));
            },
            _ => {},
        }
        assert(out@ =~= base + chunk_boundaries(chunks@.take(i + 1)));
        i = i + 1;
    }
    assert(chunks@.take(i as int) =~= chunks@);
    out
}

fn segment_text(words: &Vec<Word>, segment: usize) -> (s: String)
    ensures
        s@ == norm_text(words@, segment as int),
{
    let mut s: String = String::new();
    let mut i: usize = 0;
    assert(words@.take(0) =~= Seq::empty());
    assert(s@ =~= Seq::empty());
    while i < words.len()
        invariant
            i <= words@.len(),
            s@ == norm_text(words@.take(i as int), segment as int),
        decreases words@.len() - i,
    {
        assert(words@.take(i + 1).drop_last() =~= words@.take(i as int));
        if words[i].segment_index == segment {
            if !s.as_str().is_empty() {
                s.push(' ');
            }
            s.append(words[i].text.as_str());
        }
        i = i + 1;
    }
    assert(words@.take(i as int) =~= words@);
    s
}

/// What the utterance rows are.
pub open spec fn utterances_ok(rows: Seq<UtteranceRow>, m: Manifest) -> bool {
    let turns = speaking(m);
    &&& rows.len() == m.segments@.len()
    &&& forall|k: int|
        #![trigger rows[k]]
        0 <= k < rows.len() ==> {
            let (t_start, t_end) = (m.segments@[k].start->Nano_0, m.segments@[k].end->Nano_0);
            &&& rows[k].t_start == t_start
            &&& rows[k].t_end == t_end
            &&& rows[k].text_norm@ == norm_text(m.words@, k)
            &&& rows[k].speaker == speaker_of(turns, t_start, t_end)
            &&& rows[k].multi_speaker == multi_speaker(
                turns,
                t_start,
                t_end,
                speaker_of(turns, t_start, t_end),
            )
        }
}

/// What the word rows are.
pub open spec fn words_ok(rows: Seq<WordRow>, m: Manifest) -> bool {
    &&& rows.len() == m.words@.len()
    &&& forall|k: int|
        #![trigger rows[k]]
        0 <= k < rows.len() ==> rows[k] == (WordRow {
            utterance: m.words@[k].segment_index,
            ordinal: words_in(m.words@, m.words@[k].segment_index as int, k) as usize,
            t_start: m.words@[k].start->Nano_0,
            t_end: m.words@[k].end->Nano_0,
            speaker: speaker_of(
                speaking(m),
                m.words@[k].start->Nano_0,
                m.words@[k].end->Nano_0,
            ),
        })
}

/// What the phone rows are.
pub open spec fn phones_ok(rows: Seq<PhoneRow>, m: Manifest) -> bool {
    let tier = final_tier(m);
    &&& rows.len() == tier.len()
    &&& forall|k: int|
        #![trigger rows[k]]
        0 <= k < rows.len() ==> rows[k].phone@ == tier[k] && rows[k].speaker == speaker_of(
            speaking(m),
            tier[k].t_start as i64,
            tier[k].t_end as i64,
        )
}

/// What the diphone rows are.
pub open spec fn diphones_ok(rows: Seq<DiphoneRow>, m: Manifest, p: ProsodyData) -> bool {
    let tier = final_tier(m);
    let units = derived(tier);
    &&& rows.len() == units.len()
    &&& forall|k: int|
        #![trigger rows[k]]
        0 <= k < rows.len() ==> {
            &&& rows[k].unit@ == units[k]
            &&& rows[k].speaker == unit_speaker(speaking(m), tier, units[k])
            &&& frames_of(
                rows[k].frames,
                p.f0@,
                p.hop,
                units[k].t_start,
                units[k].t_end,
            )
        }
}

fn plan_utterances(m: &Manifest, turns: &Vec<TurnRow>) -> (rows: Vec<UtteranceRow>)
    requires
        times_fault(*m) is None,
        turns@ == speaking(*m),
    ensures
        utterances_ok(rows@, *m),
{
    let mut rows: Vec<UtteranceRow> = Vec::new();
    let mut k: usize = 0;
    while k < m.segments.len()
        invariant
            k <= m.segments@.len(),
            times_fault(*m) is None,
            turns@ == speaking(*m),
            rows@.len() == k,
            forall|j: int|
                #![trigger rows@[j]]
                0 <= j < k ==> {
                    let (t_start, t_end) = (
                        m.segments@[j].start->Nano_0,
                        m.segments@[j].end->Nano_0,
                    );
                    &&& rows@[j].t_start == t_start
                    &&& rows@[j].t_end == t_end
                    &&& rows@[j].text_norm@ == norm_text(m.words@, j)
                    &&& rows@[j].speaker == speaker_of(turns@, t_start, t_end)
                    &&& rows@[j].multi_speaker == multi_speaker(
                        turns@,
                        t_start,
                        t_end,
                        speaker_of(turns@, t_start, t_end),
                    )
                },
        decreases m.segments@.len() - k,
    {
        proof {
            let spans = segment_spans(m.segments@);
            lemma_spans_ok("segment"@, spans, m.analysis.duration->Atto_0 as int, k as int);
            assert(spans[k as int].0 == m.segments@[k as int].start);
        }
        let (t_start, t_end): (i64, i64) = match (m.segments[k].start, m.segments[k].end) {
            (Real::Nano(s), Real::Nano(e)) => (s, e),
            _ => (0, 0),
        };
        let speaker: Option<usize> = max_overlap_speaker(turns, t_start, t_end);
        let multi: bool = is_multi_speaker(turns, t_start, t_end, speaker);
        rows.push(
            UtteranceRow {
                t_start,
                t_end,
                text_norm: segment_text(&m.words, k),
                speaker,
                multi_speaker: multi,
            },
        );
        k = k + 1;
    }
    rows
}

proof fn lemma_words_in(words: Seq<Word>, segment: int, n: int)
    requires
        0 <= n,
    ensures
        words_in(words, segment, n) <= n,
    decreases n,
{
    if n > 0 {
        lemma_words_in(words, segment, n - 1);
    }
}

proof fn lemma_words_stay(m: Manifest, n: int, k: int)
    requires
        0 <= k <= n,
        words_fault(m, k) is Some,
    ensures
        words_fault(m, n) == words_fault(m, k),
    decreases n - k,
{
    if k < n {
        lemma_words_stay(m, n - 1, k);
    }
}

fn plan_words(m: &Manifest, turns: &Vec<TurnRow>) -> (r: Result<Vec<WordRow>, CorpusError>)
    requires
        times_fault(*m) is None,
        turns@ == speaking(*m),
    ensures
        match words_fault(*m, m.words@.len() as int) {
            Some(fault) => r is Err && r->Err_0@ == fault,
            None => r is Ok && words_ok(r->Ok_0@, *m),
        },
{
    let mut ordinals: Vec<usize> = Vec::new();
    let mut s: usize = 0;
    while s < m.segments.len()
        invariant
            s <= m.segments@.len(),
            ordinals@.len() == s,
            forall|j: int| #![trigger ordinals@[j]] 0 <= j < s ==> ordinals@[j] == 0,
        decreases m.segments@.len() - s,
    {
        ordinals.push(0);
        s = s + 1;
    }
    let mut rows: Vec<WordRow> = Vec::new();
    let mut k: usize = 0;
    while k < m.words.len()
        invariant
            k <= m.words@.len(),
            times_fault(*m) is None,
            turns@ == speaking(*m),
            words_fault(*m, k as int) is None,
            ordinals@.len() == m.segments@.len(),
            forall|j: int|
                #![trigger ordinals@[j]]
                0 <= j < ordinals@.len() ==> ordinals@[j] == words_in(m.words@, j, k as int),
            rows@.len() == k,
            forall|j: int|
                #![trigger rows@[j]]
                0 <= j < k ==> rows@[j] == (WordRow {
                    utterance: m.words@[j].segment_index,
                    ordinal: words_in(m.words@, m.words@[j].segment_index as int, j) as usize,
                    t_start: m.words@[j].start->Nano_0,
                    t_end: m.words@[j].end->Nano_0,
                    speaker: speaker_of(
                        turns@,
                        m.words@[j].start->Nano_0,
                        m.words@[j].end->Nano_0,
                    ),
                }),
        decreases m.words@.len() - k,
    {
        let seg: usize = m.words[k].segment_index;
        if seg >= m.segments.len() {
            proof {
                lemma_words_stay(*m, m.words@.len() as int, k + 1);
            }
            return Err(
                CorpusError::IndexOutOfRange { what: "word segment_index", index: seg },
            );
        }
        if k < m.segments[seg].word_index_start || k >= m.segments[seg].word_index_end {
            proof {
                lemma_words_stay(*m, m.words@.len() as int, k + 1);
            }
            let mut text: String = "word ".to_owned();
            push_dec(&mut text, k as u128);
            text.append(" lies outside its segment's word_index range");
            return Err(CorpusError::Contract(text));
        }
        proof {
            let spans = word_spans(m.words@);
            lemma_spans_ok("word"@, spans, m.analysis.duration->Atto_0 as int, k as int);
            assert(spans[k as int].0 == m.words@[k as int].start);
            lemma_words_in(m.words@, seg as int, k as int);
        }
        let (t_start, t_end): (i64, i64) = match (m.words[k].start, m.words[k].end) {
            (Real::Nano(s), Real::Nano(e)) => (s, e),
            _ => (0, 0),
        };
        let ordinal: usize = ordinals[seg];
        ordinals.set(seg, ordinal + 1);
        rows.push(
            WordRow {
                utterance: seg,
                ordinal,
                t_start,
                t_end,
                speaker: max_overlap_speaker(turns, t_start, t_end),
            },
        );
        k = k + 1;
    }
    Ok(rows)
}

proof fn lemma_word_index_stays(tier: Seq<PhoneView>, n_words: int, k: int)
    requires
        0 <= k <= tier.len(),
        word_index_fault(tier.take(k), n_words) is Some,
    ensures
        word_index_fault(tier, n_words) == word_index_fault(tier.take(k), n_words),
    decreases tier.len() - k,
{
    if k == tier.len() {
        assert(tier.take(k) =~= tier);
    } else {
        assert(tier.take(k + 1).drop_last() =~= tier.take(k));
        lemma_word_index_stays(tier, n_words, k + 1);
    }
}

fn check_word_indices(tier: &Vec<TierPhone>, n_words: usize) -> (r: Result<(), CorpusError>)
    ensures
        match word_index_fault(tier_views(tier@), n_words as int) {
            Some(fault) => r is Err && r->Err_0@ == fault,
            None => r is Ok,
        },
{
    let ghost all = tier_views(tier@);
    let mut i: usize = 0;
    assert(all.take(0) =~= Seq::empty());
    while i < tier.len()
        invariant
            i <= tier@.len(),
            all == tier_views(tier@),
            word_index_fault(all.take(i as int), n_words as int) is None,
        decreases tier@.len() - i,
    {
        assert(all.take(i + 1).drop_last() =~= all.take(i as int));
        assert(all.take(i + 1).last() == tier@[i as int]@);
        match tier[i].word_index {
            Some(wi) => {
                if wi >= n_words {
                    proof {
                        lemma_word_index_stays(all, n_words as int, i + 1);
                    }
                    return Err(
                        CorpusError::IndexOutOfRange { what: "phoneme word_index", index: wi },
                    );
                }
            },
            None => {},
        }
        i = i + 1;
    }
    assert(all.take(i as int) =~= all);
    Ok(())
}

/// The processed phone tier of a manifest.
fn plan_tier(m: &Manifest) -> (r: Result<Vec<TierPhone>, CorpusError>)
    requires
        times_fault(*m) is None,
    ensures
        match tier_of(m.phonemes@) {
            Err(fault) => r is Err && r->Err_0@ == fault,
            Ok(tier) => match word_index_fault(tier, m.words@.len() as int) {
                Some(fault) => r is Err && r->Err_0@ == fault,
                None => r is Ok && tier_views(r->Ok_0@) == final_tier(*m) && tier_proper(
                    final_tier(*m),
                ) && all_cut(final_tier(*m)),
            },
        },
{
    let mut tier: Vec<TierPhone> = match build_tier(&m.phonemes) {
        Ok(tier) => tier,
        Err(e) => {
            return Err(e);
        },
    };
    match check_word_indices(&tier, m.words.len()) {
        Ok(()) => {},
        Err(e) => {
            return Err(e);
        },
    }
    proof {
        let d = m.analysis.duration->Atto_0 as int;
        let turns = turn_spans(m.turns@);
        assert forall|i: int| #![trigger m.turns@[i]] 0 <= i < m.turns@.len() implies
            m.turns@[i].start.finite() && m.turns@[i].end.finite() by {
            lemma_spans_ok("turn"@, turns, d, i);
            assert(turns[i] == (m.turns@[i].start, m.turns@[i].end));
        }
        let chunks = chunk_spans(m.chunks@);
        assert forall|i: int| #![trigger m.chunks@[i]] 0 <= i < m.chunks@.len() implies
            m.chunks@[i].start.finite() && m.chunks@[i].end.finite() by {
            lemma_spans_ok("chunk"@, chunks, d, i);
            assert(chunks[i] == (m.chunks@[i].start, m.chunks@[i].end));
        }
        lemma_tier_proper(m.phonemes@);
    }
    let boundaries: Vec<(i64, SilOrigin)> = tier_boundaries(&m.turns, &m.chunks);
    proof {
        lemma_proper_kept(tier_views(tier@), boundaries@);
    }
    insert_terminators(&mut tier, &boundaries);
    proof {
        lemma_proper_kept(tier_views(tier@), Seq::empty());
    }
    let mut tier: Vec<TierPhone> = merge_sil_runs(tier);
    proof {
        lemma_proper_kept(tier_views(tier@), Seq::empty());
    }
    let ghost uncut = tier_views(tier@);
    assign_cut_points(&mut tier);
    proof {
        let cuts = with_cuts(uncut);
        assert forall|i: int|
            #![trigger cuts[i]]
            0 <= i < cuts.len() && cuts[i].speech() implies cuts[i].cut_t is Some by {
            assert(uncut[i].speech());
        }
    }
    Ok(tier)
}

fn plan_diphones(
    tier: &Vec<TierPhone>,
    turns: &Vec<TurnRow>,
    f0: &Vec<u32>,
    hop: Fine,
    m: Ghost<Manifest>,
    p: Ghost<ProsodyData>,
) -> (rows: Vec<DiphoneRow>)
    requires
        tier_views(tier@) == final_tier(m@),
        tier_proper(final_tier(m@)),
        all_cut(final_tier(m@)),
        turns@ == speaking(m@),
        f0@ == p@.f0@,
        f0@.len() > 0,
        hop == p@.hop,
    ensures
        diphones_ok(rows@, m@, p@),
{
    let ghost all = tier_views(tier@);
    let units: Vec<DerivedDiphone> = super::diphones::derive(tier);
    let ghost views = diphone_views(units@);
    let mut rows: Vec<DiphoneRow> = Vec::new();
    let mut left: Vec<DerivedDiphone> = units;
    let mut done: Vec<DiphoneRow> = Vec::new();
    while left.len() > 0
        invariant
            all == tier_views(tier@),
            all == final_tier(m@),
            views == derived(all),
            turns@ == speaking(m@),
            f0@ == p@.f0@,
            f0@.len() > 0,
            hop == p@.hop,
            left@.len() + done@.len() == views.len(),
            diphone_views(left@) =~= views.take(left@.len() as int),
            forall|j: int|
                #![trigger done@[j]]
                0 <= j < done@.len() ==> {
                    let k = views.len() - 1 - j;
                    &&& done@[j].unit@ == views[k]
                    &&& done@[j].speaker == unit_speaker(turns@, all, views[k])
                    &&& frames_of(
                        done@[j].frames,
                        f0@,
                        hop,
                        views[k].t_start,
                        views[k].t_end,
                    )
                },
        decreases left@.len(),
    {
        let ghost k = left@.len() - 1;
        let ghost before = diphone_views(left@);
        match left.pop() {
            Some(unit) => {
                proof {
                    assert(unit@ == before[k]);
                    assert(unit@ == views[k]);
                    law_units_hold_speech(all, k);
                    assert(diphone_views(left@) =~= views.take(left@.len() as int));
                }
                let a: &TierPhone = &tier[unit.phone_a];
                let b: &TierPhone = &tier[unit.phone_b];
                assert(all[unit.phone_a as int] == a@ && all[unit.phone_b as int] == b@);
                let speaker: Option<usize> = if a.is_sil() {
                    max_overlap_speaker(turns, b.t_start, b.t_end)
                } else if b.is_sil() {
                    max_overlap_speaker(turns, a.t_start, a.t_end)
                } else {
                    max_overlap_speaker(turns, unit.t_start, unit.t_end)
                };
                let frames: UnitFrames = unit_frames(f0, hop, unit.t_start, unit.t_end);
                done.push(DiphoneRow { unit, speaker, frames });
            },
            None => {},
        }
    }
    while done.len() > 0
        invariant
            all == final_tier(m@),
            views == derived(all),
            turns@ == speaking(m@),
            f0@ == p@.f0@,
            hop == p@.hop,
            rows@.len() + done@.len() == views.len(),
            forall|j: int|
                #![trigger done@[j]]
                0 <= j < done@.len() ==> {
                    let k = views.len() - 1 - j;
                    &&& done@[j].unit@ == views[k]
                    &&& done@[j].speaker == unit_speaker(turns@, all, views[k])
                    &&& frames_of(
                        done@[j].frames,
                        f0@,
                        hop,
                        views[k].t_start,
                        views[k].t_end,
                    )
                },
            forall|k: int|
                #![trigger rows@[k]]
                0 <= k < rows@.len() ==> {
                    &&& rows@[k].unit@ == views[k]
                    &&& rows@[k].speaker == unit_speaker(turns@, all, views[k])
                    &&& frames_of(
                        rows@[k].frames,
                        f0@,
                        hop,
                        views[k].t_start,
                        views[k].t_end,
                    )
                },
        decreases done@.len(),
    {
        let ghost last = done@.last();
        assert(done@[done@.len() - 1] == last);
        match done.pop() {
            Some(row) => {
                rows.push(row);
            },
            None => {},
        }
    }
    rows
}

// ----------------------------------------------------------------------- plan

/// Everything that one load stores, in terms of the manifest: speakers by
/// index, utterances by segment, words and phones by row.
#[derive(Debug)]
pub struct LoadPlan {
    pub speakers: Vec<SpeakerPlan>,
    pub orphans: Vec<Orphan>,
    /// The turns with their speakers, in manifest order.
    pub turns: Vec<TurnRow>,
    pub utterances: Vec<UtteranceRow>,
    pub words: Vec<WordRow>,
    pub phones: Vec<PhoneRow>,
    pub diphones: Vec<DiphoneRow>,
}

/// What the speaker plans are.
pub open spec fn speakers_ok(v: Seq<SpeakerPlan>, m: Manifest, olds: Seq<OldSpeaker>) -> bool {
    let labels = labels_of(m.turns@);
    let matches = inherited(m.turns@, olds);
    &&& v.len() == labels.len()
    &&& matches.len() == labels.len()
    &&& forall|k: int|
        #![trigger v[k]]
        0 <= k < v.len() ==> v[k].label@ == labels[k] && v[k].inherits == matches[k]
}

/// What a load plan holds for a manifest that is not refused.
pub open spec fn planned_load(
    plan: LoadPlan,
    m: Manifest,
    p: ProsodyData,
    olds: Seq<OldSpeaker>,
) -> bool {
    &&& speakers_ok(plan.speakers@, m, olds)
    &&& plan.orphans@ == orphans_of(olds, inherited(m.turns@, olds), olds.len() as int)
    &&& plan.turns@ == turn_rows(m.turns@)
    &&& utterances_ok(plan.utterances@, m)
    &&& words_ok(plan.words@, m)
    &&& phones_ok(plan.phones@, m)
    &&& diphones_ok(plan.diphones@, m, p)
}

fn plan_speakers(m: &Manifest, old: &Vec<OldSpeaker>) -> (r: (
    Vec<SpeakerPlan>,
    Vec<Orphan>,
    Vec<TurnRow>,
))
    requires
        turns_proper(m.turns@),
    ensures
        speakers_ok(r.0@, *m, old@),
        r.1@ == orphans_of(old@, inherited(m.turns@, old@), old@.len() as int),
        r.2@ == turn_rows(m.turns@),
{
    let (labels, sets): (Vec<String>, Vec<Vec<(i64, i64)>>) = group_turns(&m.turns);
    let mut olds: Vec<Vec<(i64, i64)>> = Vec::new();
    let mut i: usize = 0;
    while i < old.len()
        invariant
            i <= old@.len(),
                set_views(olds@) =~= old_sets(old@).take(i as int),
        decreases old@.len() - i,
    {
        let ghost before = set_views(olds@);
        let mut set: Vec<(i64, i64)> = Vec::new();
        let mut k: usize = 0;
        while k < old[i].turns.len()
            invariant
                i < old@.len(),
                k <= old@[i as int].turns@.len(),
                set@ =~= old@[i as int].turns@.take(k as int),
            decreases old@[i as int].turns@.len() - k,
        {
            set.push(old[i].turns[k]);
            k = k + 1;
        }
        assert(set@ =~= old@[i as int].turns@);
        olds.push(set);
        assert(set_views(olds@) =~= before.push(set@));
        i = i + 1;
    }
    assert(set_views(olds@) =~= old_sets(old@));
    let matches: Vec<Option<usize>> = carry_forward(&sets, &olds);
    proof {
        assert(olds.len() == set_views(olds@).len());
        law_claims_are_exclusive_majorities(turn_sets(m.turns@), old_sets(old@));
        assert(matches@ == inherited(m.turns@, old@));
        assert(matches@.len() == labels_of(m.turns@).len());
        assert(labels@.len() == texts(labels@).len());
    }
    let mut speakers: Vec<SpeakerPlan> = Vec::new();
    let mut n: usize = 0;
    while n < labels.len()
        invariant
            n <= labels@.len(),
            labels@.len() == matches@.len(),
            texts(labels@) == labels_of(m.turns@),
            speakers@.len() == n,
            forall|k: int|
                #![trigger speakers@[k]]
                0 <= k < n ==> speakers@[k].label@ == labels_of(m.turns@)[k]
                    && speakers@[k].inherits == matches@[k],
        decreases labels@.len() - n,
    {
        assert(texts(labels@)[n as int] == labels@[n as int]@);
        speakers.push(SpeakerPlan { label: labels[n].clone(), inherits: matches[n] });
        n = n + 1;
    }
    let orphans: Vec<Orphan> = plan_orphans(old, &matches);
    let turns: Vec<TurnRow> = bind_turns(&m.turns, &labels);
    (speakers, orphans, turns)
}

/// Plans the load of one source's sidecar output, or says why it is refused.
/// A source that was ingested before hands in its old speakers.
pub fn plan_load(manifest: &Manifest, prosody: &ProsodyData, old: &Vec<OldSpeaker>) -> (r: Result<
    LoadPlan,
    CorpusError,
>)
    ensures
        match load_fault(*manifest, *prosody) {
            Some(fault) => r is Err && r->Err_0@ == fault,
            None => r is Ok && planned_load(r->Ok_0, *manifest, *prosody, old@),
        },
{
    if manifest.schema_version != MANIFEST_SCHEMA_VERSION {
        return Err(CorpusError::UnknownManifestVersion(manifest.schema_version));
    }
    match validate_spans(manifest) {
        Err(e) => {
            return Err(e);
        },
        Ok(()) => {},
    }
    match validate_frames(manifest, prosody) {
        Err(e) => {
            return Err(e);
        },
        Ok(()) => {},
    }
    proof {
        let spans = turn_spans(manifest.turns@);
        let d = manifest.analysis.duration->Atto_0 as int;
        assert forall|i: int| #![trigger manifest.turns@[i]] 0 <= i < manifest.turns@.len() implies
            manifest.turns@[i].start.finite() && manifest.turns@[i].end.finite()
            && manifest.turns@[i].start.nanos() <= manifest.turns@[i].end.nanos() by {
            lemma_spans_ok("turn"@, spans, d, i);
            assert(spans[i] == (manifest.turns@[i].start, manifest.turns@[i].end));
        }
        vstd::arithmetic::div_mod::lemma_div_pos_is_pos(
            d * 1_000_000 + manifest.prosody.hop->Atto_0,
            manifest.prosody.hop->Atto_0 * 1_000_000,
        );
    }
    let (speakers, orphans, turns): (Vec<SpeakerPlan>, Vec<Orphan>, Vec<TurnRow>) =
        plan_speakers(manifest, old);
    let rows: Vec<TurnRow> = sort_turns(&turns);
    let utterances: Vec<UtteranceRow> = plan_utterances(manifest, &rows);
    let words: Vec<WordRow> = match plan_words(manifest, &rows) {
        Ok(words) => words,
        Err(e) => {
            return Err(e);
        },
    };
    let tier: Vec<TierPhone> = match plan_tier(manifest) {
        Ok(tier) => tier,
        Err(e) => {
            return Err(e);
        },
    };
    let diphones: Vec<DiphoneRow> = plan_diphones(
        &tier,
        &rows,
        &prosody.f0,
        prosody.hop,
        Ghost(*manifest),
        Ghost(*prosody),
    );
    let ghost views = tier_views(tier@);
    let mut phones: Vec<PhoneRow> = Vec::new();
    let mut i: usize = 0;
    while i < tier.len()
        invariant
            i <= tier@.len(),
            views == tier_views(tier@),
            rows@ == speaking(*manifest),
            phones@.len() == i,
            forall|k: int|
                #![trigger phones@[k]]
                0 <= k < i ==> phones@[k].phone@ == views[k] && phones@[k].speaker == speaker_of(
                    rows@,
                    views[k].t_start as i64,
                    views[k].t_end as i64,
                ),
        decreases tier@.len() - i,
    {
        assert(views[i as int] == tier@[i as int]@);
        phones.push(
            PhoneRow {
                phone: tier[i].clone(),
                speaker: max_overlap_speaker(&rows, tier[i].t_start, tier[i].t_end),
            },
        );
        i = i + 1;
    }
    Ok(LoadPlan { speakers, orphans, turns, utterances, words, phones, diphones })
}

impl LoadPlan {
    /// How much the plan stores.
    pub fn report(&self, source_id: SourceId) -> (r: LoadReport)
        ensures
            r == (LoadReport {
                source_id,
                speakers: self.speakers@.len() as usize,
                utterances: self.utterances@.len() as usize,
                words: self.words@.len() as usize,
                phones: self.phones@.len() as usize,
                diphones: self.diphones@.len() as usize,
            }),
    {
        LoadReport {
            source_id,
            speakers: self.speakers.len(),
            utterances: self.utterances.len(),
            words: self.words.len(),
            phones: self.phones.len(),
            diphones: self.diphones.len(),
        }
    }
}

// ----------------------------------------------------------------------- laws

/// The texts of one segment's words, in order.
pub open spec fn segment_words(words: Seq<Word>, segment: int) -> Seq<Seq<char>>
    decreases words.len(),
{
    if words.len() == 0 {
        Seq::empty()
    } else if words.last().segment_index == segment {
        segment_words(words.drop_last(), segment).push(words.last().text@)
    } else {
        segment_words(words.drop_last(), segment)
    }
}

/// The indexed text and the word rows are one token stream: a word's ordinal is
/// its position among its segment's words.
pub proof fn law_ordinals_are_positions(words: Seq<Word>, segment: int, k: int)
    requires
        0 <= k < words.len(),
        words[k].segment_index == segment,
    ensures
        words_in(words, segment, k) < segment_words(words, segment).len(),
        segment_words(words, segment)[words_in(words, segment, k) as int] == words[k].text@,
    decreases words.len(),
{
    let before = words.drop_last();
    lemma_words_in_prefix(words, segment, before.len() as int);
    lemma_segment_words_len(before, segment);
    if k < before.len() {
        law_ordinals_are_positions(before, segment, k);
        assert(before[k] == words[k]);
        lemma_words_in_prefix(words, segment, k);
    }
}

proof fn lemma_words_in_prefix(words: Seq<Word>, segment: int, n: int)
    requires
        0 <= n < words.len(),
    ensures
        words_in(words, segment, n) == words_in(words.drop_last(), segment, n),
    decreases n,
{
    if n > 0 {
        lemma_words_in_prefix(words, segment, n - 1);
    }
}

proof fn lemma_segment_words_len(words: Seq<Word>, segment: int)
    ensures
        segment_words(words, segment).len() == words_in(words, segment, words.len() as int),
    decreases words.len(),
{
    if words.len() > 0 {
        lemma_segment_words_len(words.drop_last(), segment);
        lemma_words_in_prefix(words, segment, words.len() - 1);
    }
}

/// The indexed text of a segment is its words joined by spaces, where no word
/// is empty.
pub proof fn law_text_is_the_word_stream(words: Seq<Word>, segment: int)
    requires
        forall|k: int| #![trigger words[k]] 0 <= k < words.len() ==> words[k].text@.len() > 0,
    ensures
        norm_text(words, segment) == crate::text::joined(segment_words(words, segment), " "@),
        segment_words(words, segment).len() > 0 ==> norm_text(words, segment).len() > 0,
    decreases words.len(),
{
    reveal_strlit(" ");
    if words.len() > 0 {
        let before = words.drop_last();
        assert forall|k: int| #![trigger before[k]] 0 <= k < before.len() implies
            before[k].text@.len() > 0 by {
            assert(words[k].text@.len() > 0);
        }
        law_text_is_the_word_stream(before, segment);
        let (a, b) = (segment_words(before, segment), segment_words(words, segment));
        let text = words.last().text@;
        assert(words[words.len() - 1].text@.len() > 0);
        if words.last().segment_index == segment {
            assert(b.drop_last() =~= a);
            assert(b.last() == text);
            if a.len() == 0 {
                assert(norm_text(words, segment) =~= text);
            } else {
                assert(norm_text(before, segment).push(' ') =~= norm_text(before, segment)
                    + " "@);
            }
        }
    }
}

/// A speaker row is removed only where the speaker is unnamed and no new turn
/// set inherits it: a named speaker is never lost.
pub proof fn law_named_speakers_survive(
    olds: Seq<OldSpeaker>,
    matches: Seq<Option<usize>>,
    n: int,
    k: int,
)
    requires
        n <= olds.len(),
        0 <= k < orphans_of(olds, matches, n).len(),
        orphans_of(olds, matches, n)[k] is Removed,
    ensures
        exists|i: int|
            #![trigger olds[i]]
            0 <= i < n && olds[i].id == orphans_of(olds, matches, n)[k]->Removed_0
                && !olds[i].named && !is_inherited(olds, matches, olds[i].id),
    decreases n,
{
    let before = orphans_of(olds, matches, n - 1);
    if k < before.len() {
        law_named_speakers_survive(olds, matches, n - 1, k);
    } else {
        assert(olds[n - 1].id == orphans_of(olds, matches, n)[k]->Removed_0);
    }
}

/// Whether a span lies in a stream of the given length: finite, in order, not
/// before its start, and at most a nanosecond beyond its end.
pub open spec fn in_stream(start: Real, end: Real, duration: int) -> bool {
    start matches Real::Nano(s) && end matches Real::Nano(e) && 0 <= s <= e && e * 1_000_000_000
        <= duration + 1_000_000_000
}

proof fn lemma_spans_fault(what: Seq<char>, spans: Seq<(Real, Real)>, d: int)
    ensures
        spans_fault(what, spans, d) is None <==> forall|i: int|
            #![trigger spans[i]]
            0 <= i < spans.len() ==> in_stream(spans[i].0, spans[i].1, d),
    decreases spans.len(),
{
    if spans.len() > 0 {
        let before = spans.drop_last();
        lemma_spans_fault(what, before, d);
        assert(spans[spans.len() - 1] == spans.last());
        assert forall|i: int| #![trigger spans[i]] 0 <= i < before.len() implies before[i]
            == spans[i] by {}
        if spans_fault(what, before, d) is None {
            assert forall|i: int| #![trigger spans[i]] 0 <= i < before.len() implies in_stream(
                spans[i].0,
                spans[i].1,
                d,
            ) by {
                assert(before[i] == spans[i]);
            }
        } else {
            let i = choose|i: int|
                #![trigger before[i]]
                0 <= i < before.len() && !in_stream(before[i].0, before[i].1, d);
            assert(!in_stream(spans[i].0, spans[i].1, d));
        }
    }
}

/// A manifest's times are accepted iff its stream has a length and every segment,
/// word, phoneme, turn and chunk lies in it.
pub proof fn law_times_are_accepted_inside_the_stream(m: Manifest, duration: i128)
    requires
        m.analysis.duration == Fine::Atto(duration),
    ensures
        times_fault(m) is None <==> {
            let d = duration as int;
            &&& d > 0
            &&& forall|i: int|
                #![trigger m.segments@[i]]
                0 <= i < m.segments@.len() ==> in_stream(m.segments@[i].start, m.segments@[i].end, d)
            &&& forall|i: int|
                #![trigger m.words@[i]]
                0 <= i < m.words@.len() ==> in_stream(m.words@[i].start, m.words@[i].end, d)
            &&& forall|i: int|
                #![trigger m.phonemes@[i]]
                0 <= i < m.phonemes@.len() ==> in_stream(m.phonemes@[i].start, m.phonemes@[i].end, d)
            &&& forall|i: int|
                #![trigger m.turns@[i]]
                0 <= i < m.turns@.len() ==> in_stream(m.turns@[i].start, m.turns@[i].end, d)
            &&& forall|i: int|
                #![trigger m.chunks@[i]]
                0 <= i < m.chunks@.len() ==> in_stream(m.chunks@[i].start, m.chunks@[i].end, d)
        },
{
    let d = duration as int;
    let (a, b, c) = (segment_spans(m.segments@), word_spans(m.words@), phoneme_spans(m.phonemes@));
    let (e, f) = (turn_spans(m.turns@), chunk_spans(m.chunks@));
    lemma_spans_fault("segment"@, a, d);
    lemma_spans_fault("word"@, b, d);
    lemma_spans_fault("phoneme"@, c, d);
    lemma_spans_fault("turn"@, e, d);
    lemma_spans_fault("chunk"@, f, d);
    assert forall|i: int| #![trigger m.segments@[i]] 0 <= i < m.segments@.len() implies a[i] == (
        m.segments@[i].start,
        m.segments@[i].end,
    ) by {}
    assert forall|i: int| #![trigger m.words@[i]] 0 <= i < m.words@.len() implies b[i] == (
        m.words@[i].start,
        m.words@[i].end,
    ) by {}
    assert forall|i: int| #![trigger m.phonemes@[i]] 0 <= i < m.phonemes@.len() implies c[i] == (
        m.phonemes@[i].start,
        m.phonemes@[i].end,
    ) by {}
    assert forall|i: int| #![trigger m.turns@[i]] 0 <= i < m.turns@.len() implies e[i] == (
        m.turns@[i].start,
        m.turns@[i].end,
    ) by {}
    assert forall|i: int| #![trigger m.chunks@[i]] 0 <= i < m.chunks@.len() implies f[i] == (
        m.chunks@[i].start,
        m.chunks@[i].end,
    ) by {}
}

/// Frames that are accepted lie on the manifest's grid: as many as it declares,
/// one for each whole hop in the stream and one more (to a millionth of a hop),
/// thirteen coefficients each.
pub proof fn law_accepted_frames_fill_the_stream(
    m: Manifest,
    p: ProsodyData,
    duration: i128,
    hop: i128,
)
    requires
        m.analysis.duration == Fine::Atto(duration),
        m.prosody.hop == Fine::Atto(hop),
        0 < duration,
        frames_fault(m, p) is None,
    ensures
        ({
            let n = m.prosody.n_frames as int;
            &&& hop > 0
            &&& p.f0@.len() == n
            &&& p.rms_db@.len() == n
            &&& p.mfcc@.len() == 13 * n
            &&& (n - 1) * (hop * 1_000_000) <= duration * 1_000_000 + hop < n * (hop * 1_000_000)
        }),
{
    let n = m.prosody.n_frames as int;
    let (x, d) = (duration * 1_000_000 + hop, hop * 1_000_000);
    vstd::arithmetic::div_mod::lemma_fundamental_div_mod(x, d);
    vstd::arithmetic::div_mod::lemma_mod_bound(x, d);
    assert(n == 1 + x / d);
    assert((n - 1) * d == d * (x / d)) by (nonlinear_arith)
        requires
            n == 1 + x / d,
    ;
    assert(n * d == d * (x / d) + d) by (nonlinear_arith)
        requires
            n == 1 + x / d,
    ;
}

/// Words are accepted iff each names a segment and lies in its word range.
pub proof fn law_words_are_accepted_in_their_segments(m: Manifest, n: int)
    requires
        0 <= n <= m.words@.len(),
    ensures
        words_fault(m, n) is None <==> forall|i: int|
            #![trigger m.words@[i]]
            0 <= i < n ==> {
                let s = m.words@[i].segment_index as int;
                s < m.segments@.len() && m.segments@[s].word_index_start <= i
                    < m.segments@[s].word_index_end
            },
    decreases n,
{
    if n > 0 {
        law_words_are_accepted_in_their_segments(m, n - 1);
        let w = m.words@[n - 1];
    }
}

/// A tier is accepted iff no row names a word that there is not.
pub proof fn law_rows_name_existing_words(tier: Seq<PhoneView>, n_words: int)
    ensures
        word_index_fault(tier, n_words) is None <==> forall|i: int|
            #![trigger tier[i]]
            0 <= i < tier.len() && tier[i].word_index is Some ==> tier[i].word_index->0 < n_words,
    decreases tier.len(),
{
    if tier.len() > 0 {
        let before = tier.drop_last();
        law_rows_name_existing_words(before, n_words);
        assert(tier[tier.len() - 1] == tier.last());
        assert forall|i: int| #![trigger tier[i]] 0 <= i < before.len() implies before[i]
            == tier[i] by {}
        if word_index_fault(before, n_words) is Some {
            let i = choose|i: int|
                #![trigger before[i]]
                0 <= i < before.len() && before[i].word_index is Some && before[i].word_index->0
                    >= n_words;
            assert(tier[i].word_index is Some && tier[i].word_index->0 >= n_words);
        }
    }
}

/// Every speaker label is listed, none twice, and each turn is bound to its own.
pub proof fn law_turns_are_bound_to_their_labels(turns: Seq<Turn>, i: int)
    requires
        0 <= i < turns.len(),
        turns.len() <= usize::MAX,
    ensures
        ({
            let row = turn_rows(turns)[i];
            &&& turn_rows(turns).len() == turns.len()
            &&& labels_of(turns).no_duplicates()
            &&& row.speaker_id < labels_of(turns).len()
            &&& labels_of(turns)[row.speaker_id as int] == turns[i].speaker@
            &&& turns[i].start matches Real::Nano(s) ==> row.t_start == s
            &&& turns[i].end matches Real::Nano(e) ==> row.t_end == e
        }),
{
    lemma_listed(turns, i);
    lemma_first_index(labels_of(turns), turns[i].speaker@, 0);
}

proof fn lemma_first_index(labels: Seq<Seq<char>>, label: Seq<char>, from: int)
    requires
        0 <= from <= labels.len(),
    ensures
        from <= label_index(labels, label, from) <= labels.len(),
        label_index(labels, label, from) < labels.len() ==> labels[label_index(labels, label, from)]
            == label,
        forall|k: int|
            #![trigger labels[k]]
            from <= k < label_index(labels, label, from) ==> labels[k] != label,
    decreases labels.len() - from,
{
    if from < labels.len() && labels[from] != label {
        lemma_first_index(labels, label, from + 1);
    }
}

proof fn lemma_listed(turns: Seq<Turn>, i: int)
    requires
        0 <= i < turns.len(),
    ensures
        labels_of(turns).len() <= turns.len(),
        labels_of(turns).no_duplicates(),
        labels_of(turns).contains(turns[i].speaker@),
    decreases turns.len(),
{
    let before = turns.drop_last();
    let (was, now) = (labels_of(before), labels_of(turns));
    let label = turns.last().speaker@;
    if before.len() > 0 {
        lemma_listed(before, 0);
    }
    lemma_first_index(was, label, 0);
    let at = label_index(was, label, 0);
    if i < before.len() {
        lemma_listed(before, i);
        assert(before[i] == turns[i]);
        let k = choose|k: int| 0 <= k < was.len() && was[k] == turns[i].speaker@;
        assert(now[k] == was[k]);
    } else if at < was.len() {
        assert(now[at] == label);
    } else {
        assert(now[was.len() as int] == label);
    }
}

/// The turns are put in order of their starts, and none is lost or made up.
pub proof fn law_turns_are_ordered_by_start(rows: Seq<TurnRow>)
    ensures
        by_start(rows).to_multiset() == rows.to_multiset(),
        forall|i: int, j: int|
            #![trigger by_start(rows)[i], by_start(rows)[j]]
            0 <= i < j < by_start(rows).len() ==> by_start(rows)[i].t_start
                <= by_start(rows)[j].t_start,
    decreases rows.len(),
{
    broadcast use vstd::seq_lib::group_to_multiset_ensures;

    if rows.len() > 0 {
        let before = rows.drop_last();
        law_turns_are_ordered_by_start(before);
        lemma_with_turn(by_start(before), rows.last());
        assert(rows =~= before.push(rows.last()));
    } else {
        assert(by_start(rows) =~= rows);
    }
}

proof fn lemma_with_turn(rows: Seq<TurnRow>, row: TurnRow)
    requires
        forall|i: int, j: int|
            #![trigger rows[i], rows[j]]
            0 <= i < j < rows.len() ==> rows[i].t_start <= rows[j].t_start,
    ensures
        with_turn(rows, row).to_multiset() == rows.to_multiset().insert(row),
        with_turn(rows, row).len() == rows.len() + 1,
        forall|i: int, j: int|
            #![trigger with_turn(rows, row)[i], with_turn(rows, row)[j]]
            0 <= i < j < with_turn(rows, row).len() ==> with_turn(rows, row)[i].t_start
                <= with_turn(rows, row)[j].t_start,
        forall|i: int|
            #![trigger with_turn(rows, row)[i]]
            0 <= i < with_turn(rows, row).len() ==> with_turn(rows, row)[i] == row
                || rows.contains(with_turn(rows, row)[i]),
    decreases rows.len(),
{
    broadcast use vstd::seq_lib::group_to_multiset_ensures;

    let out = with_turn(rows, row);
    if rows.len() == 0 || rows.last().t_start <= row.t_start {
        assert forall|i: int, j: int|
            #![trigger out[i], out[j]]
            0 <= i < j < out.len() implies out[i].t_start <= out[j].t_start by {
            assert(out[i] == rows[i]);
            if j < rows.len() {
                assert(out[j] == rows[j]);
            } else {
                assert(rows[i].t_start <= rows[rows.len() - 1].t_start);
            }
        }
        assert forall|i: int| #![trigger out[i]] 0 <= i < out.len() implies out[i] == row
            || rows.contains(out[i]) by {
            if i < rows.len() {
                assert(rows[i] == out[i]);
            }
        }
    } else {
        let before = rows.drop_last();
        assert forall|i: int, j: int|
            #![trigger before[i], before[j]]
            0 <= i < j < before.len() implies before[i].t_start <= before[j].t_start by {
            assert(before[i] == rows[i] && before[j] == rows[j]);
        }
        lemma_with_turn(before, row);
        let put = with_turn(before, row);
        assert(rows =~= before.push(rows.last()));
        assert(out.to_multiset() =~= rows.to_multiset().insert(row));
        assert forall|i: int| #![trigger put[i]] 0 <= i < put.len() implies put[i].t_start
            <= rows.last().t_start && (put[i] == row || rows.contains(put[i])) by {
            if put[i] != row {
                let k = choose|k: int| 0 <= k < before.len() && before[k] == put[i];
                assert(rows[k] == put[i]);
                assert(rows[k].t_start <= rows[rows.len() - 1].t_start);
            }
        }
        assert forall|i: int, j: int|
            #![trigger out[i], out[j]]
            0 <= i < j < out.len() implies out[i].t_start <= out[j].t_start by {
            assert(out[i] == put[i]);
            if j < put.len() {
                assert(out[j] == put[j]);
            }
        }
        assert forall|i: int| #![trigger out[i]] 0 <= i < out.len() implies out[i] == row
            || rows.contains(out[i]) by {
            if i < put.len() {
                assert(out[i] == put[i]);
            } else {
                assert(rows[rows.len() - 1] == out[i]);
            }
        }
    }
}

/// A speaker that nobody inherits is kept as stale where it is named and removed
/// where it is not; one that is inherited is neither.
pub proof fn law_orphans_are_kept_by_name(
    olds: Seq<OldSpeaker>,
    matches: Seq<Option<usize>>,
    n: int,
    i: int,
)
    requires
        0 <= i < n <= olds.len(),
        forall|a: int, b: int|
            #![trigger olds[a], olds[b]]
            0 <= a < b < olds.len() ==> olds[a].id != olds[b].id,
    ensures
        ({
            let out = orphans_of(olds, matches, n);
            let inherits = exists|k: int|
                #![trigger matches[k]]
                0 <= k < matches.len() && matches[k] is Some && olds[matches[k]->0 as int].id
                    == olds[i].id;
            &&& out.contains(Orphan::Stale(olds[i].id)) <==> !inherits && olds[i].named
            &&& out.contains(Orphan::Removed(olds[i].id)) <==> !inherits && !olds[i].named
        }),
{
    lemma_orphans(olds, matches, n, olds[i].id);
}

proof fn lemma_orphans(olds: Seq<OldSpeaker>, matches: Seq<Option<usize>>, n: int, id: i64)
    requires
        n <= olds.len(),
    ensures
        orphans_of(olds, matches, n).contains(Orphan::Stale(id)) <==> exists|i: int|
            #![trigger olds[i]]
            0 <= i < n && olds[i].id == id && olds[i].named && !is_inherited(olds, matches, id),
        orphans_of(olds, matches, n).contains(Orphan::Removed(id)) <==> exists|i: int|
            #![trigger olds[i]]
            0 <= i < n && olds[i].id == id && !olds[i].named && !is_inherited(olds, matches, id),
    decreases n,
{
    if n > 0 {
        lemma_orphans(olds, matches, n - 1, id);
        let (was, now) = (orphans_of(olds, matches, n - 1), orphans_of(olds, matches, n));
        let s = olds[n - 1];
        assert forall|o: Orphan| was.contains(o) implies now.contains(o) by {
            let k = choose|k: int| 0 <= k < was.len() && was[k] == o;
            assert(now[k] == o);
        }
        assert forall|o: Orphan| now.contains(o) && !was.contains(o) implies now.len() > was.len()
            && o == now.last() by {
            let k = choose|k: int| 0 <= k < now.len() && now[k] == o;
            if k < was.len() {
                assert(was[k] == o);
            }
        }
        if now.len() > was.len() {
            assert(now[was.len() as int] == now.last());
            assert(now.contains(now.last()));
        }
    }
}

/// Adjacency ends where a turn or a chunk begins or ends, and nowhere else.
pub proof fn law_turns_and_chunks_end_adjacency(turns: Seq<Turn>, chunks: Seq<Chunk>, t: i64)
    ensures
        turn_boundaries(turns).contains((t, SilOrigin::Turn)) <==> exists|i: int|
            #![trigger turns[i]]
            0 <= i < turns.len() && (turns[i].start->Nano_0 == t || turns[i].end->Nano_0 == t),
        chunk_boundaries(chunks).contains((t, SilOrigin::Chunk)) <==> exists|i: int|
            #![trigger chunks[i]]
            0 <= i < chunks.len() && (chunks[i].start->Nano_0 == t || chunks[i].end->Nano_0 == t),
        turn_boundaries(turns).len() == 2 * turns.len(),
        chunk_boundaries(chunks).len() == 2 * chunks.len(),
    decreases turns.len() + chunks.len(),
{
    if turns.len() > 0 {
        let before = turns.drop_last();
        law_turns_and_chunks_end_adjacency(before, chunks, t);
        let (was, now) = (turn_boundaries(before), turn_boundaries(turns));
        let last = turns.last();
        assert(turns[turns.len() - 1] == last);
        assert(now[was.len() as int] == (last.start->Nano_0, SilOrigin::Turn));
        assert(now[was.len() as int + 1] == (last.end->Nano_0, SilOrigin::Turn));
        assert(now.take(was.len() as int) =~= was);
        lemma_two_more(was, now, (t, SilOrigin::Turn));
        if was.contains((t, SilOrigin::Turn)) {
            let i = choose|i: int|
                #![trigger before[i]]
                0 <= i < before.len() && (before[i].start->Nano_0 == t || before[i].end->Nano_0
                    == t);
            assert(turns[i] == before[i]);
        } else {
            assert forall|i: int| #![trigger turns[i]] 0 <= i < before.len() implies !(
            turns[i].start->Nano_0 == t || turns[i].end->Nano_0 == t) by {
                assert(turns[i] == before[i]);
            }
        }
    } else if chunks.len() > 0 {
        let before = chunks.drop_last();
        law_turns_and_chunks_end_adjacency(turns, before, t);
        let (was, now) = (chunk_boundaries(before), chunk_boundaries(chunks));
        let last = chunks.last();
        assert(chunks[chunks.len() - 1] == last);
        assert(now[was.len() as int] == (last.start->Nano_0, SilOrigin::Chunk));
        assert(now[was.len() as int + 1] == (last.end->Nano_0, SilOrigin::Chunk));
        assert(now.take(was.len() as int) =~= was);
        lemma_two_more(was, now, (t, SilOrigin::Chunk));
        if was.contains((t, SilOrigin::Chunk)) {
            let i = choose|i: int|
                #![trigger before[i]]
                0 <= i < before.len() && (before[i].start->Nano_0 == t || before[i].end->Nano_0
                    == t);
            assert(chunks[i] == before[i]);
        } else {
            assert forall|i: int| #![trigger chunks[i]] 0 <= i < before.len() implies !(
            chunks[i].start->Nano_0 == t || chunks[i].end->Nano_0 == t) by {
                assert(chunks[i] == before[i]);
            }
        }
    }
}

proof fn lemma_two_more(
    was: Seq<(i64, SilOrigin)>,
    now: Seq<(i64, SilOrigin)>,
    x: (i64, SilOrigin),
)
    requires
        now.len() == was.len() + 2,
        now.take(was.len() as int) == was,
    ensures
        now.contains(x) <==> was.contains(x) || now[was.len() as int] == x || now[was.len() as int + 1]
            == x,
{
    if was.contains(x) {
        let k = choose|k: int| 0 <= k < was.len() && was[k] == x;
        assert(now.take(was.len() as int)[k] == now[k]);
    }
    if now.contains(x) {
        let k = choose|k: int| 0 <= k < now.len() && now[k] == x;
        if k < was.len() {
            assert(now.take(was.len() as int)[k] == x);
        }
    }
}

/// A planned load keeps what the manifest says: a row for every segment and every
/// word, with its own times, under its own segment; and a row for every unit,
/// spoken by whom the real phone of a silent unit is, else by whom the unit is.
pub proof fn law_planned_rows_keep_their_times(
    plan: LoadPlan,
    m: Manifest,
    p: ProsodyData,
    olds: Seq<OldSpeaker>,
    s: int,
    w: int,
    u: int,
)
    requires
        planned_load(plan, m, p, olds),
        0 <= s < m.segments@.len(),
        0 <= w < m.words@.len(),
        0 <= u < plan.diphones@.len(),
    ensures
        plan.utterances@.len() == m.segments@.len(),
        plan.words@.len() == m.words@.len(),
        Real::Nano(plan.utterances@[s].t_start) == m.segments@[s].start || !(
        m.segments@[s].start is Nano),
        Real::Nano(plan.utterances@[s].t_end) == m.segments@[s].end || !(
        m.segments@[s].end is Nano),
        plan.words@[w].utterance == m.words@[w].segment_index,
        Real::Nano(plan.words@[w].t_start) == m.words@[w].start || !(m.words@[w].start is Nano),
        Real::Nano(plan.words@[w].t_end) == m.words@[w].end || !(m.words@[w].end is Nano),
        ({
            let row = plan.diphones@[u];
            let tier = final_tier(m);
            let (a, b) = (tier[row.unit@.phone_a], tier[row.unit@.phone_b]);
            let spoken = |x: int, y: int| speaker_of(speaking(m), x as i64, y as i64);
            row.speaker == if a.kind is Sil {
                spoken(b.t_start, b.t_end)
            } else if b.kind is Sil {
                spoken(a.t_start, a.t_end)
            } else {
                spoken(row.unit@.t_start, row.unit@.t_end)
            }
        }),
{
}

/// The turns of a label are the spans of the turns that bear it, and no others.
pub proof fn law_labels_have_their_own_turns(turns: Seq<Turn>, label: Seq<char>, span: (i64, i64))
    ensures
        turns_of(turns, label).contains(span) <==> exists|i: int|
            #![trigger turns[i]]
            0 <= i < turns.len() && turns[i].speaker@ == label && turns[i].start->Nano_0 == span.0
                && turns[i].end->Nano_0 == span.1,
        turns_of(turns, label).len() <= turns.len(),
    decreases turns.len(),
{
    if turns.len() > 0 {
        let before = turns.drop_last();
        law_labels_have_their_own_turns(before, label, span);
        let (was, now) = (turns_of(before, label), turns_of(turns, label));
        let last = turns[turns.len() - 1];
        if was.contains(span) {
            let k = choose|k: int| 0 <= k < was.len() && was[k] == span;
            assert(now[k] == span);
            let i = choose|i: int|
                #![trigger before[i]]
                0 <= i < before.len() && before[i].speaker@ == label && before[i].start->Nano_0
                    == span.0 && before[i].end->Nano_0 == span.1;
            assert(turns[i] == before[i]);
        } else {
            assert forall|i: int| #![trigger turns[i]] 0 <= i < before.len() implies !(
            turns[i].speaker@ == label && turns[i].start->Nano_0 == span.0
                && turns[i].end->Nano_0 == span.1) by {
                assert(before[i] == turns[i]);
            }
            if now.contains(span) {
                let k = choose|k: int| 0 <= k < now.len() && now[k] == span;
                if k < was.len() {
                    assert(was[k] == span);
                }
            }
        }
        if last.speaker@ == label && last.start->Nano_0 == span.0 && last.end->Nano_0 == span.1 {
            assert(now[was.len() as int] == span);
        }
    }
}

/// A load is refused iff the manifest is of another version than the first, its times,
/// its frames or its words are, its tier is, or a row names a word that there is not.
pub proof fn law_loads_are_refused_for_these_faults(m: Manifest, p: ProsodyData)
    ensures
        load_fault(m, p) is None <==> {
            &&& m.schema_version == 1
            &&& times_fault(m) is None
            &&& frames_fault(m, p) is None
            &&& words_fault(m, m.words@.len() as int) is None
            &&& tier_of(m.phonemes@) is Ok
            &&& word_index_fault(tier_of(m.phonemes@)->Ok_0, m.words@.len() as int) is None
        },
        m.schema_version != 1 ==> load_fault(m, p) == Some(
            CorpusFault::UnknownManifestVersion(m.schema_version),
        ),
        m.schema_version == 1 && times_fault(m) is Some ==> load_fault(m, p) == times_fault(m),
{
}

/// In what is stored, adjacency is broken at the start and the end of every turn and
/// of every chunk: a silence covers or nearly touches it, or the edge of a phoneme
/// nearest to it.
pub proof fn law_stored_phones_break_at_turns_and_chunks(
    m: Manifest,
    t: i64,
    turn: int,
    chunk: int,
)
    requires
        tier_of(m.phonemes@) is Ok,
        m.phonemes@.len() > 0,
        0 <= turn < m.turns@.len(),
        0 <= chunk < m.chunks@.len(),
        m.turns@[turn].start == Real::Nano(t) || m.turns@[turn].end == Real::Nano(t)
            || m.chunks@[chunk].start == Real::Nano(t) || m.chunks@[chunk].end == Real::Nano(t),
    ensures
        ({
            let tier = tier_of(m.phonemes@)->Ok_0;
            super::phones::silent_near(final_tier(m), t as int) || exists|x: int|
                #[trigger] super::phones::is_nearest_edge(tier, x, t as int)
                    && super::phones::silent_near(final_tier(m), x)
        }),
{
    let tier = tier_of(m.phonemes@)->Ok_0;
    let (a, b) = (turn_boundaries(m.turns@), chunk_boundaries(m.chunks@));
    super::phones::law_tiers_are_accepted_iff_they_do_not_overlap(m.phonemes@);
    super::phones::law_accepted_tiers_do_not_overlap(m.phonemes@);
    super::phones::law_tier_is_ordered(super::phones::rows_of(m.phonemes@)->Ok_0);
    law_turns_and_chunks_end_adjacency(m.turns@, m.chunks@, t);
    let of_turn = m.turns@[turn].start == Real::Nano(t) || m.turns@[turn].end == Real::Nano(t);
    let mark = if of_turn {
        (t, SilOrigin::Turn)
    } else {
        (t, SilOrigin::Chunk)
    };
    let k = if of_turn {
        assert(a.contains(mark));
        choose|k: int| 0 <= k < a.len() && a[k] == mark
    } else {
        assert(m.chunks@[chunk].start->Nano_0 == t || m.chunks@[chunk].end->Nano_0 == t);
        assert(b.contains(mark));
        choose|k: int| 0 <= k < b.len() && b[k] == mark
    };
    let at = if of_turn {
        k
    } else {
        a.len() + k
    };
    assert((a + b)[at] == mark);
    super::phones::law_boundaries_stay_broken(tier, a + b, at);
}

/// What a planned load stores is spoken by whom its own span is: every utterance, with
/// whether another is heard in it, every word and every phone. Utterances have the
/// text of their words, words count from the start of theirs, phones are those of the
/// processed tier, and units take their features from their own span.
pub proof fn law_planned_rows_name_their_speakers(
    plan: LoadPlan,
    m: Manifest,
    p: ProsodyData,
    olds: Seq<OldSpeaker>,
    s: int,
    w: int,
    k: int,
    u: int,
)
    requires
        planned_load(plan, m, p, olds),
        0 <= s < plan.utterances@.len(),
        0 <= w < plan.words@.len(),
        0 <= k < plan.phones@.len(),
        0 <= u < plan.diphones@.len(),
    ensures
        ({
            let turns = by_start(turn_rows(m.turns@));
            let row = plan.utterances@[s];
            let word = plan.words@[w];
            let phone = plan.phones@[k];
            let unit = plan.diphones@[u];
            &&& row.speaker == speaker_of(turns, row.t_start, row.t_end)
            &&& row.multi_speaker == multi_speaker(turns, row.t_start, row.t_end, row.speaker)
            &&& row.text_norm@ == norm_text(m.words@, s)
            &&& word.speaker == speaker_of(turns, word.t_start, word.t_end)
            &&& word.ordinal == words_in(m.words@, word.utterance as int, w) as usize
            &&& plan.phones@.len() == final_tier(m).len()
            &&& phone.phone@ == final_tier(m)[k]
            &&& phone.speaker == speaker_of(
                turns,
                phone.phone@.t_start as i64,
                phone.phone@.t_end as i64,
            )
            &&& plan.diphones@.len() == derived(final_tier(m)).len()
            &&& unit.unit@ == derived(final_tier(m))[u]
            &&& frames_of(unit.frames, p.f0@, p.hop, unit.unit@.t_start, unit.unit@.t_end)
        }),
{
}

/// A planned load has one speaker for each label of the turns, in the order in which
/// they are first heard, each with the old speaker whose turns it takes over, if any.
pub proof fn law_planned_speakers_are_the_labels(
    plan: LoadPlan,
    m: Manifest,
    p: ProsodyData,
    olds: Seq<OldSpeaker>,
    k: int,
)
    requires
        planned_load(plan, m, p, olds),
        0 <= k < plan.speakers@.len(),
        olds.len() <= usize::MAX,
    ensures
        ({
            let speaker = plan.speakers@[k];
            &&& plan.speakers@.len() == labels_of(m.turns@).len()
            &&& speaker.label@ == labels_of(m.turns@)[k]
            &&& speaker.inherits matches Some(i) ==> i < olds.len() && super::speakers::may_claim(
                turns_of(m.turns@, speaker.label@),
                olds[i as int].turns@,
            )
            &&& plan.turns@.len() == m.turns@.len()
        }),
{
    super::speakers::law_claims_are_exclusive_majorities(turn_sets(m.turns@), old_sets(olds));
    let i = inherited(m.turns@, olds)[k];
    assert(turn_sets(m.turns@)[k] == turns_of(m.turns@, labels_of(m.turns@)[k]));
}

} // verus!
