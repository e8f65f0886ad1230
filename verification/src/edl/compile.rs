//! EDL compilation: validation (reject, never clamp), the shared join-elision
//! pre-pass, the preview plan (segments plus per-clip output intervals), and
//! the mpv EDL formatter.
//!
//! Clips compile verbatim, in edit order, never reordered, without padding.
//! The elision pre-pass is the single deterministic owner of the output
//! timeline: both compile targets consume the same plan, so preview and render
//! can never disagree about segment boundaries.
use super::{
    clip_views, info_views, opt_text, Clip, ClipView, CompileFault, Edl, EdlCompileError,
    SourceInfoView, SourceMap, Transform,
};
use crate::number::{difference, fmt_time, nearest, real_text, time_text, Real};
use crate::span::{Channel, Span};
use crate::text::{control, dec, is_control, join, joined, padded, push_dec, texts};
use core::ops::Range;
use vstd::prelude::*;
use vstd::string::StringExecFns;
use vstd::utf8::encode_utf8;

verus! {

broadcast use {vstd::std_specs::hash::group_hash_axioms, vstd::std_specs::btree::group_btree_axioms};

/// Join elision threshold, in nanoseconds: consecutive same-source,
/// empty-transform clips whose spans are source-contiguous forward within this
/// compile to one segment.
pub const JOIN_ELISION_EPS: i64 = 1_000_000;

/// Slack for a span that should end exactly at the source's end.
pub const SPAN_EPS: i64 = 1;

// ---------------------------------------------------------------- validation

/// What is wrong with a span of a source of the given duration.
pub open spec fn span_fault(span: Span, duration: int) -> Option<Seq<char>> {
    if !span.t_start.finite() || !span.t_end.finite() {
        Some(
            "non-finite span ["@ + real_text(span.t_start) + ", "@ + real_text(span.t_end) + "]"@,
        )
    } else if span.t_start.nanos() < 0 {
        Some("t_start "@ + real_text(span.t_start) + " < 0"@)
    } else if span.t_start.nanos() >= span.t_end.nanos() {
        Some(
            "empty or inverted span ["@ + real_text(span.t_start) + ", "@ + real_text(span.t_end)
                + "]"@,
        )
    } else if span.t_end.nanos() > duration + SPAN_EPS {
        Some(
            "t_end "@ + real_text(span.t_end) + " past source duration "@ + real_text(
                Real::Nano(duration as i64),
            ),
        )
    } else {
        None
    }
}

/// What is wrong with a transform of a clip of the given length.
pub open spec fn transform_fault(transform: Transform, clip_len: Real) -> Option<Seq<char>> {
    match transform {
        Transform::Loop { count } => if count < 1 {
            Some("Loop.count must be >= 1"@)
        } else {
            None
        },
        Transform::Stutter { repeats, slice } => if repeats < 1 {
            Some("Stutter.repeats must be >= 1"@)
        } else if !slice.finite() || slice.nanos() <= 0 || slice.nanos() > clip_len.nanos()
            + SPAN_EPS {
            Some(
                "Stutter.slice "@ + real_text(slice) + " outside (0, clip length "@ + real_text(
                    clip_len,
                ) + "]"@,
            )
        } else {
            None
        },
        Transform::Speed { factor } => if !factor.finite() || !(250_000_000 <= factor.nanos()
            <= 4_000_000_000) {
            Some("Speed.factor "@ + real_text(factor) + " outside [0.25, 4.0]"@)
        } else {
            None
        },
        Transform::Pitch { semitones } => if !semitones.finite() || !(-24_000_000_000
            <= semitones.nanos() <= 24_000_000_000) {
            Some("Pitch.semitones "@ + real_text(semitones) + " outside [-24, 24]"@)
        } else {
            None
        },
        Transform::Reverse => None,
    }
}

/// What is wrong with the first faulty transform of a list.
pub open spec fn transforms_fault(transforms: Seq<Transform>, clip_len: Real) -> Option<Seq<char>>
    decreases transforms.len(),
{
    if transforms.len() == 0 {
        None
    } else {
        match transforms_fault(transforms.drop_last(), clip_len) {
            Some(reason) => Some(reason),
            None => transform_fault(transforms.last(), clip_len),
        }
    }
}

/// Why a clip does not compile against the given sources.
pub open spec fn clip_fault(
    clip_index: int,
    clip: ClipView,
    sources: Map<i64, SourceInfoView>,
) -> Option<CompileFault> {
    let span = clip.span;
    if !sources.contains_key(span.source.0) {
        Some(CompileFault::UnresolvedSource { clip_index, source_id: span.source })
    } else if span.channel != Channel::Both {
        Some(CompileFault::ChannelUnsupported { clip_index, channel: span.channel })
    } else {
        match span_fault(span, sources[span.source.0].duration) {
            Some(reason) => Some(CompileFault::InvalidSpan { clip_index, reason }),
            None => match transforms_fault(
                clip.transforms,
                difference(span.t_end, span.t_start),
            ) {
                Some(reason) => Some(CompileFault::InvalidTransform { clip_index, reason }),
                None => None,
            },
        }
    }
}

/// The fault of the first clip that does not compile.
pub open spec fn edit_fault(
    clips: Seq<ClipView>,
    sources: Map<i64, SourceInfoView>,
) -> Option<CompileFault>
    decreases clips.len(),
{
    if clips.len() == 0 {
        None
    } else {
        match edit_fault(clips.drop_last(), sources) {
            Some(fault) => Some(fault),
            None => clip_fault(clips.len() - 1, clips.last(), sources),
        }
    }
}

fn check_span(span: &Span, duration: i64) -> (r: Result<(), String>)
    ensures
        match span_fault(*span, duration as int) {
            Some(reason) => r is Err && r->Err_0@ == reason,
            None => r is Ok,
        },
{
    match (span.t_start, span.t_end) {
        (Real::Nano(t_start), Real::Nano(t_end)) => {
            if t_start < 0 {
                let mut s: String = "t_start ".to_owned();
                s.append(span.t_start.text().as_str());
                s.append(" < 0");
                return Err(s);
            }
            if t_start >= t_end {
                let mut s: String = "empty or inverted span [".to_owned();
                s.append(span.t_start.text().as_str());
                s.append(", ");
                s.append(span.t_end.text().as_str());
                s.append("]");
                return Err(s);
            }
            if t_end as i128 > duration as i128 + SPAN_EPS as i128 {
                let mut s: String = "t_end ".to_owned();
                s.append(span.t_end.text().as_str());
                s.append(" past source duration ");
                s.append(Real::Nano(duration).text().as_str());
                return Err(s);
            }
            Ok(())
        },
        _ => {
            let mut s: String = "non-finite span [".to_owned();
            s.append(span.t_start.text().as_str());
            s.append(", ");
            s.append(span.t_end.text().as_str());
            s.append("]");
            Err(s)
        },
    }
}

fn check_transform(transform: &Transform, clip_len: i64) -> (r: Result<(), String>)
    ensures
        match transform_fault(*transform, Real::Nano(clip_len)) {
            Some(reason) => r is Err && r->Err_0@ == reason,
            None => r is Ok,
        },
{
    match *transform {
        Transform::Loop { count } => {
            if count < 1 {
                return Err("Loop.count must be >= 1".to_owned());
            }
        },
        Transform::Stutter { repeats, slice } => {
            if repeats < 1 {
                return Err("Stutter.repeats must be >= 1".to_owned());
            }
            let fits: bool = match slice {
                Real::Nano(n) => 0 < n && n as i128 <= clip_len as i128 + SPAN_EPS as i128,
                _ => false,
            };
            if !fits {
                let mut s: String = "Stutter.slice ".to_owned();
                s.append(slice.text().as_str());
                s.append(" outside (0, clip length ");
                s.append(Real::Nano(clip_len).text().as_str());
                s.append("]");
                return Err(s);
            }
        },
        Transform::Speed { factor } => {
            let fits: bool = match factor {
                Real::Nano(n) => 250_000_000 <= n && n <= 4_000_000_000,
                _ => false,
            };
            if !fits {
                let mut s: String = "Speed.factor ".to_owned();
                s.append(factor.text().as_str());
                s.append(" outside [0.25, 4.0]");
                return Err(s);
            }
        },
        Transform::Pitch { semitones } => {
            let fits: bool = match semitones {
                Real::Nano(n) => -24_000_000_000 <= n && n <= 24_000_000_000,
                _ => false,
            };
            if !fits {
                let mut s: String = "Pitch.semitones ".to_owned();
                s.append(semitones.text().as_str());
                s.append(" outside [-24, 24]");
                return Err(s);
            }
        },
        Transform::Reverse => {},
    }
    Ok(())
}

/// Checks one transform of a clip of the given length.
pub fn validate_transform(clip_index: usize, transform: &Transform, clip_len: i64) -> (r: Result<
    (),
    EdlCompileError,
>)
    ensures
        match transform_fault(*transform, Real::Nano(clip_len)) {
            Some(reason) => r is Err && r->Err_0@ == (CompileFault::InvalidTransform {
                clip_index: clip_index as int,
                reason,
            }),
            None => r is Ok,
        },
{
    match check_transform(transform, clip_len) {
        Ok(()) => Ok(()),
        Err(reason) => Err(EdlCompileError::InvalidTransform { clip_index, reason }),
    }
}

/// Checks one clip against the sources.
fn validate_clip(clip_index: usize, clip: &Clip, sources: &SourceMap) -> (r: Result<
    (),
    EdlCompileError,
>)
    ensures
        match clip_fault(clip_index as int, clip@, info_views(sources@)) {
            Some(fault) => r is Err && r->Err_0@ == fault,
            None => r is Ok,
        },
{
    let span: Span = clip.span;
    match sources.get(&span.source.0) {
        None => Err(
            EdlCompileError::UnresolvedSource { clip_index, source_id: span.source },
        ),
        Some(info) => {
            if span.channel != Channel::Both {
                return Err(
                    EdlCompileError::ChannelUnsupported { clip_index, channel: span.channel },
                );
            }
            match check_span(&span, info.duration) {
                Err(reason) => {
                    return Err(EdlCompileError::InvalidSpan { clip_index, reason });
                },
                Ok(()) => {},
            }
            let clip_len: i64 = match (span.t_start, span.t_end) {
                (Real::Nano(t_start), Real::Nano(t_end)) => t_end - t_start,
                _ => 0,
            };
            assert(Real::Nano(clip_len) == difference(span.t_end, span.t_start));
            let mut i: usize = 0;
            while i < clip.transforms.len()
                invariant
                    i <= clip.transforms@.len(),
                    transforms_fault(clip.transforms@.take(i as int), Real::Nano(clip_len))
                        is None,
                    clip_fault(clip_index as int, clip@, info_views(sources@)) == (
                    match transforms_fault(clip.transforms@, Real::Nano(clip_len)) {
                        Some(reason) => Some(
                            CompileFault::InvalidTransform {
                                clip_index: clip_index as int,
                                reason,
                            },
                        ),
                        None => None,
                    }),
                decreases clip.transforms@.len() - i,
            {
                proof {
                    assert(clip.transforms@.take(i + 1).drop_last() =~= clip.transforms@.take(
                        i as int,
                    ));
                }
                match validate_transform(clip_index, &clip.transforms[i], clip_len) {
                    Err(e) => {
                        proof {
                            lemma_fault_stays(clip.transforms@, Real::Nano(clip_len), i + 1);
                        }
                        return Err(e);
                    },
                    Ok(()) => {},
                }
                i = i + 1;
            }
            assert(clip.transforms@.take(i as int) =~= clip.transforms@);
            Ok(())
        },
    }
}

/// A fault among the first transforms is the list's fault.
proof fn lemma_fault_stays(transforms: Seq<Transform>, clip_len: Real, n: int)
    requires
        0 <= n <= transforms.len(),
        transforms_fault(transforms.take(n), clip_len) is Some,
    ensures
        transforms_fault(transforms, clip_len) == transforms_fault(transforms.take(n), clip_len),
    decreases transforms.len() - n,
{
    if n == transforms.len() {
        assert(transforms.take(n) =~= transforms);
    } else {
        assert(transforms.take(n + 1).drop_last() =~= transforms.take(n));
        lemma_fault_stays(transforms, clip_len, n + 1);
    }
}

/// A fault among the first clips is the edit's fault.
pub proof fn lemma_edit_fault_stays(
    clips: Seq<ClipView>,
    sources: Map<i64, SourceInfoView>,
    n: int,
)
    requires
        0 <= n <= clips.len(),
        edit_fault(clips.take(n), sources) is Some,
    ensures
        edit_fault(clips, sources) == edit_fault(clips.take(n), sources),
    decreases clips.len() - n,
{
    if n == clips.len() {
        assert(clips.take(n) =~= clips);
    } else {
        assert(clips.take(n + 1).drop_last() =~= clips.take(n));
        lemma_edit_fault_stays(clips, sources, n + 1);
    }
}

/// An edit without a fault has none in any clip.
pub proof fn lemma_no_fault(clips: Seq<ClipView>, sources: Map<i64, SourceInfoView>, i: int)
    requires
        edit_fault(clips, sources) is None,
        0 <= i < clips.len(),
    ensures
        clip_fault(i, clips[i], sources) is None,
    decreases clips.len(),
{
    if i < clips.len() - 1 {
        lemma_no_fault(clips.drop_last(), sources, i);
    }
}

/// Checks every clip, in order; the first fault is the edit's.
pub fn validate(edl: &Edl, sources: &SourceMap) -> (r: Result<(), EdlCompileError>)
    ensures
        match edit_fault(clip_views(edl.clips@), info_views(sources@)) {
            Some(fault) => r is Err && r->Err_0@ == fault,
            None => r is Ok,
        },
{
    let ghost views = clip_views(edl.clips@);
    let ghost infos = info_views(sources@);
    let mut i: usize = 0;
    while i < edl.clips.len()
        invariant
            i <= edl.clips@.len(),
            views == clip_views(edl.clips@),
            infos == info_views(sources@),
            edit_fault(views.take(i as int), infos) is None,
        decreases edl.clips@.len() - i,
    {
        assert(views.take(i + 1).drop_last() =~= views.take(i as int));
        match validate_clip(i, &edl.clips[i], sources) {
            Err(e) => {
                proof {
                    lemma_edit_fault_stays(views, infos, i + 1);
                }
                return Err(e);
            },
            Ok(()) => {},
        }
        i = i + 1;
    }
    assert(views.take(i as int) =~= views);
    Ok(())
}

// ------------------------------------------------------------------- elision

/// Whether clip `b`, directly after clip `a`, continues `a`'s segment: both
/// are untransformed, on one source and channel, `b` starts where `a` ends
/// (within the threshold), and `b` ends strictly later than `a`.
pub open spec fn joins(a: ClipView, b: ClipView) -> bool {
    &&& a.transforms.len() == 0
    &&& b.transforms.len() == 0
    &&& a.span.source == b.span.source
    &&& a.span.channel == b.span.channel
    &&& -JOIN_ELISION_EPS <= b.span.t_start.nanos() - a.span.t_end.nanos() <= JOIN_ELISION_EPS
    &&& b.span.t_end.nanos() > a.span.t_end.nanos()
}

/// The maximal runs of clips that each continue their predecessor, as index
/// ranges in order.
pub open spec fn runs(clips: Seq<ClipView>) -> Seq<(int, int)>
    decreases clips.len(),
{
    let n = clips.len() as int;
    if n == 0 {
        Seq::empty()
    } else {
        let before = runs(clips.drop_last());
        if n > 1 && joins(clips[n - 2], clips[n - 1]) {
            before.drop_last().push((before.last().0, n))
        } else {
            before.push((n - 1, n))
        }
    }
}

/// What it is for index ranges to be the maximal runs of a clip list: the first
/// starts at clip 0, each next one where the one before it ended, and the last
/// ends with the last clip; inside a run every clip continues its predecessor,
/// and no run continues the one before it.
pub open spec fn maximal_runs(clips: Seq<ClipView>, rs: Seq<(int, int)>) -> bool {
    &&& (rs.len() == 0) == (clips.len() == 0)
    &&& rs.len() > 0 ==> rs[0].0 == 0 && rs.last().1 == clips.len()
    &&& forall|k: int|
        #![trigger rs[k]]
        0 <= k < rs.len() ==> 0 <= rs[k].0 < rs[k].1 <= clips.len()
    &&& forall|k: int, l: int|
        #![trigger rs[k], rs[l]]
        0 <= k && l == k + 1 && l < rs.len() ==> rs[k].1 == rs[l].0
    &&& forall|k: int, i: int, j: int|
        #![trigger rs[k], clips[i], clips[j]]
        0 < k < rs.len() && i == rs[k].0 - 1 && j == rs[k].0 ==> !joins(clips[i], clips[j])
    &&& forall|k: int, i: int, j: int|
        #![trigger rs[k], clips[i], clips[j]]
        0 <= k < rs.len() && rs[k].0 <= i && j == i + 1 && j < rs[k].1 ==> joins(
            clips[i],
            clips[j],
        )
}

/// Elision groups the clips into maximal runs, in edit order, each clip in
/// exactly one run.
pub proof fn law_runs_are_maximal_and_in_order(clips: Seq<ClipView>)
    ensures
        maximal_runs(clips, runs(clips)),
    decreases clips.len(),
{
    let n = clips.len() as int;
    if n > 0 {
        let before = clips.drop_last();
        law_runs_are_maximal_and_in_order(before);
        let old_runs = runs(before);
        let new_runs = runs(clips);
        assert forall|i: int| 0 <= i < n - 1 implies #[trigger] clips[i] == before[i] by {}
        if n > 1 && joins(clips[n - 2], clips[n - 1]) {
            let m = old_runs.len() - 1;
            assert(new_runs[m] == (old_runs[m].0, n));
            assert forall|k: int| 0 <= k < m implies #[trigger] new_runs[k] == old_runs[k] by {}
            lemma_runs_step(before, clips, old_runs, new_runs);
        } else {
            let m = old_runs.len() as int;
            assert(new_runs[m] == (n - 1, n));
            assert forall|k: int| 0 <= k < m implies #[trigger] new_runs[k] == old_runs[k] by {}
            lemma_runs_step(before, clips, old_runs, new_runs);
        }
    }
}

proof fn lemma_runs_step(
    before: Seq<ClipView>,
    clips: Seq<ClipView>,
    old_runs: Seq<(int, int)>,
    new_runs: Seq<(int, int)>,
)
    requires
        clips.len() > 0,
        before == clips.drop_last(),
        maximal_runs(before, old_runs),
        ({
            let n = clips.len() as int;
            if n > 1 && joins(clips[n - 2], clips[n - 1]) {
                new_runs == old_runs.drop_last().push((old_runs.last().0, n))
            } else {
                new_runs == old_runs.push((n - 1, n))
            }
        }),
    ensures
        maximal_runs(clips, new_runs),
{
    let n = clips.len() as int;
    let m = new_runs.len() - 1;
    let extended = n > 1 && joins(clips[n - 2], clips[n - 1]);
    assert forall|k: int, l: int|
        #![trigger new_runs[k], new_runs[l]]
        0 <= k && l == k + 1 && l < new_runs.len() implies new_runs[k].1 == new_runs[l].0 by {
        assert(new_runs[k] == old_runs[k]);
        if l < old_runs.len() {
            assert(old_runs[k].1 == old_runs[l].0);
        }
    }
    assert forall|k: int, i: int, j: int|
        #![trigger new_runs[k], clips[i], clips[j]]
        0 < k < new_runs.len() && i == new_runs[k].0 - 1 && j == new_runs[k].0 implies !joins(
        clips[i],
        clips[j],
    ) by {
        if k < old_runs.len() {
            assert(new_runs[k].0 == old_runs[k].0);
            assert(old_runs[k - 1].1 == old_runs[k].0);
            assert(before[i] == clips[i] && before[j] == clips[j]);
            assert(!joins(before[i], before[j]));
        }
    }
    assert forall|k: int, i: int, j: int|
        #![trigger new_runs[k], clips[i], clips[j]]
        0 <= k < new_runs.len() && new_runs[k].0 <= i && j == i + 1 && j
            < new_runs[k].1 implies joins(clips[i], clips[j]) by {
        if j < n - 1 {
            assert(before[i] == clips[i] && before[j] == clips[j]);
            assert(k < old_runs.len() && old_runs[k].0 <= i && j < old_runs[k].1);
            assert(joins(before[i], before[j]));
        } else {
            assert(k == m);
        }
    }
}

/// A run ends no earlier than its first clip does.
proof fn lemma_run_extends(clips: Seq<ClipView>, k: int, j: int)
    requires
        0 <= k < runs(clips).len(),
        runs(clips)[k].0 <= j < runs(clips)[k].1,
    ensures
        0 <= runs(clips)[k].0 < runs(clips)[k].1 <= clips.len(),
        clips[j].span.t_end.nanos() >= clips[runs(clips)[k].0].span.t_end.nanos(),
    decreases j,
{
    law_runs_are_maximal_and_in_order(clips);
    if j > runs(clips)[k].0 {
        lemma_run_extends(clips, k, j - 1);
        assert(joins(clips[j - 1], clips[j]));
    }
}

/// A maximal elidable run (or a single clip), as a range of clip indices.
pub struct Unit {
    pub first: usize,
    pub end: usize,
}

/// The ranges of a list of units.
pub open spec fn unit_views(units: Seq<Unit>) -> Seq<(int, int)> {
    Seq::new(units.len(), |i: int| (units[i].first as int, units[i].end as int))
}

/// Whether a clip continues the one before it.
fn continues(prev: &Clip, clip: &Clip) -> (r: bool)
    requires
        prev.span.t_end.finite(),
        clip.span.t_start.finite(),
        clip.span.t_end.finite(),
    ensures
        r == joins(prev@, clip@),
{
    match (prev.span.t_end, clip.span.t_start, clip.span.t_end) {
        (Real::Nano(prev_end), Real::Nano(start), Real::Nano(end)) => {
            let gap: i128 = start as i128 - prev_end as i128;
            clip.transforms.len() == 0 && prev.transforms.len() == 0 && clip.span.source
                == prev.span.source && clip.span.channel == prev.span.channel && -(
            JOIN_ELISION_EPS as i128) <= gap && gap <= JOIN_ELISION_EPS as i128 && end > prev_end
        },
        _ => false,
    }
}

/// The deterministic join-elision pre-pass.
pub fn elide(edl: &Edl) -> (units: Vec<Unit>)
    requires
        forall|i: int|
            #![trigger edl.clips@[i]]
            0 <= i < edl.clips@.len() ==> edl.clips@[i].span.t_start.finite()
                && edl.clips@[i].span.t_end.finite(),
    ensures
        unit_views(units@) == runs(clip_views(edl.clips@)),
{
    let ghost views = clip_views(edl.clips@);
    let mut units: Vec<Unit> = Vec::new();
    let mut i: usize = 0;
    while i < edl.clips.len()
        invariant
            i <= edl.clips@.len(),
            views == clip_views(edl.clips@),
            unit_views(units@) == runs(views.take(i as int)),
            forall|i: int|
                #![trigger edl.clips@[i]]
                0 <= i < edl.clips@.len() ==> edl.clips@[i].span.t_start.finite()
                    && edl.clips@[i].span.t_end.finite(),
        decreases edl.clips@.len() - i,
    {
        let ghost now = views.take(i + 1);
        let ghost before = unit_views(units@);
        proof {
            assert(now.drop_last() =~= views.take(i as int));
            law_runs_are_maximal_and_in_order(views.take(i as int));
        }
        if i > 0 && continues(&edl.clips[i - 1], &edl.clips[i]) {
            assert(joins(now[i - 1], now[i as int]));
            let first: usize = match units.pop() {
                Some(run) => run.first,
                None => 0,
            };
            units.push(Unit { first, end: i + 1 });
            assert(unit_views(units@) =~= before.drop_last().push((before.last().0, i + 1)));
        } else {
            assert(i > 0 ==> !joins(now[i - 1], now[i as int]));
            units.push(Unit { first: i, end: i + 1 });
            assert(unit_views(units@) =~= before.push((i as int, i + 1)));
        }
        i = i + 1;
    }
    assert(views.take(i as int) =~= views);
    units
}

// ----------------------------------------------------------------- expansion

/// Source-time pieces as pairs of integers.
pub open spec fn piece_views(v: Seq<(i64, i64)>) -> Seq<(int, int)> {
    Seq::new(v.len(), |i: int| (v[i].0 as int, v[i].1 as int))
}

/// `n` copies of a piece sequence, one after the other.
pub open spec fn repeated(pieces: Seq<(int, int)>, n: nat) -> Seq<(int, int)>
    decreases n,
{
    if n == 0 {
        Seq::empty()
    } else {
        repeated(pieces, (n - 1) as nat) + pieces
    }
}

/// The first `want` nanoseconds of a piece sequence.
pub open spec fn prefix(pieces: Seq<(int, int)>, want: int) -> Seq<(int, int)>
    decreases pieces.len(),
{
    if pieces.len() == 0 {
        Seq::empty()
    } else {
        let (t_start, t_end) = pieces[0];
        let len = t_end - t_start;
        if want <= len + SPAN_EPS {
            seq![(t_start, t_start + if want < len { want } else { len })]
        } else {
            seq![(t_start, t_end)] + prefix(pieces.drop_first(), want - len)
        }
    }
}

/// What one transform makes of a clip's pieces: Loop repeats them, Stutter
/// puts repeated slices in front, the render-only transforms play plain.
pub open spec fn transformed(pieces: Seq<(int, int)>, transform: Transform) -> Seq<(int, int)> {
    match transform {
        Transform::Loop { count } => repeated(pieces, count as nat),
        Transform::Stutter { repeats, slice } => repeated(
            prefix(pieces, slice.nanos()),
            repeats as nat,
        ) + pieces,
        _ => pieces,
    }
}

/// The pieces after a chain of transforms, applied in order.
pub open spec fn expanded(pieces: Seq<(int, int)>, transforms: Seq<Transform>) -> Seq<(int, int)>
    decreases transforms.len(),
{
    if transforms.len() == 0 {
        pieces
    } else {
        transformed(expanded(pieces, transforms.drop_last()), transforms.last())
    }
}

/// The source-time pieces that one clip plays.
pub open spec fn clip_pieces(clip: ClipView) -> Seq<(int, int)> {
    expanded(seq![(clip.span.t_start.nanos(), clip.span.t_end.nanos())], clip.transforms)
}

/// Every piece starts at or after zero and is not empty.
pub open spec fn proper(pieces: Seq<(int, int)>) -> bool {
    forall|i: int| #![trigger pieces[i]] 0 <= i < pieces.len() ==> 0 <= pieces[i].0 < pieces[i].1
}

fn append_pieces(out: &mut Vec<(i64, i64)>, more: &Vec<(i64, i64)>)
    ensures
        piece_views(final(out)@) == piece_views(old(out)@) + piece_views(more@),
{
    let ghost base = piece_views(out@);
    let mut i: usize = 0;
    while i < more.len()
        invariant
            i <= more@.len(),
            piece_views(out@) =~= base + piece_views(more@).take(i as int),
            base == piece_views(old(out)@),
        decreases more@.len() - i,
    {
        let ghost before = out@;
        out.push(more[i]);
        assert(piece_views(out@) =~= piece_views(before).push(piece_views(more@)[i as int]));
        i = i + 1;
    }
    assert(piece_views(more@).take(i as int) =~= piece_views(more@));
}

fn repeat_pieces(pieces: &Vec<(i64, i64)>, n: u32) -> (out: Vec<(i64, i64)>)
    ensures
        piece_views(out@) == repeated(piece_views(pieces@), n as nat),
{
    let mut out: Vec<(i64, i64)> = Vec::new();
    assert(piece_views(out@) =~= Seq::empty());
    let mut k: u32 = 0;
    while k < n
        invariant
            k <= n,
            piece_views(out@) == repeated(piece_views(pieces@), k as nat),
        decreases n - k,
    {
        append_pieces(&mut out, pieces);
        k = k + 1;
    }
    out
}

/// The first `want` nanoseconds of a piece sequence.
fn take_prefix(pieces: &Vec<(i64, i64)>, want: i64) -> (out: Vec<(i64, i64)>)
    requires
        proper(piece_views(pieces@)),
        want > 0,
    ensures
        piece_views(out@) == prefix(piece_views(pieces@), want as int),
        proper(piece_views(out@)),
{
    let ghost all = piece_views(pieces@);
    let mut out: Vec<(i64, i64)> = Vec::new();
    let mut left: i64 = want;
    let mut i: usize = 0;
    assert(all.skip(0) =~= all);
    assert(piece_views(out@) + prefix(all, want as int) =~= prefix(all, want as int));
    while i < pieces.len()
        invariant
            i <= pieces@.len(),
            all == piece_views(pieces@),
            proper(all),
            proper(piece_views(out@)),
            left > 0,
            piece_views(out@) + prefix(all.skip(i as int), left as int) == prefix(
                all,
                want as int,
            ),
        decreases pieces@.len() - i,
    {
        let ghost before = piece_views(out@);
        let ghost rest = all.skip(i as int);
        let (t_start, t_end): (i64, i64) = pieces[i];
        assert(rest[0] == all[i as int]);
        assert(all[i as int] == (t_start as int, t_end as int));
        let len: i64 = t_end - t_start;
        if left as i128 <= len as i128 + SPAN_EPS as i128 {
            let part: i64 = if left < len {
                left
            } else {
                len
            };
            out.push((t_start, t_start + part));
            assert(piece_views(out@) =~= before.push((t_start as int, t_start + part)));
            assert(piece_views(out@) =~= before + prefix(rest, left as int));
            return out;
        }
        out.push((t_start, t_end));
        proof {
            assert(rest.drop_first() =~= all.skip(i + 1));
            assert(piece_views(out@) =~= before.push((t_start as int, t_end as int)));
            assert(piece_views(out@) + prefix(all.skip(i + 1), left - len) =~= before + prefix(
                rest,
                left as int,
            ));
        }
        left = left - len;
        i = i + 1;
    }
    assert(piece_views(out@) + prefix(all.skip(i as int), left as int) =~= piece_views(out@));
    out
}

proof fn lemma_repeated_proper(pieces: Seq<(int, int)>, n: nat)
    requires
        proper(pieces),
    ensures
        proper(repeated(pieces, n)),
    decreases n,
{
    if n > 0 {
        lemma_repeated_proper(pieces, (n - 1) as nat);
    }
}

/// The source-time pieces one clip plays, its transforms applied in order.
pub fn expand_transforms(clip: &Clip) -> (out: Vec<(i64, i64)>)
    requires
        clip.span.t_start.finite(),
        clip.span.t_end.finite(),
        0 <= clip.span.t_start.nanos() < clip.span.t_end.nanos(),
        transforms_fault(
            clip.transforms@,
            difference(clip.span.t_end, clip.span.t_start),
        ) is None,
    ensures
        piece_views(out@) == clip_pieces(clip@),
        proper(piece_views(out@)),
{
    let ghost clip_len = difference(clip.span.t_end, clip.span.t_start);
    let mut pieces: Vec<(i64, i64)> = Vec::new();
    match (clip.span.t_start, clip.span.t_end) {
        (Real::Nano(t_start), Real::Nano(t_end)) => {
            pieces.push((t_start, t_end));
        },
        _ => {},
    }
    let ghost whole = seq![(clip.span.t_start.nanos(), clip.span.t_end.nanos())];
    assert(piece_views(pieces@) =~= whole);
    let mut i: usize = 0;
    while i < clip.transforms.len()
        invariant
            i <= clip.transforms@.len(),
            proper(piece_views(pieces@)),
            piece_views(pieces@) == expanded(whole, clip.transforms@.take(i as int)),
            transforms_fault(clip.transforms@, clip_len) is None,
        decreases clip.transforms@.len() - i,
    {
        proof {
            assert(clip.transforms@.take(i + 1).drop_last() =~= clip.transforms@.take(i as int));
            lemma_no_transform_fault(clip.transforms@, clip_len, i as int);
        }
        match clip.transforms[i] {
            Transform::Loop { count } => {
                proof {
                    lemma_repeated_proper(piece_views(pieces@), count as nat);
                }
                pieces = repeat_pieces(&pieces, count);
            },
            Transform::Stutter { repeats, slice } => {
                let want: i64 = match slice {
                    Real::Nano(n) => n,
                    _ => 1,
                };
                let slices: Vec<(i64, i64)> = take_prefix(&pieces, want);
                proof {
                    lemma_repeated_proper(piece_views(slices@), repeats as nat);
                }
                let mut out: Vec<(i64, i64)> = repeat_pieces(&slices, repeats);
                append_pieces(&mut out, &pieces);
                pieces = out;
            },
            _ => {},
        }
        i = i + 1;
    }
    assert(clip.transforms@.take(i as int) =~= clip.transforms@);
    pieces
}

proof fn lemma_no_transform_fault(transforms: Seq<Transform>, clip_len: Real, i: int)
    requires
        transforms_fault(transforms, clip_len) is None,
        0 <= i < transforms.len(),
    ensures
        transform_fault(transforms[i], clip_len) is None,
    decreases transforms.len(),
{
    if i < transforms.len() - 1 {
        lemma_no_transform_fault(transforms.drop_last(), clip_len, i);
    }
}

// ---------------------------------------------------------------------- plan

/// One segment of the elision-resolved output timeline, in edit order.
#[derive(Debug)]
pub struct PlannedSegment {
    /// Playback master to read from (resolved from the source map).
    pub master_path: String,
    /// Source time, in nanoseconds.
    pub t_start: i64,
    pub t_end: i64,
    /// Chapter title (clip labels; joined for an elided run).
    pub title: Option<String>,
    /// The clip indices this segment realizes: one clip for a transform
    /// expansion, several for an elided run.
    pub clips: Range<usize>,
}

/// What a planned segment is.
pub struct SegmentView {
    pub master_path: Seq<char>,
    pub t_start: int,
    pub t_end: int,
    pub title: Option<Seq<char>>,
    pub first: int,
    pub end: int,
}

impl View for PlannedSegment {
    type V = SegmentView;

    open spec fn view(&self) -> SegmentView {
        SegmentView {
            master_path: self.master_path@,
            t_start: self.t_start as int,
            t_end: self.t_end as int,
            title: opt_text(self.title),
            first: self.clips.start as int,
            end: self.clips.end as int,
        }
    }
}

/// The segments of a list.
pub open spec fn segment_views(segments: Seq<PlannedSegment>) -> Seq<SegmentView> {
    Seq::new(segments.len(), |i: int| segments[i]@)
}

/// The summed length of a segment list.
pub open spec fn total(segments: Seq<SegmentView>) -> int
    decreases segments.len(),
{
    if segments.len() == 0 {
        0
    } else {
        total(segments.drop_last()) + (segments.last().t_end - segments.last().t_start)
    }
}

/// The labels of the clips `first..end` that have one.
pub open spec fn labels(clips: Seq<ClipView>, first: int, end: int) -> Seq<Seq<char>>
    decreases end - first,
{
    if end <= first {
        Seq::empty()
    } else {
        match clips[end - 1].label {
            Some(label) => labels(clips, first, end - 1).push(label),
            None => labels(clips, first, end - 1),
        }
    }
}

/// The segments of one run: an elided run is one segment, titled by its
/// labels; a single clip plays its pieces.
pub open spec fn run_segments(
    clips: Seq<ClipView>,
    sources: Map<i64, SourceInfoView>,
    run: (int, int),
) -> Seq<SegmentView> {
    let (first, end) = run;
    let master_path = sources[clips[first].span.source.0].master_path;
    if end - first > 1 {
        let names = labels(clips, first, end);
        seq![
            SegmentView {
                master_path,
                t_start: clips[first].span.t_start.nanos(),
                t_end: clips[end - 1].span.t_end.nanos(),
                title: if names.len() == 0 {
                    None
                } else {
                    Some(joined(names, " "@))
                },
                first,
                end,
            },
        ]
    } else {
        let pieces = clip_pieces(clips[first]);
        Seq::new(
            pieces.len(),
            |k: int|
                SegmentView {
                    master_path,
                    t_start: pieces[k].0,
                    t_end: pieces[k].1,
                    title: clips[first].label,
                    first,
                    end: first + 1,
                },
        )
    }
}

/// The segments of a list of runs, in order.
pub open spec fn planned(
    clips: Seq<ClipView>,
    sources: Map<i64, SourceInfoView>,
    rs: Seq<(int, int)>,
) -> Seq<SegmentView>
    decreases rs.len(),
{
    if rs.len() == 0 {
        Seq::empty()
    } else {
        planned(clips, sources, rs.drop_last()) + run_segments(clips, sources, rs.last())
    }
}

/// The segments of an edit.
pub open spec fn edit_segments(
    clips: Seq<ClipView>,
    sources: Map<i64, SourceInfoView>,
) -> Seq<SegmentView> {
    planned(clips, sources, runs(clips))
}

/// The output intervals of one run's clips, the run starting at output time
/// `t`: inside an elided run, a clip's offset in the source; for a single
/// clip, everything it plays.
pub open spec fn run_output(
    clips: Seq<ClipView>,
    sources: Map<i64, SourceInfoView>,
    run: (int, int),
    t: int,
) -> Seq<(int, int)> {
    let (first, end) = run;
    if end - first > 1 {
        Seq::new(
            (end - first) as nat,
            |j: int|
                (
                    t + (clips[first + j].span.t_start.nanos() - clips[first].span.t_start.nanos()),
                    t + (clips[first + j].span.t_end.nanos() - clips[first].span.t_start.nanos()),
                ),
        )
    } else {
        seq![(t, t + total(run_segments(clips, sources, run)))]
    }
}

/// The output intervals of the clips of a list of runs.
pub open spec fn outputs(
    clips: Seq<ClipView>,
    sources: Map<i64, SourceInfoView>,
    rs: Seq<(int, int)>,
) -> Seq<(int, int)>
    decreases rs.len(),
{
    if rs.len() == 0 {
        Seq::empty()
    } else {
        outputs(clips, sources, rs.drop_last()) + run_output(
            clips,
            sources,
            rs.last(),
            total(planned(clips, sources, rs.drop_last())),
        )
    }
}

/// Every segment starts at or after zero and is not empty.
pub open spec fn segments_proper(segments: Seq<SegmentView>) -> bool {
    forall|i: int|
        #![trigger segments[i]]
        0 <= i < segments.len() ==> 0 <= segments[i].t_start < segments[i].t_end
}

/// The length of a list is the length of its parts.
pub proof fn lemma_total_concat(a: Seq<SegmentView>, b: Seq<SegmentView>)
    ensures
        total(a + b) == total(a) + total(b),
    decreases b.len(),
{
    if b.len() == 0 {
        assert(a + b =~= a);
    } else {
        assert((a + b).drop_last() =~= a + b.drop_last());
        lemma_total_concat(a, b.drop_last());
    }
}

proof fn lemma_total_bounds(segments: Seq<SegmentView>)
    requires
        segments_proper(segments),
        forall|i: int|
            #![trigger segments[i]]
            0 <= i < segments.len() ==> segments[i].t_end <= i64::MAX,
    ensures
        0 <= total(segments) <= segments.len() * i64::MAX,
    decreases segments.len(),
{
    if segments.len() > 0 {
        let before = segments.drop_last();
        assert forall|i: int| #![trigger before[i]] 0 <= i < before.len() implies before[i]
            == segments[i] by {}
        lemma_total_bounds(before);
        assert(segments[segments.len() - 1] == segments.last());
    }
}

/// The boundaries of proper segments fit their type.
pub(crate) proof fn lemma_boundaries_fit(segments: Seq<PlannedSegment>)
    requires
        segments_proper(segment_views(segments)),
        segments.len() <= usize::MAX,
    ensures
        forall|k: int|
            #![trigger segment_views(segments).take(k)]
            0 <= k <= segments.len() ==> i128::MIN <= total(segment_views(segments).take(k))
                <= i128::MAX,
{
    let all = segment_views(segments);
    assert forall|k: int| #![trigger all.take(k)] 0 <= k <= all.len() implies i128::MIN <= total(
        all.take(k),
    ) <= i128::MAX by {
        let now = all.take(k);
        assert forall|j: int| #![trigger now[j]] 0 <= j < now.len() implies now[j].t_end <= i64::MAX
            && 0 <= now[j].t_start < now[j].t_end by {
            assert(now[j] == all[j] && all[j] == segments[j]@);
        }
        lemma_total_bounds(now);
        assert(k * i64::MAX <= usize::MAX * i64::MAX) by (nonlinear_arith)
            requires
                0 <= k <= usize::MAX,
        ;
    }
}

impl PlannedSegment {
    /// The segment's length, in nanoseconds.
    pub fn duration(&self) -> (d: i128)
        ensures
            d == self@.t_end - self@.t_start,
    {
        self.t_end as i128 - self.t_start as i128
    }
}

/// Output intervals as pairs of integers.
pub open spec fn interval_views(v: Seq<(i128, i128)>) -> Seq<(int, int)> {
    Seq::new(v.len(), |i: int| (v[i].0 as int, v[i].1 as int))
}

/// The shared compilation pre-pass: validated, elided, transform-expanded
/// segments plus the output-time geometry (seek targets, replay windows,
/// position clamping). Output times are nanoseconds.
#[derive(Debug)]
pub struct PreviewPlan {
    pub segments: Vec<PlannedSegment>,
    /// Per clip: its output-time interval (a Loop's covers all its repeats).
    pub clip_output: Vec<(i128, i128)>,
    pub total_duration: i128,
}

impl PreviewPlan {
    /// The segments are proper and their lengths add up to the total.
    pub open spec fn wf(&self) -> bool {
        &&& segments_proper(segment_views(self.segments@))
        &&& self.total_duration == total(segment_views(self.segments@))
    }

    /// Output-time boundary list: 0, then each segment's cumulative end.
    pub fn boundaries(&self) -> (out: Vec<i128>)
        requires
            forall|k: int|
                #![trigger segment_views(self.segments@).take(k)]
                0 <= k <= self.segments@.len() ==> i128::MIN <= total(
                    segment_views(self.segments@).take(k),
                ) <= i128::MAX,
        ensures
            out@.len() == self.segments@.len() + 1,
            forall|k: int|
                #![trigger out@[k]]
                0 <= k <= self.segments@.len() ==> out@[k] == total(
                    segment_views(self.segments@).take(k),
                ),
    {
        let ghost all = segment_views(self.segments@);
        let mut out: Vec<i128> = Vec::new();
        let mut t: i128 = 0;
        out.push(t);
        let mut i: usize = 0;
        while i < self.segments.len()
            invariant
                i <= self.segments@.len(),
                all == segment_views(self.segments@),
                forall|k: int|
                    #![trigger all.take(k)]
                    0 <= k <= all.len() ==> i128::MIN <= total(all.take(k)) <= i128::MAX,
                t == total(all.take(i as int)),
                out@.len() == i + 1,
                forall|k: int|
                    #![trigger out@[k]]
                    0 <= k <= i ==> out@[k] == total(all.take(k)),
            decreases self.segments@.len() - i,
        {
            proof {
                assert(all.take(i + 1).drop_last() =~= all.take(i as int));
                let now = all.take(i + 1);
                assert(now.last() == self.segments@[i as int]@);
            }
            t = t + self.segments[i].duration();
            out.push(t);
            i = i + 1;
        }
        out
    }
}

/// The title of an elided run.
fn run_title(edl: &Edl, first: usize, end: usize) -> (title: Option<String>)
    requires
        first <= end <= edl.clips@.len(),
    ensures
        opt_text(title) == ({
            let names = labels(clip_views(edl.clips@), first as int, end as int);
            if names.len() == 0 {
                None
            } else {
                Some(joined(names, " "@))
            }
        }),
{
    let ghost views = clip_views(edl.clips@);
    let mut names: Vec<String> = Vec::new();
    let mut i: usize = first;
    assert(texts(names@) =~= labels(views, first as int, i as int));
    while i < end
        invariant
            first <= i <= end <= edl.clips@.len(),
            views == clip_views(edl.clips@),
            texts(names@) == labels(views, first as int, i as int),
        decreases end - i,
    {
        let ghost before = texts(names@);
        assert(views[i as int] == edl.clips@[i as int]@);
        match &edl.clips[i].label {
            Some(label) => {
                names.push(label.clone());
                assert(texts(names@) =~= before.push(label@));
            },
            None => {},
        }
        i = i + 1;
    }
    assert(names@.len() == texts(names@).len());
    if names.len() == 0 {
        None
    } else {
        Some(join(&names, " "))
    }
}

/// A clip of a valid edit: its source is known, its span proper, its
/// transforms in bounds.
proof fn lemma_valid_clip(clips: Seq<ClipView>, sources: Map<i64, SourceInfoView>, i: int)
    requires
        edit_fault(clips, sources) is None,
        0 <= i < clips.len(),
    ensures
        sources.contains_key(clips[i].span.source.0),
        clips[i].span.t_start.finite(),
        clips[i].span.t_end.finite(),
        0 <= clips[i].span.t_start.nanos() < clips[i].span.t_end.nanos(),
        transforms_fault(
            clips[i].transforms,
            difference(clips[i].span.t_end, clips[i].span.t_start),
        ) is None,
{
    lemma_no_fault(clips, sources, i);
}

/// Validates every clip and computes the preview plan. Errors are typed and
/// carry the clip index; nothing is ever clamped.
pub fn plan_preview(edl: &Edl, sources: &SourceMap) -> (r: Result<PreviewPlan, EdlCompileError>)
    ensures
        ({
            let clips = clip_views(edl.clips@);
            let infos = info_views(sources@);
            match edit_fault(clips, infos) {
                Some(fault) => r is Err && r->Err_0@ == fault,
                None => {
                    &&& r is Ok
                    &&& segment_views(r->Ok_0.segments@) == edit_segments(clips, infos)
                    &&& interval_views(r->Ok_0.clip_output@) == outputs(clips, infos, runs(clips))
                    &&& r->Ok_0.wf()
                },
            }
        }),
{
    match validate(edl, sources) {
        Err(e) => {
            return Err(e);
        },
        Ok(()) => {},
    }
    let ghost clips = clip_views(edl.clips@);
    let ghost infos = info_views(sources@);
    proof {
        assert forall|i: int| #![trigger edl.clips@[i]] 0 <= i < edl.clips@.len() implies
            edl.clips@[i].span.t_start.finite() && edl.clips@[i].span.t_end.finite() by {
            lemma_valid_clip(clips, infos, i);
            assert(clips[i] == edl.clips@[i]@);
        }
        law_runs_are_maximal_and_in_order(clips);
    }
    let units: Vec<Unit> = elide(edl);
    let ghost rs = runs(clips);
    let mut segments: Vec<PlannedSegment> = Vec::new();
    let mut clip_output: Vec<(i128, i128)> = Vec::new();
    let mut t_out: i128 = 0;
    let mut k: usize = 0;
    assert(segment_views(segments@) =~= planned(clips, infos, rs.take(0)));
    assert(interval_views(clip_output@) =~= outputs(clips, infos, rs.take(0)));
    while k < units.len()
        invariant
            k <= units@.len(),
            clips == clip_views(edl.clips@),
            infos == info_views(sources@),
            rs == runs(clips),
            unit_views(units@) == rs,
            edit_fault(clips, infos) is None,
            segment_views(segments@) == planned(clips, infos, rs.take(k as int)),
            interval_views(clip_output@) == outputs(clips, infos, rs.take(k as int)),
            segments_proper(segment_views(segments@)),
            t_out == total(segment_views(segments@)),
        decreases units@.len() - k,
    {
        let first: usize = units[k].first;
        let end: usize = units[k].end;
        let ghost run = rs[k as int];
        proof {
            assert(run == unit_views(units@)[k as int]);
            law_runs_are_maximal_and_in_order(clips);
            assert(rs.take(k + 1).drop_last() =~= rs.take(k as int));
            assert(rs.take(k + 1).last() == run);
            lemma_valid_clip(clips, infos, first as int);
            assert(clips[first as int] == edl.clips@[first as int]@);
        }
        let ghost done = segment_views(segments@);
        let ghost done_output = interval_views(clip_output@);
        let ghost t_run = t_out as int;
        let master_path: String = match sources.get(&edl.clips[first].span.source.0) {
            Some(info) => info.master_path.clone(),
            None => String::new(),
        };
        assert(master_path@ == infos[clips[first as int].span.source.0].master_path);
        if end - first > 1 {
            let run_start: i64 = match edl.clips[first].span.t_start {
                Real::Nano(n) => n,
                _ => 0,
            };
            proof {
                lemma_valid_clip(clips, infos, end - 1);
                assert(clips[end - 1] == edl.clips@[end - 1]@);
                lemma_run_extends(clips, k as int, end - 1);
            }
            let run_end: i64 = match edl.clips[end - 1].span.t_end {
                Real::Nano(n) => n,
                _ => 0,
            };
            proof {
                lemma_views_bounded(segments@);
                lemma_total_bounds(done);
                assert(segments.len() == done.len());
            }
            let mut i: usize = first;
            while i < end
                invariant
                    first <= i <= end <= edl.clips@.len(),
                    clips == clip_views(edl.clips@),
                    edit_fault(clips, infos) is None,
                    run == (first as int, end as int),
                    end - first > 1,
                    run_start == clips[first as int].span.t_start.nanos(),
                    0 <= t_out <= usize::MAX * i64::MAX,
                    interval_views(clip_output@) =~= done_output + run_output(
                        clips,
                        infos,
                        run,
                        t_out as int,
                    ).take(i - first),
                decreases end - i,
            {
                proof {
                    lemma_valid_clip(clips, infos, i as int);
                    assert(clips[i as int] == edl.clips@[i as int]@);
                }
                let ghost before = interval_views(clip_output@);
                match (edl.clips[i].span.t_start, edl.clips[i].span.t_end) {
                    (Real::Nano(t_start), Real::Nano(t_end)) => {
                        clip_output.push(
                            (
                                t_out + (t_start as i128 - run_start as i128),
                                t_out + (t_end as i128 - run_start as i128),
                            ),
                        );
                    },
                    _ => {},
                }
                proof {
                    let all = run_output(clips, infos, run, t_out as int);
                    assert(interval_views(clip_output@) =~= before.push(all[i - first]));
                    assert(all.take(i - first + 1) =~= all.take(i - first).push(all[i - first]));
                }
                i = i + 1;
            }
            proof {
                let all = run_output(clips, infos, run, t_out as int);
                assert(all.take(end - first) =~= all);
            }
            let title: Option<String> = run_title(edl, first, end);
            let segment = PlannedSegment {
                master_path,
                t_start: run_start,
                t_end: run_end,
                title,
                clips: first..end,
            };
            let ghost added = segment@;
            segments.push(segment);
            proof {
                assert(segment_views(segments@) =~= done.push(added));
                assert(run_segments(clips, infos, run) =~= seq![added]);
                assert(done.push(added) =~= done + seq![added]);
                assert(done.push(added).drop_last() =~= done);
                lemma_views_bounded(segments@);
                lemma_total_bounds(segment_views(segments@));
                assert(segments.len() == segment_views(segments@).len());
            }
            t_out = t_out + (run_end as i128 - run_start as i128);
        } else {
            assert(end == first + 1);
            let clip: &Clip = &edl.clips[first];
            let out_start: i128 = t_out;
            let pieces: Vec<(i64, i64)> = expand_transforms(clip);
            let ghost all = run_segments(clips, infos, run);
            let mut p: usize = 0;
            assert(done + all.take(0) =~= done);
            while p < pieces.len()
                invariant
                    p <= pieces@.len(),
                    all == run_segments(clips, infos, run),
                    run == (first as int, end as int),
                    end == first + 1,
                    first < edl.clips@.len(),
                    clips == clip_views(edl.clips@),
                    clips[first as int] == clip@,
                    piece_views(pieces@) == clip_pieces(clip@),
                    proper(piece_views(pieces@)),
                    master_path@ == infos[clips[first as int].span.source.0].master_path,
                    segment_views(segments@) == done + all.take(p as int),
                    segments_proper(segment_views(segments@)),
                    t_out == total(segment_views(segments@)),
                decreases pieces@.len() - p,
            {
                let ghost before = segment_views(segments@);
                let (t_start, t_end): (i64, i64) = pieces[p];
                assert(piece_views(pieces@)[p as int] == (t_start as int, t_end as int));
                let segment = PlannedSegment {
                    master_path: master_path.clone(),
                    t_start,
                    t_end,
                    title: super::clone_opt(&clip.label),
                    clips: first..end,
                };
                let ghost added = segment@;
                segments.push(segment);
                proof {
                    assert(added == all[p as int]);
                    assert(segment_views(segments@) =~= before.push(added));
                    assert(all.take(p + 1) =~= all.take(p as int).push(all[p as int]));
                    assert(before.push(added).drop_last() =~= before);
                    lemma_views_bounded(segments@);
                    lemma_total_bounds(segment_views(segments@));
                    assert(segments.len() == segment_views(segments@).len());
                }
                t_out = t_out + (t_end as i128 - t_start as i128);
                p = p + 1;
            }
            proof {
                assert(all.take(p as int) =~= all);
                lemma_total_concat(done, all);
            }
            clip_output.push((out_start, t_out));
            assert(interval_views(clip_output@) =~= done_output + run_output(
                clips,
                infos,
                run,
                t_run,
            ));
        }
        k = k + 1;
    }
    assert(rs.take(k as int) =~= rs);
    Ok(PreviewPlan { segments, clip_output, total_duration: t_out })
}

proof fn lemma_views_bounded(segments: Seq<PlannedSegment>)
    ensures
        forall|i: int|
            #![trigger segment_views(segments)[i]]
            0 <= i < segment_views(segments).len() ==> segment_views(segments)[i].t_end <= i64::MAX,
{
}

// ------------------------------------------------------------------- mpv EDL

/// The length of a text in UTF-8 bytes.
pub open spec fn byte_len(s: Seq<char>) -> nat {
    encode_utf8(s).len() as usize as nat
}

/// A title with its control characters replaced by spaces, so that it cannot
/// break the line or URI framing.
pub open spec fn display_title(title: Seq<char>) -> Seq<char> {
    title.map_values(|c: char| if control(c) { ' ' } else { c })
}

/// One EDL entry: `%<utf-8-byte-count>%` quoting, named `start=` and `length=`
/// parameters with six decimals, and the segment's `title=`.
pub open spec fn entry_text(segment: SegmentView) -> Seq<char> {
    let head = "%"@ + dec(byte_len(segment.master_path)) + "%"@ + segment.master_path + ",start="@
        + time_text(segment.t_start) + ",length="@ + time_text(segment.t_end - segment.t_start);
    match segment.title {
        Some(title) => head + ",title=%"@ + dec(byte_len(display_title(title))) + "%"@
            + display_title(title),
        None => head,
    }
}

/// The entries of a segment list.
pub open spec fn entry_texts(segments: Seq<SegmentView>) -> Seq<Seq<char>> {
    segments.map_values(|s: SegmentView| entry_text(s))
}

/// The entries, each followed by a line end.
pub open spec fn lines(entries: Seq<Seq<char>>) -> Seq<char>
    decreases entries.len(),
{
    if entries.len() == 0 {
        Seq::empty()
    } else {
        (lines(entries.drop_last()) + entries.last()).push('\n')
    }
}

/// A text without control characters.
pub open spec fn unbroken(s: Seq<char>) -> bool {
    forall|i: int| #![trigger s[i]] 0 <= i < s.len() ==> !control(s[i])
}

pub(crate) proof fn lemma_dec_is_unbroken(n: nat)
    ensures
        unbroken(dec(n)),
    decreases n,
{
    if n >= 10 {
        lemma_dec_is_unbroken(n / 10);
    }
}

pub(crate) proof fn lemma_padded_is_unbroken(n: nat, width: nat)
    ensures
        unbroken(padded(n, width)),
    decreases width,
{
    if width > 0 {
        lemma_padded_is_unbroken(n / 10, (width - 1) as nat);
    }
}

proof fn lemma_time_is_unbroken(ns: int)
    ensures
        unbroken(time_text(ns)),
{
    let size: nat = if ns < 0 {
        (-ns) as nat
    } else {
        ns as nat
    };
    reveal_strlit("-");
    let micros = nearest(size * 1_000_000, 1_000_000_000);
    lemma_dec_is_unbroken(micros / 1_000_000);
    lemma_padded_is_unbroken(micros % 1_000_000, 6);
}

/// An entry is one line, whatever its title holds, where its master's path is:
/// it can break neither the line framing of the file form nor the URI.
pub proof fn law_entries_are_unbroken(segment: SegmentView)
    requires
        unbroken(segment.master_path),
    ensures
        unbroken(entry_text(segment)),
{
    reveal_strlit("%");
    reveal_strlit(",start=");
    reveal_strlit(",length=");
    reveal_strlit(",title=%");
    lemma_dec_is_unbroken(byte_len(segment.master_path));
    lemma_time_is_unbroken(segment.t_start);
    lemma_time_is_unbroken(segment.t_end - segment.t_start);
    if segment.title is Some {
        lemma_dec_is_unbroken(byte_len(display_title(segment.title->0)));
        assert(unbroken(display_title(segment.title->0)));
    }
}

fn without_controls(title: &str) -> (s: String)
    ensures
        s@ == display_title(title@),
{
    let mut s: String = String::new();
    for c in it: title.chars()
        invariant
            it.seq() == title@,
            s@ =~= display_title(title@).take(it.index()),
    {
        if is_control(c) {
            s.push(' ');
        } else {
            s.push(c);
        }
    }
    assert(s@ =~= display_title(title@));
    s
}

fn push_quoted(out: &mut String, text: &str)
    ensures
        final(out)@ == old(out)@ + dec(byte_len(text@)) + "%"@ + text@,
{
    push_dec(out, text.len() as u128);
    out.append("%");
    out.append(text);
}

/// The EDL entry of one segment.
pub fn segment_entry(segment: &PlannedSegment) -> (entry: String)
    ensures
        entry@ == entry_text(segment@),
{
    let mut entry: String = "%".to_owned();
    push_quoted(&mut entry, segment.master_path.as_str());
    entry.append(",start=");
    entry.append(fmt_time(segment.t_start as i128).as_str());
    entry.append(",length=");
    entry.append(fmt_time(segment.t_end as i128 - segment.t_start as i128).as_str());
    match &segment.title {
        Some(title) => {
            let title: String = without_controls(title.as_str());
            entry.append(",title=%");
            push_quoted(&mut entry, title.as_str());
        },
        None => {},
    }
    entry
}

/// The compiled mpv EDL: one quoted entry per planned segment, as the
/// `# mpv EDL v0` document (export) or the `edl://` URI (preview reload).
#[derive(Debug)]
pub struct MpvEdl {
    segments: Vec<String>,
}

impl View for MpvEdl {
    type V = Seq<Seq<char>>;

    closed spec fn view(&self) -> Seq<Seq<char>> {
        texts(self.segments@)
    }
}

impl MpvEdl {
    /// The entries of a plan's segments, in order.
    pub fn from_plan(plan: &PreviewPlan) -> (r: Self)
        ensures
            r@ == entry_texts(segment_views(plan.segments@)),
    {
        let ghost all = segment_views(plan.segments@);
        let mut segments: Vec<String> = Vec::new();
        let mut i: usize = 0;
        while i < plan.segments.len()
            invariant
                i <= plan.segments@.len(),
                all == segment_views(plan.segments@),
                texts(segments@) =~= entry_texts(all).take(i as int),
            decreases plan.segments@.len() - i,
        {
            assert(all[i as int] == plan.segments@[i as int]@);
            let ghost before = texts(segments@);
            let entry: String = segment_entry(&plan.segments[i]);
            segments.push(entry);
            assert(texts(segments@) =~= before.push(entry@));
            i = i + 1;
        }
        assert(entry_texts(all).take(i as int) =~= entry_texts(all));
        MpvEdl { segments }
    }

    /// The mpv EDL file form, for `.mpv.edl` export.
    pub fn document(&self) -> (out: String)
        ensures
            out@ == "# mpv EDL v0\n"@ + lines(self@),
    {
        let mut out: String = "# mpv EDL v0\n".to_owned();
        let mut i: usize = 0;
        assert(out@ =~= "# mpv EDL v0\n"@ + lines(self@.take(0)));
        while i < self.segments.len()
            invariant
                i <= self.segments@.len(),
                self.segments@.len() == self@.len(),
                out@ == "# mpv EDL v0\n"@ + lines(self@.take(i as int)),
            decreases self.segments@.len() - i,
        {
            assert(self@.take(i + 1).drop_last() =~= self@.take(i as int));
            out.append(self.segments[i].as_str());
            out.push('\n');
            assert(out@ =~= "# mpv EDL v0\n"@ + lines(self@.take(i + 1)));
            i = i + 1;
        }
        assert(self@.take(i as int) =~= self@);
        out
    }

    /// The `edl://` URI form, loaded into the player on every change.
    pub fn uri(&self) -> (out: String)
        ensures
            out@ == "edl://"@ + joined(self@, ";"@),
    {
        let mut out: String = "edl://".to_owned();
        out.append(join(&self.segments, ";").as_str());
        out
    }

    /// Whether there is nothing to play.
    pub fn is_empty(&self) -> (b: bool)
        ensures
            b == (self@.len() == 0),
    {
        self.segments.len() == 0
    }
}

/// Compiles an edit to an mpv EDL for zero-render preview.
pub fn compile_mpv_edl(edl: &Edl, sources: &SourceMap) -> (r: Result<MpvEdl, EdlCompileError>)
    ensures
        ({
            let clips = clip_views(edl.clips@);
            let infos = info_views(sources@);
            match edit_fault(clips, infos) {
                Some(fault) => r is Err && r->Err_0@ == fault,
                None => r is Ok && r->Ok_0@ == entry_texts(edit_segments(clips, infos)),
            }
        }),
{
    match plan_preview(edl, sources) {
        Ok(plan) => Ok(MpvEdl::from_plan(&plan)),
        Err(e) => Err(e),
    }
}

// ---------------------------------------------------------------------- laws

/// A clip never continues a clip that ends at the same time or later: repeated
/// spans stay separate segments, and so does a jump back.
pub proof fn law_repeats_never_join(a: ClipView, b: ClipView)
    requires
        b.span.t_end.nanos() <= a.span.t_end.nanos(),
    ensures
        !joins(a, b),
{
}

/// Every clip has exactly one output interval.
pub proof fn law_one_interval_per_clip(
    clips: Seq<ClipView>,
    sources: Map<i64, SourceInfoView>,
)
    ensures
        outputs(clips, sources, runs(clips)).len() == clips.len(),
{
    law_runs_are_maximal_and_in_order(clips);
    lemma_outputs_len(clips, sources, runs(clips));
}

proof fn lemma_outputs_len(
    clips: Seq<ClipView>,
    sources: Map<i64, SourceInfoView>,
    rs: Seq<(int, int)>,
)
    requires
        rs.len() > 0 ==> rs[0].0 == 0,
        forall|k: int| #![trigger rs[k]] 0 <= k < rs.len() ==> 0 <= rs[k].0 < rs[k].1,
        forall|k: int, l: int|
            #![trigger rs[k], rs[l]]
            0 <= k && l == k + 1 && l < rs.len() ==> rs[k].1 == rs[l].0,
    ensures
        outputs(clips, sources, rs).len() == (if rs.len() == 0 {
            0
        } else {
            rs.last().1
        }),
    decreases rs.len(),
{
    if rs.len() > 0 {
        let before = rs.drop_last();
        assert forall|k: int| #![trigger before[k]] 0 <= k < before.len() implies before[k]
            == rs[k] by {}
        lemma_outputs_len(clips, sources, before);
        if rs.len() > 1 {
            assert(rs[rs.len() - 2].1 == rs[rs.len() - 1].0);
            assert(before.last() == rs[rs.len() - 2]);
        }
    }
}

/// Segments follow the edit: a later segment realizes the same run as an
/// earlier one, or a run after it.
pub proof fn law_segments_follow_edit_order(
    clips: Seq<ClipView>,
    sources: Map<i64, SourceInfoView>,
    i: int,
    j: int,
)
    requires
        0 <= i <= j < edit_segments(clips, sources).len(),
    ensures
        ({
            let a = edit_segments(clips, sources)[i];
            let b = edit_segments(clips, sources)[j];
            &&& 0 <= a.first < a.end <= clips.len()
            &&& (a.first == b.first && a.end == b.end) || a.end <= b.first
        }),
{
    law_runs_are_maximal_and_in_order(clips);
    lemma_planned_order(clips, sources, runs(clips), i, j);
}

proof fn lemma_planned_order(
    clips: Seq<ClipView>,
    sources: Map<i64, SourceInfoView>,
    rs: Seq<(int, int)>,
    i: int,
    j: int,
)
    requires
        forall|k: int|
            #![trigger rs[k]]
            0 <= k < rs.len() ==> 0 <= rs[k].0 < rs[k].1 <= clips.len(),
        forall|k: int, l: int|
            #![trigger rs[k], rs[l]]
            0 <= k && l == k + 1 && l < rs.len() ==> rs[k].1 == rs[l].0,
        0 <= i <= j < planned(clips, sources, rs).len(),
    ensures
        ({
            let a = planned(clips, sources, rs)[i];
            let b = planned(clips, sources, rs)[j];
            &&& 0 <= a.first < a.end <= clips.len()
            &&& (a.first == b.first && a.end == b.end) || a.end <= b.first
            &&& b.end <= rs.last().1
        }),
    decreases rs.len(),
{
    let before = rs.drop_last();
    let n = planned(clips, sources, before).len() as int;
    assert forall|k: int| #![trigger before[k]] 0 <= k < before.len() implies before[k]
        == rs[k] by {}
    if i < n {
        if j < n {
            lemma_planned_order(clips, sources, before, i, j);
        } else {
            lemma_planned_order(clips, sources, before, i, i);
        }
        assert(rs[rs.len() - 2].1 == rs[rs.len() - 1].0);
        assert(before.last() == rs[rs.len() - 2]);
    }
    assert(rs[rs.len() - 1] == rs.last());
}

/// The summed length of pieces.
pub open spec fn played(pieces: Seq<(int, int)>) -> int
    decreases pieces.len(),
{
    if pieces.len() == 0 {
        0
    } else {
        played(pieces.drop_last()) + (pieces.last().1 - pieces.last().0)
    }
}

proof fn lemma_played_concat(a: Seq<(int, int)>, b: Seq<(int, int)>)
    ensures
        played(a + b) == played(a) + played(b),
    decreases b.len(),
{
    if b.len() == 0 {
        assert(a + b =~= a);
    } else {
        assert((a + b).drop_last() =~= a + b.drop_last());
        lemma_played_concat(a, b.drop_last());
    }
}

proof fn lemma_repeats(pieces: Seq<(int, int)>, n: nat)
    ensures
        repeated(pieces, n).len() == n * pieces.len(),
        played(repeated(pieces, n)) == n * played(pieces),
        forall|i: int|
            #![trigger repeated(pieces, n)[i]]
            0 <= i < repeated(pieces, n).len() ==> repeated(pieces, n)[i] == pieces[i
                % pieces.len() as int],
    decreases n,
{
    let len = pieces.len() as int;
    if n > 0 {
        let m = (n - 1) as nat;
        let (before, out) = (repeated(pieces, m), repeated(pieces, n));
        lemma_repeats(pieces, m);
        lemma_played_concat(before, pieces);
        assert(n * len == m * len + len) by (nonlinear_arith)
            requires
                n == m + 1,
        ;
        assert(n * played(pieces) == m * played(pieces) + played(pieces)) by (nonlinear_arith)
            requires
                n == m + 1,
        ;
        assert forall|i: int| #![trigger out[i]] 0 <= i < out.len() implies out[i] == pieces[i
            % len] by {
            if i < before.len() {
                assert(out[i] == before[i]);
            } else {
                let r = i - m * len;
                assert(out[i] == pieces[r]);
                vstd::arithmetic::div_mod::lemma_fundamental_div_mod_converse(i, len, m as int, r);
            }
        }
    } else {
        assert(0 * len == 0) by (nonlinear_arith);
        assert(0 * played(pieces) == 0) by (nonlinear_arith);
    }
}

/// A loop of `n` plays everything `n` times, in the same order: it makes the
/// pieces and their summed length `n` times as many.
pub proof fn law_loop_plays_n_times(pieces: Seq<(int, int)>, n: u32)
    ensures
        ({
            let out = transformed(pieces, Transform::Loop { count: n });
            &&& out.len() == n * pieces.len()
            &&& played(out) == n * played(pieces)
            &&& forall|i: int|
                #![trigger out[i]]
                0 <= i < out.len() ==> out[i] == pieces[i % pieces.len() as int]
        }),
{
    lemma_repeats(pieces, n as nat);
}

/// The first `want` nanoseconds of pieces: whole pieces, then the beginning of
/// one, `want` nanoseconds in all, within the slack.
proof fn lemma_prefix(pieces: Seq<(int, int)>, want: int)
    requires
        pieces.len() > 0,
        proper(pieces),
        0 < want <= played(pieces) + 1,
    ensures
        ({
            let out = prefix(pieces, want);
            &&& 0 < out.len() <= pieces.len()
            &&& want - 1 <= played(out) <= want
            &&& forall|i: int| #![trigger out[i]] 0 <= i < out.len() - 1 ==> out[i] == pieces[i]
            &&& out.last().0 == pieces[out.len() - 1].0
            &&& out.last().0 < out.last().1 <= pieces[out.len() - 1].1
        }),
    decreases pieces.len(),
{
    let out = prefix(pieces, want);
    if pieces.len() > 0 {
        let rest = pieces.drop_first();
        let (a, b) = pieces[0];
        assert(pieces =~= seq![(a, b)] + rest);
        lemma_played_concat(seq![(a, b)], rest);
        let first = seq![(a, b)];
        assert(first.drop_last() =~= Seq::empty());
        assert(played(first) == b - a) by {
            assert(played(first.drop_last()) == 0);
        }
        if want <= b - a + 1 {
            assert(out.len() == 1);
            assert(out.drop_last() =~= Seq::empty());
            assert(played(out.drop_last()) == 0);
        } else {
            assert forall|i: int| #![trigger rest[i]] 0 <= i < rest.len() implies 0 <= rest[i].0
                < rest[i].1 by {
                assert(rest[i] == pieces[i + 1]);
            }
            lemma_prefix(rest, want - (b - a));
            let inner = prefix(rest, want - (b - a));
            assert(out == seq![(a, b)] + inner);
            lemma_played_concat(seq![(a, b)], inner);
            assert(out.last() == inner.last());
            assert forall|i: int| #![trigger out[i]] 0 <= i < out.len() - 1 implies out[i]
                == pieces[i] by {
                if i > 0 {
                    assert(out[i] == inner[i - 1]);
                    assert(inner[i - 1] == rest[i - 1]);
                }
            }
            assert(pieces[out.len() - 1] == rest[inner.len() - 1]);
        }
    }
}

/// A stutter plays the first `slice` of what there is `repeats` times, and then
/// everything: each repeat is whole pieces and the beginning of one, within a
/// nanosecond of the slice in all.
pub proof fn law_stutter_repeats_the_beginning(
    pieces: Seq<(int, int)>,
    repeats: u32,
    slice: Real,
) -> (n: nat)
    requires
        pieces.len() > 0,
        proper(pieces),
        slice.finite(),
        0 < slice.nanos() <= played(pieces) + 1,
    ensures
        ({
            let out = transformed(pieces, Transform::Stutter { repeats, slice });
            let k = repeats * n;
            &&& 0 < n <= pieces.len()
            &&& out.len() == k + pieces.len()
            &&& out.skip(k as int) == pieces
            &&& forall|i: int|
                #![trigger out[i]]
                0 <= i < k ==> out[i].0 == pieces[i % n as int].0 && out[i].0 < out[i].1 && (if i
                    % n as int == n - 1 {
                    out[i].1 <= pieces[i % n as int].1
                } else {
                    out[i].1 == pieces[i % n as int].1
                })
            &&& repeats * (slice.nanos() - 1) <= played(out) - played(pieces) <= repeats
                * slice.nanos()
        }),
{
    let want = slice.nanos();
    let head = prefix(pieces, want);
    let n = head.len();
    let out = transformed(pieces, Transform::Stutter { repeats, slice });
    let copies = repeated(head, repeats as nat);
    lemma_prefix(pieces, want);
    lemma_repeats(head, repeats as nat);
    lemma_played_concat(copies, pieces);
    assert(out == copies + pieces);
    assert(out.skip(copies.len() as int) =~= pieces);
    assert forall|i: int| #![trigger out[i]] 0 <= i < copies.len() implies out[i].0 == pieces[i
        % n as int].0 && out[i].0 < out[i].1 && (if i % n as int == n - 1 {
        out[i].1 <= pieces[i % n as int].1
    } else {
        out[i].1 == pieces[i % n as int].1
    }) by {
        vstd::arithmetic::div_mod::lemma_mod_bound(i, n as int);
        assert(out[i] == copies[i]);
        let j = i % n as int;
        assert(copies[i] == head[j]);
        assert(0 <= pieces[j].0 < pieces[j].1);
    }
    let got = played(head);
    assert(repeats * (want - 1) <= repeats * got <= repeats * want) by (nonlinear_arith)
        requires
            want - 1 <= got <= want,
            repeats >= 0,
    ;
    n
}

/// The other transforms change nothing of what is played where.
pub proof fn law_other_transforms_play_plain(pieces: Seq<(int, int)>, transform: Transform)
    requires
        !(transform is Loop),
        !(transform is Stutter),
    ensures
        transformed(pieces, transform) == pieces,
{
}

/// A clip plays its span, each of its transforms applied in turn to what the
/// ones before it made.
pub proof fn law_transforms_apply_in_order(clip: ClipView, transform: Transform)
    ensures
        clip_pieces(ClipView { transforms: Seq::empty(), ..clip }) == seq![
            (clip.span.t_start.nanos(), clip.span.t_end.nanos()),
        ],
        clip_pieces(ClipView { transforms: clip.transforms.push(transform), ..clip })
            == transformed(clip_pieces(clip), transform),
{
    assert(clip.transforms.push(transform).drop_last() =~= clip.transforms);
}

proof fn lemma_pieces_proper(clip: ClipView, k: nat)
    requires
        clip.span.t_start.finite(),
        clip.span.t_end.finite(),
        0 <= clip.span.t_start.nanos() < clip.span.t_end.nanos(),
        transforms_fault(
            clip.transforms,
            difference(clip.span.t_end, clip.span.t_start),
        ) is None,
        k <= clip.transforms.len(),
    ensures
        ({
            let pieces = expanded(
                seq![(clip.span.t_start.nanos(), clip.span.t_end.nanos())],
                clip.transforms.take(k as int),
            );
            &&& pieces.len() > 0
            &&& proper(pieces)
            &&& played(pieces) >= clip.span.t_end.nanos() - clip.span.t_start.nanos()
        }),
    decreases k,
{
    let whole = seq![(clip.span.t_start.nanos(), clip.span.t_end.nanos())];
    let len = clip.span.t_end.nanos() - clip.span.t_start.nanos();
    let clip_len = difference(clip.span.t_end, clip.span.t_start);
    let ts = clip.transforms.take(k as int);
    if k == 0 {
        assert(whole.drop_last() =~= Seq::empty());
        assert(played(whole.drop_last()) == 0);
        assert(ts =~= Seq::empty());
    } else {
        lemma_pieces_proper(clip, (k - 1) as nat);
        assert(ts.drop_last() =~= clip.transforms.take(k - 1));
        let before = expanded(whole, ts.drop_last());
        lemma_no_transform_fault(clip.transforms, clip_len, k - 1);
        match ts.last() {
            Transform::Loop { count } => {
                lemma_repeats(before, count as nat);
                lemma_repeated_proper(before, count as nat);
                let (n, m, w) = (count as int, before.len() as int, played(before));
                assert(n * m > 0 && n * w >= w) by (nonlinear_arith)
                    requires
                        n >= 1,
                        m > 0,
                        w > 0,
                ;
            },
            Transform::Stutter { repeats, slice } => {
                assert(clip_len.nanos() == len);
                lemma_prefix(before, slice.nanos());
                let head = prefix(before, slice.nanos());
                lemma_repeats(head, repeats as nat);
                assert(proper(head)) by {
                    assert forall|i: int| #![trigger head[i]] 0 <= i < head.len() implies 0
                        <= head[i].0 < head[i].1 by {
                        assert(0 <= before[i].0 < before[i].1);
                    }
                }
                lemma_repeated_proper(head, repeats as nat);
                let copies = repeated(head, repeats as nat);
                lemma_played_concat(copies, before);
                let (n, w) = (repeats as int, played(head));
                assert(n * w >= 0) by (nonlinear_arith)
                    requires
                        n >= 1,
                        w >= 0,
                ;
            },
            _ => {},
        }
    }
}

/// A clip that compiles plays something, at least its own length, in source
/// intervals that are not empty.
pub proof fn law_valid_clips_play(clips: Seq<ClipView>, sources: Map<i64, SourceInfoView>, i: int)
    requires
        edit_fault(clips, sources) is None,
        0 <= i < clips.len(),
    ensures
        clip_pieces(clips[i]).len() > 0,
        proper(clip_pieces(clips[i])),
        played(clip_pieces(clips[i])) >= clips[i].span.t_end.nanos()
            - clips[i].span.t_start.nanos(),
{
    lemma_valid_clip(clips, sources, i);
    lemma_pieces_proper(clips[i], clips[i].transforms.len());
    assert(clips[i].transforms.take(clips[i].transforms.len() as int) =~= clips[i].transforms);
}

/// Whether clip `b` right after clip `a` plays on in `a`'s segment.
pub open spec fn shares_segment(
    clips: Seq<ClipView>,
    sources: Map<i64, SourceInfoView>,
    i: int,
) -> bool {
    exists|k: int|
        #![trigger edit_segments(clips, sources)[k]]
        0 <= k < edit_segments(clips, sources).len() && edit_segments(clips, sources)[k].first < i
            < edit_segments(clips, sources)[k].end
}

/// Where the segments and the intervals of run `k` stand among all.
proof fn lemma_run_located(
    clips: Seq<ClipView>,
    sources: Map<i64, SourceInfoView>,
    rs: Seq<(int, int)>,
    k: int,
)
    requires
        0 <= k < rs.len(),
    ensures
        ({
            let from = planned(clips, sources, rs.take(k)).len() as int;
            let run = run_segments(clips, sources, rs[k]);
            let all = planned(clips, sources, rs);
            &&& from + run.len() <= all.len()
            &&& all.subrange(from, from + run.len()) == run
            &&& all.take(from) == planned(clips, sources, rs.take(k))
            &&& all.take(from + run.len()) == planned(clips, sources, rs.take(k + 1))
            &&& total(all.take(from + run.len())) == total(all.take(from)) + total(run)
        }),
        ({
            let from = outputs(clips, sources, rs.take(k)).len() as int;
            let out = run_output(
                clips,
                sources,
                rs[k],
                total(planned(clips, sources, rs.take(k))),
            );
            let all = outputs(clips, sources, rs);
            &&& from + out.len() <= all.len()
            &&& all.subrange(from, from + out.len()) == out
        }),
    decreases rs.len(),
{
    let last = rs.len() - 1;
    let before = rs.drop_last();
    let run = run_segments(clips, sources, rs[k]);
    let all = planned(clips, sources, rs);
    let from = planned(clips, sources, rs.take(k)).len() as int;
    let ofrom = outputs(clips, sources, rs.take(k)).len() as int;
    let oall = outputs(clips, sources, rs);
    if k == last {
        assert(rs.take(k) =~= before);
        assert(rs.take(k + 1) =~= rs);
        assert(all.subrange(from, from + run.len()) =~= run);
        assert(all.take(from) =~= planned(clips, sources, before));
        assert(all.take(from + run.len()) =~= all);
        let out = run_output(clips, sources, rs[k], total(planned(clips, sources, before)));
        assert(oall.subrange(ofrom, ofrom + out.len()) =~= out);
    } else {
        lemma_run_located(clips, sources, before, k);
        assert(before.take(k) =~= rs.take(k));
        assert(before.take(k + 1) =~= rs.take(k + 1));
        let inner = planned(clips, sources, before);
        assert(all.subrange(from, from + run.len()) =~= inner.subrange(from, from + run.len()));
        assert(all.take(from) =~= inner.take(from));
        assert(all.take(from + run.len()) =~= inner.take(from + run.len()));
        let out = run_output(
            clips,
            sources,
            rs[k],
            total(planned(clips, sources, rs.take(k))),
        );
        let oinner = outputs(clips, sources, before);
        assert(oall.subrange(ofrom, ofrom + out.len()) =~= oinner.subrange(
            ofrom,
            ofrom + out.len(),
        ));
    }
    assert(all.take(from + run.len()) =~= all.take(from) + run);
    lemma_total_concat(all.take(from), run);
}

/// The run that a clip is in.
proof fn lemma_run_of(clips: Seq<ClipView>, i: int) -> (k: int)
    requires
        0 <= i < clips.len(),
    ensures
        0 <= k < runs(clips).len(),
        runs(clips)[k].0 <= i < runs(clips)[k].1 <= clips.len(),
    decreases clips.len(),
{
    law_runs_are_maximal_and_in_order(clips);
    let before = clips.drop_last();
    let (old_runs, new_runs) = (runs(before), runs(clips));
    if i < before.len() {
        let k = lemma_run_of(before, i);
        if k < new_runs.len() - 1 {
            assert(new_runs[k] == old_runs[k]);
        } else {
            assert(new_runs[k].0 == old_runs[k].0);
        }
        k
    } else {
        new_runs.len() - 1
    }
}

proof fn lemma_outputs_before(
    clips: Seq<ClipView>,
    sources: Map<i64, SourceInfoView>,
    k: int,
)
    requires
        0 <= k < runs(clips).len(),
    ensures
        outputs(clips, sources, runs(clips).take(k)).len() == runs(clips)[k].0,
{
    law_runs_are_maximal_and_in_order(clips);
    let rs = runs(clips);
    let before = rs.take(k);
    assert forall|j: int| #![trigger before[j]] 0 <= j < before.len() implies before[j]
        == rs[j] by {}
    lemma_outputs_len(clips, sources, before);
    if k > 0 {
        assert(before.last() == rs[k - 1]);
        assert(rs[k - 1].1 == rs[k].0);
    }
}

/// Two neighbouring clips share a segment iff neither is transformed, both are
/// on one source and channel, the second starts within a millisecond of the
/// first one's end, and it ends later.
pub proof fn law_contiguous_clips_share_a_segment(
    clips: Seq<ClipView>,
    sources: Map<i64, SourceInfoView>,
    i: int,
)
    requires
        edit_fault(clips, sources) is None,
        0 < i < clips.len(),
    ensures
        ({
            let (a, b) = (clips[i - 1], clips[i]);
            let gap = b.span.t_start.nanos() - a.span.t_end.nanos();
            shares_segment(clips, sources, i) <==> a.transforms.len() == 0 && b.transforms.len()
                == 0 && a.span.source == b.span.source && a.span.channel == b.span.channel
                && -1_000_000 <= gap <= 1_000_000 && b.span.t_end.nanos() > a.span.t_end.nanos()
        }),
{
    let rs = runs(clips);
    let segments = edit_segments(clips, sources);
    law_runs_are_maximal_and_in_order(clips);
    let k = lemma_run_of(clips, i);
    lemma_run_located(clips, sources, rs, k);
    let from = planned(clips, sources, rs.take(k)).len() as int;
    let run = run_segments(clips, sources, rs[k]);
    if joins(clips[i - 1], clips[i]) {
        if rs[k].0 == i {
            assert(k > 0);
            assert(!joins(clips[i - 1], clips[i]));
        }
        assert(segments[from] == segments.subrange(from, from + run.len())[0]);
        assert(segments[from].first < i < segments[from].end);
    } else {
        if rs[k].0 < i {
            assert(joins(clips[i - 1], clips[i]));
        }
        if shares_segment(clips, sources, i) {
            let s = choose|s: int|
                #![trigger segments[s]]
                0 <= s < segments.len() && segments[s].first < i < segments[s].end;
            lemma_segment_run(clips, sources, rs, s);
            let j = choose|j: int|
                #![trigger rs[j]]
                0 <= j < rs.len() && segments[s].first == rs[j].0 && segments[s].end == rs[j].1;
            assert(joins(clips[i - 1], clips[i]));
        }
    }
}

proof fn lemma_segment_run(
    clips: Seq<ClipView>,
    sources: Map<i64, SourceInfoView>,
    rs: Seq<(int, int)>,
    s: int,
)
    requires
        forall|k: int| #![trigger rs[k]] 0 <= k < rs.len() ==> rs[k].0 < rs[k].1,
        0 <= s < planned(clips, sources, rs).len(),
    ensures
        exists|k: int|
            #![trigger rs[k]]
            0 <= k < rs.len() && planned(clips, sources, rs)[s].first == rs[k].0 && planned(
                clips,
                sources,
                rs,
            )[s].end == rs[k].1 && run_segments(clips, sources, rs[k]).contains(
                planned(clips, sources, rs)[s],
            ),
    decreases rs.len(),
{
    let before = rs.drop_last();
    let inner = planned(clips, sources, before);
    let all = planned(clips, sources, rs);
    if s < inner.len() {
        assert forall|k: int| #![trigger before[k]] 0 <= k < before.len() implies before[k].0
            < before[k].1 by {
            assert(rs[k].0 < rs[k].1);
        }
        lemma_segment_run(clips, sources, before, s);
        let k = choose|k: int|
            #![trigger before[k]]
            0 <= k < before.len() && inner[s].first == before[k].0 && inner[s].end == before[k].1
                && run_segments(clips, sources, before[k]).contains(inner[s]);
        assert(rs[k] == before[k]);
        assert(all[s] == inner[s]);
    } else {
        let k = rs.len() - 1;
        let run = run_segments(clips, sources, rs[k]);
        assert(all[s] == run[s - inner.len()]);
        assert(rs[k].0 < rs[k].1);
    }
}

/// A segment reads the master of its clips' source. One of a single plain clip
/// plays its span and has its label; one of several clips plays from the start
/// of the first to the end of the last.
pub proof fn law_segments_play_their_clips(
    clips: Seq<ClipView>,
    sources: Map<i64, SourceInfoView>,
    s: int,
    i: int,
)
    requires
        edit_fault(clips, sources) is None,
        0 <= s < edit_segments(clips, sources).len(),
        edit_segments(clips, sources)[s].first <= i < edit_segments(clips, sources)[s].end,
    ensures
        ({
            let seg = edit_segments(clips, sources)[s];
            let (a, b) = (clips[seg.first], clips[seg.end - 1]);
            &&& 0 <= seg.first < seg.end <= clips.len()
            &&& seg.master_path == sources[clips[i].span.source.0].master_path
            &&& seg.end - seg.first == 1 ==> seg.title == a.label
            &&& a.transforms.len() == 0 ==> seg.t_start == a.span.t_start.nanos() && seg.t_end
                == b.span.t_end.nanos()
            &&& seg.end - seg.first > 1 ==> a.transforms.len() == 0
            &&& a.transforms.len() > 0 ==> clip_pieces(a).contains((seg.t_start, seg.t_end))
        }),
{
    let rs = runs(clips);
    let seg = edit_segments(clips, sources)[s];
    law_runs_are_maximal_and_in_order(clips);
    lemma_segment_run(clips, sources, rs, s);
    let k = choose|k: int|
        #![trigger rs[k]]
        0 <= k < rs.len() && seg.first == rs[k].0 && seg.end == rs[k].1 && run_segments(
            clips,
            sources,
            rs[k],
        ).contains(seg);
    let run = run_segments(clips, sources, rs[k]);
    let p = choose|p: int| 0 <= p < run.len() && run[p] == seg;
    lemma_one_source(clips, k, i);
    if rs[k].1 - rs[k].0 > 1 {
        assert(joins(clips[rs[k].0], clips[rs[k].0 + 1]));
    } else {
        let a = clips[rs[k].0];
        assert(clip_pieces(a)[p] == (seg.t_start, seg.t_end));
        if a.transforms.len() == 0 {
            assert(clip_pieces(a).len() == 1);
        }
    }
}

proof fn lemma_one_source(clips: Seq<ClipView>, k: int, i: int)
    requires
        0 <= k < runs(clips).len(),
        runs(clips)[k].0 <= i < runs(clips)[k].1,
    ensures
        0 <= runs(clips)[k].0 < runs(clips)[k].1 <= clips.len(),
        clips[i].span.source == clips[runs(clips)[k].0].span.source,
    decreases i,
{
    law_runs_are_maximal_and_in_order(clips);
    if i > runs(clips)[k].0 {
        lemma_one_source(clips, k, i - 1);
        assert(joins(clips[i - 1], clips[i]));
    }
}

/// The clip at `i` alone plays the given pieces: its segments are exactly those,
/// one after the other, and its output interval runs from the end of what is
/// before it over their summed length.
pub open spec fn plays(
    clips: Seq<ClipView>,
    sources: Map<i64, SourceInfoView>,
    i: int,
    pieces: Seq<(int, int)>,
    from: int,
) -> bool {
    let segments = edit_segments(clips, sources);
    let interval = outputs(clips, sources, runs(clips))[i];
    &&& 0 <= from && from + pieces.len() <= segments.len()
    &&& forall|s: int|
        #![trigger segments[s]]
        0 <= s < segments.len() ==> (segments[s].first <= i < segments[s].end <==> from <= s < from
            + pieces.len())
    &&& forall|p: int|
        #![trigger pieces[p]]
        0 <= p < pieces.len() ==> segments[from + p].t_start == pieces[p].0 && segments[from
            + p].t_end == pieces[p].1 && segments[from + p].first == i && segments[from + p].end
            == i + 1
    &&& interval.0 == total(segments.take(from))
    &&& interval.1 == interval.0 + played(pieces)
}

/// A transformed clip has segments of its own, one for each piece that its
/// transforms make of it, and an output interval of their summed length.
pub proof fn law_transformed_clips_play_their_pieces(
    clips: Seq<ClipView>,
    sources: Map<i64, SourceInfoView>,
    i: int,
) -> (from: int)
    requires
        edit_fault(clips, sources) is None,
        0 <= i < clips.len(),
        clips[i].transforms.len() > 0,
    ensures
        plays(clips, sources, i, clip_pieces(clips[i]), from),
{
    let rs = runs(clips);
    let segments = edit_segments(clips, sources);
    let pieces = clip_pieces(clips[i]);
    law_runs_are_maximal_and_in_order(clips);
    let k = lemma_run_of(clips, i);
    if rs[k].1 - rs[k].0 > 1 {
        if i > rs[k].0 {
            assert(joins(clips[i - 1], clips[i]));
        } else {
            assert(joins(clips[i], clips[i + 1]));
        }
    }
    assert(rs[k] == (i, i + 1));
    lemma_run_located(clips, sources, rs, k);
    lemma_outputs_before(clips, sources, k);
    let from = planned(clips, sources, rs.take(k)).len() as int;
    let run = run_segments(clips, sources, rs[k]);
    lemma_run_total(clips, sources, i, pieces.len());
    assert(run.take(pieces.len() as int) =~= run);
    assert(pieces.take(pieces.len() as int) =~= pieces);
    let outs = outputs(clips, sources, rs);
    let out = run_output(clips, sources, rs[k], total(planned(clips, sources, rs.take(k))));
    assert(outs[i] == outs.subrange(i, i + 1)[0]);
    assert(out[0] == outs[i]);
    law_valid_clips_play(clips, sources, i);
    assert forall|p: int| #![trigger pieces[p]] 0 <= p < pieces.len() implies segments[from
        + p].t_start == pieces[p].0 && segments[from + p].t_end == pieces[p].1 && segments[from
        + p].first == i && segments[from + p].end == i + 1 by {
        assert(segments[from + p] == segments.subrange(from, from + run.len())[p]);
        assert(run[p].t_start == pieces[p].0);
    }
    assert forall|s: int| #![trigger segments[s]] 0 <= s < segments.len() implies (
    segments[s].first <= i < segments[s].end <==> from <= s < from + pieces.len()) by {
        if from <= s < from + pieces.len() {
            assert(pieces[s - from] == pieces[s - from]);
            assert(segments[from + (s - from)].first == i);
        } else if segments[s].first <= i < segments[s].end {
            lemma_segments_of_run(clips, sources, k, s);
        }
    }
    from
}

proof fn lemma_run_total(clips: Seq<ClipView>, sources: Map<i64, SourceInfoView>, i: int, n: nat)
    requires
        n <= clip_pieces(clips[i]).len(),
    ensures
        total(run_segments(clips, sources, (i, i + 1)).take(n as int)) == played(
            clip_pieces(clips[i]).take(n as int),
        ),
    decreases n,
{
    let run = run_segments(clips, sources, (i, i + 1));
    let pieces = clip_pieces(clips[i]);
    if n > 0 {
        lemma_run_total(clips, sources, i, (n - 1) as nat);
        assert(run.take(n as int).drop_last() =~= run.take(n - 1));
        assert(pieces.take(n as int).drop_last() =~= pieces.take(n - 1));
        assert(run.take(n as int).last() == run[n - 1]);
    } else {
        assert(run.take(0) =~= Seq::empty());
        assert(pieces.take(0) =~= Seq::empty());
    }
}

/// A segment of a run stands among the segments of that run.
proof fn lemma_segments_of_run(
    clips: Seq<ClipView>,
    sources: Map<i64, SourceInfoView>,
    k: int,
    s: int,
)
    requires
        0 <= k < runs(clips).len(),
        0 <= s < edit_segments(clips, sources).len(),
        edit_segments(clips, sources)[s].first < runs(clips)[k].1,
        runs(clips)[k].0 < edit_segments(clips, sources)[s].end,
    ensures
        ({
            let from = planned(clips, sources, runs(clips).take(k)).len();
            from <= s < from + run_segments(clips, sources, runs(clips)[k]).len()
        }),
{
    let rs = runs(clips);
    let all = edit_segments(clips, sources);
    law_runs_are_maximal_and_in_order(clips);
    lemma_run_located(clips, sources, rs, k);
    let from = planned(clips, sources, rs.take(k)).len() as int;
    let to = planned(clips, sources, rs.take(k + 1)).len() as int;
    assert(to == from + run_segments(clips, sources, rs[k]).len()) by {
        assert(all.take(to).len() == to);
        assert(rs.take(k + 1).drop_last() =~= rs.take(k));
    }
    if s < from {
        let before = rs.take(k);
        assert forall|j: int| #![trigger before[j]] 0 <= j < before.len() implies before[j].0
            < before[j].1 by {
            assert(rs[j].0 < rs[j].1);
        }
        assert(all[s] == all.take(from)[s]);
        lemma_segment_run(clips, sources, before, s);
        let j = choose|j: int|
            #![trigger before[j]]
            0 <= j < before.len() && all[s].first == before[j].0 && all[s].end == before[j].1;
        lemma_runs_apart(clips, j, k);
    } else if s >= to {
        lemma_later_segment(clips, sources, rs, k + 1, s);
        let j = choose|j: int|
            #![trigger rs[j]]
            k + 1 <= j < rs.len() && all[s].first == rs[j].0 && all[s].end == rs[j].1;
        lemma_runs_apart(clips, k, j);
    }
}

proof fn lemma_runs_apart(clips: Seq<ClipView>, j: int, k: int)
    requires
        0 <= j < k < runs(clips).len(),
    ensures
        runs(clips)[j].1 <= runs(clips)[k].0,
        runs(clips)[j].0 < runs(clips)[j].1,
        runs(clips)[k].0 < runs(clips)[k].1,
    decreases k - j,
{
    law_runs_are_maximal_and_in_order(clips);
    assert(runs(clips)[k - 1].1 == runs(clips)[k].0);
    if j < k - 1 {
        lemma_runs_apart(clips, j, k - 1);
    }
}

proof fn lemma_later_segment(
    clips: Seq<ClipView>,
    sources: Map<i64, SourceInfoView>,
    rs: Seq<(int, int)>,
    k: int,
    s: int,
)
    requires
        forall|j: int| #![trigger rs[j]] 0 <= j < rs.len() ==> rs[j].0 < rs[j].1,
        0 <= k <= rs.len(),
        planned(clips, sources, rs.take(k)).len() <= s < planned(clips, sources, rs).len(),
    ensures
        exists|j: int|
            #![trigger rs[j]]
            k <= j < rs.len() && planned(clips, sources, rs)[s].first == rs[j].0 && planned(
                clips,
                sources,
                rs,
            )[s].end == rs[j].1,
    decreases rs.len(),
{
    if k == rs.len() {
        assert(rs.take(k) =~= rs);
    } else {
        let before = rs.drop_last();
        let inner = planned(clips, sources, before);
        let all = planned(clips, sources, rs);
        if s < inner.len() {
            assert(before.take(k) =~= rs.take(k));
            assert forall|j: int| #![trigger before[j]] 0 <= j < before.len() implies before[j].0
                < before[j].1 by {
                assert(rs[j].0 < rs[j].1);
            }
            lemma_later_segment(clips, sources, before, k, s);
            let j = choose|j: int|
                #![trigger before[j]]
                k <= j < before.len() && inner[s].first == before[j].0 && inner[s].end
                    == before[j].1;
            assert(rs[j] == before[j]);
            assert(all[s] == inner[s]);
        } else {
            let j = rs.len() - 1;
            let run = run_segments(clips, sources, rs[j]);
            assert(all[s] == run[s - inner.len()]);
            assert(rs[j].0 < rs[j].1);
        }
    }
}

/// A clip that is looped `n` times, and nothing else, has `n` segments, each its
/// whole span, and an output interval `n` times its length.
pub proof fn law_looped_clips_play_n_times(
    clips: Seq<ClipView>,
    sources: Map<i64, SourceInfoView>,
    i: int,
    n: u32,
) -> (from: int)
    requires
        edit_fault(clips, sources) is None,
        0 <= i < clips.len(),
        clips[i].transforms == seq![Transform::Loop { count: n }],
    ensures
        ({
            let segments = edit_segments(clips, sources);
            let (start, end) = (clips[i].span.t_start.nanos(), clips[i].span.t_end.nanos());
            let interval = outputs(clips, sources, runs(clips))[i];
            &&& 0 <= from && from + n <= segments.len()
            &&& forall|s: int|
                #![trigger segments[s]]
                0 <= s < segments.len() ==> (segments[s].first <= i < segments[s].end <==> from
                    <= s < from + n)
            &&& forall|s: int|
                #![trigger segments[s]]
                from <= s < from + n ==> segments[s].t_start == start && segments[s].t_end == end
            &&& interval.0 == total(segments.take(from))
            &&& interval.1 - interval.0 == n * (end - start)
        }),
{
    let from = law_transformed_clips_play_their_pieces(clips, sources, i);
    let (start, end) = (clips[i].span.t_start.nanos(), clips[i].span.t_end.nanos());
    let whole = seq![(start, end)];
    let plain = ClipView { transforms: Seq::empty(), ..clips[i] };
    law_transforms_apply_in_order(plain, Transform::Loop { count: n });
    assert(clips[i].transforms =~= plain.transforms.push(Transform::Loop { count: n }));
    assert(clips[i] == ClipView { transforms: clips[i].transforms, ..plain });
    let pieces = clip_pieces(clips[i]);
    assert(pieces == transformed(whole, Transform::Loop { count: n }));
    law_loop_plays_n_times(whole, n);
    assert(whole.drop_last() =~= Seq::empty());
    assert(played(whole.drop_last()) == 0);
    assert(played(whole) == end - start);
    assert(n * 1 == n) by (nonlinear_arith);
    let segments = edit_segments(clips, sources);
    assert forall|s: int| #![trigger segments[s]] from <= s < from
        + n implies segments[s].t_start == start && segments[s].t_end == end by {
        let p = s - from;
        vstd::arithmetic::div_mod::lemma_mod_self_0(1);
        assert(p % 1 == 0);
        assert(pieces[p] == whole[0]);
        assert(segments[from + p].t_start == pieces[p].0);
    }
    from
}

/// The output intervals are laid end to end: the first begins at zero, one that
/// shares no segment with the one before it begins where that ends, one that
/// does is as far behind it as in the source, and the last ends with the edit.
/// A plain clip's is as long as its span.
pub proof fn law_intervals_are_laid_end_to_end(
    clips: Seq<ClipView>,
    sources: Map<i64, SourceInfoView>,
    i: int,
)
    requires
        edit_fault(clips, sources) is None,
        0 <= i < clips.len(),
    ensures
        ({
            let out = outputs(clips, sources, runs(clips));
            let (start, end) = (clips[i].span.t_start.nanos(), clips[i].span.t_end.nanos());
            &&& out.len() == clips.len()
            &&& i == 0 ==> out[i].0 == 0
            &&& i > 0 && !shares_segment(clips, sources, i) ==> out[i].0 == out[i - 1].1
            &&& i > 0 && shares_segment(clips, sources, i) ==> out[i].0 - out[i - 1].0 == start
                - clips[i - 1].span.t_start.nanos()
            &&& i == clips.len() - 1 ==> out[i].1 == total(edit_segments(clips, sources))
            &&& clips[i].transforms.len() == 0 ==> out[i].1 - out[i].0 == end - start
        }),
{
    let rs = runs(clips);
    let out = outputs(clips, sources, rs);
    law_one_interval_per_clip(clips, sources);
    law_runs_are_maximal_and_in_order(clips);
    let k = lemma_run_of(clips, i);
    lemma_interval_of(clips, sources, k, i);
    if i > 0 {
        law_contiguous_clips_share_a_segment(clips, sources, i);
        if rs[k].0 < i {
            lemma_interval_of(clips, sources, k, i - 1);
            assert(joins(clips[i - 1], clips[i]));
        } else {
            assert(k > 0);
            assert(rs[k - 1].1 == rs[k].0);
            assert(!joins(clips[i - 1], clips[i]));
            lemma_interval_of(clips, sources, k - 1, i - 1);
        }
    } else {
        assert(rs[0].0 == 0);
        if k > 0 {
            lemma_runs_apart(clips, 0, k);
        }
        assert(rs.take(0) =~= Seq::empty());
    }
    if i == clips.len() - 1 {
        if k < rs.len() - 1 {
            lemma_runs_apart(clips, k, rs.len() - 1);
        }
        assert(rs.take(k + 1) =~= rs);
    }
}

/// The interval of a clip in run `k`.
proof fn lemma_interval_of(
    clips: Seq<ClipView>,
    sources: Map<i64, SourceInfoView>,
    k: int,
    i: int,
)
    requires
        edit_fault(clips, sources) is None,
        0 <= k < runs(clips).len(),
        runs(clips)[k].0 <= i < runs(clips)[k].1,
    ensures
        ({
            let rs = runs(clips);
            let out = outputs(clips, sources, rs);
            let t = total(planned(clips, sources, rs.take(k)));
            &&& 0 <= i < clips.len() == out.len()
            &&& rs[k].1 - rs[k].0 > 1 ==> out[i].0 == t + (clips[i].span.t_start.nanos()
                - clips[rs[k].0].span.t_start.nanos()) && out[i].1 == t + (
            clips[i].span.t_end.nanos() - clips[rs[k].0].span.t_start.nanos())
            &&& rs[k].1 - rs[k].0 == 1 ==> out[i].0 == t && out[i].1 == total(
                planned(clips, sources, rs.take(k + 1)),
            )
            &&& i == rs[k].0 ==> out[i].0 == t
            &&& i == rs[k].1 - 1 ==> out[i].1 == total(planned(clips, sources, rs.take(k + 1)))
            &&& clips[i].transforms.len() == 0 ==> out[i].1 - out[i].0
                == clips[i].span.t_end.nanos() - clips[i].span.t_start.nanos()
        }),
{
    let rs = runs(clips);
    law_one_interval_per_clip(clips, sources);
    law_runs_are_maximal_and_in_order(clips);
    lemma_run_located(clips, sources, rs, k);
    lemma_outputs_before(clips, sources, k);
    let t = total(planned(clips, sources, rs.take(k)));
    let outs = outputs(clips, sources, rs);
    let out = run_output(clips, sources, rs[k], t);
    let (first, end) = rs[k];
    assert(outs[i] == outs.subrange(first, first + out.len())[i - first]);
    let run = run_segments(clips, sources, rs[k]);
    if end - first > 1 {
        let one = run[0];
        assert(run =~= seq![one]);
        assert(run.drop_last() =~= Seq::empty());
        assert(total(run.drop_last()) == 0);
        assert(total(run) == clips[end - 1].span.t_end.nanos()
            - clips[first].span.t_start.nanos());
    } else if clips[i].transforms.len() == 0 {
        let pieces = clip_pieces(clips[i]);
        assert(pieces.len() == 1);
        assert(run.len() == 1);
        assert(run.drop_last() =~= Seq::empty());
        assert(total(run.drop_last()) == 0);
    }
}

/// An edit compiles iff every clip is on a known source, on both channels, with
/// a finite span that is not empty, does not begin before the source and does
/// not end over a nanosecond after it, and with transforms in their bounds.
pub proof fn law_valid_edits_compile(clips: Seq<ClipView>, sources: Map<i64, SourceInfoView>)
    ensures
        edit_fault(clips, sources) is None <==> forall|i: int|
            #![trigger clips[i]]
            0 <= i < clips.len() ==> {
                let span = clips[i].span;
                let len = span.t_end.nanos() - span.t_start.nanos();
                &&& sources.contains_key(span.source.0)
                &&& span.channel == Channel::Both
                &&& span.t_start is Nano && span.t_end is Nano
                &&& 0 <= span.t_start.nanos() < span.t_end.nanos()
                    <= sources[span.source.0].duration + 1
                &&& forall|j: int|
                    #![trigger clips[i].transforms[j]]
                    0 <= j < clips[i].transforms.len() ==> match clips[i].transforms[j] {
                        Transform::Loop { count } => count >= 1,
                        Transform::Stutter { repeats, slice } => repeats >= 1 && slice is Nano && 0
                            < slice.nanos() <= len + 1,
                        Transform::Speed { factor } => factor is Nano && 250_000_000
                            <= factor.nanos() <= 4_000_000_000,
                        Transform::Pitch { semitones } => semitones is Nano && -24_000_000_000
                            <= semitones.nanos() <= 24_000_000_000,
                        Transform::Reverse => true,
                    }
            },
    decreases clips.len(),
{
    if edit_fault(clips, sources) is None {
        assert forall|i: int| #![trigger clips[i]] 0 <= i < clips.len() implies clip_fault(
            i,
            clips[i],
            sources,
        ) is None by {
            lemma_no_fault(clips, sources, i);
        }
        assert forall|i: int, j: int|
            #![trigger clips[i].transforms[j]]
            0 <= i < clips.len() && 0 <= j < clips[i].transforms.len() implies transform_fault(
            clips[i].transforms[j],
            difference(clips[i].span.t_end, clips[i].span.t_start),
        ) is None by {
            lemma_no_fault(clips, sources, i);
            lemma_no_transform_fault(
                clips[i].transforms,
                difference(clips[i].span.t_end, clips[i].span.t_start),
                j,
            );
        }
    } else {
        let n = clips.len() - 1;
        let before = clips.drop_last();
        law_valid_edits_compile(before, sources);
        if edit_fault(before, sources) is None {
            assert(clip_fault(n, clips[n], sources) is Some);
            let span = clips[n].span;
            if sources.contains_key(span.source.0) && span.channel == Channel::Both && span_fault(
                span,
                sources[span.source.0].duration,
            ) is None {
                let j = lemma_faulty_transform(
                    clips[n].transforms,
                    difference(span.t_end, span.t_start),
                );
                assert(transform_fault(
                    clips[n].transforms[j],
                    difference(span.t_end, span.t_start),
                ) is Some);
            }
        } else {
            let bad = choose|i: int|
                #![trigger before[i]]
                0 <= i < before.len() && !({
                    let span = before[i].span;
                    let len = span.t_end.nanos() - span.t_start.nanos();
                    &&& sources.contains_key(span.source.0)
                    &&& span.channel == Channel::Both
                    &&& span.t_start is Nano && span.t_end is Nano
                    &&& 0 <= span.t_start.nanos() < span.t_end.nanos()
                        <= sources[span.source.0].duration + 1
                    &&& forall|j: int|
                        #![trigger before[i].transforms[j]]
                        0 <= j < before[i].transforms.len() ==> match before[i].transforms[j] {
                            Transform::Loop { count } => count >= 1,
                            Transform::Stutter { repeats, slice } => repeats >= 1 && slice is Nano
                                && 0 < slice.nanos() <= len + 1,
                            Transform::Speed { factor } => factor is Nano && 250_000_000
                                <= factor.nanos() <= 4_000_000_000,
                            Transform::Pitch { semitones } => semitones is Nano && -24_000_000_000
                                <= semitones.nanos() <= 24_000_000_000,
                            Transform::Reverse => true,
                        }
                });
            assert(clips[bad] == before[bad]);
        }
    }
}

proof fn lemma_faulty_transform(transforms: Seq<Transform>, clip_len: Real) -> (j: int)
    requires
        transforms_fault(transforms, clip_len) is Some,
    ensures
        0 <= j < transforms.len(),
        transform_fault(transforms[j], clip_len) is Some,
    decreases transforms.len(),
{
    if transforms_fault(transforms.drop_last(), clip_len) is Some {
        lemma_faulty_transform(transforms.drop_last(), clip_len)
    } else {
        transforms.len() - 1
    }
}

/// The first faulty clip is the one that is told of.
pub proof fn law_the_first_fault_is_told(
    clips: Seq<ClipView>,
    sources: Map<i64, SourceInfoView>,
    i: int,
)
    requires
        0 <= i < clips.len(),
        clip_fault(i, clips[i], sources) is Some,
        forall|j: int|
            #![trigger clips[j]]
            0 <= j < i ==> clip_fault(j, clips[j], sources) is None,
    ensures
        edit_fault(clips, sources) == clip_fault(i, clips[i], sources),
        match clip_fault(i, clips[i], sources)->0 {
            CompileFault::UnresolvedSource { clip_index, source_id } => clip_index == i && source_id
                == clips[i].span.source,
            CompileFault::ChannelUnsupported { clip_index, channel } => clip_index == i && channel
                == clips[i].span.channel,
            CompileFault::InvalidSpan { clip_index, .. } => clip_index == i,
            CompileFault::InvalidTransform { clip_index, .. } => clip_index == i,
            _ => false,
        },
    decreases clips.len(),
{
    let before = clips.drop_last();
    if i < before.len() {
        assert forall|j: int| #![trigger before[j]] 0 <= j < i implies clip_fault(
            j,
            before[j],
            sources,
        ) is None by {
            assert(clips[j] == before[j]);
        }
        assert(before[i] == clips[i]);
        law_the_first_fault_is_told(before, sources, i);
    } else {
        lemma_no_fault_before(clips, sources, i);
    }
}

proof fn lemma_no_fault_before(clips: Seq<ClipView>, sources: Map<i64, SourceInfoView>, n: int)
    requires
        0 <= n <= clips.len(),
        forall|j: int|
            #![trigger clips[j]]
            0 <= j < n ==> clip_fault(j, clips[j], sources) is None,
    ensures
        edit_fault(clips.take(n), sources) is None,
        n == clips.len() - 1 ==> clips.take(n) == clips.drop_last(),
    decreases n,
{
    if n > 0 {
        lemma_no_fault_before(clips, sources, n - 1);
        assert(clips.take(n).drop_last() =~= clips.take(n - 1));
        assert(clips.take(n).last() == clips[n - 1]);
    }
    assert(n == clips.len() - 1 ==> clips.take(n) =~= clips.drop_last());
}

/// An entry carries its master's path, quoted by its length in bytes, and where
/// in it the segment begins and how long it is.
pub proof fn law_entries_carry_their_segment(segment: SegmentView) -> (at: (int, int))
    ensures
        at.0 == segment.t_start,
        at.0 + at.1 == segment.t_end,
        crate::text::begins(
            entry_text(segment),
            "%"@ + dec(byte_len(segment.master_path)) + "%"@ + segment.master_path + ",start="@
                + time_text(at.0) + ",length="@ + time_text(at.1),
        ),
{
    let length = segment.t_end - segment.t_start;
    let head = "%"@ + dec(byte_len(segment.master_path)) + "%"@ + segment.master_path + ",start="@
        + time_text(segment.t_start) + ",length="@ + time_text(length);
    assert(entry_text(segment).take(head.len() as int) =~= head);
    (segment.t_start, length)
}

/// The segment of several clips is titled by their labels, in order; a title
/// there is none where no clip has one.
pub proof fn law_shared_segments_join_their_labels(
    clips: Seq<ClipView>,
    sources: Map<i64, SourceInfoView>,
    s: int,
)
    requires
        edit_fault(clips, sources) is None,
        0 <= s < edit_segments(clips, sources).len(),
        edit_segments(clips, sources)[s].end - edit_segments(clips, sources)[s].first > 1,
    ensures
        ({
            let seg = edit_segments(clips, sources)[s];
            let n = (seg.end - seg.first) as nat;
            &&& (forall|i: int|
                #![trigger clips[i]]
                seg.first <= i < seg.end ==> clips[i].label is None) ==> seg.title is None
            &&& (forall|i: int|
                #![trigger clips[i]]
                seg.first <= i < seg.end ==> clips[i].label is Some) ==> seg.title == Some(
                joined(Seq::new(n, |j: int| clips[seg.first + j].label->0), " "@),
            )
        }),
{
    let rs = runs(clips);
    let seg = edit_segments(clips, sources)[s];
    law_runs_are_maximal_and_in_order(clips);
    lemma_segment_run(clips, sources, rs, s);
    let k = choose|k: int|
        #![trigger rs[k]]
        0 <= k < rs.len() && seg.first == rs[k].0 && seg.end == rs[k].1 && run_segments(
            clips,
            sources,
            rs[k],
        ).contains(seg);
    let run = run_segments(clips, sources, rs[k]);
    assert(run.len() == 1 && run[0] == seg);
    lemma_labels(clips, seg.first, seg.end);
}

proof fn lemma_labels(clips: Seq<ClipView>, first: int, end: int)
    requires
        first <= end,
    ensures
        (forall|i: int| #![trigger clips[i]] first <= i < end ==> clips[i].label is None)
            ==> labels(clips, first, end).len() == 0,
        (forall|i: int| #![trigger clips[i]] first <= i < end ==> clips[i].label is Some)
            ==> labels(clips, first, end) == Seq::new(
            (end - first) as nat,
            |j: int| clips[first + j].label->0,
        ),
    decreases end - first,
{
    if first < end {
        lemma_labels(clips, first, end - 1);
        assert(clips[end - 1] == clips[end - 1]);
        if forall|i: int| #![trigger clips[i]] first <= i < end ==> clips[i].label is Some {
            assert(labels(clips, first, end) =~= Seq::new(
                (end - first) as nat,
                |j: int| clips[first + j].label->0,
            ));
        }
    } else {
        assert(labels(clips, first, end) =~= Seq::new(
            0,
            |j: int| clips[first + j].label->0,
        ));
    }
}

/// Every clip of an edit that compiles is in a segment.
pub(crate) proof fn lemma_clip_has_segment(
    clips: Seq<ClipView>,
    sources: Map<i64, SourceInfoView>,
    i: int,
) -> (s: int)
    requires
        edit_fault(clips, sources) is None,
        0 <= i < clips.len(),
    ensures
        0 <= s < edit_segments(clips, sources).len(),
        edit_segments(clips, sources)[s].first <= i < edit_segments(clips, sources)[s].end,
{
    let rs = runs(clips);
    let all = edit_segments(clips, sources);
    law_runs_are_maximal_and_in_order(clips);
    let k = lemma_run_of(clips, i);
    lemma_run_located(clips, sources, rs, k);
    let from = planned(clips, sources, rs.take(k)).len() as int;
    let run = run_segments(clips, sources, rs[k]);
    law_valid_clips_play(clips, sources, rs[k].0);
    assert(all[from] == all.subrange(from, from + run.len())[0]);
    from
}

pub(crate) proof fn lemma_segment_one_source(
    clips: Seq<ClipView>,
    sources: Map<i64, SourceInfoView>,
    s: int,
    i: int,
)
    requires
        0 <= s < edit_segments(clips, sources).len(),
        edit_segments(clips, sources)[s].first <= i < edit_segments(clips, sources)[s].end,
    ensures
        clips[i].span.source == clips[edit_segments(clips, sources)[s].first].span.source,
{
    let rs = runs(clips);
    let seg = edit_segments(clips, sources)[s];
    law_runs_are_maximal_and_in_order(clips);
    lemma_segment_run(clips, sources, rs, s);
    let k = choose|k: int|
        #![trigger rs[k]]
        0 <= k < rs.len() && seg.first == rs[k].0 && seg.end == rs[k].1;
    lemma_one_source(clips, k, i);
}

} // verus!
