use dipho::edl::compile::{compile_mpv_edl, plan_preview, MpvEdl, PreviewPlan};
use dipho::edl::rebind::{rebind, referenced_ids, CorpusSource, RebindError};
use dipho::edl::render::{
    compile_ffmpeg, first_frame, frames_by, frames_due, select_profile, FfmpegPlan, OutputProfile, RenderSpec,
    VideoProps,
};
use dipho::edl::{
    Clip, Edl, EdlCompileError, EdlLoadError, ProvenanceRef, SourceInfo, SourceMap, SourceRef,
    Transform,
};
use dipho::number::{Fps, Rate, Real};
use dipho::render::{render_steps, RenderStep};
use dipho::span::{Channel, SourceId, Span};
use std::collections::BTreeMap;

fn ns(seconds: f64) -> i64 {
    (seconds * 1e9).round() as i64
}

fn secs(seconds: f64) -> Real {
    if seconds.is_nan() {
        Real::NaN
    } else if seconds == f64::INFINITY {
        Real::Infinity
    } else if seconds == f64::NEG_INFINITY {
        Real::NegInfinity
    } else {
        Real::Nano(ns(seconds))
    }
}

fn span(source: i64, t_start: f64, t_end: f64) -> Span {
    Span {
        source: SourceId(source),
        t_start: secs(t_start),
        t_end: secs(t_end),
        channel: Channel::Both,
    }
}

fn clip(source: i64, t_start: f64, t_end: f64) -> Clip {
    Clip {
        span: span(source, t_start, t_end),
        transforms: vec![],
        provenance: None,
        label: None,
    }
}

fn labeled(source: i64, t_start: f64, t_end: f64, label: &str) -> Clip {
    Clip { label: Some(label.to_string()), ..clip(source, t_start, t_end) }
}

fn edl(clips: Vec<Clip>) -> Edl {
    let sources = clips
        .iter()
        .map(|c| {
            let id = c.span.source.0;
            (
                id,
                SourceRef {
                    origin: format!("origin-{id}"),
                    origin_id: format!("id-{id}"),
                    master_filename: format!("{id}.mkv"),
                    duration: ns(100.0),
                    master_hash: format!("hash-{id}"),
                },
            )
        })
        .collect::<BTreeMap<_, _>>();
    Edl { clips, sources }
}

fn sources_at(specs: &[(i64, Option<u32>)]) -> SourceMap {
    specs
        .iter()
        .map(|&(id, fps)| {
            (
                id,
                SourceInfo {
                    master_path: format!("/masters/{id}.mkv"),
                    duration: ns(100.0),
                    fps: fps.and_then(|n| Rate::new(n, 1)),
                },
            )
        })
        .collect()
}

fn sources(ids: &[i64]) -> SourceMap {
    let specs: Vec<(i64, Option<u32>)> = ids.iter().map(|&id| (id, Some(30))).collect();
    sources_at(&specs)
}

/// Output boundaries read back from the emitted entries, so that what was
/// actually written is compared.
fn boundaries_from_entries(compiled: &MpvEdl) -> Vec<f64> {
    let mut t = 0.0;
    let mut out = vec![0.0];
    for entry in compiled.document().lines().skip(1) {
        let length: f64 =
            entry.split(",length=").nth(1).unwrap().split(',').next().unwrap().parse().unwrap();
        t += length;
        out.push(t);
    }
    out
}

fn seconds(plan: &PreviewPlan) -> Vec<f64> {
    plan.boundaries().iter().map(|&n| n as f64 / 1e9).collect()
}

fn assert_boundaries(a: &[f64], b: &[f64]) {
    assert_eq!(a.len(), b.len(), "{a:?} vs {b:?}");
    for (x, y) in a.iter().zip(b) {
        assert!((x - y).abs() < 1e-6, "{a:?} vs {b:?}");
    }
}

fn spans(plan: &PreviewPlan) -> Vec<(i64, i64)> {
    plan.segments.iter().map(|s| (s.t_start, s.t_end)).collect()
}

fn out(a: f64, b: f64) -> (i128, i128) {
    (ns(a) as i128, ns(b) as i128)
}

// The preview compiler.

#[test]
fn repeated_identical_spans_compile_to_n_segments() {
    let repeated = edl(vec![clip(1, 5.0, 5.5), clip(1, 5.0, 5.5), clip(1, 5.0, 5.5)]);
    let plan = plan_preview(&repeated, &sources(&[1])).unwrap();
    assert_eq!(plan.segments.len(), 3);
    assert_boundaries(&seconds(&plan), &[0.0, 0.5, 1.0, 1.5]);
    // A repeated span shorter than the join tolerance never merges either, so
    // a stutter of tiny grains survives.
    let tiny = edl(vec![clip(1, 5.0, 5.0008), clip(1, 5.0, 5.0008)]);
    let plan = plan_preview(&tiny, &sources(&[1])).unwrap();
    assert_eq!(plan.segments.len(), 2);
}

#[test]
fn contiguous_empty_transform_clips_elide_to_one_segment() {
    // A 1.0 ms gap (exactly the tolerance) merges; 1.1 ms does not; a backward
    // jump never does.
    let edl = edl(vec![
        labeled(1, 1.0, 2.0, "twenty"),
        labeled(1, 2.001, 3.0, "five"),
        clip(1, 3.0011, 4.0),
        clip(1, 2.0, 2.5),
    ]);
    let plan = plan_preview(&edl, &sources(&[1])).unwrap();
    assert_eq!(plan.segments.len(), 3);
    let merged = &plan.segments[0];
    assert_eq!((merged.t_start, merged.t_end), (ns(1.0), ns(3.0)));
    assert_eq!(merged.title.as_deref(), Some("twenty five"));
    assert_eq!(merged.clips, 0..2);
    assert_eq!(merged.duration(), ns(2.0) as i128);

    // The boundaries of the plan are those of the compiled playlist.
    let compiled = compile_mpv_edl(&edl, &sources(&[1])).unwrap();
    assert_boundaries(&seconds(&plan), &boundaries_from_entries(&compiled));

    // Per-clip output intervals point inside the merged segment.
    assert_eq!(plan.clip_output[0], out(0.0, 1.0));
    assert_eq!(plan.clip_output[1], out(1.001, 2.0));
}

#[test]
fn elision_never_crosses_sources_and_requires_empty_transforms() {
    let mut transformed = clip(1, 2.0, 3.0);
    transformed.transforms = vec![Transform::Pitch { semitones: secs(2.0) }];
    let edl = edl(vec![clip(1, 1.0, 2.0), transformed, clip(2, 3.0, 4.0), clip(2, 4.0, 5.0)]);
    let plan = plan_preview(&edl, &sources(&[1, 2])).unwrap();
    assert_eq!(plan.segments.len(), 3);
    assert_eq!(plan.segments[2].clips, 2..4);
}

#[test]
fn two_contiguous_loop2_clips_compile_to_aabb_never_elided() {
    let looped = |t_start: f64, t_end: f64| Clip {
        transforms: vec![Transform::Loop { count: 2 }],
        ..clip(1, t_start, t_end)
    };
    let edl = edl(vec![looped(1.0, 2.0), looped(2.0, 3.0)]);
    let plan = plan_preview(&edl, &sources(&[1])).unwrap();
    let (a, b) = ((ns(1.0), ns(2.0)), (ns(2.0), ns(3.0)));
    assert_eq!(spans(&plan), vec![a, a, b, b], "AABB");
    assert_eq!(plan.clip_output[0], out(0.0, 2.0));
    assert_eq!(plan.clip_output[1], out(2.0, 4.0));
    assert_eq!(plan.total_duration, ns(4.0) as i128);
}

#[test]
fn stutter_expands_to_repeated_slices_then_the_full_clip() {
    let stuttered = Clip {
        transforms: vec![Transform::Stutter { repeats: 3, slice: secs(0.06) }],
        ..labeled(1, 10.0, 10.5, "ok")
    };
    let plan = plan_preview(&edl(vec![stuttered]), &sources(&[1])).unwrap();
    let spans = spans(&plan);
    assert_eq!(spans.len(), 4);
    for s in &spans[..3] {
        assert_eq!(*s, (ns(10.0), ns(10.06)));
    }
    assert_eq!(spans[3], (ns(10.0), ns(10.5)));
    assert_eq!(plan.total_duration, ns(0.68) as i128);
    assert!(plan.segments.iter().all(|s| s.title.as_deref() == Some("ok")));
}

#[test]
fn render_only_transforms_preview_plain() {
    let badged = Clip {
        transforms: vec![
            Transform::Reverse,
            Transform::Speed { factor: secs(2.0) },
            Transform::Pitch { semitones: secs(-3.0) },
        ],
        ..clip(1, 1.0, 2.0)
    };
    let plan = plan_preview(&edl(vec![badged]), &sources(&[1])).unwrap();
    assert_eq!(spans(&plan), vec![(ns(1.0), ns(2.0))]);
}

#[test]
fn mpv_edl_document_and_uri_golden() {
    let edl = edl(vec![
        labeled(1, 1.0, 2.0, "twenty"),
        labeled(1, 2.0, 3.0, "five"),
        labeled(2, 0.25, 0.5, "ok"),
    ]);
    let compiled = compile_mpv_edl(&edl, &sources(&[1, 2])).unwrap();
    assert_eq!(
        compiled.document(),
        "# mpv EDL v0\n\
         %14%/masters/1.mkv,start=1.000000,length=2.000000,title=%11%twenty five\n\
         %14%/masters/2.mkv,start=0.250000,length=0.250000,title=%2%ok\n"
    );
    assert_eq!(
        compiled.uri(),
        "edl://%14%/masters/1.mkv,start=1.000000,length=2.000000,title=%11%twenty five;\
         %14%/masters/2.mkv,start=0.250000,length=0.250000,title=%2%ok"
    );
}

#[test]
fn quoting_counts_utf8_bytes_and_strips_control_chars() {
    let mut edl = edl(vec![labeled(1, 0.0, 1.0, "héllo\nwörld")]);
    edl.clips[0].span.t_start = secs(0.0);
    let mut map = SourceMap::new();
    map.insert(
        1,
        SourceInfo {
            master_path: "/m/with,comma;semi.mkv".to_string(),
            duration: ns(100.0),
            fps: None,
        },
    );
    let compiled = compile_mpv_edl(&edl, &map).unwrap();
    // Path: 22 bytes with the comma and semicolon, safely quoted. Title:
    // "héllo wörld" is 13 utf-8 bytes, the newline a space.
    assert_eq!(
        compiled.document(),
        "# mpv EDL v0\n\
         %22%/m/with,comma;semi.mkv,start=0.000000,length=1.000000,title=%13%héllo wörld\n"
    );
}

#[test]
fn an_empty_edit_compiles_to_an_empty_edl() {
    let plan = plan_preview(&edl(vec![]), &SourceMap::new()).unwrap();
    assert!(plan.segments.is_empty());
    assert_eq!(plan.total_duration, 0);
    let compiled = MpvEdl::from_plan(&plan);
    assert!(compiled.is_empty());
    assert_eq!(compiled.document(), "# mpv EDL v0\n");
}

#[test]
fn invalid_spans_are_rejected_with_the_clip_index() {
    let cases: Vec<(Clip, &str)> = vec![
        (clip(1, -0.5, 1.0), "< 0"),
        (clip(1, 2.0, 2.0), "empty or inverted"),
        (clip(1, 3.0, 2.0), "empty or inverted"),
        (clip(1, 1.0, 200.0), "past source duration"),
        (clip(1, f64::NAN, 1.0), "non-finite"),
        (clip(1, 0.0, f64::INFINITY), "non-finite"),
    ];
    for (bad, expected) in cases {
        let edl = edl(vec![clip(1, 0.0, 1.0), bad]);
        match plan_preview(&edl, &sources(&[1])) {
            Err(EdlCompileError::InvalidSpan { clip_index: 1, reason }) => {
                assert!(reason.contains(expected), "{reason} vs {expected}");
            }
            other => panic!("expected InvalidSpan({expected}), got {other:?}"),
        }
    }
}

#[test]
fn invalid_transforms_are_rejected() {
    let cases: Vec<(Transform, &str)> = vec![
        (Transform::Loop { count: 0 }, "Loop.count"),
        (Transform::Stutter { repeats: 0, slice: secs(0.06) }, "Stutter.repeats"),
        (Transform::Stutter { repeats: 2, slice: secs(0.0) }, "Stutter.slice"),
        (Transform::Stutter { repeats: 2, slice: secs(1.5) }, "Stutter.slice"),
        (Transform::Speed { factor: secs(0.1) }, "Speed.factor"),
        (Transform::Speed { factor: secs(f64::NAN) }, "Speed.factor"),
        (Transform::Pitch { semitones: secs(25.0) }, "Pitch.semitones"),
    ];
    for (bad, expected) in cases {
        let mut c = clip(1, 0.0, 1.0);
        c.transforms = vec![bad];
        match plan_preview(&edl(vec![c]), &sources(&[1])) {
            Err(EdlCompileError::InvalidTransform { clip_index: 0, reason }) => {
                assert!(reason.contains(expected), "{reason} vs {expected}");
            }
            other => panic!("expected InvalidTransform({expected}), got {other:?}"),
        }
    }
}

#[test]
fn unresolved_source_and_unsupported_channel_are_typed() {
    let edl1 = edl(vec![clip(9, 0.0, 1.0)]);
    assert!(matches!(
        plan_preview(&edl1, &sources(&[1])),
        Err(EdlCompileError::UnresolvedSource { clip_index: 0, source_id: SourceId(9) })
    ));
    let mut audio_only = clip(1, 0.0, 1.0);
    audio_only.span.channel = Channel::Audio;
    assert!(matches!(
        plan_preview(&edl(vec![audio_only]), &sources(&[1])),
        Err(EdlCompileError::ChannelUnsupported { clip_index: 0, channel: Channel::Audio })
    ));
}

#[test]
fn compile_errors_read_as_sentences() {
    let message = |clips: Vec<Clip>| plan_preview(&edl(clips), &sources(&[1])).unwrap_err().message();
    assert_eq!(
        message(vec![clip(9, 0.0, 1.0)]),
        "clip 0: source SourceId(9) not in the source map"
    );
    let mut audio_only = clip(1, 0.0, 1.0);
    audio_only.span.channel = Channel::Audio;
    assert!(message(vec![audio_only]).starts_with("clip 0: "));
    assert!(message(vec![clip(1, -0.5, 1.0)]).contains("-0.5"));
}

#[test]
fn a_span_may_overrun_the_source_by_rounding_alone() {
    let end = |n: i64| {
        let mut c = clip(1, 0.0, 1.0);
        c.span.t_end = Real::Nano(ns(100.0) + n);
        plan_preview(&edl(vec![c]), &sources(&[1])).is_ok()
    };
    assert!(end(0));
    assert!(!end(1_000_000));
}

// Loading and rebinding.

fn source_ref(origin_id: &str, hash: &str, duration: f64) -> SourceRef {
    SourceRef {
        origin: format!("https://example.com/{origin_id}"),
        origin_id: origin_id.to_string(),
        master_filename: "master.mkv".to_string(),
        duration: ns(duration),
        master_hash: hash.to_string(),
    }
}

fn corpus_source(id: i64, origin_id: &str, hash: &str, duration: f64) -> CorpusSource {
    CorpusSource {
        id: SourceId(id),
        origin: format!("https://example.com/{origin_id}"),
        origin_id: origin_id.to_string(),
        master_path: format!("/masters/{origin_id}/master.mkv"),
        master_hash: hash.to_string(),
        duration: ns(duration),
        fps: Rate::new(30, 1),
    }
}

fn edit_with(entries: Vec<(i64, SourceRef)>, clip_sources: Vec<i64>) -> Edl {
    Edl {
        clips: clip_sources.into_iter().map(|s| clip(s, 1.0, 2.0)).collect(),
        sources: entries.into_iter().collect(),
    }
}

#[test]
fn load_rejects_a_clip_without_a_manifest_entry() {
    let edl = Edl {
        clips: vec![clip(7, 0.0, 1.0)],
        sources: BTreeMap::from([(1, source_ref("youtube:abc123", "hash-abc123", 1234.5))]),
    };
    let e = edl.check_manifest().unwrap_err();
    assert_eq!(
        e,
        EdlLoadError::MissingManifestEntry { clip_index: 0, source_id: SourceId(7) }
    );
    assert!(e.message().contains('7'));
    let whole = Edl {
        clips: vec![clip(1, 0.0, 1.0)],
        sources: BTreeMap::from([(1, source_ref("youtube:abc123", "hash-abc123", 1234.5))]),
    };
    assert_eq!(whole.check_manifest(), Ok(()));
    assert_eq!(Edl::empty().check_manifest(), Ok(()));
}

#[test]
fn master_hash_match_binds_silently() {
    // The edit knew the source as id 9; this corpus has it as id 3.
    let edl = edit_with(vec![(9, source_ref("yt:a", "hash-a", 50.0))], vec![9]);
    let corpus = vec![corpus_source(3, "yt:a", "hash-a", 50.0)];
    let bound = rebind(&edl, &corpus).unwrap();
    assert!(bound.warnings.is_empty());
    assert_eq!(bound.edl.clips[0].span.source, SourceId(3));
    assert!(bound.edl.sources.contains_key(&3));
    assert_eq!(bound.source_map[&3].master_path, "/masters/yt:a/master.mkv");
    assert_eq!(bound.edl.sources[&3].master_filename, "master.mkv");
}

#[test]
fn origin_id_match_with_duration_sanity_binds_with_warning() {
    // The hash differs (a master re-encoded elsewhere), the duration is within
    // half a second.
    let edl = edit_with(vec![(1, source_ref("yt:a", "old-hash", 50.0))], vec![1]);
    let corpus = vec![corpus_source(7, "yt:a", "new-hash", 50.3)];
    let bound = rebind(&edl, &corpus).unwrap();
    assert_eq!(bound.warnings.len(), 1);
    assert!(bound.warnings[0].contains("rebound by origin_id"));
    assert_eq!(bound.edl.clips[0].span.source, SourceId(7));
    // The manifest in memory now carries the corpus's values.
    assert_eq!(bound.edl.sources[&7].master_hash, "new-hash");
}

#[test]
fn duration_outside_tolerance_is_unresolved() {
    let edl = edit_with(vec![(1, source_ref("yt:a", "old-hash", 50.0))], vec![1]);
    let corpus = vec![corpus_source(7, "yt:a", "new-hash", 51.0)];
    match rebind(&edl, &corpus) {
        Err(RebindError::UnresolvedSource { origin_id, .. }) => assert_eq!(origin_id, "yt:a"),
        other => panic!("expected UnresolvedSource, got {other:?}"),
    }
}

#[test]
fn unknown_source_is_unresolved_and_unreferenced_entries_are_pruned() {
    let edl = edit_with(
        vec![
            (1, source_ref("yt:a", "hash-a", 50.0)),
            (2, source_ref("yt:gone", "hash-gone", 10.0)),
        ],
        vec![1],
    );
    let corpus = vec![corpus_source(1, "yt:a", "hash-a", 50.0)];
    // No clip refers to entry 2: it is pruned, and no error.
    let bound = rebind(&edl, &corpus).unwrap();
    assert_eq!(bound.edl.sources.len(), 1);

    // A source that a clip does refer to is a typed error.
    let edl = edit_with(vec![(2, source_ref("yt:gone", "hash-gone", 10.0))], vec![2]);
    assert!(matches!(rebind(&edl, &corpus), Err(RebindError::UnresolvedSource { .. })));
}

#[test]
fn hand_built_edl_without_manifest_entry_is_typed() {
    let edl = edit_with(vec![], vec![5]);
    assert!(matches!(
        rebind(&edl, &Vec::new()),
        Err(RebindError::MissingManifestEntry { clip_index: 0, source_id: SourceId(5) })
    ));
}

#[test]
fn a_hash_match_wins_over_an_origin_match() {
    let edl = edit_with(vec![(1, source_ref("yt:a", "hash-b", 50.0))], vec![1]);
    let corpus = vec![
        corpus_source(4, "yt:a", "hash-a", 50.0),
        corpus_source(5, "yt:b", "hash-b", 70.0),
    ];
    let bound = rebind(&edl, &corpus).unwrap();
    assert!(bound.warnings.is_empty());
    assert_eq!(bound.edl.clips[0].span.source, SourceId(5));
}

#[test]
fn rebinding_errors_read_as_sentences() {
    let edl = edit_with(vec![(2, source_ref("yt:gone", "hash-gone", 10.0))], vec![2]);
    let e = rebind(&edl, &Vec::new()).unwrap_err();
    assert!(e.message().contains("yt:gone"), "{}", e.message());
    assert!(e.message().contains("https://example.com/yt:gone"), "{}", e.message());
}

#[test]
fn every_referenced_id_is_listed_once_in_order() {
    let edl = edit_with(vec![], vec![7, 2, 7, 2, 5]);
    assert_eq!(referenced_ids(&edl), vec![2, 5, 7]);
}

#[test]
fn a_clip_clone_keeps_every_field() {
    let c = Clip {
        transforms: vec![Transform::Stutter { repeats: 3, slice: secs(0.06) }],
        provenance: Some(ProvenanceRef::Word(42)),
        ..labeled(1, 12.0, 12.8, "hello")
    };
    let d = c.clone();
    assert_eq!((d.span, d.provenance), (c.span, c.provenance));
    assert_eq!((&d.transforms, &d.label), (&c.transforms, &c.label));
}

// The render compiler.

fn thirty() -> Fps {
    Fps::Rate(Rate::new(30, 1).unwrap())
}

fn spec() -> RenderSpec {
    RenderSpec {
        profile: OutputProfile { width: 640, height: 360, fps: thirty() },
        intermediates_dir: "/work".to_string(),
        output: "/out/mix.mp4".to_string(),
    }
}

fn arg_after<'a>(argv: &'a [String], flag: &str) -> &'a str {
    let i = argv.iter().position(|a| a == flag).unwrap();
    &argv[i + 1]
}

/// Frame budget per segment, read back from the filtergraphs: the last
/// `trim=end_frame=` in the video chain carries it.
fn frame_counts(plan: &FfmpegPlan) -> Vec<i64> {
    plan.stage1
        .iter()
        .map(|argv| {
            let fc = arg_after(argv, "-filter_complex");
            let vchain = fc.split(';').next().unwrap();
            vchain
                .rsplit("trim=end_frame=")
                .next()
                .unwrap()
                .split(',')
                .next()
                .unwrap()
                .parse()
                .unwrap()
        })
        .collect()
}

/// Output-time boundaries read back from the atrim windows.
fn boundaries_from_argv(plan: &FfmpegPlan) -> Vec<f64> {
    let mut t = 0.0;
    let mut out = vec![0.0];
    for argv in &plan.stage1 {
        let fc = arg_after(argv, "-filter_complex");
        let atrim = fc.split("atrim=start=").nth(1).unwrap();
        let start: f64 = atrim.split(":end=").next().unwrap().parse().unwrap();
        let end: f64 =
            atrim.split(":end=").nth(1).unwrap().split(',').next().unwrap().parse().unwrap();
        t += end - start;
        out.push(t);
    }
    out
}

#[test]
fn cumulative_rounding_keeps_video_within_half_a_frame_of_audio() {
    // Irregular sub-frame durations: rounding per segment would drift,
    // cumulative rounding must not.
    let edl = edl(vec![
        clip(1, 10.0, 10.13),
        clip(1, 20.0, 20.27),
        clip(1, 30.0, 30.011),
        clip(1, 40.0, 40.49),
        clip(1, 50.0, 51.005),
    ]);
    let plan = compile_ffmpeg(&edl, &sources(&[1]), &spec()).unwrap();
    let counts = frame_counts(&plan);
    let mut t = 0.0;
    let mut frames = 0;
    for (n, c) in counts.iter().zip(&edl.clips) {
        let Real::Nano(d) = c.span.duration() else {
            panic!("{:?}", c.span);
        };
        t += d as f64 / 1e9;
        frames += n;
        let err = (frames as f64 / 30.0 - t).abs();
        assert!(err <= 0.5 / 30.0 + 1e-9, "boundary error {err}");
    }
    // The 11 ms segment legitimately rounds to zero frames.
    assert_eq!(counts[2], 0);
    assert_eq!(counts.iter().sum::<i64>(), (t * 30.0).round() as i64);
}

#[test]
fn ffmpeg_and_mpv_emit_identical_boundary_lists_for_an_elision_fixture() {
    let edl = edl(vec![
        clip(1, 1.0, 2.0),
        clip(1, 2.0, 3.0), // elides with the previous
        clip(1, 5.0, 5.25),
        clip(1, 5.0, 5.25), // repeated span: never merges
    ]);
    let map = sources(&[1]);
    let plan = compile_ffmpeg(&edl, &map, &spec()).unwrap();
    assert_eq!(plan.stage1.len(), 3);
    let mpv = compile_mpv_edl(&edl, &map).unwrap();
    assert_boundaries(&boundaries_from_entries(&mpv), &boundaries_from_argv(&plan));
}

#[test]
fn stage1_golden() {
    let edl = edl(vec![clip(1, 1.5, 2.5)]);
    let plan = compile_ffmpeg(&edl, &sources(&[1]), &spec()).unwrap();
    // The first frame is floor(1.5 * 30) = 45; seek half a frame early: 44.5/30.
    assert_eq!(
        plan.stage1[0],
        vec![
            "ffmpeg",
            "-hide_banner",
            "-nostdin",
            "-v",
            "error",
            "-y",
            "-ss",
            "1.483333",
            "-i",
            "/masters/1.mkv",
            "-ss",
            "0.500000",
            "-i",
            "/masters/1.mkv",
            "-filter_complex",
            "[0:v]trim=end_frame=30,setpts=PTS-STARTPTS,\
             scale=640:360:force_original_aspect_ratio=decrease:force_divisible_by=2,\
             pad=640:360:(ow-iw)/2:(oh-ih)/2,setsar=1[v];\
             [1:a]atrim=start=1.000000:end=2.000000,asetpts=PTS-STARTPTS,\
             aresample=48000,aformat=sample_fmts=s32:channel_layouts=stereo[a]",
            "-map",
            "[v]",
            "-map",
            "[a]",
            "-c:v",
            "prores_ks",
            "-profile:v",
            "3",
            "-vendor",
            "apl0",
            "-pix_fmt",
            "yuv422p10le",
            "-fps_mode",
            "cfr",
            "-r",
            "30.000000",
            "-c:a",
            "pcm_s24le",
            "/work/clip-000.mov",
        ]
    );
    assert_eq!(plan.intermediates, vec!["/work/clip-000.mov"]);
    assert_eq!(plan.concat_list, "ffconcat version 1.0\nfile 'clip-000.mov'\n");
    assert_eq!(plan.concat_list_path, "/work/concat.txt");
    assert_eq!(
        plan.stage2,
        vec![
            "ffmpeg",
            "-hide_banner",
            "-nostdin",
            "-v",
            "error",
            "-y",
            "-f",
            "concat",
            "-i",
            "/work/concat.txt",
            "-map",
            "0:v:0",
            "-map",
            "0:a:0",
            "-c:v",
            "libx264",
            "-crf",
            "16",
            "-preset",
            "medium",
            "-pix_fmt",
            "yuv420p",
            "-c:a",
            "aac",
            "-b:a",
            "256k",
            "-movflags",
            "+faststart",
            "/out/mix.mp4",
        ]
    );
    assert_eq!(plan.total_duration, ns(1.0) as i128);
}

#[test]
fn fps_mismatch_inserts_the_resampling_chain() {
    let edl = edl(vec![clip(1, 0.0, 1.0)]);
    let plan = compile_ffmpeg(&edl, &sources_at(&[(1, Some(25))]), &spec()).unwrap();
    let fc = arg_after(&plan.stage1[0], "-filter_complex");
    // 30 output frames need ceil(30 * 25/30) + 2 = 27 source frames.
    assert!(
        fc.starts_with(
            "[0:v]trim=end_frame=27,setpts=PTS-STARTPTS,fps=30.000000,\
             trim=end_frame=30,setpts=PTS-STARTPTS,"
        ),
        "{fc}"
    );
}

#[test]
fn loop_and_stutter_render_via_segment_expansion() {
    let mut looped = clip(1, 1.0, 2.0);
    looped.transforms = vec![Transform::Loop { count: 2 }];
    let plan = compile_ffmpeg(&edl(vec![looped]), &sources(&[1]), &spec()).unwrap();
    assert_eq!(plan.stage1.len(), 2);
    assert_eq!(plan.total_duration, ns(2.0) as i128);
}

#[test]
fn render_only_transforms_are_rejected_typed() {
    for (transform, name) in [
        (Transform::Pitch { semitones: secs(2.0) }, "Pitch"),
        (Transform::Speed { factor: secs(2.0) }, "Speed"),
        (Transform::Reverse, "Reverse"),
    ] {
        let mut c = clip(1, 1.0, 2.0);
        c.transforms = vec![transform];
        match compile_ffmpeg(&edl(vec![c]), &sources(&[1]), &spec()) {
            Err(EdlCompileError::TransformUnsupported { clip_index: 0, transform }) => {
                assert_eq!(transform, name)
            }
            other => panic!("expected TransformUnsupported({name}), got {other:?}"),
        }
    }
}

#[test]
fn a_video_clip_on_an_fps_less_source_is_rejected_typed() {
    let edl = edl(vec![clip(1, 0.0, 1.0)]);
    assert!(matches!(
        compile_ffmpeg(&edl, &sources_at(&[(1, None)]), &spec()),
        Err(EdlCompileError::MissingFps { clip_index: 0, source_id: SourceId(1) })
    ));
}

#[test]
fn select_profile_takes_the_largest_area_and_its_fps() {
    let thirty = Rate::new(30, 1).unwrap();
    let sixty = Rate::new(60, 1).unwrap();
    let chosen = select_profile(&vec![
        VideoProps { width: 1920, height: 1080, fps: thirty },
        VideoProps { width: 1280, height: 720, fps: sixty },
    ])
    .unwrap();
    assert_eq!((chosen.width, chosen.height), (1920, 1080));
    assert_eq!(chosen.fps, Fps::Rate(thirty));
    assert_eq!(select_profile(&Vec::new()), None);
}

#[test]
fn faststart_only_for_quicktime_containers() {
    let edl = edl(vec![clip(1, 0.0, 1.0)]);
    let mut mkv_spec = spec();
    mkv_spec.output = "/out/mix.mkv".to_string();
    let plan = compile_ffmpeg(&edl, &sources(&[1]), &mkv_spec).unwrap();
    assert!(!plan.stage2.iter().any(|a| a == "-movflags"));
}

#[test]
fn frame_numbers_round_halves_up_and_starts_down() {
    let film = Rate::new(24000, 1001).unwrap();
    assert_eq!(frames_by(ns(1.0) as i128, film), 24);
    assert_eq!(first_frame(ns(1.0), film), 23);
    let thirty = Rate::new(30, 1).unwrap();
    assert_eq!(frames_by(ns(0.05) as i128, thirty), 2);
    assert_eq!(first_frame(ns(0.05), thirty), 1);
}

#[test]
fn frames_are_due_at_any_rate() {
    let film = Rate::new(24000, 1001).unwrap();
    assert_eq!(frames_due(ns(1.0) as i128, Fps::Rate(film)), 24);
    assert_eq!(frames_due(ns(1.0) as i128, Fps::Minus(film)), -24);
    assert_eq!(frames_due(ns(1.0) as i128, Fps::Zero { negative: true }), 0);
    assert_eq!(frames_due(ns(1.0) as i128, Fps::NaN), 0);
    assert_eq!(frames_due(1, Fps::Infinity), i64::MAX);
    assert_eq!(frames_due(0, Fps::Infinity), 0);
    assert_eq!(frames_due(1, Fps::NegInfinity), i64::MIN);
}

#[test]
fn an_odd_rate_goes_to_ffmpeg_as_it_was_asked_for() {
    let edl = edl(vec![clip(1, 1.0, 2.0)]);
    let filters = |fps: Fps| {
        let mut spec = spec();
        spec.profile.fps = fps;
        let plan = compile_ffmpeg(&edl, &sources(&[1]), &spec).unwrap();
        let argv = &plan.stage1[0];
        (arg_after(argv, "-r").to_string(), arg_after(argv, "-filter_complex").to_string())
    };
    let (rate, graph) = filters(Fps::Zero { negative: false });
    assert_eq!(rate, "0.000000");
    assert!(graph.contains("[0:v]trim=end_frame=2,setpts=PTS-STARTPTS,fps=0.000000,trim=end_frame=0,"), "{graph}");
    let (rate, graph) = filters(Fps::Minus(Rate::new(15, 1).unwrap()));
    assert_eq!(rate, "-15.000000");
    // Fifteen frames the wrong way; the source runs at thirty.
    assert!(graph.contains("[0:v]trim=end_frame=32,setpts=PTS-STARTPTS,fps=-15.000000,trim=end_frame=-15,"), "{graph}");
    let (rate, graph) = filters(Fps::Infinity);
    assert_eq!(rate, "inf");
    assert!(graph.contains("fps=inf,trim=end_frame=9223372036854775807,"), "{graph}");
}

#[test]
fn the_frames_of_a_render_keep_up_with_its_sound() {
    // Seventy milliseconds at thirty frames a second: 2.1 frames a clip.
    let clips: Vec<Clip> = (0..50).map(|i| clip(1, i as f64, i as f64 + 0.07)).collect();
    let plan = compile_ffmpeg(&edl(clips), &sources(&[1]), &spec()).unwrap();
    let mut frames = 0.0;
    for (k, argv) in plan.stage1.iter().enumerate() {
        let graph = arg_after(argv, "-filter_complex");
        let from = graph.find("end_frame=").unwrap() + "end_frame=".len();
        let count: String = graph[from..].chars().take_while(|c| c.is_ascii_digit()).collect();
        frames += count.parse::<f64>().unwrap();
        let sound = (k + 1) as f64 * 0.07 * 30.0;
        assert!((frames - sound).abs() <= 0.5 + 1e-6, "{frames} frames for {sound}");
    }
}

#[test]
fn a_plan_is_run_extraction_by_extraction_and_then_encoded() {
    let edl = edl(vec![clip(1, 1.0, 2.0), clip(1, 5.0, 6.0)]);
    let plan = compile_ffmpeg(&edl, &sources(&[1]), &spec()).unwrap();
    let steps = render_steps(&plan);
    assert_eq!(steps.len(), 7);
    assert!(matches!(&steps[0], RenderStep::Say(s) if s == "  clip 1/2"));
    assert!(matches!(&steps[1], RenderStep::Run(argv) if *argv == plan.stage1[0]));
    assert!(matches!(&steps[2], RenderStep::Say(s) if s == "  clip 2/2"));
    assert!(matches!(&steps[3], RenderStep::Run(argv) if *argv == plan.stage1[1]));
    assert!(matches!(
        &steps[4],
        RenderStep::Write { path, text } if *path == plan.concat_list_path && *text == plan.concat_list
    ));
    assert!(matches!(&steps[5], RenderStep::Say(s) if s == "  final encode"));
    assert!(matches!(&steps[6], RenderStep::Run(argv) if *argv == plan.stage2));
}

#[test]
fn a_bound_edit_binds_again_to_itself() {
    let edl = edit_with(
        vec![
            (9, source_ref("yt:a", "hash-a", 50.0)),
            (4, source_ref("yt:b", "old-hash", 20.0)),
        ],
        vec![9, 4, 9],
    );
    let corpus = vec![
        corpus_source(3, "yt:a", "hash-a", 50.0),
        corpus_source(8, "yt:b", "hash-b", 20.2),
    ];
    let once = rebind(&edl, &corpus).unwrap();
    assert_eq!(once.warnings.len(), 1);
    let twice = rebind(&once.edl, &corpus).unwrap();
    assert!(twice.warnings.is_empty());
    let ids = |e: &Edl| e.clips.iter().map(|c| c.span.source.0).collect::<Vec<_>>();
    assert_eq!(ids(&once.edl), vec![3, 8, 3]);
    assert_eq!(ids(&twice.edl), ids(&once.edl));
    assert_eq!(twice.edl.sources[&8].master_hash, once.edl.sources[&8].master_hash);
}

#[test]
fn entries_are_one_line_whatever_their_title_holds() {
    let edl = edl(vec![labeled(1, 0.0, 1.0, "a\nb\u{7f}c\u{85}d\te")]);
    let document = compile_mpv_edl(&edl, &sources(&[1])).unwrap().document();
    assert_eq!(document.lines().count(), 2);
    assert!(document.ends_with("a b c d e\n"), "{document}");
}
