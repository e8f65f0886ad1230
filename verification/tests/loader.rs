use dipho::corpus::loader::{plan_load, validate_frames, validate_spans, LoadPlan, OldSpeaker, Orphan};
use dipho::corpus::phones::SilOrigin;
use dipho::corpus::search::{fts_query, phrase_occurrences, plan_search, WordSpan};
use dipho::corpus::CorpusError;
use dipho::span::SourceId;
use dipho::corpus::features::{ProsodyData, MFCC_DIM};
use dipho::corpus::manifest::{
    default_true, Analysis, Chunk, Manifest, Phoneme, ProsodyMeta, Segment, Turn, Word,
};
use dipho::fine::{parse_fine, Fine};
use dipho::number::Real;
use serde_json::Value;

fn ns(seconds: f64) -> i64 {
    (seconds * 1e9).round() as i64
}

fn fine(seconds: f64) -> Fine {
    parse_fine(&seconds.to_string()).unwrap()
}

fn quantity(v: &Value) -> Real {
    Real::Nano(ns(v.as_f64().unwrap()))
}

fn list<'a>(doc: &'a Value, key: &str) -> &'a Vec<Value> {
    doc.get(key).unwrap().as_array().unwrap()
}

fn text(v: &Value, key: &str) -> String {
    v.get(key).unwrap().as_str().unwrap().to_string()
}

fn index(v: &Value, key: &str) -> usize {
    v.get(key).unwrap().as_u64().unwrap() as usize
}

fn at(v: &Value, key: &str) -> Real {
    quantity(v.get(key).unwrap())
}

fn confidence(v: &Value) -> Option<Real> {
    v.get("confidence").filter(|c| !c.is_null()).map(quantity)
}

fn manifest_of(json: &str) -> Manifest {
    let doc: Value = serde_json::from_str(json).unwrap();
    let analysis = doc.get("analysis").unwrap();
    let prosody = doc.get("prosody").unwrap();
    Manifest {
        schema_version: index(&doc, "schema_version") as u32,
        analysis: Analysis {
            path: text(analysis, "path"),
            duration: fine(analysis.get("duration").unwrap().as_f64().unwrap()),
        },
        tools: doc.get("tools").unwrap().to_string(),
        segments: list(&doc, "segments")
            .iter()
            .map(|s| Segment {
                text: text(s, "text"),
                start: at(s, "start"),
                end: at(s, "end"),
                word_index_start: index(s, "word_index_start"),
                word_index_end: index(s, "word_index_end"),
                confidence: confidence(s),
            })
            .collect(),
        words: list(&doc, "words")
            .iter()
            .map(|w| Word {
                text: text(w, "text"),
                start: at(w, "start"),
                end: at(w, "end"),
                confidence: confidence(w),
                segment_index: index(w, "segment_index"),
            })
            .collect(),
        phonemes: list(&doc, "phonemes")
            .iter()
            .map(|p| Phoneme {
                label: text(p, "label"),
                start: at(p, "start"),
                end: at(p, "end"),
                confidence: confidence(p),
                word_index: p.get("word_index").and_then(Value::as_u64).map(|i| i as usize),
            })
            .collect(),
        turns: list(&doc, "turns")
            .iter()
            .map(|t| Turn { speaker: text(t, "speaker"), start: at(t, "start"), end: at(t, "end") })
            .collect(),
        chunks: list(&doc, "chunks")
            .iter()
            .map(|c| Chunk {
                start: at(c, "start"),
                end: at(c, "end"),
                aligned: c.get("aligned").and_then(Value::as_bool).unwrap_or(default_true()),
            })
            .collect(),
        prosody: ProsodyMeta {
            path: text(prosody, "path"),
            hop: fine(prosody.get("hop").unwrap().as_f64().unwrap()),
            n_frames: index(prosody, "n_frames"),
        },
    }
}

fn silent(n: usize) -> ProsodyData {
    ProsodyData {
        hop: fine(0.01),
        f0: vec![0; n],
        rms_db: vec![0; n],
        mfcc: vec![0; n * MFCC_DIM],
    }
}

/// 9 s source, two speakers (turn boundary at 5.0, mid-word), three chunks
/// (speech abutting the 3.0 edge), a 500 ms mid silence, NOISE blips of 15 ms
/// (bridgeable) and 60 ms (hard break), a single-phone word "a", and
/// SIL-preceded stops G (0.5) and D (7.2).
const FIXTURE_MANIFEST: &str = r#"{
    "schema_version": 1,
    "analysis": { "path": "audio.wav", "duration": 9.0 },
    "tools": { "dipho_ingest": "0.1.0", "mfa": "3.3.9" },
    "segments": [
        { "text": "go a sun", "start": 0.5, "end": 1.5,
          "word_index_start": 0, "word_index_end": 3, "confidence": 0.95 },
        { "text": "if it cat", "start": 2.0, "end": 3.0,
          "word_index_start": 3, "word_index_end": 6, "confidence": 0.9 },
        { "text": "yes", "start": 3.0, "end": 3.5,
          "word_index_start": 6, "word_index_end": 7, "confidence": 0.92 },
        { "text": "we no", "start": 4.85, "end": 5.55,
          "word_index_start": 7, "word_index_end": 9, "confidence": 0.88 },
        { "text": "dog", "start": 7.2, "end": 7.6,
          "word_index_start": 9, "word_index_end": 10, "confidence": 0.97 }
    ],
    "words": [
        { "text": "go",  "start": 0.5,   "end": 0.8,  "confidence": 0.99, "segment_index": 0 },
        { "text": "a",   "start": 0.8,   "end": 0.9,  "confidence": 0.98, "segment_index": 0 },
        { "text": "sun", "start": 0.9,   "end": 1.5,  "confidence": 0.97, "segment_index": 0 },
        { "text": "if",  "start": 2.0,   "end": 2.3,  "confidence": 0.96, "segment_index": 1 },
        { "text": "it",  "start": 2.315, "end": 2.5,  "confidence": 0.95, "segment_index": 1 },
        { "text": "cat", "start": 2.56,  "end": 3.0,  "confidence": 0.94, "segment_index": 1 },
        { "text": "yes", "start": 3.0,   "end": 3.5,  "confidence": 0.93, "segment_index": 2 },
        { "text": "we",  "start": 4.9,   "end": 5.2,  "confidence": 0.92, "segment_index": 3 },
        { "text": "no",  "start": 5.2,   "end": 5.55, "confidence": 0.91, "segment_index": 3 },
        { "text": "dog", "start": 7.2,   "end": 7.6,  "confidence": 0.90, "segment_index": 4 }
    ],
    "phonemes": [
        { "label": "SIL",   "start": 0.0,   "end": 0.5,   "confidence": null, "word_index": null },
        { "label": "G",     "start": 0.5,   "end": 0.6,   "confidence": 0.9,  "word_index": 0 },
        { "label": "OW1",   "start": 0.6,   "end": 0.8,   "confidence": 0.9,  "word_index": 0 },
        { "label": "AH0",   "start": 0.8,   "end": 0.9,   "confidence": 0.9,  "word_index": 1 },
        { "label": "S",     "start": 0.9,   "end": 1.1,   "confidence": 0.9,  "word_index": 2 },
        { "label": "AH1",   "start": 1.1,   "end": 1.3,   "confidence": 0.9,  "word_index": 2 },
        { "label": "N",     "start": 1.3,   "end": 1.5,   "confidence": 0.9,  "word_index": 2 },
        { "label": "SIL",   "start": 1.5,   "end": 2.0,   "confidence": null, "word_index": null },
        { "label": "IH1",   "start": 2.0,   "end": 2.1,   "confidence": 0.9,  "word_index": 3 },
        { "label": "F",     "start": 2.1,   "end": 2.3,   "confidence": 0.9,  "word_index": 3 },
        { "label": "NOISE", "start": 2.3,   "end": 2.315, "confidence": null, "word_index": null },
        { "label": "IH0",   "start": 2.315, "end": 2.4,   "confidence": 0.9,  "word_index": 4 },
        { "label": "T",     "start": 2.4,   "end": 2.5,   "confidence": 0.9,  "word_index": 4 },
        { "label": "NOISE", "start": 2.5,   "end": 2.56,  "confidence": null, "word_index": null },
        { "label": "K",     "start": 2.56,  "end": 2.66,  "confidence": 0.9,  "word_index": 5 },
        { "label": "AE1",   "start": 2.66,  "end": 2.86,  "confidence": 0.9,  "word_index": 5 },
        { "label": "T",     "start": 2.86,  "end": 3.0,   "confidence": 0.85, "word_index": 5 },
        { "label": "Y",     "start": 3.0,   "end": 3.1,   "confidence": 0.85, "word_index": 6 },
        { "label": "EH1",   "start": 3.1,   "end": 3.3,   "confidence": 0.9,  "word_index": 6 },
        { "label": "S",     "start": 3.3,   "end": 3.5,   "confidence": 0.9,  "word_index": 6 },
        { "label": "SIL",   "start": 3.5,   "end": 4.9,   "confidence": null, "word_index": null },
        { "label": "W",     "start": 4.9,   "end": 5.0,   "confidence": 0.9,  "word_index": 7 },
        { "label": "IY1",   "start": 5.0,   "end": 5.2,   "confidence": 0.9,  "word_index": 7 },
        { "label": "N",     "start": 5.2,   "end": 5.35,  "confidence": 0.9,  "word_index": 8 },
        { "label": "OW1",   "start": 5.35,  "end": 5.55,  "confidence": 0.9,  "word_index": 8 },
        { "label": "SIL",   "start": 5.55,  "end": 6.0,   "confidence": null, "word_index": null },
        { "label": "SIL",   "start": 7.0,   "end": 7.2,   "confidence": null, "word_index": null },
        { "label": "D",     "start": 7.2,   "end": 7.3,   "confidence": 0.9,  "word_index": 9 },
        { "label": "AO1",   "start": 7.3,   "end": 7.5,   "confidence": 0.9,  "word_index": 9 },
        { "label": "G",     "start": 7.5,   "end": 7.6,   "confidence": 0.9,  "word_index": 9 },
        { "label": "SIL",   "start": 7.6,   "end": 8.0,   "confidence": null, "word_index": null }
    ],
    "turns": [
        { "speaker": "SPEAKER_00", "start": 0.0, "end": 5.0 },
        { "speaker": "SPEAKER_01", "start": 5.0, "end": 8.5 }
    ],
    "chunks": [
        { "start": 0.0, "end": 3.0 },
        { "start": 3.0, "end": 6.0 },
        { "start": 7.0, "end": 8.5 }
    ],
    "prosody": { "path": "prosody.npz", "hop": 0.01, "n_frames": 901 }
}"#;

fn fixture_manifest() -> Manifest {
    manifest_of(FIXTURE_MANIFEST)
}

/// Unvoiced before 0.6 s, then flat 120 Hz; rms -20 dB everywhere;
/// mfcc[i][d] = i + 1000 d so frame means are recognizable.
fn fixture_prosody() -> ProsodyData {
    let n = 901;
    ProsodyData {
        hop: fine(0.01),
        f0: (0..n)
            .map(|i| (if (i as f64) * 0.01 < 0.6 { 0.0f32 } else { 120.0 }).to_bits())
            .collect(),
        rms_db: vec![(-20.0f32).to_bits(); n],
        mfcc: (0..n)
            .flat_map(|i| (0..MFCC_DIM).map(move |d| (i as f32 + 1000.0 * d as f32).to_bits()))
            .collect(),
    }
}

fn load(m: &Manifest, olds: Vec<OldSpeaker>) -> Result<LoadPlan, CorpusError> {
    plan_load(m, &fixture_prosody(), &olds)
}

fn loaded() -> LoadPlan {
    load(&fixture_manifest(), Vec::new()).unwrap()
}

fn approx(a: i64, b: f64) -> bool {
    a == ns(b)
}

/// The turns that a load leaves to each of its speakers, under the ids given.
fn old_speakers(plan: &LoadPlan, ids: &[i64], named: &[bool]) -> Vec<OldSpeaker> {
    (0..plan.speakers.len())
        .map(|k| OldSpeaker {
            id: ids[k],
            named: named[k],
            turns: plan
                .turns
                .iter()
                .filter(|t| t.speaker_id == k)
                .map(|t| (t.t_start, t.t_end))
                .collect(),
        })
        .collect()
}

#[test]
fn fixture_round_trips_into_an_in_memory_corpus() {
    let plan = loaded();
    let report = plan.report(SourceId(1));
    assert_eq!(report.source_id, SourceId(1));
    assert_eq!(report.speakers, 2);
    assert_eq!(report.utterances, 5);
    assert_eq!(report.words, 10);
    // 31 manifest phonemes + 2 inserted zero-length terminators.
    assert_eq!(report.phones, 33);
    assert_eq!(report.diphones, 24);
    assert_eq!(plan.turns.len(), 2);
    assert_eq!(plan.diphones.len(), 24);
    assert!(plan.orphans.is_empty());
    // NOISE rows are stored (only excised from the adjacency view).
    let noise = plan
        .phones
        .iter()
        .filter(|p| p.phone.label() == "NOISE" && p.phone.cut_t.is_none())
        .count();
    assert_eq!(noise, 2);
}

#[test]
fn fts_phrase_query_maps_back_to_word_spans() {
    let manifest = fixture_manifest();
    let plan = loaded();
    let (tokens, query) = plan_search("a sun").unwrap();
    assert_eq!(query, "\"a sun\"");
    assert_eq!(fts_query(&tokens), query);
    // The utterance whose text holds the phrase.
    let utterance = plan
        .utterances
        .iter()
        .position(|u| u.text_norm.contains("a sun"))
        .unwrap();
    let words: Vec<WordSpan> = plan
        .words
        .iter()
        .zip(&manifest.words)
        .filter(|(row, _)| row.utterance == utterance)
        .map(|(row, w)| WordSpan {
            text: w.text.clone(),
            t_start: row.t_start,
            t_end: row.t_end,
            confidence: None,
        })
        .collect();
    let found = phrase_occurrences(&words, &tokens);
    assert_eq!(found, vec![1..3]);
    let rows: Vec<_> = plan.words.iter().filter(|r| r.utterance == utterance).collect();
    assert_eq!(rows[1].ordinal, 1);
    assert!(approx(words[1].t_start, 0.8) && approx(words[1].t_end, 0.9));
    assert!(approx(words[2].t_start, 0.9) && approx(words[2].t_end, 1.5));
}

#[test]
fn cut_points_are_class_correct() {
    let plan = loaded();
    let cut = |label: &str, t_start: f64| -> (i64, bool) {
        let p = plan
            .phones
            .iter()
            .find(|p| p.phone.label() == label && p.phone.t_start == ns(t_start))
            .unwrap();
        (p.phone.cut_t.unwrap(), p.phone.weak_cut())
    };
    // SIL-preceded stops cut at phone start.
    assert!(approx(cut("G", 0.5).0, 0.5));
    assert!(approx(cut("D", 7.2).0, 7.2));
    // Plain stop: 20% into the closure.
    assert!(approx(cut("K", 2.56).0, 2.58));
    assert!(approx(cut("T", 2.4).0, 2.42));
    // Fricative and nasal: midpoint.
    assert!(approx(cut("F", 2.1).0, 2.2));
    assert!(approx(cut("N", 1.3).0, 1.4));
    // Diphthong and glide: midpoint, flagged weak.
    let (ow, ow_weak) = cut("OW1", 0.6);
    assert!(approx(ow, 0.7) && ow_weak);
    let (y, y_weak) = cut("Y", 3.0);
    assert!(approx(y, 3.05) && y_weak);
    assert!(!cut("AH1", 1.1).1);
}

#[test]
fn adjacency_yields_exactly_the_expected_units() {
    let plan = loaded();
    let expected: Vec<(i128, &str, f64, f64)> = vec![
        (0, "SIL-G", 0.30, 0.50),
        (1, "G-OW", 0.50, 0.70),
        (2, "OW-AH", 0.70, 0.85),
        (3, "AH-S", 0.85, 1.00),
        (4, "S-AH", 1.00, 1.20),
        (5, "AH-N", 1.20, 1.40),
        (6, "N-SIL", 1.40, 1.70),
        (7, "SIL-IH", 1.80, 2.05),
        (8, "IH-F", 2.05, 2.20),
        (9, "F-IH", 2.20, 2.3575), // bridged 15 ms NOISE blip
        (10, "IH-T", 2.3575, 2.42),
        // 60 ms NOISE: hard break (no T-K), seq skips.
        (12, "K-AE", 2.58, 2.76),
        (13, "AE-T", 2.76, 2.888),
        // chunk-edge terminator at 3.0: no T-Y.
        (15, "Y-EH", 3.05, 3.20),
        (16, "EH-S", 3.20, 3.40),
        (17, "S-SIL", 3.40, 3.70),
        (18, "SIL-W", 4.70, 4.95),
        // turn terminator at 5.0: no W-IY, even mid-word.
        (20, "IY-N", 5.10, 5.275),
        (21, "N-OW", 5.275, 5.45),
        (22, "OW-SIL", 5.45, 5.75),
        // SIL-SIL never bonds across the 6.0-7.0 gap.
        (24, "SIL-D", 7.10, 7.20), // half-duration displacement
        (25, "D-AO", 7.20, 7.40),
        (26, "AO-G", 7.40, 7.52),
        (27, "G-SIL", 7.52, 7.80),
    ];
    let got: Vec<_> = plan.diphones.iter().map(|d| &d.unit).collect();
    assert_eq!(got.len(), expected.len());
    for (g, e) in got.iter().zip(&expected) {
        assert_eq!(g.seq, e.0, "seq for {}", e.1);
        assert_eq!(g.label, e.1);
        assert!(approx(g.t_start, e.2), "{}: t_start {} != {}", e.1, g.t_start, e.2);
        assert!(approx(g.t_end, e.3), "{}: t_end {} != {}", e.1, g.t_end, e.3);
    }
    // The >400 ms silence: X-SIL.t_end != SIL-Y.t_start by construction.
    assert!(approx(got[6].t_end, 1.70) && approx(got[7].t_start, 1.80));
}

#[test]
fn zero_extent_terminators_are_recorded_with_provenance() {
    let plan = loaded();
    let origins: Vec<_> = plan
        .phones
        .iter()
        .filter(|p| p.phone.t_start == p.phone.t_end)
        .map(|p| (p.phone.t_start, p.phone.sil_origin().unwrap()))
        .collect();
    assert_eq!(origins.len(), 2);
    assert!(approx(origins[0].0, 3.0) && origins[0].1.as_str() == "chunk");
    assert!(approx(origins[1].0, 5.0) && origins[1].1.as_str() == "turn");
    // Aligner silences keep their own provenance.
    let mfa = plan
        .phones
        .iter()
        .filter(|p| p.phone.sil_origin() == Some(SilOrigin::Mfa))
        .count();
    assert_eq!(mfa, 6);
}

#[test]
fn seq_self_join_finds_contiguous_runs() {
    let plan = loaded();
    let mut contiguous = 0;
    for a in &plan.diphones {
        contiguous += plan.diphones.iter().filter(|b| b.unit.seq == a.unit.seq + 1).count();
    }
    // 24 diphones in 5 chains: 10 + 1 + 3 + 2 + 3 internal adjacencies.
    assert_eq!(contiguous, 19);
    let a = plan.diphones.iter().find(|d| d.unit.label == "G-OW").unwrap();
    let next = plan.diphones.iter().find(|d| d.unit.seq == a.unit.seq + 1).unwrap();
    assert_eq!(next.unit.label, "OW-AH");
}

#[test]
fn boundary_features_come_from_the_frame_substrate() {
    let plan = loaded();
    let prosody = fixture_prosody();
    let frames = |label: &str| {
        &plan.diphones.iter().find(|d| d.unit.label == label).unwrap().frames
    };
    let mean = |samples: Vec<u32>| -> f64 {
        let n = samples.len() as f64;
        samples.iter().map(|b| f64::from(f32::from_bits(*b))).sum::<f64>() / n
    };
    // SIL-G spans [0.30, 0.50): all frames unvoiced, so the pitch reads none,
    // not one from elsewhere; mfcc head = mean of frames 30,31,32.
    let f = frames("SIL-G");
    for d in 0..MFCC_DIM {
        let head: Vec<u32> =
            (f.from..f.head_end).map(|i| prosody.mfcc[i * MFCC_DIM + d]).collect();
        assert!((mean(head) - (31.0 + 1000.0 * d as f64)).abs() < 1e-3);
    }
    assert_eq!(f.f0_head, None);
    assert_eq!(f.f0_tail, None);
    assert!((mean(prosody.rms_db[f.from..f.head_end].to_vec()) - -20.0).abs() < 1e-9);
    assert_eq!(f.voiced.len(), 0);
    // G-OW spans [0.50, 0.70): unvoiced head, voiced tail, half voiced.
    let f = frames("G-OW");
    assert_eq!(f.f0_head, None);
    assert_eq!(f.f0_tail, Some((120.0f32.to_bits(), 120.0f32.to_bits())));
    assert_eq!(f.voiced.len() * 2, f.to - f.from);
}

#[test]
fn speakers_are_loader_derived_from_turns() {
    let manifest = fixture_manifest();
    let plan = loaded();
    let speaker_of = |label: &str| plan.speakers.iter().position(|s| s.label == label).unwrap();
    let (spk0, spk1) = (speaker_of("SPEAKER_00"), speaker_of("SPEAKER_01"));
    // Utterances: max-overlap turn; "we no" straddles the boundary with the
    // second speaker over 20%.
    let utts: Vec<_> = plan
        .utterances
        .iter()
        .zip(&manifest.segments)
        .map(|(u, s)| (s.text.as_str(), u.speaker, u.multi_speaker))
        .collect();
    assert_eq!(utts[0], ("go a sun", Some(spk0), false));
    assert_eq!(utts[3], ("we no", Some(spk1), true));
    assert_eq!(utts[4], ("dog", Some(spk1), false));
    // Phones split exactly at the turn boundary.
    let phone_speaker = |label: &str, t_start: f64| {
        plan.phones
            .iter()
            .find(|p| p.phone.label() == label && p.phone.t_start == ns(t_start))
            .unwrap()
            .speaker
    };
    assert_eq!(phone_speaker("W", 4.9), Some(spk0));
    assert_eq!(phone_speaker("IY1", 5.0), Some(spk1));
    // Zero-extent terminators overlap nothing.
    assert_eq!(phone_speaker("SIL", 3.0), None);
    // A SIL diphone inherits its real-phone member's speaker.
    let sil_g = plan.diphones.iter().find(|d| d.unit.label == "SIL-G").unwrap();
    assert_eq!(sil_g.speaker, Some(spk0));
}

#[test]
fn reingest_carries_named_speakers_forward_and_keeps_fts_in_sync() {
    let first = loaded();
    let olds = old_speakers(&first, &[11, 12], &[true, false]);
    let second = load(&fixture_manifest(), olds).unwrap();
    assert_eq!(second.diphones.len(), first.diphones.len());
    assert_eq!(second.speakers.len(), 2);
    assert_eq!(second.phones.len(), 33);
    // Identical turn-set: the same rows are taken over, nobody goes stale.
    assert_eq!(second.speakers[0].label, "SPEAKER_00");
    assert_eq!(second.speakers[0].inherits, Some(0));
    assert_eq!(second.speakers[1].inherits, Some(1));
    assert!(second.orphans.is_empty());
    // Derived rows point at the carried-forward speaker.
    assert_eq!(second.utterances[0].text_norm, "go a sun");
    assert_eq!(second.utterances[0].speaker, Some(0));
    let with_sun = second.utterances.iter().filter(|u| u.text_norm.contains("sun")).count();
    assert_eq!(with_sun, 1);
}

#[test]
fn unknown_manifest_version_is_rejected() {
    let mut manifest = fixture_manifest();
    manifest.schema_version = 99;
    assert!(matches!(
        load(&manifest, Vec::new()),
        Err(CorpusError::UnknownManifestVersion(99))
    ));
}

#[test]
fn frame_count_violations_are_rejected() {
    let mut prosody = fixture_prosody();
    prosody.f0.truncate(900);
    assert!(matches!(
        plan_load(&fixture_manifest(), &prosody, &Vec::new()),
        Err(CorpusError::FrameMismatch(_))
    ));
    let mut manifest = fixture_manifest();
    manifest.prosody.n_frames = 900; // != 1 + floor(duration/hop)
    assert!(matches!(load(&manifest, Vec::new()), Err(CorpusError::FrameMismatch(_))));
}

#[test]
fn frame_count_tolerates_f64_floor_rounding() {
    // 4640 samples at 16 kHz: duration 0.29, and the sidecar's integer
    // arithmetic emits 30 frames.
    let mut manifest = fixture_manifest();
    manifest.analysis.duration = fine(0.29);
    manifest.prosody.n_frames = 30;
    assert!(validate_frames(&manifest, &silent(30)).is_ok());
}

#[test]
fn frame_counts_follow_the_hop_exactly() {
    // 512 samples at 48 kHz over an hour.
    let mut manifest = fixture_manifest();
    manifest.analysis.duration = fine(3600.0);
    manifest.prosody.hop = fine(512.0 / 48_000.0);
    manifest.prosody.n_frames = 337_501;
    let prosody = ProsodyData { hop: manifest.prosody.hop, ..silent(337_501) };
    assert!(validate_frames(&manifest, &prosody).is_ok());
    manifest.prosody.n_frames = 337_500;
    assert!(matches!(
        validate_frames(&manifest, &prosody),
        Err(CorpusError::FrameMismatch(m)) if m == "n_frames 337500 != 1 + floor(duration/hop) = 337501"
    ));
    // A hop of one sample, and a duration of a third of a second.
    manifest.analysis.duration = fine(16_000.0 / 48_000.0);
    manifest.prosody.hop = fine(1.0 / 48_000.0);
    manifest.prosody.n_frames = 16_001;
    let prosody = ProsodyData { hop: manifest.prosody.hop, ..silent(16_001) };
    assert!(validate_frames(&manifest, &prosody).is_ok());
    manifest.prosody.hop = fine(0.0);
    assert!(matches!(
        validate_frames(&manifest, &prosody),
        Err(CorpusError::FrameMismatch(m)) if m == "hop 0 must be > 0"
    ));
}

#[test]
fn out_of_range_spans_are_rejected() {
    let mut inverted = fixture_manifest();
    inverted.words[0].end = Real::Nano(ns(0.5 - 0.1));
    assert!(matches!(
        load(&inverted, Vec::new()),
        Err(CorpusError::InvalidInterval { what: "word", .. })
    ));
    let mut beyond = fixture_manifest();
    beyond.turns[0].end = Real::Nano(ns(99.0));
    assert!(matches!(
        load(&beyond, Vec::new()),
        Err(CorpusError::InvalidInterval { what: "turn", .. })
    ));
    let mut negative = fixture_manifest();
    negative.analysis.duration = fine(-3.0);
    negative.prosody.n_frames = 1;
    assert!(matches!(
        load(&negative, Vec::new()),
        Err(CorpusError::InvalidInterval { what: "analysis duration", .. })
    ));
}

#[test]
fn overlapping_or_zero_extent_phonemes_are_rejected() {
    let mut overlapping = fixture_manifest();
    overlapping.phonemes[1].start = Real::Nano(ns(0.4)); // G now overlaps the initial SIL
    assert!(matches!(load(&overlapping, Vec::new()), Err(CorpusError::Contract(_))));
    let mut collapsed = fixture_manifest();
    collapsed.phonemes[1].end = collapsed.phonemes[1].start;
    assert!(matches!(
        load(&collapsed, Vec::new()),
        Err(CorpusError::InvalidInterval { what: "zero-extent phoneme", .. })
    ));
}

#[test]
fn stale_named_speaker_is_reclaimed_by_a_later_run() {
    let first = loaded();
    let olds = old_speakers(&first, &[11, 12], &[true, false]);
    let liquid_turns = olds[0].turns.clone();
    // Run 2: diarization misses the named voice entirely; one speaker matching
    // the other voice. The named one goes stale but keeps its turns.
    let mut second = fixture_manifest();
    second.turns = vec![Turn {
        speaker: "SPEAKER_X".to_string(),
        start: Real::Nano(ns(5.0)),
        end: Real::Nano(ns(8.5)),
    }];
    let plan = load(&second, olds).unwrap();
    assert_eq!(plan.orphans, vec![Orphan::Stale(11)]);
    assert_eq!(liquid_turns.len(), 1);
    assert_eq!(plan.speakers[0].inherits, Some(1));

    // Run 3: the voice is back; overlap with the preserved turns re-claims the
    // named row.
    let olds = vec![
        OldSpeaker { id: 11, named: true, turns: liquid_turns },
        OldSpeaker { id: 12, named: false, turns: vec![(ns(5.0), ns(8.5))] },
    ];
    let third = load(&fixture_manifest(), olds).unwrap();
    let k = third.speakers.iter().position(|s| s.label == "SPEAKER_00").unwrap();
    assert_eq!(third.speakers[k].inherits, Some(0));
    assert!(third.orphans.is_empty());
}

#[test]
fn fts_indexes_normalized_tokens_so_ordinals_cannot_drift() {
    const NORMALIZED: &str = r#"{
        "schema_version": 1,
        "analysis": { "path": "audio.wav", "duration": 2.0 },
        "tools": {},
        "segments": [
            { "text": "I have 25 cats", "start": 0.1, "end": 1.9,
              "word_index_start": 0, "word_index_end": 5, "confidence": 0.9 }
        ],
        "words": [
            { "text": "i",      "start": 0.1, "end": 0.3, "segment_index": 0 },
            { "text": "have",   "start": 0.3, "end": 0.6, "segment_index": 0 },
            { "text": "twenty", "start": 0.6, "end": 1.0, "segment_index": 0 },
            { "text": "five",   "start": 1.0, "end": 1.4, "segment_index": 0 },
            { "text": "cats",   "start": 1.4, "end": 1.9, "segment_index": 0 }
        ],
        "phonemes": [],
        "turns": [],
        "chunks": [],
        "prosody": { "path": "prosody.npz", "hop": 0.01, "n_frames": 201 }
    }"#;
    let manifest = manifest_of(NORMALIZED);
    let plan = plan_load(&manifest, &silent(201), &Vec::new()).unwrap();
    assert_eq!(manifest.segments[0].text, "I have 25 cats");
    assert_eq!(plan.utterances[0].text_norm, "i have twenty five cats");

    // Phrase tokens land on the word rows' ordinals exactly.
    let words: Vec<WordSpan> = plan
        .words
        .iter()
        .zip(&manifest.words)
        .map(|(row, w)| WordSpan {
            text: w.text.clone(),
            t_start: row.t_start,
            t_end: row.t_end,
            confidence: None,
        })
        .collect();
    let phrase: Vec<String> = vec!["twenty".to_string(), "five".to_string()];
    assert_eq!(phrase_occurrences(&words, &phrase).len(), 1);
    // Raw-only tokens are not findable.
    assert_eq!(phrase_occurrences(&words, &vec!["25".to_string()]).len(), 0);
    let row = plan.words.iter().find(|r| r.ordinal == 2).unwrap();
    assert!(approx(row.t_start, 0.6) && approx(row.t_end, 1.0));
}

#[test]
fn an_unclaimed_unnamed_speaker_is_removed() {
    let olds = vec![
        OldSpeaker { id: 7, named: false, turns: vec![(ns(100.0), ns(200.0))] },
        OldSpeaker { id: 8, named: true, turns: Vec::new() },
    ];
    let plan = load(&fixture_manifest(), olds).unwrap();
    assert_eq!(plan.orphans, vec![Orphan::Removed(7), Orphan::Stale(8)]);
    assert!(plan.speakers.iter().all(|s| s.inherits.is_none()));
}

#[test]
fn index_faults_name_what_is_out_of_range() {
    let mut manifest = fixture_manifest();
    manifest.words[0].segment_index = 5;
    let e = validate_spans(&manifest).map(|_| ()).err();
    let e = e.or_else(|| load(&manifest, Vec::new()).err()).unwrap();
    assert!(matches!(e, CorpusError::IndexOutOfRange { .. }), "{e:?}");
    assert!(e.message().contains("index"), "{}", e.message());
}
