use dipho::corpus::loader::plan_load;
use dipho::corpus::search::{
    addressable, highlighted, no_corpus, phrase_occurrences, plan_search, search_report, SearchHit, WordSpan,
};
use dipho::edl::rebind::CorpusSource;
use dipho::number::Rate;
use dipho::span::SourceId;
use std::ops::Range;
use dipho::corpus::features::{ProsodyData, MFCC_DIM};
use dipho::corpus::manifest::{
    default_true, Analysis, Chunk, Manifest, Phoneme, ProsodyMeta, Segment, Turn, Word,
};
use dipho::fine::{parse_fine, Fine};
use dipho::number::Real;
use serde_json::Value;

fn ns(seconds: f64) -> i64 {
    (seconds * 1e9).round() as i64
}

fn fine(seconds: f64) -> Fine {
    parse_fine(&seconds.to_string()).unwrap()
}

fn quantity(v: &Value) -> Real {
    Real::Nano(ns(v.as_f64().unwrap()))
}

fn list<'a>(doc: &'a Value, key: &str) -> &'a Vec<Value> {
    doc.get(key).unwrap().as_array().unwrap()
}

fn text(v: &Value, key: &str) -> String {
    v.get(key).unwrap().as_str().unwrap().to_string()
}

fn index(v: &Value, key: &str) -> usize {
    v.get(key).unwrap().as_u64().unwrap() as usize
}

fn at(v: &Value, key: &str) -> Real {
    quantity(v.get(key).unwrap())
}

fn confidence(v: &Value) -> Option<Real> {
    v.get("confidence").filter(|c| !c.is_null()).map(quantity)
}

fn manifest_of(json: &str) -> Manifest {
    let doc: Value = serde_json::from_str(json).unwrap();
    let analysis = doc.get("analysis").unwrap();
    let prosody = doc.get("prosody").unwrap();
    Manifest {
        schema_version: index(&doc, "schema_version") as u32,
        analysis: Analysis {
            path: text(analysis, "path"),
            duration: fine(analysis.get("duration").unwrap().as_f64().unwrap()),
        },
        tools: doc.get("tools").unwrap().to_string(),
        segments: list(&doc, "segments")
            .iter()
            .map(|s| Segment {
                text: text(s, "text"),
                start: at(s, "start"),
                end: at(s, "end"),
                word_index_start: index(s, "word_index_start"),
                word_index_end: index(s, "word_index_end"),
                confidence: confidence(s),
            })
            .collect(),
        words: list(&doc, "words")
            .iter()
            .map(|w| Word {
                text: text(w, "text"),
                start: at(w, "start"),
                end: at(w, "end"),
                confidence: confidence(w),
                segment_index: index(w, "segment_index"),
            })
            .collect(),
        phonemes: list(&doc, "phonemes")
            .iter()
            .map(|p| Phoneme {
                label: text(p, "label"),
                start: at(p, "start"),
                end: at(p, "end"),
                confidence: confidence(p),
                word_index: p.get("word_index").and_then(Value::as_u64).map(|i| i as usize),
            })
            .collect(),
        turns: list(&doc, "turns")
            .iter()
            .map(|t| Turn { speaker: text(t, "speaker"), start: at(t, "start"), end: at(t, "end") })
            .collect(),
        chunks: list(&doc, "chunks")
            .iter()
            .map(|c| Chunk {
                start: at(c, "start"),
                end: at(c, "end"),
                aligned: c.get("aligned").and_then(Value::as_bool).unwrap_or(default_true()),
            })
            .collect(),
        prosody: ProsodyMeta {
            path: text(prosody, "path"),
            hop: fine(prosody.get("hop").unwrap().as_f64().unwrap()),
            n_frames: index(prosody, "n_frames"),
        },
    }
}

fn silent(n: usize) -> ProsodyData {
    ProsodyData {
        hop: fine(0.01),
        f0: vec![0; n],
        rms_db: vec![0; n],
        mfcc: vec![0; n * MFCC_DIM],
    }
}

const SOURCE_A: &str = r#"{
    "schema_version": 1,
    "analysis": { "path": "audio.wav", "duration": 10.0 },
    "tools": {},
    "segments": [
        { "text": "I have 25 cats", "start": 0.1, "end": 1.9,
          "word_index_start": 0, "word_index_end": 5, "confidence": 0.9 },
        { "text": "25 plus 25", "start": 2.0, "end": 4.0,
          "word_index_start": 5, "word_index_end": 10, "confidence": 0.8 },
        { "text": "no numbers here", "start": 5.0, "end": 6.0,
          "word_index_start": 10, "word_index_end": 13, "confidence": 0.7 }
    ],
    "words": [
        { "text": "i",      "start": 0.1, "end": 0.3, "segment_index": 0 },
        { "text": "have",   "start": 0.3, "end": 0.6, "segment_index": 0 },
        { "text": "twenty", "start": 0.6, "end": 1.0, "segment_index": 0 },
        { "text": "five",   "start": 1.0, "end": 1.4, "segment_index": 0 },
        { "text": "cats",   "start": 1.4, "end": 1.9, "segment_index": 0 },
        { "text": "twenty", "start": 2.0, "end": 2.4, "segment_index": 1 },
        { "text": "five",   "start": 2.4, "end": 2.8, "segment_index": 1 },
        { "text": "plus",   "start": 2.8, "end": 3.2, "segment_index": 1 },
        { "text": "twenty", "start": 3.2, "end": 3.6, "segment_index": 1 },
        { "text": "five",   "start": 3.6, "end": 4.0, "segment_index": 1 },
        { "text": "no",      "start": 5.0, "end": 5.3, "segment_index": 2 },
        { "text": "numbers", "start": 5.3, "end": 5.7, "segment_index": 2 },
        { "text": "here",    "start": 5.7, "end": 6.0, "segment_index": 2 }
    ],
    "phonemes": [],
    "turns": [ { "speaker": "SPEAKER_00", "start": 0.0, "end": 6.0 } ],
    "chunks": [],
    "prosody": { "path": "prosody.npz", "hop": 0.01, "n_frames": 1001 }
}"#;

const SOURCE_B: &str = r#"{
    "schema_version": 1,
    "analysis": { "path": "audio.wav", "duration": 10.0 },
    "tools": {},
    "segments": [
        { "text": "twenty five again", "start": 1.0, "end": 3.0,
          "word_index_start": 0, "word_index_end": 3, "confidence": null },
        { "text": "don't stop", "start": 4.0, "end": 5.0,
          "word_index_start": 3, "word_index_end": 5, "confidence": 0.95 }
    ],
    "words": [
        { "text": "twenty", "start": 1.0, "end": 1.5, "segment_index": 0 },
        { "text": "five",   "start": 1.5, "end": 2.0, "segment_index": 0 },
        { "text": "again",  "start": 2.0, "end": 3.0, "segment_index": 0 },
        { "text": "don't",  "start": 4.0, "end": 4.5, "segment_index": 1 },
        { "text": "stop",   "start": 4.5, "end": 5.0, "segment_index": 1 }
    ],
    "phonemes": [],
    "turns": [],
    "chunks": [],
    "prosody": { "path": "prosody.npz", "hop": 0.01, "n_frames": 1001 }
}"#;

fn source(id: i64) -> CorpusSource {
    CorpusSource {
        id: SourceId(id),
        origin: format!("https://example.test/{id}"),
        origin_id: format!("youtube:src{id}"),
        master_path: "master.mkv".to_string(),
        master_hash: format!("hash-{id}"),
        duration: ns(10.0),
        fps: Rate::new(30, 1),
    }
}

/// Every utterance of the two sources, as a hit without matches: "twenty five"
/// appears in three utterances (twice in one of them) across both, plus an
/// utterance without it.
fn corpus_with_numbers() -> Vec<SearchHit> {
    let mut out = Vec::new();
    for (id, json) in [(1, SOURCE_A), (2, SOURCE_B)] {
        let manifest = manifest_of(json);
        let plan = plan_load(&manifest, &silent(1001), &Vec::new()).unwrap();
        for (k, (row, segment)) in plan.utterances.iter().zip(&manifest.segments).enumerate() {
            out.push(SearchHit {
                utterance_id: out.len() as i64,
                source: source(id),
                t_start: row.t_start,
                t_end: row.t_end,
                text: segment.text.clone(),
                speaker: row.speaker.map(|i| plan.speakers[i].label.clone()),
                multi_speaker: row.multi_speaker,
                confidence: segment.confidence,
                words: plan
                    .words
                    .iter()
                    .zip(&manifest.words)
                    .filter(|(r, _)| r.utterance == k)
                    .map(|(r, w)| WordSpan {
                        text: w.text.clone(),
                        t_start: r.t_start,
                        t_end: r.t_end,
                        confidence: w.confidence,
                    })
                    .collect(),
                matches: Vec::new(),
            });
        }
    }
    out
}

/// The hits of a query: the utterances that its phrase occurs in.
fn run(query: &str) -> Vec<SearchHit> {
    let Some((tokens, _)) = plan_search(query) else {
        return Vec::new();
    };
    let mut hits = Vec::new();
    for mut hit in corpus_with_numbers() {
        if let Some(matches) = addressable(&hit.words, &tokens) {
            hit.matches = matches;
            hits.push(hit);
        }
    }
    hits
}

fn ranges(r: &[(usize, usize)]) -> Vec<Range<usize>> {
    r.iter().map(|&(a, b)| a..b).collect()
}

#[test]
fn word_query_returns_every_utterance_with_exact_spans() {
    let hits = run("twenty");
    assert_eq!(hits.len(), 3);
    // First hit: "I have 25 cats", token "twenty" at ordinal 2.
    let hit = &hits[0];
    assert_eq!(hit.text, "I have 25 cats");
    assert_eq!(hit.matches, ranges(&[(2, 3)]));
    let (start, end) = hit.match_span(&hit.matches[0]);
    assert!(start == ns(0.6) && end == ns(1.0));
    // Second hit has two occurrences.
    assert_eq!(hits[1].matches, ranges(&[(0, 1), (3, 4)]));
}

#[test]
fn phrase_query_finds_consecutive_words_only() {
    let hits = run("five plus");
    assert_eq!(hits.len(), 1);
    assert_eq!(hits[0].matches, ranges(&[(1, 3)]));
    let (start, end) = hits[0].match_span(&hits[0].matches[0]);
    assert!(start == ns(2.4) && end == ns(3.2));
    // "cats twenty" spans an utterance boundary: no hit.
    assert!(run("cats twenty").is_empty());
}

#[test]
fn digits_in_the_query_find_expanded_words() {
    // "25" must find "twenty five".
    let hits = run("25");
    assert_eq!(hits.len(), 3);
    assert_eq!(hits[1].matches, ranges(&[(0, 2), (3, 5)]));
    let (start, end) = hits[1].match_span(&hits[1].matches[1]);
    assert!(start == ns(3.2) && end == ns(4.0));
    // Mixed digits and words, with punctuation and case noise.
    let hits = run("Have 25 CATS!");
    assert_eq!(hits.len(), 1);
    assert_eq!(hits[0].matches, ranges(&[(1, 5)]));
}

#[test]
fn speaker_and_confidence_ride_along() {
    let hits = run("cats");
    assert_eq!(hits.len(), 1);
    assert_eq!(hits[0].speaker.as_deref(), Some("SPEAKER_00"));
    assert_eq!(hits[0].confidence, Some(Real::Nano(ns(0.9))));
    // Source B has no turns: no speaker; null confidence passes through.
    let hits = run("again");
    assert_eq!(hits[0].speaker, None);
    assert_eq!(hits[0].confidence, None);
}

#[test]
fn apostrophe_words_match_exactly() {
    let hits = run("don't stop");
    assert_eq!(hits.len(), 1);
    assert_eq!(hits[0].matches, ranges(&[(0, 2)]));
}

#[test]
fn empty_and_unmatched_queries_return_nothing() {
    assert!(run("").is_empty());
    assert!(run("...").is_empty());
    assert!(run("zebra").is_empty());
    assert!(run("twenty zebra").is_empty());
}

#[test]
fn occurrences_may_overlap_and_ignore_edge_apostrophes() {
    let words: Vec<WordSpan> = ["no", "no", "'no"]
        .iter()
        .enumerate()
        .map(|(i, w)| WordSpan {
            text: w.to_string(),
            t_start: i as i64,
            t_end: i as i64 + 1,
            confidence: None,
        })
        .collect();
    let tokens = vec!["no".to_string(), "no".to_string()];
    assert_eq!(phrase_occurrences(&words, &tokens), ranges(&[(0, 2), (1, 3)]));
}

#[test]
fn reports_bracket_each_occurrence() {
    let hits = run("25");
    assert_eq!(highlighted(&hits[1]), "[twenty five] plus [twenty five]");
    let report = search_report(&hits, "twenty five");
    assert_eq!(report[0], "4 matches in 3 utterances for \"twenty five\"");
    assert_eq!(report[2], "source 1  0.10–1.90s  SPEAKER_00  conf 0.90");
    assert_eq!(report[3], "  i have [twenty five] cats");
    assert_eq!(report[4], "    match 0.60–1.40s");
    let hits = run("again");
    let report = search_report(&hits, "again");
    assert_eq!(report[0], "1 match in 1 utterance for \"again\"");
    assert_eq!(report[2], "source 2  1.00–3.00s  (unknown speaker)  conf —");
    assert_eq!(search_report(&Vec::new(), "zebra"), vec!["no hits for \"zebra\""]);
}

#[test]
fn a_missing_corpus_says_what_to_do() {
    assert_eq!(
        no_corpus("c/corpus.db"),
        "no corpus at c/corpus.db — run `dipho ingest <url|file>` first"
    );
}
