use dipho::corpus::diphones;
use dipho::corpus::manifest::Phoneme;
use dipho::corpus::phones::{
    assign_cut_points, build_tier, insert_terminators, merge_sil_runs, noise_excised_view,
    parse_kind, CutClass, Kind, SilOrigin, TierPhone,
};
use dipho::corpus::speakers::{
    carry_forward, is_multi_speaker, max_overlap_speaker, overlap, TurnRow,
};
use dipho::corpus::CorpusError;
use dipho::number::Real;

fn ns(seconds: f64) -> i64 {
    (seconds * 1e9).round() as i64
}

fn phoneme(label: &str, start: f64, end: f64) -> Phoneme {
    Phoneme {
        label: label.to_string(),
        start: Real::Nano(ns(start)),
        end: Real::Nano(ns(end)),
        confidence: None,
        word_index: None,
    }
}

fn tier_of(entries: &[(&str, f64, f64)]) -> Vec<TierPhone> {
    let phonemes: Vec<Phoneme> = entries
        .iter()
        .map(|(label, start, end)| phoneme(label, *start, *end))
        .collect();
    let mut tier = build_tier(&phonemes).unwrap();
    assign_cut_points(&mut tier);
    tier
}

fn labels(tier: &Vec<TierPhone>) -> Vec<String> {
    diphones::derive(tier).iter().map(|d| d.label.clone()).collect()
}

#[test]
fn excised_noise_bridges_under_20ms_and_breaks_over() {
    let tier = tier_of(&[
        ("AA1", 0.0, 0.2),
        ("NOISE", 0.2, 0.215),
        ("N", 0.215, 0.4),
        ("NOISE", 0.4, 0.45),
        ("M", 0.45, 0.6),
    ]);
    assert_eq!(labels(&tier), vec!["AA-N"]);
}

#[test]
fn sil_blocks_transitivity_and_both_sil_never_bond() {
    let tier = tier_of(&[
        ("AA1", 0.0, 0.2),
        ("SIL", 0.2, 0.5),
        ("N", 0.5, 0.7),
        ("SIL", 0.7, 0.9),
        // Within the 20 ms gap but both SIL: never a unit.
        ("SIL", 0.91, 1.0),
    ]);
    assert_eq!(labels(&tier), vec!["AA-SIL", "SIL-N", "N-SIL"]);
}

#[test]
fn sil_boundaries_are_displaced_with_cap() {
    // 600 ms SIL: displacement capped at 200 ms on both sides.
    let tier = tier_of(&[("AA1", 0.0, 0.2), ("SIL", 0.2, 0.8), ("N", 0.8, 1.0)]);
    let d = diphones::derive(&tier);
    assert_eq!(d[0].t_end, ns(0.4)); // AA-SIL ends 200 ms in
    assert_eq!(d[1].t_start, ns(0.6)); // SIL-N starts 200 ms back
    assert!(d[0].t_end < d[1].t_start);

    // 100 ms SIL: displacement is half the duration.
    let tier = tier_of(&[("AA1", 0.0, 0.2), ("SIL", 0.2, 0.3), ("N", 0.3, 0.5)]);
    let d = diphones::derive(&tier);
    assert_eq!(d[0].t_end, ns(0.25));
    assert_eq!(d[1].t_start, ns(0.25));
}

#[test]
fn zero_extent_sil_terminates_without_forming_units() {
    let mut tier = tier_of(&[("AA1", 0.0, 0.2), ("N", 0.2, 0.4)]);
    insert_terminators(&mut tier, &vec![(ns(0.2), SilOrigin::Turn)]);
    assert!(diphones::derive(&tier).is_empty());
}

#[test]
fn seq_is_consecutive_within_chains_and_skips_across_breaks() {
    let tier = tier_of(&[
        ("AA1", 0.0, 0.2),
        ("N", 0.2, 0.4),
        ("M", 0.4, 0.6),
        // 100 ms hard gap
        ("IY1", 0.7, 0.9),
        ("Z", 0.9, 1.1),
    ]);
    let d = diphones::derive(&tier);
    let seqs: Vec<i128> = d.iter().map(|x| x.seq).collect();
    assert_eq!(seqs, vec![0, 1, 3]);
}

#[test]
fn labels_strip_stress_and_keep_it_alongside() {
    let tier = tier_of(&[("K", 0.0, 0.1), ("AE1", 0.1, 0.3)]);
    let d = diphones::derive(&tier);
    assert_eq!(d[0].label, "K-AE");
    assert_eq!(d[0].stress_a, None);
    assert_eq!(d[0].stress_b, Some(1));
}

#[test]
fn parses_stress_marked_labels() {
    let tier = build_tier(&vec![phoneme("AA1", 0.0, 0.1)]).unwrap();
    assert_eq!(tier[0].label(), "AA1");
    assert_eq!(tier[0].base(), "AA");
    assert_eq!(tier[0].stress(), Some(1));
}

#[test]
fn rejects_unknown_labels() {
    assert!(matches!(
        build_tier(&vec![phoneme("QX", 0.0, 0.1)]),
        Err(CorpusError::UnknownPhoneLabel { .. })
    ));
}

#[test]
fn full_arpa_inventory_is_classified() {
    for base in [
        "B", "D", "G", "K", "P", "T", "CH", "JH", "DH", "F", "HH", "S", "SH", "TH", "V", "Z", "ZH",
        "M", "N", "NG", "L", "R", "AA", "AE", "AH", "AO", "EH", "ER", "IH", "IY", "UH", "UW", "AY",
        "AW", "EY", "OW", "OY", "W", "Y",
    ] {
        assert!(CutClass::of(base).is_some(), "unclassified: {base}");
    }
}

#[test]
fn stop_cuts_twenty_percent_in_and_sil_preceded_stop_cuts_at_start() {
    let mut tier = build_tier(&vec![
        phoneme("SIL", 0.0, 0.5),
        phoneme("T", 0.5, 0.6),
        phoneme("AA1", 0.6, 0.8),
        phoneme("K", 0.8, 0.9),
    ])
    .unwrap();
    assign_cut_points(&mut tier);
    assert_eq!(tier[1].cut_t, Some(ns(0.5))); // SIL-preceded: phone start
    assert_eq!(tier[2].cut_t, Some(ns(0.7))); // vowel: midpoint
    assert_eq!(tier[3].cut_t, Some(ns(0.82))); // 20% in
}

#[test]
fn zero_extent_sil_does_not_trigger_the_stop_exception() {
    let mut tier =
        build_tier(&vec![phoneme("AA1", 0.0, 0.2), phoneme("T", 0.2, 0.3)]).unwrap();
    insert_terminators(&mut tier, &vec![(ns(0.2), SilOrigin::Turn)]);
    assign_cut_points(&mut tier);
    let t = tier.iter().find(|p| p.base() == "T").unwrap();
    assert_eq!(t.cut_t, Some(ns(0.22)));
}

#[test]
fn stop_exception_sees_through_an_excised_noise_blip() {
    let mut tier = build_tier(&vec![
        phoneme("SIL", 0.0, 0.5),
        phoneme("NOISE", 0.5, 0.51),
        phoneme("T", 0.51, 0.6),
    ])
    .unwrap();
    assign_cut_points(&mut tier);
    assert_eq!(tier[2].cut_t, Some(ns(0.51)));
}

#[test]
fn diphthongs_and_glides_are_weak_cuts() {
    let tier = build_tier(&vec![phoneme("OW1", 0.0, 0.2), phoneme("W", 0.2, 0.3)]).unwrap();
    assert!(tier[0].weak_cut());
    assert!(tier[1].weak_cut());
    let tier = build_tier(&vec![phoneme("AA1", 0.0, 0.2)]).unwrap();
    assert!(!tier[0].weak_cut());
}

#[test]
fn terminator_is_inserted_where_speech_abuts() {
    let mut tier =
        build_tier(&vec![phoneme("AA1", 0.0, 0.2), phoneme("N", 0.2, 0.4)]).unwrap();
    insert_terminators(&mut tier, &vec![(ns(0.205), SilOrigin::Chunk)]);
    assert_eq!(tier.len(), 3);
    // Snapped to the nearest phone edge, not the raw boundary time.
    assert_eq!(tier[1].t_start, ns(0.2));
    assert_eq!(tier[1].t_end, ns(0.2));
    assert_eq!(tier[1].sil_origin(), Some(SilOrigin::Chunk));
}

#[test]
fn terminator_skipped_inside_or_touching_sil() {
    // Inside the SIL, at its edges, and snapping onto a SIL edge: no-ops.
    for t in [0.4, 0.2, 0.6, 0.65] {
        let mut tier = build_tier(&vec![
            phoneme("AA1", 0.0, 0.2),
            phoneme("SIL", 0.2, 0.6),
            phoneme("N", 0.6, 0.8),
        ])
        .unwrap();
        insert_terminators(&mut tier, &vec![(ns(t), SilOrigin::Turn)]);
        assert_eq!(tier.len(), 3, "boundary at {t} should be a no-op");
    }
}

#[test]
fn duplicate_boundaries_insert_one_terminator() {
    let mut tier =
        build_tier(&vec![phoneme("AA1", 0.0, 0.2), phoneme("N", 0.2, 0.4)]).unwrap();
    insert_terminators(
        &mut tier,
        &vec![(ns(0.2), SilOrigin::Turn), (ns(0.2), SilOrigin::Chunk)],
    );
    assert_eq!(tier.len(), 3);
    assert_eq!(tier[1].sil_origin(), Some(SilOrigin::Turn));
}

#[test]
fn abutting_sils_merge_with_origin_precedence() {
    let mut tier = build_tier(&vec![
        phoneme("AA1", 0.0, 0.2),
        phoneme("SIL", 0.2, 0.4),
        phoneme("SIL", 0.4, 0.6),
        phoneme("N", 0.6, 0.8),
    ])
    .unwrap();
    tier[2].kind = Kind::Sil(SilOrigin::Chunk);
    let tier = merge_sil_runs(tier);
    assert_eq!(tier.len(), 3);
    assert_eq!(tier[1].t_start, ns(0.2));
    assert_eq!(tier[1].t_end, ns(0.6));
    assert_eq!(tier[1].sil_origin(), Some(SilOrigin::Mfa));
}

#[test]
fn a_merged_sil_spans_its_run_and_stays() {
    let mut tier = build_tier(&vec![
        phoneme("AA1", 0.0, 0.2),
        phoneme("SIL", 0.2, 0.7),
        phoneme("SIL", 0.7, 0.8),
        phoneme("SIL", 0.8, 0.9),
        phoneme("N", 0.9, 1.0),
    ])
    .unwrap();
    tier[1].kind = Kind::Sil(SilOrigin::Chunk);
    tier[2].kind = Kind::Sil(SilOrigin::Turn);
    tier[3].kind = Kind::Sil(SilOrigin::Chunk);
    let once = merge_sil_runs(tier);
    assert_eq!(once.len(), 3);
    assert_eq!((once[1].t_start, once[1].t_end), (ns(0.2), ns(0.9)));
    assert_eq!(once[1].sil_origin(), Some(SilOrigin::Turn));
    let again = merge_sil_runs(once.clone());
    assert_eq!(again.len(), 3);
    assert_eq!((again[1].t_start, again[1].t_end), (ns(0.2), ns(0.9)));
    assert_eq!(again[1].sil_origin(), Some(SilOrigin::Turn));
}

#[test]
fn separated_sils_do_not_merge() {
    let tier = build_tier(&vec![
        phoneme("SIL", 0.0, 0.2),
        phoneme("AA1", 0.2, 0.4),
        phoneme("SIL", 0.4, 0.6),
    ])
    .unwrap();
    assert_eq!(merge_sil_runs(tier).len(), 3);
}

#[test]
fn rows_come_out_in_time_order_and_noise_is_skipped_over() {
    let tier = build_tier(&vec![
        phoneme("N", 0.4, 0.6),
        phoneme("NOISE", 0.2, 0.4),
        phoneme("AA1", 0.0, 0.2),
    ])
    .unwrap();
    let names: Vec<String> = tier.iter().map(|p| p.label()).collect();
    assert_eq!(names, vec!["AA1", "NOISE", "N"]);
    assert_eq!(noise_excised_view(&tier), vec![0, 2]);
    assert!(tier[1].is_noise() && !tier[1].is_sil());
    assert_eq!(tier[0].duration(), 200_000_000);
}

#[test]
fn overlaps_and_reserved_labels() {
    assert!(matches!(
        build_tier(&vec![phoneme("AA1", 0.0, 0.2), phoneme("N", 0.1, 0.4)]),
        Err(CorpusError::Contract(_))
    ));
    assert!(matches!(parse_kind("SIL"), Ok(Kind::Sil(SilOrigin::Mfa))));
    assert!(matches!(parse_kind("NOISE"), Ok(Kind::Noise)));
    assert_eq!(SilOrigin::Chunk.as_str(), "chunk");
}

#[test]
fn cut_points_lie_inside_their_phones() {
    let tier = tier_of(&[("T", 0.0, 0.1), ("OW1", 0.1, 0.3), ("S", 0.3, 0.45)]);
    for p in &tier {
        let cut = p.cut_t.unwrap();
        assert!(p.t_start <= cut && cut <= p.t_end);
    }
}

fn turns() -> Vec<TurnRow> {
    vec![
        TurnRow { speaker_id: 1, t_start: ns(0.0), t_end: ns(5.0) },
        TurnRow { speaker_id: 2, t_start: ns(5.0), t_end: ns(10.0) },
    ]
}

fn spans(v: &[&[(f64, f64)]]) -> Vec<Vec<(i64, i64)>> {
    v.iter()
        .map(|s| s.iter().map(|&(a, b)| (ns(a), ns(b))).collect())
        .collect()
}

#[test]
fn max_overlap_picks_dominant_turn() {
    assert_eq!(max_overlap_speaker(&turns(), ns(4.0), ns(7.0)), Some(2));
    assert_eq!(max_overlap_speaker(&turns(), ns(1.0), ns(2.0)), Some(1));
}

#[test]
fn ties_keep_the_earlier_turn_and_zero_overlap_is_none() {
    assert_eq!(max_overlap_speaker(&turns(), ns(4.0), ns(6.0)), Some(1));
    assert_eq!(max_overlap_speaker(&turns(), ns(11.0), ns(12.0)), None);
}

#[test]
fn multi_speaker_needs_a_second_speaker_over_20_percent() {
    // Speaker 1 covers 30% of the span: multi.
    assert!(is_multi_speaker(&turns(), ns(3.5), ns(8.5), Some(2)));
    // Speaker 1 covers 10%: not multi.
    assert!(!is_multi_speaker(&turns(), ns(4.5), ns(9.5), Some(2)));
}

#[test]
fn carry_forward_matches_on_majority_overlap_once_each() {
    let new = spans(&[&[(0.0, 4.0)], &[(5.0, 9.0)], &[(20.0, 21.0)]]);
    let old = spans(&[&[(5.0, 10.0)], &[(0.0, 4.5)]]);
    let assigned = carry_forward(&new, &old);
    assert_eq!(assigned, vec![Some(1), Some(0), None]);
}

#[test]
fn carry_forward_rejects_below_majority_overlap() {
    let new = spans(&[&[(0.0, 10.0)]]);
    let old = spans(&[&[(0.0, 4.0)]]); // 40% of new speech
    assert_eq!(carry_forward(&new, &old), vec![None]);
}

#[test]
fn carry_forward_artifact_cannot_steal_a_speaker() {
    // A 1 s artifact fully inside the old speaker's speech covers 100% of its
    // own set but about 1% of the old speaker's: no claim. The real
    // continuation matches.
    let new = spans(&[&[(0.0, 1.0)], &[(0.0, 102.0)]]);
    let old = spans(&[&[(0.0, 100.0)]]);
    assert_eq!(carry_forward(&new, &old), vec![None, Some(0)]);
}

#[test]
fn carry_forward_passes_a_majority_over_only_for_a_larger_one() {
    // Both new sets overlap the old speaker by half or more; the larger overlap
    // has it, and the other is left without.
    let new = spans(&[&[(0.0, 6.0)], &[(3.0, 10.0)]]);
    let old = spans(&[&[(0.0, 10.0)]]);
    assert_eq!(carry_forward(&new, &old), vec![None, Some(0)]);
    // With a second old speaker to fall back on, nobody is left without.
    let old = spans(&[&[(0.0, 10.0)], &[(0.0, 6.0)]]);
    assert_eq!(carry_forward(&new, &old), vec![Some(1), Some(0)]);
}

#[test]
fn overlap_is_the_common_length() {
    assert_eq!(overlap(0, 10, 5, 20), 5);
    assert_eq!(overlap(0, 5, 5, 20), 0);
    assert_eq!(overlap(0, 5, 9, 20), 0);
}

#[test]
fn inverted_turns_count_against_a_set() {
    let plain = vec![vec![(0, 100)]];
    assert_eq!(carry_forward(&plain, &vec![vec![(0, 100)]]), vec![Some(0)]);
    // The old set sums to less than nothing; the overlap still decides.
    assert_eq!(carry_forward(&plain, &vec![vec![(0, 60), (500, 0)]]), vec![Some(0)]);
    // A new set without speech claims nothing.
    assert_eq!(carry_forward(&vec![vec![(100, 0)]], &plain), vec![None]);
}

#[test]
fn a_second_pass_over_the_boundaries_adds_nothing() {
    let mut tier =
        tier_of(&[("AA1", 0.0, 0.2), ("B", 0.2, 0.4), ("SIL", 0.4, 0.5), ("K", 0.5, 0.6)]);
    let boundaries = vec![
        (ns(0.3), SilOrigin::Chunk),
        (ns(0.45), SilOrigin::Turn),
        (ns(0.1), SilOrigin::Turn),
        (ns(0.7), SilOrigin::Chunk),
    ];
    insert_terminators(&mut tier, &boundaries);
    let once: Vec<_> = tier.iter().map(|p| (p.label(), p.t_start, p.t_end)).collect();
    assert_eq!(tier.len(), 4 + 3);
    assert!(tier.windows(2).all(|w| w[0].t_start <= w[1].t_start));
    insert_terminators(&mut tier, &boundaries);
    let twice: Vec<_> = tier.iter().map(|p| (p.label(), p.t_start, p.t_end)).collect();
    assert_eq!(once, twice);
}
