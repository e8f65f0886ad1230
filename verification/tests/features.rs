use dipho::corpus::features::{f32_blob, unit_frames, voiced_f0_median, ProsodyData, UnitFrames, MFCC_DIM};
use dipho::fine::{parse_fine, Fine};

fn ns(seconds: f64) -> i64 {
    (seconds * 1e9).round() as i64
}

fn fine(seconds: f64) -> Fine {
    parse_fine(&seconds.to_string()).unwrap()
}

/// hop 10 ms, 10 frames; f0 voiced (and rising) from frame 5 on;
/// mfcc[i][d] = i + 100 d; rms[i] = -20 - i.
fn fixture() -> ProsodyData {
    let n = 10;
    ProsodyData {
        hop: fine(0.01),
        f0: (0..n)
            .map(|i| (if i < 5 { 0.0f32 } else { 100.0 + 10.0 * i as f32 }).to_bits())
            .collect(),
        rms_db: (0..n).map(|i| (-20.0 - i as f32).to_bits()).collect(),
        mfcc: (0..n)
            .flat_map(|i| (0..MFCC_DIM).map(move |d| (i as f32 + 100.0 * d as f32).to_bits()))
            .collect(),
    }
}

fn frames(p: &ProsodyData, t_start: f64, t_end: f64) -> UnitFrames {
    unit_frames(&p.f0, p.hop, ns(t_start), ns(t_end))
}

fn mean(samples: &[u32], from: usize, to: usize) -> f64 {
    let sum: f64 = samples[from..to].iter().map(|b| f64::from(f32::from_bits(*b))).sum();
    sum / (to - from) as f64
}

fn mfcc_mean(p: &ProsodyData, from: usize, to: usize, d: usize) -> f64 {
    let sum: f64 = (from..to)
        .map(|i| f64::from(f32::from_bits(p.mfcc[i * MFCC_DIM + d])))
        .sum();
    sum / (to - from) as f64
}

fn median(pair: Option<(u32, u32)>) -> Option<f64> {
    pair.map(|(a, b)| 0.5 * (f64::from(f32::from_bits(a)) + f64::from(f32::from_bits(b))))
}

#[test]
fn membership_is_center_in_half_open_span() {
    let p = fixture();
    // Centers 0.02, 0.03, 0.04 are in; 0.05 is excluded (half-open).
    let f = frames(&p, 0.02, 0.05);
    assert_eq!(mfcc_mean(&p, f.from, f.head_end, 0), 3.0); // mean of frames 2,3,4
    assert_eq!((f.from, f.head_end), (f.tail_start, f.to)); // n <= 3 collapses head/tail
    assert!((mean(&p.rms_db, f.from, f.to) - (-23.0)).abs() < 1e-9);
}

#[test]
fn head_and_tail_average_three_frames() {
    let p = fixture();
    let f = frames(&p, 0.0, 0.10); // frames 0..=9
    assert_eq!(mfcc_mean(&p, f.from, f.head_end, 0), 1.0); // mean(0,1,2)
    assert_eq!(mfcc_mean(&p, f.tail_start, f.to, 0), 8.0); // mean(7,8,9)
    assert_eq!(mfcc_mean(&p, f.from, f.head_end, 2), 201.0); // dimension offset intact
    assert!((mean(&p.rms_db, f.from, f.head_end) - (-21.0)).abs() < 1e-9);
    assert!((mean(&p.rms_db, f.tail_start, f.to) - (-28.0)).abs() < 1e-9);
}

#[test]
fn empty_span_falls_back_to_nearest_midpoint_frame() {
    let p = fixture();
    // No frame center in [0.041, 0.047); midpoint 0.044 is frame 4's.
    let f = frames(&p, 0.041, 0.047);
    assert_eq!(mfcc_mean(&p, f.from, f.head_end, 0), 4.0);
    assert_eq!(mfcc_mean(&p, f.tail_start, f.to, 0), 4.0);
    assert!((mean(&p.rms_db, f.from, f.to) - (-24.0)).abs() < 1e-9);
}

#[test]
fn unvoiced_boundary_reads_none() {
    let p = fixture();
    let f = frames(&p, 0.0, 0.10);
    assert_eq!(median(f.f0_head), None); // frames 0,1,2 unvoiced
    assert_eq!(median(f.f0_tail), Some(180.0)); // median of 170,180,190
    assert!((f.voiced.len() as f64 / (f.to - f.from) as f64 - 0.5).abs() < 1e-9);
    assert_eq!(median(f.f0_median), Some(170.0)); // median of 150..=190
}

#[test]
fn fully_unvoiced_unit_has_no_pitch_summaries() {
    let p = fixture();
    let f = frames(&p, 0.0, 0.05);
    assert_eq!(median(f.f0_median), None);
    assert!(f.voiced.len() < 2); // too few for a slope
    assert!((f.voiced.len() as f64 - 0.0).abs() < 1e-9);
}

#[test]
fn even_count_median_averages_the_middle_pair() {
    let p = fixture();
    let f = frames(&p, 0.05, 0.09); // voiced 150,160,170,180
    assert_eq!(median(f.f0_median), Some(165.0));
}

#[test]
fn blob_encoding_is_little_endian_f32() {
    assert_eq!(f32_blob(&vec![1.0f32.to_bits()]), 1.0f32.to_le_bytes().to_vec());
    assert_eq!(f32_blob(&vec![1.0f32.to_bits(), (-2.5f32).to_bits()]).len(), 8);
}

#[test]
fn a_median_skips_unvoiced_samples() {
    let bits: Vec<u32> = [0.0f32, 300.0, 100.0, 200.0].iter().map(|v| v.to_bits()).collect();
    assert_eq!(median(voiced_f0_median(&bits, 0, 4)), Some(200.0));
    assert_eq!(voiced_f0_median(&bits, 0, 1), None);
}

#[test]
fn odd_hops_fall_back_to_one_frame() {
    let p = fixture();
    let range = |hop, from: f64, to: f64| {
        let u = unit_frames(&p.f0, hop, ns(from), ns(to));
        (u.from, u.to)
    };
    assert_eq!(range(Fine::NaN, 0.02, 0.05), (0, 1));
    assert_eq!(range(Fine::Infinity, 0.02, 0.05), (0, 1));
    // Every frame is centered at zero.
    assert_eq!(range(Fine::Atto(0), 0.0, 0.05), (0, 10));
    assert_eq!(range(Fine::Atto(0), 0.02, 0.05), (9, 10));
    assert_eq!(range(fine(-0.01), -0.05, -0.02), (4, 5));
    assert_eq!(range(Fine::Atto(i128::MIN), -0.05, -0.02), (0, 1));
    assert_eq!(range(Fine::Atto(i128::MAX), 0.0, 0.05), (0, 1));
    // A hop one nanosecond shorter brings one more center in.
    assert_eq!(range(fine(0.01), 0.0, 0.05), (0, 5));
    assert_eq!(range(fine(0.009999999), 0.0, 0.05), (0, 6));
}

#[test]
fn a_hop_is_not_rounded() {
    // A grid of 512 samples at 48 kHz: frame 93750 is centered at 1000 s, where
    // a hop rounded to a nanosecond would be 31 microseconds off.
    let f0 = vec![0; 93_760];
    let hop = fine(512.0 / 48_000.0);
    let u = unit_frames(&f0, hop, ns(1000.0), ns(1000.05));
    assert_eq!((u.from, u.to), (93_750, 93_755));
    let u = unit_frames(&f0, hop, ns(999.99), ns(1000.0));
    assert_eq!((u.from, u.to), (93_750, 93_751));
}
