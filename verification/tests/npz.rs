use dipho::corpus::npz::{dict_value, parse_npy_f32, parse_usize, prosody_from_entries, prosody_from_npz, read_array, ZipEntry};
use dipho::corpus::CorpusError;
use dipho::fine::Fine;
use std::io::{Cursor, Write};

const HOP: Fine = Fine::Atto(10_000_000_000_000_000);

/// Hand-assembled npy v1 payload: little-endian f32, C order.
fn npy(shape: &str, values: &[f32]) -> Vec<u8> {
    let header = format!("{{'descr': '<f4', 'fortran_order': False, 'shape': {shape}, }}");
    let mut padded = header.into_bytes();
    while (10 + padded.len()) % 64 != 0 {
        padded.push(b' ');
    }
    let mut out = b"\x93NUMPY\x01\x00".to_vec();
    out.extend((padded.len() as u16).to_le_bytes());
    out.extend(&padded);
    for v in values {
        out.extend(v.to_le_bytes());
    }
    out
}

fn npz(entries: &[(&str, Vec<u8>)]) -> Vec<u8> {
    let mut zip = zip::ZipWriter::new(Cursor::new(Vec::new()));
    let opts = zip::write::SimpleFileOptions::default()
        .compression_method(zip::CompressionMethod::Stored);
    for (name, data) in entries {
        zip.start_file(format!("{name}.npy"), opts).unwrap();
        zip.write_all(data).unwrap();
    }
    zip.finish().unwrap().into_inner()
}

fn valid_npz() -> Vec<u8> {
    npz(&[
        ("f0", npy("(3,)", &[0.0, 220.0, 230.0])),
        ("rms_db", npy("(3,)", &[-30.0, -20.0, -25.0])),
        ("mfcc", npy("(3, 13)", &[0.5; 39])),
    ])
}

#[test]
fn parses_a_valid_npz() {
    let p = prosody_from_npz(&valid_npz(), HOP).unwrap();
    assert_eq!(p.hop, HOP);
    let f0: Vec<f32> = p.f0.iter().map(|b| f32::from_bits(*b)).collect();
    assert_eq!(f0, vec![0.0, 220.0, 230.0]);
    assert_eq!(p.rms_db.len(), 3);
    assert_eq!(p.mfcc.len(), 39);
    assert_eq!(p.n_frames(), 3);
}

#[test]
fn ignores_extra_entries() {
    let mut entries = vec![
        ("f0", npy("(1,)", &[100.0])),
        ("rms_db", npy("(1,)", &[-10.0])),
        ("mfcc", npy("(1, 13)", &[0.0; 13])),
    ];
    entries.push(("input_fingerprint", npy("(1,)", &[0.0])));
    assert!(prosody_from_npz(&npz(&entries), HOP).is_ok());
}

#[test]
fn rejects_missing_entry() {
    let bytes = npz(&[("f0", npy("(1,)", &[100.0]))]);
    assert!(matches!(
        prosody_from_npz(&bytes, HOP),
        Err(CorpusError::Npz(msg)) if msg.contains("rms_db")
    ));
}

#[test]
fn rejects_wrong_mfcc_width() {
    let bytes = npz(&[
        ("f0", npy("(1,)", &[100.0])),
        ("rms_db", npy("(1,)", &[-10.0])),
        ("mfcc", npy("(1, 12)", &[0.0; 12])),
    ]);
    assert!(matches!(prosody_from_npz(&bytes, HOP), Err(CorpusError::Npz(_))));
}

#[test]
fn rejects_wrong_dtype() {
    let header = "{'descr': '<f8', 'fortran_order': False, 'shape': (1,), }";
    let mut bad = b"\x93NUMPY\x01\x00".to_vec();
    bad.extend((header.len() as u16).to_le_bytes());
    bad.extend(header.as_bytes());
    bad.extend(1.0f64.to_le_bytes());
    let bytes = npz(&[
        ("f0", bad),
        ("rms_db", npy("(1,)", &[0.0])),
        ("mfcc", npy("(1, 13)", &[0.0; 13])),
    ]);
    assert!(matches!(prosody_from_npz(&bytes, HOP), Err(CorpusError::Npz(_))));
}

#[test]
fn rejects_garbage() {
    assert!(matches!(prosody_from_npz(b"not a zip", HOP), Err(CorpusError::Npz(_))));
}

#[test]
fn deflated_entries_read_like_stored_ones() {
    let mut zip = zip::ZipWriter::new(Cursor::new(Vec::new()));
    let opts = zip::write::SimpleFileOptions::default()
        .compression_method(zip::CompressionMethod::Deflated);
    for (name, data) in [
        ("f0", npy("(2,)", &[1.0, 2.0])),
        ("rms_db", npy("(2,)", &[3.0, 4.0])),
        ("mfcc", npy("(2, 13)", &[0.0; 26])),
    ] {
        zip.start_file(format!("{name}.npy"), opts).unwrap();
        zip.write_all(&data).unwrap();
    }
    let bytes = zip.finish().unwrap().into_inner();
    let p = prosody_from_npz(&bytes, HOP).unwrap();
    assert_eq!(p.f0, vec![1.0f32.to_bits(), 2.0f32.to_bits()]);
}

#[test]
fn npy_headers_and_payloads() {
    let (samples, shape) = parse_npy_f32(&npy("(2, 1)", &[1.5, -2.0])).unwrap();
    assert_eq!(shape, vec![2, 1]);
    assert_eq!(samples, vec![1.5f32.to_bits(), (-2.0f32).to_bits()]);
    // A payload that does not fill the shape.
    assert!(parse_npy_f32(&npy("(3,)", &[1.0])).is_err());
    assert!(parse_npy_f32(b"short").is_err());
    // A header that is not text.
    let mut bad = npy("(1,)", &[1.0]);
    bad[12] = 0xff;
    assert!(parse_npy_f32(&bad).is_err());
    let header: Vec<char> = "{'descr': '<f4', 'shape': (3,), }".chars().collect();
    let shape: String = dict_value(&header, "shape").unwrap().iter().collect();
    assert_eq!(shape.trim(), "(3,)");
    assert!(dict_value(&header, "order").is_none());
    assert_eq!(parse_usize(&"+12".chars().collect()), Some(12));
    assert_eq!(parse_usize(&"-1".chars().collect()), None);
}

#[test]
fn entries_decide_alone() {
    let entry = |v: Vec<u8>| ZipEntry::Data(v);
    let f0 = entry(npy("(1,)", &[5.0]));
    let rms = entry(npy("(1,)", &[6.0]));
    let mfcc = entry(npy("(1, 13)", &[0.0; 13]));
    let p = prosody_from_entries(HOP, &f0, &rms, &mfcc).unwrap();
    assert_eq!(p.f0, vec![5.0f32.to_bits()]);
    let gone = ZipEntry::Missing("no such entry".to_string());
    assert!(matches!(
        prosody_from_entries(HOP, &f0, &gone, &mfcc),
        Err(CorpusError::Npz(msg)) if msg.contains("rms_db")
    ));
    assert!(read_array("f0", &f0).is_ok());
    let unreadable = ZipEntry::Unreadable("bad crc".to_string());
    assert!(read_array("f0", &unreadable).is_err());
}
